use sluice::governor::{
    admit_request, Governor, ModelPermit, DISSOLVE_AFTER, EVIDENCE_WINDOW,
};

const SECOND: u128 = 1_000_000_000;

fn hold(g: &mut Governor, model: &str, n: usize) -> Vec<ModelPermit> {
    (0..n).map(|_| admit_request(g, model, 0).unwrap()).collect()
}

fn let_go(g: &mut Governor, held: Vec<ModelPermit>) {
    for p in held {
        p.release(g);
    }
}

#[test]
fn a_model_starts_ungoverned() {
    let mut g = Governor::new();
    assert_eq!(g.limit("m", 0), 0);
}

/// One key being rebuffed over and over is a lane problem. Governing the model here
/// would throttle every healthy key because one key is sick.
#[test]
fn repeated_rebuffs_on_one_key_do_not_indict_the_model() {
    let mut g = Governor::new();
    for _ in 0..10 {
        g.note_rebuff("m", 0, 0);
    }
    assert_eq!(g.limit("m", 0), 0);
}

#[test]
fn rebuffs_across_distinct_keys_indict_the_model() {
    let mut g = Governor::new();
    g.note_rebuff("m", 0, 0);
    assert_eq!(g.limit("m", 0), 0, "one key is not yet evidence");
    let line = g.note_rebuff("m", 1, 0);
    assert!(g.limit("m", 0) > 0, "two distinct keys indicts the model");
    assert!(line.is_some(), "the turn is worth a log line");
}

#[test]
fn evidence_older_than_the_window_is_not_counted() {
    let mut g = Governor::new();
    g.note_rebuff("m", 0, 0);
    // The first rebuff has aged out by the time the second key fails, so the
    // two never coexist as evidence and the model stays ungoverned.
    let later = EVIDENCE_WINDOW + SECOND;
    g.note_rebuff("m", 1, later);
    assert_eq!(g.limit("m", later), 0);
}

#[test]
fn one_models_pressure_does_not_govern_another() {
    let mut g = Governor::new();
    g.note_rebuff("busy", 0, 0);
    g.note_rebuff("busy", 1, 0);
    assert!(g.limit("busy", 0) > 0);
    assert_eq!(g.limit("quiet", 0), 0, "pressure is per model");
}

#[test]
fn a_governed_model_admits_up_to_its_cap_then_refuses() {
    let mut g = Governor::new();
    // Four in flight when the pressure shows up, so the cap lands at two.
    let held = hold(&mut g, "m", 4);
    g.note_rebuff("m", 0, 0);
    g.note_rebuff("m", 1, 0);
    assert_eq!(g.limit("m", 0), 2);
    let_go(&mut g, held);

    let _a = admit_request(&mut g, "m", 0).expect("first fits under the cap");
    let _b = admit_request(&mut g, "m", 0).expect("second fits under the cap");
    assert!(
        admit_request(&mut g, "m", 0).is_none(),
        "third exceeds the cap"
    );
}

#[test]
fn a_permit_frees_its_slot_on_drop() {
    let mut g = Governor::new();
    let held = hold(&mut g, "m", 2);
    g.note_rebuff("m", 0, 0);
    g.note_rebuff("m", 1, 0);
    let_go(&mut g, held);
    assert_eq!(g.inflight("m"), 0);
    assert!(
        admit_request(&mut g, "m", 0).is_some(),
        "freed slots are reusable"
    );
}

#[test]
fn an_ungoverned_model_admits_without_limit() {
    let mut g = Governor::new();
    let held: Vec<_> = (0..64).map(|_| admit_request(&mut g, "m", 0)).collect();
    assert!(held.iter().all(|p| p.is_some()));
}

#[test]
fn pressured_reports_only_governed_models() {
    let mut g = Governor::new();
    let _quiet = admit_request(&mut g, "quiet", 0).unwrap();
    assert!(g.pressured(0).is_empty(), "nothing is under pressure yet");

    g.note_rebuff("busy", 0, 0);
    g.note_rebuff("busy", 1, 0);
    let reported = g.pressured(0);
    assert_eq!(reported.len(), 1, "only the governed model is reported");
    assert_eq!(reported[0].model, "busy");
    assert!(reported[0].limit > 0);
}

#[test]
fn a_quiet_model_returns_to_ungoverned() {
    let mut g = Governor::new();
    g.note_rebuff("m", 0, 0);
    g.note_rebuff("m", 1, 0);
    assert!(g.limit("m", 0) > 0);
    let much_later = DISSOLVE_AFTER + SECOND;
    assert_eq!(
        g.limit("m", much_later),
        0,
        "the provider's ceiling moves with other tenants; a stale cap is wrong"
    );
}

#[test]
fn pressured_models_are_listed_by_name() {
    let mut g = Governor::new();
    for m in ["zeta", "alpha", "mid"] {
        g.note_rebuff(m, 0, 0);
        g.note_rebuff(m, 1, 0);
    }
    let names: Vec<String> = g.pressured(0).into_iter().map(|p| p.model).collect();
    assert_eq!(names, ["alpha", "mid", "zeta"]);
}

#[test]
fn the_cap_follows_from_the_keys_of_the_last_ten_seconds() {
    let mut g = Governor::new();
    let held = hold(&mut g, "m", 8);
    g.note_rebuff("m", 0, 0);
    g.note_rebuff("m", 1, EVIDENCE_WINDOW);
    assert_eq!(g.limit("m", EVIDENCE_WINDOW), 0, "the first is no evidence any more");
    g.note_rebuff("m", 2, EVIDENCE_WINDOW + SECOND);
    assert_eq!(g.limit("m", EVIDENCE_WINDOW + SECOND), 4);
    let_go(&mut g, held);
    g.note_rebuff("m", 3, EVIDENCE_WINDOW + 2 * SECOND);
    assert_eq!(g.limit("m", EVIDENCE_WINDOW + 2 * SECOND), 1);
}

#[test]
fn in_flight_are_the_permits_held() {
    let mut g = Governor::new();
    let mut held = hold(&mut g, "m", 3);
    let other = hold(&mut g, "n", 2);
    held.pop().unwrap().release(&mut g);
    g.note_rebuff("m", 0, SECOND);
    g.limit("m", SECOND);
    g.pressured(2 * SECOND);
    assert_eq!(g.inflight("m"), 2);
    assert_eq!(g.inflight("n"), 2);
    assert_eq!(g.inflight("never"), 0);
    let_go(&mut g, held);
    let_go(&mut g, other);
    assert_eq!(g.inflight("m"), 0);
    assert_eq!(g.inflight("n"), 0);
}
