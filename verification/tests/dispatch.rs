use sluice::config::Protocol;
use sluice::dispatch::{Dispatcher, Grant, Line, Permit, Turn};
use sluice::pool::{LaneSpec, Pool};

const SECOND: u128 = 1_000_000_000;
const MILLISECOND: u128 = 1_000_000;

fn spec(name: &str, rpm: usize) -> LaneSpec {
    LaneSpec {
        provider: name.into(),
        base_url: format!("http://{name}.test"),
        key: format!("{name}-key"),
        rpm,
        protocol: Default::default(),
    }
}

/// Wait as often as the dispatcher asks for it, on a clock of our own.
fn wait(d: &mut Dispatcher, session: Option<u64>, clock: &mut u128) -> Permit {
    loop {
        match d.acquire_for(None, &[], session, None, *clock) {
            Grant::Slot(p) => return p,
            Grant::Wait(until) => {
                assert!(until > *clock, "a wait ends later than it begins");
                *clock = until;
            }
            Grant::NoLane => panic!("a pool with lanes can always serve"),
        }
    }
}

#[test]
fn grants_immediately_and_spreads_across_lanes() {
    let pool = Pool::with_window(vec![spec("a", 1), spec("b", 1)], 300 * MILLISECOND);
    let mut d = Dispatcher::new(pool);
    let mut clock = 0;
    let p1 = wait(&mut d, None, &mut clock);
    let p2 = wait(&mut d, None, &mut clock);
    assert!(clock < 100 * MILLISECOND, "both should be immediate");
    assert_ne!(
        p1.lane_idx, p2.lane_idx,
        "second should spill to the other lane"
    );
}

#[test]
fn affinity_pins_a_session_to_one_lane_then_spills_when_full() {
    let pool = Pool::with_window(vec![spec("a", 2), spec("b", 2)], 60 * SECOND);
    let mut d = Dispatcher::new(pool);
    let s = Some(0xBEEFu64);
    let mut clock = 0;
    let first = wait(&mut d, s, &mut clock).lane_idx;
    let second = wait(&mut d, s, &mut clock).lane_idx;
    assert_eq!(first, second, "a session should stay on its own lane");
    // That lane is now at its rpm of 2, so the third has to spill.
    let third = wait(&mut d, s, &mut clock).lane_idx;
    assert_ne!(third, first, "a full affinity lane must spill, not block");
    assert_eq!(clock, 0, "nothing had to wait");
}

#[test]
fn spillover_spreads_across_lanes_instead_of_filling_the_first() {
    // Both lanes have room throughout, so a first-fit scan would put every
    // request on lane 0 and leave key 1 idle. Least-loaded alternates.
    let pool = Pool::with_window(vec![spec("a", 3), spec("b", 3)], 60 * SECOND);
    let mut d = Dispatcher::new(pool);
    let mut clock = 0;
    let mut on_lane = [0usize; 2];
    for _ in 0..4 {
        on_lane[wait(&mut d, None, &mut clock).lane_idx] += 1;
    }
    assert_eq!(on_lane, [2, 2], "load should spread, not fill lane 0 first");
}

#[test]
fn a_benched_lane_is_skipped_for_a_healthy_one() {
    let mut pool = Pool::with_window(vec![spec("a", 40), spec("b", 40)], 60 * SECOND);
    pool.lane_mut(0).bench(30 * SECOND);
    let mut d = Dispatcher::new(pool);
    let mut clock = 0;
    for _ in 0..3 {
        assert_eq!(
            wait(&mut d, None, &mut clock).lane_idx,
            1,
            "a lane the provider told us to back off from must be routed around"
        );
    }
}

#[test]
fn every_lane_benched_waits_out_the_cooldown_rather_than_failing() {
    let mut pool = Pool::with_window(vec![spec("a", 40)], 60 * SECOND);
    pool.lane_mut(0).bench(200 * MILLISECOND);
    let mut d = Dispatcher::new(pool);
    let mut clock = 0;
    assert_eq!(wait(&mut d, None, &mut clock).lane_idx, 0);
    assert!(
        clock >= 150 * MILLISECOND,
        "a benched pool should wait, not report itself empty"
    );
}

#[test]
fn paces_when_saturated() {
    let pool = Pool::with_window(vec![spec("a", 1)], 300 * MILLISECOND);
    let mut d = Dispatcher::new(pool);
    let mut clock = 0;
    let _p1 = wait(&mut d, None, &mut clock); // immediate
    let _p2 = wait(&mut d, None, &mut clock); // must wait for the lane to free
    assert!(
        clock >= 250 * MILLISECOND,
        "second grant should be paced by the window"
    );
}

#[test]
fn acquire_serves_like_a_request_without_wishes() {
    let mut d = Dispatcher::new(Pool::with_window(vec![spec("a", 1)], SECOND));
    match d.acquire(5) {
        Grant::Slot(p) => {
            assert_eq!(p.lane_idx, 0);
            assert_eq!(p.provider, "a");
            assert_eq!(p.base_url, "http://a.test");
            assert_eq!(p.key, "a-key");
        }
        _ => panic!("an idle lane serves at once"),
    }
    match d.acquire(6) {
        Grant::Wait(until) => assert_eq!(until, 5 + SECOND),
        _ => panic!("a full lane makes the next request wait"),
    }
}

#[test]
fn a_request_no_lane_could_ever_serve_is_told_so() {
    let mut d = Dispatcher::new(Pool::with_window(vec![spec("a", 1), spec("b", 1)], SECOND));
    assert!(matches!(d.acquire_for(Some("c"), &[], None, None, 0), Grant::NoLane));
    assert!(matches!(d.acquire_for(None, &[0, 1], None, None, 0), Grant::NoLane));
    assert!(matches!(
        d.acquire_for(None, &[], None, Some(Protocol::Anthropic), 0),
        Grant::NoLane
    ));
    match d.acquire_for(Some("b"), &[], None, Some(Protocol::OpenAi), 0) {
        Grant::Slot(p) => assert_eq!(p.lane_idx, 1),
        _ => panic!("the named provider serves"),
    }
}

/// Two clients on saturated lanes never put more requests into a window than a
/// lane's limit.
#[test]
fn no_window_ever_holds_more_than_the_limit() {
    let window = 10 * SECOND;
    let mut d = Dispatcher::new(Pool::with_window(vec![spec("a", 3), spec("b", 2)], window));
    let mut clock = 0;
    let mut served: Vec<(usize, u128)> = Vec::new();
    for i in 0..60u128 {
        clock += (i * 7 % 5) * 100 * MILLISECOND;
        let p = wait(&mut d, if i % 3 == 0 { Some(7) } else { None }, &mut clock);
        served.push((p.lane_idx, clock));
    }
    for (lane, at) in &served {
        let limit = if *lane == 0 { 3 } else { 2 };
        let inside = served
            .iter()
            .filter(|(l, t)| l == lane && *t >= *at && *t < *at + window)
            .count();
        assert!(inside <= limit, "{inside} grants of lane {lane} in one window");
    }
}

fn ask(d: &mut Dispatcher, line: &mut Line, ticket: u64, now: u128) -> Turn {
    d.acquire_in_turn(line, ticket, None, &[], None, None, now)
}

#[test]
fn slots_are_granted_in_arrival_order() {
    let mut d = Dispatcher::new(Pool::with_window(vec![spec("a", 1)], SECOND));
    let mut line = Line::new();
    assert!(line.is_open());
    let (first, second, third) = (line.join(), line.join(), line.join());
    assert!(first < second && second < third);

    assert!(matches!(ask(&mut d, &mut line, second, 0), Turn::NotYet));
    assert!(matches!(ask(&mut d, &mut line, first, 0), Turn::Now(Grant::Slot(_))));
    // The lane is full now: the next in line has to wait, and keeps its place.
    match ask(&mut d, &mut line, second, 1) {
        Turn::Now(Grant::Wait(until)) => assert_eq!(until, SECOND),
        _ => panic!("the first in line is told how long to wait"),
    }
    assert!(matches!(ask(&mut d, &mut line, third, SECOND), Turn::NotYet));
    // A caller that gives up yields its place.
    line.leave(second);
    assert!(matches!(
        ask(&mut d, &mut line, third, SECOND),
        Turn::Now(Grant::Slot(_))
    ));
    assert!(matches!(ask(&mut d, &mut line, third, SECOND), Turn::NotYet));
}

#[test]
fn a_request_that_cannot_be_served_does_not_hold_up_the_line() {
    let mut d = Dispatcher::new(Pool::with_window(vec![spec("a", 1)], SECOND));
    let mut line = Line::new();
    let (lost, next) = (line.join(), line.join());
    let turn = d.acquire_in_turn(&mut line, lost, Some("nobody"), &[], None, None, 0);
    assert!(matches!(turn, Turn::Now(Grant::NoLane)));
    assert!(matches!(ask(&mut d, &mut line, next, 0), Turn::Now(Grant::Slot(_))));
}

/// Requests that take up to the margin to arrive never crowd the provider's window.
#[test]
fn the_margin_absorbs_jitter() {
    let mut d = Dispatcher::new(Pool::for_provider_window(vec![spec("a", 3)], 10 * SECOND));
    let mut clock = 0;
    let mut seen: Vec<u128> = Vec::new();
    for i in 0..40u128 {
        wait(&mut d, None, &mut clock);
        seen.push(clock + (i * 37 % 11) * 90 * MILLISECOND);
    }
    for i in 0..seen.len() - 3 {
        assert!(seen[i] + 10 * SECOND <= seen[i + 3]);
    }
}

/// Swapping the pool hands no key a fresh window.
#[test]
fn a_rebuild_in_between_keeps_the_rate() {
    let mut d = Dispatcher::new(Pool::with_window(vec![spec("a", 2)], 10 * SECOND));
    let mut clock = 0;
    wait(&mut d, None, &mut clock);
    wait(&mut d, None, &mut clock);
    let rebuilt = d.pool.rebuild(vec![spec("a", 2)]);
    d.pool = rebuilt;
    wait(&mut d, None, &mut clock);
    assert_eq!(clock, 10 * SECOND);
}
