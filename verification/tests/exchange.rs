use sluice::config::Protocol;
use sluice::dispatch::Permit;
use sluice::exchange::{Effect, Event, Exchange, Next};
use sluice::proxy::PlanStep;

fn step(provider: Option<&str>, model: Option<&str>) -> PlanStep {
    PlanStep {
        provider: provider.map(|p| p.to_string()),
        model: model.map(|m| m.to_string()),
    }
}

fn permit(lane_idx: usize) -> Permit {
    Permit {
        lane_idx,
        provider: "nim".into(),
        base_url: "http://nim.test".into(),
        key: format!("key-{lane_idx}"),
        protocol: Protocol::OpenAi,
    }
}

fn walk(streaming: bool, plan: Vec<PlanStep>, fallback: Option<Vec<u8>>) -> Exchange {
    Exchange::new(
        streaming,
        "m".into(),
        "/v1/chat/completions".into(),
        vec![],
        plan,
        br#"{"model":"m"}"#.to_vec(),
        fallback,
    )
}

fn answered(status: u16) -> Event {
    Event::Answered {
        status,
        retry_after: None,
    }
}

fn to_sending(x: &mut Exchange, first: Event, lane: usize) {
    let (_, n) = x.advance(first);
    assert!(matches!(n, Next::Admit(_)));
    let (_, n) = x.advance(Event::Admitted);
    assert!(matches!(n, Next::Acquire(_)));
    let (_, n) = x.advance(Event::Granted(permit(lane)));
    assert!(matches!(n, Next::Send(_)));
}

#[test]
fn a_good_answer_is_relayed() {
    let mut x = walk(false, vec![step(None, None)], None);
    to_sending(&mut x, Event::Begin, 0);
    let (effects, n) = x.advance(answered(200));
    assert!(matches!(n, Next::Relay));
    assert!(effects.iter().any(|e| matches!(e, Effect::Served(p) if p == "nim")));
}

#[test]
fn a_rebuffed_key_fails_over_to_the_next_step() {
    let mut x = walk(false, vec![step(None, None), step(None, None)], None);
    to_sending(&mut x, Event::Begin, 0);
    let (effects, n) = x.advance(Event::Answered {
        status: 429,
        retry_after: Some("3".into()),
    });
    assert!(effects.iter().any(|e| matches!(
        e,
        Effect::Rebuffed { lane: 0, status: 429, .. }
    )));
    assert_eq!(x.excluded, vec![0], "the lane that failed is not asked again");
    assert!(matches!(n, Next::Admit(_)));
    let (_, n) = x.advance(Event::Admitted);
    assert!(matches!(n, Next::Acquire(None)));
    let (_, n) = x.advance(Event::Granted(permit(1)));
    match n {
        Next::Send(out) => assert!(out
            .headers
            .contains(&("authorization".to_string(), "Bearer key-1".to_string()))),
        _ => panic!("the second lane is tried"),
    }
    let (_, n) = x.advance(answered(200));
    assert!(matches!(n, Next::Relay));
}

#[test]
fn a_step_of_an_alias_names_its_provider_and_model() {
    let mut x = walk(false, vec![step(Some("backup"), Some("real"))], None);
    let (_, n) = x.advance(Event::Begin);
    match n {
        Next::Admit(m) => assert_eq!(m, "real"),
        _ => panic!("the model of the step is asked for"),
    }
    let (_, n) = x.advance(Event::Admitted);
    match n {
        Next::Acquire(p) => assert_eq!(p.as_deref(), Some("backup")),
        _ => panic!("the provider of the step is asked for"),
    }
    let (_, n) = x.advance(Event::Granted(permit(4)));
    match n {
        Next::Send(out) => assert!(String::from_utf8(out.body).unwrap().contains("real")),
        _ => panic!("the request goes out"),
    }
}

#[test]
fn a_plan_that_is_used_up_is_answered() {
    let mut x = walk(false, vec![step(Some("gone"), None)], None);
    x.advance(Event::Begin);
    x.advance(Event::Admitted);
    let (_, n) = x.advance(Event::NoLane);
    match n {
        Next::Answer(r) => assert!(r.status >= 500, "{}", r.status),
        _ => panic!("nothing is left to try"),
    }
}

#[test]
fn a_lost_request_ends_the_walk() {
    let mut x = walk(false, vec![step(None, None)], None);
    x.advance(Event::Begin);
    let (effects, n) = x.advance(Event::Lost);
    assert!(effects.iter().any(|e| matches!(e, Effect::Deadline)));
    match n {
        Next::Answer(r) => assert_eq!(r.status, 504),
        _ => panic!("an expired deadline is answered"),
    }

    let mut x = walk(true, vec![step(None, None)], None);
    x.advance(Event::Begin);
    let (_, n) = x.advance(Event::Lost);
    assert!(matches!(n, Next::Break(_)), "a stream is broken off");
}

#[test]
fn a_model_rejecting_stream_options_still_gets_its_stream() {
    let plain = br#"{"model":"m","stream":true}"#.to_vec();
    let mut x = walk(true, vec![step(None, None)], Some(plain.clone()));
    to_sending(&mut x, Event::Begin, 0);
    let (_, n) = x.advance(answered(400));
    match n {
        Next::Send(out) => assert_eq!(out.body, plain, "retried as the client wrote it"),
        _ => panic!("our own addition is taken back first"),
    }
    let (effects, n) = x.advance(answered(200));
    assert!(matches!(n, Next::Relay));
    assert!(effects.iter().any(|e| matches!(e, Effect::RejectsUsage)));
}
