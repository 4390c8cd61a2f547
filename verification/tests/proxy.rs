use sluice::auth::new_client_key;
use sluice::config::{Alias, AliasTarget, Protocol};
use sluice::dispatch::Permit;
use sluice::governor::Governor;
use sluice::harvest::{
    break_off, harvest, is_empty_completion, relay, Interruption, StreamTail, TAIL_MAX,
};
use sluice::json::{parse, Json};
use sluice::metrics::Metrics;
use sluice::models::{Catalog, ContextLimits};
use sluice::pool::{LaneSpec, Pool};
use sluice::proxy::{
    answer_props, bench_lane, build_request, catalog_request, classify, deadline_exceeded,
    forward_headers, heartbeat_frame, inject_usage, is_hop_by_hop, is_retryable, normalize_path,
    note_shape, open_door, overloaded, parse_context_limit, parse_deadline, prepare_stream, record,
    replace_model, requested_model, resolve_plan, retry_after, rewrite_model, session_key,
    sse_error, take_catalog, try_admit, try_model, wants_stream, Admission, PlanStep, Purpose,
    DEFAULT_BENCH, MAX_RETRY_AFTER,
};

const SECOND: u128 = 1_000_000_000;

fn json(raw: &str) -> Json {
    parse(raw.as_bytes()).expect("test fixture is valid json")
}

fn permit(protocol: Protocol) -> Permit {
    Permit {
        lane_idx: 3,
        provider: "nim".into(),
        base_url: "http://nim.test".into(),
        key: "secret-key".into(),
        protocol,
    }
}

fn pairs(list: &[(&str, &str)]) -> Vec<(String, String)> {
    list.iter()
        .map(|p| (p.0.to_string(), p.1.to_string()))
        .collect()
}

#[test]
fn admission_stops_at_the_cap_and_frees_on_drop() {
    let mut counter = 0;
    let first = try_admit(&mut counter, 2).expect("first admitted");
    let second = try_admit(&mut counter, 2).expect("second admitted");
    assert!(try_admit(&mut counter, 2).is_none(), "third exceeds the cap");
    first.release(&mut counter);
    assert!(
        try_admit(&mut counter, 2).is_some(),
        "a freed slot is reusable"
    );
    second.release(&mut counter);
}

/// A refusal leaves the count as it was; otherwise every shed permanently shrinks
/// the pool by one and the proxy strangles itself under exactly the load the cap
/// exists to survive.
#[test]
fn refused_admissions_do_not_leak_slots() {
    let mut counter = 0;
    let _held = try_admit(&mut counter, 1).expect("first admitted");
    for _ in 0..5 {
        assert!(try_admit(&mut counter, 1).is_none());
    }
    assert_eq!(counter, 1);
}

/// Everything an OpenAI-shaped answer reports about itself has to reach the
/// metrics.
#[test]
fn harvest_reads_usage_finish_reason_and_tool_calls() {
    let mut metrics = Metrics::default();
    let body = json(
        r#"{
            "choices": [{
                "finish_reason": "length",
                "message": { "tool_calls": [{"id": "a"}, {"id": "b"}] }
            }],
            "usage": {
                "prompt_tokens": 100,
                "completion_tokens": 250,
                "completion_tokens_details": { "reasoning_tokens": 40 }
            }
        }"#,
    );
    // 250 completion tokens in 5s = 50/sec.
    harvest(&mut metrics, "m", 5000, &body);
    metrics.record_request("c", "m", "200");

    let stats = metrics.stats();
    let m = &stats.models[0];
    assert_eq!(m.completion_tokens, 250, "tokens");
    assert_eq!(m.avg_tokens_per_sec, 50, "speed");
    assert_eq!(m.truncated, 1, "finish_reason=length is truncation");
    assert_eq!(m.tool_calls, 2, "tool calls");
    assert_eq!(m.reasoning_tokens, 40, "reasoning tokens");
}

#[test]
fn a_success_carrying_no_choices_is_not_a_success() {
    // An over-long request is answered with 200 OK and this exact shape: no
    // choices, null usage, no error anywhere.
    let overflowed = json(
        r#"{"id":"","choices":[],"created":0,"model":"","object":"chat.completion","usage":null}"#,
    );
    assert!(
        is_empty_completion(&overflowed),
        "an empty choices array is never a valid completion"
    );

    // A real answer, a streaming chunk, and an unrelated 200 must all pass.
    assert!(!is_empty_completion(&json(
        r#"{"object":"chat.completion","choices":[{"message":{"content":"hi"}}]}"#
    )));
    assert!(!is_empty_completion(&json(
        r#"{"object":"chat.completion.chunk","choices":[]}"#
    )));
    assert!(!is_empty_completion(&json(r#"{"data":[{"id":"m"}]}"#)));
}

#[test]
fn a_context_ceiling_is_learned_from_the_providers_complaint() {
    // The exact body NVIDIA returns, captured from a real overflow.
    let nvidia = r#"{"message":"This model's maximum context length is 202752 tokens. However, your messages resulted in 249928 tokens. Please reduce the length of the messages.","type":"Bad Request","code":400}"#;
    assert_eq!(parse_context_limit(nvidia), Some(202_752));

    // OpenAI phrases the same complaint with a comma and lowercase however.
    let openai =
        "This model's maximum context length is 8192 tokens, however you requested 9000 tokens.";
    assert_eq!(parse_context_limit(openai), Some(8192));

    // Anything else must teach us nothing rather than a wrong number.
    assert_eq!(
        parse_context_limit(r#"{"message":"invalid api key"}"#),
        None
    );
    assert_eq!(parse_context_limit("maximum context length is soon"), None);
    assert_eq!(parse_context_limit(""), None);
}

#[test]
fn overload_and_timeout_statuses_are_retried() {
    for status in [408, 429, 500, 502, 503, 504, 529] {
        assert!(is_retryable(status), "{status} should be retried");
    }
    for status in [200, 400, 401, 403, 404, 422] {
        assert!(!is_retryable(status), "{status} must not be retried");
    }
}

#[test]
fn a_doubled_version_prefix_is_collapsed() {
    assert_eq!(
        normalize_path("/v1/v1/chat/completions"),
        "/v1/chat/completions"
    );
    assert_eq!(normalize_path("/v1/v1/v1/models"), "/v1/models");
}

#[test]
fn a_correct_path_is_left_alone() {
    assert_eq!(
        normalize_path("/v1/chat/completions"),
        "/v1/chat/completions"
    );
    assert_eq!(normalize_path("/v1/models"), "/v1/models");
}

#[test]
fn collapsing_preserves_the_query_string() {
    assert_eq!(
        normalize_path("/v1/v1/models?limit=5"),
        "/v1/models?limit=5"
    );
}

/// Only a whole `/v1` segment counts: a path that merely starts with those
/// characters is a different route.
#[test]
fn a_similar_looking_segment_is_not_treated_as_a_duplicate() {
    assert_eq!(normalize_path("/v1/v1beta/x"), "/v1/v1beta/x");
}

fn providers_of(plan: &[PlanStep]) -> Vec<Option<&str>> {
    plan.iter().map(|s| s.provider.as_deref()).collect()
}

#[test]
fn a_plain_model_prefers_providers_that_actually_list_it() {
    let plan = resolve_plan(Some("m"), &[], 4, &["together".to_string()]);
    assert_eq!(providers_of(&plan)[0], Some("together"));
    assert!(
        plan.iter().any(|s| s.provider.is_none()),
        "a stale catalog must not strand the request"
    );
}

#[test]
fn with_no_catalog_knowledge_every_step_is_unrestricted() {
    let plan = resolve_plan(Some("m"), &[], 3, &[]);
    assert_eq!(providers_of(&plan), vec![None, None, None]);
}

/// An alias is an explicit instruction about where to route; catalog contents
/// are an inference. The explicit one wins.
#[test]
fn an_alias_still_overrides_catalog_preference() {
    let alias = Alias {
        name: "virtual".into(),
        targets: vec![AliasTarget {
            provider: "chosen".into(),
            model: "real".into(),
        }],
    };
    let plan = resolve_plan(Some("virtual"), &[alias], 4, &["other".to_string()]);
    assert_eq!(providers_of(&plan), vec![Some("chosen")]);
}

#[test]
fn usage_injection_adds_include_usage() {
    let out = inject_usage(&json(r#"{"model":"m","stream":true}"#)).unwrap();
    let v = parse(&out).unwrap();
    assert_eq!(
        v.get("stream_options")
            .and_then(|o| o.get("include_usage"))
            .and_then(|b| b.as_bool()),
        Some(true)
    );
    assert_eq!(
        v.str_at("model"),
        Some("m"),
        "the rest of the body is untouched"
    );
}

/// A client that set `stream_options` itself meant it. Our token accounting
/// is not a good enough reason to overwrite what they asked for.
#[test]
fn usage_injection_leaves_a_clients_own_stream_options_alone() {
    let body = json(r#"{"model":"m","stream_options":{"include_usage":false}}"#);
    assert!(inject_usage(&body).is_none());
}

#[test]
fn usage_injection_declines_a_body_that_is_not_an_object() {
    assert!(inject_usage(&json("[1,2,3]")).is_none());
    assert!(inject_usage(&Json::Null).is_none());
}

/// The parse happens once, at the edge. A body that isn't JSON yields no
/// model, no session and no stream flag, and is forwarded untouched.
#[test]
fn a_non_json_body_is_simply_opaque() {
    let parsed = parse(b"not json");
    assert!(parsed.is_none());
    assert!(parsed.as_ref().and_then(requested_model).is_none());
    assert!(parsed.as_ref().and_then(session_key).is_none());
    assert!(!parsed.as_ref().is_some_and(wants_stream));
}

#[test]
fn normalize_path_never_panics_and_stays_a_path() {
    for raw in ["", "/", "v1/v1", "/v1/v1", "/v1/v1/", "/v1/v1?x=/v1/v1/", "/\u{e9}/v1/v1/x", "/v1"] {
        let out = normalize_path(raw);
        assert!(out.len() <= raw.len());
        if raw.starts_with('/') {
            assert!(out.starts_with('/'));
        }
        assert_eq!(normalize_path(&out), out);
    }
}

#[test]
fn normalize_path_leaves_no_doubled_prefix() {
    for depth in 0..12 {
        for tail in ["", "/", "/models", "x/y"] {
            let out = normalize_path(&format!("{}{tail}", "/v1".repeat(depth)));
            assert!(!out.starts_with("/v1/v1/"), "left a doubled prefix: {out}");
        }
    }
}

#[test]
fn retry_after_never_panics_and_is_always_clamped() {
    for raw in ["", "-1", "0", "59", "61", "999999999999999999999999", " 5", "5 ", "+5", "5.5"] {
        if let Some(d) = retry_after(Some(raw)) {
            assert!(d <= MAX_RETRY_AFTER, "unclamped: {d}");
        }
    }
}

/// A body is chosen by a caller and arbitrary bytes are not JSON. Every helper has
/// to shrug rather than fall over.
#[test]
fn body_helpers_survive_arbitrary_bytes() {
    for raw in [&b""[..], &b"\xff\xfe"[..], &b"{"[..], &b"[]"[..], &b"{\"model\":1}"[..], &b"null"[..]] {
        let parsed = parse(raw);
        let _ = parsed.as_ref().and_then(requested_model);
        let _ = parsed.as_ref().and_then(session_key);
        let _ = parsed.as_ref().is_some_and(wants_stream);
        let _ = parsed.as_ref().and_then(inject_usage);
        let _ = rewrite_model(raw, Some("m"));
    }
}

/// The same conversation must key identically however the tail grows: the
/// property the whole affinity design rests on.
#[test]
fn session_key_ignores_everything_after_the_opening() {
    let opening = r#"{"role":"system","content":"be brief"},{"role":"user","content":"hello"}"#;
    let first = session_key(&json(&format!(r#"{{"model":"m","messages":[{opening}]}}"#)));
    let later = session_key(&json(&format!(
        r#"{{"model":"m","messages":[{opening},{{"role":"assistant","content":"hi"}},{{"role":"user","content":"more"}}]}}"#
    )));
    assert!(first.is_some());
    assert_eq!(first, later);
    let other = session_key(&json(
        r#"{"model":"m","messages":[{"role":"system","content":"be long"},{"role":"user","content":"hello"}]}"#,
    ));
    assert_ne!(first, other, "another conversation is another session");
}

#[test]
fn retry_after_reads_delta_seconds() {
    assert_eq!(retry_after(Some("5")), Some(5 * SECOND));
}

#[test]
fn retry_after_is_none_without_the_header() {
    assert_eq!(retry_after(None), None);
}

#[test]
fn retry_after_ignores_values_it_cannot_read() {
    // The HTTP-date form is valid per RFC 9110 but unsupported here. It has to
    // read as "no guidance" so the caller uses its own backoff, never as zero.
    assert_eq!(retry_after(Some("Wed, 21 Oct 2026 07:28:00 GMT")), None);
    assert_eq!(retry_after(Some("soon")), None);
}

#[test]
fn retry_after_clamps_absurd_backoffs() {
    // A buggy or hostile upstream must not be able to park a key for a day.
    assert_eq!(retry_after(Some("86400")), Some(MAX_RETRY_AFTER));
}

#[test]
fn a_deadline_is_milliseconds_from_now() {
    assert_eq!(parse_deadline(Some("150"), 1_000), Some(1_000 + 150_000_000));
    assert_eq!(parse_deadline(Some("soon"), 0), None);
    assert_eq!(parse_deadline(None, 0), None);
}

#[test]
fn hop_by_hop_headers_are_not_forwarded() {
    for name in ["Connection", "transfer-encoding", "HOST", "Content-Length", "keep-alive"] {
        assert!(is_hop_by_hop(name), "{name}");
    }
    assert!(!is_hop_by_hop("accept"));
    let out = forward_headers(&pairs(&[
        ("accept", "*/*"),
        ("authorization", "Bearer client"),
        ("host", "proxy"),
        ("x-title", "agent"),
    ]));
    assert_eq!(out, pairs(&[("accept", "*/*"), ("x-title", "agent")]));
}

#[test]
fn routes_are_told_apart() {
    assert!(matches!(classify(true, "/v1/models"), (Purpose::Catalog, Protocol::OpenAi)));
    assert!(matches!(classify(true, "/v1/props"), (Purpose::Props, _)));
    assert!(matches!(classify(false, "/v1/models"), (Purpose::Forward, _)));
    assert!(matches!(
        classify(false, "/v1/messages"),
        (Purpose::Forward, Protocol::Anthropic)
    ));
    assert!(matches!(
        classify(false, "/v1/chat/completions?x=1"),
        (Purpose::Forward, Protocol::OpenAi)
    ));
}

#[test]
fn the_door_asks_for_a_client_key_and_room() {
    let (secret, rec) = new_client_key("laptop", "ann").unwrap();
    let keys = vec![rec];
    let bearer = format!("Bearer {secret}");
    let mut m = Metrics::default();
    let mut inflight = 0;

    let refused = |r: Result<_, sluice::reply::Reply>| r.err().map(|e: sluice::reply::Reply| e.status);
    assert_eq!(
        refused(open_door(true, &keys, Some(&bearer), None, false, &mut inflight, 1, &mut m).map(|_| ())),
        Some(503),
        "closed until setup"
    );
    assert_eq!(
        refused(open_door(false, &keys, None, None, false, &mut inflight, 1, &mut m).map(|_| ())),
        Some(401)
    );
    assert_eq!(
        refused(open_door(false, &keys, Some("Bearer lrlp_no"), None, false, &mut inflight, 1, &mut m).map(|_| ())),
        Some(401)
    );
    assert_eq!(inflight, 0, "a refusal holds nothing");

    let (who, held) = open_door(false, &keys, Some(&bearer), None, false, &mut inflight, 1, &mut m)
        .ok()
        .unwrap();
    assert_eq!(who, "laptop");
    assert_eq!(inflight, 1);
    assert_eq!(
        refused(open_door(false, &keys, None, Some(&secret), false, &mut inflight, 1, &mut m).map(|_| ())),
        Some(503),
        "the cap sheds"
    );
    held.release(&mut inflight);
    let (who, _) = open_door(false, &keys, None, Some(&secret), false, &mut inflight, 1, &mut m)
        .ok()
        .unwrap();
    assert_eq!(who, "laptop", "either header carries the key");
    assert_eq!(overloaded().status, 503);
    assert_eq!(deadline_exceeded().status, 504);
}

#[test]
fn a_governed_model_is_waited_for_until_the_deadline() {
    let mut g = Governor::new();
    let held = match try_model(&mut g, "m", None, 0) {
        Admission::Held(p) => p,
        _ => panic!("an ungoverned model is free"),
    };
    g.note_rebuff("m", 0, 0);
    g.note_rebuff("m", 1, 0);
    assert!(matches!(try_model(&mut g, "m", None, 0), Admission::Wait));
    assert!(matches!(try_model(&mut g, "m", Some(1), 0), Admission::Lost));
    held.release(&mut g);
    assert!(matches!(try_model(&mut g, "m", Some(1), 0), Admission::Held(_)));
}

#[test]
fn the_body_names_its_model_and_whether_it_streams() {
    let b = json(r#"{"model":"glm","stream":true,"messages":[{"role":"user","content":"x"}],"tools":[1,2],"max_tokens":64}"#);
    assert_eq!(requested_model(&b).as_deref(), Some("glm"));
    assert!(wants_stream(&b));
    assert!(!wants_stream(&json(r#"{"stream":"yes"}"#)));
    let mut m = Metrics::default();
    note_shape(&mut m, "agent", &b, 70);
    let s = &m.stats().shape[0];
    assert_eq!(
        (s.avg_messages, s.avg_tools, s.avg_max_tokens, s.avg_temperature_x100),
        (1, 2, 64, 70)
    );
}

#[test]
fn a_target_model_is_written_into_the_body() {
    let out = rewrite_model(br#"{"model":"virtual","n":1.5}"#, Some("real"));
    let v = parse(&out).unwrap();
    assert_eq!(v.str_at("model"), Some("real"));
    assert!(v.get("n").is_some());
    assert_eq!(rewrite_model(b"not json", Some("real")), b"not json".to_vec());
    assert_eq!(rewrite_model(br#"{"model":"a"}"#, None), br#"{"model":"a"}"#.to_vec());
    assert!(replace_model(json("[1]"), "real").is_none());
}

#[test]
fn a_stream_asks_for_token_counts_where_it_can() {
    let raw = br#"{"model":"m","stream":true}"#.to_vec();
    let parsed = parse(&raw);
    let (sent, undo) = prepare_stream(raw.clone(), parsed.as_ref(), Protocol::OpenAi, false);
    assert!(parse(&sent).unwrap().get("stream_options").is_some());
    assert_eq!(undo, Some(raw.clone()), "the addition can be undone");

    let (sent, undo) = prepare_stream(raw.clone(), parsed.as_ref(), Protocol::OpenAi, true);
    assert_eq!((sent, undo), (raw.clone(), None), "a model that rejects it is left alone");
    let (sent, undo) = prepare_stream(raw.clone(), parsed.as_ref(), Protocol::Anthropic, false);
    assert_eq!((sent, undo), (raw, None));
}

#[test]
fn a_request_goes_out_with_the_lanes_credential() {
    let out = build_request(
        &permit(Protocol::OpenAi),
        "/v1/chat/completions?x=1",
        &pairs(&[("accept", "*/*")]),
        b"body".to_vec(),
    );
    assert_eq!(out.url, "http://nim.test/v1/chat/completions?x=1");
    assert!(out.headers.contains(&("authorization".to_string(), "Bearer secret-key".to_string())));
    assert!(out.headers.contains(&("accept".to_string(), "*/*".to_string())));
    assert_eq!(out.body, b"body".to_vec());

    let out = build_request(&permit(Protocol::Anthropic), "/v1/messages", &vec![], vec![]);
    assert!(out.headers.contains(&("x-api-key".to_string(), "secret-key".to_string())));

    let out = catalog_request(&permit(Protocol::OpenAi));
    assert_eq!(out.url, "http://nim.test/v1/models");
}

#[test]
fn a_failed_catalog_fetch_falls_back_to_the_last_copy() {
    let mut cat = Catalog::new(60);
    assert!(take_catalog(&mut cat, "nim", None, 0).is_none());
    let body = br#"{"data":[{"id":"a"}]}"#.to_vec();
    assert_eq!(take_catalog(&mut cat, "nim", Some((200, body)), 0).unwrap().len(), 1);
    assert_eq!(take_catalog(&mut cat, "nim", Some((500, vec![])), 9).unwrap().len(), 1);
    assert_eq!(take_catalog(&mut cat, "nim", None, 9).unwrap().len(), 1);
}

#[test]
fn props_answer_with_the_smallest_window() {
    let mut limits = ContextLimits::new();
    limits.learn("a", 4096);
    limits.learn("b", 8192);
    let r = answer_props(&limits);
    assert_eq!(r.status, 200);
    let v = parse(&r.body).unwrap();
    assert_eq!(
        v.get("default_generation_settings").and_then(|s| s.u64_at("n_ctx")),
        Some(4096)
    );
}

#[test]
fn a_rebuffed_lane_is_benched_as_long_as_it_asks() {
    let spec = |k: &str| LaneSpec {
        provider: "nim".into(),
        base_url: "http://nim.test".into(),
        key: k.into(),
        protocol: Protocol::OpenAi,
        rpm: 40,
    };
    let mut pool = Pool::new(vec![spec("a"), spec("b")]);
    let mut m = Metrics::default();
    assert!(bench_lane(&mut pool, &mut m, 0, "m", 429, Some("7"), SECOND).is_some());
    assert!(pool.lanes()[0].benched(SECOND + 7 * SECOND - 1));
    assert!(!pool.lanes()[0].benched(SECOND + 7 * SECOND));
    bench_lane(&mut pool, &mut m, 1, "m", 429, None, SECOND);
    assert!(pool.lanes()[1].benched(SECOND + DEFAULT_BENCH - 1));
    assert!(!pool.lanes()[1].benched(SECOND + DEFAULT_BENCH));
}

#[test]
fn a_finished_request_is_recorded() {
    let mut m = Metrics::default();
    let line = record(&mut m, "agent", "glm", "/v1/chat/completions", "200", Some(2), 12);
    assert_eq!(line, "200 agent key#2 glm /v1/chat/completions (12 ms)");
    assert_eq!(m.stats().total, 1);
    let line = record(&mut m, "agent", "glm", "/v1/x", "504", None, 3);
    assert_eq!(line, "504 agent - glm /v1/x (3 ms)");
}

#[test]
fn an_empty_success_is_relayed_as_an_honest_refusal() {
    let mut m = Metrics::default();
    let mut limits = ContextLimits::new();
    let empty = br#"{"object":"chat.completion","choices":[],"usage":null}"#.to_vec();
    let r = relay(&mut m, &mut limits, "m", 10, 200, Some("application/json"), empty);
    assert_eq!(r.status, 400);

    let good = br#"{"object":"chat.completion","choices":[{"message":{"content":"hi"}}],"usage":{"prompt_tokens":1,"completion_tokens":2}}"#.to_vec();
    let r = relay(&mut m, &mut limits, "m", 10, 200, Some("application/json"), good.clone());
    assert_eq!((r.status, r.body), (200, good));

    let over = br#"{"message":"maximum context length is 777 tokens"}"#.to_vec();
    let r = relay(&mut m, &mut limits, "m", 10, 400, Some("application/json"), over.clone());
    assert_eq!((r.status, r.body), (400, over), "a refusal is passed through");
    assert_eq!(limits.get("m"), Some(777), "and teaches the window");
}

#[test]
fn the_tail_of_a_stream_yields_its_usage() {
    let mut m = Metrics::default();
    let mut tail = StreamTail::new();
    assert!(!tail.has_begun());
    tail.take_chunk(&mut m, "m", b"data: {\"choices\":[{\"delta\":{}}]}\n\n", 40);
    assert!(tail.has_begun());
    for _ in 0..100 {
        tail.take_chunk(&mut m, "m", "data: {\"filler\":\"\u{e9}\u{e9}\u{e9}\u{e9}\u{e9}\u{e9}\u{e9}\u{e9}\u{e9}\u{e9}\u{e9}\u{e9}\u{e9}\u{e9}\u{e9}\u{e9}\u{e9}\u{e9}\u{e9}\u{e9}\u{e9}\u{e9}\u{e9}\u{e9}\"}\n\n".as_bytes(), 50);
    }
    tail.take_chunk(
        &mut m,
        "m",
        b"data: {\"choices\":[],\"usage\":{\"prompt_tokens\":5,\"completion_tokens\":10}}\n\ndata: [DONE]\n\n",
        60,
    );
    tail.finish(&mut m, "m", 1000);
    m.record_request("c", "m", "200");
    let s = m.stats();
    assert_eq!(s.models[0].completion_tokens, 10);
    assert_eq!(s.models[0].avg_ttft_ms, 40, "the first chunk sets the time to first byte");
    assert!(TAIL_MAX >= 4096);
}

#[test]
fn frames_of_a_held_open_stream() {
    assert!(heartbeat_frame().starts_with(b":"));
    assert!(heartbeat_frame().ends_with(b"\n\n"));
    let e = String::from_utf8(sse_error("upstream_error")).unwrap();
    assert!(e.contains("upstream_error") && e.ends_with("\n\n"), "{e}");
}

#[test]
fn a_broken_stream_is_counted_and_told() {
    let mut m = Metrics::default();
    let frame = break_off(&mut m, Interruption::Deadline).unwrap();
    assert!(String::from_utf8(frame).unwrap().contains("deadline_exceeded"));
    assert!(break_off(&mut m, Interruption::ClientGone).is_none());
    let frame = break_off(&mut m, Interruption::UpstreamBroken).unwrap();
    assert!(String::from_utf8(frame).unwrap().contains("stream_error"));
    let s = m.stats();
    for kind in ["deadline", "client_disconnect", "stream_error"] {
        assert_eq!(s.events.iter().find(|e| e.kind == kind).unwrap().count, 1);
    }
}

/// Two answers that say different things measure the same.
#[test]
fn what_was_said_is_not_measured() {
    let measured = |said: &str| {
        let mut m = Metrics::default();
        harvest(
            &mut m,
            "m",
            1000,
            &json(&format!(
                r#"{{"choices":[{{"finish_reason":"stop","message":{{"content":"{said}"}}}}],"usage":{{"prompt_tokens":1,"completion_tokens":2}}}}"#
            )),
        );
        m.render()
    };
    assert_eq!(measured("yes"), measured("a much longer answer"));
}

#[test]
fn an_anthropic_answer_cut_off_at_the_cap_is_truncated() {
    let mut metrics = Metrics::default();
    metrics.record_request("c", "m", "200");
    harvest(&mut metrics, "m", 0, &json(r#"{"stop_reason": "max_tokens"}"#));
    assert_eq!(metrics.stats().models[0].truncated, 1);
    harvest(
        &mut metrics,
        "m",
        0,
        &json(r#"{"choices": [{"finish_reason": "length"}]}"#),
    );
    harvest(&mut metrics, "m", 0, &json(r#"{"stop_reason": "end_turn"}"#));
    assert_eq!(metrics.stats().models[0].truncated, 2);
}

#[test]
fn only_repeated_versions_are_collapsed() {
    for (path, out) in [
        ("/v1/v1/v1/chat?x=/v1/v1/", "/v1/chat?x=/v1/v1/"),
        ("/v1/a/v1/v1/b", "/v1/a/v1/v1/b"),
        ("/v1/v1", "/v1/v1"),
    ] {
        assert_eq!(normalize_path(path), out);
        assert!(path.ends_with(out));
    }
}
