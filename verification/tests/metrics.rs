use sluice::metrics::{sanitize, Metrics, MAX_SERIES};

#[test]
fn counts_accumulate_per_series() {
    let mut m = Metrics::default();
    m.record_request("alice", "gpt", "200");
    m.record_request("alice", "gpt", "200");
    m.record_request("alice", "gpt", "429");
    let out = m.render();
    assert!(out.contains(
        r#"llm_rate_limit_proxy_requests_total{client="alice",model="gpt",status="200"} 2"#
    ));
    assert!(out.contains(
        r#"llm_rate_limit_proxy_requests_total{client="alice",model="gpt",status="429"} 1"#
    ));
}

#[test]
fn labels_are_sanitized() {
    assert_eq!(sanitize("a\"b\nc"), "abc");
    assert_eq!(sanitize(""), "unknown");
    // Unsafe chars are filtered out, so nothing can break the exposition format.
    let mut m = Metrics::default();
    m.record_request("x", "evil\"\nmodel", "200");
    assert!(
        m.render().contains(r#"model="evilmodel""#),
        "got: {}",
        m.render()
    );
}

#[test]
fn series_count_is_capped() {
    let mut m = Metrics::default();
    for i in 0..(MAX_SERIES + 50) {
        m.record_request("c", &format!("model-{i}"), "200");
    }
    let series = m
        .render()
        .lines()
        .filter(|l| l.starts_with("llm_rate_limit_proxy_requests_total{"))
        .count();
    assert!(series <= MAX_SERIES + 1, "series not capped: {series}");
    assert!(m.render().contains(r#"model="other""#));
}

/// The model label comes straight out of a client's request body, so every map
/// keyed on it would otherwise grow as far as anyone holding a client key likes.
#[test]
fn latency_and_token_series_are_capped_too() {
    let mut m = Metrics::default();
    for i in 0..(MAX_SERIES + 200) {
        m.record_latency(&format!("model-{i}"), 10);
        m.record_tokens(&format!("model-{i}"), 1, 1);
    }
    assert!(
        m.latency.len() <= MAX_SERIES + 1,
        "latency map grew to {}",
        m.latency.len()
    );
    assert!(
        m.tokens.len() <= MAX_SERIES + 1,
        "token map grew to {}",
        m.tokens.len()
    );
}

#[test]
fn ttft_and_speed_surface_per_model() {
    let mut m = Metrics::default();
    m.record_request("c", "fast", "200");
    m.record_ttft("fast", 120);
    m.record_ttft("fast", 480);
    // 200 completion tokens in 2s = 100/sec
    m.record_speed("fast", 200, 2000);
    let s = m.stats();
    let f = s.models.iter().find(|x| x.model == "fast").unwrap();
    assert_eq!(f.avg_ttft_ms, 300, "average of 120 and 480");
    assert_eq!(f.max_ttft_ms, 480, "worst case is what you get paged for");
    assert_eq!(f.avg_tokens_per_sec, 100);
}

/// A zero-token or zero-duration answer must not invent an infinite rate.
#[test]
fn speed_ignores_measurements_it_cannot_trust() {
    let mut m = Metrics::default();
    m.record_request("c", "m", "200");
    m.record_speed("m", 0, 1000);
    m.record_speed("m", 100, 0);
    assert_eq!(m.stats().models[0].avg_tokens_per_sec, 0);
}

/// Truncation looks like a bad model until you can see the reason.
#[test]
fn truncation_is_counted_separately_from_completion() {
    let mut m = Metrics::default();
    m.record_request("c", "m", "200");
    m.record_finish("m", "stop");
    m.record_finish("m", "length");
    m.record_finish("m", "length");
    assert_eq!(m.stats().models[0].truncated, 2);
}

#[test]
fn the_active_gauge_cannot_leak() {
    let mut m = Metrics::default();
    let a = m.track_active();
    let b = m.track_active();
    assert_eq!(m.stats().active, 2);
    a.release(&mut m);
    b.release(&mut m);
    assert_eq!(m.stats().active, 0, "guards must decrement when let go");
}

#[test]
fn events_and_shape_reach_the_dashboard() {
    let mut m = Metrics::default();
    m.record_event("retry");
    m.record_event("retry");
    m.record_event("shed");
    m.record_queue_wait(250);
    m.record_shape("opencode", 12, 4, 4096, 20);
    m.record_stream_mix(true);
    m.record_stream_mix(false);
    let s = m.stats();
    assert_eq!(
        s.events.iter().find(|e| e.kind == "retry").unwrap().count,
        2
    );
    assert_eq!(s.queue_wait.avg(), 250);
    assert_eq!(s.shape[0].avg_messages, 12);
    assert_eq!(s.shape[0].avg_temperature_x100, 20);
    assert_eq!((s.streamed, s.buffered), (1, 1));
}

#[test]
fn every_new_series_is_capped_too() {
    let mut m = Metrics::default();
    for i in 0..(MAX_SERIES + 200) {
        m.record_ttft(&format!("model-{i}"), 1);
        m.record_speed(&format!("model-{i}"), 10, 100);
        m.record_extras(&format!("model-{i}"), 1, 1);
        m.record_shape(&format!("client-{i}"), 1, 1, 1, 1);
        m.record_event(&format!("kind-{i}"));
        m.record_finish(&format!("model-{i}"), "stop");
    }
    let cap = MAX_SERIES + 1;
    assert!(m.ttft_ms.len() <= cap);
    assert!(m.tok_per_sec.len() <= cap);
    assert!(m.extras.len() <= cap);
    assert!(m.shape.len() <= cap);
    assert!(m.events.len() <= cap);
    assert!(m.finish.len() <= cap);
}

#[test]
fn stats_aggregate_by_dimension() {
    let mut m = Metrics::default();
    m.record_request("alice", "gpt", "200");
    m.record_request("bob", "gpt", "200");
    m.record_request("alice", "mistral", "429");
    m.record_latency("gpt", 100);
    m.record_latency("gpt", 300);
    m.record_tokens("gpt", 10, 20);
    m.record_lane("nim");

    let s = m.stats();
    assert_eq!(s.total, 3);
    let gpt = s.models.iter().find(|x| x.model == "gpt").unwrap();
    assert_eq!(gpt.requests, 2);
    assert_eq!(gpt.avg_latency_ms, 200);
    assert_eq!(gpt.completion_tokens, 20);
    assert_eq!(
        s.clients
            .iter()
            .find(|c| c.client == "alice")
            .unwrap()
            .requests,
        2
    );
    assert_eq!(
        s.lanes
            .iter()
            .find(|l| l.provider == "nim")
            .unwrap()
            .requests,
        1
    );
}

#[test]
fn labels_keep_at_most_sixty_four_safe_characters() {
    assert_eq!(sanitize("z-ai/glm-5.2:free_x"), "z-ai/glm-5.2:free_x");
    assert_eq!(sanitize(&"a".repeat(100)), "a".repeat(64));
    assert_eq!(sanitize("\u{e9}\u{1f600}"), "unknown");
    let once = sanitize("we{ird}=\"x\"");
    assert_eq!(sanitize(&once), once);
}

#[test]
fn the_exposition_states_every_family() {
    let mut m = Metrics::default();
    m.record_request("b", "m", "200");
    m.record_request("a", "m", "200");
    m.record_tokens("m", 3, 4);
    m.record_lane("nim");
    m.record_ttft("m", 7);
    m.record_speed("m", 50, 1000);
    m.record_queue_wait(9);
    m.record_finish("m", "stop");
    m.record_extras("m", 1, 2);
    m.record_shape("a", 2, 1, 100, 70);
    m.record_event("shed");
    m.record_stream_mix(true);
    let out = m.render();
    for line in [
        r#"llm_rate_limit_proxy_tokens_total{model="m",direction="prompt"} 3"#,
        r#"llm_rate_limit_proxy_tokens_total{model="m",direction="completion"} 4"#,
        r#"llm_rate_limit_proxy_lane_requests_total{provider="nim"} 1"#,
        r#"llm_rate_limit_proxy_queue_wait_ms_sum 9"#,
        r#"llm_rate_limit_proxy_finish_reason_total{model="m",reason="stop"} 1"#,
        r#"llm_rate_limit_proxy_model_extras_total{model="m",kind="reasoning_tokens"} 2"#,
        r#"llm_rate_limit_proxy_request_shape_sum{client="a",dim="max_tokens"} 100"#,
        r#"llm_rate_limit_proxy_events_total{kind="shed"} 1"#,
    ] {
        assert!(out.lines().any(|l| l == line), "no line {line} in:\n{out}");
    }
    assert_eq!(m.total(), 2);
}

#[test]
fn every_way_of_adding_up_gives_the_total() {
    let mut m = Metrics::default();
    m.record_request("alice", "gpt", "200");
    m.record_request("bob", "gpt", "429");
    m.record_request("alice", "glm", "200");
    m.record_request("alice", "gpt", "200");
    let s = m.stats();
    assert_eq!(s.total, 4);
    assert_eq!(s.models.iter().map(|x| x.requests).sum::<u64>(), 4);
    assert_eq!(s.clients.iter().map(|c| c.requests).sum::<u64>(), 4);
}

#[test]
fn the_longest_wait_is_at_least_the_average() {
    let mut m = Metrics::default();
    m.record_request("c", "m", "200");
    for ms in [120, 480, 7] {
        m.record_ttft("m", ms);
    }
    let s = m.stats();
    assert_eq!(s.models[0].avg_ttft_ms, 202);
    assert_eq!(s.models[0].max_ttft_ms, 480);
}

#[test]
fn folding_keeps_the_token_totals() {
    let mut m = Metrics::default();
    for i in 0..(MAX_SERIES as u64 + 20) {
        m.record_tokens(&format!("model-{i}"), i, 2 * i);
    }
    let n = MAX_SERIES as u64 + 20;
    let all = n * (n - 1) / 2;
    assert_eq!(m.tokens.rows().iter().map(|r| r.1 .0).sum::<u64>(), all);
    assert_eq!(m.tokens.rows().iter().map(|r| r.1 .1).sum::<u64>(), 2 * all);
    assert!(m.tokens.get_text("other").is_some());
}
