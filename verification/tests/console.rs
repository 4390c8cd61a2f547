use sluice::config::Protocol;
use sluice::console::{
    check_peer, dash_config, guard_of, history_bounds, metrics_reply, pressure_document, provider_window,
    sample_secs, security_headers, Guard,
};
use sluice::governor::ModelPressure;
use sluice::metrics::Metrics;
use sluice::net::{parse_addr, parse_rule};
use sluice::pool::{LaneSpec, Pool};

#[test]
fn every_route_asks_for_the_right_thing() {
    for path in ["/health", "/login", "/logout", "/setup"] {
        assert_eq!(guard_of(path), Some(Guard::Open), "{path}");
    }
    for path in ["/", "/dash", "/dash/config.json", "/api/history", "/api/stats", "/api/pressure", "/api/settings", "/api/settings/clients"] {
        assert_eq!(guard_of(path), Some(Guard::Session), "{path}");
    }
    for path in ["/api/settings/providers", "/api/settings/provider-keys", "/api/settings/aliases", "/api/settings/limits", "/api/settings/users"] {
        assert_eq!(guard_of(path), Some(Guard::Admin), "{path}");
    }
    assert_eq!(guard_of("/metrics"), Some(Guard::SessionOrBasic));
    assert_eq!(guard_of("/v1/chat/completions"), Some(Guard::Client));
    assert_eq!(guard_of("/v1/"), None);
    assert_eq!(guard_of("/elsewhere"), None);
}

#[test]
fn every_response_is_hardened() {
    let h = security_headers();
    let get = |n: &str| h.iter().find(|p| p.0 == n).map(|p| p.1.as_str());
    assert!(get("content-security-policy").unwrap().starts_with("default-src 'none';"));
    assert_eq!(get("x-content-type-options"), Some("nosniff"));
    assert_eq!(get("x-frame-options"), Some("DENY"));
    assert_eq!(get("referrer-policy"), Some("no-referrer"));
}

#[test]
fn a_history_query_defaults_to_the_last_day() {
    assert_eq!(history_bounds(None, None, 100_000), (13_600, 100_000));
    assert_eq!(history_bounds(None, None, 5), (0, 5));
    assert_eq!(history_bounds(Some("7"), Some("9"), 100_000), (7, 9));
    assert_eq!(history_bounds(Some("x"), Some(""), 100_000), (13_600, 100_000));
}

#[test]
fn metrics_are_served_as_prometheus_text() {
    let mut m = Metrics::default();
    m.record_request("c", "m", "200");
    let r = metrics_reply(&m);
    assert_eq!(r.status, 200);
    assert_eq!(r.headers[0].1, "text/plain; version=0.0.4");
    assert_eq!(r.body, m.render().into_bytes());
}

#[test]
fn pressure_is_reported_per_model() {
    let doc = pressure_document(&vec![ModelPressure {
        model: "glm".into(),
        limit: 2,
        inflight: 1,
    }]);
    let p = &doc.array_at("pressured").unwrap()[0];
    assert_eq!(p.str_at("model"), Some("glm"));
    assert_eq!((p.u64_at("limit"), p.u64_at("inflight")), (Some(2), Some(1)));
    assert!(pressure_document(&vec![]).array_at("pressured").unwrap().is_empty());
}

#[test]
fn the_console_reads_the_shape_of_the_pool() {
    let spec = |k: &str, rpm: usize| LaneSpec {
        provider: "nim".into(),
        base_url: "http://nim.test".into(),
        key: k.into(),
        protocol: Protocol::OpenAi,
        rpm,
    };
    let pool = Pool::new(vec![spec("a", 40), spec("b", 25)]);
    let doc = dash_config("0.2.0", &pool, 1_700_000_000, 60);
    assert_eq!(doc.str_at("version"), Some("0.2.0"));
    assert_eq!(doc.u64_at("lanes"), Some(2));
    assert_eq!(doc.u64_at("capacity_rpm"), Some(65));
    assert_eq!(doc.array_at("rpms").unwrap()[1].as_u64(), Some(25));
    assert_eq!(doc.u64_at("started"), Some(1_700_000_000));
    assert_eq!(doc.u64_at("provider_window_secs"), Some(60));
}

#[test]
fn boot_knobs_have_defaults() {
    assert_eq!(sample_secs("10"), 10);
    assert_eq!(sample_secs("0"), 1);
    assert_eq!(sample_secs("x"), 300);
    assert_eq!(provider_window(""), 60_000_000_000);
    assert_eq!(provider_window("250"), 250_000_000);
}

#[test]
fn an_allowlist_turns_strangers_away_but_never_loopback_or_health() {
    let rules = vec![parse_rule("192.168.1.239").unwrap()];
    let at = |a: &str| parse_addr(a).unwrap();
    assert!(check_peer(&rules, at("192.168.1.239"), "/v1/chat/completions").is_ok());
    let e = check_peer(&rules, at("192.168.1.240"), "/").err().unwrap();
    assert_eq!(e.status, 403);
    assert!(check_peer(&rules, at("127.0.0.1"), "/").is_ok());
    assert!(check_peer(&rules, at("8.8.8.8"), "/health").is_ok());
    assert!(check_peer(&[], at("8.8.8.8"), "/").is_ok());
}
