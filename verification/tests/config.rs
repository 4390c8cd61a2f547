use sluice::config::{
    check_version, default_history_days, default_max_inflight, default_models_ttl_secs,
    default_rpm, default_true, default_version, find_alias, find_provider, find_user,
    normalize_base_url, store_path, Alias, Protocol, Provider, ProviderKey, Role, Settings,
    StoredConfig, User, STORE_VERSION,
};

fn sample() -> StoredConfig {
    StoredConfig {
        version: STORE_VERSION,
        users: vec![User {
            username: "admin".into(),
            pw_hash: "pbkdf2$sha256$600000$salt$hash".into(),
            role: Role::Superuser,
        }],
        providers: vec![Provider {
            name: "nim".into(),
            base_url: "https://example.test".into(),
            protocol: Protocol::default(),
            keys: vec![ProviderKey {
                key: "k".into(),
                enabled: true,
                rpm: 40,
                owner: "admin".into(),
            }],
        }],
        clients: vec![],
        aliases: vec![],
        settings: Settings::default(),
    }
}

#[test]
fn superuser_found() {
    assert_eq!(sample().superuser().unwrap().username, "admin");
    assert!(StoredConfig::default().superuser().is_none());
}

/// Requests are forwarded with their full path (`/v1/chat/completions`), so a
/// base that already ends in `/v1` would produce `/v1/v1/chat/completions`.
#[test]
fn a_v1_suffix_is_stripped_because_the_client_path_supplies_it() {
    assert_eq!(
        normalize_base_url("https://integrate.api.nvidia.com/v1"),
        "https://integrate.api.nvidia.com"
    );
    assert_eq!(
        normalize_base_url("https://integrate.api.nvidia.com/v1/"),
        "https://integrate.api.nvidia.com"
    );
}

#[test]
fn trailing_slashes_and_whitespace_are_trimmed() {
    assert_eq!(normalize_base_url("  https://host/  "), "https://host");
}

/// A provider mounted under a prefix still works: the prefix is kept and only
/// the version segment the client path supplies is removed.
#[test]
fn a_path_prefix_before_v1_is_preserved() {
    assert_eq!(
        normalize_base_url("https://host/api/v1"),
        "https://host/api"
    );
}

#[test]
fn a_base_without_v1_is_left_alone() {
    assert_eq!(normalize_base_url("https://host"), "https://host");
    assert_eq!(
        normalize_base_url("https://host/v1beta"),
        "https://host/v1beta"
    );
}

#[test]
fn normalizing_never_panics_and_is_idempotent() {
    for raw in [
        "",
        "/",
        "/v1",
        "/v1/v1",
        "https://h/v1/v1//",
        " \u{2003}/v1 / ",
        "\u{1f600}/v1",
        "v1",
    ] {
        let once = normalize_base_url(raw);
        assert_eq!(normalize_base_url(&once), once);
        assert!(!once.ends_with('/'), "left a trailing slash: {once}");
        assert!(!once.ends_with("/v1"), "left a /v1 suffix: {once}");
    }
}

#[test]
fn any_number_of_v1_suffixes_leaves_at_most_one_removed() {
    for slashes in 0..4 {
        let raw = format!("https://host/v1{}", "/".repeat(slashes));
        assert_eq!(normalize_base_url(&raw), "https://host");
    }
}

#[test]
fn a_store_of_a_newer_build_is_refused() {
    assert!(check_version(0).is_ok());
    assert!(check_version(STORE_VERSION).is_ok());
    assert_eq!(
        check_version(999).unwrap_err(),
        "config store version 999 is newer than this build supports (1)"
    );
}

#[test]
fn the_store_lives_in_the_data_directory() {
    assert_eq!(store_path("data"), "data/config.json");
    assert_eq!(store_path("/var/lib/"), "/var/lib/config.json");
    assert_eq!(store_path(""), "config.json");
}

#[test]
fn defaults_are_the_documented_ones() {
    assert_eq!(default_version(), 1);
    assert!(default_true());
    assert_eq!(default_rpm(), 40);
    let s = Settings::default();
    assert_eq!(s.history_days, default_history_days());
    assert_eq!(s.max_inflight, default_max_inflight());
    assert_eq!(s.models_ttl_secs, default_models_ttl_secs());
    assert_eq!((s.history_days, s.max_inflight, s.models_ttl_secs), (30, 512, 600));
    assert!(s.allow_from.is_empty());
}

#[test]
fn things_are_found_by_name() {
    let mut sc = sample();
    sc.aliases.push(Alias {
        name: "fast".into(),
        targets: vec![],
    });
    assert_eq!(find_user(&sc.users, "admin"), Some(0));
    assert_eq!(find_user(&sc.users, "Admin"), None);
    assert_eq!(find_provider(&sc.providers, "nim"), Some(0));
    assert_eq!(find_provider(&sc.providers, ""), None);
    assert_eq!(find_alias(&sc.aliases, "fast"), Some(0));
    assert_eq!(find_alias(&sc.aliases, "slow"), None);
}

#[test]
fn the_route_tells_the_protocol() {
    assert_eq!(Protocol::of_route("/v1/messages"), Protocol::Anthropic);
    assert_eq!(Protocol::of_route("/v1/messages/count_tokens"), Protocol::Anthropic);
    assert_eq!(Protocol::of_route("/v1/messagesx"), Protocol::OpenAi);
    assert_eq!(Protocol::of_route("/v1/chat/completions"), Protocol::OpenAi);
}

#[test]
fn two_roles_administer() {
    assert!(Role::Superuser.is_admin());
    assert!(Role::Admin.is_admin());
    assert!(!Role::User.is_admin());
}

#[test]
fn only_trimmings_are_removed_from_a_base_url() {
    for (raw, base) in [
        (" https://host/a/v1/b /v1// ", "https://host/a/v1/b"),
        ("https://v1.host/v1/v1", "https://v1.host"),
        ("/v1", ""),
    ] {
        let out = normalize_base_url(raw);
        assert_eq!(out, base);
        assert!(raw.trim_start().starts_with(&out));
    }
}
