use sluice::auth::{verify_client_key, verify_password, Admin};
use sluice::config::{
    AliasTarget, ClientKey, Protocol, Provider, ProviderKey, Role, Settings, StoredConfig, User,
    STORE_VERSION,
};
use sluice::json::{parse, render};
use sluice::pool::{lane_specs, Pool};
use sluice::reply::Reply;
use sluice::settings::{
    aliases, allow_rules, check_rpm, clients, last4, limits, mint_client, outcome, provider_keys,
    providers, revoke_client, users, users_with, view, AliasAction, ClientAction, KeyAction,
    LimitsReq, ProviderAction, UserAction,
};

fn store() -> StoredConfig {
    StoredConfig {
        version: STORE_VERSION,
        users: vec![
            User {
                username: "admin".into(),
                pw_hash: "h0".into(),
                role: Role::Superuser,
            },
            User {
                username: "plain".into(),
                pw_hash: "h1".into(),
                role: Role::User,
            },
        ],
        providers: vec![Provider {
            name: "main".into(),
            base_url: "http://main.test".into(),
            protocol: Protocol::OpenAi,
            keys: vec![ProviderKey {
                key: "provider-key".into(),
                enabled: true,
                rpm: 40,
                owner: "admin".into(),
            }],
        }],
        clients: vec![],
        aliases: vec![],
        settings: Settings::default(),
    }
}

fn message(r: &Reply) -> String {
    let v = parse(&r.body).unwrap();
    v.get("error").unwrap().str_at("message").unwrap().to_string()
}

fn refused(r: Result<(), Reply>) -> (u16, String) {
    let e = r.err().expect("a refusal");
    (e.status, message(&e))
}

fn capacity(sc: &StoredConfig) -> usize {
    Pool::new(lane_specs(sc)).capacity_rpm()
}

fn add_key(provider: &str, key: &str, rpm: Option<usize>) -> KeyAction {
    KeyAction::Add {
        provider: provider.into(),
        key: key.into(),
        rpm,
    }
}

fn add_provider(name: &str, base_url: &str, key: &str) -> ProviderAction {
    ProviderAction::Add {
        name: name.into(),
        base_url: base_url.into(),
        key: key.into(),
        protocol: None,
        rpm: None,
    }
}

fn target(provider: &str, model: &str) -> AliasTarget {
    AliasTarget {
        provider: provider.into(),
        model: model.into(),
    }
}

#[test]
fn last4_shows_only_the_tail() {
    assert_eq!(last4("nvapi-abcdefgh"), "efgh");
}

#[test]
fn last4_of_a_short_secret_does_not_panic() {
    assert_eq!(last4("ab"), "ab");
}

#[test]
fn rpm_zero_is_rejected_in_favour_of_disabling() {
    assert!(check_rpm(0).is_err());
    assert!(check_rpm(1).is_ok());
    assert!(check_rpm(40).is_ok());
    assert!(check_rpm(10_001).is_err());
}

#[test]
fn rates_are_refused_with_a_reason() {
    assert_eq!(
        check_rpm(0).unwrap_err(),
        "rpm must be at least 1; disable the key instead"
    );
    assert_eq!(
        check_rpm(10_001).unwrap_err(),
        "rpm above 10000 is not a real provider limit"
    );
    assert!(check_rpm(10_000).is_ok());
    assert_eq!(last4("\u{e9}\u{e9}\u{e9}\u{e9}\u{e9}"), "\u{e9}\u{e9}\u{e9}\u{e9}");
}

#[test]
fn adding_a_provider_key_raises_capacity() {
    let mut sc = store();
    let before = capacity(&sc);
    assert!(provider_keys(&mut sc, add_key("main", " second-key ", Some(25))).is_ok());
    assert_eq!(capacity(&sc), before + 25);
    assert_eq!(sc.providers[0].keys[1].key, "second-key");
    assert!(provider_keys(&mut sc, add_key("main", "third", None)).is_ok());
    assert_eq!(sc.providers[0].keys[2].rpm, 40, "the default rate");
    assert_eq!(sc.providers[0].keys[2].owner, "");
}

#[test]
fn a_bad_provider_key_is_refused() {
    let mut sc = store();
    for (action, why) in [
        (add_key("nope", "k", None), "no provider named nope"),
        (add_key("main", "  ", None), "key must not be empty"),
        (add_key("main", "provider-key", None), "that key is already in the pool"),
        (
            add_key("main", "k", Some(0)),
            "rpm must be at least 1; disable the key instead",
        ),
        (
            KeyAction::Remove { provider: "main".into(), index: 1 },
            "no key at that position",
        ),
        (
            KeyAction::Update { provider: "main".into(), index: 7, enabled: None, rpm: None },
            "no key at that position",
        ),
        (
            KeyAction::Update { provider: "main".into(), index: 0, enabled: None, rpm: Some(20_000) },
            "rpm above 10000 is not a real provider limit",
        ),
    ] {
        assert_eq!(refused(provider_keys(&mut sc, action)), (400, why.to_string()));
        assert_eq!(sc.providers[0].keys.len(), 1, "a refusal changes nothing");
    }
}

#[test]
fn disabling_the_last_key_is_refused() {
    let mut sc = store();
    let stop = "that would leave no enabled keys and stop the proxy serving".to_string();
    let off = KeyAction::Update {
        provider: "main".into(),
        index: 0,
        enabled: Some(false),
        rpm: None,
    };
    assert_eq!(
        refused(provider_keys(&mut sc, off)),
        (400, stop.clone()),
        "one stray toggle must not silently take the data plane down"
    );
    assert!(capacity(&sc) > 0, "capacity is intact after the refusal");
    let gone = KeyAction::Remove {
        provider: "main".into(),
        index: 0,
    };
    assert_eq!(refused(provider_keys(&mut sc, gone)), (400, stop));

    assert!(provider_keys(&mut sc, add_key("main", "second", None)).is_ok());
    let off = KeyAction::Update {
        provider: "main".into(),
        index: 0,
        enabled: Some(false),
        rpm: Some(5),
    };
    assert!(provider_keys(&mut sc, off).is_ok());
    assert!(!sc.providers[0].keys[0].enabled);
    assert_eq!(sc.providers[0].keys[0].rpm, 5);
    let gone = KeyAction::Remove {
        provider: "main".into(),
        index: 0,
    };
    assert!(provider_keys(&mut sc, gone).is_ok());
    assert_eq!(sc.providers[0].keys.len(), 1);
    assert_eq!(sc.providers[0].keys[0].key, "second");
}

#[test]
fn a_client_key_minted_through_settings_authenticates_immediately() {
    let mut sc = store();
    let minted = clients(
        &mut sc,
        "plain",
        false,
        ClientAction::Mint { label: " laptop ".into() },
    );
    let key = minted.ok().unwrap().expect("a secret is returned once");
    assert!(key.starts_with("lrlp_"));
    assert_eq!(verify_client_key(&key, &sc.clients).as_deref(), Some("laptop"));
    assert_eq!(sc.clients[0].owner, "plain");
    assert!(!sc.clients[0].digest.contains(&key));
}

#[test]
fn a_client_key_needs_a_label() {
    let mut sc = store();
    let r = clients(&mut sc, "plain", false, ClientAction::Mint { label: "  ".into() });
    let e = r.err().unwrap();
    assert_eq!((e.status, message(&e)), (400, "label must not be empty".to_string()));
    let r = mint_client(&mut sc, "plain", "x", None);
    assert_eq!(r.err().unwrap().status, 500);
    assert!(sc.clients.is_empty());
}

#[test]
fn a_plain_user_cannot_revoke_someone_elses_client_key() {
    let mut sc = store();
    let key = mint_client(&mut sc, "admin", "admins-own", Some(vec![7; 32])).ok().unwrap();
    let tail = last4(&key);
    let (status, _) = refused(revoke_client(&mut sc, "plain", false, &tail));
    assert_eq!(status, 403, "revoking another user's key must be refused");
    assert_eq!(sc.clients.len(), 1);
    let (status, why) = refused(revoke_client(&mut sc, "plain", false, "none"));
    assert_eq!((status, why.as_str()), (400, "no client key ending in that"));
    assert!(revoke_client(&mut sc, "admin", true, &tail).is_ok());
    assert!(sc.clients.is_empty());
}

#[test]
fn a_user_retires_their_own_key_and_no_other() {
    let mut sc = store();
    let mine = mint_client(&mut sc, "plain", "mine", Some(vec![1; 32])).ok().unwrap();
    let other = mint_client(&mut sc, "admin", "other", Some(vec![200; 32])).ok().unwrap();
    assert_ne!(last4(&mine), last4(&other));
    let r = clients(
        &mut sc,
        "plain",
        false,
        ClientAction::Revoke { last4: last4(&mine) },
    );
    assert!(r.ok().unwrap().is_none());
    assert_eq!(sc.clients.len(), 1);
    assert_eq!(sc.clients[0].label, "other");
}

#[test]
fn limits_change_what_is_named_and_nothing_else() {
    let mut sc = store();
    let req = LimitsReq {
        max_inflight: Some(7),
        models_ttl_secs: None,
        history_days: Some(3),
        allow_from: Some(vec!["10.0.0.0/8".into()]),
    };
    assert!(limits(&mut sc, req).is_ok());
    assert_eq!(sc.settings.max_inflight, 7);
    assert_eq!(sc.settings.models_ttl_secs, 600);
    assert_eq!(sc.settings.history_days, 3);
    assert_eq!(sc.settings.allow_from, ["10.0.0.0/8"]);

    let none = LimitsReq {
        max_inflight: Some(0),
        models_ttl_secs: Some(1),
        history_days: None,
        allow_from: None,
    };
    assert_eq!(refused(limits(&mut sc, none)).1, "max_inflight must be at least 1");
    assert_eq!(sc.settings.models_ttl_secs, 600, "a refusal changes nothing");

    let typo = LimitsReq {
        max_inflight: None,
        models_ttl_secs: None,
        history_days: None,
        allow_from: Some(vec!["10.0.0.1".into(), "10.0.0".into()]),
    };
    assert_eq!(
        refused(limits(&mut sc, typo)).1,
        "10.0.0 is neither an address nor a CIDR block"
    );
    assert_eq!(allow_rules(&["::1".to_string()]).unwrap().len(), 1);
    assert!(allow_rules(&[]).unwrap().is_empty());
}

#[test]
fn a_second_provider_and_a_fallback_alias_can_be_added_live() {
    let mut sc = store();
    assert!(providers(&mut sc, add_provider(" backup ", "http://two.test/v1", "k2")).is_ok());
    let p = &sc.providers[1];
    assert_eq!((p.name.as_str(), p.base_url.as_str()), ("backup", "http://two.test"));
    assert_eq!((p.keys[0].key.as_str(), p.keys[0].rpm), ("k2", 40));

    let set = AliasAction::Upsert {
        name: "my-agent".into(),
        targets: vec![target("backup", "model-b"), target("main", "model-a")],
    };
    assert!(aliases(&mut sc, set).is_ok());
    assert_eq!(sc.aliases[0].targets.len(), 2);
    let again = AliasAction::Upsert {
        name: "my-agent".into(),
        targets: vec![target("main", "model-c")],
    };
    assert!(aliases(&mut sc, again).is_ok());
    assert_eq!(sc.aliases.len(), 1, "an alias of that name is replaced");
    assert_eq!(sc.aliases[0].targets[0].model, "model-c");
}

#[test]
fn a_bad_provider_is_refused() {
    let mut sc = store();
    for (action, why) in [
        (add_provider(" ", "http://x", "k"), "name must not be empty"),
        (add_provider("main", "http://x", "k"), "there is already a provider named main"),
        (add_provider("new", " /v1/ ", "k"), "base_url must not be empty"),
        (add_provider("new", "http://x", " "), "key must not be empty"),
        (
            ProviderAction::Remove { name: "nope".into() },
            "no provider named nope",
        ),
        (
            ProviderAction::Remove { name: "main".into() },
            "that would leave no enabled keys and stop the proxy serving",
        ),
    ] {
        assert_eq!(refused(providers(&mut sc, action)), (400, why.to_string()));
        assert_eq!(sc.providers.len(), 1);
    }
    let fast = ProviderAction::Add {
        name: "new".into(),
        base_url: "http://x".into(),
        key: "k".into(),
        protocol: Some(Protocol::Anthropic),
        rpm: Some(0),
    };
    assert_eq!(
        refused(providers(&mut sc, fast)).1,
        "rpm must be at least 1; disable the key instead"
    );
}

#[test]
fn an_alias_pointing_at_an_unknown_provider_is_refused() {
    let mut sc = store();
    for (name, targets, why) in [
        ("broken", vec![target("does-not-exist", "m")], "no provider named does-not-exist"),
        (" ", vec![target("main", "m")], "name must not be empty"),
        ("empty", vec![], "an alias needs at least one target"),
    ] {
        let set = AliasAction::Upsert {
            name: name.into(),
            targets,
        };
        assert_eq!(refused(aliases(&mut sc, set)), (400, why.to_string()));
    }
    let gone = AliasAction::Remove { name: "none".into() };
    assert_eq!(refused(aliases(&mut sc, gone)).1, "no alias named none");
    assert!(sc.aliases.is_empty());
}

#[test]
fn removing_a_provider_prunes_aliases_that_pointed_at_it() {
    let mut sc = store();
    assert!(providers(&mut sc, add_provider("temp", "http://t.test", "k2")).is_ok());
    for (name, targets) in [
        ("doomed", vec![target("temp", "m")]),
        ("kept", vec![target("temp", "m"), target("main", "n")]),
    ] {
        let set = AliasAction::Upsert {
            name: name.into(),
            targets,
        };
        assert!(aliases(&mut sc, set).is_ok());
    }
    assert!(providers(&mut sc, ProviderAction::Remove { name: "temp".into() }).is_ok());
    assert_eq!(sc.providers.len(), 1);
    assert_eq!(sc.aliases.len(), 1);
    assert_eq!(sc.aliases[0].name, "kept");
    assert_eq!(sc.aliases[0].targets.len(), 1);
    assert!(aliases(&mut sc, AliasAction::Remove { name: "kept".into() }).is_ok());
    assert!(sc.aliases.is_empty());
}

#[test]
fn an_added_user_can_log_in_and_the_superuser_cannot_be_deleted() {
    let mut sc = store();
    let add = UserAction::Add {
        username: " friend ".into(),
        password: "correcthorsebattery".into(),
    };
    assert!(users(&mut sc, add).is_ok());
    let u = &sc.users[2];
    assert_eq!((u.username.as_str(), u.role), ("friend", Role::User));
    assert!(verify_password("correcthorsebattery", &u.pw_hash));

    let gone = UserAction::Remove {
        username: "admin".into(),
    };
    assert_eq!(
        refused(users(&mut sc, gone)),
        (400, "the superuser cannot be removed".to_string()),
        "deleting the superuser locks everyone out of a running proxy"
    );
    let gone = UserAction::Remove {
        username: "friend".into(),
    };
    assert!(users(&mut sc, gone).is_ok());
    assert_eq!(sc.users.len(), 2);
}

#[test]
fn a_short_password_is_refused() {
    let mut sc = store();
    for (action, why) in [
        (
            UserAction::Add { username: "weak".into(), password: "short".into() },
            "password must be at least 8 characters",
        ),
        (
            UserAction::Add { username: " ".into(), password: "long enough".into() },
            "username must not be empty",
        ),
        (
            UserAction::Add { username: "plain".into(), password: "long enough".into() },
            "there is already a user named plain",
        ),
        (
            UserAction::SetPassword { username: "plain".into(), password: "short".into() },
            "password must be at least 8 characters",
        ),
        (
            UserAction::SetPassword { username: "no".into(), password: "long enough".into() },
            "no user named no",
        ),
        (UserAction::Remove { username: "no".into() }, "no user named no"),
    ] {
        assert_eq!(refused(users(&mut sc, action)), (400, why.to_string()));
    }
    let unlucky = UserAction::SetPassword {
        username: "plain".into(),
        password: "long enough".into(),
    };
    assert_eq!(users_with(&mut sc, unlucky, None).err().unwrap().status, 500);
    assert_eq!(sc.users.len(), 2);
    assert_eq!(sc.users[1].pw_hash, "h1");
}

#[test]
fn changing_a_password_changes_the_witness_of_that_account() {
    let mut sc = store();
    let before = Admin::pw_witness(&sc.users[1].pw_hash);
    let set = UserAction::SetPassword {
        username: "plain".into(),
        password: "a-completely-new-one".into(),
    };
    assert!(users_with(&mut sc, set, Some(vec![9; 16])).is_ok());
    assert_ne!(before, Admin::pw_witness(&sc.users[1].pw_hash));
    assert!(verify_password("a-completely-new-one", &sc.users[1].pw_hash));
    assert_eq!(sc.users[0].pw_hash, "h0", "nobody else is touched");
}

#[test]
fn the_settings_view_never_returns_a_secret() {
    let mut sc = store();
    sc.clients.push(ClientKey {
        label: "laptop".into(),
        digest: "d1gest".into(),
        last4: "wxyz".into(),
        owner: "plain".into(),
    });
    let set = AliasAction::Upsert {
        name: "a".into(),
        targets: vec![target("main", "m")],
    };
    assert!(aliases(&mut sc, set).is_ok());
    let rates = r#"{"m": {"input_per_mtok": 0.5, "output_per_mtok": 1.5}}"#;
    let doc = view(&sc, parse(rates.as_bytes()).unwrap());
    let body = String::from_utf8(render(&doc)).unwrap();
    assert!(!body.contains("provider-key"), "{body}");
    assert!(!body.contains("d1gest") && !body.contains("h0"), "{body}");

    let main = &doc.array_at("providers").unwrap()[0];
    assert_eq!(main.str_at("name"), Some("main"));
    let key = &main.array_at("keys").unwrap()[0];
    assert_eq!(key.str_at("last4"), Some("-key"));
    assert_eq!(key.u64_at("rpm"), Some(40));
    let client = &doc.array_at("clients").unwrap()[0];
    assert_eq!(client.str_at("last4"), Some("wxyz"));
    let alias = &doc.array_at("aliases").unwrap()[0];
    assert_eq!(alias.array_at("targets").unwrap()[0].str_at("model"), Some("m"));
    let settings = doc.get("settings").unwrap();
    assert_eq!(settings.u64_at("max_inflight"), Some(512));
    assert!(settings.get("model_rates").unwrap().get("m").is_some());
    assert!(body.contains(r#""model_rates":{"m":{"input_per_mtok":0.5,"output_per_mtok":1.5}}"#));
}

#[test]
fn a_change_is_answered_by_whether_it_was_saved() {
    let r = outcome(Ok(()), None);
    assert_eq!(r.status, 200);
    assert_eq!(parse(&r.body).unwrap().get("ok").unwrap().as_bool(), Some(true));
    let r = outcome(Ok(()), Some("lrlp_x".into()));
    assert_eq!(parse(&r.body).unwrap().str_at("key"), Some("lrlp_x"));
    let r = outcome(Err("disk full".into()), None);
    assert_eq!((r.status, message(&r)), (500, "disk full".to_string()));
}

#[test]
fn a_key_of_one_provider_leaves_the_others_alone() {
    let mut sc = store();
    assert!(providers(&mut sc, add_provider("spare", "http://spare.test", "k2")).is_ok());
    assert!(provider_keys(&mut sc, add_key("spare", "k3", Some(10))).is_ok());
    assert_eq!(sc.providers[0].keys.len(), 1);
    assert_eq!(sc.providers[0].keys[0].key, "provider-key");
    assert_eq!(sc.providers[1].keys.len(), 2);
    assert_eq!(sc.providers[1].keys[1].key, "k3");
}
