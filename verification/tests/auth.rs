use base64::engine::general_purpose::URL_SAFE_NO_PAD;
use base64::Engine;
use sluice::auth::{
    check_basic_pair, clear_cookie, client_key_of, client_key_with, hash_password,
    hash_password_with, login_page, login_submit, logout, named, new_client_key, record_password, require_admin, require_session,
    require_session_or_basic, session_cookie, session_from_cookies, verify_client_key,
    verify_password, Admin, LoginForm, LOGIN_WINDOW, MAX_LOGIN_FAILS,
};
use sluice::config::{Role, User};
use sluice::reply::Reply;

const NOW: u64 = 1_700_000_000;

/// PBKDF2-HMAC-SHA256 of "password" with the salt "salt" and one round, a published
/// vector: 120fb6cffcf8b32c43e7225256c4f837a86548c92ccc35480805987cb70be17b.
const PASSWORD_HASH: &str = "pbkdf2$sha256$1$c2FsdA$Eg-2z_z4syxD5yJSVsT4N6hlSMkszDVICAWYfLcL4Xs";

fn admin() -> Admin {
    Admin::new(false, 0).unwrap()
}

fn account(name: &str, pw_hash: &str, role: Role) -> User {
    User {
        username: name.to_string(),
        pw_hash: pw_hash.to_string(),
        role,
    }
}

fn header<'a>(r: &'a Reply, name: &str) -> Option<&'a str> {
    r.headers
        .iter()
        .find(|h| h.0 == name)
        .map(|h| h.1.as_str())
}

fn form(username: &str, password: &str) -> LoginForm {
    LoginForm {
        username: username.to_string(),
        password: password.to_string(),
    }
}

#[test]
fn pw_hash_then_verify_true() {
    let h = hash_password("hunter2").unwrap();
    assert!(verify_password("hunter2", &h));
}

#[test]
fn pw_wrong_password_false() {
    let h = hash_password("hunter2").unwrap();
    assert!(!verify_password("nope", &h));
}

#[test]
fn pw_distinct_salts_distinct_hashes() {
    assert_ne!(hash_password("x"), hash_password("x"));
}

#[test]
fn pw_garbage_hash_rejected() {
    assert!(!verify_password("x", "not-a-hash"));
}

#[test]
fn session_mint_then_verify_roundtrips() {
    let a = admin();
    let t = a.mint("alice", "w1", 3600, NOW);
    assert_eq!(a.verify(&t, NOW).unwrap().0, "alice");
}

#[test]
fn session_forged_payload_rejected() {
    let a = admin();
    let real = a.mint("alice", "w1", 3600, NOW);
    let (_, sig) = real.split_once('.').unwrap();
    // Keep alice's signature but swap in a forged identity/expiry.
    let forged = format!("{}.{sig}", URL_SAFE_NO_PAD.encode(b"mallory|w1|9999999999"));
    assert!(a.verify(&forged, NOW).is_none());
}

#[test]
fn session_expired_token_rejected() {
    let a = admin();
    let expired = a.sign_token("alice", "w1", NOW.saturating_sub(10));
    assert!(a.verify(&expired, NOW).is_none());
}

#[test]
fn pw_witness_changes_with_the_hash() {
    let a = Admin::pw_witness("pbkdf2$sha256$1$aaa$bbb");
    let b = Admin::pw_witness("pbkdf2$sha256$1$aaa$ccc");
    assert_ne!(a, b, "a new password must produce a new witness");
    assert_eq!(a.len(), 12);
    assert!(
        !"pbkdf2$sha256$1$aaa$bbb".contains(&a),
        "the hash itself is not leaked"
    );
}

#[test]
fn session_carries_the_witness_it_was_minted_with() {
    let a = admin();
    let t = a.mint("alice", "witness-1", 3600, NOW);
    let (user, witness) = a.verify(&t, NOW).unwrap();
    assert_eq!(user, "alice");
    assert_eq!(witness, "witness-1");
}

#[test]
fn session_foreign_key_rejected() {
    let (a, b) = (admin(), admin());
    let t = a.mint("alice", "w1", 3600, NOW);
    assert!(b.verify(&t, NOW).is_none());
}

#[test]
fn cookie_parsing_never_panics() {
    for raw in ["", ";", "=", ";;=;", "\u{1f600}; a=\u{fffd}", "llm_rate_limit_proxy_session="] {
        let _ = session_from_cookies(Some(raw));
    }
    assert_eq!(
        session_from_cookies(Some("llm_rate_limit_proxy_session=")).as_deref(),
        Some("")
    );
}

#[test]
fn arbitrary_tokens_never_verify() {
    let a = admin();
    for raw in ["", ".", "a.b", "alice|w1|9999999999", "YWxpY2V8dzF8OTk5OTk5OTk5OQ.", "\u{1f600}.x"] {
        assert!(a.verify(raw, NOW).is_none());
    }
}

/// Usernames may contain the field separator; the payload is split from the right,
/// so extra separators cannot shift the boundaries.
#[test]
fn a_signed_token_round_trips_whatever_the_username() {
    let a = admin();
    for user in ["alice", "a|b|c", "|", "\u{e9}\u{1f600}", "x y"] {
        let t = a.mint(user, "0a1b", 3600, NOW);
        assert_eq!(
            a.verify(&t, NOW),
            Some((user.to_string(), "0a1b".to_string()))
        );
    }
}

#[test]
fn password_verification_survives_a_mangled_hash() {
    for stored in [
        "",
        "$$$$",
        "pbkdf2$sha256$x$c2FsdA$aGFzaA",
        "pbkdf2$sha256$1$c2FsdA$",
        "pbkdf2$sha256$1$!!!$aGFzaA",
        "pbkdf2$sha256$1$c2FsdA$aGFzaA$more",
        "scrypt$sha256$1$c2FsdA$aGFzaA",
    ] {
        assert!(!verify_password("pw", stored), "{stored}");
    }
}

#[test]
fn a_real_password_still_verifies() {
    for pw in ["p", "caf\u{e9} \u{1f600}"] {
        let stored = hash_password(pw).unwrap();
        assert!(verify_password(pw, &stored));
        assert!(!verify_password(&format!("{pw}x"), &stored));
    }
}

#[test]
fn cookie_parse_finds_session() {
    assert_eq!(
        session_from_cookies(Some("foo=1; llm_rate_limit_proxy_session=abc.def; bar=2")).as_deref(),
        Some("abc.def")
    );
    assert!(session_from_cookies(Some("foo=1")).is_none());
    assert!(session_from_cookies(None).is_none());
}

#[test]
fn throttle_trips_after_max_fails() {
    let mut a = admin();
    for _ in 0..MAX_LOGIN_FAILS {
        assert!(!a.is_throttled(0));
        a.record_login_failure(0);
    }
    assert!(a.is_throttled(0));
    a.reset_login_failures();
    assert!(!a.is_throttled(0));
}

#[test]
fn client_key_mint_and_verify() {
    let (secret, rec) = new_client_key("bench", "admin").unwrap();
    assert!(secret.starts_with("lrlp_"));
    assert_eq!(verify_client_key(&secret, &[rec]).as_deref(), Some("bench"));
}

#[test]
fn client_key_unknown_rejected() {
    assert!(verify_client_key("lrlp_bogus", &[]).is_none());
    let (_, rec) = new_client_key("a", "admin").unwrap();
    assert!(verify_client_key("lrlp_wrong", &[rec]).is_none());
}

#[test]
fn a_minted_record_keeps_a_digest_and_the_last_four() {
    let (secret, rec) = client_key_of(&[0u8; 32], "laptop", "ann");
    assert_eq!(secret, format!("lrlp_{}", "A".repeat(43)));
    assert_eq!(rec.label, "laptop");
    assert_eq!(rec.owner, "ann");
    assert_eq!(rec.last4, "AAAA");
    assert_eq!(rec.digest.len(), 64);
    assert!(!rec.digest.contains("lrlp_"));
}

#[test]
fn two_minted_keys_differ() {
    let (a, _) = new_client_key("x", "y").unwrap();
    let (b, _) = new_client_key("x", "y").unwrap();
    assert_ne!(a, b);
}

#[test]
fn a_known_hash_is_met_by_its_password_only() {
    assert!(verify_password("password", PASSWORD_HASH));
    assert!(!verify_password("Password", PASSWORD_HASH));
    let other = PASSWORD_HASH.replace("Eg-2", "Eg-3");
    assert!(!verify_password("password", &other));
}

#[test]
fn a_recorded_password_states_its_parameters() {
    let h = record_password("hunter2", b"0123456789abcdef");
    assert!(h.starts_with("pbkdf2$sha256$600000$MDEyMzQ1Njc4OWFiY2RlZg$"));
    assert!(verify_password("hunter2", &h));
}

#[test]
fn a_session_ends_at_its_expiry() {
    let a = admin();
    let t = a.sign_token("alice", "w1", NOW + 5);
    assert!(a.verify(&t, NOW + 4).is_some());
    assert!(a.verify(&t, NOW + 5).is_none());
}

#[test]
fn a_payload_is_split_from_the_right() {
    assert_eq!(
        named("a|b|w|10", 9),
        Some(("a|b".to_string(), "w".to_string()))
    );
    assert_eq!(named("a|b|w|10", 10), None);
    assert_eq!(named("alice|10", 9), None);
    assert_eq!(named("alice|w|soon", 9), None);
}

#[test]
fn cookies_are_http_only_and_scoped() {
    assert_eq!(
        session_cookie("tok", false),
        "llm_rate_limit_proxy_session=tok; HttpOnly; SameSite=Strict; Path=/; Max-Age=43200"
    );
    assert!(session_cookie("tok", true).ends_with("; Secure"));
    assert!(clear_cookie(false).contains("Max-Age=0"));
}

#[test]
fn a_lock_ends_with_its_window() {
    let mut a = admin();
    for _ in 0..MAX_LOGIN_FAILS {
        a.record_login_failure(10);
    }
    assert!(a.is_throttled(LOGIN_WINDOW - 1));
    assert!(!a.is_throttled(LOGIN_WINDOW + 10));
}

#[test]
fn a_session_opens_the_console_until_the_password_changes() {
    let a = Admin::with_key(b"k".to_vec(), false, 0);
    let users = vec![account("ann", "hash-1", Role::User)];
    let token = a.mint("ann", &Admin::pw_witness("hash-1"), 60, NOW);
    let cookies = format!("llm_rate_limit_proxy_session={token}");

    let who = require_session(false, &a, &users, Some(&cookies), NOW);
    assert_eq!(who.ok().unwrap().name(), "ann");

    let reset = vec![account("ann", "hash-2", Role::User)];
    let r = require_session(false, &a, &reset, Some(&cookies), NOW).err().unwrap();
    assert_eq!((r.status, header(&r, "location")), (303, Some("/login")));
}

#[test]
fn before_setup_everything_routes_to_the_wizard() {
    let a = admin();
    let r = require_session(true, &a, &[], None, NOW).err().unwrap();
    assert_eq!((r.status, header(&r, "location")), (303, Some("/setup")));
    let r = require_session_or_basic(true, &a, &[], None, None, NOW).err().unwrap();
    assert_eq!(r.status, 503);
}

#[test]
fn a_scraper_carries_basic_credentials() {
    let a = admin();
    let users = vec![account("ann", PASSWORD_HASH, Role::User)];
    // ann:password
    let good = require_session_or_basic(
        false,
        &a,
        &users,
        None,
        Some("Basic YW5uOnBhc3N3b3Jk"),
        NOW,
    );
    assert!(good.is_ok());
    let bad = require_session_or_basic(false, &a, &users, None, Some("Basic YW5uOm5vcGU="), NOW)
        .err()
        .unwrap();
    assert_eq!(bad.status, 401);
    assert!(header(&bad, "www-authenticate").unwrap().starts_with("Basic"));
    for junk in ["", "Basic", "Basic !!!", "Bearer YW5uOnBhc3N3b3Jk"] {
        assert!(
            require_session_or_basic(false, &a, &users, None, Some(junk), NOW).is_err(),
            "{junk}"
        );
    }
    assert!(check_basic_pair(&users, b"ann:password"));
    assert!(!check_basic_pair(&users, b"ann"));
    assert!(!check_basic_pair(&users, &[0xff, 0xfe]));
}

#[test]
fn only_administrators_pass_the_admin_guard() {
    let users = vec![
        account("root", "h", Role::Superuser),
        account("adm", "h", Role::Admin),
        account("plain", "h", Role::User),
    ];
    assert!(require_admin(&users, Some("root")).is_ok());
    assert!(require_admin(&users, Some("adm")).is_ok());
    assert_eq!(require_admin(&users, Some("plain")).err().unwrap().status, 403);
    assert!(require_admin(&users, Some("nobody")).is_err());
    assert!(require_admin(&users, None).is_err());
}

#[test]
fn login_grants_access_and_logout_clears_it() {
    let mut a = Admin::with_key(b"k".to_vec(), true, 0);
    let users = vec![account("ann", PASSWORD_HASH, Role::User)];

    let r = login_submit(&mut a, &users, &form("ann", "password"), 0, NOW);
    assert_eq!((r.status, header(&r, "location")), (303, Some("/")));
    let cookie = header(&r, "set-cookie").unwrap();
    assert!(cookie.contains("Secure"));
    let token = session_from_cookies(Some(cookie)).unwrap();
    assert_eq!(a.verify(&token, NOW).unwrap().0, "ann");

    let r = logout(&a);
    assert_eq!((r.status, header(&r, "location")), (303, Some("/login")));
    assert!(header(&r, "set-cookie").unwrap().contains("Max-Age=0"));
    assert_eq!(login_page().status, 200);
}

#[test]
fn repeated_bad_logins_are_throttled() {
    let mut a = admin();
    let users = vec![account("ann", PASSWORD_HASH, Role::User)];
    for _ in 0..MAX_LOGIN_FAILS {
        assert_eq!(
            login_submit(&mut a, &users, &form("ann", "wrong"), 0, NOW).status,
            401
        );
    }
    assert_eq!(
        login_submit(&mut a, &users, &form("ann", "wrong"), 0, NOW).status,
        429
    );
    assert_eq!(
        login_submit(&mut a, &users, &form("nobody", "x"), LOGIN_WINDOW, NOW).status,
        401,
        "the lock ends with its window"
    );
}

#[test]
fn a_secret_is_made_exactly_where_there_is_randomness() {
    let h = hash_password_with("hunter2", Some(b"0123456789abcdef".to_vec())).unwrap();
    assert_eq!(h, record_password("hunter2", b"0123456789abcdef"));
    assert!(hash_password_with("hunter2", None).is_none());

    let a = Admin::from_random(Some(vec![7; 32]), true, 0).unwrap();
    let b = Admin::with_key(vec![7; 32], true, 0);
    assert_eq!(a.mint("ann", "w", 60, NOW), b.mint("ann", "w", 60, NOW));
    assert!(a.secure_cookies());
    assert!(Admin::from_random(None, true, 0).is_none());

    let (secret, rec) = client_key_with(Some(vec![0; 32]), "laptop", "ann").unwrap();
    assert_eq!(secret, format!("lrlp_{}", "A".repeat(43)));
    assert_eq!(verify_client_key(&secret, &[rec]).as_deref(), Some("laptop"));
    assert!(client_key_with(None, "laptop", "ann").is_none());
}
