use sluice::auth::{verify_client_key, verify_password};
use sluice::config::{Role, StoredConfig};
use sluice::setup::{
    claim, html_escape, not_saved, ready_page, setup_page, setup_submit, SetupForm,
};

fn form(username: &str, password: &str) -> SetupForm {
    SetupForm {
        username: username.into(),
        password: password.into(),
        provider_name: "nim".into(),
        base_url: "http://nim.test//".into(),
        api_key: "k1".into(),
    }
}

#[test]
fn the_wizard_claims_the_proxy() {
    let mut sc = StoredConfig::default();
    let secret = setup_submit(&mut sc, true, form("admin", "password123")).ok().unwrap();
    let u = sc.superuser().unwrap();
    assert_eq!((u.username.as_str(), u.role), ("admin", Role::Superuser));
    assert!(verify_password("password123", &u.pw_hash));
    let p = &sc.providers[0];
    assert_eq!((p.name.as_str(), p.base_url.as_str()), ("nim", "http://nim.test"));
    assert_eq!((p.keys[0].key.as_str(), p.keys[0].rpm), ("k1", 40));
    assert_eq!(p.keys[0].owner, "admin");
    assert_eq!(verify_client_key(&secret, &sc.clients).as_deref(), Some("default"));
}

#[test]
fn a_second_claim_is_rejected() {
    let mut sc = StoredConfig::default();
    let bytes = || Some(vec![5u8; 16]);
    assert!(claim(&mut sc, true, form("a", "p"), bytes(), bytes()).is_ok());
    for required in [true, false] {
        let e = claim(&mut sc, required, form("b", "p"), bytes(), bytes()).err().unwrap();
        assert_eq!(e.status, 409);
    }
    assert_eq!(sc.users.len(), 1);
}

#[test]
fn a_claim_needs_a_name_and_a_password() {
    let mut sc = StoredConfig::default();
    for (u, p) in [(" ", "p"), ("a", "")] {
        let e = setup_submit(&mut sc, true, form(u, p)).err().unwrap();
        assert_eq!(e.status, 400);
        assert_eq!(e.body, b"username and password are required".to_vec());
    }
    let e = claim(&mut sc, true, form("a", "p"), None, Some(vec![1])).err().unwrap();
    assert_eq!(e.status, 500);
    assert!(sc.users.is_empty() && sc.clients.is_empty());
}

#[test]
fn the_wizard_is_inert_once_it_has_run() {
    assert_eq!(setup_page(true).status, 200);
    let r = setup_page(false);
    assert_eq!(r.status, 303);
    assert_eq!(r.headers[0].1, "/login");
}

#[test]
fn the_ready_page_shows_the_key_escaped() {
    let body = String::from_utf8(ready_page("a<b>&c").body).unwrap();
    assert!(body.contains("<pre>a&lt;b&gt;&amp;c</pre>"), "{body}");
    assert_eq!(html_escape("&lt;"), "&amp;lt;");
    assert_eq!(
        not_saved("disk full").body,
        b"could not save config: disk full".to_vec()
    );
}

#[test]
fn the_wizard_stores_a_normal_base_url() {
    let mut sc = StoredConfig::default();
    let typed = SetupForm {
        base_url: " https://nim.test/v1/ ".into(),
        ..form("admin", "password123")
    };
    assert!(claim(&mut sc, true, typed, Some(vec![1; 16]), Some(vec![2; 32])).is_ok());
    assert_eq!(sc.providers[0].base_url, "https://nim.test");
}
