use sluice::config::{Alias, AliasTarget};
use sluice::json::{parse, Json};
use sluice::models::{extract, has_model, merge, published, Catalog, ContextLimits};

const SECOND: u128 = 1_000_000_000;

fn doc(s: &str) -> Json {
    parse(s.as_bytes()).unwrap()
}

fn model(id: &str) -> Json {
    doc(&format!(
        r#"{{"id": "{id}", "object": "model", "owned_by": "someone"}}"#
    ))
}

fn alias(name: &str) -> Alias {
    Alias {
        name: name.into(),
        targets: vec![AliasTarget {
            provider: "nim".into(),
            model: "real".into(),
        }],
    }
}

fn ids(v: &Json) -> Vec<String> {
    v.array_at("data")
        .unwrap()
        .iter()
        .map(|m| m.str_at("id").unwrap().to_string())
        .collect()
}

#[test]
fn merges_every_providers_catalog() {
    let merged = merge(&[vec![model("a")], vec![model("b")]], &[]);
    assert_eq!(ids(&merged), vec!["a", "b"]);
    assert_eq!(merged.str_at("object"), Some("list"));
}

#[test]
fn a_model_offered_by_two_providers_appears_once() {
    let merged = merge(&[vec![model("same")], vec![model("same")]], &[]);
    assert_eq!(ids(&merged), vec!["same"]);
}

/// Aliases are routable names of the proxy's own. A harness that lists models and
/// never sees them cannot offer them to the user at all.
#[test]
fn aliases_are_listed_as_models() {
    let merged = merge(&[vec![model("real")]], &[alias("virtual")]);
    assert_eq!(ids(&merged), vec!["virtual", "real"]);
}

#[test]
fn an_alias_shadowing_a_real_model_is_not_duplicated() {
    let merged = merge(&[vec![model("shared")]], &[alias("shared")]);
    assert_eq!(ids(&merged), vec!["shared"]);
    assert_eq!(
        merged.array_at("data").unwrap()[0].str_at("owned_by"),
        Some("sluice"),
        "the alias is what routing will actually use, so it must be what is shown"
    );
}

#[test]
fn entries_without_an_id_are_skipped() {
    let merged = merge(&[vec![doc(r#"{"object": "model"}"#), model("ok")]], &[]);
    assert_eq!(ids(&merged), vec!["ok"]);
}

#[test]
fn extract_reads_the_data_array_and_tolerates_junk() {
    assert_eq!(extract(&doc(r#"{"data": [{"id": "x"}]}"#)).len(), 1);
    assert!(extract(&doc(r#"{"unexpected": true}"#)).is_empty());
}

#[test]
fn a_cached_catalog_is_served_until_it_expires() {
    let mut cat = Catalog::new(60);
    cat.put("nim", vec![model("a")], 0);
    assert!(cat.fresh("nim", 59 * SECOND).is_some());
    assert!(cat.fresh("nim", 61 * SECOND).is_none());
}

#[test]
fn providers_offering_names_only_those_that_list_the_model() {
    let mut cat = Catalog::new(60);
    cat.put("nim", vec![model("shared"), model("nim-only")], 0);
    cat.put("together", vec![model("shared")], 0);
    assert_eq!(cat.providers_offering("shared"), vec!["nim", "together"]);
    assert_eq!(cat.providers_offering("nim-only"), vec!["nim"]);
    assert!(cat.providers_offering("nowhere").is_empty());
}

/// Offered as a live setting, so it has to behave like one.
#[test]
fn shortening_the_ttl_expires_a_catalog_immediately() {
    let mut cat = Catalog::new(600);
    cat.put("nim", vec![model("a")], 0);
    let later = 60 * SECOND;
    assert!(cat.fresh("nim", later).is_some(), "fresh under a 600s ttl");
    cat.set_ttl_secs(30);
    assert!(cat.fresh("nim", later).is_none(), "stale under a 30s ttl");
}

#[test]
fn an_unknown_provider_has_nothing_cached() {
    let cat = Catalog::new(60);
    assert!(cat.fresh("nope", 0).is_none());
    assert!(cat.stale("nope").is_none());
}

/// Catalogs are near-static, so an expired copy beats failing the request: losing
/// the catalog makes a harness look broken at startup.
#[test]
fn an_expired_catalog_is_still_available_as_a_fallback() {
    let mut cat = Catalog::new(60);
    cat.put("nim", vec![model("a")], 0);
    let long_after = 3600 * SECOND;
    assert!(cat.fresh("nim", long_after).is_none());
    assert_eq!(cat.stale("nim").unwrap().len(), 1);
}

#[test]
fn providers_are_named_in_order() {
    let mut cat = Catalog::new(60);
    for p in ["zeta", "alpha", "mid"] {
        cat.put(p, vec![model("m")], 0);
    }
    assert_eq!(cat.providers_offering("m"), vec!["alpha", "mid", "zeta"]);
    assert!(has_model(&vec![model("m")], "m"));
    assert!(!has_model(&vec![model("m")], "n"));
}

#[test]
fn a_learned_window_is_published_and_the_smallest_is_known() {
    let mut limits = ContextLimits::new();
    assert_eq!(limits.smallest(), None);
    limits.learn("big", 200_000);
    limits.learn("small", 8_192);
    limits.learn("big", 131_072);
    assert_eq!(limits.get("big"), Some(131_072));
    assert_eq!(limits.get("unknown"), None);
    assert_eq!(limits.smallest(), Some(8_192));

    let out = published(&[vec![model("big"), model("other")]], &[], &limits);
    let data = out.array_at("data").unwrap();
    assert_eq!(data[0].u64_at("context_length"), Some(131_072));
    assert_eq!(data[1].u64_at("context_length"), None);
    assert_eq!(data[1].str_at("owned_by"), Some("someone"));
}
