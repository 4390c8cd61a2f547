use sluice::json::{parse, render, Json};

fn again(s: &str) -> String {
    String::from_utf8(render(&parse(s.as_bytes()).unwrap())).unwrap()
}

#[test]
fn a_document_survives_being_read_and_written() {
    for s in [
        "null",
        "true",
        "0",
        "18446744073709551615",
        "-1",
        "1.5",
        "\"a\\\"b\u{e9}\\n\"",
        "[]",
        "{}",
        "[1,[2,[3]],{\"a\":[]}]",
        "{\"a\":{\"b\":[null,false]},\"c\":\"d\"}",
    ] {
        assert_eq!(again(s), s);
    }
}

#[test]
fn what_is_not_json_is_not_read() {
    for s in ["", "{", "nul", "{\"a\":}", "[1,]", "1 2", "\u{feff}{}"] {
        assert!(parse(s.as_bytes()).is_none(), "{s}");
    }
    assert!(parse(&[0xff]).is_none());
}

#[test]
fn fields_are_looked_up_by_name_and_kind() {
    let v = parse(br#"{"s":"x","n":7,"b":true,"l":[1],"f":1.5}"#).unwrap();
    assert_eq!(v.str_at("s"), Some("x"));
    assert_eq!(v.u64_at("n"), Some(7));
    assert_eq!(v.get("b").unwrap().as_bool(), Some(true));
    assert_eq!(v.array_at("l").unwrap().len(), 1);
    assert_eq!(v.u64_at("s"), None);
    assert_eq!(v.u64_at("f"), None);
    assert!(v.get("missing").is_none());
    assert!(Json::Null.get("s").is_none());
}

#[test]
fn setting_a_field_leaves_the_others() {
    let mut v = parse(br#"{"a":1,"b":2}"#).unwrap();
    v.set("a", Json::Str("x".into()));
    v.set("c", Json::Bool(false));
    assert_eq!(v.str_at("a"), Some("x"));
    assert_eq!(v.u64_at("b"), Some(2));
    assert_eq!(v.get("c").unwrap().as_bool(), Some(false));
    let mut list = parse(b"[1]").unwrap();
    list.set("a", Json::Null);
    assert_eq!(render(&list), b"[1]".to_vec(), "only an object has fields");
    assert_eq!(render(&v.dup()), render(&v));
}

#[test]
fn a_document_is_written_with_its_fields_in_order() {
    assert_eq!(again(r#"{"b":1,"a":{"d":2,"c":3},"b":4}"#), r#"{"a":{"c":3,"d":2},"b":4}"#);
    let v = Json::Obj(vec![
        ("z".into(), Json::UInt(1)),
        ("\u{e9}".into(), Json::UInt(2)),
        ("a".into(), Json::UInt(3)),
        ("z".into(), Json::UInt(4)),
        ("zz".into(), Json::UInt(5)),
    ]);
    assert_eq!(
        String::from_utf8(render(&v)).unwrap(),
        "{\"a\":3,\"z\":4,\"zz\":5,\"\u{e9}\":2}"
    );
}
