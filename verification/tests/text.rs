use sluice::text::{
    comes_before, find, parse_number, push_number, rsplit_once, same_ignoring_case, split,
    split_once, strip_prefix, trim,
};

#[test]
fn a_written_number_reads_back() {
    for n in [0u64, 7, 10, 65_535, 1_000_000, u64::MAX] {
        let mut out = String::new();
        push_number(&mut out, n);
        assert_eq!(out, n.to_string());
        assert_eq!(parse_number(&out, u64::MAX), Some(n));
    }
}

#[test]
fn a_number_is_digits_within_its_bound() {
    assert_eq!(parse_number("255", 255), Some(255));
    assert_eq!(parse_number("256", 255), None);
    assert_eq!(parse_number("", 255), None);
    assert_eq!(parse_number("1a", 255), None);
    assert_eq!(parse_number("-1", 255), None);
    assert_eq!(parse_number("18446744073709551616", u64::MAX), None);
}

#[test]
fn texts_are_cut_where_std_cuts_them() {
    for s in ["", "a", "a=b", "a=b=c", "=", " x = y ", "\u{e9}=\u{1f600}"] {
        assert_eq!(split_once(s, '='), s.split_once('='));
        assert_eq!(rsplit_once(s, '='), s.rsplit_once('='));
        assert_eq!(split(s, '='), s.split('=').collect::<Vec<_>>());
        assert_eq!(trim(s), s.trim());
        assert_eq!(strip_prefix(s, "a="), s.strip_prefix("a="));
        assert_eq!(find(s, "=").is_some(), s.contains('='));
    }
}

#[test]
fn texts_are_ordered_as_std_orders_them() {
    for a in ["", "a", "ab", "b", "B", "\u{e9}"] {
        for b in ["", "a", "ab", "b", "B", "\u{e9}"] {
            assert_eq!(comes_before(a, b), a < b);
        }
    }
    assert!(same_ignoring_case("Bearer", "bEARER"));
    assert!(!same_ignoring_case("Bearer", "Bearers"));
}
