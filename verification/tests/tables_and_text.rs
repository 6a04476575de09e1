//! Tables by key, and work on text.
use smg::key_table::KeyTable;
use smg::text::{
    chars_of, decimal, eq_ignoring_case, find_token, lower_string, str_contains, str_eq,
    str_has_prefix, str_less, string_of, trim_string,
};

#[test]
fn a_table_holds_one_value_for_a_key() {
    let mut table: KeyTable<u32> = KeyTable::new();
    assert_eq!(table.len(), 0);
    table.insert("b".to_string(), 1);
    table.insert("a".to_string(), 2);
    table.insert("b".to_string(), 3);
    assert_eq!(table.len(), 2);
    assert_eq!(table.get("b"), Some(&3));
    assert_eq!(table.get("c"), None);
    assert!(table.contains("a"));
    assert_eq!(table.remove("b"), Some(3));
    assert_eq!(table.remove("b"), None);
    assert_eq!(table.keys(), vec!["a".to_string()]);
    assert!(!table.contains("b"));
}

#[test]
fn a_table_survives_many_changes() {
    let mut table: KeyTable<usize> = KeyTable::new();
    for i in 0..200 {
        table.insert(format!("k{}", i * 7 % 200), i);
    }
    for i in (0..200).step_by(2) {
        assert!(table.remove(&format!("k{i}")).is_some());
    }
    assert_eq!(table.len(), 100);
    for i in 0..200 {
        assert_eq!(table.contains(&format!("k{i}")), i % 2 == 1);
    }
    for i in (1..200).step_by(2) {
        assert_eq!(table.get(&format!("k{}", i * 7 % 200)), Some(&i));
    }
}

#[test]
fn texts_are_compared_by_their_bytes() {
    assert!(str_eq("a", "a"));
    assert!(!str_eq("a", "ab"));
    assert!(str_less("", "a"));
    assert!(str_less("Z", "a"));
    assert!(str_less("a", "ab"));
    assert!(!str_less("b", "ab"));
    assert!(str_less("z", "\u{e9}"));
    assert!(str_less("\u{ffff}", "\u{10000}"));
    assert!(eq_ignoring_case("NuLL", "null"));
    assert!(!eq_ignoring_case("\u{c9}", "\u{e9}"));
}

#[test]
fn texts_are_searched_and_cut() {
    let text = chars_of("abcabc");
    let token = chars_of("bc");
    assert_eq!(find_token(&text, &token, 0), Some(1));
    assert_eq!(find_token(&text, &token, 2), Some(4));
    assert_eq!(find_token(&text, &token, 5), None);
    assert_eq!(string_of(&text, 1, 4), "bca");
    assert!(str_contains("hello", "ell"));
    assert!(!str_contains("hello", "elo"));
    assert!(str_contains("hello", ""));
    assert!(str_has_prefix("hello", "he"));
    assert!(!str_has_prefix("he", "hello"));
    assert_eq!(trim_string(" \t\u{3000}a b\n\u{a0}"), "a b");
    assert_eq!(trim_string("   "), "");
    assert_eq!(lower_string("AbZ\u{c9}1"), "abz\u{c9}1");
}

#[test]
fn white_space_is_what_the_standard_says() {
    for v in 0..0x3100u32 {
        if let Some(c) = char::from_u32(v) {
            let text = format!("{c}x{c}");
            assert_eq!(trim_string(&text), text.trim(), "{v:x}");
        }
    }
}

#[test]
fn numbers_are_spelled_in_decimal() {
    for n in [0, 7, 10, 99, 100, 1024, u64::MAX] {
        assert_eq!(decimal(n), n.to_string());
    }
}
