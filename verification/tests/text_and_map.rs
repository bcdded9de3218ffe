use db_sync::str_map::StrMap;
use db_sync::text::{chars_of, compare_keys, decimal_string, has_prefix, same_text, KeyOrder};

fn order(a: &str, b: &str) -> &'static str {
    match compare_keys(a, b) {
        KeyOrder::Less => "less",
        KeyOrder::Equal => "equal",
        KeyOrder::Greater => "greater",
    }
}

#[test]
fn keys_compare_like_std_strings() {
    let cases = [
        ("a", "b"),
        ("ab", "a"),
        ("", ""),
        ("", "a"),
        ("B", "a"),
        ("users", "users_old"),
        ("z", "é"),
        ("table1", "table10"),
        ("same", "same"),
    ];
    for (a, b) in cases {
        let expected = match a.cmp(b) {
            std::cmp::Ordering::Less => "less",
            std::cmp::Ordering::Equal => "equal",
            std::cmp::Ordering::Greater => "greater",
        };
        assert_eq!(order(a, b), expected, "{:?} vs {:?}", a, b);
    }
}

#[test]
fn same_text_is_string_equality() {
    assert!(same_text("env", "env"));
    assert!(!same_text("env", "env2"));
    assert!(!same_text("Env", "env"));
}

#[test]
fn prefixes() {
    assert!(has_prefix("pg_class", "pg"));
    assert!(has_prefix("pg", "pg"));
    assert!(!has_prefix("p", "pg"));
    assert!(!has_prefix("apg", "pg"));
    assert!(has_prefix("anything", ""));
}

#[test]
fn chars_of_gives_the_characters() {
    assert_eq!(chars_of("añb"), vec!['a', 'ñ', 'b']);
    assert_eq!(chars_of(""), Vec::<char>::new());
}

#[test]
fn decimal_notation() {
    assert_eq!(decimal_string(0), "0");
    assert_eq!(decimal_string(7), "7");
    assert_eq!(decimal_string(10), "10");
    assert_eq!(decimal_string(105), "105");
    assert_eq!(decimal_string(usize::MAX), usize::MAX.to_string());
}

fn keys_of(m: &StrMap<u32>) -> Vec<String> {
    (0..m.len()).map(|i| m.key_at(i).clone()).collect()
}

#[test]
fn map_keeps_keys_in_order() {
    let mut m: StrMap<u32> = StrMap::new();
    m.insert("orders".to_string(), 1);
    m.insert("accounts".to_string(), 2);
    m.insert("users".to_string(), 3);
    m.insert("Zeta".to_string(), 4);
    assert_eq!(keys_of(&m), vec!["Zeta", "accounts", "orders", "users"]);
    assert_eq!(m.len(), 4);
    assert_eq!(*m.value_at(1), 2);
}

#[test]
fn map_insert_replaces_and_get_reads_back() {
    let mut m: StrMap<u32> = StrMap::new();
    assert!(m.get("a").is_none());
    m.insert("a".to_string(), 1);
    m.insert("a".to_string(), 5);
    assert_eq!(m.len(), 1);
    assert_eq!(m.get("a"), Some(&5));
    assert!(m.contains_key("a"));
    assert!(!m.contains_key("b"));
}

#[test]
fn map_remove_takes_the_value_out() {
    let mut m: StrMap<u32> = StrMap::new();
    m.insert("a".to_string(), 1);
    m.insert("b".to_string(), 2);
    assert_eq!(m.remove("a"), Some(1));
    assert_eq!(m.remove("a"), None);
    assert_eq!(m.remove("zz"), None);
    assert_eq!(keys_of(&m), vec!["b"]);
    let pairs = m.into_pairs();
    assert_eq!(pairs, vec![("b".to_string(), 2)]);
}
