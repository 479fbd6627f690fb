use tarot::num::{parse_i32, u32_decimal};
use tarot::scores::Scores;

#[test]
fn test_u32_decimal() {
    assert_eq!(u32_decimal(0), "0");
    assert_eq!(u32_decimal(7), "7");
    assert_eq!(u32_decimal(10), "10");
    assert_eq!(u32_decimal(305), "305");
    assert_eq!(u32_decimal(4294967295), "4294967295");
}

#[test]
fn test_parse_i32_accepts_signed_decimals() {
    assert_eq!(parse_i32("0"), Some(0));
    assert_eq!(parse_i32("15"), Some(15));
    assert_eq!(parse_i32("+15"), Some(15));
    assert_eq!(parse_i32("-15"), Some(-15));
    assert_eq!(parse_i32("007"), Some(7));
    assert_eq!(parse_i32("2147483647"), Some(i32::MAX));
    assert_eq!(parse_i32("-2147483648"), Some(i32::MIN));
}

#[test]
fn test_parse_i32_rejects_everything_else() {
    assert_eq!(parse_i32(""), None);
    assert_eq!(parse_i32("+"), None);
    assert_eq!(parse_i32("-"), None);
    assert_eq!(parse_i32("1 2"), None);
    assert_eq!(parse_i32("12x"), None);
    assert_eq!(parse_i32(" 12"), None);
    assert_eq!(parse_i32("2147483648"), None);
    assert_eq!(parse_i32("-2147483649"), None);
    assert_eq!(parse_i32("99999999999999999999"), None);
    assert_eq!(parse_i32("--1"), None);
}

#[test]
fn test_scores_table_behaves_like_a_map() {
    let mut t = Scores::new();
    assert_eq!(t.len(), 0);
    assert_eq!(t.get("Alice"), None);
    t.put("Alice".to_string(), 10);
    t.put("Bob".to_string(), -4);
    t.put("Alice".to_string(), 12);
    assert_eq!(t.len(), 2);
    assert_eq!(t.get("Alice"), Some(12));
    assert_eq!(t.get("Bob"), Some(-4));
    t.add_to("Alice".to_string(), -2);
    t.add_to("Eve".to_string(), 1);
    assert_eq!(t.get("Alice"), Some(10));
    assert_eq!(t.get("Eve"), Some(1));
    assert_eq!(t.len(), 3);
    assert_eq!(t.sum(), 10 - 4 + 1);
    // insertion order is kept
    assert_eq!(t.pair_at(0).0, "Alice");
    assert_eq!(t.pair_at(1).0, "Bob");
    assert_eq!(t.pair_at(2).0, "Eve");
}
