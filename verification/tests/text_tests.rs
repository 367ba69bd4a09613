use tailscale_portal::text::{decimal_text, is_text_less, signed_decimal_text, starts_with};

#[test]
fn starts_with_matches_prefixes() {
    assert!(starts_with("100.64.0.1", "100."));
    assert!(starts_with("abc", ""));
    assert!(starts_with("100.", "100."));
    assert!(!starts_with("10.0.0.1", "100."));
    assert!(!starts_with("100", "100."));
    assert!(starts_with("http://100.1.2.3:5252", "http://100."));
}

#[test]
fn text_order_is_that_of_strings() {
    let words = ["", "a", "ab", "b", "Z", "é", "aa", "ä"];
    for x in words.iter() {
        for y in words.iter() {
            assert_eq!(is_text_less(x, y), x < y, "{:?} < {:?}", x, y);
        }
    }
}

#[test]
fn decimal_texts_match_to_string() {
    for n in [0u64, 7, 10, 99, 8080, 65535, u64::MAX] {
        assert_eq!(decimal_text(n), n.to_string());
    }
    for n in [0i64, -1, 5, -42, 123456789, i64::MIN, i64::MAX] {
        assert_eq!(signed_decimal_text(n), n.to_string());
    }
}
