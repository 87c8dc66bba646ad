use courrier::text::{has_char, push_decimal, replace_each, text_before};

#[test]
fn text_helpers() {
    assert!(has_char("a@b", '@'));
    assert!(!has_char("ab", '@'));
    assert!(!has_char("", '@'));
    assert_eq!(text_before("user@example.com", '@'), "user");
    assert_eq!(text_before("user", '@'), "user");
    assert_eq!(text_before("", '@'), "");
    assert_eq!(replace_each("a@b@c", '@', '_', "_"), "a_b_c");
    assert_eq!(replace_each("", '@', '_', "_"), "");
    let mut s = String::from("n=");
    push_decimal(&mut s, 0);
    assert_eq!(s, "n=0");
    let mut s = String::new();
    push_decimal(&mut s, 1234567890);
    assert_eq!(s, "1234567890");
}
