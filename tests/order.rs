use command_config_parser::order::{bytes_less, insert_sorted, starts_with, str_equal, str_less};

#[test]
fn string_order_is_bytewise() {
    assert!(str_less("a", "b"));
    assert!(!str_less("b", "a"));
    assert!(!str_less("a", "a"));
    assert!(str_less("", "a"));
    assert!(str_less("ab", "abc"));
    assert!(str_less("Z", "a"));
    assert!(str_less("z", "\u{e9}"));
    assert!(bytes_less(&[1, 2], &[1, 3]));
    assert!(!bytes_less(&[1, 3], &[1, 2, 0]));
}

#[test]
fn prefix_and_equality() {
    assert!(starts_with("build", "bu"));
    assert!(starts_with("build", ""));
    assert!(starts_with("build", "build"));
    assert!(!starts_with("build", "builds"));
    assert!(!starts_with("build", "Bu"));
    assert!(str_equal("abc", "abc"));
    assert!(!str_equal("abc", "abd"));
    assert!(!str_equal("abc", "ab"));
}

#[test]
fn sorted_insert_keeps_order_and_drops_repeats() {
    let mut v: Vec<String> = Vec::new();
    for s in ["m", "c", "x", "c", "a", "m"] {
        insert_sorted(&mut v, s.to_string());
    }
    assert_eq!(v, vec!["a", "c", "m", "x"]);
}
