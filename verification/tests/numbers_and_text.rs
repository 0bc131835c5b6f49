use qube::text::{
    bool_to_string, i32_to_string, join_strings, parse_bool_str, parse_i32_str, parse_u64_str,
    split_str, u64_to_string,
};

#[test]
fn u64_renders_exactly() {
    assert_eq!(u64_to_string(0), "0");
    assert_eq!(u64_to_string(7), "7");
    assert_eq!(u64_to_string(12345), "12345");
    assert_eq!(u64_to_string(u64::MAX), "18446744073709551615");
}

#[test]
fn u64_parses_exactly() {
    assert_eq!(parse_u64_str("0"), Some(0));
    assert_eq!(parse_u64_str("12345"), Some(12345));
    assert_eq!(parse_u64_str("18446744073709551615"), Some(u64::MAX));
    assert_eq!(parse_u64_str("18446744073709551616"), None);
    assert_eq!(parse_u64_str(""), None);
    assert_eq!(parse_u64_str("12a"), None);
    assert_eq!(parse_u64_str("-1"), None);
}

#[test]
fn i32_round_trips() {
    for v in [0, 1, -1, -2, 4242, i32::MAX, i32::MIN] {
        let text = i32_to_string(v);
        assert_eq!(parse_i32_str(&text), Some(v));
    }
    assert_eq!(i32_to_string(-2), "-2");
    assert_eq!(parse_i32_str("2147483648"), None);
    assert_eq!(parse_i32_str("-2147483649"), None);
    assert_eq!(parse_i32_str("-"), None);
}

#[test]
fn bools_render_and_parse() {
    assert_eq!(bool_to_string(true), "true");
    assert_eq!(bool_to_string(false), "false");
    assert_eq!(parse_bool_str("true"), Some(true));
    assert_eq!(parse_bool_str("false"), Some(false));
    assert_eq!(parse_bool_str("TRUE"), None);
    assert_eq!(parse_bool_str(""), None);
}

#[test]
fn split_and_join_are_inverse() {
    let parts = split_str("a|b||c", '|');
    assert_eq!(parts, vec!["a", "b", "", "c"]);
    assert_eq!(join_strings(&parts, '|'), "a|b||c");
    assert_eq!(split_str("", '|'), vec![""]);
    assert_eq!(join_strings(&vec![], '|'), "");
}
