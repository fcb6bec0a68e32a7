use destined::text::{decimal_str, split_str, strip_prefix_all, trim_str};

#[test]
fn trims_unicode_whitespace() {
    assert_eq!(trim_str("\u{3000}\t a b \n"), "a b");
    assert_eq!(trim_str("   "), "");
}

#[test]
fn strips_repeated_prefix() {
    assert_eq!(strip_prefix_all("_r_rd", "_r"), "d");
    assert_eq!(strip_prefix_all("abc", ""), "abc");
}

#[test]
fn splits_keep_empty_pieces() {
    assert_eq!(split_str("a  b", ' '), vec!["a", "", "b"]);
    assert_eq!(split_str("", ' '), vec![""]);
}

#[test]
fn decimal_numbers() {
    assert_eq!(decimal_str(0), "0");
    assert_eq!(decimal_str(1207), "1207");
}
