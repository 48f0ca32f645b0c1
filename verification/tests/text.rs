use server_status::text::{
    find_char, find_chars, push_decimal, push_signed_decimal, trim_padding_bytes, trimmed_len,
};

#[test]
fn decimal_rendering() {
    let mut s = String::new();
    push_decimal(&mut s, 0);
    assert_eq!(s, "0");
    let mut s = String::from("n=");
    push_decimal(&mut s, 10);
    assert_eq!(s, "n=10");
    let mut s = String::new();
    push_decimal(&mut s, u64::MAX);
    assert_eq!(s, "18446744073709551615");
    let mut s = String::new();
    push_signed_decimal(&mut s, -905);
    assert_eq!(s, "-905");
    let mut s = String::new();
    push_signed_decimal(&mut s, i64::MIN + 1);
    assert_eq!(s, "-9223372036854775807");
}

#[test]
fn padding_is_trimmed() {
    assert_eq!(trimmed_len(b"ab\0\n\0", true), 2);
    assert_eq!(trimmed_len(b"ab\0\n\0", false), 4);
    assert_eq!(trimmed_len(b"\0\0", false), 0);
    assert_eq!(trimmed_len(b"", true), 0);
    assert_eq!(trim_padding_bytes(b"a\0b\0", false), b"a\0b".to_vec());
}

#[test]
fn searching() {
    let text: Vec<char> = "abcabc".chars().collect();
    assert_eq!(find_chars(&text, &"ca".chars().collect()), Some(2));
    assert_eq!(find_chars(&text, &"cb".chars().collect()), None);
    assert_eq!(find_chars(&text, &vec![]), Some(0));
    assert_eq!(find_chars(&text, &"abcabcd".chars().collect()), None);
    assert_eq!(find_char(&text, 'c'), Some(2));
    assert_eq!(find_char(&text, 'z'), None);
}
