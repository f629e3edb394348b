use packmind::tokens::{approx, count, is_exact};

#[test]
fn approx_is_quarter_chars_rounded_up() {
    assert_eq!(approx(""), 0);
    assert_eq!(approx("abcd"), 1);
    assert_eq!(approx("abcde"), 2);
    assert_eq!(approx("é"), 1);
    // Characters, not bytes: nine UTF-8 bytes, three characters.
    assert_eq!(approx("日本語"), 1);
    assert_eq!(approx("日本語日本"), 2);
}

#[test]
fn exact_count_uses_o200k() {
    assert!(is_exact());
    assert_eq!(count(""), 0);
    assert_eq!(count("hello world"), 2);
    assert!(count("def f():\n    return 1\n") > 0);
}
