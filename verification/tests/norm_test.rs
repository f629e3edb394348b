use packmind::norm::pm_norm_1;

#[test]
fn idempotent() {
    let cases: &[&str] = &[
        "def f():\r\n    pass   \r\n\r\n\r\n",
        "\u{feff}hello\rworld",
        "",
        "no trailing newline",
        "tabs\tkept\t\n",
    ];
    for c in cases {
        let once = pm_norm_1(c.as_bytes()).unwrap();
        let twice = pm_norm_1(once.as_bytes()).unwrap();
        assert_eq!(once, twice, "norm must be idempotent for {c:?}");
    }
}

#[test]
fn rules() {
    assert_eq!(pm_norm_1(b"a  \r\nb\r").unwrap(), "a\nb\n");
    assert_eq!(pm_norm_1("\u{feff}x".as_bytes()).unwrap(), "x\n");
    assert_eq!(pm_norm_1(b"x\n\n\n").unwrap(), "x\n");
    // interior whitespace and comments preserved
    assert_eq!(
        pm_norm_1(b"a\t b  # comment\n").unwrap(),
        "a\t b  # comment\n"
    );
    // non-UTF-8 rejected
    assert!(pm_norm_1(&[0xff, 0xfe, 0x00]).is_none());
}

#[test]
fn empty_text_becomes_one_newline() {
    assert_eq!(pm_norm_1(b"").unwrap(), "\n");
}

#[test]
fn exactly_one_trailing_newline() {
    for c in ["a", "a\n", "a\n\n", "a \t\n\n\r\n", "\n\n\n"] {
        let n = pm_norm_1(c.as_bytes()).unwrap();
        assert!(n.ends_with('\n'));
        assert!(!n.ends_with("\n\n") || n == "\n", "{n:?}");
    }
}

#[test]
fn idempotent_except_after_a_second_bom() {
    // Only one leading BOM is stripped: a second one surfaces after the
    // first pass and goes on the second.
    let once = pm_norm_1("\u{feff}\u{feff}x".as_bytes()).unwrap();
    assert_eq!(once, "\u{feff}x\n");
    assert_eq!(pm_norm_1(once.as_bytes()).unwrap(), "x\n");
}

#[test]
fn lone_cr_and_crlf_become_lf() {
    assert_eq!(pm_norm_1(b"a\rb\r\nc").unwrap(), "a\nb\nc\n");
}
