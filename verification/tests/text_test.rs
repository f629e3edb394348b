use packmind::edges::{contains_word, join_rel};
use packmind::text::{collapse_ws, slice};
use packmind::walk::{keep_file, rel_path, MAX_FILE_BYTES};

#[test]
fn collapse_ws_joins_words_with_single_spaces() {
    assert_eq!(collapse_ws("  def  f(\n  a,\tb\n)  "), "def f( a, b )");
    assert_eq!(collapse_ws(""), "");
    assert_eq!(collapse_ws(" \n\t "), "");
}

#[test]
fn slice_is_empty_off_boundaries() {
    assert_eq!(slice("héllo", 0, 1), "h");
    assert_eq!(slice("héllo", 0, 2), "");
    assert_eq!(slice("héllo", 1, 3), "é");
    assert_eq!(slice("abc", 2, 9), "");
    assert_eq!(slice("abc", 2, 1), "");
}

#[test]
fn contains_word_needs_word_boundaries() {
    assert!(contains_word("use PaymentValidator here", "PaymentValidator"));
    assert!(contains_word("PaymentValidator", "PaymentValidator"));
    assert!(!contains_word("PaymentValidators", "PaymentValidator"));
    assert!(!contains_word("_PaymentValidator", "PaymentValidator"));
    assert!(contains_word("(PaymentValidator).", "PaymentValidator"));
    assert!(contains_word("fooX foo", "foo"));
    assert!(!contains_word("", "foo"));
}

#[test]
fn join_rel_resolves_dots() {
    assert_eq!(join_rel("src/app", "../lib/x"), "src/lib/x");
    assert_eq!(join_rel("src/app", "./util"), "src/app/util");
    assert_eq!(join_rel("", "./a/b"), "a/b");
    assert_eq!(join_rel("a", "../../b"), "b");
}

#[test]
fn rel_path_strips_root_and_uses_slashes() {
    assert_eq!(rel_path("/repo", "/repo/src/a.py"), Some("src/a.py".to_string()));
    assert_eq!(rel_path("/repo", "/other/a.py"), None);
    assert_eq!(rel_path("/repo", "/repo"), Some(String::new()));
}

#[test]
fn walker_filter() {
    assert!(keep_file("a.py", Some("py"), false, Some(10)));
    assert!(!keep_file("a.py", Some("py"), true, Some(10)));
    assert!(!keep_file("Cargo.lock", Some("lock"), false, Some(10)));
    assert!(!keep_file("app.min.js", Some("js"), false, Some(10)));
    assert!(!keep_file("logo.PNG", Some("PNG"), false, Some(10)));
    assert!(!keep_file("big.py", Some("py"), false, Some(MAX_FILE_BYTES + 1)));
    assert!(keep_file("edge.py", Some("py"), false, Some(MAX_FILE_BYTES)));
    assert!(!keep_file("a.py", Some("py"), false, None));
    assert!(keep_file("Makefile", None, false, Some(1)));
}

#[test]
fn collapsing_twice_changes_nothing() {
    for s in ["def  f(\n    a,\tb)", "  x  ", "", "a\u{a0}\u{3000}b"] {
        let once = packmind::text::collapse_ws(s);
        assert_eq!(packmind::text::collapse_ws(&once), once);
    }
    assert_eq!(packmind::text::collapse_ws("def  f(\n    a,\tb)"), "def f( a, b)");
}
