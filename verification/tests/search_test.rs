use packmind::search::{match_expr, matched_term, search_terms};

#[test]
fn terms_are_word_runs_of_two_bytes_or_more() {
    assert_eq!(search_terms("fix the PaymentValidator, a x_y!"), vec!["fix", "the", "PaymentValidator", "x_y"]);
    assert_eq!(search_terms(""), Vec::<String>::new());
    assert_eq!(search_terms("a b c"), Vec::<String>::new());
    // Length is counted in bytes: one two-byte letter is a term.
    assert_eq!(search_terms("é-x"), vec!["é"]);
    assert_eq!(search_terms("fx-rate/service.py"), vec!["fx", "rate", "service", "py"]);
}

#[test]
fn match_expression_quotes_and_joins_terms() {
    assert_eq!(match_expr(&vec!["payment".to_string(), "fx".to_string()]), "\"payment\" OR \"fx\"");
    assert_eq!(match_expr(&vec!["a\"b".to_string()]), "\"ab\"");
    assert_eq!(match_expr(&vec![]), "");
}

#[test]
fn hit_is_credited_to_first_matching_term() {
    let terms = vec!["foo".to_string(), "bar".to_string()];
    assert_eq!(matched_term(&terms, "xx bar yy", &None), "bar");
    assert_eq!(matched_term(&terms, "xx bar yy", &Some("foo_impl".to_string())), "foo");
    assert_eq!(matched_term(&terms, "nothing here", &Some("baz".to_string())), "foo");
    assert_eq!(matched_term(&terms, "a barfoo", &None), "foo");
}
