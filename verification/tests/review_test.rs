use packmind::review::{impact_label, impacts_outside, push_unique, review_query};

fn strs(v: &[&str]) -> Vec<String> {
    v.iter().map(|s| s.to_string()).collect()
}

#[test]
fn impact_labels() {
    assert_eq!(impact_label("a.py", &Some("f".to_string())), "a.py::f");
    assert_eq!(impact_label("a.py", &None), "a.py::-");
}

#[test]
fn impact_skips_invalid_and_changed_files() {
    let changed = strs(&["a.py", "b.py"]);
    assert!(impacts_outside(true, "c.py", &changed));
    assert!(!impacts_outside(true, "a.py", &changed));
    assert!(!impacts_outside(false, "c.py", &changed));
}

#[test]
fn impact_lists_keep_each_entry_once() {
    let mut list: Vec<String> = Vec::new();
    assert!(push_unique(&mut list, "x::f".to_string()));
    assert!(push_unique(&mut list, "y::g".to_string()));
    assert!(!push_unique(&mut list, "x::f".to_string()));
    assert_eq!(list, strs(&["x::f", "y::g"]));
}

#[test]
fn review_query_names_first_five_symbols_or_paths() {
    let changed = strs(&["a.py", "b.py"]);
    assert_eq!(review_query(&changed, &Vec::new()), "review changes to a.py, b.py");
    let syms = strs(&["a.py::f", "a.py::C.m", "b.py::g", "b.py::h", "b.py::i", "b.py::j"]);
    assert_eq!(review_query(&changed, &syms), "review changes to f, C.m, g, h, i");
    let odd = strs(&["x::y::z", "w"]);
    assert_eq!(review_query(&changed, &odd), "review changes to z, w");
}
