use packmind::profile::{keyword_hit, prior_class, Mode, PriorClass};

#[test]
fn reasons_map_to_prior_classes() {
    assert_eq!(prior_class("anchor"), PriorClass::Anchor);
    assert_eq!(prior_class("calls"), PriorClass::Calls);
    assert_eq!(prior_class("called_by"), PriorClass::Calls);
    assert_eq!(prior_class("tested_by"), PriorClass::TestedBy);
    assert_eq!(prior_class("imported_by"), PriorClass::Structure);
    assert_eq!(prior_class("inherits"), PriorClass::Structure);
    assert_eq!(prior_class("doc_mention"), PriorClass::Doc);
    assert_eq!(prior_class("search_hit"), PriorClass::Other);
}

#[test]
fn only_security_mode_has_keywords() {
    let k = Mode::Security.keywords();
    assert_eq!(k.len(), 10);
    assert_eq!(k[0], "auth");
    assert_eq!(k[9], "credential");
    assert!(Mode::Default.keywords().is_empty());
    assert!(Mode::Architecture.keywords().is_empty());
}

#[test]
fn bugfix_and_pr_modes_anchor_changed_files() {
    assert!(Mode::Bugfix.anchors_dirty());
    assert!(Mode::Pr.anchors_dirty());
    assert!(!Mode::Default.anchors_dirty());
    assert!(!Mode::Security.anchors_dirty());
}

#[test]
fn keyword_hit_is_case_insensitive_and_in_keyword_order() {
    let k = Mode::Security.keywords();
    assert_eq!(keyword_hit(&k, "src/Auth/login.py", None), Some("auth"));
    assert_eq!(keyword_hit(&k, "x.py", Some("validateToken")), Some("token"));
    assert_eq!(keyword_hit(&k, "lib/Crypto.ts", Some("run")), Some("crypt"));
    assert_eq!(keyword_hit(&k, "payments.py", Some("charge")), None);
    assert_eq!(keyword_hit(&Vec::new(), "auth.py", None), None);
}
