use packmind::model::NodeId;
use packmind::route::file_target;
use packmind::walk_graph::LevelWalk;

fn id(b: u8) -> NodeId {
    [b; 16]
}

#[test]
fn level_walk_reports_each_node_once_at_its_first_distance() {
    let mut w = LevelWalk::new(&vec![id(1)], 3);
    assert!(w.active());
    assert_eq!(w.distance(), 1);
    assert_eq!(w.frontier(), vec![id(1)]);
    // Seeds count as reached.
    assert!(!w.visit(id(1)));
    assert!(w.visit(id(2)));
    assert!(!w.visit(id(2)));
    w.keep(id(2));
    w.end_level();
    assert!(w.active());
    assert_eq!(w.distance(), 2);
    assert_eq!(w.frontier(), vec![id(2)]);
    assert!(!w.visit(id(1)));
    assert!(w.visit(id(3)));
    // Reached but not reported (e.g. an invalid node): no next level.
    w.end_level();
    assert!(!w.active());
}

#[test]
fn level_walk_stops_at_max_depth() {
    assert!(!LevelWalk::new(&vec![id(1)], 0).active());
    let mut w = LevelWalk::new(&vec![id(1)], 1);
    assert!(w.visit(id(2)));
    w.keep(id(2));
    w.end_level();
    assert!(!w.active());
}

#[test]
fn targets_with_a_slash_or_dot_name_files() {
    assert_eq!(file_target("src/payments.py").as_deref(), Some("payments.py"));
    assert_eq!(file_target("payments.py").as_deref(), Some("payments.py"));
    assert_eq!(file_target("src/billing").as_deref(), Some("billing"));
    assert_eq!(file_target("PaymentValidator"), None);
}
