use packmind::candidates::{
    admit_hit, admit_neighbor, keep_candidate, keyword_note, merge_why, prune_candidates, Admit, CandidateWalk,
};
use packmind::model::{NodeId, NodeKind};
use packmind::pack::Why;

fn id(b: u8) -> NodeId {
    [b; 16]
}

fn why(reason: &str) -> Why {
    Why { reason: reason.into(), score_centi: None, detail: reason.into() }
}

#[test]
fn walk_takes_two_hops_and_each_node_once() {
    let mut w = CandidateWalk::new(&vec![id(1), id(2)]);
    assert!(w.start_hop());
    assert_eq!(w.hop(), 1);
    assert_eq!(w.frontier(), vec![id(1), id(2)]);
    assert!(w.is_seen(&id(1)));
    assert!(!w.add(id(2)));
    assert!(w.add(id(3)));
    assert!(!w.add(id(3)));
    w.end_hop();
    assert!(w.start_hop());
    assert_eq!(w.frontier(), vec![id(3)]);
    assert!(w.add(id(4)));
    w.end_hop();
    assert!(!w.start_hop());
    assert_eq!(w.hop(), 2);
}

#[test]
fn walk_stops_at_a_large_frontier() {
    let seeds: Vec<NodeId> = (0..600u32).map(|i| {
        let mut x = [0u8; 16];
        x[0] = (i % 256) as u8;
        x[1] = (i / 256) as u8;
        x
    }).collect();
    let mut w = CandidateWalk::new(&seeds);
    assert!(!w.start_hop());
}

#[test]
fn a_file_stands_for_at_most_eight_new_chunks() {
    let mut w = CandidateWalk::new(&vec![id(1)]);
    assert!(w.start_hop());
    let chunks: Vec<NodeId> = (1..=12u8).map(id).collect();
    // Chunk 1 is already a candidate; 9..12 lie past the first eight.
    assert_eq!(w.add_file_chunks(&chunks), (2..=8u8).map(id).collect::<Vec<_>>());
    assert!(w.is_seen(&id(8)));
    assert!(!w.is_seen(&id(9)));
}

#[test]
fn anchor_explanations_are_sticky() {
    let anchor = why("anchor");
    let hit = why("search_hit");
    assert_eq!(merge_why(&anchor, &hit, true).reason, "anchor");
    assert_eq!(merge_why(&hit, &why("calls"), true).reason, "calls");
    assert_eq!(merge_why(&hit, &why("calls"), false).reason, "search_hit");
}

#[test]
fn pruning_keeps_anchors_and_scores_over_the_threshold() {
    assert!(keep_candidate(true, false));
    assert!(keep_candidate(false, true));
    assert!(!keep_candidate(false, false));
    let kept = prune_candidates(&vec![true, false, false, true], &vec![false, true, false, false]);
    assert_eq!(kept, vec![0, 1, 3]);
}

#[test]
fn admission_resolves_signatures_and_expands_files() {
    assert_eq!(admit_hit(NodeKind::Signature), Admit::ResolveChunk);
    assert_eq!(admit_hit(NodeKind::AstChunk), Admit::Take);
    assert_eq!(admit_hit(NodeKind::DocChunk), Admit::Take);
    assert_eq!(admit_neighbor(NodeKind::AstChunk, false), Admit::Skip);
    assert_eq!(admit_neighbor(NodeKind::File, false), Admit::Skip);
    assert_eq!(admit_neighbor(NodeKind::File, true), Admit::ExpandFile);
    assert_eq!(admit_neighbor(NodeKind::AstChunk, true), Admit::Take);
    assert_eq!(admit_neighbor(NodeKind::DocChunk, true), Admit::Take);
}

#[test]
fn keyword_note_appends_the_keyword() {
    assert_eq!(keyword_note("calls edge from f", "auth"), "calls edge from f · keyword 'auth'");
    assert_eq!(keyword_note("", "x"), " · keyword 'x'");
}
