//! Token-budget planning: greedy density selection with signature
//! substitution and containment, then cache-stable ordering and the pack's
//! token accounting.

use vstd::prelude::*;
use crate::model::{Node, NodeView, NodeKind, NodeId, node_kind_label, hex_encode_spec, opt_view, id_hex, clone_opt_string};
use crate::pack::{Why, WhyView, PackItem, PackRequest, ContextPack, Freshness, Layout, Totals};
use crate::text::str_eq;

verus! {

/// A ranked candidate as the planner receives it: in descending
/// score/token density order, with the signature node of its symbol (if
/// the index has one) for substitution.
#[derive(Debug)]
pub struct SelectInput {
    pub node: Node,
    pub why: Why,
    pub signature: Option<Node>,
}

/// Mathematical value of a [`SelectInput`].
pub ghost struct SelectInputView {
    pub node: NodeView,
    pub why: WhyView,
    pub signature: Option<NodeView>,
}

impl View for SelectInput {
    type V = SelectInputView;

    open spec fn view(&self) -> SelectInputView {
        SelectInputView {
            node: self.node@,
            why: self.why@,
            signature: match self.signature {
                Some(s) => Some(s@),
                None => None,
            },
        }
    }
}

/// A selected node, the reason it was selected, and whether it stands in
/// (as a signature) for the chunk that was ranked.
#[derive(Debug)]
pub struct Chosen {
    pub node: Node,
    pub why: Why,
    pub substituted: bool,
}

/// Mathematical value of a [`Chosen`].
pub ghost struct ChosenView {
    pub node: NodeView,
    pub why: WhyView,
    pub substituted: bool,
}

impl View for Chosen {
    type V = ChosenView;

    open spec fn view(&self) -> ChosenView {
        ChosenView { node: self.node@, why: self.why@, substituted: self.substituted }
    }
}

/// Views of chosen items.
pub open spec fn chosen_views(v: Seq<Chosen>) -> Seq<ChosenView> {
    v.map_values(|c: Chosen| c@)
}

/// Views of ranked candidates.
pub open spec fn input_views(v: Seq<SelectInput>) -> Seq<SelectInputView> {
    v.map_values(|c: SelectInput| c@)
}

/// Byte range of a file already spent: (path, start, end).
pub type Covered = Seq<(Seq<char>, int, int)>;

/// An AST chunk overlaps an already covered byte range of its own file.
pub open spec fn overlaps_spec(covered: Covered, n: NodeView) -> bool {
    n.kind == NodeKind::AstChunk && exists|i: int|
        0 <= i < covered.len() && #[trigger] covered[i].0 == n.path && n.byte_start < covered[i].2
            && covered[i].1 < n.byte_end
}

/// Planner state after a prefix of the ranked candidates: the chosen items,
/// the tokens spent, and the covered byte ranges.
pub ghost struct SelectState {
    pub chosen: Seq<ChosenView>,
    pub used: int,
    pub covered: Covered,
}

/// The greedy selection over ranked candidates. Each candidate, in order:
/// skipped if it overlaps covered bytes; taken in full if it fits the
/// remaining budget; otherwise, unless it is an anchor, replaced by its
/// symbol's signature when that fits and does not overlap; else skipped.
pub open spec fn select_spec(cands: Seq<SelectInputView>, budget: int) -> SelectState
    decreases cands.len(),
{
    if cands.len() == 0 {
        SelectState { chosen: Seq::empty(), used: 0, covered: Seq::empty() }
    } else {
        let st = select_spec(cands.drop_last(), budget);
        let c = cands.last();
        if overlaps_spec(st.covered, c.node) {
            st
        } else if st.used + c.node.tokens <= budget {
            SelectState {
                chosen: st.chosen.push(ChosenView { node: c.node, why: c.why, substituted: false }),
                used: st.used + c.node.tokens,
                covered: st.covered.push((c.node.path, c.node.byte_start, c.node.byte_end)),
            }
        } else if c.why.reason != "anchor"@ && c.node.kind == NodeKind::AstChunk
            && c.node.symbol is Some && c.signature is Some && st.used + c.signature->0.tokens
            <= budget && !overlaps_spec(st.covered, c.signature->0) {
            SelectState {
                chosen: st.chosen.push(
                    ChosenView { node: c.signature->0, why: c.why, substituted: true },
                ),
                used: st.used + c.signature->0.tokens,
                covered: st.covered,
            }
        } else {
            st
        }
    }
}

/// Token counts of candidates and their signatures are non-negative.
pub open spec fn tokens_nonneg(cands: Seq<SelectInputView>) -> bool {
    forall|i: int|
        0 <= i < cands.len() ==> #[trigger] cands[i].node.tokens >= 0 && (cands[i].signature
            matches Some(s) ==> s.tokens >= 0)
}

/// Sum of the token counts of chosen items.
pub open spec fn chosen_tokens(chosen: Seq<ChosenView>) -> int
    decreases chosen.len(),
{
    if chosen.len() == 0 {
        0
    } else {
        chosen_tokens(chosen.drop_last()) + chosen.last().node.tokens
    }
}

/// View of the covered ranges kept by the planner.
pub open spec fn covered_view(v: Seq<(String, i64, i64)>) -> Covered {
    Seq::new(v.len(), |i: int| (v[i].0@, v[i].1 as int, v[i].2 as int))
}

fn overlaps(covered: &Vec<(String, i64, i64)>, n: &Node) -> (r: bool)
    ensures
        r == overlaps_spec(covered_view(covered@), n@),
{
    let ghost cv = covered_view(covered@);
    if n.kind != NodeKind::AstChunk {
        return false;
    }
    let mut i: usize = 0;
    while i < covered.len()
        invariant
            i <= covered.len(),
            cv == covered_view(covered@),
            n.kind == NodeKind::AstChunk,
            forall|k: int|
                0 <= k < i ==> !(#[trigger] cv[k].0 == n@.path && n@.byte_start < cv[k].2
                    && cv[k].1 < n@.byte_end),
        decreases covered.len() - i,
    {
        let (p, s, e) = (&covered[i].0, covered[i].1, covered[i].2);
        if str_eq(p.as_str(), n.path.as_str()) && n.byte_start < e && s < n.byte_end {
            proof {
                assert(cv[i as int].0 == n@.path);
            }
            return true;
        }
        i = i + 1;
    }
    false
}

/// Greedy weighted selection (score/token density order) with signature
/// substitution and containment.
pub fn select(order: &Vec<SelectInput>, budget: i64) -> (r: Vec<Chosen>)
    ensures
        chosen_views(r@) == select_spec(input_views(order@), budget as int).chosen,
{
    let ghost cands = input_views(order@);
    let mut chosen: Vec<Chosen> = Vec::new();
    let mut used: i128 = 0;
    let mut covered: Vec<(String, i64, i64)> = Vec::new();
    let mut i: usize = 0;
    proof {
        assert(cands.take(0) =~= Seq::<SelectInputView>::empty());
        assert(chosen_views(chosen@) =~= Seq::<ChosenView>::empty());
        assert(covered_view(covered@) =~= Seq::<(Seq<char>, int, int)>::empty());
    }
    while i < order.len()
        invariant
            i <= order.len(),
            cands == input_views(order@),
            chosen_views(chosen@) == select_spec(cands.take(i as int), budget as int).chosen,
            used as int == select_spec(cands.take(i as int), budget as int).used,
            covered_view(covered@) == select_spec(cands.take(i as int), budget as int).covered,
            -9223372036854775808 * (i as int) <= used <= 9223372036854775807 * (i as int),
        decreases order.len() - i,
    {
        let ghost pre = cands.take(i as int);
        let ghost st = select_spec(pre, budget as int);
        proof {
            assert(cands.take(i + 1).drop_last() =~= pre);
            assert(cands.take(i + 1).last() == cands[i as int]);
            assert(cands[i as int] == order@[i as int]@);
        }
        let c = &order[i];
        let ov = overlaps(&covered, &c.node);
        let t = c.node.tokens as i128;
        if ov {
        } else if t <= budget as i128 - used {
            let ghost old_chosen = chosen@;
            let ghost old_cov = covered@;
            chosen.push(Chosen { node: c.node.duplicate(), why: c.why.duplicate(), substituted: false });
            covered.push((c.node.path.clone(), c.node.byte_start, c.node.byte_end));
            used = used + t;
            proof {
                assert(chosen_views(chosen@) =~= chosen_views(old_chosen).push(
                    ChosenView { node: cands[i as int].node, why: cands[i as int].why, substituted: false },
                ));
                assert(covered_view(covered@) =~= covered_view(old_cov).push(
                    (cands[i as int].node.path, cands[i as int].node.byte_start, cands[i as int].node.byte_end),
                ));
            }
        } else {
            proof {
                reveal_strlit("anchor");
            }
            let is_anchor = str_eq(c.why.reason.as_str(), "anchor");
            if !is_anchor && c.node.kind == NodeKind::AstChunk && c.node.symbol.is_some() {
                match &c.signature {
                    Some(sig) => {
                        proof {
                            assert(cands[i as int].signature == Some(sig@));
                        }
                        let sov = overlaps(&covered, sig);
                        if (sig.tokens as i128) <= budget as i128 - used && !sov {
                            let ghost old_chosen = chosen@;
                            chosen.push(Chosen { node: sig.duplicate(), why: c.why.duplicate(), substituted: true });
                            used = used + sig.tokens as i128;
                            proof {
                                assert(chosen_views(chosen@) =~= chosen_views(old_chosen).push(
                                    ChosenView { node: sig@, why: cands[i as int].why, substituted: true },
                                ));
                            }
                        }
                    },
                    None => {},
                }
            }
        }
        i = i + 1;
    }
    proof {
        assert(cands.take(order.len() as int) =~= cands);
    }
    chosen
}

/// No two full (not substituted) chosen items of one file, the later being
/// an AST chunk, share a byte.
pub open spec fn no_overlapping_chunks(chosen: Seq<ChosenView>) -> bool {
    forall|i: int, j: int|
        0 <= i < j < chosen.len() && !chosen[i].substituted && !chosen[j].substituted
            && chosen[j].node.kind == NodeKind::AstChunk && #[trigger] chosen[i].node.path
            == #[trigger] chosen[j].node.path ==> !(chosen[j].node.byte_start
            < chosen[i].node.byte_end && chosen[i].node.byte_start < chosen[j].node.byte_end)
}

/// Every full chosen item's byte range is among the covered ranges.
pub open spec fn full_items_covered(chosen: Seq<ChosenView>, covered: Covered) -> bool {
    forall|i: int|
        0 <= i < chosen.len() && !(#[trigger] chosen[i]).substituted ==> exists|k: int|
            0 <= k < covered.len() && covered[k] == (
                chosen[i].node.path,
                chosen[i].node.byte_start,
                chosen[i].node.byte_end,
            )
}

proof fn lemma_select_invariants(cands: Seq<SelectInputView>, budget: int)
    requires
        tokens_nonneg(cands),
        budget >= 0,
    ensures
        chosen_tokens(select_spec(cands, budget).chosen) == select_spec(cands, budget).used,
        0 <= select_spec(cands, budget).used <= budget,
        full_items_covered(select_spec(cands, budget).chosen, select_spec(cands, budget).covered),
        no_overlapping_chunks(select_spec(cands, budget).chosen),
        forall|i: int|
            0 <= i < select_spec(cands, budget).chosen.len() && (#[trigger] select_spec(
                cands,
                budget,
            ).chosen[i]).substituted ==> select_spec(cands, budget).chosen[i].why.reason
                != "anchor"@,
    decreases cands.len(),
{
    if cands.len() > 0 {
        let pre = cands.drop_last();
        assert(tokens_nonneg(pre)) by {
            assert forall|i: int| 0 <= i < pre.len() implies #[trigger] pre[i].node.tokens >= 0 && (
            pre[i].signature matches Some(s) ==> s.tokens >= 0) by {
                assert(pre[i] == cands[i]);
            }
        }
        lemma_select_invariants(pre, budget);
        let st = select_spec(pre, budget);
        let c = cands.last();
        assert(c == cands[cands.len() - 1]);
        let r = select_spec(cands, budget);
        if overlaps_spec(st.covered, c.node) {
        } else if st.used + c.node.tokens <= budget {
            let nv = ChosenView { node: c.node, why: c.why, substituted: false };
            assert(r.chosen == st.chosen.push(nv));
            assert(r.chosen.drop_last() =~= st.chosen);
            assert(full_items_covered(r.chosen, r.covered)) by {
                assert forall|i: int| 0 <= i < r.chosen.len() && !(#[trigger] r.chosen[i]).substituted implies exists|k: int|
                    0 <= k < r.covered.len() && r.covered[k] == (
                        r.chosen[i].node.path,
                        r.chosen[i].node.byte_start,
                        r.chosen[i].node.byte_end,
                    ) by {
                    if i < st.chosen.len() {
                        assert(r.chosen[i] == st.chosen[i]);
                        let k = choose|k: int| 0 <= k < st.covered.len() && st.covered[k] == (
                            st.chosen[i].node.path,
                            st.chosen[i].node.byte_start,
                            st.chosen[i].node.byte_end,
                        );
                        assert(r.covered[k] == st.covered[k]);
                    } else {
                        assert(r.covered[st.covered.len() as int] == (c.node.path, c.node.byte_start, c.node.byte_end));
                    }
                }
            }
            assert(no_overlapping_chunks(r.chosen)) by {
                assert forall|i: int, j: int|
                    0 <= i < j < r.chosen.len() && !r.chosen[i].substituted && !r.chosen[j].substituted
                        && r.chosen[j].node.kind == NodeKind::AstChunk && #[trigger] r.chosen[i].node.path
                        == #[trigger] r.chosen[j].node.path implies !(r.chosen[j].node.byte_start
                        < r.chosen[i].node.byte_end && r.chosen[i].node.byte_start < r.chosen[j].node.byte_end) by {
                    assert(r.chosen[i] == st.chosen[i]);
                    if j < st.chosen.len() {
                        assert(r.chosen[j] == st.chosen[j]);
                    } else {
                        let k = choose|k: int| 0 <= k < st.covered.len() && st.covered[k] == (
                            st.chosen[i].node.path,
                            st.chosen[i].node.byte_start,
                            st.chosen[i].node.byte_end,
                        );
                        assert(st.covered[k].0 == c.node.path);
                    }
                }
            }
            assert forall|i: int|
                0 <= i < r.chosen.len() && (#[trigger] r.chosen[i]).substituted implies r.chosen[i].why.reason
                    != "anchor"@ by {
                assert(r.chosen[i] == st.chosen[i]);
            }
        } else if c.why.reason != "anchor"@ && c.node.kind == NodeKind::AstChunk
            && c.node.symbol is Some && c.signature is Some && st.used + c.signature->0.tokens
            <= budget && !overlaps_spec(st.covered, c.signature->0) {
            let nv = ChosenView { node: c.signature->0, why: c.why, substituted: true };
            assert(r.chosen == st.chosen.push(nv));
            assert(r.chosen.drop_last() =~= st.chosen);
            assert(c.signature->0.tokens >= 0);
            assert(full_items_covered(r.chosen, r.covered)) by {
                assert forall|i: int| 0 <= i < r.chosen.len() && !(#[trigger] r.chosen[i]).substituted implies exists|k: int|
                    0 <= k < r.covered.len() && r.covered[k] == (
                        r.chosen[i].node.path,
                        r.chosen[i].node.byte_start,
                        r.chosen[i].node.byte_end,
                    ) by {
                    assert(r.chosen[i] == st.chosen[i]);
                }
            }
            assert(no_overlapping_chunks(r.chosen)) by {
                assert forall|i: int, j: int|
                    0 <= i < j < r.chosen.len() && !r.chosen[i].substituted && !r.chosen[j].substituted
                        && r.chosen[j].node.kind == NodeKind::AstChunk && #[trigger] r.chosen[i].node.path
                        == #[trigger] r.chosen[j].node.path implies !(r.chosen[j].node.byte_start
                        < r.chosen[i].node.byte_end && r.chosen[i].node.byte_start < r.chosen[j].node.byte_end) by {
                    assert(r.chosen[i] == st.chosen[i]);
                    assert(r.chosen[j] == st.chosen[j]);
                }
            }
            assert forall|i: int|
                0 <= i < r.chosen.len() && (#[trigger] r.chosen[i]).substituted implies r.chosen[i].why.reason
                    != "anchor"@ by {
                if i < st.chosen.len() {
                    assert(r.chosen[i] == st.chosen[i]);
                }
            }
        } else {
        }
    }
}

/// The planner never spends more than the budget, never substitutes an
/// anchor by its signature, and never ships two full items of one file
/// whose bytes overlap (the later being an AST chunk).
pub proof fn lemma_select_laws(cands: Seq<SelectInputView>, budget: int)
    requires
        tokens_nonneg(cands),
        budget >= 0,
    ensures
        chosen_tokens(select_spec(cands, budget).chosen) <= budget,
        no_overlapping_chunks(select_spec(cands, budget).chosen),
        forall|i: int|
            0 <= i < select_spec(cands, budget).chosen.len() && (#[trigger] select_spec(
                cands,
                budget,
            ).chosen[i]).substituted ==> select_spec(cands, budget).chosen[i].why.reason
                != "anchor"@,
{
    lemma_select_invariants(cands, budget);
}

/// Sum of the candidates' token counts.
pub open spec fn input_tokens(cands: Seq<SelectInputView>) -> int
    decreases cands.len(),
{
    if cands.len() == 0 {
        0
    } else {
        input_tokens(cands.drop_last()) + cands.last().node.tokens
    }
}

/// Byte range of a candidate's file that taking it in full covers.
pub open spec fn range_of(c: SelectInputView) -> (Seq<char>, int, int) {
    (c.node.path, c.node.byte_start, c.node.byte_end)
}

/// Candidate `i` is an AST chunk whose bytes overlap those of a
/// higher-ranked candidate of its file.
pub open spec fn overlaps_earlier(cands: Seq<SelectInputView>, i: int) -> bool {
    cands[i].node.kind == NodeKind::AstChunk && exists|m: int|
        0 <= m < i && #[trigger] cands[m].node.path == cands[i].node.path && cands[i].node.byte_start
            < cands[m].node.byte_end && cands[m].node.byte_start < cands[i].node.byte_end
}

/// Candidate `i` taken in full.
pub open spec fn full_choice(c: SelectInputView) -> ChosenView {
    ChosenView { node: c.node, why: c.why, substituted: false }
}

proof fn lemma_ample_inv(cands: Seq<SelectInputView>, budget: int) -> (w: Seq<int>)
    requires
        tokens_nonneg(cands),
        input_tokens(cands) <= budget,
    ensures
        0 <= select_spec(cands, budget).used <= input_tokens(cands),
        w.len() == select_spec(cands, budget).covered.len(),
        forall|j: int|
            0 <= j < w.len() ==> 0 <= #[trigger] w[j] < cands.len() && range_of(cands[w[j]])
                == select_spec(cands, budget).covered[j],
        forall|k: int|
            0 <= k < select_spec(cands, budget).chosen.len() ==> !(#[trigger] select_spec(
                cands,
                budget,
            ).chosen[k]).substituted,
        forall|i: int|
            0 <= i < cands.len() && !overlaps_earlier(cands, i) ==> select_spec(
                cands,
                budget,
            ).chosen.contains(#[trigger] full_choice(cands[i])),
    decreases cands.len(),
{
    if cands.len() == 0 {
        Seq::empty()
    } else {
        let pre = cands.drop_last();
        let c = cands.last();
        let n = cands.len() - 1;
        assert(tokens_nonneg(pre)) by {
            assert forall|i: int| 0 <= i < pre.len() implies #[trigger] pre[i].node.tokens >= 0 && (
            pre[i].signature matches Some(s) ==> s.tokens >= 0) by {
                assert(pre[i] == cands[i]);
            }
        }
        assert(c.node.tokens >= 0) by {
            assert(cands[n] == c);
        }
        let w0 = lemma_ample_inv(pre, budget);
        let st = select_spec(pre, budget);
        let r = select_spec(cands, budget);
        assert forall|j: int| 0 <= j < w0.len() implies range_of(cands[#[trigger] w0[j]]) == st.covered[j] by {
            assert(cands[w0[j]] == pre[w0[j]]);
        }
        if !overlaps_earlier(cands, n) {
            assert(!overlaps_spec(st.covered, c.node)) by {
                if overlaps_spec(st.covered, c.node) {
                    let j = choose|j: int|
                        0 <= j < st.covered.len() && #[trigger] st.covered[j].0 == c.node.path
                            && c.node.byte_start < st.covered[j].2 && st.covered[j].1 < c.node.byte_end;
                    let m = w0[j];
                    assert(range_of(cands[m]) == st.covered[j]);
                    assert(cands[m].node.path == cands[n].node.path);
                }
            }
        }
        assert forall|i: int| 0 <= i < cands.len() && !overlaps_earlier(cands, i) implies r.chosen.contains(
            #[trigger] full_choice(cands[i]),
        ) by {
            if i < n {
                assert(cands[i] == pre[i]);
                assert(!overlaps_earlier(pre, i)) by {
                    if overlaps_earlier(pre, i) {
                        let m = choose|m: int|
                            0 <= m < i && #[trigger] pre[m].node.path == pre[i].node.path && pre[i].node.byte_start
                                < pre[m].node.byte_end && pre[m].node.byte_start < pre[i].node.byte_end;
                        assert(cands[m] == pre[m]);
                    }
                }
                assert(st.chosen.contains(full_choice(pre[i])));
                let x = choose|x: int| 0 <= x < st.chosen.len() && st.chosen[x] == full_choice(pre[i]);
                if !overlaps_spec(st.covered, c.node) {
                    assert(r.chosen[x] == st.chosen[x]);
                }
            } else {
                assert(r.chosen[r.chosen.len() - 1] == full_choice(c));
            }
        }
        if !overlaps_spec(st.covered, c.node) {
            let w = w0.push(n);
            assert forall|j: int| 0 <= j < w.len() implies 0 <= #[trigger] w[j] < cands.len() && range_of(cands[w[j]])
                == r.covered[j] by {
                if j < w0.len() {
                    assert(w[j] == w0[j]);
                }
            }
            w
        } else {
            w0
        }
    }
}

/// With a budget that covers every candidate in full, nothing is replaced
/// by its signature, and every candidate (anchors among them) whose bytes
/// overlap no higher-ranked candidate of its file ships in full.
pub proof fn lemma_ample_budget(cands: Seq<SelectInputView>, budget: int)
    requires
        tokens_nonneg(cands),
        input_tokens(cands) <= budget,
    ensures
        forall|k: int|
            0 <= k < select_spec(cands, budget).chosen.len() ==> !(#[trigger] select_spec(
                cands,
                budget,
            ).chosen[k]).substituted,
        forall|i: int|
            0 <= i < cands.len() && !overlaps_earlier(cands, i) ==> select_spec(
                cands,
                budget,
            ).chosen.contains(#[trigger] full_choice(cands[i])),
{
    lemma_ample_inv(cands, budget);
}

/// Signature nodes enter a selection only as substitutes: when no ranked
/// candidate is itself a signature, every chosen signature stands in for
/// its chunk.
pub proof fn lemma_signatures_only_substituted(cands: Seq<SelectInputView>, budget: int)
    requires
        forall|i: int| 0 <= i < cands.len() ==> (#[trigger] cands[i]).node.kind != NodeKind::Signature,
    ensures
        forall|k: int|
            0 <= k < select_spec(cands, budget).chosen.len() && (#[trigger] select_spec(
                cands,
                budget,
            ).chosen[k]).node.kind == NodeKind::Signature ==> select_spec(cands, budget).chosen[k].substituted,
    decreases cands.len(),
{
    if cands.len() > 0 {
        let pre = cands.drop_last();
        assert forall|i: int| 0 <= i < pre.len() implies (#[trigger] pre[i]).node.kind != NodeKind::Signature by {
            assert(pre[i] == cands[i]);
        }
        lemma_signatures_only_substituted(pre, budget);
        let st = select_spec(pre, budget);
        let r = select_spec(cands, budget);
        assert(cands[cands.len() - 1] == cands.last());
        assert forall|k: int|
            0 <= k < r.chosen.len() && (#[trigger] r.chosen[k]).node.kind == NodeKind::Signature implies r.chosen[k].substituted by {
            if k < st.chosen.len() {
                assert(r.chosen[k] == st.chosen[k]);
            }
        }
    }
}

/// A candidate's signature, when it has one, is the signature node of the
/// candidate's own path and symbol.
pub open spec fn signature_matches(c: SelectInputView) -> bool {
    c.signature matches Some(s) ==> s.kind == NodeKind::Signature && s.path == c.node.path && s.symbol
        == c.node.symbol
}

/// Every substituted item is the signature of a ranked chunk: a signature
/// node with that chunk's path and symbol.
pub proof fn lemma_substitutes_are_chunk_signatures(cands: Seq<SelectInputView>, budget: int)
    requires
        forall|i: int| 0 <= i < cands.len() ==> signature_matches(#[trigger] cands[i]),
    ensures
        forall|k: int|
            0 <= k < select_spec(cands, budget).chosen.len() && (#[trigger] select_spec(
                cands,
                budget,
            ).chosen[k]).substituted ==> {
                let n = select_spec(cands, budget).chosen[k].node;
                &&& n.kind == NodeKind::Signature
                &&& exists|i: int|
                    0 <= i < cands.len() && #[trigger] cands[i].signature == Some(n) && cands[i].node.kind
                        == NodeKind::AstChunk && n.path == cands[i].node.path && n.symbol == cands[i].node.symbol
            },
    decreases cands.len(),
{
    if cands.len() > 0 {
        let pre = cands.drop_last();
        assert forall|i: int| 0 <= i < pre.len() implies signature_matches(#[trigger] pre[i]) by {
            assert(pre[i] == cands[i]);
        }
        lemma_substitutes_are_chunk_signatures(pre, budget);
        let st = select_spec(pre, budget);
        let r = select_spec(cands, budget);
        let last = cands.len() - 1;
        assert(cands[last] == cands.last());
        assert(signature_matches(cands[last]));
        assert forall|k: int| 0 <= k < r.chosen.len() && (#[trigger] r.chosen[k]).substituted implies {
            let n = r.chosen[k].node;
            &&& n.kind == NodeKind::Signature
            &&& exists|i: int|
                0 <= i < cands.len() && #[trigger] cands[i].signature == Some(n) && cands[i].node.kind
                    == NodeKind::AstChunk && n.path == cands[i].node.path && n.symbol == cands[i].node.symbol
        } by {
            let n = r.chosen[k].node;
            if k < st.chosen.len() {
                assert(r.chosen[k] == st.chosen[k]);
                let i = choose|i: int|
                    0 <= i < pre.len() && #[trigger] pre[i].signature == Some(n) && pre[i].node.kind
                        == NodeKind::AstChunk && n.path == pre[i].node.path && n.symbol == pre[i].node.symbol;
                assert(pre[i] == cands[i]);
            } else {
                assert(cands[last].signature == Some(n));
            }
        }
    }
}

/// Position of a node in the hot set (its last occurrence), if it is a member.
pub open spec fn hot_pos(hot: Seq<NodeId>, id: NodeId) -> Option<int>
    decreases hot.len(),
{
    if hot.len() == 0 {
        None
    } else if hot.last() == id {
        Some(hot.len() - 1)
    } else {
        hot_pos(hot.drop_last(), id)
    }
}

/// Lexicographic order of byte strings.
pub open spec fn lex_lt(a: Seq<u8>, b: Seq<u8>) -> bool
    decreases a.len(),
{
    if a.len() == 0 || b.len() == 0 {
        a.len() < b.len()
    } else if a[0] != b[0] {
        a[0] < b[0]
    } else {
        lex_lt(a.drop_first(), b.drop_first())
    }
}

/// Cache-stable order of two chosen items, `i` and `j` being their input
/// positions: hot-set members first in hot-set order, then ascending content
/// hash; input order breaks the remaining ties.
pub open spec fn stable_before(
    hot: Seq<NodeId>,
    a: ChosenView,
    i: int,
    b: ChosenView,
    j: int,
) -> bool {
    match (hot_pos(hot, a.node.id), hot_pos(hot, b.node.id)) {
        (Some(x), Some(y)) => x < y || (x == y && i < j),
        (Some(_), None) => true,
        (None, Some(_)) => false,
        (None, None) => lex_lt(a.node.hash@, b.node.hash@) || (a.node.hash@ == b.node.hash@ && i < j),
    }
}

proof fn lemma_lex_irrefl(a: Seq<u8>)
    ensures
        !lex_lt(a, a),
    decreases a.len(),
{
    if a.len() > 0 {
        lemma_lex_irrefl(a.drop_first());
    }
}

proof fn lemma_lex_total(a: Seq<u8>, b: Seq<u8>)
    ensures
        a != b ==> lex_lt(a, b) || lex_lt(b, a),
        lex_lt(a, b) ==> !lex_lt(b, a),
    decreases a.len(),
{
    if a.len() > 0 && b.len() > 0 {
        lemma_lex_total(a.drop_first(), b.drop_first());
        if a != b && a[0] == b[0] {
            assert(a =~= seq![a[0]] + a.drop_first());
            assert(b =~= seq![b[0]] + b.drop_first());
        }
    } else if a.len() == 0 && b.len() == 0 {
        assert(a =~= b);
    }
}

proof fn lemma_lex_trans(a: Seq<u8>, b: Seq<u8>, c: Seq<u8>)
    ensures
        lex_lt(a, b) && lex_lt(b, c) ==> lex_lt(a, c),
    decreases a.len(),
{
    if a.len() > 0 && b.len() > 0 && c.len() > 0 {
        lemma_lex_trans(a.drop_first(), b.drop_first(), c.drop_first());
    }
}

pub proof fn lemma_lex_facts(a: Seq<u8>, b: Seq<u8>, c: Seq<u8>)
    ensures
        !lex_lt(a, a),
        a != b ==> lex_lt(a, b) || lex_lt(b, a),
        lex_lt(a, b) ==> !lex_lt(b, a),
        lex_lt(a, b) && lex_lt(b, c) ==> lex_lt(a, c),
{
    lemma_lex_irrefl(a);
    lemma_lex_total(a, b);
    lemma_lex_trans(a, b, c);
}

proof fn lemma_before_order(hot: Seq<NodeId>, s: Seq<ChosenView>, i: int, j: int, k: int)
    requires
        0 <= i < s.len(),
        0 <= j < s.len(),
        0 <= k < s.len(),
    ensures
        !stable_before(hot, s[i], i, s[i], i),
        i != j ==> stable_before(hot, s[i], i, s[j], j) || stable_before(hot, s[j], j, s[i], i),
        stable_before(hot, s[i], i, s[j], j) ==> !stable_before(hot, s[j], j, s[i], i),
        stable_before(hot, s[i], i, s[j], j) && stable_before(hot, s[j], j, s[k], k)
            ==> stable_before(hot, s[i], i, s[k], k),
{
    lemma_lex_facts(s[i].node.hash@, s[j].node.hash@, s[k].node.hash@);
    lemma_lex_facts(s[j].node.hash@, s[i].node.hash@, s[k].node.hash@);
    lemma_lex_facts(s[i].node.hash@, s[i].node.hash@, s[i].node.hash@);
}

pub fn ids_equal(a: &NodeId, b: &NodeId) -> (r: bool)
    ensures
        r == (*a == *b),
{
    let mut i: usize = 0;
    while i < 16
        invariant
            i <= 16,
            forall|k: int| 0 <= k < i ==> a@[k] == b@[k],
        decreases 16 - i,
    {
        if a[i] != b[i] {
            return false;
        }
        i = i + 1;
    }
    proof {
        assert(a@ =~= b@);
        vstd::array::axiom_array_ext_equal(*a, *b);
    }
    true
}

fn hash_lt(a: &[u8; 32], b: &[u8; 32]) -> (r: bool)
    ensures
        r == lex_lt(a@, b@),
{
    let mut i: usize = 0;
    proof {
        assert(a@.skip(0) =~= a@);
        assert(b@.skip(0) =~= b@);
    }
    while i < 32
        invariant
            i <= 32,
            forall|k: int| 0 <= k < i ==> a@[k] == b@[k],
            lex_lt(a@, b@) == lex_lt(a@.skip(i as int), b@.skip(i as int)),
        decreases 32 - i,
    {
        let ghost sa = a@.skip(i as int);
        let ghost sb = b@.skip(i as int);
        proof {
            assert(sa.drop_first() =~= a@.skip(i + 1));
            assert(sb.drop_first() =~= b@.skip(i + 1));
            assert(sa[0] == a@[i as int] && sb[0] == b@[i as int]);
        }
        if a[i] != b[i] {
            return a[i] < b[i];
        }
        i = i + 1;
    }
    false
}

fn hot_position(hot: &[NodeId], id: &NodeId) -> (r: Option<usize>)
    ensures
        match (r, hot_pos(hot@, *id)) {
            (Some(x), Some(y)) => x as int == y,
            (None, None) => true,
            _ => false,
        },
{
    let mut i: usize = hot.len();
    proof {
        assert(hot@.take(hot@.len() as int) =~= hot@);
    }
    while i > 0
        invariant
            i <= hot.len(),
            hot_pos(hot@, *id) == hot_pos(hot@.take(i as int), *id),
        decreases i,
    {
        let ghost pre = hot@.take(i as int);
        proof {
            assert(pre.drop_last() =~= hot@.take(i - 1));
            assert(pre.last() == hot@[i - 1]);
        }
        if ids_equal(&hot[i - 1], id) {
            return Some(i - 1);
        }
        i = i - 1;
    }
    None
}

fn before_exec(
    keys: &Vec<Option<usize>>,
    chosen: &Vec<Chosen>,
    i: usize,
    j: usize,
    Ghost(hot): Ghost<Seq<NodeId>>,
) -> (r: bool)
    requires
        keys.len() == chosen.len(),
        i < chosen.len(),
        j < chosen.len(),
        forall|k: int|
            0 <= k < chosen.len() ==> match (#[trigger] keys@[k], hot_pos(hot, chosen@[k].node.id)) {
                (Some(x), Some(y)) => x as int == y,
                (None, None) => true,
                _ => false,
            },
    ensures
        r == stable_before(
            hot,
            chosen_views(chosen@)[i as int],
            i as int,
            chosen_views(chosen@)[j as int],
            j as int,
        ),
{
    let ka = keys[i];
    let kb = keys[j];
    proof {
        assert(chosen_views(chosen@)[i as int] == chosen@[i as int]@);
        assert(chosen_views(chosen@)[j as int] == chosen@[j as int]@);
    }
    match (ka, kb) {
        (Some(x), Some(y)) => x < y || (x == y && i < j),
        (Some(_), None) => true,
        (None, Some(_)) => false,
        (None, None) => {
            let lt = hash_lt(&chosen[i].node.hash, &chosen[j].node.hash);
            if lt {
                true
            } else {
                let gt = hash_lt(&chosen[j].node.hash, &chosen[i].node.hash);
                proof {
                    lemma_lex_facts(chosen@[i as int].node.hash@, chosen@[j as int].node.hash@, chosen@[j as int].node.hash@);
                }
                !gt && i < j
            }
        },
    }
}

/// The positions `perm` list the input positions 0..n, each once, in
/// strictly increasing cache-stable order.
pub open spec fn is_stable_permutation(hot: Seq<NodeId>, s: Seq<ChosenView>, perm: Seq<int>) -> bool {
    &&& perm.len() == s.len()
    &&& forall|k: int| 0 <= k < perm.len() ==> 0 <= #[trigger] perm[k] < s.len()
    &&& forall|x: int| 0 <= x < s.len() ==> perm.contains(x)
    &&& forall|k: int, l: int|
        0 <= k < l < perm.len() ==> stable_before(hot, s[perm[k]], perm[k], s[perm[l]], perm[l])
}

proof fn lemma_stable_prefix_eq(hot: Seq<NodeId>, s: Seq<ChosenView>, p1: Seq<int>, p2: Seq<int>, k: int)
    requires
        is_stable_permutation(hot, s, p1),
        is_stable_permutation(hot, s, p2),
        0 <= k <= p1.len(),
    ensures
        forall|j: int| 0 <= j < k ==> p1[j] == p2[j],
    decreases k,
{
    if k > 0 {
        lemma_stable_prefix_eq(hot, s, p1, p2, k - 1);
        let i = k - 1;
        let a = p1[i];
        let b = p2[i];
        if a != b {
            assert(0 <= a < s.len() && 0 <= b < s.len());
            assert(p1.contains(b));
            let m = choose|m: int| 0 <= m < p1.len() && p1[m] == b;
            assert(p2.contains(a));
            let n = choose|n: int| 0 <= n < p2.len() && p2[n] == a;
            lemma_before_order(hot, s, a, b, a);
            lemma_before_order(hot, s, b, a, b);
            if m < i {
                assert(p2[m] == b);
                assert(stable_before(hot, s[p2[m]], p2[m], s[p2[i]], p2[i]));
            }
            if n < i {
                assert(p1[n] == a);
                assert(stable_before(hot, s[p1[n]], p1[n], s[p1[i]], p1[i]));
            }
            assert(m > i && n > i);
            assert(stable_before(hot, s[p1[i]], p1[i], s[p1[m]], p1[m]));
            assert(stable_before(hot, s[p2[i]], p2[i], s[p2[n]], p2[n]));
        }
    }
}

/// The cache-stable order of a selection is unique: it depends on nothing
/// but the selection and the hot set, so the same selection is always
/// rendered in the same order.
pub proof fn lemma_stable_order_unique(hot: Seq<NodeId>, s: Seq<ChosenView>, p1: Seq<int>, p2: Seq<int>)
    requires
        is_stable_permutation(hot, s, p1),
        is_stable_permutation(hot, s, p2),
    ensures
        p1 == p2,
{
    lemma_stable_prefix_eq(hot, s, p1, p2, p1.len() as int);
    assert(p1 =~= p2);
}

/// Cache-stable ordering: hot-set members first (in hot-set order), then
/// ascending content hash; items with equal keys keep their input order.
pub fn stable_order(chosen: Vec<Chosen>, hot_ids: &[NodeId]) -> (r: Vec<Chosen>)
    ensures
        exists|perm: Seq<int>|
            #[trigger] is_stable_permutation(hot_ids@, chosen_views(chosen@), perm) && r@.len()
                == perm.len() && forall|k: int|
                0 <= k < perm.len() ==> #[trigger] r@[k]@ == chosen@[perm[k]]@,
{
    let ghost hot = hot_ids@;
    let ghost s = chosen_views(chosen@);
    let n = chosen.len();
    let mut keys: Vec<Option<usize>> = Vec::new();
    let mut k: usize = 0;
    while k < n
        invariant
            k <= n,
            n == chosen.len(),
            hot == hot_ids@,
            keys.len() == k,
            forall|m: int|
                0 <= m < k ==> match (#[trigger] keys@[m], hot_pos(hot, chosen@[m].node.id)) {
                    (Some(x), Some(y)) => x as int == y,
                    (None, None) => true,
                    _ => false,
                },
        decreases n - k,
    {
        let p = hot_position(hot_ids, &chosen[k].node.id);
        keys.push(p);
        k = k + 1;
    }
    let mut perm: Vec<usize> = Vec::new();
    let mut k: usize = 0;
    while k < n
        invariant
            k <= n,
            n == chosen.len(),
            keys.len() == n,
            s == chosen_views(chosen@),
            forall|m: int|
                0 <= m < n ==> match (#[trigger] keys@[m], hot_pos(hot, chosen@[m].node.id)) {
                    (Some(x), Some(y)) => x as int == y,
                    (None, None) => true,
                    _ => false,
                },
            perm.len() == k,
            forall|a: int| 0 <= a < perm.len() ==> #[trigger] perm@[a] < k,
            forall|x: usize| x < k ==> #[trigger] perm@.contains(x),
            forall|a: int, b: int|
                0 <= a < b < perm.len() ==> stable_before(
                    hot,
                    s[perm@[a] as int],
                    perm@[a] as int,
                    s[perm@[b] as int],
                    perm@[b] as int,
                ),
        decreases n - k,
    {
        let mut p: usize = 0;
        while p < perm.len() && before_exec(&keys, &chosen, perm[p], k, Ghost(hot))
            invariant
                p <= perm.len(),
                k < n,
                n == chosen.len(),
                keys.len() == n,
                s == chosen_views(chosen@),
                forall|m: int|
                    0 <= m < n ==> match (#[trigger] keys@[m], hot_pos(hot, chosen@[m].node.id)) {
                        (Some(x), Some(y)) => x as int == y,
                        (None, None) => true,
                        _ => false,
                    },
                forall|a: int| 0 <= a < perm.len() ==> #[trigger] perm@[a] < k,
                forall|a: int|
                    0 <= a < p ==> stable_before(hot, s[perm@[a] as int], perm@[a] as int, s[k as int], k as int),
            decreases perm.len() - p,
        {
            p = p + 1;
        }
        let ghost old_perm = perm@;
        proof {
            if p < perm.len() {
                assert(!stable_before(hot, s[perm@[p as int] as int], perm@[p as int] as int, s[k as int], k as int));
                lemma_before_order(hot, s, perm@[p as int] as int, k as int, k as int);
            }
            assert forall|b: int| p <= b < old_perm.len() implies stable_before(hot, s[k as int], k as int, s[old_perm[b] as int], old_perm[b] as int) by {
                lemma_before_order(hot, s, k as int, old_perm[p as int] as int, old_perm[b] as int);
                lemma_before_order(hot, s, old_perm[p as int] as int, k as int, k as int);
                if b > p {
                    assert(stable_before(hot, s[old_perm[p as int] as int], old_perm[p as int] as int, s[old_perm[b] as int], old_perm[b] as int));
                }
            }
        }
        perm.insert(p, k);
        proof {
            assert(perm@ == old_perm.insert(p as int, k));
            assert forall|x: usize| x < k + 1 implies #[trigger] perm@.contains(x) by {
                if x < k {
                    assert(old_perm.contains(x));
                    let a = choose|a: int| 0 <= a < old_perm.len() && old_perm[a] == x;
                    if a < p {
                        assert(perm@[a] == x);
                    } else {
                        assert(perm@[a + 1] == x);
                    }
                } else {
                    assert(perm@[p as int] == k);
                }
            }
            assert forall|a: int, b: int|
                0 <= a < b < perm.len() implies stable_before(
                    hot,
                    s[perm@[a] as int],
                    perm@[a] as int,
                    s[perm@[b] as int],
                    perm@[b] as int,
                ) by {
                if b < p {
                } else if b == p {
                    assert(perm@[a] == old_perm[a]);
                } else if a < p {
                    assert(perm@[b] == old_perm[b - 1]);
                    assert(perm@[a] == old_perm[a]);
                    lemma_before_order(hot, s, old_perm[a] as int, k as int, old_perm[b - 1] as int);
                } else if a == p {
                    assert(perm@[b] == old_perm[b - 1]);
                } else {
                    assert(perm@[b] == old_perm[b - 1]);
                    assert(perm@[a] == old_perm[a - 1]);
                }
            }
        }
        k = k + 1;
    }
    let mut out: Vec<Chosen> = Vec::new();
    let mut m: usize = 0;
    while m < n
        invariant
            m <= n,
            n == chosen.len(),
            perm.len() == n,
            forall|a: int| 0 <= a < perm.len() ==> #[trigger] perm@[a] < n,
            out.len() == m,
            forall|a: int| 0 <= a < m ==> #[trigger] out@[a]@ == chosen@[perm@[a] as int]@,
        decreases n - m,
    {
        let c = &chosen[perm[m]];
        out.push(Chosen { node: c.node.duplicate(), why: c.why.duplicate(), substituted: c.substituted });
        m = m + 1;
    }
    let ghost gp: Seq<int> = perm@.map_values(|x: usize| x as int);
    proof {
        assert forall|x: int| 0 <= x < s.len() implies gp.contains(x) by {
            assert(perm@.contains(x as usize));
            let a = choose|a: int| 0 <= a < perm@.len() && perm@[a] == x as usize;
            assert(gp[a] == x);
        }
        assert(is_stable_permutation(hot, s, gp));
        assert forall|a: int| 0 <= a < gp.len() implies #[trigger] out@[a]@ == chosen@[gp[a]]@ by {
            assert(gp[a] == perm@[a] as int);
        }
    }
    out
}

/// Sum of the token counts of chosen items lying in file `p`.
pub open spec fn path_tokens(chosen: Seq<ChosenView>, p: Seq<char>) -> int
    decreases chosen.len(),
{
    if chosen.len() == 0 {
        0
    } else {
        path_tokens(chosen.drop_last(), p) + if chosen.last().node.path == p {
            chosen.last().node.tokens
        } else {
            0
        }
    }
}

/// Whole-file counterfactual: for each distinct file of the selection, the
/// tokens of its file node when the index has one, else the tokens of the
/// items selected from it.
pub open spec fn raw_tokens_spec(chosen: Seq<ChosenView>, files: Seq<(Seq<char>, Option<int>)>) -> int
    decreases files.len(),
{
    if files.len() == 0 {
        0
    } else {
        raw_tokens_spec(chosen, files.drop_last()) + match files.last().1 {
            Some(t) => t,
            None => path_tokens(chosen, files.last().0),
        }
    }
}

/// Saved share of the raw tokens in hundredths of a percent, rounded half up.
pub open spec fn saved_pct_centi_spec(saved: int, raw: int) -> int {
    if raw > 0 {
        (20000 * saved + raw) / (2 * raw)
    } else {
        0
    }
}

/// The token totals of a selection over its files.
pub open spec fn pack_totals_spec(cv: Seq<ChosenView>, files: Seq<(Seq<char>, Option<int>)>) -> Totals {
    let selected = chosen_tokens(cv);
    let raw = raw_tokens_spec(cv, files);
    let saved = if raw > selected {
        raw - selected
    } else {
        0
    };
    Totals {
        selected_tokens: selected as i64,
        estimated_raw_tokens: raw as i64,
        saved_tokens: saved as i64,
        saved_pct_centi: saved_pct_centi_spec(saved, raw) as i64,
    }
}

/// View of the per-file token lookups.
pub open spec fn files_view(v: Seq<(String, Option<i64>)>) -> Seq<(Seq<char>, Option<int>)> {
    Seq::new(
        v.len(),
        |i: int|
            (
                v[i].0@,
                match v[i].1 {
                    Some(t) => Some(t as int),
                    None => None,
                },
            ),
    )
}

/// All token counts of the chosen items are non-negative.
pub open spec fn chosen_nonneg(chosen: Seq<ChosenView>) -> bool {
    forall|i: int| 0 <= i < chosen.len() ==> #[trigger] chosen[i].node.tokens >= 0
}

proof fn lemma_path_tokens_bound(chosen: Seq<ChosenView>, p: Seq<char>)
    requires
        chosen_nonneg(chosen),
    ensures
        0 <= path_tokens(chosen, p) <= chosen_tokens(chosen),
    decreases chosen.len(),
{
    if chosen.len() > 0 {
        assert(chosen_nonneg(chosen.drop_last())) by {
            assert forall|i: int| 0 <= i < chosen.drop_last().len() implies #[trigger] chosen.drop_last()[i].node.tokens >= 0 by {
                assert(chosen.drop_last()[i] == chosen[i]);
            }
        }
        assert(chosen.last() == chosen[chosen.len() - 1]);
        lemma_path_tokens_bound(chosen.drop_last(), p);
    }
}

proof fn lemma_raw_tokens_monotone(chosen: Seq<ChosenView>, files: Seq<(Seq<char>, Option<int>)>, i: int)
    requires
        chosen_nonneg(chosen),
        0 <= i <= files.len(),
        forall|k: int| 0 <= k < files.len() ==> ((#[trigger] files[k]).1 matches Some(t) ==> t >= 0),
    ensures
        0 <= raw_tokens_spec(chosen, files.take(i)) <= raw_tokens_spec(chosen, files),
    decreases files.len(),
{
    if files.len() > 0 {
        if i == files.len() {
            assert(files.take(i) =~= files);
        }
        let d = files.drop_last();
        assert forall|k: int| 0 <= k < d.len() implies ((#[trigger] d[k]).1 matches Some(t) ==> t >= 0) by {
            assert(d[k] == files[k]);
        }
        lemma_path_tokens_bound(chosen, files.last().0);
        assert(files.last() == files[files.len() - 1]);
        if i < files.len() {
            assert(files.take(i) =~= d.take(i));
            lemma_raw_tokens_monotone(chosen, d, i);
        } else {
            lemma_raw_tokens_monotone(chosen, d, d.len() as int);
            assert(d.take(d.len() as int) =~= d);
        }
    } else {
        assert(files.take(i) =~= files);
    }
}

fn tokens_of_path(chosen: &Vec<Chosen>, p: &str) -> (r: i64)
    requires
        chosen_nonneg(chosen_views(chosen@)),
        chosen_tokens(chosen_views(chosen@)) <= i64::MAX,
    ensures
        r == path_tokens(chosen_views(chosen@), p@),
{
    let ghost cv = chosen_views(chosen@);
    let mut total: i64 = 0;
    let mut i: usize = 0;
    while i < chosen.len()
        invariant
            i <= chosen.len(),
            cv == chosen_views(chosen@),
            chosen_nonneg(cv),
            chosen_tokens(cv) <= i64::MAX,
            total == path_tokens(cv.take(i as int), p@),
        decreases chosen.len() - i,
    {
        proof {
            assert(cv.take(i + 1).drop_last() =~= cv.take(i as int));
            assert(cv.take(i + 1).last() == cv[i as int]);
            assert(chosen_nonneg(cv.take(i + 1))) by {
                assert forall|k: int| 0 <= k < cv.take(i + 1).len() implies #[trigger] cv.take(i + 1)[k].node.tokens >= 0 by {
                    assert(cv.take(i + 1)[k] == cv[k]);
                }
            }
            lemma_path_tokens_bound(cv.take(i + 1), p@);
            lemma_prefix_tokens(cv, i + 1);
        }
        if str_eq(chosen[i].node.path.as_str(), p) {
            total = total + chosen[i].node.tokens;
        }
        i = i + 1;
    }
    proof {
        assert(cv.take(chosen.len() as int) =~= cv);
    }
    total
}

proof fn lemma_prefix_tokens(cv: Seq<ChosenView>, i: int)
    requires
        chosen_nonneg(cv),
        0 <= i <= cv.len(),
    ensures
        chosen_tokens(cv.take(i)) <= chosen_tokens(cv),
    decreases cv.len(),
{
    if i < cv.len() {
        let d = cv.drop_last();
        assert(chosen_nonneg(d)) by {
            assert forall|k: int| 0 <= k < d.len() implies #[trigger] d[k].node.tokens >= 0 by {
                assert(d[k] == cv[k]);
            }
        }
        assert(cv.take(i) =~= d.take(i));
        assert(cv.last() == cv[cv.len() - 1]);
        lemma_prefix_tokens(d, i);
    } else {
        assert(cv.take(i) =~= cv);
    }
}

proof fn lemma_tokens_nonneg(cv: Seq<ChosenView>)
    requires
        chosen_nonneg(cv),
    ensures
        chosen_tokens(cv) >= 0,
    decreases cv.len(),
{
    if cv.len() > 0 {
        let d = cv.drop_last();
        assert(chosen_nonneg(d)) by {
            assert forall|k: int| 0 <= k < d.len() implies #[trigger] d[k].node.tokens >= 0 by {
                assert(d[k] == cv[k]);
            }
        }
        assert(cv.last() == cv[cv.len() - 1]);
        lemma_tokens_nonneg(d);
    }
}

fn sum_tokens(chosen: &Vec<Chosen>) -> (r: i64)
    requires
        chosen_nonneg(chosen_views(chosen@)),
        chosen_tokens(chosen_views(chosen@)) <= i64::MAX,
    ensures
        r == chosen_tokens(chosen_views(chosen@)),
{
    let ghost cv = chosen_views(chosen@);
    let mut total: i64 = 0;
    let mut i: usize = 0;
    while i < chosen.len()
        invariant
            i <= chosen.len(),
            cv == chosen_views(chosen@),
            chosen_nonneg(cv),
            chosen_tokens(cv) <= i64::MAX,
            total == chosen_tokens(cv.take(i as int)),
        decreases chosen.len() - i,
    {
        proof {
            assert(cv.take(i + 1).drop_last() =~= cv.take(i as int));
            assert(cv.take(i + 1).last() == cv[i as int]);
            lemma_prefix_tokens(cv, i + 1);
            assert(cv[i as int].node.tokens >= 0);
        }
        total = total + chosen[i].node.tokens;
        i = i + 1;
    }
    proof {
        assert(cv.take(chosen.len() as int) =~= cv);
    }
    total
}

/// Token accounting of a selection against the whole-file counterfactual.
/// `files` lists each distinct file of the selection with the token count of
/// its file node, when the index has one.
pub fn pack_totals(chosen: &Vec<Chosen>, files: &Vec<(String, Option<i64>)>) -> (r: crate::pack::Totals)
    requires
        chosen_nonneg(chosen_views(chosen@)),
        forall|k: int| 0 <= k < files@.len() ==> ((#[trigger] files@[k]).1 matches Some(t) ==> t >= 0),
        chosen_tokens(chosen_views(chosen@)) <= i64::MAX,
        raw_tokens_spec(chosen_views(chosen@), files_view(files@)) <= i64::MAX,
    ensures
        r.selected_tokens == chosen_tokens(chosen_views(chosen@)),
        r.estimated_raw_tokens == raw_tokens_spec(chosen_views(chosen@), files_view(files@)),
        r.saved_tokens == if r.estimated_raw_tokens > r.selected_tokens {
            r.estimated_raw_tokens - r.selected_tokens
        } else {
            0
        },
        r.saved_pct_centi == saved_pct_centi_spec(r.saved_tokens as int, r.estimated_raw_tokens as int),
        r == pack_totals_spec(chosen_views(chosen@), files_view(files@)),
{
    let ghost cv = chosen_views(chosen@);
    let ghost fv = files_view(files@);
    let selected = sum_tokens(chosen);
    let mut raw: i64 = 0;
    let mut i: usize = 0;
    proof {
        assert forall|k: int| 0 <= k < fv.len() implies ((#[trigger] fv[k]).1 matches Some(t) ==> t >= 0) by {
            assert((files@[k].1 matches Some(t) ==> t >= 0));
        }
        assert(fv.take(0) =~= Seq::<(Seq<char>, Option<int>)>::empty());
    }
    while i < files.len()
        invariant
            i <= files.len(),
            cv == chosen_views(chosen@),
            fv == files_view(files@),
            chosen_nonneg(cv),
            chosen_tokens(cv) <= i64::MAX,
            forall|k: int| 0 <= k < fv.len() ==> ((#[trigger] fv[k]).1 matches Some(t) ==> t >= 0),
            raw_tokens_spec(cv, fv) <= i64::MAX,
            raw == raw_tokens_spec(cv, fv.take(i as int)),
        decreases files.len() - i,
    {
        proof {
            assert(fv.take(i + 1).drop_last() =~= fv.take(i as int));
            assert(fv.take(i + 1).last() == fv[i as int]);
            lemma_raw_tokens_monotone(cv, fv, i + 1);
            lemma_path_tokens_bound(cv, fv[i as int].0);
            lemma_raw_tokens_monotone(cv, fv, i as int);
        }
        let add = match files[i].1 {
            Some(t) => t,
            None => tokens_of_path(chosen, files[i].0.as_str()),
        };
        raw = raw + add;
        i = i + 1;
    }
    proof {
        assert(fv.take(files.len() as int) =~= fv);
        lemma_tokens_nonneg(cv);
        lemma_raw_tokens_monotone(cv, fv, files.len() as int);
    }
    let saved: i64 = if raw > selected {
        raw - selected
    } else {
        0
    };
    let pct: i64 = if raw > 0 {
        let num: i128 = 20000i128 * (saved as i128) + (raw as i128);
        let den: i128 = 2i128 * (raw as i128);
        let q = num / den;
        proof {
            assert(saved <= raw);
            assert(num <= 20001 * (raw as i128)) by (nonlinear_arith)
                requires
                    num == 20000 * (saved as i128) + (raw as i128),
                    0 <= saved <= raw,
            ;
            assert(q <= 10001) by (nonlinear_arith)
                requires
                    q == num / den,
                    den == 2 * (raw as i128),
                    raw > 0,
                    0 <= num <= 20001 * (raw as i128),
            ;
            assert(q >= 0) by (nonlinear_arith)
                requires
                    q == num / den,
                    den > 0,
                    num >= 0,
            ;
        }
        q as i64
    } else {
        0
    };
    crate::pack::Totals {
        selected_tokens: selected,
        estimated_raw_tokens: raw,
        saved_tokens: saved,
        saved_pct_centi: pct,
    }
}

/// Item type reported for a chosen item: "signature" for a substitution,
/// "test" for a test-role node, else the node kind's label.
pub open spec fn item_type_spec(c: ChosenView) -> Seq<char> {
    if c.substituted {
        "signature"@
    } else if c.node.role == "test"@ {
        "test"@
    } else {
        node_kind_label(c.node.kind)
    }
}

/// `it` is the pack item of chosen item `c`.
pub open spec fn item_of(it: PackItem, c: ChosenView, include_content: bool) -> bool {
    &&& it.item_type@ == item_type_spec(c)
    &&& it.path@ == c.node.path
    &&& opt_view(it.symbol) == c.node.symbol
    &&& it.lines@ == seq![c.node.line_start as i64, c.node.line_end as i64]
    &&& it.tokens == c.node.tokens
    &&& it.node@ == hex_encode_spec(c.node.id@)
    &&& opt_view(it.content) == if include_content {
        Some(c.node.content)
    } else {
        None
    }
    &&& it.why@ == c.why
}

/// The pack item for a chosen node.
pub fn pack_item(c: &Chosen, include_content: bool) -> (r: PackItem)
    ensures
        item_of(r, c@, include_content),
        r.item_type@ == item_type_spec(c@),
        r.path@ == c.node.path@,
        opt_view(r.symbol) == c@.node.symbol,
        r.lines@ == seq![c.node.line_start, c.node.line_end],
        r.tokens == c.node.tokens,
        r.node@ == hex_encode_spec(c.node.id@),
        opt_view(r.content) == if include_content {
            Some(c.node.content@)
        } else {
            None
        },
        r.why@ == c.why@,
{
    proof {
        reveal_strlit("signature");
        reveal_strlit("test");
    }
    let item_type = if c.substituted {
        "signature".to_string()
    } else if str_eq(c.node.role.as_str(), "test") {
        "test".to_string()
    } else {
        c.node.kind.label().to_string()
    };
    let lines: [i64; 2] = [c.node.line_start, c.node.line_end];
    proof {
        assert(lines@ =~= seq![c.node.line_start, c.node.line_end]);
    }
    PackItem {
        item_type,
        path: c.node.path.clone(),
        symbol: clone_opt_string(&c.node.symbol),
        lines,
        tokens: c.node.tokens,
        node: id_hex(&c.node.id),
        content: if include_content {
            Some(c.node.content.clone())
        } else {
            None
        },
        why: c.why.duplicate(),
    }
}

/// Hexadecimal ids of the chosen items that belong to the hot set, in
/// chosen order.
pub open spec fn prefix_items_spec(cv: Seq<ChosenView>, hot: Seq<NodeId>) -> Seq<Seq<char>>
    decreases cv.len(),
{
    if cv.len() == 0 {
        Seq::empty()
    } else {
        prefix_items_spec(cv.drop_last(), hot) + if hot.contains(cv.last().node.id) {
            seq![hex_encode_spec(cv.last().node.id@)]
        } else {
            Seq::empty()
        }
    }
}

/// Views of a sequence of strings.
pub open spec fn strings_view(v: Seq<String>) -> Seq<Seq<char>> {
    v.map_values(|s: String| s@)
}

/// Node ids (hex) of the chosen items that are hot-set members: the stable
/// prefix of the pack.
pub fn stable_prefix_items(chosen: &Vec<Chosen>, hot_ids: &[NodeId]) -> (r: Vec<String>)
    ensures
        strings_view(r@) == prefix_items_spec(chosen_views(chosen@), hot_ids@),
{
    let ghost cv = chosen_views(chosen@);
    let mut out: Vec<String> = Vec::new();
    let mut i: usize = 0;
    while i < chosen.len()
        invariant
            i <= chosen.len(),
            cv == chosen_views(chosen@),
            strings_view(out@) == prefix_items_spec(cv.take(i as int), hot_ids@),
        decreases chosen.len() - i,
    {
        proof {
            assert(cv.take(i + 1).drop_last() =~= cv.take(i as int));
            assert(cv.take(i + 1).last() == cv[i as int]);
        }
        let found = hot_position(hot_ids, &chosen[i].node.id);
        proof {
            lemma_hot_pos_contains(hot_ids@, chosen@[i as int].node.id);
        }
        if found.is_some() {
            let ghost before = out@;
            out.push(id_hex(&chosen[i].node.id));
            proof {
                assert(strings_view(out@) =~= strings_view(before).push(hex_encode_spec(chosen@[i as int].node.id@)));
            }
        }
        i = i + 1;
    }
    proof {
        assert(cv.take(chosen.len() as int) =~= cv);
    }
    out
}

proof fn lemma_hot_pos_contains(hot: Seq<NodeId>, id: NodeId)
    ensures
        hot_pos(hot, id) is Some <==> hot.contains(id),
    decreases hot.len(),
{
    if hot.len() > 0 {
        lemma_hot_pos_contains(hot.drop_last(), id);
        if hot.drop_last().contains(id) {
            let k = choose|k: int| 0 <= k < hot.drop_last().len() && hot.drop_last()[k] == id;
            assert(hot[k] == id);
        }
        if hot.contains(id) && hot.last() != id {
            let k = choose|k: int| 0 <= k < hot.len() && hot[k] == id;
            assert(hot.drop_last()[k] == id);
        }
    }
}

/// The distinct files of a selection, in order of first appearance.
pub open spec fn distinct_paths_spec(cv: Seq<ChosenView>) -> Seq<Seq<char>>
    decreases cv.len(),
{
    if cv.len() == 0 {
        Seq::empty()
    } else {
        let d = distinct_paths_spec(cv.drop_last());
        if d.contains(cv.last().node.path) {
            d
        } else {
            d.push(cv.last().node.path)
        }
    }
}

fn contains_string(v: &Vec<String>, s: &str) -> (r: bool)
    ensures
        r == strings_view(v@).contains(s@),
{
    let mut i: usize = 0;
    while i < v.len()
        invariant
            i <= v.len(),
            forall|k: int| 0 <= k < i ==> v@[k]@ != s@,
        decreases v.len() - i,
    {
        if str_eq(v[i].as_str(), s) {
            proof {
                assert(strings_view(v@)[i as int] == s@);
            }
            return true;
        }
        i = i + 1;
    }
    proof {
        if strings_view(v@).contains(s@) {
            let k = choose|k: int| 0 <= k < strings_view(v@).len() && strings_view(v@)[k] == s@;
            assert(v@[k]@ == s@);
        }
    }
    false
}

/// The distinct files the chosen items come from, in order of first
/// appearance.
pub fn distinct_paths(chosen: &Vec<Chosen>) -> (r: Vec<String>)
    ensures
        strings_view(r@) == distinct_paths_spec(chosen_views(chosen@)),
{
    let ghost cv = chosen_views(chosen@);
    let mut out: Vec<String> = Vec::new();
    let mut i: usize = 0;
    while i < chosen.len()
        invariant
            i <= chosen.len(),
            cv == chosen_views(chosen@),
            strings_view(out@) == distinct_paths_spec(cv.take(i as int)),
        decreases chosen.len() - i,
    {
        proof {
            assert(cv.take(i + 1).drop_last() =~= cv.take(i as int));
            assert(cv.take(i + 1).last() == cv[i as int]);
        }
        if !contains_string(&out, chosen[i].node.path.as_str()) {
            let ghost before = out@;
            out.push(chosen[i].node.path.clone());
            proof {
                assert(strings_view(out@) =~= strings_view(before).push(chosen@[i as int].node.path@));
            }
        }
        i = i + 1;
    }
    proof {
        assert(cv.take(chosen.len() as int) =~= cv);
    }
    out
}

/// Freshness record: "fresh" when no file changed since the last index,
/// else "stale".
pub fn freshness(stale_files: i64, indexed_at: String) -> (r: Freshness)
    ensures
        r.state@ == if stale_files == 0 {
            "fresh"@
        } else {
            "stale"@
        },
        r.stale_files == stale_files,
        r.indexed_at@ == indexed_at@,
{
    proof {
        reveal_strlit("fresh");
        reveal_strlit("stale");
    }
    Freshness {
        state: if stale_files == 0 {
            "fresh".to_string()
        } else {
            "stale".to_string()
        },
        stale_files,
        indexed_at,
    }
}

/// Assemble a context pack from an ordered selection: one item per chosen
/// node in the given order, the hot-set members as stable prefix, and the
/// token totals over the selection's files.
pub fn assemble_pack(
    req: &PackRequest,
    chosen: &Vec<Chosen>,
    hot_version: i64,
    hot_ids: &[NodeId],
    files: &Vec<(String, Option<i64>)>,
    pack_id: String,
    repo: String,
    head: Option<String>,
    indexed_at: String,
    token_estimate: bool,
) -> (r: ContextPack)
    requires
        chosen_nonneg(chosen_views(chosen@)),
        forall|k: int| 0 <= k < files@.len() ==> ((#[trigger] files@[k]).1 matches Some(t) ==> t >= 0),
        chosen_tokens(chosen_views(chosen@)) <= i64::MAX,
        raw_tokens_spec(chosen_views(chosen@), files_view(files@)) <= i64::MAX,
    ensures
        r.pack_version@ == crate::pack::PACK_VERSION@,
        r.pack_id@ == pack_id@,
        r.query@ == req.query@,
        r.repo@ == repo@,
        opt_view(r.head) == opt_view(head),
        r.freshness.state@ == if req.stale_files == 0 {
            "fresh"@
        } else {
            "stale"@
        },
        r.freshness.stale_files == req.stale_files,
        r.freshness.indexed_at@ == indexed_at@,
        r.token_budget == req.token_budget,
        r.tokenizer@ == crate::tokens::TOKENIZER_NAME@,
        r.token_estimate == token_estimate,
        r.items@.len() == chosen@.len(),
        forall|i: int| 0 <= i < chosen@.len() ==> item_of(#[trigger] r.items@[i], chosen@[i]@, req.include_content),
        strings_view(r.layout.stable_prefix_items@) == prefix_items_spec(chosen_views(chosen@), hot_ids@),
        r.layout.hot_set_version == hot_version,
        r.totals == pack_totals_spec(chosen_views(chosen@), files_view(files@)),
{
    let mut items: Vec<PackItem> = Vec::new();
    let mut i: usize = 0;
    while i < chosen.len()
        invariant
            i <= chosen.len(),
            items@.len() == i,
            forall|k: int| 0 <= k < i ==> item_of(#[trigger] items@[k], chosen@[k]@, req.include_content),
        decreases chosen.len() - i,
    {
        items.push(pack_item(&chosen[i], req.include_content));
        i = i + 1;
    }
    let totals = pack_totals(chosen, files);
    ContextPack {
        pack_version: crate::pack::PACK_VERSION.to_string(),
        pack_id,
        query: req.query.clone(),
        repo,
        head,
        freshness: freshness(req.stale_files, indexed_at),
        token_budget: req.token_budget,
        tokenizer: crate::tokens::TOKENIZER_NAME.to_string(),
        token_estimate,
        items,
        layout: Layout { stable_prefix_items: stable_prefix_items(chosen, hot_ids), hot_set_version: hot_version },
        totals,
    }
}

} // verus!
