//! The hot set: signatures of the most central chunks, under a token cap,
//! kept in id order so that membership alone fixes the stable prefix.

use vstd::prelude::*;
use crate::model::NodeId;
use crate::plan::{ids_equal, lemma_lex_facts, lex_lt};

verus! {

broadcast use vstd::seq_lib::group_to_multiset_ensures;

/// Token cap of the hot set.
pub const HOT_SET_TOKEN_CAP: i64 = 4000;

/// Most members of the hot set.
pub const HOT_SET_MAX_ITEMS: usize = 64;

/// One candidate member, in descending centrality: the node standing for a
/// central chunk (its signature when it has one), and whether the chunk's
/// centrality is above zero.
#[derive(Debug, Clone, Copy)]
pub struct HotCandidate {
    pub id: NodeId,
    pub tokens: i64,
    pub central: bool,
}

/// State of the hot-set fill: members so far, their tokens, and whether the
/// fill has stopped.
pub ghost struct HotFill {
    pub ids: Seq<NodeId>,
    pub total: int,
    pub done: bool,
}

/// The fill over candidates in order: it stops at the first candidate that
/// is not central or once 64 members are in; a candidate that would take
/// the tokens over the cap is passed over.
pub open spec fn hot_fill(cands: Seq<HotCandidate>) -> HotFill
    decreases cands.len(),
{
    if cands.len() == 0 {
        HotFill { ids: Seq::empty(), total: 0, done: false }
    } else {
        let s = hot_fill(cands.drop_last());
        let c = cands.last();
        if s.done {
            s
        } else if !c.central {
            HotFill { done: true, ..s }
        } else if s.total + c.tokens > HOT_SET_TOKEN_CAP {
            s
        } else {
            let ids = s.ids.push(c.id);
            HotFill { ids, total: s.total + c.tokens, done: ids.len() >= HOT_SET_MAX_ITEMS }
        }
    }
}

/// Ids in ascending byte order.
pub open spec fn sorted_ids(s: Seq<NodeId>) -> bool {
    forall|i: int, j: int| 0 <= i < j < s.len() ==> !lex_lt(#[trigger] s[j]@, #[trigger] s[i]@)
}

/// The fill never holds more than 64 members, nor tokens over the cap.
pub proof fn lemma_hot_fill_bounds(cands: Seq<HotCandidate>)
    ensures
        hot_fill(cands).ids.len() <= HOT_SET_MAX_ITEMS,
        hot_fill(cands).total <= HOT_SET_TOKEN_CAP,
        !hot_fill(cands).done ==> hot_fill(cands).ids.len() < HOT_SET_MAX_ITEMS,
    decreases cands.len(),
{
    if cands.len() > 0 {
        lemma_hot_fill_bounds(cands.drop_last());
    }
}

fn id_lt(a: &NodeId, b: &NodeId) -> (r: bool)
    ensures
        r == lex_lt(a@, b@),
{
    let mut i: usize = 0;
    proof {
        assert(a@.skip(0) =~= a@);
        assert(b@.skip(0) =~= b@);
    }
    while i < 16
        invariant
            i <= 16,
            lex_lt(a@, b@) == lex_lt(a@.skip(i as int), b@.skip(i as int)),
        decreases 16 - i,
    {
        let ghost sa = a@.skip(i as int);
        let ghost sb = b@.skip(i as int);
        proof {
            assert(sa.drop_first() =~= a@.skip(i + 1));
            assert(sb.drop_first() =~= b@.skip(i + 1));
            assert(sa[0] == a@[i as int] && sb[0] == b@[i as int]);
        }
        if a[i] != b[i] {
            return a[i] < b[i];
        }
        i = i + 1;
    }
    false
}

/// The ids in ascending byte order.
pub fn sort_ids(v: &Vec<NodeId>) -> (r: Vec<NodeId>)
    ensures
        r@.to_multiset() == v@.to_multiset(),
        sorted_ids(r@),
{
    let mut out: Vec<NodeId> = Vec::new();
    let mut i: usize = 0;
    while i < v.len()
        invariant
            i <= v.len(),
            out@.to_multiset() == v@.take(i as int).to_multiset(),
            sorted_ids(out@),
        decreases v.len() - i,
    {
        let x = v[i];
        let mut j: usize = 0;
        while j < out.len() && !id_lt(&x, &out[j])
            invariant
                j <= out.len(),
                forall|k: int| 0 <= k < j ==> !lex_lt(x@, #[trigger] out@[k]@),
            decreases out.len() - j,
        {
            j = j + 1;
        }
        let ghost before = out@;
        out.insert(j, x);
        proof {
            assert(out@ == before.insert(j as int, x));
            assert(v@.take(i + 1) =~= v@.take(i as int).push(x));
            assert forall|a: int, b: int| 0 <= a < b < out@.len() implies !lex_lt(
                #[trigger] out@[b]@,
                #[trigger] out@[a]@,
            ) by {
                if a < j && b == j {
                    lemma_lex_facts(x@, before[a]@, x@);
                } else if a == j && b > j {
                    if j < before.len() {
                        lemma_lex_facts(x@, before[j as int]@, before[b - 1]@);
                        lemma_lex_facts(before[b - 1]@, before[j as int]@, x@);
                        lemma_lex_facts(before[b - 1]@, x@, before[j as int]@);
                    }
                } else if a < j && b > j {
                    assert(!lex_lt(before[b - 1]@, before[a]@));
                } else if b < j {
                    assert(!lex_lt(before[b]@, before[a]@));
                } else {
                    assert(!lex_lt(before[b - 1]@, before[a - 1]@));
                }
            }
        }
        i = i + 1;
    }
    proof {
        assert(v@.take(v.len() as int) =~= v@);
    }
    out
}

/// Outcome of rebuilding the hot set.
#[derive(Debug)]
pub struct HotSetChoice {
    /// The members, in id order.
    pub ids: Vec<NodeId>,
    /// Whether they differ from the previous members (a new version).
    pub changed: bool,
    /// The hot-set version after the rebuild: the previous one, or the next
    /// when the members changed.
    pub version: i64,
}

/// Choose the hot set from candidates in descending centrality (see
/// [`hot_fill`]), sort it by id, and compare it with the previous members.
pub fn choose_hot_set(cands: &Vec<HotCandidate>, previous: &Vec<NodeId>, version: i64) -> (r: HotSetChoice)
    requires
        version < i64::MAX,
    ensures
        r.ids@.to_multiset() == hot_fill(cands@).ids.to_multiset(),
        sorted_ids(r.ids@),
        r.ids@.len() <= HOT_SET_MAX_ITEMS,
        r.changed == (r.ids@ != previous@),
        r.version == if r.changed {
            version + 1
        } else {
            version as int
        },
{
    let mut ids: Vec<NodeId> = Vec::new();
    let mut total: i128 = 0;
    let mut done = false;
    let mut i: usize = 0;
    while i < cands.len() && !done
        invariant
            i <= cands.len(),
            ids@ == hot_fill(cands@.take(i as int)).ids,
            total as int == hot_fill(cands@.take(i as int)).total,
            done == hot_fill(cands@.take(i as int)).done,
            ids@.len() <= HOT_SET_MAX_ITEMS,
            !done ==> ids@.len() < HOT_SET_MAX_ITEMS,
            i64::MIN as int * ids@.len() <= total <= HOT_SET_TOKEN_CAP,
        decreases cands.len() - i,
    {
        let c = cands[i];
        proof {
            assert(cands@.take(i + 1).drop_last() =~= cands@.take(i as int));
            assert(cands@.take(i + 1).last() == c);
        }
        if !c.central {
            done = true;
        } else if total + (c.tokens as i128) <= (HOT_SET_TOKEN_CAP as i128) {
            total = total + (c.tokens as i128);
            ids.push(c.id);
            if ids.len() >= HOT_SET_MAX_ITEMS {
                done = true;
            }
        }
        i = i + 1;
    }
    proof {
        if i < cands.len() {
            lemma_hot_fill_done(cands@, i as int);
        } else {
            assert(cands@.take(cands.len() as int) =~= cands@);
        }
    }
    let sorted = sort_ids(&ids);
    let mut same = sorted.len() == previous.len();
    let mut k: usize = 0;
    while same && k < sorted.len()
        invariant
            same ==> sorted.len() == previous.len(),
            k <= sorted.len(),
            same ==> forall|q: int| 0 <= q < k ==> sorted@[q] == previous@[q],
            !same ==> sorted@ != previous@,
        decreases sorted.len() - k,
    {
        if !ids_equal(&sorted[k], &previous[k]) {
            same = false;
        }
        k = k + 1;
    }
    proof {
        if same {
            assert(sorted@ =~= previous@);
        }
    }
    proof {
        assert(sorted@.to_multiset().len() == ids@.to_multiset().len());
        sorted@.to_multiset_ensures();
        ids@.to_multiset_ensures();
    }
    HotSetChoice { ids: sorted, changed: !same, version: if same { version } else { version + 1 } }
}

/// Once the fill has stopped, later candidates change nothing.
pub proof fn lemma_hot_fill_done(cands: Seq<HotCandidate>, i: int)
    requires
        0 <= i <= cands.len(),
        hot_fill(cands.take(i)).done,
    ensures
        hot_fill(cands) == hot_fill(cands.take(i)),
    decreases cands.len() - i,
{
    if i < cands.len() {
        assert(cands.take(i + 1).drop_last() =~= cands.take(i));
        lemma_hot_fill_done(cands, i + 1);
    } else {
        assert(cands.take(i) =~= cands);
    }
}

/// Byte order follows membership alone: two id lists in ascending order
/// holding the same ids (with multiplicity) are the same list.
pub proof fn lemma_sorted_ids_unique(a: Seq<NodeId>, b: Seq<NodeId>)
    requires
        sorted_ids(a),
        sorted_ids(b),
        a.to_multiset() == b.to_multiset(),
    ensures
        a == b,
    decreases a.len(),
{
    broadcast use vstd::multiset::group_multiset_axioms;

    if a.len() == 0 {
        assert(b.to_multiset().len() == 0);
        assert(a =~= b);
    } else {
        assert(a.to_multiset().count(a[0]) > 0);
        assert(b.len() > 0);
        assert(b.to_multiset().count(b[0]) > 0);
        assert(b.contains(a[0]));
        assert(a.contains(b[0]));
        let q = choose|q: int| 0 <= q < b.len() && b[q] == a[0];
        let p = choose|p: int| 0 <= p < a.len() && a[p] == b[0];
        if q > 0 {
            assert(!lex_lt(b[q]@, b[0]@));
        }
        if p > 0 {
            assert(!lex_lt(a[p]@, a[0]@));
        }
        lemma_lex_facts(a[0]@, b[0]@, a[0]@);
        assert(a[0]@ == b[0]@);
        assert(a[0] =~= b[0]);
        let a1 = a.drop_first();
        let b1 = b.drop_first();
        assert(a.remove(0) =~= a1);
        assert(b.remove(0) =~= b1);
        assert(a1.to_multiset() == b1.to_multiset());
        assert forall|i: int, j: int| 0 <= i < j < a1.len() implies !lex_lt(#[trigger] a1[j]@, #[trigger] a1[i]@) by {
            assert(!lex_lt(a[j + 1]@, a[i + 1]@));
        }
        assert forall|i: int, j: int| 0 <= i < j < b1.len() implies !lex_lt(#[trigger] b1[j]@, #[trigger] b1[i]@) by {
            assert(!lex_lt(b[j + 1]@, b[i + 1]@));
        }
        lemma_sorted_ids_unique(a1, b1);
        assert(a =~= seq![a[0]] + a1);
        assert(b =~= seq![b[0]] + b1);
    }
}

/// The hot set depends on which members were picked, not on the order the
/// candidates came in: candidate lists whose fills pick the same ids give
/// the same member list.
pub proof fn lemma_hot_set_membership_order(c1: Seq<HotCandidate>, c2: Seq<HotCandidate>, r1: Seq<NodeId>, r2: Seq<NodeId>)
    requires
        hot_fill(c1).ids.to_multiset() == hot_fill(c2).ids.to_multiset(),
        r1.to_multiset() == hot_fill(c1).ids.to_multiset(),
        sorted_ids(r1),
        r2.to_multiset() == hot_fill(c2).ids.to_multiset(),
        sorted_ids(r2),
    ensures
        r1 == r2,
{
    lemma_sorted_ids_unique(r1, r2);
}

} // verus!
