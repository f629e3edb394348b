//! Candidate generation: anchor tokens of a query, the reason an edge gives
//! for reaching a node, what gathering admits of the nodes it meets, the
//! bounded graph walk from anchors and lexical hits, the merge rule of
//! candidates and threshold pruning.

use vstd::prelude::*;
use vstd::utf8::encode_utf8;
use crate::edges::{is_word_char};
use crate::model::{EdgeKind, NodeId, NodeKind};
use crate::pack::{Why, WhyView};
use crate::index::contains_id;
use crate::text::str_eq;
use crate::plan::strings_view;
use crate::text::{
    after_last, after_last_vec, char_is_alphabetic, char_is_alphanumeric, chars_of, string_from_chars,
    alnum, alpha,
};

verus! {

/// The reason reported for reaching a node over an edge of `kind`, walked
/// backwards when `reverse`.
pub open spec fn edge_reason_spec(kind: EdgeKind, reverse: bool) -> Seq<char> {
    match kind {
        EdgeKind::Imports => if reverse {
            "imported_by"@
        } else {
            "imports"@
        },
        EdgeKind::Calls => if reverse {
            "called_by"@
        } else {
            "calls"@
        },
        EdgeKind::Inherits => "inherits"@,
        EdgeKind::Implements => "inherits"@,
        EdgeKind::TestedBy => "tested_by"@,
        EdgeKind::MentionsDoc => "doc_mention"@,
        EdgeKind::Supersedes => "supersedes"@,
    }
}

/// The reason reported for reaching a node over an edge.
pub fn edge_reason(kind: EdgeKind, reverse: bool) -> (r: &'static str)
    ensures
        r@ == edge_reason_spec(kind, reverse),
{
    match kind {
        EdgeKind::Imports => if reverse {
            "imported_by"
        } else {
            "imports"
        },
        EdgeKind::Calls => if reverse {
            "called_by"
        } else {
            "calls"
        },
        EdgeKind::Inherits => "inherits",
        EdgeKind::Implements => "inherits",
        EdgeKind::TestedBy => "tested_by",
        EdgeKind::MentionsDoc => "doc_mention",
        EdgeKind::Supersedes => "supersedes",
    }
}

/// Characters that separate the words of a query.
pub open spec fn is_query_delim(c: char) -> bool {
    c == ' ' || c == '\t' || c == '\n' || c == ',' || c == ';' || c == '(' || c == ')' || c == '`'
        || c == '"' || c == '\''
}

/// Pieces of a query between delimiters (`str::split` on the delimiter
/// set): the empty text gives one empty piece.
pub open spec fn split_query(s: Seq<char>) -> Seq<Seq<char>>
    decreases s.len(),
{
    if s.len() == 0 {
        seq![Seq::empty()]
    } else {
        let r = split_query(s.drop_last());
        if is_query_delim(s.last()) {
            r.push(Seq::empty())
        } else {
            r.update(r.len() - 1, r.last().push(s.last()))
        }
    }
}

/// Characters kept at the ends of a token: alphanumerics, `/`, `.`, `_`.
pub open spec fn is_token_char(c: char) -> bool {
    alnum(c) || c == '/' || c == '.' || c == '_'
}

/// Drop leading characters that are not token characters.
pub open spec fn trim_start_nt(s: Seq<char>) -> Seq<char>
    decreases s.len(),
{
    if s.len() > 0 && !is_token_char(s[0]) {
        trim_start_nt(s.drop_first())
    } else {
        s
    }
}

/// Drop trailing characters that are not token characters.
pub open spec fn trim_end_nt(s: Seq<char>) -> Seq<char>
    decreases s.len(),
{
    if s.len() > 0 && !is_token_char(s.last()) {
        trim_end_nt(s.drop_last())
    } else {
        s
    }
}

/// A token is path-like when it holds a `/`, or a `.` and a last
/// `.`-separated part of at most 4 bytes.
pub open spec fn is_path_token(t: Seq<char>) -> bool {
    t.contains('/') || (encode_utf8(after_last(t, '.')).len() <= 4 && t.contains('.'))
}

/// A token is identifier-like when all its characters are word characters
/// and one is alphabetic.
pub open spec fn is_symbol_token(t: Seq<char>) -> bool {
    (forall|i: int| 0 <= i < t.len() ==> is_word_char(#[trigger] t[i])) && (exists|i: int|
        0 <= i < t.len() && alpha(#[trigger] t[i]))
}

/// Path-like and identifier-like tokens of the query pieces, in order;
/// tokens shorter than 3 bytes are ignored.
pub open spec fn query_tokens_fold(pieces: Seq<Seq<char>>) -> (Seq<Seq<char>>, Seq<Seq<char>>)
    decreases pieces.len(),
{
    if pieces.len() == 0 {
        (Seq::empty(), Seq::empty())
    } else {
        let (p, s) = query_tokens_fold(pieces.drop_last());
        let t = trim_end_nt(trim_start_nt(pieces.last()));
        if encode_utf8(t).len() < 3 {
            (p, s)
        } else {
            (
                if is_path_token(t) {
                    p.push(t)
                } else {
                    p
                },
                if is_symbol_token(t) {
                    s.push(t)
                } else {
                    s
                },
            )
        }
    }
}

/// Anchor tokens of a query: (path-like, identifier-like).
pub open spec fn query_tokens_spec(query: Seq<char>) -> (Seq<Seq<char>>, Seq<Seq<char>>) {
    query_tokens_fold(split_query(query))
}

fn is_query_delim_exec(c: char) -> (r: bool)
    ensures
        r == is_query_delim(c),
{
    c == ' ' || c == '\t' || c == '\n' || c == ',' || c == ';' || c == '(' || c == ')' || c == '`'
        || c == '"' || c == '\''
}

fn is_token_char_exec(c: char) -> (r: bool)
    ensures
        r == is_token_char(c),
{
    c == '/' || c == '.' || c == '_' || char_is_alphanumeric(c)
}

proof fn lemma_split_query_len(s: Seq<char>)
    ensures
        split_query(s).len() >= 1,
    decreases s.len(),
{
    if s.len() > 0 {
        lemma_split_query_len(s.drop_last());
    }
}

fn split_query_vec(s: &Vec<char>) -> (r: Vec<Vec<char>>)
    ensures
        r@.map_values(|v: Vec<char>| v@) == split_query(s@),
{
    let mut out: Vec<Vec<char>> = Vec::new();
    let mut cur: Vec<char> = Vec::new();
    let mut i: usize = 0;
    proof {
        assert(s@.take(0) =~= Seq::<char>::empty());
    }
    while i < s.len()
        invariant
            i <= s.len(),
            out@.map_values(|v: Vec<char>| v@).push(cur@) == split_query(s@.take(i as int)),
        decreases s.len() - i,
    {
        let ghost prev = split_query(s@.take(i as int));
        proof {
            assert(s@.take(i + 1).drop_last() =~= s@.take(i as int));
            assert(s@.take(i + 1).last() == s@[i as int]);
            lemma_split_query_len(s@.take(i as int));
        }
        if is_query_delim_exec(s[i]) {
            let done = cur;
            out.push(done);
            cur = Vec::new();
            proof {
                assert(out@.map_values(|v: Vec<char>| v@).push(cur@) =~= prev.push(Seq::empty()));
            }
        } else {
            cur.push(s[i]);
            proof {
                assert(out@.map_values(|v: Vec<char>| v@).push(cur@) =~= prev.update(
                    prev.len() - 1,
                    prev.last().push(s@[i as int]),
                ));
            }
        }
        i = i + 1;
    }
    out.push(cur);
    proof {
        assert(s@.take(s.len() as int) =~= s@);
    }
    out
}

fn trim_nt_vec(v: &Vec<char>) -> (r: Vec<char>)
    ensures
        r@ == trim_end_nt(trim_start_nt(v@)),
{
    let mut i: usize = 0;
    proof {
        assert(v@.skip(0) =~= v@);
    }
    while i < v.len() && !is_token_char_exec(v[i])
        invariant
            i <= v.len(),
            trim_start_nt(v@.skip(i as int)) == trim_start_nt(v@),
        decreases v.len() - i,
    {
        proof {
            assert(v@.skip(i as int).drop_first() =~= v@.skip(i + 1));
        }
        i = i + 1;
    }
    let mut t = crate::text::chars_from(v, i);
    let ghost t0 = t@;
    while t.len() > 0 && !is_token_char_exec(t[t.len() - 1])
        invariant
            trim_end_nt(t@) == trim_end_nt(t0),
        decreases t.len(),
    {
        let ghost before = t@;
        t.pop();
        proof {
            assert(t@ =~= before.drop_last());
        }
    }
    t
}

pub(crate) fn has_char(t: &Vec<char>, c: char) -> (r: bool)
    ensures
        r == t@.contains(c),
{
    let mut i: usize = 0;
    while i < t.len()
        invariant
            i <= t.len(),
            forall|k: int| 0 <= k < i ==> t@[k] != c,
        decreases t.len() - i,
    {
        if t[i] == c {
            proof {
                assert(t@[i as int] == c);
            }
            return true;
        }
        i = i + 1;
    }
    false
}

fn symbol_token(t: &Vec<char>) -> (r: bool)
    ensures
        r == is_symbol_token(t@),
{
    let mut all = true;
    let mut any = false;
    let mut i: usize = 0;
    while i < t.len()
        invariant
            i <= t.len(),
            all == forall|k: int| 0 <= k < i ==> is_word_char(#[trigger] t@[k]),
            any == exists|k: int| 0 <= k < i && alpha(#[trigger] t@[k]),
        decreases t.len() - i,
    {
        let c = t[i];
        let w = c == '_' || char_is_alphanumeric(c);
        let a = char_is_alphabetic(c);
        proof {
            if all && !w {
                assert(!is_word_char(t@[i as int]));
            }
            if !any && a {
                assert(alpha(t@[i as int]));
            }
        }
        all = all && w;
        any = any || a;
        i = i + 1;
        proof {
            if !all {
                if w {
                    let k = choose|k: int| 0 <= k < i - 1 && !is_word_char(#[trigger] t@[k]);
                    assert(0 <= k < i && !is_word_char(t@[k]));
                } else {
                    assert(!is_word_char(t@[i - 1]));
                }
            }
            if any {
                if !a {
                    let k = choose|k: int| 0 <= k < i - 1 && alpha(#[trigger] t@[k]);
                    assert(0 <= k < i && alpha(t@[k]));
                }
            } else {
                assert forall|k: int| !(0 <= k < i && alpha(#[trigger] t@[k])) by {
                    if k == i - 1 {
                    }
                }
            }
        }
    }
    all && any
}

/// Tokens worth treating as anchors: (path-like, identifier-like), see
/// [`query_tokens_spec`].
pub fn query_tokens(query: &str) -> (r: (Vec<String>, Vec<String>))
    ensures
        (strings_view(r.0@), strings_view(r.1@)) == query_tokens_spec(query@),
{
    let pieces = split_query_vec(&chars_of(query));
    let ghost pv = pieces@.map_values(|v: Vec<char>| v@);
    let mut paths: Vec<String> = Vec::new();
    let mut symbols: Vec<String> = Vec::new();
    let mut i: usize = 0;
    while i < pieces.len()
        invariant
            i <= pieces.len(),
            pv == pieces@.map_values(|v: Vec<char>| v@),
            (strings_view(paths@), strings_view(symbols@)) == query_tokens_fold(pv.take(i as int)),
        decreases pieces.len() - i,
    {
        proof {
            assert(pv.take(i + 1).drop_last() =~= pv.take(i as int));
            assert(pv.take(i + 1).last() == pieces@[i as int]@);
        }
        let t = trim_nt_vec(&pieces[i]);
        let ts = string_from_chars(&t);
        if ts.as_str().as_bytes().len() >= 3 {
            let ext = string_from_chars(&after_last_vec(&t, '.'));
            let is_path = has_char(&t, '/') || (ext.as_str().as_bytes().len() <= 4 && has_char(&t, '.'));
            let is_sym = symbol_token(&t);
            if is_path {
                paths.push(string_from_chars(&t));
            }
            if is_sym {
                symbols.push(ts);
            }
            proof {
                assert(strings_view(paths@) =~= query_tokens_fold(pv.take(i + 1)).0);
                assert(strings_view(symbols@) =~= query_tokens_fold(pv.take(i + 1)).1);
            }
        }
        i = i + 1;
    }
    proof {
        assert(pv.take(pieces.len() as int) =~= pv);
    }
    (paths, symbols)
}

/// Hops the walk takes from anchors and lexical hits.
pub const WALK_HOPS: u8 = 2;

/// A frontier this large ends the walk.
pub const WALK_FRONTIER_LIMIT: usize = 512;

/// A file reached by the walk stands for at most this many of its chunks.
pub const FILE_CHUNK_LIMIT: usize = 8;

/// The bounded graph walk of candidate gathering. Every node enters the
/// walk at most once (seeds included); each hop expands the nodes the
/// previous hop reached; the walk takes at most [`WALK_HOPS`] hops and stops
/// early once a frontier reaches [`WALK_FRONTIER_LIMIT`] nodes.
pub struct CandidateWalk {
    seen: Vec<NodeId>,
    frontier: Vec<NodeId>,
    next: Vec<NodeId>,
    hop: u8,
}

/// Mathematical value of a [`CandidateWalk`].
pub ghost struct CandidateWalkView {
    pub seen: Seq<NodeId>,
    pub frontier: Seq<NodeId>,
    pub next: Seq<NodeId>,
    pub hop: int,
}

impl View for CandidateWalk {
    type V = CandidateWalkView;

    closed spec fn view(&self) -> CandidateWalkView {
        CandidateWalkView { seen: self.seen@, frontier: self.frontier@, next: self.next@, hop: self.hop as int }
    }
}

/// No node occurs twice.
pub open spec fn distinct_ids(s: Seq<NodeId>) -> bool {
    forall|i: int, j: int| 0 <= i < j < s.len() ==> s[i] != s[j]
}

/// The walk's invariant: at most [`WALK_HOPS`] hops taken, nodes seen once,
/// and the next frontier made of seen nodes.
pub open spec fn walk_ok(w: CandidateWalkView) -> bool {
    &&& 0 <= w.hop <= WALK_HOPS
    &&& distinct_ids(w.seen)
    &&& forall|k: int| 0 <= k < w.next.len() ==> w.seen.contains(#[trigger] w.next[k])
}

fn copy_node_ids(v: &Vec<NodeId>) -> (r: Vec<NodeId>)
    ensures
        r@ == v@,
{
    let mut out: Vec<NodeId> = Vec::new();
    let mut i: usize = 0;
    while i < v.len()
        invariant
            i <= v.len(),
            out@ == v@.take(i as int),
        decreases v.len() - i,
    {
        out.push(v[i]);
        i = i + 1;
        proof {
            assert(out@ =~= v@.take(i as int));
        }
    }
    proof {
        assert(v@.take(v.len() as int) =~= v@);
    }
    out
}

impl CandidateWalk {
    /// A walk from the candidates gathered so far (all distinct), before its
    /// first hop.
    pub fn new(seeds: &Vec<NodeId>) -> (r: CandidateWalk)
        requires
            distinct_ids(seeds@),
        ensures
            r@.seen == seeds@,
            r@.frontier == seeds@,
            r@.next == Seq::<NodeId>::empty(),
            r@.hop == 0,
            walk_ok(r@),
    {
        CandidateWalk { seen: copy_node_ids(seeds), frontier: copy_node_ids(seeds), next: Vec::new(), hop: 0 }
    }

    /// Start the next hop: true (and the hop counted) while fewer than
    /// [`WALK_HOPS`] hops were taken and the frontier is under
    /// [`WALK_FRONTIER_LIMIT`] nodes.
    pub fn start_hop(&mut self) -> (r: bool)
        requires
            walk_ok(old(self)@),
        ensures
            r == (old(self)@.hop < WALK_HOPS && old(self)@.frontier.len() < WALK_FRONTIER_LIMIT),
            final(self)@.hop == if r {
                old(self)@.hop + 1
            } else {
                old(self)@.hop
            },
            final(self)@.seen == old(self)@.seen,
            final(self)@.frontier == old(self)@.frontier,
            final(self)@.next == old(self)@.next,
            walk_ok(final(self)@),
    {
        if self.hop < WALK_HOPS && self.frontier.len() < WALK_FRONTIER_LIMIT {
            self.hop = self.hop + 1;
            true
        } else {
            false
        }
    }

    /// The hop count so far.
    pub fn hop(&self) -> (r: u8)
        ensures
            r == self@.hop,
    {
        self.hop
    }

    /// The nodes whose edges the current hop follows.
    pub fn frontier(&self) -> (r: Vec<NodeId>)
        ensures
            r@ == self@.frontier,
    {
        copy_node_ids(&self.frontier)
    }

    /// Whether a node is already a candidate (such nodes are skipped).
    pub fn is_seen(&self, id: &NodeId) -> (r: bool)
        ensures
            r == self@.seen.contains(*id),
    {
        contains_id(&self.seen, id)
    }

    /// Take in a node the hop reached: when it is new it becomes a candidate
    /// and joins the next frontier (true); a seen node changes nothing.
    pub fn add(&mut self, id: NodeId) -> (r: bool)
        requires
            walk_ok(old(self)@),
        ensures
            r == !old(self)@.seen.contains(id),
            final(self)@.seen == if r {
                old(self)@.seen.push(id)
            } else {
                old(self)@.seen
            },
            final(self)@.next == if r {
                old(self)@.next.push(id)
            } else {
                old(self)@.next
            },
            final(self)@.frontier == old(self)@.frontier,
            final(self)@.hop == old(self)@.hop,
            walk_ok(final(self)@),
    {
        if contains_id(&self.seen, &id) {
            false
        } else {
            let ghost before = self@;
            self.seen.push(id);
            self.next.push(id);
            proof {
                assert forall|k: int| 0 <= k < self.next@.len() implies self.seen@.contains(#[trigger] self.next@[k]) by {
                    if k < before.next.len() {
                        assert(before.seen.contains(before.next[k]));
                        let j = choose|j: int| 0 <= j < before.seen.len() && before.seen[j] == before.next[k];
                        assert(self.seen@[j] == before.seen[j]);
                    } else {
                        assert(self.seen@[self.seen@.len() - 1] == id);
                    }
                }
            }
            true
        }
    }

    /// A file the hop reached stands for its chunks: of the first
    /// [`FILE_CHUNK_LIMIT`] of them, the ones not yet seen are taken in (in
    /// order) and returned.
    pub fn add_file_chunks(&mut self, chunks: &Vec<NodeId>) -> (r: Vec<NodeId>)
        requires
            walk_ok(old(self)@),
        ensures
            r@ == new_ids(chunks@.take(min_len(chunks@.len() as int, FILE_CHUNK_LIMIT as int)), old(self)@.seen),
            final(self)@.seen == old(self)@.seen + r@,
            final(self)@.next == old(self)@.next + r@,
            final(self)@.frontier == old(self)@.frontier,
            final(self)@.hop == old(self)@.hop,
            walk_ok(final(self)@),
    {
        let n = if chunks.len() < FILE_CHUNK_LIMIT {
            chunks.len()
        } else {
            FILE_CHUNK_LIMIT
        };
        let ghost s0 = self@.seen;
        let ghost n0 = self@.next;
        let mut out: Vec<NodeId> = Vec::new();
        let mut i: usize = 0;
        while i < n
            invariant
                i <= n <= chunks.len(),
                n == min_len(chunks@.len() as int, FILE_CHUNK_LIMIT as int),
                walk_ok(self@),
                out@ == new_ids(chunks@.take(i as int), s0),
                self@.seen == s0 + out@,
                self@.next == n0 + out@,
                self@.frontier == old(self)@.frontier,
                self@.hop == old(self)@.hop,
            decreases n - i,
        {
            let id = chunks[i];
            proof {
                assert(chunks@.take(i + 1).drop_last() =~= chunks@.take(i as int));
                assert(chunks@.take(i + 1).last() == id);
                lemma_seen_concat(s0, out@, id);
            }
            if self.add(id) {
                out.push(id);
            }
            i = i + 1;
            proof {
                assert(self@.seen =~= s0 + out@);
                assert(self@.next =~= n0 + out@);
            }
        }
        out
    }

    /// Close the hop: the nodes it took in become the frontier of the next.
    pub fn end_hop(&mut self)
        requires
            walk_ok(old(self)@),
        ensures
            final(self)@.frontier == old(self)@.next,
            final(self)@.next == Seq::<NodeId>::empty(),
            final(self)@.seen == old(self)@.seen,
            final(self)@.hop == old(self)@.hop,
            walk_ok(final(self)@),
    {
        let mut next: Vec<NodeId> = Vec::new();
        std::mem::swap(&mut next, &mut self.next);
        self.frontier = next;
    }
}

/// The smaller of two lengths.
pub open spec fn min_len(a: int, b: int) -> int {
    if a < b {
        a
    } else {
        b
    }
}

/// The ids of `s`, in order, that are neither in `seen` nor earlier in `s`.
pub open spec fn new_ids(s: Seq<NodeId>, seen: Seq<NodeId>) -> Seq<NodeId>
    decreases s.len(),
{
    if s.len() == 0 {
        Seq::empty()
    } else {
        let r = new_ids(s.drop_last(), seen);
        if (seen + r).contains(s.last()) {
            r
        } else {
            r.push(s.last())
        }
    }
}

proof fn lemma_seen_concat(s0: Seq<NodeId>, out: Seq<NodeId>, id: NodeId)
    ensures
        (s0 + out).push(id) == s0 + out.push(id),
{
    assert((s0 + out).push(id) =~= s0 + out.push(id));
}

/// The merged explanation when a candidate is reached again with a higher
/// score: the new one, unless the candidate is an anchor, whose explanation
/// is kept (it exempts the item from signature substitution).
pub open spec fn merge_why_spec(existing: WhyView, incoming: WhyView, higher: bool) -> WhyView {
    if higher && existing.reason != "anchor"@ {
        incoming
    } else {
        existing
    }
}

/// The explanation a candidate keeps when it is reached again (see
/// [`merge_why_spec`]).
pub fn merge_why(existing: &Why, incoming: &Why, higher: bool) -> (r: Why)
    ensures
        r@ == merge_why_spec(existing@, incoming@, higher),
{
    proof {
        reveal_strlit("anchor");
    }
    if higher && !str_eq(existing.reason.as_str(), "anchor") {
        incoming.duplicate()
    } else {
        existing.duplicate()
    }
}

/// A merge never takes the anchor explanation away.
pub proof fn lemma_anchor_sticky(existing: WhyView, incoming: WhyView, higher: bool)
    requires
        existing.reason == "anchor"@,
    ensures
        merge_why_spec(existing, incoming, higher) == existing,
{
}

/// A candidate survives threshold pruning when it is an anchor or its score
/// meets the threshold.
pub fn keep_candidate(is_anchor: bool, meets_threshold: bool) -> (r: bool)
    ensures
        r == (is_anchor || meets_threshold),
{
    is_anchor || meets_threshold
}

/// Indices of the candidates pruning keeps, in order.
pub open spec fn kept_spec(anchor: Seq<bool>, meets: Seq<bool>) -> Seq<int>
    decreases anchor.len(),
{
    if anchor.len() == 0 {
        Seq::empty()
    } else {
        let r = kept_spec(anchor.drop_last(), meets);
        let i = anchor.len() - 1;
        if anchor[i] || meets[i] {
            r.push(i)
        } else {
            r
        }
    }
}

/// Threshold pruning: the indices of the candidates that are anchors or meet
/// the threshold (see [`kept_spec`]).
pub fn prune_candidates(anchor: &Vec<bool>, meets: &Vec<bool>) -> (r: Vec<usize>)
    requires
        anchor.len() == meets.len(),
    ensures
        r@.map_values(|i: usize| i as int) == kept_spec(anchor@, meets@),
{
    let mut out: Vec<usize> = Vec::new();
    let mut i: usize = 0;
    while i < anchor.len()
        invariant
            i <= anchor.len() == meets.len(),
            out@.map_values(|k: usize| k as int) == kept_spec(anchor@.take(i as int), meets@),
        decreases anchor.len() - i,
    {
        proof {
            assert(anchor@.take(i + 1).drop_last() =~= anchor@.take(i as int));
        }
        let ghost before = out@;
        if keep_candidate(anchor[i], meets[i]) {
            out.push(i);
            proof {
                assert(out@.map_values(|k: usize| k as int) =~= before.map_values(|k: usize| k as int).push(i as int));
            }
        }
        i = i + 1;
    }
    proof {
        assert(anchor@.take(anchor.len() as int) =~= anchor@);
    }
    out
}

/// Threshold pruning never drops an anchor.
pub proof fn lemma_anchors_survive_pruning(anchor: Seq<bool>, meets: Seq<bool>, i: int)
    requires
        anchor.len() == meets.len(),
        0 <= i < anchor.len(),
        anchor[i],
    ensures
        kept_spec(anchor, meets).contains(i),
    decreases anchor.len(),
{
    let r = kept_spec(anchor.drop_last(), meets);
    if i == anchor.len() - 1 {
        assert(kept_spec(anchor, meets) == r.push(i));
        assert(kept_spec(anchor, meets)[r.len() as int] == i);
    } else {
        lemma_anchors_survive_pruning(anchor.drop_last(), meets.take(meets.len() - 1), i);
        lemma_kept_meets_prefix(anchor.drop_last(), meets, meets.take(meets.len() - 1));
        let k = choose|k: int| 0 <= k < r.len() && r[k] == i;
        let full = kept_spec(anchor, meets);
        assert(full[k] == i);
    }
}

proof fn lemma_kept_meets_prefix(anchor: Seq<bool>, m1: Seq<bool>, m2: Seq<bool>)
    requires
        m2.len() >= anchor.len(),
        m1.len() >= anchor.len(),
        forall|j: int| 0 <= j < anchor.len() ==> m1[j] == m2[j],
    ensures
        kept_spec(anchor, m1) == kept_spec(anchor, m2),
    decreases anchor.len(),
{
    if anchor.len() > 0 {
        lemma_kept_meets_prefix(anchor.drop_last(), m1, m2);
    }
}

/// What gathering does with a node a query or the walk brings up.
#[derive(Clone, Copy, Debug, PartialEq, Eq, Structural)]
pub enum Admit {
    /// Left out.
    Skip,
    /// Taken as a candidate as it is.
    Take,
    /// A file is routing structure: its chunks are taken in its place.
    ExpandFile,
    /// A signature: the chunk of its path and symbol is taken in its place
    /// (whether a pack ships the signature is the planner's substitution).
    ResolveChunk,
}

/// A lexical hit: a signature resolves to its chunk; anything else is taken.
pub open spec fn admit_hit_spec(kind: NodeKind) -> Admit {
    if kind == NodeKind::Signature {
        Admit::ResolveChunk
    } else {
        Admit::Take
    }
}

/// A node the walk reaches (not yet a candidate): an invalid node is
/// skipped, a file expands to its chunks, anything else is taken.
pub open spec fn admit_neighbor_spec(kind: NodeKind, valid: bool) -> Admit {
    if !valid {
        Admit::Skip
    } else if kind == NodeKind::File {
        Admit::ExpandFile
    } else {
        Admit::Take
    }
}

/// What gathering does with a lexical hit of `kind` (see
/// [`admit_hit_spec`]).
pub fn admit_hit(kind: NodeKind) -> (r: Admit)
    ensures
        r == admit_hit_spec(kind),
{
    match kind {
        NodeKind::Signature => Admit::ResolveChunk,
        _ => Admit::Take,
    }
}

/// What the walk does with a node it reaches (see
/// [`admit_neighbor_spec`]).
pub fn admit_neighbor(kind: NodeKind, valid: bool) -> (r: Admit)
    ensures
        r == admit_neighbor_spec(kind, valid),
{
    if !valid {
        Admit::Skip
    } else {
        match kind {
            NodeKind::File => Admit::ExpandFile,
            _ => Admit::Take,
        }
    }
}

/// Gathering takes no signature hit and no file node as a candidate as it
/// is, and no invalid node from the walk: signatures resolve to chunks,
/// files expand to chunks.
pub proof fn lemma_admission_kinds(kind: NodeKind, valid: bool)
    ensures
        admit_hit_spec(kind) == Admit::Take ==> kind != NodeKind::Signature,
        kind == NodeKind::Signature ==> admit_hit_spec(kind) == Admit::ResolveChunk,
        admit_neighbor_spec(kind, valid) == Admit::Take ==> kind != NodeKind::File && valid,
        valid && kind == NodeKind::File ==> admit_neighbor_spec(kind, valid) == Admit::ExpandFile,
        !valid ==> admit_neighbor_spec(kind, valid) == Admit::Skip,
{
}

/// The explanation's detail with the profile keyword that matched noted
/// after it: `detail · keyword 'k'`.
pub fn keyword_note(detail: &str, keyword: &str) -> (r: String)
    ensures
        r@ == detail@ + " \u{b7} keyword '"@ + keyword@ + "'"@,
{
    let mut v = chars_of(detail);
    let mut a = chars_of(" \u{b7} keyword '");
    v.append(&mut a);
    let mut k = chars_of(keyword);
    v.append(&mut k);
    let mut q = chars_of("'");
    v.append(&mut q);
    string_from_chars(&v)
}

} // verus!
