//! Edge resolution: call/inheritance names to symbols, doc mentions, and
//! import specifiers to files.

use vstd::prelude::*;
use crate::index::PendingEdges;
use crate::model::{EdgeKind, NodeId};
use crate::plan::strings_view;
use crate::text::{after_last, after_last_vec, chars_eq, chars_of, char_is_alphanumeric, occurs_at, occurs_at_exec, string_from_chars, alnum};
use crate::index::PendingDoc;
use crate::text::{before_last, before_last_vec, has_prefix, join_on, join_vec, replace_char, replace_char_vec, split_on, split_vec, starts_with, str_eq, trim_start_char, trim_start_char_vec};
use vstd::utf8::encode_utf8;

verus! {

/// A named chunk of the graph, as the store lists it.
#[derive(Debug)]
pub struct SymbolEntry {
    pub id: NodeId,
    pub symbol: String,
    pub path: String,
    pub role: String,
}

/// Mathematical value of a [`SymbolEntry`].
pub ghost struct SymbolEntryView {
    pub id: NodeId,
    pub symbol: Seq<char>,
    pub path: Seq<char>,
    pub role: Seq<char>,
}

impl View for SymbolEntry {
    type V = SymbolEntryView;

    open spec fn view(&self) -> SymbolEntryView {
        SymbolEntryView { id: self.id, symbol: self.symbol@, path: self.path@, role: self.role@ }
    }
}

/// Views of a list of entries.
pub open spec fn entries_view(v: Seq<SymbolEntry>) -> Seq<SymbolEntryView> {
    v.map_values(|e: SymbolEntry| e@)
}

/// Short name of a symbol: the part after its last `.`.
pub open spec fn short_name(symbol: Seq<char>) -> Seq<char> {
    after_last(symbol, '.')
}

/// The entries whose short name is `name`, in order.
pub open spec fn named(entries: Seq<SymbolEntryView>, name: Seq<char>) -> Seq<SymbolEntryView>
    decreases entries.len(),
{
    if entries.len() == 0 {
        Seq::empty()
    } else {
        let r = named(entries.drop_last(), name);
        if short_name(entries.last().symbol) == name {
            r.push(entries.last())
        } else {
            r
        }
    }
}

/// Index of the first entry at path `p`.
pub open spec fn first_at_path(m: Seq<SymbolEntryView>, p: Seq<char>) -> Option<int>
    decreases m.len(),
{
    if m.len() == 0 {
        None
    } else {
        match first_at_path(m.drop_last(), p) {
            Some(i) => Some(i),
            None => if m.last().path == p {
                Some(m.len() - 1)
            } else {
                None
            },
        }
    }
}

/// The first index at path `p` is in bounds, at path `p`, and no earlier
/// entry is at `p`.
pub proof fn lemma_first_at_path(m: Seq<SymbolEntryView>, p: Seq<char>)
    ensures
        match first_at_path(m, p) {
            Some(j) => 0 <= j < m.len() && m[j].path == p && forall|k: int|
                0 <= k < j ==> #[trigger] m[k].path != p,
            None => forall|k: int| 0 <= k < m.len() ==> #[trigger] m[k].path != p,
        },
    decreases m.len(),
{
    if m.len() > 0 {
        let d = m.drop_last();
        lemma_first_at_path(d, p);
        assert forall|k: int| 0 <= k < m.len() - 1 implies m[k] == #[trigger] d[k] by {}
        match first_at_path(d, p) {
            Some(j) => {
                assert(m[j] == d[j]);
                assert forall|k: int| 0 <= k < j implies #[trigger] m[k].path != p by {
                    assert(m[k] == d[k]);
                }
            },
            None => {
                assert(m.last() == m[m.len() - 1]);
                assert forall|k: int| 0 <= k < m.len() - 1 implies #[trigger] m[k].path != p by {
                    assert(m[k] == d[k]);
                }
            },
        }
    }
}

/// Resolution of a simple name seen in file `from`: the first symbol of
/// that short name in the same file (weight 100 hundredths); else the only
/// symbol of that name anywhere (weight 60); else nothing.
pub open spec fn resolve_spec(entries: Seq<SymbolEntryView>, name: Seq<char>, from: Seq<char>) -> Option<(NodeId, i64)> {
    let m = named(entries, name);
    match first_at_path(m, from) {
        Some(i) => Some((m[i].id, 100i64)),
        None => if m.len() == 1 {
            Some((m[0].id, 60i64))
        } else {
            None
        },
    }
}

/// The entries of the graph with their short names worked out once.
pub struct SymbolTable {
    pub entries: Vec<SymbolEntry>,
    pub short: Vec<Vec<char>>,
}

impl SymbolTable {
    /// Well-formed: one short name per entry.
    pub open spec fn wf(&self) -> bool {
        &&& self.short@.len() == self.entries@.len()
        &&& forall|i: int|
            0 <= i < self.entries@.len() ==> #[trigger] self.short@[i]@ == short_name(
                self.entries@[i].symbol@,
            )
    }

    /// The table of a list of entries.
    pub fn new(entries: Vec<SymbolEntry>) -> (r: SymbolTable)
        ensures
            r.wf(),
            r.entries@ == entries@,
    {
        let mut short: Vec<Vec<char>> = Vec::new();
        let mut i: usize = 0;
        while i < entries.len()
            invariant
                i <= entries.len(),
                short@.len() == i,
                forall|k: int| 0 <= k < i ==> #[trigger] short@[k]@ == short_name(entries@[k].symbol@),
            decreases entries.len() - i,
        {
            short.push(after_last_vec(&chars_of(entries[i].symbol.as_str()), '.'));
            i = i + 1;
        }
        SymbolTable { entries, short }
    }

    /// Resolve a simple name seen in file `from` (see [`resolve_spec`]).
    pub fn resolve(&self, name: &str, from: &str) -> (r: Option<(NodeId, i64)>)
        requires
            self.wf(),
        ensures
            r == resolve_spec(entries_view(self.entries@), name@, from@),
    {
        let ghost ev = entries_view(self.entries@);
        let n = chars_of(name);
        let mut count: usize = 0;
        let mut first: Option<NodeId> = None;
        let mut same: Option<NodeId> = None;
        let mut i: usize = 0;
        while i < self.entries.len()
            invariant
                self.wf(),
                ev == entries_view(self.entries@),
                n@ == name@,
                i <= self.entries.len(),
                count as int == named(ev.take(i as int), name@).len(),
                count <= i,
                count > 0 ==> first == Some(named(ev.take(i as int), name@)[0].id),
                count == 0 ==> first is None,
                match first_at_path(named(ev.take(i as int), name@), from@) {
                    Some(j) => same == Some(named(ev.take(i as int), name@)[j].id),
                    None => same is None,
                },
            decreases self.entries.len() - i,
        {
            let ghost prev = named(ev.take(i as int), name@);
            proof {
                lemma_first_at_path(prev, from@);
                assert(ev.take(i + 1).drop_last() =~= ev.take(i as int));
                assert(ev.take(i + 1).last() == self.entries@[i as int]@);
            }
            if chars_eq(&self.short[i], &n) {
                let e = &self.entries[i];
                if count == 0 {
                    first = Some(e.id);
                }
                if same.is_none() && crate::text::str_eq(e.path.as_str(), from) {
                    same = Some(e.id);
                }
                count = count + 1;
                proof {
                    let next = named(ev.take(i + 1), name@);
                    assert(next == prev.push(e@));
                    assert(next.drop_last() =~= prev);
                    if prev.len() > 0 {
                        assert(next[0] == prev[0]);
                    }
                    match first_at_path(prev, from@) {
                        Some(j) => {
                            assert(next[j] == prev[j]);
                        },
                        None => {},
                    }
                }
            } else {
                proof {
                    assert(named(ev.take(i + 1), name@) == prev);
                }
            }
            i = i + 1;
        }
        proof {
            assert(ev.take(self.entries.len() as int) =~= ev);
        }
        match same {
            Some(id) => Some((id, 100)),
            None => if count == 1 {
                match first {
                    Some(id) => Some((id, 60)),
                    None => None,
                }
            } else {
                None
            },
        }
    }
}

/// A resolved edge: source, kind, destination, weight in hundredths.
#[derive(Debug, Clone, Copy)]
pub struct EdgePlan {
    pub src: NodeId,
    pub kind: EdgeKind,
    pub dst: NodeId,
    pub weight_centi: i64,
}

/// Edges of kind `kind` from chunk `src` (in file `from`) to the resolution
/// of each name, in order; names resolving to `src` itself give none. With
/// `tested`, each resolved target also gets a `TestedBy` edge back to `src`
/// (weight 80).
pub open spec fn named_edges(
    entries: Seq<SymbolEntryView>,
    src: NodeId,
    from: Seq<char>,
    kind: EdgeKind,
    tested: bool,
    names: Seq<Seq<char>>,
) -> Seq<EdgePlan>
    decreases names.len(),
{
    if names.len() == 0 {
        Seq::empty()
    } else {
        let prev = named_edges(entries, src, from, kind, tested, names.drop_last());
        match resolve_spec(entries, names.last(), from) {
            Some(t) => if t.0 != src {
                let e = EdgePlan { src, kind, dst: t.0, weight_centi: t.1 };
                if tested {
                    prev.push(e).push(
                        EdgePlan { src: t.0, kind: EdgeKind::TestedBy, dst: src, weight_centi: 80 },
                    )
                } else {
                    prev.push(e)
                }
            } else {
                prev
            },
            None => prev,
        }
    }
}

/// Edges of one chunk: calls (with `TestedBy` back-edges from test chunks),
/// then inherits, then implements.
pub open spec fn chunk_edges_spec(entries: Seq<SymbolEntryView>, pe: PendingEdges) -> Seq<EdgePlan> {
    named_edges(entries, pe.chunk, pe.path@, EdgeKind::Calls, pe.is_test, strings_view(pe.calls@))
        + named_edges(entries, pe.chunk, pe.path@, EdgeKind::Inherits, false, strings_view(pe.bases@))
        + named_edges(
        entries,
        pe.chunk,
        pe.path@,
        EdgeKind::Implements,
        false,
        strings_view(pe.impls@),
    )
}

fn push_named_edges(
    table: &SymbolTable,
    out: &mut Vec<EdgePlan>,
    src: NodeId,
    from: &str,
    kind: EdgeKind,
    tested: bool,
    names: &Vec<String>,
)
    requires
        table.wf(),
    ensures
        final(out)@ == old(out)@ + named_edges(
            entries_view(table.entries@),
            src,
            from@,
            kind,
            tested,
            strings_view(names@),
        ),
{
    let ghost ev = entries_view(table.entries@);
    let ghost nv = strings_view(names@);
    let ghost base = out@;
    let mut i: usize = 0;
    while i < names.len()
        invariant
            table.wf(),
            ev == entries_view(table.entries@),
            nv == strings_view(names@),
            i <= names.len(),
            out@ == base + named_edges(ev, src, from@, kind, tested, nv.take(i as int)),
        decreases names.len() - i,
    {
        proof {
            assert(nv.take(i + 1).drop_last() =~= nv.take(i as int));
            assert(nv.take(i + 1).last() == names@[i as int]@);
        }
        match table.resolve(names[i].as_str(), from) {
            Some((t, w)) => {
                if !crate::plan::ids_equal(&t, &src) {
                    out.push(EdgePlan { src, kind, dst: t, weight_centi: w });
                    if tested {
                        out.push(EdgePlan { src: t, kind: EdgeKind::TestedBy, dst: src, weight_centi: 80 });
                    }
                }
            },
            None => {},
        }
        i = i + 1;
        proof {
            let prev = named_edges(ev, src, from@, kind, tested, nv.take(i - 1));
            let next = named_edges(ev, src, from@, kind, tested, nv.take(i as int));
            assert(out@ =~= base + next);
        }
    }
    proof {
        assert(nv.take(names.len() as int) =~= nv);
    }
}

/// The resolved edges of one chunk (see [`chunk_edges_spec`]).
pub fn chunk_edges(table: &SymbolTable, pe: &PendingEdges) -> (r: Vec<EdgePlan>)
    requires
        table.wf(),
    ensures
        r@ == chunk_edges_spec(entries_view(table.entries@), *pe),
{
    let mut out: Vec<EdgePlan> = Vec::new();
    push_named_edges(table, &mut out, pe.chunk, pe.path.as_str(), EdgeKind::Calls, pe.is_test, &pe.calls);
    push_named_edges(table, &mut out, pe.chunk, pe.path.as_str(), EdgeKind::Inherits, false, &pe.bases);
    push_named_edges(table, &mut out, pe.chunk, pe.path.as_str(), EdgeKind::Implements, false, &pe.impls);
    proof {
        assert(out@ =~= chunk_edges_spec(entries_view(table.entries@), *pe));
    }
    out
}

/// A word character: Unicode alphanumeric or `_`.
pub open spec fn is_word_char(c: char) -> bool {
    alnum(c) || c == '_'
}

/// `w` occurs in `h` at `i` with no word character right before or after.
pub open spec fn word_at(h: Seq<char>, w: Seq<char>, i: int) -> bool {
    &&& occurs_at(h, w, i)
    &&& (i == 0 || !is_word_char(h[i - 1]))
    &&& (i + w.len() >= h.len() || !is_word_char(h[i + w.len()]))
}

/// The search of [`contains_word`] from position `pos`: take the next
/// occurrence of `w`; accept it when it is a whole word, else resume right
/// after it (unless it ends the text).
pub open spec fn word_search(h: Seq<char>, w: Seq<char>, pos: int) -> bool
    decreases h.len() - pos,
{
    if pos < 0 || pos + w.len() > h.len() || w.len() == 0 {
        false
    } else if occurs_at(h, w, pos) {
        if word_at(h, w, pos) {
            true
        } else if pos + w.len() >= h.len() {
            false
        } else {
            word_search(h, w, pos + w.len())
        }
    } else {
        word_search(h, w, pos + 1)
    }
}

pub(crate) fn is_word_char_exec(c: char) -> (r: bool)
    ensures
        r == is_word_char(c),
{
    c == '_' || char_is_alphanumeric(c)
}

/// Whether `word` (not empty) occurs in `haystack` as a whole word, found by
/// the left-to-right search of [`word_search`].
pub fn contains_word(haystack: &str, word: &str) -> (r: bool)
    requires
        word@.len() > 0,
    ensures
        r == word_search(haystack@, word@, 0),
{
    let h = chars_of(haystack);
    let w = chars_of(word);
    let n = h.len();
    let m = w.len();
    let mut pos: usize = 0;
    while pos <= n && m <= n - pos
        invariant
            h@ == haystack@,
            w@ == word@,
            n == h.len(),
            m == w.len(),
            m > 0,
            pos <= n + 1,
            word_search(h@, w@, 0) == word_search(h@, w@, pos as int),
        decreases n + 1 - pos,
    {
        if occurs_at_exec(&h, &w, pos) {
            let before_ok = pos == 0 || !is_word_char_exec(h[pos - 1]);
            let after = pos + m;
            let after_ok = after >= n || !is_word_char_exec(h[after]);
            if before_ok && after_ok {
                return true;
            }
            if after >= n {
                return false;
            }
            pos = after;
        } else {
            pos = pos + 1;
        }
    }
    false
}

/// Distinct short names of the entries, in order of first appearance.
pub open spec fn distinct_names(entries: Seq<SymbolEntryView>) -> Seq<Seq<char>>
    decreases entries.len(),
{
    if entries.len() == 0 {
        Seq::empty()
    } else {
        let r = distinct_names(entries.drop_last());
        let n = short_name(entries.last().symbol);
        if r.contains(n) {
            r
        } else {
            r.push(n)
        }
    }
}

/// Doc-mention edges of doc chunk `doc`: for the names in order, while
/// fewer than 8 edges were made, a name of at least 4 bytes found as a whole
/// word in the doc text links its first symbol to the doc (weight 70).
pub open spec fn mention_edges(
    entries: Seq<SymbolEntryView>,
    doc: NodeId,
    content: Seq<char>,
    names: Seq<Seq<char>>,
) -> Seq<EdgePlan>
    decreases names.len(),
{
    if names.len() == 0 {
        Seq::empty()
    } else {
        let prev = mention_edges(entries, doc, content, names.drop_last());
        let n = names.last();
        if prev.len() < 8 && encode_utf8(n).len() >= 4 && word_search(content, n, 0) {
            prev.push(
                EdgePlan {
                    src: named(entries, n)[0].id,
                    kind: EdgeKind::MentionsDoc,
                    dst: doc,
                    weight_centi: 70,
                },
            )
        } else {
            prev
        }
    }
}

/// The distinct short names of a symbol table with the first symbol of
/// each.
pub struct MentionIndex {
    pub names: Vec<String>,
    pub first: Vec<NodeId>,
}

impl MentionIndex {
    /// Well-formed for entries `ev`.
    pub open spec fn wf_for(&self, ev: Seq<SymbolEntryView>) -> bool {
        &&& strings_view(self.names@) == distinct_names(ev)
        &&& self.first@.len() == self.names@.len()
        &&& forall|i: int|
            0 <= i < self.names@.len() ==> #[trigger] self.first@[i] == named(
                ev,
                self.names@[i]@,
            )[0].id && named(ev, self.names@[i]@).len() > 0
    }

    /// The index of a symbol table.
    pub fn new(table: &SymbolTable) -> (r: MentionIndex)
        requires
            table.wf(),
        ensures
            r.wf_for(entries_view(table.entries@)),
    {
        let ghost ev = entries_view(table.entries@);
        let mut names: Vec<Vec<char>> = Vec::new();
        let mut first: Vec<NodeId> = Vec::new();
        let mut i: usize = 0;
        while i < table.entries.len()
            invariant
                table.wf(),
                ev == entries_view(table.entries@),
                i <= table.entries.len(),
                names@.map_values(|v: Vec<char>| v@) == distinct_names(ev.take(i as int)),
                first@.len() == names@.len(),
                forall|k: int|
                    0 <= k < names@.len() ==> #[trigger] first@[k] == named(
                        ev.take(i as int),
                        names@[k]@,
                    )[0].id && named(ev.take(i as int), names@[k]@).len() > 0,
            decreases table.entries.len() - i,
        {
            let ghost t = ev.take(i as int);
            let ghost t1 = ev.take(i + 1);
            let ghost nv = names@.map_values(|v: Vec<char>| v@);
            proof {
                assert(t1.drop_last() =~= t);
                assert(t1.last() == table.entries@[i as int]@);
            }
            let mut found = false;
            let mut j: usize = 0;
            while j < names.len()
                invariant
                    0 <= j <= names.len(),
                    nv == names@.map_values(|v: Vec<char>| v@),
                    table.wf(),
                    i < table.entries.len(),
                    ev == entries_view(table.entries@),
                    t == ev.take(i as int),
                    t1 == ev.take(i + 1),
                    nv == distinct_names(t),
                    first@.len() == names@.len(),
                    forall|k: int|
                        0 <= k < names@.len() ==> #[trigger] first@[k] == named(t, names@[k]@)[0].id
                            && named(t, names@[k]@).len() > 0,
                    found <==> exists|k: int| 0 <= k < j && nv[k] == table.short@[i as int]@,
                decreases names.len() - j,
            {
                proof {
                    assert(nv[j as int] == names@[j as int]@);
                }
                if chars_eq(&names[j], &table.short[i]) {
                    found = true;
                }
                j = j + 1;
                proof {
                    if found {
                        if nv[j - 1] == table.short@[i as int]@ {
                            assert(0 <= j - 1 < j && nv[j - 1] == table.short@[i as int]@);
                        }
                    }
                }
            }
            let ghost sn = short_name(table.entries@[i as int].symbol@);
            proof {
                assert(found <==> nv.contains(sn)) by {
                    if nv.contains(sn) {
                        let k = choose|k: int| 0 <= k < nv.len() && nv[k] == sn;
                        assert(nv[k] == table.short@[i as int]@);
                    }
                }
                // names already listed keep their first symbol
                assert forall|k: int| 0 <= k < names@.len() implies named(t1, #[trigger] names@[k]@).len()
                    > 0 && named(t1, names@[k]@)[0] == named(t, names@[k]@)[0] by {
                    let nk = names@[k]@;
                    assert(0 <= k < names@.len());
                    assert(first@[k] == named(t, names@[k]@)[0].id);
                    assert(named(t, nk).len() > 0);
                    if short_name(t1.last().symbol) == nk {
                        assert(named(t1, nk) == named(t, nk).push(t1.last()));
                        assert(named(t1, nk)[0] == named(t, nk)[0]);
                    } else {
                        assert(named(t1, nk) == named(t, nk));
                    }
                }
            }
            if !found {
                let e = &table.entries[i];
                names.push(table.short[i].clone());
                first.push(e.id);
                proof {
                    assert(names@.map_values(|v: Vec<char>| v@) =~= nv.push(sn));
                    assert(named(t, sn).len() == 0 || nv.contains(sn)) by {
                        if named(t, sn).len() > 0 {
                            lemma_named_in_distinct(t, sn);
                        }
                    }
                    assert(named(t, sn).len() == 0);
                    assert(named(t1, sn) == named(t, sn).push(t1.last()));
                    assert(named(t1, sn)[0] == t1.last());
                }
            }
            i = i + 1;
        }
        proof {
            assert(ev.take(table.entries.len() as int) =~= ev);
        }
        let mut out: Vec<String> = Vec::new();
        let mut k: usize = 0;
        while k < names.len()
            invariant
                k <= names.len(),
                out@.len() == k,
                forall|q: int| 0 <= q < k ==> #[trigger] out@[q]@ == names@[q]@,
            decreases names.len() - k,
        {
            out.push(string_from_chars(&names[k]));
            k = k + 1;
        }
        proof {
            assert(strings_view(out@) =~= names@.map_values(|v: Vec<char>| v@));
            assert forall|q: int| 0 <= q < out@.len() implies #[trigger] first@[q] == named(
                ev,
                out@[q]@,
            )[0].id && named(ev, out@[q]@).len() > 0 by {
                assert(out@[q]@ == names@[q]@);
                assert(first@[q] == named(ev, names@[q]@)[0].id);
            }
        }
        MentionIndex { names: out, first }
    }
}

/// A name with symbols is among the distinct names.
pub proof fn lemma_named_in_distinct(ev: Seq<SymbolEntryView>, n: Seq<char>)
    requires
        named(ev, n).len() > 0,
    ensures
        distinct_names(ev).contains(n),
    decreases ev.len(),
{
    if ev.len() > 0 {
        let d = distinct_names(ev.drop_last());
        if short_name(ev.last().symbol) == n {
            if !d.contains(n) {
                assert(distinct_names(ev) == d.push(n));
                assert(distinct_names(ev)[d.len() as int] == n);
            }
        } else {
            lemma_named_in_distinct(ev.drop_last(), n);
            let k = choose|k: int| 0 <= k < d.len() && d[k] == n;
            let e = distinct_names(ev);
            assert(e[k] == n);
        }
    }
}

/// Doc-mention edges of one doc chunk (see [`mention_edges`]).
pub fn doc_mention_edges(table: &SymbolTable, index: &MentionIndex, pd: &PendingDoc) -> (r: Vec<EdgePlan>)
    requires
        index.wf_for(entries_view(table.entries@)),
    ensures
        r@ == mention_edges(
            entries_view(table.entries@),
            pd.doc,
            pd.content@,
            distinct_names(entries_view(table.entries@)),
        ),
{
    let ghost ev = entries_view(table.entries@);
    let ghost nv = distinct_names(ev);
    let mut out: Vec<EdgePlan> = Vec::new();
    let mut i: usize = 0;
    while i < index.names.len()
        invariant
            index.wf_for(ev),
            nv == distinct_names(ev),
            i <= index.names.len(),
            out@ == mention_edges(ev, pd.doc, pd.content@, nv.take(i as int)),
        decreases index.names.len() - i,
    {
        proof {
            assert(nv.take(i + 1).drop_last() =~= nv.take(i as int));
            assert(nv.take(i + 1).last() == index.names@[i as int]@);
        }
        if out.len() < 8 && index.names[i].as_str().as_bytes().len() >= 4 && contains_word(
            pd.content.as_str(),
            index.names[i].as_str(),
        ) {
            out.push(
                EdgePlan {
                    src: index.first[i],
                    kind: EdgeKind::MentionsDoc,
                    dst: pd.doc,
                    weight_centi: 70,
                },
            );
        }
        i = i + 1;
    }
    proof {
        assert(nv.take(index.names.len() as int) =~= nv);
    }
    out
}

/// Apply path segments to a directory stack: `.` and empty segments do
/// nothing, `..` pops, anything else is pushed.
pub open spec fn apply_segments(parts: Seq<Seq<char>>, segs: Seq<Seq<char>>) -> Seq<Seq<char>>
    decreases segs.len(),
{
    if segs.len() == 0 {
        parts
    } else {
        let p = apply_segments(parts, segs.drop_last());
        let g = segs.last();
        if g == "."@ || g == ""@ {
            p
        } else if g == ".."@ {
            if p.len() > 0 {
                p.drop_last()
            } else {
                p
            }
        } else {
            p.push(g)
        }
    }
}

/// `dir` joined with the relative specifier `spec`, `.` and `..` resolved.
pub open spec fn join_rel_spec(dir: Seq<char>, spec: Seq<char>) -> Seq<char> {
    let start = if dir.len() == 0 {
        Seq::empty()
    } else {
        split_on(dir, '/')
    };
    join_on(apply_segments(start, split_on(spec, '/')), '/')
}

/// Join "src/app" + "../lib/x" -> "src/lib/x".
pub fn join_rel(dir: &str, spec: &str) -> (r: String)
    ensures
        r@ == join_rel_spec(dir@, spec@),
{
    let d = chars_of(dir);
    let mut parts: Vec<Vec<char>> = if d.len() == 0 {
        Vec::new()
    } else {
        split_vec(&d, '/')
    };
    let ghost start = parts@.map_values(|v: Vec<char>| v@);
    proof {
        if d.len() == 0 {
            assert(start =~= Seq::<Seq<char>>::empty());
        }
    }
    let segs = split_vec(&chars_of(spec), '/');
    let ghost sv = segs@.map_values(|v: Vec<char>| v@);
    let dot = chars_of(".");
    let dotdot = chars_of("..");
    proof {
        reveal_strlit(".");
        reveal_strlit("..");
        reveal_strlit("");
    }
    let mut i: usize = 0;
    while i < segs.len()
        invariant
            i <= segs.len(),
            sv == segs@.map_values(|v: Vec<char>| v@),
            dot@ == "."@,
            dotdot@ == ".."@,
            ""@ =~= Seq::<char>::empty(),
            parts@.map_values(|v: Vec<char>| v@) == apply_segments(start, sv.take(i as int)),
        decreases segs.len() - i,
    {
        let ghost p = apply_segments(start, sv.take(i as int));
        proof {
            assert(sv.take(i + 1).drop_last() =~= sv.take(i as int));
            assert(sv.take(i + 1).last() == segs@[i as int]@);
        }
        let g = &segs[i];
        if g.len() == 0 || chars_eq(g, &dot) {
            proof {
                if g.len() == 0 {
                    assert(g@ =~= ""@);
                }
            }
        } else if chars_eq(g, &dotdot) {
            if parts.len() > 0 {
                parts.pop();
                proof {
                    assert(parts@.map_values(|v: Vec<char>| v@) =~= p.drop_last());
                }
            }
        } else {
            proof {
                assert(g@ != ""@);
            }
            parts.push(g.clone());
            proof {
                assert(parts@.map_values(|v: Vec<char>| v@) =~= p.push(g@));
            }
        }
        i = i + 1;
    }
    proof {
        assert(sv.take(segs.len() as int) =~= sv);
    }
    string_from_chars(&join_vec(&parts, '/'))
}

/// Directory part of a path: before its last `/`, or empty.
pub open spec fn dir_of(p: Seq<char>) -> Seq<char> {
    match before_last(p, '/') {
        Some(d) => d,
        None => Seq::empty(),
    }
}

/// Candidate files for import specifier `module` seen in file `from`, in
/// the order they are tried: Python tries the dotted path as a module file,
/// as a package, and its last part as a module file; TypeScript/TSX resolve
/// relative specifiers only (others are packages), against the importing
/// file's directory, with the usual extensions and index files; Java tries
/// the dotted path as a file and its last part as a file.
pub open spec fn module_candidates_spec(module: Seq<char>, from: Seq<char>, lang: Seq<char>) -> Seq<Seq<char>> {
    if lang == "python"@ {
        let rel = trim_start_char(module, '.');
        let slashed = replace_char(rel, '.', '/');
        seq![slashed + ".py"@, slashed + "/__init__.py"@, after_last(rel, '.') + ".py"@]
    } else if lang == "typescript"@ || lang == "tsx"@ {
        if !has_prefix(module, "."@) {
            Seq::empty()
        } else {
            let j = join_rel_spec(dir_of(from), module);
            seq![j + ".ts"@, j + ".tsx"@, j + ".js"@, j + ".jsx"@, j + "/index.ts"@, j + "/index.js"@]
        }
    } else if lang == "java"@ {
        let slashed = replace_char(module, '.', '/');
        seq![slashed + ".java"@, after_last(module, '.') + ".java"@]
    } else {
        Seq::empty()
    }
}

fn with_suffix(a: &Vec<char>, lit: &str) -> (r: String)
    ensures
        r@ == a@ + lit@,
{
    let mut v: Vec<char> = Vec::new();
    let mut i: usize = 0;
    while i < a.len()
        invariant
            i <= a.len(),
            v@ == a@.take(i as int),
        decreases a.len() - i,
    {
        v.push(a[i]);
        i = i + 1;
        proof {
            assert(v@ =~= a@.take(i as int));
        }
    }
    let mut t = chars_of(lit);
    v.append(&mut t);
    proof {
        assert(a@.take(a.len() as int) =~= a@);
        assert(v@ =~= a@ + lit@);
    }
    string_from_chars(&v)
}

/// Candidate files for an import specifier (see [`module_candidates_spec`]).
pub fn module_candidates(module: &str, from_path: &str, lang: &str) -> (r: Vec<String>)
    ensures
        strings_view(r@) == module_candidates_spec(module@, from_path@, lang@),
{
    let m = chars_of(module);
    let mut out: Vec<String> = Vec::new();
    if str_eq(lang, "python") {
        let rel = trim_start_char_vec(&m, '.');
        let slashed = replace_char_vec(&rel, '.', '/');
        let last = after_last_vec(&rel, '.');
        out.push(with_suffix(&slashed, ".py"));
        out.push(with_suffix(&slashed, "/__init__.py"));
        out.push(with_suffix(&last, ".py"));
        proof {
            assert(strings_view(out@) =~= module_candidates_spec(module@, from_path@, lang@));
        }
    } else if str_eq(lang, "typescript") || str_eq(lang, "tsx") {
        if starts_with(&m, &chars_of(".")) {
            let f = chars_of(from_path);
            let dir = match before_last_vec(&f, '/') {
                Some(d) => d,
                None => Vec::new(),
            };
            let joined = chars_of(join_rel(string_from_chars(&dir).as_str(), module).as_str());
            out.push(with_suffix(&joined, ".ts"));
            out.push(with_suffix(&joined, ".tsx"));
            out.push(with_suffix(&joined, ".js"));
            out.push(with_suffix(&joined, ".jsx"));
            out.push(with_suffix(&joined, "/index.ts"));
            out.push(with_suffix(&joined, "/index.js"));
            proof {
                assert(strings_view(out@) =~= module_candidates_spec(module@, from_path@, lang@));
            }
        } else {
            proof {
                assert(strings_view(out@) =~= module_candidates_spec(module@, from_path@, lang@));
            }
        }
    } else if str_eq(lang, "java") {
        let slashed = replace_char_vec(&m, '.', '/');
        let last = after_last_vec(&m, '.');
        out.push(with_suffix(&slashed, ".java"));
        out.push(with_suffix(&last, ".java"));
        proof {
            assert(strings_view(out@) =~= module_candidates_spec(module@, from_path@, lang@));
        }
    } else {
        proof {
            assert(strings_view(out@) =~= module_candidates_spec(module@, from_path@, lang@));
        }
    }
    out
}

/// How a candidate file is looked up in the index.
#[derive(Debug, Clone, Copy, PartialEq, Eq, Structural)]
pub enum ModuleQuery {
    /// The candidate is a repo path: it exists or not.
    Exact,
    /// Up to two indexed paths ending with the candidate.
    Suffix,
}

/// TypeScript/TSX candidates are exact paths; other languages' are suffixes.
pub open spec fn module_query_spec(lang: Seq<char>) -> ModuleQuery {
    if lang == "typescript"@ || lang == "tsx"@ {
        ModuleQuery::Exact
    } else {
        ModuleQuery::Suffix
    }
}

/// How candidates of `lang` are looked up.
pub fn module_query(lang: &str) -> (r: ModuleQuery)
    ensures
        r == module_query_spec(lang@),
{
    if str_eq(lang, "typescript") || str_eq(lang, "tsx") {
        ModuleQuery::Exact
    } else {
        ModuleQuery::Suffix
    }
}

/// Index of the first path starting with `p`.
pub open spec fn first_with_prefix(hits: Seq<Seq<char>>, p: Seq<char>) -> Option<int>
    decreases hits.len(),
{
    if hits.len() == 0 {
        None
    } else {
        match first_with_prefix(hits.drop_last(), p) {
            Some(i) => Some(i),
            None => if has_prefix(hits.last(), p) {
                Some(hits.len() - 1)
            } else {
                None
            },
        }
    }
}

/// The file an import resolves to, given the lookup results for one
/// candidate: Python takes a unique hit, else the first hit in the
/// importing file's directory tree, else the first hit; TypeScript/TSX take
/// an existing candidate; Java takes only a unique hit.
pub open spec fn pick_module_hit_spec(lang: Seq<char>, from: Seq<char>, hits: Seq<Seq<char>>) -> Option<Seq<char>> {
    if lang == "python"@ {
        if hits.len() == 1 {
            Some(hits[0])
        } else {
            match first_with_prefix(hits, dir_of(from)) {
                Some(i) => Some(hits[i]),
                None => if hits.len() > 0 {
                    Some(hits[0])
                } else {
                    None
                },
            }
        }
    } else if lang == "typescript"@ || lang == "tsx"@ {
        if hits.len() > 0 {
            Some(hits[0])
        } else {
            None
        }
    } else if lang == "java"@ {
        if hits.len() == 1 {
            Some(hits[0])
        } else {
            None
        }
    } else {
        None
    }
}

/// The file an import resolves to from one candidate's lookup results (see
/// [`pick_module_hit_spec`]); `None` sends the caller to the next candidate.
pub fn pick_module_hit(lang: &str, from_path: &str, hits: &Vec<String>) -> (r: Option<String>)
    ensures
        crate::model::opt_view(r) == pick_module_hit_spec(lang@, from_path@, strings_view(hits@)),
{
    let ghost hv = strings_view(hits@);
    if str_eq(lang, "python") {
        if hits.len() == 1 {
            return Some(hits[0].clone());
        }
        let f = chars_of(from_path);
        let dir = match before_last_vec(&f, '/') {
            Some(d) => d,
            None => Vec::new(),
        };
        let mut i: usize = 0;
        while i < hits.len()
            invariant
                i <= hits.len(),
                hv == strings_view(hits@),
                lang@ == "python"@,
                hits.len() != 1,
                dir@ == dir_of(from_path@),
                first_with_prefix(hv.take(i as int), dir_of(from_path@)) is None,
            decreases hits.len() - i,
        {
            proof {
                assert(hv.take(i + 1).drop_last() =~= hv.take(i as int));
                assert(hv.take(i + 1).last() == hits@[i as int]@);
            }
            if starts_with(&chars_of(hits[i].as_str()), &dir) {
                proof {
                    assert(first_with_prefix(hv.take(i + 1), dir_of(from_path@)) == Some(i as int));
                    lemma_first_with_prefix_extends(hv, dir_of(from_path@), i as int);
                    assert(hv[i as int] == hits@[i as int]@);
                }
                return Some(hits[i].clone());
            }
            i = i + 1;
        }
        proof {
            assert(hv.take(hits.len() as int) =~= hv);
        }
        if hits.len() > 0 {
            Some(hits[0].clone())
        } else {
            None
        }
    } else if str_eq(lang, "typescript") || str_eq(lang, "tsx") {
        if hits.len() > 0 {
            Some(hits[0].clone())
        } else {
            None
        }
    } else if str_eq(lang, "java") {
        if hits.len() == 1 {
            Some(hits[0].clone())
        } else {
            None
        }
    } else {
        None
    }
}

/// A first match found in a prefix of the list stays the first match.
pub proof fn lemma_first_with_prefix_extends(hits: Seq<Seq<char>>, p: Seq<char>, i: int)
    requires
        0 <= i < hits.len(),
        first_with_prefix(hits.take(i + 1), p) == Some(i),
    ensures
        first_with_prefix(hits, p) == Some(i),
    decreases hits.len(),
{
    if hits.len() > i + 1 {
        assert(hits.drop_last().take(i + 1) =~= hits.take(i + 1));
        lemma_first_with_prefix_extends(hits.drop_last(), p, i);
    } else {
        assert(hits.take(i + 1) =~= hits);
    }
}

/// `e` is the edge of kind `kind` that chunk `src` (in file `from`) gets for
/// one of `names`: from `src` to what the name resolves to, never `src`
/// itself, weighted by the resolution.
pub open spec fn edge_for_name(
    entries: Seq<SymbolEntryView>,
    src: NodeId,
    from: Seq<char>,
    kind: EdgeKind,
    names: Seq<Seq<char>>,
    e: EdgePlan,
) -> bool {
    &&& e.src == src && e.kind == kind && e.dst != src
    &&& exists|j: int|
        0 <= j < names.len() && #[trigger] resolve_spec(entries, names[j], from) == Some((e.dst, e.weight_centi))
}

/// `e` is the `tested_by` edge a test chunk `src` gives the target of one of
/// the names it calls: from that target back to `src`, weighted 0.8.
pub open spec fn test_edge_for_name(
    entries: Seq<SymbolEntryView>,
    src: NodeId,
    from: Seq<char>,
    names: Seq<Seq<char>>,
    e: EdgePlan,
) -> bool {
    &&& e.kind == EdgeKind::TestedBy && e.dst == src && e.weight_centi == 80 && e.src != src
    &&& exists|j: int|
        0 <= j < names.len() && #[trigger] resolve_spec(entries, names[j], from) is Some && (resolve_spec(entries, names[j], from)->0).0 == e.src
}

proof fn lemma_named_edges(
    entries: Seq<SymbolEntryView>,
    src: NodeId,
    from: Seq<char>,
    kind: EdgeKind,
    tested: bool,
    names: Seq<Seq<char>>,
)
    requires
        kind != EdgeKind::TestedBy,
    ensures
        forall|k: int|
            0 <= k < named_edges(entries, src, from, kind, tested, names).len() ==> {
                let e = #[trigger] named_edges(entries, src, from, kind, tested, names)[k];
                edge_for_name(entries, src, from, kind, names, e) || (tested && test_edge_for_name(
                    entries,
                    src,
                    from,
                    names,
                    e,
                ))
            },
        forall|j: int|
            #![trigger resolve_spec(entries, names[j], from)]
            0 <= j < names.len() ==> {
                let t = resolve_spec(entries, names[j], from);
                (t is Some && (t->0).0 != src) ==> named_edges(entries, src, from, kind, tested, names).contains(
                    EdgePlan { src, kind, dst: (t->0).0, weight_centi: (t->0).1 },
                ) && (tested ==> named_edges(entries, src, from, kind, tested, names).contains(
                    EdgePlan { src: (t->0).0, kind: EdgeKind::TestedBy, dst: src, weight_centi: 80 },
                ))
            },
    decreases names.len(),
{
    if names.len() > 0 {
        let pn = names.drop_last();
        let n = names.len() - 1;
        lemma_named_edges(entries, src, from, kind, tested, pn);
        let prev = named_edges(entries, src, from, kind, tested, pn);
        let r = named_edges(entries, src, from, kind, tested, names);
        assert(names.last() == names[n]);
        // r extends prev
        assert(r.len() >= prev.len());
        assert forall|k: int| 0 <= k < prev.len() implies r[k] == prev[k] by {
            match resolve_spec(entries, names.last(), from) {
                Some(t) => if t.0 != src {
                    let e = EdgePlan { src, kind, dst: t.0, weight_centi: t.1 };
                    if tested {
                        assert(r == prev.push(e).push(EdgePlan { src: t.0, kind: EdgeKind::TestedBy, dst: src, weight_centi: 80 }));
                    }
                },
                None => {},
            }
        }
        assert forall|k: int| 0 <= k < r.len() implies {
            let e = #[trigger] r[k];
            edge_for_name(entries, src, from, kind, names, e) || (tested && test_edge_for_name(
                entries,
                src,
                from,
                names,
                e,
            ))
        } by {
            let e = r[k];
            if k < prev.len() {
                assert(e == prev[k]);
                if edge_for_name(entries, src, from, kind, pn, e) {
                    let j = choose|j: int|
                        0 <= j < pn.len() && #[trigger] resolve_spec(entries, pn[j], from) == Some((e.dst, e.weight_centi));
                    assert(pn[j] == names[j]);
                    assert(resolve_spec(entries, names[j], from) == Some((e.dst, e.weight_centi)));
                } else {
                    assert(test_edge_for_name(entries, src, from, pn, e));
                    let j = choose|j: int|
                        0 <= j < pn.len() && (#[trigger] resolve_spec(entries, pn[j], from) is Some && (resolve_spec(entries, pn[j], from)->0).0 == e.src);
                    assert(pn[j] == names[j]);
                    assert(resolve_spec(entries, names[j], from) is Some && (resolve_spec(entries, names[j], from)->0).0 == e.src);
                }
            } else {
                let t = resolve_spec(entries, names[n], from)->0;
                assert(resolve_spec(entries, names[n], from) is Some);
                if k == prev.len() {
                    assert(resolve_spec(entries, names[n], from) == Some((e.dst, e.weight_centi)));
                } else {
                    assert((resolve_spec(entries, names[n], from)->0).0 == e.src);
                }
            }
        }
        assert forall|j: int|
            #![trigger resolve_spec(entries, names[j], from)]
            0 <= j < names.len() implies {
                let t = resolve_spec(entries, names[j], from);
                (t is Some && (t->0).0 != src) ==> r.contains(EdgePlan { src, kind, dst: (t->0).0, weight_centi: (t->0).1 })
                    && (tested ==> r.contains(EdgePlan { src: (t->0).0, kind: EdgeKind::TestedBy, dst: src, weight_centi: 80 }))
            } by {
            let tt = resolve_spec(entries, names[j], from);
            if j < n {
                assert(pn[j] == names[j]);
                assert(resolve_spec(entries, pn[j], from) == resolve_spec(entries, names[j], from));
                if tt is Some && (tt->0).0 != src {
                    let t = tt->0;
                    let x = EdgePlan { src, kind, dst: t.0, weight_centi: t.1 };
                    let y = EdgePlan { src: t.0, kind: EdgeKind::TestedBy, dst: src, weight_centi: 80 };
                    assert(prev.contains(x));
                    let a = choose|a: int| 0 <= a < prev.len() && prev[a] == x;
                    assert(r[a] == x);
                    if tested {
                        assert(prev.contains(y));
                        let b = choose|b: int| 0 <= b < prev.len() && prev[b] == y;
                        assert(r[b] == y);
                    }
                }
            } else {
                if tt is Some && (tt->0).0 != src {
                    let t = tt->0;
                    let x = EdgePlan { src, kind, dst: t.0, weight_centi: t.1 };
                    assert(r[prev.len() as int] == x);
                    if tested {
                        let y = EdgePlan { src: t.0, kind: EdgeKind::TestedBy, dst: src, weight_centi: 80 };
                        assert(r[prev.len() as int + 1] == y);
                    }
                }
            }
        }
    }
}

/// The edges of a chunk are what its names resolve to, each kind from its
/// own list: a `calls` edge for a called name, an `inherits` edge for a
/// base, an `implements` edge for an implemented interface, and (from a
/// test chunk only) a `tested_by` edge back from each call target. Every
/// name that resolves to another node gives its edge.
pub proof fn lemma_chunk_edges_by_kind(entries: Seq<SymbolEntryView>, pe: PendingEdges)
    ensures
        forall|k: int|
            0 <= k < chunk_edges_spec(entries, pe).len() ==> {
                let e = #[trigger] chunk_edges_spec(entries, pe)[k];
                &&& e.kind == EdgeKind::Calls ==> edge_for_name(entries, pe.chunk, pe.path@, EdgeKind::Calls, strings_view(pe.calls@), e)
                &&& e.kind == EdgeKind::Inherits ==> edge_for_name(entries, pe.chunk, pe.path@, EdgeKind::Inherits, strings_view(pe.bases@), e)
                &&& e.kind == EdgeKind::Implements ==> edge_for_name(entries, pe.chunk, pe.path@, EdgeKind::Implements, strings_view(pe.impls@), e)
                &&& e.kind == EdgeKind::TestedBy ==> pe.is_test && test_edge_for_name(entries, pe.chunk, pe.path@, strings_view(pe.calls@), e)
                &&& e.kind == EdgeKind::Calls || e.kind == EdgeKind::Inherits || e.kind == EdgeKind::Implements || e.kind == EdgeKind::TestedBy
            },
        forall|j: int|
            #![trigger resolve_spec(entries, pe.calls@[j]@, pe.path@)]
            0 <= j < pe.calls@.len() ==> {
                let t = resolve_spec(entries, pe.calls@[j]@, pe.path@);
                (t is Some && (t->0).0 != pe.chunk) ==> chunk_edges_spec(entries, pe).contains(EdgePlan { src: pe.chunk, kind: EdgeKind::Calls, dst: (t->0).0, weight_centi: (t->0).1 })
                && (pe.is_test ==> chunk_edges_spec(entries, pe).contains(EdgePlan { src: (t->0).0, kind: EdgeKind::TestedBy, dst: pe.chunk, weight_centi: 80 }))
            },
        forall|j: int|
            #![trigger resolve_spec(entries, pe.bases@[j]@, pe.path@)]
            0 <= j < pe.bases@.len() ==> {
                let t = resolve_spec(entries, pe.bases@[j]@, pe.path@);
                (t is Some && (t->0).0 != pe.chunk) ==> chunk_edges_spec(entries, pe).contains(EdgePlan { src: pe.chunk, kind: EdgeKind::Inherits, dst: (t->0).0, weight_centi: (t->0).1 })
            },
        forall|j: int|
            #![trigger resolve_spec(entries, pe.impls@[j]@, pe.path@)]
            0 <= j < pe.impls@.len() ==> {
                let t = resolve_spec(entries, pe.impls@[j]@, pe.path@);
                (t is Some && (t->0).0 != pe.chunk) ==> chunk_edges_spec(entries, pe).contains(EdgePlan { src: pe.chunk, kind: EdgeKind::Implements, dst: (t->0).0, weight_centi: (t->0).1 })
            },
{
    let c = strings_view(pe.calls@);
    let b = strings_view(pe.bases@);
    let i = strings_view(pe.impls@);
    let ec = named_edges(entries, pe.chunk, pe.path@, EdgeKind::Calls, pe.is_test, c);
    let eb = named_edges(entries, pe.chunk, pe.path@, EdgeKind::Inherits, false, b);
    let ei = named_edges(entries, pe.chunk, pe.path@, EdgeKind::Implements, false, i);
    lemma_named_edges(entries, pe.chunk, pe.path@, EdgeKind::Calls, pe.is_test, c);
    lemma_named_edges(entries, pe.chunk, pe.path@, EdgeKind::Inherits, false, b);
    lemma_named_edges(entries, pe.chunk, pe.path@, EdgeKind::Implements, false, i);
    let r = chunk_edges_spec(entries, pe);
    assert(r == ec + eb + ei);
    assert forall|k: int| 0 <= k < r.len() implies {
        let e = #[trigger] r[k];
        &&& e.kind == EdgeKind::Calls ==> edge_for_name(entries, pe.chunk, pe.path@, EdgeKind::Calls, c, e)
        &&& e.kind == EdgeKind::Inherits ==> edge_for_name(entries, pe.chunk, pe.path@, EdgeKind::Inherits, b, e)
        &&& e.kind == EdgeKind::Implements ==> edge_for_name(entries, pe.chunk, pe.path@, EdgeKind::Implements, i, e)
        &&& e.kind == EdgeKind::TestedBy ==> pe.is_test && test_edge_for_name(entries, pe.chunk, pe.path@, c, e)
        &&& e.kind == EdgeKind::Calls || e.kind == EdgeKind::Inherits || e.kind == EdgeKind::Implements || e.kind == EdgeKind::TestedBy
    } by {
        if k < ec.len() {
            assert(r[k] == ec[k]);
        } else if k < ec.len() + eb.len() {
            assert(r[k] == eb[k - ec.len()]);
        } else {
            assert(r[k] == ei[k - ec.len() - eb.len()]);
        }
    }
    assert forall|x: EdgePlan| ec.contains(x) implies r.contains(x) by {
        let a = choose|a: int| 0 <= a < ec.len() && ec[a] == x;
        assert(r[a] == x);
    }
    assert forall|x: EdgePlan| eb.contains(x) implies r.contains(x) by {
        let a = choose|a: int| 0 <= a < eb.len() && eb[a] == x;
        assert(r[ec.len() + a] == x);
    }
    assert forall|x: EdgePlan| ei.contains(x) implies r.contains(x) by {
        let a = choose|a: int| 0 <= a < ei.len() && ei[a] == x;
        assert(r[ec.len() + eb.len() + a] == x);
    }
    assert forall|j: int|
        #![trigger resolve_spec(entries, pe.calls@[j]@, pe.path@)]
        0 <= j < pe.calls@.len() implies {
            let t = resolve_spec(entries, pe.calls@[j]@, pe.path@);
            (t is Some && (t->0).0 != pe.chunk) ==> r.contains(EdgePlan { src: pe.chunk, kind: EdgeKind::Calls, dst: (t->0).0, weight_centi: (t->0).1 })
            && (pe.is_test ==> r.contains(EdgePlan { src: (t->0).0, kind: EdgeKind::TestedBy, dst: pe.chunk, weight_centi: 80 }))
        } by {
        assert(c[j] == pe.calls@[j]@);
        let t = resolve_spec(entries, c[j], pe.path@);
        if t is Some && (t->0).0 != pe.chunk {
            assert(ec.contains(EdgePlan { src: pe.chunk, kind: EdgeKind::Calls, dst: (t->0).0, weight_centi: (t->0).1 }));
            if pe.is_test {
                assert(ec.contains(EdgePlan { src: (t->0).0, kind: EdgeKind::TestedBy, dst: pe.chunk, weight_centi: 80 }));
            }
        }
    }
    assert forall|j: int|
        #![trigger resolve_spec(entries, pe.bases@[j]@, pe.path@)]
        0 <= j < pe.bases@.len() implies {
            let t = resolve_spec(entries, pe.bases@[j]@, pe.path@);
            (t is Some && (t->0).0 != pe.chunk) ==> r.contains(EdgePlan { src: pe.chunk, kind: EdgeKind::Inherits, dst: (t->0).0, weight_centi: (t->0).1 })
        } by {
        assert(b[j] == pe.bases@[j]@);
        let t = resolve_spec(entries, b[j], pe.path@);
        if t is Some && (t->0).0 != pe.chunk {
            assert(eb.contains(EdgePlan { src: pe.chunk, kind: EdgeKind::Inherits, dst: (t->0).0, weight_centi: (t->0).1 }));
        }
    }
    assert forall|j: int|
        #![trigger resolve_spec(entries, pe.impls@[j]@, pe.path@)]
        0 <= j < pe.impls@.len() implies {
            let t = resolve_spec(entries, pe.impls@[j]@, pe.path@);
            (t is Some && (t->0).0 != pe.chunk) ==> r.contains(EdgePlan { src: pe.chunk, kind: EdgeKind::Implements, dst: (t->0).0, weight_centi: (t->0).1 })
        } by {
        assert(i[j] == pe.impls@[j]@);
        let t = resolve_spec(entries, i[j], pe.path@);
        if t is Some && (t->0).0 != pe.chunk {
            assert(ei.contains(EdgePlan { src: pe.chunk, kind: EdgeKind::Implements, dst: (t->0).0, weight_centi: (t->0).1 }));
        }
    }
}

} // verus!
