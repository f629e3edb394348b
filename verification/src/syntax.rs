//! Parsed files as preorder node lists, and the tree queries the language
//! scanners ask of them (children, fields, subtrees, node text).

use vstd::prelude::*;
use crate::model::opt_view;
use crate::plugin::Lang;
use crate::text::{byte_slice_text, str_eq, str_get, valid_byte_range};

verus! {

#[verifier::external_type_specification]
#[verifier::external_body]
pub struct ExTree(tree_sitter::Tree);

/// One node of a parsed file. Files are lists of nodes in preorder; a
/// node's `depth` is its distance from the root, and `field` the field name
/// its parent gives it.
#[derive(Debug)]
pub struct SyntaxNode {
    pub kind: String,
    pub named: bool,
    pub start_byte: usize,
    pub end_byte: usize,
    pub start_row: usize,
    pub end_row: usize,
    pub depth: usize,
    pub field: Option<String>,
}

/// Mathematical value of a [`SyntaxNode`].
pub ghost struct SyntaxNodeView {
    pub kind: Seq<char>,
    pub named: bool,
    pub start_byte: int,
    pub end_byte: int,
    pub start_row: int,
    pub end_row: int,
    pub depth: int,
    pub field: Option<Seq<char>>,
}

impl View for SyntaxNode {
    type V = SyntaxNodeView;

    open spec fn view(&self) -> SyntaxNodeView {
        SyntaxNodeView {
            kind: self.kind@,
            named: self.named,
            start_byte: self.start_byte as int,
            end_byte: self.end_byte as int,
            start_row: self.start_row as int,
            end_row: self.end_row as int,
            depth: self.depth as int,
            field: opt_view(self.field),
        }
    }
}

/// Views of a node list.
pub open spec fn nodes_view(v: Seq<SyntaxNode>) -> Seq<SyntaxNodeView> {
    v.map_values(|n: SyntaxNode| n@)
}

/// The nodes of a syntax tree, in preorder (the order of their descendant
/// index from the root), each read as plain values.
pub uninterp spec fn tree_nodes(t: tree_sitter::Tree) -> Seq<SyntaxNodeView>;

/// What tree-sitter's parser gives for `src` under the grammar of `lang`:
/// the nodes of its syntax tree in preorder, or `None` when it gives up.
pub uninterp spec fn parsed_nodes(lang: Lang, src: Seq<char>) -> Option<Seq<SyntaxNodeView>>;

/// Wrapper of `tree_sitter::Parser::parse` with the grammar of `lang`
/// (`tree_sitter_python`, `tree_sitter_typescript`'s TypeScript and TSX,
/// `tree_sitter_java`): the syntax tree, whose nodes are those named by
/// [`parsed_nodes`], or `None` exactly when that name gives none.
#[verifier::external_body]
fn ts_parse(lang: Lang, src: &str) -> (r: Option<tree_sitter::Tree>)
    ensures
        match r {
            Some(t) => parsed_nodes(lang, src@) == Some(tree_nodes(t)),
            None => parsed_nodes(lang, src@) is None,
        },
{
    let language: tree_sitter::Language = match lang {
        Lang::Python => tree_sitter_python::LANGUAGE.into(),
        Lang::TypeScript => tree_sitter_typescript::LANGUAGE_TYPESCRIPT.into(),
        Lang::Tsx => tree_sitter_typescript::LANGUAGE_TSX.into(),
        Lang::Java => tree_sitter_java::LANGUAGE.into(),
    };
    let mut parser = tree_sitter::Parser::new();
    match parser.set_language(&language) {
        Ok(()) => parser.parse(src, None),
        Err(_) => None,
    }
}

/// Wrapper of `tree_sitter::Node::descendant_count` on the root: the number
/// of nodes of the tree, itself included.
#[verifier::external_body]
fn ts_node_count(tree: &tree_sitter::Tree) -> (r: usize)
    ensures
        r == tree_nodes(*tree).len(),
{
    tree.root_node().descendant_count()
}

/// Wrapper of `tree_sitter::TreeCursor::goto_descendant`: the `i`-th node of
/// the tree in preorder, read as plain values (kind, whether named, byte
/// range, rows, cursor depth, field name).
#[verifier::external_body]
fn ts_node(tree: &tree_sitter::Tree, i: usize) -> (r: SyntaxNode)
    requires
        i < tree_nodes(*tree).len(),
    ensures
        r@ == tree_nodes(*tree)[i as int],
{
    let mut cursor = tree.walk();
    cursor.goto_descendant(i);
    let n = cursor.node();
    SyntaxNode {
        kind: n.kind().to_string(),
        named: n.is_named(),
        start_byte: n.start_byte(),
        end_byte: n.end_byte(),
        start_row: n.start_position().row,
        end_row: n.end_position().row,
        depth: cursor.depth() as usize,
        field: cursor.field_name().map(|f| f.to_string()),
    }
}

/// Parse `src` with the grammar of `lang` and list its nodes in preorder
/// (see [`parsed_nodes`]); `None` when the parser gives up.
pub fn parse(lang: Lang, src: &str) -> (r: Option<Vec<SyntaxNode>>)
    ensures
        match r {
            Some(v) => parsed_nodes(lang, src@) == Some(nodes_view(v@)),
            None => parsed_nodes(lang, src@) is None,
        },
{
    let tree = match ts_parse(lang, src) {
        Some(t) => t,
        None => return None,
    };
    let n = ts_node_count(&tree);
    let mut out: Vec<SyntaxNode> = Vec::new();
    let mut i: usize = 0;
    while i < n
        invariant
            i <= n,
            n == tree_nodes(tree).len(),
            nodes_view(out@) == tree_nodes(tree).take(i as int),
        decreases n - i,
    {
        let ghost before = out@;
        out.push(ts_node(&tree, i));
        i = i + 1;
        proof {
            assert(nodes_view(out@) =~= nodes_view(before).push(tree_nodes(tree)[i - 1]));
            assert(tree_nodes(tree).take(i as int) =~= tree_nodes(tree).take(i - 1).push(tree_nodes(tree)[i - 1]));
        }
    }
    proof {
        assert(tree_nodes(tree).take(n as int) =~= tree_nodes(tree));
    }
    Some(out)
}

/// End of the subtree of a node at depth `d`, searching from `k`: the first
/// index at or after `k` whose depth is at most `d`, or the list's end.
pub open spec fn end_from(t: Seq<SyntaxNodeView>, d: int, k: int) -> int
    decreases t.len() - k,
{
    if k < 0 || k >= t.len() {
        t.len() as int
    } else if t[k].depth <= d {
        k
    } else {
        end_from(t, d, k + 1)
    }
}

/// One past the last node of the subtree rooted at `i`.
pub open spec fn subtree_end(t: Seq<SyntaxNodeView>, i: int) -> int {
    end_from(t, t[i].depth, i + 1)
}

/// Children of `i` among the nodes before `hi`: nodes one level deeper.
pub open spec fn kids(t: Seq<SyntaxNodeView>, i: int, hi: int) -> Seq<int>
    decreases hi - i,
{
    if hi <= i + 1 {
        Seq::empty()
    } else {
        let r = kids(t, i, hi - 1);
        if t[hi - 1].depth == t[i].depth + 1 {
            r.push(hi - 1)
        } else {
            r
        }
    }
}

/// The children of node `i`, in order.
pub open spec fn children(t: Seq<SyntaxNodeView>, i: int) -> Seq<int> {
    kids(t, i, subtree_end(t, i))
}

/// The named ones among indices `cs`, in order.
pub open spec fn only_named(t: Seq<SyntaxNodeView>, cs: Seq<int>) -> Seq<int>
    decreases cs.len(),
{
    if cs.len() == 0 {
        Seq::empty()
    } else {
        let r = only_named(t, cs.drop_last());
        if t[cs.last()].named {
            r.push(cs.last())
        } else {
            r
        }
    }
}

/// The named children of node `i`, in order.
pub open spec fn named_children(t: Seq<SyntaxNodeView>, i: int) -> Seq<int> {
    only_named(t, children(t, i))
}

/// The first of indices `cs` whose field is `f`.
pub open spec fn first_with_field(t: Seq<SyntaxNodeView>, cs: Seq<int>, f: Seq<char>) -> Option<int>
    decreases cs.len(),
{
    if cs.len() == 0 {
        None
    } else {
        match first_with_field(t, cs.drop_last(), f) {
            Some(x) => Some(x),
            None => if t[cs.last()].field == Some(f) {
                Some(cs.last())
            } else {
                None
            },
        }
    }
}

/// The child of `i` in field `f` (the first, when several are).
pub open spec fn child_by_field(t: Seq<SyntaxNodeView>, i: int, f: Seq<char>) -> Option<int> {
    first_with_field(t, children(t, i), f)
}

/// The subtree end lies after the node and within the list.
pub proof fn lemma_end_from_bounds(t: Seq<SyntaxNodeView>, d: int, k: int)
    requires
        0 <= k,
    ensures
        k <= end_from(t, d, k) <= t.len() || (k > t.len() && end_from(t, d, k) == t.len()),
        forall|m: int| k <= m < end_from(t, d, k) ==> #[trigger] t[m].depth > d,
        end_from(t, d, k) < t.len() ==> t[end_from(t, d, k)].depth <= d,
    decreases t.len() - k,
{
    if k < t.len() && t[k].depth > d {
        lemma_end_from_bounds(t, d, k + 1);
    }
}

/// Children lie strictly after the node and before the bound, in
/// increasing order.
pub proof fn lemma_kids_bounds(t: Seq<SyntaxNodeView>, i: int, hi: int)
    ensures
        forall|k: int| 0 <= k < kids(t, i, hi).len() ==> i < #[trigger] kids(t, i, hi)[k] < hi,
        kids(t, i, hi).len() <= if hi > i { hi - i } else { 0 },
    decreases hi - i,
{
    if hi > i + 1 {
        lemma_kids_bounds(t, i, hi - 1);
    }
}

/// Named children are among the given indices.
pub proof fn lemma_only_named_sub(t: Seq<SyntaxNodeView>, cs: Seq<int>)
    ensures
        forall|k: int| 0 <= k < only_named(t, cs).len() ==> cs.contains(#[trigger] only_named(t, cs)[k]),
        only_named(t, cs).len() <= cs.len(),
    decreases cs.len(),
{
    if cs.len() > 0 {
        lemma_only_named_sub(t, cs.drop_last());
        let r = only_named(t, cs.drop_last());
        assert forall|k: int| 0 <= k < only_named(t, cs).len() implies cs.contains(
            #[trigger] only_named(t, cs)[k],
        ) by {
            if k < r.len() {
                assert(cs.drop_last().contains(r[k]));
                let m = choose|m: int| 0 <= m < cs.drop_last().len() && cs.drop_last()[m] == r[k];
                assert(cs[m] == r[k]);
            } else {
                assert(cs[cs.len() - 1] == cs.last());
            }
        }
    }
}

/// A field child is among the given indices.
pub proof fn lemma_first_with_field_in(t: Seq<SyntaxNodeView>, cs: Seq<int>, f: Seq<char>)
    ensures
        first_with_field(t, cs, f) matches Some(x) ==> cs.contains(x),
    decreases cs.len(),
{
    if cs.len() > 0 {
        lemma_first_with_field_in(t, cs.drop_last(), f);
        match first_with_field(t, cs.drop_last(), f) {
            Some(x) => {
                let m = choose|m: int| 0 <= m < cs.drop_last().len() && cs.drop_last()[m] == x;
                assert(cs[m] == x);
            },
            None => {
                assert(cs[cs.len() - 1] == cs.last());
            },
        }
    }
}

/// End of the subtree rooted at `i`.
pub fn subtree_end_exec(t: &Vec<SyntaxNode>, i: usize) -> (r: usize)
    requires
        i < t.len(),
    ensures
        r == subtree_end(nodes_view(t@), i as int),
        i < r <= t.len(),
{
    let ghost tv = nodes_view(t@);
    let d = t[i].depth;
    let mut k: usize = i + 1;
    while k < t.len() && t[k].depth > d
        invariant
            tv == nodes_view(t@),
            i < k <= t.len(),
            d == tv[i as int].depth,
            end_from(tv, d as int, (i + 1) as int) == end_from(tv, d as int, k as int),
        decreases t.len() - k,
    {
        proof {
            assert(tv[k as int].depth == t@[k as int].depth);
        }
        k = k + 1;
    }
    proof {
        if k < t.len() {
            assert(tv[k as int].depth == t@[k as int].depth);
        }
    }
    k
}

/// Children of node `i`, in order.
pub fn children_exec(t: &Vec<SyntaxNode>, i: usize) -> (r: Vec<usize>)
    requires
        i < t.len(),
    ensures
        r@.map_values(|x: usize| x as int) == children(nodes_view(t@), i as int),
        forall|k: int| 0 <= k < r@.len() ==> i < #[trigger] r@[k] < t.len(),
{
    let ghost tv = nodes_view(t@);
    let end = subtree_end_exec(t, i);
    let d = t[i].depth;
    let mut out: Vec<usize> = Vec::new();
    let mut k: usize = i + 1;
    proof {
        assert(out@.map_values(|x: usize| x as int) =~= kids(tv, i as int, k as int));
    }
    while k < end
        invariant
            tv == nodes_view(t@),
            i < k <= end <= t.len(),
            d == tv[i as int].depth,
            out@.map_values(|x: usize| x as int) == kids(tv, i as int, k as int),
            forall|q: int| 0 <= q < out@.len() ==> i < #[trigger] out@[q] < k,
        decreases end - k,
    {
        proof {
            assert(tv[k as int].depth == t@[k as int].depth);
        }
        if d < usize::MAX && t[k].depth == d + 1 {
            out.push(k);
        }
        k = k + 1;
        proof {
            assert(out@.map_values(|x: usize| x as int) =~= kids(tv, i as int, k as int));
        }
    }
    out
}

/// Named children of node `i`, in order.
pub fn named_children_exec(t: &Vec<SyntaxNode>, i: usize) -> (r: Vec<usize>)
    requires
        i < t.len(),
    ensures
        r@.map_values(|x: usize| x as int) == named_children(nodes_view(t@), i as int),
        forall|k: int| 0 <= k < r@.len() ==> i < #[trigger] r@[k] < t.len(),
{
    let ghost tv = nodes_view(t@);
    let cs = children_exec(t, i);
    let ghost cv = cs@.map_values(|x: usize| x as int);
    let mut out: Vec<usize> = Vec::new();
    let mut k: usize = 0;
    while k < cs.len()
        invariant
            tv == nodes_view(t@),
            cv == cs@.map_values(|x: usize| x as int),
            k <= cs.len(),
            forall|q: int| 0 <= q < cs@.len() ==> i < #[trigger] cs@[q] < t.len(),
            out@.map_values(|x: usize| x as int) == only_named(tv, cv.take(k as int)),
            forall|q: int| 0 <= q < out@.len() ==> i < #[trigger] out@[q] < t.len(),
        decreases cs.len() - k,
    {
        proof {
            assert(cv.take(k + 1).drop_last() =~= cv.take(k as int));
            assert(cv.take(k + 1).last() == cs@[k as int] as int);
            assert(tv[cs@[k as int] as int].named == t@[cs@[k as int] as int].named);
        }
        let c = cs[k];
        if t[c].named {
            out.push(c);
        }
        k = k + 1;
        proof {
            assert(out@.map_values(|x: usize| x as int) =~= only_named(tv, cv.take(k as int)));
        }
    }
    proof {
        assert(cv.take(cs.len() as int) =~= cv);
    }
    out
}

/// The child of node `i` in field `f`, if any.
pub fn child_by_field_exec(t: &Vec<SyntaxNode>, i: usize, f: &str) -> (r: Option<usize>)
    requires
        i < t.len(),
    ensures
        match r {
            Some(x) => child_by_field(nodes_view(t@), i as int, f@) == Some(x as int) && i < x < t.len(),
            None => child_by_field(nodes_view(t@), i as int, f@) is None,
        },
{
    let ghost tv = nodes_view(t@);
    let cs = children_exec(t, i);
    let ghost cv = cs@.map_values(|x: usize| x as int);
    let mut k: usize = 0;
    while k < cs.len()
        invariant
            tv == nodes_view(t@),
            cv == cs@.map_values(|x: usize| x as int),
            k <= cs.len(),
            cv == children(tv, i as int),
            forall|q: int| 0 <= q < cs@.len() ==> i < #[trigger] cs@[q] < t.len(),
            first_with_field(tv, cv.take(k as int), f@) is None,
        decreases cs.len() - k,
    {
        proof {
            assert(cv.take(k + 1).drop_last() =~= cv.take(k as int));
            assert(cv.take(k + 1).last() == cs@[k as int] as int);
            assert(tv[cs@[k as int] as int].field == opt_view(t@[cs@[k as int] as int].field));
        }
        let c = cs[k];
        let hit = match &t[c].field {
            Some(name) => str_eq(name.as_str(), f),
            None => false,
        };
        if hit {
            proof {
                assert(first_with_field(tv, cv.take(k + 1), f@) == Some(c as int));
                assert(cv[k as int] == c as int);
                lemma_first_with_field_prefix(tv, cv, f@, k as int);
            }
            return Some(c);
        }
        k = k + 1;
    }
    proof {
        assert(cv.take(cs.len() as int) =~= cv);
    }
    None
}

/// A first match in a prefix stays the first match.
pub proof fn lemma_first_with_field_prefix(t: Seq<SyntaxNodeView>, cs: Seq<int>, f: Seq<char>, k: int)
    requires
        0 <= k < cs.len(),
        first_with_field(t, cs.take(k + 1), f) == Some(cs[k]),
    ensures
        first_with_field(t, cs, f) == Some(cs[k]),
    decreases cs.len(),
{
    if cs.len() > k + 1 {
        assert(cs.drop_last().take(k + 1) =~= cs.take(k + 1));
        lemma_first_with_field_prefix(t, cs.drop_last(), f, k);
    } else {
        assert(cs.take(k + 1) =~= cs);
    }
}

/// Text at byte range `a..b` of `s`, or empty when that range is not a
/// valid one (`str::get(..).unwrap_or("")`).
pub open spec fn slice_str(s: Seq<char>, a: int, b: int) -> Seq<char> {
    if valid_byte_range(s, a, b) {
        byte_slice_text(s, a, b)
    } else {
        Seq::empty()
    }
}

/// Source text of node `i`.
pub open spec fn node_str(t: Seq<SyntaxNodeView>, s: Seq<char>, i: int) -> Seq<char> {
    slice_str(s, t[i].start_byte, t[i].end_byte)
}

/// Text at byte range `a..b` of `src` (see [`slice_str`]).
pub fn slice_text<'a>(src: &'a str, a: usize, b: usize) -> (r: &'a str)
    ensures
        r@ == slice_str(src@, a as int, b as int),
{
    proof {
        reveal_strlit("");
    }
    match str_get(src, a, b) {
        Some(x) => x,
        None => "",
    }
}

/// Source text of node `i`.
pub fn node_text<'a>(t: &Vec<SyntaxNode>, src: &'a str, i: usize) -> (r: &'a str)
    requires
        i < t.len(),
    ensures
        r@ == node_str(nodes_view(t@), src@, i as int),
{
    slice_text(src, t[i].start_byte, t[i].end_byte)
}

/// Line number (1-based) of a row.
pub open spec fn line_no(row: int) -> int {
    if row < usize::MAX {
        row + 1
    } else {
        0
    }
}

/// Line number (1-based) of a row.
pub fn line_no_exec(row: usize) -> (r: usize)
    ensures
        r == line_no(row as int),
{
    if row < usize::MAX {
        row + 1
    } else {
        0
    }
}

/// Whether node `i` has kind `k`.
pub(crate) fn kind_is(t: &Vec<SyntaxNode>, i: usize, k: &str) -> (r: bool)
    requires
        i < t.len(),
    ensures
        r == (nodes_view(t@)[i as int].kind == k@),
{
    str_eq(t[i].kind.as_str(), k)
}

} // verus!
