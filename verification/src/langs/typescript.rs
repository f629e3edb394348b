//! TypeScript and JavaScript (TSX grammar): top-level functions, classes,
//! interfaces, enums, type aliases, function-valued variables, and imports.

use vstd::prelude::*;
use crate::model::opt_view;
use crate::plan::strings_view;
use crate::plugin::{decls_view, Decl, DeclView, FileScan};
use crate::syntax::{
    kind_is, child_by_field, child_by_field_exec, children, children_exec, line_no, line_no_exec,
    named_children, named_children_exec, node_str, node_text, nodes_view, slice_str, slice_text,
    subtree_end, subtree_end_exec, SyntaxNode, SyntaxNodeView,
};
use crate::text::{
    chars_of, collapse_spec, collapse_ws, dedup_adjacent, dedup_adjacent_vec, lemma_sorted_distinct,
    lines_of, lines_spec, push_chars, push_vec, sort_dedup, sorted_distinct,
    string_from_chars, trim_end_quotes, trim_quotes_vec, trim_start_quotes,
};

verus! {

/// The simple name a `call_expression` calls: an identifier, or the
/// property of a member access.
pub open spec fn ts_call_name(t: Seq<SyntaxNodeView>, s: Seq<char>, n: int) -> Option<Seq<char>> {
    if t[n].kind != "call_expression"@ {
        None
    } else {
        match child_by_field(t, n, "function"@) {
            Some(f) => if t[f].kind == "identifier"@ {
                Some(node_str(t, s, f))
            } else if t[f].kind == "member_expression"@ {
                match child_by_field(t, f, "property"@) {
                    Some(p) => Some(node_str(t, s, p)),
                    None => None,
                }
            } else {
                None
            },
            None => None,
        }
    }
}

/// Names called by the nodes `lo..hi`, in preorder.
pub open spec fn ts_calls_in(t: Seq<SyntaxNodeView>, s: Seq<char>, lo: int, hi: int) -> Seq<Seq<char>>
    decreases hi - lo,
{
    if hi <= lo {
        Seq::empty()
    } else {
        let r = ts_calls_in(t, s, lo, hi - 1);
        match ts_call_name(t, s, hi - 1) {
            Some(x) => r.push(x),
            None => r,
        }
    }
}

/// The distinct names called within node `n`, sorted.
pub open spec fn ts_calls(t: Seq<SyntaxNodeView>, s: Seq<char>, n: int) -> Seq<Seq<char>> {
    sorted_distinct(ts_calls_in(t, s, n, subtree_end(t, n)))
}

/// Start of the body of `n` (its end when it has none).
pub open spec fn body_start(t: Seq<SyntaxNodeView>, n: int) -> int {
    match child_by_field(t, n, "body"@) {
        Some(b) => t[b].start_byte,
        None => t[n].end_byte,
    }
}

/// A function declaration: header up to the body, elided body.
pub open spec fn ts_function_decl(t: Seq<SyntaxNodeView>, s: Seq<char>, n: int, outer: int) -> Option<DeclView> {
    match child_by_field(t, n, "name"@) {
        Some(nm) => Some(
            DeclView {
                kind: "function"@,
                name: node_str(t, s, nm),
                byte_start: t[outer].start_byte,
                byte_end: t[outer].end_byte,
                line_start: line_no(t[outer].start_row),
                line_end: line_no(t[outer].end_row),
                signature: collapse_spec(slice_str(s, t[outer].start_byte, body_start(t, n)))
                    + " ...\n"@,
                calls: ts_calls(t, s, n),
                bases: Seq::empty(),
                impls: Seq::empty(),
            },
        ),
        None => None,
    }
}

/// Member lines of a class skeleton: method headers with elided bodies,
/// public fields collapsed to one line.
pub open spec fn ts_member_lines(t: Seq<SyntaxNodeView>, s: Seq<char>, ms: Seq<int>) -> Seq<char>
    decreases ms.len(),
{
    if ms.len() == 0 {
        Seq::empty()
    } else {
        let r = ts_member_lines(t, s, ms.drop_last());
        let m = ms.last();
        if t[m].kind == "method_definition"@ {
            r + "  "@ + collapse_spec(slice_str(s, t[m].start_byte, body_start(t, m))) + " ...\n"@
        } else if t[m].kind == "public_field_definition"@ {
            r + "  "@ + collapse_spec(node_str(t, s, m)) + "\n"@
        } else {
            r
        }
    }
}

/// The last node before `k` at depth `d`.
pub open spec fn last_at_depth(t: Seq<SyntaxNodeView>, d: int, k: int) -> Option<int>
    decreases k,
{
    if k <= 0 || k > t.len() {
        None
    } else if t[k - 1].depth == d {
        Some(k - 1)
    } else {
        last_at_depth(t, d, k - 1)
    }
}

/// Parent of node `j`: the last node before it one level up.
pub open spec fn parent_of(t: Seq<SyntaxNodeView>, j: int) -> Option<int> {
    last_at_depth(t, t[j].depth - 1, j)
}

/// Which heritage clause encloses node `p` or its nearest ancestors: 1 for
/// `extends`, 2 for `implements`, 0 when the class heritage is reached
/// first or there is none.
pub open spec fn clause_from(t: Seq<SyntaxNodeView>, p: int) -> int
    decreases p,
{
    if p < 0 || p >= t.len() {
        0
    } else if t[p].kind == "extends_clause"@ {
        1
    } else if t[p].kind == "implements_clause"@ {
        2
    } else if t[p].kind == "class_heritage"@ {
        0
    } else {
        match parent_of(t, p) {
            Some(q) => if 0 <= q < p {
                clause_from(t, q)
            } else {
                0
            },
            None => 0,
        }
    }
}

/// Names in the heritage nodes `lo..hi` under the clause `which` (1 for
/// extends, 2 for implements), in preorder.
pub open spec fn ts_heritage_in(t: Seq<SyntaxNodeView>, s: Seq<char>, lo: int, hi: int, which: int) -> Seq<Seq<char>>
    decreases hi - lo,
{
    if hi <= lo {
        Seq::empty()
    } else {
        let r = ts_heritage_in(t, s, lo, hi - 1, which);
        let n = hi - 1;
        if (t[n].kind == "identifier"@ || t[n].kind == "type_identifier"@) && match parent_of(t, n) {
            Some(p) => clause_from(t, p) == which,
            None => false,
        } {
            r.push(node_str(t, s, n))
        } else {
            r
        }
    }
}

/// Names under the class heritage children of a class, in order.
pub open spec fn ts_heritage(t: Seq<SyntaxNodeView>, s: Seq<char>, cs: Seq<int>, which: int) -> Seq<Seq<char>>
    decreases cs.len(),
{
    if cs.len() == 0 {
        Seq::empty()
    } else {
        let r = ts_heritage(t, s, cs.drop_last(), which);
        let c = cs.last();
        if t[c].kind == "class_heritage"@ {
            r + ts_heritage_in(t, s, c, subtree_end(t, c), which)
        } else {
            r
        }
    }
}

/// A class declaration: header, member skeleton, bases and interfaces.
pub open spec fn ts_class_decl(t: Seq<SyntaxNodeView>, s: Seq<char>, n: int, outer: int) -> Option<DeclView> {
    match (child_by_field(t, n, "name"@), child_by_field(t, n, "body"@)) {
        (Some(nm), Some(body)) => Some(
            DeclView {
                kind: "class"@,
                name: node_str(t, s, nm),
                byte_start: t[outer].start_byte,
                byte_end: t[outer].end_byte,
                line_start: line_no(t[outer].start_row),
                line_end: line_no(t[outer].end_row),
                signature: collapse_spec(slice_str(s, t[outer].start_byte, t[body].start_byte))
                    + " {\n"@ + ts_member_lines(t, s, named_children(t, body)) + "}\n"@,
                calls: ts_calls(t, s, n),
                bases: dedup_adjacent(ts_heritage(t, s, children(t, n), 1)),
                impls: dedup_adjacent(ts_heritage(t, s, children(t, n), 2)),
            },
        ),
        _ => None,
    }
}

/// An interface, enum or type alias: short ones (at most 12 lines) are
/// their own signature; longer ones show their first line collapsed.
pub open spec fn ts_typeish_decl(t: Seq<SyntaxNodeView>, s: Seq<char>, n: int, outer: int, kind: Seq<char>) -> Option<DeclView> {
    match child_by_field(t, n, "name"@) {
        Some(nm) => {
            let text = node_str(t, s, outer);
            let ls = lines_spec(text);
            Some(
                DeclView {
                    kind,
                    name: node_str(t, s, nm),
                    byte_start: t[outer].start_byte,
                    byte_end: t[outer].end_byte,
                    line_start: line_no(t[outer].start_row),
                    line_end: line_no(t[outer].end_row),
                    signature: if ls.len() <= 12 {
                        text + "\n"@
                    } else {
                        collapse_spec(ls[0]) + " ...\n"@
                    },
                    calls: Seq::empty(),
                    bases: Seq::empty(),
                    impls: Seq::empty(),
                },
            )
        },
        None => None,
    }
}

/// A variable declarator bound to a function value, as a function
/// declaration spanning the whole statement `outer`.
pub open spec fn ts_declarator(t: Seq<SyntaxNodeView>, s: Seq<char>, dc: int, outer: int) -> Option<DeclView> {
    if t[dc].kind != "variable_declarator"@ {
        None
    } else {
        match (child_by_field(t, dc, "value"@), child_by_field(t, dc, "name"@)) {
            (Some(v), Some(nm)) => if t[v].kind == "arrow_function"@ || t[v].kind
                == "function_expression"@ || t[v].kind == "function"@ {
                Some(
                    DeclView {
                        kind: "function"@,
                        name: node_str(t, s, nm),
                        byte_start: t[outer].start_byte,
                        byte_end: t[outer].end_byte,
                        line_start: line_no(t[outer].start_row),
                        line_end: line_no(t[outer].end_row),
                        signature: collapse_spec(slice_str(s, t[outer].start_byte, body_start(t, v)))
                            + " ...\n"@,
                        calls: ts_calls(t, s, v),
                        bases: Seq::empty(),
                        impls: Seq::empty(),
                    },
                )
            } else {
                None
            },
            _ => None,
        }
    }
}

/// The first declarator of a variable statement bound to a function value
/// (one chunk per statement).
pub open spec fn ts_first_declarator(t: Seq<SyntaxNodeView>, s: Seq<char>, ds: Seq<int>, outer: int) -> Option<DeclView>
    decreases ds.len(),
{
    if ds.len() == 0 {
        None
    } else {
        match ts_first_declarator(t, s, ds.drop_last(), outer) {
            Some(d) => Some(d),
            None => ts_declarator(t, s, ds.last(), outer),
        }
    }
}

/// A declaration as a list of at most one.
pub open spec fn opt_seq(d: Option<DeclView>) -> Seq<DeclView> {
    match d {
        Some(x) => seq![x],
        None => Seq::empty(),
    }
}

/// Declarations and imports of a top-level statement `n`, whose chunk spans
/// `outer` (the export statement around an exported declaration).
pub open spec fn ts_top(t: Seq<SyntaxNodeView>, s: Seq<char>, n: int, outer: int) -> (Seq<DeclView>, Seq<Seq<char>>)
    decreases t.len() - n,
{
    if n < 0 || n >= t.len() {
        (Seq::empty(), Seq::empty())
    } else {
        let k = t[n].kind;
        if k == "import_statement"@ {
            (
                Seq::empty(),
                match child_by_field(t, n, "source"@) {
                    Some(x) => seq![trim_end_quotes(trim_start_quotes(node_str(t, s, x)))],
                    None => Seq::empty(),
                },
            )
        } else if k == "export_statement"@ {
            match child_by_field(t, n, "declaration"@) {
                Some(d) => if n < d < t.len() {
                    ts_top(t, s, d, n)
                } else {
                    (Seq::empty(), Seq::empty())
                },
                None => (Seq::empty(), Seq::empty()),
            }
        } else if k == "function_declaration"@ || k == "generator_function_declaration"@ {
            (opt_seq(ts_function_decl(t, s, n, outer)), Seq::empty())
        } else if k == "class_declaration"@ || k == "abstract_class_declaration"@ {
            (opt_seq(ts_class_decl(t, s, n, outer)), Seq::empty())
        } else if k == "interface_declaration"@ {
            (opt_seq(ts_typeish_decl(t, s, n, outer, "interface"@)), Seq::empty())
        } else if k == "enum_declaration"@ {
            (opt_seq(ts_typeish_decl(t, s, n, outer, "enum"@)), Seq::empty())
        } else if k == "type_alias_declaration"@ {
            (opt_seq(ts_typeish_decl(t, s, n, outer, "type"@)), Seq::empty())
        } else if k == "lexical_declaration"@ || k == "variable_declaration"@ {
            (opt_seq(ts_first_declarator(t, s, named_children(t, n), outer)), Seq::empty())
        } else {
            (Seq::empty(), Seq::empty())
        }
    }
}

/// Declarations and imports of the top-level statements `cs`, in order.
pub open spec fn ts_scan_of(t: Seq<SyntaxNodeView>, s: Seq<char>, cs: Seq<int>) -> (Seq<DeclView>, Seq<Seq<char>>)
    decreases cs.len(),
{
    if cs.len() == 0 {
        (Seq::empty(), Seq::empty())
    } else {
        let (ds, is) = ts_scan_of(t, s, cs.drop_last());
        let (d2, i2) = ts_top(t, s, cs.last(), cs.last());
        (ds + d2, is + i2)
    }
}

/// The scan of a parsed TypeScript/JavaScript file: over the root's named
/// children.
pub open spec fn ts_scan(t: Seq<SyntaxNodeView>, s: Seq<char>) -> (Seq<DeclView>, Seq<Seq<char>>) {
    if t.len() == 0 {
        (Seq::empty(), Seq::empty())
    } else {
        ts_scan_of(t, s, named_children(t, 0))
    }
}

fn ts_call_name_exec(t: &Vec<SyntaxNode>, src: &str, n: usize) -> (r: Option<String>)
    requires
        n < t.len(),
    ensures
        opt_view(r) == ts_call_name(nodes_view(t@), src@, n as int),
{
    if !kind_is(t, n, "call_expression") {
        return None;
    }
    match child_by_field_exec(t, n, "function") {
        Some(f) => if kind_is(t, f, "identifier") {
            Some(node_text(t, src, f).to_string())
        } else if kind_is(t, f, "member_expression") {
            match child_by_field_exec(t, f, "property") {
                Some(p) => Some(node_text(t, src, p).to_string()),
                None => None,
            }
        } else {
            None
        },
        None => None,
    }
}

fn ts_calls_exec(t: &Vec<SyntaxNode>, src: &str, n: usize) -> (r: Vec<String>)
    requires
        n < t.len(),
    ensures
        strings_view(r@) == ts_calls(nodes_view(t@), src@, n as int),
{
    let ghost tv = nodes_view(t@);
    let hi = subtree_end_exec(t, n);
    let mut out: Vec<String> = Vec::new();
    let mut k: usize = n;
    while k < hi
        invariant
            tv == nodes_view(t@),
            n <= k <= hi <= t.len(),
            strings_view(out@) == ts_calls_in(tv, src@, n as int, k as int),
        decreases hi - k,
    {
        match ts_call_name_exec(t, src, k) {
            Some(x) => out.push(x),
            None => {},
        }
        k = k + 1;
        proof {
            assert(strings_view(out@) =~= ts_calls_in(tv, src@, n as int, k as int));
        }
    }
    let calls = sort_dedup(&out);
    proof {
        lemma_sorted_distinct(strings_view(calls@), strings_view(out@));
    }
    calls
}

fn body_start_exec(t: &Vec<SyntaxNode>, n: usize) -> (r: usize)
    requires
        n < t.len(),
    ensures
        r == body_start(nodes_view(t@), n as int),
{
    match child_by_field_exec(t, n, "body") {
        Some(b) => t[b].start_byte,
        None => t[n].end_byte,
    }
}

fn header_with(src: &str, start: usize, end: usize, tail: &str) -> (r: String)
    ensures
        r@ == collapse_spec(slice_str(src@, start as int, end as int)) + tail@,
{
    let mut v = chars_of(collapse_ws(slice_text(src, start, end)).as_str());
    push_chars(&mut v, tail);
    string_from_chars(&v)
}

fn ts_function_decl_exec(t: &Vec<SyntaxNode>, src: &str, n: usize, outer: usize) -> (r: Option<Decl>)
    requires
        n < t.len(),
        outer < t.len(),
    ensures
        match r {
            Some(d) => ts_function_decl(nodes_view(t@), src@, n as int, outer as int) == Some(d@),
            None => ts_function_decl(nodes_view(t@), src@, n as int, outer as int) is None,
        },
{
    let nm = match child_by_field_exec(t, n, "name") {
        Some(x) => x,
        None => return None,
    };
    let d = Decl {
        kind: "function",
        name: node_text(t, src, nm).to_string(),
        byte_start: t[outer].start_byte,
        byte_end: t[outer].end_byte,
        line_start: line_no_exec(t[outer].start_row),
        line_end: line_no_exec(t[outer].end_row),
        signature: header_with(src, t[outer].start_byte, body_start_exec(t, n), " ...\n"),
        calls: ts_calls_exec(t, src, n),
        bases: Vec::new(),
        impls: Vec::new(),
    };
    proof {
        assert(strings_view(d.bases@) =~= Seq::<Seq<char>>::empty());
        assert(strings_view(d.impls@) =~= Seq::<Seq<char>>::empty());
        assert(d@ == ts_function_decl(nodes_view(t@), src@, n as int, outer as int)->0);
    }
    Some(d)
}

fn ts_member_lines_exec(t: &Vec<SyntaxNode>, src: &str, body: usize) -> (r: Vec<char>)
    requires
        body < t.len(),
    ensures
        r@ == ts_member_lines(nodes_view(t@), src@, named_children(nodes_view(t@), body as int)),
{
    let ghost tv = nodes_view(t@);
    let ms = named_children_exec(t, body);
    let ghost mv = ms@.map_values(|x: usize| x as int);
    let mut v: Vec<char> = Vec::new();
    let mut k: usize = 0;
    while k < ms.len()
        invariant
            tv == nodes_view(t@),
            mv == ms@.map_values(|x: usize| x as int),
            k <= ms.len(),
            forall|q: int| 0 <= q < ms@.len() ==> #[trigger] ms@[q] < t.len(),
            v@ == ts_member_lines(tv, src@, mv.take(k as int)),
        decreases ms.len() - k,
    {
        let m = ms[k];
        proof {
            assert(mv.take(k + 1).drop_last() =~= mv.take(k as int));
            assert(mv.take(k + 1).last() == m as int);
        }
        if kind_is(t, m, "method_definition") {
            push_chars(&mut v, "  ");
            push_chars(&mut v, header_with(src, t[m].start_byte, body_start_exec(t, m), " ...\n").as_str());
        } else if kind_is(t, m, "public_field_definition") {
            push_chars(&mut v, "  ");
            push_chars(&mut v, collapse_ws(node_text(t, src, m)).as_str());
            push_chars(&mut v, "\n");
        }
        k = k + 1;
        proof {
            assert(v@ =~= ts_member_lines(tv, src@, mv.take(k as int)));
        }
    }
    proof {
        assert(mv.take(ms.len() as int) =~= mv);
    }
    v
}

fn parent_exec(t: &Vec<SyntaxNode>, j: usize) -> (r: Option<usize>)
    requires
        j < t.len(),
    ensures
        match r {
            Some(p) => parent_of(nodes_view(t@), j as int) == Some(p as int) && p < j,
            None => parent_of(nodes_view(t@), j as int) is None,
        },
{
    let ghost tv = nodes_view(t@);
    if t[j].depth == 0 {
        proof {
            lemma_last_at_depth_neg(tv, -1, j as int);
        }
        return None;
    }
    let d = t[j].depth - 1;
    let mut k: usize = j;
    while k > 0 && t[k - 1].depth != d
        invariant
            tv == nodes_view(t@),
            k <= j < t.len(),
            d == tv[j as int].depth - 1,
            last_at_depth(tv, d as int, j as int) == last_at_depth(tv, d as int, k as int),
        decreases k,
    {
        proof {
            assert(tv[k - 1].depth == t@[k - 1].depth);
        }
        k = k - 1;
    }
    if k == 0 {
        None
    } else {
        proof {
            assert(tv[k - 1].depth == t@[k - 1].depth);
        }
        Some(k - 1)
    }
}

/// No node has a negative depth.
pub proof fn lemma_last_at_depth_neg(t: Seq<SyntaxNodeView>, d: int, k: int)
    requires
        d < 0,
        forall|i: int| 0 <= i < t.len() ==> #[trigger] t[i].depth >= 0,
    ensures
        last_at_depth(t, d, k) is None,
    decreases k,
{
    if k > 0 && k <= t.len() {
        lemma_last_at_depth_neg(t, d, k - 1);
    }
}

fn clause_exec(t: &Vec<SyntaxNode>, p0: usize) -> (r: usize)
    requires
        p0 < t.len(),
    ensures
        r as int == clause_from(nodes_view(t@), p0 as int),
{
    let ghost tv = nodes_view(t@);
    let mut p: usize = p0;
    loop
        invariant
            tv == nodes_view(t@),
            p < t.len(),
            clause_from(tv, p0 as int) == clause_from(tv, p as int),
        decreases p,
    {
        if kind_is(t, p, "extends_clause") {
            return 1;
        } else if kind_is(t, p, "implements_clause") {
            return 2;
        } else if kind_is(t, p, "class_heritage") {
            return 0;
        }
        match parent_exec(t, p) {
            Some(q) => {
                p = q;
            },
            None => {
                return 0;
            },
        }
    }
}

fn ts_heritage_in_exec(t: &Vec<SyntaxNode>, src: &str, lo: usize, hi: usize, which: usize) -> (r: Vec<String>)
    requires
        lo <= hi <= t.len(),
    ensures
        strings_view(r@) == ts_heritage_in(nodes_view(t@), src@, lo as int, hi as int, which as int),
{
    let ghost tv = nodes_view(t@);
    let mut out: Vec<String> = Vec::new();
    let mut m: usize = lo;
    while m < hi
        invariant
            tv == nodes_view(t@),
            lo <= m <= hi <= t.len(),
            strings_view(out@) == ts_heritage_in(tv, src@, lo as int, m as int, which as int),
        decreases hi - m,
    {
        let is_id = kind_is(t, m, "identifier") || kind_is(t, m, "type_identifier");
        let hit = is_id && match parent_exec(t, m) {
            Some(p) => clause_exec(t, p) == which,
            None => false,
        };
        if hit {
            out.push(node_text(t, src, m).to_string());
        }
        m = m + 1;
        proof {
            assert(strings_view(out@) =~= ts_heritage_in(tv, src@, lo as int, m as int, which as int));
        }
    }
    out
}

fn ts_heritage_exec(t: &Vec<SyntaxNode>, src: &str, n: usize, which: usize) -> (r: Vec<String>)
    requires
        n < t.len(),
    ensures
        strings_view(r@) == ts_heritage(nodes_view(t@), src@, children(nodes_view(t@), n as int), which as int),
{
    let ghost tv = nodes_view(t@);
    let cs = children_exec(t, n);
    let ghost cv = cs@.map_values(|x: usize| x as int);
    let mut out: Vec<String> = Vec::new();
    let mut k: usize = 0;
    while k < cs.len()
        invariant
            tv == nodes_view(t@),
            cv == cs@.map_values(|x: usize| x as int),
            k <= cs.len(),
            forall|q: int| 0 <= q < cs@.len() ==> #[trigger] cs@[q] < t.len(),
            strings_view(out@) == ts_heritage(tv, src@, cv.take(k as int), which as int),
        decreases cs.len() - k,
    {
        let c = cs[k];
        proof {
            assert(cv.take(k + 1).drop_last() =~= cv.take(k as int));
            assert(cv.take(k + 1).last() == c as int);
        }
        if kind_is(t, c, "class_heritage") {
            let hi = subtree_end_exec(t, c);
            let mut ids = ts_heritage_in_exec(t, src, c, hi, which);
            let ghost before = out@;
            let ghost iv = ids@;
            out.append(&mut ids);
            proof {
                assert(strings_view(out@) =~= strings_view(before) + strings_view(iv));
            }
        }
        k = k + 1;
        proof {
            assert(strings_view(out@) =~= ts_heritage(tv, src@, cv.take(k as int), which as int));
        }
    }
    proof {
        assert(cv.take(cs.len() as int) =~= cv);
    }
    out
}

fn ts_class_decl_exec(t: &Vec<SyntaxNode>, src: &str, n: usize, outer: usize) -> (r: Option<Decl>)
    requires
        n < t.len(),
        outer < t.len(),
    ensures
        match r {
            Some(d) => ts_class_decl(nodes_view(t@), src@, n as int, outer as int) == Some(d@),
            None => ts_class_decl(nodes_view(t@), src@, n as int, outer as int) is None,
        },
{
    let nm = match child_by_field_exec(t, n, "name") {
        Some(x) => x,
        None => return None,
    };
    let body = match child_by_field_exec(t, n, "body") {
        Some(x) => x,
        None => return None,
    };
    let mut sig = chars_of(header_with(src, t[outer].start_byte, t[body].start_byte, " {\n").as_str());
    let members = ts_member_lines_exec(t, src, body);
    push_vec(&mut sig, &members);
    push_chars(&mut sig, "}\n");
    let d = Decl {
        kind: "class",
        name: node_text(t, src, nm).to_string(),
        byte_start: t[outer].start_byte,
        byte_end: t[outer].end_byte,
        line_start: line_no_exec(t[outer].start_row),
        line_end: line_no_exec(t[outer].end_row),
        signature: string_from_chars(&sig),
        calls: ts_calls_exec(t, src, n),
        bases: dedup_adjacent_vec(ts_heritage_exec(t, src, n, 1)),
        impls: dedup_adjacent_vec(ts_heritage_exec(t, src, n, 2)),
    };
    proof {
        assert(d@ == ts_class_decl(nodes_view(t@), src@, n as int, outer as int)->0);
    }
    Some(d)
}

fn ts_typeish_decl_exec(t: &Vec<SyntaxNode>, src: &str, n: usize, outer: usize, kind: &'static str) -> (r: Option<Decl>)
    requires
        n < t.len(),
        outer < t.len(),
    ensures
        match r {
            Some(d) => ts_typeish_decl(nodes_view(t@), src@, n as int, outer as int, kind@) == Some(d@),
            None => ts_typeish_decl(nodes_view(t@), src@, n as int, outer as int, kind@) is None,
        },
{
    let nm = match child_by_field_exec(t, n, "name") {
        Some(x) => x,
        None => return None,
    };
    let text = node_text(t, src, outer);
    let tc = chars_of(text);
    let ls = lines_of(&tc);
    proof {
        assert(ls@.map_values(|l: Vec<char>| l@).len() == ls@.len());
    }
    let signature = if ls.len() <= 12 {
        let mut v = chars_of(text);
        push_chars(&mut v, "\n");
        string_from_chars(&v)
    } else {
        proof {
            assert(ls@.map_values(|l: Vec<char>| l@)[0] == ls@[0]@);
        }
        let mut v = chars_of(collapse_ws(string_from_chars(&ls[0]).as_str()).as_str());
        push_chars(&mut v, " ...\n");
        string_from_chars(&v)
    };
    let d = Decl {
        kind,
        name: node_text(t, src, nm).to_string(),
        byte_start: t[outer].start_byte,
        byte_end: t[outer].end_byte,
        line_start: line_no_exec(t[outer].start_row),
        line_end: line_no_exec(t[outer].end_row),
        signature,
        calls: Vec::new(),
        bases: Vec::new(),
        impls: Vec::new(),
    };
    proof {
        assert(strings_view(d.calls@) =~= Seq::<Seq<char>>::empty());
        assert(strings_view(d.bases@) =~= Seq::<Seq<char>>::empty());
        assert(strings_view(d.impls@) =~= Seq::<Seq<char>>::empty());
        assert(d@ == ts_typeish_decl(nodes_view(t@), src@, n as int, outer as int, kind@)->0);
    }
    Some(d)
}

fn ts_declarator_exec(t: &Vec<SyntaxNode>, src: &str, dc: usize, outer: usize) -> (r: Option<Decl>)
    requires
        dc < t.len(),
        outer < t.len(),
    ensures
        match r {
            Some(d) => ts_declarator(nodes_view(t@), src@, dc as int, outer as int) == Some(d@),
            None => ts_declarator(nodes_view(t@), src@, dc as int, outer as int) is None,
        },
{
    if !kind_is(t, dc, "variable_declarator") {
        return None;
    }
    let v = match child_by_field_exec(t, dc, "value") {
        Some(x) => x,
        None => return None,
    };
    let nm = match child_by_field_exec(t, dc, "name") {
        Some(x) => x,
        None => return None,
    };
    if !(kind_is(t, v, "arrow_function") || kind_is(t, v, "function_expression") || kind_is(
        t,
        v,
        "function",
    )) {
        return None;
    }
    let d = Decl {
        kind: "function",
        name: node_text(t, src, nm).to_string(),
        byte_start: t[outer].start_byte,
        byte_end: t[outer].end_byte,
        line_start: line_no_exec(t[outer].start_row),
        line_end: line_no_exec(t[outer].end_row),
        signature: header_with(src, t[outer].start_byte, body_start_exec(t, v), " ...\n"),
        calls: ts_calls_exec(t, src, v),
        bases: Vec::new(),
        impls: Vec::new(),
    };
    proof {
        assert(strings_view(d.bases@) =~= Seq::<Seq<char>>::empty());
        assert(strings_view(d.impls@) =~= Seq::<Seq<char>>::empty());
        assert(d@ == ts_declarator(nodes_view(t@), src@, dc as int, outer as int)->0);
    }
    Some(d)
}

fn ts_first_declarator_exec(t: &Vec<SyntaxNode>, src: &str, n: usize, outer: usize) -> (r: Option<Decl>)
    requires
        n < t.len(),
        outer < t.len(),
    ensures
        match r {
            Some(d) => ts_first_declarator(nodes_view(t@), src@, named_children(nodes_view(t@), n as int), outer as int) == Some(d@),
            None => ts_first_declarator(nodes_view(t@), src@, named_children(nodes_view(t@), n as int), outer as int) is None,
        },
{
    let ghost tv = nodes_view(t@);
    let ds = named_children_exec(t, n);
    let ghost dv = ds@.map_values(|x: usize| x as int);
    let mut k: usize = 0;
    while k < ds.len()
        invariant
            tv == nodes_view(t@),
            dv == ds@.map_values(|x: usize| x as int),
            dv == named_children(tv, n as int),
            k <= ds.len(),
            outer < t.len(),
            forall|q: int| 0 <= q < ds@.len() ==> #[trigger] ds@[q] < t.len(),
            ts_first_declarator(tv, src@, dv.take(k as int), outer as int) is None,
        decreases ds.len() - k,
    {
        let dc = ds[k];
        proof {
            assert(dv.take(k + 1).drop_last() =~= dv.take(k as int));
            assert(dv.take(k + 1).last() == dc as int);
        }
        match ts_declarator_exec(t, src, dc, outer) {
            Some(d) => {
                proof {
                    lemma_first_declarator_extends(tv, src@, dv, outer as int, k as int);
                }
                return Some(d);
            },
            None => {},
        }
        k = k + 1;
    }
    proof {
        assert(dv.take(ds.len() as int) =~= dv);
    }
    None
}

/// A declarator found first in a prefix is the first of the whole list.
pub proof fn lemma_first_declarator_extends(t: Seq<SyntaxNodeView>, s: Seq<char>, ds: Seq<int>, outer: int, k: int)
    requires
        0 <= k < ds.len(),
        ts_first_declarator(t, s, ds.take(k + 1), outer) is Some,
    ensures
        ts_first_declarator(t, s, ds, outer) == ts_first_declarator(t, s, ds.take(k + 1), outer),
    decreases ds.len(),
{
    if ds.len() > k + 1 {
        assert(ds.drop_last().take(k + 1) =~= ds.take(k + 1));
        lemma_first_declarator_extends(t, s, ds.drop_last(), outer, k);
    } else {
        assert(ds.take(k + 1) =~= ds);
    }
}

fn opt_vec(d: Option<Decl>) -> (r: Vec<Decl>)
    ensures
        decls_view(r@) == opt_seq(
            match d {
                Some(x) => Some(x@),
                None => None,
            },
        ),
{
    let mut v: Vec<Decl> = Vec::new();
    match d {
        Some(x) => v.push(x),
        None => {},
    }
    proof {
        assert(decls_view(v@) =~= opt_seq(
            match d {
                Some(x) => Some(x@),
                None => None,
            },
        ));
    }
    v
}

fn ts_top_exec(t: &Vec<SyntaxNode>, src: &str, n: usize, outer: usize) -> (r: (Vec<Decl>, Vec<String>))
    requires
        n < t.len(),
        outer < t.len(),
    ensures
        (decls_view(r.0@), strings_view(r.1@)) == ts_top(nodes_view(t@), src@, n as int, outer as int),
    decreases t.len() - n,
{
    let ghost tv = nodes_view(t@);
    let mut none_d: Vec<Decl> = Vec::new();
    let mut none_i: Vec<String> = Vec::new();
    proof {
        assert(decls_view(none_d@) =~= Seq::<DeclView>::empty());
        assert(strings_view(none_i@) =~= Seq::<Seq<char>>::empty());
    }
    if kind_is(t, n, "import_statement") {
        match child_by_field_exec(t, n, "source") {
            Some(x) => {
                let spec = trim_quotes_vec(&chars_of(node_text(t, src, x)));
                none_i.push(string_from_chars(&spec));
                proof {
                    assert(strings_view(none_i@) =~= ts_top(tv, src@, n as int, outer as int).1);
                }
            },
            None => {},
        }
        (none_d, none_i)
    } else if kind_is(t, n, "export_statement") {
        match child_by_field_exec(t, n, "declaration") {
            Some(d) => ts_top_exec(t, src, d, n),
            None => (none_d, none_i),
        }
    } else if kind_is(t, n, "function_declaration") || kind_is(t, n, "generator_function_declaration") {
        (opt_vec(ts_function_decl_exec(t, src, n, outer)), none_i)
    } else if kind_is(t, n, "class_declaration") || kind_is(t, n, "abstract_class_declaration") {
        (opt_vec(ts_class_decl_exec(t, src, n, outer)), none_i)
    } else if kind_is(t, n, "interface_declaration") {
        (opt_vec(ts_typeish_decl_exec(t, src, n, outer, "interface")), none_i)
    } else if kind_is(t, n, "enum_declaration") {
        (opt_vec(ts_typeish_decl_exec(t, src, n, outer, "enum")), none_i)
    } else if kind_is(t, n, "type_alias_declaration") {
        (opt_vec(ts_typeish_decl_exec(t, src, n, outer, "type")), none_i)
    } else if kind_is(t, n, "lexical_declaration") || kind_is(t, n, "variable_declaration") {
        (opt_vec(ts_first_declarator_exec(t, src, n, outer)), none_i)
    } else {
        (none_d, none_i)
    }
}

/// Declarations and imports of a parsed TypeScript/JavaScript file (see
/// [`ts_scan`]).
pub fn typescript_scan(nodes: &Vec<SyntaxNode>, src: &str) -> (r: FileScan)
    ensures
        (decls_view(r.decls@), strings_view(r.imports@)) == ts_scan(nodes_view(nodes@), src@),
{
    let ghost tv = nodes_view(nodes@);
    let mut decls: Vec<Decl> = Vec::new();
    let mut imports: Vec<String> = Vec::new();
    if nodes.len() == 0 {
        proof {
            assert(decls_view(decls@) =~= Seq::<DeclView>::empty());
            assert(strings_view(imports@) =~= Seq::<Seq<char>>::empty());
        }
        return FileScan { decls, imports };
    }
    let cs = named_children_exec(nodes, 0);
    let ghost cv = cs@.map_values(|x: usize| x as int);
    let mut k: usize = 0;
    while k < cs.len()
        invariant
            tv == nodes_view(nodes@),
            cv == cs@.map_values(|x: usize| x as int),
            k <= cs.len(),
            forall|q: int| 0 <= q < cs@.len() ==> #[trigger] cs@[q] < nodes.len(),
            (decls_view(decls@), strings_view(imports@)) == ts_scan_of(tv, src@, cv.take(k as int)),
        decreases cs.len() - k,
    {
        let c = cs[k];
        proof {
            assert(cv.take(k + 1).drop_last() =~= cv.take(k as int));
            assert(cv.take(k + 1).last() == c as int);
        }
        let (mut d2, mut i2) = ts_top_exec(nodes, src, c, c);
        let ghost before_d = decls@;
        let ghost before_i = imports@;
        let ghost dd = d2@;
        let ghost ii = i2@;
        decls.append(&mut d2);
        imports.append(&mut i2);
        k = k + 1;
        proof {
            assert(decls_view(decls@) =~= decls_view(before_d) + decls_view(dd));
            assert(strings_view(imports@) =~= strings_view(before_i) + strings_view(ii));
        }
    }
    proof {
        assert(cv.take(cs.len() as int) =~= cv);
    }
    FileScan { decls, imports }
}

} // verus!
