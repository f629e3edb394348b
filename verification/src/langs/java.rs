//! Java: top-level type declarations and imports.

use vstd::prelude::*;
use crate::model::opt_view;
use crate::plan::strings_view;
use crate::plugin::{decls_view, Decl, DeclView, FileScan};
use crate::syntax::{
    kind_is, child_by_field, child_by_field_exec, children, children_exec, line_no, line_no_exec,
    named_children, named_children_exec, node_str, node_text, nodes_view, slice_str, slice_text,
    subtree_end, subtree_end_exec, SyntaxNode, SyntaxNodeView,
};
use crate::text::{
    after_last, after_last_vec, before_first, before_first_vec, chars_of, collapse_spec,
    collapse_ws, dedup_adjacent, dedup_adjacent_vec, lemma_sorted_distinct, push_chars, sort_dedup,
    sorted_distinct, string_from_chars, strip_prefix_rep, strip_prefix_rep_vec,
    trim_end_char, trim_end_char_vec, trim_ws, trim_ws_vec,
};

verus! {

/// Import target of an `import` declaration: its text without `import`,
/// `static`, the final `;` and surrounding whitespace.
pub open spec fn java_import_spec(text: Seq<char>) -> Seq<char> {
    trim_ws(
        trim_end_char(
            trim_ws(strip_prefix_rep(trim_ws(strip_prefix_rep(text, "import"@)), "static"@)),
            ';',
        ),
    )
}

/// Import targets of a top-level declaration.
pub open spec fn java_imports_of(t: Seq<SyntaxNodeView>, s: Seq<char>, c: int) -> Seq<Seq<char>> {
    if t[c].kind == "import_declaration"@ && java_import_spec(node_str(t, s, c)).len() > 0 {
        seq![java_import_spec(node_str(t, s, c))]
    } else {
        Seq::empty()
    }
}

/// Kinds of top-level type declarations.
pub open spec fn java_type_kind(k: Seq<char>) -> bool {
    k == "class_declaration"@ || k == "interface_declaration"@ || k == "enum_declaration"@ || k
        == "record_declaration"@ || k == "annotation_type_declaration"@
}

/// Member lines of a type skeleton: method and constructor headers ending
/// in `;`, field and constant declarations collapsed to one line.
pub open spec fn java_member_lines(t: Seq<SyntaxNodeView>, s: Seq<char>, ms: Seq<int>) -> Seq<char>
    decreases ms.len(),
{
    if ms.len() == 0 {
        Seq::empty()
    } else {
        let r = java_member_lines(t, s, ms.drop_last());
        let m = ms.last();
        if t[m].kind == "method_declaration"@ || t[m].kind == "constructor_declaration"@ {
            let header_end = match child_by_field(t, m, "body"@) {
                Some(b) => t[b].start_byte,
                None => t[m].end_byte,
            };
            r + "  "@ + collapse_spec(slice_str(s, t[m].start_byte, header_end)) + ";\n"@
        } else if t[m].kind == "field_declaration"@ || t[m].kind == "constant_declaration"@ {
            r + "  "@ + collapse_spec(node_str(t, s, m)) + "\n"@
        } else {
            r
        }
    }
}

/// Texts of the `type_identifier` nodes among `lo..hi`, in preorder.
pub open spec fn java_type_ids(t: Seq<SyntaxNodeView>, s: Seq<char>, lo: int, hi: int) -> Seq<Seq<char>>
    decreases hi - lo,
{
    if hi <= lo {
        Seq::empty()
    } else {
        let r = java_type_ids(t, s, lo, hi - 1);
        if t[hi - 1].kind == "type_identifier"@ {
            r.push(node_str(t, s, hi - 1))
        } else {
            r
        }
    }
}

/// Type names under the children of kinds `k1` or `k2`, in order.
pub open spec fn java_heritage(t: Seq<SyntaxNodeView>, s: Seq<char>, cs: Seq<int>, k1: Seq<char>, k2: Seq<char>) -> Seq<Seq<char>>
    decreases cs.len(),
{
    if cs.len() == 0 {
        Seq::empty()
    } else {
        let r = java_heritage(t, s, cs.drop_last(), k1, k2);
        let c = cs.last();
        if t[c].kind == k1 || t[c].kind == k2 {
            r + java_type_ids(t, s, c, subtree_end(t, c))
        } else {
            r
        }
    }
}

/// The simple name a node calls: the name of a method invocation, or the
/// class (without type arguments and package) an object creation builds.
pub open spec fn java_call_name(t: Seq<SyntaxNodeView>, s: Seq<char>, n: int) -> Option<Seq<char>> {
    if t[n].kind == "method_invocation"@ {
        match child_by_field(t, n, "name"@) {
            Some(m) => Some(node_str(t, s, m)),
            None => None,
        }
    } else if t[n].kind == "object_creation_expression"@ {
        match child_by_field(t, n, "type"@) {
            Some(ty) => Some(after_last(before_first(node_str(t, s, ty), '<'), '.')),
            None => None,
        }
    } else {
        None
    }
}

/// Names called by the nodes `lo..hi`, in preorder.
pub open spec fn java_calls_in(t: Seq<SyntaxNodeView>, s: Seq<char>, lo: int, hi: int) -> Seq<Seq<char>>
    decreases hi - lo,
{
    if hi <= lo {
        Seq::empty()
    } else {
        let r = java_calls_in(t, s, lo, hi - 1);
        match java_call_name(t, s, hi - 1) {
            Some(x) => r.push(x),
            None => r,
        }
    }
}

/// The declaration of a type declaration node; none without a name or a
/// body.
pub open spec fn java_decl(t: Seq<SyntaxNodeView>, s: Seq<char>, n: int) -> Option<DeclView> {
    match (child_by_field(t, n, "name"@), child_by_field(t, n, "body"@)) {
        (Some(nm), Some(body)) => Some(
            DeclView {
                kind: if t[n].kind == "interface_declaration"@ {
                    "interface"@
                } else if t[n].kind == "enum_declaration"@ {
                    "enum"@
                } else if t[n].kind == "record_declaration"@ {
                    "record"@
                } else {
                    "class"@
                },
                name: node_str(t, s, nm),
                byte_start: t[n].start_byte,
                byte_end: t[n].end_byte,
                line_start: line_no(t[n].start_row),
                line_end: line_no(t[n].end_row),
                signature: collapse_spec(slice_str(s, t[n].start_byte, t[body].start_byte))
                    + " {\n"@ + java_member_lines(t, s, named_children(t, body)) + "}\n"@,
                calls: sorted_distinct(java_calls_in(t, s, n, subtree_end(t, n))),
                bases: dedup_adjacent(
                    java_heritage(t, s, children(t, n), "superclass"@, "superclass"@),
                ),
                impls: dedup_adjacent(
                    java_heritage(t, s, children(t, n), "super_interfaces"@, "extends_interfaces"@),
                ),
            },
        ),
        _ => None,
    }
}

/// Declarations and imports of the top-level declarations `cs`, in order.
pub open spec fn java_scan_of(t: Seq<SyntaxNodeView>, s: Seq<char>, cs: Seq<int>) -> (Seq<DeclView>, Seq<Seq<char>>)
    decreases cs.len(),
{
    if cs.len() == 0 {
        (Seq::empty(), Seq::empty())
    } else {
        let (ds, is) = java_scan_of(t, s, cs.drop_last());
        let c = cs.last();
        (
            if java_type_kind(t[c].kind) {
                match java_decl(t, s, c) {
                    Some(d) => ds.push(d),
                    None => ds,
                }
            } else {
                ds
            },
            is + java_imports_of(t, s, c),
        )
    }
}

/// The scan of a parsed Java file: over the root's named children.
pub open spec fn java_scan(t: Seq<SyntaxNodeView>, s: Seq<char>) -> (Seq<DeclView>, Seq<Seq<char>>) {
    if t.len() == 0 {
        (Seq::empty(), Seq::empty())
    } else {
        java_scan_of(t, s, named_children(t, 0))
    }
}

fn java_import_exec(text: &str) -> (r: String)
    ensures
        r@ == java_import_spec(text@),
{
    let a = strip_prefix_rep_vec(&chars_of(text), &chars_of("import"));
    let b = strip_prefix_rep_vec(&trim_ws_vec(&a), &chars_of("static"));
    let c = trim_end_char_vec(&trim_ws_vec(&b), ';');
    string_from_chars(&trim_ws_vec(&c))
}

fn java_member_lines_exec(t: &Vec<SyntaxNode>, src: &str, body: usize) -> (r: Vec<char>)
    requires
        body < t.len(),
    ensures
        r@ == java_member_lines(nodes_view(t@), src@, named_children(nodes_view(t@), body as int)),
{
    let ghost tv = nodes_view(t@);
    let ms = named_children_exec(t, body);
    let ghost mv = ms@.map_values(|x: usize| x as int);
    let mut v: Vec<char> = Vec::new();
    let mut k: usize = 0;
    while k < ms.len()
        invariant
            tv == nodes_view(t@),
            mv == ms@.map_values(|x: usize| x as int),
            k <= ms.len(),
            forall|q: int| 0 <= q < ms@.len() ==> #[trigger] ms@[q] < t.len(),
            v@ == java_member_lines(tv, src@, mv.take(k as int)),
        decreases ms.len() - k,
    {
        let m = ms[k];
        proof {
            assert(mv.take(k + 1).drop_last() =~= mv.take(k as int));
            assert(mv.take(k + 1).last() == m as int);
        }
        if kind_is(t, m, "method_declaration") || kind_is(t, m, "constructor_declaration") {
            let header_end = match child_by_field_exec(t, m, "body") {
                Some(b) => t[b].start_byte,
                None => t[m].end_byte,
            };
            push_chars(&mut v, "  ");
            push_chars(&mut v, collapse_ws(slice_text(src, t[m].start_byte, header_end)).as_str());
            push_chars(&mut v, ";\n");
        } else if kind_is(t, m, "field_declaration") || kind_is(t, m, "constant_declaration") {
            push_chars(&mut v, "  ");
            push_chars(&mut v, collapse_ws(node_text(t, src, m)).as_str());
            push_chars(&mut v, "\n");
        }
        k = k + 1;
        proof {
            assert(v@ =~= java_member_lines(tv, src@, mv.take(k as int)));
        }
    }
    proof {
        assert(mv.take(ms.len() as int) =~= mv);
    }
    v
}

fn java_type_ids_exec(t: &Vec<SyntaxNode>, src: &str, lo: usize, hi: usize) -> (r: Vec<String>)
    requires
        lo <= hi <= t.len(),
    ensures
        strings_view(r@) == java_type_ids(nodes_view(t@), src@, lo as int, hi as int),
{
    let ghost tv = nodes_view(t@);
    let mut out: Vec<String> = Vec::new();
    let mut k: usize = lo;
    while k < hi
        invariant
            tv == nodes_view(t@),
            lo <= k <= hi <= t.len(),
            strings_view(out@) == java_type_ids(tv, src@, lo as int, k as int),
        decreases hi - k,
    {
        if kind_is(t, k, "type_identifier") {
            out.push(node_text(t, src, k).to_string());
        }
        k = k + 1;
        proof {
            assert(strings_view(out@) =~= java_type_ids(tv, src@, lo as int, k as int));
        }
    }
    out
}

fn java_heritage_exec(t: &Vec<SyntaxNode>, src: &str, n: usize, k1: &str, k2: &str) -> (r: Vec<String>)
    requires
        n < t.len(),
    ensures
        strings_view(r@) == java_heritage(nodes_view(t@), src@, children(nodes_view(t@), n as int), k1@, k2@),
{
    let ghost tv = nodes_view(t@);
    let cs = children_exec(t, n);
    let ghost cv = cs@.map_values(|x: usize| x as int);
    let mut out: Vec<String> = Vec::new();
    let mut k: usize = 0;
    while k < cs.len()
        invariant
            tv == nodes_view(t@),
            cv == cs@.map_values(|x: usize| x as int),
            k <= cs.len(),
            forall|q: int| 0 <= q < cs@.len() ==> #[trigger] cs@[q] < t.len(),
            strings_view(out@) == java_heritage(tv, src@, cv.take(k as int), k1@, k2@),
        decreases cs.len() - k,
    {
        let c = cs[k];
        proof {
            assert(cv.take(k + 1).drop_last() =~= cv.take(k as int));
            assert(cv.take(k + 1).last() == c as int);
        }
        if kind_is(t, c, k1) || kind_is(t, c, k2) {
            let end = subtree_end_exec(t, c);
            let mut ids = java_type_ids_exec(t, src, c, end);
            let ghost before = out@;
            let ghost iv = ids@;
            out.append(&mut ids);
            proof {
                assert(strings_view(out@) =~= strings_view(before) + strings_view(iv));
            }
        }
        k = k + 1;
        proof {
            assert(strings_view(out@) =~= java_heritage(tv, src@, cv.take(k as int), k1@, k2@));
        }
    }
    proof {
        assert(cv.take(cs.len() as int) =~= cv);
    }
    out
}

fn java_call_name_exec(t: &Vec<SyntaxNode>, src: &str, n: usize) -> (r: Option<String>)
    requires
        n < t.len(),
    ensures
        opt_view(r) == java_call_name(nodes_view(t@), src@, n as int),
{
    if kind_is(t, n, "method_invocation") {
        match child_by_field_exec(t, n, "name") {
            Some(m) => Some(node_text(t, src, m).to_string()),
            None => None,
        }
    } else if kind_is(t, n, "object_creation_expression") {
        match child_by_field_exec(t, n, "type") {
            Some(ty) => {
                let head = before_first_vec(&chars_of(node_text(t, src, ty)), '<');
                Some(string_from_chars(&after_last_vec(&head, '.')))
            },
            None => None,
        }
    } else {
        None
    }
}

fn java_calls_exec(t: &Vec<SyntaxNode>, src: &str, lo: usize, hi: usize) -> (r: Vec<String>)
    requires
        lo <= hi <= t.len(),
    ensures
        strings_view(r@) == java_calls_in(nodes_view(t@), src@, lo as int, hi as int),
{
    let ghost tv = nodes_view(t@);
    let mut out: Vec<String> = Vec::new();
    let mut k: usize = lo;
    while k < hi
        invariant
            tv == nodes_view(t@),
            lo <= k <= hi <= t.len(),
            strings_view(out@) == java_calls_in(tv, src@, lo as int, k as int),
        decreases hi - k,
    {
        match java_call_name_exec(t, src, k) {
            Some(x) => out.push(x),
            None => {},
        }
        k = k + 1;
        proof {
            assert(strings_view(out@) =~= java_calls_in(tv, src@, lo as int, k as int));
        }
    }
    out
}

fn java_decl_exec(t: &Vec<SyntaxNode>, src: &str, n: usize) -> (r: Option<Decl>)
    requires
        n < t.len(),
    ensures
        match r {
            Some(d) => java_decl(nodes_view(t@), src@, n as int) == Some(d@),
            None => java_decl(nodes_view(t@), src@, n as int) is None,
        },
{
    let ghost tv = nodes_view(t@);
    let nm = match child_by_field_exec(t, n, "name") {
        Some(x) => x,
        None => return None,
    };
    let body = match child_by_field_exec(t, n, "body") {
        Some(x) => x,
        None => return None,
    };
    let kind: &'static str = if kind_is(t, n, "interface_declaration") {
        "interface"
    } else if kind_is(t, n, "enum_declaration") {
        "enum"
    } else if kind_is(t, n, "record_declaration") {
        "record"
    } else {
        "class"
    };
    let mut sig = chars_of(collapse_ws(slice_text(src, t[n].start_byte, t[body].start_byte)).as_str());
    push_chars(&mut sig, " {\n");
    let members = java_member_lines_exec(t, src, body);
    crate::text::push_vec(&mut sig, &members);
    push_chars(&mut sig, "}\n");
    let end = subtree_end_exec(t, n);
    let raw = java_calls_exec(t, src, n, end);
    let calls = sort_dedup(&raw);
    proof {
        lemma_sorted_distinct(strings_view(calls@), strings_view(raw@));
    }
    let bases = dedup_adjacent_vec(java_heritage_exec(t, src, n, "superclass", "superclass"));
    let impls = dedup_adjacent_vec(
        java_heritage_exec(t, src, n, "super_interfaces", "extends_interfaces"),
    );
    let d = Decl {
        kind,
        name: node_text(t, src, nm).to_string(),
        byte_start: t[n].start_byte,
        byte_end: t[n].end_byte,
        line_start: line_no_exec(t[n].start_row),
        line_end: line_no_exec(t[n].end_row),
        signature: string_from_chars(&sig),
        calls,
        bases,
        impls,
    };
    proof {
        assert(d@ == java_decl(tv, src@, n as int)->0);
    }
    Some(d)
}

/// Declarations and imports of a parsed Java file (see [`java_scan`]).
pub fn java_scan_file(nodes: &Vec<SyntaxNode>, src: &str) -> (r: FileScan)
    ensures
        (decls_view(r.decls@), strings_view(r.imports@)) == java_scan(nodes_view(nodes@), src@),
{
    let ghost tv = nodes_view(nodes@);
    let mut decls: Vec<Decl> = Vec::new();
    let mut imports: Vec<String> = Vec::new();
    if nodes.len() == 0 {
        proof {
            assert(decls_view(decls@) =~= Seq::<DeclView>::empty());
            assert(strings_view(imports@) =~= Seq::<Seq<char>>::empty());
        }
        return FileScan { decls, imports };
    }
    let cs = named_children_exec(nodes, 0);
    let ghost cv = cs@.map_values(|x: usize| x as int);
    let mut k: usize = 0;
    while k < cs.len()
        invariant
            tv == nodes_view(nodes@),
            cv == cs@.map_values(|x: usize| x as int),
            k <= cs.len(),
            forall|q: int| 0 <= q < cs@.len() ==> #[trigger] cs@[q] < nodes.len(),
            (decls_view(decls@), strings_view(imports@)) == java_scan_of(tv, src@, cv.take(k as int)),
        decreases cs.len() - k,
    {
        let c = cs[k];
        proof {
            assert(cv.take(k + 1).drop_last() =~= cv.take(k as int));
            assert(cv.take(k + 1).last() == c as int);
        }
        if kind_is(nodes, c, "class_declaration") || kind_is(nodes, c, "interface_declaration")
            || kind_is(nodes, c, "enum_declaration") || kind_is(nodes, c, "record_declaration")
            || kind_is(nodes, c, "annotation_type_declaration") {
            match java_decl_exec(nodes, src, c) {
                Some(d) => decls.push(d),
                None => {},
            }
        }
        if kind_is(nodes, c, "import_declaration") {
            let spec = java_import_exec(node_text(nodes, src, c));
            if spec.as_str().as_bytes().len() > 0 {
                imports.push(spec);
            }
        }
        k = k + 1;
        proof {
            assert(decls_view(decls@) =~= java_scan_of(tv, src@, cv.take(k as int)).0);
            assert(strings_view(imports@) =~= java_scan_of(tv, src@, cv.take(k as int)).1);
        }
    }
    proof {
        assert(cv.take(cs.len() as int) =~= cv);
    }
    FileScan { decls, imports }
}

} // verus!
