//! Python: top-level functions and classes (decorated or not) and imports.

use vstd::prelude::*;
use crate::model::opt_view;
use crate::plan::strings_view;
use crate::plugin::{decls_view, Decl, DeclView, FileScan};
use crate::syntax::{
    kind_is, child_by_field, child_by_field_exec, line_no, line_no_exec, named_children, named_children_exec,
    node_str, node_text, nodes_view, slice_str, slice_text, subtree_end, subtree_end_exec,
    SyntaxNode, SyntaxNodeView,
};
use crate::text::{
    after_last, after_last_vec, chars_of, collapse_spec, collapse_ws, lines_of, lines_spec,
    lemma_sorted_distinct, push_chars, push_vec, sort_dedup, sorted_distinct,
    string_from_chars, trim_end_quotes, trim_quotes_vec, trim_start_quotes, trim_ws, trim_ws_vec,
};

verus! {

/// Import targets of the items of an `import` statement: dotted names, and
/// the names of aliased imports.
pub open spec fn py_import_items(t: Seq<SyntaxNodeView>, s: Seq<char>, items: Seq<int>) -> Seq<Seq<char>>
    decreases items.len(),
{
    if items.len() == 0 {
        Seq::empty()
    } else {
        let r = py_import_items(t, s, items.drop_last());
        let it = items.last();
        if t[it].kind == "dotted_name"@ {
            r.push(node_str(t, s, it))
        } else if t[it].kind == "aliased_import"@ {
            match child_by_field(t, it, "name"@) {
                Some(n) => r.push(node_str(t, s, n)),
                None => r,
            }
        } else {
            r
        }
    }
}

/// Import targets of a top-level statement.
pub open spec fn py_imports_of(t: Seq<SyntaxNodeView>, s: Seq<char>, c: int) -> Seq<Seq<char>> {
    if t[c].kind == "import_statement"@ {
        py_import_items(t, s, named_children(t, c))
    } else if t[c].kind == "import_from_statement"@ {
        match child_by_field(t, c, "module_name"@) {
            Some(m) => seq![node_str(t, s, m)],
            None => Seq::empty(),
        }
    } else {
        Seq::empty()
    }
}

/// First line of the docstring of a body: its first statement is a string
/// expression; the string's text without surrounding quotes and whitespace,
/// its first line trimmed, when not empty.
pub open spec fn py_docstring(t: Seq<SyntaxNodeView>, s: Seq<char>, body: int) -> Option<Seq<char>> {
    let nc = named_children(t, body);
    if nc.len() == 0 || t[nc[0]].kind != "expression_statement"@ {
        None
    } else {
        let nc2 = named_children(t, nc[0]);
        if nc2.len() == 0 || t[nc2[0]].kind != "string"@ {
            None
        } else {
            let text = trim_ws(trim_end_quotes(trim_start_quotes(node_str(t, s, nc2[0]))));
            let ls = lines_spec(text);
            if ls.len() == 0 || trim_ws(ls[0]).len() == 0 {
                None
            } else {
                Some(trim_ws(ls[0]))
            }
        }
    }
}

/// Collapsed header of a definition: its text up to its body.
pub open spec fn py_header(t: Seq<SyntaxNodeView>, s: Seq<char>, def: int, body: int) -> Seq<char> {
    collapse_spec(slice_str(s, t[def].start_byte, t[body].start_byte))
}

/// Method lines of a class skeleton: `    <header> ...` for each (possibly
/// decorated) method with a body.
pub open spec fn py_member_lines(t: Seq<SyntaxNodeView>, s: Seq<char>, ms: Seq<int>) -> Seq<char>
    decreases ms.len(),
{
    if ms.len() == 0 {
        Seq::empty()
    } else {
        let r = py_member_lines(t, s, ms.drop_last());
        let m0 = ms.last();
        let def = if t[m0].kind == "decorated_definition"@ {
            child_by_field(t, m0, "definition"@)
        } else {
            Some(m0)
        };
        match def {
            Some(m) => if t[m].kind == "function_definition"@ {
                match child_by_field(t, m, "body"@) {
                    Some(mb) => r + "    "@ + py_header(t, s, m, mb) + " ...\n"@,
                    None => r,
                }
            } else {
                r
            },
            None => r,
        }
    }
}

/// Class skeleton: header, docstring line, method headers.
pub open spec fn py_class_signature(t: Seq<SyntaxNodeView>, s: Seq<char>, cls: int, body: int) -> Seq<char> {
    py_header(t, s, cls, body) + "\n"@ + match py_docstring(t, s, body) {
        Some(d) => "    \"\"\""@ + d + "\"\"\"\n"@,
        None => Seq::empty(),
    } + py_member_lines(t, s, named_children(t, body))
}

/// Function skeleton: header, docstring line if any, elided body.
pub open spec fn py_function_signature(t: Seq<SyntaxNodeView>, s: Seq<char>, def: int, body: int) -> Seq<char> {
    let h = py_header(t, s, def, body);
    match py_docstring(t, s, body) {
        Some(d) => h + "\n    \"\"\""@ + d + "\"\"\"\n    ...\n"@,
        None => h + " ...\n"@,
    }
}

/// The simple name a `call` node calls: an identifier, or the attribute of
/// an attribute access.
pub open spec fn py_call_name(t: Seq<SyntaxNodeView>, s: Seq<char>, n: int) -> Option<Seq<char>> {
    if t[n].kind != "call"@ {
        None
    } else {
        match child_by_field(t, n, "function"@) {
            Some(f) => if t[f].kind == "identifier"@ {
                Some(node_str(t, s, f))
            } else if t[f].kind == "attribute"@ {
                match child_by_field(t, f, "attribute"@) {
                    Some(a) => Some(node_str(t, s, a)),
                    None => None,
                }
            } else {
                None
            },
            None => None,
        }
    }
}

/// Names called by the nodes `lo..hi`, in preorder.
pub open spec fn py_calls_in(t: Seq<SyntaxNodeView>, s: Seq<char>, lo: int, hi: int) -> Seq<Seq<char>>
    decreases hi - lo,
{
    if hi <= lo {
        Seq::empty()
    } else {
        let r = py_calls_in(t, s, lo, hi - 1);
        match py_call_name(t, s, hi - 1) {
            Some(x) => r.push(x),
            None => r,
        }
    }
}

/// Base class names: the last dotted part of each identifier or attribute
/// argument.
pub open spec fn py_bases(t: Seq<SyntaxNodeView>, s: Seq<char>, args: Seq<int>) -> Seq<Seq<char>>
    decreases args.len(),
{
    if args.len() == 0 {
        Seq::empty()
    } else {
        let r = py_bases(t, s, args.drop_last());
        let a = args.last();
        if t[a].kind == "identifier"@ || t[a].kind == "attribute"@ {
            r.push(after_last(node_str(t, s, a), '.'))
        } else {
            r
        }
    }
}

/// The declaration of definition `def`, whose chunk spans node `outer` (the
/// decorated definition when there are decorators); none without a name
/// or a body.
pub open spec fn py_decl(t: Seq<SyntaxNodeView>, s: Seq<char>, def: int, outer: int) -> Option<DeclView> {
    match (child_by_field(t, def, "name"@), child_by_field(t, def, "body"@)) {
        (Some(nm), Some(body)) => {
            let is_class = t[def].kind == "class_definition"@;
            Some(
                DeclView {
                    kind: if is_class {
                        "class"@
                    } else {
                        "function"@
                    },
                    name: node_str(t, s, nm),
                    byte_start: t[outer].start_byte,
                    byte_end: t[outer].end_byte,
                    line_start: line_no(t[outer].start_row),
                    line_end: line_no(t[outer].end_row),
                    signature: if is_class {
                        py_class_signature(t, s, def, body)
                    } else {
                        py_function_signature(t, s, def, body)
                    },
                    calls: sorted_distinct(py_calls_in(t, s, def, subtree_end(t, def))),
                    bases: if is_class {
                        match child_by_field(t, def, "superclasses"@) {
                            Some(sp) => py_bases(t, s, named_children(t, sp)),
                            None => Seq::empty(),
                        }
                    } else {
                        Seq::empty()
                    },
                    impls: Seq::empty(),
                },
            )
        },
        _ => None,
    }
}

/// The declaration of a top-level statement, if it is a (decorated)
/// function or class definition.
pub open spec fn py_decl_of(t: Seq<SyntaxNodeView>, s: Seq<char>, c: int) -> Option<DeclView> {
    if t[c].kind == "function_definition"@ || t[c].kind == "class_definition"@ {
        py_decl(t, s, c, c)
    } else if t[c].kind == "decorated_definition"@ {
        match child_by_field(t, c, "definition"@) {
            Some(d) => py_decl(t, s, d, c),
            None => None,
        }
    } else {
        None
    }
}

/// Declarations and imports of the top-level statements `cs`, in order.
pub open spec fn py_scan_of(t: Seq<SyntaxNodeView>, s: Seq<char>, cs: Seq<int>) -> (Seq<DeclView>, Seq<Seq<char>>)
    decreases cs.len(),
{
    if cs.len() == 0 {
        (Seq::empty(), Seq::empty())
    } else {
        let (ds, is) = py_scan_of(t, s, cs.drop_last());
        let c = cs.last();
        (
            match py_decl_of(t, s, c) {
                Some(d) => ds.push(d),
                None => ds,
            },
            is + py_imports_of(t, s, c),
        )
    }
}

/// The scan of a parsed Python file: over the root's named children.
pub open spec fn py_scan(t: Seq<SyntaxNodeView>, s: Seq<char>) -> (Seq<DeclView>, Seq<Seq<char>>) {
    if t.len() == 0 {
        (Seq::empty(), Seq::empty())
    } else {
        py_scan_of(t, s, named_children(t, 0))
    }
}

fn py_imports(t: &Vec<SyntaxNode>, src: &str, c: usize) -> (r: Vec<String>)
    requires
        c < t.len(),
    ensures
        strings_view(r@) == py_imports_of(nodes_view(t@), src@, c as int),
{
    let ghost tv = nodes_view(t@);
    let mut out: Vec<String> = Vec::new();
    if kind_is(t, c, "import_statement") {
        let items = named_children_exec(t, c);
        let ghost iv = items@.map_values(|x: usize| x as int);
        let mut k: usize = 0;
        while k < items.len()
            invariant
                tv == nodes_view(t@),
                iv == items@.map_values(|x: usize| x as int),
                k <= items.len(),
                forall|q: int| 0 <= q < items@.len() ==> #[trigger] items@[q] < t.len(),
                strings_view(out@) == py_import_items(tv, src@, iv.take(k as int)),
            decreases items.len() - k,
        {
            let it = items[k];
            proof {
                assert(iv.take(k + 1).drop_last() =~= iv.take(k as int));
                assert(iv.take(k + 1).last() == it as int);
            }
            if kind_is(t, it, "dotted_name") {
                out.push(node_text(t, src, it).to_string());
            } else if kind_is(t, it, "aliased_import") {
                match child_by_field_exec(t, it, "name") {
                    Some(n) => out.push(node_text(t, src, n).to_string()),
                    None => {},
                }
            }
            k = k + 1;
            proof {
                assert(strings_view(out@) =~= py_import_items(tv, src@, iv.take(k as int)));
            }
        }
        proof {
            assert(iv.take(items.len() as int) =~= iv);
        }
    } else if kind_is(t, c, "import_from_statement") {
        match child_by_field_exec(t, c, "module_name") {
            Some(m) => out.push(node_text(t, src, m).to_string()),
            None => {},
        }
        proof {
            assert(strings_view(out@) =~= py_imports_of(tv, src@, c as int));
        }
    } else {
        proof {
            assert(strings_view(out@) =~= py_imports_of(tv, src@, c as int));
        }
    }
    out
}

fn py_docstring_exec(t: &Vec<SyntaxNode>, src: &str, body: usize) -> (r: Option<String>)
    requires
        body < t.len(),
    ensures
        opt_view(r) == py_docstring(nodes_view(t@), src@, body as int),
{
    let ghost tv = nodes_view(t@);
    let nc = named_children_exec(t, body);
    if nc.len() == 0 {
        return None;
    }
    let first = nc[0];
    proof {
        assert(named_children(tv, body as int)[0] == first as int);
    }
    if !kind_is(t, first, "expression_statement") {
        return None;
    }
    let nc2 = named_children_exec(t, first);
    if nc2.len() == 0 {
        return None;
    }
    let st = nc2[0];
    proof {
        assert(named_children(tv, first as int)[0] == st as int);
    }
    if !kind_is(t, st, "string") {
        return None;
    }
    let text = trim_ws_vec(&trim_quotes_vec(&chars_of(node_text(t, src, st))));
    let ls = lines_of(&text);
    proof {
        assert(ls@.map_values(|l: Vec<char>| l@).len() == ls@.len());
    }
    if ls.len() == 0 {
        return None;
    }
    let line = trim_ws_vec(&ls[0]);
    proof {
        assert(ls@.map_values(|l: Vec<char>| l@)[0] == ls@[0]@);
    }
    if line.len() == 0 {
        None
    } else {
        Some(string_from_chars(&line))
    }
}

fn py_header_exec(t: &Vec<SyntaxNode>, src: &str, def: usize, body: usize) -> (r: String)
    requires
        def < t.len(),
        body < t.len(),
    ensures
        r@ == py_header(nodes_view(t@), src@, def as int, body as int),
{
    collapse_ws(slice_text(src, t[def].start_byte, t[body].start_byte))
}

fn py_class_signature_exec(t: &Vec<SyntaxNode>, src: &str, cls: usize, body: usize) -> (r: String)
    requires
        cls < t.len(),
        body < t.len(),
    ensures
        r@ == py_class_signature(nodes_view(t@), src@, cls as int, body as int),
{
    let ghost tv = nodes_view(t@);
    let mut v: Vec<char> = chars_of(py_header_exec(t, src, cls, body).as_str());
    push_chars(&mut v, "\n");
    match py_docstring_exec(t, src, body) {
        Some(d) => {
            push_chars(&mut v, "    \"\"\"");
            push_chars(&mut v, d.as_str());
            push_chars(&mut v, "\"\"\"\n");
        },
        None => {},
    }
    let ghost head = v@;
    proof {
        assert(head =~= py_header(tv, src@, cls as int, body as int) + "\n"@ + match py_docstring(
            tv,
            src@,
            body as int,
        ) {
            Some(d) => "    \"\"\""@ + d + "\"\"\"\n"@,
            None => Seq::empty(),
        });
    }
    let ms = named_children_exec(t, body);
    let ghost mv = ms@.map_values(|x: usize| x as int);
    let mut k: usize = 0;
    proof {
        assert(mv.take(0) =~= Seq::<int>::empty());
        assert(v@ =~= head + py_member_lines(tv, src@, mv.take(0)));
    }
    while k < ms.len()
        invariant
            tv == nodes_view(t@),
            mv == ms@.map_values(|x: usize| x as int),
            k <= ms.len(),
            forall|q: int| 0 <= q < ms@.len() ==> #[trigger] ms@[q] < t.len(),
            v@ == head + py_member_lines(tv, src@, mv.take(k as int)),
        decreases ms.len() - k,
    {
        let m0 = ms[k];
        proof {
            assert(mv.take(k + 1).drop_last() =~= mv.take(k as int));
            assert(mv.take(k + 1).last() == m0 as int);
        }
        let def = if kind_is(t, m0, "decorated_definition") {
            child_by_field_exec(t, m0, "definition")
        } else {
            Some(m0)
        };
        match def {
            Some(m) => {
                if kind_is(t, m, "function_definition") {
                    match child_by_field_exec(t, m, "body") {
                        Some(mb) => {
                            push_chars(&mut v, "    ");
                            push_chars(&mut v, py_header_exec(t, src, m, mb).as_str());
                            push_chars(&mut v, " ...\n");
                        },
                        None => {},
                    }
                }
            },
            None => {},
        }
        k = k + 1;
        proof {
            assert(v@ =~= head + py_member_lines(tv, src@, mv.take(k as int)));
        }
    }
    proof {
        assert(mv.take(ms.len() as int) =~= mv);
    }
    string_from_chars(&v)
}

fn py_call_name_exec(t: &Vec<SyntaxNode>, src: &str, n: usize) -> (r: Option<String>)
    requires
        n < t.len(),
    ensures
        opt_view(r) == py_call_name(nodes_view(t@), src@, n as int),
{
    if !kind_is(t, n, "call") {
        return None;
    }
    match child_by_field_exec(t, n, "function") {
        Some(f) => if kind_is(t, f, "identifier") {
            Some(node_text(t, src, f).to_string())
        } else if kind_is(t, f, "attribute") {
            match child_by_field_exec(t, f, "attribute") {
                Some(a) => Some(node_text(t, src, a).to_string()),
                None => None,
            }
        } else {
            None
        },
        None => None,
    }
}

fn py_calls_exec(t: &Vec<SyntaxNode>, src: &str, lo: usize, hi: usize) -> (r: Vec<String>)
    requires
        lo <= hi <= t.len(),
    ensures
        strings_view(r@) == py_calls_in(nodes_view(t@), src@, lo as int, hi as int),
{
    let ghost tv = nodes_view(t@);
    let mut out: Vec<String> = Vec::new();
    let mut k: usize = lo;
    while k < hi
        invariant
            tv == nodes_view(t@),
            lo <= k <= hi <= t.len(),
            strings_view(out@) == py_calls_in(tv, src@, lo as int, k as int),
        decreases hi - k,
    {
        match py_call_name_exec(t, src, k) {
            Some(x) => out.push(x),
            None => {},
        }
        k = k + 1;
        proof {
            assert(strings_view(out@) =~= py_calls_in(tv, src@, lo as int, k as int));
        }
    }
    out
}

fn py_bases_exec(t: &Vec<SyntaxNode>, src: &str, sp: usize) -> (r: Vec<String>)
    requires
        sp < t.len(),
    ensures
        strings_view(r@) == py_bases(nodes_view(t@), src@, named_children(nodes_view(t@), sp as int)),
{
    let ghost tv = nodes_view(t@);
    let args = named_children_exec(t, sp);
    let ghost av = args@.map_values(|x: usize| x as int);
    let mut out: Vec<String> = Vec::new();
    let mut k: usize = 0;
    while k < args.len()
        invariant
            tv == nodes_view(t@),
            av == args@.map_values(|x: usize| x as int),
            k <= args.len(),
            forall|q: int| 0 <= q < args@.len() ==> #[trigger] args@[q] < t.len(),
            strings_view(out@) == py_bases(tv, src@, av.take(k as int)),
        decreases args.len() - k,
    {
        let a = args[k];
        proof {
            assert(av.take(k + 1).drop_last() =~= av.take(k as int));
            assert(av.take(k + 1).last() == a as int);
        }
        if kind_is(t, a, "identifier") || kind_is(t, a, "attribute") {
            out.push(string_from_chars(&after_last_vec(&chars_of(node_text(t, src, a)), '.')));
        }
        k = k + 1;
        proof {
            assert(strings_view(out@) =~= py_bases(tv, src@, av.take(k as int)));
        }
    }
    proof {
        assert(av.take(args.len() as int) =~= av);
    }
    out
}

fn py_decl_exec(t: &Vec<SyntaxNode>, src: &str, def: usize, outer: usize) -> (r: Option<Decl>)
    requires
        def < t.len(),
        outer < t.len(),
    ensures
        match r {
            Some(d) => py_decl(nodes_view(t@), src@, def as int, outer as int) == Some(d@),
            None => py_decl(nodes_view(t@), src@, def as int, outer as int) is None,
        },
{
    let ghost tv = nodes_view(t@);
    let nm = match child_by_field_exec(t, def, "name") {
        Some(x) => x,
        None => return None,
    };
    let body = match child_by_field_exec(t, def, "body") {
        Some(x) => x,
        None => return None,
    };
    let is_class = kind_is(t, def, "class_definition");
    let kind: &'static str = if is_class {
        "class"
    } else {
        "function"
    };
    let signature = if is_class {
        py_class_signature_exec(t, src, def, body)
    } else {
        let h = py_header_exec(t, src, def, body);
        let mut v = chars_of(h.as_str());
        match py_docstring_exec(t, src, body) {
            Some(d) => {
                push_chars(&mut v, "\n    \"\"\"");
                push_chars(&mut v, d.as_str());
                push_chars(&mut v, "\"\"\"\n    ...\n");
            },
            None => {
                push_chars(&mut v, " ...\n");
            },
        }
        string_from_chars(&v)
    };
    let end = subtree_end_exec(t, def);
    let raw = py_calls_exec(t, src, def, end);
    let calls = sort_dedup(&raw);
    proof {
        lemma_sorted_distinct(strings_view(calls@), strings_view(raw@));
    }
    let bases = if is_class {
        match child_by_field_exec(t, def, "superclasses") {
            Some(sp) => py_bases_exec(t, src, sp),
            None => Vec::new(),
        }
    } else {
        Vec::new()
    };
    let d = Decl {
        kind,
        name: node_text(t, src, nm).to_string(),
        byte_start: t[outer].start_byte,
        byte_end: t[outer].end_byte,
        line_start: line_no_exec(t[outer].start_row),
        line_end: line_no_exec(t[outer].end_row),
        signature,
        calls,
        bases,
        impls: Vec::new(),
    };
    proof {
        assert(strings_view(d.impls@) =~= Seq::<Seq<char>>::empty());
        if !is_class {
            assert(strings_view(d.bases@) =~= Seq::<Seq<char>>::empty());
        } else if child_by_field(tv, def as int, "superclasses"@) is None {
            assert(strings_view(d.bases@) =~= Seq::<Seq<char>>::empty());
        }
        assert(d@ == py_decl(tv, src@, def as int, outer as int)->0);
    }
    Some(d)
}

fn py_decl_of_exec(t: &Vec<SyntaxNode>, src: &str, c: usize) -> (r: Option<Decl>)
    requires
        c < t.len(),
    ensures
        match r {
            Some(d) => py_decl_of(nodes_view(t@), src@, c as int) == Some(d@),
            None => py_decl_of(nodes_view(t@), src@, c as int) is None,
        },
{
    if kind_is(t, c, "function_definition") || kind_is(t, c, "class_definition") {
        py_decl_exec(t, src, c, c)
    } else if kind_is(t, c, "decorated_definition") {
        match child_by_field_exec(t, c, "definition") {
            Some(d) => py_decl_exec(t, src, d, c),
            None => None,
        }
    } else {
        None
    }
}

/// Declarations and imports of a parsed Python file (see [`py_scan`]).
pub fn python_scan(nodes: &Vec<SyntaxNode>, src: &str) -> (r: FileScan)
    ensures
        (decls_view(r.decls@), strings_view(r.imports@)) == py_scan(nodes_view(nodes@), src@),
{
    let ghost tv = nodes_view(nodes@);
    let mut decls: Vec<Decl> = Vec::new();
    let mut imports: Vec<String> = Vec::new();
    if nodes.len() == 0 {
        proof {
            assert(decls_view(decls@) =~= Seq::<DeclView>::empty());
            assert(strings_view(imports@) =~= Seq::<Seq<char>>::empty());
        }
        return FileScan { decls, imports };
    }
    let cs = named_children_exec(nodes, 0);
    let ghost cv = cs@.map_values(|x: usize| x as int);
    let mut k: usize = 0;
    while k < cs.len()
        invariant
            tv == nodes_view(nodes@),
            cv == cs@.map_values(|x: usize| x as int),
            k <= cs.len(),
            forall|q: int| 0 <= q < cs@.len() ==> #[trigger] cs@[q] < nodes.len(),
            (decls_view(decls@), strings_view(imports@)) == py_scan_of(tv, src@, cv.take(k as int)),
        decreases cs.len() - k,
    {
        let c = cs[k];
        proof {
            assert(cv.take(k + 1).drop_last() =~= cv.take(k as int));
            assert(cv.take(k + 1).last() == c as int);
        }
        match py_decl_of_exec(nodes, src, c) {
            Some(d) => decls.push(d),
            None => {},
        }
        let mut more = py_imports(nodes, src, c);
        imports.append(&mut more);
        k = k + 1;
        proof {
            assert(decls_view(decls@) =~= py_scan_of(tv, src@, cv.take(k as int)).0);
            assert(strings_view(imports@) =~= py_scan_of(tv, src@, cv.take(k as int)).1);
        }
    }
    proof {
        assert(cv.take(cs.len() as int) =~= cv);
    }
    FileScan { decls, imports }
}

} // verus!
