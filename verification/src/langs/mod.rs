//! Language scanners: declarations and imports of parsed files.

pub mod java;
pub mod python;
pub mod typescript;

use vstd::prelude::*;
use crate::plan::strings_view;
use crate::plugin::{decls_view, DeclView, FileScan, Lang};
use crate::syntax::{nodes_view, SyntaxNode, SyntaxNodeView};

verus! {

/// The scan a language's plugin makes of a parsed file.
pub open spec fn lang_scan(l: Lang, t: Seq<SyntaxNodeView>, s: Seq<char>) -> (Seq<DeclView>, Seq<Seq<char>>) {
    match l {
        Lang::Python => python::py_scan(t, s),
        Lang::TypeScript | Lang::Tsx => typescript::ts_scan(t, s),
        Lang::Java => java::java_scan(t, s),
    }
}

impl Lang {
    /// Declarations and imports of a parsed file, by this language's plugin.
    pub fn scan(&self, nodes: &Vec<SyntaxNode>, src: &str) -> (r: FileScan)
        ensures
            (decls_view(r.decls@), strings_view(r.imports@)) == lang_scan(*self, nodes_view(nodes@), src@),
    {
        match self {
            Lang::Python => python::python_scan(nodes, src),
            Lang::TypeScript | Lang::Tsx => typescript::typescript_scan(nodes, src),
            Lang::Java => java::java_scan_file(nodes, src),
        }
    }
}

} // verus!
