//! Language plugins: what a file scan yields, which plugin handles a path,
//! and which paths hold tests.

use vstd::prelude::*;
use crate::model::opt_view;
use crate::plan::strings_view;
use crate::langs::java::{java_scan, java_scan_file};
use crate::langs::python::{py_scan, python_scan};
use crate::langs::typescript::{ts_scan, typescript_scan};
use crate::syntax::{nodes_view, SyntaxNode, SyntaxNodeView};
use crate::text::{
    ascii_lower_seq, chars_of, contains_seq, ends_with, has_prefix, has_substring, has_suffix,
    chars_eq, last_segment, last_segment_vec, starts_with, to_ascii_lowercase,
};

verus! {

/// One top-level declaration extracted from a file.
#[derive(Debug)]
pub struct Decl {
    /// "function" | "class" | "interface" | "enum" | "type" | "record"
    pub kind: &'static str,
    pub name: String,
    pub byte_start: usize,
    pub byte_end: usize,
    pub line_start: usize,
    pub line_end: usize,
    /// Low-token skeleton: decl header (+ member signatures for types),
    /// bodies elided with `...`.
    pub signature: String,
    /// Simple names of functions/methods called within this declaration.
    pub calls: Vec<String>,
    /// Names of types this declaration extends.
    pub bases: Vec<String>,
    /// Names of interfaces this declaration implements.
    pub impls: Vec<String>,
}

/// Mathematical value of a [`Decl`].
pub ghost struct DeclView {
    pub kind: Seq<char>,
    pub name: Seq<char>,
    pub byte_start: int,
    pub byte_end: int,
    pub line_start: int,
    pub line_end: int,
    pub signature: Seq<char>,
    pub calls: Seq<Seq<char>>,
    pub bases: Seq<Seq<char>>,
    pub impls: Seq<Seq<char>>,
}

impl View for Decl {
    type V = DeclView;

    open spec fn view(&self) -> DeclView {
        DeclView {
            kind: self.kind@,
            name: self.name@,
            byte_start: self.byte_start as int,
            byte_end: self.byte_end as int,
            line_start: self.line_start as int,
            line_end: self.line_end as int,
            signature: self.signature@,
            calls: strings_view(self.calls@),
            bases: strings_view(self.bases@),
            impls: strings_view(self.impls@),
        }
    }
}

/// The views of a list of declarations.
pub open spec fn decls_view(v: Seq<Decl>) -> Seq<DeclView> {
    v.map_values(|d: Decl| d@)
}

/// Declarations and raw import targets of one file.
#[derive(Debug)]
pub struct FileScan {
    pub decls: Vec<Decl>,
    /// Raw import targets as written in source (module paths / specifiers).
    pub imports: Vec<String>,
}

impl Default for FileScan {
    fn default() -> (r: FileScan)
        ensures
            r.decls@.len() == 0,
            r.imports@.len() == 0,
    {
        FileScan { decls: Vec::new(), imports: Vec::new() }
    }
}

/// Python sources.
pub struct PythonPlugin;

/// TypeScript sources; with `tsx`, TSX and plain JavaScript sources.
pub struct TypeScriptPlugin {
    pub tsx: bool,
}

/// Java sources.
pub struct JavaPlugin;

/// Test files in Python: `test_*` or `*_test.py` names, or anything under a
/// `tests/` or `test/` directory.
pub open spec fn python_test_path(path: Seq<char>) -> bool {
    let name = last_segment(path);
    ||| has_prefix(name, "test_"@)
    ||| has_suffix(name, "_test.py"@)
    ||| has_substring(path, "tests/"@)
    ||| has_substring(path, "test/"@)
}

/// Test files in TypeScript/JavaScript: `.test.`/`.spec.` in the name, or
/// anything under `__tests__/`.
pub open spec fn ts_test_path(path: Seq<char>) -> bool {
    let name = last_segment(path);
    ||| has_substring(name, ".test."@)
    ||| has_substring(name, ".spec."@)
    ||| has_substring(path, "__tests__/"@)
}

/// Test files in Java: under `src/test/`, or named `*Test.java`,
/// `*Tests.java` or `*IT.java`.
pub open spec fn java_test_path(path: Seq<char>) -> bool {
    let name = last_segment(path);
    ||| has_substring(path, "src/test/"@)
    ||| has_suffix(name, "Test.java"@)
    ||| has_suffix(name, "Tests.java"@)
    ||| has_suffix(name, "IT.java"@)
}

/// Views of a list of extensions.
pub open spec fn exts_view(v: Seq<&'static str>) -> Seq<Seq<char>> {
    v.map_values(|e: &'static str| e@)
}

/// A language plugin: the interface through which a language joins the
/// index. A plugin names itself, claims file extensions, selects the
/// grammar its files are parsed with, scans a parsed file for declarations
/// and imports, and says which of its paths hold tests.
pub trait LanguagePlugin {
    /// The plugin's identifier.
    spec fn plugin_id(&self) -> Seq<char>;

    /// The dotted extensions the plugin claims, in order.
    spec fn plugin_extensions(&self) -> Seq<Seq<char>>;

    /// The grammar the plugin's files are parsed with.
    spec fn plugin_lang(&self) -> Lang;

    /// The plugin's rule for test files.
    spec fn test_path(&self, path: Seq<char>) -> bool;

    /// Declarations and imports the plugin finds in a parsed file.
    spec fn file_scan(&self, nodes: Seq<SyntaxNodeView>, src: Seq<char>) -> (Seq<DeclView>, Seq<Seq<char>>);

    /// The plugin's identifier.
    fn id(&self) -> (r: &'static str)
        ensures
            r@ == self.plugin_id(),
    ;

    /// The dotted extensions the plugin claims.
    fn extensions(&self) -> (r: Vec<&'static str>)
        ensures
            exts_view(r@) == self.plugin_extensions(),
    ;

    /// The grammar the plugin's files are parsed with.
    fn language(&self) -> (r: Lang)
        ensures
            r == self.plugin_lang(),
    ;

    /// Single pass over a parsed file: declarations and imports.
    fn scan(&self, nodes: &Vec<SyntaxNode>, src: &str) -> (r: FileScan)
        ensures
            (decls_view(r.decls@), strings_view(r.imports@)) == self.file_scan(nodes_view(nodes@), src@),
    ;

    /// Whether `path` holds tests.
    fn is_test_path(&self, path: &str) -> (r: bool)
        ensures
            r == self.test_path(path@),
    ;
}

impl LanguagePlugin for PythonPlugin {
    open spec fn plugin_id(&self) -> Seq<char> {
        "python"@
    }

    open spec fn plugin_extensions(&self) -> Seq<Seq<char>> {
        seq![".py"@]
    }

    open spec fn plugin_lang(&self) -> Lang {
        Lang::Python
    }

    open spec fn test_path(&self, path: Seq<char>) -> bool {
        python_test_path(path)
    }

    open spec fn file_scan(&self, nodes: Seq<SyntaxNodeView>, src: Seq<char>) -> (Seq<DeclView>, Seq<Seq<char>>) {
        py_scan(nodes, src)
    }

    fn id(&self) -> (r: &'static str) {
        "python"
    }

    fn extensions(&self) -> (r: Vec<&'static str>) {
        let r = vec![".py"];
        assert(exts_view(r@) =~= seq![".py"@]);
        r
    }

    fn language(&self) -> (r: Lang) {
        Lang::Python
    }

    fn scan(&self, nodes: &Vec<SyntaxNode>, src: &str) -> (r: FileScan) {
        python_scan(nodes, src)
    }

    fn is_test_path(&self, path: &str) -> (r: bool) {
        let p = chars_of(path);
        let name = last_segment_vec(&p);
        starts_with(&name, &chars_of("test_")) || ends_with(&name, &chars_of("_test.py"))
            || contains_seq(&p, &chars_of("tests/")) || contains_seq(&p, &chars_of("test/"))
    }
}

impl LanguagePlugin for TypeScriptPlugin {
    open spec fn plugin_id(&self) -> Seq<char> {
        if self.tsx {
            "tsx"@
        } else {
            "typescript"@
        }
    }

    /// The TSX grammar is a near-superset of JS/JSX, so plain JS files are
    /// handled by the TSX plugin too.
    open spec fn plugin_extensions(&self) -> Seq<Seq<char>> {
        if self.tsx {
            seq![".tsx"@, ".jsx"@, ".js"@, ".mjs"@, ".cjs"@]
        } else {
            seq![".ts"@, ".mts"@, ".cts"@]
        }
    }

    open spec fn plugin_lang(&self) -> Lang {
        if self.tsx {
            Lang::Tsx
        } else {
            Lang::TypeScript
        }
    }

    open spec fn test_path(&self, path: Seq<char>) -> bool {
        ts_test_path(path)
    }

    open spec fn file_scan(&self, nodes: Seq<SyntaxNodeView>, src: Seq<char>) -> (Seq<DeclView>, Seq<Seq<char>>) {
        ts_scan(nodes, src)
    }

    fn id(&self) -> (r: &'static str) {
        if self.tsx {
            "tsx"
        } else {
            "typescript"
        }
    }

    fn extensions(&self) -> (r: Vec<&'static str>) {
        if self.tsx {
            let r = vec![".tsx", ".jsx", ".js", ".mjs", ".cjs"];
            assert(exts_view(r@) =~= seq![".tsx"@, ".jsx"@, ".js"@, ".mjs"@, ".cjs"@]);
            r
        } else {
            let r = vec![".ts", ".mts", ".cts"];
            assert(exts_view(r@) =~= seq![".ts"@, ".mts"@, ".cts"@]);
            r
        }
    }

    fn language(&self) -> (r: Lang) {
        if self.tsx {
            Lang::Tsx
        } else {
            Lang::TypeScript
        }
    }

    fn scan(&self, nodes: &Vec<SyntaxNode>, src: &str) -> (r: FileScan) {
        typescript_scan(nodes, src)
    }

    fn is_test_path(&self, path: &str) -> (r: bool) {
        let p = chars_of(path);
        let name = last_segment_vec(&p);
        contains_seq(&name, &chars_of(".test.")) || contains_seq(&name, &chars_of(".spec."))
            || contains_seq(&p, &chars_of("__tests__/"))
    }
}

impl LanguagePlugin for JavaPlugin {
    open spec fn plugin_id(&self) -> Seq<char> {
        "java"@
    }

    open spec fn plugin_extensions(&self) -> Seq<Seq<char>> {
        seq![".java"@]
    }

    open spec fn plugin_lang(&self) -> Lang {
        Lang::Java
    }

    open spec fn test_path(&self, path: Seq<char>) -> bool {
        java_test_path(path)
    }

    open spec fn file_scan(&self, nodes: Seq<SyntaxNodeView>, src: Seq<char>) -> (Seq<DeclView>, Seq<Seq<char>>) {
        java_scan(nodes, src)
    }

    fn id(&self) -> (r: &'static str) {
        "java"
    }

    fn extensions(&self) -> (r: Vec<&'static str>) {
        let r = vec![".java"];
        assert(exts_view(r@) =~= seq![".java"@]);
        r
    }

    fn language(&self) -> (r: Lang) {
        Lang::Java
    }

    fn scan(&self, nodes: &Vec<SyntaxNode>, src: &str) -> (r: FileScan) {
        java_scan_file(nodes, src)
    }

    fn is_test_path(&self, path: &str) -> (r: bool) {
        let p = chars_of(path);
        let name = last_segment_vec(&p);
        contains_seq(&p, &chars_of("src/test/")) || ends_with(&name, &chars_of("Test.java"))
            || ends_with(&name, &chars_of("Tests.java")) || ends_with(&name, &chars_of("IT.java"))
    }
}

/// The extension of a path as `std::path::Path::extension` finds it.
pub uninterp spec fn path_extension_spec(path: Seq<char>) -> Option<Seq<char>>;

/// Wrapper of `std::path::Path::extension` (read as UTF-8): the part of the
/// final file name after its last `.`, when the name has one that does not
/// begin it.
#[verifier::external_body]
fn path_extension(path: &str) -> (r: Option<String>)
    ensures
        opt_view(r) == path_extension_spec(path@),
{
    match std::path::Path::new(path).extension() {
        Some(e) => match e.to_str() {
            Some(s) => Some(s.to_string()),
            None => None,
        },
        None => None,
    }
}

/// The plugins, one per grammar.
#[derive(Clone, Copy, Debug, PartialEq, Eq, Structural)]
pub enum Lang {
    Python,
    TypeScript,
    Tsx,
    Java,
}

/// Plugin identifier of a language.
pub open spec fn lang_id(l: Lang) -> Seq<char> {
    match l {
        Lang::Python => "python"@,
        Lang::TypeScript => "typescript"@,
        Lang::Tsx => "tsx"@,
        Lang::Java => "java"@,
    }
}

/// The plugin claiming a dotted, lowercased extension; plugins are asked in
/// the order Python, TypeScript, TSX, Java.
pub open spec fn lang_for_ext(dotted: Seq<char>) -> Option<Lang> {
    if dotted == ".py"@ {
        Some(Lang::Python)
    } else if dotted == ".ts"@ || dotted == ".mts"@ || dotted == ".cts"@ {
        Some(Lang::TypeScript)
    } else if dotted == ".tsx"@ || dotted == ".jsx"@ || dotted == ".js"@ || dotted == ".mjs"@
        || dotted == ".cjs"@ {
        Some(Lang::Tsx)
    } else if dotted == ".java"@ {
        Some(Lang::Java)
    } else {
        None
    }
}

/// The plugin for a path: by its extension, compared case-insensitively.
pub open spec fn plugin_for_spec(path: Seq<char>) -> Option<Lang> {
    match path_extension_spec(path) {
        Some(e) => lang_for_ext(seq!['.'] + ascii_lower_seq(e)),
        None => None,
    }
}

/// The plugin claiming extension `ext` (given without its dot).
pub fn plugin_for_extension(ext: &str) -> (r: Option<Lang>)
    ensures
        r == lang_for_ext(seq!['.'] + ascii_lower_seq(ext@)),
{
    let mut d: Vec<char> = vec!['.'];
    let mut low = to_ascii_lowercase(&chars_of(ext));
    d.append(&mut low);
    proof {
        assert(d@ =~= seq!['.'] + ascii_lower_seq(ext@));
    }
    if chars_eq(&d, &chars_of(".py")) {
        Some(Lang::Python)
    } else if chars_eq(&d, &chars_of(".ts")) || chars_eq(&d, &chars_of(".mts")) || chars_eq(
        &d,
        &chars_of(".cts"),
    ) {
        Some(Lang::TypeScript)
    } else if chars_eq(&d, &chars_of(".tsx")) || chars_eq(&d, &chars_of(".jsx")) || chars_eq(
        &d,
        &chars_of(".js"),
    ) || chars_eq(&d, &chars_of(".mjs")) || chars_eq(&d, &chars_of(".cjs")) {
        Some(Lang::Tsx)
    } else if chars_eq(&d, &chars_of(".java")) {
        Some(Lang::Java)
    } else {
        None
    }
}

/// The plugin handling a path, if any.
pub fn plugin_for(path: &str) -> (r: Option<Lang>)
    ensures
        r == plugin_for_spec(path@),
{
    match path_extension(path) {
        Some(e) => plugin_for_extension(&e),
        None => None,
    }
}

/// A language's rule for test files.
pub open spec fn lang_test_path(l: Lang, path: Seq<char>) -> bool {
    match l {
        Lang::Python => python_test_path(path),
        Lang::TypeScript | Lang::Tsx => ts_test_path(path),
        Lang::Java => java_test_path(path),
    }
}

impl Lang {
    /// Plugin identifier.
    pub fn id(&self) -> (r: &'static str)
        ensures
            r@ == lang_id(*self),
    {
        match self {
            Lang::Python => LanguagePlugin::id(&PythonPlugin),
            Lang::TypeScript => LanguagePlugin::id(&TypeScriptPlugin { tsx: false }),
            Lang::Tsx => LanguagePlugin::id(&TypeScriptPlugin { tsx: true }),
            Lang::Java => LanguagePlugin::id(&JavaPlugin),
        }
    }

    /// Whether `path` holds tests, by the plugin's own rule.
    pub fn is_test_path(&self, path: &str) -> (r: bool)
        ensures
            r == lang_test_path(*self, path@),
    {
        match self {
            Lang::Python => LanguagePlugin::is_test_path(&PythonPlugin, path),
            Lang::TypeScript => LanguagePlugin::is_test_path(&TypeScriptPlugin { tsx: false }, path),
            Lang::Tsx => LanguagePlugin::is_test_path(&TypeScriptPlugin { tsx: true }, path),
            Lang::Java => LanguagePlugin::is_test_path(&JavaPlugin, path),
        }
    }
}

/// A plugin agrees with the routing of files: every extension it claims
/// routes to its own grammar, and its identifier and test rule are those of
/// that grammar.
pub open spec fn plugin_consistent<P: LanguagePlugin>(p: P) -> bool {
    &&& forall|k: int|
        0 <= k < p.plugin_extensions().len() ==> lang_for_ext(#[trigger] p.plugin_extensions()[k]) == Some(
            p.plugin_lang(),
        )
    &&& p.plugin_id() == lang_id(p.plugin_lang())
    &&& forall|path: Seq<char>| #[trigger] p.test_path(path) == lang_test_path(p.plugin_lang(), path)
}

/// The four plugins (Python, TypeScript, TSX, Java) agree with the routing
/// of files.
pub proof fn lemma_plugins_consistent()
    ensures
        plugin_consistent(PythonPlugin),
        plugin_consistent(TypeScriptPlugin { tsx: false }),
        plugin_consistent(TypeScriptPlugin { tsx: true }),
        plugin_consistent(JavaPlugin),
{
    lemma_ext_routes();
    let ts = TypeScriptPlugin { tsx: false };
    let tsx = TypeScriptPlugin { tsx: true };
    assert forall|k: int| 0 <= k < ts.plugin_extensions().len() implies lang_for_ext(
        #[trigger] ts.plugin_extensions()[k],
    ) == Some(ts.plugin_lang()) by {
        if k == 0 {
        } else if k == 1 {
        } else {
        }
    }
    assert forall|k: int| 0 <= k < tsx.plugin_extensions().len() implies lang_for_ext(
        #[trigger] tsx.plugin_extensions()[k],
    ) == Some(tsx.plugin_lang()) by {
        if k == 0 {
        } else if k == 1 {
        } else if k == 2 {
        } else if k == 3 {
        } else {
        }
    }
    assert forall|k: int| 0 <= k < PythonPlugin.plugin_extensions().len() implies lang_for_ext(
        #[trigger] PythonPlugin.plugin_extensions()[k],
    ) == Some(PythonPlugin.plugin_lang()) by {
    }
    assert forall|k: int| 0 <= k < JavaPlugin.plugin_extensions().len() implies lang_for_ext(
        #[trigger] JavaPlugin.plugin_extensions()[k],
    ) == Some(JavaPlugin.plugin_lang()) by {
    }
}

proof fn lemma_ext_routes()
    ensures
        lang_for_ext(".py"@) == Some(Lang::Python),
        lang_for_ext(".ts"@) == Some(Lang::TypeScript),
        lang_for_ext(".mts"@) == Some(Lang::TypeScript),
        lang_for_ext(".cts"@) == Some(Lang::TypeScript),
        lang_for_ext(".tsx"@) == Some(Lang::Tsx),
        lang_for_ext(".jsx"@) == Some(Lang::Tsx),
        lang_for_ext(".js"@) == Some(Lang::Tsx),
        lang_for_ext(".mjs"@) == Some(Lang::Tsx),
        lang_for_ext(".cjs"@) == Some(Lang::Tsx),
        lang_for_ext(".java"@) == Some(Lang::Java),
{
    reveal_strlit(".py");
    reveal_strlit(".ts");
    reveal_strlit(".mts");
    reveal_strlit(".cts");
    reveal_strlit(".tsx");
    reveal_strlit(".jsx");
    reveal_strlit(".js");
    reveal_strlit(".mjs");
    reveal_strlit(".cjs");
    reveal_strlit(".java");
    assert(".ts"@[1] != ".py"@[1]);
    assert(".mts"@.len() != ".py"@.len() && ".mts"@.len() != ".ts"@.len());
    assert(".cts"@.len() != ".py"@.len() && ".cts"@.len() != ".ts"@.len() && ".cts"@[1] != ".mts"@[1]);
    assert(".tsx"@.len() != ".py"@.len() && ".tsx"@.len() != ".ts"@.len() && ".tsx"@[1] != ".mts"@[1]
        && ".tsx"@[1] != ".cts"@[1]);
    assert(".jsx"@.len() != ".py"@.len() && ".jsx"@.len() != ".ts"@.len() && ".jsx"@[1] != ".mts"@[1]
        && ".jsx"@[1] != ".cts"@[1]);
    assert(".js"@[1] != ".py"@[1] && ".js"@[1] != ".ts"@[1] && ".js"@.len() != ".mts"@.len()
        && ".js"@.len() != ".cts"@.len());
    assert(".mjs"@.len() != ".py"@.len() && ".mjs"@.len() != ".ts"@.len() && ".mjs"@[2] != ".mts"@[2]
        && ".mjs"@[1] != ".cts"@[1]);
    assert(".cjs"@.len() != ".py"@.len() && ".cjs"@.len() != ".ts"@.len() && ".cjs"@[1] != ".mts"@[1]
        && ".cjs"@[2] != ".cts"@[2]);
    assert(".java"@.len() != ".py"@.len() && ".java"@.len() != ".ts"@.len() && ".java"@.len()
        != ".mts"@.len() && ".java"@.len() != ".cts"@.len() && ".java"@.len() != ".tsx"@.len()
        && ".java"@.len() != ".jsx"@.len() && ".java"@.len() != ".js"@.len() && ".java"@.len()
        != ".mjs"@.len() && ".java"@.len() != ".cjs"@.len());
}

/// Language tag of a file: its plugin's id, else `markdown` for `.md` and
/// `.markdown` files, else `text`.
pub open spec fn file_lang_spec(path: Seq<char>) -> Seq<char> {
    match plugin_for_spec(path) {
        Some(l) => lang_id(l),
        None => if has_suffix(path, ".md"@) || has_suffix(path, ".markdown"@) {
            "markdown"@
        } else {
            "text"@
        },
    }
}

/// Language tag of a file (see [`file_lang_spec`]).
pub fn file_lang(path: &str) -> (r: String)
    ensures
        r@ == file_lang_spec(path@),
{
    match plugin_for(path) {
        Some(l) => l.id().to_string(),
        None => {
            let p = chars_of(path);
            if ends_with(&p, &chars_of(".md")) || ends_with(&p, &chars_of(".markdown")) {
                "markdown".to_string()
            } else {
                "text".to_string()
            }
        },
    }
}

} // verus!
