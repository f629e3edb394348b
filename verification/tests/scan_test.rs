use packmind::plugin::{Decl, FileScan, JavaPlugin, Lang, LanguagePlugin, PythonPlugin, TypeScriptPlugin};
use packmind::syntax::parse;

const PAYMENTS: &str = "from fx import FxRateService\n\n\nclass PaymentValidator:\n    \"\"\"Validates payments.\"\"\"\n\n    def __init__(self, fx):\n        self.fx = fx\n\n    def validate(self, payment):\n        usd = self.fx.convert(payment[\"amount\"], payment[\"currency\"], \"USD\")\n        assert usd > 0\n\n\ndef process_payment(validator, payment):\n    validator.validate(payment)\n    return \"ok\"\n";

fn scan(lang: Lang, src: &str) -> FileScan {
    let nodes = parse(lang, src).expect("parses");
    lang.scan(&nodes, src)
}

fn find<'a>(s: &'a FileScan, name: &str) -> &'a Decl {
    s.decls.iter().find(|d| d.name == name).expect(name)
}

#[test]
fn python_declarations_and_imports() {
    let s = scan(Lang::Python, PAYMENTS);
    assert_eq!(s.imports, vec!["fx".to_string()]);
    assert_eq!(s.decls.len(), 2);
    let v = find(&s, "PaymentValidator");
    assert_eq!(v.kind, "class");
    assert_eq!((v.line_start, v.line_end), (4, 12));
    assert_eq!(&PAYMENTS[v.byte_start..v.byte_end][..22], "class PaymentValidator");
    assert_eq!(
        v.signature,
        "class PaymentValidator:\n    \"\"\"Validates payments.\"\"\"\n    def __init__(self, fx): ...\n    def validate(self, payment): ...\n"
    );
    assert_eq!(v.calls, vec!["convert".to_string()]);
    assert!(v.bases.is_empty() && v.impls.is_empty());
    let p = find(&s, "process_payment");
    assert_eq!(p.kind, "function");
    assert_eq!((p.line_start, p.line_end), (15, 17));
    assert_eq!(p.signature, "def process_payment(validator, payment): ...\n");
    assert_eq!(p.calls, vec!["validate".to_string()]);
}

#[test]
fn python_decorated_bases_docstring_and_import_forms() {
    let src = "import os, a.b as c\n\n@dec\ndef f(x):\n    \"\"\"Do f.\n\n    More.\"\"\"\n    return g(x) + h.k(x) + g(1)\n\nclass C(base.Base, Mixin):\n    @property\n    def p(self):\n        return 1\n";
    let s = PythonPlugin.scan(&parse(Lang::Python, src).unwrap(), src);
    assert_eq!(s.imports, vec!["os".to_string(), "a.b".to_string()]);
    let f = find(&s, "f");
    assert_eq!(f.line_start, 3);
    assert!(src[f.byte_start..].starts_with("@dec"));
    assert_eq!(f.signature, "def f(x):\n    \"\"\"Do f.\"\"\"\n    ...\n");
    assert_eq!(f.calls, vec!["g".to_string(), "k".to_string()]);
    let c = find(&s, "C");
    assert_eq!(c.bases, vec!["Base".to_string(), "Mixin".to_string()]);
    assert_eq!(c.signature, "class C(base.Base, Mixin):\n    def p(self): ...\n");
}

#[test]
fn java_types_and_imports() {
    let src = "package com.x;\n\nimport java.util.List;\nimport static java.lang.Math.max;\n\npublic class Foo extends Bar implements Baz, Qux {\n    private int n = 1;\n\n    public Foo(int n) { this.n = n; }\n\n    public int run(List<String> xs) {\n        Helper h = new com.x.Helper<String>();\n        return h.go(xs.size());\n    }\n}\n\ninterface Baz { void go(); }\n";
    let s = JavaPlugin.scan(&parse(Lang::Java, src).unwrap(), src);
    assert_eq!(s.imports, vec!["java.util.List".to_string(), "java.lang.Math.max".to_string()]);
    let foo = find(&s, "Foo");
    assert_eq!(foo.kind, "class");
    assert_eq!(foo.bases, vec!["Bar".to_string()]);
    assert_eq!(foo.impls, vec!["Baz".to_string(), "Qux".to_string()]);
    assert_eq!(foo.calls, vec!["Helper".to_string(), "go".to_string(), "size".to_string()]);
    assert_eq!(
        foo.signature,
        "public class Foo extends Bar implements Baz, Qux {\n  private int n = 1;\n  public Foo(int n);\n  public int run(List<String> xs);\n}\n"
    );
    let baz = find(&s, "Baz");
    assert_eq!(baz.kind, "interface");
    assert_eq!((baz.line_start, baz.line_end), (17, 17));
}

#[test]
fn typescript_declarations_and_imports() {
    let src = "import { a } from \"./util\";\nimport b from 'lib';\n\nexport function add(x: number, y: number): number {\n  return helper(x) + obj.method(y);\n}\n\nexport class Shape extends Base implements Drawable {\n  area(): number { return this.compute(); }\n}\n\ninterface Point { x: number; y: number }\n\ntype Id = string;\n\nconst arrow = (z) => { return z * 2; };\n\nenum Color { Red, Green }\n";
    let s = TypeScriptPlugin { tsx: false }.scan(&parse(Lang::TypeScript, src).unwrap(), src);
    assert_eq!(s.imports, vec!["./util".to_string(), "lib".to_string()]);
    let add = find(&s, "add");
    assert_eq!(add.kind, "function");
    assert_eq!((add.line_start, add.line_end), (4, 6));
    assert_eq!(add.signature, "export function add(x: number, y: number): number ...\n");
    assert_eq!(add.calls, vec!["helper".to_string(), "method".to_string()]);
    let shape = find(&s, "Shape");
    assert_eq!(shape.kind, "class");
    assert_eq!(shape.bases, vec!["Base".to_string()]);
    assert_eq!(shape.impls, vec!["Drawable".to_string()]);
    assert_eq!(shape.calls, vec!["compute".to_string()]);
    assert_eq!(
        shape.signature,
        "export class Shape extends Base implements Drawable {\n  area(): number ...\n}\n"
    );
    assert_eq!(find(&s, "Point").kind, "interface");
    assert_eq!(find(&s, "Point").signature, "interface Point { x: number; y: number }\n");
    assert_eq!(find(&s, "Id").signature, "type Id = string;\n");
    let arrow = find(&s, "arrow");
    assert_eq!(arrow.kind, "function");
    assert_eq!(arrow.signature, "const arrow = (z) => ...\n");
    assert_eq!(find(&s, "Color").kind, "enum");
    assert_eq!(s.decls.len(), 6);
}

#[test]
fn javascript_goes_through_tsx() {
    let src = "export const f = function () { return g(); };\n";
    let s = Lang::Tsx.scan(&parse(Lang::Tsx, src).unwrap(), src);
    let f = find(&s, "f");
    assert_eq!(f.calls, vec!["g".to_string()]);
    assert!(f.signature.starts_with("export const f = function ()"));
}

#[test]
fn long_type_declarations_show_their_first_line() {
    let mut src = String::from("interface Big {\n");
    for i in 0..14 {
        src.push_str(&format!("  f{i}: number;\n"));
    }
    src.push_str("}\n");
    let s = TypeScriptPlugin { tsx: false }.scan(&parse(Lang::TypeScript, &src).unwrap(), &src);
    assert_eq!(find(&s, "Big").signature, "interface Big { ...\n");
}

#[test]
fn empty_node_list_scans_to_nothing() {
    let s = PythonPlugin.scan(&Vec::new(), "x");
    assert!(s.decls.is_empty() && s.imports.is_empty());
}
