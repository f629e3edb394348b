use packmind::plugin::{
    file_lang, plugin_for, plugin_for_extension, JavaPlugin, Lang, LanguagePlugin, PythonPlugin, TypeScriptPlugin,
};
use packmind::profile::{mode_names, Mode};

#[test]
fn plugin_by_extension() {
    assert_eq!(plugin_for("a/b.py"), Some(Lang::Python));
    assert_eq!(plugin_for("a/b.PY"), Some(Lang::Python));
    assert_eq!(plugin_for("x.ts"), Some(Lang::TypeScript));
    assert_eq!(plugin_for("x.mts"), Some(Lang::TypeScript));
    assert_eq!(plugin_for("x.tsx"), Some(Lang::Tsx));
    assert_eq!(plugin_for("x.js"), Some(Lang::Tsx));
    assert_eq!(plugin_for("x.cjs"), Some(Lang::Tsx));
    assert_eq!(plugin_for("Main.java"), Some(Lang::Java));
    assert_eq!(plugin_for("README.md"), None);
    assert_eq!(plugin_for(".py"), None);
    assert_eq!(plugin_for("Makefile"), None);
}

#[test]
fn file_language_tags() {
    assert_eq!(file_lang("a.py"), "python");
    assert_eq!(file_lang("a.tsx"), "tsx");
    assert_eq!(file_lang("a.ts"), "typescript");
    assert_eq!(file_lang("docs/x.md"), "markdown");
    assert_eq!(file_lang("docs/x.markdown"), "markdown");
    assert_eq!(file_lang("notes.txt"), "text");
}

#[test]
fn plugin_ids_and_extensions() {
    assert_eq!(PythonPlugin.id(), "python");
    assert_eq!(PythonPlugin.extensions(), vec![".py"]);
    assert_eq!(TypeScriptPlugin { tsx: false }.id(), "typescript");
    assert_eq!(TypeScriptPlugin { tsx: true }.id(), "tsx");
    assert_eq!(TypeScriptPlugin { tsx: true }.extensions().len(), 5);
    assert_eq!(JavaPlugin.extensions(), vec![".java"]);
    assert_eq!(Lang::Tsx.id(), "tsx");
}

#[test]
fn test_paths() {
    let py = PythonPlugin;
    assert!(py.is_test_path("tests/test_payments.py"));
    assert!(py.is_test_path("test_x.py"));
    assert!(py.is_test_path("pkg/x_test.py"));
    assert!(py.is_test_path("a/test/b.py"));
    assert!(!py.is_test_path("pkg/payments.py"));
    let ts = TypeScriptPlugin { tsx: false };
    assert!(ts.is_test_path("src/a.test.ts"));
    assert!(ts.is_test_path("src/a.spec.tsx"));
    assert!(ts.is_test_path("src/__tests__/a.ts"));
    assert!(!ts.is_test_path("src/test.ts"));
    let java = JavaPlugin;
    assert!(java.is_test_path("src/test/java/A.java"));
    assert!(java.is_test_path("x/FooTest.java"));
    assert!(java.is_test_path("x/FooTests.java"));
    assert!(java.is_test_path("x/FooIT.java"));
    assert!(!java.is_test_path("src/main/java/Foo.java"));
    assert!(Lang::Java.is_test_path("x/FooIT.java"));
}

#[test]
fn modes_parse_and_name() {
    assert_eq!(Mode::parse("").unwrap(), Mode::Default);
    assert_eq!(Mode::parse("default").unwrap(), Mode::Default);
    assert_eq!(Mode::parse("bugfix").unwrap(), Mode::Bugfix);
    assert_eq!(Mode::parse("pr").unwrap(), Mode::Pr);
    for n in mode_names() {
        assert_eq!(Mode::parse(n).unwrap().name(), n);
    }
    let e = Mode::parse("fast").unwrap_err();
    assert_eq!(
        e.message(),
        "unknown mode 'fast' (expected one of: default|bugfix|refactor|test|security|architecture|pr)"
    );
}

fn assert_routes_back<P: LanguagePlugin>(p: &P) {
    for e in p.extensions() {
        assert_eq!(plugin_for_extension(&e[1..]), Some(p.language()));
        assert_eq!(plugin_for(&format!("src/x{e}")), Some(p.language()));
    }
    assert_eq!(p.id(), p.language().id());
    for path in ["tests/test_a.py", "src/a.test.ts", "x/FooIT.java", "src/main.rs"] {
        assert_eq!(p.is_test_path(path), p.language().is_test_path(path));
    }
}

#[test]
fn every_plugin_extension_routes_back_to_its_plugin() {
    assert_routes_back(&PythonPlugin);
    assert_routes_back(&TypeScriptPlugin { tsx: false });
    assert_routes_back(&TypeScriptPlugin { tsx: true });
    assert_routes_back(&JavaPlugin);
    assert_eq!(JavaPlugin.language(), Lang::Java);
}
