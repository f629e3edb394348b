use packmind::edges::{
    chunk_edges, doc_mention_edges, module_candidates, module_query, pick_module_hit, MentionIndex,
    ModuleQuery, SymbolEntry, SymbolTable,
};
use packmind::hotset::{choose_hot_set, HotCandidate};
use packmind::index::{
    decide_file, index_file, is_dirty, plan_counts, stat_unchanged, FileAction, FilePlan,
    IndexOptions, IndexReport,
};
use packmind::model::{EdgeKind, NodeId, NodeKind};
use packmind::norm::pm_norm_1;
use packmind::store::FileRow;

const FX: &str = "class FxRateService:\n    \"\"\"Rates.\"\"\"\n\n    def get_rate(self, base, quote):\n        return 1.0\n\n    def convert(self, amount, base, quote):\n        return amount * self.get_rate(base, quote)\n";
const PAYMENTS: &str = "from fx import FxRateService\n\n\nclass PaymentValidator:\n    \"\"\"Validates payments.\"\"\"\n\n    def __init__(self, fx):\n        self.fx = fx\n\n    def validate(self, payment):\n        usd = self.fx.convert(payment[\"amount\"], payment[\"currency\"], \"USD\")\n        assert usd > 0\n\n\ndef process_payment(validator, payment):\n    validator.validate(payment)\n    return \"ok\"\n";
const TEST_PAYMENTS: &str = "from payments import PaymentValidator, process_payment\n\n\ndef test_validate():\n    v = PaymentValidator(None)\n    process_payment(v, {\"amount\": 1, \"currency\": \"USD\"})\n";
const README: &str = "# Demo\n\nPaymentValidator validates payments using FxRateService.\n";

fn plan(rel: &str, text: &str, existing: &Option<FileRow>) -> FilePlan {
    let raw = text.as_bytes();
    match decide_file(rel, existing, true, raw, 1, raw.len() as i64) {
        FileAction::Index(norm, sha) => index_file(rel, &norm, &sha, 1, raw.len() as i64, existing),
        other => panic!("unexpected {other:?}"),
    }
}

fn chunk_ids(p: &FilePlan) -> Vec<NodeId> {
    p.chunks.iter().map(|c| c.chunk.id).collect()
}

fn entries(plans: &[&FilePlan]) -> Vec<SymbolEntry> {
    let mut out = Vec::new();
    for p in plans {
        for c in &p.chunks {
            out.push(SymbolEntry {
                id: c.chunk.id,
                symbol: c.chunk.symbol.clone().unwrap(),
                path: c.chunk.path.clone(),
                role: c.chunk.role.clone(),
            });
        }
    }
    out
}

#[test]
fn index_builds_chunks_signatures_and_edges() {
    let fx = plan("fx.py", FX, &None);
    let pay = plan("payments.py", PAYMENTS, &None);
    let test = plan("tests/test_payments.py", TEST_PAYMENTS, &None);
    let readme = plan("README.md", README, &None);
    let chunks = fx.chunks.len() + pay.chunks.len() + test.chunks.len();
    assert!(chunks >= 4, "expected chunks");
    assert!(pay.chunks.iter().all(|c| c.signature.kind == NodeKind::Signature));
    assert_eq!(readme.docs.len(), 1, "README should produce doc chunks");
    assert!(test.is_test);
    assert_eq!(test.chunks[0].chunk.role, "test");
    let table = SymbolTable::new(entries(&[&fx, &pay, &test]));
    let mut edges = Vec::new();
    for p in [&fx, &pay, &test] {
        for c in &p.chunks {
            edges.extend(chunk_edges(&table, &c.edges));
        }
    }
    assert!(edges.len() >= 2, "expected call/test edges");
    assert!(edges.iter().any(|e| e.kind == EdgeKind::TestedBy));
    let mi = MentionIndex::new(&table);
    let mentions = doc_mention_edges(&table, &mi, &readme.doc_mentions[0]);
    assert_eq!(mentions.len(), 2);
    assert!(mentions.iter().all(|e| e.kind == EdgeKind::MentionsDoc && e.weight_centi == 70));
}

#[test]
fn comment_only_change_preserves_sibling_chunks() {
    let first = plan("payments.py", PAYMENTS, &None);
    let before = chunk_ids(&first);
    assert!(before.len() >= 2);
    let edited = format!("# updated header comment\n{PAYMENTS}");
    let second = plan("payments.py", &edited, &Some(first.row));
    let after = chunk_ids(&second);
    assert_eq!(before.len(), after.len());
    for id in &before {
        assert!(after.contains(id), "chunk identity must survive a comment-only change");
    }
    assert_eq!(second.staled.len(), 0, "no chunk should be invalidated");
    assert!(second.chunks.iter().all(|c| c.preserved));
}

#[test]
fn editing_one_function_invalidates_only_it() {
    let first = plan("payments.py", PAYMENTS, &None);
    let edited = PAYMENTS.replace("return \"ok\"", "return \"settled\"");
    assert_ne!(PAYMENTS, edited);
    let second = plan("payments.py", &edited, &Some(first.row));
    assert_eq!(second.staled.len(), 1, "only process_payment should invalidate");
    assert_eq!(second.added.len(), 1);
    assert!(second.chunks.iter().filter(|c| c.preserved).count() >= 1);
    let kept = second.chunks.iter().find(|c| c.chunk.symbol.as_deref() == Some("PaymentValidator")).unwrap();
    assert!(kept.preserved, "PaymentValidator must be preserved");
    assert_eq!(second.supersedes, Some((second.added[0], second.staled[0])));
}

#[test]
fn reindex_is_idempotent() {
    let first = plan("payments.py", PAYMENTS, &None);
    let n = first.chunks.len();
    let second = plan("payments.py", PAYMENTS, &Some(first.row));
    assert!(second.staled.is_empty() && second.added.is_empty());
    assert_eq!(second.chunks.iter().filter(|c| c.preserved).count(), n);
    assert!(second.supersedes.is_none());
}

#[test]
fn file_decisions() {
    let row = FileRow {
        path: "a.py".into(),
        file_node: None,
        merkle: vec![],
        mtime: 5,
        size: 10,
        content_sha: Some(packmind::hash::sha256_hex(b"x\n")),
        skipped: None,
    };
    let existing = Some(row);
    assert!(stat_unchanged(&existing, false, 5, 10));
    assert!(!stat_unchanged(&existing, true, 5, 10));
    assert!(!stat_unchanged(&existing, false, 6, 10));
    assert!(!stat_unchanged(&None, false, 5, 10));
    match decide_file("a.py", &existing, false, b"x", 7, 1) {
        FileAction::Touch(r) => assert_eq!((r.mtime, r.size, r.path.as_str()), (7, 1, "a.py")),
        other => panic!("{other:?}"),
    }
    match decide_file("a.py", &existing, true, b"x", 7, 1) {
        FileAction::Index(n, _) => assert_eq!(n, "x\n"),
        other => panic!("{other:?}"),
    }
    match decide_file("b.bin", &None, false, b"a\0b", 1, 3) {
        FileAction::Skip(r, why) => {
            assert_eq!(why, "binary");
            assert_eq!(r.skipped.as_deref(), Some("binary"));
            assert!(r.content_sha.is_none());
        }
        other => panic!("{other:?}"),
    }
    match decide_file("b.txt", &None, false, &[0xff, 0xfe], 1, 2) {
        FileAction::Skip(_, why) => assert_eq!(why, "non-utf8"),
        other => panic!("{other:?}"),
    }
    let r = existing.as_ref().unwrap();
    assert!(!is_dirty(r, Some((5, 10))));
    assert!(is_dirty(r, Some((5, 11))));
    assert!(is_dirty(r, None));
    assert!(!IndexOptions::default().force);
    assert_eq!(IndexReport::default().files_seen, 0);
}

#[test]
fn file_node_and_markdown_docs() {
    let p = plan("README.md", README, &None);
    assert_eq!(p.lang, "markdown");
    assert_eq!(p.file_node.kind, NodeKind::File);
    assert_eq!((p.file_node.line_start, p.file_node.line_end), (1, 3));
    assert_eq!(p.file_node.byte_end, README.len() as i64);
    assert_eq!(p.docs[0].symbol.as_deref(), Some("Demo"));
    assert_eq!(p.doc_mentions[0].content, README);
    let short = plan("NOTES.md", "# T\nshort\n", &None);
    assert!(short.docs.is_empty());
    let text = plan("notes.txt", "# T\nlong enough text to be a section here\n", &None);
    assert_eq!(text.lang, "text");
    assert!(text.docs.is_empty() && text.chunks.is_empty());
    assert_eq!(pm_norm_1(README.as_bytes()).unwrap(), README);
}

#[test]
fn symbol_resolution_prefers_same_file_then_unique() {
    let id = |b: u8| -> NodeId { [b; 16] };
    let e = |b: u8, sym: &str, path: &str| SymbolEntry {
        id: id(b),
        symbol: sym.into(),
        path: path.into(),
        role: String::new(),
    };
    let t = SymbolTable::new(vec![e(1, "a.run", "x.py"), e(2, "run", "y.py"), e(3, "solo", "z.py")]);
    assert_eq!(t.resolve("run", "y.py"), Some((id(2), 100)));
    assert_eq!(t.resolve("run", "q.py"), None);
    assert_eq!(t.resolve("solo", "q.py"), Some((id(3), 60)));
    assert_eq!(t.resolve("nope", "q.py"), None);
}

#[test]
fn module_resolution_candidates_and_picks() {
    assert_eq!(
        module_candidates(".pkg.mod", "app/main.py", "python"),
        vec!["pkg/mod.py", "pkg/mod/__init__.py", "mod.py"]
    );
    assert_eq!(
        module_candidates("./util", "src/app/main.ts", "typescript"),
        vec![
            "src/app/util.ts",
            "src/app/util.tsx",
            "src/app/util.js",
            "src/app/util.jsx",
            "src/app/util/index.ts",
            "src/app/util/index.js"
        ]
    );
    assert!(module_candidates("react", "src/a.ts", "tsx").is_empty());
    assert_eq!(module_candidates("com.x.Foo", "A.java", "java"), vec!["com/x/Foo.java", "Foo.java"]);
    assert!(module_candidates("x", "a.md", "markdown").is_empty());
    assert_eq!(module_query("tsx"), ModuleQuery::Exact);
    assert_eq!(module_query("python"), ModuleQuery::Suffix);
    let hits = vec!["lib/mod.py".to_string(), "app/mod.py".to_string()];
    assert_eq!(pick_module_hit("python", "app/main.py", &hits), Some("app/mod.py".to_string()));
    assert_eq!(pick_module_hit("python", "zzz/main.py", &hits), Some("lib/mod.py".to_string()));
    assert_eq!(pick_module_hit("java", "A.java", &hits), None);
    assert_eq!(pick_module_hit("java", "A.java", &hits[..1].to_vec()), Some("lib/mod.py".to_string()));
    assert_eq!(pick_module_hit("python", "a.py", &vec![]), None);
}

#[test]
fn hot_set_fill_cap_and_order() {
    let c = |b: u8, tokens: i64, central: bool| HotCandidate { id: [b; 16], tokens, central };
    let prev: Vec<NodeId> = vec![];
    let r = choose_hot_set(&vec![c(9, 3000, true), c(2, 2000, true), c(5, 900, true), c(1, 1, false), c(0, 1, true)], &prev, 0);
    assert_eq!(r.ids, vec![[5u8; 16], [9u8; 16]]);
    assert!(r.changed);
    assert_eq!(r.version, 1);
    let again = choose_hot_set(&vec![c(5, 900, true), c(9, 3000, true)], &r.ids, r.version);
    assert_eq!(again.ids, r.ids);
    assert!(!again.changed);
    assert_eq!(again.version, 1);
    let many: Vec<HotCandidate> = (0..100u8).map(|b| c(b, 1, true)).collect();
    assert_eq!(choose_hot_set(&many, &prev, 7).ids.len(), 64);
}

#[test]
fn plan_counts_of_an_edit_and_of_a_rerun() {
    let first = plan("payments.py", PAYMENTS, &None);
    let n = first.chunks.len();
    let edited = PAYMENTS.replace("return \"ok\"", "return \"settled\"");
    let second = plan("payments.py", &edited, &Some(first.row));
    // The store takes in exactly the chunks it did not hold: the edited one.
    let inserted: Vec<bool> = second.chunks.iter().map(|c| !c.preserved).collect();
    let marked: Vec<bool> = second.staled.iter().map(|_| true).collect();
    let c = plan_counts(&second, &inserted, &marked);
    let kept = second.chunks.iter().filter(|c| c.preserved).count();
    assert!(kept >= 1);
    assert_eq!((c.new, c.preserved, c.staled), (n - kept, kept, 1));

    let third = plan("payments.py", &edited, &Some(second.row));
    let inserted: Vec<bool> = third.chunks.iter().map(|_| false).collect();
    let c3 = plan_counts(&third, &inserted, &Vec::new());
    assert_eq!((c3.new, c3.preserved, c3.staled), (0, n, 0));

    let mut report = IndexReport::default();
    report.files_indexed = 2;
    report.add_plan_counts(c);
    report.add_plan_counts(c3);
    assert_eq!((report.chunks_new, report.chunks_preserved, report.chunks_staled), (n - kept, kept + n, 1));
    assert_eq!(report.files_indexed, 2);
}

#[test]
fn rerun_preserves_what_the_first_run_added() {
    let first = plan("payments.py", PAYMENTS, &None);
    let all_new: Vec<bool> = first.chunks.iter().map(|_| true).collect();
    let none_marked: Vec<bool> = first.staled.iter().map(|_| true).collect();
    let c1 = plan_counts(&first, &all_new, &none_marked);
    let second = plan("payments.py", PAYMENTS, &Some(first.row));
    let none_new: Vec<bool> = second.chunks.iter().map(|_| false).collect();
    let c2 = plan_counts(&second, &none_new, &Vec::new());
    assert_eq!((c2.new, c2.preserved, c2.staled), (0, c1.new, 0));
}
