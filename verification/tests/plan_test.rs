use packmind::candidates::{edge_reason, query_tokens};
use packmind::hash::{content_hash, node_id, sha256_hex};
use packmind::model::{id_hex, EdgeKind, Node, NodeId, NodeKind};
use packmind::pack::{PackRequest, Why};
use packmind::plan::{assemble_pack, pack_totals, select, stable_order, Chosen, SelectInput};
use packmind::render::{decimal_string, envelope, prompt_cache_key, split_blocks};
use packmind::report::{is_subsequence, pack_layout_counts, PackLayoutStat};

fn node(kind: NodeKind, path: &str, symbol: &str, bytes: (i64, i64), tokens: i64, content: &str) -> Node {
    let hash = content_hash(kind, "python", content);
    Node {
        id: node_id(&hash),
        hash,
        kind,
        path: path.into(),
        symbol: Some(symbol.into()),
        lang: Some("python".into()),
        role: String::new(),
        byte_start: bytes.0,
        byte_end: bytes.1,
        line_start: 1,
        line_end: 2,
        tokens,
        content: content.into(),
        valid: true,
    }
}

fn why(reason: &str) -> Why {
    Why { reason: reason.into(), score_centi: None, detail: String::new() }
}

fn input(n: Node, reason: &str, sig: Option<Node>) -> SelectInput {
    SelectInput { node: n, why: why(reason), signature: sig }
}

#[test]
fn select_respects_budget_and_substitutes_signatures() {
    let a = node(NodeKind::AstChunk, "a.py", "A", (0, 10), 50, "class A: pass\n");
    let b = node(NodeKind::AstChunk, "b.py", "B", (0, 10), 80, "class B: pass\n");
    let b_sig = node(NodeKind::Signature, "b.py", "B", (0, 10), 10, "class B: ...\n");
    let c = node(NodeKind::AstChunk, "c.py", "C", (0, 10), 80, "class C: pass\n");
    let c_sig = node(NodeKind::Signature, "c.py", "C", (0, 10), 10, "class C: ...\n");
    let order = vec![
        input(a, "search_hit", None),
        input(b, "calls", Some(b_sig)),
        input(c, "anchor", Some(c_sig)),
    ];
    let chosen = select(&order, 100);
    assert_eq!(chosen.len(), 2);
    assert_eq!(chosen[0].node.symbol.as_deref(), Some("A"));
    assert!(!chosen[0].substituted);
    assert_eq!(chosen[1].node.kind, NodeKind::Signature);
    assert!(chosen[1].substituted);
    let used: i64 = chosen.iter().map(|c| c.node.tokens).sum();
    assert!(used <= 100);
}

#[test]
fn select_never_spends_twice_on_overlapping_bytes() {
    let outer = node(NodeKind::AstChunk, "a.py", "Outer", (0, 100), 10, "outer\n");
    let inner = node(NodeKind::AstChunk, "a.py", "Inner", (20, 40), 5, "inner\n");
    let other = node(NodeKind::AstChunk, "a.py", "Other", (100, 120), 5, "other\n");
    let chosen = select(&vec![input(outer, "anchor", None), input(inner, "calls", None), input(other, "calls", None)], 1000);
    let names: Vec<_> = chosen.iter().map(|c| c.node.symbol.clone().unwrap()).collect();
    assert_eq!(names, vec!["Outer", "Other"]);
}

#[test]
fn ample_budget_ships_every_candidate_in_full() {
    let a = node(NodeKind::AstChunk, "a.py", "A", (0, 10), 50, "class A: pass\n");
    let b = node(NodeKind::AstChunk, "b.py", "B", (0, 10), 80, "class B: pass\n");
    let b_sig = node(NodeKind::Signature, "b.py", "B", (0, 10), 10, "class B: ...\n");
    let c = node(NodeKind::AstChunk, "c.py", "C", (0, 10), 80, "class C: pass\n");
    let inner = node(NodeKind::AstChunk, "a.py", "Inner", (2, 8), 5, "inner\n");
    let order = vec![
        input(a, "search_hit", None),
        input(b, "calls", Some(b_sig)),
        input(c, "anchor", None),
        input(inner, "calls", None),
    ];
    // 215 tokens in all: a budget of 215 takes every candidate that does
    // not overlap a higher-ranked one, each in full.
    let chosen = select(&order, 215);
    let names: Vec<_> = chosen.iter().map(|c| c.node.symbol.clone().unwrap()).collect();
    assert_eq!(names, vec!["A", "B", "C"]);
    assert!(chosen.iter().all(|c| !c.substituted));
}

#[test]
fn stable_order_is_deterministic() {
    let mk = || {
        vec![
            Chosen { node: node(NodeKind::AstChunk, "x.py", "X", (0, 1), 1, "x\n"), why: why("calls"), substituted: false },
            Chosen { node: node(NodeKind::AstChunk, "y.py", "Y", (0, 1), 1, "y\n"), why: why("calls"), substituted: false },
            Chosen { node: node(NodeKind::AstChunk, "z.py", "Z", (0, 1), 1, "z\n"), why: why("calls"), substituted: false },
            Chosen { node: node(NodeKind::AstChunk, "w.py", "W", (0, 1), 1, "x\n"), why: why("calls"), substituted: false },
        ]
    };
    let hot: Vec<NodeId> = vec![node(NodeKind::AstChunk, "y.py", "Y", (0, 1), 1, "y\n").id];
    let first: Vec<_> = stable_order(mk(), &hot).iter().map(|c| c.node.symbol.clone().unwrap()).collect();
    let second: Vec<_> = stable_order(mk(), &hot).iter().map(|c| c.node.symbol.clone().unwrap()).collect();
    assert_eq!(first, second);
    assert_eq!(first[0], "Y");
    // Equal content hashes keep their input order.
    let xi = first.iter().position(|s| s == "X").unwrap();
    let wi = first.iter().position(|s| s == "W").unwrap();
    assert!(xi < wi);
}

#[test]
fn stable_order_puts_hot_members_first() {
    let x = node(NodeKind::AstChunk, "x.py", "X", (0, 1), 1, "x\n");
    let y = node(NodeKind::AstChunk, "y.py", "Y", (0, 1), 1, "y\n");
    let z = node(NodeKind::AstChunk, "z.py", "Z", (0, 1), 1, "z\n");
    let hot: Vec<NodeId> = vec![z.id, y.id];
    let (xh, _yh) = (x.hash, y.hash);
    let chosen = vec![
        Chosen { node: x, why: why("calls"), substituted: false },
        Chosen { node: y, why: why("calls"), substituted: false },
        Chosen { node: z, why: why("calls"), substituted: false },
    ];
    let ordered = stable_order(chosen, &hot);
    let names: Vec<_> = ordered.iter().map(|c| c.node.symbol.clone().unwrap()).collect();
    assert_eq!(names, vec!["Z", "Y", "X"]);
    assert_eq!(ordered[2].node.hash, xh);
}

#[test]
fn totals_and_pack_assembly() {
    let a = node(NodeKind::AstChunk, "a.py", "A", (0, 10), 30, "class A: pass\n");
    let b = node(NodeKind::AstChunk, "a.py", "B", (10, 20), 20, "class B: pass\n");
    let a_id = a.id;
    let chosen = vec![
        Chosen { node: a, why: why("anchor"), substituted: false },
        Chosen { node: b, why: why("calls"), substituted: false },
    ];
    let files = vec![("a.py".to_string(), Some(200i64))];
    let t = pack_totals(&chosen, &files);
    assert_eq!((t.selected_tokens, t.estimated_raw_tokens, t.saved_tokens), (50, 200, 150));
    assert_eq!(t.saved_pct_centi, 7500);
    let t2 = pack_totals(&chosen, &vec![("a.py".to_string(), None)]);
    assert_eq!((t2.estimated_raw_tokens, t2.saved_tokens, t2.saved_pct_centi), (50, 0, 0));
    let req = PackRequest {
        query: "q".into(),
        token_budget: 100,
        include_content: true,
        stale_files: 0,
        surface: "cli".into(),
    };
    let pack = assemble_pack(&req, &chosen, 3, &[a_id], &files, "p1".into(), "/r".into(), None, "t".into(), false);
    assert_eq!(pack.freshness.state, "fresh");
    assert_eq!(pack.items.len(), 2);
    assert_eq!(pack.items[0].item_type, "ast_chunk");
    assert_eq!(pack.items[0].node, id_hex(&a_id));
    assert_eq!(pack.items[0].content.as_deref(), Some("class A: pass\n"));
    assert_eq!(pack.layout.stable_prefix_items, vec![id_hex(&a_id)]);
    assert_eq!(pack.layout.hot_set_version, 3);
    assert_eq!(pack.tokenizer, "o200k_base");

    let env = envelope(&pack.items[1]);
    assert_eq!(
        env,
        format!(
            "<pg:ctx id=\"{}\" path=\"a.py\" kind=\"ast_chunk\" lines=\"1-2\" symbol=\"B\">\nclass B: pass\n</pg:ctx>\n",
            &pack.items[1].node[..12]
        )
    );
    let (prefix, query) = split_blocks(&pack);
    assert_eq!(prefix, envelope(&pack.items[0]));
    assert_eq!(query, env);

    let mut pre = b"PG-ENV-1".to_vec();
    pre.extend_from_slice(&3i64.to_be_bytes());
    pre.extend_from_slice(id_hex(&a_id).as_bytes());
    assert_eq!(prompt_cache_key(&pack), format!("pg-{}", &sha256_hex(&pre)[..32]));
}

#[test]
fn decimal_text() {
    assert_eq!(decimal_string(0), "0");
    assert_eq!(decimal_string(42), "42");
    assert_eq!(decimal_string(-7), "-7");
    assert_eq!(decimal_string(i64::MIN), i64::MIN.to_string());
    assert_eq!(decimal_string(i64::MAX), i64::MAX.to_string());
}

#[test]
fn subsequence_check() {
    let s = |v: &[&str]| v.iter().map(|x| x.to_string()).collect::<Vec<_>>();
    assert!(is_subsequence(&s(&[]), &s(&["a"])));
    assert!(is_subsequence(&s(&["a", "c"]), &s(&["a", "b", "c"])));
    assert!(!is_subsequence(&s(&["c", "a"]), &s(&["a", "b", "c"])));
    assert!(!is_subsequence(&s(&["a", "a"]), &s(&["a", "b"])));
    assert!(is_subsequence(&s(&["a", "a"]), &s(&["a", "b", "a"])));
}

#[test]
fn query_anchor_tokens() {
    let (paths, symbols) = query_tokens("Refactor PaymentValidator in src/payments.py, see `fx_rate()` and a.b");
    assert_eq!(paths, vec!["src/payments.py".to_string(), "a.b".to_string()]);
    assert_eq!(
        symbols,
        vec!["Refactor".to_string(), "PaymentValidator".to_string(), "see".to_string(), "fx_rate".to_string(), "and".to_string()]
    );
    let (p2, s2) = query_tokens("config.yaml 123 ab");
    assert_eq!(p2, vec!["config.yaml".to_string()]);
    assert!(s2.is_empty());
    let (p3, _) = query_tokens("main.rs");
    assert_eq!(p3, vec!["main.rs".to_string()]);
}

#[test]
fn edge_reasons() {
    assert_eq!(edge_reason(EdgeKind::Imports, true), "imported_by");
    assert_eq!(edge_reason(EdgeKind::Calls, false), "calls");
    assert_eq!(edge_reason(EdgeKind::Calls, true), "called_by");
    assert_eq!(edge_reason(EdgeKind::Implements, false), "inherits");
    assert_eq!(edge_reason(EdgeKind::MentionsDoc, true), "doc_mention");
}

#[test]
fn pack_layout_counts_by_version_and_order() {
    let hot: Vec<String> = vec!["a".to_string(), "b".to_string(), "c".to_string()];
    let stats = vec![
        PackLayoutStat { hot_set_version: Some(3), prefix: vec!["a".to_string(), "c".to_string()] },
        PackLayoutStat { hot_set_version: Some(3), prefix: vec!["c".to_string(), "a".to_string()] },
        PackLayoutStat { hot_set_version: Some(2), prefix: vec!["a".to_string()] },
        PackLayoutStat { hot_set_version: None, prefix: vec![] },
        PackLayoutStat { hot_set_version: Some(3), prefix: vec![] },
    ];
    assert_eq!(pack_layout_counts(&stats, 3, &hot), (3, 2));
    assert_eq!(pack_layout_counts(&stats, 2, &hot), (1, 1));
    assert_eq!(pack_layout_counts(&Vec::new(), 3, &hot), (0, 0));
}

#[test]
fn substituted_item_is_the_chunks_own_signature() {
    let b = node(NodeKind::AstChunk, "b.py", "B", (0, 10), 80, "class B: pass\n");
    let b_sig = node(NodeKind::Signature, "b.py", "B", (0, 10), 10, "class B: ...\n");
    let chosen = select(&vec![input(b, "calls", Some(b_sig))], 20);
    assert_eq!(chosen.len(), 1);
    assert!(chosen[0].substituted);
    assert_eq!(chosen[0].node.kind, NodeKind::Signature);
    assert_eq!(chosen[0].node.path, "b.py");
    assert_eq!(chosen[0].node.symbol.as_deref(), Some("B"));
}
