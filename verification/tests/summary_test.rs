use packmind::pack::{ContextPack, Freshness, Layout, PackItem, Totals, Why};
use packmind::summary::pack_summary;

fn item(item_type: &str, path: &str, tokens: i64, reason: &str) -> PackItem {
    PackItem {
        item_type: item_type.into(),
        path: path.into(),
        symbol: None,
        lines: [1, 2],
        tokens,
        node: "00".repeat(16),
        content: None,
        why: Why { reason: reason.into(), score_centi: None, detail: String::new() },
    }
}

fn pack(items: Vec<PackItem>, budget: i64, selected: i64) -> ContextPack {
    ContextPack {
        pack_version: "1".into(),
        pack_id: "p".into(),
        query: "q".into(),
        repo: "r".into(),
        head: None,
        freshness: Freshness { state: "fresh".into(), stale_files: 0, indexed_at: String::new() },
        token_budget: budget,
        tokenizer: "o200k_base".into(),
        token_estimate: false,
        items,
        layout: Layout { stable_prefix_items: vec![], hot_set_version: 0 },
        totals: Totals { selected_tokens: selected, estimated_raw_tokens: 0, saved_tokens: 0, saved_pct_centi: 0 },
    }
}

#[test]
fn coverage_groups_items_by_reason_in_sorted_order() {
    let p = pack(
        vec![
            item("ast_chunk", "a.py", 30, "search_hit"),
            item("ast_chunk", "b.py", 20, "anchor"),
            item("signature", "a.py", 5, "search_hit"),
            item("test", "test_a.py", 40, "tested_by"),
            item("ast_chunk", "c.py", 10, "search_hit"),
        ],
        200,
        105,
    );
    let s = pack_summary(&p);
    let rows: Vec<(String, usize, i128, usize)> =
        s.coverage.iter().map(|r| (r.reason.clone(), r.items, r.tokens, r.files)).collect();
    assert_eq!(
        rows,
        vec![
            ("anchor".to_string(), 1, 20, 1),
            ("search_hit".to_string(), 3, 45, 2),
            ("tested_by".to_string(), 1, 40, 1),
        ]
    );
    assert_eq!(s.test_items, 1);
    assert_eq!(s.headroom, 95);
}

#[test]
fn empty_pack_has_no_coverage() {
    let s = pack_summary(&pack(vec![], 1000, 0));
    assert!(s.coverage.is_empty());
    assert_eq!(s.test_items, 0);
    assert_eq!(s.headroom, 1000);
}

#[test]
fn test_items_count_type_or_reason() {
    let p = pack(
        vec![item("test", "t.py", 1, "search_hit"), item("ast_chunk", "a.py", 1, "tested_by"), item("test", "u.py", 1, "tested_by")],
        10,
        3,
    );
    assert_eq!(pack_summary(&p).test_items, 3);
}

#[test]
fn extreme_totals_do_not_overflow() {
    let p = pack(vec![item("ast_chunk", "a", i64::MAX, "x"), item("ast_chunk", "b", i64::MAX, "x")], i64::MIN, i64::MAX);
    let s = pack_summary(&p);
    assert_eq!(s.coverage[0].tokens, 2 * (i64::MAX as i128));
    assert_eq!(s.headroom, i64::MIN as i128 - i64::MAX as i128);
}
