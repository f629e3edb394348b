//! What a pack covers, per inclusion reason, and what a consumer should
//! know before trusting it.

use vstd::prelude::*;
use crate::pack::{ContextPack, PackItem};
use crate::plan::strings_view;
use crate::text::{lemma_sorted_distinct, sort_dedup, sorted_distinct, str_eq};

verus! {

/// Items, tokens and distinct files of the items included for one reason.
#[derive(Debug)]
pub struct CoverageRow {
    pub reason: String,
    pub items: usize,
    pub tokens: i128,
    pub files: usize,
}

/// Coverage by reason (reasons in sorted order), the number of test items
/// and the unused part of the budget.
#[derive(Debug)]
pub struct PackSummary {
    pub coverage: Vec<CoverageRow>,
    pub test_items: usize,
    pub headroom: i128,
}

/// Inclusion reasons of the items, in order.
pub open spec fn item_reasons(items: Seq<PackItem>) -> Seq<Seq<char>> {
    Seq::new(items.len(), |i: int| items[i].why.reason@)
}

/// Paths of the items, in order.
pub open spec fn item_paths(items: Seq<PackItem>) -> Seq<Seq<char>> {
    Seq::new(items.len(), |i: int| items[i].path@)
}

/// The items included for reason `r`, in order.
pub open spec fn reason_items(items: Seq<PackItem>, r: Seq<char>) -> Seq<PackItem>
    decreases items.len(),
{
    if items.len() == 0 {
        Seq::empty()
    } else {
        let p = reason_items(items.drop_last(), r);
        if items.last().why.reason@ == r {
            p.push(items.last())
        } else {
            p
        }
    }
}

/// Sum of the items' token counts.
pub open spec fn item_tokens(items: Seq<PackItem>) -> int
    decreases items.len(),
{
    if items.len() == 0 {
        0
    } else {
        item_tokens(items.drop_last()) + items.last().tokens
    }
}

/// Items that are tests or were included as tests of something.
pub open spec fn is_test_item(it: PackItem) -> bool {
    it.item_type@ == "test"@ || it.why.reason@ == "tested_by"@
}

/// Number of test items.
pub open spec fn test_count(items: Seq<PackItem>) -> int
    decreases items.len(),
{
    if items.len() == 0 {
        0
    } else {
        test_count(items.drop_last()) + if is_test_item(items.last()) {
            1int
        } else {
            0int
        }
    }
}

/// The coverage row of reason `r`: (reason, items, tokens, distinct files).
pub open spec fn coverage_row_spec(items: Seq<PackItem>, r: Seq<char>) -> (Seq<char>, int, int, int) {
    let sel = reason_items(items, r);
    (r, sel.len() as int, item_tokens(sel), sorted_distinct(item_paths(sel)).len() as int)
}

/// View of a coverage row.
pub open spec fn row_view(row: CoverageRow) -> (Seq<char>, int, int, int) {
    (row.reason@, row.items as int, row.tokens as int, row.files as int)
}

proof fn lemma_reason_items_len(items: Seq<PackItem>, r: Seq<char>)
    ensures
        reason_items(items, r).len() <= items.len(),
    decreases items.len(),
{
    if items.len() > 0 {
        lemma_reason_items_len(items.drop_last(), r);
    }
}

fn coverage_row(items: &Vec<PackItem>, reason: &String) -> (r: CoverageRow)
    ensures
        row_view(r) == coverage_row_spec(items@, reason@),
{
    let ghost rv = reason@;
    let mut count: usize = 0;
    let mut tokens: i128 = 0;
    let mut paths: Vec<String> = Vec::new();
    let mut i: usize = 0;
    while i < items.len()
        invariant
            i <= items.len(),
            rv == reason@,
            count == reason_items(items@.take(i as int), rv).len(),
            tokens == item_tokens(reason_items(items@.take(i as int), rv)),
            -9223372036854775808 * (count as int) <= tokens <= 9223372036854775807 * (count as int),
            count <= i,
            strings_view(paths@) == item_paths(reason_items(items@.take(i as int), rv)),
        decreases items.len() - i,
    {
        proof {
            assert(items@.take(i + 1).drop_last() =~= items@.take(i as int));
            assert(items@.take(i + 1).last() == items@[i as int]);
        }
        if str_eq(items[i].why.reason.as_str(), reason.as_str()) {
            let ghost prev = reason_items(items@.take(i as int), rv);
            let ghost before = paths@;
            tokens = tokens + items[i].tokens as i128;
            count = count + 1;
            paths.push(items[i].path.clone());
            proof {
                let sel = reason_items(items@.take(i + 1), rv);
                assert(sel == prev.push(items@[i as int]));
                assert(sel.drop_last() =~= prev);
                assert(strings_view(paths@) =~= strings_view(before).push(items@[i as int].path@));
                assert(item_paths(sel) =~= item_paths(prev).push(items@[i as int].path@));
            }
        }
        i = i + 1;
    }
    proof {
        assert(items@.take(items.len() as int) =~= items@);
    }
    let files = sort_dedup(&paths);
    proof {
        lemma_sorted_distinct(strings_view(files@), strings_view(paths@));
    }
    CoverageRow { reason: reason.clone(), items: count, tokens, files: files.len() }
}

/// Coverage by reason, test items and budget headroom of a pack.
pub fn pack_summary(pack: &ContextPack) -> (r: PackSummary)
    ensures
        r.coverage@.len() == sorted_distinct(item_reasons(pack.items@)).len(),
        forall|k: int|
            0 <= k < r.coverage@.len() ==> row_view(#[trigger] r.coverage@[k]) == coverage_row_spec(
                pack.items@,
                sorted_distinct(item_reasons(pack.items@))[k],
            ),
        r.test_items == test_count(pack.items@),
        r.headroom == pack.token_budget - pack.totals.selected_tokens,
{
    let items = &pack.items;
    let mut reasons: Vec<String> = Vec::new();
    let mut tests: usize = 0;
    let mut i: usize = 0;
    while i < items.len()
        invariant
            i <= items.len(),
            items == &pack.items,
            strings_view(reasons@) == item_reasons(items@.take(i as int)),
            tests == test_count(items@.take(i as int)),
            tests <= i,
        decreases items.len() - i,
    {
        proof {
            assert(items@.take(i + 1).drop_last() =~= items@.take(i as int));
            assert(items@.take(i + 1).last() == items@[i as int]);
            reveal_strlit("test");
            reveal_strlit("tested_by");
        }
        let ghost before = reasons@;
        reasons.push(items[i].why.reason.clone());
        proof {
            assert(strings_view(reasons@) =~= strings_view(before).push(items@[i as int].why.reason@));
            assert(item_reasons(items@.take(i + 1)) =~= item_reasons(items@.take(i as int)).push(
                items@[i as int].why.reason@,
            ));
        }
        if str_eq(items[i].item_type.as_str(), "test") || str_eq(items[i].why.reason.as_str(), "tested_by") {
            tests = tests + 1;
        }
        i = i + 1;
    }
    proof {
        assert(items@.take(items.len() as int) =~= items@);
    }
    let distinct = sort_dedup(&reasons);
    let ghost ds = strings_view(distinct@);
    proof {
        lemma_sorted_distinct(ds, strings_view(reasons@));
    }
    let mut coverage: Vec<CoverageRow> = Vec::new();
    let mut k: usize = 0;
    while k < distinct.len()
        invariant
            k <= distinct.len(),
            items == &pack.items,
            ds == strings_view(distinct@),
            ds == sorted_distinct(item_reasons(items@)),
            coverage@.len() == k,
            forall|j: int| 0 <= j < k ==> row_view(#[trigger] coverage@[j]) == coverage_row_spec(items@, ds[j]),
        decreases distinct.len() - k,
    {
        let row = coverage_row(items, &distinct[k]);
        coverage.push(row);
        k = k + 1;
    }
    PackSummary {
        coverage,
        test_items: tests,
        headroom: pack.token_budget as i128 - pack.totals.selected_tokens as i128,
    }
}

} // verus!
