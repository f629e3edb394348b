//! The context pack: the library's universal output contract.

use vstd::prelude::*;

verus! {

/// Version of the pack format.
pub const PACK_VERSION: &'static str = "1";

/// Mandatory per-item explanation. Reasons: anchor | search_hit | imports |
/// imported_by | calls | called_by | inherits | tested_by | doc_mention.
/// `score_centi` is the relevance score in hundredths, when one is given.
#[derive(Debug)]
pub struct Why {
    pub reason: String,
    pub score_centi: Option<i64>,
    pub detail: String,
}

/// Mathematical value of a [`Why`].
pub ghost struct WhyView {
    pub reason: Seq<char>,
    pub score_centi: Option<int>,
    pub detail: Seq<char>,
}

impl View for Why {
    type V = WhyView;

    open spec fn view(&self) -> WhyView {
        WhyView {
            reason: self.reason@,
            score_centi: match self.score_centi {
                Some(s) => Some(s as int),
                None => None,
            },
            detail: self.detail@,
        }
    }
}

impl Why {
    /// A copy of the explanation.
    pub fn duplicate(&self) -> (r: Why)
        ensures
            r@ == self@,
    {
        Why { reason: self.reason.clone(), score_centi: self.score_centi, detail: self.detail.clone() }
    }
}

/// Index freshness at pack time.
#[derive(Debug)]
pub struct Freshness {
    /// "fresh" | "stale"
    pub state: String,
    pub stale_files: i64,
    pub indexed_at: String,
}

/// Stable-prefix metadata: node ids (hex) of the hot-set members that are
/// rendered first, in hot-set order.
#[derive(Debug)]
pub struct Layout {
    pub stable_prefix_items: Vec<String>,
    pub hot_set_version: i64,
}

/// Token accounting against the whole-file counterfactual.
/// `saved_pct_centi` is the saved percentage in hundredths of a percent.
#[derive(Debug, Clone, Copy, PartialEq, Eq, Structural)]
pub struct Totals {
    pub selected_tokens: i64,
    pub estimated_raw_tokens: i64,
    pub saved_tokens: i64,
    pub saved_pct_centi: i64,
}

/// One selected pack item.
#[derive(Debug)]
pub struct PackItem {
    pub item_type: String,
    pub path: String,
    pub symbol: Option<String>,
    pub lines: [i64; 2],
    pub tokens: i64,
    pub node: String,
    pub content: Option<String>,
    pub why: Why,
}

/// A token-budgeted, explained context pack.
#[derive(Debug)]
pub struct ContextPack {
    pub pack_version: String,
    pub pack_id: String,
    pub query: String,
    pub repo: String,
    pub head: Option<String>,
    pub freshness: Freshness,
    pub token_budget: i64,
    pub tokenizer: String,
    pub token_estimate: bool,
    pub items: Vec<PackItem>,
    pub layout: Layout,
    pub totals: Totals,
}

/// A request for a context pack.
#[derive(Debug)]
pub struct PackRequest {
    pub query: String,
    pub token_budget: i64,
    pub include_content: bool,
    pub stale_files: i64,
    /// "cli" | "mcp" | "proxy"
    pub surface: String,
}

} // verus!
