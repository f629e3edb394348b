//! Token counting: exact counts with the o200k_base BPE tokenizer, and the
//! chars/4 estimate it falls back to.

use vstd::prelude::*;
use crate::text::chars_of;

verus! {

/// Name of the tokenizer whose counts the library reports.
pub const TOKENIZER_NAME: &'static str = "o200k_base";

/// What the o200k_base tokenizer gives for a text (special tokens allowed):
/// its number of tokens, or `None` when tokenizing the text fails.
pub uninterp spec fn o200k_token_count(text: Seq<char>) -> Option<int>;

/// Estimate of a token count from a character count: ceil(chars / 4).
pub open spec fn approx_spec(chars: int) -> int {
    (chars + 3) / 4
}

/// The token count of a text: the tokenizer's count, or the chars/4
/// estimate where the tokenizer fails.
pub open spec fn token_count_spec(text: Seq<char>) -> int {
    match o200k_token_count(text) {
        Some(n) => n,
        None => approx_spec(text.len() as int),
    }
}

/// Wrapper of `CoreBPE::encode` on tiktoken's shared o200k_base tokenizer
/// with every special token allowed (what `encode_with_special_tokens` does,
/// without unwrapping): the number of tokens, or `None` when the tokenizer's
/// regex engine fails on the text. The singleton loads the embedded table
/// once and panics if it cannot.
#[verifier::external_body]
fn o200k_count(text: &str) -> (r: Option<i64>)
    ensures
        match r {
            Some(n) => o200k_token_count(text@) == Some(n as int) && n >= 0,
            None => o200k_token_count(text@) is None,
        },
{
    let bpe = tiktoken_rs::o200k_base_singleton();
    match bpe.encode(text, &bpe.special_tokens()) {
        Ok((tokens, _)) => Some(tokens.len() as i64),
        Err(_) => None,
    }
}

/// Wrapper of `tiktoken_rs::o200k_base_singleton`: the shared o200k_base
/// tokenizer is available. The singleton loads the embedded table once and
/// panics if it cannot, so a call that returns always has the tokenizer (the
/// same table [`o200k_count`] counts with).
#[verifier::external_body]
fn o200k_available() -> (r: bool)
    ensures
        r,
{
    let _ = tiktoken_rs::o200k_base_singleton();
    true
}

/// Token count of a text: exact where the tokenizer succeeds, else the
/// chars/4 estimate, so counting never fails.
pub fn count(text: &str) -> (r: i64)
    ensures
        r == token_count_spec(text@),
        r >= 0,
{
    match o200k_count(text) {
        Some(n) => n,
        None => approx(text),
    }
}

/// Estimated token count: a quarter of the character count, rounded up.
pub fn approx(text: &str) -> (r: i64)
    ensures
        r == approx_spec(text@.len() as int),
        r >= 0,
{
    let n = chars_of(text).len();
    let q = n / 4;
    let r = if n % 4 != 0 {
        q + 1
    } else {
        q
    };
    proof {
        assert(r == (n + 3) / 4);
        assert(r <= usize::MAX / 4 + 1);
    }
    r as i64
}

/// Whether token counts are exact (the tokenizer table loads) rather than
/// estimated from the character count: the table always loads, since it is
/// embedded in the tokenizer.
pub fn is_exact() -> (r: bool)
    ensures
        r,
{
    o200k_available()
}

} // verus!
