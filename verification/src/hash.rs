//! Content addressing: hash preimages, node ids, digest hex.

use vstd::prelude::*;
use vstd::utf8::*;
use sha2::Digest;
use crate::model::{NodeId, NodeKind, node_kind_code, hex_encode, hex_encode_spec, is_lower_hex, lemma_hex_encode_digits};

verus! {

/// SHA-256 digest of a byte sequence (32 bytes).
pub uninterp spec fn sha256_spec(data: Seq<u8>) -> Seq<u8>;

/// Wrapper of `sha2::Sha256::digest`: the SHA-256 digest of the bytes.
#[verifier::external_body]
fn sha256_digest(data: &[u8]) -> (r: [u8; 32])
    ensures
        r@ == sha256_spec(data@),
{
    sha2::Sha256::digest(data).into()
}

/// Content hash preimage:
/// `NORM_VERSION 0x00 kind(1B) 0x00 lang 0x00 normalized_bytes`.
pub open spec fn hash_preimage(kind: NodeKind, lang: Seq<char>, normalized: Seq<char>) -> Seq<u8> {
    encode_utf8(crate::NORM_VERSION@) + seq![0u8, node_kind_code(kind) as u8, 0u8] + encode_utf8(
        lang,
    ) + seq![0u8] + encode_utf8(normalized)
}

pub(crate) fn push_bytes(v: &mut Vec<u8>, s: &[u8])
    ensures
        final(v)@ == old(v)@ + s@,
{
    let mut i: usize = 0;
    while i < s.len()
        invariant
            i <= s.len(),
            v@ == old(v)@ + s@.take(i as int),
        decreases s.len() - i,
    {
        v.push(s[i]);
        i = i + 1;
        proof {
            assert(s@.take(i as int) =~= s@.take(i - 1).push(s@[i - 1]));
        }
    }
    proof {
        assert(s@.take(s.len() as int) =~= s@);
    }
}

/// The content hash of a node: SHA-256 of its preimage. `kind` and `lang`
/// in the preimage separate the hash spaces of different node kinds and
/// languages.
pub fn content_hash(kind: NodeKind, lang: &str, normalized: &str) -> (r: [u8; 32])
    ensures
        r@ == sha256_spec(hash_preimage(kind, lang@, normalized@)),
{
    let mut pre: Vec<u8> = Vec::new();
    push_bytes(&mut pre, crate::NORM_VERSION.as_bytes());
    pre.push(0u8);
    let code = kind.as_i64();
    pre.push(code as u8);
    pre.push(0u8);
    push_bytes(&mut pre, lang.as_bytes());
    pre.push(0u8);
    push_bytes(&mut pre, normalized.as_bytes());
    proof {
        assert(pre@ =~= hash_preimage(kind, lang@, normalized@));
    }
    sha256_digest(pre.as_slice())
}

/// Node id: the first 128 bits of a content hash.
pub fn node_id(hash: &[u8; 32]) -> (r: NodeId)
    ensures
        r@ == hash@.take(16),
{
    let mut id: NodeId = [0u8; 16];
    let mut i: usize = 0;
    while i < 16
        invariant
            i <= 16,
            forall|k: int| 0 <= k < i ==> id@[k] == hash@[k],
        decreases 16 - i,
    {
        id[i] = hash[i];
        i = i + 1;
    }
    proof {
        assert(id@ =~= hash@.take(16));
    }
    id
}

/// Lowercase hexadecimal SHA-256 digest of the bytes.
pub fn sha256_hex(data: &[u8]) -> (r: String)
    ensures
        r@ == hex_encode_spec(sha256_spec(data@)),
        r@.len() == 64,
        forall|i: int| 0 <= i < 64 ==> is_lower_hex(#[trigger] r@[i]),
{
    let d = sha256_digest(data);
    proof {
        assert(d@.len() == 32);
        lemma_hex_encode_digits(d@);
    }
    hex_encode(d.as_slice())
}

/// Different node kinds never share a hash preimage, whatever the language
/// and content.
pub proof fn lemma_kind_separates_preimages(
    k1: NodeKind,
    l1: Seq<char>,
    n1: Seq<char>,
    k2: NodeKind,
    l2: Seq<char>,
    n2: Seq<char>,
)
    requires
        k1 != k2,
    ensures
        hash_preimage(k1, l1, n1) != hash_preimage(k2, l2, n2),
{
    reveal_strlit("PG-NORM-1");
    let v = encode_utf8(crate::NORM_VERSION@);
    let p1 = hash_preimage(k1, l1, n1);
    let p2 = hash_preimage(k2, l2, n2);
    assert(is_ascii_chars(crate::NORM_VERSION@));
    is_ascii_chars_encode_utf8(crate::NORM_VERSION@);
    assert(v.len() == 9);
    assert(p1[10] == node_kind_code(k1) as u8);
    assert(p2[10] == node_kind_code(k2) as u8);
}

/// Different languages never share a hash preimage, whatever the kind and
/// content, when the language names are ASCII without NUL (as every
/// language id is).
pub proof fn lemma_lang_separates_preimages(
    k1: NodeKind,
    l1: Seq<char>,
    n1: Seq<char>,
    k2: NodeKind,
    l2: Seq<char>,
    n2: Seq<char>,
)
    requires
        l1 != l2,
        is_ascii_chars(l1),
        is_ascii_chars(l2),
        forall|i: int| 0 <= i < l1.len() ==> #[trigger] l1[i] != '\0',
        forall|i: int| 0 <= i < l2.len() ==> #[trigger] l2[i] != '\0',
    ensures
        hash_preimage(k1, l1, n1) != hash_preimage(k2, l2, n2),
{
    reveal_strlit("PG-NORM-1");
    let v = encode_utf8(crate::NORM_VERSION@);
    let p1 = hash_preimage(k1, l1, n1);
    let p2 = hash_preimage(k2, l2, n2);
    assert(is_ascii_chars(crate::NORM_VERSION@));
    is_ascii_chars_encode_utf8(crate::NORM_VERSION@);
    is_ascii_chars_encode_utf8(l1);
    is_ascii_chars_encode_utf8(l2);
    assert(v.len() == 9);
    let e1 = encode_utf8(l1);
    let e2 = encode_utf8(l2);
    if p1 == p2 {
        assert forall|i: int| 0 <= i < e1.len() && i < e2.len() implies e1[i] == e2[i] by {
            assert(p1[12 + i] == e1[i]);
            assert(p2[12 + i] == e2[i]);
        }
        if e1.len() < e2.len() {
            let m = e1.len() as int;
            assert(p1[12 + m] == 0u8);
            assert(p2[12 + m] == e2[m]);
            assert(l2[m] as u8 == e2[m]);
            assert(l2[m] != '\0');
            assert(false);
        } else if e2.len() < e1.len() {
            let m = e2.len() as int;
            assert(p2[12 + m] == 0u8);
            assert(p1[12 + m] == e1[m]);
            assert(l1[m] as u8 == e1[m]);
            assert(l1[m] != '\0');
            assert(false);
        } else {
            assert forall|i: int| 0 <= i < l1.len() implies l1[i] == l2[i] by {
                assert(l1[i] as u8 == e1[i]);
                assert(l2[i] as u8 == e2[i]);
            }
            assert(l1 =~= l2);
        }
    }
}

} // verus!
