//! Cache-aware rendering: pack items as byte-stable envelopes, split into
//! the stable prefix and the query block, and the provider cache key.
//!
//! Layout (PG-ENV-1): the stable prefix (hot-set items, hot-set order)
//! comes first, then the query items. Envelope attributes derive from node
//! records only, so envelope bytes are identical across users.

use vstd::prelude::*;
use vstd::utf8::encode_utf8;
use crate::hash::{push_bytes, sha256_hex, sha256_spec};
use crate::model::{hex_encode_spec, is_lower_hex, opt_view};
use crate::pack::{ContextPack, PackItem};
use crate::plan::strings_view;
use crate::text::{byte_slice_text, chars_of, str_eq, str_get, string_from_chars, valid_byte_range};

verus! {

/// Decimal digit character of `d` (0 to 9).
pub open spec fn digit_char(d: int) -> char {
    if d == 0 {
        '0'
    } else if d == 1 {
        '1'
    } else if d == 2 {
        '2'
    } else if d == 3 {
        '3'
    } else if d == 4 {
        '4'
    } else if d == 5 {
        '5'
    } else if d == 6 {
        '6'
    } else if d == 7 {
        '7'
    } else if d == 8 {
        '8'
    } else {
        '9'
    }
}

/// Decimal digits of a natural number, most significant first.
pub open spec fn digits_of(n: nat) -> Seq<char>
    decreases n,
{
    if n < 10 {
        seq![digit_char(n as int)]
    } else {
        digits_of(n / 10).push(digit_char((n % 10) as int))
    }
}

/// Decimal text of an integer, with a leading `-` when negative.
pub open spec fn decimal(n: int) -> Seq<char> {
    if n < 0 {
        seq!['-'] + digits_of((-n) as nat)
    } else {
        digits_of(n as nat)
    }
}

fn digit(d: u64) -> (r: char)
    requires
        d < 10,
    ensures
        r == digit_char(d as int),
{
    if d == 0 {
        '0'
    } else if d == 1 {
        '1'
    } else if d == 2 {
        '2'
    } else if d == 3 {
        '3'
    } else if d == 4 {
        '4'
    } else if d == 5 {
        '5'
    } else if d == 6 {
        '6'
    } else if d == 7 {
        '7'
    } else if d == 8 {
        '8'
    } else {
        '9'
    }
}

pub(crate) fn push_digits(out: &mut Vec<char>, n: u64)
    ensures
        final(out)@ == old(out)@ + digits_of(n as nat),
    decreases n,
{
    if n >= 10 {
        push_digits(out, n / 10);
    }
    out.push(digit(n % 10));
    proof {
        if n >= 10 {
            assert(out@ =~= old(out)@ + digits_of(n as nat));
        } else {
            assert(out@ =~= old(out)@ + digits_of(n as nat));
        }
    }
}

/// Decimal text of an integer.
pub fn decimal_string(n: i64) -> (r: String)
    ensures
        r@ == decimal(n as int),
{
    let mut out: Vec<char> = Vec::new();
    if n < 0 {
        out.push('-');
        let m: u64 = (-(n as i128)) as u64;
        push_digits(&mut out, m);
    } else {
        push_digits(&mut out, n as u64);
    }
    proof {
        assert(out@ =~= decimal(n as int));
    }
    string_from_chars(&out)
}

/// Byte length of the id shown in an envelope: 12, or less for a shorter id.
pub open spec fn id_prefix_len(node: Seq<char>) -> int {
    let n = encode_utf8(node).len() as int;
    if n < 12 {
        n
    } else {
        12
    }
}

/// The id prefix of an envelope lies on a character boundary.
pub open spec fn envelope_ok(it: PackItem) -> bool {
    valid_byte_range(it.node@, 0, id_prefix_len(it.node@))
}

/// The envelope of a pack item:
/// `<pg:ctx id=".." path=".." kind=".." lines="a-b"[ symbol=".."]>\n..</pg:ctx>\n`.
pub open spec fn envelope_spec(it: PackItem) -> Seq<char> {
    "<pg:ctx id=\""@ + byte_slice_text(it.node@, 0, id_prefix_len(it.node@)) + "\" path=\""@
        + it.path@ + "\" kind=\""@ + it.item_type@ + "\" lines=\""@ + decimal(it.lines@[0] as int)
        + "-"@ + decimal(it.lines@[1] as int) + "\""@ + match opt_view(it.symbol) {
        Some(s) => " symbol=\""@ + s + "\""@,
        None => ""@,
    } + ">\n"@ + match opt_view(it.content) {
        Some(c) => c,
        None => ""@,
    } + "</pg:ctx>\n"@
}

fn push_str(v: &mut Vec<char>, s: &str)
    ensures
        final(v)@ == old(v)@ + s@,
{
    let mut t = chars_of(s);
    v.append(&mut t);
}

/// The envelope of a pack item (see [`envelope_spec`]).
pub fn envelope(item: &PackItem) -> (r: String)
    requires
        envelope_ok(*item),
    ensures
        r@ == envelope_spec(*item),
{
    let n = item.node.as_str().as_bytes().len();
    let k = if n < 12 {
        n
    } else {
        12
    };
    let id = match str_get(item.node.as_str(), 0, k) {
        Some(t) => t,
        None => "",
    };
    let mut v: Vec<char> = Vec::new();
    push_str(&mut v, "<pg:ctx id=\"");
    push_str(&mut v, id);
    push_str(&mut v, "\" path=\"");
    push_str(&mut v, item.path.as_str());
    push_str(&mut v, "\" kind=\"");
    push_str(&mut v, item.item_type.as_str());
    push_str(&mut v, "\" lines=\"");
    push_str(&mut v, decimal_string(item.lines[0]).as_str());
    push_str(&mut v, "-");
    push_str(&mut v, decimal_string(item.lines[1]).as_str());
    push_str(&mut v, "\"");
    let ghost before_sym = v@;
    match &item.symbol {
        Some(s) => {
            push_str(&mut v, " symbol=\"");
            push_str(&mut v, s.as_str());
            push_str(&mut v, "\"");
        },
        None => {
            proof {
                reveal_strlit("");
                assert(v@ =~= before_sym + ""@);
            }
        },
    }
    push_str(&mut v, ">\n");
    match &item.content {
        Some(c) => push_str(&mut v, c.as_str()),
        None => {
            proof {
                reveal_strlit("");
                assert(v@ =~= v@ + ""@);
            }
        },
    }
    push_str(&mut v, "</pg:ctx>\n");
    proof {
        assert(v@ =~= envelope_spec(*item));
    }
    string_from_chars(&v)
}

/// Envelopes of the items, in item order, split into the stable prefix
/// (items listed in `stable`) and the query block (the others).
pub open spec fn blocks_spec(items: Seq<PackItem>, stable: Seq<Seq<char>>) -> (Seq<char>, Seq<char>)
    decreases items.len(),
{
    if items.len() == 0 {
        (Seq::empty(), Seq::empty())
    } else {
        let (p, q) = blocks_spec(items.drop_last(), stable);
        let e = envelope_spec(items.last());
        if stable.contains(items.last().node@) {
            (p + e, q)
        } else {
            (p, q + e)
        }
    }
}

fn contains_string(v: &Vec<String>, s: &str) -> (r: bool)
    ensures
        r == strings_view(v@).contains(s@),
{
    let mut i: usize = 0;
    while i < v.len()
        invariant
            i <= v.len(),
            forall|k: int| 0 <= k < i ==> v@[k]@ != s@,
        decreases v.len() - i,
    {
        if str_eq(v[i].as_str(), s) {
            proof {
                assert(strings_view(v@)[i as int] == s@);
            }
            return true;
        }
        i = i + 1;
    }
    proof {
        if strings_view(v@).contains(s@) {
            let k = choose|k: int| 0 <= k < v@.len() && strings_view(v@)[k] == s@;
            assert(v@[k]@ == s@);
        }
    }
    false
}

/// Stable prefix and query block of a pack (see [`blocks_spec`]).
pub fn split_blocks(pack: &ContextPack) -> (r: (String, String))
    requires
        forall|i: int| 0 <= i < pack.items@.len() ==> envelope_ok(#[trigger] pack.items@[i]),
    ensures
        (r.0@, r.1@) == blocks_spec(pack.items@, strings_view(pack.layout.stable_prefix_items@)),
{
    let ghost st = strings_view(pack.layout.stable_prefix_items@);
    let mut prefix: Vec<char> = Vec::new();
    let mut query: Vec<char> = Vec::new();
    let mut i: usize = 0;
    while i < pack.items.len()
        invariant
            i <= pack.items.len(),
            st == strings_view(pack.layout.stable_prefix_items@),
            forall|k: int| 0 <= k < pack.items@.len() ==> envelope_ok(#[trigger] pack.items@[k]),
            (prefix@, query@) == blocks_spec(pack.items@.take(i as int), st),
        decreases pack.items.len() - i,
    {
        let item = &pack.items[i];
        proof {
            assert(pack.items@.take(i + 1).drop_last() =~= pack.items@.take(i as int));
            assert(pack.items@.take(i + 1).last() == pack.items@[i as int]);
            assert(envelope_ok(pack.items@[i as int]));
        }
        let env = envelope(item);
        if contains_string(&pack.layout.stable_prefix_items, item.node.as_str()) {
            push_str(&mut prefix, env.as_str());
        } else {
            push_str(&mut query, env.as_str());
        }
        i = i + 1;
    }
    proof {
        assert(pack.items@.take(pack.items.len() as int) =~= pack.items@);
    }
    (string_from_chars(&prefix), string_from_chars(&query))
}

/// Big-endian bytes of an integer (two's complement): byte `k` holds bits
/// `8 * (7 - k)` up to `8 * (7 - k) + 7` of the value.
pub open spec fn be_bytes_spec(v: i64) -> Seq<u8> {
    Seq::new(8, |k: int| ((v as u64) >> ((56 - 8 * k) as u64)) as u8)
}

/// The big-endian bytes of an integer (what `i64::to_be_bytes` gives).
fn i64_be_bytes(v: i64) -> (r: [u8; 8])
    ensures
        r@ == be_bytes_spec(v),
{
    let u = v as u64;
    let r: [u8; 8] = [
        (u >> 56u64) as u8,
        (u >> 48u64) as u8,
        (u >> 40u64) as u8,
        (u >> 32u64) as u8,
        (u >> 24u64) as u8,
        (u >> 16u64) as u8,
        (u >> 8u64) as u8,
        (u >> 0u64) as u8,
    ];
    assert(r@ =~= be_bytes_spec(v));
    r
}

/// Concatenated UTF-8 bytes of texts.
pub open spec fn concat_utf8(v: Seq<Seq<char>>) -> Seq<u8>
    decreases v.len(),
{
    if v.len() == 0 {
        Seq::empty()
    } else {
        concat_utf8(v.drop_last()) + encode_utf8(v.last())
    }
}

/// Preimage of the provider cache key: envelope version, hot-set version
/// (big-endian), and the stable item ids.
pub open spec fn cache_key_preimage(hot_set_version: i64, ids: Seq<Seq<char>>) -> Seq<u8> {
    encode_utf8(crate::ENVELOPE_VERSION@) + be_bytes_spec(hot_set_version) + concat_utf8(ids)
}

/// The provider cache key: `pg-` and the first 32 hex digits of the
/// SHA-256 of [`cache_key_preimage`], shared by every user of the same repo
/// snapshot.
pub open spec fn cache_key_spec(hot_set_version: i64, ids: Seq<Seq<char>>) -> Seq<char> {
    let h = hex_encode_spec(sha256_spec(cache_key_preimage(hot_set_version, ids)));
    "pg-"@ + if h.len() >= 32 {
        h.take(32)
    } else {
        h
    }
}

/// The provider cache key of a pack (see [`cache_key_spec`]).
pub fn prompt_cache_key(pack: &ContextPack) -> (r: String)
    ensures
        r@ == cache_key_spec(pack.layout.hot_set_version, strings_view(pack.layout.stable_prefix_items@)),
        r@.len() == 35,
        r@.take(3) == "pg-"@,
        forall|i: int| 3 <= i < 35 ==> is_lower_hex(#[trigger] r@[i]),
{
    let ghost ids = strings_view(pack.layout.stable_prefix_items@);
    let mut pre: Vec<u8> = Vec::new();
    push_bytes(&mut pre, crate::ENVELOPE_VERSION.as_bytes());
    let be = i64_be_bytes(pack.layout.hot_set_version);
    push_bytes(&mut pre, be.as_slice());
    let ghost head = pre@;
    let mut i: usize = 0;
    while i < pack.layout.stable_prefix_items.len()
        invariant
            i <= pack.layout.stable_prefix_items.len(),
            ids == strings_view(pack.layout.stable_prefix_items@),
            pre@ == head + concat_utf8(ids.take(i as int)),
        decreases pack.layout.stable_prefix_items.len() - i,
    {
        proof {
            assert(ids.take(i + 1).drop_last() =~= ids.take(i as int));
            assert(ids.take(i + 1).last() == pack.layout.stable_prefix_items@[i as int]@);
        }
        push_bytes(&mut pre, pack.layout.stable_prefix_items[i].as_str().as_bytes());
        i = i + 1;
        proof {
            assert(pre@ =~= head + concat_utf8(ids.take(i as int)));
        }
    }
    proof {
        assert(ids.take(pack.layout.stable_prefix_items.len() as int) =~= ids);
        assert(pre@ =~= cache_key_preimage(pack.layout.hot_set_version, ids));
    }
    let hex = chars_of(sha256_hex(pre.as_slice()).as_str());
    let mut key: Vec<char> = chars_of("pg-");
    let mut k: usize = 0;
    let ghost k0 = key@;
    while k < 32 && k < hex.len()
        invariant
            k <= 32,
            k <= hex.len(),
            key@ == k0 + hex@.take(k as int),
        decreases 32 - k,
    {
        key.push(hex[k]);
        k = k + 1;
        proof {
            assert(key@ =~= k0 + hex@.take(k as int));
        }
    }
    proof {
        reveal_strlit("pg-");
        assert(k0.len() == 3);
        assert(key@.take(3) =~= "pg-"@);
        assert forall|i: int| 3 <= i < 35 implies is_lower_hex(#[trigger] key@[i]) by {
            assert(key@[i] == hex@[i - 3]);
        }
    }
    string_from_chars(&key)
}

} // verus!
