//! PM-NORM-1 content normalization.
//!
//! 1. Must decode as UTF-8; otherwise the file is excluded from the graph.
//! 2. Strip a leading U+FEFF BOM.
//! 3. CRLF and CR -> LF.
//! 4. Strip trailing spaces/tabs on each line.
//! 5. Exactly one trailing newline.
//! 6. Tabs, interior whitespace, and comments are preserved.
//! 7. No Unicode normalization.

use vstd::prelude::*;
use vstd::utf8::*;
use crate::text::{chars_of, string_from_chars};

verus! {

/// Space or horizontal tab: the whitespace trimmed at line ends.
pub open spec fn is_hspace(c: char) -> bool {
    c == ' ' || c == '\t'
}

/// Drop one leading byte-order mark.
pub open spec fn strip_bom(s: Seq<char>) -> Seq<char> {
    if s.len() > 0 && s[0] == '\u{feff}' {
        s.drop_first()
    } else {
        s
    }
}

/// CRLF and lone CR become LF: a CR directly before an LF disappears,
/// any other CR turns into an LF.
pub open spec fn unify_newlines(s: Seq<char>) -> Seq<char>
    decreases s.len(),
{
    if s.len() == 0 {
        s
    } else if s[0] == '\r' && s.len() > 1 && s[1] == '\n' {
        unify_newlines(s.drop_first())
    } else if s[0] == '\r' {
        seq!['\n'] + unify_newlines(s.drop_first())
    } else {
        seq![s[0]] + unify_newlines(s.drop_first())
    }
}

/// Remove every space/tab that is followed, through spaces/tabs only, by a
/// newline or by the end of the text (`at_eol` says whether the end of `s`
/// counts as a line end).
pub open spec fn strip_eol_ws(s: Seq<char>, at_eol: bool) -> Seq<char>
    decreases s.len(),
{
    if s.len() == 0 {
        s
    } else if is_hspace(s.last()) && at_eol {
        strip_eol_ws(s.drop_last(), true)
    } else {
        strip_eol_ws(s.drop_last(), s.last() == '\n').push(s.last())
    }
}

/// Remove final newlines until at most one remains at the end.
pub open spec fn collapse_final_newlines(s: Seq<char>) -> Seq<char>
    decreases s.len(),
{
    if s.len() >= 2 && s.last() == '\n' && s[s.len() - 2] == '\n' {
        collapse_final_newlines(s.drop_last())
    } else {
        s
    }
}

/// The normalized text of already-decoded characters.
pub open spec fn norm_chars(s: Seq<char>) -> Seq<char> {
    collapse_final_newlines(strip_eol_ws(unify_newlines(strip_bom(s)), true).push('\n'))
}

/// Wrapper of `std::str::from_utf8`: succeeds exactly on valid UTF-8 and
/// then yields the string whose encoding is those bytes.
#[verifier::external_body]
fn utf8_decode(raw: &[u8]) -> (r: Option<&str>)
    ensures
        r is Some <==> valid_utf8(raw@),
        r matches Some(s) ==> s@ == decode_utf8(raw@),
{
    match std::str::from_utf8(raw) {
        Ok(s) => Some(s),
        Err(_) => None,
    }
}

fn unify_newlines_exec(t: &Vec<char>, start: usize) -> (r: Vec<char>)
    requires
        start <= t.len(),
    ensures
        r@ == unify_newlines(t@.skip(start as int)),
{
    let mut out: Vec<char> = Vec::new();
    let n: usize = t.len();
    let mut i: usize = start;
    proof {
        assert(out@ + unify_newlines(t@.skip(i as int)) =~= unify_newlines(t@.skip(start as int)));
    }
    while i < n
        invariant
            start <= i <= n,
            n == t.len(),
            out@ + unify_newlines(t@.skip(i as int)) == unify_newlines(t@.skip(start as int)),
        decreases n - i,
    {
        let ghost rest = t@.skip(i as int);
        proof {
            assert(rest.drop_first() =~= t@.skip(i + 1));
            assert(rest[0] == t@[i as int]);
        }
        let c = t[i];
        if c == '\r' && i + 1 < n && t[i + 1] == '\n' {
            proof {
                assert(rest[1] == t@[i + 1]);
            }
        } else if c == '\r' {
            proof {
                assert(out@.push('\n') + unify_newlines(t@.skip(i + 1)) =~= out@ + (seq!['\n']
                    + unify_newlines(rest.drop_first())));
            }
            out.push('\n');
        } else {
            proof {
                if c == '\r' {
                    assert(false);
                }
                assert(out@.push(c) + unify_newlines(t@.skip(i + 1)) =~= out@ + (seq![c]
                    + unify_newlines(rest.drop_first())));
            }
            out.push(c);
        }
        i = i + 1;
    }
    proof {
        assert(t@.skip(n as int) =~= Seq::<char>::empty());
        assert(out@ + unify_newlines(t@.skip(n as int)) =~= out@);
    }
    out
}

fn strip_eol_ws_exec(t: &Vec<char>) -> (r: Vec<char>)
    ensures
        r@ == strip_eol_ws(t@, true),
{
    let n: usize = t.len();
    let mut rev: Vec<char> = Vec::new();
    let mut eol = true;
    let mut i: usize = n;
    let ghost mut suffix: Seq<char> = Seq::empty();
    proof {
        assert(t@.take(n as int) =~= t@);
        assert(strip_eol_ws(t@, true) =~= strip_eol_ws(t@.take(i as int), eol) + suffix);
    }
    while i > 0
        invariant
            i <= n,
            n == t.len(),
            strip_eol_ws(t@, true) == strip_eol_ws(t@.take(i as int), eol) + suffix,
            rev@.len() == suffix.len(),
            forall|k: int| 0 <= k < suffix.len() ==> #[trigger] rev@[k] == suffix[suffix.len() - 1 - k],
        decreases i,
    {
        let c = t[i - 1];
        let ghost pre = t@.take(i as int);
        proof {
            assert(pre.drop_last() =~= t@.take(i - 1));
            assert(pre.last() == c);
        }
        if (c == ' ' || c == '\t') && eol {
        } else {
            proof {
                assert(strip_eol_ws(pre, eol) == strip_eol_ws(pre.drop_last(), c == '\n').push(c));
                assert(strip_eol_ws(pre.drop_last(), c == '\n').push(c) + suffix =~= strip_eol_ws(
                    t@.take(i - 1),
                    c == '\n',
                ) + (seq![c] + suffix));
                suffix = seq![c] + suffix;
            }
            rev.push(c);
            eol = c == '\n';
        }
        i = i - 1;
    }
    proof {
        assert(t@.take(0) =~= Seq::<char>::empty());
        assert(strip_eol_ws(t@.take(0), eol) + suffix =~= suffix);
    }
    let m: usize = rev.len();
    let mut out: Vec<char> = Vec::new();
    let mut j: usize = 0;
    while j < m
        invariant
            j <= m,
            m == rev.len(),
            m == suffix.len(),
            forall|k: int| 0 <= k < suffix.len() ==> #[trigger] rev@[k] == suffix[suffix.len() - 1 - k],
            out@ =~= suffix.take(j as int),
        decreases m - j,
    {
        proof {
            assert(rev@[m - 1 - j] == suffix[j as int]);
        }
        out.push(rev[m - 1 - j]);
        j = j + 1;
        proof {
            assert(out@ =~= suffix.take(j as int));
        }
    }
    proof {
        assert(suffix.take(m as int) =~= suffix);
    }
    out
}

fn collapse_final_newlines_exec(v: &mut Vec<char>)
    ensures
        final(v)@ == collapse_final_newlines(old(v)@),
{
    while v.len() >= 2 && v[v.len() - 1] == '\n' && v[v.len() - 2] == '\n'
        invariant
            collapse_final_newlines(v@) == collapse_final_newlines(old(v)@),
        decreases v.len(),
    {
        let ghost before = v@;
        v.pop();
        proof {
            assert(v@ =~= before.drop_last());
        }
    }
}

/// Normalize raw file bytes. Returns `None` when the bytes are not valid UTF-8.
pub fn pm_norm_1(raw: &[u8]) -> (r: Option<String>)
    ensures
        r is Some <==> valid_utf8(raw@),
        r matches Some(s) ==> s@ == norm_chars(decode_utf8(raw@)),
{
    let s = match utf8_decode(raw) {
        Some(s) => s,
        None => return None,
    };
    let chars = chars_of(s);
    let start: usize = if chars.len() > 0 && chars[0] == '\u{feff}' {
        1
    } else {
        0
    };
    proof {
        if start == 1 {
            assert(chars@.skip(1) =~= chars@.drop_first());
        } else {
            assert(chars@.skip(0) =~= chars@);
        }
    }
    let unified = unify_newlines_exec(&chars, start);
    let mut out = strip_eol_ws_exec(&unified);
    out.push('\n');
    collapse_final_newlines_exec(&mut out);
    Some(string_from_chars(&out))
}

} // verus!

verus! {

/// No carriage return anywhere in `s`.
pub open spec fn no_cr(s: Seq<char>) -> bool {
    forall|i: int| 0 <= i < s.len() ==> s[i] != '\r'
}

proof fn lemma_unify_no_cr(s: Seq<char>)
    ensures
        no_cr(unify_newlines(s)),
    decreases s.len(),
{
    if s.len() > 0 {
        lemma_unify_no_cr(s.drop_first());
        let r = unify_newlines(s.drop_first());
        if s[0] == '\r' && s.len() > 1 && s[1] == '\n' {
        } else if s[0] == '\r' {
            assert forall|i: int| 0 <= i < (seq!['\n'] + r).len() implies (seq!['\n'] + r)[i]
                != '\r' by {
                if i > 0 {
                    assert((seq!['\n'] + r)[i] == r[i - 1]);
                }
            }
        } else {
            assert forall|i: int| 0 <= i < (seq![s[0]] + r).len() implies (seq![s[0]] + r)[i]
                != '\r' by {
                if i > 0 {
                    assert((seq![s[0]] + r)[i] == r[i - 1]);
                }
            }
        }
    }
}

proof fn lemma_unify_identity(s: Seq<char>)
    requires
        no_cr(s),
    ensures
        unify_newlines(s) == s,
    decreases s.len(),
{
    if s.len() > 0 {
        assert(no_cr(s.drop_first())) by {
            assert forall|i: int| 0 <= i < s.drop_first().len() implies s.drop_first()[i]
                != '\r' by {
                assert(s.drop_first()[i] == s[i + 1]);
            }
        }
        lemma_unify_identity(s.drop_first());
        assert(s[0] != '\r');
        assert(seq![s[0]] + s.drop_first() =~= s);
    }
}

proof fn lemma_strip_no_cr(s: Seq<char>, e: bool)
    requires
        no_cr(s),
    ensures
        no_cr(strip_eol_ws(s, e)),
    decreases s.len(),
{
    if s.len() > 0 {
        assert(no_cr(s.drop_last())) by {
            assert forall|i: int| 0 <= i < s.drop_last().len() implies s.drop_last()[i]
                != '\r' by {
                assert(s.drop_last()[i] == s[i]);
            }
        }
        lemma_strip_no_cr(s.drop_last(), true);
        lemma_strip_no_cr(s.drop_last(), s.last() == '\n');
    }
}

proof fn lemma_strip_idempotent(s: Seq<char>, e: bool)
    ensures
        strip_eol_ws(strip_eol_ws(s, e), e) == strip_eol_ws(s, e),
    decreases s.len(),
{
    if s.len() > 0 {
        let c = s.last();
        if is_hspace(c) && e {
            lemma_strip_idempotent(s.drop_last(), true);
        } else {
            lemma_strip_idempotent(s.drop_last(), c == '\n');
            let z = strip_eol_ws(s.drop_last(), c == '\n');
            assert(z.push(c).drop_last() =~= z);
            assert(z.push(c).last() == c);
        }
    }
}

proof fn lemma_collapse_facts(s: Seq<char>)
    requires
        s.len() >= 1,
        s.last() == '\n',
    ensures
        collapse_final_newlines(s).len() >= 1,
        collapse_final_newlines(s).last() == '\n',
        !(collapse_final_newlines(s).len() >= 2 && collapse_final_newlines(s)[collapse_final_newlines(s).len() - 2] == '\n'),
        collapse_final_newlines(s).len() <= s.len(),
        collapse_final_newlines(s) =~= s.take(collapse_final_newlines(s).len() as int),
        strip_eol_ws(s, true) == s ==> strip_eol_ws(collapse_final_newlines(s), true)
            == collapse_final_newlines(s),
    decreases s.len(),
{
    if s.len() >= 2 && s.last() == '\n' && s[s.len() - 2] == '\n' {
        let d = s.drop_last();
        assert(d.last() == '\n');
        if strip_eol_ws(s, true) == s {
            // The final newline is kept by stripping, so the rest was already stripped.
            assert(strip_eol_ws(s, true) == strip_eol_ws(d, true).push('\n'));
            assert(strip_eol_ws(d, true) =~= strip_eol_ws(s, true).drop_last());
        }
        lemma_collapse_facts(d);
        let c = collapse_final_newlines(d);
        assert(c =~= s.take(c.len() as int)) by {
            assert forall|i: int| 0 <= i < c.len() implies c[i] == s.take(c.len() as int)[i] by {
                assert(c[i] == d.take(c.len() as int)[i]);
                assert(d[i] == s[i]);
            }
        }
    } else {
        assert(s.take(s.len() as int) =~= s);
    }
}

/// Normalized text is never empty and ends with exactly one newline.
pub proof fn lemma_norm_single_trailing_newline(s: Seq<char>)
    ensures
        norm_chars(s).len() >= 1,
        norm_chars(s).last() == '\n',
        !(norm_chars(s).len() >= 2 && norm_chars(s)[norm_chars(s).len() - 2] == '\n'),
{
    let z = strip_eol_ws(unify_newlines(strip_bom(s)), true).push('\n');
    lemma_collapse_facts(z);
}

/// Normalization is idempotent: normalizing normalized text changes nothing,
/// unless the normalized text itself begins with a byte-order mark (which a
/// second pass would strip).
pub proof fn lemma_norm_idempotent(s: Seq<char>)
    requires
        !(norm_chars(s).len() > 0 && norm_chars(s)[0] == '\u{feff}'),
    ensures
        norm_chars(norm_chars(s)) == norm_chars(s),
{
    let w = unify_newlines(strip_bom(s));
    let z0 = strip_eol_ws(w, true);
    let z = z0.push('\n');
    let x = collapse_final_newlines(z);
    lemma_unify_no_cr(strip_bom(s));
    lemma_strip_no_cr(w, true);
    assert(no_cr(z)) by {
        assert forall|i: int| 0 <= i < z.len() implies z[i] != '\r' by {
            if i < z0.len() {
                assert(z[i] == z0[i]);
            }
        }
    }
    lemma_strip_idempotent(w, true);
    assert(strip_eol_ws(z, true) == strip_eol_ws(z0, true).push('\n')) by {
        assert(z.drop_last() =~= z0);
        assert(z.last() == '\n');
    }
    lemma_collapse_facts(z);
    assert(no_cr(x)) by {
        assert forall|i: int| 0 <= i < x.len() implies x[i] != '\r' by {
            assert(x[i] == z.take(x.len() as int)[i]);
            assert(z.take(x.len() as int)[i] == z[i]);
        }
    }
    assert(strip_bom(x) == x);
    lemma_unify_identity(x);
    let y = x.push('\n');
    assert(y.drop_last() =~= x);
    assert(y.len() >= 2 && y.last() == '\n' && y[y.len() - 2] == '\n');
    assert(collapse_final_newlines(y) == collapse_final_newlines(x));
}

/// No line of `t` ends in a space or a tab.
pub open spec fn no_trailing_hspace(t: Seq<char>) -> bool {
    forall|i: int| 0 <= i < t.len() - 1 && #[trigger] t[i + 1] == '\n' ==> !is_hspace(t[i])
}

proof fn lemma_strip_no_trailing(s: Seq<char>, e: bool)
    ensures
        no_trailing_hspace(strip_eol_ws(s, e)),
        e && strip_eol_ws(s, e).len() > 0 ==> !is_hspace(strip_eol_ws(s, e).last()),
        strip_eol_ws(s, e).len() <= s.len(),
    decreases s.len(),
{
    if s.len() > 0 {
        let c = s.last();
        if is_hspace(c) && e {
            lemma_strip_no_trailing(s.drop_last(), true);
        } else {
            let p = strip_eol_ws(s.drop_last(), c == '\n');
            lemma_strip_no_trailing(s.drop_last(), c == '\n');
            let r = p.push(c);
            assert forall|i: int| 0 <= i < r.len() - 1 && #[trigger] r[i + 1] == '\n' implies !is_hspace(r[i]) by {
                if i + 1 < p.len() {
                    assert(r[i] == p[i] && r[i + 1] == p[i + 1]);
                } else {
                    assert(r[i] == p.last());
                }
            }
        }
    }
}

/// Normalized text has no line that ends in a space or a tab.
pub proof fn lemma_norm_no_trailing_whitespace(s: Seq<char>)
    ensures
        forall|i: int|
            0 <= i < norm_chars(s).len() - 1 && #[trigger] norm_chars(s)[i + 1] == '\n' ==> norm_chars(s)[i]
                != ' ' && norm_chars(s)[i] != '\t',
{
    let w = unify_newlines(strip_bom(s));
    let z0 = strip_eol_ws(w, true);
    let z = z0.push('\n');
    lemma_strip_no_trailing(w, true);
    assert(no_trailing_hspace(z)) by {
        assert forall|i: int| 0 <= i < z.len() - 1 && #[trigger] z[i + 1] == '\n' implies !is_hspace(z[i]) by {
            if i + 1 < z0.len() {
                assert(z[i] == z0[i] && z[i + 1] == z0[i + 1]);
            } else {
                assert(z[i] == z0.last());
            }
        }
    }
    lemma_collapse_facts(z);
    let x = collapse_final_newlines(z);
    assert forall|i: int| 0 <= i < x.len() - 1 && #[trigger] x[i + 1] == '\n' implies x[i] != ' ' && x[i] != '\t' by {
        assert(x[i] == z.take(x.len() as int)[i]);
        assert(x[i + 1] == z.take(x.len() as int)[i + 1]);
        assert(z[i + 1] == '\n');
    }
}

proof fn lemma_strip_keeps_clean(s: Seq<char>, e: bool)
    requires
        no_trailing_hspace(s),
        e && s.len() > 0 ==> !is_hspace(s.last()),
    ensures
        strip_eol_ws(s, e) == s,
    decreases s.len(),
{
    if s.len() > 0 {
        let c = s.last();
        let d = s.drop_last();
        assert(no_trailing_hspace(d)) by {
            assert forall|i: int| 0 <= i < d.len() - 1 && #[trigger] d[i + 1] == '\n' implies !is_hspace(d[i]) by {
                assert(d[i] == s[i] && d[i + 1] == s[i + 1]);
            }
        }
        if c == '\n' && d.len() > 0 {
            assert(s[d.len() - 1 + 1] == '\n');
            assert(d.last() == s[d.len() - 1]);
        }
        lemma_strip_keeps_clean(d, c == '\n');
        assert(d.push(c) =~= s);
    }
}

/// Text that is already normal (no byte-order mark at its start, no
/// carriage return, no line ending in a space or a tab, and exactly one
/// final newline) is left exactly as it is: normalization changes nothing
/// beyond its rules.
pub proof fn lemma_norm_keeps_normal_text(s: Seq<char>)
    requires
        s.len() > 0,
        s[0] != '\u{feff}',
        forall|i: int| 0 <= i < s.len() ==> s[i] != '\r',
        forall|i: int| 0 <= i < s.len() - 1 && #[trigger] s[i + 1] == '\n' ==> s[i] != ' ' && s[i] != '\t',
        s.last() == '\n',
        !(s.len() >= 2 && s[s.len() - 2] == '\n'),
    ensures
        norm_chars(s) == s,
{
    assert(strip_bom(s) == s);
    assert(no_cr(s));
    lemma_unify_identity(s);
    lemma_strip_keeps_clean(s, true);
    let y = s.push('\n');
    assert(y.drop_last() =~= s);
    assert(y.len() >= 2 && y.last() == '\n' && y[y.len() - 2] == '\n');
    assert(collapse_final_newlines(y) == collapse_final_newlines(s));
}

/// Normalized text holds no carriage return: CRLF and lone CR both become
/// LF.
pub proof fn lemma_norm_no_cr(s: Seq<char>)
    ensures
        forall|i: int| 0 <= i < norm_chars(s).len() ==> norm_chars(s)[i] != '\r',
{
    let w = unify_newlines(strip_bom(s));
    let z0 = strip_eol_ws(w, true);
    let z = z0.push('\n');
    lemma_unify_no_cr(strip_bom(s));
    lemma_strip_no_cr(w, true);
    lemma_collapse_facts(z);
    let x = collapse_final_newlines(z);
    assert forall|i: int| 0 <= i < x.len() implies x[i] != '\r' by {
        assert(x[i] == z.take(x.len() as int)[i]);
        if i < z0.len() {
            assert(z[i] == z0[i]);
        }
    }
}

} // verus!
