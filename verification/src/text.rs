//! Small text utilities shared by the indexer and planner.

use vstd::prelude::*;
use vstd::utf8::encode_utf8;

verus! {

/// The characters of a string, in order.
pub fn chars_of(s: &str) -> (r: Vec<char>)
    ensures
        r@ == s@,
{
    let mut out: Vec<char> = Vec::new();
    for c in it: s.chars()
        invariant
            out@ == it.seq().take(it.index() as int),
    {
        out.push(c);
    }
    out
}

} // verus!

verus! {

/// Wrapper of `FromIterator<char> for String`: the string made of the
/// given characters, in order.
#[verifier::external_body]
pub(crate) fn string_from_chars(v: &Vec<char>) -> (r: String)
    ensures
        r@ == v@,
{
    v.iter().collect()
}

} // verus!

verus! {

/// Whether two strings are equal, compared byte by byte.
pub fn str_eq(a: &str, b: &str) -> (r: bool)
    ensures
        r == (a@ == b@),
{
    let x = a.as_bytes();
    let y = b.as_bytes();
    proof {
        vstd::utf8::encode_utf8_decode_utf8(a@);
        vstd::utf8::encode_utf8_decode_utf8(b@);
        assert(x@ == vstd::utf8::encode_utf8(a@));
        assert(y@ == vstd::utf8::encode_utf8(b@));
    }
    if x.len() != y.len() {
        return false;
    }
    let mut i: usize = 0;
    while i < x.len()
        invariant
            i <= x.len(),
            x.len() == y.len(),
            x@ == vstd::utf8::encode_utf8(a@),
            y@ == vstd::utf8::encode_utf8(b@),
            forall|k: int| 0 <= k < i ==> x@[k] == y@[k],
        decreases x.len() - i,
    {
        if x[i] != y[i] {
            proof {
                assert(x@ != y@);
            }
            return false;
        }
        i = i + 1;
    }
    proof {
        assert(x@ =~= y@);
    }
    true
}

} // verus!

verus! {

/// `start..end` is a valid byte range of text `s` on character boundaries.
pub open spec fn valid_byte_range(s: Seq<char>, start: int, end: int) -> bool {
    let b = vstd::utf8::encode_utf8(s);
    0 <= start <= end <= b.len() && vstd::utf8::is_char_boundary(b, start)
        && vstd::utf8::is_char_boundary(b, end)
}

/// Bytes `start..end` of a text when that range is valid, else nothing.
pub open spec fn slice_bytes_spec(s: Seq<char>, start: int, end: int) -> Seq<u8> {
    if valid_byte_range(s, start, end) {
        vstd::utf8::encode_utf8(s).subrange(start, end)
    } else {
        Seq::empty()
    }
}

/// The text whose UTF-8 encoding is bytes `start..end` of `s`.
pub open spec fn byte_slice_text(s: Seq<char>, start: int, end: int) -> Seq<char> {
    vstd::utf8::decode_utf8(vstd::utf8::encode_utf8(s).subrange(start, end))
}

/// The substring at byte range `start..end`, when that range is in bounds
/// and on character boundaries (`str::get`).
pub fn str_get<'a>(src: &'a str, start: usize, end: usize) -> (r: Option<&'a str>)
    ensures
        r is Some <==> valid_byte_range(src@, start as int, end as int),
        r matches Some(t) ==> encode_utf8(t@) == encode_utf8(src@).subrange(
            start as int,
            end as int,
        ) && t@ == byte_slice_text(src@, start as int, end as int),
{
    let ghost b = vstd::utf8::encode_utf8(src@);
    proof {
        vstd::utf8::encode_utf8_valid_utf8(src@);
    }
    let n = src.as_bytes().len();
    if start <= end && end <= n && src.is_char_boundary(start) && src.is_char_boundary(end) {
        let (a, _rest) = src.split_at(end);
        proof {
            let p = b.subrange(0, end as int);
            vstd::utf8::valid_utf8_split(b, end as int);
            if start < end {
                vstd::utf8::is_char_boundary_iff_not_is_continuation_byte(b, start as int);
                vstd::utf8::is_char_boundary_iff_not_is_continuation_byte(p, start as int);
            } else {
                vstd::utf8::is_char_boundary_start_end_of_seq(p);
            }
            assert(encode_utf8(a@) == p);
        }
        let (_head, m) = a.split_at(start);
        proof {
            assert(encode_utf8(m@) =~= b.subrange(start as int, end as int));
            vstd::utf8::encode_utf8_decode_utf8(m@);
        }
        Some(m)
    } else {
        None
    }
}

/// The substring at byte range `start..end`, or "" when the range is out of
/// bounds or not on character boundaries.
pub fn slice<'a>(src: &'a str, start: usize, end: usize) -> (r: &'a str)
    ensures
        vstd::utf8::encode_utf8(r@) == slice_bytes_spec(src@, start as int, end as int),
{
    proof {
        reveal_strlit("");
        assert(encode_utf8(""@) =~= Seq::<u8>::empty());
    }
    match str_get(src, start, end) {
        Some(t) => t,
        None => "",
    }
}

/// Copy of a list of strings.
pub fn clone_strings(v: &Vec<String>) -> (r: Vec<String>)
    ensures
        crate::plan::strings_view(r@) == crate::plan::strings_view(v@),
{
    let mut out: Vec<String> = Vec::new();
    let mut i: usize = 0;
    while i < v.len()
        invariant
            i <= v.len(),
            out@.len() == i,
            forall|k: int| 0 <= k < i ==> #[trigger] out@[k]@ == v@[k]@,
        decreases v.len() - i,
    {
        out.push(v[i].clone());
        i = i + 1;
    }
    proof {
        assert(crate::plan::strings_view(out@) =~= crate::plan::strings_view(v@));
    }
    out
}

} // verus!

verus! {

/// The Unicode `White_Space` property.
pub open spec fn is_white_space(c: char) -> bool {
    ('\u{9}' <= c <= '\u{d}') || c == ' ' || c == '\u{85}' || c == '\u{a0}' || c == '\u{1680}'
        || ('\u{2000}' <= c <= '\u{200a}') || c == '\u{2028}' || c == '\u{2029}' || c == '\u{202f}'
        || c == '\u{205f}' || c == '\u{3000}'
}

/// Whether a character has the Unicode `White_Space` property (what
/// `char::is_whitespace` tests).
pub(crate) fn char_is_whitespace(c: char) -> (r: bool)
    ensures
        r == is_white_space(c),
{
    let u = c as u32;
    (0x9 <= u && u <= 0xd) || u == 0x20 || u == 0x85 || u == 0xa0 || u == 0x1680 || (0x2000 <= u && u
        <= 0x200a) || u == 0x2028 || u == 0x2029 || u == 0x202f || u == 0x205f || u == 0x3000
}

/// ASCII letter or digit.
pub open spec fn is_ascii_alnum(c: char) -> bool {
    ('a' <= c <= 'z') || ('A' <= c <= 'Z') || ('0' <= c <= '9')
}

/// The Unicode `Alphabetic` or `Numeric` property of a character.
pub uninterp spec fn unicode_alphanumeric(c: char) -> bool;

/// The Unicode `Alphabetic` property of a character.
pub uninterp spec fn unicode_alphabetic(c: char) -> bool;

/// Alphanumeric character (`char::is_alphanumeric`): among ASCII characters
/// exactly the letters and digits, beyond ASCII the Unicode property.
pub open spec fn alnum(c: char) -> bool {
    if (c as u32) < 128 {
        is_ascii_alnum(c)
    } else {
        unicode_alphanumeric(c)
    }
}

/// Alphabetic character (`char::is_alphabetic`): among ASCII characters
/// exactly the letters, beyond ASCII the Unicode property.
pub open spec fn alpha(c: char) -> bool {
    if (c as u32) < 128 {
        ('a' <= c <= 'z') || ('A' <= c <= 'Z')
    } else {
        unicode_alphabetic(c)
    }
}

/// Wrapper of `char::is_alphanumeric` (Unicode `Alphabetic` or `Numeric`);
/// among ASCII characters exactly the letters and digits have it.
#[verifier::external_body]
pub(crate) fn char_is_alphanumeric(c: char) -> (r: bool)
    ensures
        r == unicode_alphanumeric(c),
        (c as u32) < 128 ==> (r <==> is_ascii_alnum(c)),
{
    c.is_alphanumeric()
}

/// What `str::to_lowercase` returns for a text (its Unicode lowercase
/// mapping).
pub uninterp spec fn unicode_lowercase(s: Seq<char>) -> Seq<char>;

/// Wrapper of `str::to_lowercase`: the text's Unicode lowercase mapping,
/// named by [`unicode_lowercase`].
#[verifier::external_body]
pub(crate) fn str_to_lowercase(s: &str) -> (r: String)
    ensures
        r@ == unicode_lowercase(s@),
{
    s.to_lowercase()
}

/// Wrapper of `char::is_alphabetic` (Unicode `Alphabetic`); among ASCII
/// characters exactly the letters have it.
#[verifier::external_body]
pub(crate) fn char_is_alphabetic(c: char) -> (r: bool)
    ensures
        r == unicode_alphabetic(c),
        (c as u32) < 128 ==> (r <==> (('a' <= c <= 'z') || ('A' <= c <= 'Z'))),
{
    c.is_alphabetic()
}

/// Index of the first occurrence of `c` in `s`, if any.
pub open spec fn find_char(s: Seq<char>, c: char) -> Option<int>
    decreases s.len(),
{
    if s.len() == 0 {
        None
    } else if s[0] == c {
        Some(0)
    } else {
        match find_char(s.drop_first(), c) {
            Some(i) => Some(i + 1),
            None => None,
        }
    }
}

/// Lines of a text as `str::lines` yields them: split at each LF (a final
/// LF ends the last line and starts no new one); a CR directly before an LF
/// is dropped.
pub open spec fn lines_spec(s: Seq<char>) -> Seq<Seq<char>>
    decreases s.len(),
{
    if s.len() == 0 {
        Seq::empty()
    } else {
        match find_char(s, '\n') {
            None => seq![s],
            Some(i) => {
                proof {
                    lemma_find_char_bounds(s, '\n');
                }
                let line = s.take(i);
                let line = if line.len() > 0 && line.last() == '\r' {
                    line.drop_last()
                } else {
                    line
                };
                seq![line] + lines_spec(s.skip(i + 1))
            },
        }
    }
}

/// Bounds and meaning of the index [`find_char`] returns.
pub proof fn lemma_find_char_bounds(s: Seq<char>, c: char)
    ensures
        find_char(s, c) matches Some(i) ==> 0 <= i < s.len() && s[i] == c && forall|k: int|
            0 <= k < i ==> s[k] != c,
        find_char(s, c) is None ==> forall|k: int| 0 <= k < s.len() ==> s[k] != c,
    decreases s.len(),
{
    if s.len() > 0 {
        lemma_find_char_bounds(s.drop_first(), c);
        if s[0] != c {
            assert forall|k: int| 1 <= k < s.len() implies s[k] == s.drop_first()[k - 1] by {}
        }
    }
}

/// The lines of a text (see [`lines_spec`]).
pub fn lines_of(s: &Vec<char>) -> (r: Vec<Vec<char>>)
    ensures
        r@.map_values(|l: Vec<char>| l@) == lines_spec(s@),
{
    let n = s.len();
    let mut out: Vec<Vec<char>> = Vec::new();
    let mut start: usize = 0;
    proof {
        assert(s@.skip(0) =~= s@);
        assert(out@.map_values(|l: Vec<char>| l@) + lines_spec(s@.skip(0)) =~= lines_spec(s@));
    }
    while start < n
        invariant
            start <= n,
            n == s.len(),
            out@.map_values(|l: Vec<char>| l@) + lines_spec(s@.skip(start as int)) == lines_spec(s@),
        decreases n - start,
    {
        let ghost rest = s@.skip(start as int);
        let mut j: usize = start;
        while j < n && s[j] != '\n'
            invariant
                start <= j <= n,
                n == s.len(),
                forall|k: int| start <= k < j ==> s@[k] != '\n',
            decreases n - j,
        {
            j = j + 1;
        }
        proof {
            lemma_find_char_bounds(rest, '\n');
            if j < n {
                assert(rest[j - start] == '\n');
                assert(forall|k: int| 0 <= k < j - start ==> rest[k] == s@[start + k]);
                assert(find_char(rest, '\n') == Some((j - start) as int));
            } else {
                assert(forall|k: int| 0 <= k < rest.len() ==> rest[k] == s@[start + k]);
                assert(find_char(rest, '\n') is None);
            }
        }
        let mut line: Vec<char> = Vec::new();
        let mut k: usize = start;
        while k < j
            invariant
                start <= k <= j <= n,
                n == s.len(),
                line@ == s@.subrange(start as int, k as int),
            decreases j - k,
        {
            line.push(s[k]);
            k = k + 1;
            proof {
                assert(line@ =~= s@.subrange(start as int, k as int));
            }
        }
        let ghost before = out@;
        if j < n {
            let ghost raw_line = line@;
            if line.len() > 0 && line[line.len() - 1] == '\r' {
                line.pop();
            }
            proof {
                assert(raw_line =~= rest.take(j - start));
                assert(rest.skip(j - start + 1) =~= s@.skip(j + 1));
            }
            out.push(line);
            start = j + 1;
            proof {
                assert(out@.map_values(|l: Vec<char>| l@) =~= before.map_values(|l: Vec<char>| l@).push(
                    out@[out@.len() - 1]@,
                ));
            }
        } else {
            proof {
                assert(line@ =~= rest);
                assert(s@.skip(n as int) =~= Seq::<char>::empty());
            }
            out.push(line);
            start = n;
            proof {
                assert(out@.map_values(|l: Vec<char>| l@) =~= before.map_values(|l: Vec<char>| l@).push(
                    out@[out@.len() - 1]@,
                ));
            }
        }
    }
    proof {
        assert(s@.skip(n as int) =~= Seq::<char>::empty());
        assert(out@.map_values(|l: Vec<char>| l@) + lines_spec(s@.skip(n as int)) =~= out@.map_values(|l: Vec<char>| l@));
    }
    out
}

} // verus!

verus! {

/// Drop leading characters equal to `c`.
pub open spec fn trim_start_char(s: Seq<char>, c: char) -> Seq<char>
    decreases s.len(),
{
    if s.len() > 0 && s[0] == c {
        trim_start_char(s.drop_first(), c)
    } else {
        s
    }
}

/// Drop leading whitespace.
pub open spec fn trim_start_ws(s: Seq<char>) -> Seq<char>
    decreases s.len(),
{
    if s.len() > 0 && is_white_space(s[0]) {
        trim_start_ws(s.drop_first())
    } else {
        s
    }
}

/// Drop trailing whitespace.
pub open spec fn trim_end_ws(s: Seq<char>) -> Seq<char>
    decreases s.len(),
{
    if s.len() > 0 && is_white_space(s.last()) {
        trim_end_ws(s.drop_last())
    } else {
        s
    }
}

/// Drop leading and trailing whitespace (`str::trim`).
pub open spec fn trim_ws(s: Seq<char>) -> Seq<char> {
    trim_end_ws(trim_start_ws(s))
}

/// Characters `start..` of a vector.
pub fn chars_from(v: &Vec<char>, start: usize) -> (r: Vec<char>)
    requires
        start <= v.len(),
    ensures
        r@ == v@.skip(start as int),
{
    let mut out: Vec<char> = Vec::new();
    let mut i: usize = start;
    while i < v.len()
        invariant
            start <= i <= v.len(),
            out@ == v@.subrange(start as int, i as int),
        decreases v.len() - i,
    {
        out.push(v[i]);
        i = i + 1;
        proof {
            assert(out@ =~= v@.subrange(start as int, i as int));
        }
    }
    proof {
        assert(v@.subrange(start as int, v.len() as int) =~= v@.skip(start as int));
    }
    out
}

/// Drop leading characters equal to `c`.
pub fn trim_start_char_vec(v: &Vec<char>, c: char) -> (r: Vec<char>)
    ensures
        r@ == trim_start_char(v@, c),
{
    let mut i: usize = 0;
    proof {
        assert(v@.skip(0) =~= v@);
    }
    while i < v.len() && v[i] == c
        invariant
            i <= v.len(),
            trim_start_char(v@.skip(i as int), c) == trim_start_char(v@, c),
        decreases v.len() - i,
    {
        proof {
            assert(v@.skip(i as int).drop_first() =~= v@.skip(i + 1));
        }
        i = i + 1;
    }
    chars_from(v, i)
}

/// Drop leading and trailing whitespace.
pub fn trim_ws_vec(v: &Vec<char>) -> (r: Vec<char>)
    ensures
        r@ == trim_ws(v@),
{
    let mut i: usize = 0;
    proof {
        assert(v@.skip(0) =~= v@);
    }
    while i < v.len() && char_is_whitespace(v[i])
        invariant
            i <= v.len(),
            trim_start_ws(v@.skip(i as int)) == trim_start_ws(v@),
        decreases v.len() - i,
    {
        proof {
            assert(v@.skip(i as int).drop_first() =~= v@.skip(i + 1));
        }
        i = i + 1;
    }
    let mut t = chars_from(v, i);
    let ghost t0 = t@;
    while t.len() > 0 && char_is_whitespace(t[t.len() - 1])
        invariant
            trim_end_ws(t@) == trim_end_ws(t0),
        decreases t.len(),
    {
        let ghost before = t@;
        t.pop();
        proof {
            assert(t@ =~= before.drop_last());
        }
    }
    t
}

/// Length of the leading run of non-whitespace characters.
pub open spec fn word_len(s: Seq<char>) -> int
    decreases s.len(),
{
    if s.len() == 0 || is_white_space(s[0]) {
        0
    } else {
        1 + word_len(s.drop_first())
    }
}

/// Bounds and meaning of [`word_len`].
pub proof fn lemma_word_len_bounds(s: Seq<char>)
    ensures
        0 <= word_len(s) <= s.len(),
        forall|k: int| 0 <= k < word_len(s) ==> !is_white_space(s[k]),
        word_len(s) < s.len() ==> is_white_space(s[word_len(s)]),
    decreases s.len(),
{
    if s.len() > 0 && !is_white_space(s[0]) {
        lemma_word_len_bounds(s.drop_first());
        assert forall|k: int| 1 <= k < word_len(s) implies !is_white_space(s[k]) by {
            assert(s[k] == s.drop_first()[k - 1]);
        }
        if word_len(s) < s.len() {
            assert(s[word_len(s)] == s.drop_first()[word_len(s) - 1]);
        }
    }
}

/// The whitespace-separated words of a text (`str::split_whitespace`).
pub open spec fn ws_words(s: Seq<char>) -> Seq<Seq<char>>
    decreases s.len(),
{
    if s.len() == 0 {
        Seq::empty()
    } else if is_white_space(s[0]) {
        ws_words(s.drop_first())
    } else {
        proof {
            lemma_word_len_bounds(s);
        }
        seq![s.take(word_len(s))] + ws_words(s.skip(word_len(s)))
    }
}

/// Words joined by single spaces.
pub open spec fn join_words(ws: Seq<Seq<char>>) -> Seq<char>
    decreases ws.len(),
{
    if ws.len() == 0 {
        Seq::empty()
    } else if ws.len() == 1 {
        ws[0]
    } else {
        join_words(ws.drop_last()) + seq![' '] + ws.last()
    }
}

/// Collapse a (possibly multi-line) declaration header into one line: its
/// whitespace-separated words joined by single spaces.
pub fn collapse_ws(s: &str) -> (r: String)
    ensures
        r@ == join_words(ws_words(s@)),
{
    let v = chars_of(s);
    let n = v.len();
    let mut out: Vec<char> = Vec::new();
    let ghost mut produced: Seq<Seq<char>> = Seq::empty();
    let mut i: usize = 0;
    proof {
        assert(v@.skip(0) =~= v@);
        assert(produced + ws_words(v@.skip(0)) =~= ws_words(v@));
    }
    while i < n
        invariant
            i <= n,
            n == v.len(),
            v@ == s@,
            produced + ws_words(v@.skip(i as int)) == ws_words(s@),
            out@ == join_words(produced),
            out@.len() == 0 <==> produced.len() == 0,
            forall|k: int| 0 <= k < produced.len() ==> (#[trigger] produced[k]).len() > 0,
        decreases n - i,
    {
        let ghost rest = v@.skip(i as int);
        if char_is_whitespace(v[i]) {
            proof {
                assert(rest[0] == v@[i as int]);
                assert(rest.drop_first() =~= v@.skip(i + 1));
            }
            i = i + 1;
        } else {
            proof {
                assert(rest[0] == v@[i as int]);
                lemma_word_len_bounds(rest);
            }
            let mut j: usize = i;
            let ghost before = out@;
            if out.len() > 0 {
                out.push(' ');
            }
            let ghost mid = out@;
            while j < n && !char_is_whitespace(v[j])
                invariant
                    i <= j <= n,
                    n == v.len(),
                    forall|k: int| i <= k < j ==> !is_white_space(v@[k]),
                    out@ == mid + v@.subrange(i as int, j as int),
                decreases n - j,
            {
                out.push(v[j]);
                j = j + 1;
                proof {
                    assert(out@ =~= mid + v@.subrange(i as int, j as int));
                }
            }
            proof {
                let w = v@.subrange(i as int, j as int);
                assert(word_len(rest) == j - i) by {
                    assert(forall|k: int| 0 <= k < j - i ==> rest[k] == v@[i + k]);
                    if j < n {
                        assert(rest[j - i] == v@[j as int]);
                    }
                    if word_len(rest) < j - i {
                        assert(rest[word_len(rest)] == v@[i + word_len(rest)]);
                    }
                    if word_len(rest) > j - i {
                        assert(rest[j - i] == v@[j as int]);
                    }
                }
                assert(rest.take(j - i) =~= w);
                assert(rest.skip(j - i) =~= v@.skip(j as int));
                assert(ws_words(rest) == seq![w] + ws_words(v@.skip(j as int)));
                let np = produced.push(w);
                assert(np.drop_last() =~= produced);
                assert(np + ws_words(v@.skip(j as int)) =~= produced + ws_words(rest));
                if produced.len() == 0 {
                    assert(out@ =~= w);
                } else {
                    assert(out@ =~= before + seq![' '] + w);
                }
                produced = np;
            }
            i = j;
        }
    }
    proof {
        assert(v@.skip(n as int) =~= Seq::<char>::empty());
        assert(produced =~= produced + ws_words(v@.skip(n as int)));
    }
    string_from_chars(&out)
}

} // verus!

verus! {

/// `p` is a prefix of `s`.
pub open spec fn has_prefix(s: Seq<char>, p: Seq<char>) -> bool {
    p.len() <= s.len() && s.take(p.len() as int) == p
}

/// `p` is a suffix of `s`.
pub open spec fn has_suffix(s: Seq<char>, p: Seq<char>) -> bool {
    p.len() <= s.len() && s.skip(s.len() - p.len()) == p
}

/// `p` occurs in `s` starting at position `i`.
pub open spec fn occurs_at(s: Seq<char>, p: Seq<char>, i: int) -> bool {
    0 <= i && i + p.len() <= s.len() && s.subrange(i, i + p.len()) == p
}

/// `p` occurs somewhere in `s`.
pub open spec fn has_substring(s: Seq<char>, p: Seq<char>) -> bool {
    exists|i: int| #[trigger] occurs_at(s, p, i)
}

/// Whether `p` occurs in `s` at position `i`.
pub fn occurs_at_exec(s: &Vec<char>, p: &Vec<char>, i: usize) -> (r: bool)
    ensures
        r == occurs_at(s@, p@, i as int),
{
    if i > s.len() || p.len() > s.len() - i {
        return false;
    }
    let mut k: usize = 0;
    while k < p.len()
        invariant
            k <= p.len(),
            i + p.len() <= s.len(),
            forall|m: int| 0 <= m < k ==> s@[i + m] == p@[m],
        decreases p.len() - k,
    {
        if s[i + k] != p[k] {
            proof {
                assert(s@.subrange(i as int, i + p.len())[k as int] != p@[k as int]);
            }
            return false;
        }
        k = k + 1;
    }
    proof {
        assert(s@.subrange(i as int, i + p.len()) =~= p@);
    }
    true
}

/// Whether `s` starts with `p`.
pub fn starts_with(s: &Vec<char>, p: &Vec<char>) -> (r: bool)
    ensures
        r == has_prefix(s@, p@),
{
    let r = occurs_at_exec(s, p, 0);
    proof {
        assert(s@.subrange(0, p.len() as int) == s@.take(p.len() as int));
    }
    r
}

/// Whether two character sequences are equal.
pub fn chars_eq(a: &Vec<char>, b: &Vec<char>) -> (r: bool)
    ensures
        r == (a@ == b@),
{
    if a.len() != b.len() {
        return false;
    }
    let r = starts_with(a, b);
    proof {
        assert(a@.take(b.len() as int) =~= a@);
    }
    r
}

/// Whether `s` ends with `p`.
pub fn ends_with(s: &Vec<char>, p: &Vec<char>) -> (r: bool)
    ensures
        r == has_suffix(s@, p@),
{
    if p.len() > s.len() {
        return false;
    }
    let r = occurs_at_exec(s, p, s.len() - p.len());
    proof {
        assert(s@.subrange(s.len() - p.len(), s.len() as int) == s@.skip(s.len() - p.len()));
    }
    r
}

/// Whether `p` occurs in `s`.
pub fn contains_seq(s: &Vec<char>, p: &Vec<char>) -> (r: bool)
    ensures
        r == has_substring(s@, p@),
{
    if p.len() > s.len() {
        proof {
            assert forall|i: int| !occurs_at(s@, p@, i) by {}
        }
        return false;
    }
    let last = s.len() - p.len();
    let mut i: usize = 0;
    while i < last
        invariant
            p.len() <= s.len(),
            last == s.len() - p.len(),
            i <= last,
            forall|m: int| 0 <= m < i ==> !occurs_at(s@, p@, m),
        decreases last - i,
    {
        if occurs_at_exec(s, p, i) {
            return true;
        }
        i = i + 1;
    }
    let r = occurs_at_exec(s, p, last);
    proof {
        if !r {
            assert forall|m: int| !occurs_at(s@, p@, m) by {
                if 0 <= m < i {
                }
            }
        }
    }
    r
}

/// The part of `s` after its last `c` (all of `s` when it has none).
pub open spec fn after_last(s: Seq<char>, c: char) -> Seq<char>
    decreases s.len(),
{
    if s.len() == 0 {
        s
    } else if s.last() == c {
        Seq::empty()
    } else {
        after_last(s.drop_last(), c).push(s.last())
    }
}

/// The part of a path after its last `/` (the whole path when it has none).
pub open spec fn last_segment(s: Seq<char>) -> Seq<char> {
    after_last(s, '/')
}

/// The part of `s` after its last `c` (`rsplit(c).next()`).
pub fn after_last_vec(s: &Vec<char>, c: char) -> (r: Vec<char>)
    ensures
        r@ == after_last(s@, c),
{
    let mut i: usize = s.len();
    proof {
        assert(s@.take(s.len() as int) =~= s@);
    }
    while i > 0 && s[i - 1] != c
        invariant
            i <= s.len(),
            after_last(s@, c) == after_last(s@.take(i as int), c) + s@.skip(i as int),
        decreases i,
    {
        proof {
            let t = s@.take(i as int);
            assert(t.drop_last() =~= s@.take(i - 1));
            assert(t.last() == s@[i - 1]);
            assert(after_last(t, c) == after_last(t.drop_last(), c).push(s@[i - 1]));
            assert(after_last(t.drop_last(), c).push(s@[i - 1]) + s@.skip(i as int) =~= after_last(
                t.drop_last(),
                c,
            ) + s@.skip(i - 1));
        }
        i = i - 1;
    }
    proof {
        if i > 0 {
            let t = s@.take(i as int);
            assert(t.last() == s@[i - 1]);
        } else {
            assert(s@.take(0) =~= Seq::<char>::empty());
        }
        assert(after_last(s@.take(i as int), c) =~= Seq::<char>::empty());
        assert(Seq::<char>::empty() + s@.skip(i as int) =~= s@.skip(i as int));
    }
    chars_from(s, i)
}

/// The part of a path after its last `/`.
pub fn last_segment_vec(s: &Vec<char>) -> (r: Vec<char>)
    ensures
        r@ == last_segment(s@),
{
    after_last_vec(s, '/')
}

/// ASCII lowercase of a character.
pub open spec fn ascii_lower(c: char) -> char {
    if 'A' <= c <= 'Z' {
        ((c as u32) + 32) as char
    } else {
        c
    }
}

/// ASCII lowercase of a text (`str::to_ascii_lowercase`).
pub open spec fn ascii_lower_seq(s: Seq<char>) -> Seq<char> {
    s.map_values(|c: char| ascii_lower(c))
}

/// ASCII lowercase of a character (what `char::to_ascii_lowercase` does):
/// `'A'..='Z'` map to `'a'..='z'`, every other character is unchanged.
pub(crate) fn char_to_ascii_lowercase(c: char) -> (r: char)
    ensures
        r == ascii_lower(c),
{
    if 'A' <= c && c <= 'Z' {
        let b: u8 = c as u8;
        assert(b as u32 == c as u32);
        (b + 32) as char
    } else {
        c
    }
}

/// ASCII lowercase of a text.
pub fn to_ascii_lowercase(s: &Vec<char>) -> (r: Vec<char>)
    ensures
        r@ == ascii_lower_seq(s@),
{
    let mut out: Vec<char> = Vec::new();
    let mut i: usize = 0;
    while i < s.len()
        invariant
            i <= s.len(),
            out@ == ascii_lower_seq(s@.take(i as int)),
        decreases s.len() - i,
    {
        let c = s[i];
        let l = char_to_ascii_lowercase(c);
        out.push(l);
        i = i + 1;
        proof {
            assert(out@ =~= ascii_lower_seq(s@.take(i as int)));
        }
    }
    proof {
        assert(s@.take(s.len() as int) =~= s@);
    }
    out
}

/// The part of `s` before its last `c`, when it has one (`rsplit_once`).
pub open spec fn before_last(s: Seq<char>, c: char) -> Option<Seq<char>>
    decreases s.len(),
{
    if s.len() == 0 {
        None
    } else if s.last() == c {
        Some(s.drop_last())
    } else {
        before_last(s.drop_last(), c)
    }
}

/// The part of `s` before its last `c`, when it has one.
pub fn before_last_vec(s: &Vec<char>, c: char) -> (r: Option<Vec<char>>)
    ensures
        match (r, before_last(s@, c)) {
            (Some(x), Some(y)) => x@ == y,
            (None, None) => true,
            _ => false,
        },
{
    let mut i: usize = s.len();
    proof {
        assert(s@.take(s.len() as int) =~= s@);
    }
    while i > 0 && s[i - 1] != c
        invariant
            i <= s.len(),
            before_last(s@, c) == before_last(s@.take(i as int), c),
        decreases i,
    {
        proof {
            let t = s@.take(i as int);
            assert(t.drop_last() =~= s@.take(i - 1));
        }
        i = i - 1;
    }
    if i == 0 {
        None
    } else {
        proof {
            let t = s@.take(i as int);
            assert(t.last() == s@[i - 1]);
            assert(t.drop_last() =~= s@.take(i - 1));
        }
        let mut out: Vec<char> = Vec::new();
        let mut k: usize = 0;
        while k < i - 1
            invariant
                i <= s.len(),
                i > 0,
                k <= i - 1,
                out@ == s@.take(k as int),
            decreases i - 1 - k,
        {
            out.push(s[k]);
            k = k + 1;
            proof {
                assert(out@ =~= s@.take(k as int));
            }
        }
        Some(out)
    }
}

/// `s` with every `a` replaced by `b`.
pub open spec fn replace_char(s: Seq<char>, a: char, b: char) -> Seq<char> {
    s.map_values(|x: char| if x == a { b } else { x })
}

/// `s` with every `a` replaced by `b`.
pub fn replace_char_vec(s: &Vec<char>, a: char, b: char) -> (r: Vec<char>)
    ensures
        r@ == replace_char(s@, a, b),
{
    let mut out: Vec<char> = Vec::new();
    let mut i: usize = 0;
    while i < s.len()
        invariant
            i <= s.len(),
            out@ == replace_char(s@.take(i as int), a, b),
        decreases s.len() - i,
    {
        let x = s[i];
        out.push(if x == a { b } else { x });
        i = i + 1;
        proof {
            assert(out@ =~= replace_char(s@.take(i as int), a, b));
        }
    }
    proof {
        assert(s@.take(s.len() as int) =~= s@);
    }
    out
}

/// Pieces of `s` between occurrences of `c` (`str::split`): the empty text
/// gives one empty piece.
pub open spec fn split_on(s: Seq<char>, c: char) -> Seq<Seq<char>>
    decreases s.len(),
{
    if s.len() == 0 {
        seq![Seq::empty()]
    } else {
        let r = split_on(s.drop_last(), c);
        if s.last() == c {
            r.push(Seq::empty())
        } else {
            r.update(r.len() - 1, r.last().push(s.last()))
        }
    }
}

/// `split_on` never yields an empty list.
pub proof fn lemma_split_on_len(s: Seq<char>, c: char)
    ensures
        split_on(s, c).len() >= 1,
    decreases s.len(),
{
    if s.len() > 0 {
        lemma_split_on_len(s.drop_last(), c);
    }
}

/// Pieces of `s` between occurrences of `c`.
pub fn split_vec(s: &Vec<char>, c: char) -> (r: Vec<Vec<char>>)
    ensures
        r@.map_values(|v: Vec<char>| v@) == split_on(s@, c),
{
    let mut out: Vec<Vec<char>> = Vec::new();
    let mut cur: Vec<char> = Vec::new();
    let mut i: usize = 0;
    proof {
        assert(s@.take(0) =~= Seq::<char>::empty());
    }
    while i < s.len()
        invariant
            i <= s.len(),
            out@.map_values(|v: Vec<char>| v@).push(cur@) == split_on(s@.take(i as int), c),
        decreases s.len() - i,
    {
        let ghost prev = split_on(s@.take(i as int), c);
        proof {
            assert(s@.take(i + 1).drop_last() =~= s@.take(i as int));
            assert(s@.take(i + 1).last() == s@[i as int]);
            lemma_split_on_len(s@.take(i as int), c);
        }
        if s[i] == c {
            let done = cur;
            out.push(done);
            cur = Vec::new();
            proof {
                assert(out@.map_values(|v: Vec<char>| v@).push(cur@) =~= prev.push(Seq::empty()));
            }
        } else {
            let ghost before = out@.map_values(|v: Vec<char>| v@);
            cur.push(s[i]);
            proof {
                assert(out@.map_values(|v: Vec<char>| v@).push(cur@) =~= prev.update(
                    prev.len() - 1,
                    prev.last().push(s@[i as int]),
                ));
            }
        }
        i = i + 1;
    }
    out.push(cur);
    proof {
        assert(s@.take(s.len() as int) =~= s@);
    }
    out
}

/// Pieces joined with `c` between them.
pub open spec fn join_on(parts: Seq<Seq<char>>, c: char) -> Seq<char>
    decreases parts.len(),
{
    if parts.len() == 0 {
        Seq::empty()
    } else if parts.len() == 1 {
        parts[0]
    } else {
        join_on(parts.drop_last(), c).push(c) + parts.last()
    }
}

/// Pieces joined with `c` between them.
pub fn join_vec(parts: &Vec<Vec<char>>, c: char) -> (r: Vec<char>)
    ensures
        r@ == join_on(parts@.map_values(|v: Vec<char>| v@), c),
{
    let ghost pv = parts@.map_values(|v: Vec<char>| v@);
    let mut out: Vec<char> = Vec::new();
    let mut i: usize = 0;
    while i < parts.len()
        invariant
            i <= parts.len(),
            pv == parts@.map_values(|v: Vec<char>| v@),
            out@ == join_on(pv.take(i as int), c),
        decreases parts.len() - i,
    {
        proof {
            assert(pv.take(i + 1).drop_last() =~= pv.take(i as int));
            assert(pv.take(i + 1).last() == parts@[i as int]@);
        }
        if i > 0 {
            out.push(c);
        }
        let mut k: usize = 0;
        let ghost mid = out@;
        while k < parts[i].len()
            invariant
                i < parts.len(),
                k <= parts@[i as int]@.len(),
                out@ == mid + parts@[i as int]@.take(k as int),
            decreases parts@[i as int]@.len() - k,
        {
            out.push(parts[i][k]);
            k = k + 1;
            proof {
                assert(out@ =~= mid + parts@[i as int]@.take(k as int));
            }
        }
        proof {
            assert(parts@[i as int]@.take(parts@[i as int]@.len() as int) =~= parts@[i as int]@);
            if i == 0 {
                assert(pv.take(1) =~= seq![parts@[0]@]);
                assert(out@ =~= parts@[0]@);
            } else {
                assert(out@ =~= join_on(pv.take(i as int), c).push(c) + parts@[i as int]@);
            }
        }
        i = i + 1;
    }
    proof {
        assert(pv.take(parts.len() as int) =~= pv);
    }
    out
}

/// Lexicographic order of texts by code point (the order of their UTF-8
/// bytes).
pub open spec fn chars_lt(a: Seq<char>, b: Seq<char>) -> bool
    decreases a.len(),
{
    if a.len() == 0 || b.len() == 0 {
        a.len() < b.len()
    } else if a[0] != b[0] {
        (a[0] as u32) < (b[0] as u32)
    } else {
        chars_lt(a.drop_first(), b.drop_first())
    }
}

/// Distinct characters have distinct code points.
pub proof fn lemma_char_u32_injective(x: char, y: char)
    requires
        x != y,
    ensures
        (x as u32) != (y as u32),
{
}

/// Pushing `x` adds exactly `x` to what a sequence contains.
pub proof fn lemma_push_contains<A>(s: Seq<A>, x: A, y: A)
    ensures
        s.push(x).contains(y) <==> (s.contains(y) || y == x),
{
    if s.push(x).contains(y) {
        let k = choose|k: int| 0 <= k < s.push(x).len() && s.push(x)[k] == y;
        if k < s.len() {
            assert(s[k] == y);
        }
    }
    if s.contains(y) {
        let k = choose|k: int| 0 <= k < s.len() && s[k] == y;
        assert(s.push(x)[k] == y);
    }
    if y == x {
        assert(s.push(x)[s.len() as int] == y);
    }
}

/// [`chars_lt`] is a strict total order.
pub proof fn lemma_chars_lt_order(a: Seq<char>, b: Seq<char>, c: Seq<char>)
    ensures
        !chars_lt(a, a),
        a != b ==> chars_lt(a, b) || chars_lt(b, a),
        chars_lt(a, b) ==> !chars_lt(b, a),
        chars_lt(a, b) && chars_lt(b, c) ==> chars_lt(a, c),
    decreases a.len(),
{
    if a.len() > 0 && b.len() > 0 && c.len() > 0 {
        lemma_chars_lt_order(a.drop_first(), b.drop_first(), c.drop_first());
    } else if a.len() > 0 && b.len() > 0 {
        lemma_chars_lt_order(a.drop_first(), b.drop_first(), b.drop_first());
    } else if a.len() > 0 {
        lemma_chars_lt_order(a.drop_first(), a.drop_first(), a.drop_first());
    }
    if a.len() > 0 && b.len() > 0 && a != b && a[0] == b[0] {
        assert(a =~= seq![a[0]] + a.drop_first());
        assert(b =~= seq![b[0]] + b.drop_first());
    }
    if a.len() > 0 && b.len() > 0 && a[0] != b[0] {
        lemma_char_u32_injective(a[0], b[0]);
    }
    if a.len() == 0 && b.len() == 0 {
        assert(a =~= b);
    }
}

/// Whether `a` sorts before `b`.
pub fn chars_less(a: &Vec<char>, b: &Vec<char>) -> (r: bool)
    ensures
        r == chars_lt(a@, b@),
{
    let mut i: usize = 0;
    proof {
        assert(a@.skip(0) =~= a@);
        assert(b@.skip(0) =~= b@);
    }
    while i < a.len() && i < b.len()
        invariant
            i <= a.len(),
            i <= b.len(),
            chars_lt(a@, b@) == chars_lt(a@.skip(i as int), b@.skip(i as int)),
        decreases a.len() - i,
    {
        let ghost sa = a@.skip(i as int);
        let ghost sb = b@.skip(i as int);
        proof {
            assert(sa.drop_first() =~= a@.skip(i + 1));
            assert(sb.drop_first() =~= b@.skip(i + 1));
            assert(sa[0] == a@[i as int] && sb[0] == b@[i as int]);
        }
        if a[i] != b[i] {
            return (a[i] as u32) < (b[i] as u32);
        }
        i = i + 1;
    }
    i < b.len()
}

/// Strictly increasing texts.
pub open spec fn strictly_sorted(s: Seq<Seq<char>>) -> bool {
    forall|i: int, j: int| 0 <= i < j < s.len() ==> chars_lt(#[trigger] s[i], #[trigger] s[j])
}

/// The distinct texts of `v`, sorted (`sort` then `dedup`).
pub fn sort_dedup(v: &Vec<String>) -> (r: Vec<String>)
    ensures
        strictly_sorted(crate::plan::strings_view(r@)),
        forall|x: Seq<char>|
            crate::plan::strings_view(r@).contains(x) <==> crate::plan::strings_view(v@).contains(x),
{
    let ghost vv = crate::plan::strings_view(v@);
    let mut out: Vec<Vec<char>> = Vec::new();
    let mut i: usize = 0;
    while i < v.len()
        invariant
            i <= v.len(),
            vv == crate::plan::strings_view(v@),
            strictly_sorted(out@.map_values(|c: Vec<char>| c@)),
            forall|x: Seq<char>|
                out@.map_values(|c: Vec<char>| c@).contains(x) <==> vv.take(i as int).contains(x),
        decreases v.len() - i,
    {
        let x = chars_of(v[i].as_str());
        let ghost ov = out@.map_values(|c: Vec<char>| c@);
        let mut j: usize = 0;
        while j < out.len() && chars_less(&out[j], &x)
            invariant
                j <= out.len(),
                ov == out@.map_values(|c: Vec<char>| c@),
                forall|k: int| 0 <= k < j ==> chars_lt(#[trigger] ov[k], x@),
            decreases out.len() - j,
        {
            j = j + 1;
        }
        let dup = j < out.len() && chars_eq(&out[j], &x);
        proof {
            assert(vv.take(i + 1) =~= vv.take(i as int).push(x@));
            assert(vv[i as int] == x@);
        }
        if !dup {
            out.insert(j, x);
            proof {
                let nv = out@.map_values(|c: Vec<char>| c@);
                assert(nv =~= ov.insert(j as int, x@));
                assert forall|a: int, b: int| 0 <= a < b < nv.len() implies chars_lt(
                    #[trigger] nv[a],
                    #[trigger] nv[b],
                ) by {
                    if b == j {
                        assert(chars_lt(ov[a], x@));
                    } else if a == j {
                        lemma_chars_lt_order(x@, ov[j as int], ov[b - 1]);
                        lemma_chars_lt_order(ov[j as int], x@, x@);
                        if b - 1 > j {
                            assert(chars_lt(ov[j as int], ov[b - 1]));
                        }
                    } else if a < j && b > j {
                        assert(chars_lt(ov[a], ov[b - 1]));
                    } else if b < j {
                        assert(chars_lt(ov[a], ov[b]));
                    } else {
                        assert(chars_lt(ov[a - 1], ov[b - 1]));
                    }
                }
                assert forall|y: Seq<char>| nv.contains(y) <==> vv.take(i + 1).contains(y) by {
                    lemma_push_contains(vv.take(i as int), x@, y);
                    if nv.contains(y) {
                        let k = choose|k: int| 0 <= k < nv.len() && nv[k] == y;
                        if k < j {
                            assert(ov[k] == y);
                        } else if k > j {
                            assert(ov[k - 1] == y);
                        }
                    }
                    if ov.contains(y) {
                        let k = choose|k: int| 0 <= k < ov.len() && ov[k] == y;
                        if k < j {
                            assert(nv[k] == y);
                        } else {
                            assert(nv[k + 1] == y);
                        }
                    }
                    if y == x@ {
                        assert(nv[j as int] == y);
                    }
                }
            }
        } else {
            proof {
                assert(ov[j as int] == x@);
                assert forall|y: Seq<char>| ov.contains(y) <==> vv.take(i + 1).contains(y) by {
                    lemma_push_contains(vv.take(i as int), x@, y);
                    if y == x@ {
                        assert(ov.contains(y));
                    }
                }
            }
        }
        i = i + 1;
    }
    proof {
        assert(vv.take(v.len() as int) =~= vv);
    }
    let mut res: Vec<String> = Vec::new();
    let mut k: usize = 0;
    while k < out.len()
        invariant
            k <= out.len(),
            res@.len() == k,
            forall|q: int| 0 <= q < k ==> #[trigger] res@[q]@ == out@[q]@,
        decreases out.len() - k,
    {
        res.push(string_from_chars(&out[k]));
        k = k + 1;
    }
    proof {
        assert(crate::plan::strings_view(res@) =~= out@.map_values(|c: Vec<char>| c@));
    }
    res
}

/// Runs of equal adjacent texts collapsed to one (`Vec::dedup`).
pub open spec fn dedup_adjacent(s: Seq<Seq<char>>) -> Seq<Seq<char>>
    decreases s.len(),
{
    if s.len() == 0 {
        Seq::empty()
    } else {
        let r = dedup_adjacent(s.drop_last());
        if r.len() > 0 && r.last() == s.last() {
            r
        } else {
            r.push(s.last())
        }
    }
}

/// Runs of equal adjacent texts collapsed to one.
pub fn dedup_adjacent_vec(v: Vec<String>) -> (r: Vec<String>)
    ensures
        crate::plan::strings_view(r@) == dedup_adjacent(crate::plan::strings_view(v@)),
{
    let ghost vv = crate::plan::strings_view(v@);
    let mut out: Vec<String> = Vec::new();
    let mut i: usize = 0;
    while i < v.len()
        invariant
            i <= v.len(),
            vv == crate::plan::strings_view(v@),
            crate::plan::strings_view(out@) == dedup_adjacent(vv.take(i as int)),
        decreases v.len() - i,
    {
        proof {
            assert(vv.take(i + 1).drop_last() =~= vv.take(i as int));
            assert(vv.take(i + 1).last() == v@[i as int]@);
        }
        let same = out.len() > 0 && str_eq(out[out.len() - 1].as_str(), v[i].as_str());
        proof {
            if out.len() > 0 {
                assert(crate::plan::strings_view(out@).last() == out@[out.len() - 1]@);
            }
        }
        if !same {
            out.push(v[i].clone());
            proof {
                assert(crate::plan::strings_view(out@) =~= dedup_adjacent(vv.take(i as int)).push(
                    v@[i as int]@,
                ));
            }
        }
        i = i + 1;
    }
    proof {
        assert(vv.take(v.len() as int) =~= vv);
    }
    out
}

/// The distinct texts of `v` in sorted order.
pub open spec fn sorted_distinct(v: Seq<Seq<char>>) -> Seq<Seq<char>> {
    choose|r: Seq<Seq<char>>| strictly_sorted(r) && forall|x: Seq<char>| r.contains(x) <==> v.contains(x)
}

/// Strictly sorted sequences holding the same texts are equal.
pub proof fn lemma_sorted_unique(a: Seq<Seq<char>>, b: Seq<Seq<char>>)
    requires
        strictly_sorted(a),
        strictly_sorted(b),
        forall|x: Seq<char>| a.contains(x) <==> b.contains(x),
    ensures
        a == b,
    decreases a.len(),
{
    if a.len() == 0 {
        if b.len() > 0 {
            assert(b.contains(b[0]));
        }
        assert(a =~= b);
    } else {
        assert(a.contains(a[0]));
        assert(b.len() > 0);
        assert(b.contains(b[0]));
        let j = choose|j: int| 0 <= j < b.len() && b[j] == a[0];
        let k = choose|k: int| 0 <= k < a.len() && a[k] == b[0];
        lemma_chars_lt_order(a[0], b[0], a[0]);
        if j > 0 {
            assert(chars_lt(b[0], b[j]));
            if k > 0 {
                assert(chars_lt(a[0], a[k]));
            }
            lemma_chars_lt_order(b[0], b[0], b[0]);
        }
        assert(a[0] == b[0]);
        let a1 = a.drop_first();
        let b1 = b.drop_first();
        assert forall|x: Seq<char>| a1.contains(x) <==> b1.contains(x) by {
            if a1.contains(x) {
                let p = choose|p: int| 0 <= p < a1.len() && a1[p] == x;
                assert(a[p + 1] == x);
                assert(chars_lt(a[0], a[p + 1]));
                lemma_chars_lt_order(x, x, x);
                assert(b.contains(x));
                let q = choose|q: int| 0 <= q < b.len() && b[q] == x;
                if q == 0 {
                    assert(false);
                }
                assert(b1[q - 1] == x);
            }
            if b1.contains(x) {
                let p = choose|p: int| 0 <= p < b1.len() && b1[p] == x;
                assert(b[p + 1] == x);
                assert(chars_lt(b[0], b[p + 1]));
                lemma_chars_lt_order(x, x, x);
                assert(a.contains(x));
                let q = choose|q: int| 0 <= q < a.len() && a[q] == x;
                if q == 0 {
                    assert(false);
                }
                assert(a1[q - 1] == x);
            }
        }
        assert forall|i: int, j2: int| 0 <= i < j2 < a1.len() implies chars_lt(#[trigger] a1[i], #[trigger] a1[j2]) by {
            assert(chars_lt(a[i + 1], a[j2 + 1]));
        }
        assert forall|i: int, j2: int| 0 <= i < j2 < b1.len() implies chars_lt(#[trigger] b1[i], #[trigger] b1[j2]) by {
            assert(chars_lt(b[i + 1], b[j2 + 1]));
        }
        lemma_sorted_unique(a1, b1);
        assert(a =~= seq![a[0]] + a1);
        assert(b =~= seq![b[0]] + b1);
    }
}

/// A strictly sorted sequence with the texts of `v` is `sorted_distinct(v)`.
pub proof fn lemma_sorted_distinct(r: Seq<Seq<char>>, v: Seq<Seq<char>>)
    requires
        strictly_sorted(r),
        forall|x: Seq<char>| r.contains(x) <==> v.contains(x),
    ensures
        r == sorted_distinct(v),
{
    let c = sorted_distinct(v);
    assert(strictly_sorted(c) && forall|x: Seq<char>| c.contains(x) <==> v.contains(x));
    lemma_sorted_unique(r, c);
}

/// A text with its whitespace runs collapsed to single spaces and trimmed
/// (`split_whitespace` joined with spaces).
pub open spec fn collapse_spec(x: Seq<char>) -> Seq<char> {
    join_words(ws_words(x))
}

/// A word: not empty, and without whitespace.
pub open spec fn is_word(w: Seq<char>) -> bool {
    w.len() > 0 && forall|k: int| 0 <= k < w.len() ==> !is_white_space(#[trigger] w[k])
}

proof fn lemma_ws_words_are_words(s: Seq<char>)
    ensures
        forall|i: int| 0 <= i < ws_words(s).len() ==> is_word(#[trigger] ws_words(s)[i]),
    decreases s.len(),
{
    if s.len() > 0 {
        if is_white_space(s[0]) {
            lemma_ws_words_are_words(s.drop_first());
            assert(ws_words(s) == ws_words(s.drop_first()));
        } else {
            lemma_word_len_bounds(s);
            lemma_word_len_bounds(s.drop_first());
            let w = word_len(s);
            assert(w >= 1);
            lemma_ws_words_are_words(s.skip(w));
            let r = ws_words(s);
            assert forall|i: int| 0 <= i < r.len() implies is_word(#[trigger] r[i]) by {
                if i == 0 {
                    assert(r[0] == s.take(w));
                    assert forall|k: int| 0 <= k < s.take(w).len() implies !is_white_space(#[trigger] s.take(w)[k]) by {
                        assert(s.take(w)[k] == s[k]);
                    }
                } else {
                    assert(r[i] == ws_words(s.skip(w))[i - 1]);
                }
            }
            assert(r == ws_words(s));
        }
    }
}

proof fn lemma_word_len_split(a: Seq<char>, c: char, b: Seq<char>)
    requires
        is_white_space(c),
    ensures
        word_len(a + seq![c] + b) == word_len(a),
    decreases a.len(),
{
    let x = a + seq![c] + b;
    if a.len() > 0 && !is_white_space(a[0]) {
        assert(x[0] == a[0]);
        assert(x.drop_first() =~= a.drop_first() + seq![c] + b);
        lemma_word_len_split(a.drop_first(), c, b);
    } else if a.len() == 0 {
        assert(x[0] == c);
    } else {
        assert(x[0] == a[0]);
    }
}

proof fn lemma_ws_words_split(a: Seq<char>, c: char, b: Seq<char>)
    requires
        is_white_space(c),
    ensures
        ws_words(a + seq![c] + b) == ws_words(a) + ws_words(b),
    decreases a.len(),
{
    let x = a + seq![c] + b;
    if a.len() == 0 {
        assert(x[0] == c);
        assert(x.drop_first() =~= b);
        assert(ws_words(a) =~= Seq::<Seq<char>>::empty());
        assert(ws_words(a) + ws_words(b) =~= ws_words(b));
    } else if is_white_space(a[0]) {
        assert(x[0] == a[0]);
        assert(x.drop_first() =~= a.drop_first() + seq![c] + b);
        lemma_ws_words_split(a.drop_first(), c, b);
    } else {
        assert(x[0] == a[0]);
        lemma_word_len_split(a, c, b);
        lemma_word_len_bounds(a);
        let w = word_len(a);
        assert(w >= 1) by {
            assert(a.len() > 0 && !is_white_space(a[0]));
            reveal_with_fuel(word_len, 2);
        }
        assert(x.take(w) =~= a.take(w));
        assert(x.skip(w) =~= a.skip(w) + seq![c] + b);
        lemma_ws_words_split(a.skip(w), c, b);
        assert(ws_words(x) =~= seq![a.take(w)] + (ws_words(a.skip(w)) + ws_words(b)));
        assert(ws_words(a) =~= seq![a.take(w)] + ws_words(a.skip(w)));
    }
}

proof fn lemma_word_len_whole(w: Seq<char>)
    requires
        forall|k: int| 0 <= k < w.len() ==> !is_white_space(#[trigger] w[k]),
    ensures
        word_len(w) == w.len(),
    decreases w.len(),
{
    if w.len() > 0 {
        assert forall|k: int| 0 <= k < w.drop_first().len() implies !is_white_space(#[trigger] w.drop_first()[k]) by {
            assert(w.drop_first()[k] == w[k + 1]);
        }
        lemma_word_len_whole(w.drop_first());
    }
}

proof fn lemma_ws_words_join(ws: Seq<Seq<char>>)
    requires
        forall|i: int| 0 <= i < ws.len() ==> is_word(#[trigger] ws[i]),
    ensures
        ws_words(join_words(ws)) == ws,
    decreases ws.len(),
{
    if ws.len() == 0 {
        assert(ws_words(Seq::<char>::empty()) =~= ws);
    } else {
        let w = ws.last();
        assert(is_word(ws[ws.len() - 1]));
        lemma_word_len_whole(w);
        assert(w.take(word_len(w)) =~= w);
        assert(w.skip(word_len(w)) =~= Seq::<char>::empty());
        assert(!is_white_space(w[0]));
        assert(ws_words(w.skip(word_len(w))) =~= Seq::<Seq<char>>::empty());
        assert(ws_words(w) =~= seq![w]);
        if ws.len() == 1 {
            assert(ws =~= seq![w]);
        } else {
            let pre = ws.drop_last();
            assert forall|i: int| 0 <= i < pre.len() implies is_word(#[trigger] pre[i]) by {
                assert(pre[i] == ws[i]);
            }
            lemma_ws_words_join(pre);
            lemma_ws_words_split(join_words(pre), ' ', w);
            assert(ws =~= pre + seq![w]);
        }
    }
}

/// Collapsing whitespace is idempotent: a collapsed text collapses to
/// itself.
pub proof fn lemma_collapse_idempotent(x: Seq<char>)
    ensures
        collapse_spec(collapse_spec(x)) == collapse_spec(x),
{
    lemma_ws_words_are_words(x);
    lemma_ws_words_join(ws_words(x));
}

/// Append the characters of `s`.
pub fn push_chars(v: &mut Vec<char>, s: &str)
    ensures
        final(v)@ == old(v)@ + s@,
{
    let mut t = chars_of(s);
    v.append(&mut t);
}

/// Append the characters of `s`.
pub fn push_vec(v: &mut Vec<char>, s: &Vec<char>)
    ensures
        final(v)@ == old(v)@ + s@,
{
    let mut i: usize = 0;
    let ghost v0 = v@;
    while i < s.len()
        invariant
            i <= s.len(),
            v@ == v0 + s@.take(i as int),
        decreases s.len() - i,
    {
        v.push(s[i]);
        i = i + 1;
        proof {
            assert(v@ =~= v0 + s@.take(i as int));
        }
    }
    proof {
        assert(s@.take(s.len() as int) =~= s@);
    }
}

/// Quote characters.
pub open spec fn is_quote(c: char) -> bool {
    c == '"' || c == '\''
}

/// Drop leading quote characters.
pub open spec fn trim_start_quotes(s: Seq<char>) -> Seq<char>
    decreases s.len(),
{
    if s.len() > 0 && is_quote(s[0]) {
        trim_start_quotes(s.drop_first())
    } else {
        s
    }
}

/// Drop trailing quote characters.
pub open spec fn trim_end_quotes(s: Seq<char>) -> Seq<char>
    decreases s.len(),
{
    if s.len() > 0 && is_quote(s.last()) {
        trim_end_quotes(s.drop_last())
    } else {
        s
    }
}

/// Drop leading and trailing quote characters (`trim_matches`).
pub fn trim_quotes_vec(v: &Vec<char>) -> (r: Vec<char>)
    ensures
        r@ == trim_end_quotes(trim_start_quotes(v@)),
{
    let mut i: usize = 0;
    proof {
        assert(v@.skip(0) =~= v@);
    }
    while i < v.len() && (v[i] == '"' || v[i] == '\'')
        invariant
            i <= v.len(),
            trim_start_quotes(v@.skip(i as int)) == trim_start_quotes(v@),
        decreases v.len() - i,
    {
        proof {
            assert(v@.skip(i as int).drop_first() =~= v@.skip(i + 1));
        }
        i = i + 1;
    }
    let mut t = chars_from(v, i);
    let ghost t0 = t@;
    while t.len() > 0 && (t[t.len() - 1] == '"' || t[t.len() - 1] == '\'')
        invariant
            trim_end_quotes(t@) == trim_end_quotes(t0),
        decreases t.len(),
    {
        let ghost before = t@;
        t.pop();
        proof {
            assert(t@ =~= before.drop_last());
        }
    }
    t
}

/// The part of `s` before its first `c` (all of `s` when it has none).
pub open spec fn before_first(s: Seq<char>, c: char) -> Seq<char> {
    match find_char(s, c) {
        Some(i) => s.take(i),
        None => s,
    }
}

/// The part of `s` before its first `c` (`split(c).next()`).
pub fn before_first_vec(s: &Vec<char>, c: char) -> (r: Vec<char>)
    ensures
        r@ == before_first(s@, c),
{
    proof {
        lemma_find_char_bounds(s@, c);
    }
    let mut out: Vec<char> = Vec::new();
    let mut i: usize = 0;
    while i < s.len() && s[i] != c
        invariant
            i <= s.len(),
            out@ == s@.take(i as int),
            forall|k: int| 0 <= k < i ==> s@[k] != c,
        decreases s.len() - i,
    {
        out.push(s[i]);
        i = i + 1;
        proof {
            assert(out@ =~= s@.take(i as int));
        }
    }
    proof {
        lemma_find_char_bounds(s@, c);
        match find_char(s@, c) {
            Some(j) => {
                assert(j == i);
            },
            None => {
                assert(s@.take(s.len() as int) =~= s@);
            },
        }
    }
    out
}

/// `s` without repeated leading occurrences of `p` (`trim_start_matches`).
pub open spec fn strip_prefix_rep(s: Seq<char>, p: Seq<char>) -> Seq<char>
    decreases s.len(),
{
    if p.len() > 0 && has_prefix(s, p) {
        strip_prefix_rep(s.skip(p.len() as int), p)
    } else {
        s
    }
}

/// `s` without repeated leading occurrences of `p`.
pub fn strip_prefix_rep_vec(s: &Vec<char>, p: &Vec<char>) -> (r: Vec<char>)
    ensures
        r@ == strip_prefix_rep(s@, p@),
{
    let mut cur = chars_from(s, 0);
    proof {
        assert(s@.skip(0) =~= s@);
    }
    while p.len() > 0 && starts_with(&cur, p)
        invariant
            strip_prefix_rep(cur@, p@) == strip_prefix_rep(s@, p@),
        decreases cur.len(),
    {
        cur = chars_from(&cur, p.len());
    }
    cur
}

/// `s` without trailing `c`s (`trim_end_matches`).
pub open spec fn trim_end_char(s: Seq<char>, c: char) -> Seq<char>
    decreases s.len(),
{
    if s.len() > 0 && s.last() == c {
        trim_end_char(s.drop_last(), c)
    } else {
        s
    }
}

/// `s` without trailing `c`s.
pub fn trim_end_char_vec(s: &Vec<char>, c: char) -> (r: Vec<char>)
    ensures
        r@ == trim_end_char(s@, c),
{
    let mut t = chars_from(s, 0);
    proof {
        assert(s@.skip(0) =~= s@);
    }
    while t.len() > 0 && t[t.len() - 1] == c
        invariant
            trim_end_char(t@, c) == trim_end_char(s@, c),
        decreases t.len(),
    {
        let ghost before = t@;
        t.pop();
        proof {
            assert(t@ =~= before.drop_last());
        }
    }
    t
}

} // verus!
