//! Lexical search helpers: the terms of a search query, the full-text
//! match expression built from them, and the term a hit is credited to.

use vstd::prelude::*;
use vstd::utf8::encode_utf8;
use crate::edges::{is_word_char, is_word_char_exec};
use crate::model::opt_view;
use crate::plan::strings_view;
use crate::text::{chars_of, contains_seq, has_substring, string_from_chars};

verus! {

/// Pieces of a text between characters that are not word characters
/// (`str::split` semantics: the empty text gives one empty piece).
pub open spec fn split_words(s: Seq<char>) -> Seq<Seq<char>>
    decreases s.len(),
{
    if s.len() == 0 {
        seq![Seq::empty()]
    } else {
        let r = split_words(s.drop_last());
        if is_word_char(s.last()) {
            r.update(r.len() - 1, r.last().push(s.last()))
        } else {
            r.push(Seq::empty())
        }
    }
}

/// The pieces at least two bytes long, in order.
pub open spec fn long_pieces(p: Seq<Seq<char>>) -> Seq<Seq<char>>
    decreases p.len(),
{
    if p.len() == 0 {
        Seq::empty()
    } else {
        let r = long_pieces(p.drop_last());
        if encode_utf8(p.last()).len() >= 2 {
            r.push(p.last())
        } else {
            r
        }
    }
}

/// Terms of a search query: its runs of word characters that are at least
/// two bytes long.
pub open spec fn search_terms_spec(q: Seq<char>) -> Seq<Seq<char>> {
    long_pieces(split_words(q))
}

proof fn lemma_split_words_len(s: Seq<char>)
    ensures
        split_words(s).len() >= 1,
    decreases s.len(),
{
    if s.len() > 0 {
        lemma_split_words_len(s.drop_last());
    }
}

fn split_words_vec(s: &Vec<char>) -> (r: Vec<Vec<char>>)
    ensures
        r@.map_values(|v: Vec<char>| v@) == split_words(s@),
{
    let mut out: Vec<Vec<char>> = Vec::new();
    let mut cur: Vec<char> = Vec::new();
    let mut i: usize = 0;
    proof {
        assert(s@.take(0) =~= Seq::<char>::empty());
    }
    while i < s.len()
        invariant
            i <= s.len(),
            out@.map_values(|v: Vec<char>| v@).push(cur@) == split_words(s@.take(i as int)),
        decreases s.len() - i,
    {
        let ghost prev = split_words(s@.take(i as int));
        proof {
            assert(s@.take(i + 1).drop_last() =~= s@.take(i as int));
            assert(s@.take(i + 1).last() == s@[i as int]);
            lemma_split_words_len(s@.take(i as int));
        }
        if is_word_char_exec(s[i]) {
            cur.push(s[i]);
            proof {
                assert(out@.map_values(|v: Vec<char>| v@).push(cur@) =~= prev.update(
                    prev.len() - 1,
                    prev.last().push(s@[i as int]),
                ));
            }
        } else {
            let done = cur;
            out.push(done);
            cur = Vec::new();
            proof {
                assert(out@.map_values(|v: Vec<char>| v@).push(cur@) =~= prev.push(Seq::empty()));
            }
        }
        i = i + 1;
    }
    out.push(cur);
    proof {
        assert(s@.take(s.len() as int) =~= s@);
    }
    out
}

/// Terms of a search query (see [`search_terms_spec`]).
pub fn search_terms(query: &str) -> (r: Vec<String>)
    ensures
        strings_view(r@) == search_terms_spec(query@),
{
    let pieces = split_words_vec(&chars_of(query));
    let ghost pv = pieces@.map_values(|v: Vec<char>| v@);
    let mut terms: Vec<String> = Vec::new();
    let mut i: usize = 0;
    while i < pieces.len()
        invariant
            i <= pieces.len(),
            pv == pieces@.map_values(|v: Vec<char>| v@),
            strings_view(terms@) == long_pieces(pv.take(i as int)),
        decreases pieces.len() - i,
    {
        proof {
            assert(pv.take(i + 1).drop_last() =~= pv.take(i as int));
            assert(pv.take(i + 1).last() == pieces@[i as int]@);
        }
        let t = string_from_chars(&pieces[i]);
        if t.as_str().as_bytes().len() >= 2 {
            terms.push(t);
            proof {
                assert(strings_view(terms@) =~= long_pieces(pv.take(i + 1)));
            }
        }
        i = i + 1;
    }
    proof {
        assert(pv.take(pieces.len() as int) =~= pv);
    }
    terms
}

/// The text without its `"` characters.
pub open spec fn drop_quotes(t: Seq<char>) -> Seq<char>
    decreases t.len(),
{
    if t.len() == 0 {
        t
    } else if t.last() == '"' {
        drop_quotes(t.drop_last())
    } else {
        drop_quotes(t.drop_last()).push(t.last())
    }
}

/// Full-text match expression: each term quoted (its own quotes dropped),
/// joined by ` OR `.
pub open spec fn match_expr_spec(terms: Seq<Seq<char>>) -> Seq<char>
    decreases terms.len(),
{
    if terms.len() == 0 {
        Seq::empty()
    } else if terms.len() == 1 {
        seq!['"'] + drop_quotes(terms[0]) + seq!['"']
    } else {
        match_expr_spec(terms.drop_last()) + " OR \""@ + drop_quotes(terms.last()) + seq!['"']
    }
}

fn push_unquoted(out: &mut Vec<char>, t: &Vec<char>)
    ensures
        final(out)@ == old(out)@ + drop_quotes(t@),
{
    let mut i: usize = 0;
    proof {
        assert(t@.take(0) =~= Seq::<char>::empty());
        assert(old(out)@ + drop_quotes(t@.take(0)) =~= old(out)@);
    }
    while i < t.len()
        invariant
            i <= t.len(),
            out@ == old(out)@ + drop_quotes(t@.take(i as int)),
        decreases t.len() - i,
    {
        proof {
            assert(t@.take(i + 1).drop_last() =~= t@.take(i as int));
            assert(t@.take(i + 1).last() == t@[i as int]);
        }
        if t[i] != '"' {
            out.push(t[i]);
        }
        i = i + 1;
        proof {
            assert(out@ =~= old(out)@ + drop_quotes(t@.take(i as int)));
        }
    }
    proof {
        assert(t@.take(t.len() as int) =~= t@);
    }
}

/// Full-text match expression of the terms (see [`match_expr_spec`]).
pub fn match_expr(terms: &Vec<String>) -> (r: String)
    ensures
        r@ == match_expr_spec(strings_view(terms@)),
{
    let ghost tv = strings_view(terms@);
    let mut out: Vec<char> = Vec::new();
    let mut i: usize = 0;
    while i < terms.len()
        invariant
            i <= terms.len(),
            tv == strings_view(terms@),
            out@ == match_expr_spec(tv.take(i as int)),
        decreases terms.len() - i,
    {
        proof {
            assert(tv.take(i + 1).drop_last() =~= tv.take(i as int));
            assert(tv.take(i + 1).last() == terms@[i as int]@);
            reveal_strlit(" OR \"");
        }
        if i == 0 {
            out.push('"');
        } else {
            out.push(' ');
            out.push('O');
            out.push('R');
            out.push(' ');
            out.push('"');
        }
        let t = chars_of(terms[i].as_str());
        push_unquoted(&mut out, &t);
        out.push('"');
        proof {
            if i == 0 {
                assert(tv.take(1)[0] == tv[0]);
            }
            assert(out@ =~= match_expr_spec(tv.take(i + 1)));
        }
        i = i + 1;
    }
    proof {
        assert(tv.take(terms.len() as int) =~= tv);
    }
    string_from_chars(&out)
}

/// A term occurs in the content, or in the symbol when there is one.
pub open spec fn term_hits(t: Seq<char>, content: Seq<char>, symbol: Option<Seq<char>>) -> bool {
    has_substring(content, t) || (symbol matches Some(s) && has_substring(s, t))
}

/// Index of the first term that hits, if any.
pub open spec fn first_hit(terms: Seq<Seq<char>>, content: Seq<char>, symbol: Option<Seq<char>>) -> Option<int>
    decreases terms.len(),
{
    if terms.len() == 0 {
        None
    } else {
        match first_hit(terms.drop_last(), content, symbol) {
            Some(k) => Some(k),
            None => if term_hits(terms.last(), content, symbol) {
                Some(terms.len() - 1)
            } else {
                None
            },
        }
    }
}

/// The term a search hit is credited to: the first term found in the
/// node's content or symbol, else the first term.
pub fn matched_term(terms: &Vec<String>, content: &str, symbol: &Option<String>) -> (r: String)
    requires
        terms@.len() > 0,
    ensures
        r@ == match first_hit(strings_view(terms@), content@, opt_view(*symbol)) {
            Some(k) => terms@[k]@,
            None => terms@[0]@,
        },
{
    let ghost tv = strings_view(terms@);
    let c = chars_of(content);
    let s: Option<Vec<char>> = match symbol {
        Some(x) => Some(chars_of(x.as_str())),
        None => None,
    };
    let mut i: usize = 0;
    while i < terms.len()
        invariant
            i <= terms.len(),
            tv == strings_view(terms@),
            c@ == content@,
            match s {
                Some(v) => opt_view(*symbol) == Some(v@),
                None => opt_view(*symbol) is None,
            },
            first_hit(tv.take(i as int), content@, opt_view(*symbol)) is None,
        decreases terms.len() - i,
    {
        proof {
            assert(tv.take(i + 1).drop_last() =~= tv.take(i as int));
            assert(tv.take(i + 1).last() == terms@[i as int]@);
        }
        let t = chars_of(terms[i].as_str());
        let in_symbol = match &s {
            Some(v) => contains_seq(v, &t),
            None => false,
        };
        if contains_seq(&c, &t) || in_symbol {
            proof {
                lemma_first_hit_extend(tv, (i + 1) as int, i as int, content@, opt_view(*symbol));
            }
            return terms[i].clone();
        }
        i = i + 1;
    }
    proof {
        assert(tv.take(terms.len() as int) =~= tv);
    }
    terms[0].clone()
}

proof fn lemma_first_hit_extend(terms: Seq<Seq<char>>, n: int, k: int, content: Seq<char>, symbol: Option<Seq<char>>)
    requires
        0 <= n <= terms.len(),
        first_hit(terms.take(n), content, symbol) == Some(k),
    ensures
        first_hit(terms, content, symbol) == Some(k),
    decreases terms.len() - n,
{
    if n < terms.len() {
        assert(terms.take(n + 1).drop_last() =~= terms.take(n));
        lemma_first_hit_extend(terms, n + 1, k, content, symbol);
    } else {
        assert(terms.take(n) =~= terms);
    }
}

} // verus!
