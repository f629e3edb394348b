//! Review context of a change: which neighbours of the changed chunks are
//! impacted, how impact lists are kept, and the query of the suggested
//! review pack.

use vstd::prelude::*;
use crate::plan::strings_view;
use crate::text::{chars_of, str_eq, string_from_chars};

verus! {

/// Parts joined with `sep` between consecutive parts.
pub open spec fn join_sep(parts: Seq<Seq<char>>, sep: Seq<char>) -> Seq<char>
    decreases parts.len(),
{
    if parts.len() == 0 {
        Seq::empty()
    } else if parts.len() == 1 {
        parts[0]
    } else {
        join_sep(parts.drop_last(), sep) + sep + parts.last()
    }
}

/// The text after the last `::` of `s` (all of `s` when it has none).
pub open spec fn after_last_colons(s: Seq<char>) -> Seq<char>
    decreases s.len(),
{
    if s.len() == 0 {
        Seq::empty()
    } else if s.len() >= 2 && s[s.len() - 2] == ':' && s[s.len() - 1] == ':' {
        Seq::empty()
    } else {
        after_last_colons(s.drop_last()).push(s.last())
    }
}

/// How an impacted or changed declaration is listed: `path::symbol`, with
/// `-` for a node without a symbol.
pub open spec fn impact_label_spec(path: Seq<char>, symbol: Option<Seq<char>>) -> Seq<char> {
    path + "::"@ + match symbol {
        Some(s) => s,
        None => "-"@,
    }
}

/// The query of the suggested review pack: the names of the first five
/// changed symbols (what follows the last `::` of each entry), or, when no
/// symbol changed, the changed paths.
pub open spec fn review_query_spec(changed: Seq<Seq<char>>, changed_symbols: Seq<Seq<char>>) -> Seq<char> {
    let n = if changed_symbols.len() < 5 {
        changed_symbols.len() as int
    } else {
        5
    };
    let names = changed_symbols.take(n).map_values(|e: Seq<char>| after_last_colons(e));
    "review changes to "@ + if names.len() == 0 {
        join_sep(changed, ", "@)
    } else {
        join_sep(names, ", "@)
    }
}

/// No entry occurs twice.
pub open spec fn distinct_entries(s: Seq<Seq<char>>) -> bool {
    forall|i: int, j: int| 0 <= i < j < s.len() ==> s[i] != s[j]
}

/// The listing of an impacted or changed declaration (see
/// [`impact_label_spec`]).
pub fn impact_label(path: &str, symbol: &Option<String>) -> (r: String)
    ensures
        r@ == impact_label_spec(
            path@,
            match symbol {
                Some(s) => Some(s@),
                None => None,
            },
        ),
{
    let mut v = chars_of(path);
    let mut c = chars_of("::");
    v.append(&mut c);
    let mut t = match symbol {
        Some(s) => chars_of(s.as_str()),
        None => chars_of("-"),
    };
    v.append(&mut t);
    string_from_chars(&v)
}

/// A node reached over an edge into a changed chunk counts as impacted when
/// it is valid and lives outside the changed files.
pub fn impacts_outside(valid: bool, path: &str, changed: &Vec<String>) -> (r: bool)
    ensures
        r == (valid && !strings_view(changed@).contains(path@)),
{
    if !valid {
        return false;
    }
    let mut i: usize = 0;
    while i < changed.len()
        invariant
            i <= changed.len(),
            forall|k: int| 0 <= k < i ==> changed@[k]@ != path@,
        decreases changed.len() - i,
    {
        if str_eq(changed[i].as_str(), path) {
            proof {
                assert(strings_view(changed@)[i as int] == path@);
            }
            return false;
        }
        i = i + 1;
    }
    proof {
        assert forall|k: int| 0 <= k < strings_view(changed@).len() implies strings_view(changed@)[k] != path@ by {
            assert(strings_view(changed@)[k] == changed@[k]@);
        }
    }
    true
}

/// Adds an entry to an impact list unless it is listed already; true when
/// it was added. A list without repeats stays without repeats.
pub fn push_unique(list: &mut Vec<String>, entry: String) -> (r: bool)
    ensures
        r == !strings_view(old(list)@).contains(entry@),
        strings_view(final(list)@) == if r {
            strings_view(old(list)@).push(entry@)
        } else {
            strings_view(old(list)@)
        },
        distinct_entries(strings_view(old(list)@)) ==> distinct_entries(strings_view(final(list)@)),
{
    let ghost before = strings_view(list@);
    let mut i: usize = 0;
    while i < list.len()
        invariant
            i <= list.len(),
            before == strings_view(list@),
            forall|k: int| 0 <= k < i ==> list@[k]@ != entry@,
        decreases list.len() - i,
    {
        if str_eq(list[i].as_str(), entry.as_str()) {
            proof {
                assert(before[i as int] == entry@);
            }
            return false;
        }
        i = i + 1;
    }
    proof {
        assert forall|k: int| 0 <= k < before.len() implies before[k] != entry@ by {
            assert(before[k] == list@[k]@);
        }
    }
    list.push(entry);
    proof {
        assert(strings_view(list@) =~= before.push(entry@));
    }
    true
}

fn after_last_colons_exec(s: &str) -> (r: Vec<char>)
    ensures
        r@ == after_last_colons(s@),
{
    let c = chars_of(s);
    let mut out: Vec<char> = Vec::new();
    let mut i: usize = 0;
    while i < c.len()
        invariant
            i <= c.len(),
            c@ == s@,
            out@ == after_last_colons(c@.take(i as int)),
        decreases c.len() - i,
    {
        proof {
            assert(c@.take(i + 1).drop_last() =~= c@.take(i as int));
        }
        if i >= 1 && c[i - 1] == ':' && c[i] == ':' {
            out = Vec::new();
        } else {
            out.push(c[i]);
        }
        i = i + 1;
    }
    proof {
        assert(c@.take(c.len() as int) =~= c@);
    }
    out
}

fn join_chars(parts: &Vec<Vec<char>>, sep: &str) -> (r: Vec<char>)
    ensures
        r@ == join_sep(parts@.map_values(|p: Vec<char>| p@), sep@),
{
    let ghost ps = parts@.map_values(|p: Vec<char>| p@);
    let mut out: Vec<char> = Vec::new();
    let mut i: usize = 0;
    while i < parts.len()
        invariant
            i <= parts.len(),
            ps == parts@.map_values(|p: Vec<char>| p@),
            out@ == join_sep(ps.take(i as int), sep@),
        decreases parts.len() - i,
    {
        proof {
            assert(ps.take(i + 1).drop_last() =~= ps.take(i as int));
            assert(ps.take(i + 1).last() == parts@[i as int]@);
            if i == 0 {
                assert(ps.take(1)[0] == parts@[0]@);
            }
        }
        if i > 0 {
            let mut s = chars_of(sep);
            out.append(&mut s);
        }
        let mut p = parts[i].clone();
        out.append(&mut p);
        i = i + 1;
    }
    proof {
        assert(ps.take(parts.len() as int) =~= ps);
    }
    out
}

/// The query of the suggested review pack (see [`review_query_spec`]).
pub fn review_query(changed: &Vec<String>, changed_symbols: &Vec<String>) -> (r: String)
    ensures
        r@ == review_query_spec(strings_view(changed@), strings_view(changed_symbols@)),
{
    let ghost syms = strings_view(changed_symbols@);
    let n: usize = if changed_symbols.len() < 5 {
        changed_symbols.len()
    } else {
        5
    };
    let ghost names = syms.take(n as int).map_values(|e: Seq<char>| after_last_colons(e));
    let mut parts: Vec<Vec<char>> = Vec::new();
    if n == 0 {
        let mut k: usize = 0;
        while k < changed.len()
            invariant
                k <= changed.len(),
                parts@.map_values(|p: Vec<char>| p@) == strings_view(changed@).take(k as int),
                parts@.len() == k,
            decreases changed.len() - k,
        {
            let ghost pre = parts@;
            let x = chars_of(changed[k].as_str());
            parts.push(x);
            k = k + 1;
            proof {
                assert(parts@ == pre.push(x));
                assert forall|i: int| 0 <= i < k implies parts@.map_values(|p: Vec<char>| p@)[i]
                    == strings_view(changed@).take(k as int)[i] by {
                    if i < k - 1 {
                        assert(parts@[i] == pre[i]);
                        assert(pre.map_values(|p: Vec<char>| p@)[i] == strings_view(changed@).take(k - 1)[i]);
                    }
                }
                assert(parts@.map_values(|p: Vec<char>| p@) =~= strings_view(changed@).take(k as int));
            }
        }
        proof {
            assert(strings_view(changed@).take(changed.len() as int) =~= strings_view(changed@));
            assert(names =~= Seq::<Seq<char>>::empty());
        }
    } else {
        let mut k: usize = 0;
        while k < n
            invariant
                k <= n <= changed_symbols.len(),
                syms == strings_view(changed_symbols@),
                names == syms.take(n as int).map_values(|e: Seq<char>| after_last_colons(e)),
                parts@.map_values(|p: Vec<char>| p@) == names.take(k as int),
                parts@.len() == k,
            decreases n - k,
        {
            let ghost pre = parts@;
            let x = after_last_colons_exec(changed_symbols[k].as_str());
            parts.push(x);
            k = k + 1;
            proof {
                assert(parts@ == pre.push(x));
                assert(syms[k - 1] == changed_symbols@[k - 1]@);
                assert forall|i: int| 0 <= i < k implies parts@.map_values(|p: Vec<char>| p@)[i] == names.take(
                    k as int,
                )[i] by {
                    if i < k - 1 {
                        assert(parts@[i] == pre[i]);
                        assert(pre.map_values(|p: Vec<char>| p@)[i] == names.take(k - 1)[i]);
                    }
                }
                assert(parts@.map_values(|p: Vec<char>| p@) =~= names.take(k as int));
            }
        }
        proof {
            assert(names.take(n as int) =~= names);
        }
    }
    let mut out = chars_of("review changes to ");
    let mut j = join_chars(&parts, ", ");
    out.append(&mut j);
    string_from_chars(&out)
}

} // verus!
