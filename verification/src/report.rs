//! Cache-stability reporting helpers.

use vstd::prelude::*;
use crate::plan::strings_view;
use crate::text::str_eq;

verus! {

/// `f` places each item of `p` at a position of `o` holding it, at
/// strictly increasing positions.
pub open spec fn is_embedding(f: Seq<int>, p: Seq<Seq<char>>, o: Seq<Seq<char>>) -> bool {
    &&& f.len() == p.len()
    &&& forall|k: int| 0 <= k < f.len() ==> 0 <= #[trigger] f[k] < o.len() && o[f[k]] == p[k]
    &&& forall|a: int, b: int| 0 <= a < b < f.len() ==> #[trigger] f[a] < #[trigger] f[b]
}

/// The items of `p` appear in `o` in the same relative order.
pub open spec fn is_subseq(p: Seq<Seq<char>>, o: Seq<Seq<char>>) -> bool {
    exists|f: Seq<int>| #[trigger] is_embedding(f, p, o)
}

/// True if `prefix` items appear in `order` in the same relative order.
pub fn is_subsequence(prefix: &Vec<String>, order: &Vec<String>) -> (r: bool)
    ensures
        r == is_subseq(strings_view(prefix@), strings_view(order@)),
{
    let ghost p = strings_view(prefix@);
    let ghost o = strings_view(order@);
    let ghost mut g: Seq<int> = Seq::empty();
    let mut j: usize = 0;
    let mut k: usize = 0;
    while k < prefix.len()
        invariant
            p == strings_view(prefix@),
            o == strings_view(order@),
            k <= prefix.len(),
            j <= order.len(),
            g.len() == k,
            forall|m: int| 0 <= m < k ==> 0 <= #[trigger] g[m] < o.len() && o[g[m]] == p[m],
            forall|a: int, b: int| 0 <= a < b < k ==> #[trigger] g[a] < #[trigger] g[b],
            j == (if k == 0 {
                0
            } else {
                g[k - 1] + 1
            }),
            forall|f: Seq<int>|
                #[trigger] is_embedding(f, p, o) ==> forall|m: int| 0 <= m < k ==> f[m] >= g[m],
        decreases prefix.len() - k,
    {
        let j0 = j;
        while j < order.len() && !str_eq(order[j].as_str(), prefix[k].as_str())
            invariant
                j0 <= j <= order.len(),
                k < prefix.len(),
                p == strings_view(prefix@),
                o == strings_view(order@),
                forall|i: int| j0 <= i < j ==> o[i] != p[k as int],
            decreases order.len() - j,
        {
            proof {
                assert(o[j as int] == order@[j as int]@ && p[k as int] == prefix@[k as int]@);
            }
            j = j + 1;
        }
        if j == order.len() {
            proof {
                assert forall|f: Seq<int>| !is_embedding(f, p, o) by {
                    if is_embedding(f, p, o) {
                        let fk = f[k as int];
                        if k > 0 {
                            assert(f[k - 1] < f[k as int]);
                            assert(f[k - 1] >= g[k - 1]);
                        }
                        assert(fk >= j0);
                        assert(0 <= fk < o.len() && o[fk] == p[k as int]);
                    }
                }
            }
            return false;
        }
        proof {
            assert(o[j as int] == order@[j as int]@ && p[k as int] == prefix@[k as int]@);
            let old_g = g;
            g = g.push(j as int);
            assert forall|f: Seq<int>| #[trigger] is_embedding(f, p, o) implies forall|m: int|
                0 <= m < k + 1 ==> f[m] >= g[m] by {
                assert forall|m: int| 0 <= m < k + 1 implies f[m] >= g[m] by {
                    if m < k {
                        assert(g[m] == old_g[m]);
                    } else {
                        if k > 0 {
                            assert(f[k - 1] < f[k as int]);
                            assert(f[k - 1] >= old_g[k - 1]);
                        }
                        assert(0 <= f[m] < o.len() && o[f[m]] == p[m]);
                        if f[m] < j {
                            assert(o[f[m]] != p[k as int]);
                        }
                    }
                }
            }
            assert forall|a: int, b: int| 0 <= a < b < k + 1 implies #[trigger] g[a] < #[trigger] g[b] by {
                if b == k {
                    if a < k - 1 {
                        assert(old_g[a] < old_g[k - 1]);
                    }
                } else {
                    assert(old_g[a] < old_g[b]);
                }
            }
        }
        j = j + 1;
        k = k + 1;
    }
    proof {
        assert(is_embedding(g, p, o));
    }
    true
}

/// What the cache report reads of one recorded pack: the hot-set version
/// its layout was built on (when recorded) and its stable-prefix item ids.
pub struct PackLayoutStat {
    pub hot_set_version: Option<i64>,
    pub prefix: Vec<String>,
}

impl View for PackLayoutStat {
    type V = (Option<i64>, Seq<Seq<char>>);

    open spec fn view(&self) -> (Option<i64>, Seq<Seq<char>>) {
        (self.hot_set_version, strings_view(self.prefix@))
    }
}

/// The pack was built on hot-set version `version`.
pub open spec fn on_version(s: (Option<i64>, Seq<Seq<char>>), version: i64) -> bool {
    s.0 == Some(version)
}

/// The pack was built on version `version` and its stable prefix follows
/// the hot set's order.
pub open spec fn order_consistent(s: (Option<i64>, Seq<Seq<char>>), version: i64, hot: Seq<Seq<char>>) -> bool {
    on_version(s, version) && is_subseq(s.1, hot)
}

/// Number of recorded packs built on the current hot-set version.
pub open spec fn count_on_version(stats: Seq<(Option<i64>, Seq<Seq<char>>)>, version: i64) -> int
    decreases stats.len(),
{
    if stats.len() == 0 {
        0
    } else {
        count_on_version(stats.drop_last(), version) + if on_version(stats.last(), version) {
            1int
        } else {
            0int
        }
    }
}

/// Number of recorded packs built on the current hot-set version whose
/// stable prefix follows the hot set's order.
pub open spec fn count_order_consistent(
    stats: Seq<(Option<i64>, Seq<Seq<char>>)>,
    version: i64,
    hot: Seq<Seq<char>>,
) -> int
    decreases stats.len(),
{
    if stats.len() == 0 {
        0
    } else {
        count_order_consistent(stats.drop_last(), version, hot) + if order_consistent(stats.last(), version, hot) {
            1int
        } else {
            0int
        }
    }
}

/// For the recorded packs: how many were built on hot-set version
/// `version`, and how many of those keep the hot set's order in their
/// stable prefix.
pub fn pack_layout_counts(stats: &Vec<PackLayoutStat>, version: i64, hot: &Vec<String>) -> (r: (usize, usize))
    ensures
        r.0 == count_on_version(stats@.map_values(|s: PackLayoutStat| s@), version),
        r.1 == count_order_consistent(stats@.map_values(|s: PackLayoutStat| s@), version, strings_view(hot@)),
{
    let ghost views = stats@.map_values(|s: PackLayoutStat| s@);
    let mut on: usize = 0;
    let mut ok: usize = 0;
    let mut i: usize = 0;
    while i < stats.len()
        invariant
            i <= stats.len(),
            views == stats@.map_values(|s: PackLayoutStat| s@),
            on == count_on_version(views.take(i as int), version),
            ok == count_order_consistent(views.take(i as int), version, strings_view(hot@)),
            ok <= on <= i,
        decreases stats.len() - i,
    {
        proof {
            assert(views.take(i + 1).drop_last() =~= views.take(i as int));
            assert(views.take(i + 1).last() == stats@[i as int]@);
        }
        let s = &stats[i];
        if s.hot_set_version == Some(version) {
            on = on + 1;
            if is_subsequence(&s.prefix, hot) {
                ok = ok + 1;
            }
        }
        i = i + 1;
    }
    proof {
        assert(views.take(stats.len() as int) =~= views);
    }
    (on, ok)
}

} // verus!
