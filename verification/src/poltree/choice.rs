//! Which key a node of the tree splits on.
//!
//! The key whose values tell the node's entities apart best is preferred. How
//! well they do is measured by the caller's `rank`, which is given how many of
//! the entities have each value and how many entities there are: the greater
//! the rank, the better, and a key of rank zero is not preferred to any other.

use smol_str::SmolStr;
use vstd::prelude::*;

use crate::ast::{EntityUID, LitKey, PolicyID, UidKey};
use crate::keyed::{at, has_key, keys, Keyed};
use crate::poltree::index::{is_asked, PolTreeIndex};
use crate::text::smol_chars;

verus! {

/// Whether some policy of `given` asks for a value under `key`.
pub open spec fn is_split(index: &PolTreeIndex, key: Seq<char>, given: Seq<Seq<char>>) -> bool {
    exists|lit: LitKey| #[trigger] is_asked(index.pv_map@, key, lit, given)
}

/// The keys of `attrs` under which some policy of `given` asks for a value.
pub open spec fn split_keys(
    index: &PolTreeIndex,
    attrs: Seq<Seq<char>>,
    given: Seq<Seq<char>>,
) -> Seq<Seq<char>> {
    attrs.filter(|a: Seq<char>| is_split(index, a, given))
}

/// How many entities of `sv` have each value of `key`.
pub open spec fn value_counts(index: &PolTreeIndex, sv: Seq<UidKey>, key: Seq<char>) -> Seq<nat> {
    let values = at(index.attr_values@, key);
    Seq::new(
        values.len(),
        |i: int| at(index.sv_map@, (key, values[i])).filter(|u: UidKey| sv.contains(u)).len(),
    )
}

/// Whether two sequences hold the same numbers.
pub open spec fn same_numbers(a: Seq<usize>, b: Seq<nat>) -> bool {
    a.len() == b.len() && forall|i: int| 0 <= i < a.len() ==> #[trigger] a[i] == b[i]
}

/// Whether `rank` may give `key` the rank `h`.
pub open spec fn is_rank<F: Fn(&Vec<usize>, usize) -> u64>(
    rank: F,
    index: &PolTreeIndex,
    sv: Seq<UidKey>,
    key: Seq<char>,
    h: u64,
) -> bool {
    exists|counts: &Vec<usize>, total: usize|
        same_numbers(counts@, value_counts(index, sv, key)) && total == sv.len()
            && #[trigger] call_ensures(rank, (counts, total), h)
}

/// Whether `rank` may give the keys `cands` the ranks `hs`.
pub open spec fn are_ranks<F: Fn(&Vec<usize>, usize) -> u64>(
    rank: F,
    index: &PolTreeIndex,
    sv: Seq<UidKey>,
    cands: Seq<Seq<char>>,
    hs: Seq<u64>,
) -> bool {
    &&& hs.len() == cands.len()
    &&& forall|i: int|
        0 <= i < hs.len() ==> is_rank(rank, index, sv, #[trigger] cands[i], hs[i])
}

/// Whether `best` is the last of the keys of the greatest rank, or none where
/// every rank is zero.
pub open spec fn is_best(cands: Seq<Seq<char>>, hs: Seq<u64>, best: Option<Seq<char>>) -> bool {
    match best {
        Some(key) => exists|k: int|
            {
                &&& 0 <= k < cands.len()
                &&& #[trigger] cands[k] == key
                &&& hs[k] > 0
                &&& forall|j: int| 0 <= j < hs.len() ==> #[trigger] hs[j] <= hs[k]
                &&& forall|j: int| k < j < hs.len() ==> #[trigger] hs[j] < hs[k]
            },
        None => forall|j: int| 0 <= j < hs.len() ==> #[trigger] hs[j] == 0,
    }
}

/// Whether `best` may be the key of the greatest rank among those under which
/// some policy of `given` asks for a value.
pub open spec fn is_best_attribute<F: Fn(&Vec<usize>, usize) -> u64>(
    rank: F,
    index: &PolTreeIndex,
    given: Seq<Seq<char>>,
    sv: Seq<UidKey>,
    attrs: Seq<Seq<char>>,
    best: Option<Seq<char>>,
) -> bool {
    exists|hs: Seq<u64>|
        #[trigger] are_ranks(rank, index, sv, split_keys(index, attrs, given), hs) && is_best(
            split_keys(index, attrs, given),
            hs,
            best,
        )
}

/// How many elements of `v` have a key of `w`.
fn count_in<T: Keyed>(v: &[T], w: &[T]) -> (r: usize)
    ensures
        r == keys(v@).filter(|k: T::Key| keys(w@).contains(k)).len(),
{
    let mut n: usize = 0;
    let ghost p = |k: T::Key| keys(w@).contains(k);
    reveal(Seq::filter);
    assert(keys(v@).take(0).filter(p).len() == 0);
    for i in 0..v.len()
        invariant
            p == (|k: T::Key| keys(w@).contains(k)),
            n == keys(v@).take(i as int).filter(p).len(),
            n <= i,
    {
        assert(keys(v@).take(i + 1).drop_last() =~= keys(v@).take(i as int));
        assert(keys(v@).take(i + 1).last() == v@[i as int].key());
        reveal(Seq::filter);
        if has_key(w, &v[i]) {
            n = n + 1;
        }
    }
    assert(keys(v@).take(v@.len() as int) =~= keys(v@));
    n
}

/// How many entities of `sv` have each value of `attr`.
pub fn attr_value_counts(sv: &[EntityUID], index: &PolTreeIndex, attr: &SmolStr) -> (r: Vec<usize>)
    requires
        index.maps_wf(),
    ensures
        same_numbers(r@, value_counts(index, keys(sv@), smol_chars(*attr))),
{
    let mut r: Vec<usize> = Vec::new();
    if let Some(values) = index.attr_values.get(attr) {
        for i in 0..values.len()
            invariant
                index.maps_wf(),
                keys(values@) == at(index.attr_values@, smol_chars(*attr)),
                r@.len() == i,
                forall|j: int|
                    0 <= j < i ==> #[trigger] r@[j] == value_counts(
                        index,
                        keys(sv@),
                        smol_chars(*attr),
                    )[j],
        {
            assert(keys(values@)[i as int] == values@[i as int].key());
            r.push(count_in(index.get_sv(attr, &values[i]), sv));
        }
    }
    r
}

/// The last of the keys of the greatest rank among those of `attrs` under which
/// some of the policies asks for a value, if any of those has a rank above zero.
pub fn best_attribute<F: Fn(&Vec<usize>, usize) -> u64>(
    policy_ids: &[PolicyID],
    sv: &[EntityUID],
    index: &PolTreeIndex,
    attrs: &[SmolStr],
    rank: &F,
) -> (r: Option<SmolStr>)
    requires
        index.maps_wf(),
        forall|counts: &Vec<usize>, total: usize| call_requires(*rank, (counts, total)),
    ensures
        is_best_attribute(
            *rank,
            index,
            keys(policy_ids@),
            keys(sv@),
            keys(attrs@),
            match r {
                Some(a) => Some(smol_chars(a)),
                None => None,
            },
        ),
{
    let ghost given = keys(policy_ids@);
    let ghost p = |a: Seq<char>| is_split(index, a, given);
    let ghost mut hs: Seq<u64> = Seq::empty();
    let ghost mut at_best: int = 0;
    let mut best: Option<(usize, u64)> = None;
    assert(keys(attrs@).take(0).filter(p) =~= Seq::empty()) by {
        reveal(Seq::filter);
    }
    for i in 0..attrs.len()
        invariant
            index.maps_wf(),
            forall|counts: &Vec<usize>, total: usize| call_requires(*rank, (counts, total)),
            given == keys(policy_ids@),
            p == (|a: Seq<char>| is_split(index, a, given)),
            are_ranks(*rank, index, keys(sv@), keys(attrs@).take(i as int).filter(p), hs),
            match best {
                Some((b, h)) => {
                    &&& b < i
                    &&& 0 <= at_best < hs.len()
                    &&& keys(attrs@).take(i as int).filter(p)[at_best] == keys(attrs@)[b as int]
                    &&& hs[at_best] == h
                    &&& h > 0
                    &&& forall|j: int| 0 <= j < hs.len() ==> #[trigger] hs[j] <= h
                    &&& forall|j: int| at_best < j < hs.len() ==> #[trigger] hs[j] < h
                },
                None => forall|j: int| 0 <= j < hs.len() ==> #[trigger] hs[j] == 0,
            },
    {
        let ghost done = keys(attrs@).take(i as int).filter(p);
        let ghost key = keys(attrs@)[i as int];
        assert(keys(attrs@).take(i + 1).drop_last() =~= keys(attrs@).take(i as int));
        assert(keys(attrs@).take(i + 1).last() == key);
        let values = index.values_for_attr_in_policies(&attrs[i], policy_ids);
        reveal(Seq::filter);
        if values.len() > 0 {
            assert(keys(values@).contains(keys(values@)[0]));
            assert(is_asked(index.pv_map@, key, keys(values@)[0], given));
            let counts = attr_value_counts(sv, index, &attrs[i]);
            let h: u64 = rank(&counts, sv.len());
            assert(is_rank(*rank, index, keys(sv@), key, h));
            let ghost before = hs;
            proof {
                assert(keys(attrs@).take(i + 1).filter(p) =~= done.push(key));
                hs = hs.push(h);
                assert forall|j: int| 0 <= j < hs.len() implies is_rank(
                    *rank,
                    index,
                    keys(sv@),
                    #[trigger] done.push(key)[j],
                    hs[j],
                ) by {
                    if j < before.len() {
                        assert(done.push(key)[j] == done[j]);
                    }
                }
            }
            let better = match best {
                Some((_, g)) => h >= g,
                None => h > 0,
            };
            if better {
                best = Some((i, h));
                proof {
                    at_best = before.len() as int;
                }
            }
        } else {
            proof {
                if is_split(index, key, given) {
                    let lit = choose|lit: LitKey| #[trigger]
                        is_asked(index.pv_map@, key, lit, given);
                    assert(keys(values@).contains(lit));
                }
                assert(keys(attrs@).take(i + 1).filter(p) =~= done);
            }
        }
    }
    assert(keys(attrs@).take(attrs@.len() as int) =~= keys(attrs@));
    match best {
        Some((b, _)) => {
            let r = attrs[b].clone();
            proof {
                let cands = split_keys(index, keys(attrs@), given);
                assert(cands[at_best] == smol_chars(r));
                assert(is_best(cands, hs, Some(smol_chars(r))));
                assert(are_ranks(*rank, index, keys(sv@), cands, hs));
            }
            Some(r)
        },
        None => {
            assert(are_ranks(*rank, index, keys(sv@), split_keys(index, keys(attrs@), given), hs));
            None
        },
    }
}

} // verus!
