//! The tree of a policy set.

use smol_str::SmolStr;
use std::sync::Arc;
use vstd::prelude::*;

use crate::ast::{ids, EntityUID, Literal, Policy, PolicyID, PolicySet};
use crate::entities::{uids, Entities};
use crate::keyed::{has_key, keys, Keyed, ListMap};
use crate::poltree::constraints::policy_indexed;
use crate::poltree::index::PolTreeIndex;
use crate::poltree::residual::{lemma_residual_ids, residual};
use crate::poltree::tree::{is_tree, PolTree};
use crate::seqs::lemma_push_contains;
use crate::text::{
    lemma_precedes_order, lemma_precedes_total, precedes, smol_chars, smol_precedes,
};

verus! {

/// The policies that the tree holds.
pub open spec fn indexed(ps: Seq<Policy>) -> Seq<Policy> {
    ps.filter(|p: Policy| policy_indexed(p))
}

/// Whether `s` is in order, without repetitions.
pub open spec fn increasing(s: Seq<Seq<char>>) -> bool {
    forall|i: int, j: int| 0 <= i < j < s.len() ==> precedes(#[trigger] s[i], #[trigger] s[j])
}

/// Whether `attrs` are the keys of the index, in order.
pub open spec fn are_keys_of(index: &PolTreeIndex, attrs: Seq<Seq<char>>) -> bool {
    &&& increasing(attrs)
    &&& forall|a: Seq<char>| #[trigger]
        attrs.contains(a) <==> index.attr_values@.dom().contains(a)
}

/// Whether `tree` is the tree of the indexed policies of `ps` over the store, by
/// the index `index` and split on the keys `attrs`.
pub open spec fn is_tree_by<F: Fn(&Vec<usize>, usize) -> u64>(
    rank: F,
    tree: PolTree,
    ps: Seq<Policy>,
    entities: &Entities,
    index: PolTreeIndex,
    attrs: Seq<Seq<char>>,
) -> bool {
    &&& index.indexes(ps)
    &&& *index.entities == *entities
    &&& are_keys_of(&index, attrs)
    &&& is_tree(rank, &index, tree.root, ids(indexed(ps)), attrs, uids(entities.entities@))
}

/// Whether `tree` is a tree of the indexed policies of `ps` over the store.
pub open spec fn is_policy_tree<F: Fn(&Vec<usize>, usize) -> u64>(
    rank: F,
    tree: PolTree,
    ps: Seq<Policy>,
    entities: &Entities,
) -> bool {
    exists|index: PolTreeIndex, attrs: Seq<Seq<char>>|
        #[trigger] is_tree_by(rank, tree, ps, entities, index, attrs)
}

/// The keys of a map, in order.
fn sorted_keys(m: &ListMap<SmolStr, Literal>) -> (r: Vec<SmolStr>)
    requires
        m.wf(),
    ensures
        increasing(keys(r@)),
        forall|a: Seq<char>| #[trigger] keys(r@).contains(a) <==> m@.dom().contains(a),
{
    let mut r: Vec<SmolStr> = Vec::new();
    let ghost ks = m.dom_keys();
    assert(ks.take(0) =~= Seq::empty());
    for i in 0..m.entries.len()
        invariant
            m.wf(),
            ks == m.dom_keys(),
            increasing(keys(r@)),
            forall|a: Seq<char>| #[trigger]
                keys(r@).contains(a) <==> ks.take(i as int).contains(a),
    {
        let ghost before = keys(r@);
        let ghost k = ks[i as int];
        insert_sorted(&mut r, m.entries[i].0.clone());
        proof {
            assert(ks.take(i + 1) =~= ks.take(i as int).push(k));
            assert forall|a: Seq<char>| #[trigger]
                keys(r@).contains(a) <==> ks.take(i + 1).contains(a) by {
                lemma_push_contains(ks.take(i as int), k, a);
                assert(before.contains(a) <==> ks.take(i as int).contains(a));
            }
        }
    }
    assert(ks.take(ks.len() as int) =~= ks);
    r
}

/// Puts `x` where it belongs in `v`, unless it stands there already.
fn insert_sorted(v: &mut Vec<SmolStr>, x: SmolStr)
    requires
        increasing(keys(old(v)@)),
    ensures
        increasing(keys(final(v)@)),
        forall|a: Seq<char>| #[trigger]
            keys(final(v)@).contains(a) <==> keys(old(v)@).contains(a) || a == smol_chars(x),
{
    let ghost before = keys(v@);
    let ghost k = smol_chars(x);
    if has_key(v, &x) {
        return;
    }
    let mut i: usize = 0;
    while i < v.len() && smol_precedes(&v[i], &x)
        invariant
            i <= v@.len(),
            before == keys(v@),
            k == smol_chars(x),
            forall|j: int| 0 <= j < i ==> precedes(#[trigger] before[j], k),
        decreases v@.len() - i,
    {
        assert(before[i as int] == smol_chars(v@[i as int]));
        i = i + 1;
    }
    v.insert(i, x);
    proof {
        let after = keys(v@);
        assert(after =~= before.insert(i as int, k));
        if i < before.len() {
            assert(before[i as int] != k);
            lemma_precedes_total(before[i as int], k);
        }
        assert forall|a: int, b: int| 0 <= a < b < after.len() implies precedes(
            #[trigger] after[a],
            #[trigger] after[b],
        ) by {
            if b < i {
                assert(precedes(before[a], before[b]));
            } else if b == i {
                assert(precedes(before[a], k));
            } else if a > i {
                assert(precedes(before[a - 1], before[b - 1]));
            } else if a == i {
                if b - 1 > i {
                    assert(precedes(before[i as int], before[b - 1]));
                    lemma_precedes_order(k, before[i as int], before[b - 1]);
                }
            } else {
                assert(precedes(before[a], before[b - 1]));
            }
        }
        assert forall|a: Seq<char>| #[trigger] after.contains(a) <==> before.contains(a) || a
            == k by {
            if before.contains(a) {
                let j = before.index_of(a);
                if j < i {
                    assert(after[j] == a);
                } else {
                    assert(after[j + 1] == a);
                }
            }
            assert(after[i as int] == k);
            if after.contains(a) {
                let j = after.index_of(a);
                if j < i {
                    assert(before[j] == a);
                } else if j > i {
                    assert(before[j - 1] == a);
                }
            }
        }
    }
}

/// The identifiers of the policies of a set that are not left out.
fn remaining_ids(policy_set: &PolicySet, left_out: &Vec<PolicyID>) -> (r: Vec<PolicyID>)
    requires
        policy_set.wf(),
        keys(left_out@) == ids(residual(policy_set.policies@)),
    ensures
        keys(r@) == ids(indexed(policy_set.policies@)),
{
    let mut r: Vec<PolicyID> = Vec::new();
    let ghost ps = policy_set.policies@;
    proof {
        lemma_residual_ids(ps);
        assert(ps.take(0) =~= Seq::empty());
        reveal(Seq::filter);
        assert(keys(r@) =~= ids(indexed(ps.take(0))));
    }
    for i in 0..policy_set.policies.len()
        invariant
            ps == policy_set.policies@,
            forall|j: int|
                0 <= j < ps.len() ==> (keys(left_out@).contains((#[trigger] ps[j]).id.key())
                    <==> !policy_indexed(ps[j])),
            keys(r@) == ids(indexed(ps.take(i as int))),
    {
        let policy = &policy_set.policies()[i];
        let ghost before = r@;
        assert(ps.take(i + 1).drop_last() =~= ps.take(i as int));
        assert(ps.take(i + 1).last() == ps[i as int]);
        reveal(Seq::filter);
        if !has_key(left_out, policy.id()) {
            r.push(policy.id().dup());
            assert(keys(r@) =~= keys(before).push(policy.id.key()));
            assert(ids(indexed(ps.take(i + 1))) =~= ids(indexed(ps.take(i as int))).push(
                policy.id.key(),
            ));
        }
    }
    assert(ps.take(ps.len() as int) =~= ps);
    r
}

impl PolTree {
    /// Builds the tree of a policy set over a store, and lists the policies that
    /// it does not hold: those are nowhere in the tree, and are for an evaluator
    /// of whole conditions.
    pub fn from_policy_set_and_entities<F: Fn(&Vec<usize>, usize) -> u64>(
        policy_set: &PolicySet,
        entities: Arc<Entities>,
        rank: &F,
    ) -> (r: (Self, Vec<PolicyID>))
        requires
            policy_set.wf(),
            entities.wf(),
            forall|counts: &Vec<usize>, total: usize| call_requires(*rank, (counts, total)),
        ensures
            r.0.root.attr_val is None,
            !r.0.root.wildcard,
            is_policy_tree(*rank, r.0, policy_set.policies@, &entities),
            keys(r.1@) == ids(residual(policy_set.policies@)),
    {
        let (index, left_out) = PolTreeIndex::build_from_policy_set(policy_set, entities);
        let policy_ids = remaining_ids(policy_set, &left_out);
        let attrs = sorted_keys(&index.attr_values);
        let ghost keys_in_order = keys(attrs@);
        let mut all: Vec<EntityUID> = Vec::new();
        for i in 0..index.entities.entities.len()
            invariant
                all@.len() == i,
                forall|j: int|
                    0 <= j < i ==> (#[trigger] all@[j]).key()
                        == index.entities.entities@[j].uid.key(),
        {
            all.push(index.entities.entities[i].uid().dup());
        }
        assert(keys(all@) =~= uids(index.entities.entities@));
        let tree = PolTree::build_n_poltree(policy_ids, attrs, all, &index, rank);
        assert(is_tree_by(
            *rank,
            tree,
            policy_set.policies@,
            &index.entities,
            index,
            keys_in_order,
        ));
        (tree, left_out)
    }
}

} // verus!
