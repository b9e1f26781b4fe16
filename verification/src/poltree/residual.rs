//! The policies that the tree cannot hold, which an evaluator of whole
//! conditions has to deal with.

use smol_str::SmolStr;
use vstd::prelude::*;

use crate::ast::{ids, Effect, EntityType, EntityUID, Literal, Policy, PolicyID, PolicySet};
use crate::entities::Entities;
use crate::keyed::{has_key, keys, Keyed, ListMap};
use crate::poltree::constraints::{
    action_scope_constraints, collect_attr_constraints, policy_indexed,
    principal_or_resource_scope_constraints,
};
use crate::poltree::keys::{SCOPE_PRINCIPAL_ATTR, SCOPE_RESOURCE_ATTR};
use crate::seqs::{lemma_filter_agree, lemma_filter_contains};

verus! {

/// The policies that the tree cannot hold.
pub open spec fn residual(ps: Seq<Policy>) -> Seq<Policy> {
    ps.filter(|p: Policy| !policy_indexed(p))
}

/// The policies of `ps` whose identifiers are among `chosen`.
pub open spec fn selected(ps: Seq<Policy>, chosen: Seq<Seq<char>>) -> Seq<Policy> {
    ps.filter(|p: Policy| chosen.contains(p.id.key()))
}

/// Whether two sequences hold the same policies in the same order.
pub open spec fn same_policies(a: Seq<Policy>, b: Seq<Policy>) -> bool {
    &&& a.len() == b.len()
    &&& forall|i: int| 0 <= i < a.len() ==> (#[trigger] a[i]).same_as(&b[i])
}

/// Whether the tree can hold a policy: it permits, and each part of its scope
/// and of its condition is captured as an equation with a literal. This
/// discards the constraints, and so costs less than building an index.
pub fn policy_is_fully_indexed(policy: &Policy, entities: &Entities) -> (r: bool)
    requires
        entities.wf(),
    ensures
        r == policy_indexed(*policy),
{
    if policy.effect() == Effect::Forbid {
        return false;
    }
    // Whether a scope is captured does not depend on which entities fit it.
    let no_types: ListMap<EntityType, EntityUID> = ListMap::new();
    let (_, ok1) = principal_or_resource_scope_constraints(
        entities,
        &no_types,
        SCOPE_PRINCIPAL_ATTR,
        &policy.template().principal_constraint,
    );
    let (_, ok2) = principal_or_resource_scope_constraints(
        entities,
        &no_types,
        SCOPE_RESOURCE_ATTR,
        &policy.template().resource_constraint,
    );
    let (_, ok3) = action_scope_constraints(entities, &policy.template().action_constraint);
    let mut discarded: Vec<(SmolStr, Literal)> = Vec::new();
    let ok4 = match &policy.template().non_scope_constraints {
        Some(expr) => collect_attr_constraints(expr, &mut discarded),
        None => true,
    };
    ok1 && ok2 && ok3 && ok4
}

/// The identifiers of the policies that the tree cannot hold.
pub fn residual_policy_ids(policy_set: &PolicySet, entities: &Entities) -> (r: Vec<PolicyID>)
    requires
        entities.wf(),
    ensures
        keys(r@) == ids(residual(policy_set.policies@)),
{
    let mut r: Vec<PolicyID> = Vec::new();
    let ghost ps = policy_set.policies@;
    assert(ps.take(0) =~= Seq::empty());
    reveal(Seq::filter);
    assert(keys(r@) =~= ids(residual(ps.take(0))));
    for i in 0..policy_set.policies.len()
        invariant
            entities.wf(),
            ps == policy_set.policies@,
            keys(r@) == ids(residual(ps.take(i as int))),
    {
        let policy = &policy_set.policies()[i];
        let ghost before = r@;
        assert(ps.take(i + 1).drop_last() =~= ps.take(i as int));
        assert(ps.take(i + 1).last() == *policy);
        reveal(Seq::filter);
        if !policy_is_fully_indexed(policy, entities) {
            r.push(policy.id().dup());
            assert(keys(r@) =~= keys(before).push(policy.id.key()));
            assert(ids(residual(ps.take(i + 1))) =~= ids(residual(ps.take(i as int))).push(
                policy.id.key(),
            ));
        }
    }
    assert(ps.take(ps.len() as int) =~= ps);
    r
}

/// The policies of a set whose identifiers are listed.
pub fn build_residual_policy_set_from_ids(policy_set: &PolicySet, residual_ids: &[PolicyID]) -> (r:
    PolicySet)
    requires
        policy_set.wf(),
    ensures
        r.wf(),
        same_policies(r.policies@, selected(policy_set.policies@, keys(residual_ids@))),
{
    let mut out = PolicySet::new();
    let ghost ps = policy_set.policies@;
    let ghost chosen = keys(residual_ids@);
    assert(ps.take(0) =~= Seq::empty());
    reveal(Seq::filter);
    for i in 0..policy_set.policies.len()
        invariant
            policy_set.wf(),
            ps == policy_set.policies@,
            chosen == keys(residual_ids@),
            out.wf(),
            same_policies(out.policies@, selected(ps.take(i as int), chosen)),
            forall|j: int|
                0 <= j < out.policies@.len() ==> ids(ps.take(i as int)).contains(
                    (#[trigger] out.policies@[j]).id.key(),
                ),
    {
        let policy = &policy_set.policies()[i];
        let ghost before = out.policies@;
        assert(ps.take(i + 1).drop_last() =~= ps.take(i as int));
        assert(ps.take(i + 1).last() == *policy);
        reveal(Seq::filter);
        if has_key(residual_ids, policy.id()) {
            let _ = out.add(policy.dup());
            proof {
                if ids(before).contains(policy.id.key()) {
                    let j = ids(before).index_of(policy.id.key());
                    assert(before[j].id.key() == policy.id.key());
                    let k = ids(ps.take(i as int)).index_of(policy.id.key());
                    assert(ids(ps)[k] == ids(ps)[i as int]);
                }
            }
        }
        assert forall|j: int| 0 <= j < out.policies@.len() implies ids(ps.take(i + 1)).contains(
            (#[trigger] out.policies@[j]).id.key(),
        ) by {
            if j < before.len() {
                assert(out.policies@[j] == before[j]);
                let k = ids(ps.take(i as int)).index_of(before[j].id.key());
                assert(ids(ps.take(i + 1))[k] == before[j].id.key());
            } else {
                assert(ids(ps.take(i + 1))[i as int] == policy.id.key());
            }
        }
    }
    assert(ps.take(ps.len() as int) =~= ps);
    out
}

/// The policies of a set that the tree cannot hold.
pub fn build_residual_policy_set(policy_set: &PolicySet, entities: &Entities) -> (r: PolicySet)
    requires
        policy_set.wf(),
        entities.wf(),
    ensures
        r.wf(),
        same_policies(r.policies@, residual(policy_set.policies@)),
{
    let residual_ids = residual_policy_ids(policy_set, entities);
    let r = build_residual_policy_set_from_ids(policy_set, &residual_ids);
    proof {
        lemma_selected_residual(policy_set.policies@);
    }
    r
}

/// Where no identifier occurs twice, a policy is residual if its identifier is
/// that of a residual policy, and only then.
pub proof fn lemma_residual_ids(ps: Seq<Policy>)
    requires
        ids(ps).no_duplicates(),
    ensures
        forall|i: int|
            0 <= i < ps.len() ==> (ids(residual(ps)).contains((#[trigger] ps[i]).id.key())
                <==> !policy_indexed(ps[i])),
{
    let p = |q: Policy| !policy_indexed(q);
    let chosen = ids(residual(ps));
    lemma_filter_contains(ps, p);
    assert forall|i: int| 0 <= i < ps.len() implies (chosen.contains((#[trigger] ps[i]).id.key())
        <==> !policy_indexed(ps[i])) by {
        if p(ps[i]) {
            assert(residual(ps).contains(ps[i]));
            let j = residual(ps).index_of(ps[i]);
            assert(chosen[j] == ps[i].id.key());
        }
        if chosen.contains(ps[i].id.key()) {
            let j = chosen.index_of(ps[i].id.key());
            let q = residual(ps)[j];
            assert(residual(ps).contains(q));
            let k = ps.index_of(q);
            assert(ids(ps)[k] == ids(ps)[i]);
        }
    }
}

/// Where no identifier occurs twice, the identifiers of the residual policies
/// select these policies.
pub proof fn lemma_selected_residual(ps: Seq<Policy>)
    requires
        ids(ps).no_duplicates(),
    ensures
        selected(ps, ids(residual(ps))) == residual(ps),
{
    let chosen = ids(residual(ps));
    lemma_residual_ids(ps);
    lemma_filter_agree(
        ps,
        |q: Policy| chosen.contains(q.id.key()),
        |q: Policy| !policy_indexed(q),
    );
}

} // verus!
