//! What holds of the tree as a whole: it allows what an indexed policy permits and
//! nothing else; and no policy is lost between the tree and the rest.

use vstd::prelude::*;

use crate::ast::{
    ids, Effect, LitKey, Policy, PrincipalOrResourceConstraint, Request, UidKey,
};
use crate::entities::{uids, Entities};
use crate::keyed::{at, keys, Keyed};
use crate::poltree::choice::{is_split, split_keys};
use crate::poltree::constraints::{
    action_atoms, optional_condition_atoms, policy_atoms, policy_indexed, scope_atoms,
};
use crate::poltree::coverage::lemma_condition_keys;
use crate::poltree::evaluate::{
    last_wildcard, lemma_last_wildcard, lemma_search_matching, matches_edge, request_values,
    search, search_matching,
};
use crate::poltree::index::{asks, is_asked, registered, times, PolTreeIndex};
use crate::poltree::keys::{
    is_scope_key, scope_keys_distinct, SCOPE_PRINCIPAL_ATTR, SCOPE_RESOURCE_ATTR,
};
use crate::poltree::policy_tree::{indexed, is_policy_tree, is_tree_by};
use crate::poltree::request_values::values_of;
use crate::poltree::residual::{lemma_residual_ids, residual};
use crate::poltree::semantics::{lemma_values, policy_holds, policy_means_its_constraints};
use crate::poltree::tree::{
    asks_otherwise, constrains, edge_value, given_below, has_edge, indifferent, is_tree,
    lemma_choice, narrowed, other_than, same_node, value_children, without, PolTree, PolTreeNode,
};
use crate::seqs::{lemma_filter_contains, lemma_push_contains};
use crate::text::smol_chars;

verus! {

/// Which policies of a node are those of a child.
pub proof fn lemma_given_below(
    index: &PolTreeIndex,
    node: PolTreeNode,
    key: Seq<char>,
    given: Seq<Seq<char>>,
    i: int,
)
    ensures
        forall|id: Seq<char>| #[trigger]
            given_below(index, node, key, given, i).contains(id) <==> {
                &&& given.contains(id)
                &&& if i < value_children(index, node, key, given) {
                    let lit = edge_value(*node.children@[i]);
                    asks(index.pv_map@, key, lit, id) && !asks_otherwise(index, key, lit, id)
                } else {
                    !constrains(index, key, id)
                }
            },
{
    let lit = edge_value(*node.children@[i]);
    lemma_filter_contains(
        at(index.pv_map@, (key, lit)),
        |id: Seq<char>| given.contains(id) && !asks_otherwise(index, key, lit, id),
    );
    lemma_filter_contains(given, |id: Seq<char>| !constrains(index, key, id));
}

/// The keys but for one are the others.
pub proof fn lemma_without(attrs: Seq<Seq<char>>, key: Seq<char>)
    ensures
        forall|a: Seq<char>| #[trigger]
            without(attrs, key).contains(a) <==> attrs.contains(a) && a != key,
{
    lemma_filter_contains(attrs, other_than(key));
}

/// Where a policy asks for a value of one of the keys, that key splits.
pub proof fn lemma_asked_splits(
    index: &PolTreeIndex,
    attrs: Seq<Seq<char>>,
    given: Seq<Seq<char>>,
    key: Seq<char>,
    lit: LitKey,
    id: Seq<char>,
)
    requires
        attrs.contains(key),
        given.contains(id),
        asks(index.pv_map@, key, lit, id),
    ensures
        split_keys(index, attrs, given).len() > 0,
{
    assert(is_asked(index.pv_map@, key, lit, given));
    assert(is_split(index, key, given));
    lemma_filter_contains(attrs, |a: Seq<char>| is_split(index, a, given));
    assert(split_keys(index, attrs, given).contains(key));
}

/// A search that finds something below a node finds it below the child that is
/// returned: one whose value is given to the node's key, or the wildcard if the
/// children with such a value come to nothing.
pub proof fn lemma_found_below<F: Fn(&Vec<usize>, usize) -> u64>(
    rank: F,
    index: &PolTreeIndex,
    node: PolTreeNode,
    given: Seq<Seq<char>>,
    attrs: Seq<Seq<char>>,
    sv: Seq<UidKey>,
    values: spec_fn(Seq<char>) -> Seq<LitKey>,
) -> (i: int)
    requires
        is_tree(rank, index, node, given, attrs, sv),
        split_keys(index, attrs, given).len() > 0,
        search(node, values) is Some,
    ensures
        0 <= i < node.children@.len(),
        search(*node.children@[i], values) == search(node, values),
        ({
            let k = smol_chars(node.split_attr->0);
            if i < value_children(index, node, k, given) {
                values(k).contains(edge_value(*node.children@[i]))
            } else {
                search_matching(node.children@, values(k), values) is None
            }
        }),
{
    let k = smol_chars(node.split_attr->0);
    let vs = values(k);
    lemma_search_matching(node.children@, vs, values);
    lemma_last_wildcard(node.children@);
    if search_matching(node.children@, vs, values) is Some {
        choose|i: int|
            {
                &&& 0 <= i < node.children@.len()
                &&& matches_edge(*#[trigger] node.children@[i], vs)
                &&& search(*node.children@[i], values) == search_matching(
                    node.children@,
                    vs,
                    values,
                )
            }
    } else {
        last_wildcard(node.children@)->0
    }
}

/// A search below a node finds something if it does below a child whose value is
/// given to the node's key, or below the wildcard.
proof fn lemma_found_above<F: Fn(&Vec<usize>, usize) -> u64>(
    rank: F,
    index: &PolTreeIndex,
    node: PolTreeNode,
    given: Seq<Seq<char>>,
    attrs: Seq<Seq<char>>,
    sv: Seq<UidKey>,
    values: spec_fn(Seq<char>) -> Seq<LitKey>,
    i: int,
)
    requires
        is_tree(rank, index, node, given, attrs, sv),
        split_keys(index, attrs, given).len() > 0,
        0 <= i < node.children@.len(),
        search(*node.children@[i], values) is Some,
        ({
            let k = smol_chars(node.split_attr->0);
            i < value_children(index, node, k, given) ==> values(k).contains(
                edge_value(*node.children@[i]),
            )
        }),
    ensures
        search(node, values) is Some,
        ({
            let k = smol_chars(node.split_attr->0);
            i < value_children(index, node, k, given) ==> search_matching(
                node.children@,
                values(k),
                values,
            ) is Some
        }),
{
    let k = smol_chars(node.split_attr->0);
    let n = value_children(index, node, k, given);
    lemma_search_matching(node.children@, values(k), values);
    lemma_last_wildcard(node.children@);
    if i < n {
        assert(has_edge(*node.children@[i], k, edge_value(*node.children@[i])));
        assert(matches_edge(*node.children@[i], values(k)));
    } else {
        assert(i == n);
        assert(last_wildcard(node.children@) == Some(n));
    }
}

/// Where a policy asks for a value of the node's key, and for no other, it is one
/// of the policies of the child that is returned, whose value it is.
proof fn lemma_child_of<F: Fn(&Vec<usize>, usize) -> u64>(
    rank: F,
    index: &PolTreeIndex,
    node: PolTreeNode,
    given: Seq<Seq<char>>,
    attrs: Seq<Seq<char>>,
    sv: Seq<UidKey>,
    id: Seq<char>,
    lit: LitKey,
) -> (i: int)
    requires
        is_tree(rank, index, node, given, attrs, sv),
        split_keys(index, attrs, given).len() > 0,
        given.contains(id),
        asks(index.pv_map@, smol_chars(node.split_attr->0), lit, id),
        !asks_otherwise(index, smol_chars(node.split_attr->0), lit, id),
    ensures
        ({
            let k = smol_chars(node.split_attr->0);
            &&& 0 <= i < value_children(index, node, k, given)
            &&& edge_value(*node.children@[i]) == lit
            &&& given_below(index, node, k, given, i).contains(id)
        }),
{
    let k = smol_chars(node.split_attr->0);
    let n = value_children(index, node, k, given);
    assert(is_asked(index.pv_map@, k, lit, given));
    let i = choose|i: int| 0 <= i < n && edge_value(*#[trigger] node.children@[i]) == lit;
    lemma_given_below(index, node, k, given, i);
    i
}

/// The children of a node share its policies out: each policy of the node stands at
/// some child, unless it asks for two values of the node's key; and no other policy
/// stands at a child.
pub proof fn children_share_out_policies<F: Fn(&Vec<usize>, usize) -> u64>(
    rank: F,
    index: &PolTreeIndex,
    node: PolTreeNode,
    given: Seq<Seq<char>>,
    attrs: Seq<Seq<char>>,
    sv: Seq<UidKey>,
    id: Seq<char>,
)
    requires
        is_tree(rank, index, node, given, attrs, sv),
        node.split_attr is Some,
    ensures
        ({
            let k = smol_chars(node.split_attr->0);
            (exists|i: int|
                0 <= i < node.children@.len() && keys(
                    (#[trigger] node.children@[i]).pv@,
                ).contains(id)) <==> {
                &&& keys(node.pv@).contains(id)
                &&& forall|v: LitKey, w: LitKey|
                    #[trigger] asks(index.pv_map@, k, v, id) && #[trigger] asks(
                        index.pv_map@,
                        k,
                        w,
                        id,
                    ) ==> v == w
            }
        }),
{
    let k = smol_chars(node.split_attr->0);
    let n = value_children(index, node, k, given);
    reveal_with_fuel(is_tree, 2);
    if exists|i: int|
        0 <= i < node.children@.len() && keys((#[trigger] node.children@[i]).pv@).contains(id) {
        let i = choose|i: int|
            0 <= i < node.children@.len() && keys((#[trigger] node.children@[i]).pv@).contains(id);
        lemma_given_below(index, node, k, given, i);
        assert(given_below(index, node, k, given, i).contains(id));
        assert forall|v: LitKey, w: LitKey|
            #[trigger] asks(index.pv_map@, k, v, id) && #[trigger] asks(
                index.pv_map@,
                k,
                w,
                id,
            ) implies v == w by {
            assert(constrains(index, k, id));
            assert(!asks_otherwise(index, k, edge_value(*node.children@[i]), id));
        }
    }
    if given.contains(id) && forall|v: LitKey, w: LitKey|
        #[trigger] asks(index.pv_map@, k, v, id) && #[trigger] asks(index.pv_map@, k, w, id)
            ==> v == w {
        let i = if constrains(index, k, id) {
            let v = choose|v: LitKey| #[trigger] asks(index.pv_map@, k, v, id);
            lemma_child_of(rank, index, node, given, attrs, sv, id, v)
        } else {
            lemma_filter_contains(given, |q: Seq<char>| !constrains(index, k, q));
            assert(indifferent(index, k, given).contains(id));
            n
        };
        lemma_given_below(index, node, k, given, i);
        assert(keys(node.children@[i].pv@).contains(id));
    }
}

/// What a search finds in a tree is a list of policies of the tree, which is not
/// empty; and for each of them, `values` gives the keys that the tree splits on
/// the values that it asks for.
pub proof fn search_finds_met_policies<F: Fn(&Vec<usize>, usize) -> u64>(
    rank: F,
    index: &PolTreeIndex,
    node: PolTreeNode,
    given: Seq<Seq<char>>,
    attrs: Seq<Seq<char>>,
    sv: Seq<UidKey>,
    values: spec_fn(Seq<char>) -> Seq<LitKey>,
)
    requires
        is_tree(rank, index, node, given, attrs, sv),
        search(node, values) is Some,
    ensures
        (search(node, values)->0).len() > 0,
        forall|id: Seq<char>| #[trigger]
            (search(node, values)->0).contains(id) ==> given.contains(id),
        forall|id: Seq<char>, key: Seq<char>, lit: LitKey|
            (search(node, values)->0).contains(id) && attrs.contains(key) && #[trigger] asks(
                index.pv_map@,
                key,
                lit,
                id,
            ) ==> values(key).contains(lit),
    decreases node,
{
    let found = search(node, values)->0;
    if split_keys(index, attrs, given).len() == 0 {
        assert forall|id: Seq<char>, key: Seq<char>, lit: LitKey|
            found.contains(id) && attrs.contains(key) && #[trigger] asks(
                index.pv_map@,
                key,
                lit,
                id,
            ) implies values(key).contains(lit) by {
            lemma_asked_splits(index, attrs, given, key, lit, id);
        }
    } else {
        let k = smol_chars(node.split_attr->0);
        let n = value_children(index, node, k, given);
        let i = lemma_found_below(rank, index, node, given, attrs, sv, values);
        let below = given_below(index, node, k, given, i);
        search_finds_met_policies(
            rank,
            index,
            *node.children@[i],
            below,
            without(attrs, k),
            narrowed(index, below, sv),
            values,
        );
        lemma_without(attrs, k);
        lemma_given_below(index, node, k, given, i);
        assert forall|id: Seq<char>, key: Seq<char>, lit: LitKey|
            found.contains(id) && attrs.contains(key) && #[trigger] asks(
                index.pv_map@,
                key,
                lit,
                id,
            ) implies values(key).contains(lit) by {
            assert(below.contains(id));
            if key == k {
                if i < n {
                    let w = edge_value(*node.children@[i]);
                    assert(!asks_otherwise(index, k, w, id));
                    assert(w == lit);
                } else {
                    assert(constrains(index, k, id));
                }
            } else {
                assert(without(attrs, k).contains(key));
            }
        }
    }
}

/// Whether `values` gives each of `attrs` what policy `id` asks for under it,
/// which is one value at most.
pub open spec fn is_met(
    index: &PolTreeIndex,
    attrs: Seq<Seq<char>>,
    values: spec_fn(Seq<char>) -> Seq<LitKey>,
    id: Seq<char>,
) -> bool {
    &&& forall|key: Seq<char>, lit: LitKey|
        attrs.contains(key) && #[trigger] asks(index.pv_map@, key, lit, id) ==> values(
            key,
        ).contains(lit)
    &&& forall|key: Seq<char>, v: LitKey, w: LitKey|
        attrs.contains(key) && #[trigger] asks(index.pv_map@, key, v, id) && #[trigger] asks(
            index.pv_map@,
            key,
            w,
            id,
        ) ==> v == w
}

/// A search of a tree finds something if one of its policies is met.
pub proof fn search_finds_a_met_policy<F: Fn(&Vec<usize>, usize) -> u64>(
    rank: F,
    index: &PolTreeIndex,
    node: PolTreeNode,
    given: Seq<Seq<char>>,
    attrs: Seq<Seq<char>>,
    sv: Seq<UidKey>,
    values: spec_fn(Seq<char>) -> Seq<LitKey>,
    id: Seq<char>,
)
    requires
        is_tree(rank, index, node, given, attrs, sv),
        given.contains(id),
        is_met(index, attrs, values, id),
    ensures
        search(node, values) is Some,
    decreases node,
{
    if split_keys(index, attrs, given).len() == 0 {
        assert(node.pv@.len() == keys(node.pv@).len());
        assert(given.len() > 0);
    } else {
        let k = smol_chars(node.split_attr->0);
        let n = value_children(index, node, k, given);
        lemma_choice(rank, index, given, attrs, sv, k);
        lemma_without(attrs, k);
        let i = if constrains(index, k, id) {
            let v = choose|v: LitKey| #[trigger] asks(index.pv_map@, k, v, id);
            lemma_child_of(rank, index, node, given, attrs, sv, id, v)
        } else {
            lemma_filter_contains(given, |q: Seq<char>| !constrains(index, k, q));
            assert(indifferent(index, k, given).contains(id));
            n
        };
        let below = given_below(index, node, k, given, i);
        lemma_given_below(index, node, k, given, i);
        search_finds_a_met_policy(
            rank,
            index,
            *node.children@[i],
            below,
            without(attrs, k),
            narrowed(index, below, sv),
            values,
            id,
        );
        lemma_found_above(rank, index, node, given, attrs, sv, values, i);
    }
}

/// A policy that asks for two values of a key that the tree splits on is found by
/// no search.
pub proof fn search_finds_no_contradictory_policy<F: Fn(&Vec<usize>, usize) -> u64>(
    rank: F,
    index: &PolTreeIndex,
    node: PolTreeNode,
    given: Seq<Seq<char>>,
    attrs: Seq<Seq<char>>,
    sv: Seq<UidKey>,
    values: spec_fn(Seq<char>) -> Seq<LitKey>,
    id: Seq<char>,
    key: Seq<char>,
    v: LitKey,
    w: LitKey,
)
    requires
        is_tree(rank, index, node, given, attrs, sv),
        attrs.contains(key),
        asks(index.pv_map@, key, v, id),
        asks(index.pv_map@, key, w, id),
        v != w,
    ensures
        search(node, values) matches Some(found) ==> !found.contains(id),
    decreases node,
{
    if search(node, values) is Some && (search(node, values)->0).contains(id) {
        search_finds_met_policies(rank, index, node, given, attrs, sv, values);
        lemma_asked_splits(index, attrs, given, key, v, id);
        let k = smol_chars(node.split_attr->0);
        let i = lemma_found_below(rank, index, node, given, attrs, sv, values);
        let below = given_below(index, node, k, given, i);
        lemma_without(attrs, k);
        lemma_given_below(index, node, k, given, i);
        search_finds_met_policies(
            rank,
            index,
            *node.children@[i],
            below,
            without(attrs, k),
            narrowed(index, below, sv),
            values,
        );
        assert(below.contains(id));
        if key != k {
            assert(without(attrs, k).contains(key));
            search_finds_no_contradictory_policy(
                rank,
                index,
                *node.children@[i],
                below,
                without(attrs, k),
                narrowed(index, below, sv),
                values,
                id,
                key,
                v,
                w,
            );
        } else {
            assert(constrains(index, k, id));
        }
    }
}

/// Where a search finds a policy that asks for nothing of the keys that the tree
/// splits on, none that it finds asks for anything of them.
pub proof fn search_finds_indifferent_policies_together<F: Fn(&Vec<usize>, usize) -> u64>(
    rank: F,
    index: &PolTreeIndex,
    node: PolTreeNode,
    given: Seq<Seq<char>>,
    attrs: Seq<Seq<char>>,
    sv: Seq<UidKey>,
    values: spec_fn(Seq<char>) -> Seq<LitKey>,
    id: Seq<char>,
)
    requires
        is_tree(rank, index, node, given, attrs, sv),
        search(node, values) is Some,
        (search(node, values)->0).contains(id),
        forall|key: Seq<char>| #[trigger] attrs.contains(key) ==> !constrains(index, key, id),
    ensures
        forall|key: Seq<char>, other: Seq<char>|
            #[trigger] attrs.contains(key) && #[trigger] (search(node, values)->0).contains(other)
                ==> !constrains(index, key, other),
    decreases node,
{
    let found = search(node, values)->0;
    search_finds_met_policies(rank, index, node, given, attrs, sv, values);
    if split_keys(index, attrs, given).len() == 0 {
        assert forall|key: Seq<char>, other: Seq<char>|
            #[trigger] attrs.contains(key) && #[trigger] found.contains(
                other,
            ) implies !constrains(index, key, other) by {
            if constrains(index, key, other) {
                let lit = choose|lit: LitKey| #[trigger] asks(index.pv_map@, key, lit, other);
                lemma_asked_splits(index, attrs, given, key, lit, other);
            }
        }
    } else {
        let k = smol_chars(node.split_attr->0);
        lemma_choice(rank, index, given, attrs, sv, k);
        lemma_without(attrs, k);
        let i = lemma_found_below(rank, index, node, given, attrs, sv, values);
        let below = given_below(index, node, k, given, i);
        lemma_given_below(index, node, k, given, i);
        search_finds_met_policies(
            rank,
            index,
            *node.children@[i],
            below,
            without(attrs, k),
            narrowed(index, below, sv),
            values,
        );
        assert(below.contains(id));
        assert(i >= value_children(index, node, k, given)) by {
            if i < value_children(index, node, k, given) {
                assert(asks(index.pv_map@, k, edge_value(*node.children@[i]), id));
            }
        }
        search_finds_indifferent_policies_together(
            rank,
            index,
            *node.children@[i],
            below,
            without(attrs, k),
            narrowed(index, below, sv),
            values,
            id,
        );
        assert forall|key: Seq<char>, other: Seq<char>|
            #[trigger] attrs.contains(key) && #[trigger] found.contains(
                other,
            ) implies !constrains(index, key, other) by {
            assert(below.contains(other));
            if key != k {
                assert(without(attrs, k).contains(key));
            }
        }
    }
}

/// A search of a tree with a policy `id` that is met and asks for something finds
/// no policy that asks for nothing: the more special branch is tried before.
pub proof fn search_prefers_special_policies<F: Fn(&Vec<usize>, usize) -> u64>(
    rank: F,
    index: &PolTreeIndex,
    node: PolTreeNode,
    given: Seq<Seq<char>>,
    attrs: Seq<Seq<char>>,
    sv: Seq<UidKey>,
    values: spec_fn(Seq<char>) -> Seq<LitKey>,
    id: Seq<char>,
    special: Seq<char>,
    indifferent_id: Seq<char>,
)
    requires
        is_tree(rank, index, node, given, attrs, sv),
        given.contains(id),
        is_met(index, attrs, values, id),
        attrs.contains(special),
        constrains(index, special, id),
        forall|key: Seq<char>| #[trigger]
            attrs.contains(key) ==> !constrains(index, key, indifferent_id),
    ensures
        search(node, values) matches Some(found) ==> !found.contains(indifferent_id),
    decreases node,
{
    if search(node, values) is Some && (search(node, values)->0).contains(indifferent_id) {
        let lit = choose|lit: LitKey| #[trigger] asks(index.pv_map@, special, lit, id);
        lemma_asked_splits(index, attrs, given, special, lit, id);
        let k = smol_chars(node.split_attr->0);
        let n = value_children(index, node, k, given);
        lemma_choice(rank, index, given, attrs, sv, k);
        lemma_without(attrs, k);
        let i = lemma_found_below(rank, index, node, given, attrs, sv, values);
        let below = given_below(index, node, k, given, i);
        lemma_given_below(index, node, k, given, i);
        search_finds_met_policies(
            rank,
            index,
            *node.children@[i],
            below,
            without(attrs, k),
            narrowed(index, below, sv),
            values,
        );
        assert(below.contains(indifferent_id));
        assert(i >= n) by {
            if i < n {
                assert(asks(index.pv_map@, k, edge_value(*node.children@[i]), indifferent_id));
            }
        }
        if constrains(index, k, id) {
            let v = choose|v: LitKey| #[trigger] asks(index.pv_map@, k, v, id);
            let c = lemma_child_of(rank, index, node, given, attrs, sv, id, v);
            let exact = given_below(index, node, k, given, c);
            search_finds_a_met_policy(
                rank,
                index,
                *node.children@[c],
                exact,
                without(attrs, k),
                narrowed(index, exact, sv),
                values,
                id,
            );
            lemma_found_above(rank, index, node, given, attrs, sv, values, c);
        } else {
            assert(without(attrs, k).contains(special));
            search_prefers_special_policies(
                rank,
                index,
                *node.children@[i],
                below,
                without(attrs, k),
                narrowed(index, below, sv),
                values,
                id,
                special,
                indifferent_id,
            );
        }
    }
}

/// What is listed once for each occurrence is listed if there is one.
proof fn lemma_times(
    cs: Seq<(Seq<char>, LitKey)>,
    k: (Seq<char>, LitKey),
    id: Seq<char>,
)
    ensures
        forall|x: Seq<char>| #[trigger]
            times(cs, k, id).contains(x) <==> x == id && cs.contains(k),
    decreases cs.len(),
{
    if cs.len() > 0 {
        let front = cs.drop_last();
        lemma_times(front, k, id);
        assert(cs =~= front.push(cs.last()));
        lemma_push_contains(front, cs.last(), k);
        assert forall|x: Seq<char>| #[trigger]
            times(cs, k, id).contains(x) <==> x == id && cs.contains(k) by {
            lemma_push_contains(times(front, k, id), id, x);
        }
    }
}

/// Whether policy `i` of `ps` is `id`, is indexed, and asks for `k`.
pub open spec fn asks_at(
    ps: Seq<Policy>,
    i: int,
    k: (Seq<char>, LitKey),
    id: Seq<char>,
) -> bool {
    &&& 0 <= i < ps.len()
    &&& ps[i].id.key() == id
    &&& policy_indexed(ps[i])
    &&& policy_atoms(ps[i]).contains(k)
}

/// The policies registered under a key and a value are those that ask for it.
pub proof fn lemma_registered(ps: Seq<Policy>, k: (Seq<char>, LitKey))
    ensures
        forall|id: Seq<char>| #[trigger]
            registered(ps, k).contains(id) <==> exists|i: int| asks_at(ps, i, k, id),
    decreases ps.len(),
{
    if ps.len() > 0 {
        let front = ps.drop_last();
        let p = ps.last();
        let last = ps.len() - 1;
        lemma_registered(front, k);
        lemma_times(policy_atoms(p), k, p.id.key());
        assert forall|id: Seq<char>| #[trigger]
            registered(ps, k).contains(id) <==> exists|i: int| asks_at(ps, i, k, id) by {
            let r = registered(front, k);
            let t = times(policy_atoms(p), k, p.id.key());
            if policy_indexed(p) {
                if (r + t).contains(id) {
                    let j = (r + t).index_of(id);
                    if j < r.len() {
                        assert(r[j] == id);
                    } else {
                        assert(t[j - r.len()] == id);
                        assert(t.contains(id));
                        assert(asks_at(ps, last, k, id));
                    }
                }
                if r.contains(id) {
                    assert((r + t)[r.index_of(id)] == id);
                }
                if t.contains(id) {
                    assert((r + t)[r.len() + t.index_of(id)] == id);
                }
            }
            if r.contains(id) {
                let i = choose|i: int| asks_at(front, i, k, id);
                assert(asks_at(ps, i, k, id));
            }
            if exists|i: int| asks_at(ps, i, k, id) {
                let i = choose|i: int| asks_at(ps, i, k, id);
                if i < last {
                    assert(asks_at(front, i, k, id));
                } else {
                    assert(t.contains(id));
                }
            }
        }
    }
}

/// In an index of `ps`, policy `i` asks for what its constraints say.
pub proof fn lemma_asks(index: &PolTreeIndex, ps: Seq<Policy>, i: int)
    requires
        index.indexes(ps),
        ids(ps).no_duplicates(),
        0 <= i < ps.len(),
        policy_indexed(ps[i]),
    ensures
        forall|key: Seq<char>, lit: LitKey| #[trigger]
            asks(index.pv_map@, key, lit, ps[i].id.key()) <==> policy_atoms(ps[i]).contains(
                (key, lit),
            ),
{
    assert forall|key: Seq<char>, lit: LitKey| #[trigger]
        asks(index.pv_map@, key, lit, ps[i].id.key()) <==> policy_atoms(ps[i]).contains(
            (key, lit),
        ) by {
        let k = (key, lit);
        lemma_registered(ps, k);
        assert(at(index.pv_map@, k) == registered(ps, k));
        if policy_atoms(ps[i]).contains(k) {
            assert(asks_at(ps, i, k, ps[i].id.key()));
        }
        if registered(ps, k).contains(ps[i].id.key()) {
            let j = choose|j: int| asks_at(ps, j, k, ps[i].id.key());
            assert(ids(ps)[j] == ids(ps)[i]);
        }
    }
}

/// An identifier of an indexed policy is that of some policy of the set.
pub proof fn lemma_indexed_ids(ps: Seq<Policy>, id: Seq<char>) -> (i: int)
    requires
        ids(indexed(ps)).contains(id),
    ensures
        0 <= i < ps.len(),
        ps[i].id.key() == id,
        policy_indexed(ps[i]),
{
    let p = |q: Policy| policy_indexed(q);
    lemma_filter_contains(ps, p);
    let j = ids(indexed(ps)).index_of(id);
    let q = indexed(ps)[j];
    assert(indexed(ps).contains(q));
    ps.index_of(q)
}

/// The keys that the tree of a policy set splits on are all those that its
/// policies ask for values of.
pub proof fn lemma_asked_keys(index: &PolTreeIndex, key: Seq<char>, lit: LitKey, id: Seq<char>)
    requires
        index.wf(),
        asks(index.pv_map@, key, lit, id),
    ensures
        index.attr_values@.dom().contains(key),
{
    assert(index.pv_map@.dom().contains((key, lit)));
    assert(at(index.attr_values@, key).contains(lit));
}

/// What the tree allows, indexed policies permit: a search that finds something
/// finds a list of policies that is not empty, and each of them is indexed and
/// applies to the request.
pub proof fn allows_only_what_policies_permit<F: Fn(&Vec<usize>, usize) -> u64>(
    rank: F,
    tree: PolTree,
    ps: Seq<Policy>,
    store: &Entities,
    request: &Request,
    entities: &Entities,
)
    requires
        ids(ps).no_duplicates(),
        is_policy_tree(rank, tree, ps, store),
        search(tree.root, request_values(request, entities)) is Some,
    ensures
        (search(tree.root, request_values(request, entities))->0).len() > 0,
        forall|id: Seq<char>| #[trigger]
            (search(tree.root, request_values(request, entities))->0).contains(id) ==> exists|
                i: int,
            |
                {
                    &&& 0 <= i < ps.len()
                    &&& (#[trigger] ps[i]).id.key() == id
                    &&& policy_indexed(ps[i])
                    &&& policy_holds(request, entities, ps[i])
                },
{
    let values = request_values(request, entities);
    let found = search(tree.root, values)->0;
    let (index, attrs) = choose|index: PolTreeIndex, attrs: Seq<Seq<char>>|
        #[trigger] is_tree_by(rank, tree, ps, store, index, attrs);
    let given = ids(indexed(ps));
    search_finds_met_policies(
        rank,
        &index,
        tree.root,
        given,
        attrs,
        uids(store.entities@),
        values,
    );
    assert forall|id: Seq<char>| #[trigger] found.contains(id) implies exists|i: int|
        {
            &&& 0 <= i < ps.len()
            &&& (#[trigger] ps[i]).id.key() == id
            &&& policy_indexed(ps[i])
            &&& policy_holds(request, entities, ps[i])
        } by {
        let i = lemma_indexed_ids(ps, id);
        let cs = policy_atoms(ps[i]);
        lemma_asks(&index, ps, i);
        policy_means_its_constraints(request, entities, ps[i]);
        assert forall|j: int| 0 <= j < cs.len() implies values_of(
            request,
            entities,
            (#[trigger] cs[j]).0,
        ).contains(cs[j].1) by {
            assert(cs.contains((cs[j].0, cs[j].1)));
            assert(asks(index.pv_map@, cs[j].0, cs[j].1, id));
            lemma_asked_keys(&index, cs[j].0, cs[j].1, id);
            assert(attrs.contains(cs[j].0));
            assert(values(cs[j].0).contains(cs[j].1));
        }
    }
}

/// What a policy asks of a scope key, its scope asks.
proof fn lemma_scope_atom(p: Policy, key: Seq<char>, lit: LitKey)
    requires
        policy_atoms(p).contains((key, lit)),
        key == SCOPE_PRINCIPAL_ATTR@ || key == SCOPE_RESOURCE_ATTR@,
    ensures
        key == SCOPE_PRINCIPAL_ATTR@ ==> scope_atoms(key, p.body().principal_constraint).contains(
            (key, lit),
        ),
        key == SCOPE_RESOURCE_ATTR@ ==> scope_atoms(key, p.body().resource_constraint).contains(
            (key, lit),
        ),
{
    scope_keys_distinct();
    let a = scope_atoms(SCOPE_PRINCIPAL_ATTR@, p.body().principal_constraint);
    let b = scope_atoms(SCOPE_RESOURCE_ATTR@, p.body().resource_constraint);
    let c = action_atoms(p.body().action_constraint);
    let d = optional_condition_atoms(p.body().non_scope_constraints);
    let i = policy_atoms(p).index_of((key, lit));
    assert(policy_atoms(p)[i] == (key, lit));
    match p.body().non_scope_constraints {
        Some(e) => {
            lemma_condition_keys(e);
        },
        None => {},
    }
    assert(is_scope_key(key));
    if i < a.len() {
        assert(a[i] == (key, lit));
    } else if i < a.len() + b.len() {
        assert(b[i - a.len()] == (key, lit));
    } else if i < a.len() + b.len() + c.len() {
        assert(c[i - a.len() - b.len()] == (key, lit));
    } else {
        assert(d[i - a.len() - b.len() - c.len()] == (key, lit));
    }
}

/// A policy asks for one of the values that a request gives a key at most: an
/// attribute has one value, and a scope names an entity or a type.
proof fn lemma_one_value(
    request: &Request,
    entities: &Entities,
    p: Policy,
    key: Seq<char>,
    v: LitKey,
    w: LitKey,
)
    requires
        policy_atoms(p).contains((key, v)),
        policy_atoms(p).contains((key, w)),
        values_of(request, entities, key).contains(v),
        values_of(request, entities, key).contains(w),
    ensures
        v == w,
{
    let vs = values_of(request, entities, key);
    assert(vs[vs.index_of(v)] == v);
    assert(vs[vs.index_of(w)] == w);
    lemma_values(request, entities);
    if key == SCOPE_PRINCIPAL_ATTR@ {
        lemma_scope_atom(p, key, v);
        lemma_scope_atom(p, key, w);
        lemma_one_scope(key, p.body().principal_constraint, v, w);
    } else if key == SCOPE_RESOURCE_ATTR@ {
        lemma_scope_atom(p, key, v);
        lemma_scope_atom(p, key, w);
        lemma_one_scope(key, p.body().resource_constraint, v, w);
    }
}

proof fn lemma_one_scope(
    key: Seq<char>,
    c: PrincipalOrResourceConstraint,
    v: LitKey,
    w: LitKey,
)
    requires
        scope_atoms(key, c).contains((key, v)),
        scope_atoms(key, c).contains((key, w)),
    ensures
        v == w,
{
    let x = scope_atoms(key, c);
    assert(x[x.index_of((key, v))] == (key, v));
    assert(x[x.index_of((key, w))] == (key, w));
}

/// An indexed policy that applies to a request is met by the request's values.
proof fn lemma_met(
    ps: Seq<Policy>,
    index: &PolTreeIndex,
    attrs: Seq<Seq<char>>,
    request: &Request,
    entities: &Entities,
    i: int,
)
    requires
        ids(ps).no_duplicates(),
        index.indexes(ps),
        0 <= i < ps.len(),
        policy_indexed(ps[i]),
        policy_holds(request, entities, ps[i]),
    ensures
        ids(indexed(ps)).contains(ps[i].id.key()),
        is_met(index, attrs, request_values(request, entities), ps[i].id.key()),
{
    let values = request_values(request, entities);
    let id = ps[i].id.key();
    lemma_filter_contains(ps, |p: Policy| policy_indexed(p));
    assert(indexed(ps).contains(ps[i]));
    assert(ids(indexed(ps))[indexed(ps).index_of(ps[i])] == id);
    lemma_asks(index, ps, i);
    policy_means_its_constraints(request, entities, ps[i]);
    let cs = policy_atoms(ps[i]);
    assert forall|key: Seq<char>, lit: LitKey|
        #[trigger] asks(index.pv_map@, key, lit, id) implies values(key).contains(lit) by {
        assert(cs[cs.index_of((key, lit))] == (key, lit));
    }
    assert forall|key: Seq<char>, v: LitKey, w: LitKey|
        #[trigger] asks(index.pv_map@, key, v, id) && #[trigger] asks(
            index.pv_map@,
            key,
            w,
            id,
        ) implies v == w by {
        assert(values(key).contains(v) && values(key).contains(w));
        lemma_one_value(request, entities, ps[i], key, v, w);
    }
}

/// What an indexed policy permits, the tree allows: a search finds something if
/// policy `i` is indexed and applies to the request.
pub proof fn allows_what_a_policy_permits<F: Fn(&Vec<usize>, usize) -> u64>(
    rank: F,
    tree: PolTree,
    ps: Seq<Policy>,
    store: &Entities,
    request: &Request,
    entities: &Entities,
    i: int,
)
    requires
        ids(ps).no_duplicates(),
        is_policy_tree(rank, tree, ps, store),
        0 <= i < ps.len(),
        policy_indexed(ps[i]),
        policy_holds(request, entities, ps[i]),
    ensures
        search(tree.root, request_values(request, entities)) is Some,
{
    let (index, attrs) = choose|index: PolTreeIndex, attrs: Seq<Seq<char>>|
        #[trigger] is_tree_by(rank, tree, ps, store, index, attrs);
    lemma_met(ps, &index, attrs, request, entities, i);
    search_finds_a_met_policy(
        rank,
        &index,
        tree.root,
        ids(indexed(ps)),
        attrs,
        uids(store.entities@),
        request_values(request, entities),
        ps[i].id.key(),
    );
}

/// The tree decides as the indexed policies do: it allows a request where one of
/// them applies to it, and only there; and the policies that it allows it by are
/// indexed and apply.
pub proof fn decides_as_the_policies_do<F: Fn(&Vec<usize>, usize) -> u64>(
    rank: F,
    tree: PolTree,
    ps: Seq<Policy>,
    store: &Entities,
    request: &Request,
    entities: &Entities,
)
    requires
        ids(ps).no_duplicates(),
        is_policy_tree(rank, tree, ps, store),
    ensures
        search(tree.root, request_values(request, entities)) is Some <==> exists|i: int|
            0 <= i < ps.len() && policy_indexed(#[trigger] ps[i]) && policy_holds(
                request,
                entities,
                ps[i],
            ),
        search(tree.root, request_values(request, entities)) matches Some(found) ==> forall|
            id: Seq<char>,
        | #[trigger]
            found.contains(id) ==> exists|i: int|
                {
                    &&& 0 <= i < ps.len()
                    &&& (#[trigger] ps[i]).id.key() == id
                    &&& policy_indexed(ps[i])
                    &&& policy_holds(request, entities, ps[i])
                },
{
    if search(tree.root, request_values(request, entities)) is Some {
        allows_only_what_policies_permit(rank, tree, ps, store, request, entities);
        let found = search(tree.root, request_values(request, entities))->0;
        assert(found.contains(found[0]));
    }
    if exists|i: int|
        0 <= i < ps.len() && policy_indexed(#[trigger] ps[i]) && policy_holds(
            request,
            entities,
            ps[i],
        ) {
        let i = choose|i: int|
            0 <= i < ps.len() && policy_indexed(#[trigger] ps[i]) && policy_holds(
                request,
                entities,
                ps[i],
            );
        allows_what_a_policy_permits(rank, tree, ps, store, request, entities, i);
    }
}

/// Trees of one policy set decide alike: neither the keys that they split on and
/// their order nor the stores that they were built over have a part in a decision.
pub proof fn trees_of_a_policy_set_agree<
    F: Fn(&Vec<usize>, usize) -> u64,
    G: Fn(&Vec<usize>, usize) -> u64,
>(
    rank: F,
    tree: PolTree,
    store: &Entities,
    other_rank: G,
    other_tree: PolTree,
    other_store: &Entities,
    ps: Seq<Policy>,
    request: &Request,
    entities: &Entities,
)
    requires
        ids(ps).no_duplicates(),
        is_policy_tree(rank, tree, ps, store),
        is_policy_tree(other_rank, other_tree, ps, other_store),
    ensures
        search(tree.root, request_values(request, entities)) is Some <==> search(
            other_tree.root,
            request_values(request, entities),
        ) is Some,
{
    decides_as_the_policies_do(rank, tree, ps, store, request, entities);
    decides_as_the_policies_do(other_rank, other_tree, ps, other_store, request, entities);
}

/// Policies that permit without asking for anything come last: where the reason
/// for an allowance is one of them, no indexed policy that asks for anything is
/// among the reasons, and none applies to the request.
pub proof fn unconditional_policies_come_last<F: Fn(&Vec<usize>, usize) -> u64>(
    rank: F,
    tree: PolTree,
    ps: Seq<Policy>,
    store: &Entities,
    request: &Request,
    entities: &Entities,
    i: int,
    j: int,
)
    requires
        ids(ps).no_duplicates(),
        is_policy_tree(rank, tree, ps, store),
        search(tree.root, request_values(request, entities)) is Some,
        0 <= i < ps.len(),
        policy_indexed(ps[i]),
        policy_atoms(ps[i]).len() == 0,
        (search(tree.root, request_values(request, entities))->0).contains(ps[i].id.key()),
        0 <= j < ps.len(),
        policy_indexed(ps[j]),
        policy_atoms(ps[j]).len() > 0,
    ensures
        !(search(tree.root, request_values(request, entities))->0).contains(ps[j].id.key()),
        !policy_holds(request, entities, ps[j]),
{
    let values = request_values(request, entities);
    let (index, attrs) = choose|index: PolTreeIndex, attrs: Seq<Seq<char>>|
        #[trigger] is_tree_by(rank, tree, ps, store, index, attrs);
    let given = ids(indexed(ps));
    let sv = uids(store.entities@);
    let id = ps[i].id.key();
    let other = ps[j].id.key();
    let (key, lit) = policy_atoms(ps[j])[0];
    lemma_asks(&index, ps, i);
    lemma_asks(&index, ps, j);
    assert(policy_atoms(ps[j]).contains((key, lit)));
    assert(asks(index.pv_map@, key, lit, other));
    lemma_asked_keys(&index, key, lit, other);
    assert(attrs.contains(key));
    assert(constrains(&index, key, other));
    search_finds_indifferent_policies_together(
        rank,
        &index,
        tree.root,
        given,
        attrs,
        sv,
        values,
        id,
    );
    if policy_holds(request, entities, ps[j]) {
        lemma_met(ps, &index, attrs, request, entities, j);
        search_prefers_special_policies(
            rank,
            &index,
            tree.root,
            given,
            attrs,
            sv,
            values,
            other,
            key,
            id,
        );
    }
}

/// A policy that permits without asking for anything is found for every request.
pub proof fn unconditional_policy_always_allows<F: Fn(&Vec<usize>, usize) -> u64>(
    rank: F,
    tree: PolTree,
    ps: Seq<Policy>,
    store: &Entities,
    request: &Request,
    entities: &Entities,
    i: int,
)
    requires
        ids(ps).no_duplicates(),
        is_policy_tree(rank, tree, ps, store),
        0 <= i < ps.len(),
        policy_indexed(ps[i]),
        policy_atoms(ps[i]).len() == 0,
    ensures
        search(tree.root, request_values(request, entities)) is Some,
{
    policy_means_its_constraints(request, entities, ps[i]);
    allows_what_a_policy_permits(rank, tree, ps, store, request, entities, i);
}

/// A copy of a tree decides as the tree does, and for the same reasons.
pub proof fn copies_decide_alike(
    node: PolTreeNode,
    copy: PolTreeNode,
    values: spec_fn(Seq<char>) -> Seq<LitKey>,
)
    requires
        same_node(node, copy),
    ensures
        search(node, values) == search(copy, values),
    decreases node,
{
    if node.children@.len() > 0 && node.split_attr is Some {
        let vs = values(smol_chars(node.split_attr->0));
        assert forall|i: int| 0 <= i < node.children@.len() implies {
            &&& search(*#[trigger] node.children@[i], values) == search(*copy.children@[i], values)
            &&& matches_edge(*node.children@[i], vs) == matches_edge(*copy.children@[i], vs)
            &&& node.children@[i].wildcard == copy.children@[i].wildcard
        } by {
            copies_decide_alike(*node.children@[i], *copy.children@[i], values);
        }
        lemma_same_matching(node.children@, copy.children@, vs, values);
        lemma_last_wildcard(node.children@);
        lemma_last_wildcard(copy.children@);
        if last_wildcard(node.children@) is Some {
            let i = last_wildcard(node.children@)->0;
            assert(copy.children@[i].wildcard);
        }
        if last_wildcard(copy.children@) is Some {
            let i = last_wildcard(copy.children@)->0;
            assert(node.children@[i].wildcard);
        }
    }
}

proof fn lemma_same_matching(
    nodes: Seq<Box<PolTreeNode>>,
    copies: Seq<Box<PolTreeNode>>,
    vs: Seq<LitKey>,
    values: spec_fn(Seq<char>) -> Seq<LitKey>,
)
    requires
        nodes.len() == copies.len(),
        forall|i: int|
            0 <= i < nodes.len() ==> {
                &&& search(*#[trigger] nodes[i], values) == search(*copies[i], values)
                &&& matches_edge(*nodes[i], vs) == matches_edge(*copies[i], vs)
            },
    ensures
        search_matching(nodes, vs, values) == search_matching(copies, vs, values),
    decreases nodes.len(),
{
    if nodes.len() > 0 {
        assert(search(*nodes[0], values) == search(*copies[0], values));
        let rest = nodes.drop_first();
        assert forall|i: int| 0 <= i < rest.len() implies {
            &&& search(*#[trigger] rest[i], values) == search(*copies.drop_first()[i], values)
            &&& matches_edge(*rest[i], vs) == matches_edge(*copies.drop_first()[i], vs)
        } by {
            assert(rest[i] == nodes[i + 1]);
        }
        lemma_same_matching(rest, copies.drop_first(), vs, values);
    }
}

/// Whether policy `id` stands at `node` or anywhere below it.
pub open spec fn mentions(node: PolTreeNode, id: Seq<char>) -> bool
    decreases node,
{
    ||| keys(node.pv@).contains(id)
    ||| exists|i: int| 0 <= i < node.children@.len() && mentions(*#[trigger] node.children@[i], id)
}

/// A tree mentions no policy but those that it was built for.
pub proof fn mentions_only_given_policies<F: Fn(&Vec<usize>, usize) -> u64>(
    rank: F,
    index: &PolTreeIndex,
    node: PolTreeNode,
    given: Seq<Seq<char>>,
    attrs: Seq<Seq<char>>,
    sv: Seq<UidKey>,
    id: Seq<char>,
)
    requires
        is_tree(rank, index, node, given, attrs, sv),
        mentions(node, id),
    ensures
        given.contains(id),
    decreases node,
{
    if !given.contains(id) {
        let i = choose|i: int|
            0 <= i < node.children@.len() && mentions(*#[trigger] node.children@[i], id);
        let k = smol_chars(node.split_attr->0);
        let below = given_below(index, node, k, given, i);
        lemma_given_below(index, node, k, given, i);
        mentions_only_given_policies(
            rank,
            index,
            *node.children@[i],
            below,
            without(attrs, k),
            narrowed(index, below, sv),
            id,
        );
    }
}

/// The tree of a policy set mentions no residual policy, on no branch.
pub proof fn mentions_no_residual_policy<F: Fn(&Vec<usize>, usize) -> u64>(
    rank: F,
    tree: PolTree,
    ps: Seq<Policy>,
    entities: &Entities,
    i: int,
)
    requires
        ids(ps).no_duplicates(),
        is_policy_tree(rank, tree, ps, entities),
        0 <= i < ps.len(),
        !policy_indexed(ps[i]),
    ensures
        !mentions(tree.root, ps[i].id.key()),
{
    let id = ps[i].id.key();
    let (index, attrs) = choose|index: PolTreeIndex, attrs: Seq<Seq<char>>|
        #[trigger] is_tree_by(rank, tree, ps, entities, index, attrs);
    if mentions(tree.root, id) {
        mentions_only_given_policies(
            rank,
            &index,
            tree.root,
            ids(indexed(ps)),
            attrs,
            uids(entities.entities@),
            id,
        );
        let j = lemma_indexed_ids(ps, id);
        assert(ids(ps)[j] == ids(ps)[i]);
    }
}

/// No policy is lost: each policy of a set is at the root of its tree or
/// residual, and none is both.
pub proof fn each_policy_in_the_tree_or_residual<F: Fn(&Vec<usize>, usize) -> u64>(
    rank: F,
    tree: PolTree,
    ps: Seq<Policy>,
    entities: &Entities,
    i: int,
)
    requires
        ids(ps).no_duplicates(),
        is_policy_tree(rank, tree, ps, entities),
        0 <= i < ps.len(),
    ensures
        keys(tree.root.pv@).contains(ps[i].id.key()) <==> !ids(residual(ps)).contains(
            ps[i].id.key(),
        ),
{
    lemma_residual_ids(ps);
    lemma_filter_contains(ps, |p: Policy| policy_indexed(p));
    let id = ps[i].id.key();
    if policy_indexed(ps[i]) {
        assert(indexed(ps).contains(ps[i]));
        assert(ids(indexed(ps))[indexed(ps).index_of(ps[i])] == id);
    }
    if ids(indexed(ps)).contains(id) {
        let j = lemma_indexed_ids(ps, id);
        assert(ids(ps)[j] == ids(ps)[i]);
    }
}

/// The tree of a policy set mentions no policy that forbids.
pub proof fn mentions_no_forbidding_policy<F: Fn(&Vec<usize>, usize) -> u64>(
    rank: F,
    tree: PolTree,
    ps: Seq<Policy>,
    entities: &Entities,
    i: int,
)
    requires
        ids(ps).no_duplicates(),
        is_policy_tree(rank, tree, ps, entities),
        0 <= i < ps.len(),
        ps[i].body().effect == Effect::Forbid,
    ensures
        !mentions(tree.root, ps[i].id.key()),
        ids(residual(ps)).contains(ps[i].id.key()),
{
    mentions_no_residual_policy(rank, tree, ps, entities, i);
    lemma_residual_ids(ps);
}

} // verus!
