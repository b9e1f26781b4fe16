//! The tree and its construction.

use smol_str::SmolStr;
use vstd::prelude::*;

use crate::ast::{EntityUID, LitKey, Literal, PolicyID, UidKey};
use crate::authorizer::Decision;
use crate::keyed::{add_all, at, dup_all, keys, lemma_union_onto, retain_in, retain_not_in, Keyed};
use crate::poltree::choice::{best_attribute, is_best_attribute, is_split, split_keys};
use crate::poltree::index::{asks, covered_by, is_asked, PolTreeIndex};
use crate::seqs::{
    lemma_filter_agree, lemma_filter_contains, lemma_filter_filter, lemma_filter_front,
    lemma_filter_shorter,
};
use crate::text::{smol_chars, smol_from};

verus! {

/// A node of the tree.
#[derive(Debug)]
pub struct PolTreeNode {
    /// The key and the value on the edge that leads here; none at the root
    pub attr_val: Option<(SmolStr, Literal)>,
    /// The key that the node splits on
    pub split_attr: Option<SmolStr>,
    /// The nodes below
    pub children: Vec<Box<PolTreeNode>>,
    /// The entities that the node's policies cover
    pub sv: Vec<EntityUID>,
    /// The policies of the node
    pub pv: Vec<PolicyID>,
    /// The decision, at a leaf
    pub eval: Option<Decision>,
    /// Whether the node is for the policies that ask for no value of the key on
    /// the edge that leads here
    pub wildcard: bool,
}

/// A policy tree.
#[derive(Debug)]
pub struct PolTree {
    /// Its root
    pub root: PolTreeNode,
}

/// Whether two trees have the same nodes, edges and marks.
pub open spec fn same_node(a: PolTreeNode, b: PolTreeNode) -> bool
    decreases a,
{
    &&& match (a.attr_val, b.attr_val) {
        (Some(x), Some(y)) => x.key() == y.key(),
        (None, None) => true,
        _ => false,
    }
    &&& match (a.split_attr, b.split_attr) {
        (Some(x), Some(y)) => x.key() == y.key(),
        (None, None) => true,
        _ => false,
    }
    &&& keys(a.sv@) == keys(b.sv@)
    &&& keys(a.pv@) == keys(b.pv@)
    &&& a.eval == b.eval
    &&& a.wildcard == b.wildcard
    &&& a.children@.len() == b.children@.len()
    &&& forall|i: int|
        0 <= i < a.children@.len() ==> same_node(*#[trigger] a.children@[i], *b.children@[i])
}

/// A copy of a tree.
fn dup_node(node: &PolTreeNode) -> (r: PolTreeNode)
    ensures
        same_node(*node, r),
    decreases node,
{
    let mut children: Vec<Box<PolTreeNode>> = Vec::new();
    for i in 0..node.children.len()
        invariant
            children@.len() == i,
            forall|j: int|
                0 <= j < i ==> same_node(*#[trigger] node.children@[j], *children@[j]),
    {
        let child = dup_node(&node.children[i]);
        children.push(Box::new(child));
    }
    PolTreeNode {
        attr_val: match &node.attr_val {
            Some(edge) => Some(edge.dup()),
            None => None,
        },
        split_attr: match &node.split_attr {
            Some(key) => Some(key.dup()),
            None => None,
        },
        children,
        sv: dup_all(&node.sv),
        pv: dup_all(&node.pv),
        eval: node.eval,
        wildcard: node.wildcard,
    }
}

impl Clone for PolTreeNode {
    fn clone(&self) -> (r: Self)
        ensures
            same_node(*self, r),
    {
        dup_node(self)
    }
}

impl Clone for PolTree {
    fn clone(&self) -> (r: Self)
        ensures
            same_node(self.root, r.root),
    {
        PolTree { root: self.root.clone() }
    }
}

/// What the edge to the policies that ask for no value of the key is labelled
/// with. A policy may ask for this very string, so it is not by the label that
/// the edge is told from those of values.
pub open spec fn star() -> LitKey {
    LitKey::Str("*"@)
}

/// Whether policy `id` asks under `key` for another value than `lit`.
pub open spec fn asks_otherwise(
    index: &PolTreeIndex,
    key: Seq<char>,
    lit: LitKey,
    id: Seq<char>,
) -> bool {
    exists|other: LitKey| other != lit && #[trigger] asks(index.pv_map@, key, other, id)
}

/// The policies of `given` that ask for `lit` under `key`, and for no other value:
/// one that asks for two values of a key asks for what no request gives, and
/// stands below no edge.
pub open spec fn asking(
    index: &PolTreeIndex,
    key: Seq<char>,
    lit: LitKey,
    given: Seq<Seq<char>>,
) -> Seq<Seq<char>> {
    at(index.pv_map@, (key, lit)).filter(
        |id: Seq<char>| given.contains(id) && !asks_otherwise(index, key, lit, id),
    )
}

/// Whether policy `id` asks for some value under `key`.
pub open spec fn constrains(index: &PolTreeIndex, key: Seq<char>, id: Seq<char>) -> bool {
    exists|lit: LitKey| #[trigger] asks(index.pv_map@, key, lit, id)
}

/// The policies of `given` that ask for no value under `key`.
pub open spec fn indifferent(
    index: &PolTreeIndex,
    key: Seq<char>,
    given: Seq<Seq<char>>,
) -> Seq<Seq<char>> {
    given.filter(|id: Seq<char>| !constrains(index, key, id))
}

/// The entities of `sv` that some policy of `given` covers.
pub open spec fn narrowed(
    index: &PolTreeIndex,
    given: Seq<Seq<char>>,
    sv: Seq<UidKey>,
) -> Seq<UidKey> {
    covered_by(index.policy_entities_map@, given).filter(|u: UidKey| sv.contains(u))
}

/// The keys but for `key`.
pub open spec fn other_than(key: Seq<char>) -> spec_fn(Seq<char>) -> bool {
    |a: Seq<char>| a != key
}

/// The keys of `attrs` but for `key`.
pub open spec fn without(attrs: Seq<Seq<char>>, key: Seq<char>) -> Seq<Seq<char>> {
    attrs.filter(other_than(key))
}

/// A leaf: it allows where it has a policy, and denies where it has none.
pub open spec fn is_leaf(node: PolTreeNode) -> bool {
    &&& node.split_attr is None
    &&& node.children@.len() == 0
    &&& node.eval == Some(
        if node.pv@.len() == 0 {
            Decision::Deny
        } else {
            Decision::Allow
        },
    )
}

/// Whether a node may split on `key`: it is the one of the greatest rank, or
/// the first that splits at all where no key has a rank.
pub open spec fn is_choice<F: Fn(&Vec<usize>, usize) -> u64>(
    rank: F,
    index: &PolTreeIndex,
    given: Seq<Seq<char>>,
    attrs: Seq<Seq<char>>,
    sv: Seq<UidKey>,
    key: Seq<char>,
) -> bool {
    ||| is_best_attribute(rank, index, given, sv, attrs, Some(key))
    ||| is_best_attribute(rank, index, given, sv, attrs, None) && key == split_keys(
        index,
        attrs,
        given,
    )[0]
}

/// Whether the edge to `node` is that of `key` and `lit`.
pub open spec fn has_edge(node: PolTreeNode, key: Seq<char>, lit: LitKey) -> bool {
    node.attr_val matches Some((a, l)) && smol_chars(a) == key && l.key() == lit
}

/// The value on the edge to `node`.
pub open spec fn edge_value(node: PolTreeNode) -> LitKey
    recommends
        node.attr_val is Some,
{
    let (_, lit) = node.attr_val->0;
    lit.key()
}

/// How many children of `node` stand for a value, where it splits on `key`: all
/// but the last one, which is for the indifferent policies if there are any.
pub open spec fn value_children(
    index: &PolTreeIndex,
    node: PolTreeNode,
    key: Seq<char>,
    given: Seq<Seq<char>>,
) -> int {
    node.children@.len() - if indifferent(index, key, given).len() > 0 {
        1int
    } else {
        0
    }
}

/// The policies of child `i` of `node`, which splits on `key`.
pub open spec fn given_below(
    index: &PolTreeIndex,
    node: PolTreeNode,
    key: Seq<char>,
    given: Seq<Seq<char>>,
    i: int,
) -> Seq<Seq<char>> {
    if i < value_children(index, node, key, given) {
        asking(index, key, edge_value(*node.children@[i]), given)
    } else {
        indifferent(index, key, given)
    }
}

/// Whether the edges below `node`, which splits on `key`, are one for each
/// value that some policy of `given` asks for, and behind them one for the
/// indifferent policies where there are any, which alone is marked as a wildcard.
pub open spec fn has_edges(
    index: &PolTreeIndex,
    node: PolTreeNode,
    key: Seq<char>,
    given: Seq<Seq<char>>,
) -> bool {
    let n = value_children(index, node, key, given);
    &&& n >= 0
    &&& forall|i: int|
        0 <= i < n ==> {
            &&& has_edge(*#[trigger] node.children@[i], key, edge_value(*node.children@[i]))
            &&& is_asked(index.pv_map@, key, edge_value(*node.children@[i]), given)
            &&& !node.children@[i].wildcard
        }
    &&& forall|i: int, j: int|
        0 <= i < j < n ==> edge_value(*#[trigger] node.children@[i]) != edge_value(
            *#[trigger] node.children@[j],
        )
    &&& forall|lit: LitKey| #[trigger]
        is_asked(index.pv_map@, key, lit, given) ==> exists|i: int|
            0 <= i < n && edge_value(*#[trigger] node.children@[i]) == lit
    &&& n < node.children@.len() ==> {
        &&& has_edge(*node.children@[n], key, star())
        &&& node.children@[n].wildcard
    }
}

/// Whether `node` is a tree for the policies `given` over the entities `sv`,
/// split on the keys `attrs`.
///
/// It is a leaf where no policy asks for a value of any of the keys. Otherwise
/// it splits on one of them, and has below it a tree for each value that is
/// asked for, of the policies that ask for it and no other, and one for the
/// indifferent policies; in each the other keys are split on.
pub open spec fn is_tree<F: Fn(&Vec<usize>, usize) -> u64>(
    rank: F,
    index: &PolTreeIndex,
    node: PolTreeNode,
    given: Seq<Seq<char>>,
    attrs: Seq<Seq<char>>,
    sv: Seq<UidKey>,
) -> bool
    decreases node,
{
    &&& keys(node.pv@) == given
    &&& keys(node.sv@) == sv
    &&& if split_keys(index, attrs, given).len() == 0 {
        is_leaf(node)
    } else {
        &&& node.eval is None
        &&& node.split_attr is Some
        &&& {
            let key = smol_chars(node.split_attr->0);
            &&& is_choice(rank, index, given, attrs, sv, key)
            &&& has_edges(index, node, key, given)
            &&& forall|i: int|
                0 <= i < node.children@.len() ==> is_tree(
                    rank,
                    index,
                    *#[trigger] node.children@[i],
                    given_below(index, node, key, given, i),
                    without(attrs, key),
                    narrowed(index, given_below(index, node, key, given, i), sv),
                )
        }
    }
}

/// A key that a node may split on is one of `attrs`, and some policy asks for a
/// value of it.
pub proof fn lemma_choice<F: Fn(&Vec<usize>, usize) -> u64>(
    rank: F,
    index: &PolTreeIndex,
    given: Seq<Seq<char>>,
    attrs: Seq<Seq<char>>,
    sv: Seq<UidKey>,
    key: Seq<char>,
)
    requires
        is_choice(rank, index, given, attrs, sv, key),
        split_keys(index, attrs, given).len() > 0,
    ensures
        attrs.contains(key),
        is_split(index, key, given),
        without(attrs, key).len() < attrs.len(),
{
    let cands = split_keys(index, attrs, given);
    lemma_filter_contains(attrs, |a: Seq<char>| is_split(index, a, given));
    assert(cands.contains(cands[0]));
    if is_best_attribute(rank, index, given, sv, attrs, Some(key)) {
        assert(cands.contains(key));
    }
    lemma_filter_shorter(attrs, other_than(key), key);
}

/// Where the first of `attrs` stands under which some of the policies asks for
/// a value.
fn first_split(attrs: &[SmolStr], policy_ids: &[PolicyID], index: &PolTreeIndex) -> (r: Option<
    usize,
>)
    requires
        index.maps_wf(),
    ensures
        match r {
            Some(i) => i < attrs@.len() && split_keys(index, keys(attrs@), keys(policy_ids@)).len()
                > 0 && keys(attrs@)[i as int] == split_keys(
                index,
                keys(attrs@),
                keys(policy_ids@),
            )[0],
            None => split_keys(index, keys(attrs@), keys(policy_ids@)).len() == 0,
        },
{
    let ghost given = keys(policy_ids@);
    let ghost p = |a: Seq<char>| is_split(index, a, given);
    assert(keys(attrs@).take(0).filter(p) =~= Seq::empty()) by {
        reveal(Seq::filter);
    }
    for i in 0..attrs.len()
        invariant
            index.maps_wf(),
            given == keys(policy_ids@),
            p == (|a: Seq<char>| is_split(index, a, given)),
            keys(attrs@).take(i as int).filter(p).len() == 0,
    {
        let ghost key = keys(attrs@)[i as int];
        let values = index.values_for_attr_in_policies(&attrs[i], policy_ids);
        assert(keys(attrs@).take(i + 1).drop_last() =~= keys(attrs@).take(i as int));
        assert(keys(attrs@).take(i + 1).last() == key);
        reveal(Seq::filter);
        if values.len() > 0 {
            proof {
                assert(keys(values@).contains(keys(values@)[0]));
                assert(is_asked(index.pv_map@, key, keys(values@)[0], given));
                lemma_filter_front(keys(attrs@), p, i + 1);
                assert(keys(attrs@).take(i + 1).filter(p)[0] == key);
            }
            return Some(i);
        }
        proof {
            if is_split(index, key, given) {
                let lit = choose|lit: LitKey| #[trigger] is_asked(index.pv_map@, key, lit, given);
                assert(keys(values@).contains(lit));
            }
        }
    }
    assert(keys(attrs@).take(attrs@.len() as int) =~= keys(attrs@));
    None
}

/// A leaf for the given policies and entities.
fn make_leaf(policy_ids: Vec<PolicyID>, entities: Vec<EntityUID>) -> (r: PolTreeNode)
    ensures
        is_leaf(r),
        r.pv == policy_ids,
        r.sv == entities,
        r.attr_val is None,
        !r.wildcard,
{
    let decision = if policy_ids.len() == 0 {
        Decision::Deny
    } else {
        Decision::Allow
    };
    PolTreeNode {
        attr_val: None,
        split_attr: None,
        children: Vec::new(),
        sv: entities,
        pv: policy_ids,
        eval: Some(decision),
        wildcard: false,
    }
}

/// Whether `values` are those that some policy of `given` asks for under `key`.
pub open spec fn lists_asked(
    index: &PolTreeIndex,
    key: Seq<char>,
    values: Seq<LitKey>,
    given: Seq<Seq<char>>,
) -> bool {
    forall|lit: LitKey| #[trigger]
        values.contains(lit) <==> is_asked(index.pv_map@, key, lit, given)
}

/// The policies that ask for value `i` of `values` under `key`, and for no other.
fn asking_policies(
    key: &SmolStr,
    values: &Vec<Literal>,
    i: usize,
    policy_ids: &Vec<PolicyID>,
    index: &PolTreeIndex,
) -> (r: Vec<PolicyID>)
    requires
        index.maps_wf(),
        i < values@.len(),
        keys(values@).no_duplicates(),
        lists_asked(index, smol_chars(*key), keys(values@), keys(policy_ids@)),
    ensures
        keys(r@) == asking(index, smol_chars(*key), values@[i as int].key(), keys(policy_ids@)),
{
    let ghost k = smol_chars(*key);
    let ghost given = keys(policy_ids@);
    let ghost lit = values@[i as int].key();
    let mut others: Vec<PolicyID> = Vec::new();
    for j in 0..values.len()
        invariant
            index.maps_wf(),
            k == smol_chars(*key),
            forall|id: Seq<char>| #[trigger]
                keys(others@).contains(id) <==> exists|l: int|
                    0 <= l < j && l != i && asks(index.pv_map@, k, #[trigger] values@[l].key(), id),
    {
        if j != i {
            let ghost before = keys(others@);
            let pv = index.get_pv(key, &values[j]);
            add_all(&mut others, pv);
            proof {
                lemma_union_onto(before, keys(pv@));
                assert forall|id: Seq<char>| #[trigger]
                    keys(others@).contains(id) <==> exists|l: int|
                        0 <= l < j + 1 && l != i && asks(
                            index.pv_map@,
                            k,
                            #[trigger] values@[l].key(),
                            id,
                        ) by {
                    assert(before.contains(id) <==> exists|l: int|
                        0 <= l < j && l != i && asks(
                            index.pv_map@,
                            k,
                            #[trigger] values@[l].key(),
                            id,
                        ));
                    assert(keys(pv@).contains(id) <==> asks(
                        index.pv_map@,
                        k,
                        values@[j as int].key(),
                        id,
                    ));
                }
            }
        }
    }
    let here = retain_in(index.get_pv(key, &values[i]), policy_ids);
    let r = retain_not_in(&here, &others);
    proof {
        let all = at(index.pv_map@, (k, lit));
        let p = |id: Seq<char>| given.contains(id);
        let q = |id: Seq<char>| !keys(others@).contains(id);
        lemma_filter_filter(all, p, q);
        assert forall|a: int| 0 <= a < all.len() implies (p(#[trigger] all[a]) && q(all[a])) == (
        given.contains(all[a]) && !asks_otherwise(index, k, lit, all[a])) by {
            let id = all[a];
            if given.contains(id) {
                if asks_otherwise(index, k, lit, id) {
                    let other = choose|other: LitKey|
                        other != lit && #[trigger] asks(index.pv_map@, k, other, id);
                    assert(is_asked(index.pv_map@, k, other, given));
                    assert(keys(values@).contains(other));
                    let l = keys(values@).index_of(other);
                    assert(values@[l].key() == other);
                }
                if keys(others@).contains(id) {
                    let l = choose|l: int|
                        0 <= l < values@.len() && l != i && asks(
                            index.pv_map@,
                            k,
                            #[trigger] values@[l].key(),
                            id,
                        );
                    assert(keys(values@)[l] != keys(values@)[i as int]);
                }
            }
        }
        lemma_filter_agree(
            all,
            |id: Seq<char>| p(id) && q(id),
            |id: Seq<char>| given.contains(id) && !asks_otherwise(index, k, lit, id),
        );
    }
    r
}

/// The trees below a node, one for each of `values`.
#[verifier::loop_isolation(false)]
fn build_value_children<F: Fn(&Vec<usize>, usize) -> u64>(
    key: &SmolStr,
    values: &Vec<Literal>,
    policy_ids: &Vec<PolicyID>,
    attrs: &Vec<SmolStr>,
    entities: &Vec<EntityUID>,
    index: &PolTreeIndex,
    rank: &F,
) -> (r: Vec<Box<PolTreeNode>>)
    requires
        index.maps_wf(),
        forall|counts: &Vec<usize>, total: usize| call_requires(*rank, (counts, total)),
        keys(values@).no_duplicates(),
        lists_asked(index, smol_chars(*key), keys(values@), keys(policy_ids@)),
    ensures
        r@.len() == values@.len(),
        forall|i: int|
            0 <= i < r@.len() ==> {
                let below = asking(
                    index,
                    smol_chars(*key),
                    values@[i].key(),
                    keys(policy_ids@),
                );
                &&& has_edge(*#[trigger] r@[i], smol_chars(*key), values@[i].key())
                &&& !r@[i].wildcard
                &&& is_tree(
                    *rank,
                    index,
                    *r@[i],
                    below,
                    keys(attrs@),
                    narrowed(index, below, keys(entities@)),
                )
            },
    decreases attrs@.len(), 2nat,
{
    let mut children: Vec<Box<PolTreeNode>> = Vec::new();
    for i in 0..values.len()
        invariant
            children@.len() == i,
            forall|j: int|
                0 <= j < i ==> {
                    let below = asking(
                        index,
                        smol_chars(*key),
                        values@[j].key(),
                        keys(policy_ids@),
                    );
                    &&& has_edge(*#[trigger] children@[j], smol_chars(*key), values@[j].key())
                    &&& !children@[j].wildcard
                    &&& is_tree(
                        *rank,
                        index,
                        *children@[j],
                        below,
                        keys(attrs@),
                        narrowed(index, below, keys(entities@)),
                    )
                },
    {
        let pv = asking_policies(key, values, i, policy_ids, index);
        let child = build_child(key, values[i].dup(), false, pv, attrs, entities, index, rank);
        children.push(Box::new(child));
    }
    children
}

/// The tree below a node on the edge of `key` and `value`, for the policies
/// `below` and those of the node's entities that they cover.
fn build_child<F: Fn(&Vec<usize>, usize) -> u64>(
    key: &SmolStr,
    value: Literal,
    wildcard: bool,
    below: Vec<PolicyID>,
    attrs: &Vec<SmolStr>,
    entities: &Vec<EntityUID>,
    index: &PolTreeIndex,
    rank: &F,
) -> (r: PolTreeNode)
    requires
        index.maps_wf(),
        forall|counts: &Vec<usize>, total: usize| call_requires(*rank, (counts, total)),
    ensures
        has_edge(r, smol_chars(*key), value.key()),
        r.wildcard == wildcard,
        is_tree(
            *rank,
            index,
            r,
            keys(below@),
            keys(attrs@),
            narrowed(index, keys(below@), keys(entities@)),
        ),
    decreases attrs@.len(), 1nat,
{
    let sv = retain_in(&index.get_sv_for_policies(&below), entities);
    let rest = dup_all(attrs);
    assert(keys(rest@).len() == keys(attrs@).len());
    let mut child = build_node(below, rest, sv, index, rank);
    child.attr_val = Some((key.clone(), value));
    child.wildcard = wildcard;
    child
}

/// The tree for the given policies and entities, split on `attrs`.
fn build_node<F: Fn(&Vec<usize>, usize) -> u64>(
    policy_ids: Vec<PolicyID>,
    attrs: Vec<SmolStr>,
    entities: Vec<EntityUID>,
    index: &PolTreeIndex,
    rank: &F,
) -> (r: PolTreeNode)
    requires
        index.maps_wf(),
        forall|counts: &Vec<usize>, total: usize| call_requires(*rank, (counts, total)),
    ensures
        r.attr_val is None,
        !r.wildcard,
        is_tree(*rank, index, r, keys(policy_ids@), keys(attrs@), keys(entities@)),
    decreases attrs@.len(), 0nat,
{
    let ghost given = keys(policy_ids@);
    let ghost all = keys(attrs@);
    let ghost sv = keys(entities@);
    let best = best_attribute(&policy_ids, &entities, index, &attrs, rank);
    let first = first_split(&attrs, &policy_ids, index);
    let key = match (best, first) {
        (_, None) => {
            return make_leaf(policy_ids, entities);
        },
        (Some(key), Some(_)) => key,
        (None, Some(i)) => attrs[i].clone(),
    };
    let ghost k = smol_chars(key);
    proof {
        lemma_choice(*rank, index, given, all, sv, k);
    }
    let values = index.values_for_attr_in_policies(&key, &policy_ids);
    let mut split: Vec<SmolStr> = Vec::new();
    split.push(key.clone());
    let rest = retain_not_in(&attrs, &split);
    proof {
        let p = |a: Seq<char>| !keys(split@).contains(a);
        assert forall|i: int| 0 <= i < all.len() implies p(#[trigger] all[i]) == other_than(k)(
            all[i],
        ) by {
            assert(keys(split@).len() == 1 && keys(split@)[0] == k);
        }
        lemma_filter_agree(all, p, other_than(k));
        assert(keys(rest@) == without(all, k));
        assert(keys(rest@).len() == rest@.len());
        assert(all.len() == attrs@.len());
    }
    let mut children = build_value_children(
        &key,
        &values,
        &policy_ids,
        &rest,
        &entities,
        index,
        rank,
    );
    let constrained = constrained_policies(&key, &values, &policy_ids, index);
    let wildcard_pv = retain_not_in(&policy_ids, &constrained);
    proof {
        lemma_filter_agree(
            given,
            |id: Seq<char>| !keys(constrained@).contains(id),
            |id: Seq<char>| !constrains(index, k, id),
        );
        assert(keys(wildcard_pv@) == indifferent(index, k, given));
        assert(keys(wildcard_pv@).len() == wildcard_pv@.len());
    }
    let ghost value_nodes = children@;
    if wildcard_pv.len() > 0 {
        let child = build_child(
            &key,
            Literal::String(smol_from("*")),
            true,
            wildcard_pv,
            &rest,
            &entities,
            index,
            rank,
        );
        children.push(Box::new(child));
    }
    let node = PolTreeNode {
        attr_val: None,
        split_attr: Some(key),
        children,
        sv: entities,
        pv: policy_ids,
        eval: None,
        wildcard: false,
    };
    proof {
        let n = value_children(index, node, k, given);
        assert(n == value_nodes.len());
        assert forall|i: int| 0 <= i < n implies {
            &&& has_edge(*#[trigger] node.children@[i], k, edge_value(*node.children@[i]))
            &&& edge_value(*node.children@[i]) == keys(values@)[i]
            &&& is_asked(index.pv_map@, k, edge_value(*node.children@[i]), given)
            &&& !node.children@[i].wildcard
        } by {
            assert(node.children@[i] == value_nodes[i]);
            assert(keys(values@).contains(keys(values@)[i]));
        }
        assert forall|i: int, j: int| 0 <= i < j < n implies edge_value(
            *#[trigger] node.children@[i],
        ) != edge_value(*#[trigger] node.children@[j]) by {
            assert(keys(values@)[i] != keys(values@)[j]);
        }
        assert forall|lit: LitKey| #[trigger]
            is_asked(index.pv_map@, k, lit, given) implies exists|i: int|
            0 <= i < n && edge_value(*#[trigger] node.children@[i]) == lit by {
            assert(keys(values@).contains(lit));
            let i = keys(values@).index_of(lit);
            assert(edge_value(*node.children@[i]) == lit);
        }
        assert(has_edges(index, node, k, given));
        assert forall|i: int| 0 <= i < node.children@.len() implies is_tree(
            *rank,
            index,
            *#[trigger] node.children@[i],
            given_below(index, node, k, given, i),
            without(all, k),
            narrowed(index, given_below(index, node, k, given, i), sv),
        ) by {
            if i < n {
                assert(node.children@[i] == value_nodes[i]);
            }
        }
    }
    node
}

/// The policies that ask for any of `values` under `key`.
fn constrained_policies(
    key: &SmolStr,
    values: &Vec<Literal>,
    policy_ids: &Vec<PolicyID>,
    index: &PolTreeIndex,
) -> (r: Vec<PolicyID>)
    requires
        index.maps_wf(),
        lists_asked(index, smol_chars(*key), keys(values@), keys(policy_ids@)),
    ensures
        forall|id: Seq<char>|
            keys(policy_ids@).contains(id) ==> (#[trigger] keys(r@).contains(id) <==> constrains(
                index,
                smol_chars(*key),
                id,
            )),
{
    let mut r: Vec<PolicyID> = Vec::new();
    let ghost k = smol_chars(*key);
    for i in 0..values.len()
        invariant
            index.maps_wf(),
            k == smol_chars(*key),
            forall|id: Seq<char>| #[trigger]
                keys(r@).contains(id) <==> exists|j: int|
                    0 <= j < i && asks(index.pv_map@, k, #[trigger] values@[j].key(), id),
    {
        let ghost before = keys(r@);
        let pv = index.get_pv(key, &values[i]);
        add_all(&mut r, pv);
        proof {
            lemma_union_onto(before, keys(pv@));
            assert forall|id: Seq<char>| #[trigger]
                keys(r@).contains(id) <==> exists|j: int|
                    0 <= j < i + 1 && asks(index.pv_map@, k, #[trigger] values@[j].key(), id) by {
                assert(before.contains(id) <==> exists|j: int|
                    0 <= j < i && asks(index.pv_map@, k, #[trigger] values@[j].key(), id));
                assert(keys(pv@).contains(id) <==> asks(
                    index.pv_map@,
                    k,
                    values@[i as int].key(),
                    id,
                ));
            }
        }
    }
    assert forall|id: Seq<char>| keys(policy_ids@).contains(id) implies (#[trigger] keys(
        r@,
    ).contains(id) <==> constrains(index, k, id)) by {
        if constrains(index, k, id) {
            let lit = choose|lit: LitKey| #[trigger] asks(index.pv_map@, k, lit, id);
            assert(is_asked(index.pv_map@, k, lit, keys(policy_ids@)));
            assert(keys(values@).contains(lit));
            let j = keys(values@).index_of(lit);
            assert(values@[j].key() == lit);
        }
    }
    r
}

impl PolTree {
    /// Builds the tree for the given policies and entities, split on `attrs`.
    pub fn build_n_poltree<F: Fn(&Vec<usize>, usize) -> u64>(
        policy_ids: Vec<PolicyID>,
        attrs: Vec<SmolStr>,
        entities: Vec<EntityUID>,
        index: &PolTreeIndex,
        rank: &F,
    ) -> (r: Self)
        requires
            index.maps_wf(),
            forall|counts: &Vec<usize>, total: usize| call_requires(*rank, (counts, total)),
        ensures
            r.root.attr_val is None,
            !r.root.wildcard,
            is_tree(*rank, index, r.root, keys(policy_ids@), keys(attrs@), keys(entities@)),
    {
        PolTree { root: build_node(policy_ids, attrs, entities, index, rank) }
    }
}

} // verus!
