//! What a tree is made of, and which policies it leaves out, in terms of the
//! policies, the store and the index that it is built from.

use vstd::prelude::*;

use crate::ast::{ids, LitKey, Literal, Policy, UidKey};
use crate::authorizer::Decision;
use crate::entities::{uids, Entities, Entity};
use crate::keyed::{at, keys, lemma_union_onto, Keyed};
use crate::poltree::choice::{
    are_ranks, is_best, is_best_attribute, is_rank, is_split, same_numbers, split_keys,
    value_counts,
};
use crate::poltree::constraints::policy_indexed;
use crate::poltree::evaluate::{
    lemma_last_wildcard, lemma_search_matching, matches_edge, search, search_matching,
};
use crate::poltree::index::{asks, covered_by, is_asked, PolTreeIndex};
use crate::poltree::index_promises::{lemma_lists_policy, lists_policy};
use crate::poltree::laws::lemma_asked_splits;
use crate::poltree::meaning::{attr_is, is_simple, same_literal, same_uid};
use crate::poltree::policy_tree::{indexed, is_policy_tree, is_tree_by};
use crate::poltree::promises::{indexed_exactly_if_simple, lemma_attr};
use crate::poltree::residual::{residual, same_policies, selected};
use crate::poltree::scan::with_attr;
use crate::poltree::tree::{
    asks_otherwise, constrains, edge_value, given_below, has_edge, has_edges, indifferent, is_tree,
    lemma_choice, narrowed, same_node, value_children, PolTree, PolTreeNode,
};
use crate::seqs::{lemma_filter_agree, lemma_filter_contains, lemma_filter_no_duplicates};
use crate::text::{is_less_at, lemma_precedes_order, precedes_by_the_first_difference, smol_chars};

verus! {

/// The residual policies of a set are those that are not simple, and the policies
/// that its tree holds are those that are, each in the order of the set; a selection
/// by identifiers has the policies of those identifiers, in that order.
pub proof fn policies_are_parted_by_simplicity(ps: Seq<Policy>, chosen: Seq<Seq<char>>)
    ensures
        residual(ps) == ps.filter(|p: Policy| !is_simple(p)),
        indexed(ps) == ps.filter(|p: Policy| is_simple(p)),
        selected(ps, chosen) == ps.filter(|p: Policy| chosen.contains(smol_chars(p.id.0))),
        ids(ps).len() == ps.len(),
        forall|i: int| 0 <= i < ps.len() ==> #[trigger] ids(ps)[i] == smol_chars(ps[i].id.0),
{
    assert forall|i: int| 0 <= i < ps.len() implies policy_indexed(#[trigger] ps[i]) == is_simple(
        ps[i],
    ) by {
        indexed_exactly_if_simple(ps[i]);
    }
    lemma_filter_agree(ps, |p: Policy| !policy_indexed(p), |p: Policy| !is_simple(p));
    lemma_filter_agree(ps, |p: Policy| policy_indexed(p), |p: Policy| is_simple(p));
    lemma_filter_agree(
        ps,
        |p: Policy| chosen.contains(p.id.key()),
        |p: Policy| chosen.contains(smol_chars(p.id.0)),
    );
}

/// Policies that are the same have one identifier and one body.
pub proof fn same_policies_have_one_body(a: Seq<Policy>, b: Seq<Policy>)
    requires
        same_policies(a, b),
    ensures
        a.len() == b.len(),
        forall|i: int|
            0 <= i < a.len() ==> smol_chars((#[trigger] a[i]).id.0) == smol_chars(b[i].id.0)
                && a[i].template == b[i].template,
{
    assert forall|i: int| 0 <= i < a.len() implies smol_chars((#[trigger] a[i]).id.0) == smol_chars(
        b[i].id.0,
    ) && a[i].template == b[i].template by {
        assert(a[i].same_as(&b[i]));
    }
}

/// The root of the tree of a policy set has all simple policies of the set, in order,
/// and all entities of the store.
pub proof fn root_has_all_simple_policies<F: Fn(&Vec<usize>, usize) -> u64>(
    rank: F,
    tree: PolTree,
    ps: Seq<Policy>,
    store: &Entities,
)
    requires
        is_policy_tree(rank, tree, ps, store),
    ensures
        ({
            let simple = ps.filter(|p: Policy| is_simple(p));
            &&& tree.root.pv@.len() == simple.len()
            &&& forall|i: int|
                0 <= i < simple.len() ==> smol_chars((#[trigger] tree.root.pv@[i]).0)
                    == smol_chars(simple[i].id.0)
            &&& tree.root.sv@.len() == store.entities@.len()
            &&& forall|i: int|
                0 <= i < store.entities@.len() ==> same_uid(
                    #[trigger] tree.root.sv@[i],
                    store.entities@[i].uid,
                )
        }),
{
    let (index, attrs) = choose|index: PolTreeIndex, attrs: Seq<Seq<char>>|
        #[trigger] is_tree_by(rank, tree, ps, store, index, attrs);
    let simple = ps.filter(|p: Policy| is_simple(p));
    policies_are_parted_by_simplicity(ps, Seq::empty());
    policies_are_parted_by_simplicity(simple, Seq::empty());
    assert(keys(tree.root.pv@) == ids(simple));
    assert(keys(tree.root.pv@).len() == tree.root.pv@.len());
    assert(keys(tree.root.sv@).len() == tree.root.sv@.len());
    assert forall|i: int| 0 <= i < simple.len() implies smol_chars(
        (#[trigger] tree.root.pv@[i]).0,
    ) == smol_chars(simple[i].id.0) by {
        assert(keys(tree.root.pv@)[i] == ids(simple)[i]);
    }
    assert forall|i: int| 0 <= i < store.entities@.len() implies same_uid(
        #[trigger] tree.root.sv@[i],
        store.entities@[i].uid,
    ) by {
        assert(keys(tree.root.sv@)[i] == uids(store.entities@)[i]);
    }
}

/// A node is a leaf exactly if none of its policies asks for a value of any of the
/// keys; a leaf allows exactly if it has a policy, and no other node decides.
pub proof fn leaves_ask_for_nothing<F: Fn(&Vec<usize>, usize) -> u64>(
    rank: F,
    index: &PolTreeIndex,
    node: PolTreeNode,
    given: Seq<Seq<char>>,
    attrs: Seq<Seq<char>>,
    sv: Seq<UidKey>,
)
    requires
        is_tree(rank, index, node, given, attrs, sv),
    ensures
        keys(node.pv@) == given,
        keys(node.sv@) == sv,
        node.split_attr is None <==> forall|key: Seq<char>, lit: LitKey, id: Seq<char>|
            attrs.contains(key) && given.contains(id) ==> !#[trigger] asks(
                index.pv_map@,
                key,
                lit,
                id,
            ),
        node.split_attr is None <==> node.children@.len() == 0,
        node.split_attr is None <==> node.eval is Some,
        node.eval == Some(Decision::Allow) <==> node.split_attr is None && node.pv@.len() > 0,
{
    if split_keys(index, attrs, given).len() == 0 {
        assert forall|key: Seq<char>, lit: LitKey, id: Seq<char>|
            attrs.contains(key) && given.contains(id) implies !#[trigger] asks(
            index.pv_map@,
            key,
            lit,
            id,
        ) by {
            if asks(index.pv_map@, key, lit, id) {
                lemma_asked_splits(index, attrs, given, key, lit, id);
            }
        }
    } else {
        let k = smol_chars(node.split_attr->0);
        lemma_choice(rank, index, given, attrs, sv, k);
        let lit = choose|lit: LitKey| #[trigger] is_asked(index.pv_map@, k, lit, given);
        let id = choose|id: Seq<char>|
            given.contains(id) && #[trigger] asks(index.pv_map@, k, lit, id);
        assert(asks(index.pv_map@, k, lit, id));
        assert(is_asked(index.pv_map@, k, lit, given));
    }
}

/// Below a node that splits on a key stands, for each value that one of its policies
/// asks for, one child that is no wildcard, whose edge has the key and the value.
pub proof fn edges_are_of_what_is_asked<F: Fn(&Vec<usize>, usize) -> u64>(
    rank: F,
    index: &PolTreeIndex,
    node: PolTreeNode,
    given: Seq<Seq<char>>,
    attrs: Seq<Seq<char>>,
    sv: Seq<UidKey>,
    lit: LitKey,
)
    requires
        is_tree(rank, index, node, given, attrs, sv),
        node.split_attr is Some,
    ensures
        attrs.contains(smol_chars(node.split_attr->0)),
        (exists|id: Seq<char>|
            given.contains(id) && #[trigger] asks(
                index.pv_map@,
                smol_chars(node.split_attr->0),
                lit,
                id,
            )) <==> exists|i: int|
            0 <= i < node.children@.len() && leads_to(
                *#[trigger] node.children@[i],
                smol_chars(node.split_attr->0),
                lit,
            ),
        forall|i: int, j: int|
            0 <= i < node.children@.len() && 0 <= j < node.children@.len() && leads_to(
                *#[trigger] node.children@[i],
                smol_chars(node.split_attr->0),
                lit,
            ) && leads_to(
                *#[trigger] node.children@[j],
                smol_chars(node.split_attr->0),
                lit,
            ) ==> i == j,
{
    let k = smol_chars(node.split_attr->0);
    lemma_choice(rank, index, given, attrs, sv, k);
    assert(has_edges(index, node, k, given));
    lemma_edges(index, node, k, given, lit);
}

/// Whether the child stands for the value, and is no wildcard.
pub open spec fn leads_to(child: PolTreeNode, key: Seq<char>, lit: LitKey) -> bool {
    &&& !child.wildcard
    &&& child.attr_val matches Some((a, l)) && smol_chars(a) == key && l.key() == lit
}

proof fn lemma_edges(
    index: &PolTreeIndex,
    node: PolTreeNode,
    k: Seq<char>,
    given: Seq<Seq<char>>,
    lit: LitKey,
)
    requires
        has_edges(index, node, k, given),
    ensures
        (exists|id: Seq<char>|
            given.contains(id) && #[trigger] asks(index.pv_map@, k, lit, id)) <==> exists|i: int|
            0 <= i < node.children@.len() && leads_to(*#[trigger] node.children@[i], k, lit),
        forall|i: int, j: int|
            0 <= i < node.children@.len() && 0 <= j < node.children@.len() && leads_to(
                *#[trigger] node.children@[i],
                k,
                lit,
            ) && leads_to(*#[trigger] node.children@[j], k, lit) ==> i == j,
{
    let n = value_children(index, node, k, given);
    if exists|id: Seq<char>| given.contains(id) && #[trigger] asks(index.pv_map@, k, lit, id) {
        assert(is_asked(index.pv_map@, k, lit, given));
        let i = choose|i: int| 0 <= i < n && edge_value(*#[trigger] node.children@[i]) == lit;
        assert(has_edge(*node.children@[i], k, edge_value(*node.children@[i])));
        assert(leads_to(*node.children@[i], k, lit));
    }
    if exists|i: int|
        0 <= i < node.children@.len() && leads_to(*#[trigger] node.children@[i], k, lit) {
        let i = choose|i: int|
            0 <= i < node.children@.len() && leads_to(*#[trigger] node.children@[i], k, lit);
        assert(i < n);
        assert(is_asked(index.pv_map@, k, edge_value(*node.children@[i]), given));
    }
    assert forall|i: int, j: int|
        0 <= i < node.children@.len() && 0 <= j < node.children@.len() && leads_to(
            *#[trigger] node.children@[i],
            k,
            lit,
        ) && leads_to(*#[trigger] node.children@[j], k, lit) implies i == j by {
        assert(i < n && j < n);
    }
}

/// The policies of a child: below the edge of a value those of the node that ask for
/// the value and no other, below a wildcard those that ask for none; and there is a
/// wildcard exactly if one asks for none. A wildcard is labelled with a star.
pub proof fn children_take_the_policies_that_fit<F: Fn(&Vec<usize>, usize) -> u64>(
    rank: F,
    index: &PolTreeIndex,
    node: PolTreeNode,
    given: Seq<Seq<char>>,
    attrs: Seq<Seq<char>>,
    sv: Seq<UidKey>,
    id: Seq<char>,
)
    requires
        is_tree(rank, index, node, given, attrs, sv),
        node.split_attr is Some,
    ensures
        forall|i: int|
            0 <= i < node.children@.len() ==> (keys((#[trigger] node.children@[i]).pv@).contains(id)
                <==> given.contains(id) && takes(
                index,
                *node.children@[i],
                smol_chars(node.split_attr->0),
                id,
            )),
        given.contains(id) && (forall|lit: LitKey|
            !#[trigger] asks(index.pv_map@, smol_chars(node.split_attr->0), lit, id))
            ==> exists|i: int|
            0 <= i < node.children@.len() && (#[trigger] node.children@[i]).wildcard,
        forall|i: int|
            0 <= i < node.children@.len() && (#[trigger] node.children@[i]).wildcard ==> {
                &&& node.children@[i].pv@.len() > 0
                &&& node.children@[i].attr_val matches Some((a, Literal::String(s)))
                    && smol_chars(a) == smol_chars(node.split_attr->0) && smol_chars(s) == "*"@
            },
{
    reveal_with_fuel(is_tree, 2);
    let k = smol_chars(node.split_attr->0);
    let n = value_children(index, node, k, given);
    let p = |id: Seq<char>| !constrains(index, k, id);
    lemma_filter_contains(given, p);
    assert(indifferent(index, k, given) == given.filter(p));
    assert forall|i: int| 0 <= i < node.children@.len() implies (keys(
        (#[trigger] node.children@[i]).pv@,
    ).contains(id) <==> given.contains(id) && takes(index, *node.children@[i], k, id)) by {
        assert(keys(node.children@[i].pv@) == given_below(index, node, k, given, i));
        if i < n {
            let lit = edge_value(*node.children@[i]);
            assert(has_edge(*node.children@[i], k, lit));
            lemma_filter_contains(
                at(index.pv_map@, (k, lit)),
                |id: Seq<char>| given.contains(id) && !asks_otherwise(index, k, lit, id),
            );
            assert(asks(index.pv_map@, k, lit, id) <==> at(index.pv_map@, (k, lit)).contains(id));
        } else {
            assert(i == n);
        }
    }
    if given.contains(id) && !constrains(index, k, id) {
        assert(given.filter(p).contains(id));
        assert(node.children@[n].wildcard);
    }
    assert forall|i: int|
        0 <= i < node.children@.len() && (#[trigger] node.children@[i]).wildcard implies {
        &&& node.children@[i].pv@.len() > 0
        &&& node.children@[i].attr_val matches Some((a, Literal::String(s))) && smol_chars(a) == k
            && smol_chars(s) == "*"@
    } by {
        assert(i == n);
        assert(keys(node.children@[i].pv@) == given_below(index, node, k, given, i));
        assert(keys(node.children@[i].pv@).len() == node.children@[i].pv@.len());
    }
}

/// Whether a policy goes below the edge that leads to the child.
pub open spec fn takes(
    index: &PolTreeIndex,
    child: PolTreeNode,
    key: Seq<char>,
    id: Seq<char>,
) -> bool {
    if child.wildcard {
        forall|lit: LitKey| !#[trigger] asks(index.pv_map@, key, lit, id)
    } else {
        &&& asks(index.pv_map@, key, edge_value(child), id)
        &&& forall|lit: LitKey| #[trigger]
            asks(index.pv_map@, key, lit, id) ==> lit == edge_value(child)
    }
}

/// The entities of a child are those of its parent that a policy of the child covers,
/// each once.
pub proof fn entities_narrow_down<F: Fn(&Vec<usize>, usize) -> u64>(
    rank: F,
    index: &PolTreeIndex,
    node: PolTreeNode,
    given: Seq<Seq<char>>,
    attrs: Seq<Seq<char>>,
    sv: Seq<UidKey>,
    i: int,
    u: UidKey,
)
    requires
        is_tree(rank, index, node, given, attrs, sv),
        0 <= i < node.children@.len(),
    ensures
        keys(node.children@[i].sv@).contains(u) <==> keys(node.sv@).contains(u) && exists|
            id: Seq<char>,
        |
            keys(node.children@[i].pv@).contains(id) && #[trigger] at(
                index.policy_entities_map@,
                id,
            ).contains(u),
        keys(node.children@[i].sv@).no_duplicates(),
{
    reveal_with_fuel(is_tree, 2);
    let k = smol_chars(node.split_attr->0);
    let below = given_below(index, node, k, given, i);
    let p = |u: UidKey| sv.contains(u);
    assert(keys(node.children@[i].pv@) == below);
    assert(keys(node.children@[i].sv@) == narrowed(index, below, sv));
    assert(narrowed(index, below, sv) == covered_by(index.policy_entities_map@, below).filter(p));
    lemma_filter_contains(covered_by(index.policy_entities_map@, below), p);
    entities_of_policies_are_theirs(index.policy_entities_map@, below, u);
    lemma_filter_no_duplicates(covered_by(index.policy_entities_map@, below), p);
}

/// The entities of a list of policies are those that one of them covers, each once.
pub proof fn entities_of_policies_are_theirs(
    cover: Map<Seq<char>, Seq<UidKey>>,
    given: Seq<Seq<char>>,
    u: UidKey,
)
    ensures
        covered_by(cover, given).contains(u) <==> exists|id: Seq<char>|
            given.contains(id) && #[trigger] at(cover, id).contains(u),
        covered_by(cover, given).no_duplicates(),
    decreases given.len(),
{
    if given.len() > 0 {
        let front = given.drop_last();
        let last = given.last();
        entities_of_policies_are_theirs(cover, front, u);
        lemma_union_onto(covered_by(cover, front), at(cover, last));
        assert(given =~= front.push(last));
        if covered_by(cover, front).contains(u) {
            let id = choose|id: Seq<char>|
                front.contains(id) && #[trigger] at(cover, id).contains(u);
            assert(given[front.index_of(id)] == id);
        }
        if at(cover, last).contains(u) {
            assert(given[given.len() - 1] == last);
        }
        if exists|id: Seq<char>| given.contains(id) && #[trigger] at(cover, id).contains(u) {
            let id = choose|id: Seq<char>|
                given.contains(id) && #[trigger] at(cover, id).contains(u);
            let i = given.index_of(id);
            if i < front.len() {
                assert(front[i] == id);
            }
        }
    }
}

/// Whether a value is asked for is read off the list of policies under it.
pub proof fn asked_values_are_listed(
    index: &PolTreeIndex,
    key: Seq<char>,
    lit: Literal,
    given: Seq<Seq<char>>,
)
    requires
        index.pv_map.wf(),
    ensures
        is_asked(index.pv_map@, key, lit.key(), given) <==> exists|id: Seq<char>|
            given.contains(id) && #[trigger] lists_policy(index.pv_map, key, lit, id),
{
    assert forall|id: Seq<char>| #[trigger] lists_policy(index.pv_map, key, lit, id) <==> asks(
        index.pv_map@,
        key,
        lit.key(),
        id,
    ) by {
        lemma_lists_policy(index.pv_map, key, lit, id);
    }
    if is_asked(index.pv_map@, key, lit.key(), given) {
        let id = choose|id: Seq<char>|
            given.contains(id) && #[trigger] asks(index.pv_map@, key, lit.key(), id);
        assert(lists_policy(index.pv_map, key, lit, id));
    }
}

/// Whether an entity has the value of the attribute and is one of `sv`.
pub open spec fn is_counted(
    entities: &Entities,
    sv: Seq<UidKey>,
    key: Seq<char>,
    lit: Literal,
    e: Entity,
) -> bool {
    attr_is(entities, e.uid, key, lit) && sv.contains(e.uid.key())
}

/// The counts of a key: one for each value that is listed for it, and each is how
/// many entities of the store have that value of the attribute and are among `sv`.
pub proof fn counts_are_of_entities(
    index: &PolTreeIndex,
    sv: Seq<UidKey>,
    key: Seq<char>,
    j: int,
    lit: Literal,
)
    requires
        index.wf(),
        0 <= j < at(index.attr_values@, key).len(),
        at(index.attr_values@, key)[j] == lit.key(),
    ensures
        value_counts(index, sv, key).len() == at(index.attr_values@, key).len(),
        value_counts(index, sv, key)[j] == index.entities.entities@.filter(
            |e: Entity| is_counted(&index.entities, sv, key, lit, e),
        ).len(),
{
    let es = index.entities.entities@;
    let k = lit.key();
    assert(at(index.sv_map@, (key, k)) == with_attr(es, key, k));
    lemma_count(&index.entities, es.len() as int, sv, key, lit);
    assert(es.take(es.len() as int) =~= es);
}

proof fn lemma_count(entities: &Entities, n: int, sv: Seq<UidKey>, key: Seq<char>, lit: Literal)
    requires
        entities.wf(),
        0 <= n <= entities.entities@.len(),
    ensures
        with_attr(entities.entities@.take(n), key, lit.key()).filter(
            |u: UidKey| sv.contains(u),
        ).len() == entities.entities@.take(n).filter(
            |e: Entity| is_counted(entities, sv, key, lit, e),
        ).len(),
    decreases n,
{
    reveal(Seq::filter);
    if n > 0 {
        let es = entities.entities@;
        let e = es[n - 1];
        let p = |u: UidKey| sv.contains(u);
        let front = with_attr(es.take(n - 1), key, lit.key());
        lemma_count(entities, n - 1, sv, key, lit);
        assert(es.take(n).drop_last() =~= es.take(n - 1));
        assert(es.take(n).last() == e);
        lemma_attr(entities, e.uid, key);
        entities.lemma_attr_lit(n - 1, key);
        assert(attr_is(entities, e.uid, key, lit) <==> e.attr_lit(key) == Some(lit.key()));
        assert(front.push(e.uid.key()).drop_last() =~= front);
    } else {
        assert(entities.entities@.take(0) =~= Seq::empty());
    }
}

/// The keys that one of the policies asks for a value of, in order.
pub open spec fn asked_keys(
    index: &PolTreeIndex,
    attrs: Seq<Seq<char>>,
    given: Seq<Seq<char>>,
) -> Seq<Seq<char>> {
    attrs.filter(
        |a: Seq<char>|
            exists|lit: LitKey, id: Seq<char>|
                given.contains(id) && #[trigger] asks(index.pv_map@, a, lit, id),
    )
}

/// The key that a node splits on: of the keys that its policies ask for values of, in
/// order, it is the last of those of the greatest rank, or the first where no rank is
/// above zero. Each rank is one that `rank` gives for the counts of the key and the
/// number of the node's entities.
pub proof fn split_key_has_the_greatest_rank<F: Fn(&Vec<usize>, usize) -> u64>(
    rank: F,
    index: &PolTreeIndex,
    node: PolTreeNode,
    given: Seq<Seq<char>>,
    attrs: Seq<Seq<char>>,
    sv: Seq<UidKey>,
)
    requires
        is_tree(rank, index, node, given, attrs, sv),
        node.split_attr is Some,
    ensures
        exists|hs: Seq<u64>, b: int| #[trigger]
            is_greatest(
                rank,
                index,
                asked_keys(index, attrs, given),
                sv,
                hs,
                b,
                smol_chars(node.split_attr->0),
            ),
{
    let k = smol_chars(node.split_attr->0);
    let p = |a: Seq<char>| is_split(index, a, given);
    let q = |a: Seq<char>|
        exists|lit: LitKey, id: Seq<char>|
            given.contains(id) && #[trigger] asks(index.pv_map@, a, lit, id);
    assert forall|i: int| 0 <= i < attrs.len() implies p(#[trigger] attrs[i]) == q(attrs[i]) by {
        if p(attrs[i]) {
            let lit = choose|lit: LitKey| #[trigger]
                is_asked(index.pv_map@, attrs[i], lit, given);
            let id = choose|id: Seq<char>|
                given.contains(id) && #[trigger] asks(index.pv_map@, attrs[i], lit, id);
            assert(asks(index.pv_map@, attrs[i], lit, id));
        }
        if q(attrs[i]) {
            let (lit, id) = choose|lit: LitKey, id: Seq<char>|
                given.contains(id) && #[trigger] asks(index.pv_map@, attrs[i], lit, id);
            assert(is_asked(index.pv_map@, attrs[i], lit, given));
        }
    }
    lemma_filter_agree(attrs, p, q);
    let cands = split_keys(index, attrs, given);
    assert(cands == asked_keys(index, attrs, given));
    if is_best_attribute(rank, index, given, sv, attrs, Some(k)) {
        let hs = choose|hs: Seq<u64>|
            #[trigger] are_ranks(rank, index, sv, cands, hs) && is_best(cands, hs, Some(k));
        let b = choose|b: int|
            {
                &&& 0 <= b < cands.len()
                &&& #[trigger] cands[b] == k
                &&& hs[b] > 0
                &&& forall|j: int| 0 <= j < hs.len() ==> #[trigger] hs[j] <= hs[b]
                &&& forall|j: int| b < j < hs.len() ==> #[trigger] hs[j] < hs[b]
            };
        lemma_ranked(rank, index, cands, sv, hs);
        assert(is_greatest(rank, index, cands, sv, hs, b, k));
    } else {
        let hs = choose|hs: Seq<u64>|
            #[trigger] are_ranks(rank, index, sv, cands, hs) && is_best(cands, hs, None);
        lemma_ranked(rank, index, cands, sv, hs);
        assert(is_greatest(rank, index, cands, sv, hs, 0, k));
    }
}

/// Whether `hs` are ranks of the keys `cands`, and `key`, which stands at `b`, is the
/// last of those of the greatest, or the first where all are zero.
pub open spec fn is_greatest<F: Fn(&Vec<usize>, usize) -> u64>(
    rank: F,
    index: &PolTreeIndex,
    cands: Seq<Seq<char>>,
    sv: Seq<UidKey>,
    hs: Seq<u64>,
    b: int,
    key: Seq<char>,
) -> bool {
    &&& hs.len() == cands.len()
    &&& 0 <= b < cands.len()
    &&& cands[b] == key
    &&& forall|i: int|
        0 <= i < cands.len() ==> is_ranked(rank, index, #[trigger] cands[i], sv, hs[i])
    &&& forall|j: int| 0 <= j < hs.len() ==> #[trigger] hs[j] <= hs[b]
    &&& hs[b] > 0 ==> forall|j: int| b < j < hs.len() ==> #[trigger] hs[j] < hs[b]
    &&& hs[b] == 0 ==> b == 0
}

/// Whether `rank` gives `h` for the counts of the key and the number of entities.
pub open spec fn is_ranked<F: Fn(&Vec<usize>, usize) -> u64>(
    rank: F,
    index: &PolTreeIndex,
    key: Seq<char>,
    sv: Seq<UidKey>,
    h: u64,
) -> bool {
    exists|counts: &Vec<usize>, total: usize|
        {
            &&& total == sv.len()
            &&& counts@.len() == value_counts(index, sv, key).len()
            &&& forall|j: int|
                0 <= j < counts@.len() ==> #[trigger] counts@[j] == value_counts(
                    index,
                    sv,
                    key,
                )[j]
            &&& #[trigger] call_ensures(rank, (counts, total), h)
        }
}

proof fn lemma_ranked<F: Fn(&Vec<usize>, usize) -> u64>(
    rank: F,
    index: &PolTreeIndex,
    cands: Seq<Seq<char>>,
    sv: Seq<UidKey>,
    hs: Seq<u64>,
)
    requires
        are_ranks(rank, index, sv, cands, hs),
    ensures
        forall|i: int|
            0 <= i < cands.len() ==> is_ranked(rank, index, #[trigger] cands[i], sv, hs[i]),
{
    assert forall|i: int| 0 <= i < cands.len() implies is_ranked(
        rank,
        index,
        #[trigger] cands[i],
        sv,
        hs[i],
    ) by {
        assert(is_rank(rank, index, sv, cands[i], hs[i]));
        let (counts, total) = choose|counts: &Vec<usize>, total: usize|
            same_numbers(counts@, value_counts(index, sv, cands[i])) && total == sv.len()
                && #[trigger] call_ensures(rank, (counts, total), hs[i]);
        assert(call_ensures(rank, (counts, total), hs[i]));
    }
}

/// The keys that a tree of a policy set splits on, in the order in which they are
/// considered: those that values are listed for, each once, by the first code point
/// in which they differ.
pub proof fn keys_are_considered_in_order<F: Fn(&Vec<usize>, usize) -> u64>(
    rank: F,
    tree: PolTree,
    ps: Seq<Policy>,
    store: &Entities,
    index: PolTreeIndex,
    attrs: Seq<Seq<char>>,
    i: int,
    j: int,
)
    requires
        is_tree_by(rank, tree, ps, store, index, attrs),
        0 <= i < j < attrs.len(),
    ensures
        attrs[i] != attrs[j],
        (attrs[i].len() < attrs[j].len() && attrs[i] == attrs[j].take(attrs[i].len() as int))
            || exists|n: int| #[trigger] is_less_at(attrs[i], attrs[j], n),
{
    precedes_by_the_first_difference(attrs[i], attrs[j]);
    lemma_precedes_order(attrs[i], attrs[j], attrs[j]);
}

/// A leaf finds its policies exactly if it allows.
pub proof fn leaves_find_their_policies(
    node: PolTreeNode,
    values: spec_fn(Seq<char>) -> Seq<LitKey>,
)
    requires
        node.children@.len() == 0,
    ensures
        search(node, values) is Some <==> node.eval == Some(Decision::Allow),
        search(node, values) matches Some(found) ==> {
            &&& found.len() == node.pv@.len()
            &&& forall|i: int|
                0 <= i < found.len() ==> #[trigger] found[i] == smol_chars(node.pv@[i].0)
        },
{
}

/// Whether the edge to child `i` has one of the values that are given for the key of
/// the node, and the child is no wildcard.
pub open spec fn is_given(
    node: PolTreeNode,
    values: spec_fn(Seq<char>) -> Seq<LitKey>,
    i: int,
) -> bool {
    &&& 0 <= i < node.children@.len()
    &&& !node.children@[i].wildcard
    &&& match (node.split_attr, node.children@[i].attr_val) {
        (Some(key), Some((_, lit))) => values(smol_chars(key)).contains(lit.key()),
        _ => false,
    }
}

/// A search finds what it finds below the first edge of a given value below which it
/// finds something; if there is none, what it finds below the last wildcard; and if
/// there is no wildcard either, nothing.
pub proof fn search_takes_the_first_that_finds(
    node: PolTreeNode,
    values: spec_fn(Seq<char>) -> Seq<LitKey>,
    i: int,
)
    requires
        node.children@.len() > 0,
        node.split_attr is Some,
        0 <= i < node.children@.len(),
    ensures
        is_given(node, values, i) && search(*node.children@[i], values) is Some && (forall|j: int|
            0 <= j < i && #[trigger] is_given(node, values, j) ==> search(
                *node.children@[j],
                values,
            ) is None) ==> search(node, values) == search(*node.children@[i], values),
        (forall|j: int| #[trigger]
            is_given(node, values, j) ==> search(*node.children@[j], values) is None)
            && node.children@[i].wildcard && (forall|j: int|
            i < j < node.children@.len() ==> !(#[trigger] node.children@[j]).wildcard) ==> search(
            node,
            values,
        ) == search(*node.children@[i], values),
        (forall|j: int| #[trigger]
            is_given(node, values, j) ==> search(*node.children@[j], values) is None) && (forall|
            j: int,
        |
            0 <= j < node.children@.len() ==> !(#[trigger] node.children@[j]).wildcard)
            ==> search(node, values) is None,
{
    let key = node.split_attr->0;
    let vs = values(smol_chars(key));
    lemma_search_matching(node.children@, vs, values);
    lemma_last_wildcard(node.children@);
    assert forall|j: int| 0 <= j < node.children@.len() implies #[trigger] is_given(
        node,
        values,
        j,
    ) == matches_edge(*node.children@[j], vs) by {}
    let found = search_matching(node.children@, vs, values);
    if found is Some {
        let m = choose|m: int|
            {
                &&& 0 <= m < node.children@.len()
                &&& matches_edge(*#[trigger] node.children@[m], vs)
                &&& search(*node.children@[m], values) == found
                &&& forall|j: int|
                    0 <= j < m && matches_edge(*#[trigger] node.children@[j], vs) ==> search(
                        *node.children@[j],
                        values,
                    ) is None
            };
        assert(is_given(node, values, m));
        assert(is_given(node, values, i) == matches_edge(*node.children@[i], vs));
    } else {
        assert(is_given(node, values, i) == matches_edge(*node.children@[i], vs));
    }
}

/// Copies of trees are alike in every field of every node.
pub proof fn copies_are_alike(a: PolTreeNode, b: PolTreeNode)
    requires
        same_node(a, b),
    ensures
        a.attr_val is Some <==> b.attr_val is Some,
        a.attr_val matches Some((k, l)) ==> b.attr_val matches Some((n, m)) && smol_chars(k)
            == smol_chars(n) && same_literal(l, m),
        a.split_attr is Some <==> b.split_attr is Some,
        a.split_attr matches Some(k) ==> b.split_attr matches Some(n) && smol_chars(k)
            == smol_chars(n),
        a.sv@.len() == b.sv@.len(),
        forall|i: int| 0 <= i < a.sv@.len() ==> same_uid(#[trigger] a.sv@[i], b.sv@[i]),
        a.pv@.len() == b.pv@.len(),
        forall|i: int|
            0 <= i < a.pv@.len() ==> smol_chars((#[trigger] a.pv@[i]).0) == smol_chars(b.pv@[i].0),
        a.eval == b.eval,
        a.wildcard == b.wildcard,
        a.children@.len() == b.children@.len(),
        forall|i: int|
            0 <= i < a.children@.len() ==> same_node(*#[trigger] a.children@[i], *b.children@[i]),
{
    assert(keys(a.sv@).len() == a.sv@.len() && keys(b.sv@).len() == b.sv@.len());
    assert(keys(a.pv@).len() == a.pv@.len() && keys(b.pv@).len() == b.pv@.len());
    assert forall|i: int| 0 <= i < a.sv@.len() implies same_uid(#[trigger] a.sv@[i], b.sv@[i]) by {
        assert(keys(a.sv@)[i] == keys(b.sv@)[i]);
    }
    assert forall|i: int| 0 <= i < a.pv@.len() implies smol_chars((#[trigger] a.pv@[i]).0)
        == smol_chars(b.pv@[i].0) by {
        assert(keys(a.pv@)[i] == keys(b.pv@)[i]);
    }
}

} // verus!
