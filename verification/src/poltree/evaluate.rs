//! The search of a tree for the policies that a request satisfies.

use vstd::prelude::*;

use crate::ast::{LitKey, Literal, PolicyID, Request};
use crate::authorizer::{Decision, Diagnostics};
use crate::entities::Entities;
use crate::keyed::{add_all, distinct, has_key, keys, lemma_union_onto, Keyed};
use crate::poltree::request_values::{request_values_for_attr, values_of};
use crate::poltree::tree::{edge_value, PolTree, PolTreeNode};
use crate::text::smol_chars;

verus! {

/// Whether the edge to `node` is that of a value, and of one of `vs`.
pub open spec fn matches_edge(node: PolTreeNode, vs: Seq<LitKey>) -> bool {
    !node.wildcard && node.attr_val is Some && vs.contains(edge_value(node))
}

/// The last of the nodes that is a wildcard.
pub open spec fn last_wildcard(nodes: Seq<Box<PolTreeNode>>) -> Option<int>
    decreases nodes.len(),
{
    if nodes.len() == 0 {
        None
    } else if nodes.last().wildcard {
        Some(nodes.len() - 1)
    } else {
        last_wildcard(nodes.drop_last())
    }
}

/// The first answer, or else the second.
pub open spec fn or_else<T>(a: Option<T>, b: Option<T>) -> Option<T> {
    if a is Some {
        a
    } else {
        b
    }
}

/// The policies of the leaf that a search from `node` ends at, if it finds one
/// that allows. At each node the search goes down every edge whose value is one
/// of those that `values` gives the node's key, one after the other, and if they
/// all come to nothing, down the wildcard.
pub open spec fn search(node: PolTreeNode, values: spec_fn(Seq<char>) -> Seq<LitKey>) -> Option<
    Seq<Seq<char>>,
>
    decreases node,
{
    if node.children@.len() == 0 {
        if node.eval == Some(Decision::Allow) {
            Some(keys(node.pv@))
        } else {
            None
        }
    } else {
        match node.split_attr {
            None => None,
            Some(key) => {
                let wildcard = match last_wildcard(node.children@) {
                    Some(i) => if 0 <= i < node.children@.len() {
                        search(*node.children@[i], values)
                    } else {
                        None
                    },
                    None => None,
                };
                or_else(
                    search_matching(node.children@, values(smol_chars(key)), values),
                    wildcard,
                )
            },
        }
    }
}

/// The first answer of the searches from those of the nodes whose edges have one
/// of the values `vs`.
pub open spec fn search_matching(
    nodes: Seq<Box<PolTreeNode>>,
    vs: Seq<LitKey>,
    values: spec_fn(Seq<char>) -> Seq<LitKey>,
) -> Option<Seq<Seq<char>>>
    decreases nodes,
{
    if nodes.len() == 0 {
        None
    } else {
        or_else(
            if matches_edge(*nodes[0], vs) {
                search(*nodes[0], values)
            } else {
                None
            },
            search_matching(nodes.drop_first(), vs, values),
        )
    }
}

/// The values that a request gives each key.
pub open spec fn request_values(request: &Request, entities: &Entities) -> spec_fn(
    Seq<char>,
) -> Seq<LitKey> {
    |key: Seq<char>| values_of(request, entities, key)
}

/// What the searches from the nodes of a stack come to, from its top down.
spec fn search_stack(
    stack: Seq<&PolTreeNode>,
    values: spec_fn(Seq<char>) -> Seq<LitKey>,
) -> Option<Seq<Seq<char>>>
    decreases stack.len(),
{
    if stack.len() == 0 {
        None
    } else {
        or_else(search(*stack.last(), values), search_stack(stack.drop_last(), values))
    }
}

/// A bound on the steps of a search from `node`.
spec fn weight(node: PolTreeNode) -> nat
    decreases node,
{
    1 + 2 * weight_of_all(node.children@)
}

spec fn weight_of_all(nodes: Seq<Box<PolTreeNode>>) -> nat
    decreases nodes,
{
    if nodes.len() == 0 {
        0
    } else {
        weight(*nodes[0]) + weight_of_all(nodes.drop_first())
    }
}

spec fn weight_of_stack(stack: Seq<&PolTreeNode>) -> nat
    decreases stack.len(),
{
    if stack.len() == 0 {
        0
    } else {
        weight(*stack.last()) + weight_of_stack(stack.drop_last())
    }
}

/// No node weighs more than all.
proof fn lemma_weight(nodes: Seq<Box<PolTreeNode>>, i: int)
    requires
        0 <= i < nodes.len(),
    ensures
        weight(*nodes[i]) <= weight_of_all(nodes),
    decreases nodes.len(),
{
    if i > 0 {
        assert(nodes.drop_first()[i - 1] == nodes[i]);
        lemma_weight(nodes.drop_first(), i - 1);
    }
}

/// The last wildcard is one of the nodes.
pub proof fn lemma_last_wildcard(nodes: Seq<Box<PolTreeNode>>)
    ensures
        match last_wildcard(nodes) {
            Some(i) => {
                &&& 0 <= i < nodes.len()
                &&& nodes[i].wildcard
                &&& forall|j: int| i < j < nodes.len() ==> !(#[trigger] nodes[j]).wildcard
            },
            None => forall|j: int| 0 <= j < nodes.len() ==> !(#[trigger] nodes[j]).wildcard,
        },
    decreases nodes.len(),
{
    if nodes.len() > 0 {
        let front = nodes.drop_last();
        lemma_last_wildcard(front);
        assert(forall|j: int| 0 <= j < front.len() ==> front[j] == nodes[j]);
    }
}

/// The first answer comes from a node whose edge matches; and there is one if a
/// search from any such node has one.
pub proof fn lemma_search_matching(
    nodes: Seq<Box<PolTreeNode>>,
    vs: Seq<LitKey>,
    values: spec_fn(Seq<char>) -> Seq<LitKey>,
)
    ensures
        search_matching(nodes, vs, values) is Some ==> exists|i: int|
            {
                &&& 0 <= i < nodes.len()
                &&& matches_edge(*#[trigger] nodes[i], vs)
                &&& search(*nodes[i], values) == search_matching(nodes, vs, values)
                &&& forall|j: int|
                    0 <= j < i && matches_edge(*#[trigger] nodes[j], vs) ==> search(
                        *nodes[j],
                        values,
                    ) is None
            },
        search_matching(nodes, vs, values) is None ==> forall|i: int|
            0 <= i < nodes.len() && matches_edge(*#[trigger] nodes[i], vs) ==> search(
                *nodes[i],
                values,
            ) is None,
    decreases nodes.len(),
{
    if nodes.len() > 0 {
        let rest = nodes.drop_first();
        lemma_search_matching(rest, vs, values);
        assert(forall|j: int| 0 <= j < rest.len() ==> rest[j] == nodes[j + 1]);
        if matches_edge(*nodes[0], vs) && search(*nodes[0], values) is Some {
            assert(search(*nodes[0], values) == search_matching(nodes, vs, values));
        } else if search_matching(rest, vs, values) is Some {
            let i = choose|i: int|
                {
                    &&& 0 <= i < rest.len()
                    &&& matches_edge(*#[trigger] rest[i], vs)
                    &&& search(*rest[i], values) == search_matching(rest, vs, values)
                    &&& forall|j: int|
                        0 <= j < i && matches_edge(*#[trigger] rest[j], vs) ==> search(
                            *rest[j],
                            values,
                        ) is None
                };
            assert(nodes[i + 1] == rest[i]);
            assert forall|j: int|
                0 <= j < i + 1 && matches_edge(*#[trigger] nodes[j], vs) implies search(
                *nodes[j],
                values,
            ) is None by {
                if j > 0 {
                    assert(rest[j - 1] == nodes[j]);
                }
            }
            assert(search(*nodes[i + 1], values) == search_matching(nodes, vs, values));
        } else {
            assert forall|i: int|
                0 <= i < nodes.len() && matches_edge(*#[trigger] nodes[i], vs) implies search(
                *nodes[i],
                values,
            ) is None by {
                if i > 0 {
                    assert(rest[i - 1] == nodes[i]);
                }
            }
        }
    }
}

impl PolTree {
    /// Decides an access request. The policies that it is allowed by are the
    /// reason for an allowance; a denial has none.
    pub fn evaluate_request(&self, request: &Request, entities: &Entities) -> (r: (
        Decision,
        Diagnostics,
    ))
        requires
            entities.wf(),
        ensures
            match search(self.root, request_values(request, entities)) {
                Some(found) => r.0 == Decision::Allow && keys(r.1.reason@) == distinct(found),
                None => r.0 == Decision::Deny && r.1.reason@.len() == 0,
            },
            r.0 == Decision::Allow <==> search(
                self.root,
                request_values(request, entities),
            ) is Some,
            search(self.root, request_values(request, entities)) matches Some(found) ==> {
                &&& keys(r.1.reason@).no_duplicates()
                &&& forall|id: Seq<char>| #[trigger]
                    keys(r.1.reason@).contains(id) <==> found.contains(id)
            },
            r.1.errors@.len() == 0,
    {
        let ghost values = request_values(request, entities);
        let ghost goal = search(self.root, values);
        let mut tracker: Vec<&PolTreeNode> = Vec::new();
        tracker.push(&self.root);
        assert(tracker@.drop_last() =~= Seq::empty());
        assert(search_stack(tracker@.drop_last(), values) is None);
        loop
            invariant
                entities.wf(),
                values == request_values(request, entities),
                goal == search(self.root, values),
                goal == search_stack(tracker@, values),
            decreases weight_of_stack(tracker@),
        {
            let ghost stacked = tracker@;
            let current: &PolTreeNode = match tracker.pop() {
                Some(node) => node,
                None => {
                    return (
                        Decision::Deny,
                        Diagnostics { reason: Vec::new(), errors: Vec::new() },
                    );
                },
            };
            let ghost above = tracker@;
            assert(above =~= stacked.drop_last());
            if current.children.len() == 0 {
                if let Some(Decision::Allow) = current.eval {
                    let mut reason: Vec<PolicyID> = Vec::new();
                    assert(keys(reason@) =~= Seq::empty());
                    add_all(&mut reason, &current.pv);
                    proof {
                        lemma_union_onto(Seq::empty(), keys(current.pv@));
                    }
                    return (Decision::Allow, Diagnostics { reason, errors: Vec::new() });
                }
            } else if let Some(split_attr) = &current.split_attr {
                let request_val = request_values_for_attr(request, entities, split_attr);
                let ghost vs = values(smol_chars(*split_attr));
                proof {
                    lemma_last_wildcard(current.children@);
                }
                if let Some(i) = wildcard_child(current) {
                    proof {
                        lemma_weight(current.children@, i as int);
                    }
                    tracker.push(&current.children[i]);
                    assert(tracker@.drop_last() =~= above);
                }
                let ghost with_wildcard = tracker@;
                push_matching(&mut tracker, current, &request_val);
                assert(search_stack(tracker@, values) == or_else(
                    search_matching(current.children@, vs, values),
                    search_stack(with_wildcard, values),
                ));
            }
        }
    }
}

/// The last child that is a wildcard.
fn wildcard_child(node: &PolTreeNode) -> (r: Option<usize>)
    ensures
        match r {
            Some(i) => last_wildcard(node.children@) == Some(i as int) && i < node.children@.len(),
            None => last_wildcard(node.children@) is None,
        },
{
    let mut found: Option<usize> = None;
    let ghost nodes = node.children@;
    for i in 0..node.children.len()
        invariant
            nodes == node.children@,
            match found {
                Some(k) => last_wildcard(nodes.take(i as int)) == Some(k as int) && k < i,
                None => last_wildcard(nodes.take(i as int)) is None,
            },
    {
        assert(nodes.take(i + 1).drop_last() =~= nodes.take(i as int));
        assert(nodes.take(i + 1).last() == nodes[i as int]);
        if node.children[i].wildcard {
            found = Some(i);
        }
    }
    assert(nodes.take(nodes.len() as int) =~= nodes);
    found
}

/// Puts the children whose edges have one of the given values onto a stack, the
/// first of them on top.
fn push_matching<'a>(
    stack: &mut Vec<&'a PolTreeNode>,
    node: &'a PolTreeNode,
    request_val: &Vec<Literal>,
)
    ensures
        forall|values: spec_fn(Seq<char>) -> Seq<LitKey>| #[trigger]
            search_stack(final(stack)@, values) == or_else(
                search_matching(node.children@, keys(request_val@), values),
                search_stack(old(stack)@, values),
            ),
        weight_of_stack(final(stack)@) <= weight_of_stack(old(stack)@) + weight_of_all(
            node.children@,
        ),
{
    let ghost nodes = node.children@;
    let ghost vs = keys(request_val@);
    let ghost before = stack@;
    let mut i: usize = node.children.len();
    assert(nodes.skip(nodes.len() as int) =~= Seq::empty());
    while i > 0
        invariant
            nodes == node.children@,
            vs == keys(request_val@),
            i <= nodes.len(),
            forall|values: spec_fn(Seq<char>) -> Seq<LitKey>| #[trigger]
                search_stack(stack@, values) == or_else(
                    search_matching(nodes.skip(i as int), vs, values),
                    search_stack(before, values),
                ),
            weight_of_stack(stack@) <= weight_of_stack(before) + weight_of_all(
                nodes.skip(i as int),
            ),
        decreases i,
    {
        i = i - 1;
        let child: &'a PolTreeNode = &node.children[i];
        let ghost below = stack@;
        assert(nodes.skip(i as int).drop_first() =~= nodes.skip(i + 1));
        assert(nodes.skip(i as int)[0] == nodes[i as int]);
        if !child.wildcard {
            if let Some((_, edge)) = &child.attr_val {
                if has_key(request_val, edge) {
                    stack.push(child);
                    assert(stack@.drop_last() =~= below);
                }
            }
        }
        assert forall|values: spec_fn(Seq<char>) -> Seq<LitKey>| #[trigger]
            search_stack(stack@, values) == or_else(
                search_matching(nodes.skip(i as int), vs, values),
                search_stack(before, values),
            ) by {
            assert(search_stack(below, values) == or_else(
                search_matching(nodes.skip(i + 1), vs, values),
                search_stack(before, values),
            ));
        }
    }
    assert(nodes.skip(0) =~= nodes);
}

} // verus!
