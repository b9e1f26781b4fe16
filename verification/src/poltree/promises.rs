//! What the library does, in terms of the policies, requests and stores that it is
//! given: how values are read, which policies are indexed, what the index holds,
//! and how a tree decides.

use smol_str::SmolStr;
use vstd::prelude::*;

use crate::ast::{
    ids, lookup, ActionConstraint, BinaryOp, Context, EntityReference, EntityType, EntityUID,
    EntityUIDEntry, Expr, LitKey, Literal, PartialValue, Policy, PolicyID,
    PrincipalOrResourceConstraint, Request, UidKey, Value, Var,
};
use crate::entities::{uids, Entities};
use crate::keyed::{keys, Keyed};
use crate::poltree::choice::split_keys;
use crate::poltree::constraints::{
    action_atoms, attr_atom, condition_atoms, condition_captured, equation_atom,
    optional_condition_atoms, policy_atoms, policy_indexed, scope_atoms,
};
use crate::poltree::evaluate::{request_values, search};
use crate::poltree::index::{asks, PolTreeIndex};
use crate::poltree::keys::{
    context_key, context_key_roundtrip, scope_keys_distinct, side_key, side_key_roundtrip,
    SCOPE_ACTION_ATTR, SCOPE_PRINCIPAL_ATTR, SCOPE_RESOURCE_ATTR,
};
use crate::poltree::laws::{
    allows_only_what_policies_permit, decides_as_the_policies_do, lemma_asked_keys,
    lemma_asked_splits, lemma_asks, lemma_found_below, lemma_given_below, lemma_indexed_ids,
    lemma_without, search_finds_met_policies,
};
use crate::poltree::meaning::{
    attr_is, condition_demands, conjuncts, context_is, demands, distinct_policies, entry_attr_is,
    entry_is, equates, is_equation, is_simple, is_simple_scope, is_stored, is_true, lets_in,
    permits, same_literal, same_uid, scope_demands, var_attr_is, Elsewhere,
};
use crate::poltree::policy_tree::{indexed, is_policy_tree, is_tree_by};
use crate::poltree::request_values::{context_lit, side_lit, values_of};
use crate::poltree::semantics::{
    attr_value, condition_holds, lemma_values, policy_holds, scope_holds,
};
use crate::poltree::tree::{
    asks_otherwise, constrains, edge_value, given_below, is_tree, lemma_choice, narrowed,
    value_children, without, PolTree, PolTreeNode,
};
use crate::seqs::{lemma_filter_contains, option_seq};
use crate::text::smol_chars;

verus! {

/// Literals are told apart by their kinds and values, entities by their types and
/// identifiers, and names by their characters.
pub proof fn keys_tell_apart(
    a: Literal,
    b: Literal,
    u: EntityUID,
    v: EntityUID,
    p: PolicyID,
    q: PolicyID,
    s: EntityType,
    t: EntityType,
)
    ensures
        a.key() == b.key() <==> same_literal(a, b),
        u.key() == v.key() <==> same_uid(u, v),
        p.key() == q.key() <==> smol_chars(p.0) == smol_chars(q.0),
        s.key() == t.key() <==> smol_chars(s.0) == smol_chars(t.0),
{
}

/// The keys of a list are those of its elements, one for one.
pub proof fn keys_are_of_elements<T: Keyed>(s: Seq<T>)
    ensures
        keys(s).len() == s.len(),
        forall|i: int| 0 <= i < s.len() ==> #[trigger] keys(s)[i] == s[i].key(),
{
}

/// Looking a name up gives the value of its first entry, and nothing exactly if it
/// has none.
pub proof fn lookup_gives_first_entry<T>(entries: Seq<(SmolStr, T)>, name: Seq<char>)
    ensures
        forall|value: T| #[trigger]
            entry_is(entries, name, value) <==> lookup(entries, name) == Some(value),
        lookup(entries, name) is None <==> forall|i: int|
            0 <= i < entries.len() ==> smol_chars((#[trigger] entries[i]).0) != name,
    decreases entries.len(),
{
    if entries.len() > 0 {
        let rest = entries.drop_first();
        lookup_gives_first_entry(rest, name);
        if smol_chars(entries[0].0) == name {
            assert forall|value: T| #[trigger]
                entry_is(entries, name, value) <==> lookup(entries, name) == Some(value) by {
                if lookup(entries, name) == Some(value) {
                    assert(entries[0].1 == value);
                }
            }
        } else {
            assert forall|value: T| #[trigger]
                entry_is(entries, name, value) <==> lookup(entries, name) == Some(value) by {
                assert(entry_is(rest, name, value) <==> lookup(rest, name) == Some(value));
                if entry_is(entries, name, value) {
                    let j = choose|j: int|
                        {
                            &&& 0 <= j < entries.len()
                            &&& smol_chars((#[trigger] entries[j]).0) == name
                            &&& entries[j].1 == value
                            &&& forall|i: int|
                                0 <= i < j ==> smol_chars((#[trigger] entries[i]).0) != name
                        };
                    assert(rest[j - 1] == entries[j]);
                    assert forall|i: int| 0 <= i < j - 1 implies smol_chars(
                        (#[trigger] rest[i]).0,
                    ) != name by {
                        assert(rest[i] == entries[i + 1]);
                    }
                    assert(entry_is(rest, name, value));
                }
                if entry_is(rest, name, value) {
                    let j = choose|j: int|
                        {
                            &&& 0 <= j < rest.len()
                            &&& smol_chars((#[trigger] rest[j]).0) == name
                            &&& rest[j].1 == value
                            &&& forall|i: int|
                                0 <= i < j ==> smol_chars((#[trigger] rest[i]).0) != name
                        };
                    assert(rest[j] == entries[j + 1]);
                    assert forall|i: int| 0 <= i < j + 1 implies smol_chars(
                        (#[trigger] entries[i]).0,
                    ) != name by {
                        if i > 0 {
                            assert(rest[i - 1] == entries[i]);
                        }
                    }
                }
            }
            if lookup(entries, name) is None {
                assert forall|i: int| 0 <= i < entries.len() implies smol_chars(
                    (#[trigger] entries[i]).0,
                ) != name by {
                    if i > 0 {
                        assert(rest[i - 1] == entries[i]);
                    }
                }
            } else {
                let j = choose|j: int|
                    0 <= j < rest.len() && smol_chars((#[trigger] rest[j]).0) == name;
                assert(entries[j + 1] == rest[j]);
            }
        }
    }
}

/// What the store says of an entity's attribute is what stands in the entity.
pub proof fn lemma_attr(entities: &Entities, uid: EntityUID, name: Seq<char>)
    requires
        entities.wf(),
    ensures
        entities.has(uid.key()) <==> is_stored(entities, uid),
        forall|lit: Literal| #[trigger]
            attr_is(entities, uid, name, lit) <==> entities.attr_lit(uid.key(), name) == Some(
                lit.key(),
            ),
        entities.attr_lit(uid.key(), name) matches Some(k) ==> exists|lit: Literal|
            lit.key() == k && #[trigger] attr_is(entities, uid, name, lit),
{
    let es = entities.entities@;
    if entities.has(uid.key()) {
        let i = uids(es).index_of(uid.key());
        assert(uids(es)[i] == uid.key());
        assert(same_uid(es[i].uid, uid));
    }
    if is_stored(entities, uid) {
        let i = choose|i: int| 0 <= i < es.len() && same_uid((#[trigger] es[i]).uid, uid);
        assert(uids(es)[i] == uid.key());
    }
    assert forall|lit: Literal| #[trigger]
        attr_is(entities, uid, name, lit) implies entities.attr_lit(uid.key(), name) == Some(
        lit.key(),
    ) by {
        let (i, l) = choose|i: int, l: Literal|
            {
                &&& 0 <= i < es.len()
                &&& same_uid((#[trigger] es[i]).uid, uid)
                &&& #[trigger] same_literal(l, lit)
                &&& entry_is(es[i].attrs@, name, PartialValue::Value(Value::Lit(l)))
            };
        lookup_gives_first_entry(es[i].attrs@, name);
        entities.lemma_attr_lit(i, name);
    }
    if entities.attr_lit(uid.key(), name) is Some {
        let i = uids(es).index_of(uid.key());
        assert(uids(es)[i] == uid.key());
        lookup_gives_first_entry(es[i].attrs@, name);
        let value = lookup(es[i].attrs@, name)->0;
        assert(entry_is(es[i].attrs@, name, value));
        match value {
            PartialValue::Value(Value::Lit(l)) => {
                assert forall|lit: Literal| lit.key() == l.key() implies #[trigger] attr_is(
                    entities,
                    uid,
                    name,
                    lit,
                ) by {
                    assert(same_uid(es[i].uid, uid));
                    assert(same_literal(l, lit));
                }
                assert(attr_is(entities, uid, name, l));
            },
            _ => {},
        }
    }
}

/// An attribute has one value at most.
pub proof fn attribute_has_one_value(
    entities: &Entities,
    uid: EntityUID,
    name: Seq<char>,
    a: Literal,
    b: Literal,
)
    requires
        entities.wf(),
        attr_is(entities, uid, name, a),
        attr_is(entities, uid, name, b),
    ensures
        same_literal(a, b),
{
    lemma_attr(entities, uid, name);
}

proof fn lemma_side(
    request: &Request,
    entities: &Entities,
    is_principal: bool,
    entry: EntityUIDEntry,
    name: Seq<char>,
)
    requires
        entities.wf(),
        is_principal ==> entry == request.principal,
        !is_principal ==> entry == request.resource,
    ensures
        forall|lit: Literal| #[trigger]
            entry_attr_is(entities, entry, name, lit) <==> side_lit(
                request,
                entities,
                is_principal,
                name,
            ) == Some(lit.key()),
        side_lit(request, entities, is_principal, name) matches Some(k) ==> exists|lit: Literal|
            lit.key() == k && #[trigger] entry_attr_is(entities, entry, name, lit),
{
    let known = side_lit(request, entities, is_principal, name);
    match entry {
        EntityUIDEntry::Known { euid } => {
            lemma_attr(entities, euid, name);
            assert forall|lit: Literal| #[trigger]
                entry_attr_is(entities, entry, name, lit) <==> known == Some(lit.key()) by {
                assert(attr_is(entities, euid, name, lit) <==> entities.attr_lit(euid.key(), name)
                    == Some(lit.key()));
            }
            if known is Some {
                let lit = choose|lit: Literal|
                    lit.key() == known->0 && #[trigger] attr_is(entities, euid, name, lit);
                assert(entry_attr_is(entities, entry, name, lit));
            }
        },
        EntityUIDEntry::Unknown { .. } => {},
    }
}

proof fn lemma_context(request: &Request, name: Seq<char>)
    ensures
        forall|lit: Literal| #[trigger]
            context_is(request, name, lit) <==> context_lit(request, name) == Some(lit.key()),
        context_lit(request, name) matches Some(k) ==> exists|lit: Literal|
            lit.key() == k && #[trigger] context_is(request, name, lit),
{
    match request.context {
        Some(Context::Value(map)) => {
            lookup_gives_first_entry(map@, name);
            assert forall|lit: Literal| #[trigger]
                context_is(request, name, lit) <==> context_lit(request, name) == Some(
                lit.key(),
            ) by {
                if context_is(request, name, lit) {
                    let l = choose|l: Literal| #[trigger]
                        same_literal(l, lit) && entry_is(map@, name, Value::Lit(l));
                    assert(lookup(map@, name) == Some(Value::Lit(l)));
                }
                if context_lit(request, name) == Some(lit.key()) {
                    match lookup(map@, name)->0 {
                        Value::Lit(l) => {
                            assert(entry_is(map@, name, Value::Lit(l)));
                            assert(same_literal(l, lit));
                        },
                        _ => {},
                    }
                }
            }
            if context_lit(request, name) is Some {
                match lookup(map@, name)->0 {
                    Value::Lit(l) => {
                        assert(context_is(request, name, l));
                    },
                    _ => {},
                }
            }
        },
        _ => {},
    }
}

/// The values of a key that stands for an attribute of the principal, the resource
/// or the context: none or one, and a literal is the one exactly if that attribute
/// of that entity, or of the context, is known to be this scalar.
pub proof fn attribute_keys_give_own_attribute(
    request: &Request,
    entities: &Entities,
    name: Seq<char>,
)
    requires
        entities.wf(),
    ensures
        values_of(request, entities, "__principal_attr_"@ + name).len() <= 1,
        values_of(request, entities, "__resource_attr_"@ + name).len() <= 1,
        values_of(request, entities, "__context_"@ + name).len() <= 1,
        forall|k: LitKey| #[trigger]
            values_of(request, entities, "__principal_attr_"@ + name).contains(k) <==> exists|
                lit: Literal,
            |
                lit.key() == k && #[trigger] entry_attr_is(entities, request.principal, name, lit),
        forall|k: LitKey| #[trigger]
            values_of(request, entities, "__resource_attr_"@ + name).contains(k) <==> exists|
                lit: Literal,
            |
                lit.key() == k && #[trigger] entry_attr_is(entities, request.resource, name, lit),
        forall|k: LitKey| #[trigger]
            values_of(request, entities, "__context_"@ + name).contains(k) <==> exists|
                lit: Literal,
            |
                lit.key() == k && #[trigger] context_is(request, name, lit),
{
    lemma_values(request, entities);
    lemma_side(request, entities, true, request.principal, name);
    lemma_side(request, entities, false, request.resource, name);
    lemma_context(request, name);
    assert("__principal_attr_"@ + name == side_key(true, name));
    assert("__resource_attr_"@ + name == side_key(false, name));
    assert("__context_"@ + name == context_key(name));
    assert forall|o: Option<LitKey>, l: LitKey| #[trigger]
        option_seq(o).contains(l) <==> o == Some(l) by {
        if o is Some {
            assert(option_seq(o)[0] == o->0);
        }
    }
    let p = side_lit(request, entities, true, name);
    let r = side_lit(request, entities, false, name);
    let c = context_lit(request, name);
    assert(values_of(request, entities, side_key(true, name)) == option_seq(p));
    assert(values_of(request, entities, side_key(false, name)) == option_seq(r));
    assert(values_of(request, entities, context_key(name)) == option_seq(c));
}

/// The values of the keys of scopes: the entity itself and the name of its type for
/// the principal and the resource, the action itself for the action, none for what
/// is not known; and of any other key that stands for no attribute, none.
pub proof fn scope_keys_give_own_entity(request: &Request, entities: &Entities)
    ensures
        values_of(request, entities, "__scope_principal"@) == match request.principal {
            EntityUIDEntry::Known { euid } => seq![
                Literal::EntityUID(euid).key(),
                Literal::String(euid.ty.0).key(),
            ],
            EntityUIDEntry::Unknown { .. } => Seq::empty(),
        },
        values_of(request, entities, "__scope_resource"@) == match request.resource {
            EntityUIDEntry::Known { euid } => seq![
                Literal::EntityUID(euid).key(),
                Literal::String(euid.ty.0).key(),
            ],
            EntityUIDEntry::Unknown { .. } => Seq::empty(),
        },
        values_of(request, entities, "__scope_action"@) == match request.action {
            EntityUIDEntry::Known { euid } => seq![Literal::EntityUID(euid).key()],
            EntityUIDEntry::Unknown { .. } => Seq::empty(),
        },
        forall|key: Seq<char>|
            {
                &&& key != "__scope_principal"@
                &&& key != "__scope_resource"@
                &&& key != "__scope_action"@
                &&& !"__principal_attr_"@.is_prefix_of(key)
                &&& !"__resource_attr_"@.is_prefix_of(key)
                &&& !"__context_"@.is_prefix_of(key)
            } ==> (#[trigger] values_of(request, entities, key)).len() == 0,
{
    lemma_values(request, entities);
}

/// The values of the principal's keys depend on the principal's entity alone, those
/// of the resource's keys on the resource's alone, and those of the context's keys
/// on the context alone: two requests that agree in it, over stores that agree on
/// its attribute, give them the same values, whatever else differs.
pub proof fn values_ignore_all_else(
    request: &Request,
    entities: &Entities,
    other: &Request,
    store: &Entities,
    name: Seq<char>,
)
    requires
        entities.wf(),
        store.wf(),
    ensures
        (forall|lit: Literal|
            entry_attr_is(entities, request.principal, name, lit) <==> entry_attr_is(
                store,
                other.principal,
                name,
                lit,
            )) ==> values_of(request, entities, "__principal_attr_"@ + name) == values_of(
            other,
            store,
            "__principal_attr_"@ + name,
        ),
        (forall|lit: Literal|
            entry_attr_is(entities, request.resource, name, lit) <==> entry_attr_is(
                store,
                other.resource,
                name,
                lit,
            )) ==> values_of(request, entities, "__resource_attr_"@ + name) == values_of(
            other,
            store,
            "__resource_attr_"@ + name,
        ),
        request.context == other.context ==> values_of(request, entities, "__context_"@ + name)
            == values_of(other, store, "__context_"@ + name),
{
    lemma_values(request, entities);
    lemma_values(other, store);
    lemma_side(request, entities, true, request.principal, name);
    lemma_side(request, entities, false, request.resource, name);
    lemma_side(other, store, true, other.principal, name);
    lemma_side(other, store, false, other.resource, name);
    assert("__principal_attr_"@ + name == side_key(true, name));
    assert("__resource_attr_"@ + name == side_key(false, name));
    assert("__context_"@ + name == context_key(name));
    assert(values_of(request, entities, side_key(true, name)) == option_seq(
        side_lit(request, entities, true, name),
    ));
    assert(values_of(other, store, side_key(true, name)) == option_seq(
        side_lit(other, store, true, name),
    ));
    assert(values_of(request, entities, side_key(false, name)) == option_seq(
        side_lit(request, entities, false, name),
    ));
    assert(values_of(other, store, side_key(false, name)) == option_seq(
        side_lit(other, store, false, name),
    ));
}

/// What an equation asks is what its two sides say.
proof fn lemma_equation(a: Expr, b: Expr, e: Expr)
    requires
        e matches Expr::BinaryApp { op, arg1, arg2 } && op == BinaryOp::Eq && *arg1 == a && *arg2
            == b,
    ensures
        equation_atom(a, b) is Some <==> is_equation(e),
        forall|name: Seq<char>, lit: Literal| #[trigger]
            equates(e, Var::Principal, name, lit) <==> equation_atom(a, b) == Some(
                ("__principal_attr_"@ + name, lit.key()),
            ),
        forall|name: Seq<char>, lit: Literal| #[trigger]
            equates(e, Var::Resource, name, lit) <==> equation_atom(a, b) == Some(
                ("__resource_attr_"@ + name, lit.key()),
            ),
        forall|name: Seq<char>, lit: Literal| #[trigger]
            equates(e, Var::Context, name, lit) <==> equation_atom(a, b) == Some(
                ("__context_"@ + name, lit.key()),
            ),
        equation_atom(a, b) matches Some(atom) ==> exists|var: Var, name: Seq<char>, lit: Literal|
            {
                &&& #[trigger] equates(e, var, name, lit)
                &&& var != Var::Action
                &&& atom.1 == lit.key()
            },
{
    assert forall|x: Seq<char>, y: Seq<char>|
        #[trigger] side_key(true, x) == #[trigger] side_key(true, y) implies x == y by {
        side_key_roundtrip(true, x);
        side_key_roundtrip(true, y);
    }
    assert forall|x: Seq<char>, y: Seq<char>|
        #[trigger] side_key(false, x) == #[trigger] side_key(false, y) implies x == y by {
        side_key_roundtrip(false, x);
        side_key_roundtrip(false, y);
    }
    assert forall|x: Seq<char>, y: Seq<char>|
        #[trigger] context_key(x) == #[trigger] context_key(y) implies x == y by {
        context_key_roundtrip(x);
        context_key_roundtrip(y);
    }
    assert forall|x: Seq<char>, y: Seq<char>|
        {
            &&& #[trigger] side_key(true, x) != #[trigger] side_key(false, y)
            &&& side_key(true, x) != context_key(y)
            &&& side_key(false, y) != context_key(x)
        } by {
        side_key_roundtrip(true, x);
        side_key_roundtrip(false, y);
        context_key_roundtrip(x);
        context_key_roundtrip(y);
    }
    assert forall|x: Seq<char>|
        {
            &&& "__principal_attr_"@ + x == #[trigger] side_key(true, x)
            &&& "__resource_attr_"@ + x == side_key(false, x)
            &&& "__context_"@ + x == context_key(x)
        } by {}
    match (a, b) {
        (Expr::GetAttr { expr, attr }, Expr::Lit(l)) => {
            lemma_attr_equation(*expr, smol_chars(attr), l, e);
        },
        (Expr::Lit(l), Expr::GetAttr { expr, attr }) => {
            lemma_attr_equation(*expr, smol_chars(attr), l, e);
        },
        _ => {},
    }
    assert forall|name: Seq<char>, lit: Literal| #[trigger]
        equates(e, Var::Principal, name, lit) <==> equation_atom(a, b) == Some(
            ("__principal_attr_"@ + name, lit.key()),
        ) by {
        assert("__principal_attr_"@ + name == side_key(true, name));
        side_key_roundtrip(true, name);
    }
    assert forall|name: Seq<char>, lit: Literal| #[trigger]
        equates(e, Var::Resource, name, lit) <==> equation_atom(a, b) == Some(
            ("__resource_attr_"@ + name, lit.key()),
        ) by {
        assert("__resource_attr_"@ + name == side_key(false, name));
        side_key_roundtrip(false, name);
    }
    assert forall|name: Seq<char>, lit: Literal| #[trigger]
        equates(e, Var::Context, name, lit) <==> equation_atom(a, b) == Some(
            ("__context_"@ + name, lit.key()),
        ) by {
        assert("__context_"@ + name == context_key(name));
        context_key_roundtrip(name);
    }
}

proof fn lemma_attr_equation(base: Expr, attr: Seq<char>, l: Literal, e: Expr)
    requires
        forall|var: Var, name: Seq<char>, lit: Literal| #[trigger]
            equates(e, var, name, lit) <==> base == Expr::Var(var) && attr == name
                && same_literal(l, lit),
    ensures
        attr_atom(base, attr, l.key()) is Some <==> is_equation(e),
        attr_atom(base, attr, l.key()) is Some ==> exists|var: Var|
            base == Expr::Var(var) && var != Var::Action && #[trigger] equates(e, var, attr, l),
{
    if attr_atom(base, attr, l.key()) is Some {
        match base {
            Expr::Var(var) => {
                assert(equates(e, var, attr, l));
            },
            _ => {},
        }
    }
    if is_equation(e) {
        let (var, name, lit) = choose|var: Var, name: Seq<char>, lit: Literal| #[trigger]
            equates(e, var, name, lit) && var != Var::Action;
        match var {
            Var::Principal => {},
            Var::Resource => {},
            Var::Context => {},
            Var::Action => {},
        }
    }
}

/// The conjuncts of a condition that are equations, in order.
pub open spec fn equations(e: Expr) -> Seq<Expr> {
    conjuncts(e).filter(|c: Expr| is_equation(c))
}

/// Whether `atom` is what the equation `c` asks, under the key that stands for the
/// attribute.
pub open spec fn is_atom_of(c: Expr, atom: (Seq<char>, LitKey)) -> bool {
    &&& forall|name: Seq<char>, lit: Literal| #[trigger]
        equates(c, Var::Principal, name, lit) <==> atom == (
            "__principal_attr_"@ + name,
            lit.key(),
        )
    &&& forall|name: Seq<char>, lit: Literal| #[trigger]
        equates(c, Var::Resource, name, lit) <==> atom == ("__resource_attr_"@ + name, lit.key())
    &&& forall|name: Seq<char>, lit: Literal| #[trigger]
        equates(c, Var::Context, name, lit) <==> atom == ("__context_"@ + name, lit.key())
}

/// What is collected of a condition are its equations, one for one and in order,
/// whatever else the condition is made of; and they are all of it exactly if each
/// conjunct is an equation.
pub proof fn collects_exactly_the_equations(e: Expr)
    ensures
        condition_atoms(e).len() == equations(e).len(),
        forall|i: int|
            0 <= i < equations(e).len() ==> is_atom_of(
                #[trigger] equations(e)[i],
                condition_atoms(e)[i],
            ),
        condition_captured(e) <==> forall|i: int|
            0 <= i < conjuncts(e).len() ==> is_equation(#[trigger] conjuncts(e)[i]),
    decreases e,
{
    reveal(Seq::filter);
    let p = |c: Expr| is_equation(c);
    match e {
        Expr::And { left, right } => {
            collects_exactly_the_equations(*left);
            collects_exactly_the_equations(*right);
            let l = conjuncts(*left);
            let r = conjuncts(*right);
            lemma_filter_concat(l, r, p);
            assert(equations(e) == equations(*left) + equations(*right));
            assert forall|i: int| 0 <= i < equations(e).len() implies is_atom_of(
                #[trigger] equations(e)[i],
                condition_atoms(e)[i],
            ) by {
                if i < equations(*left).len() {
                    assert(equations(e)[i] == equations(*left)[i]);
                } else {
                    let j = i - equations(*left).len();
                    assert(equations(e)[i] == equations(*right)[j]);
                }
            }
            assert(forall|i: int| 0 <= i < l.len() ==> conjuncts(e)[i] == l[i]);
            assert(forall|i: int| 0 <= i < r.len() ==> conjuncts(e)[l.len() + i] == r[i]);
            if condition_captured(e) {
                assert forall|i: int| 0 <= i < conjuncts(e).len() implies is_equation(
                    #[trigger] conjuncts(e)[i],
                ) by {
                    if i < l.len() {
                        assert(is_equation(l[i]));
                    } else {
                        assert(is_equation(r[i - l.len()]));
                    }
                }
            }
            if forall|i: int|
                0 <= i < conjuncts(e).len() ==> is_equation(#[trigger] conjuncts(e)[i]) {
                assert forall|i: int| 0 <= i < l.len() implies is_equation(#[trigger] l[i]) by {
                    assert(conjuncts(e)[i] == l[i]);
                }
                assert forall|i: int| 0 <= i < r.len() implies is_equation(#[trigger] r[i]) by {
                    assert(conjuncts(e)[l.len() + i] == r[i]);
                }
            }
        },
        Expr::BinaryApp { op: BinaryOp::Eq, arg1, arg2 } => {
            lemma_equation(*arg1, *arg2, e);
            assert(conjuncts(e)[0] == e);
            lemma_filter_one(e, p);
            if is_equation(e) {
                assert(is_atom_of(e, equation_atom(*arg1, *arg2)->0));
            }
        },
        _ => {
            assert(conjuncts(e)[0] == e);
            lemma_filter_one(e, p);
            assert(!is_equation(e));
        },
    }
}

proof fn lemma_filter_one<T>(x: T, p: spec_fn(T) -> bool)
    ensures
        seq![x].filter(p) == if p(x) {
            seq![x]
        } else {
            Seq::empty()
        },
{
    reveal(Seq::filter);
    let none = Seq::<T>::empty();
    assert(none.filter(p) =~= none);
    assert(seq![x].drop_last() =~= none);
    assert(none.push(x) =~= seq![x]);
}

/// A filter keeps of two sequences, one behind the other, what it keeps of each.
proof fn lemma_filter_concat<T>(a: Seq<T>, b: Seq<T>, p: spec_fn(T) -> bool)
    ensures
        (a + b).filter(p) == a.filter(p) + b.filter(p),
    decreases b.len(),
{
    reveal(Seq::filter);
    if b.len() == 0 {
        assert(a + b =~= a);
        assert(a.filter(p) + b.filter(p) =~= a.filter(p));
    } else {
        assert((a + b).drop_last() =~= a + b.drop_last());
        lemma_filter_concat(a, b.drop_last(), p);
        assert((a + b).last() == b.last());
        if p(b.last()) {
            assert(a.filter(p) + b.filter(p) =~= (a.filter(p) + b.drop_last().filter(p)).push(
                b.last(),
            ));
        }
    }
}

/// An equation is one about the principal, the resource or the context.
proof fn lemma_equation_var(c: Expr, atom: (Seq<char>, LitKey))
    requires
        is_equation(c),
        is_atom_of(c, atom),
    ensures
        exists|var: Var, name: Seq<char>, lit: Literal|
            {
                &&& #[trigger] equates(c, var, name, lit)
                &&& var != Var::Action
                &&& atom.1 == lit.key()
            },
{
    let (var, name, lit) = choose|var: Var, name: Seq<char>, lit: Literal| #[trigger]
        equates(c, var, name, lit) && var != Var::Action;
    match var {
        Var::Principal => {},
        Var::Resource => {},
        Var::Context => {},
        Var::Action => {},
    }
    assert(equates(c, var, name, lit) && var != Var::Action && atom.1 == lit.key());
}

/// What is collected of a condition under a key is what its conjuncts demand of the
/// attribute that the key stands for.
proof fn lemma_condition_demands(condition: Option<Expr>, name: Seq<char>, k: LitKey)
    ensures
        optional_condition_atoms(condition).contains(("__principal_attr_"@ + name, k)) <==> exists|
            lit: Literal,
        |
            lit.key() == k && #[trigger] condition_demands(condition, Var::Principal, name, lit),
        optional_condition_atoms(condition).contains(("__resource_attr_"@ + name, k)) <==> exists|
            lit: Literal,
        |
            lit.key() == k && #[trigger] condition_demands(condition, Var::Resource, name, lit),
        optional_condition_atoms(condition).contains(("__context_"@ + name, k)) <==> exists|
            lit: Literal,
        |
            lit.key() == k && #[trigger] condition_demands(condition, Var::Context, name, lit),
{
    match condition {
        Some(e) => {
            lemma_var_demands(e, Var::Principal, "__principal_attr_"@ + name, name, k);
            lemma_var_demands(e, Var::Resource, "__resource_attr_"@ + name, name, k);
            lemma_var_demands(e, Var::Context, "__context_"@ + name, name, k);
        },
        None => {},
    }
}

proof fn lemma_var_demands(e: Expr, var: Var, key: Seq<char>, name: Seq<char>, k: LitKey)
    requires
        match var {
            Var::Principal => key == "__principal_attr_"@ + name,
            Var::Resource => key == "__resource_attr_"@ + name,
            Var::Context => key == "__context_"@ + name,
            Var::Action => false,
        },
    ensures
        condition_atoms(e).contains((key, k)) <==> exists|lit: Literal|
            lit.key() == k && #[trigger] condition_demands(Some(e), var, name, lit),
{
    let cs = conjuncts(e);
    let eqs = equations(e);
    let atoms = condition_atoms(e);
    collects_exactly_the_equations(e);
    lemma_filter_contains(cs, |c: Expr| is_equation(c));
    if atoms.contains((key, k)) {
        let i = atoms.index_of((key, k));
        assert(eqs.contains(eqs[i]));
        lemma_equation_var(eqs[i], atoms[i]);
        let (v, n, lit) = choose|v: Var, n: Seq<char>, lit: Literal|
            {
                &&& #[trigger] equates(eqs[i], v, n, lit)
                &&& v != Var::Action
                &&& atoms[i].1 == lit.key()
            };
        match var {
            Var::Principal => {
                assert(equates(eqs[i], Var::Principal, name, lit));
            },
            Var::Resource => {
                assert(equates(eqs[i], Var::Resource, name, lit));
            },
            Var::Context => {
                assert(equates(eqs[i], Var::Context, name, lit));
            },
            Var::Action => {},
        }
        let j = cs.index_of(eqs[i]);
        assert(cs[j] == eqs[i]);
        assert(condition_demands(Some(e), var, name, lit));
    }
    if exists|lit: Literal|
        lit.key() == k && #[trigger] condition_demands(Some(e), var, name, lit) {
        let lit = choose|lit: Literal|
            lit.key() == k && #[trigger] condition_demands(Some(e), var, name, lit);
        let j = choose|j: int| 0 <= j < cs.len() && equates(#[trigger] cs[j], var, name, lit);
        assert(is_equation(cs[j]));
        assert(cs.contains(cs[j]));
        assert(eqs.contains(cs[j]));
        let i = eqs.index_of(cs[j]);
        assert(is_atom_of(eqs[i], atoms[i]));
        assert(atoms[i] == (key, k));
    }
}

/// The constraints of a policy are what it demands: under each key, the values that
/// its scopes and conjuncts name, and no others.
pub proof fn constraints_are_demands(p: Policy, key: Seq<char>, k: LitKey)
    ensures
        policy_atoms(p).contains((key, k)) <==> exists|lit: Literal|
            lit.key() == k && #[trigger] demands(p, key, lit),
{
    let a = scope_atoms(SCOPE_PRINCIPAL_ATTR@, p.body().principal_constraint);
    let b = scope_atoms(SCOPE_RESOURCE_ATTR@, p.body().resource_constraint);
    let c = action_atoms(p.body().action_constraint);
    let condition = p.body().non_scope_constraints;
    let d = optional_condition_atoms(condition);
    scope_keys_distinct();
    lemma_concat_contains(a + b + c, d, (key, k));
    lemma_concat_contains(a + b, c, (key, k));
    lemma_concat_contains(a, b, (key, k));
    lemma_scope_demands(SCOPE_PRINCIPAL_ATTR@, p.body().principal_constraint, key, k);
    lemma_scope_demands(SCOPE_RESOURCE_ATTR@, p.body().resource_constraint, key, k);
    if c.contains((key, k)) {
        match p.body().action_constraint {
            ActionConstraint::Eq(uid) => {
                assert(c[c.index_of((key, k))] == (key, k));
                assert(demands(p, key, Literal::EntityUID(uid)));
            },
            _ => {},
        }
    }
    match p.body().action_constraint {
        ActionConstraint::Eq(uid) => {
            assert(c[0] == (SCOPE_ACTION_ATTR@, LitKey::Uid(uid.key())));
        },
        _ => {},
    }
    if a.contains((key, k)) {
        let lit = choose|lit: Literal|
            lit.key() == k && #[trigger] scope_demands(p.body().principal_constraint, lit);
        assert(demands(p, key, lit));
    }
    if b.contains((key, k)) {
        let lit = choose|lit: Literal|
            lit.key() == k && #[trigger] scope_demands(p.body().resource_constraint, lit);
        assert(demands(p, key, lit));
    }
    if d.contains((key, k)) {
        match condition {
            Some(e) => {
                let i = d.index_of((key, k));
                collects_exactly_the_equations(e);
                lemma_filter_contains(conjuncts(e), |c: Expr| is_equation(c));
                assert(equations(e).contains(equations(e)[i]));
                assert(is_atom_of(equations(e)[i], condition_atoms(e)[i]));
                lemma_equation_var(equations(e)[i], d[i]);
                let (var, name, lit) = choose|var: Var, name: Seq<char>, lit: Literal|
                    {
                        &&& #[trigger] equates(equations(e)[i], var, name, lit)
                        &&& var != Var::Action
                        &&& d[i].1 == lit.key()
                    };
                let j = conjuncts(e).index_of(equations(e)[i]);
                assert(conjuncts(e)[j] == equations(e)[i]);
                assert(condition_demands(condition, var, name, lit));
                match var {
                    Var::Principal => {},
                    Var::Resource => {},
                    Var::Context => {},
                    Var::Action => {},
                }
                assert(demands(p, key, lit));
            },
            None => {},
        }
    }
    if exists|lit: Literal| lit.key() == k && #[trigger] demands(p, key, lit) {
        let lit = choose|lit: Literal| lit.key() == k && #[trigger] demands(p, key, lit);
        assert forall|name: Seq<char>, var: Var| #[trigger]
            condition_demands(condition, var, name, lit) implies {
            &&& var == Var::Principal ==> d.contains(("__principal_attr_"@ + name, k))
            &&& var == Var::Resource ==> d.contains(("__resource_attr_"@ + name, k))
            &&& var == Var::Context ==> d.contains(("__context_"@ + name, k))
        } by {
            lemma_condition_demands(condition, name, k);
        }
    }
}

proof fn lemma_concat_contains<T>(a: Seq<T>, b: Seq<T>, x: T)
    ensures
        (a + b).contains(x) <==> a.contains(x) || b.contains(x),
{
    if a.contains(x) {
        assert((a + b)[a.index_of(x)] == x);
    }
    if b.contains(x) {
        assert((a + b)[a.len() + b.index_of(x)] == x);
    }
    if (a + b).contains(x) {
        let i = (a + b).index_of(x);
        if i < a.len() {
            assert(a[i] == x);
        } else {
            assert(b[i - a.len()] == x);
        }
    }
}

proof fn lemma_scope_demands(
    scope: Seq<char>,
    c: PrincipalOrResourceConstraint,
    key: Seq<char>,
    k: LitKey,
)
    ensures
        scope_atoms(scope, c).contains((key, k)) <==> key == scope && exists|lit: Literal|
            lit.key() == k && #[trigger] scope_demands(c, lit),
{
    let atoms = scope_atoms(scope, c);
    if atoms.len() > 0 {
        assert(atoms.contains((key, k)) <==> atoms[0] == (key, k)) by {
            if atoms[0] == (key, k) {
                assert(atoms.contains(atoms[0]));
            }
        }
    }
    match c {
        PrincipalOrResourceConstraint::Eq(EntityReference::EUID(uid)) => {
            assert(scope_demands(c, Literal::EntityUID(uid)));
        },
        PrincipalOrResourceConstraint::Is(ty) => {
            assert(scope_demands(c, Literal::String(ty.0)));
        },
        _ => {},
    }
}

/// A policy is indexed exactly if it is simple: it permits, its scopes name an entity
/// or a type or let anything in, and each conjunct of its condition is an equation
/// between an attribute and a literal. Any other form makes it residual.
pub proof fn indexed_exactly_if_simple(p: Policy)
    ensures
        policy_indexed(p) <==> is_simple(p),
{
    match p.body().non_scope_constraints {
        Some(e) => {
            collects_exactly_the_equations(e);
        },
        None => {},
    }
}

/// An equation holds exactly if it is true.
proof fn lemma_equation_true(
    request: &Request,
    entities: &Entities,
    elsewhere: Elsewhere,
    e: Expr,
    base: Expr,
    attr: Seq<char>,
    l: Literal,
)
    requires
        entities.wf(),
        is_equation(e),
        forall|var: Var, name: Seq<char>, lit: Literal| #[trigger]
            equates(e, var, name, lit) <==> base == Expr::Var(var) && attr == name
                && same_literal(l, lit),
    ensures
        attr_value(request, entities, base, attr) == Some(l.key()) <==> is_true(
            request,
            entities,
            elsewhere,
            e,
        ),
{
    lemma_side(request, entities, true, request.principal, attr);
    lemma_side(request, entities, false, request.resource, attr);
    lemma_context(request, attr);
    let (var, name, lit) = choose|var: Var, name: Seq<char>, lit: Literal| #[trigger]
        equates(e, var, name, lit) && var != Var::Action;
    assert(equates(e, var, attr, l));
    assert forall|m: Literal| same_literal(l, m) implies #[trigger] var_attr_is(
        request,
        entities,
        var,
        attr,
        m,
    ) == (attr_value(request, entities, base, attr) == Some(l.key())) by {
        assert(entry_attr_is(entities, request.principal, attr, m) <==> side_lit(
            request,
            entities,
            true,
            attr,
        ) == Some(m.key()));
        assert(entry_attr_is(entities, request.resource, attr, m) <==> side_lit(
            request,
            entities,
            false,
            attr,
        ) == Some(m.key()));
        assert(context_is(request, attr, m) <==> context_lit(request, attr) == Some(m.key()));
        match var {
            Var::Principal => {},
            Var::Resource => {},
            Var::Context => {},
            Var::Action => {},
        }
    }
    assert(same_literal(l, l));
    assert(var_attr_is(request, entities, var, attr, l) == (attr_value(
        request,
        entities,
        base,
        attr,
    ) == Some(l.key())));
}

/// A condition made of equations holds exactly if all of them are true.
proof fn lemma_condition_true(
    request: &Request,
    entities: &Entities,
    elsewhere: Elsewhere,
    e: Expr,
)
    requires
        entities.wf(),
        forall|i: int| 0 <= i < conjuncts(e).len() ==> is_equation(#[trigger] conjuncts(e)[i]),
    ensures
        condition_holds(request, entities, e) <==> forall|i: int|
            0 <= i < conjuncts(e).len() ==> is_true(
                request,
                entities,
                elsewhere,
                #[trigger] conjuncts(e)[i],
            ),
    decreases e,
{
    match e {
        Expr::And { left, right } => {
            let l = conjuncts(*left);
            let r = conjuncts(*right);
            assert forall|i: int| 0 <= i < l.len() implies is_equation(#[trigger] l[i]) by {
                assert(conjuncts(e)[i] == l[i]);
            }
            assert forall|i: int| 0 <= i < r.len() implies is_equation(#[trigger] r[i]) by {
                assert(conjuncts(e)[l.len() + i] == r[i]);
            }
            lemma_condition_true(request, entities, elsewhere, *left);
            lemma_condition_true(request, entities, elsewhere, *right);
            if condition_holds(request, entities, e) {
                assert forall|i: int| 0 <= i < conjuncts(e).len() implies is_true(
                    request,
                    entities,
                    elsewhere,
                    #[trigger] conjuncts(e)[i],
                ) by {
                    if i < l.len() {
                        assert(is_true(request, entities, elsewhere, l[i]));
                    } else {
                        assert(is_true(request, entities, elsewhere, r[i - l.len()]));
                    }
                }
            }
            if forall|i: int|
                0 <= i < conjuncts(e).len() ==> is_true(
                    request,
                    entities,
                    elsewhere,
                    #[trigger] conjuncts(e)[i],
                ) {
                assert forall|i: int| 0 <= i < l.len() implies is_true(
                    request,
                    entities,
                    elsewhere,
                    #[trigger] l[i],
                ) by {
                    assert(conjuncts(e)[i] == l[i]);
                }
                assert forall|i: int| 0 <= i < r.len() implies is_true(
                    request,
                    entities,
                    elsewhere,
                    #[trigger] r[i],
                ) by {
                    assert(conjuncts(e)[l.len() + i] == r[i]);
                }
            }
        },
        Expr::BinaryApp { op: BinaryOp::Eq, arg1, arg2 } => {
            assert(conjuncts(e)[0] == e);
            assert(is_equation(e));
            match (*arg1, *arg2) {
                (Expr::GetAttr { expr, attr }, Expr::Lit(l)) => {
                    lemma_equation_true(
                        request,
                        entities,
                        elsewhere,
                        e,
                        *expr,
                        smol_chars(attr),
                        l,
                    );
                },
                (Expr::Lit(l), Expr::GetAttr { expr, attr }) => {
                    lemma_equation_true(
                        request,
                        entities,
                        elsewhere,
                        e,
                        *expr,
                        smol_chars(attr),
                        l,
                    );
                },
                _ => {},
            }
        },
        _ => {
            assert(conjuncts(e)[0] == e);
            assert(is_equation(e));
        },
    }
}

/// A simple policy applies to a request exactly if it permits it, whatever is true
/// of conditions and scopes of other forms.
pub proof fn simple_policies_apply_if_they_permit(
    request: &Request,
    entities: &Entities,
    elsewhere: Elsewhere,
    p: Policy,
)
    requires
        entities.wf(),
        is_simple(p),
    ensures
        policy_holds(request, entities, p) <==> permits(request, entities, elsewhere, p),
{
    match p.body().non_scope_constraints {
        Some(e) => {
            lemma_condition_true(request, entities, elsewhere, e);
        },
        None => {},
    }
    lemma_lets_in(elsewhere, p.body().principal_constraint, request.principal);
    lemma_lets_in(elsewhere, p.body().resource_constraint, request.resource);
}

proof fn lemma_lets_in(
    elsewhere: Elsewhere,
    c: PrincipalOrResourceConstraint,
    entry: EntityUIDEntry,
)
    requires
        is_simple_scope(c),
    ensures
        scope_holds(c, entry.uid_key()) <==> lets_in(elsewhere, c, entry),
{
}

/// Policies with distinct identifiers are told apart by their keys.
pub proof fn lemma_distinct(ps: Seq<Policy>)
    requires
        distinct_policies(ps),
    ensures
        ids(ps).no_duplicates(),
{
    assert forall|i: int, j: int| 0 <= i < ids(ps).len() && 0 <= j < ids(ps).len() && i != j
        implies ids(ps)[i] != ids(ps)[j] by {
        if i < j {
            assert(smol_chars(ps[i].id.0) != smol_chars(ps[j].id.0));
        } else {
            assert(smol_chars(ps[j].id.0) != smol_chars(ps[i].id.0));
        }
    }
}

/// The tree of a policy set allows a request exactly if a simple policy of the set
/// permits it, whatever is true of conditions and scopes of other forms; and each
/// policy that it allows it by is simple and permits it.
pub proof fn tree_allows_what_simple_policies_permit<F: Fn(&Vec<usize>, usize) -> u64>(
    rank: F,
    tree: PolTree,
    ps: Seq<Policy>,
    store: &Entities,
    request: &Request,
    entities: &Entities,
    elsewhere: Elsewhere,
)
    requires
        distinct_policies(ps),
        is_policy_tree(rank, tree, ps, store),
        entities.wf(),
    ensures
        search(tree.root, request_values(request, entities)) is Some <==> exists|i: int|
            0 <= i < ps.len() && is_simple(#[trigger] ps[i]) && permits(
                request,
                entities,
                elsewhere,
                ps[i],
            ),
        search(tree.root, request_values(request, entities)) matches Some(found) ==> {
            &&& found.len() > 0
            &&& forall|id: Seq<char>| #[trigger]
                found.contains(id) ==> exists|i: int|
                    {
                        &&& 0 <= i < ps.len()
                        &&& smol_chars((#[trigger] ps[i]).id.0) == id
                        &&& is_simple(ps[i])
                        &&& permits(request, entities, elsewhere, ps[i])
                    }
        },
{
    lemma_distinct(ps);
    decides_as_the_policies_do(rank, tree, ps, store, request, entities);
    if search(tree.root, request_values(request, entities)) is Some {
        allows_only_what_policies_permit(rank, tree, ps, store, request, entities);
    }
    assert forall|i: int| 0 <= i < ps.len() implies {
        &&& policy_indexed(#[trigger] ps[i]) <==> is_simple(ps[i])
        &&& is_simple(ps[i]) ==> (policy_holds(request, entities, ps[i]) <==> permits(
            request,
            entities,
            elsewhere,
            ps[i],
        ))
    } by {
        indexed_exactly_if_simple(ps[i]);
        if is_simple(ps[i]) {
            simple_policies_apply_if_they_permit(request, entities, elsewhere, ps[i]);
        }
    }
    if search(tree.root, request_values(request, entities)) is Some {
        let found = search(tree.root, request_values(request, entities))->0;
        assert forall|id: Seq<char>| #[trigger] found.contains(id) implies exists|i: int|
            {
                &&& 0 <= i < ps.len()
                &&& smol_chars((#[trigger] ps[i]).id.0) == id
                &&& is_simple(ps[i])
                &&& permits(request, entities, elsewhere, ps[i])
            } by {
            let i = choose|i: int|
                {
                    &&& 0 <= i < ps.len()
                    &&& (#[trigger] ps[i]).id.key() == id
                    &&& policy_indexed(ps[i])
                    &&& policy_holds(request, entities, ps[i])
                };
            assert(smol_chars(ps[i].id.0) == id);
        }
    }
}

/// Policies that demand the same are reasons together: with a policy that a tree
/// allows a request by go all simple policies of the set that demand what it
/// demands, and no others.
pub proof fn reasons_are_all_policies_with_one_demand<F: Fn(&Vec<usize>, usize) -> u64>(
    rank: F,
    tree: PolTree,
    ps: Seq<Policy>,
    store: &Entities,
    request: &Request,
    entities: &Entities,
    i: int,
    j: int,
)
    requires
        distinct_policies(ps),
        is_policy_tree(rank, tree, ps, store),
        search(tree.root, request_values(request, entities)) is Some,
        0 <= i < ps.len(),
        (search(tree.root, request_values(request, entities))->0).contains(
            smol_chars(ps[i].id.0),
        ),
        0 <= j < ps.len(),
    ensures
        (search(tree.root, request_values(request, entities))->0).contains(smol_chars(ps[j].id.0))
            <==> is_simple(ps[j]) && forall|key: Seq<char>, lit: Literal| #[trigger]
            demands(ps[i], key, lit) <==> demands(ps[j], key, lit),
{
    lemma_distinct(ps);
    let values = request_values(request, entities);
    let found = search(tree.root, values)->0;
    let (index, attrs) = choose|index: PolTreeIndex, attrs: Seq<Seq<char>>|
        #[trigger] is_tree_by(rank, tree, ps, store, index, attrs);
    let given = ids(indexed(ps));
    let sv = uids(store.entities@);
    let a = ps[i].id.key();
    let b = ps[j].id.key();
    search_finds_met_policies(rank, &index, tree.root, given, attrs, sv, values);
    lemma_filter_contains(ps, |p: Policy| policy_indexed(p));
    indexed_exactly_if_simple(ps[i]);
    indexed_exactly_if_simple(ps[j]);
    lemma_in_tree(ps, i);
    lemma_in_tree(ps, j);
    assert(policy_indexed(ps[i]));
    lemma_asks(&index, ps, i);
    if policy_indexed(ps[j]) {
        lemma_asks(&index, ps, j);
        search_finds_equal_policies(rank, &index, tree.root, given, attrs, sv, values, a, b);
        assert forall|key: Seq<char>, k: LitKey| #[trigger]
            asks(index.pv_map@, key, k, a) || asks(
            index.pv_map@,
            key,
            k,
            b,
        ) implies attrs.contains(key) by {
            if asks(index.pv_map@, key, k, a) {
                lemma_asked_keys(&index, key, k, a);
            } else {
                lemma_asked_keys(&index, key, k, b);
            }
        }
        if forall|key: Seq<char>, lit: Literal| #[trigger]
            demands(ps[i], key, lit) <==> demands(ps[j], key, lit) {
            assert forall|key: Seq<char>, k: LitKey| #[trigger]
                asks(index.pv_map@, key, k, a) <==> asks(index.pv_map@, key, k, b) by {
                constraints_are_demands(ps[i], key, k);
                constraints_are_demands(ps[j], key, k);
                assert(asks(index.pv_map@, key, k, b) <==> policy_atoms(ps[j]).contains((key, k)));
                if policy_atoms(ps[i]).contains((key, k)) {
                    let lit = choose|lit: Literal|
                        lit.key() == k && #[trigger] demands(ps[i], key, lit);
                    assert(demands(ps[j], key, lit));
                }
                if policy_atoms(ps[j]).contains((key, k)) {
                    let lit = choose|lit: Literal|
                        lit.key() == k && #[trigger] demands(ps[j], key, lit);
                    assert(demands(ps[i], key, lit));
                }
            }
        }
        if found.contains(b) {
            assert forall|key: Seq<char>, lit: Literal| #[trigger]
                demands(ps[i], key, lit) <==> demands(ps[j], key, lit) by {
                constraints_are_demands(ps[i], key, lit.key());
                constraints_are_demands(ps[j], key, lit.key());
                lemma_demands_alike(ps[i], key, lit);
                lemma_demands_alike(ps[j], key, lit);
                assert(asks(index.pv_map@, key, lit.key(), a) <==> policy_atoms(ps[i]).contains(
                    (key, lit.key()),
                ));
                assert(asks(index.pv_map@, key, lit.key(), b) <==> policy_atoms(ps[j]).contains(
                    (key, lit.key()),
                ));
                if asks(index.pv_map@, key, lit.key(), a) || asks(
                    index.pv_map@,
                    key,
                    lit.key(),
                    b,
                ) {
                    assert(attrs.contains(key));
                }
            }
        }
    }
}

/// A policy that demands a literal demands every literal of that kind and value.
pub proof fn lemma_demands_alike(p: Policy, key: Seq<char>, lit: Literal)
    ensures
        forall|l: Literal|
            l.key() == lit.key() && #[trigger] demands(p, key, l) ==> demands(p, key, lit),
{
    assert forall|l: Literal| l.key() == lit.key() && #[trigger] demands(p, key, l) implies demands(
        p,
        key,
        lit,
    ) by {
        let condition = p.body().non_scope_constraints;
        assert(same_literal(l, lit));
        assert forall|var: Var, name: Seq<char>| #[trigger]
            condition_demands(condition, var, name, l) implies condition_demands(
            condition,
            var,
            name,
            lit,
        ) by {
            match condition {
                Some(e) => {
                    let i = choose|i: int|
                        0 <= i < conjuncts(e).len() && equates(
                            #[trigger] conjuncts(e)[i],
                            var,
                            name,
                            l,
                        );
                    assert(equates(conjuncts(e)[i], var, name, lit));
                },
                None => {},
            }
        }
    }
}

/// A policy's identifier is that of an indexed policy exactly if it is indexed.
proof fn lemma_in_tree(ps: Seq<Policy>, i: int)
    requires
        ids(ps).no_duplicates(),
        0 <= i < ps.len(),
    ensures
        ids(indexed(ps)).contains(ps[i].id.key()) <==> policy_indexed(ps[i]),
{
    lemma_filter_contains(ps, |p: Policy| policy_indexed(p));
    if policy_indexed(ps[i]) {
        assert(indexed(ps).contains(ps[i]));
        assert(ids(indexed(ps))[indexed(ps).index_of(ps[i])] == ps[i].id.key());
    }
    if ids(indexed(ps)).contains(ps[i].id.key()) {
        let j = lemma_indexed_ids(ps, ps[i].id.key());
        assert(ids(ps)[j] == ids(ps)[i]);
    }
}

/// Of two policies of a tree, one of which a search finds, it finds the other exactly
/// if it asks for the same.
proof fn search_finds_equal_policies<F: Fn(&Vec<usize>, usize) -> u64>(
    rank: F,
    index: &PolTreeIndex,
    node: PolTreeNode,
    given: Seq<Seq<char>>,
    attrs: Seq<Seq<char>>,
    sv: Seq<UidKey>,
    values: spec_fn(Seq<char>) -> Seq<LitKey>,
    a: Seq<char>,
    b: Seq<char>,
)
    requires
        is_tree(rank, index, node, given, attrs, sv),
        search(node, values) is Some,
        (search(node, values)->0).contains(a),
        given.contains(b),
    ensures
        (search(node, values)->0).contains(b) <==> forall|key: Seq<char>, lit: LitKey|
            attrs.contains(key) ==> (#[trigger] asks(index.pv_map@, key, lit, a) <==> asks(
                index.pv_map@,
                key,
                lit,
                b,
            )),
    decreases node,
{
    let found = search(node, values)->0;
    search_finds_met_policies(rank, index, node, given, attrs, sv, values);
    if split_keys(index, attrs, given).len() == 0 {
        assert forall|key: Seq<char>, lit: LitKey| attrs.contains(key) implies !#[trigger] asks(
            index.pv_map@,
            key,
            lit,
            a,
        ) && !asks(index.pv_map@, key, lit, b) by {
            if asks(index.pv_map@, key, lit, a) {
                lemma_asked_splits(index, attrs, given, key, lit, a);
            }
            if asks(index.pv_map@, key, lit, b) {
                lemma_asked_splits(index, attrs, given, key, lit, b);
            }
        }
    } else {
        let k = smol_chars(node.split_attr->0);
        let n = value_children(index, node, k, given);
        lemma_choice(rank, index, given, attrs, sv, k);
        lemma_without(attrs, k);
        let i = lemma_found_below(rank, index, node, given, attrs, sv, values);
        let below = given_below(index, node, k, given, i);
        lemma_given_below(index, node, k, given, i);
        search_finds_met_policies(
            rank,
            index,
            *node.children@[i],
            below,
            without(attrs, k),
            narrowed(index, below, sv),
            values,
        );
        assert(below.contains(a));
        if below.contains(b) {
            search_finds_equal_policies(
                rank,
                index,
                *node.children@[i],
                below,
                without(attrs, k),
                narrowed(index, below, sv),
                values,
                a,
                b,
            );
            assert forall|lit: LitKey| #[trigger] asks(index.pv_map@, k, lit, a) <==> asks(
                index.pv_map@,
                k,
                lit,
                b,
            ) by {
                if i < n {
                    let v = edge_value(*node.children@[i]);
                    assert(!asks_otherwise(index, k, v, a) && !asks_otherwise(index, k, v, b));
                } else {
                    assert(!constrains(index, k, a) && !constrains(index, k, b));
                }
            }
            if found.contains(b) {
                assert forall|key: Seq<char>, lit: LitKey| attrs.contains(key) implies (
                #[trigger] asks(index.pv_map@, key, lit, a) <==> asks(
                    index.pv_map@,
                    key,
                    lit,
                    b,
                )) by {
                    if key != k {
                        assert(without(attrs, k).contains(key));
                    }
                }
            }
        } else {
            if i < n {
                let v = edge_value(*node.children@[i]);
                assert(asks(index.pv_map@, k, v, a));
                if asks(index.pv_map@, k, v, b) {
                    let w = choose|w: LitKey| w != v && #[trigger] asks(index.pv_map@, k, w, b);
                    assert(!asks_otherwise(index, k, v, a));
                    assert(!asks(index.pv_map@, k, w, a));
                }
            } else {
                let w = choose|w: LitKey| #[trigger] asks(index.pv_map@, k, w, b);
                assert(!constrains(index, k, a));
                assert(!asks(index.pv_map@, k, w, a));
            }
            assert(!found.contains(b));
        }
    }
}

} // verus!
