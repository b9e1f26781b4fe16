//! What the index holds, in terms of the policies and the store that it was built
//! from.

use smol_str::SmolStr;
use vstd::prelude::*;

use crate::ast::{
    ids, ActionConstraint, EntityReference, EntityType, EntityUID, LitKey, Literal, Policy,
    PolicyID, PrincipalOrResourceConstraint, UidKey, Var,
};
use crate::entities::{uids, Entities, Entity};
use crate::keyed::{at, Keyed, ListMap};
use crate::poltree::constraints::{policy_atoms, policy_indexed};
use crate::poltree::coverage::{fits, fits_all, lemma_of_type, lemma_with_attr, on_entities};
use crate::poltree::index::{asks, covering, registered, times, PolTreeIndex};
use crate::poltree::keys::{
    context_key, context_key_roundtrip, is_context_key, is_scope_key, scope_keys_distinct, side_key,
    side_key_roundtrip, split_side_key,
};
use crate::poltree::laws::{asks_at, lemma_registered};
use crate::poltree::meaning::{
    attr_is, condition_demands, covers, demands, demands_of_entities, distinct_policies, is_simple,
    is_simple_scope, is_stored, same_literal, same_uid, scope_covers, scope_demands,
};
use crate::poltree::promises::{
    constraints_are_demands, indexed_exactly_if_simple, lemma_attr, lemma_demands_alike,
    lemma_distinct,
};
use crate::poltree::scan::{
    is_sv_map, is_type_index, lists_values, of_type, with_attr, EntityScanIndexes,
};
use crate::text::smol_chars;

verus! {

/// Whether a map lists a policy under a key and a literal.
pub open spec fn lists_policy(
    pv: ListMap<(SmolStr, Literal), PolicyID>,
    key: Seq<char>,
    lit: Literal,
    id: Seq<char>,
) -> bool {
    exists|e: int, j: int|
        {
            &&& 0 <= e < pv.entries@.len()
            &&& smol_chars(pv.entries@[e].0.0) == key
            &&& same_literal(pv.entries@[e].0.1, lit)
            &&& 0 <= j < pv.entries@[e].1@.len()
            &&& smol_chars((#[trigger] pv.entries@[e].1@[j]).0) == id
        }
}

/// Whether a map lists an entity under an attribute and a literal.
pub open spec fn lists_entity(
    sv: ListMap<(SmolStr, Literal), EntityUID>,
    name: Seq<char>,
    lit: Literal,
    uid: EntityUID,
) -> bool {
    exists|e: int, j: int|
        {
            &&& 0 <= e < sv.entries@.len()
            &&& smol_chars(sv.entries@[e].0.0) == name
            &&& same_literal(sv.entries@[e].0.1, lit)
            &&& 0 <= j < sv.entries@[e].1@.len()
            &&& same_uid(#[trigger] sv.entries@[e].1@[j], uid)
        }
}

/// Whether a map lists a literal under a key.
pub open spec fn lists_value(
    values: ListMap<SmolStr, Literal>,
    key: Seq<char>,
    lit: Literal,
) -> bool {
    exists|e: int, j: int|
        {
            &&& 0 <= e < values.entries@.len()
            &&& smol_chars(values.entries@[e].0) == key
            &&& 0 <= j < values.entries@[e].1@.len()
            &&& same_literal(#[trigger] values.entries@[e].1@[j], lit)
        }
}

/// Whether a map lists an entity under a type.
pub open spec fn lists_of_type(
    types: ListMap<EntityType, EntityUID>,
    ty: Seq<char>,
    uid: EntityUID,
) -> bool {
    exists|e: int, j: int|
        {
            &&& 0 <= e < types.entries@.len()
            &&& smol_chars(types.entries@[e].0.0) == ty
            &&& 0 <= j < types.entries@[e].1@.len()
            &&& same_uid(#[trigger] types.entries@[e].1@[j], uid)
        }
}

/// Whether a map lists an entity under a policy.
pub open spec fn lists_covered(
    cover: ListMap<PolicyID, EntityUID>,
    id: Seq<char>,
    uid: EntityUID,
) -> bool {
    exists|e: int, j: int|
        {
            &&& 0 <= e < cover.entries@.len()
            &&& smol_chars(cover.entries@[e].0.0) == id
            &&& 0 <= j < cover.entries@[e].1@.len()
            &&& same_uid(#[trigger] cover.entries@[e].1@[j], uid)
        }
}

/// Whether a map has an entry for a policy.
pub open spec fn has_cover(cover: ListMap<PolicyID, EntityUID>, id: Seq<char>) -> bool {
    exists|e: int|
        0 <= e < cover.entries@.len() && smol_chars((#[trigger] cover.entries@[e]).0.0) == id
}

/// Policies are listed in the entries of a map as they are in its view.
pub proof fn lemma_lists_policy(
    pv: ListMap<(SmolStr, Literal), PolicyID>,
    key: Seq<char>,
    lit: Literal,
    id: Seq<char>,
)
    requires
        pv.wf(),
    ensures
        lists_policy(pv, key, lit, id) <==> asks(pv@, key, lit.key(), id),
{
    pv.map_holds_its_entries((key, lit.key()), id);
    if lists_policy(pv, key, lit, id) {
        let (e, j) = choose|e: int, j: int|
            {
                &&& 0 <= e < pv.entries@.len()
                &&& smol_chars(pv.entries@[e].0.0) == key
                &&& same_literal(pv.entries@[e].0.1, lit)
                &&& 0 <= j < pv.entries@[e].1@.len()
                &&& smol_chars((#[trigger] pv.entries@[e].1@[j]).0) == id
            };
        assert(pv.entries@[e].1@[j].key() == id);
    }
}

proof fn lemma_lists_entity(
    sv: ListMap<(SmolStr, Literal), EntityUID>,
    name: Seq<char>,
    lit: Literal,
    uid: EntityUID,
)
    requires
        sv.wf(),
    ensures
        lists_entity(sv, name, lit, uid) <==> at(sv@, (name, lit.key())).contains(uid.key()),
{
    sv.map_holds_its_entries((name, lit.key()), uid.key());
    if lists_entity(sv, name, lit, uid) {
        let (e, j) = choose|e: int, j: int|
            {
                &&& 0 <= e < sv.entries@.len()
                &&& smol_chars(sv.entries@[e].0.0) == name
                &&& same_literal(sv.entries@[e].0.1, lit)
                &&& 0 <= j < sv.entries@[e].1@.len()
                &&& same_uid(#[trigger] sv.entries@[e].1@[j], uid)
            };
        assert(sv.entries@[e].1@[j].key() == uid.key());
    }
    if at(sv@, (name, lit.key())).contains(uid.key()) {
        let (e, j) = choose|e: int, j: int|
            {
                &&& 0 <= e < sv.entries@.len()
                &&& sv.entries@[e].0.key() == (name, lit.key())
                &&& 0 <= j < sv.entries@[e].1@.len()
                &&& (#[trigger] sv.entries@[e].1@[j]).key() == uid.key()
            };
        assert(same_uid(sv.entries@[e].1@[j], uid));
    }
}

proof fn lemma_lists_value(values: ListMap<SmolStr, Literal>, key: Seq<char>, lit: Literal)
    requires
        values.wf(),
    ensures
        lists_value(values, key, lit) <==> at(values@, key).contains(lit.key()),
{
    values.map_holds_its_entries(key, lit.key());
    if lists_value(values, key, lit) {
        let (e, j) = choose|e: int, j: int|
            {
                &&& 0 <= e < values.entries@.len()
                &&& smol_chars(values.entries@[e].0) == key
                &&& 0 <= j < values.entries@[e].1@.len()
                &&& same_literal(#[trigger] values.entries@[e].1@[j], lit)
            };
        assert(values.entries@[e].1@[j].key() == lit.key());
    }
    if at(values@, key).contains(lit.key()) {
        let (e, j) = choose|e: int, j: int|
            {
                &&& 0 <= e < values.entries@.len()
                &&& values.entries@[e].0.key() == key
                &&& 0 <= j < values.entries@[e].1@.len()
                &&& (#[trigger] values.entries@[e].1@[j]).key() == lit.key()
            };
        assert(same_literal(values.entries@[e].1@[j], lit));
    }
}

/// A pass over a store lists an entity under an attribute and a literal exactly if
/// the attribute of the entity is known to be this scalar, a literal under an
/// attribute exactly if some entity has that value, and an entity under a type
/// exactly if the store holds it and it is of that type.
pub proof fn scan_lists_the_store(
    scan: EntityScanIndexes,
    entities: &Entities,
    name: Seq<char>,
    lit: Literal,
    uid: EntityUID,
)
    requires
        entities.wf(),
        scan.attr_values.wf(),
        scan.sv_map.wf(),
        scan.type_index.wf(),
        is_sv_map(scan.sv_map@, entities.entities@),
        is_type_index(scan.type_index@, entities.entities@),
        lists_values(scan.attr_values@, scan.sv_map@),
    ensures
        lists_entity(scan.sv_map, name, lit, uid) <==> attr_is(entities, uid, name, lit),
        lists_value(scan.attr_values, name, lit) <==> exists|u: EntityUID| #[trigger]
            attr_is(entities, u, name, lit),
        lists_of_type(scan.type_index, name, uid) <==> is_stored(entities, uid) && smol_chars(
            uid.ty.0,
        ) == name,
{
    lemma_lists_entity(scan.sv_map, name, lit, uid);
    lemma_attr(entities, uid, name);
    lemma_with_attr(entities, name, lit.key());
    assert(at(scan.sv_map@, (name, lit.key())) == with_attr(entities.entities@, name, lit.key()));
    lemma_lists_value(scan.attr_values, name, lit);
    lemma_some_entity(entities, scan.sv_map, name, lit);
    lemma_of_type(entities, name);
    assert(at(scan.type_index@, name) == of_type(entities.entities@, name));
    scan.type_index.map_holds_its_entries(name, uid.key());
    if lists_of_type(scan.type_index, name, uid) {
        let (e, j) = choose|e: int, j: int|
            {
                &&& 0 <= e < scan.type_index.entries@.len()
                &&& smol_chars(scan.type_index.entries@[e].0.0) == name
                &&& 0 <= j < scan.type_index.entries@[e].1@.len()
                &&& same_uid(#[trigger] scan.type_index.entries@[e].1@[j], uid)
            };
        assert(scan.type_index.entries@[e].1@[j].key() == uid.key());
    }
    if at(scan.type_index@, name).contains(uid.key()) {
        let (e, j) = choose|e: int, j: int|
            {
                &&& 0 <= e < scan.type_index.entries@.len()
                &&& scan.type_index.entries@[e].0.key() == name
                &&& 0 <= j < scan.type_index.entries@[e].1@.len()
                &&& (#[trigger] scan.type_index.entries@[e].1@[j]).key() == uid.key()
            };
        assert(same_uid(scan.type_index.entries@[e].1@[j], uid));
    }
}

/// A scalar is listed for an attribute exactly if some entity has it.
proof fn lemma_some_entity(
    entities: &Entities,
    sv: ListMap<(SmolStr, Literal), EntityUID>,
    name: Seq<char>,
    lit: Literal,
)
    requires
        entities.wf(),
        is_sv_map(sv@, entities.entities@),
    ensures
        sv@.dom().contains((name, lit.key())) <==> exists|u: EntityUID| #[trigger]
            attr_is(entities, u, name, lit),
{
    let es = entities.entities@;
    let k = (name, lit.key());
    lemma_with_attr(entities, name, lit.key());
    assert(at(sv@, k) == with_attr(es, name, lit.key()));
    if sv@.dom().contains(k) {
        let u = sv@[k][0];
        assert(with_attr(es, name, lit.key()).contains(u));
        let i = uids(es).index_of(u);
        assert(uids(es)[i] == u);
        lemma_attr(entities, es[i].uid, name);
        assert(attr_is(entities, es[i].uid, name, lit));
    }
    if exists|u: EntityUID| #[trigger] attr_is(entities, u, name, lit) {
        let u = choose|u: EntityUID| #[trigger] attr_is(entities, u, name, lit);
        lemma_attr(entities, u, name);
        assert(with_attr(es, name, lit.key()).contains(u.key()));
    }
}

/// The index of a policy set lists a policy under a key and a literal exactly if it
/// is simple and demands that; an entity under an attribute and a literal exactly if
/// it has that value; and a literal under a key exactly if an entity has that value
/// or a simple policy demands it.
pub proof fn index_lists_what_is_demanded(
    index: &PolTreeIndex,
    ps: Seq<Policy>,
    key: Seq<char>,
    lit: Literal,
    uid: EntityUID,
)
    requires
        distinct_policies(ps),
        index.indexes(ps),
    ensures
        forall|i: int|
            0 <= i < ps.len() ==> (lists_policy(
                index.pv_map,
                key,
                lit,
                smol_chars((#[trigger] ps[i]).id.0),
            ) <==> is_simple(ps[i]) && demands(ps[i], key, lit)),
        forall|id: Seq<char>| #[trigger]
            lists_policy(index.pv_map, key, lit, id) ==> exists|i: int|
                0 <= i < ps.len() && smol_chars((#[trigger] ps[i]).id.0) == id,
        lists_entity(index.sv_map, key, lit, uid) <==> attr_is(&index.entities, uid, key, lit),
        lists_value(index.attr_values, key, lit) <==> (exists|u: EntityUID| #[trigger]
            attr_is(&index.entities, u, key, lit)) || exists|i: int|
            0 <= i < ps.len() && is_simple(#[trigger] ps[i]) && demands(ps[i], key, lit),
{
    lemma_distinct(ps);
    let k = (key, lit.key());
    lemma_registered(ps, k);
    assert(at(index.pv_map@, k) == registered(ps, k));
    assert forall|id: Seq<char>| #[trigger]
        lists_policy(index.pv_map, key, lit, id) <==> exists|i: int|
            0 <= i < ps.len() && smol_chars((#[trigger] ps[i]).id.0) == id && is_simple(ps[i])
                && demands(ps[i], key, lit) by {
        lemma_lists_policy(index.pv_map, key, lit, id);
        if asks(index.pv_map@, key, lit.key(), id) {
            let i = choose|i: int| asks_at(ps, i, k, id);
            indexed_exactly_if_simple(ps[i]);
            constraints_are_demands(ps[i], key, lit.key());
            lemma_demands_alike(ps[i], key, lit);
            assert(smol_chars(ps[i].id.0) == id);
        }
        if exists|i: int|
            0 <= i < ps.len() && smol_chars((#[trigger] ps[i]).id.0) == id && is_simple(ps[i])
                && demands(ps[i], key, lit) {
            let i = choose|i: int|
                0 <= i < ps.len() && smol_chars((#[trigger] ps[i]).id.0) == id && is_simple(ps[i])
                    && demands(ps[i], key, lit);
            indexed_exactly_if_simple(ps[i]);
            constraints_are_demands(ps[i], key, lit.key());
            assert(asks_at(ps, i, k, id));
        }
    }
    assert forall|i: int| 0 <= i < ps.len() implies (lists_policy(
        index.pv_map,
        key,
        lit,
        smol_chars((#[trigger] ps[i]).id.0),
    ) <==> is_simple(ps[i]) && demands(ps[i], key, lit)) by {
        if lists_policy(index.pv_map, key, lit, smol_chars(ps[i].id.0)) {
            let j = choose|j: int|
                0 <= j < ps.len() && smol_chars((#[trigger] ps[j]).id.0) == smol_chars(ps[i].id.0)
                    && is_simple(ps[j]) && demands(ps[j], key, lit);
            assert(ids(ps)[i] == ids(ps)[j]);
        }
    }
    lemma_lists_entity(index.sv_map, key, lit, uid);
    lemma_attr(&index.entities, uid, key);
    lemma_with_attr(&index.entities, key, lit.key());
    assert(at(index.sv_map@, k) == with_attr(index.entities.entities@, key, lit.key()));
    lemma_some_entity(&index.entities, index.sv_map, key, lit);
    lemma_lists_value(index.attr_values, key, lit);
    if index.pv_map@.dom().contains(k) {
        let id = index.pv_map@[k][0];
        assert(at(index.pv_map@, k).contains(id));
        assert(asks(index.pv_map@, key, lit.key(), id));
        lemma_lists_policy(index.pv_map, key, lit, id);
        assert(lists_policy(index.pv_map, key, lit, id));
    }
    if exists|i: int| 0 <= i < ps.len() && is_simple(#[trigger] ps[i]) && demands(ps[i], key, lit) {
        let i = choose|i: int|
            0 <= i < ps.len() && is_simple(#[trigger] ps[i]) && demands(ps[i], key, lit);
        lemma_lists_policy(index.pv_map, key, lit, smol_chars(ps[i].id.0));
        assert(lists_policy(index.pv_map, key, lit, smol_chars(ps[i].id.0)));
    }
}

/// A policy constrains an entity exactly if it demands something of one.
proof fn lemma_on_entities(p: Policy)
    requires
        is_simple(p),
    ensures
        on_entities(policy_atoms(p)) <==> demands_of_entities(p),
{
    let cs = policy_atoms(p);
    let condition = p.body().non_scope_constraints;
    scope_keys_distinct();
    assert(is_scope_key("__scope_principal"@));
    assert(is_scope_key("__scope_resource"@));
    assert(is_scope_key("__scope_action"@));
    if on_entities(cs) {
        let i = choose|i: int| 0 <= i < cs.len() && !is_context_key((#[trigger] cs[i]).0);
        let (key, k) = cs[i];
        assert(cs.contains((key, k)));
        constraints_are_demands(p, key, k);
        let lit = choose|lit: Literal| lit.key() == k && #[trigger] demands(p, key, lit);
        assert forall|name: Seq<char>| key != "__context_"@ + name by {
            context_key_roundtrip(name);
            assert("__context_"@ + name == context_key(name));
        }
    }
    if demands_of_entities(p) {
        if !(p.body().principal_constraint is Any) {
            lemma_scope_names(p.body().principal_constraint);
            let lit = choose|lit: Literal| #[trigger]
                scope_demands(p.body().principal_constraint, lit);
            lemma_entity_atom(p, "__scope_principal"@, lit);
        } else if !(p.body().resource_constraint is Any) {
            lemma_scope_names(p.body().resource_constraint);
            let lit = choose|lit: Literal| #[trigger]
                scope_demands(p.body().resource_constraint, lit);
            lemma_entity_atom(p, "__scope_resource"@, lit);
        } else if !(p.body().action_constraint is Any) {
            match p.body().action_constraint {
                ActionConstraint::Eq(uid) => {
                    lemma_entity_atom(p, "__scope_action"@, Literal::EntityUID(uid));
                },
                _ => {},
            }
        } else if exists|name: Seq<char>, lit: Literal| #[trigger]
            condition_demands(condition, Var::Principal, name, lit) {
            let (name, lit) = choose|name: Seq<char>, lit: Literal| #[trigger]
                condition_demands(condition, Var::Principal, name, lit);
            side_key_roundtrip(true, name);
            assert("__principal_attr_"@ + name == side_key(true, name));
            lemma_entity_atom(p, "__principal_attr_"@ + name, lit);
        } else {
            let (name, lit) = choose|name: Seq<char>, lit: Literal| #[trigger]
                condition_demands(condition, Var::Resource, name, lit);
            side_key_roundtrip(false, name);
            assert("__resource_attr_"@ + name == side_key(false, name));
            lemma_entity_atom(p, "__resource_attr_"@ + name, lit);
        }
    }
}

proof fn lemma_scope_names(c: PrincipalOrResourceConstraint)
    requires
        is_simple_scope(c),
        !(c is Any),
    ensures
        exists|lit: Literal| #[trigger] scope_demands(c, lit),
{
    match c {
        PrincipalOrResourceConstraint::Eq(EntityReference::EUID(uid)) => {
            assert(scope_demands(c, Literal::EntityUID(uid)));
        },
        PrincipalOrResourceConstraint::Is(ty) => {
            assert(scope_demands(c, Literal::String(ty.0)));
        },
        _ => {},
    }
}

proof fn lemma_entity_atom(p: Policy, key: Seq<char>, lit: Literal)
    requires
        demands(p, key, lit),
        !is_context_key(key),
    ensures
        on_entities(policy_atoms(p)),
        policy_atoms(p).contains((key, lit.key())),
{
    constraints_are_demands(p, key, lit.key());
    let cs = policy_atoms(p);
    let i = cs.index_of((key, lit.key()));
    assert(!is_context_key(cs[i].0));
}

/// An entity fits all constraints of a policy exactly if the policy covers it.
proof fn lemma_fits_covers(entities: &Entities, p: Policy, uid: EntityUID)
    requires
        entities.wf(),
        is_simple(p),
        on_entities(policy_atoms(p)),
    ensures
        fits_all(entities, policy_atoms(p), uid.key()) <==> covers(entities, p, uid),
{
    let cs = policy_atoms(p);
    let condition = p.body().non_scope_constraints;
    scope_keys_distinct();
    assert(is_scope_key("__scope_principal"@));
    assert(is_scope_key("__scope_resource"@));
    assert(is_scope_key("__scope_action"@));
    lemma_attr(entities, uid, Seq::empty());
    assert forall|name: Seq<char>|
        {
            &&& split_side_key(#[trigger] ("__principal_attr_"@ + name)) == Some((true, name))
            &&& !is_scope_key("__principal_attr_"@ + name)
            &&& !is_context_key("__principal_attr_"@ + name)
        } by {
        assert("__principal_attr_"@ + name == side_key(true, name));
        side_key_roundtrip(true, name);
    }
    assert forall|name: Seq<char>|
        {
            &&& split_side_key(#[trigger] ("__resource_attr_"@ + name)) == Some((false, name))
            &&& !is_scope_key("__resource_attr_"@ + name)
            &&& !is_context_key("__resource_attr_"@ + name)
        } by {
        assert("__resource_attr_"@ + name == side_key(false, name));
        side_key_roundtrip(false, name);
    }
    if covers(entities, p, uid) {
        assert forall|i: int| 0 <= i < cs.len() && !is_context_key((#[trigger] cs[i]).0) implies fits(
            entities,
            cs[i].0,
            cs[i].1,
            uid.key(),
        ) by {
            let (key, k) = cs[i];
            assert(cs.contains((key, k)));
            constraints_are_demands(p, key, k);
            let lit = choose|lit: Literal| lit.key() == k && #[trigger] demands(p, key, lit);
            assert forall|name: Seq<char>| key != "__context_"@ + name by {
                context_key_roundtrip(name);
                assert("__context_"@ + name == context_key(name));
            }
            if exists|name: Seq<char>|
                key == "__principal_attr_"@ + name && #[trigger] condition_demands(
                    condition,
                    Var::Principal,
                    name,
                    lit,
                ) {
                let name = choose|name: Seq<char>|
                    key == "__principal_attr_"@ + name && #[trigger] condition_demands(
                        condition,
                        Var::Principal,
                        name,
                        lit,
                    );
                lemma_attr(entities, uid, name);
                assert(attr_is(entities, uid, name, lit));
            } else if exists|name: Seq<char>|
                key == "__resource_attr_"@ + name && #[trigger] condition_demands(
                    condition,
                    Var::Resource,
                    name,
                    lit,
                ) {
                let name = choose|name: Seq<char>|
                    key == "__resource_attr_"@ + name && #[trigger] condition_demands(
                        condition,
                        Var::Resource,
                        name,
                        lit,
                    );
                lemma_attr(entities, uid, name);
                assert(attr_is(entities, uid, name, lit));
            } else {
                assert(is_scope_key(key));
            }
        }
    }
    if fits_all(entities, cs, uid.key()) {
        let i = choose|i: int| 0 <= i < cs.len() && !is_context_key((#[trigger] cs[i]).0);
        assert(fits(entities, cs[i].0, cs[i].1, uid.key()));
        assert(entities.has(uid.key()));
        assert forall|key: Seq<char>, lit: Literal| #[trigger]
            demands(p, key, lit) && !is_context_key(key) implies fits(
            entities,
            key,
            lit.key(),
            uid.key(),
        ) by {
            lemma_entity_atom(p, key, lit);
            let j = cs.index_of((key, lit.key()));
            assert(cs[j] == (key, lit.key()));
        }
        lemma_scope_covers(
            entities,
            p,
            "__scope_principal"@,
            p.body().principal_constraint,
            uid,
        );
        lemma_scope_covers(entities, p, "__scope_resource"@, p.body().resource_constraint, uid);
        match p.body().action_constraint {
            ActionConstraint::Eq(u) => {
                assert(demands(p, "__scope_action"@, Literal::EntityUID(u)));
            },
            _ => {},
        }
        assert forall|var: Var, name: Seq<char>, lit: Literal|
            #[trigger] condition_demands(condition, var, name, lit) && (var == Var::Principal
                || var == Var::Resource) implies attr_is(entities, uid, name, lit) by {
            lemma_attr(entities, uid, name);
            if var == Var::Principal {
                assert(demands(p, "__principal_attr_"@ + name, lit));
                assert(split_side_key("__principal_attr_"@ + name) == Some((true, name)));
            } else {
                assert(demands(p, "__resource_attr_"@ + name, lit));
                assert(split_side_key("__resource_attr_"@ + name) == Some((false, name)));
            }
        }
    }
}

proof fn lemma_scope_covers(
    entities: &Entities,
    p: Policy,
    key: Seq<char>,
    c: PrincipalOrResourceConstraint,
    uid: EntityUID,
)
    requires
        is_simple_scope(c),
        is_scope_key(key),
        forall|lit: Literal| #[trigger] scope_demands(c, lit) ==> demands(p, key, lit),
        forall|lit: Literal| #[trigger]
            demands(p, key, lit) ==> fits(entities, key, lit.key(), uid.key()),
    ensures
        scope_covers(c, uid),
{
    match c {
        PrincipalOrResourceConstraint::Eq(EntityReference::EUID(u)) => {
            assert(scope_demands(c, Literal::EntityUID(u)));
            assert(demands(p, key, Literal::EntityUID(u)));
        },
        PrincipalOrResourceConstraint::Is(ty) => {
            assert(scope_demands(c, Literal::String(ty.0)));
            assert(demands(p, key, Literal::String(ty.0)));
        },
        _ => {},
    }
}

/// The index of a policy set lists the entities that a policy covers exactly for
/// those simple policies that demand something of an entity; and for each of them,
/// exactly the entities that it covers, whatever it demands of the context.
pub proof fn index_lists_what_is_covered(
    index: &PolTreeIndex,
    ps: Seq<Policy>,
    i: int,
    uid: EntityUID,
)
    requires
        distinct_policies(ps),
        index.indexes(ps),
        0 <= i < ps.len(),
    ensures
        has_cover(index.policy_entities_map, smol_chars(ps[i].id.0)) <==> is_simple(ps[i])
            && demands_of_entities(ps[i]),
        is_simple(ps[i]) && demands_of_entities(ps[i]) ==> (lists_covered(
            index.policy_entities_map,
            smol_chars(ps[i].id.0),
            uid,
        ) <==> covers(&index.entities, ps[i], uid)),
{
    let cover = index.policy_entities_map;
    let id = smol_chars(ps[i].id.0);
    lemma_distinct(ps);
    indexed_exactly_if_simple(ps[i]);
    cover.map_holds_its_entries(id, uid.key());
    if is_simple(ps[i]) {
        lemma_on_entities(ps[i]);
    }
    if has_cover(cover, id) {
        let e = choose|e: int|
            0 <= e < cover.entries@.len() && smol_chars((#[trigger] cover.entries@[e]).0.0) == id;
        assert(cover.entries@[e].0.key() == id);
        assert(cover@.dom().contains(id));
        let j = choose|j: int| covering(ps, j, id);
        assert(ids(ps)[i] == ids(ps)[j]);
    }
    if is_simple(ps[i]) && demands_of_entities(ps[i]) {
        assert(covering(ps, i, id));
        let e = choose|e: int|
            0 <= e < cover.entries@.len() && (#[trigger] cover.entries@[e]).0.key() == id;
        assert(smol_chars(cover.entries@[e].0.0) == id);
        lemma_fits_covers(&index.entities, ps[i], uid);
        if lists_covered(cover, id, uid) {
            let (e, j) = choose|e: int, j: int|
                {
                    &&& 0 <= e < cover.entries@.len()
                    &&& smol_chars(cover.entries@[e].0.0) == id
                    &&& 0 <= j < cover.entries@[e].1@.len()
                    &&& same_uid(#[trigger] cover.entries@[e].1@[j], uid)
                };
            assert(cover.entries@[e].1@[j].key() == uid.key());
        }
        if cover@[id].contains(uid.key()) {
            assert(at(cover@, id).contains(uid.key()));
            let (e, j) = choose|e: int, j: int|
                {
                    &&& 0 <= e < cover.entries@.len()
                    &&& cover.entries@[e].0.key() == id
                    &&& 0 <= j < cover.entries@[e].1@.len()
                    &&& (#[trigger] cover.entries@[e].1@[j]).key() == uid.key()
                };
            assert(same_uid(cover.entries@[e].1@[j], uid));
        }
    }
}

/// The lists of entities by an attribute or by a type keep the order of the store.
pub proof fn lists_keep_the_order_of_the_store(
    entities: &Entities,
    name: Seq<char>,
    lit: Literal,
    ty: Seq<char>,
)
    requires
        entities.wf(),
    ensures
        with_attr(entities.entities@, name, lit.key()) == uids(
            entities.entities@.filter(|e: Entity| attr_is(entities, e.uid, name, lit)),
        ),
        of_type(entities.entities@, ty) == uids(
            entities.entities@.filter(|e: Entity| smol_chars(e.uid.ty.0) == ty),
        ),
{
    let n = entities.entities@.len() as int;
    lemma_lists_in_order(entities, n, name, lit, ty);
    assert(entities.entities@.take(n) =~= entities.entities@);
}

proof fn lemma_lists_in_order(
    entities: &Entities,
    n: int,
    name: Seq<char>,
    lit: Literal,
    ty: Seq<char>,
)
    requires
        entities.wf(),
        0 <= n <= entities.entities@.len(),
    ensures
        with_attr(entities.entities@.take(n), name, lit.key()) == uids(
            entities.entities@.take(n).filter(|e: Entity| attr_is(entities, e.uid, name, lit)),
        ),
        of_type(entities.entities@.take(n), ty) == uids(
            entities.entities@.take(n).filter(|e: Entity| smol_chars(e.uid.ty.0) == ty),
        ),
    decreases n,
{
    reveal(Seq::filter);
    let es = entities.entities@;
    let p = |e: Entity| attr_is(entities, e.uid, name, lit);
    let q = |e: Entity| smol_chars(e.uid.ty.0) == ty;
    if n > 0 {
        let e = es[n - 1];
        lemma_lists_in_order(entities, n - 1, name, lit, ty);
        assert(es.take(n).drop_last() =~= es.take(n - 1));
        assert(es.take(n).last() == e);
        lemma_attr(entities, e.uid, name);
        entities.lemma_attr_lit(n - 1, name);
        assert(uids(es.take(n - 1).filter(p).push(e)) =~= uids(es.take(n - 1).filter(p)).push(
            e.uid.key(),
        ));
        assert(uids(es.take(n - 1).filter(q).push(e)) =~= uids(es.take(n - 1).filter(q)).push(
            e.uid.key(),
        ));
    } else {
        assert(es.take(0) =~= Seq::empty());
        assert(uids(Seq::<Entity>::empty()) =~= Seq::<UidKey>::empty());
    }
}

/// The list of policies under a key and a value has those of the first policies of a
/// set before those of the others; of one policy it has the identifier once for each
/// time that it asks for the value, if it is simple.
pub proof fn policies_are_listed_as_often_as_they_ask(
    a: Seq<Policy>,
    b: Seq<Policy>,
    p: Policy,
    k: (Seq<char>, LitKey),
)
    ensures
        registered(a + b, k) == registered(a, k) + registered(b, k),
        registered(seq![p], k).len() == if is_simple(p) {
            policy_atoms(p).filter(|c: (Seq<char>, LitKey)| c == k).len()
        } else {
            0
        },
        forall|i: int|
            0 <= i < registered(seq![p], k).len() ==> #[trigger] registered(seq![p], k)[i]
                == smol_chars(p.id.0),
{
    lemma_registered_parts(a, b, k);
    indexed_exactly_if_simple(p);
    assert(seq![p].drop_last() =~= Seq::empty());
    assert(seq![p].last() == p);
    reveal_with_fuel(registered, 2);
    assert(registered(seq![p], k) =~= if policy_indexed(p) {
        times(policy_atoms(p), k, p.id.key())
    } else {
        Seq::empty()
    });
    lemma_times(policy_atoms(p), k, p.id.key());
}

proof fn lemma_registered_parts(a: Seq<Policy>, b: Seq<Policy>, k: (Seq<char>, LitKey))
    ensures
        registered(a + b, k) == registered(a, k) + registered(b, k),
    decreases b.len(),
{
    if b.len() == 0 {
        assert(a + b =~= a);
        assert(registered(a, k) + registered(b, k) =~= registered(a, k));
    } else {
        lemma_registered_parts(a, b.drop_last(), k);
        assert((a + b).drop_last() =~= a + b.drop_last());
        assert((a + b).last() == b.last());
        assert(registered(a + b, k) =~= registered(a, k) + registered(b, k));
    }
}

proof fn lemma_times(cs: Seq<(Seq<char>, LitKey)>, k: (Seq<char>, LitKey), id: Seq<char>)
    ensures
        times(cs, k, id).len() == cs.filter(|c: (Seq<char>, LitKey)| c == k).len(),
        forall|i: int| 0 <= i < times(cs, k, id).len() ==> #[trigger] times(cs, k, id)[i] == id,
    decreases cs.len(),
{
    reveal(Seq::filter);
    if cs.len() > 0 {
        lemma_times(cs.drop_last(), k, id);
    }
}

} // verus!
