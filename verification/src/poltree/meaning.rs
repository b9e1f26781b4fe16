//! What policies, requests and stores say, read off their fields alone: when an
//! attribute has a value, what a policy demands, when it permits a request and
//! which entities it covers. None of this speaks of the index or of the tree; that
//! those agree with it is proved in [`crate::poltree::promises`].

use smol_str::SmolStr;
use vstd::prelude::*;

use crate::ast::{
    ActionConstraint, BinaryOp, Context, Effect, EntityReference, EntityUID, EntityUIDEntry, Expr,
    Literal, PartialValue, Policy, PrincipalOrResourceConstraint, Request, Value, Var,
};
use crate::entities::Entities;
use crate::text::smol_chars;

verus! {

/// Whether two identifiers are of one entity.
pub open spec fn same_uid(a: EntityUID, b: EntityUID) -> bool {
    smol_chars(a.ty.0) == smol_chars(b.ty.0) && smol_chars(a.eid) == smol_chars(b.eid)
}

/// Whether two literals are of one kind and one value.
pub open spec fn same_literal(a: Literal, b: Literal) -> bool {
    match (a, b) {
        (Literal::Bool(x), Literal::Bool(y)) => x == y,
        (Literal::Long(x), Literal::Long(y)) => x == y,
        (Literal::String(x), Literal::String(y)) => smol_chars(x) == smol_chars(y),
        (Literal::EntityUID(x), Literal::EntityUID(y)) => same_uid(x, y),
        _ => false,
    }
}

/// Whether the first entry of that name has the value.
pub open spec fn entry_is<T>(entries: Seq<(SmolStr, T)>, name: Seq<char>, value: T) -> bool {
    exists|j: int|
        {
            &&& 0 <= j < entries.len()
            &&& smol_chars((#[trigger] entries[j]).0) == name
            &&& entries[j].1 == value
            &&& forall|i: int| 0 <= i < j ==> smol_chars((#[trigger] entries[i]).0) != name
        }
}

/// Whether the store holds the entity.
pub open spec fn is_stored(entities: &Entities, uid: EntityUID) -> bool {
    exists|i: int|
        0 <= i < entities.entities@.len() && same_uid((#[trigger] entities.entities@[i]).uid, uid)
}

/// Whether the store holds the entity, and its attribute `name` is known to be the
/// scalar.
pub open spec fn attr_is(
    entities: &Entities,
    uid: EntityUID,
    name: Seq<char>,
    lit: Literal,
) -> bool {
    exists|i: int, l: Literal|
        {
            &&& 0 <= i < entities.entities@.len()
            &&& same_uid((#[trigger] entities.entities@[i]).uid, uid)
            &&& #[trigger] same_literal(l, lit)
            &&& entry_is(entities.entities@[i].attrs@, name, PartialValue::Value(Value::Lit(l)))
        }
}

/// Whether an attribute of the principal, or of the resource, is known to be the
/// scalar: of the entity that stands in the request, and of no other.
pub open spec fn entry_attr_is(
    entities: &Entities,
    entry: EntityUIDEntry,
    name: Seq<char>,
    lit: Literal,
) -> bool {
    match entry {
        EntityUIDEntry::Known { euid } => attr_is(entities, euid, name, lit),
        EntityUIDEntry::Unknown { .. } => false,
    }
}

/// Whether an attribute of the context is known to be the scalar.
pub open spec fn context_is(request: &Request, name: Seq<char>, lit: Literal) -> bool {
    match request.context {
        Some(Context::Value(map)) => exists|l: Literal| #[trigger]
            same_literal(l, lit) && entry_is(map@, name, Value::Lit(l)),
        _ => false,
    }
}

/// The conditions that a condition is the conjunction of.
pub open spec fn conjuncts(e: Expr) -> Seq<Expr>
    decreases e,
{
    match e {
        Expr::And { left, right } => conjuncts(*left) + conjuncts(*right),
        _ => seq![e],
    }
}

/// Whether `a == b` is `var.name == lit`.
pub open spec fn says(a: Expr, b: Expr, var: Var, name: Seq<char>, lit: Literal) -> bool {
    match (a, b) {
        (Expr::GetAttr { expr, attr }, Expr::Lit(l)) => *expr == Expr::Var(var) && smol_chars(attr)
            == name && same_literal(l, lit),
        _ => false,
    }
}

/// Whether `e` is `var.name == lit`, or `lit == var.name`.
pub open spec fn equates(e: Expr, var: Var, name: Seq<char>, lit: Literal) -> bool {
    match e {
        Expr::BinaryApp { op: BinaryOp::Eq, arg1, arg2 } => says(*arg1, *arg2, var, name, lit)
            || says(*arg2, *arg1, var, name, lit),
        _ => false,
    }
}

/// Whether `e` is an equation between an attribute of the principal, the resource
/// or the context and a literal.
pub open spec fn is_equation(e: Expr) -> bool {
    exists|var: Var, name: Seq<char>, lit: Literal| #[trigger]
        equates(e, var, name, lit) && var != Var::Action
}

/// Whether each conjunct of a condition is such an equation.
pub open spec fn all_equations(condition: Option<Expr>) -> bool {
    match condition {
        Some(e) => forall|i: int|
            0 <= i < conjuncts(e).len() ==> is_equation(#[trigger] conjuncts(e)[i]),
        None => true,
    }
}

/// Whether a scope lets any entity in, or one that it names, or those of a type.
pub open spec fn is_simple_scope(c: PrincipalOrResourceConstraint) -> bool {
    match c {
        PrincipalOrResourceConstraint::Any => true,
        PrincipalOrResourceConstraint::Eq(r) => r is EUID,
        PrincipalOrResourceConstraint::Is(_) => true,
        PrincipalOrResourceConstraint::In(_) => false,
        PrincipalOrResourceConstraint::IsIn(_, _) => false,
    }
}

/// Whether a tree can hold a policy: it permits, its scopes name what they let in,
/// and its condition is made of equations.
pub open spec fn is_simple(p: Policy) -> bool {
    &&& p.template.effect == Effect::Permit
    &&& is_simple_scope(p.template.principal_constraint)
    &&& is_simple_scope(p.template.resource_constraint)
    &&& p.template.action_constraint is Any || p.template.action_constraint is Eq
    &&& all_equations(p.template.non_scope_constraints)
}

/// The truth of all that is no equation and no simple scope, whatever that is.
pub struct Elsewhere {
    /// Of conditions
    pub condition: spec_fn(Expr) -> bool,
    /// Of scopes for the principal or the resource
    pub scope: spec_fn(PrincipalOrResourceConstraint, EntityUIDEntry) -> bool,
    /// Of scopes for the action
    pub action: spec_fn(ActionConstraint, EntityUIDEntry) -> bool,
}

/// Whether `entry` is the entity.
pub open spec fn is_entity(entry: EntityUIDEntry, uid: EntityUID) -> bool {
    match entry {
        EntityUIDEntry::Known { euid } => same_uid(euid, uid),
        EntityUIDEntry::Unknown { .. } => false,
    }
}

/// Whether a scope lets the principal, or the resource, in.
pub open spec fn lets_in(
    elsewhere: Elsewhere,
    c: PrincipalOrResourceConstraint,
    entry: EntityUIDEntry,
) -> bool {
    match c {
        PrincipalOrResourceConstraint::Any => true,
        PrincipalOrResourceConstraint::Eq(EntityReference::EUID(uid)) => is_entity(entry, uid),
        PrincipalOrResourceConstraint::Is(ty) => match entry {
            EntityUIDEntry::Known { euid } => smol_chars(euid.ty.0) == smol_chars(ty.0),
            EntityUIDEntry::Unknown { .. } => false,
        },
        _ => (elsewhere.scope)(c, entry),
    }
}

/// Whether a scope lets the action in.
pub open spec fn lets_action_in(
    elsewhere: Elsewhere,
    c: ActionConstraint,
    entry: EntityUIDEntry,
) -> bool {
    match c {
        ActionConstraint::Any => true,
        ActionConstraint::Eq(uid) => is_entity(entry, uid),
        _ => (elsewhere.action)(c, entry),
    }
}

/// Whether attribute `name` of `var` is known to be the scalar.
pub open spec fn var_attr_is(
    request: &Request,
    entities: &Entities,
    var: Var,
    name: Seq<char>,
    lit: Literal,
) -> bool {
    match var {
        Var::Principal => entry_attr_is(entities, request.principal, name, lit),
        Var::Resource => entry_attr_is(entities, request.resource, name, lit),
        Var::Context => context_is(request, name, lit),
        Var::Action => false,
    }
}

/// Whether a conjunct is true: an equation if the attribute has the value.
pub open spec fn is_true(
    request: &Request,
    entities: &Entities,
    elsewhere: Elsewhere,
    e: Expr,
) -> bool {
    if is_equation(e) {
        forall|var: Var, name: Seq<char>, lit: Literal| #[trigger]
            equates(e, var, name, lit) ==> var_attr_is(request, entities, var, name, lit)
    } else {
        (elsewhere.condition)(e)
    }
}

/// Whether a policy permits a request: it is one that permits, all its scopes let
/// the request in, and all conjuncts of its condition are true.
pub open spec fn permits(
    request: &Request,
    entities: &Entities,
    elsewhere: Elsewhere,
    p: Policy,
) -> bool {
    &&& p.template.effect == Effect::Permit
    &&& lets_in(elsewhere, p.template.principal_constraint, request.principal)
    &&& lets_in(elsewhere, p.template.resource_constraint, request.resource)
    &&& lets_action_in(elsewhere, p.template.action_constraint, request.action)
    &&& match p.template.non_scope_constraints {
        Some(e) => forall|i: int|
            0 <= i < conjuncts(e).len() ==> is_true(
                request,
                entities,
                elsewhere,
                #[trigger] conjuncts(e)[i],
            ),
        None => true,
    }
}

/// Whether a scope names the literal: an entity, or the name of a type.
pub open spec fn scope_demands(c: PrincipalOrResourceConstraint, lit: Literal) -> bool {
    match c {
        PrincipalOrResourceConstraint::Eq(EntityReference::EUID(uid)) => same_literal(
            Literal::EntityUID(uid),
            lit,
        ),
        PrincipalOrResourceConstraint::Is(ty) => same_literal(Literal::String(ty.0), lit),
        _ => false,
    }
}

/// Whether a condition has `var.name == lit` among its conjuncts.
pub open spec fn condition_demands(
    condition: Option<Expr>,
    var: Var,
    name: Seq<char>,
    lit: Literal,
) -> bool {
    match condition {
        Some(e) => exists|i: int|
            0 <= i < conjuncts(e).len() && equates(#[trigger] conjuncts(e)[i], var, name, lit),
        None => false,
    }
}

/// Whether a policy demands that what `key` stands for is the literal.
pub open spec fn demands(p: Policy, key: Seq<char>, lit: Literal) -> bool {
    let condition = p.template.non_scope_constraints;
    ||| key == "__scope_principal"@ && scope_demands(p.template.principal_constraint, lit)
    ||| key == "__scope_resource"@ && scope_demands(p.template.resource_constraint, lit)
    ||| key == "__scope_action"@ && match p.template.action_constraint {
        ActionConstraint::Eq(uid) => same_literal(Literal::EntityUID(uid), lit),
        _ => false,
    }
    ||| exists|name: Seq<char>|
        key == "__principal_attr_"@ + name && #[trigger] condition_demands(
            condition,
            Var::Principal,
            name,
            lit,
        )
    ||| exists|name: Seq<char>|
        key == "__resource_attr_"@ + name && #[trigger] condition_demands(
            condition,
            Var::Resource,
            name,
            lit,
        )
    ||| exists|name: Seq<char>|
        key == "__context_"@ + name && #[trigger] condition_demands(
            condition,
            Var::Context,
            name,
            lit,
        )
}

/// Whether a scope lets an entity of the store be covered.
pub open spec fn scope_covers(c: PrincipalOrResourceConstraint, uid: EntityUID) -> bool {
    match c {
        PrincipalOrResourceConstraint::Any => true,
        PrincipalOrResourceConstraint::Eq(EntityReference::EUID(u)) => same_uid(u, uid),
        PrincipalOrResourceConstraint::Is(ty) => smol_chars(uid.ty.0) == smol_chars(ty.0),
        _ => false,
    }
}

/// Whether a policy covers an entity: the store holds it, the scopes let it be
/// covered, and it has every attribute value that the condition demands of the
/// principal or of the resource. What is demanded of the context has no part in it.
pub open spec fn covers(entities: &Entities, p: Policy, uid: EntityUID) -> bool {
    &&& is_stored(entities, uid)
    &&& scope_covers(p.template.principal_constraint, uid)
    &&& scope_covers(p.template.resource_constraint, uid)
    &&& match p.template.action_constraint {
        ActionConstraint::Eq(u) => same_uid(u, uid),
        _ => true,
    }
    &&& forall|var: Var, name: Seq<char>, lit: Literal|
        #[trigger] condition_demands(p.template.non_scope_constraints, var, name, lit) && (var
            == Var::Principal || var == Var::Resource) ==> attr_is(entities, uid, name, lit)
}

/// Whether a policy demands anything of an entity.
pub open spec fn demands_of_entities(p: Policy) -> bool {
    ||| !(p.template.principal_constraint is Any)
    ||| !(p.template.resource_constraint is Any)
    ||| !(p.template.action_constraint is Any)
    ||| exists|name: Seq<char>, lit: Literal| #[trigger]
        condition_demands(p.template.non_scope_constraints, Var::Principal, name, lit)
    ||| exists|name: Seq<char>, lit: Literal| #[trigger]
        condition_demands(p.template.non_scope_constraints, Var::Resource, name, lit)
}

/// Whether no two policies have one identifier.
pub open spec fn distinct_policies(ps: Seq<Policy>) -> bool {
    forall|i: int, j: int|
        0 <= i < j < ps.len() ==> smol_chars((#[trigger] ps[i]).id.0) != smol_chars(
            (#[trigger] ps[j]).id.0,
        )
}

} // verus!
