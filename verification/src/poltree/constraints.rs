//! What a policy asks of a request, as far as it can be indexed.
//!
//! A policy is captured where each part of its scope and of its condition is an
//! equation with a literal. "Nothing was extracted" is not "nothing is asked":
//! a policy that asks anything else must not be indexed at all, since the tree
//! takes a policy without constraints to apply always.

use smol_str::SmolStr;
use vstd::prelude::*;

use crate::ast::{
    ActionConstraint, BinaryOp, Effect, EntityReference, EntityType, EntityUID, Expr, LitKey,
    Literal, Policy, PrincipalOrResourceConstraint, Template, UidKey, Var,
};
use crate::entities::Entities;
use crate::keyed::{at, keys, Keyed, ListMap};
use crate::poltree::keys::{
    context_attr_key, context_key, side_key, side_scoped_attr, SCOPE_ACTION_ATTR,
    SCOPE_PRINCIPAL_ATTR, SCOPE_RESOURCE_ATTR,
};
use crate::poltree::scan::{candidates_from_type_index, entities_with_uid};
use crate::text::{smol_chars, smol_from};

verus! {

/// A constraint: a key of the index, the value that it must have, and the
/// entities of the store that fit it.
#[derive(Debug)]
pub struct Constraint {
    /// The key
    pub attr: SmolStr,
    /// The value
    pub value: Literal,
    /// The entities
    pub candidates: Vec<EntityUID>,
}

impl Constraint {
    /// The key and the value.
    pub open spec fn atom(&self) -> (Seq<char>, LitKey) {
        (smol_chars(self.attr), self.value.key())
    }
}

/// The keys and values of a sequence of constraints.
pub open spec fn atoms(cs: Seq<Constraint>) -> Seq<(Seq<char>, LitKey)> {
    Seq::new(cs.len(), |i: int| cs[i].atom())
}

/// Whether a scope for the principal or the resource is captured.
pub open spec fn scope_captured(c: PrincipalOrResourceConstraint) -> bool {
    match c {
        PrincipalOrResourceConstraint::Any => true,
        PrincipalOrResourceConstraint::Eq(EntityReference::EUID(_)) => true,
        PrincipalOrResourceConstraint::Is(_) => true,
        _ => false,
    }
}

/// What a scope for the principal or the resource asks of its key.
pub open spec fn scope_atoms(key: Seq<char>, c: PrincipalOrResourceConstraint) -> Seq<
    (Seq<char>, LitKey),
> {
    match c {
        PrincipalOrResourceConstraint::Eq(EntityReference::EUID(uid)) => seq![
            (key, LitKey::Uid(uid.key())),
        ],
        PrincipalOrResourceConstraint::Is(ty) => seq![(key, LitKey::Str(ty.key()))],
        _ => Seq::empty(),
    }
}

/// Whether a scope for the action is captured.
pub open spec fn action_captured(c: ActionConstraint) -> bool {
    match c {
        ActionConstraint::Any => true,
        ActionConstraint::Eq(_) => true,
        _ => false,
    }
}

/// What a scope for the action asks of its key.
pub open spec fn action_atoms(c: ActionConstraint) -> Seq<(Seq<char>, LitKey)> {
    match c {
        ActionConstraint::Eq(uid) => seq![(SCOPE_ACTION_ATTR@, LitKey::Uid(uid.key()))],
        _ => Seq::empty(),
    }
}

/// What `base.attr == lit` asks, where `base` is the principal, the resource or
/// the context.
pub open spec fn attr_atom(base: Expr, attr: Seq<char>, lit: LitKey) -> Option<
    (Seq<char>, LitKey),
> {
    match base {
        Expr::Var(Var::Principal) => Some((side_key(true, attr), lit)),
        Expr::Var(Var::Resource) => Some((side_key(false, attr), lit)),
        Expr::Var(Var::Context) => Some((context_key(attr), lit)),
        _ => None,
    }
}

/// What `left == right` asks, where one side is an attribute and the other a
/// literal.
pub open spec fn equation_atom(left: Expr, right: Expr) -> Option<(Seq<char>, LitKey)> {
    match (left, right) {
        (Expr::GetAttr { expr, attr }, Expr::Lit(lit)) => attr_atom(
            *expr,
            smol_chars(attr),
            lit.key(),
        ),
        (Expr::Lit(lit), Expr::GetAttr { expr, attr }) => attr_atom(
            *expr,
            smol_chars(attr),
            lit.key(),
        ),
        _ => None,
    }
}

/// Whether a condition is captured: a conjunction of equations between an
/// attribute of the principal, the resource or the context and a literal.
pub open spec fn condition_captured(e: Expr) -> bool
    decreases e,
{
    match e {
        Expr::And { left, right } => condition_captured(*left) && condition_captured(*right),
        Expr::BinaryApp { op: BinaryOp::Eq, arg1, arg2 } => equation_atom(*arg1, *arg2) is Some,
        _ => false,
    }
}

/// The equations of a condition, in order, as far as it is a conjunction.
pub open spec fn condition_atoms(e: Expr) -> Seq<(Seq<char>, LitKey)>
    decreases e,
{
    match e {
        Expr::And { left, right } => condition_atoms(*left) + condition_atoms(*right),
        Expr::BinaryApp { op: BinaryOp::Eq, arg1, arg2 } => match equation_atom(*arg1, *arg2) {
            Some(atom) => seq![atom],
            None => Seq::empty(),
        },
        _ => Seq::empty(),
    }
}

/// Whether a template's scope and condition are captured.
pub open spec fn template_captured(t: Template) -> bool {
    &&& scope_captured(t.principal_constraint)
    &&& scope_captured(t.resource_constraint)
    &&& action_captured(t.action_constraint)
    &&& match t.non_scope_constraints {
        Some(e) => condition_captured(e),
        None => true,
    }
}

/// Whether a policy is indexed: it permits, and all that it asks is captured. A
/// policy that forbids is never indexed, since the tree knows of no overriding.
pub open spec fn policy_indexed(p: Policy) -> bool {
    p.template.effect == Effect::Permit && template_captured(*p.template)
}

/// What a condition that need not be there asks.
pub open spec fn optional_condition_atoms(e: Option<Expr>) -> Seq<(Seq<char>, LitKey)> {
    match e {
        Some(e) => condition_atoms(e),
        None => Seq::empty(),
    }
}

/// All that a policy asks: scope of the principal, of the resource, of the
/// action, then condition.
pub open spec fn policy_atoms(p: Policy) -> Seq<(Seq<char>, LitKey)> {
    scope_atoms(SCOPE_PRINCIPAL_ATTR@, p.template.principal_constraint) + scope_atoms(
        SCOPE_RESOURCE_ATTR@,
        p.template.resource_constraint,
    ) + action_atoms(p.template.action_constraint) + optional_condition_atoms(
        p.template.non_scope_constraints,
    )
}

/// The entities that fit a scope's value: the entity where the store holds it,
/// or the entities that `types` lists for the type.
pub open spec fn scope_candidates(
    entities: &Entities,
    types: Map<Seq<char>, Seq<UidKey>>,
    value: LitKey,
) -> Seq<UidKey> {
    match value {
        LitKey::Uid(uid) => if entities.has(uid) {
            seq![uid]
        } else {
            Seq::empty()
        },
        LitKey::Str(ty) => at(types, ty),
        _ => Seq::empty(),
    }
}

/// The constraints of a scope for the principal or the resource, and whether
/// the scope is captured.
pub fn principal_or_resource_scope_constraints(
    entities: &Entities,
    type_index: &ListMap<EntityType, EntityUID>,
    attr_name: &str,
    constraint: &PrincipalOrResourceConstraint,
) -> (r: (Vec<Constraint>, bool))
    requires
        entities.wf(),
        type_index.wf(),
    ensures
        r.1 == scope_captured(*constraint),
        atoms(r.0@) == scope_atoms(attr_name@, *constraint),
        forall|i: int|
            0 <= i < r.0@.len() ==> keys((#[trigger] r.0@[i]).candidates@) == scope_candidates(
                entities,
                type_index@,
                r.0@[i].value.key(),
            ),
{
    let attr = smol_from(attr_name);
    let mut cs: Vec<Constraint> = Vec::new();
    match constraint {
        PrincipalOrResourceConstraint::Any => {
            assert(atoms(cs@) =~= scope_atoms(attr_name@, *constraint));
            (cs, true)
        },
        PrincipalOrResourceConstraint::Eq(EntityReference::EUID(uid)) => {
            cs.push(
                Constraint {
                    attr,
                    value: Literal::EntityUID(uid.dup()),
                    candidates: entities_with_uid(entities, uid),
                },
            );
            assert(atoms(cs@) =~= scope_atoms(attr_name@, *constraint));
            (cs, true)
        },
        PrincipalOrResourceConstraint::Is(entity_type) => {
            cs.push(
                Constraint {
                    attr,
                    value: Literal::String(entity_type.to_smolstr()),
                    candidates: candidates_from_type_index(type_index, entity_type),
                },
            );
            assert(atoms(cs@) =~= scope_atoms(attr_name@, *constraint));
            (cs, true)
        },
        PrincipalOrResourceConstraint::Eq(EntityReference::Slot(_))
        | PrincipalOrResourceConstraint::In(_)
        | PrincipalOrResourceConstraint::IsIn(_, _) => {
            assert(atoms(cs@) =~= scope_atoms(attr_name@, *constraint));
            (cs, false)
        },
    }
}

/// The constraints of a scope for the action, and whether the scope is captured.
pub fn action_scope_constraints(entities: &Entities, constraint: &ActionConstraint) -> (r: (
    Vec<Constraint>,
    bool,
))
    requires
        entities.wf(),
    ensures
        r.1 == action_captured(*constraint),
        atoms(r.0@) == action_atoms(*constraint),
        forall|i: int|
            0 <= i < r.0@.len() ==> keys((#[trigger] r.0@[i]).candidates@) == scope_candidates(
                entities,
                Map::empty(),
                r.0@[i].value.key(),
            ),
{
    let mut cs: Vec<Constraint> = Vec::new();
    match constraint {
        ActionConstraint::Any => {
            assert(atoms(cs@) =~= action_atoms(*constraint));
            (cs, true)
        },
        ActionConstraint::Eq(uid) => {
            cs.push(
                Constraint {
                    attr: smol_from(SCOPE_ACTION_ATTR),
                    value: Literal::EntityUID(uid.dup()),
                    candidates: entities_with_uid(entities, uid),
                },
            );
            assert(atoms(cs@) =~= action_atoms(*constraint));
            (cs, true)
        },
        ActionConstraint::In(_) | ActionConstraint::ErrorConstraint => {
            assert(atoms(cs@) =~= action_atoms(*constraint));
            (cs, false)
        },
    }
}

/// The key of `base.attr`, where `base` is the principal, the resource or the
/// context.
fn attr_key(base: &Expr, attr: &SmolStr) -> (r: Option<SmolStr>)
    ensures
        match r {
            Some(key) => forall|lit: LitKey| #[trigger]
                attr_atom(*base, smol_chars(*attr), lit) == Some((smol_chars(key), lit)),
            None => forall|lit: LitKey| #[trigger]
                attr_atom(*base, smol_chars(*attr), lit) is None,
        },
{
    match base {
        Expr::Var(Var::Principal) => Some(side_scoped_attr(true, attr)),
        Expr::Var(Var::Resource) => Some(side_scoped_attr(false, attr)),
        Expr::Var(Var::Context) => Some(context_attr_key(attr)),
        _ => None,
    }
}

/// Collects the equations of a condition, and says whether they are all of it.
pub fn collect_attr_constraints(expr: &Expr, constraints: &mut Vec<(SmolStr, Literal)>) -> (r: bool)
    ensures
        r == condition_captured(*expr),
        keys(final(constraints)@) == keys(old(constraints)@) + condition_atoms(*expr),
    decreases *expr,
{
    let ghost before = constraints@;
    match expr {
        Expr::And { left, right } => {
            let l = collect_attr_constraints(left, constraints);
            let r = collect_attr_constraints(right, constraints);
            assert(keys(constraints@) =~= keys(before) + condition_atoms(*expr));
            l && r
        },
        Expr::BinaryApp { op: BinaryOp::Eq, arg1, arg2 } => {
            let equation = match (&**arg1, &**arg2) {
                (Expr::GetAttr { expr: base, attr }, Expr::Lit(lit)) => Some((base, attr, lit)),
                (Expr::Lit(lit), Expr::GetAttr { expr: base, attr }) => Some((base, attr, lit)),
                _ => None,
            };
            if let Some((base, attr, lit)) = equation {
                if let Some(key) = attr_key(base, attr) {
                    assert(equation_atom(**arg1, **arg2) == Some((smol_chars(key), lit.key())));
                    constraints.push((key, lit.dup()));
                    assert(keys(constraints@) =~= keys(before) + condition_atoms(*expr));
                    return true;
                }
                assert(attr_atom(**base, smol_chars(*attr), lit.key()) is None);
            }
            assert(keys(constraints@) =~= keys(before) + condition_atoms(*expr));
            false
        },
        _ => {
            assert(keys(constraints@) =~= keys(before) + condition_atoms(*expr));
            false
        },
    }
}

} // verus!
