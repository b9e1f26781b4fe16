//! What it means for an indexed policy to apply to a request, said of the
//! policy itself, and that its extracted constraints say the same.

use vstd::prelude::*;

use crate::ast::{
    ActionConstraint, BinaryOp, EntityReference, Expr, LitKey, Policy,
    PrincipalOrResourceConstraint, Request, UidKey, Var,
};
use crate::entities::Entities;
use crate::keyed::Keyed;
use crate::poltree::constraints::{
    action_atoms, action_captured, condition_atoms, condition_captured, equation_atom,
    optional_condition_atoms, policy_atoms, policy_indexed, scope_atoms, scope_captured,
};
use crate::poltree::keys::{
    context_key, context_key_roundtrip, is_scope_key, scope_keys_distinct, side_key,
    side_key_roundtrip, SCOPE_ACTION_ATTR, SCOPE_PRINCIPAL_ATTR, SCOPE_RESOURCE_ATTR,
};
use crate::poltree::request_values::{
    action_scope_values, context_lit, entity_scope_values, side_lit, values_of,
};
use crate::seqs::option_seq;
use crate::text::smol_chars;

verus! {

/// Whether a captured scope for the principal or the resource lets `uid` in.
pub open spec fn scope_holds(c: PrincipalOrResourceConstraint, uid: Option<UidKey>) -> bool
    recommends
        scope_captured(c),
{
    match c {
        PrincipalOrResourceConstraint::Any => true,
        PrincipalOrResourceConstraint::Eq(EntityReference::EUID(u)) => uid == Some(u.key()),
        PrincipalOrResourceConstraint::Is(ty) => uid matches Some(u) && u.ty == ty.key(),
        _ => false,
    }
}

/// Whether a captured scope for the action lets `uid` in.
pub open spec fn action_holds(c: ActionConstraint, uid: Option<UidKey>) -> bool
    recommends
        action_captured(c),
{
    match c {
        ActionConstraint::Any => true,
        ActionConstraint::Eq(u) => uid == Some(u.key()),
        _ => false,
    }
}

/// The scalar that `base.name` is known to be, where `base` is the principal,
/// the resource or the context.
pub open spec fn attr_value(
    request: &Request,
    entities: &Entities,
    base: Expr,
    name: Seq<char>,
) -> Option<LitKey> {
    match base {
        Expr::Var(Var::Principal) => side_lit(request, entities, true, name),
        Expr::Var(Var::Resource) => side_lit(request, entities, false, name),
        Expr::Var(Var::Context) => context_lit(request, name),
        _ => None,
    }
}

/// Whether a captured condition holds: each of its equations does. An attribute
/// that is missing, unknown or no scalar equals no literal.
pub open spec fn condition_holds(request: &Request, entities: &Entities, e: Expr) -> bool
    recommends
        condition_captured(e),
    decreases e,
{
    match e {
        Expr::And { left, right } => condition_holds(request, entities, *left) && condition_holds(
            request,
            entities,
            *right,
        ),
        Expr::BinaryApp { op: BinaryOp::Eq, arg1, arg2 } => match (*arg1, *arg2) {
            (Expr::GetAttr { expr, attr }, Expr::Lit(lit)) => attr_value(
                request,
                entities,
                *expr,
                smol_chars(attr),
            ) == Some(lit.key()),
            (Expr::Lit(lit), Expr::GetAttr { expr, attr }) => attr_value(
                request,
                entities,
                *expr,
                smol_chars(attr),
            ) == Some(lit.key()),
            _ => false,
        },
        _ => false,
    }
}

/// Whether an indexed policy applies to a request.
pub open spec fn policy_holds(request: &Request, entities: &Entities, p: Policy) -> bool
    recommends
        policy_indexed(p),
{
    &&& scope_holds(p.template.principal_constraint, request.principal.uid_key())
    &&& scope_holds(p.template.resource_constraint, request.resource.uid_key())
    &&& action_holds(p.template.action_constraint, request.action.uid_key())
    &&& match p.template.non_scope_constraints {
        Some(e) => condition_holds(request, entities, e),
        None => true,
    }
}

/// Whether the request gives each key the value that `cs` asks for.
pub open spec fn meets(
    request: &Request,
    entities: &Entities,
    cs: Seq<(Seq<char>, LitKey)>,
) -> bool {
    forall|i: int|
        0 <= i < cs.len() ==> values_of(request, entities, (#[trigger] cs[i]).0).contains(cs[i].1)
}

/// To meet two lists is to meet each.
proof fn lemma_meets_concat(
    request: &Request,
    entities: &Entities,
    a: Seq<(Seq<char>, LitKey)>,
    b: Seq<(Seq<char>, LitKey)>,
)
    ensures
        meets(request, entities, a + b) <==> meets(request, entities, a) && meets(
            request,
            entities,
            b,
        ),
{
    if meets(request, entities, a + b) {
        assert forall|i: int| 0 <= i < a.len() implies values_of(
            request,
            entities,
            (#[trigger] a[i]).0,
        ).contains(a[i].1) by {
            assert((a + b)[i] == a[i]);
        }
        assert forall|i: int| 0 <= i < b.len() implies values_of(
            request,
            entities,
            (#[trigger] b[i]).0,
        ).contains(b[i].1) by {
            assert((a + b)[a.len() + i] == b[i]);
        }
    }
}

/// The values of the keys of scopes and of attributes.
pub proof fn lemma_values(request: &Request, entities: &Entities)
    ensures
        values_of(request, entities, SCOPE_PRINCIPAL_ATTR@) == entity_scope_values(
            request.principal.uid_key(),
        ),
        values_of(request, entities, SCOPE_RESOURCE_ATTR@) == entity_scope_values(
            request.resource.uid_key(),
        ),
        values_of(request, entities, SCOPE_ACTION_ATTR@) == action_scope_values(
            request.action.uid_key(),
        ),
        forall|name: Seq<char>| #[trigger]
            values_of(request, entities, context_key(name)) == option_seq(
                context_lit(request, name),
            ),
        forall|is_principal: bool, name: Seq<char>| #[trigger]
            values_of(request, entities, side_key(is_principal, name)) == option_seq(
                side_lit(request, entities, is_principal, name),
            ),
{
    scope_keys_distinct();
    assert(is_scope_key(SCOPE_PRINCIPAL_ATTR@));
    assert(is_scope_key(SCOPE_RESOURCE_ATTR@));
    assert(is_scope_key(SCOPE_ACTION_ATTR@));
    assert forall|name: Seq<char>| #[trigger]
        values_of(request, entities, context_key(name)) == option_seq(
            context_lit(request, name),
        ) by {
        context_key_roundtrip(name);
    }
    assert forall|is_principal: bool, name: Seq<char>| #[trigger]
        values_of(request, entities, side_key(is_principal, name)) == option_seq(
            side_lit(request, entities, is_principal, name),
        ) by {
        side_key_roundtrip(is_principal, name);
    }
}

/// A captured condition holds where its equations are met, and only there.
pub proof fn condition_means_its_equations(request: &Request, entities: &Entities, e: Expr)
    requires
        condition_captured(e),
    ensures
        condition_holds(request, entities, e) <==> meets(request, entities, condition_atoms(e)),
    decreases e,
{
    match e {
        Expr::And { left, right } => {
            condition_means_its_equations(request, entities, *left);
            condition_means_its_equations(request, entities, *right);
            lemma_meets_concat(request, entities, condition_atoms(*left), condition_atoms(*right));
        },
        Expr::BinaryApp { op: BinaryOp::Eq, arg1, arg2 } => {
            lemma_values(request, entities);
            let atom = equation_atom(*arg1, *arg2)->0;
            assert(condition_atoms(e) =~= seq![atom]);
            assert(meets(request, entities, condition_atoms(e)) <==> values_of(
                request,
                entities,
                atom.0,
            ).contains(atom.1)) by {
                assert(condition_atoms(e)[0] == atom);
            }
            assert forall|o: Option<LitKey>, l: LitKey| #[trigger]
                option_seq(o).contains(l) <==> o == Some(l) by {
                if o is Some {
                    assert(option_seq(o)[0] == o->0);
                }
            }
        },
        _ => {},
    }
}

/// An indexed policy applies to a request where the request gives each key of
/// its constraints the value that it asks for, and only there.
pub proof fn policy_means_its_constraints(request: &Request, entities: &Entities, p: Policy)
    requires
        policy_indexed(p),
    ensures
        policy_holds(request, entities, p) <==> meets(request, entities, policy_atoms(p)),
{
    let a = scope_atoms(SCOPE_PRINCIPAL_ATTR@, p.body().principal_constraint);
    let b = scope_atoms(SCOPE_RESOURCE_ATTR@, p.body().resource_constraint);
    let c = action_atoms(p.body().action_constraint);
    let d = optional_condition_atoms(p.body().non_scope_constraints);
    lemma_meets_concat(request, entities, a + b + c, d);
    lemma_meets_concat(request, entities, a + b, c);
    lemma_meets_concat(request, entities, a, b);
    lemma_values(request, entities);
    lemma_scope_meets(
        request,
        entities,
        SCOPE_PRINCIPAL_ATTR@,
        p.body().principal_constraint,
        request.principal.uid_key(),
    );
    lemma_scope_meets(
        request,
        entities,
        SCOPE_RESOURCE_ATTR@,
        p.body().resource_constraint,
        request.resource.uid_key(),
    );
    match p.body().action_constraint {
        ActionConstraint::Eq(u) => {
            let uid = request.action.uid_key();
            assert(c[0] == (SCOPE_ACTION_ATTR@, LitKey::Uid(u.key())));
            if uid is Some {
                assert(action_scope_values(uid)[0] == LitKey::Uid(uid->0));
            }
        },
        _ => {},
    }
    match p.body().non_scope_constraints {
        Some(e) => {
            condition_means_its_equations(request, entities, e);
        },
        None => {},
    }
}

/// A captured scope lets an entity in where what it asks of its key is met.
proof fn lemma_scope_meets(
    request: &Request,
    entities: &Entities,
    key: Seq<char>,
    c: PrincipalOrResourceConstraint,
    uid: Option<UidKey>,
)
    requires
        scope_captured(c),
        values_of(request, entities, key) == entity_scope_values(uid),
    ensures
        scope_holds(c, uid) <==> meets(request, entities, scope_atoms(key, c)),
{
    let vs = entity_scope_values(uid);
    if uid is Some {
        assert(vs[0] == LitKey::Uid(uid->0));
        assert(vs[1] == LitKey::Str((uid->0).ty));
    }
    if scope_atoms(key, c).len() > 0 {
        let atom = scope_atoms(key, c)[0];
        assert(meets(request, entities, scope_atoms(key, c)) <==> vs.contains(atom.1));
    }
}

} // verus!
