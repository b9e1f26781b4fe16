//! The entities that the constraints of a policy leave.

use smol_str::SmolStr;
use vstd::prelude::*;

use crate::ast::{
    ActionConstraint, BinaryOp, Effect, EntityUID, Expr, LitKey, Literal, Policy,
    PrincipalOrResourceConstraint, UidKey,
};
use crate::entities::{uids, Entities, Entity};
use crate::keyed::{at, dup_all, keys, lemma_union_onto, retain_in, Keyed};
use crate::poltree::constraints::{
    action_atoms, action_scope_constraints, atoms, collect_attr_constraints, condition_atoms,
    optional_condition_atoms, policy_atoms, policy_indexed,
    principal_or_resource_scope_constraints, scope_atoms, scope_candidates, Constraint,
};
use crate::poltree::keys::{
    context_key, context_key_roundtrip, is_context_attr, is_context_key, is_scope_key,
    scope_keys_distinct, side_key, side_key_roundtrip, split_side_key, split_side_scoped_attr,
    CONTEXT_ATTR_PREFIX, SCOPE_ACTION_ATTR, SCOPE_PRINCIPAL_ATTR, SCOPE_RESOURCE_ATTR,
};
use crate::poltree::scan::{
    candidates_from_sv_map, is_sv_map, is_type_index, of_type, with_attr, EntityScanIndexes,
};
use crate::seqs::{lemma_filter_contains, lemma_filter_no_duplicates, lemma_push_contains};
use crate::text::{smol_chars, smol_from};

verus! {

/// Whether entity `uid` fits a constraint on an entity: it is the one that a
/// scope names, it is of the type that a scope names, or its attribute has the
/// value that a condition names. In each case the store holds it.
pub open spec fn fits(entities: &Entities, key: Seq<char>, value: LitKey, uid: UidKey) -> bool {
    if is_scope_key(key) {
        match value {
            LitKey::Uid(u) => uid == u && entities.has(uid),
            LitKey::Str(ty) => uid.ty == ty && entities.has(uid),
            _ => false,
        }
    } else {
        match split_side_key(key) {
            Some((_, name)) => entities.attr_lit(uid, name) == Some(value),
            None => false,
        }
    }
}

/// Whether `uid` fits every constraint of `cs` that is one on an entity; the
/// context says nothing about which entities a policy covers.
pub open spec fn fits_all(entities: &Entities, cs: Seq<(Seq<char>, LitKey)>, uid: UidKey) -> bool {
    forall|i: int|
        0 <= i < cs.len() && !is_context_key((#[trigger] cs[i]).0) ==> fits(
            entities,
            cs[i].0,
            cs[i].1,
            uid,
        )
}

/// Whether some constraint of `cs` is one on an entity.
pub open spec fn on_entities(cs: Seq<(Seq<char>, LitKey)>) -> bool {
    exists|i: int| 0 <= i < cs.len() && !is_context_key((#[trigger] cs[i]).0)
}

/// In a well-formed store, the entities with an attribute value are those whose
/// attribute has that value, and none occurs twice.
pub proof fn lemma_with_attr(entities: &Entities, name: Seq<char>, lit: LitKey)
    requires
        entities.wf(),
    ensures
        with_attr(entities.entities@, name, lit).no_duplicates(),
        forall|u: UidKey| #[trigger]
            with_attr(entities.entities@, name, lit).contains(u) <==> entities.attr_lit(u, name)
                == Some(lit),
{
    let es = entities.entities@;
    lemma_with_attr_prefix(es, es.len() as int, name, lit);
    assert(es.take(es.len() as int) =~= es);
    assert forall|u: UidKey| #[trigger] with_attr(es, name, lit).contains(u) <==> entities.attr_lit(
        u,
        name,
    ) == Some(lit) by {
        if with_attr(es, name, lit).contains(u) {
            let i = choose|i: int|
                0 <= i < es.len() && #[trigger] uids(es)[i] == u && es[i].attr_lit(name) == Some(
                    lit,
                );
            entities.lemma_attr_lit(i, name);
        }
        if entities.attr_lit(u, name) == Some(lit) {
            let i = uids(es).index_of(u);
            assert(uids(es)[i] == u);
        }
    }
}

proof fn lemma_with_attr_prefix(es: Seq<Entity>, n: int, name: Seq<char>, lit: LitKey)
    requires
        uids(es).no_duplicates(),
        0 <= n <= es.len(),
    ensures
        with_attr(es.take(n), name, lit).no_duplicates(),
        forall|u: UidKey| #[trigger]
            with_attr(es.take(n), name, lit).contains(u) <==> exists|i: int|
                0 <= i < n && #[trigger] uids(es)[i] == u && es[i].attr_lit(name) == Some(lit),
    decreases n,
{
    if n > 0 {
        lemma_with_attr_prefix(es, n - 1, name, lit);
        assert(es.take(n).drop_last() =~= es.take(n - 1));
        let front = with_attr(es.take(n - 1), name, lit);
        let x = uids(es)[n - 1];
        assert(es.take(n).last() == es[n - 1]);
        assert forall|u: UidKey| #[trigger]
            with_attr(es.take(n), name, lit).contains(u) <==> exists|i: int|
                0 <= i < n && #[trigger] uids(es)[i] == u && es[i].attr_lit(name) == Some(lit) by {
            lemma_push_contains(front, x, u);
            assert(front.contains(u) <==> exists|i: int|
                0 <= i < n - 1 && #[trigger] uids(es)[i] == u && es[i].attr_lit(name) == Some(lit));
        }
        if front.contains(x) {
            let i = choose|i: int|
                0 <= i < n - 1 && #[trigger] uids(es)[i] == x && es[i].attr_lit(name) == Some(lit);
            assert(uids(es)[i] == uids(es)[n - 1]);
        }
    }
}

/// In a well-formed store, the entities of a type are those that the store
/// holds of that type, and none occurs twice.
pub proof fn lemma_of_type(entities: &Entities, ty: Seq<char>)
    requires
        entities.wf(),
    ensures
        of_type(entities.entities@, ty).no_duplicates(),
        forall|u: UidKey| #[trigger]
            of_type(entities.entities@, ty).contains(u) <==> u.ty == ty && entities.has(u),
{
    let es = entities.entities@;
    lemma_of_type_prefix(es, es.len() as int, ty);
    assert(es.take(es.len() as int) =~= es);
    assert(uids(es).take(es.len() as int) =~= uids(es));
}

proof fn lemma_of_type_prefix(es: Seq<Entity>, n: int, ty: Seq<char>)
    requires
        uids(es).no_duplicates(),
        0 <= n <= es.len(),
    ensures
        of_type(es.take(n), ty).no_duplicates(),
        forall|u: UidKey| #[trigger]
            of_type(es.take(n), ty).contains(u) <==> u.ty == ty && uids(es).take(n).contains(u),
    decreases n,
{
    if n > 0 {
        lemma_of_type_prefix(es, n - 1, ty);
        assert(es.take(n).drop_last() =~= es.take(n - 1));
        let front = of_type(es.take(n - 1), ty);
        let x = uids(es)[n - 1];
        assert(es.take(n).last() == es[n - 1]);
        assert(uids(es).take(n) =~= uids(es).take(n - 1).push(x));
        assert forall|u: UidKey| #[trigger]
            of_type(es.take(n), ty).contains(u) <==> u.ty == ty && uids(es).take(n).contains(u) by {
            lemma_push_contains(front, x, u);
            lemma_push_contains(uids(es).take(n - 1), x, u);
        }
        if front.contains(x) {
            let i = uids(es).take(n - 1).index_of(x);
            assert(uids(es)[i] == uids(es)[n - 1]);
        }
    } else {
        assert(uids(es).take(n) =~= Seq::empty());
    }
}

/// Whether the candidates of `c`, where it is a constraint on an entity, are
/// the entities that fit it, each once.
pub open spec fn has_candidates(entities: &Entities, c: Constraint) -> bool {
    !is_context_key(smol_chars(c.attr)) ==> {
        &&& keys(c.candidates@).no_duplicates()
        &&& forall|u: UidKey| #[trigger]
            keys(c.candidates@).contains(u) <==> fits(
                entities,
                smol_chars(c.attr),
                c.value.key(),
                u,
            )
    }
}

/// A scope's candidates are the entities that fit it.
proof fn lemma_scope_candidates(
    entities: &Entities,
    types: Map<Seq<char>, Seq<UidKey>>,
    c: Constraint,
)
    requires
        entities.wf(),
        is_scope_key(smol_chars(c.attr)),
        match c.value.key() {
            LitKey::Uid(_) => true,
            LitKey::Str(_) => is_type_index(types, entities.entities@),
            _ => false,
        },
        keys(c.candidates@) == scope_candidates(entities, types, c.value.key()),
    ensures
        has_candidates(entities, c),
{
    match c.value.key() {
        LitKey::Uid(uid) => {
            let s = seq![uid];
            assert(s[0] == uid);
        },
        LitKey::Str(ty) => {
            lemma_of_type(entities, ty);
            assert(at(types, ty) == of_type(entities.entities@, ty));
        },
        _ => {},
    }
}

/// What a scope asks is under its key, and is an entity or a type's name.
proof fn lemma_scope_keys(key: Seq<char>, c: PrincipalOrResourceConstraint)
    ensures
        forall|i: int|
            0 <= i < scope_atoms(key, c).len() ==> {
                &&& (#[trigger] scope_atoms(key, c)[i]).0 == key
                &&& scope_atoms(key, c)[i].1 is Uid || scope_atoms(key, c)[i].1 is Str
            },
{
}

/// What a scope for the action asks is under its key, and is an entity.
proof fn lemma_action_keys(c: ActionConstraint)
    ensures
        forall|i: int|
            0 <= i < action_atoms(c).len() ==> {
                &&& (#[trigger] action_atoms(c)[i]).0 == SCOPE_ACTION_ATTR@
                &&& action_atoms(c)[i].1 is Uid
            },
{
}

/// Each equation of a condition is under the key of an attribute.
pub proof fn lemma_condition_keys(e: Expr)
    ensures
        forall|i: int|
            0 <= i < condition_atoms(e).len() ==> {
                let key = (#[trigger] condition_atoms(e)[i]).0;
                !is_scope_key(key) && (is_context_key(key) || split_side_key(key) is Some)
            },
    decreases e,
{
    match e {
        Expr::And { left, right } => {
            lemma_condition_keys(*left);
            lemma_condition_keys(*right);
            let l = condition_atoms(*left);
            assert forall|i: int| 0 <= i < condition_atoms(e).len() implies {
                let key = (#[trigger] condition_atoms(e)[i]).0;
                !is_scope_key(key) && (is_context_key(key) || split_side_key(key) is Some)
            } by {
                if i < l.len() {
                    assert(condition_atoms(e)[i] == l[i]);
                } else {
                    assert(condition_atoms(e)[i] == condition_atoms(*right)[i - l.len()]);
                }
            }
        },
        Expr::BinaryApp { op: BinaryOp::Eq, arg1, arg2 } => {
            assert forall|attr: Seq<char>|
                {
                    &&& split_side_key(#[trigger] side_key(true, attr)) is Some
                    &&& !is_scope_key(side_key(true, attr))
                } by {
                side_key_roundtrip(true, attr);
            }
            assert forall|attr: Seq<char>|
                {
                    &&& split_side_key(#[trigger] side_key(false, attr)) is Some
                    &&& !is_scope_key(side_key(false, attr))
                } by {
                side_key_roundtrip(false, attr);
            }
            assert forall|attr: Seq<char>|
                {
                    &&& is_context_key(#[trigger] context_key(attr))
                    &&& !is_scope_key(context_key(attr))
                } by {
                context_key_roundtrip(attr);
            }
        },
        _ => {},
    }
}

/// The constraints of a policy with their candidates, where the policy is
/// indexed.
pub fn policy_constraints(policy: &Policy, entities: &Entities, scan: &EntityScanIndexes) -> (r:
    Option<Vec<Constraint>>)
    requires
        entities.wf(),
        scan.sv_map.wf(),
        scan.type_index.wf(),
        is_sv_map(scan.sv_map@, entities.entities@),
        is_type_index(scan.type_index@, entities.entities@),
    ensures
        r is Some <==> policy_indexed(*policy),
        r matches Some(cs) ==> {
            &&& atoms(cs@) == policy_atoms(*policy)
            &&& forall|i: int| 0 <= i < cs@.len() ==> has_candidates(entities, #[trigger] cs@[i])
            &&& forall|i: int|
                0 <= i < cs@.len() && CONTEXT_ATTR_PREFIX@.is_prefix_of(
                    smol_chars((#[trigger] cs@[i]).attr),
                ) ==> cs@[i].candidates@.len() == 0
        },
{
    if policy.effect() == Effect::Forbid {
        return None;
    }
    let template = policy.template();
    let (mut constraints, ok1) = principal_or_resource_scope_constraints(
        entities,
        &scan.type_index,
        SCOPE_PRINCIPAL_ATTR,
        &template.principal_constraint,
    );
    let (mut resource, ok2) = principal_or_resource_scope_constraints(
        entities,
        &scan.type_index,
        SCOPE_RESOURCE_ATTR,
        &template.resource_constraint,
    );
    let (mut action, ok3) = action_scope_constraints(entities, &template.action_constraint);
    let mut equations: Vec<(SmolStr, Literal)> = Vec::new();
    assert(keys(equations@) =~= Seq::<(Seq<char>, LitKey)>::empty());
    let ok4 = match &template.non_scope_constraints {
        Some(expr) => {
            proof {
                lemma_condition_keys(*expr);
            }
            collect_attr_constraints(expr, &mut equations)
        },
        None => true,
    };
    if !(ok1 && ok2 && ok3 && ok4) {
        return None;
    }
    let ghost principal_atoms = scope_atoms(SCOPE_PRINCIPAL_ATTR@, template.principal_constraint);
    let ghost resource_atoms = scope_atoms(SCOPE_RESOURCE_ATTR@, template.resource_constraint);
    let ghost act_atoms = action_atoms(template.action_constraint);
    proof {
        assert forall|i: int| 0 <= i < constraints@.len() implies has_candidates(
            entities,
            #[trigger] constraints@[i],
        ) by {
            assert(atoms(constraints@)[i] == constraints@[i].atom());
            lemma_scope_keys(SCOPE_PRINCIPAL_ATTR@, template.principal_constraint);
            lemma_scope_candidates(entities, scan.type_index@, constraints@[i]);
        }
        assert forall|i: int| 0 <= i < resource@.len() implies has_candidates(
            entities,
            #[trigger] resource@[i],
        ) by {
            assert(atoms(resource@)[i] == resource@[i].atom());
            lemma_scope_keys(SCOPE_RESOURCE_ATTR@, template.resource_constraint);
            lemma_scope_candidates(entities, scan.type_index@, resource@[i]);
        }
        assert forall|i: int| 0 <= i < action@.len() implies has_candidates(
            entities,
            #[trigger] action@[i],
        ) by {
            assert(atoms(action@)[i] == action@[i].atom());
            lemma_action_keys(template.action_constraint);
            lemma_scope_candidates(entities, Map::empty(), action@[i]);
        }
    }
    constraints.append(&mut resource);
    constraints.append(&mut action);
    let ghost scope = principal_atoms + resource_atoms + act_atoms;
    assert(atoms(constraints@) =~= scope);
    proof {
        scope_keys_distinct();
        lemma_scope_keys(SCOPE_PRINCIPAL_ATTR@, template.principal_constraint);
        lemma_scope_keys(SCOPE_RESOURCE_ATTR@, template.resource_constraint);
        lemma_action_keys(template.action_constraint);
        assert forall|i: int| 0 <= i < constraints@.len() implies !is_context_key(
            smol_chars((#[trigger] constraints@[i]).attr),
        ) by {
            assert(scope[i] == constraints@[i].atom());
            assert(is_scope_key(scope[i].0));
        }
    }
    let ghost eqs = keys(equations@);
    assert(eqs == optional_condition_atoms(template.non_scope_constraints));
    assert(scope + eqs.take(0) =~= scope);
    for i in 0..equations.len()
        invariant
            entities.wf(),
            scan.sv_map.wf(),
            is_sv_map(scan.sv_map@, entities.entities@),
            eqs == keys(equations@),
            forall|j: int|
                0 <= j < eqs.len() ==> !is_scope_key((#[trigger] eqs[j]).0) && (is_context_key(
                    eqs[j].0,
                ) || split_side_key(eqs[j].0) is Some),
            atoms(constraints@) == scope + eqs.take(i as int),
            forall|j: int|
                0 <= j < constraints@.len() ==> has_candidates(
                    entities,
                    #[trigger] constraints@[j],
                ),
            forall|j: int|
                0 <= j < constraints@.len() && is_context_key(
                    smol_chars((#[trigger] constraints@[j]).attr),
                ) ==> constraints@[j].candidates@.len() == 0,
    {
        let attr = &equations[i].0;
        let lit = &equations[i].1;
        assert(eqs[i as int] == (smol_chars(*attr), lit.key()));
        let candidates: Vec<EntityUID> = if is_context_attr(attr) {
            Vec::new()
        } else {
            match split_side_scoped_attr(attr.as_str()) {
                Some((_, raw)) => {
                    proof {
                        let list = at(scan.sv_map@, (raw@, lit.key()));
                        assert(list == with_attr(entities.entities@, raw@, lit.key()));
                        lemma_with_attr(entities, raw@, lit.key());
                        lemma_union_onto(Seq::empty(), list);
                    }
                    candidates_from_sv_map(&scan.sv_map, &smol_from(raw), lit)
                },
                None => candidates_from_sv_map(&scan.sv_map, attr, lit),
            }
        };
        let ghost before = constraints@;
        constraints.push(Constraint { attr: attr.clone(), value: lit.dup(), candidates });
        assert(atoms(constraints@) =~= atoms(before).push(eqs[i as int]));
        assert(scope + eqs.take(i + 1) =~= (scope + eqs.take(i as int)).push(eqs[i as int]));
    }
    assert(eqs.take(eqs.len() as int) =~= eqs);
    Some(constraints)
}

/// Whether `uid` is a candidate of every constraint of `cs` that is one on an
/// entity.
pub open spec fn in_all(cs: Seq<Constraint>, uid: UidKey) -> bool {
    forall|i: int|
        0 <= i < cs.len() && !is_context_key(smol_chars((#[trigger] cs[i]).attr)) ==> keys(
            cs[i].candidates@,
        ).contains(uid)
}

/// The candidates that all constraints on entities share; `None` where there is
/// no such constraint.
pub fn covered_entities(constraints: &Vec<Constraint>) -> (r: Option<Vec<EntityUID>>)
    requires
        forall|i: int|
            0 <= i < constraints@.len() && !is_context_key(
                smol_chars((#[trigger] constraints@[i]).attr),
            ) ==> keys(constraints@[i].candidates@).no_duplicates(),
    ensures
        match r {
            Some(us) => {
                &&& on_entities(atoms(constraints@))
                &&& keys(us@).no_duplicates()
                &&& forall|u: UidKey| #[trigger]
                    keys(us@).contains(u) <==> in_all(constraints@, u)
            },
            None => !on_entities(atoms(constraints@)),
        },
        r is None <==> forall|i: int|
            0 <= i < constraints@.len() ==> CONTEXT_ATTR_PREFIX@.is_prefix_of(
                smol_chars((#[trigger] constraints@[i]).attr),
            ),
        r matches Some(us) ==> forall|u: UidKey| #[trigger]
            keys(us@).contains(u) <==> forall|i: int|
                0 <= i < constraints@.len() && !CONTEXT_ATTR_PREFIX@.is_prefix_of(
                    smol_chars((#[trigger] constraints@[i]).attr),
                ) ==> keys(constraints@[i].candidates@).contains(u),
{
    let ghost cs = constraints@;
    let mut covered: Option<Vec<EntityUID>> = None;
    for i in 0..constraints.len()
        invariant
            cs == constraints@,
            forall|j: int|
                0 <= j < cs.len() && !is_context_key(smol_chars((#[trigger] cs[j]).attr)) ==> keys(
                    cs[j].candidates@,
                ).no_duplicates(),
            match covered {
                Some(us) => {
                    &&& on_entities(atoms(cs.take(i as int)))
                    &&& keys(us@).no_duplicates()
                    &&& forall|u: UidKey| #[trigger]
                        keys(us@).contains(u) <==> in_all(cs.take(i as int), u)
                },
                None => !on_entities(atoms(cs.take(i as int))),
            },
    {
        let c = &constraints[i];
        let ghost before = covered;
        let ghost done = cs.take(i as int);
        let ghost next = cs.take(i + 1);
        assert(next =~= done.push(*c));
        assert(atoms(next) =~= atoms(done).push(c.atom()));
        proof {
            lemma_on_entities_push(atoms(done), c.atom());
            assert forall|u: UidKey| #[trigger]
                in_all(next, u) <==> in_all(done, u) && (!is_context_key(smol_chars(c.attr)) ==> keys(
                    c.candidates@,
                ).contains(u)) by {
                assert(next[i as int] == *c);
                if in_all(next, u) {
                    assert forall|j: int|
                        0 <= j < done.len() && !is_context_key(
                            smol_chars((#[trigger] done[j]).attr),
                        ) implies keys(done[j].candidates@).contains(u) by {
                        assert(next[j] == done[j]);
                    }
                }
            }
        }
        if !is_context_attr(&c.attr) {
            covered = Some(
                match &covered {
                    None => {
                        proof {
                            assert forall|u: UidKey| in_all(done, u) by {
                                assert forall|j: int|
                                    0 <= j < done.len() && !is_context_key(
                                        smol_chars((#[trigger] done[j]).attr),
                                    ) implies keys(done[j].candidates@).contains(u) by {
                                    assert(!is_context_key(atoms(done)[j].0));
                                }
                            }
                        }
                        dup_all(&c.candidates)
                    },
                    Some(existing) => {
                        proof {
                            let p = |k: UidKey| keys(c.candidates@).contains(k);
                            lemma_filter_contains(keys(existing@), p);
                            lemma_filter_no_duplicates(keys(existing@), p);
                        }
                        retain_in(existing, &c.candidates)
                    },
                },
            );
        }
    }
    assert(cs.take(cs.len() as int) =~= cs);
    proof {
        assert(forall|i: int|
            0 <= i < cs.len() ==> (#[trigger] atoms(cs)[i]).0 == smol_chars(cs[i].attr));
        if !on_entities(atoms(cs)) {
            assert forall|i: int| 0 <= i < cs.len() implies is_context_key(
                smol_chars((#[trigger] cs[i]).attr),
            ) by {
                assert(is_context_key(atoms(cs)[i].0));
            }
        }
    }
    covered
}

/// A further constraint on an entity, or an earlier one.
proof fn lemma_on_entities_push(cs: Seq<(Seq<char>, LitKey)>, c: (Seq<char>, LitKey))
    ensures
        on_entities(cs.push(c)) <==> on_entities(cs) || !is_context_key(c.0),
{
    if on_entities(cs) {
        let i = choose|i: int| 0 <= i < cs.len() && !is_context_key((#[trigger] cs[i]).0);
        assert(!is_context_key(cs.push(c)[i].0));
    }
    if !is_context_key(c.0) {
        assert(!is_context_key(cs.push(c)[cs.len() as int].0));
    }
    if on_entities(cs.push(c)) {
        let i = choose|i: int|
            0 <= i < cs.push(c).len() && !is_context_key((#[trigger] cs.push(c)[i]).0);
        if i < cs.len() {
            assert(!is_context_key(cs[i].0));
        }
    }
}

/// A constraint on the context neither makes nor narrows what is covered.
pub proof fn context_narrows_nothing(cs: Seq<Constraint>, i: int, uid: UidKey)
    requires
        0 <= i < cs.len(),
        CONTEXT_ATTR_PREFIX@.is_prefix_of(smol_chars(cs[i].attr)),
    ensures
        in_all(cs, uid) == in_all(cs.remove(i), uid),
        on_entities(atoms(cs)) == on_entities(atoms(cs.remove(i))),
{
    let rest = cs.remove(i);
    assert(forall|j: int| 0 <= j < i ==> #[trigger] rest[j] == cs[j]);
    assert(forall|j: int| i < j < cs.len() ==> rest[j - 1] == #[trigger] cs[j]);
    if in_all(rest, uid) {
        assert forall|j: int|
            0 <= j < cs.len() && !is_context_key(smol_chars((#[trigger] cs[j]).attr)) implies keys(
            cs[j].candidates@,
        ).contains(uid) by {
            assert(j < i ==> rest[j] == cs[j]);
            assert(i < j ==> rest[j - 1] == cs[j]);
        }
    }
    if in_all(cs, uid) {
        assert forall|j: int|
            0 <= j < rest.len() && !is_context_key(
                smol_chars((#[trigger] rest[j]).attr),
            ) implies keys(rest[j].candidates@).contains(uid) by {
            assert(j >= i ==> rest[j] == cs[j + 1]);
        }
    }
    if on_entities(atoms(cs)) {
        let j = choose|j: int|
            0 <= j < atoms(cs).len() && !is_context_key((#[trigger] atoms(cs)[j]).0);
        let k = if j < i {
            j
        } else {
            j - 1
        };
        assert(atoms(rest)[k] == atoms(cs)[j]);
    }
    if on_entities(atoms(rest)) {
        let j = choose|j: int|
            0 <= j < atoms(rest).len() && !is_context_key((#[trigger] atoms(rest)[j]).0);
        let k = if j < i {
            j
        } else {
            j + 1
        };
        assert(atoms(cs)[k] == atoms(rest)[j]);
    }
}

} // verus!
