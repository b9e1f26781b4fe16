//! The values that a request gives the keys of the index.

use smol_str::SmolStr;
use vstd::prelude::*;

use crate::ast::{
    find_entry, lookup, Context, EntityUID, LitKey, Literal, PartialValue, Request, UidKey, Value,
};
use crate::entities::{Dereference, Entities};
use crate::keyed::{keys, Keyed};
use crate::poltree::keys::{
    context_name, is_context_attr, is_context_key, split_side_key, split_side_scoped_attr,
    CONTEXT_ATTR_PREFIX, SCOPE_ACTION_ATTR, SCOPE_PRINCIPAL_ATTR, SCOPE_RESOURCE_ATTR,
};
use crate::seqs::option_seq;
use crate::text::{smol_chars, smol_from, strip_prefix};

verus! {

/// What a scope constraint on the principal or the resource may be indexed by:
/// the entity itself (`== X`), or the name of its type (`is T`).
pub open spec fn entity_scope_values(uid: Option<UidKey>) -> Seq<LitKey> {
    match uid {
        Some(u) => seq![LitKey::Uid(u), LitKey::Str(u.ty)],
        None => Seq::empty(),
    }
}

/// What a scope constraint on the action is indexed by: the action itself.
pub open spec fn action_scope_values(uid: Option<UidKey>) -> Seq<LitKey> {
    match uid {
        Some(u) => seq![LitKey::Uid(u)],
        None => Seq::empty(),
    }
}

/// The values that a request gives a scope key.
pub open spec fn scope_values(request: &Request, key: Seq<char>) -> Seq<LitKey> {
    if key == SCOPE_PRINCIPAL_ATTR@ {
        entity_scope_values(request.principal.uid_key())
    } else if key == SCOPE_RESOURCE_ATTR@ {
        entity_scope_values(request.resource.uid_key())
    } else if key == SCOPE_ACTION_ATTR@ {
        action_scope_values(request.action.uid_key())
    } else {
        Seq::empty()
    }
}

/// The scalar that attribute `name` of the context is known to be, if any.
pub open spec fn context_lit(request: &Request, name: Seq<char>) -> Option<LitKey> {
    match request.context {
        Some(Context::Value(map)) => match lookup(map@, name) {
            Some(v) => v.lit(),
            None => None,
        },
        _ => None,
    }
}

/// The scalar that attribute `name` of the principal, or else of the resource,
/// is known to be, if any.
pub open spec fn side_lit(
    request: &Request,
    entities: &Entities,
    is_principal: bool,
    name: Seq<char>,
) -> Option<LitKey> {
    let entry = if is_principal {
        request.principal
    } else {
        request.resource
    };
    match entry.uid_key() {
        Some(uid) => entities.attr_lit(uid, name),
        None => None,
    }
}

/// The values that a request gives a key of the index.
pub open spec fn values_of(request: &Request, entities: &Entities, key: Seq<char>) -> Seq<LitKey> {
    if scope_values(request, key).len() > 0 {
        scope_values(request, key)
    } else if is_context_key(key) {
        option_seq(context_lit(request, context_name(key)->0))
    } else {
        match split_side_key(key) {
            Some((is_principal, name)) => option_seq(
                side_lit(request, entities, is_principal, name),
            ),
            None => Seq::empty(),
        }
    }
}

/// The scalar that a context attribute is known to be, by its key. The context
/// belongs to the request, so the store has no part in this.
pub fn request_context_literal(request: &Request, attr: &SmolStr) -> (r: Option<Literal>)
    ensures
        match r {
            Some(l) => is_context_key(smol_chars(*attr)) && context_lit(
                request,
                context_name(smol_chars(*attr))->0,
            ) == Some(l.key()),
            None => is_context_key(smol_chars(*attr)) ==> context_lit(
                request,
                context_name(smol_chars(*attr))->0,
            ) is None,
        },
{
    match strip_prefix(attr.as_str(), CONTEXT_ATTR_PREFIX) {
        None => None,
        Some(raw) => {
            assert(smol_chars(*attr).skip(CONTEXT_ATTR_PREFIX@.len() as int) =~= raw@);
            match &request.context {
                Some(Context::Value(map)) => match find_entry(map, &smol_from(raw)) {
                    Some(v) => match v.try_as_lit() {
                        Some(l) => Some(l.dup()),
                        None => None,
                    },
                    None => None,
                },
                _ => None,
            }
        },
    }
}

/// The values that a request gives a scope key. The entity and its type's name
/// are both among those of the principal and of the resource, since a policy is
/// indexed by one or by the other.
pub fn request_scope_literals(request: &Request, attr: &SmolStr) -> (r: Vec<Literal>)
    ensures
        keys(r@) == scope_values(request, smol_chars(*attr)),
{
    if *attr == smol_from(SCOPE_PRINCIPAL_ATTR) {
        entity_scope_literals(request.principal.uid())
    } else if *attr == smol_from(SCOPE_RESOURCE_ATTR) {
        entity_scope_literals(request.resource.uid())
    } else if *attr == smol_from(SCOPE_ACTION_ATTR) {
        let mut r: Vec<Literal> = Vec::new();
        if let Some(uid) = request.action.uid() {
            r.push(Literal::EntityUID(uid.dup()));
        }
        assert(keys(r@) =~= action_scope_values(request.action.uid_key()));
        r
    } else {
        let r: Vec<Literal> = Vec::new();
        assert(keys(r@) =~= Seq::<LitKey>::empty());
        r
    }
}

/// An entity, and the name of its type.
fn entity_scope_literals(uid: Option<&EntityUID>) -> (r: Vec<Literal>)
    ensures
        keys(r@) == entity_scope_values(
            match uid {
                Some(u) => Some(u.key()),
                None => None,
            },
        ),
{
    let mut r: Vec<Literal> = Vec::new();
    if let Some(u) = uid {
        r.push(Literal::EntityUID(u.dup()));
        r.push(Literal::String(u.entity_type().to_smolstr()));
    }
    proof {
        match uid {
            Some(u) => {
                assert(keys(r@) =~= seq![LitKey::Uid(u.key()), LitKey::Str(u.key().ty)]);
            },
            None => {
                assert(keys(r@) =~= Seq::<LitKey>::empty());
            },
        }
    }
    r
}

/// The values that a request gives a key of the index. For the key of an
/// entity's attribute, only the entity that the key speaks of is looked at.
pub fn request_values_for_attr(request: &Request, entities: &Entities, attr: &SmolStr) -> (r: Vec<
    Literal,
>)
    requires
        entities.wf(),
    ensures
        keys(r@) == values_of(request, entities, smol_chars(*attr)),
{
    let scope_literals = request_scope_literals(request, attr);
    if scope_literals.len() > 0 {
        assert(keys(scope_literals@).len() > 0);
        return scope_literals;
    }
    assert(keys(scope_literals@).len() == 0);
    let mut r: Vec<Literal> = Vec::new();
    assert(keys(r@) =~= Seq::<LitKey>::empty());
    if is_context_attr(attr) {
        if let Some(l) = request_context_literal(request, attr) {
            r.push(l);
            assert(keys(r@) =~= seq![l.key()]);
        }
        return r;
    }
    let (is_principal, raw_attr) = match split_side_scoped_attr(attr.as_str()) {
        Some(split) => split,
        None => {
            return r;
        },
    };
    let entry = if is_principal {
        &request.principal
    } else {
        &request.resource
    };
    if let Some(uid) = entry.uid() {
        if let Dereference::Data(entity) = entities.entity(uid) {
            if let Some(PartialValue::Value(v)) = entity.get(&smol_from(raw_attr)) {
                if let Some(l) = v.try_as_lit() {
                    r.push(l.dup());
                    assert(keys(r@) =~= seq![l.key()]);
                }
            }
        }
    }
    r
}

} // verus!
