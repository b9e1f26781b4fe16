//! The keys under which constraints are indexed.
//!
//! A scope constraint has a key of its own. A constraint of a condition is
//! indexed by the attribute's name behind a prefix that says whose attribute it
//! is: a policy that compares `principal.clearance` and `resource.clearance`
//! states two facts of two entities, and under one key they would be taken for
//! alternatives of one fact. For the same reason the attributes of the context
//! have a prefix of their own.

use smol_str::SmolStr;
use vstd::prelude::*;
use vstd::string::StringExecFns;

use crate::text::{smol_chars, smol_from, strip_prefix};

verus! {

/// Key of the scope constraint on the principal.
pub const SCOPE_PRINCIPAL_ATTR: &'static str = "__scope_principal";

/// Key of the scope constraint on the resource.
pub const SCOPE_RESOURCE_ATTR: &'static str = "__scope_resource";

/// Key of the scope constraint on the action.
pub const SCOPE_ACTION_ATTR: &'static str = "__scope_action";

/// Prefix of the keys of context attributes.
pub const CONTEXT_ATTR_PREFIX: &'static str = "__context_";

/// Prefix of the keys of the principal's attributes.
pub const PRINCIPAL_ATTR_PREFIX: &'static str = "__principal_attr_";

/// Prefix of the keys of the resource's attributes.
pub const RESOURCE_ATTR_PREFIX: &'static str = "__resource_attr_";

/// The key of context attribute `attr`.
pub open spec fn context_key(attr: Seq<char>) -> Seq<char> {
    CONTEXT_ATTR_PREFIX@ + attr
}

/// Whether `key` has the form of a context attribute's key.
pub open spec fn is_context_key(key: Seq<char>) -> bool {
    CONTEXT_ATTR_PREFIX@.is_prefix_of(key)
}

/// The name of the context attribute whose key is `key`.
pub open spec fn context_name(key: Seq<char>) -> Option<Seq<char>> {
    if is_context_key(key) {
        Some(key.skip(CONTEXT_ATTR_PREFIX@.len() as int))
    } else {
        None
    }
}

/// The key of attribute `attr` of the principal, or else of the resource.
pub open spec fn side_key(is_principal: bool, attr: Seq<char>) -> Seq<char> {
    if is_principal {
        PRINCIPAL_ATTR_PREFIX@ + attr
    } else {
        RESOURCE_ATTR_PREFIX@ + attr
    }
}

/// Whose attribute `key` is the key of (the principal's, or else the
/// resource's), and the attribute's name.
pub open spec fn split_side_key(key: Seq<char>) -> Option<(bool, Seq<char>)> {
    if PRINCIPAL_ATTR_PREFIX@.is_prefix_of(key) {
        Some((true, key.skip(PRINCIPAL_ATTR_PREFIX@.len() as int)))
    } else if RESOURCE_ATTR_PREFIX@.is_prefix_of(key) {
        Some((false, key.skip(RESOURCE_ATTR_PREFIX@.len() as int)))
    } else {
        None
    }
}

/// Whether `key` is the key of a scope constraint.
pub open spec fn is_scope_key(key: Seq<char>) -> bool {
    key == SCOPE_PRINCIPAL_ATTR@ || key == SCOPE_RESOURCE_ATTR@ || key == SCOPE_ACTION_ATTR@
}

/// The key of context attribute `attr`.
pub fn context_attr_key(attr: &SmolStr) -> (r: SmolStr)
    ensures
        smol_chars(r) == context_key(smol_chars(*attr)),
{
    smol_from(String::from_str(CONTEXT_ATTR_PREFIX).concat(attr.as_str()).as_str())
}

/// Whether `attr` has the form of a context attribute's key.
pub fn is_context_attr(attr: &SmolStr) -> (r: bool)
    ensures
        r == is_context_key(smol_chars(*attr)),
{
    strip_prefix(attr.as_str(), CONTEXT_ATTR_PREFIX).is_some()
}

/// The key of attribute `attr` of the principal, or else of the resource.
pub fn side_scoped_attr(is_principal: bool, attr: &SmolStr) -> (r: SmolStr)
    ensures
        smol_chars(r) == side_key(is_principal, smol_chars(*attr)),
{
    let prefix = if is_principal {
        PRINCIPAL_ATTR_PREFIX
    } else {
        RESOURCE_ATTR_PREFIX
    };
    smol_from(String::from_str(prefix).concat(attr.as_str()).as_str())
}

/// The inverse of [`side_scoped_attr`]: whose attribute the key is for (`true`
/// for the principal's), and the attribute's name. `None` for every other key.
pub fn split_side_scoped_attr(attr: &str) -> (r: Option<(bool, &str)>)
    ensures
        match r {
            Some((is_principal, name)) => split_side_key(attr@) == Some((is_principal, name@)),
            None => split_side_key(attr@) is None,
        },
{
    if let Some(rest) = strip_prefix(attr, PRINCIPAL_ATTR_PREFIX) {
        assert(attr@.skip(PRINCIPAL_ATTR_PREFIX@.len() as int) =~= rest@);
        Some((true, rest))
    } else if let Some(rest) = strip_prefix(attr, RESOURCE_ATTR_PREFIX) {
        assert(attr@.skip(RESOURCE_ATTR_PREFIX@.len() as int) =~= rest@);
        Some((false, rest))
    } else {
        None
    }
}

/// What the fixed keys and prefixes are, as far as they differ.
proof fn lemma_literals()
    ensures
        SCOPE_PRINCIPAL_ATTR@.len() == 17,
        SCOPE_RESOURCE_ATTR@.len() == 16,
        SCOPE_ACTION_ATTR@.len() == 14,
        CONTEXT_ATTR_PREFIX@.len() == 10,
        PRINCIPAL_ATTR_PREFIX@.len() == 17,
        RESOURCE_ATTR_PREFIX@.len() == 16,
        SCOPE_PRINCIPAL_ATTR@[2] == 's',
        SCOPE_RESOURCE_ATTR@[2] == 's',
        SCOPE_ACTION_ATTR@[2] == 's',
        CONTEXT_ATTR_PREFIX@[2] == 'c',
        PRINCIPAL_ATTR_PREFIX@[2] == 'p',
        RESOURCE_ATTR_PREFIX@[2] == 'r',
{
    reveal_strlit("__scope_principal");
    reveal_strlit("__scope_resource");
    reveal_strlit("__scope_action");
    reveal_strlit("__context_");
    reveal_strlit("__principal_attr_");
    reveal_strlit("__resource_attr_");
}

/// Splitting the key of a principal's or a resource's attribute gives back
/// whose attribute it is and its name; and such a key is neither a scope key
/// nor a context key.
pub proof fn side_key_roundtrip(is_principal: bool, attr: Seq<char>)
    ensures
        split_side_key(side_key(is_principal, attr)) == Some((is_principal, attr)),
        !is_context_key(side_key(is_principal, attr)),
        !is_scope_key(side_key(is_principal, attr)),
{
    lemma_literals();
    let key = side_key(is_principal, attr);
    if is_principal {
        assert(key.skip(PRINCIPAL_ATTR_PREFIX@.len() as int) =~= attr);
        assert(key.take(PRINCIPAL_ATTR_PREFIX@.len() as int) =~= PRINCIPAL_ATTR_PREFIX@);
    } else {
        assert(key.skip(RESOURCE_ATTR_PREFIX@.len() as int) =~= attr);
        assert(key.take(RESOURCE_ATTR_PREFIX@.len() as int) =~= RESOURCE_ATTR_PREFIX@);
    }
}

/// Whatever splits is the key of what it splits into.
pub proof fn split_side_key_roundtrip(key: Seq<char>)
    ensures
        split_side_key(key) matches Some((is_principal, attr)) ==> side_key(is_principal, attr)
            == key,
{
    lemma_literals();
    if PRINCIPAL_ATTR_PREFIX@.is_prefix_of(key) {
        assert(PRINCIPAL_ATTR_PREFIX@ + key.skip(PRINCIPAL_ATTR_PREFIX@.len() as int) =~= key);
    } else if RESOURCE_ATTR_PREFIX@.is_prefix_of(key) {
        assert(RESOURCE_ATTR_PREFIX@ + key.skip(RESOURCE_ATTR_PREFIX@.len() as int) =~= key);
    }
}

/// The key of a context attribute gives back the attribute's name, and is
/// neither a scope key nor the key of an entity's attribute.
pub proof fn context_key_roundtrip(attr: Seq<char>)
    ensures
        context_name(context_key(attr)) == Some(attr),
        split_side_key(context_key(attr)) is None,
        !is_scope_key(context_key(attr)),
{
    lemma_literals();
    let key = context_key(attr);
    assert(key.skip(CONTEXT_ATTR_PREFIX@.len() as int) =~= attr);
    assert(key.take(CONTEXT_ATTR_PREFIX@.len() as int) =~= CONTEXT_ATTR_PREFIX@);
}

/// The three scope keys are distinct, and none is the key of an attribute.
pub proof fn scope_keys_distinct()
    ensures
        SCOPE_PRINCIPAL_ATTR@ != SCOPE_RESOURCE_ATTR@,
        SCOPE_PRINCIPAL_ATTR@ != SCOPE_ACTION_ATTR@,
        SCOPE_RESOURCE_ATTR@ != SCOPE_ACTION_ATTR@,
        forall|key: Seq<char>| #[trigger]
            is_scope_key(key) ==> !is_context_key(key) && split_side_key(key) is None,
{
    lemma_literals();
}

} // verus!
