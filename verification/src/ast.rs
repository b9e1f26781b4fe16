//! Policies, requests and the values that they speak of.

use smol_str::SmolStr;
use std::sync::Arc;
use vstd::prelude::*;

use crate::keyed::Keyed;
use crate::text::smol_chars;

verus! {

/// The name of an entity type.
#[derive(Debug, Clone, PartialEq, Eq)]
pub struct EntityType(pub SmolStr);

impl EntityType {
    /// The name as text.
    pub fn to_smolstr(&self) -> (r: SmolStr)
        ensures
            smol_chars(r) == self.key(),
    {
        self.0.clone()
    }
}

impl Keyed for EntityType {
    type Key = Seq<char>;

    open spec fn key(&self) -> Seq<char> {
        smol_chars(self.0)
    }

    fn same(&self, other: &Self) -> (r: bool) {
        self.0 == other.0
    }

    fn dup(&self) -> (r: Self) {
        EntityType(self.0.clone())
    }
}

/// The unique identifier of an entity.
#[derive(Debug, Clone, PartialEq, Eq)]
pub struct EntityUID {
    /// The type of the entity
    pub ty: EntityType,
    /// Its identifier among the entities of that type
    pub eid: SmolStr,
}

/// What an [`EntityUID`] stands for: a type name and an identifier.
pub struct UidKey {
    /// The characters of the type name
    pub ty: Seq<char>,
    /// The characters of the identifier
    pub eid: Seq<char>,
}

impl EntityUID {
    /// The type of the entity.
    pub fn entity_type(&self) -> (r: &EntityType)
        ensures
            *r == self.ty,
    {
        &self.ty
    }
}

impl Keyed for EntityUID {
    type Key = UidKey;

    open spec fn key(&self) -> UidKey {
        UidKey { ty: self.ty.key(), eid: smol_chars(self.eid) }
    }

    fn same(&self, other: &Self) -> (r: bool) {
        self.ty.same(&other.ty) && self.eid == other.eid
    }

    fn dup(&self) -> (r: Self) {
        EntityUID { ty: self.ty.dup(), eid: self.eid.clone() }
    }
}

/// The identifier of a policy.
#[derive(Debug, Clone, PartialEq, Eq)]
pub struct PolicyID(pub SmolStr);

impl Keyed for PolicyID {
    type Key = Seq<char>;

    open spec fn key(&self) -> Seq<char> {
        smol_chars(self.0)
    }

    fn same(&self, other: &Self) -> (r: bool) {
        self.0 == other.0
    }

    fn dup(&self) -> (r: Self) {
        PolicyID(self.0.clone())
    }
}

/// A scalar value.
#[derive(Debug, Clone, PartialEq, Eq)]
pub enum Literal {
    /// A Boolean
    Bool(bool),
    /// A signed integer
    Long(i64),
    /// A string
    String(SmolStr),
    /// A reference to an entity
    EntityUID(EntityUID),
}

/// What a [`Literal`] stands for.
pub enum LitKey {
    /// A Boolean
    Bool(bool),
    /// A signed integer
    Long(i64),
    /// A string, by its characters
    Str(Seq<char>),
    /// A reference to an entity
    Uid(UidKey),
}

impl Keyed for Literal {
    type Key = LitKey;

    open spec fn key(&self) -> LitKey {
        match *self {
            Literal::Bool(b) => LitKey::Bool(b),
            Literal::Long(n) => LitKey::Long(n),
            Literal::String(s) => LitKey::Str(smol_chars(s)),
            Literal::EntityUID(uid) => LitKey::Uid(uid.key()),
        }
    }

    fn same(&self, other: &Self) -> (r: bool) {
        match (self, other) {
            (Literal::Bool(a), Literal::Bool(b)) => *a == *b,
            (Literal::Long(a), Literal::Long(b)) => *a == *b,
            (Literal::String(a), Literal::String(b)) => *a == *b,
            (Literal::EntityUID(a), Literal::EntityUID(b)) => a.same(b),
            _ => false,
        }
    }

    fn dup(&self) -> (r: Self) {
        match self {
            Literal::Bool(b) => Literal::Bool(*b),
            Literal::Long(n) => Literal::Long(*n),
            Literal::String(s) => Literal::String(s.clone()),
            Literal::EntityUID(uid) => Literal::EntityUID(uid.dup()),
        }
    }
}

/// The four variables of a condition.
#[derive(Debug, Clone, Copy, PartialEq, Eq)]
pub enum Var {
    /// The principal of the request
    Principal,
    /// The action of the request
    Action,
    /// The resource of the request
    Resource,
    /// The context of the request
    Context,
}

/// The two template slots.
#[derive(Debug, Clone, Copy, PartialEq, Eq)]
pub enum SlotId {
    /// `?principal`
    Principal,
    /// `?resource`
    Resource,
}

/// Operators of one operand.
#[derive(Debug, Clone, Copy, PartialEq, Eq)]
pub enum UnaryOp {
    /// Logical negation
    Not,
    /// Integer negation
    Neg,
    /// Emptiness of a set
    IsEmpty,
}

/// Operators of two operands.
#[derive(Debug, Clone, Copy, PartialEq, Eq)]
pub enum BinaryOp {
    /// `==`
    Eq,
    /// `<`
    Less,
    /// `<=`
    LessEq,
    /// `+`
    Add,
    /// `-`
    Sub,
    /// `*`
    Mul,
    /// Membership in the entity hierarchy
    In,
    /// Membership in a set
    Contains,
    /// Inclusion of a set
    ContainsAll,
    /// Overlap with a set
    ContainsAny,
    /// Value of a tag
    GetTag,
    /// Presence of a tag
    HasTag,
}

/// A condition, or a part of one.
#[derive(Debug)]
#[allow(inconsistent_fields)]
pub enum Expr {
    /// A literal
    Lit(Literal),
    /// A variable
    Var(Var),
    /// A template slot
    Slot(SlotId),
    /// A value that is not known yet
    Unknown(SmolStr),
    /// `if test then yes else no`
    If(Box<Expr>, Box<Expr>, Box<Expr>),
    /// `left && right`
    And {
        /// Left operand
        left: Box<Expr>,
        /// Right operand
        right: Box<Expr>,
    },
    /// `left || right`
    Or {
        /// Left operand
        left: Box<Expr>,
        /// Right operand
        right: Box<Expr>,
    },
    /// An operator and its operand
    UnaryApp {
        /// The operator
        op: UnaryOp,
        /// The operand
        arg: Box<Expr>,
    },
    /// An operator and its two operands
    BinaryApp {
        /// The operator
        op: BinaryOp,
        /// First operand
        arg1: Box<Expr>,
        /// Second operand
        arg2: Box<Expr>,
    },
    /// A call of an extension function
    ExtensionFunctionApp {
        /// Name of the function
        fn_name: SmolStr,
        /// Its arguments
        args: Vec<Expr>,
    },
    /// `expr.attr`
    GetAttr {
        /// What the attribute is read from
        expr: Box<Expr>,
        /// Name of the attribute
        attr: SmolStr,
    },
    /// `expr has attr`
    HasAttr {
        /// What the attribute is looked for in
        expr: Box<Expr>,
        /// Name of the attribute
        attr: SmolStr,
    },
    /// `expr like pattern`
    Like {
        /// What is matched
        expr: Box<Expr>,
        /// The pattern
        pattern: SmolStr,
    },
    /// `expr is entity_type`
    Is {
        /// What is tested
        expr: Box<Expr>,
        /// The type that it is tested for
        entity_type: EntityType,
    },
    /// A set
    SetOf(Vec<Expr>),
    /// A record
    RecordOf(Vec<(SmolStr, Expr)>),
}

/// A value of an attribute or of the context.
#[derive(Debug)]
pub enum Value {
    /// A scalar
    Lit(Literal),
    /// A set
    SetOf(Vec<Value>),
    /// A record
    RecordOf(Vec<(SmolStr, Value)>),
    /// A value of an extension type, in its textual form
    ExtensionValue(SmolStr),
}

impl Value {
    /// The scalar that this value is, if it is one.
    pub open spec fn lit(&self) -> Option<LitKey> {
        match *self {
            Value::Lit(l) => Some(l.key()),
            _ => None,
        }
    }

    /// The scalar that this value is, if it is one.
    pub fn try_as_lit(&self) -> (r: Option<&Literal>)
        ensures
            match r {
                Some(l) => self.lit() == Some(l.key()),
                None => self.lit() is None,
            },
            match *self {
                Value::Lit(l) => r == Some(&l),
                _ => r is None,
            },
    {
        match self {
            Value::Lit(l) => Some(l),
            _ => None,
        }
    }
}

/// An attribute's value, where it may not be known yet.
#[derive(Debug)]
pub enum PartialValue {
    /// A value
    Value(Value),
    /// An expression that is still to be evaluated
    Residual(Expr),
}

impl PartialValue {
    /// The scalar that this value is known to be, if any.
    pub open spec fn lit(&self) -> Option<LitKey> {
        match *self {
            PartialValue::Value(v) => v.lit(),
            PartialValue::Residual(_) => None,
        }
    }
}

/// What `entries` holds under `name`: its first entry of that name.
pub open spec fn lookup<T>(entries: Seq<(SmolStr, T)>, name: Seq<char>) -> Option<T>
    decreases entries.len(),
{
    if entries.len() == 0 {
        None
    } else if smol_chars(entries[0].0) == name {
        Some(entries[0].1)
    } else {
        lookup(entries.drop_first(), name)
    }
}

/// The first value under `name` in a list of named values.
pub fn find_entry<'a, T>(entries: &'a Vec<(SmolStr, T)>, name: &SmolStr) -> (r: Option<&'a T>)
    ensures
        match r {
            Some(v) => lookup(entries@, smol_chars(*name)) == Some(*v),
            None => lookup(entries@, smol_chars(*name)) is None,
        },
{
    assert(entries@.skip(0) =~= entries@);
    for i in 0..entries.len()
        invariant
            lookup(entries@, smol_chars(*name)) == lookup(
                entries@.skip(i as int),
                smol_chars(*name),
            ),
    {
        assert(entries@.skip(i as int).drop_first() =~= entries@.skip(i + 1));
        if entries[i].0 == *name {
            return Some(&entries[i].1);
        }
    }
    None
}

/// The context of a request.
#[derive(Debug)]
pub enum Context {
    /// A record of values
    Value(Vec<(SmolStr, Value)>),
    /// A context that is not fully known
    RestrictedResidual(Expr),
}

/// The principal, the action or the resource of a request.
#[derive(Debug)]
pub enum EntityUIDEntry {
    /// A known entity
    Known {
        /// The entity
        euid: EntityUID,
    },
    /// An entity that is not known yet
    Unknown {
        /// Its type, where that much is known
        ty: Option<EntityType>,
    },
}

impl EntityUIDEntry {
    /// The entity, where it is known.
    pub open spec fn uid_key(&self) -> Option<UidKey> {
        match *self {
            EntityUIDEntry::Known { euid } => Some(euid.key()),
            EntityUIDEntry::Unknown { .. } => None,
        }
    }

    /// The entity, where it is known.
    pub fn uid(&self) -> (r: Option<&EntityUID>)
        ensures
            match r {
                Some(uid) => self.uid_key() == Some(uid.key()),
                None => self.uid_key() is None,
            },
            match *self {
                EntityUIDEntry::Known { euid } => r == Some(&euid),
                EntityUIDEntry::Unknown { .. } => r is None,
            },
    {
        match self {
            EntityUIDEntry::Known { euid } => Some(euid),
            EntityUIDEntry::Unknown { .. } => None,
        }
    }
}

/// An access request.
#[derive(Debug)]
pub struct Request {
    /// Who asks
    pub principal: EntityUIDEntry,
    /// For which action
    pub action: EntityUIDEntry,
    /// On what
    pub resource: EntityUIDEntry,
    /// Under which circumstances, where that is known
    pub context: Option<Context>,
}

/// What a policy does when it applies.
#[derive(Debug, Clone, Copy, PartialEq, Eq, Structural)]
pub enum Effect {
    /// It permits
    Permit,
    /// It forbids
    Forbid,
}

/// An entity, or the template slot that is filled with one.
#[derive(Debug)]
pub enum EntityReference {
    /// An entity
    EUID(EntityUID),
    /// A slot
    Slot(SlotId),
}

/// The scope of a policy for its principal, or for its resource.
#[derive(Debug)]
pub enum PrincipalOrResourceConstraint {
    /// Any entity
    Any,
    /// An entity below the given one
    In(EntityReference),
    /// The given entity
    Eq(EntityReference),
    /// An entity of the given type
    Is(EntityType),
    /// An entity of the given type below the given one
    IsIn(EntityType, EntityReference),
}

/// The scope of a policy for its action.
#[derive(Debug)]
pub enum ActionConstraint {
    /// Any action
    Any,
    /// An action below one of the given ones
    In(Vec<EntityUID>),
    /// The given action
    Eq(EntityUID),
    /// A scope that could not be parsed
    ErrorConstraint,
}

/// The body of a policy, shared by the policies that are linked to it.
#[derive(Debug)]
pub struct Template {
    /// What the policy does when it applies
    pub effect: Effect,
    /// Its scope for the principal
    pub principal_constraint: PrincipalOrResourceConstraint,
    /// Its scope for the action
    pub action_constraint: ActionConstraint,
    /// Its scope for the resource
    pub resource_constraint: PrincipalOrResourceConstraint,
    /// Its condition, if it has one
    pub non_scope_constraints: Option<Expr>,
}

/// A policy.
#[derive(Debug)]
pub struct Policy {
    /// Its identifier
    pub id: PolicyID,
    /// Its body
    pub template: Arc<Template>,
}

/// `Arc::clone`: the new pointer leads to the same value.
#[verifier::external_body]
fn share<T>(a: &Arc<T>) -> (r: Arc<T>)
    ensures
        r == *a,
{
    a.clone()
}

impl Policy {
    /// Its body.
    pub open spec fn body(self) -> Template {
        *self.template
    }

    /// Its identifier.
    pub fn id(&self) -> (r: &PolicyID)
        ensures
            *r == self.id,
    {
        &self.id
    }

    /// What it does when it applies.
    pub fn effect(&self) -> (r: Effect)
        ensures
            r == self.template.effect,
    {
        self.template.effect
    }

    /// Its body.
    pub fn template(&self) -> (r: &Template)
        ensures
            *r == *self.template,
    {
        &self.template
    }

    /// Whether two policies have one identifier and one body.
    pub open spec fn same_as(&self, other: &Policy) -> bool {
        self.id.key() == other.id.key() && self.template == other.template
    }

    /// Another policy with this identifier and this body.
    pub fn dup(&self) -> (r: Policy)
        ensures
            r.same_as(self),
            smol_chars(r.id.0) == smol_chars(self.id.0),
            r.template == self.template,
    {
        Policy { id: self.id.dup(), template: share(&self.template) }
    }
}

/// A set of policies with distinct identifiers, in the order of their addition.
#[derive(Debug)]
pub struct PolicySet {
    /// The policies
    pub policies: Vec<Policy>,
}

/// Why a policy was not added to a policy set.
#[derive(Debug, Clone, PartialEq, Eq)]
pub enum PolicySetError {
    /// The set holds a policy of that identifier
    Occupied {
        /// The identifier
        id: PolicyID,
    },
}

/// The identifiers of a sequence of policies.
pub open spec fn ids(ps: Seq<Policy>) -> Seq<Seq<char>> {
    Seq::new(ps.len(), |i: int| ps[i].id.key())
}

impl PolicySet {
    /// No identifier occurs twice.
    pub open spec fn wf(&self) -> bool {
        ids(self.policies@).no_duplicates()
    }

    /// The empty set.
    pub fn new() -> (r: PolicySet)
        ensures
            r.wf(),
            r.policies@.len() == 0,
    {
        PolicySet { policies: Vec::new() }
    }

    /// The policies of the set.
    pub fn policies(&self) -> (r: &Vec<Policy>)
        ensures
            *r == self.policies,
    {
        &self.policies
    }

    /// Adds a policy whose identifier the set does not hold yet.
    pub fn add(&mut self, policy: Policy) -> (r: Result<(), PolicySetError>)
        requires
            old(self).wf(),
        ensures
            final(self).wf(),
            match r {
                Ok(()) => !ids(old(self).policies@).contains(policy.id.key())
                    && final(self).policies@ == old(self).policies@.push(policy),
                Err(PolicySetError::Occupied { id }) => ids(old(self).policies@).contains(
                    policy.id.key(),
                ) && id.key() == policy.id.key() && *final(self) == *old(self),
            },
    {
        for i in 0..self.policies.len()
            invariant
                old(self).wf(),
                *self == *old(self),
                forall|j: int| 0 <= j < i ==> ids(self.policies@)[j] != policy.id.key(),
        {
            if self.policies[i].id.same(&policy.id) {
                assert(ids(self.policies@)[i as int] == policy.id.key());
                return Err(PolicySetError::Occupied { id: policy.id });
            }
        }
        self.policies.push(policy);
        assert(ids(self.policies@) =~= ids(old(self).policies@).push(policy.id.key()));
        Ok(())
    }
}

} // verus!
