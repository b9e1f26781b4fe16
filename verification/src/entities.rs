//! The entity store.

use smol_str::SmolStr;
use vstd::prelude::*;

use crate::ast::{find_entry, lookup, EntityUID, LitKey, PartialValue, UidKey};
use crate::keyed::Keyed;
use crate::text::smol_chars;

verus! {

/// An entity and its attributes.
#[derive(Debug)]
pub struct Entity {
    /// Its identifier
    pub uid: EntityUID,
    /// Its attributes, by name
    pub attrs: Vec<(SmolStr, PartialValue)>,
}

/// The names of a list of named values.
pub open spec fn names<T>(entries: Seq<(SmolStr, T)>) -> Seq<Seq<char>> {
    Seq::new(entries.len(), |i: int| smol_chars(entries[i].0))
}

/// In a list of distinct names, each entry is found by its name.
pub proof fn lemma_lookup<T>(entries: Seq<(SmolStr, T)>, i: int)
    requires
        names(entries).no_duplicates(),
        0 <= i < entries.len(),
    ensures
        lookup(entries, smol_chars(entries[i].0)) == Some(entries[i].1),
    decreases entries.len(),
{
    if i > 0 {
        let rest = entries.drop_first();
        assert(names(entries)[0] != names(entries)[i]);
        assert forall|a: int, b: int|
            0 <= a < rest.len() && 0 <= b < rest.len() && a != b implies names(rest)[a] != names(
            rest,
        )[b] by {
            assert(names(entries)[a + 1] != names(entries)[b + 1]);
        }
        lemma_lookup(rest, i - 1);
    }
}

/// What is found under a name is the value of some entry of that name.
pub proof fn lemma_lookup_index<T>(entries: Seq<(SmolStr, T)>, name: Seq<char>) -> (i: int)
    ensures
        match lookup(entries, name) {
            Some(v) => 0 <= i < entries.len() && smol_chars(entries[i].0) == name && entries[i].1
                == v,
            None => !names(entries).contains(name),
        },
    decreases entries.len(),
{
    if entries.len() == 0 {
        0
    } else if smol_chars(entries[0].0) == name {
        0
    } else {
        let rest = entries.drop_first();
        let j = lemma_lookup_index(rest, name);
        if lookup(rest, name) is None && names(entries).contains(name) {
            let k = names(entries).index_of(name);
            assert(names(rest)[k - 1] == name);
        }
        j + 1
    }
}

impl Entity {
    /// No attribute name occurs twice.
    pub open spec fn wf(&self) -> bool {
        names(self.attrs@).no_duplicates()
    }

    /// The scalar that attribute `name` is known to be, if any.
    pub open spec fn attr_lit(&self, name: Seq<char>) -> Option<LitKey> {
        match lookup(self.attrs@, name) {
            Some(v) => v.lit(),
            None => None,
        }
    }

    /// An entity without attributes.
    pub fn new(uid: EntityUID) -> (r: Entity)
        ensures
            r.wf(),
            r.uid == uid,
            r.attrs@.len() == 0,
    {
        Entity { uid, attrs: Vec::new() }
    }

    /// Its identifier.
    pub fn uid(&self) -> (r: &EntityUID)
        ensures
            *r == self.uid,
    {
        &self.uid
    }

    /// The value of attribute `name`, if the entity has that attribute.
    pub fn get(&self, name: &SmolStr) -> (r: Option<&PartialValue>)
        ensures
            match r {
                Some(v) => lookup(self.attrs@, smol_chars(*name)) == Some(*v),
                None => lookup(self.attrs@, smol_chars(*name)) is None,
            },
    {
        find_entry(&self.attrs, name)
    }

    /// Gives attribute `name` the value `value`, whatever it was before.
    pub fn set_attr(&mut self, name: SmolStr, value: PartialValue)
        requires
            old(self).wf(),
        ensures
            final(self).wf(),
            final(self).uid == old(self).uid,
            forall|n: Seq<char>| #[trigger]
                lookup(final(self).attrs@, n) == if n == smol_chars(name) {
                    Some(value)
                } else {
                    lookup(old(self).attrs@, n)
                },
    {
        let ghost before = self.attrs@;
        let mut found: Option<usize> = None;
        for i in 0..self.attrs.len()
            invariant
                *self == *old(self),
                match found {
                    Some(k) => k < i && names(self.attrs@)[k as int] == smol_chars(name),
                    None => forall|j: int|
                        0 <= j < i ==> names(self.attrs@)[j] != smol_chars(name),
                },
        {
            if self.attrs[i].0 == name {
                found = Some(i);
            }
        }
        match found {
            Some(k) => {
                self.attrs[k].1 = value;
                assert(names(self.attrs@) =~= names(before));
            },
            None => {
                self.attrs.push((name, value));
                assert(names(self.attrs@) =~= names(before).push(smol_chars(name)));
            },
        }
        proof {
            assert forall|n: Seq<char>| #[trigger]
                lookup(self.attrs@, n) == if n == smol_chars(name) {
                    Some(value)
                } else {
                    lookup(before, n)
                } by {
                let i = lemma_lookup_index(self.attrs@, n);
                let j = lemma_lookup_index(before, n);
                if n == smol_chars(name) {
                    let k = match found {
                        Some(k) => k as int,
                        None => before.len() as int,
                    };
                    lemma_lookup(self.attrs@, k);
                    assert(smol_chars(self.attrs@[k].0) == n);
                } else if lookup(before, n) is Some {
                    assert(self.attrs@[j] == before[j]);
                    lemma_lookup(self.attrs@, j);
                } else if lookup(self.attrs@, n) is Some {
                    if i < before.len() {
                        assert(names(before)[i] == n);
                    }
                }
            }
        }
    }
}

/// The entities of the store and what it says of entities that it lacks.
#[derive(Debug)]
pub struct Entities {
    /// The entities
    pub entities: Vec<Entity>,
    /// Whether entities that the store lacks may exist all the same
    pub partial: bool,
}

/// What looking an entity up in the store comes to.
#[derive(Debug)]
pub enum Dereference<'a, T> {
    /// There is no such entity
    NoSuchEntity,
    /// The store does not know the entity, which may exist
    Residual,
    /// The entity
    Data(&'a T),
}

/// Why an entity was not added to the store.
#[derive(Debug, Clone, PartialEq, Eq)]
pub enum EntitiesError {
    /// The store holds that entity
    Duplicate {
        /// The entity
        euid: EntityUID,
    },
}

/// The identifiers of a sequence of entities.
pub open spec fn uids(es: Seq<Entity>) -> Seq<UidKey> {
    Seq::new(es.len(), |i: int| es[i].uid.key())
}

impl Entities {
    /// No entity occurs twice, and each is well formed.
    pub open spec fn wf(&self) -> bool {
        &&& uids(self.entities@).no_duplicates()
        &&& forall|i: int| 0 <= i < self.entities@.len() ==> (#[trigger] self.entities@[i]).wf()
    }

    /// Whether the store holds the entity.
    pub open spec fn has(&self, uid: UidKey) -> bool {
        uids(self.entities@).contains(uid)
    }

    /// The scalar that an attribute of an entity of the store is known to be.
    pub open spec fn attr_lit(&self, uid: UidKey, name: Seq<char>) -> Option<LitKey> {
        if self.has(uid) {
            self.entities@[uids(self.entities@).index_of(uid)].attr_lit(name)
        } else {
            None
        }
    }

    /// A store has exactly the entities that it holds, by type and identifier, and
    /// holds each once.
    pub proof fn store_has_what_it_holds(&self, uid: EntityUID)
        ensures
            self.has(uid.key()) <==> exists|i: int|
                0 <= i < self.entities@.len() && smol_chars((#[trigger] self.entities@[i]).uid.ty.0)
                    == smol_chars(uid.ty.0) && smol_chars(self.entities@[i].uid.eid) == smol_chars(
                    uid.eid,
                ),
            self.wf() ==> forall|i: int, j: int|
                0 <= i < j < self.entities@.len() ==> smol_chars(
                    (#[trigger] self.entities@[i]).uid.ty.0,
                ) != smol_chars((#[trigger] self.entities@[j]).uid.ty.0) || smol_chars(
                    self.entities@[i].uid.eid,
                ) != smol_chars(self.entities@[j].uid.eid),
    {
        let us = uids(self.entities@);
        if self.has(uid.key()) {
            let i = us.index_of(uid.key());
            assert(us[i] == self.entities@[i].uid.key());
        }
        if exists|i: int|
            0 <= i < self.entities@.len() && smol_chars((#[trigger] self.entities@[i]).uid.ty.0)
                == smol_chars(uid.ty.0) && smol_chars(self.entities@[i].uid.eid) == smol_chars(
                uid.eid,
            ) {
            let i = choose|i: int|
                0 <= i < self.entities@.len() && smol_chars((#[trigger] self.entities@[i]).uid.ty.0)
                    == smol_chars(uid.ty.0) && smol_chars(self.entities@[i].uid.eid) == smol_chars(
                    uid.eid,
                );
            assert(us[i] == uid.key());
        }
        if self.wf() {
            assert forall|i: int, j: int| 0 <= i < j < self.entities@.len() implies smol_chars(
                (#[trigger] self.entities@[i]).uid.ty.0,
            ) != smol_chars((#[trigger] self.entities@[j]).uid.ty.0) || smol_chars(
                self.entities@[i].uid.eid,
            ) != smol_chars(self.entities@[j].uid.eid) by {
                assert(us[i] != us[j]);
            }
        }
    }

    /// In a well-formed store, an entity's attributes are found by its identifier.
    pub proof fn lemma_attr_lit(&self, i: int, name: Seq<char>)
        requires
            self.wf(),
            0 <= i < self.entities@.len(),
        ensures
            self.has(self.entities@[i].uid.key()),
            self.attr_lit(self.entities@[i].uid.key(), name) == self.entities@[i].attr_lit(name),
    {
        assert(uids(self.entities@)[i] == self.entities@[i].uid.key());
    }

    /// The empty store.
    pub fn new(partial: bool) -> (r: Entities)
        ensures
            r.wf(),
            r.entities@.len() == 0,
            r.partial == partial,
    {
        Entities { entities: Vec::new(), partial }
    }

    /// Adds an entity that the store does not hold yet.
    pub fn add(&mut self, entity: Entity) -> (r: Result<(), EntitiesError>)
        requires
            old(self).wf(),
            entity.wf(),
        ensures
            final(self).wf(),
            final(self).partial == old(self).partial,
            match r {
                Ok(()) => !old(self).has(entity.uid.key()) && final(self).entities@ == old(
                    self,
                ).entities@.push(entity),
                Err(EntitiesError::Duplicate { euid }) => old(self).has(entity.uid.key())
                    && euid.key() == entity.uid.key() && *final(self) == *old(self),
            },
    {
        match self.position(&entity.uid) {
            Some(_) => Err(EntitiesError::Duplicate { euid: entity.uid }),
            None => {
                self.entities.push(entity);
                assert(uids(self.entities@) =~= uids(old(self).entities@).push(entity.uid.key()));
                Ok(())
            },
        }
    }

    /// Where an entity stands in the store.
    fn position(&self, uid: &EntityUID) -> (r: Option<usize>)
        ensures
            match r {
                Some(i) => i < self.entities@.len() && uids(self.entities@)[i as int] == uid.key(),
                None => !self.has(uid.key()),
            },
    {
        for i in 0..self.entities.len()
            invariant
                forall|j: int| 0 <= j < i ==> uids(self.entities@)[j] != uid.key(),
        {
            if self.entities[i].uid.same(uid) {
                return Some(i);
            }
        }
        None
    }

    /// Looks an entity up.
    pub fn entity(&self, uid: &EntityUID) -> (r: Dereference<'_, Entity>)
        requires
            self.wf(),
        ensures
            match r {
                Dereference::Data(e) => self.has(uid.key()) && *e
                    == self.entities@[uids(self.entities@).index_of(uid.key())] && e.uid.key()
                    == uid.key(),
                Dereference::NoSuchEntity => !self.has(uid.key()) && !self.partial,
                Dereference::Residual => !self.has(uid.key()) && self.partial,
            },
    {
        match self.position(uid) {
            Some(i) => Dereference::Data(&self.entities[i]),
            None => if self.partial {
                Dereference::Residual
            } else {
                Dereference::NoSuchEntity
            },
        }
    }
}

} // verus!
