//! One pass over the entity store, whose results serve every constraint of every
//! policy: without it each constraint would go through the whole store again.

use smol_str::SmolStr;
use vstd::prelude::*;

use crate::ast::{lookup, EntityType, EntityUID, LitKey, Literal, PartialValue, UidKey};
use crate::entities::{lemma_lookup_index, names, Dereference, Entities, Entity};
use crate::keyed::{add_all, at, distinct, dup_all, keys, Keyed, ListMap};
use crate::text::smol_chars;

verus! {

/// What one pass over the store finds out.
#[derive(Debug)]
pub struct EntityScanIndexes {
    /// Each attribute's scalar values
    pub attr_values: ListMap<SmolStr, Literal>,
    /// The entities with a given scalar value of a given attribute
    pub sv_map: ListMap<(SmolStr, Literal), EntityUID>,
    /// The entities of each type
    pub type_index: ListMap<EntityType, EntityUID>,
}

/// The entities of `es` whose attribute `name` is the scalar `lit`.
pub open spec fn with_attr(es: Seq<Entity>, name: Seq<char>, lit: LitKey) -> Seq<UidKey>
    decreases es.len(),
{
    if es.len() == 0 {
        Seq::empty()
    } else {
        let front = with_attr(es.drop_last(), name, lit);
        if es.last().attr_lit(name) == Some(lit) {
            front.push(es.last().uid.key())
        } else {
            front
        }
    }
}

/// The entities of `es` whose type is `ty`.
pub open spec fn of_type(es: Seq<Entity>, ty: Seq<char>) -> Seq<UidKey>
    decreases es.len(),
{
    if es.len() == 0 {
        Seq::empty()
    } else {
        let front = of_type(es.drop_last(), ty);
        if es.last().uid.key().ty == ty {
            front.push(es.last().uid.key())
        } else {
            front
        }
    }
}

/// `sv` holds, under an attribute and a scalar, the entities with that value.
pub open spec fn is_sv_map(
    sv: Map<(Seq<char>, LitKey), Seq<UidKey>>,
    es: Seq<Entity>,
) -> bool {
    &&& forall|name: Seq<char>, lit: LitKey| #[trigger]
        at(sv, (name, lit)) == with_attr(es, name, lit)
    &&& forall|k: (Seq<char>, LitKey)| #[trigger] sv.dom().contains(k) ==> sv[k].len() > 0
}

/// `types` holds, under a type, the entities of that type.
pub open spec fn is_type_index(types: Map<Seq<char>, Seq<UidKey>>, es: Seq<Entity>) -> bool {
    &&& forall|ty: Seq<char>| #[trigger] at(types, ty) == of_type(es, ty)
    &&& forall|ty: Seq<char>| #[trigger] types.dom().contains(ty) ==> types[ty].len() > 0
}

/// `values` holds, under an attribute, its values in `sv`, each once.
pub open spec fn lists_values(
    values: Map<Seq<char>, Seq<LitKey>>,
    sv: Map<(Seq<char>, LitKey), Seq<UidKey>>,
) -> bool {
    &&& forall|name: Seq<char>, lit: LitKey| #[trigger]
        at(values, name).contains(lit) <==> sv.dom().contains((name, lit))
    &&& forall|name: Seq<char>| (#[trigger] at(values, name)).no_duplicates()
    &&& forall|name: Seq<char>| #[trigger]
        values.dom().contains(name) ==> values[name].len() > 0
}

/// The scalar under `name`, if any.
spec fn entry_lit(entries: Seq<(SmolStr, PartialValue)>, name: Seq<char>) -> Option<LitKey> {
    match lookup(entries, name) {
        Some(v) => v.lit(),
        None => None,
    }
}

/// A further entry is found unless an earlier one has its name.
proof fn lemma_lookup_push<T>(entries: Seq<(SmolStr, T)>, x: (SmolStr, T), name: Seq<char>)
    ensures
        lookup(entries.push(x), name) == match lookup(entries, name) {
            Some(v) => Some(v),
            None => if smol_chars(x.0) == name {
                Some(x.1)
            } else {
                None
            },
        },
    decreases entries.len(),
{
    if entries.len() == 0 {
        reveal_with_fuel(lookup, 2);
        assert(entries.push(x)[0] == x);
    } else {
        assert(entries.push(x).drop_first() =~= entries.drop_first().push(x));
        assert(entries.push(x)[0] == entries[0]);
        lemma_lookup_push(entries.drop_first(), x, name);
    }
}

/// What a scan has in `sv` when it has dealt with the entities `es` and with
/// the attributes `done` of entity `uid`.
spec fn sv_so_far(
    sv: Map<(Seq<char>, LitKey), Seq<UidKey>>,
    es: Seq<Entity>,
    uid: UidKey,
    done: Seq<(SmolStr, PartialValue)>,
) -> bool {
    &&& forall|name: Seq<char>, lit: LitKey| #[trigger]
        at(sv, (name, lit)) == if entry_lit(done, name) == Some(lit) {
            with_attr(es, name, lit).push(uid)
        } else {
            with_attr(es, name, lit)
        }
    &&& forall|k: (Seq<char>, LitKey)| #[trigger] sv.dom().contains(k) ==> sv[k].len() > 0
}

/// Goes through the store once.
pub fn scan_entities(entities: &Entities) -> (r: EntityScanIndexes)
    requires
        entities.wf(),
    ensures
        r.attr_values.wf(),
        r.sv_map.wf(),
        r.type_index.wf(),
        is_sv_map(r.sv_map@, entities.entities@),
        is_type_index(r.type_index@, entities.entities@),
        lists_values(r.attr_values@, r.sv_map@),
{
    let mut attr_values: ListMap<SmolStr, Literal> = ListMap::new();
    let mut sv_map: ListMap<(SmolStr, Literal), EntityUID> = ListMap::new();
    let mut type_index: ListMap<EntityType, EntityUID> = ListMap::new();
    let ghost es = entities.entities@;
    assert(es.take(0) =~= Seq::empty());
    for i in 0..entities.entities.len()
        invariant
            entities.wf(),
            es == entities.entities@,
            attr_values.wf(),
            sv_map.wf(),
            type_index.wf(),
            is_sv_map(sv_map@, es.take(i as int)),
            is_type_index(type_index@, es.take(i as int)),
            lists_values(attr_values@, sv_map@),
    {
        let entity = &entities.entities[i];
        let ghost before = es.take(i as int);
        assert(es.take(i + 1).drop_last() =~= before);
        assert(es.take(i + 1).last() == *entity);
        let ghost types = type_index@;
        type_index.push(entity.uid().entity_type().dup(), entity.uid().dup());
        proof {
            let t = entity.uid.ty.key();
            assert forall|ty: Seq<char>| #[trigger] at(type_index@, ty) == of_type(
                es.take(i + 1),
                ty,
            ) by {
                assert(at(types, ty) == of_type(before, ty));
            }
        }
        assert(entity.attrs@.take(0) =~= Seq::empty());
        for j in 0..entity.attrs.len()
            invariant
                entity.wf(),
                attr_values.wf(),
                sv_map.wf(),
                sv_so_far(sv_map@, before, entity.uid.key(), entity.attrs@.take(j as int)),
                lists_values(attr_values@, sv_map@),
        {
            let ghost done = entity.attrs@.take(j as int);
            let ghost x = entity.attrs@[j as int];
            let ghost sv = sv_map@;
            let ghost vs = attr_values@;
            proof {
                assert(entity.attrs@.take(j + 1) =~= done.push(x));
                assert forall|name: Seq<char>| #[trigger]
                    entry_lit(done.push(x), name) == if name == smol_chars(x.0) {
                        x.1.lit()
                    } else {
                        entry_lit(done, name)
                    } by {
                    lemma_lookup_push(done, x, name);
                    let k = lemma_lookup_index(done, name);
                    if lookup(done, name) is Some && name == smol_chars(x.0) {
                        assert(names(entity.attrs@)[k] == names(entity.attrs@)[j as int]);
                    }
                }
                let k = lemma_lookup_index(done, smol_chars(x.0));
                if lookup(done, smol_chars(x.0)) is Some {
                    assert(names(entity.attrs@)[k] == names(entity.attrs@)[j as int]);
                }
            }
            if let PartialValue::Value(v) = &entity.attrs[j].1 {
                if let Some(lit) = v.try_as_lit() {
                    attr_values.add(entity.attrs[j].0.clone(), lit.dup());
                    sv_map.push((entity.attrs[j].0.clone(), lit.dup()), entity.uid().dup());
                    proof {
                        let n = smol_chars(x.0);
                        let l = lit.key();
                        assert(at(sv, (n, l)) == with_attr(before, n, l));
                        assert(sv_map@ == sv.insert((n, l), at(sv, (n, l)).push(entity.uid.key())));
                        assert forall|name: Seq<char>, q: LitKey| #[trigger]
                            at(sv_map@, (name, q)) == if entry_lit(done.push(x), name) == Some(q) {
                                with_attr(before, name, q).push(entity.uid.key())
                            } else {
                                with_attr(before, name, q)
                            } by {
                            assert(at(sv, (name, q)) == if entry_lit(done, name) == Some(q) {
                                with_attr(before, name, q).push(entity.uid.key())
                            } else {
                                with_attr(before, name, q)
                            });
                        }
                        assert forall|name: Seq<char>, q: LitKey| #[trigger]
                            at(attr_values@, name).contains(q) <==> sv_map@.dom().contains(
                            (name, q),
                        ) by {
                            assert(at(vs, name).contains(q) <==> sv.dom().contains((name, q)));
                            assert(at(vs, n).contains(l) <==> sv.dom().contains((n, l)));
                            let s = at(vs, n).push(l);
                            assert(s[s.len() - 1] == l);
                            if at(vs, n).contains(q) {
                                assert(s[at(vs, n).index_of(q)] == q);
                            }
                        }
                        assert(at(vs, n).no_duplicates());
                        assert forall|name: Seq<char>| (#[trigger] at(
                            attr_values@,
                            name,
                        )).no_duplicates() by {
                            assert(at(vs, name).no_duplicates());
                        }
                    }
                }
            }
        }
        assert(entity.attrs@.take(entity.attrs@.len() as int) =~= entity.attrs@);
        assert forall|name: Seq<char>, lit: LitKey| #[trigger]
            at(sv_map@, (name, lit)) == with_attr(es.take(i + 1), name, lit) by {
            assert(entry_lit(entity.attrs@, name) == entity.attr_lit(name));
        }
    }
    assert(es.take(es.len() as int) =~= es);
    EntityScanIndexes { attr_values, sv_map, type_index }
}

/// The entity itself where the store holds it, and nothing else: what a scope
/// constraint `== X` leaves.
pub fn entities_with_uid(entities: &Entities, uid: &EntityUID) -> (r: Vec<EntityUID>)
    requires
        entities.wf(),
    ensures
        keys(r@) == if entities.has(uid.key()) {
            seq![uid.key()]
        } else {
            Seq::empty()
        },
{
    let mut r: Vec<EntityUID> = Vec::new();
    match entities.entity(uid) {
        Dereference::Data(_) => {
            r.push(uid.dup());
            assert(keys(r@) =~= seq![uid.key()]);
        },
        _ => {
            assert(keys(r@) =~= Seq::<UidKey>::empty());
        },
    }
    r
}

/// The entities with a given scalar value of a given attribute, each once.
pub fn candidates_from_sv_map(
    sv_map: &ListMap<(SmolStr, Literal), EntityUID>,
    attr: &SmolStr,
    lit: &Literal,
) -> (r: Vec<EntityUID>)
    requires
        sv_map.wf(),
    ensures
        keys(r@) == distinct(at(sv_map@, (smol_chars(*attr), lit.key()))),
{
    let mut r: Vec<EntityUID> = Vec::new();
    assert(keys(r@) =~= Seq::<UidKey>::empty());
    match sv_map.get(&(attr.clone(), lit.dup())) {
        Some(v) => {
            add_all(&mut r, v);
        },
        None => {},
    }
    r
}

/// The entities of a given type.
pub fn candidates_from_type_index(
    type_index: &ListMap<EntityType, EntityUID>,
    entity_type: &EntityType,
) -> (r: Vec<EntityUID>)
    requires
        type_index.wf(),
    ensures
        keys(r@) == at(type_index@, entity_type.key()),
{
    match type_index.get(entity_type) {
        Some(v) => dup_all(v),
        None => {
            let r: Vec<EntityUID> = Vec::new();
            assert(keys(r@) =~= Seq::<UidKey>::empty());
            r
        },
    }
}

} // verus!
