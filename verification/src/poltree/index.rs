//! The index that the tree is built from.

use smol_str::SmolStr;
use std::sync::Arc;
use vstd::prelude::*;

use crate::ast::{ids, EntityUID, LitKey, Literal, Policy, PolicyID, PolicySet, UidKey};
use crate::entities::{uids, Dereference, Entities, Entity};
use crate::keyed::{add_all, at, has_key, keys, union_onto, Keyed, ListMap};
use crate::poltree::constraints::{atoms, policy_atoms, policy_indexed, Constraint};
use crate::poltree::coverage::{
    covered_entities, fits, fits_all, has_candidates, in_all, on_entities, policy_constraints,
};
use crate::poltree::keys::is_context_key;
use crate::poltree::residual::residual;
use crate::poltree::scan::{is_sv_map, is_type_index, scan_entities};
use crate::seqs::lemma_push_contains;
use crate::text::smol_chars;

verus! {

/// What the tree is built from.
#[derive(Debug, Clone)]
pub struct PolTreeIndex {
    /// The store that the index was built from
    pub entities: Arc<Entities>,
    /// Each key's values, on an entity or in a policy
    pub attr_values: ListMap<SmolStr, Literal>,
    /// The policies that ask for a given value of a given key
    pub pv_map: ListMap<(SmolStr, Literal), PolicyID>,
    /// The entities with a given value of a given attribute
    pub sv_map: ListMap<(SmolStr, Literal), EntityUID>,
    /// The entities that a policy covers
    pub policy_entities_map: ListMap<PolicyID, EntityUID>,
}

/// `values` holds, under a key, its values in `sv` and in `pv`, each once.
pub open spec fn lists_all_values(
    values: Map<Seq<char>, Seq<LitKey>>,
    sv: Map<(Seq<char>, LitKey), Seq<UidKey>>,
    pv: Map<(Seq<char>, LitKey), Seq<Seq<char>>>,
) -> bool {
    &&& forall|name: Seq<char>, lit: LitKey| #[trigger]
        at(values, name).contains(lit) <==> sv.dom().contains((name, lit)) || pv.dom().contains(
            (name, lit),
        )
    &&& forall|name: Seq<char>| (#[trigger] at(values, name)).no_duplicates()
    &&& forall|name: Seq<char>| #[trigger]
        values.dom().contains(name) ==> values[name].len() > 0
}

/// `id`, once for each occurrence of `k` in `cs`.
pub open spec fn times(
    cs: Seq<(Seq<char>, LitKey)>,
    k: (Seq<char>, LitKey),
    id: Seq<char>,
) -> Seq<Seq<char>>
    decreases cs.len(),
{
    if cs.len() == 0 {
        Seq::empty()
    } else {
        let front = times(cs.drop_last(), k, id);
        if cs.last() == k {
            front.push(id)
        } else {
            front
        }
    }
}

/// The indexed policies of `ps` that ask for `k`, once for each time they do.
pub open spec fn registered(ps: Seq<Policy>, k: (Seq<char>, LitKey)) -> Seq<Seq<char>>
    decreases ps.len(),
{
    if ps.len() == 0 {
        Seq::empty()
    } else {
        let front = registered(ps.drop_last(), k);
        if policy_indexed(ps.last()) {
            front + times(policy_atoms(ps.last()), k, ps.last().id.key())
        } else {
            front
        }
    }
}

/// `pv` holds, under a key and a value, the indexed policies that ask for it.
pub open spec fn is_pv_map(pv: Map<(Seq<char>, LitKey), Seq<Seq<char>>>, ps: Seq<Policy>) -> bool {
    &&& forall|k: (Seq<char>, LitKey)| #[trigger] at(pv, k) == registered(ps, k)
    &&& forall|k: (Seq<char>, LitKey)| #[trigger] pv.dom().contains(k) ==> pv[k].len() > 0
}

/// Whether policy `i` is `id`, is indexed, and constrains some entity.
pub open spec fn covering(ps: Seq<Policy>, i: int, id: Seq<char>) -> bool {
    &&& 0 <= i < ps.len()
    &&& ps[i].id.key() == id
    &&& policy_indexed(ps[i])
    &&& on_entities(policy_atoms(ps[i]))
}

/// `cover` holds, under each policy that is indexed and constrains some entity,
/// the entities that fit its constraints, each once; and nothing else.
pub open spec fn is_cover_map(
    cover: Map<Seq<char>, Seq<UidKey>>,
    ps: Seq<Policy>,
    entities: &Entities,
) -> bool {
    &&& forall|id: Seq<char>| #[trigger]
        cover.dom().contains(id) ==> exists|i: int| covering(ps, i, id)
    &&& forall|i: int, id: Seq<char>| #[trigger]
        covering(ps, i, id) ==> {
            &&& cover.dom().contains(id)
            &&& cover[id].no_duplicates()
            &&& forall|u: UidKey| #[trigger]
                cover[id].contains(u) <==> fits_all(entities, policy_atoms(ps[i]), u)
        }
}

impl PolTreeIndex {
    /// No map holds a key twice.
    pub open spec fn maps_wf(&self) -> bool {
        &&& self.attr_values.wf()
        &&& self.pv_map.wf()
        &&& self.sv_map.wf()
        &&& self.policy_entities_map.wf()
    }

    /// The index has what one pass over its store finds out, and lists each
    /// key's values.
    pub open spec fn wf(&self) -> bool {
        &&& self.entities.wf()
        &&& self.maps_wf()
        &&& is_sv_map(self.sv_map@, self.entities.entities@)
        &&& lists_all_values(self.attr_values@, self.sv_map@, self.pv_map@)
    }

    /// The index is one of the policies `ps`.
    pub open spec fn indexes(&self, ps: Seq<Policy>) -> bool {
        &&& self.wf()
        &&& is_pv_map(self.pv_map@, ps)
        &&& is_cover_map(self.policy_entities_map@, ps, &self.entities)
    }

    /// Builds the index of a policy set over a store, and lists the policies
    /// that it leaves out.
    ///
    /// Left out are the policies that are not captured, and those that forbid.
    /// They are for an evaluator of whole conditions: to know nothing of a
    /// policy's condition is not to know that it has none.
    pub fn build_from_policy_set(policy_set: &PolicySet, entities: Arc<Entities>) -> (r: (
        Self,
        Vec<PolicyID>,
    ))
        requires
            policy_set.wf(),
            entities.wf(),
        ensures
            r.0.entities == entities,
            r.0.indexes(policy_set.policies@),
            keys(r.1@) == ids(residual(policy_set.policies@)),
    {
        let scan = scan_entities(&entities);
        let mut pv_map: ListMap<(SmolStr, Literal), PolicyID> = ListMap::new();
        let mut policy_entities_map: ListMap<PolicyID, EntityUID> = ListMap::new();
        let mut left_out: Vec<PolicyID> = Vec::new();
        let ghost ps = policy_set.policies@;
        assert(ps.take(0) =~= Seq::empty());
        assert(keys(left_out@) =~= ids(residual(ps.take(0)))) by {
            reveal(Seq::filter);
        }
        for i in 0..policy_set.policies.len()
            invariant
                policy_set.wf(),
                entities.wf(),
                ps == policy_set.policies@,
                scan.sv_map.wf(),
                scan.type_index.wf(),
                is_sv_map(scan.sv_map@, entities.entities@),
                is_type_index(scan.type_index@, entities.entities@),
                pv_map.wf(),
                policy_entities_map.wf(),
                is_pv_map(pv_map@, ps.take(i as int)),
                is_cover_map(policy_entities_map@, ps.take(i as int), &entities),
                keys(left_out@) == ids(residual(ps.take(i as int))),
        {
            let policy = &policy_set.policies()[i];
            let ghost done = ps.take(i as int);
            let ghost next = ps.take(i + 1);
            assert(next.drop_last() =~= done);
            assert(next.last() == *policy);
            assert(next =~= done.push(*policy));
            match policy_constraints(policy, &entities, &scan) {
                None => {
                    let ghost before = left_out@;
                    left_out.push(policy.id().dup());
                    proof {
                        reveal(Seq::filter);
                        assert(keys(left_out@) =~= keys(before).push(policy.id.key()));
                        assert(ids(residual(next)) =~= ids(residual(done)).push(policy.id.key()));
                        assert forall|k: (Seq<char>, LitKey)| #[trigger]
                            at(pv_map@, k) == registered(next, k) by {
                            assert(at(pv_map@, k) == registered(done, k));
                        }
                        lemma_cover_skip(policy_entities_map@, done, *policy, &entities);
                    }
                },
                Some(constraints) => {
                    proof {
                        reveal(Seq::filter);
                    }
                    register(&mut pv_map, policy.id(), &constraints);
                    proof {
                        assert forall|k: (Seq<char>, LitKey)| #[trigger]
                            at(pv_map@, k) == registered(next, k) by {}
                    }
                    match covered_entities(&constraints) {
                        Some(covered) => {
                            let ghost cover = policy_entities_map@;
                            policy_entities_map.put(policy.id().dup(), covered);
                            proof {
                                lemma_fits_all(&entities, constraints@);
                                lemma_cover_put(
                                    cover,
                                    ps,
                                    i as int,
                                    &entities,
                                    keys(covered@),
                                );
                            }
                        },
                        None => {
                            proof {
                                lemma_cover_skip(policy_entities_map@, done, *policy, &entities);
                            }
                        },
                    }
                },
            }
        }
        assert(ps.take(ps.len() as int) =~= ps);
        let mut attr_values = scan.attr_values;
        add_policy_values(&mut attr_values, &pv_map);
        (
            PolTreeIndex {
                entities,
                attr_values,
                pv_map,
                sv_map: scan.sv_map,
                policy_entities_map,
            },
            left_out,
        )
    }

    /// Builds an index over a store from given maps of policies.
    pub fn build_from_entities(
        entities: Arc<Entities>,
        pv_map: ListMap<(SmolStr, Literal), PolicyID>,
        policy_entities_map: ListMap<PolicyID, EntityUID>,
    ) -> (r: Self)
        requires
            entities.wf(),
            pv_map.wf(),
            policy_entities_map.wf(),
        ensures
            r.wf(),
            r.entities == entities,
            r.pv_map == pv_map,
            r.policy_entities_map == policy_entities_map,
    {
        let scan = scan_entities(&entities);
        let mut attr_values = scan.attr_values;
        add_policy_values(&mut attr_values, &pv_map);
        PolTreeIndex { entities, attr_values, pv_map, sv_map: scan.sv_map, policy_entities_map }
    }

    /// Looks an entity of the store up.
    pub fn get_entity(&self, uid: &EntityUID) -> (r: Dereference<'_, Entity>)
        requires
            self.entities.wf(),
        ensures
            match r {
                Dereference::Data(e) => self.entities.has(uid.key()) && *e
                    == self.entities.entities@[uids(self.entities.entities@).index_of(uid.key())],
                Dereference::NoSuchEntity => !self.entities.has(uid.key())
                    && !self.entities.partial,
                Dereference::Residual => !self.entities.has(uid.key()) && self.entities.partial,
            },
    {
        self.entities.entity(uid)
    }

    /// The policies that ask for `val` under `attr`.
    pub fn get_pv(&self, attr: &SmolStr, val: &Literal) -> (r: &[PolicyID])
        requires
            self.pv_map.wf(),
        ensures
            keys(r@) == at(self.pv_map@, (smol_chars(*attr), val.key())),
    {
        match self.pv_map.get(&(attr.clone(), val.dup())) {
            Some(v) => v.as_slice(),
            None => {
                let r: &[PolicyID] = &[];
                assert(keys(r@) =~= Seq::<Seq<char>>::empty());
                r
            },
        }
    }

    /// The entities whose attribute `attr` is `val`.
    pub fn get_sv(&self, attr: &SmolStr, val: &Literal) -> (r: &[EntityUID])
        requires
            self.sv_map.wf(),
        ensures
            keys(r@) == at(self.sv_map@, (smol_chars(*attr), val.key())),
    {
        match self.sv_map.get(&(attr.clone(), val.dup())) {
            Some(v) => v.as_slice(),
            None => {
                let r: &[EntityUID] = &[];
                assert(keys(r@) =~= Seq::<UidKey>::empty());
                r
            },
        }
    }

    /// The entities that any of the given policies covers, each once.
    pub fn get_sv_for_policies(&self, policy_ids: &[PolicyID]) -> (r: Vec<EntityUID>)
        requires
            self.policy_entities_map.wf(),
        ensures
            keys(r@) == covered_by(self.policy_entities_map@, keys(policy_ids@)),
    {
        let mut r: Vec<EntityUID> = Vec::new();
        let ghost given = keys(policy_ids@);
        let ghost cover = self.policy_entities_map@;
        assert(given.take(0) =~= Seq::empty());
        assert(keys(r@) =~= covered_by(cover, given.take(0)));
        for i in 0..policy_ids.len()
            invariant
                self.policy_entities_map.wf(),
                given == keys(policy_ids@),
                cover == self.policy_entities_map@,
                keys(r@) == covered_by(cover, given.take(i as int)),
        {
            assert(given.take(i + 1).drop_last() =~= given.take(i as int));
            assert(given.take(i + 1).last() == policy_ids@[i as int].key());
            if let Some(covered) = self.policy_entities_map.get(&policy_ids[i]) {
                add_all(&mut r, covered);
            }
        }
        assert(given.take(given.len() as int) =~= given);
        r
    }

    /// The values that any of the given policies asks for under `attr`.
    pub fn values_for_attr_in_policies(&self, attr: &SmolStr, policy_ids: &[PolicyID]) -> (r: Vec<
        Literal,
    >)
        requires
            self.pv_map.wf(),
        ensures
            keys(r@).no_duplicates(),
            forall|lit: LitKey| #[trigger]
                keys(r@).contains(lit) <==> is_asked(
                    self.pv_map@,
                    smol_chars(*attr),
                    lit,
                    keys(policy_ids@),
                ),
    {
        let mut r: Vec<Literal> = Vec::new();
        let ghost pv = self.pv_map@;
        let ghost ks = self.pv_map.dom_keys();
        let ghost name = smol_chars(*attr);
        let ghost given = keys(policy_ids@);
        for i in 0..self.pv_map.entries.len()
            invariant
                self.pv_map.wf(),
                pv == self.pv_map@,
                ks == self.pv_map.dom_keys(),
                name == smol_chars(*attr),
                given == keys(policy_ids@),
                keys(r@).no_duplicates(),
                forall|lit: LitKey| #[trigger]
                    keys(r@).contains(lit) <==> ks.take(i as int).contains((name, lit))
                        && is_asked(pv, name, lit, given),
        {
            let entry = &self.pv_map.entries[i];
            let ghost before = keys(r@);
            let ghost k = ks[i as int];
            assert(ks.take(i + 1) =~= ks.take(i as int).push(k));
            proof {
                self.pv_map.lemma_entry(i as int);
                assert(at(pv, k) == keys(entry.1@));
                assert forall|lit: LitKey| ks.take(i + 1).contains((name, lit)) <==> ks.take(
                    i as int,
                ).contains((name, lit)) || k == (name, lit) by {
                    lemma_push_contains(ks.take(i as int), k, (name, lit));
                }
                if ks.take(i as int).contains(k) {
                    let j = ks.take(i as int).index_of(k);
                    assert(ks[j] == ks[i as int]);
                }
            }
            if entry.0.0.same(attr) && shares_key(&entry.1, policy_ids) {
                r.push(entry.0.1.dup());
                proof {
                    assert(keys(r@) =~= before.push(k.1));
                    assert(k == (name, k.1));
                    let id = choose|id: Seq<char>| #[trigger]
                        given.contains(id) && keys(entry.1@).contains(id);
                    assert(asks(pv, name, k.1, id));
                    assert(!before.contains(k.1));
                    assert forall|lit: LitKey| #[trigger]
                        keys(r@).contains(lit) <==> ks.take(i + 1).contains((name, lit))
                            && is_asked(pv, name, lit, given) by {
                        lemma_push_contains(before, k.1, lit);
                        assert(before.contains(lit) <==> ks.take(i as int).contains((name, lit))
                            && is_asked(pv, name, lit, given));
                    }
                }
            } else {
                proof {
                    if k.0 == name && is_asked(pv, name, k.1, given) {
                        let id = choose|id: Seq<char>|
                            given.contains(id) && #[trigger] asks(pv, name, k.1, id);
                        assert(k == (name, k.1));
                        assert(keys(entry.1@).contains(id));
                    }
                    assert forall|lit: LitKey| #[trigger]
                        keys(r@).contains(lit) <==> ks.take(i + 1).contains((name, lit))
                            && is_asked(pv, name, lit, given) by {
                        assert(before.contains(lit) <==> ks.take(i as int).contains((name, lit))
                            && is_asked(pv, name, lit, given));
                    }
                }
            }
        }
        assert(ks.take(ks.len() as int) =~= ks);
        assert forall|lit: LitKey| is_asked(pv, name, lit, given) implies ks.contains(
            (name, lit),
        ) by {}
        r
    }
}

/// Whether policy `id` asks for `lit` under `key`.
pub open spec fn asks(
    pv: Map<(Seq<char>, LitKey), Seq<Seq<char>>>,
    key: Seq<char>,
    lit: LitKey,
    id: Seq<char>,
) -> bool {
    at(pv, (key, lit)).contains(id)
}

/// Whether some policy of `given` asks for `lit` under `key`.
pub open spec fn is_asked(
    pv: Map<(Seq<char>, LitKey), Seq<Seq<char>>>,
    key: Seq<char>,
    lit: LitKey,
    given: Seq<Seq<char>>,
) -> bool {
    exists|id: Seq<char>| given.contains(id) && #[trigger] asks(pv, key, lit, id)
}

/// The entities that any policy of `given` covers, each once.
pub open spec fn covered_by(cover: Map<Seq<char>, Seq<UidKey>>, given: Seq<Seq<char>>) -> Seq<
    UidKey,
>
    decreases given.len(),
{
    if given.len() == 0 {
        Seq::empty()
    } else {
        union_onto(covered_by(cover, given.drop_last()), at(cover, given.last()))
    }
}

/// Whether some key of `v` is among those of `w`.
fn shares_key<T: Keyed>(v: &[T], w: &[T]) -> (r: bool)
    ensures
        r == exists|k: T::Key| #[trigger] keys(w@).contains(k) && keys(v@).contains(k),
{
    for i in 0..v.len()
        invariant
            forall|j: int| 0 <= j < i ==> !keys(w@).contains(#[trigger] keys(v@)[j]),
    {
        if has_key(w, &v[i]) {
            assert(keys(v@)[i as int] == v@[i as int].key());
            return true;
        }
    }
    false
}

/// Registers a policy under each of its constraints.
fn register(
    pv_map: &mut ListMap<(SmolStr, Literal), PolicyID>,
    id: &PolicyID,
    constraints: &Vec<Constraint>,
)
    requires
        old(pv_map).wf(),
        forall|k: (Seq<char>, LitKey)| #[trigger]
            old(pv_map)@.dom().contains(k) ==> old(pv_map)@[k].len() > 0,
    ensures
        final(pv_map).wf(),
        forall|k: (Seq<char>, LitKey)| #[trigger]
            at(final(pv_map)@, k) == at(old(pv_map)@, k) + times(
                atoms(constraints@),
                k,
                id.key(),
            ),
        forall|k: (Seq<char>, LitKey)| #[trigger]
            final(pv_map)@.dom().contains(k) ==> final(pv_map)@[k].len() > 0,
{
    let ghost cs = atoms(constraints@);
    assert(cs.take(0) =~= Seq::empty());
    assert forall|k: (Seq<char>, LitKey)| #[trigger]
        at(pv_map@, k) == at(old(pv_map)@, k) + times(cs.take(0), k, id.key()) by {
        assert(at(pv_map@, k) + Seq::<Seq<char>>::empty() =~= at(pv_map@, k));
    }
    for j in 0..constraints.len()
        invariant
            cs == atoms(constraints@),
            pv_map.wf(),
            forall|k: (Seq<char>, LitKey)| #[trigger]
                at(pv_map@, k) == at(old(pv_map)@, k) + times(cs.take(j as int), k, id.key()),
            forall|k: (Seq<char>, LitKey)| #[trigger]
                pv_map@.dom().contains(k) ==> pv_map@[k].len() > 0,
    {
        let c = &constraints[j];
        let ghost before = pv_map@;
        pv_map.push((c.attr.clone(), c.value.dup()), id.dup());
        assert(cs.take(j + 1).drop_last() =~= cs.take(j as int));
        assert(cs.take(j + 1).last() == c.atom());
        assert forall|k: (Seq<char>, LitKey)| #[trigger]
            at(pv_map@, k) == at(old(pv_map)@, k) + times(cs.take(j + 1), k, id.key()) by {
            assert(at(before, k) == at(old(pv_map)@, k) + times(cs.take(j as int), k, id.key()));
            if k == c.atom() {
                assert(at(pv_map@, k) =~= at(old(pv_map)@, k) + times(
                    cs.take(j + 1),
                    k,
                    id.key(),
                ));
            }
        }
    }
    assert(cs.take(cs.len() as int) =~= cs);
}

/// Adds to each key's values those that only policies ask for.
fn add_policy_values(
    attr_values: &mut ListMap<SmolStr, Literal>,
    pv_map: &ListMap<(SmolStr, Literal), PolicyID>,
)
    requires
        old(attr_values).wf(),
        pv_map.wf(),
        forall|name: Seq<char>| (#[trigger] at(old(attr_values)@, name)).no_duplicates(),
        forall|name: Seq<char>| #[trigger]
            old(attr_values)@.dom().contains(name) ==> old(attr_values)@[name].len() > 0,
    ensures
        final(attr_values).wf(),
        forall|name: Seq<char>, lit: LitKey| #[trigger]
            at(final(attr_values)@, name).contains(lit) <==> at(
                old(attr_values)@,
                name,
            ).contains(lit) || pv_map@.dom().contains((name, lit)),
        forall|name: Seq<char>| (#[trigger] at(final(attr_values)@, name)).no_duplicates(),
        forall|name: Seq<char>| #[trigger]
            final(attr_values)@.dom().contains(name) ==> final(attr_values)@[name].len() > 0,
{
    let ghost ks = pv_map.dom_keys();
    assert(ks.take(0) =~= Seq::empty());
    for i in 0..pv_map.entries.len()
        invariant
            ks == pv_map.dom_keys(),
            attr_values.wf(),
            forall|name: Seq<char>, lit: LitKey| #[trigger]
                at(attr_values@, name).contains(lit) <==> at(old(attr_values)@, name).contains(lit)
                    || ks.take(i as int).contains((name, lit)),
            forall|name: Seq<char>| (#[trigger] at(attr_values@, name)).no_duplicates(),
            forall|name: Seq<char>| #[trigger]
                attr_values@.dom().contains(name) ==> attr_values@[name].len() > 0,
    {
        let attr = &pv_map.entries[i].0.0;
        let lit = &pv_map.entries[i].0.1;
        let ghost before = attr_values@;
        attr_values.add(attr.clone(), lit.dup());
        proof {
            let n = smol_chars(*attr);
            let l = lit.key();
            assert(ks.take(i + 1) =~= ks.take(i as int).push((n, l)));
            assert forall|name: Seq<char>, q: LitKey| #[trigger]
                at(attr_values@, name).contains(q) <==> at(old(attr_values)@, name).contains(q)
                    || ks.take(i + 1).contains((name, q)) by {
                lemma_push_contains(ks.take(i as int), (n, l), (name, q));
                lemma_push_contains(at(before, n), l, q);
                assert(at(before, name).contains(q) <==> at(old(attr_values)@, name).contains(q)
                    || ks.take(i as int).contains((name, q)));
                assert(at(before, n).contains(l) <==> at(old(attr_values)@, n).contains(l)
                    || ks.take(i as int).contains((n, l)));
            }
            assert(at(before, n).no_duplicates());
            assert forall|name: Seq<char>| (#[trigger] at(attr_values@, name)).no_duplicates() by {
                assert(at(before, name).no_duplicates());
            }
        }
    }
    assert(ks.take(ks.len() as int) =~= ks);
}

/// The shared candidates are the entities that fit.
proof fn lemma_fits_all(entities: &Entities, cs: Seq<Constraint>)
    requires
        forall|i: int| 0 <= i < cs.len() ==> has_candidates(entities, #[trigger] cs[i]),
    ensures
        forall|u: UidKey| #[trigger] in_all(cs, u) <==> fits_all(entities, atoms(cs), u),
{
    assert forall|u: UidKey| #[trigger] in_all(cs, u) <==> fits_all(entities, atoms(cs), u) by {
        if in_all(cs, u) {
            assert forall|i: int|
                0 <= i < atoms(cs).len() && !is_context_key(
                    (#[trigger] atoms(cs)[i]).0,
                ) implies fits(
                entities,
                atoms(cs)[i].0,
                atoms(cs)[i].1,
                u,
            ) by {
                assert(has_candidates(entities, cs[i]));
                assert(keys(cs[i].candidates@).contains(u));
            }
        }
        if fits_all(entities, atoms(cs), u) {
            assert forall|i: int|
                0 <= i < cs.len() && !is_context_key(smol_chars((#[trigger] cs[i]).attr)) implies keys(
                cs[i].candidates@,
            ).contains(u) by {
                assert(has_candidates(entities, cs[i]));
                assert(!is_context_key(atoms(cs)[i].0));
            }
        }
    }
}

/// A policy that covers nothing of its own leaves the map as it is.
proof fn lemma_cover_skip(
    cover: Map<Seq<char>, Seq<UidKey>>,
    done: Seq<Policy>,
    p: Policy,
    entities: &Entities,
)
    requires
        is_cover_map(cover, done, entities),
        !(policy_indexed(p) && on_entities(policy_atoms(p))),
    ensures
        is_cover_map(cover, done.push(p), entities),
{
    let next = done.push(p);
    assert forall|i: int, id: Seq<char>| #[trigger] covering(next, i, id) implies covering(
        done,
        i,
        id,
    ) by {}
    assert forall|id: Seq<char>| #[trigger] cover.dom().contains(id) implies exists|i: int|
        covering(next, i, id) by {
        let i = choose|i: int| covering(done, i, id);
        assert(covering(next, i, id));
    }
    assert forall|i: int, id: Seq<char>| #[trigger] covering(next, i, id) implies {
        &&& cover.dom().contains(id)
        &&& cover[id].no_duplicates()
        &&& forall|u: UidKey| #[trigger]
            cover[id].contains(u) <==> fits_all(entities, policy_atoms(next[i]), u)
    } by {
        assert(covering(done, i, id));
    }
}

/// A further policy's coverage is put beside that of the others.
proof fn lemma_cover_put(
    cover: Map<Seq<char>, Seq<UidKey>>,
    ps: Seq<Policy>,
    n: int,
    entities: &Entities,
    covered: Seq<UidKey>,
)
    requires
        0 <= n < ps.len(),
        ids(ps).no_duplicates(),
        is_cover_map(cover, ps.take(n), entities),
        policy_indexed(ps[n]),
        on_entities(policy_atoms(ps[n])),
        covered.no_duplicates(),
        forall|u: UidKey| #[trigger]
            covered.contains(u) <==> fits_all(entities, policy_atoms(ps[n]), u),
    ensures
        is_cover_map(cover.insert(ps[n].id.key(), covered), ps.take(n + 1), entities),
{
    let done = ps.take(n);
    let next = ps.take(n + 1);
    let id_n = ps[n].id.key();
    let m = cover.insert(id_n, covered);
    assert forall|id: Seq<char>| #[trigger] m.dom().contains(id) implies exists|i: int|
        covering(next, i, id) by {
        if id == id_n {
            assert(covering(next, n, id));
        } else {
            assert(cover.dom().contains(id));
            let i = choose|i: int| covering(done, i, id);
            assert(covering(next, i, id));
        }
    }
    assert forall|i: int, id: Seq<char>| #[trigger] covering(next, i, id) implies {
        &&& m.dom().contains(id)
        &&& m[id].no_duplicates()
        &&& forall|u: UidKey| #[trigger]
            m[id].contains(u) <==> fits_all(entities, policy_atoms(next[i]), u)
    } by {
        if i < n {
            assert(covering(done, i, id));
            assert(ids(ps)[i] != ids(ps)[n]);
        }
    }
}

} // verus!
