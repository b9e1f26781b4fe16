//! Values that are told apart by a mathematical key, and vectors of them used
//! as sets and as maps.

use smol_str::SmolStr;
use vstd::prelude::*;

use crate::text::smol_chars;

verus! {

/// A value that stands for a key: two values with one key are interchangeable.
pub trait Keyed: Sized {
    /// What the value stands for.
    type Key;

    /// The key of this value.
    spec fn key(&self) -> Self::Key;

    /// Whether both values have one key.
    fn same(&self, other: &Self) -> (r: bool)
        ensures
            r == (self.key() == other.key()),
    ;

    /// Another value with the key of this one.
    fn dup(&self) -> (r: Self)
        ensures
            r.key() == self.key(),
    ;
}

impl Keyed for SmolStr {
    type Key = Seq<char>;

    open spec fn key(&self) -> Seq<char> {
        smol_chars(*self)
    }

    fn same(&self, other: &Self) -> (r: bool) {
        *self == *other
    }

    fn dup(&self) -> (r: Self) {
        self.clone()
    }
}

impl<A: Keyed, B: Keyed> Keyed for (A, B) {
    type Key = (A::Key, B::Key);

    open spec fn key(&self) -> (A::Key, B::Key) {
        (self.0.key(), self.1.key())
    }

    fn same(&self, other: &Self) -> (r: bool) {
        self.0.same(&other.0) && self.1.same(&other.1)
    }

    fn dup(&self) -> (r: Self) {
        (self.0.dup(), self.1.dup())
    }
}

/// The keys of a sequence of values, in order.
pub open spec fn keys<T: Keyed>(s: Seq<T>) -> Seq<T::Key> {
    Seq::new(s.len(), |i: int| s[i].key())
}

/// Whether some element of `v` has the key of `x`.
pub fn has_key<T: Keyed>(v: &[T], x: &T) -> (r: bool)
    ensures
        r == keys(v@).contains(x.key()),
{
    for i in 0..v.len()
        invariant
            forall|j: int| 0 <= j < i ==> keys(v@)[j] != x.key(),
    {
        if v[i].same(x) {
            assert(keys(v@)[i as int] == x.key());
            return true;
        }
    }
    false
}

/// The elements of `v` whose key is among those of `w`, in order.
pub fn retain_in<T: Keyed>(v: &[T], w: &[T]) -> (r: Vec<T>)
    ensures
        keys(r@) == keys(v@).filter(|k: T::Key| keys(w@).contains(k)),
{
    let mut r: Vec<T> = Vec::new();
    let ghost p = |k: T::Key| keys(w@).contains(k);
    assert(keys(v@).take(0) =~= Seq::<T::Key>::empty());
    reveal(Seq::filter);
    assert(keys(r@) =~= keys(v@).take(0).filter(p));
    for i in 0..v.len()
        invariant
            p == (|k: T::Key| keys(w@).contains(k)),
            keys(r@) == keys(v@).take(i as int).filter(p),
    {
        let ghost before = r@;
        assert(keys(v@).take(i + 1).drop_last() =~= keys(v@).take(i as int));
        assert(keys(v@).take(i + 1).last() == v[i as int].key());
        reveal(Seq::filter);
        if has_key(w, &v[i]) {
            r.push(v[i].dup());
            assert(keys(r@) =~= keys(before).push(v[i as int].key()));
        }
    }
    assert(keys(v@).take(v@.len() as int) =~= keys(v@));
    r
}

/// The elements of `v` whose key is not among those of `w`, in order.
pub fn retain_not_in<T: Keyed>(v: &[T], w: &[T]) -> (r: Vec<T>)
    ensures
        keys(r@) == keys(v@).filter(|k: T::Key| !keys(w@).contains(k)),
{
    let mut r: Vec<T> = Vec::new();
    let ghost p = |k: T::Key| !keys(w@).contains(k);
    reveal(Seq::filter);
    assert(keys(r@) =~= keys(v@).take(0).filter(p));
    for i in 0..v.len()
        invariant
            p == (|k: T::Key| !keys(w@).contains(k)),
            keys(r@) == keys(v@).take(i as int).filter(p),
    {
        let ghost before = r@;
        assert(keys(v@).take(i + 1).drop_last() =~= keys(v@).take(i as int));
        assert(keys(v@).take(i + 1).last() == v[i as int].key());
        reveal(Seq::filter);
        if !has_key(w, &v[i]) {
            r.push(v[i].dup());
            assert(keys(r@) =~= keys(before).push(v[i as int].key()));
        }
    }
    assert(keys(v@).take(v@.len() as int) =~= keys(v@));
    r
}

/// `acc`, and behind it each element of `s` that does not stand there yet.
pub open spec fn union_onto<T>(acc: Seq<T>, s: Seq<T>) -> Seq<T>
    decreases s.len(),
{
    if s.len() == 0 {
        acc
    } else {
        let front = union_onto(acc, s.drop_last());
        if front.contains(s.last()) {
            front
        } else {
            front.push(s.last())
        }
    }
}

/// The elements of `s` without repetitions, each where it first occurs.
pub open spec fn distinct<T>(s: Seq<T>) -> Seq<T> {
    union_onto(Seq::empty(), s)
}

/// A union holds what either part holds, and repeats nothing that `acc` does not.
pub proof fn lemma_union_onto<T>(acc: Seq<T>, s: Seq<T>)
    ensures
        forall|x: T| #[trigger]
            union_onto(acc, s).contains(x) <==> acc.contains(x) || s.contains(x),
        acc.no_duplicates() ==> union_onto(acc, s).no_duplicates(),
    decreases s.len(),
{
    if s.len() > 0 {
        let front = union_onto(acc, s.drop_last());
        lemma_union_onto(acc, s.drop_last());
        assert forall|x: T| #[trigger]
            union_onto(acc, s).contains(x) <==> acc.contains(x) || s.contains(x) by {
            assert(front.contains(x) <==> acc.contains(x) || s.drop_last().contains(x));
            assert(s.contains(x) <==> s.drop_last().contains(x) || x == s.last()) by {
                if s.contains(x) {
                    let i = s.index_of(x);
                    if i < s.len() - 1 {
                        assert(s.drop_last()[i] == x);
                    }
                }
                if s.drop_last().contains(x) {
                    let i = s.drop_last().index_of(x);
                    assert(s[i] == x);
                }
                assert(s[s.len() - 1] == s.last());
            }
            if !front.contains(s.last()) {
                let u = front.push(s.last());
                if front.contains(x) {
                    assert(u[front.index_of(x)] == x);
                }
                assert(u[front.len() as int] == s.last());
            }
        }
    }
}

/// Without repetitions a sequence has what it had, in the order of the first
/// occurrences: before an element stands what occurs before it.
pub proof fn distinct_keeps_first_occurrences<T>(s: Seq<T>, i: int, j: int)
    requires
        0 <= i < j < distinct(s).len(),
    ensures
        exists|a: int|
            {
                &&& 0 <= a < s.len()
                &&& #[trigger] s[a] == distinct(s)[i]
                &&& forall|b: int| 0 <= b <= a ==> #[trigger] s[b] != distinct(s)[j]
            },
    decreases s.len(),
{
    let front = s.drop_last();
    lemma_union_onto(Seq::empty(), front);
    if j < distinct(front).len() {
        distinct_keeps_first_occurrences(front, i, j);
        let a = choose|a: int|
            {
                &&& 0 <= a < front.len()
                &&& #[trigger] front[a] == distinct(front)[i]
                &&& forall|b: int| 0 <= b <= a ==> #[trigger] front[b] != distinct(front)[j]
            };
        assert(s[a] == distinct(s)[i]);
        assert forall|b: int| 0 <= b <= a implies #[trigger] s[b] != distinct(s)[j] by {
            assert(front[b] == s[b]);
        }
    } else {
        let x = distinct(front)[i];
        assert(distinct(front).contains(x));
        assert(front.contains(x));
        let a = front.index_of(x);
        assert(s[a] == distinct(s)[i]);
        assert forall|b: int| 0 <= b <= a implies #[trigger] s[b] != distinct(s)[j] by {
            assert(front.contains(front[b]));
        }
    }
}

/// Puts each element of `v` behind `acc` whose key does not stand there yet.
pub fn add_all<T: Keyed>(acc: &mut Vec<T>, v: &[T])
    ensures
        keys(final(acc)@) == union_onto(keys(old(acc)@), keys(v@)),
{
    assert(keys(v@).take(0) =~= Seq::<T::Key>::empty());
    for i in 0..v.len()
        invariant
            keys(acc@) == union_onto(keys(old(acc)@), keys(v@).take(i as int)),
    {
        let ghost before = acc@;
        assert(keys(v@).take(i + 1).drop_last() =~= keys(v@).take(i as int));
        assert(keys(v@).take(i + 1).last() == v[i as int].key());
        if !has_key(acc, &v[i]) {
            acc.push(v[i].dup());
            assert(keys(acc@) =~= keys(before).push(v[i as int].key()));
        }
    }
    assert(keys(v@).take(v@.len() as int) =~= keys(v@));
}

/// Copies a list.
pub fn dup_all<T: Keyed>(v: &[T]) -> (r: Vec<T>)
    ensures
        keys(r@) == keys(v@),
{
    let mut r: Vec<T> = Vec::new();
    for i in 0..v.len()
        invariant
            r@.len() == i,
            forall|j: int| 0 <= j < i ==> (#[trigger] r@[j]).key() == v@[j].key(),
    {
        r.push(v[i].dup());
    }
    assert(keys(r@) =~= keys(v@));
    r
}

/// A map from keys to lists of values, kept as a list of its entries.
#[derive(Debug, Clone)]
pub struct ListMap<K: Keyed, V: Keyed> {
    /// The entries, in the order in which their keys were first used
    pub entries: Vec<(K, Vec<V>)>,
}

/// What `m` holds under `k`, where a missing key holds nothing.
pub open spec fn at<K, V>(m: Map<K, Seq<V>>, k: K) -> Seq<V> {
    if m.dom().contains(k) {
        m[k]
    } else {
        Seq::empty()
    }
}

impl<K: Keyed, V: Keyed> ListMap<K, V> {
    /// The keys of the map, in the order of its entries.
    pub open spec fn dom_keys(&self) -> Seq<K::Key> {
        Seq::new(self.entries@.len(), |i: int| self.entries@[i].0.key())
    }

    /// No key occurs twice.
    pub open spec fn wf(&self) -> bool {
        self.dom_keys().no_duplicates()
    }

    /// The map that the entries make up.
    pub open spec fn view(&self) -> Map<K::Key, Seq<V::Key>> {
        Map::new(
            |k: K::Key| self.dom_keys().contains(k),
            |k: K::Key| keys(self.entries@[self.dom_keys().index_of(k)].1@),
        )
    }

    /// Each entry is in the map.
    pub proof fn lemma_entry(&self, i: int)
        requires
            self.wf(),
            0 <= i < self.entries@.len(),
        ensures
            self@.dom().contains(self.entries@[i].0.key()),
            self@[self.entries@[i].0.key()] == keys(self.entries@[i].1@),
    {
        let k = self.entries@[i].0.key();
        assert(self.dom_keys()[i] == k);
        let j = self.dom_keys().index_of(k);
        assert(self.dom_keys()[j] == k);
    }

    /// What the map holds under a key is what stands in the entry of that key.
    pub proof fn map_holds_its_entries(&self, k: K::Key, v: V::Key)
        requires
            self.wf(),
        ensures
            at(self@, k).contains(v) <==> exists|i: int, j: int|
                {
                    &&& 0 <= i < self.entries@.len()
                    &&& self.entries@[i].0.key() == k
                    &&& 0 <= j < self.entries@[i].1@.len()
                    &&& (#[trigger] self.entries@[i].1@[j]).key() == v
                },
            self@.dom().contains(k) <==> exists|i: int|
                0 <= i < self.entries@.len() && (#[trigger] self.entries@[i]).0.key() == k,
    {
        if self@.dom().contains(k) {
            let i = self.dom_keys().index_of(k);
            assert(self.dom_keys()[i] == k);
            self.lemma_entry(i);
            if self@[k].contains(v) {
                let j = self@[k].index_of(v);
                assert(self.entries@[i].1@[j].key() == v);
            }
        }
        assert forall|i: int| 0 <= i < self.entries@.len() implies self@.dom().contains(
            (#[trigger] self.entries@[i]).0.key(),
        ) && self@[self.entries@[i].0.key()] == keys(self.entries@[i].1@) by {
            self.lemma_entry(i);
        }
        if exists|i: int, j: int|
            {
                &&& 0 <= i < self.entries@.len()
                &&& self.entries@[i].0.key() == k
                &&& 0 <= j < self.entries@[i].1@.len()
                &&& (#[trigger] self.entries@[i].1@[j]).key() == v
            } {
            let (i, j) = choose|i: int, j: int|
                {
                    &&& 0 <= i < self.entries@.len()
                    &&& self.entries@[i].0.key() == k
                    &&& 0 <= j < self.entries@[i].1@.len()
                    &&& (#[trigger] self.entries@[i].1@[j]).key() == v
                };
            assert(keys(self.entries@[i].1@)[j] == v);
            assert(self@.dom().contains(self.entries@[i].0.key()));
        }
    }

    /// The empty map.
    pub fn new() -> (r: Self)
        ensures
            r.wf(),
            r@ == Map::<K::Key, Seq<V::Key>>::empty(),
    {
        let r = ListMap { entries: Vec::new() };
        assert(r@ =~= Map::<K::Key, Seq<V::Key>>::empty());
        r
    }

    /// Where the entry of `k` stands.
    fn position(&self, k: &K) -> (r: Option<usize>)
        ensures
            match r {
                Some(i) => i < self.entries@.len() && self.dom_keys()[i as int] == k.key(),
                None => !self.dom_keys().contains(k.key()),
            },
    {
        for i in 0..self.entries.len()
            invariant
                forall|j: int| 0 <= j < i ==> self.dom_keys()[j] != k.key(),
        {
            if self.entries[i].0.same(k) {
                return Some(i);
            }
        }
        None
    }

    /// What the map holds under `k`.
    pub fn get(&self, k: &K) -> (r: Option<&Vec<V>>)
        requires
            self.wf(),
        ensures
            match r {
                Some(v) => self@.dom().contains(k.key()) && keys(v@) == self@[k.key()],
                None => !self@.dom().contains(k.key()),
            },
    {
        match self.position(k) {
            Some(i) => {
                proof {
                    self.lemma_entry(i as int);
                }
                Some(&self.entries[i].1)
            },
            None => None,
        }
    }

    /// Puts `v` behind what the map holds under `k`.
    pub fn push(&mut self, k: K, v: V)
        requires
            old(self).wf(),
        ensures
            final(self).wf(),
            final(self)@ == old(self)@.insert(k.key(), at(old(self)@, k.key()).push(v.key())),
    {
        match self.position(&k) {
            Some(i) => {
                self.entries[i].1.push(v);
                proof {
                    assert(self.dom_keys() =~= old(self).dom_keys());
                    old(self).lemma_entry(i as int);
                    assert forall|x: K::Key| self.dom_keys().contains(x) implies #[trigger] self@[x]
                        == old(self)@.insert(k.key(), at(old(self)@, k.key()).push(v.key()))[x] by {
                        let j = self.dom_keys().index_of(x);
                        self.lemma_entry(j);
                        old(self).lemma_entry(j);
                        if j == i {
                            assert(keys(self.entries@[j].1@) =~= keys(
                                old(self).entries@[j].1@,
                            ).push(v.key()));
                        }
                    }
                    assert(self@ =~= old(self)@.insert(
                        k.key(),
                        at(old(self)@, k.key()).push(v.key()),
                    ));
                }
            },
            None => {
                let mut values: Vec<V> = Vec::new();
                values.push(v);
                self.put_new(k, values);
                proof {
                    assert(keys(values@) =~= Seq::<V::Key>::empty().push(v.key()));
                }
            },
        }
    }

    /// Puts `v` behind what the map holds under `k`, unless it is there already.
    pub fn add(&mut self, k: K, v: V)
        requires
            old(self).wf(),
        ensures
            final(self).wf(),
            final(self)@ == if at(old(self)@, k.key()).contains(v.key()) {
                old(self)@
            } else {
                old(self)@.insert(k.key(), at(old(self)@, k.key()).push(v.key()))
            },
    {
        let present = match self.get(&k) {
            Some(values) => has_key(values, &v),
            None => false,
        };
        if !present {
            self.push(k, v);
        }
    }

    /// Lets the map hold `values` under `k`, whatever it held there before.
    pub fn put(&mut self, k: K, values: Vec<V>)
        requires
            old(self).wf(),
        ensures
            final(self).wf(),
            final(self)@ == old(self)@.insert(k.key(), keys(values@)),
    {
        match self.position(&k) {
            Some(i) => {
                self.entries[i].1 = values;
                proof {
                    assert(self.dom_keys() =~= old(self).dom_keys());
                    assert forall|x: K::Key| self.dom_keys().contains(x) implies #[trigger] self@[x]
                        == old(self)@.insert(k.key(), keys(values@))[x] by {
                        let j = self.dom_keys().index_of(x);
                        self.lemma_entry(j);
                        old(self).lemma_entry(j);
                    }
                    old(self).lemma_entry(i as int);
                    assert(self@ =~= old(self)@.insert(k.key(), keys(values@)));
                }
            },
            None => {
                self.put_new(k, values);
            },
        }
    }

    /// Adds an entry under a key that the map does not hold yet.
    fn put_new(&mut self, k: K, values: Vec<V>)
        requires
            old(self).wf(),
            !old(self).dom_keys().contains(k.key()),
        ensures
            final(self).wf(),
            final(self)@ == old(self)@.insert(k.key(), keys(values@)),
    {
        self.entries.push((k, values));
        proof {
            let n = old(self).entries@.len() as int;
            assert(self.dom_keys() =~= old(self).dom_keys().push(k.key()));
            assert forall|x: K::Key| self.dom_keys().contains(x) <==> (old(
                self,
            ).dom_keys().contains(x) || x == k.key()) by {
                if old(self).dom_keys().contains(x) {
                    let j = old(self).dom_keys().index_of(x);
                    assert(self.dom_keys()[j] == x);
                }
                assert(self.dom_keys()[n] == k.key());
            }
            assert forall|x: K::Key| self.dom_keys().contains(x) implies #[trigger] self@[x] == old(
                self,
            )@.insert(k.key(), keys(values@))[x] by {
                let j = self.dom_keys().index_of(x);
                self.lemma_entry(j);
                if j < n {
                    old(self).lemma_entry(j);
                }
            }
            assert(self@ =~= old(self)@.insert(k.key(), keys(values@)));
        }
    }
}

} // verus!
