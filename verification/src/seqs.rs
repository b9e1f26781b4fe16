//! Sequences of at most one value, and facts about filtered sequences.

use vstd::prelude::*;

verus! {

/// No value, or the one value.
pub open spec fn option_seq<T>(o: Option<T>) -> Seq<T> {
    match o {
        Some(x) => seq![x],
        None => Seq::empty(),
    }
}

/// A filter keeps the elements that it is asked to keep, and no others.
pub proof fn lemma_filter_contains<T>(s: Seq<T>, p: spec_fn(T) -> bool)
    ensures
        forall|x: T| #[trigger] s.filter(p).contains(x) <==> s.contains(x) && p(x),
    decreases s.len(),
{
    reveal(Seq::filter);
    if s.len() > 0 {
        let front = s.drop_last();
        lemma_filter_contains(front, p);
        assert forall|x: T| #[trigger] s.filter(p).contains(x) <==> s.contains(x) && p(x) by {
            assert(front.filter(p).contains(x) <==> front.contains(x) && p(x));
            assert(s =~= front.push(s.last()));
            lemma_push_contains(front, s.last(), x);
            lemma_push_contains(front.filter(p), s.last(), x);
        }
    }
}

/// A longer sequence holds what it held and the new element.
pub proof fn lemma_push_contains<T>(s: Seq<T>, y: T, x: T)
    ensures
        s.push(y).contains(x) <==> s.contains(x) || x == y,
{
    if s.contains(x) {
        assert(s.push(y)[s.index_of(x)] == x);
    }
    assert(s.push(y)[s.len() as int] == y);
    if s.push(y).contains(x) {
        let i = s.push(y).index_of(x);
        if i < s.len() {
            assert(s[i] == x);
        }
    }
}

/// Filters that agree on the elements give one result.
pub proof fn lemma_filter_agree<T>(s: Seq<T>, p: spec_fn(T) -> bool, q: spec_fn(T) -> bool)
    requires
        forall|i: int| 0 <= i < s.len() ==> p(#[trigger] s[i]) == q(s[i]),
    ensures
        s.filter(p) == s.filter(q),
    decreases s.len(),
{
    reveal(Seq::filter);
    if s.len() > 0 {
        assert(forall|i: int| 0 <= i < s.drop_last().len() ==> s.drop_last()[i] == s[i]);
        lemma_filter_agree(s.drop_last(), p, q);
        assert(p(s[s.len() - 1]) == q(s[s.len() - 1]));
    }
}

/// Two filters, one after the other, keep what both keep.
pub proof fn lemma_filter_filter<T>(s: Seq<T>, p: spec_fn(T) -> bool, q: spec_fn(T) -> bool)
    ensures
        s.filter(p).filter(q) == s.filter(|x: T| p(x) && q(x)),
    decreases s.len(),
{
    reveal(Seq::filter);
    if s.len() > 0 {
        let front = s.drop_last();
        lemma_filter_filter(front, p, q);
        if p(s.last()) {
            assert(front.filter(p).push(s.last()).drop_last() =~= front.filter(p));
        }
    }
}

/// A filter of a sequence without repetitions has none.
pub proof fn lemma_filter_no_duplicates<T>(s: Seq<T>, p: spec_fn(T) -> bool)
    requires
        s.no_duplicates(),
    ensures
        s.filter(p).no_duplicates(),
    decreases s.len(),
{
    reveal(Seq::filter);
    if s.len() > 0 {
        let front = s.drop_last();
        lemma_filter_no_duplicates(front, p);
        lemma_filter_contains(front, p);
        if front.filter(p).contains(s.last()) {
            let i = front.index_of(s.last());
            assert(s[i] == s[s.len() - 1]);
        }
    }
}

/// A filter that leaves an element out gives a shorter sequence.
pub proof fn lemma_filter_shorter<T>(s: Seq<T>, p: spec_fn(T) -> bool, x: T)
    requires
        s.contains(x),
        !p(x),
    ensures
        s.filter(p).len() < s.len(),
    decreases s.len(),
{
    reveal(Seq::filter);
    let front = s.drop_last();
    front.lemma_filter_len(p);
    if s.last() != x {
        let i = s.index_of(x);
        assert(front[i] == x);
        lemma_filter_shorter(front, p, x);
    }
}

/// What a filter keeps of a front part stands in front of all that it keeps.
pub proof fn lemma_filter_front<T>(s: Seq<T>, p: spec_fn(T) -> bool, n: int)
    requires
        0 <= n <= s.len(),
    ensures
        s.take(n).filter(p).is_prefix_of(s.filter(p)),
    decreases s.len(),
{
    reveal(Seq::filter);
    if n < s.len() {
        assert(s.drop_last().take(n) =~= s.take(n));
        lemma_filter_front(s.drop_last(), p, n);
    } else {
        assert(s.take(n) =~= s);
    }
}

} // verus!
