//! Short immutable strings, and the string operations that attribute keys are
//! made and taken apart with.

use smol_str::SmolStr;
use vstd::prelude::*;

verus! {

/// `smol_str::SmolStr`, the string type of attribute names and identifiers.
#[verifier::external_type_specification]
#[verifier::external_body]
pub struct ExSmolStr(SmolStr);

/// The characters that a `SmolStr` holds.
pub uninterp spec fn smol_chars(s: SmolStr) -> Seq<char>;

/// `SmolStr::as_str`: the string slice with the characters of `s`.
pub assume_specification[ SmolStr::as_str ](s: &SmolStr) -> (r: &str)
    ensures
        r@ == smol_chars(*s),
;

/// `SmolStr::clone`: the copy holds the characters of `s`.
pub assume_specification[ <SmolStr as Clone>::clone ](s: &SmolStr) -> (r: SmolStr)
    ensures
        smol_chars(r) == smol_chars(*s),
;

/// `SmolStr::eq`: two values are equal when they hold the same characters.
pub assume_specification[ <SmolStr as PartialEq>::eq ](s: &SmolStr, other: &SmolStr) -> (r: bool)
    ensures
        r == (smol_chars(*s) == smol_chars(*other)),
;

/// `SmolStr::from`, on a string slice: the value holds the characters of `s`.
#[verifier::external_body]
pub(crate) fn smol_from(s: &str) -> (r: SmolStr)
    ensures
        smol_chars(r) == s@,
{
    SmolStr::from(s)
}

/// `str::strip_prefix`: what follows `prefix` in `s`, where `s` starts with it.
#[verifier::external_body]
pub(crate) fn strip_prefix<'a>(s: &'a str, prefix: &str) -> (r: Option<&'a str>)
    ensures
        r is Some <==> prefix@.is_prefix_of(s@),
        r matches Some(rest) ==> s@ == prefix@ + rest@,
{
    s.strip_prefix(prefix)
}

/// The order of strings by the code points of their characters: by the first one
/// in which they differ, and a front part before the whole.
pub open spec fn precedes(a: Seq<char>, b: Seq<char>) -> bool
    decreases a.len(),
{
    if b.len() == 0 {
        false
    } else if a.len() == 0 {
        true
    } else if a[0] == b[0] {
        precedes(a.drop_first(), b.drop_first())
    } else {
        (a[0] as int) < (b[0] as int)
    }
}

/// `<` on `SmolStr`, which orders as `<` on string slices does: by code points.
#[verifier::external_body]
pub(crate) fn smol_precedes(a: &SmolStr, b: &SmolStr) -> (r: bool)
    ensures
        r == precedes(smol_chars(*a), smol_chars(*b)),
{
    a < b
}

/// Of two different strings one precedes the other.
pub proof fn lemma_precedes_total(a: Seq<char>, b: Seq<char>)
    ensures
        a == b || precedes(a, b) || precedes(b, a),
    decreases a.len(),
{
    if a.len() == 0 {
        assert(b.len() == 0 ==> a =~= b);
    } else if b.len() > 0 && a[0] == b[0] {
        lemma_precedes_total(a.drop_first(), b.drop_first());
        if a.drop_first() == b.drop_first() {
            assert(a =~= seq![a[0]] + a.drop_first());
            assert(b =~= seq![b[0]] + b.drop_first());
        }
    }
}

/// No string precedes itself, and what precedes what precedes a third precedes
/// the third.
pub proof fn lemma_precedes_order(a: Seq<char>, b: Seq<char>, c: Seq<char>)
    ensures
        !precedes(a, a),
        precedes(a, b) && precedes(b, c) ==> precedes(a, c),
    decreases a.len(),
{
    if a.len() > 0 {
        lemma_precedes_order(a.drop_first(), b.drop_first(), c.drop_first());
    }
}

/// Whether the strings agree up to place `i`, and the first has the lesser code point
/// there.
pub open spec fn is_less_at(a: Seq<char>, b: Seq<char>, i: int) -> bool {
    &&& 0 <= i < a.len()
    &&& i < b.len()
    &&& (a[i] as int) < (b[i] as int)
    &&& forall|j: int| 0 <= j < i ==> #[trigger] a[j] == b[j]
}

/// A string precedes another exactly if it is a front part of it and shorter, or has
/// the lesser code point at the first place where they differ.
pub proof fn precedes_by_the_first_difference(a: Seq<char>, b: Seq<char>)
    ensures
        precedes(a, b) <==> {
            ||| a.len() < b.len() && a == b.take(a.len() as int)
            ||| exists|i: int| #[trigger] is_less_at(a, b, i)
        },
    decreases a.len(),
{
    if a.len() == 0 {
        assert(a =~= b.take(0));
    } else if b.len() == 0 {
    } else if a[0] == b[0] {
        let c = a.drop_first();
        let d = b.drop_first();
        precedes_by_the_first_difference(c, d);
        assert forall|i: int| #[trigger] is_less_at(c, d, i) implies is_less_at(a, b, i + 1) by {
            assert forall|j: int| 0 <= j < i + 1 implies #[trigger] a[j] == b[j] by {
                if j > 0 {
                    assert(c[j - 1] == d[j - 1]);
                }
            }
        }
        assert forall|i: int| #[trigger] is_less_at(a, b, i) implies is_less_at(c, d, i - 1) by {
            assert forall|j: int| 0 <= j < i - 1 implies #[trigger] c[j] == d[j] by {
                assert(a[j + 1] == b[j + 1]);
            }
        }
        if c.len() < d.len() && c == d.take(c.len() as int) {
            assert forall|j: int| 0 <= j < a.len() implies a[j] == b[j] by {
                if j > 0 {
                    assert(c[j - 1] == d.take(c.len() as int)[j - 1]);
                }
            }
            assert(a =~= b.take(a.len() as int));
        }
        if a.len() < b.len() && a == b.take(a.len() as int) {
            assert forall|j: int| 0 <= j < c.len() implies c[j] == d[j] by {
                assert(a[j + 1] == b.take(a.len() as int)[j + 1]);
            }
            assert(c =~= d.take(c.len() as int));
        }
    } else {
        assert(a[0] == b.take(a.len() as int)[0] || a.len() > b.len() || a != b.take(
            a.len() as int,
        ));
        assert((a[0] as int) < (b[0] as int) ==> is_less_at(a, b, 0));
        assert forall|i: int| #[trigger] is_less_at(a, b, i) implies i == 0 by {
            if i > 0 {
                assert(a[0] == b[0]);
            }
        }
    }
}

} // verus!
