//! Numbers in digits.

use vstd::prelude::*;
use vstd::string::*;

verus! {

/// The digits, up to base sixteen.
pub const DIGITS: &'static str = "0123456789abcdef";

/// The digit for `d`.
pub open spec fn digit(d: nat) -> char {
    DIGITS@[d as int]
}

/// `n` in decimal digits, without leading zeros.
pub open spec fn decimal(n: nat) -> Seq<char>
    decreases n,
{
    if n < 10 {
        seq![digit(n)]
    } else {
        decimal(n / 10).push(digit(n % 10))
    }
}

/// The last `width` hexadecimal digits of `n`, with leading zeros.
pub open spec fn hexadecimal(n: nat, width: nat) -> Seq<char>
    decreases width,
{
    if width == 0 {
        Seq::empty()
    } else {
        hexadecimal(n / 16, (width - 1) as nat).push(digit(n % 16))
    }
}

/// The texts of a list of strings.
pub open spec fn texts(lines: Seq<String>) -> Seq<Seq<char>> {
    lines.map_values(|line: String| line@)
}

fn append_digit(out: &mut String, d: usize)
    requires
        d < 16,
    ensures
        final(out)@ == old(out)@.push(digit(d as nat)),
{
    proof {
        reveal_strlit("0123456789abcdef");
    }
    let one = DIGITS.substring_char(d, d + 1);
    out.append(one);
}

/// Writes `n` in decimal digits at the end of `out`.
pub fn append_decimal(out: &mut String, n: u128)
    ensures
        final(out)@ == old(out)@ + decimal(n as nat),
    decreases n,
{
    if n >= 10 {
        append_decimal(out, n / 10);
    }
    append_digit(out, (n % 10) as usize);
}

/// Writes the last `width` hexadecimal digits of `n` at the end of `out`.
pub fn append_hexadecimal(out: &mut String, n: u64, width: usize)
    ensures
        final(out)@ == old(out)@ + hexadecimal(n as nat, width as nat),
    decreases width,
{
    if width > 0 {
        append_hexadecimal(out, n / 16, width - 1);
        append_digit(out, (n % 16) as usize);
    }
}

/// Different digits look different.
proof fn lemma_digit(c: nat, d: nat)
    requires
        c < 16,
        d < 16,
        digit(c) == digit(d),
    ensures
        c == d,
{
    reveal_strlit("0123456789abcdef");
}

/// How many numbers there are of `width` hexadecimal digits.
pub open spec fn hexadecimal_range(width: nat) -> nat
    decreases width,
{
    if width == 0 {
        1
    } else {
        16 * hexadecimal_range((width - 1) as nat)
    }
}

/// `width` hexadecimal digits are that many characters.
pub proof fn lemma_hexadecimal_len(n: nat, width: nat)
    ensures
        hexadecimal(n, width).len() == width,
    decreases width,
{
    if width > 0 {
        lemma_hexadecimal_len(n / 16, (width - 1) as nat);
    }
}

/// Numbers that fit in `width` hexadecimal digits have the same digits only if
/// they are equal.
pub proof fn hexadecimal_tells_numbers_apart(m: nat, n: nat, width: nat)
    requires
        m < hexadecimal_range(width),
        n < hexadecimal_range(width),
        hexadecimal(m, width) == hexadecimal(n, width),
    ensures
        m == n,
    decreases width,
{
    if width > 0 {
        let a = hexadecimal(m / 16, (width - 1) as nat);
        let b = hexadecimal(n / 16, (width - 1) as nat);
        assert(a.push(digit(m % 16)).drop_last() =~= a);
        assert(b.push(digit(n % 16)).drop_last() =~= b);
        assert(a.push(digit(m % 16)).last() == digit(m % 16));
        assert(b.push(digit(n % 16)).last() == digit(n % 16));
        lemma_digit(m % 16, n % 16);
        hexadecimal_tells_numbers_apart(m / 16, n / 16, (width - 1) as nat);
    }
}

/// Numbers have the same decimal digits only if they are equal.
pub proof fn decimal_tells_numbers_apart(m: nat, n: nat)
    requires
        decimal(m) == decimal(n),
    ensures
        m == n,
    decreases m,
{
    lemma_decimal_len(m);
    lemma_decimal_len(n);
    if m < 10 {
        assert(seq![digit(m)][0] == seq![digit(n)][0]);
        lemma_digit(m, n);
    } else {
        let a = decimal(m / 10);
        let b = decimal(n / 10);
        assert(a.push(digit(m % 10)).drop_last() =~= a);
        assert(b.push(digit(n % 10)).drop_last() =~= b);
        assert(a.push(digit(m % 10)).last() == digit(m % 10));
        assert(b.push(digit(n % 10)).last() == digit(n % 10));
        lemma_digit(m % 10, n % 10);
        decimal_tells_numbers_apart(m / 10, n / 10);
    }
}

proof fn lemma_decimal_len(n: nat)
    ensures
        decimal(n).len() >= 1,
        decimal(n).len() == 1 <==> n < 10,
    decreases n,
{
    if n >= 10 {
        lemma_decimal_len(n / 10);
    }
}

} // verus!
