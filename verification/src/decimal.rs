//! Decimal numbers as text.
use vstd::prelude::*;

verus! {

/// The decimal digits of `n`, most significant first.
pub open spec fn digits(n: nat) -> Seq<u8>
    decreases n,
{
    if n < 10 {
        seq![(0x30 + n) as u8]
    } else {
        digits(n / 10).push((0x30 + n % 10) as u8)
    }
}

/// The decimal text of `v`, with a minus sign where it is negative.
pub open spec fn signed(v: int) -> Seq<u8> {
    if v < 0 {
        seq!['-' as u8] + digits((-v) as nat)
    } else {
        digits(v as nat)
    }
}

/// Whether `byte` is a decimal digit.
pub open spec fn is_digit(byte: u8) -> bool {
    0x30 <= byte <= 0x39
}

/// The number that a string of decimal digits spells.
pub open spec fn number(s: Seq<u8>) -> int
    decreases s.len(),
{
    if s.len() == 0 {
        0
    } else {
        number(s.drop_last()) * 10 + (s.last() - 0x30)
    }
}

/// Ten to the power of `k`.
pub open spec fn ten_to(k: nat) -> nat
    decreases k,
{
    if k == 0 {
        1
    } else {
        10 * ten_to((k - 1) as nat)
    }
}

/// A number written in decimal reads back as itself, in digits alone.
pub proof fn decimal_reads_back(n: nat)
    ensures
        number(digits(n)) == n,
        digits(n).len() >= 1,
        forall|i: int| 0 <= i < digits(n).len() ==> is_digit(#[trigger] digits(n)[i]),
    decreases n,
{
    reveal_with_fuel(number, 2);
    if n < 10 {
        assert(digits(n).drop_last() =~= Seq::<u8>::empty());
    } else {
        decimal_reads_back(n / 10);
        assert(digits(n).drop_last() =~= digits(n / 10));
    }
}

/// Nothing but zero itself is written with a leading zero.
pub proof fn decimal_has_no_leading_zero(n: nat)
    ensures
        n > 0 ==> digits(n)[0] != 0x30,
    decreases n,
{
    if n >= 10 {
        decimal_has_no_leading_zero(n / 10);
        decimal_reads_back(n / 10);
    }
}

/// A number below ten to the power of `k` has at most `k` digits.
pub proof fn decimal_length(n: nat, k: nat)
    requires
        k >= 1,
        n < ten_to(k),
    ensures
        digits(n).len() <= k,
    decreases k,
{
    if n >= 10 {
        if k == 1 {
            assert(ten_to(1) == 10 * ten_to(0));
        } else {
            decimal_length(n / 10, (k - 1) as nat);
        }
    }
}

/// Appends `value` in decimal.
pub fn push_number(out: &mut Vec<u8>, value: u64)
    ensures
        final(out)@ == old(out)@ + digits(value as nat),
{
    let mut low: Vec<u8> = Vec::new();
    let mut rest: u64 = value;
    assert(low@.reverse() =~= Seq::<u8>::empty());
    assert(digits(value as nat) =~= digits(rest as nat) + low@.reverse());
    while rest >= 10
        invariant
            digits(value as nat) == digits(rest as nat) + low@.reverse(),
        decreases rest,
    {
        let digit: u8 = 0x30 + (rest % 10) as u8;
        let ghost before = low@;
        low.push(digit);
        assert(low@.reverse() =~= seq![digit] + before.reverse());
        assert(digits(rest as nat) == digits((rest / 10) as nat).push(digit));
        rest = rest / 10;
        assert(digits(value as nat) =~= digits(rest as nat) + low@.reverse());
    }
    out.push(0x30 + rest as u8);
    let mut left: usize = low.len();
    assert(out@ =~= old(out)@ + digits(rest as nat));
    assert(low@.skip(left as int).reverse() =~= Seq::<u8>::empty());
    while left > 0
        invariant
            left <= low.len(),
            out@ == old(out)@ + digits(rest as nat) + low@.skip(left as int).reverse(),
        decreases left,
    {
        left -= 1;
        out.push(low[left]);
        assert(low@.skip(left as int).reverse() =~= low@.skip(left + 1).reverse().push(
            low@[left as int],
        ));
    }
    assert(low@.skip(0) =~= low@);
    assert(out@ =~= old(out)@ + digits(value as nat));
}

/// Appends `value` in decimal, with its sign.
pub fn push_signed(out: &mut Vec<u8>, value: i64)
    ensures
        final(out)@ == old(out)@ + signed(value as int),
{
    if value < 0 {
        out.push('-' as u8);
        let magnitude: u64 = (-(value as i128)) as u64;
        push_number(out, magnitude);
        assert(out@ =~= old(out)@ + signed(value as int));
    } else {
        push_number(out, value as u64);
    }
}

/// A negative number is a minus sign and the number without it, and only a
/// negative number has one.
pub proof fn only_negative_numbers_have_a_sign(n: nat)
    ensures
        signed(n as int) == digits(n),
        n > 0 ==> signed(-(n as int)) == seq!['-' as u8] + digits(n),
        digits(n)[0] != '-' as u8,
{
    decimal_reads_back(n);
    assert(is_digit(digits(n)[0]));
}

/// A digit more is ten times the number and the digit.
pub proof fn a_digit_more_is_ten_times_the_number(n: nat, d: nat)
    requires
        d < 10,
        n > 0,
    ensures
        digits(10 * n + d) == digits(n).push((0x30 + d) as u8),
        digits(d) == seq![(0x30 + d) as u8],
{
    assert((10 * n + d) / 10 == n);
    assert((10 * n + d) % 10 == d);
}

} // verus!
