//! `sleep`: sleeps for a number of seconds, and says how far the clock went.
use crate::bytes::{self, find, push_str};
use crate::decimal::{self, push_number};
use vstd::prelude::*;

verus! {

/// The most bytes of the argument that are read.
pub const ARG_MAX: usize = 64;

/// Nanoseconds in a second.
pub const NANOS_PER_SECOND: u64 = 1_000_000_000;

/// Nanoseconds in a millisecond.
pub const NANOS_PER_MILLISECOND: u64 = 1_000_000;

/// A time, as the kernel gives and takes it.
#[derive(Clone, Copy, PartialEq, Eq, Structural, Debug)]
pub struct Timespec {
    pub tv_sec: i64,
    pub tv_nsec: i64,
}

/// A signed number as its bits read without a sign.
pub open spec fn unsigned(value: i64) -> int {
    if value < 0 {
        value + 0x1_0000_0000_0000_0000
    } else {
        value as int
    }
}

impl Timespec {
    /// The time in nanoseconds, as far as 64 bits go.
    pub open spec fn spec_nanos(self) -> int {
        (unsigned(self.tv_sec) * 1_000_000_000 + unsigned(self.tv_nsec))
            % 0x1_0000_0000_0000_0000
    }

    /// The time in nanoseconds, as far as 64 bits go.
    pub fn total_nanos(self) -> (r: u64)
        ensures
            r == self.spec_nanos(),
    {
        let sec: u64 = self.tv_sec as u64;
        let nsec: u64 = self.tv_nsec as u64;
        let value_sec: i64 = self.tv_sec;
        let value_nsec: i64 = self.tv_nsec;
        assert(value_sec < 0 ==> value_sec as u64 == value_sec + 0x1_0000_0000_0000_0000)
            by (bit_vector);
        assert(value_nsec < 0 ==> value_nsec as u64 == value_nsec + 0x1_0000_0000_0000_0000)
            by (bit_vector);
        let seconds: u64 = sec.wrapping_mul(NANOS_PER_SECOND);
        let r: u64 = seconds.wrapping_add(nsec);
        let ghost product = sec * 1_000_000_000;
        assert(seconds == product % 0x1_0000_0000_0000_0000);
        assert(r == (product + nsec) % 0x1_0000_0000_0000_0000);
        r
    }

    /// A time of so many nanoseconds.
    pub fn of(nanos: u64) -> (r: Self)
        ensures
            r.tv_sec == nanos / NANOS_PER_SECOND,
            r.tv_nsec == nanos % NANOS_PER_SECOND,
            r.spec_nanos() == nanos,
    {
        Timespec {
            tv_sec: (nanos / NANOS_PER_SECOND) as i64,
            tv_nsec: (nanos % NANOS_PER_SECOND) as i64,
        }
    }
}

/// Whether a string is digits alone.
pub open spec fn all_digits(s: Seq<u8>) -> bool {
    forall|i: int| 0 <= i < s.len() ==> decimal::is_digit(#[trigger] s[i])
}

/// The nanoseconds of a fraction of a second: the number of its first nine
/// digits, with zeros in the place of those that are missing.
pub open spec fn fraction_nanos(fraction: Seq<u8>) -> int {
    decimal::number(fraction + bytes::repeated('0' as u8, 9 - fraction.len()))
}

/// The nanoseconds that a text of seconds stands for: digits, and behind a
/// point up to nine more. One of the two may be missing, and so may the point;
/// not everything.
pub open spec fn seconds_in(text: Seq<u8>) -> Option<int> {
    let dot = bytes::first_at(text, '.' as u8, 0);
    let whole = text.take(dot);
    let fraction = if dot < text.len() {
        text.skip(dot + 1)
    } else {
        Seq::empty()
    };
    if text.len() > 0 && all_digits(whole) && all_digits(fraction) && fraction.len() <= 9 {
        Some(decimal::number(whole) * NANOS_PER_SECOND + fraction_nanos(fraction))
    } else {
        None
    }
}

/// The number of a string of digits, where it fits.
fn parse_digits(text: &[u8]) -> (r: Option<u64>)
    ensures
        r is Some <==> all_digits(text@) && decimal::number(text@) <= u64::MAX,
        r matches Some(n) ==> n == decimal::number(text@),
{
    let mut n: u64 = 0;
    let mut at: usize = 0;
    let total: usize = text.len();
    proof {
        assert(text@.take(0) =~= Seq::<u8>::empty());
    }
    while at < total
        invariant
            total == text@.len(),
            at <= total,
            n == decimal::number(text@.take(at as int)),
            forall|i: int| 0 <= i < at ==> decimal::is_digit(#[trigger] text@[i]),
        decreases total - at,
    {
        let byte: u8 = text[at];
        if byte < '0' as u8 || byte > '9' as u8 {
            return None;
        }
        let digit: u64 = (byte - '0' as u8) as u64;
        proof {
            assert(text@.take(at + 1).drop_last() =~= text@.take(at as int));
            assert(text@.take(at + 1).last() == byte);
        }
        if n > (u64::MAX - digit) / 10 {
            proof {
                assert(n * 10 + digit > u64::MAX);
                lemma_number_grows(text@, at + 1);
            }
            return None;
        }
        n = n * 10 + digit;
        at += 1;
    }
    assert(text@.take(total as int) =~= text@);
    Some(n)
}

/// More digits never make a smaller number.
proof fn lemma_number_grows(s: Seq<u8>, at: int)
    requires
        0 <= at <= s.len(),
    ensures
        all_digits(s) ==> decimal::number(s) >= decimal::number(s.take(at)),
        all_digits(s) ==> decimal::number(s) >= 0,
    decreases s.len(),
{
    if s.len() == 0 {
        assert(s.take(at) =~= s);
    } else if at == s.len() {
        assert(s.take(at) =~= s);
        if all_digits(s) {
            assert(decimal::is_digit(s[s.len() - 1]));
            assert(all_digits(s.drop_last()));
            lemma_number_grows(s.drop_last(), 0);
        }
    } else if all_digits(s) {
        assert(decimal::is_digit(s[s.len() - 1]));
        assert(all_digits(s.drop_last()));
        lemma_number_grows(s.drop_last(), at);
        assert(s.drop_last().take(at) =~= s.take(at));
    }
}

/// The nanoseconds of a fraction of a second.
fn parse_fraction(text: &[u8]) -> (r: Option<u64>)
    ensures
        r is Some <==> all_digits(text@) && text@.len() <= 9,
        r matches Some(n) ==> n == fraction_nanos(text@) && n < NANOS_PER_SECOND,
{
    if text.len() > 9 {
        return None;
    }
    let total: usize = text.len();
    let ghost padded = text@ + bytes::repeated('0' as u8, 9 - text@.len());
    let mut n: u64 = 0;
    let mut at: usize = 0;
    proof {
        assert(padded.take(0) =~= Seq::<u8>::empty());
        reveal_with_fuel(decimal::ten_to, 10);
    }
    while at < 9
        invariant
            total == text@.len(),
            total <= 9,
            at <= 9,
            padded == text@ + bytes::repeated('0' as u8, 9 - text@.len()),
            n == decimal::number(padded.take(at as int)),
            n < decimal::ten_to(at as nat),
            decimal::ten_to(9) == 1_000_000_000,
            decimal::ten_to(at as nat) <= 1_000_000_000,
            forall|i: int| 0 <= i < at && i < total ==> decimal::is_digit(#[trigger] text@[i]),
        decreases 9 - at,
    {
        let byte: u8 = if at < total {
            text[at]
        } else {
            '0' as u8
        };
        if byte < '0' as u8 || byte > '9' as u8 {
            return None;
        }
        let digit: u64 = (byte - '0' as u8) as u64;
        proof {
            assert(padded.take(at + 1).drop_last() =~= padded.take(at as int));
            assert(padded.take(at + 1).last() == byte);
            reveal_with_fuel(decimal::ten_to, 10);
            assert(decimal::ten_to((at + 1) as nat) == 10 * decimal::ten_to(at as nat));
        }
        n = n * 10 + digit;
        at += 1;
    }
    assert(padded.take(9) =~= padded);
    Some(n)
}

/// The nanoseconds that a text of seconds stands for, where they fit.
pub fn parse_seconds(text: &[u8]) -> (r: Option<u64>)
    ensures
        r is Some <==> (seconds_in(text@) matches Some(nanos) && nanos <= u64::MAX),
        r matches Some(n) ==> seconds_in(text@) == Some(n as int),
{
    let total: usize = text.len();
    if total == 0 {
        return None;
    }
    let dot: usize = find(text, '.' as u8, 0);
    proof {
        bytes::lemma_first_at(text@, '.' as u8, 0);
        lemma_number_grows(text@.take(dot as int), 0);
        assert(text@.take(dot as int).take(0) =~= Seq::<u8>::empty());
    }
    let whole = &text[0..dot];
    assert(whole@ =~= text@.take(dot as int));
    let mut nanos: u64 = 0;
    if dot < total {
        let fraction = &text[dot + 1..total];
        assert(fraction@ =~= text@.skip(dot + 1));
        match parse_fraction(fraction) {
            Some(n) => {
                nanos = n;
            },
            None => {
                return None;
            },
        }
    } else {
        proof {
            lemma_no_fraction();
        }
    }
    let seconds: u64 = match parse_digits(whole) {
        Some(seconds) => seconds,
        None => {
            return None;
        },
    };
    if seconds > (u64::MAX - nanos) / NANOS_PER_SECOND {
        assert(seconds * NANOS_PER_SECOND + nanos > u64::MAX);
        return None;
    }
    Some(seconds * NANOS_PER_SECOND + nanos)
}

proof fn lemma_no_fraction()
    ensures
        fraction_nanos(Seq::empty()) == 0,
{
    lemma_zeros(9);
    assert(Seq::<u8>::empty() + bytes::repeated('0' as u8, 9) =~= bytes::repeated('0' as u8, 9));
}

proof fn lemma_zeros(count: int)
    requires
        count >= 0,
    ensures
        decimal::number(bytes::repeated('0' as u8, count)) == 0,
    decreases count,
{
    if count > 0 {
        let zeros = bytes::repeated('0' as u8, count);
        assert(zeros.drop_last() =~= bytes::repeated('0' as u8, count - 1));
        lemma_zeros(count - 1);
    }
}

/// How a sleep ended.
pub struct Ending {
    pub said: Vec<u8>,
    pub status: u64,
}

/// What is said after a sleep: what was asked for and how far the clock went,
/// in milliseconds.
pub open spec fn report(asked: int, before: int, after: int) -> Seq<u8> {
    if after < before {
        bytes::ascii("sleep: the monotonic clock went backwards\n"@)
    } else {
        bytes::ascii("sleep: asked "@) + decimal::digits((asked / 1_000_000) as nat)
            + bytes::ascii(" ms, the monotonic clock advanced "@) + decimal::digits(
            ((after - before) / 1_000_000) as nat,
        ) + bytes::ascii(" ms\n"@)
    }
}

/// The status after a sleep: zero where the clock went at least as far as was
/// asked for, one where it did not, two where it went back.
pub open spec fn verdict(asked: int, before: int, after: int) -> u64 {
    if after < before {
        2
    } else if after - before >= asked {
        0
    } else {
        1
    }
}

/// Judges a sleep by the clock before and after it.
pub fn judge(asked: u64, before: Timespec, after: Timespec) -> (r: Ending)
    ensures
        r.said@ == report(asked as int, before.spec_nanos(), after.spec_nanos()),
        r.status == verdict(asked as int, before.spec_nanos(), after.spec_nanos()),
{
    proof {
        reveal_strlit("sleep: the monotonic clock went backwards\n");
        reveal_strlit("sleep: asked ");
        reveal_strlit(" ms, the monotonic clock advanced ");
        reveal_strlit(" ms\n");
    }
    let from: u64 = before.total_nanos();
    let to: u64 = after.total_nanos();
    let mut said: Vec<u8> = Vec::new();
    if to < from {
        push_str(&mut said, "sleep: the monotonic clock went backwards\n");
        assert(said@ =~= report(asked as int, from as int, to as int));
        return Ending { said, status: 2 };
    }
    let advanced: u64 = to - from;
    push_str(&mut said, "sleep: asked ");
    push_number(&mut said, asked / NANOS_PER_MILLISECOND);
    push_str(&mut said, " ms, the monotonic clock advanced ");
    push_number(&mut said, advanced / NANOS_PER_MILLISECOND);
    push_str(&mut said, " ms\n");
    assert(said@ =~= report(asked as int, from as int, to as int));
    Ending {
        said,
        status: if advanced >= asked {
            0
        } else {
            1
        },
    }
}

/// What is said where no argument was given, or one that is no time; the status
/// is four.
pub fn refuse(given: bool) -> (r: Ending)
    ensures
        r.said@ == (if given {
            bytes::ascii("sleep: invalid time interval\n"@)
        } else {
            bytes::ascii("sleep: usage: sleep SECONDS\n"@)
        }),
        r.status == 4,
{
    proof {
        reveal_strlit("sleep: invalid time interval\n");
        reveal_strlit("sleep: usage: sleep SECONDS\n");
    }
    let said = if given {
        crate::bytes::bytes_of("sleep: invalid time interval\n")
    } else {
        crate::bytes::bytes_of("sleep: usage: sleep SECONDS\n")
    };
    Ending { said, status: 4 }
}

/// A number of seconds written in decimal is read as that many seconds.
pub proof fn whole_seconds_read_back(seconds: nat)
    ensures
        seconds_in(decimal::digits(seconds)) == Some(seconds * NANOS_PER_SECOND),
{
    let text = decimal::digits(seconds);
    decimal::decimal_reads_back(seconds);
    bytes::lemma_first_at(text, '.' as u8, 0);
    let dot = bytes::first_at(text, '.' as u8, 0);
    if dot < text.len() {
        assert(decimal::is_digit(text[dot]));
    }
    assert(text.take(dot) =~= text);
    lemma_no_fraction();
}

proof fn lemma_number_two(a: Seq<u8>, b: Seq<u8>)
    ensures
        decimal::number(a + b) == decimal::number(a) * decimal::ten_to(b.len()) + decimal::number(
            b,
        ),
    decreases b.len(),
{
    let n = decimal::number(a);
    if b.len() == 0 {
        assert(a + b =~= a);
        assert(n * decimal::ten_to(0) == n) by (nonlinear_arith)
            requires
                decimal::ten_to(0) == 1,
        ;
    } else {
        let whole = a + b;
        assert(whole.drop_last() =~= a + b.drop_last());
        assert(whole.last() == b.last());
        assert(decimal::number(whole) == decimal::number(whole.drop_last()) * 10 + (whole.last()
            - 0x30));
        lemma_number_two(a, b.drop_last());
        let t = decimal::ten_to((b.len() - 1) as nat) as int;
        assert(decimal::ten_to(b.len()) == 10 * t);
        assert((n * t) * 10 == n * (10 * t)) by (nonlinear_arith);
    }
}

/// A time is read as it is written: the seconds before the point, and behind it
/// the part of a second, each digit worth a tenth of the one before.
pub proof fn fractions_are_parts_of_a_second(whole: Seq<u8>, fraction: Seq<u8>)
    requires
        all_digits(whole),
        all_digits(fraction),
        fraction.len() <= 9,
    ensures
        seconds_in(whole + seq!['.' as u8] + fraction) == Some(
            decimal::number(whole) * 1_000_000_000 + decimal::number(fraction) * decimal::ten_to(
                (9 - fraction.len()) as nat,
            ),
        ),
        whole.len() > 0 ==> seconds_in(whole) == Some(decimal::number(whole) * 1_000_000_000),
{
    let text = whole + seq!['.' as u8] + fraction;
    let at = whole.len() as int;
    assert forall|i: int| 0 <= i < at implies whole[i] != '.' as u8 by {
        assert(decimal::is_digit(whole[i]));
    }
    assert forall|i: int| 0 <= i < at implies text[i] != '.' as u8 by {
        assert(text[i] == whole[i]);
    }
    assert(text[at] == '.' as u8);
    bytes::lemma_first_at_is(text, '.' as u8, 0, at);
    assert(text.take(at) =~= whole);
    assert(text.skip(at + 1) =~= fraction);
    let zeros = bytes::repeated('0' as u8, 9 - fraction.len());
    lemma_number_two(fraction, zeros);
    lemma_zeros(9 - fraction.len());
    bytes::lemma_first_at_is(whole, '.' as u8, 0, at);
    assert(whole.take(at) =~= whole);
    lemma_no_fraction();
}

/// A text that is empty, holds anything but digits and one point, or has too many
/// digits behind the point, is no time.
pub proof fn other_texts_are_no_time(text: Seq<u8>, whole: Seq<u8>, fraction: Seq<u8>)
    requires
        !whole.contains('.' as u8),
    ensures
        text.len() == 0 ==> seconds_in(text) is None,
        !all_digits(whole) || !all_digits(fraction) || fraction.len() > 9 ==> seconds_in(
            whole + seq!['.' as u8] + fraction,
        ) is None,
        !all_digits(whole) ==> seconds_in(whole) is None,
{
    let both = whole + seq!['.' as u8] + fraction;
    let at = whole.len() as int;
    assert forall|i: int| 0 <= i < at implies whole[i] != '.' as u8 by {
        assert(whole.contains(whole[i]));
    }
    assert(both[at] == '.' as u8);
    bytes::lemma_first_at_is(both, '.' as u8, 0, at);
    assert(both.take(at) =~= whole);
    assert(both.skip(at + 1) =~= fraction);
    bytes::lemma_first_at_is(whole, '.' as u8, 0, at);
    assert(whole.take(at) =~= whole);
}

/// A sleep is judged by the clock: it was long enough, too short, or the clock
/// went back; and what the clock did is told in milliseconds.
pub proof fn a_sleep_is_judged_by_the_clock(asked: int, before: int, after: int)
    requires
        0 <= asked,
    ensures
        after >= before + asked ==> verdict(asked, before, after) == 0,
        before <= after < before + asked ==> verdict(asked, before, after) == 1,
        after < before ==> verdict(asked, before, after) == 2,
        after < before ==> report(asked, before, after) == bytes::ascii(
            "sleep: the monotonic clock went backwards\n"@,
        ),
        after >= before ==> report(asked, before, after) == bytes::ascii("sleep: asked "@)
            + decimal::digits((asked / 1_000_000) as nat) + bytes::ascii(
            " ms, the monotonic clock advanced "@,
        ) + decimal::digits(((after - before) / 1_000_000) as nat) + bytes::ascii(" ms\n"@),
{
}

/// A time is its seconds and its nanoseconds.
pub proof fn a_time_is_seconds_and_nanoseconds(time: Timespec)
    requires
        0 <= time.tv_sec <= 18_000_000_000,
        0 <= time.tv_nsec < 1_000_000_000,
    ensures
        time.spec_nanos() == time.tv_sec * 1_000_000_000 + time.tv_nsec,
{
}

} // verus!
