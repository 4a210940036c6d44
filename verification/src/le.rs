//! Little-endian numbers in byte strings.
use vstd::prelude::*;

verus! {

/// The number that `s` spells, least significant byte first.
pub open spec fn value(s: Seq<u8>) -> nat
    decreases s.len(),
{
    if s.len() == 0 {
        0
    } else {
        s[0] as nat + 256 * value(s.skip(1))
    }
}

/// The `width` low bytes of `n`, least significant byte first.
pub open spec fn spelled(n: nat, width: nat) -> Seq<u8>
    decreases width,
{
    if width == 0 {
        Seq::empty()
    } else {
        seq![(n % 256) as u8] + spelled(n / 256, (width - 1) as nat)
    }
}

/// The first number that does not fit `width` bytes.
pub open spec fn limit(width: nat) -> nat
    decreases width,
{
    if width == 0 {
        1
    } else {
        256 * limit((width - 1) as nat)
    }
}

/// The number in the `width` bytes from `at` on.
pub open spec fn field(s: Seq<u8>, at: int, width: int) -> int {
    value(s.subrange(at, at + width)) as int
}

/// A number that fits reads back as it was written.
pub proof fn number_reads_back(n: nat, width: nat)
    requires
        n < limit(width),
    ensures
        value(spelled(n, width)) == n,
        spelled(n, width).len() == width,
    decreases width,
{
    if width > 0 {
        number_reads_back(n / 256, (width - 1) as nat);
        assert(spelled(n, width).skip(1) =~= spelled(n / 256, (width - 1) as nat));
    }
}

/// The length of a written number.
pub proof fn lemma_spelled_len(n: nat, width: nat)
    ensures
        spelled(n, width).len() == width,
    decreases width,
{
    if width > 0 {
        lemma_spelled_len(n / 256, (width - 1) as nat);
    }
}

/// A read number fits as many bytes as it was read from.
pub proof fn lemma_value_bound(s: Seq<u8>)
    ensures
        value(s) < limit(s.len()),
    decreases s.len(),
{
    if s.len() > 0 {
        lemma_value_bound(s.skip(1));
    }
}

/// The lowest byte of a field is what the number leaves when divided by 256.
pub proof fn lemma_low_byte(s: Seq<u8>, at: int, width: int)
    requires
        0 <= at,
        0 < width,
        at + width <= s.len(),
    ensures
        s[at] == field(s, at, width) % 256,
{
    let part = s.subrange(at, at + width);
    assert(part[0] == s[at]);
    assert(value(part) == part[0] as nat + 256 * value(part.skip(1)));
}

/// The limits of the widths in use.
pub proof fn lemma_limits()
    ensures
        limit(1) == 0x100,
        limit(2) == 0x1_0000,
        limit(4) == 0x1_0000_0000,
        limit(8) == 0x1_0000_0000_0000_0000,
{
    reveal_with_fuel(limit, 9);
}

/// The number in the `width` bytes from `at` on.
pub fn read(bytes: &[u8], at: usize, width: usize) -> (r: u64)
    requires
        width <= 8,
        at + width <= bytes@.len(),
    ensures
        r == field(bytes@, at as int, width as int),
        r < limit(width as nat),
{
    let total: usize = bytes.len();
    let mut left: usize = width;
    let mut r: u64 = 0;
    let ghost whole = bytes@.subrange(at as int, at + width);
    assert(whole.skip(width as int) =~= Seq::<u8>::empty());
    while left > 0
        invariant
            left <= width <= 8,
            at + width <= total,
            total == bytes@.len(),
            whole == bytes@.subrange(at as int, at + width),
            r == value(whole.skip(left as int)),
        decreases left,
    {
        left -= 1;
        proof {
            let tail = whole.skip(left as int);
            assert(tail.skip(1) =~= whole.skip(left + 1));
            assert(value(tail) == tail[0] as nat + 256 * value(tail.skip(1)));
            lemma_value_bound(tail);
            lemma_limit_grows(tail.len(), 8);
            lemma_limits();
        }
        r = r * 256 + bytes[at + left] as u64;
    }
    proof {
        assert(whole.skip(0) =~= whole);
        lemma_value_bound(whole);
    }
    r
}

proof fn lemma_limit_grows(a: nat, b: nat)
    requires
        a <= b,
    ensures
        limit(a) <= limit(b),
    decreases b,
{
    if a < b {
        lemma_limit_grows(a, (b - 1) as nat);
    }
}

/// Writes the `width` low bytes of `n` from `at` on.
pub fn write(bytes: &mut Vec<u8>, at: usize, n: u64, width: usize)
    requires
        at + width <= old(bytes)@.len(),
    ensures
        final(bytes)@ == patched(old(bytes)@, at as int, spelled(n as nat, width as nat)),
        final(bytes)@.len() == old(bytes)@.len(),
{
    let total: usize = bytes.len();
    let mut done: usize = 0;
    let mut rest: u64 = n;
    let ghost whole = spelled(n as nat, width as nat);
    proof {
        lemma_spelled_len(n as nat, width as nat);
        assert(whole.skip(0) =~= whole);
        assert(patched(old(bytes)@, at as int, whole.take(0)) =~= old(bytes)@);
    }
    while done < width
        invariant
            done <= width,
            at + width <= total,
            total == old(bytes)@.len(),
            whole == spelled(n as nat, width as nat),
            whole.len() == width,
            whole.skip(done as int) == spelled(rest as nat, (width - done) as nat),
            bytes@ == patched(old(bytes)@, at as int, whole.take(done as int)),
            bytes@.len() == old(bytes)@.len(),
        decreases width - done,
    {
        let byte: u8 = (rest % 256) as u8;
        proof {
            let tail = whole.skip(done as int);
            assert(tail[0] == byte);
            assert(tail[0] == whole[done as int]);
            assert(tail.skip(1) =~= whole.skip(done + 1));
            assert(tail.skip(1) =~= spelled((rest / 256) as nat, (width - done - 1) as nat));
        }
        bytes.set(at + done, byte);
        rest = rest / 256;
        done += 1;
        assert(bytes@ =~= patched(old(bytes)@, at as int, whole.take(done as int)));
    }
    assert(whole.take(width as int) =~= whole);
}

/// `s` with `part` put over the bytes from `at` on.
pub open spec fn patched(s: Seq<u8>, at: int, part: Seq<u8>) -> Seq<u8> {
    s.take(at) + part + s.skip(at + part.len())
}

/// A field just written reads back, where the number fits.
pub proof fn written_field_reads_back(s: Seq<u8>, at: int, n: nat, width: nat)
    requires
        0 <= at,
        at + width <= s.len(),
        n < limit(width),
    ensures
        field(patched(s, at, spelled(n, width)), at, width as int) == n,
{
    number_reads_back(n, width);
    assert(patched(s, at, spelled(n, width)).subrange(at, at + width) =~= spelled(n, width));
}

/// A field apart from what was written stays.
pub proof fn other_field_stays(s: Seq<u8>, at: int, part: Seq<u8>, other: int, width: int)
    requires
        0 <= at,
        at + part.len() <= s.len(),
        0 <= other,
        0 <= width,
        other + width <= s.len(),
        other + width <= at || at + part.len() <= other,
    ensures
        field(patched(s, at, part), other, width) == field(s, other, width),
{
    assert(patched(s, at, part).subrange(other, other + width) =~= s.subrange(
        other,
        other + width,
    ));
}

/// The lowest byte of a number comes first, and every byte behind it counts 256
/// times as much as the one before.
pub proof fn the_low_byte_comes_first(s: Seq<u8>, at: int, n: nat)
    requires
        0 <= at,
    ensures
        at + 1 <= s.len() ==> field(s, at, 1) == s[at],
        at + 2 <= s.len() ==> field(s, at, 2) == s[at] + 0x100 * s[at + 1],
        at + 4 <= s.len() ==> field(s, at, 4) == s[at] + 0x100 * s[at + 1] + 0x1_0000 * s[at + 2]
            + 0x100_0000 * s[at + 3],
        at + 8 <= s.len() ==> field(s, at, 8) == field(s, at, 4) + 0x1_0000_0000 * field(
            s,
            at + 4,
            4,
        ),
        spelled(n, 1) == seq![(n % 256) as u8],
        spelled(n, 2) == seq![(n % 256) as u8, (n / 256 % 256) as u8],
        spelled(n, 4) == spelled(n, 2) + spelled(n / 0x1_0000, 2),
        spelled(n, 8) == spelled(n, 4) + spelled(n / 0x1_0000_0000, 4),
{
    reveal_with_fuel(value, 9);
    reveal_with_fuel(spelled, 9);
    lemma_parts(s, at);
    assert(spelled(n, 1) =~= seq![(n % 256) as u8]);
    assert(spelled(n, 2) =~= seq![(n % 256) as u8, (n / 256 % 256) as u8]);
    assert(n / 256 / 256 == n / 0x1_0000);
    assert(n / 0x1_0000 / 256 == n / 256 / 256 / 256);
    assert(spelled(n, 4) =~= spelled(n, 2) + spelled(n / 0x1_0000, 2));
    assert(n / 256 / 256 / 256 / 256 == n / 0x1_0000_0000);
    assert(spelled(n, 8) =~= spelled(n, 4) + spelled(n / 0x1_0000_0000, 4));
}

proof fn lemma_value_two(a: Seq<u8>, b: Seq<u8>)
    ensures
        value(a + b) == value(a) + limit(a.len()) * value(b),
    decreases a.len(),
{
    if a.len() == 0 {
        assert(a + b =~= b);
        assert(limit(0) * value(b) == value(b)) by (nonlinear_arith)
            requires
                limit(0) == 1,
        ;
    } else {
        let whole = a + b;
        assert(whole.skip(1) =~= a.skip(1) + b);
        assert(whole[0] == a[0]);
        assert(value(whole) == whole[0] as nat + 256 * value(whole.skip(1)));
        lemma_value_two(a.skip(1), b);
        assert(256 * (limit((a.len() - 1) as nat) * value(b)) == limit(a.len()) * value(b))
            by (nonlinear_arith)
            requires
                limit(a.len()) == 256 * limit((a.len() - 1) as nat),
        ;
    }
}

proof fn lemma_parts(s: Seq<u8>, at: int)
    requires
        0 <= at,
    ensures
        at + 1 <= s.len() ==> field(s, at, 1) == s[at],
        at + 2 <= s.len() ==> field(s, at, 2) == s[at] + 0x100 * s[at + 1],
        at + 4 <= s.len() ==> field(s, at, 4) == s[at] + 0x100 * s[at + 1] + 0x1_0000 * s[at + 2]
            + 0x100_0000 * s[at + 3],
        at + 8 <= s.len() ==> field(s, at, 8) == field(s, at, 4) + 0x1_0000_0000 * field(
            s,
            at + 4,
            4,
        ),
{
    lemma_limits();
    if at + 1 <= s.len() {
        lemma_one(s, at);
    }
    if at + 2 <= s.len() {
        lemma_one(s, at + 1);
        lemma_value_two(s.subrange(at, at + 1), s.subrange(at + 1, at + 2));
        assert(s.subrange(at, at + 1) + s.subrange(at + 1, at + 2) =~= s.subrange(at, at + 2));
    }
    if at + 4 <= s.len() {
        lemma_one(s, at + 2);
        lemma_one(s, at + 3);
        lemma_value_two(s.subrange(at + 2, at + 3), s.subrange(at + 3, at + 4));
        assert(s.subrange(at + 2, at + 3) + s.subrange(at + 3, at + 4) =~= s.subrange(
            at + 2,
            at + 4,
        ));
        assert(field(s, at + 2, 2) == s[at + 2] + 0x100 * s[at + 3]);
        lemma_value_two(s.subrange(at, at + 2), s.subrange(at + 2, at + 4));
        assert(s.subrange(at, at + 2).len() == 2);
        assert(s.subrange(at, at + 2) + s.subrange(at + 2, at + 4) =~= s.subrange(at, at + 4));
        assert(field(s, at, 4) == field(s, at, 2) + 0x1_0000 * field(s, at + 2, 2));
    }
    if at + 8 <= s.len() {
        lemma_value_two(s.subrange(at, at + 4), s.subrange(at + 4, at + 8));
        assert(s.subrange(at, at + 4) + s.subrange(at + 4, at + 8) =~= s.subrange(at, at + 8));
    }
}

proof fn lemma_one(s: Seq<u8>, at: int)
    requires
        0 <= at < s.len(),
    ensures
        field(s, at, 1) == s[at],
{
    reveal_with_fuel(value, 2);
    let part = s.subrange(at, at + 1);
    assert(part.skip(1) =~= Seq::<u8>::empty());
}

} // verus!
