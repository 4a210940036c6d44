//! Byte strings: appending, comparing and searching.
use vstd::prelude::*;

verus! {

/// Horizontal tab.
pub const TAB: u8 = 0x09;

/// Line feed.
pub const NEWLINE: u8 = 0x0a;

/// Carriage return.
pub const RETURN: u8 = 0x0d;

/// Backspace.
pub const BACKSPACE: u8 = 0x08;

/// Escape.
pub const ESC: u8 = 0x1b;

/// Space.
pub const SPACE: u8 = 0x20;

/// The bytes of an ASCII text.
pub open spec fn ascii(s: Seq<char>) -> Seq<u8> {
    Seq::new(s.len(), |i: int| s[i] as u8)
}

/// `count` copies of one byte.
pub open spec fn repeated(byte: u8, count: int) -> Seq<u8> {
    Seq::new(count as nat, |i: int| byte)
}

/// The first position at or after `from` that holds `byte`, or the length of
/// `s` where there is none.
pub open spec fn first_at(s: Seq<u8>, byte: u8, from: int) -> int
    decreases s.len() - from,
{
    if from >= s.len() {
        s.len() as int
    } else if s[from] == byte {
        from
    } else {
        first_at(s, byte, from + 1)
    }
}

/// What `first_at` finds, said without recursion.
pub proof fn lemma_first_at(s: Seq<u8>, byte: u8, from: int)
    requires
        0 <= from <= s.len(),
    ensures
        from <= first_at(s, byte, from) <= s.len(),
        forall|i: int| from <= i < first_at(s, byte, from) ==> s[i] != byte,
        first_at(s, byte, from) < s.len() ==> s[first_at(s, byte, from)] == byte,
    decreases s.len() - from,
{
    if from < s.len() && s[from] != byte {
        lemma_first_at(s, byte, from + 1);
    }
}

/// A position with `byte` in it and none before it is what `first_at` gives.
pub proof fn lemma_first_at_is(s: Seq<u8>, byte: u8, from: int, at: int)
    requires
        0 <= from <= at <= s.len(),
        forall|i: int| from <= i < at ==> s[i] != byte,
        at < s.len() ==> s[at] == byte,
    ensures
        first_at(s, byte, from) == at,
    decreases at - from,
{
    if from < at {
        lemma_first_at_is(s, byte, from + 1, at);
    }
}

/// Appends `tail` to `out`.
pub fn append(out: &mut Vec<u8>, tail: &[u8])
    ensures
        final(out)@ == old(out)@ + tail@,
{
    let mut at: usize = 0;
    while at < tail.len()
        invariant
            at <= tail.len(),
            out@ == old(out)@ + tail@.take(at as int),
        decreases tail.len() - at,
    {
        out.push(tail[at]);
        at += 1;
    }
    assert(tail@.take(tail@.len() as int) == tail@);
}

/// Appends the bytes of the ASCII text `text` to `out`.
pub fn push_str(out: &mut Vec<u8>, text: &str)
    requires
        text.is_ascii(),
    ensures
        final(out)@ == old(out)@ + ascii(text@),
{
    let length: usize = text.unicode_len();
    let mut at: usize = 0;
    while at < length
        invariant
            at <= length,
            length == text@.len(),
            text.is_ascii(),
            out@ == old(out)@ + ascii(text@).take(at as int),
        decreases length - at,
    {
        out.push(text.get_ascii(at));
        at += 1;
    }
    assert(ascii(text@).take(length as int) == ascii(text@));
}

/// Appends `count` copies of `byte` to `out`.
pub fn push_repeated(out: &mut Vec<u8>, byte: u8, count: usize)
    ensures
        final(out)@ == old(out)@ + repeated(byte, count as int),
{
    let mut at: usize = 0;
    while at < count
        invariant
            at <= count,
            out@ == old(out)@ + repeated(byte, at as int),
        decreases count - at,
    {
        out.push(byte);
        at += 1;
        assert(repeated(byte, at as int) == repeated(byte, at - 1).push(byte));
    }
}

/// A copy of `bytes`.
pub fn copy_of(bytes: &[u8]) -> (r: Vec<u8>)
    ensures
        r@ == bytes@,
{
    let mut r: Vec<u8> = Vec::new();
    append(&mut r, bytes);
    r
}

/// The bytes of the ASCII text `text`.
pub fn bytes_of(text: &str) -> (r: Vec<u8>)
    requires
        text.is_ascii(),
    ensures
        r@ == ascii(text@),
{
    let mut r: Vec<u8> = Vec::new();
    push_str(&mut r, text);
    r
}

/// Whether two byte strings are the same.
pub fn equal(a: &[u8], b: &[u8]) -> (r: bool)
    ensures
        r == (a@ == b@),
{
    if a.len() != b.len() {
        return false;
    }
    let mut at: usize = 0;
    while at < a.len()
        invariant
            at <= a.len(),
            a.len() == b.len(),
            forall|i: int| 0 <= i < at ==> a@[i] == b@[i],
        decreases a.len() - at,
    {
        if a[at] != b[at] {
            return false;
        }
        at += 1;
    }
    assert(a@ =~= b@);
    true
}

/// Whether `bytes` spells the ASCII text `text`.
pub fn spells(bytes: &[u8], text: &str) -> (r: bool)
    requires
        text.is_ascii(),
    ensures
        r == (bytes@ == ascii(text@)),
{
    let length: usize = text.unicode_len();
    if bytes.len() != length {
        return false;
    }
    let mut at: usize = 0;
    while at < length
        invariant
            at <= length,
            length == text@.len(),
            length == bytes.len(),
            text.is_ascii(),
            forall|i: int| 0 <= i < at ==> bytes@[i] == ascii(text@)[i],
        decreases length - at,
    {
        if bytes[at] != text.get_ascii(at) {
            assert(bytes@[at as int] != ascii(text@)[at as int]);
            return false;
        }
        at += 1;
    }
    assert(bytes@ =~= ascii(text@));
    true
}

/// Whether `bytes` begins with the ASCII text `text`.
pub fn starts_with(bytes: &[u8], text: &str) -> (r: bool)
    requires
        text.is_ascii(),
    ensures
        r == ascii(text@).is_prefix_of(bytes@),
{
    let length: usize = text.unicode_len();
    if bytes.len() < length {
        return false;
    }
    let r = spells(&bytes[0..length], text);
    assert(bytes@.take(length as int) == bytes@.subrange(0, length as int));
    r
}

/// The first position at or after `from` that holds `byte`, or the length of
/// `bytes` where there is none.
pub fn find(bytes: &[u8], byte: u8, from: usize) -> (r: usize)
    requires
        from <= bytes.len(),
    ensures
        r == first_at(bytes@, byte, from as int),
        from <= r <= bytes.len(),
{
    let mut at: usize = from;
    while at < bytes.len() && bytes[at] != byte
        invariant
            from <= at <= bytes.len(),
            forall|i: int| from <= i < at ==> bytes@[i] != byte,
        decreases bytes.len() - at,
    {
        at += 1;
    }
    proof {
        lemma_first_at_is(bytes@, byte, from as int, at as int);
    }
    at
}

/// The smaller of two sizes.
pub fn least(a: usize, b: usize) -> (r: usize)
    ensures
        r == (if a <= b { a } else { b }),
{
    if a <= b {
        a
    } else {
        b
    }
}

} // verus!
