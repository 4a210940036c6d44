//! Characters in a line of bytes: where one ends and the next begins, by the
//! bytes that UTF-8 goes on with behind the first of a character.
use vstd::prelude::*;
use vstd::utf8;

verus! {

/// Whether a byte goes on with a character that began before it.
pub open spec fn goes_on(byte: u8) -> bool {
    0x80 <= byte <= 0xbf
}

/// Whether a position stands between characters: at an end of the line, or
/// before a byte that begins a character.
pub open spec fn between(line: Seq<u8>, at: int) -> bool {
    at <= 0 || at >= line.len() || !goes_on(line[at])
}

/// The first position from `at` on that stands between characters.
pub open spec fn at_or_behind(line: Seq<u8>, at: int) -> int
    decreases line.len() - at,
{
    if between(line, at) {
        at
    } else {
        at_or_behind(line, at + 1)
    }
}

/// The last position up to `at` that stands between characters.
pub open spec fn at_or_before(line: Seq<u8>, at: int) -> int
    decreases at,
{
    if between(line, at) {
        at
    } else {
        at_or_before(line, at - 1)
    }
}

/// The position one character to the right; the end has none.
pub open spec fn right_of(line: Seq<u8>, at: int) -> int {
    if at < line.len() {
        at_or_behind(line, at + 1)
    } else {
        at
    }
}

/// The position one character to the left; the beginning has none.
pub open spec fn left_of(line: Seq<u8>, at: int) -> int {
    if at > 0 {
        at_or_before(line, at - 1)
    } else {
        at
    }
}

/// Where a line is cut that has to fit `room` bytes: between characters. Bytes
/// that are no characters are cut anywhere.
pub open spec fn cut_at(line: Seq<u8>, room: int) -> int {
    let at = at_or_before(line, room);
    if room >= line.len() {
        line.len() as int
    } else if room - at <= 3 {
        at
    } else {
        room
    }
}

/// As much of a line as fits `room` bytes.
pub open spec fn cut(line: Seq<u8>, room: int) -> Seq<u8> {
    line.take(cut_at(line, room))
}

/// A line without the bytes from `from` to `to`.
pub open spec fn without(line: Seq<u8>, from: int, to: int) -> Seq<u8> {
    line.take(from) + line.skip(to)
}

/// The position that is found stands between characters, and none before it
/// does.
pub proof fn lemma_at_or_behind(line: Seq<u8>, at: int)
    requires
        0 <= at <= line.len(),
    ensures
        at <= at_or_behind(line, at) <= line.len(),
        between(line, at_or_behind(line, at)),
        forall|i: int| at <= i < at_or_behind(line, at) ==> !between(line, i),
    decreases line.len() - at,
{
    if !between(line, at) {
        lemma_at_or_behind(line, at + 1);
    }
}

/// The position that is found stands between characters, and none behind it
/// does.
pub proof fn lemma_at_or_before(line: Seq<u8>, at: int)
    requires
        0 <= at <= line.len(),
    ensures
        0 <= at_or_before(line, at) <= at,
        between(line, at_or_before(line, at)),
        forall|i: int| at_or_before(line, at) < i <= at ==> !between(line, i),
    decreases at,
{
    if !between(line, at) {
        lemma_at_or_before(line, at - 1);
    }
}

/// A step to the right gets further, but not behind the line.
pub proof fn lemma_right_of(line: Seq<u8>, at: int)
    requires
        0 <= at <= line.len(),
    ensures
        at <= right_of(line, at) <= line.len(),
        at < line.len() ==> at < right_of(line, at),
        between(line, right_of(line, at)),
{
    if at < line.len() {
        lemma_at_or_behind(line, at + 1);
    }
}

/// A step to the left gets nearer to the beginning.
pub proof fn lemma_left_of(line: Seq<u8>, at: int)
    requires
        0 <= at <= line.len(),
    ensures
        0 <= left_of(line, at) <= at,
        at > 0 ==> left_of(line, at) < at,
        between(line, left_of(line, at)),
{
    if at > 0 {
        lemma_at_or_before(line, at - 1);
    }
}

/// Between two characters a line can be taken apart and put together again:
/// without what stood between two such positions, the first of them is still
/// between characters.
pub proof fn lemma_without(line: Seq<u8>, from: int, to: int)
    requires
        0 <= from <= to <= line.len(),
        between(line, from),
        between(line, to),
    ensures
        between(without(line, from, to), from),
{
    let rest = without(line, from, to);
    if 0 < from < rest.len() {
        assert(rest[from] == line[to]);
    }
}

/// What a cut leaves fits.
pub proof fn lemma_cut(line: Seq<u8>, room: int)
    requires
        0 <= room,
    ensures
        0 <= cut_at(line, room) <= room,
        cut_at(line, room) <= line.len(),
        room >= line.len() ==> cut(line, room) == line,
        room < line.len() ==> room - 3 <= cut_at(line, room),
        cut(line, room) == line.take(cut_at(line, room)),
{
    if room < line.len() {
        lemma_at_or_before(line, room);
    } else {
        assert(line.take(line.len() as int) =~= line);
    }
}

/// In a line of UTF-8 the positions between characters are those where one
/// character ends and the next begins, and the line can be parted there into two
/// lines of UTF-8.
pub proof fn positions_are_between_characters(line: Seq<u8>, at: int)
    requires
        utf8::valid_utf8(line),
        0 <= at <= line.len(),
    ensures
        between(line, at) <==> utf8::is_char_boundary(line, at),
        between(line, at) ==> utf8::valid_utf8(line.take(at)) && utf8::valid_utf8(line.skip(at)),
{
    utf8::is_char_boundary_start_end_of_seq(line);
    if at < line.len() {
        utf8::is_char_boundary_iff_not_is_continuation_byte(line, at);
    }
    if at == 0 {
        assert(line.skip(0) =~= line);
        assert(line.take(0) =~= Seq::<u8>::empty());
    }
    if between(line, at) {
        utf8::valid_utf8_split(line, at);
        assert(line.subrange(0, at) =~= line.take(at));
        assert(line.subrange(at, line.len() as int) =~= line.skip(at));
    }
}

/// In a line of UTF-8 a step to the right is one character.
pub proof fn a_step_is_one_character(line: Seq<u8>, at: int)
    requires
        utf8::valid_utf8(line),
        0 <= at < line.len(),
        between(line, at),
    ensures
        utf8::valid_first_scalar(line.skip(at)),
        right_of(line, at) == at + utf8::length_of_first_scalar(line.skip(at)),
        left_of(line, right_of(line, at)) == at,
{
    positions_are_between_characters(line, at);
    let rest = line.skip(at);
    let length = utf8::length_of_first_scalar(rest);
    let end = at + length;
    assert(utf8::valid_first_scalar(rest));
    assert(utf8::valid_utf8(utf8::pop_first_scalar(rest)));
    assert(rest.len() >= length);
    lemma_right_of(line, at);
    assert forall|i: int| at < i < end implies goes_on(line[i]) by {
        assert(line[i] == rest[i - at]);
    }
    assert(end < line.len() ==> !goes_on(line[end])) by {
        if end < line.len() {
            let next = utf8::pop_first_scalar(rest);
            assert(next[0] == rest[length]);
            assert(utf8::valid_first_scalar(next));
        }
    }
    lemma_at_or_behind(line, at + 1);
    let found = right_of(line, at);
    assert(between(line, end));
    if found < end {
        assert(!between(line, found));
    }
    if found > end {
        assert(!between(line, end));
    }
    lemma_at_or_before(line, found - 1);
    let back = left_of(line, found);
    assert(between(line, back));
    if back > at {
        assert(goes_on(line[back]));
    }
    assert(!goes_on(line[at])) by {
        assert(line[at] == rest[0]);
    }
}

/// Characters put between characters leave a line of UTF-8, and so does what
/// stays when characters are taken out.
pub proof fn characters_stay_whole(line: Seq<u8>, from: int, to: int, text: Seq<u8>)
    requires
        utf8::valid_utf8(line),
        utf8::valid_utf8(text),
        0 <= from <= to <= line.len(),
        between(line, from),
        between(line, to),
    ensures
        utf8::valid_utf8(line.take(from) + text + line.skip(to)),
        utf8::valid_utf8(without(line, from, to)),
{
    positions_are_between_characters(line, from);
    positions_are_between_characters(line, to);
    utf8::valid_utf8_concat(line.take(from), text);
    utf8::valid_utf8_concat(line.take(from) + text, line.skip(to));
    utf8::valid_utf8_concat(line.take(from), line.skip(to));
}

proof fn lemma_back_in_rest(line: Seq<u8>, length: int, at: int)
    requires
        0 < length <= at < line.len(),
        !goes_on(line[length]),
    ensures
        at_or_before(line, at) == length + at_or_before(line.skip(length), at - length),
    decreases at,
{
    let rest = line.skip(length);
    assert(rest[at - length] == line[at]);
    if !between(line, at) {
        lemma_back_in_rest(line, length, at - 1);
    }
}

proof fn lemma_back_is_short(line: Seq<u8>, at: int)
    requires
        utf8::valid_utf8(line),
        0 <= at < line.len(),
    ensures
        at - at_or_before(line, at) <= 3,
    decreases line.len(),
{
    let length = utf8::length_of_first_scalar(line);
    assert(utf8::valid_first_scalar(line));
    lemma_at_or_before(line, at);
    if at >= length {
        let rest = utf8::pop_first_scalar(line);
        assert(rest =~= line.skip(length));
        assert(utf8::valid_utf8(rest));
        assert(rest.len() > 0);
        assert(rest[0] == line[length]);
        assert(utf8::valid_first_scalar(rest));
        lemma_back_in_rest(line, length, at);
        lemma_back_is_short(rest, at - length);
    }
}

/// A cut takes no character apart: what is left of a line of UTF-8 is UTF-8, and
/// another character would not fit.
pub proof fn cuts_keep_characters_whole(line: Seq<u8>, room: int)
    requires
        utf8::valid_utf8(line),
        0 <= room,
    ensures
        utf8::valid_utf8(cut(line, room)),
        between(line, cut_at(line, room)),
        room < line.len() ==> room < right_of(line, cut_at(line, room)),
{
    lemma_cut(line, room);
    if room < line.len() {
        lemma_back_is_short(line, room);
        lemma_at_or_before(line, room);
        let at = cut_at(line, room);
        lemma_at_or_behind(line, at + 1);
        let next = right_of(line, at);
        if next <= room {
            assert(!between(line, next));
        }
        positions_are_between_characters(line, at);
    }
}

/// Whether a byte goes on with a character.
fn is_going_on(byte: u8) -> (r: bool)
    ensures
        r == goes_on(byte),
{
    byte >= 0x80 && byte <= 0xbf
}

/// The first position from `at` on that stands between characters.
pub fn settle_behind(line: &[u8], at: usize) -> (r: usize)
    requires
        at <= line@.len(),
    ensures
        r == at_or_behind(line@, at as int),
        at <= r <= line@.len(),
        between(line@, r as int),
{
    proof {
        lemma_at_or_behind(line@, at as int);
    }
    let mut r: usize = at;
    while r > 0 && r < line.len() && is_going_on(line[r])
        invariant
            at <= r <= line@.len(),
            at_or_behind(line@, at as int) == at_or_behind(line@, r as int),
        decreases line@.len() - r,
    {
        r += 1;
    }
    r
}

/// The last position up to `at` that stands between characters.
pub fn settle_before(line: &[u8], at: usize) -> (r: usize)
    requires
        at <= line@.len(),
    ensures
        r == at_or_before(line@, at as int),
        r <= at,
        between(line@, r as int),
{
    proof {
        lemma_at_or_before(line@, at as int);
    }
    let mut r: usize = at;
    while r > 0 && r < line.len() && is_going_on(line[r])
        invariant
            r <= at <= line@.len(),
            at_or_before(line@, at as int) == at_or_before(line@, r as int),
        decreases r,
    {
        r -= 1;
    }
    r
}

/// The position one character to the right.
pub fn step_right(line: &[u8], at: usize) -> (r: usize)
    requires
        at <= line@.len(),
    ensures
        r == right_of(line@, at as int),
        at <= r <= line@.len(),
        at < line@.len() ==> at < r,
        between(line@, r as int),
{
    if at < line.len() {
        settle_behind(line, at + 1)
    } else {
        at
    }
}

/// The position one character to the left.
pub fn step_left(line: &[u8], at: usize) -> (r: usize)
    requires
        at <= line@.len(),
    ensures
        r == left_of(line@, at as int),
        r <= at,
        at > 0 ==> r < at,
        between(line@, r as int),
{
    if at > 0 {
        settle_before(line, at - 1)
    } else {
        at
    }
}

/// Where a line is cut that has to fit `room` bytes.
pub fn cut_position(line: &[u8], room: usize) -> (r: usize)
    ensures
        r == cut_at(line@, room as int),
        r <= line@.len(),
        r <= room,
{
    if room >= line.len() {
        return line.len();
    }
    let at: usize = settle_before(line, room);
    if room - at <= 3 {
        at
    } else {
        room
    }
}

} // verus!
