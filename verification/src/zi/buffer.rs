//! The lines that the editor holds: one run of bytes with a line feed behind
//! each line, and an index of where the lines begin.
use crate::bytes::{self, append, NEWLINE};
use crate::chars;
use vstd::prelude::*;

verus! {

/// Bytes in one slot of the index.
pub const WORD: usize = 8;

/// The address that a program's heap never passes, and so a bound on the size
/// of any region in it.
pub const REGION_LIMIT: usize = 0x7f_f000;

/// Room beyond the file that an opened text gets.
pub const TEXT_SLACK: usize = 4096;

/// The least by which the text grows.
pub const TEXT_STEP: usize = 4096;

/// The slots that the index starts with.
pub const INDEX_INITIAL: usize = 65;

/// The least by which the index grows.
pub const INDEX_STEP: usize = 64;

/// What the kernel answers to a request for more memory, if one is made: first
/// for the text, then for the index.
#[derive(Clone, Copy, PartialEq, Eq, Structural)]
pub struct Grants {
    pub text: bool,
    pub index: bool,
}

/// `bytes` rounded up to whole words.
pub open spec fn whole_words(bytes: int) -> int {
    (bytes + 7) / 8 * 8
}

/// The size of a region with these capacities.
pub open spec fn region_size(text_cap: int, index_cap: int) -> int {
    text_cap + 8 * index_cap
}

/// The text capacity that is asked for when `needed` bytes do not fit.
pub open spec fn text_wanted(text_cap: int, needed: int) -> int {
    whole_words(
        if needed > text_cap + TEXT_STEP {
            needed
        } else {
            text_cap + TEXT_STEP
        },
    )
}

/// The index capacity that is asked for when `slots` slots do not fit.
pub open spec fn index_wanted(index_cap: int, slots: int) -> int {
    if slots > index_cap + INDEX_STEP {
        slots
    } else {
        index_cap + INDEX_STEP
    }
}

/// Whether a text of `needed` bytes fits, or is made to.
pub open spec fn text_fits(text_cap: int, index_cap: int, needed: int, granted: bool) -> bool {
    needed <= text_cap || (granted && region_size(text_wanted(text_cap, needed), index_cap)
        <= REGION_LIMIT)
}

/// Whether an index of `slots` slots fits, or is made to.
pub open spec fn index_fits(text_cap: int, index_cap: int, slots: int, granted: bool) -> bool {
    slots <= index_cap || (granted && region_size(text_cap, index_wanted(index_cap, slots))
        <= REGION_LIMIT)
}

/// The text capacity after making room for `needed` bytes.
pub open spec fn text_cap_after(text_cap: int, index_cap: int, needed: int, granted: bool) -> int {
    if needed > text_cap && text_fits(text_cap, index_cap, needed, granted) {
        text_wanted(text_cap, needed)
    } else {
        text_cap
    }
}

/// The index capacity after making room for `slots` slots.
pub open spec fn index_cap_after(text_cap: int, index_cap: int, slots: int, granted: bool) -> int {
    if slots > index_cap && index_fits(text_cap, index_cap, slots, granted) {
        index_wanted(index_cap, slots)
    } else {
        index_cap
    }
}

/// The lines as a file: each with a line feed behind it.
pub open spec fn flat(lines: Seq<Seq<u8>>) -> Seq<u8>
    decreases lines.len(),
{
    if lines.len() == 0 {
        Seq::empty()
    } else {
        flat(lines.drop_last()) + lines.last().push(NEWLINE)
    }
}

/// The lines of a text in which a line feed ends each line, from `from` on.
pub open spec fn lines_from(text: Seq<u8>, from: int) -> Seq<Seq<u8>>
    decreases text.len() - from,
{
    if from < 0 || from >= text.len() {
        Seq::empty()
    } else {
        let end = bytes::first_at(text, NEWLINE, from);
        if from <= end < text.len() {
            seq![text.subrange(from, end)] + lines_from(text, end + 1)
        } else {
            seq![text.skip(from)]
        }
    }
}

/// A file with a line feed supplied where its last line has none. A file with
/// nothing in it is one empty line.
pub open spec fn terminated(file: Seq<u8>) -> Seq<u8> {
    if file.len() > 0 && file.last() == NEWLINE {
        file
    } else {
        file.push(NEWLINE)
    }
}

/// The lines with the line `row` split before its byte `at`.
pub open spec fn split_at(lines: Seq<Seq<u8>>, row: int, at: int) -> Seq<Seq<u8>> {
    lines.take(row) + seq![lines[row].take(at), lines[row].skip(at)] + lines.skip(row + 1)
}

/// The lines with the line behind `row` joined to it.
pub open spec fn joined_at(lines: Seq<Seq<u8>>, row: int) -> Seq<Seq<u8>> {
    lines.take(row) + seq![lines[row] + lines[row + 1]] + lines.skip(row + 2)
}

/// `bytes` rounded up to whole words.
pub fn round_up_word(bytes: usize) -> (r: usize)
    requires
        bytes + 7 <= usize::MAX,
    ensures
        r == whole_words(bytes as int),
        r % 8 == 0,
{
    (bytes + (WORD - 1)) / WORD * WORD
}

/// The text capacity for a file of `size` bytes: room for it to double, and a
/// page beyond that.
pub fn text_capacity_for(size: usize) -> (r: usize)
    requires
        2 * size + TEXT_SLACK + 8 <= usize::MAX,
    ensures
        r == whole_words(2 * size + 1 + TEXT_SLACK),
{
    round_up_word(size + 1 + size + TEXT_SLACK)
}

/// The editor's lines.
pub struct Buffer {
    text: Vec<u8>,
    starts: Vec<usize>,
    text_cap: usize,
    index_cap: usize,
}

impl Buffer {
    /// The lines, without the line feeds behind them.
    pub closed spec fn view(&self) -> Seq<Seq<u8>> {
        Seq::new(
            (self.starts@.len() - 1) as nat,
            |row: int| self.text@.subrange(self.starts@[row] as int, self.starts@[row + 1] - 1),
        )
    }

    /// What a save writes.
    pub closed spec fn bytes(&self) -> Seq<u8> {
        self.text@
    }

    /// The bytes that the text may grow to without asking for memory.
    pub closed spec fn text_room(&self) -> int {
        self.text_cap as int
    }

    /// The slots that the index may grow to without asking for memory.
    pub closed spec fn index_room(&self) -> int {
        self.index_cap as int
    }

    /// The index marks the line feeds: line `row` is what stands between
    /// `starts[row]` and the line feed before `starts[row + 1]`.
    pub closed spec fn wf(&self) -> bool {
        &&& self.starts@.len() >= 2
        &&& self.starts@[0] == 0
        &&& self.starts@.last() == self.text@.len()
        &&& (forall|i: int, j: int|
            0 <= i < j < self.starts@.len() ==> self.starts@[i] < self.starts@[j])
        &&& (forall|i: int|
            0 < i < self.starts@.len() ==> self.text@[#[trigger] self.starts@[i] - 1] == NEWLINE)
        &&& self.text@.len() <= self.text_cap
        &&& self.starts@.len() <= self.index_cap
        &&& region_size(self.text_cap as int, self.index_cap as int) <= REGION_LIMIT
    }

    /// An empty text, one line without anything in it, in a region of `region`
    /// bytes; nothing where the capacities do not fit the region.
    pub fn new(region: usize, text_cap: usize, index_cap: usize) -> (r: Option<Self>)
        requires
            region <= REGION_LIMIT,
        ensures
            r is Some <==> index_cap >= 2 && text_cap > 0 && region_size(
                text_cap as int,
                index_cap as int,
            ) <= region,
            r matches Some(buffer) ==> buffer.wf() && buffer@ == seq![Seq::<u8>::empty()]
                && buffer.bytes() == seq![NEWLINE] && buffer.text_room() == text_cap
                && buffer.index_room() == index_cap,
    {
        if index_cap < 2 || text_cap == 0 || text_cap > region || index_cap > (region - text_cap)
            / WORD {
            return None;
        }
        let mut text: Vec<u8> = Vec::new();
        text.push(NEWLINE);
        let mut starts: Vec<usize> = Vec::new();
        starts.push(0);
        starts.push(1);
        let buffer = Buffer { text, starts, text_cap, index_cap };
        assert(buffer@ =~= seq![Seq::<u8>::empty()]) by {
            assert(buffer@[0] =~= Seq::<u8>::empty());
        }
        Some(buffer)
    }

    /// How many lines there are.
    pub fn count(&self) -> (r: usize)
        requires
            self.wf(),
        ensures
            r == self@.len(),
            1 <= r,
    {
        self.starts.len() - 1
    }

    /// The line `row`, without its line feed.
    pub fn line(&self, row: usize) -> (r: &[u8])
        requires
            self.wf(),
            row < self@.len(),
        ensures
            r@ == self@[row as int],
            r@.len() < REGION_LIMIT,
    {
        assert(self.starts@[row as int] < self.starts@[row + 1]);
        assert(self.starts@[row + 1] <= self.starts@.last());
        &self.text[self.starts[row]..self.starts[row + 1] - 1]
    }

    /// The length of the line `row`, without its line feed.
    pub fn length(&self, row: usize) -> (r: usize)
        requires
            self.wf(),
            row < self@.len(),
        ensures
            r == self@[row as int].len(),
            r < REGION_LIMIT,
    {
        assert(self.starts@[row as int] < self.starts@[row + 1]);
        assert(self.starts@[row + 1] <= self.starts@.last());
        self.starts[row + 1] - self.starts[row] - 1
    }

    /// What a save writes: every line with a line feed behind it.
    pub fn as_bytes(&self) -> (r: &[u8])
        requires
            self.wf(),
        ensures
            r@ == self.bytes(),
            r@ == flat(self@),
    {
        proof {
            buffer_is_its_lines(*self);
        }
        self.text.as_slice()
    }

    /// Takes the capacities `text_cap` and `index_cap`, where the kernel grants
    /// the memory. A region never passes the end of the heap.
    fn regrow(&mut self, text_cap: usize, index_cap: usize, granted: bool) -> (ok: bool)
        requires
            old(self).wf(),
            old(self).text_room() <= text_cap,
            old(self).index_room() <= index_cap,
        ensures
            final(self).wf(),
            final(self)@ == old(self)@,
            final(self).bytes() == old(self).bytes(),
            ok == (granted && region_size(text_cap as int, index_cap as int) <= REGION_LIMIT),
            final(self).text_room() == (if ok { text_cap as int } else { old(self).text_room() }),
            final(self).index_room() == (if ok {
                index_cap as int
            } else {
                old(self).index_room()
            }),
    {
        if !granted || text_cap > REGION_LIMIT || index_cap > (REGION_LIMIT - text_cap) / WORD {
            return false;
        }
        self.text_cap = text_cap;
        self.index_cap = index_cap;
        true
    }

    /// Makes room for a text of `needed` bytes.
    pub fn ensure_text(&mut self, needed: usize, granted: bool) -> (ok: bool)
        requires
            old(self).wf(),
            needed + 7 <= usize::MAX,
        ensures
            final(self).wf(),
            final(self)@ == old(self)@,
            final(self).bytes() == old(self).bytes(),
            final(self).index_room() == old(self).index_room(),
            ok == text_fits(
                old(self).text_room(),
                old(self).index_room(),
                needed as int,
                granted,
            ),
            final(self).text_room() == text_cap_after(
                old(self).text_room(),
                old(self).index_room(),
                needed as int,
                granted,
            ),
    {
        if needed <= self.text_cap {
            return true;
        }
        let want: usize = round_up_word(
            if needed > self.text_cap + TEXT_STEP {
                needed
            } else {
                self.text_cap + TEXT_STEP
            },
        );
        let index_cap: usize = self.index_cap;
        self.regrow(want, index_cap, granted)
    }

    /// Makes room for an index of `slots` slots.
    pub fn ensure_index(&mut self, slots: usize, granted: bool) -> (ok: bool)
        requires
            old(self).wf(),
        ensures
            final(self).wf(),
            final(self)@ == old(self)@,
            final(self).bytes() == old(self).bytes(),
            final(self).text_room() == old(self).text_room(),
            ok == index_fits(
                old(self).text_room(),
                old(self).index_room(),
                slots as int,
                granted,
            ),
            final(self).index_room() == index_cap_after(
                old(self).text_room(),
                old(self).index_room(),
                slots as int,
                granted,
            ),
    {
        if slots <= self.index_cap {
            return true;
        }
        let want: usize = if slots > self.index_cap + INDEX_STEP {
            slots
        } else {
            self.index_cap + INDEX_STEP
        };
        let text_cap: usize = self.text_cap;
        self.regrow(text_cap, want, granted)
    }

    /// Moves every line start behind `row` one byte back.
    fn starts_back(&mut self, row: usize)
        requires
            row < old(self).starts@.len(),
            forall|i: int|
                row < i < old(self).starts@.len() ==> old(self).starts@[i] < REGION_LIMIT,
        ensures
            final(self).text == old(self).text,
            final(self).text_cap == old(self).text_cap,
            final(self).index_cap == old(self).index_cap,
            final(self).starts@.len() == old(self).starts@.len(),
            forall|i: int|
                0 <= i < old(self).starts@.len() ==> #[trigger] final(self).starts@[i] == (if i
                    > row {
                    old(self).starts@[i] + 1
                } else {
                    old(self).starts@[i] as int
                }),
    {
        let total: usize = self.starts.len();
        let mut at: usize = row + 1;
        while at < total
            invariant
                row + 1 <= at <= total,
                total == self.starts@.len(),
                self.text == old(self).text,
                self.text_cap == old(self).text_cap,
                self.index_cap == old(self).index_cap,
                self.starts@.len() == old(self).starts@.len(),
                forall|i: int|
                    row < i < old(self).starts@.len() ==> old(self).starts@[i] < REGION_LIMIT,
                forall|i: int|
                    0 <= i < old(self).starts@.len() ==> #[trigger] self.starts@[i] == (if row < i
                        < at {
                        old(self).starts@[i] + 1
                    } else {
                        old(self).starts@[i] as int
                    }),
            decreases self.starts@.len() - at,
        {
            let moved: usize = self.starts[at] + 1;
            self.starts.set(at, moved);
            at += 1;
        }
    }

    /// Moves every line start behind `row` one byte forward.
    fn starts_forward(&mut self, row: usize)
        requires
            row < old(self).starts@.len(),
            forall|i: int| row < i < old(self).starts@.len() ==> old(self).starts@[i] > 0,
        ensures
            final(self).text == old(self).text,
            final(self).text_cap == old(self).text_cap,
            final(self).index_cap == old(self).index_cap,
            final(self).starts@.len() == old(self).starts@.len(),
            forall|i: int|
                0 <= i < old(self).starts@.len() ==> #[trigger] final(self).starts@[i] == (if i
                    > row {
                    old(self).starts@[i] - 1
                } else {
                    old(self).starts@[i] as int
                }),
    {
        let total: usize = self.starts.len();
        let mut at: usize = row + 1;
        while at < total
            invariant
                row + 1 <= at <= total,
                total == self.starts@.len(),
                self.text == old(self).text,
                self.text_cap == old(self).text_cap,
                self.index_cap == old(self).index_cap,
                self.starts@.len() == old(self).starts@.len(),
                forall|i: int| row < i < old(self).starts@.len() ==> old(self).starts@[i] > 0,
                forall|i: int|
                    0 <= i < old(self).starts@.len() ==> #[trigger] self.starts@[i] == (if row < i
                        < at {
                        old(self).starts@[i] - 1
                    } else {
                        old(self).starts@[i] as int
                    }),
            decreases self.starts@.len() - at,
        {
            let moved: usize = self.starts[at] - 1;
            self.starts.set(at, moved);
            at += 1;
        }
    }

    /// Inserts one byte into the line `row`, before its byte `at`. Nothing
    /// happens where the line is shorter than that, or where one more byte
    /// neither fits nor is granted.
    #[verifier::rlimit(60)]
    #[verifier::spinoff_prover]
    pub fn insert(&mut self, row: usize, at: usize, byte: u8, granted: bool) -> (inserted: bool)
        requires
            old(self).wf(),
            row < old(self)@.len(),
        ensures
            final(self).wf(),
            inserted == (at <= old(self)@[row as int].len() && text_fits(
                old(self).text_room(),
                old(self).index_room(),
                old(self).bytes().len() as int + 1,
                granted,
            )),
            final(self)@ == (if inserted {
                old(self)@.update(row as int, old(self)@[row as int].insert(at as int, byte))
            } else {
                old(self)@
            }),
            final(self).bytes().len() == old(self).bytes().len() + (if inserted {
                1int
            } else {
                0
            }),
            final(self).index_room() == old(self).index_room(),
            final(self).text_room() == (if inserted {
                text_cap_after(
                    old(self).text_room(),
                    old(self).index_room(),
                    old(self).bytes().len() as int + 1,
                    granted,
                )
            } else {
                old(self).text_room()
            }),
    {
        if at > self.length(row) {
            return false;
        }
        let needed: usize = self.text.len() + 1;
        if !self.ensure_text(needed, granted) {
            return false;
        }
        let ghost before = *self;
        assert(self.starts@[row as int] < self.starts@[row + 1]);
        assert(self.starts@[row + 1] <= self.starts@.last());
        let position: usize = self.starts[row] + at;
        assert forall|i: int| row < i < self.starts@.len() implies self.starts@[i]
            < REGION_LIMIT by {
            assert(self.starts@[i] <= self.starts@.last());
        }
        self.starts_back(row);
        self.text.insert(position, byte);
        proof {
            assert(position < before.starts@[row + 1]);
            let want = before@.update(row as int, before@[row as int].insert(at as int, byte));
            assert forall|i: int| 0 < i < self.starts@.len() implies self.text@[
            #[trigger] self.starts@[i] - 1] == NEWLINE by {
                assert(before.starts@[i] <= before.starts@.last());
                if i <= row {
                    assert(before.starts@[i] <= before.starts@[row as int]);
                } else {
                    assert(before.starts@[row + 1] <= before.starts@[i]);
                }
            }
            assert forall|r: int| 0 <= r < want.len() implies self@[r] =~= want[r] by {
                assert(before.starts@[r] < before.starts@[r + 1]);
                assert(before.starts@[r + 1] <= before.starts@.last());
                if r < row {
                    assert(before.starts@[r + 1] <= before.starts@[row as int]);
                } else if r > row {
                    assert(before.starts@[row + 1] <= before.starts@[r]);
                }
            }
            assert(self@ =~= want);
        }
        true
    }

    /// Removes the byte `at` of the line `row`. Nothing happens where the line
    /// ends before it: lines are not joined.
    pub fn remove(&mut self, row: usize, at: usize) -> (removed: bool)
        requires
            old(self).wf(),
            row < old(self)@.len(),
        ensures
            final(self).wf(),
            removed == (at < old(self)@[row as int].len()),
            final(self)@ == (if removed {
                old(self)@.update(row as int, old(self)@[row as int].remove(at as int))
            } else {
                old(self)@
            }),
            final(self).bytes().len() == old(self).bytes().len() - (if removed {
                1int
            } else {
                0
            }),
            final(self).index_room() == old(self).index_room(),
            final(self).text_room() == old(self).text_room(),
    {
        if at >= self.length(row) {
            return false;
        }
        let ghost before = *self;
        assert(self.starts@[row as int] < self.starts@[row + 1]);
        assert(self.starts@[row + 1] <= self.starts@.last());
        let position: usize = self.starts[row] + at;
        self.starts_forward(row);
        self.text.remove(position);
        proof {
            assert(position + 1 < before.starts@[row + 1]);
            let want = before@.update(row as int, before@[row as int].remove(at as int));
            assert forall|i: int| 0 < i < self.starts@.len() implies self.text@[
            #[trigger] self.starts@[i] - 1] == NEWLINE by {
                assert(before.starts@[i] <= before.starts@.last());
                if i <= row {
                    assert(before.starts@[i] <= before.starts@[row as int]);
                } else {
                    assert(before.starts@[row + 1] <= before.starts@[i]);
                }
            }
            assert forall|i: int, j: int| 0 <= i < j < self.starts@.len() implies self.starts@[i]
                < self.starts@[j] by {
                if i <= row && j > row {
                    assert(before.starts@[i] <= before.starts@[row as int]);
                    assert(before.starts@[row + 1] <= before.starts@[j]);
                }
            }
            assert forall|r: int| 0 <= r < want.len() implies self@[r] =~= want[r] by {
                assert(before.starts@[r] < before.starts@[r + 1]);
                assert(before.starts@[r + 1] <= before.starts@.last());
                if r < row {
                    assert(before.starts@[r + 1] <= before.starts@[row as int]);
                } else if r > row {
                    assert(before.starts@[row + 1] <= before.starts@[r]);
                }
            }
            assert(self@ =~= want);
        }
        true
    }

    /// Removes the bytes of the line `row` from `from` to `to`.
    pub fn remove_range(&mut self, row: usize, from: usize, to: usize)
        requires
            old(self).wf(),
            row < old(self)@.len(),
            from <= to <= old(self)@[row as int].len(),
        ensures
            final(self).wf(),
            final(self)@ == old(self)@.update(
                row as int,
                chars::without(old(self)@[row as int], from as int, to as int),
            ),
            final(self).bytes().len() == old(self).bytes().len() - (to - from),
            final(self).index_room() == old(self).index_room(),
            final(self).text_room() == old(self).text_room(),
    {
        let mut done: usize = 0;
        let ghost line = old(self)@[row as int];
        assert(chars::without(line, from as int, from as int) =~= line);
        assert(self@ =~= old(self)@.update(row as int, line));
        while done < to - from
            invariant
                self.wf(),
                row < old(self)@.len(),
                line == old(self)@[row as int],
                from <= to <= line.len(),
                done <= to - from,
                self@ == old(self)@.update(
                    row as int,
                    chars::without(line, from as int, from + done),
                ),
                self.bytes().len() == old(self).bytes().len() - done,
                self.index_room() == old(self).index_room(),
                self.text_room() == old(self).text_room(),
            decreases to - from - done,
        {
            self.remove(row, from);
            assert(chars::without(line, from as int, from + done).remove(from as int)
                =~= chars::without(line, from as int, from + done + 1));
            done += 1;
            assert(self@ =~= old(self)@.update(
                row as int,
                chars::without(line, from as int, from + done),
            ));
        }
    }

    /// Splits the line `row` before its byte `at`: what stands behind becomes
    /// the next line. Nothing happens where there is no such place, or where one
    /// more byte and one more line neither fit nor are granted.
    pub fn split_line(&mut self, row: usize, at: usize, grants: Grants) -> (done: bool)
        requires
            old(self).wf(),
        ensures
            final(self).wf(),
            done == (row < old(self)@.len() && at <= old(self)@[row as int].len() && text_fits(
                old(self).text_room(),
                old(self).index_room(),
                old(self).bytes().len() as int + 1,
                grants.text,
            ) && index_fits(
                final(self).text_room(),
                old(self).index_room(),
                old(self)@.len() as int + 2,
                grants.index,
            )),
            final(self)@ == (if done {
                split_at(old(self)@, row as int, at as int)
            } else {
                old(self)@
            }),
            final(self).bytes().len() == old(self).bytes().len() + (if done {
                1int
            } else {
                0
            }),
            final(self).text_room() == (if row < old(self)@.len() && at
                <= old(self)@[row as int].len() {
                text_cap_after(
                    old(self).text_room(),
                    old(self).index_room(),
                    old(self).bytes().len() as int + 1,
                    grants.text,
                )
            } else {
                old(self).text_room()
            }),
            final(self).index_room() == (if done {
                index_cap_after(
                    final(self).text_room(),
                    old(self).index_room(),
                    old(self)@.len() as int + 2,
                    grants.index,
                )
            } else {
                old(self).index_room()
            }),
    {
        if row >= self.count() || at > self.length(row) {
            return false;
        }
        let needed: usize = self.text.len() + 1;
        if !self.ensure_text(needed, grants.text) {
            return false;
        }
        let slots: usize = self.starts.len() + 1;
        if !self.ensure_index(slots, grants.index) {
            return false;
        }
        let ghost before = *self;
        assert(self.starts@[row as int] < self.starts@[row + 1]);
        assert(self.starts@[row + 1] <= self.starts@.last());
        let position: usize = self.starts[row] + at;
        assert forall|i: int| row < i < self.starts@.len() implies self.starts@[i]
            < REGION_LIMIT by {
            assert(self.starts@[i] <= self.starts@.last());
        }
        self.starts_back(row);
        let ghost moved = *self;
        self.starts.insert(row + 1, position + 1);
        self.text.insert(position, NEWLINE);
        proof {
            assert forall|i: int| 0 <= i < self.starts@.len() implies #[trigger] self.starts@[i]
                == (if i <= row {
                before.starts@[i] as int
            } else if i == row + 1 {
                position + 1
            } else {
                before.starts@[i - 1] + 1
            }) by {
                if i > row + 1 {
                    assert(moved.starts@[i - 1] == before.starts@[i - 1] + 1);
                } else if i <= row {
                    assert(moved.starts@[i] == before.starts@[i]);
                }
            }
            lemma_split(before, *self, row as int, at as int);
        }
        true
    }

    /// Joins the next line to the end of the line `row`. Nothing happens where
    /// there is no next line.
    pub fn join_with_next(&mut self, row: usize) -> (done: bool)
        requires
            old(self).wf(),
        ensures
            final(self).wf(),
            done == (row + 1 < old(self)@.len()),
            final(self)@ == (if done {
                joined_at(old(self)@, row as int)
            } else {
                old(self)@
            }),
            final(self).bytes().len() == old(self).bytes().len() - (if done {
                1int
            } else {
                0
            }),
            final(self).index_room() == old(self).index_room(),
            final(self).text_room() == old(self).text_room(),
    {
        let count: usize = self.count();
        if row >= count || count - row <= 1 {
            return false;
        }
        let ghost before = *self;
        assert(self.starts@[row as int] < self.starts@[row + 1]);
        assert(self.starts@[row + 1] < self.starts@[row + 2]);
        assert(self.starts@[row + 2] <= self.starts@.last());
        let position: usize = self.starts[row + 1] - 1;
        self.starts_forward(row);
        let ghost moved = *self;
        self.starts.remove(row + 1);
        self.text.remove(position);
        proof {
            let want = joined_at(before@, row as int);
            assert forall|i: int| 0 <= i < self.starts@.len() implies #[trigger] self.starts@[i]
                == (if i <= row {
                before.starts@[i] as int
            } else {
                before.starts@[i + 1] - 1
            }) by {
                if i > row {
                    assert(moved.starts@[i + 1] == before.starts@[i + 1] - 1);
                } else {
                    assert(moved.starts@[i] == before.starts@[i]);
                }
            }
            assert forall|i: int| 0 < i < self.starts@.len() implies self.text@[
            #[trigger] self.starts@[i] - 1] == NEWLINE by {
                if i <= row {
                    assert(before.starts@[i] <= before.starts@[row as int]);
                } else {
                    assert(before.starts@[row + 1] < before.starts@[i + 1]);
                    assert(before.starts@[i + 1] <= before.starts@.last());
                }
            }
            assert forall|i: int, j: int| 0 <= i < j < self.starts@.len() implies self.starts@[i]
                < self.starts@[j] by {
                if i <= row && j > row {
                    assert(before.starts@[i] <= before.starts@[row as int]);
                    assert(before.starts@[row + 1] < before.starts@[j + 1]);
                }
            }
            assert forall|r: int| 0 <= r < want.len() implies self@[r] =~= want[r] by {
                if r < row {
                    assert(before.starts@[r] < before.starts@[r + 1]);
                    assert(before.starts@[r + 1] <= before.starts@[row as int]);
                } else if r > row {
                    assert(before.starts@[r + 1] < before.starts@[r + 2]);
                    assert(before.starts@[row + 1] < before.starts@[r + 1]);
                    assert(before.starts@[r + 2] <= before.starts@.last());
                }
            }
            assert(self@ =~= want);
        }
        true
    }

    /// The bytes and the slots that fit without asking for memory.
    pub fn capacities(&self) -> (r: (usize, usize))
        ensures
            r.0 == self.text_room(),
            r.1 == self.index_room(),
    {
        (self.text_cap, self.index_cap)
    }

    /// The size of region to ask the kernel for before a byte is inserted, where
    /// one more byte does not fit.
    pub fn text_growth(&self) -> (total: Option<usize>)
        requires
            self.wf(),
        ensures
            total is Some <==> self.bytes().len() + 1 > self.text_room(),
            total matches Some(size) ==> size == region_size(
                text_wanted(self.text_room(), self.bytes().len() as int + 1),
                self.index_room(),
            ),
    {
        let needed: usize = self.text.len() + 1;
        if needed <= self.text_cap {
            return None;
        }
        let want: usize = round_up_word(
            if needed > self.text_cap + TEXT_STEP {
                needed
            } else {
                self.text_cap + TEXT_STEP
            },
        );
        Some(want + self.index_cap * WORD)
    }

    /// The size of region to ask the kernel for before a line is split, where
    /// one more line does not fit a text of `text_cap` bytes.
    pub fn index_growth(&self, text_cap: usize) -> (total: Option<usize>)
        requires
            self.wf(),
            text_cap <= REGION_LIMIT,
        ensures
            total is Some <==> self@.len() + 2 > self.index_room(),
            total matches Some(size) ==> size == region_size(
                text_cap as int,
                index_wanted(self.index_room(), self@.len() as int + 2),
            ),
    {
        let slots: usize = self.starts.len() + 1;
        if slots <= self.index_cap {
            return None;
        }
        let want: usize = if slots > self.index_cap + INDEX_STEP {
            slots
        } else {
            self.index_cap + INDEX_STEP
        };
        Some(text_cap + want * WORD)
    }
}

/// A line feed put into the text, with a line start behind it, splits the line.
proof fn lemma_split(before: Buffer, after: Buffer, row: int, at: int)
    requires
        before.wf(),
        0 <= row < before@.len(),
        0 <= at <= before@[row].len(),
        after.text@ == before.text@.insert(before.starts@[row] + at, NEWLINE),
        after.text_cap == before.text_cap,
        after.index_cap == before.index_cap,
        after.text@.len() <= after.text_cap,
        after.starts@.len() <= after.index_cap,
        after.starts@.len() == before.starts@.len() + 1,
        forall|i: int|
            0 <= i < after.starts@.len() ==> #[trigger] after.starts@[i] == (if i <= row {
                before.starts@[i] as int
            } else if i == row + 1 {
                before.starts@[row] + at + 1
            } else {
                before.starts@[i - 1] + 1
            }),
    ensures
        after.wf(),
        after@ == split_at(before@, row, at),
{
    let position = before.starts@[row] + at;
    let want = split_at(before@, row, at);
    assert(before.starts@[row] < before.starts@[row + 1]);
    assert(before.starts@[row + 1] <= before.starts@.last());
    assert(position < before.starts@[row + 1]);
    assert forall|i: int| 0 < i < after.starts@.len() implies after.text@[
    #[trigger] after.starts@[i] - 1] == NEWLINE by {
        if i <= row {
            assert(before.starts@[i] <= before.starts@[row]);
        } else if i > row + 1 {
            assert(before.starts@[row + 1] <= before.starts@[i - 1]);
            assert(before.starts@[i - 1] <= before.starts@.last());
            assert(before.text@[before.starts@[i - 1] - 1] == NEWLINE);
        }
    }
    assert forall|i: int, j: int| 0 <= i < j < after.starts@.len() implies after.starts@[i]
        < after.starts@[j] by {
        if i <= row {
            assert(before.starts@[i] <= before.starts@[row]);
        }
        if j > row + 1 {
            assert(before.starts@[row + 1] <= before.starts@[j - 1]);
        }
        if i > row + 1 {
            assert(before.starts@[i - 1] < before.starts@[j - 1]);
        }
    }
    assert forall|r: int| 0 <= r < want.len() implies after@[r] =~= want[r] by {
        if r < row {
            assert(before.starts@[r] < before.starts@[r + 1]);
            assert(before.starts@[r + 1] <= before.starts@[row]);
        } else if r > row + 1 {
            assert(before.starts@[r - 1] < before.starts@[r]);
            assert(before.starts@[row + 1] <= before.starts@[r - 1]);
            assert(before.starts@[r] <= before.starts@.last());
            assert(want[r] == before@[r - 1]);
        }
    }
    assert(after@ =~= want);
}

/// The text is the lines, each with a line feed behind it.
pub proof fn buffer_is_its_lines(buffer: Buffer)
    requires
        buffer.wf(),
    ensures
        buffer.bytes() == flat(buffer@),
{
    lemma_prefix_is_flat(buffer, (buffer.starts@.len() - 1) as int);
    assert(buffer@.take((buffer.starts@.len() - 1) as int) =~= buffer@);
    assert(buffer.text@.take(buffer.text@.len() as int) =~= buffer.text@);
}

/// A text that fits the heap has rows and columns that do.
pub proof fn lemma_sizes(buffer: Buffer, row: int)
    requires
        buffer.wf(),
        0 <= row < buffer@.len(),
    ensures
        buffer@.len() < REGION_LIMIT,
        buffer@[row].len() < REGION_LIMIT,
        buffer.bytes().len() < REGION_LIMIT,
{
    assert(buffer.starts@[row] < buffer.starts@[row + 1]);
    assert(buffer.starts@[row + 1] <= buffer.starts@.last());
}

/// The region of a buffer is never larger than a heap can be.
pub proof fn lemma_rooms(buffer: Buffer)
    requires
        buffer.wf(),
    ensures
        0 <= buffer.text_room(),
        0 <= buffer.index_room(),
        region_size(buffer.text_room(), buffer.index_room()) <= REGION_LIMIT,
{
}

proof fn lemma_prefix_is_flat(buffer: Buffer, rows: int)
    requires
        buffer.wf(),
        0 <= rows < buffer.starts@.len(),
    ensures
        buffer.text@.take(buffer.starts@[rows] as int) == flat(buffer@.take(rows)),
    decreases rows,
{
    if rows == 0 {
        assert(buffer@.take(0) =~= Seq::<Seq<u8>>::empty());
    } else {
        lemma_prefix_is_flat(buffer, rows - 1);
        assert(buffer@.take(rows).drop_last() =~= buffer@.take(rows - 1));
        assert(buffer.starts@[rows - 1] < buffer.starts@[rows]);
        assert(buffer.starts@[rows] <= buffer.starts@.last());
        assert(buffer.text@.take(buffer.starts@[rows] as int) =~= buffer.text@.take(
            buffer.starts@[rows - 1] as int,
        ) + buffer@[rows - 1].push(NEWLINE));
    }
}

/// A file on its way into the editor.
pub struct Reading {
    file: Vec<u8>,
    text_cap: usize,
    index_cap: usize,
}

impl Reading {
    /// What was read so far.
    pub closed spec fn view(&self) -> Seq<u8> {
        self.file@
    }

    /// The bytes that fit without asking for memory.
    pub closed spec fn text_room(&self) -> int {
        self.text_cap as int
    }

    /// The slots that fit without asking for memory.
    pub closed spec fn index_room(&self) -> int {
        self.index_cap as int
    }

    /// What was read fits the region.
    pub closed spec fn wf(&self) -> bool {
        &&& self.file@.len() <= self.text_cap
        &&& self.index_cap >= 2
        &&& self.text_cap > 0
        &&& region_size(self.text_cap as int, self.index_cap as int) <= REGION_LIMIT
    }

    /// Nothing read yet, in a region of `region` bytes; nothing at all where the
    /// capacities do not fit the region.
    pub fn new(region: usize, text_cap: usize, index_cap: usize) -> (r: Option<Self>)
        requires
            region <= REGION_LIMIT,
        ensures
            r is Some <==> index_cap >= 2 && text_cap > 0 && region_size(
                text_cap as int,
                index_cap as int,
            ) <= region,
            r matches Some(reading) ==> reading.wf() && reading@ == Seq::<u8>::empty()
                && reading.text_room() == text_cap && reading.index_room() == index_cap,
    {
        if index_cap < 2 || text_cap == 0 || text_cap > region || index_cap > (region - text_cap)
            / WORD {
            return None;
        }
        Some(Reading { file: Vec::new(), text_cap, index_cap })
    }

    /// Takes `chunk` in, with room left for one line feed more. False, and
    /// nothing taken, where that neither fits nor is granted.
    pub fn accept(&mut self, chunk: &[u8], granted: bool) -> (ok: bool)
        requires
            old(self).wf(),
            chunk@.len() <= REGION_LIMIT,
        ensures
            final(self).wf(),
            final(self).index_room() == old(self).index_room(),
            ok == text_fits(
                old(self).text_room(),
                old(self).index_room(),
                old(self)@.len() as int + chunk@.len() + 1,
                granted,
            ),
            final(self)@ == (if ok {
                old(self)@ + chunk@
            } else {
                old(self)@
            }),
            final(self).text_room() == text_cap_after(
                old(self).text_room(),
                old(self).index_room(),
                old(self)@.len() as int + chunk@.len() + 1,
                granted,
            ),
    {
        let needed: usize = self.file.len() + chunk.len() + 1;
        if !self.ensure(needed, granted) {
            return false;
        }
        append(&mut self.file, chunk);
        true
    }

    /// The size of region to ask the kernel for before a chunk of `length` bytes
    /// is taken in, where it does not fit.
    pub fn text_growth(&self, length: usize) -> (total: Option<usize>)
        requires
            self.wf(),
            length <= REGION_LIMIT,
        ensures
            total is Some <==> self@.len() + length + 1 > self.text_room(),
            total matches Some(size) ==> size == region_size(
                text_wanted(self.text_room(), self@.len() as int + length + 1),
                self.index_room(),
            ),
    {
        let needed: usize = self.file.len() + length + 1;
        if needed <= self.text_cap {
            return None;
        }
        let want: usize = round_up_word(
            if needed > self.text_cap + TEXT_STEP {
                needed
            } else {
                self.text_cap + TEXT_STEP
            },
        );
        Some(want + self.index_cap * WORD)
    }

    /// The size of region to ask the kernel for before the index is built, where
    /// its slots do not fit: one for each line, one for the end, and some to go
    /// on typing.
    pub fn index_growth(&self) -> (total: Option<usize>)
        requires
            self.wf(),
        ensures
            ({
                let slots = lines_from(terminated(self@), 0).len() + 1 + INDEX_STEP;
                &&& total is Some <==> slots > self.index_room()
                &&& total matches Some(size) ==> size == region_size(
                    self.text_room(),
                    index_wanted(self.index_room(), slots),
                )
            }),
    {
        let slots: usize = self.count_lines() + 1 + INDEX_STEP;
        if slots <= self.index_cap {
            return None;
        }
        let want: usize = if slots > self.index_cap + INDEX_STEP {
            slots
        } else {
            self.index_cap + INDEX_STEP
        };
        Some(self.text_cap + want * WORD)
    }

    /// How many lines were read.
    fn count_lines(&self) -> (r: usize)
        requires
            self.wf(),
        ensures
            r == lines_from(terminated(self@), 0).len(),
            r <= REGION_LIMIT + 1,
    {
        let total: usize = self.file.len();
        let ghost file = self.file@;
        let ghost text = terminated(file);
        let ghost mut from: int = 0;
        let mut count: usize = 0;
        let mut at: usize = 0;
        while at < total
            invariant
                total == file.len(),
                file == self.file@,
                text == terminated(file),
                at <= total <= REGION_LIMIT,
                0 <= from <= at,
                count <= at,
                forall|i: int| from <= i < at ==> file[i] != NEWLINE,
                from == at && at > 0 ==> file[at - 1] == NEWLINE,
                lines_from(text, 0).len() == count + lines_from(text, from).len(),
            decreases total - at,
        {
            if self.file[at] == NEWLINE {
                proof {
                    bytes::lemma_first_at_is(text, NEWLINE, from, at as int);
                    from = at + 1;
                }
                count += 1;
            }
            at += 1;
        }
        if total == 0 || self.file[total - 1] != NEWLINE {
            proof {
                bytes::lemma_first_at_is(text, NEWLINE, from, total as int);
                assert(lines_from(text, total + 1).len() == 0);
            }
            count += 1;
        }
        count
    }

    /// Makes room for `needed` bytes.
    fn ensure(&mut self, needed: usize, granted: bool) -> (ok: bool)
        requires
            old(self).wf(),
            needed + 7 <= usize::MAX,
        ensures
            final(self).wf(),
            final(self)@ == old(self)@,
            final(self).index_room() == old(self).index_room(),
            ok == text_fits(old(self).text_room(), old(self).index_room(), needed as int, granted),
            final(self).text_room() == text_cap_after(
                old(self).text_room(),
                old(self).index_room(),
                needed as int,
                granted,
            ),
    {
        if needed <= self.text_cap {
            return true;
        }
        let want: usize = round_up_word(
            if needed > self.text_cap + TEXT_STEP {
                needed
            } else {
                self.text_cap + TEXT_STEP
            },
        );
        if !granted || want > REGION_LIMIT || self.index_cap > (REGION_LIMIT - want) / WORD {
            return false;
        }
        self.text_cap = want;
        true
    }
}

/// The region of a file that is read is never larger than a heap can be.
pub proof fn lemma_reading_room(reading: Reading)
    requires
        reading.wf(),
    ensures
        0 < reading.text_room(),
        region_size(reading.text_room(), reading.index_room()) <= REGION_LIMIT,
{
}

/// Ends the reading: supplies a line feed where the last line has none and
/// builds the index, with room to go on typing. Nothing where the memory for
/// that neither fits nor is granted.
pub fn index_lines(reading: Reading, grants: Grants) -> (r: Option<Buffer>)
    requires
        reading.wf(),
    ensures
        ({
            let text = terminated(reading@);
            let lines = lines_from(text, 0);
            let text_cap = text_cap_after(
                reading.text_room(),
                reading.index_room(),
                text.len() as int,
                grants.text,
            );
            let slots = lines.len() + 1 + INDEX_STEP;
            &&& r is Some <==> text_fits(
                reading.text_room(),
                reading.index_room(),
                text.len() as int,
                grants.text,
            ) && index_fits(text_cap, reading.index_room(), slots, grants.index)
            &&& r matches Some(buffer) ==> buffer.wf() && buffer@ == lines && clean(buffer@)
                && buffer.bytes() == text && buffer.text_room() == text_cap && buffer.index_room() == index_cap_after(
                text_cap,
                reading.index_room(),
                slots,
                grants.index,
            )
        }),
{
    let mut reading = reading;
    let ghost file = reading@;
    let length: usize = reading.file.len();
    if length == 0 || reading.file[length - 1] != NEWLINE {
        if !reading.ensure(length + 1, grants.text) {
            return None;
        }
        reading.file.push(NEWLINE);
    }
    let text = reading.file;
    assert(text@ == terminated(file));
    let mut starts: Vec<usize> = Vec::new();
    starts.push(0);
    let mut at: usize = 0;
    let ghost whole = lines_from(text@, 0);
    let ghost mut found: Seq<Seq<u8>> = Seq::empty();
    assert(found + whole =~= whole);
    while at < text.len()
        invariant
            at <= text@.len() <= REGION_LIMIT,
            1 <= starts@.len() <= at + 1,
            found.len() == starts@.len() - 1,
            starts@[0] == 0,
            starts@.last() <= at,
            forall|i: int| starts@.last() <= i < at ==> text@[i] != NEWLINE,
            forall|i: int, j: int| 0 <= i < j < starts@.len() ==> starts@[i] < starts@[j],
            forall|i: int|
                0 < i < starts@.len() ==> text@[#[trigger] starts@[i] - 1] == NEWLINE,
            forall|r: int|
                0 <= r < found.len() ==> #[trigger] found[r] == text@.subrange(
                    starts@[r] as int,
                    starts@[r + 1] - 1,
                ),
            whole == lines_from(text@, 0),
            whole == found + lines_from(text@, starts@.last() as int),
        decreases text@.len() - at,
    {
        if text[at] == NEWLINE {
            let ghost from = starts@.last() as int;
            proof {
                bytes::lemma_first_at_is(text@, NEWLINE, from, at as int);
                let line = text@.subrange(from, at as int);
                assert(lines_from(text@, from) == seq![line] + lines_from(text@, at + 1));
                assert(found + (seq![line] + lines_from(text@, at + 1)) =~= found.push(line)
                    + lines_from(text@, at + 1));
                found = found.push(line);
            }
            starts.push(at + 1);
        }
        at += 1;
    }
    assert(starts@.last() == text@.len()) by {
        if starts@.last() < text@.len() {
            assert(text@[text@.len() - 1] == NEWLINE);
        }
    }
    assert(found + lines_from(text@, text@.len() as int) =~= found);
    assert(starts@.len() >= 2);
    let slots: usize = starts.len() + INDEX_STEP;
    let mut index_cap: usize = reading.index_cap;
    if slots > index_cap {
        let want: usize = if slots > index_cap + INDEX_STEP {
            slots
        } else {
            index_cap + INDEX_STEP
        };
        if !grants.index || want > (REGION_LIMIT - reading.text_cap) / WORD {
            return None;
        }
        index_cap = want;
    }
    let buffer = Buffer { text, starts, text_cap: reading.text_cap, index_cap };
    assert(buffer@ =~= whole) by {
        assert forall|r: int| 0 <= r < whole.len() implies buffer@[r] == whole[r] by {
            assert(found[r] == whole[r]);
        }
    }
    proof {
        lines_are_clean(buffer.text@, 0);
    }
    Some(buffer)
}

proof fn lemma_flat_add(a: Seq<Seq<u8>>, b: Seq<Seq<u8>>)
    ensures
        flat(a + b) == flat(a) + flat(b),
    decreases b.len(),
{
    if b.len() == 0 {
        assert(a + b =~= a);
        assert(flat(a) + flat(b) =~= flat(a));
    } else {
        lemma_flat_add(a, b.drop_last());
        assert((a + b).drop_last() =~= a + b.drop_last());
        assert(flat(a + b) =~= flat(a) + flat(b));
    }
}

/// No line holds a line feed.
pub open spec fn clean(lines: Seq<Seq<u8>>) -> bool {
    forall|r: int, i: int|
        0 <= r < lines.len() && 0 <= i < lines[r].len() ==> #[trigger] lines[r][i] != NEWLINE
}

/// The lines of a text hold no line feed.
pub proof fn lines_are_clean(text: Seq<u8>, from: int)
    requires
        0 <= from,
    ensures
        clean(lines_from(text, from)),
    decreases text.len() - from,
{
    if from < text.len() {
        bytes::lemma_first_at(text, NEWLINE, from);
        let end = bytes::first_at(text, NEWLINE, from);
        if end < text.len() {
            lines_are_clean(text, end + 1);
            let rest = lines_from(text, end + 1);
            let all = lines_from(text, from);
            assert(all == seq![text.subrange(from, end)] + rest);
            assert forall|r: int, i: int|
                0 <= r < all.len() && 0 <= i < all[r].len() implies #[trigger] all[r][i]
                != NEWLINE by {
                if r > 0 {
                    assert(all[r] == rest[r - 1]);
                    assert(rest[r - 1][i] != NEWLINE);
                }
            }
        }
    }
}

/// Removing a byte leaves the lines without line feeds.
pub proof fn lemma_clean_remove(lines: Seq<Seq<u8>>, row: int, from: int, to: int)
    requires
        clean(lines),
        0 <= row < lines.len(),
        0 <= from <= to <= lines[row].len(),
    ensures
        clean(lines.update(row, chars::without(lines[row], from, to))),
{
    let after = lines.update(row, chars::without(lines[row], from, to));
    assert forall|r: int, i: int|
        0 <= r < after.len() && 0 <= i < after[r].len() implies #[trigger] after[r][i]
        != NEWLINE by {
        if r == row {
            assert(after[r][i] == lines[r][if i < from { i } else { i + (to - from) }]);
        } else {
            assert(after[r][i] == lines[r][i]);
        }
    }
}

/// Inserting anything but a line feed leaves the lines without line feeds.
pub proof fn lemma_clean_insert(lines: Seq<Seq<u8>>, row: int, at: int, byte: u8)
    requires
        clean(lines),
        0 <= row < lines.len(),
        0 <= at <= lines[row].len(),
        byte != NEWLINE,
    ensures
        clean(lines.update(row, lines[row].insert(at, byte))),
{
    let after = lines.update(row, lines[row].insert(at, byte));
    assert forall|r: int, i: int|
        0 <= r < after.len() && 0 <= i < after[r].len() implies #[trigger] after[r][i]
        != NEWLINE by {
        if r == row {
            if i < at {
                assert(after[r][i] == lines[r][i]);
            } else if i > at {
                assert(after[r][i] == lines[r][i - 1]);
            }
        } else {
            assert(after[r][i] == lines[r][i]);
        }
    }
}

/// Splitting leaves the lines without line feeds.
pub proof fn lemma_clean_split(lines: Seq<Seq<u8>>, row: int, at: int)
    requires
        clean(lines),
        0 <= row < lines.len(),
        0 <= at <= lines[row].len(),
    ensures
        clean(split_at(lines, row, at)),
{
    let after = split_at(lines, row, at);
    assert forall|r: int, i: int|
        0 <= r < after.len() && 0 <= i < after[r].len() implies #[trigger] after[r][i]
        != NEWLINE by {
        if r <= row {
            assert(after[r][i] == lines[r][i]);
        } else if r == row + 1 {
            assert(after[r][i] == lines[row][at + i]);
        } else {
            assert(after[r][i] == lines[r - 1][i]);
        }
    }
}

/// Joining leaves the lines without line feeds.
pub proof fn lemma_clean_join(lines: Seq<Seq<u8>>, row: int)
    requires
        clean(lines),
        0 <= row,
        row + 1 < lines.len(),
    ensures
        clean(joined_at(lines, row)),
{
    let after = joined_at(lines, row);
    assert forall|r: int, i: int|
        0 <= r < after.len() && 0 <= i < after[r].len() implies #[trigger] after[r][i]
        != NEWLINE by {
        if r < row {
            assert(after[r][i] == lines[r][i]);
        } else if r == row {
            if i < lines[row].len() {
                assert(after[r][i] == lines[row][i]);
            } else {
                assert(after[r][i] == lines[row + 1][i - lines[row].len()]);
            }
        } else {
            assert(after[r][i] == lines[r + 1][i]);
        }
    }
}

/// Lines that were saved are the lines that the file has when it is opened
/// again.
pub proof fn saved_lines_read_back(lines: Seq<Seq<u8>>)
    requires
        clean(lines),
        lines.len() > 0,
    ensures
        terminated(flat(lines)) == flat(lines),
        lines_from(flat(lines), 0) == lines,
{
    lemma_lines_behind(lines, 0);
    assert(lines.take(0) =~= Seq::<Seq<u8>>::empty());
    assert(lines.skip(0) =~= lines);
}

proof fn lemma_lines_behind(lines: Seq<Seq<u8>>, row: int)
    requires
        clean(lines),
        0 <= row <= lines.len(),
    ensures
        lines_from(flat(lines), flat(lines.take(row)).len() as int) == lines.skip(row),
        flat(lines.take(row)).len() <= flat(lines).len(),
    decreases lines.len() - row,
{
    let text = flat(lines);
    assert(lines =~= lines.take(row) + lines.skip(row));
    lemma_flat_add(lines.take(row), lines.skip(row));
    let from = flat(lines.take(row)).len() as int;
    if row == lines.len() {
        assert(lines.skip(row) =~= Seq::<Seq<u8>>::empty());
    } else {
        lemma_lines_behind(lines, row + 1);
        let line = lines[row];
        assert(lines.take(row + 1).drop_last() =~= lines.take(row));
        assert(lines =~= lines.take(row + 1) + lines.skip(row + 1));
        lemma_flat_add(lines.take(row + 1), lines.skip(row + 1));
        let end = from + line.len();
        assert(flat(lines.take(row + 1)) == flat(lines.take(row)) + line.push(NEWLINE));
        assert forall|i: int| from <= i < end implies text[i] != NEWLINE by {
            assert(text[i] == lines[row][i - from]);
        }
        assert(text[end] == NEWLINE);
        bytes::lemma_first_at_is(text, NEWLINE, from, end);
        assert(text.subrange(from, end) =~= line);
        assert(lines.skip(row) =~= seq![line] + lines.skip(row + 1));
    }
}

/// The lines of a file hold no line feed, and saving them unchanged writes the
/// file back, with a line feed behind its last line.
pub proof fn opened_file_saves_back(file: Seq<u8>)
    ensures
        flat(lines_from(terminated(file), 0)) == terminated(file),
        clean(lines_from(terminated(file), 0)),
        lines_from(terminated(file), 0).len() > 0,
{
    lemma_lines_flat(terminated(file), 0);
    assert(terminated(file).skip(0) =~= terminated(file));
}

proof fn lemma_lines_flat(text: Seq<u8>, from: int)
    requires
        0 <= from <= text.len(),
        text.len() > 0,
        text.last() == NEWLINE,
    ensures
        flat(lines_from(text, from)) == text.skip(from),
        clean(lines_from(text, from)),
        from < text.len() ==> lines_from(text, from).len() > 0,
    decreases text.len() - from,
{
    if from < text.len() {
        bytes::lemma_first_at(text, NEWLINE, from);
        let end = bytes::first_at(text, NEWLINE, from);
        assert(end < text.len());
        lemma_lines_flat(text, end + 1);
        let line = text.subrange(from, end);
        lemma_flat_add(seq![line], lines_from(text, end + 1));
        assert(flat(seq![line]) =~= line.push(NEWLINE)) by {
            reveal_with_fuel(flat, 2);
            assert(seq![line].drop_last() =~= Seq::<Seq<u8>>::empty());
        }
        assert(text.skip(from) =~= line.push(NEWLINE) + text.skip(end + 1));
    } else {
        assert(text.skip(from) =~= Seq::<u8>::empty());
    }
}

/// Removing the byte that was just inserted restores the lines.
pub proof fn removing_undoes_inserting(lines: Seq<Seq<u8>>, row: int, at: int, byte: u8)
    requires
        0 <= row < lines.len(),
        0 <= at <= lines[row].len(),
    ensures
        ({
            let longer = lines.update(row, lines[row].insert(at, byte));
            longer.update(row, longer[row].remove(at)) == lines
        }),
{
    let longer = lines.update(row, lines[row].insert(at, byte));
    assert(longer[row].remove(at) =~= lines[row]);
    assert(longer.update(row, longer[row].remove(at)) =~= lines);
}

/// Joining the line that was just split restores the lines.
pub proof fn joining_undoes_splitting(lines: Seq<Seq<u8>>, row: int, at: int)
    requires
        0 <= row < lines.len(),
        0 <= at <= lines[row].len(),
    ensures
        joined_at(split_at(lines, row, at), row) == lines,
{
    let parts = split_at(lines, row, at);
    assert(parts[row] + parts[row + 1] =~= lines[row]);
    assert(joined_at(parts, row) =~= lines);
}

/// Splitting a joined line where it was joined restores the lines.
pub proof fn splitting_undoes_joining(lines: Seq<Seq<u8>>, row: int)
    requires
        0 <= row,
        row + 1 < lines.len(),
    ensures
        split_at(joined_at(lines, row), row, lines[row].len() as int) == lines,
{
    let one = joined_at(lines, row);
    assert(one[row].take(lines[row].len() as int) =~= lines[row]);
    assert(one[row].skip(lines[row].len() as int) =~= lines[row + 1]);
    assert(split_at(one, row, lines[row].len() as int) =~= lines);
}

/// Lines are saved one after the other: first these, then those.
pub proof fn saving_is_line_by_line(a: Seq<Seq<u8>>, b: Seq<Seq<u8>>)
    ensures
        flat(a + b) == flat(a) + flat(b),
        flat(Seq::empty()).len() == 0,
{
    lemma_flat_add(a, b);
}

/// A line is saved with a line feed behind it, an empty one too.
pub proof fn one_line_is_saved_with_its_line_feed(line: Seq<u8>)
    ensures
        flat(seq![line]) == line.push(NEWLINE),
{
    reveal_with_fuel(flat, 2);
    assert(seq![line].drop_last() =~= Seq::<Seq<u8>>::empty());
    assert(flat(seq![line]) =~= line.push(NEWLINE));
}

/// A file gets a line feed behind its last line where it has none, and stays as
/// it is otherwise. That makes no line more.
pub proof fn a_last_line_may_lack_its_line_feed(file: Seq<u8>)
    requires
        file.len() > 0,
    ensures
        terminated(file) == (if file.last() == NEWLINE {
            file
        } else {
            file.push(NEWLINE)
        }),
        lines_from(terminated(file), 0) == lines_from(file, 0),
{
    if file.last() != NEWLINE {
        lemma_last_line(file, 0);
    }
}

proof fn lemma_last_line(file: Seq<u8>, from: int)
    requires
        0 <= from < file.len(),
        file.last() != NEWLINE,
    ensures
        lines_from(file.push(NEWLINE), from) == lines_from(file, from),
    decreases file.len() - from,
{
    let whole = file.push(NEWLINE);
    bytes::lemma_first_at(file, NEWLINE, from);
    let end = bytes::first_at(file, NEWLINE, from);
    assert forall|i: int| from <= i < end implies whole[i] != NEWLINE by {
        assert(whole[i] == file[i]);
    }
    bytes::lemma_first_at_is(whole, NEWLINE, from, end);
    if end < file.len() {
        assert(end + 1 < file.len()) by {
            if end + 1 == file.len() {
                assert(file.last() == NEWLINE);
            }
        }
        lemma_last_line(file, end + 1);
        assert(whole.subrange(from, end) =~= file.subrange(from, end));
    } else {
        assert(whole.subrange(from, end) =~= file.skip(from));
        assert(lines_from(whole, end + 1) =~= Seq::<Seq<u8>>::empty());
        assert(lines_from(whole, from) =~= seq![file.skip(from)]);
    }
}

/// A text is divided at its line feeds: a text without one is one line, and where
/// one stands, the line before it comes first and the lines of the rest behind.
pub proof fn line_feeds_divide_a_text(line: Seq<u8>, rest: Seq<u8>)
    requires
        !line.contains(NEWLINE),
    ensures
        lines_from(line.push(NEWLINE) + rest, 0) == seq![line] + lines_from(rest, 0),
        line.len() > 0 ==> lines_from(line, 0) == seq![line],
        lines_from(Seq::empty(), 0).len() == 0,
{
    assert forall|i: int| 0 <= i < line.len() implies line[i] != NEWLINE by {
        assert(line.contains(line[i]));
    }
    let whole = line.push(NEWLINE) + rest;
    bytes::lemma_first_at_is(whole, NEWLINE, 0, line.len() as int);
    assert(whole.subrange(0, line.len() as int) =~= line);
    lemma_lines_moved(line.push(NEWLINE), rest, 0);
    if line.len() > 0 {
        bytes::lemma_first_at_is(line, NEWLINE, 0, line.len() as int);
        assert(line.skip(0) =~= line);
    }
}

proof fn lemma_lines_moved(a: Seq<u8>, b: Seq<u8>, at: int)
    requires
        0 <= at <= b.len(),
    ensures
        lines_from(a + b, a.len() + at) == lines_from(b, at),
    decreases b.len() - at,
{
    if at < b.len() {
        let whole = a + b;
        bytes::lemma_first_at(b, NEWLINE, at);
        let end = bytes::first_at(b, NEWLINE, at);
        assert forall|i: int| a.len() + at <= i < a.len() + end implies whole[i] != NEWLINE by {
            assert(whole[i] == b[i - a.len()]);
        }
        bytes::lemma_first_at_is(whole, NEWLINE, a.len() + at, a.len() + end);
        if end < b.len() {
            assert(whole.subrange(a.len() + at, a.len() + end) =~= b.subrange(at, end));
            lemma_lines_moved(a, b, end + 1);
        } else {
            assert(whole.skip(a.len() + at) =~= b.skip(at));
        }
    }
}

/// A file with nothing in it is one empty line.
pub proof fn an_empty_file_is_one_empty_line()
    ensures
        lines_from(terminated(Seq::empty()), 0) == seq![Seq::<u8>::empty()],
{
    let text = terminated(Seq::empty());
    assert(text =~= Seq::<u8>::empty().push(NEWLINE));
    line_feeds_divide_a_text(Seq::empty(), Seq::empty());
    assert(Seq::<u8>::empty().push(NEWLINE) + Seq::<u8>::empty() =~= text);
    assert(lines_from(text, 0) =~= seq![Seq::<u8>::empty()]);
}

/// What fits needs no memory, and what does not fit gets it where it is granted
/// and a heap has room for it: as much as is needed, and at least a step more than
/// there was. Where it is not granted, nothing grows.
pub proof fn room_is_made_where_memory_is_granted(
    text_cap: int,
    index_cap: int,
    needed: int,
    slots: int,
    granted: bool,
)
    requires
        0 <= text_cap,
        0 <= index_cap,
        0 <= needed,
        0 <= slots,
    ensures
        needed <= text_cap ==> text_fits(text_cap, index_cap, needed, granted) && text_cap_after(
            text_cap,
            index_cap,
            needed,
            granted,
        ) == text_cap,
        needed > text_cap && !granted ==> !text_fits(text_cap, index_cap, needed, granted)
            && text_cap_after(text_cap, index_cap, needed, granted) == text_cap,
        text_fits(text_cap, index_cap, needed, granted) ==> needed <= text_cap_after(
            text_cap,
            index_cap,
            needed,
            granted,
        ),
        needed > text_cap && granted && needed + 7 + 8 * index_cap <= 0x7f_f000 && text_cap + 4096
            + 7 + 8 * index_cap <= 0x7f_f000 ==> text_fits(text_cap, index_cap, needed, granted)
            && text_cap_after(text_cap, index_cap, needed, granted) >= text_cap + 4096,
        text_cap_after(text_cap, index_cap, needed, granted) > text_cap ==> text_cap_after(
            text_cap,
            index_cap,
            needed,
            granted,
        ) + 8 * index_cap <= 0x7f_f000,
        slots <= index_cap ==> index_fits(text_cap, index_cap, slots, granted) && index_cap_after(
            text_cap,
            index_cap,
            slots,
            granted,
        ) == index_cap,
        slots > index_cap && !granted ==> !index_fits(text_cap, index_cap, slots, granted)
            && index_cap_after(text_cap, index_cap, slots, granted) == index_cap,
        index_fits(text_cap, index_cap, slots, granted) ==> slots <= index_cap_after(
            text_cap,
            index_cap,
            slots,
            granted,
        ),
        slots > index_cap && granted && text_cap + 8 * slots <= 0x7f_f000 && text_cap + 8 * (
        index_cap + 64) <= 0x7f_f000 ==> index_fits(text_cap, index_cap, slots, granted)
            && index_cap_after(text_cap, index_cap, slots, granted) >= index_cap + 64,
        index_cap_after(text_cap, index_cap, slots, granted) > index_cap ==> text_cap + 8
            * index_cap_after(text_cap, index_cap, slots, granted) <= 0x7f_f000,
{
}

} // verus!
