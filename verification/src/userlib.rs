//! What every program uses: the screen size, the kept error line, the output
//! frame, complete writes, directory records and the heap.
use crate::bytes::{self, append, copy_of, least, NEWLINE, RETURN};
use crate::le;
use vstd::prelude::*;

verus! {

/// Standard input.
pub const STDIN: u64 = 0;

/// Standard output.
pub const STDOUT: u64 = 1;

/// Standard error.
pub const STDERR: u64 = 2;

/// No such file or directory.
pub const MINUS_ENOENT: i64 = -2;

/// Nothing there yet; try again.
pub const MINUS_EAGAIN: i64 = -11;

/// The rows of a screen that does not tell its size.
pub const DEFAULT_ROWS: u16 = 24;

/// The columns of a screen that does not tell its size.
pub const DEFAULT_COLUMNS: u16 = 80;

/// The size of a diagnostic record.
pub const ZDIAG_LEN: usize = 256;

/// Where the text of a diagnostic record begins.
pub const ZDIAG_TEXT_OFFSET: usize = 4;

/// The most bytes of text in a diagnostic record.
pub const ZDIAG_TEXT: usize = 252;

/// The size of the output frame.
pub const FRAME_MAX: usize = 20480;

/// The size of a `stat` record.
pub const STAT_BYTES: usize = 144;

/// Where the size of the file stands in a `stat` record.
pub const STAT_SIZE_OFFSET: usize = 48;

/// Where the length of a directory record stands in it.
pub const DIRENT_RECLEN_OFFSET: usize = 16;

/// Where the name stands in a directory record.
pub const DIRENT_NAME_OFFSET: usize = 19;

/// The size of a terminal, in characters and in pixels.
#[derive(Clone, Copy, PartialEq, Eq, Structural, Debug)]
pub struct WindowSize {
    pub rows: u16,
    pub columns: u16,
    pub width_pixels: u16,
    pub height_pixels: u16,
}

impl WindowSize {
    /// The size, with rows and columns that are not zero.
    pub fn or_default(self) -> (r: Self)
        ensures
            r.rows == (if self.rows == 0 {
                DEFAULT_ROWS
            } else {
                self.rows
            }),
            r.columns == (if self.columns == 0 {
                DEFAULT_COLUMNS
            } else {
                self.columns
            }),
            r.width_pixels == self.width_pixels,
            r.height_pixels == self.height_pixels,
            r.rows > 0,
            r.columns > 0,
    {
        WindowSize {
            rows: if self.rows == 0 {
                DEFAULT_ROWS
            } else {
                self.rows
            },
            columns: if self.columns == 0 {
                DEFAULT_COLUMNS
            } else {
                self.columns
            },
            width_pixels: self.width_pixels,
            height_pixels: self.height_pixels,
        }
    }
}

/// The size in a record that the terminal filled in, or what it answered
/// instead.
pub fn window_size(answer: i64, raw: &[u8]) -> (r: Result<WindowSize, i64>)
    requires
        raw@.len() == 8,
    ensures
        answer < 0 ==> r == Err::<WindowSize, i64>(answer),
        answer >= 0 ==> r is Ok,
        r matches Ok(size) ==> size.rows == le::field(raw@, 0, 2) && size.columns == le::field(
            raw@,
            2,
            2,
        ) && size.width_pixels == le::field(raw@, 4, 2) && size.height_pixels == le::field(
            raw@,
            6,
            2,
        ),
{
    if answer < 0 {
        return Err(answer);
    }
    proof {
        le::lemma_limits();
    }
    Ok(
        WindowSize {
            rows: le::read(raw, 0, 2) as u16,
            columns: le::read(raw, 2, 2) as u16,
            width_pixels: le::read(raw, 4, 2) as u16,
            height_pixels: le::read(raw, 6, 2) as u16,
        },
    )
}

/// A size to draw with, whatever the terminal answered.
pub fn window_size_or_default(answer: Result<WindowSize, i64>) -> (r: WindowSize)
    ensures
        r.rows > 0,
        r.columns > 0,
        ({
            let (rows, columns, width, height) = match answer {
                Ok(size) => (size.rows, size.columns, size.width_pixels, size.height_pixels),
                Err(_) => (0u16, 0u16, 0u16, 0u16),
            };
            &&& r.rows == (if rows == 0 {
                DEFAULT_ROWS
            } else {
                rows
            })
            &&& r.columns == (if columns == 0 {
                DEFAULT_COLUMNS
            } else {
                columns
            })
            &&& r.width_pixels == width
            &&& r.height_pixels == height
        }),
{
    match answer {
        Ok(size) => size.or_default(),
        Err(_) => (WindowSize {
            rows: 0,
            columns: 0,
            width_pixels: 0,
            height_pixels: 0,
        }).or_default(),
    }
}

/// `s` without line feeds and carriage returns.
pub open spec fn one_line(s: Seq<u8>) -> Seq<u8>
    decreases s.len(),
{
    if s.len() == 0 {
        Seq::empty()
    } else if s.last() == NEWLINE || s.last() == RETURN {
        one_line(s.drop_last())
    } else {
        one_line(s.drop_last()).push(s.last())
    }
}

/// `one_line` leaves nothing but bytes of the line, and no more of them.
pub proof fn lemma_one_line(s: Seq<u8>)
    ensures
        one_line(s).len() <= s.len(),
        forall|i: int|
            0 <= i < one_line(s).len() ==> #[trigger] one_line(s)[i] != NEWLINE && one_line(s)[i]
                != RETURN,
    decreases s.len(),
{
    if s.len() > 0 {
        lemma_one_line(s.drop_last());
    }
}

/// The text of a diagnostic record: its first field is its length, the second
/// says how much was lost.
pub open spec fn kept_text(raw: Seq<u8>) -> Seq<u8> {
    let line = one_line(
        raw.subrange(
            ZDIAG_TEXT_OFFSET as int,
            ZDIAG_TEXT_OFFSET + le::field(raw, 0, 2),
        ),
    );
    if le::field(raw, 2, 2) > 0 && line.len() + 4 <= ZDIAG_TEXT {
        line + bytes::ascii(" ..."@)
    } else {
        line
    }
}

/// Whether a diagnostic record holds anything.
pub open spec fn holds_text(raw: Seq<u8>) -> bool {
    1 <= le::field(raw, 0, 2) <= ZDIAG_TEXT
}

/// Whether the kernel's answer brings a line: a record with something in it
/// besides the ends of lines.
pub open spec fn tells_line(answer: i64, raw: Seq<u8>) -> bool {
    answer >= 0 && holds_text(raw) && kept_text(raw).len() > 0
}

/// The error line that the kernel kept while the alternate screen was on.
pub struct Echo {
    text: Vec<u8>,
}

impl Echo {
    /// The line.
    pub closed spec fn view(&self) -> Seq<u8> {
        self.text@
    }

    /// No line.
    pub fn new() -> (echo: Self)
        ensures
            echo@ == Seq::<u8>::empty(),
    {
        Echo { text: Vec::new() }
    }

    /// Takes the line out of a record that the kernel filled in; true where
    /// there is one. Where there is none, the line stays as it is.
    pub fn take(&mut self, answer: i64, raw: &[u8]) -> (r: bool)
        requires
            raw@.len() == ZDIAG_LEN,
        ensures
            r == tells_line(answer, raw@),
            final(self)@ == (if r {
                kept_text(raw@)
            } else {
                old(self)@
            }),
            final(self)@.len() <= ZDIAG_TEXT || final(self)@ == old(self)@,
    {
        if answer < 0 {
            return false;
        }
        proof {
            le::lemma_limits();
        }
        let length: usize = le::read(raw, 0, 2) as usize;
        if length == 0 || length > ZDIAG_TEXT {
            return false;
        }
        let dropped: u64 = le::read(raw, 2, 2);
        let part: &[u8] = &raw[ZDIAG_TEXT_OFFSET..ZDIAG_TEXT_OFFSET + length];
        let mut text: Vec<u8> = Vec::new();
        let mut at: usize = 0;
        assert(part@.take(0) =~= Seq::<u8>::empty());
        while at < part.len()
            invariant
                at <= part@.len(),
                text@ == one_line(part@.take(at as int)),
            decreases part@.len() - at,
        {
            assert(part@.take(at + 1).drop_last() =~= part@.take(at as int));
            if part[at] != NEWLINE && part[at] != RETURN {
                text.push(part[at]);
            }
            at += 1;
        }
        proof {
            assert(part@.take(part@.len() as int) =~= part@);
            lemma_one_line(part@);
            reveal_strlit(" ...");
        }
        if dropped > 0 && text.len() + 4 <= ZDIAG_TEXT {
            crate::bytes::push_str(&mut text, " ...");
        }
        if text.len() == 0 {
            return false;
        }
        self.text = text;
        true
    }

    /// The line.
    pub fn line(&self) -> (r: &[u8])
        ensures
            r@ == self@,
    {
        self.text.as_slice()
    }

    /// Forgets the line.
    pub fn clear(&mut self)
        ensures
            final(self)@ == Seq::<u8>::empty(),
    {
        self.text = Vec::new();
    }
}

impl Default for Echo {
    fn default() -> (echo: Self)
        ensures
            echo@ == Seq::<u8>::empty(),
    {
        Echo::new()
    }
}

/// The record that logs `line`: as much of it as fits, with its length.
pub fn log_line(line: &[u8]) -> (raw: Vec<u8>)
    ensures
        raw@.len() == ZDIAG_LEN,
        ({
            let take = if line@.len() <= ZDIAG_TEXT {
                line@.len() as int
            } else {
                ZDIAG_TEXT as int
            };
            &&& le::field(raw@, 0, 2) == take
            &&& le::field(raw@, 2, 2) == 0
            &&& raw@.subrange(4, 4 + take) == line@.take(take)
            &&& forall|i: int| 4 + take <= i < ZDIAG_LEN ==> raw@[i] == 0
        }),
{
    let take: usize = least(line.len(), ZDIAG_TEXT);
    let mut head: Vec<u8> = Vec::new();
    crate::bytes::push_repeated(&mut head, 0, 4);
    le::write(&mut head, 0, take as u64, 2);
    proof {
        le::lemma_limits();
        le::written_field_reads_back(bytes::repeated(0, 4), 0, take as nat, 2);
        le::lemma_spelled_len(take as nat, 2);
        le::other_field_stays(bytes::repeated(0, 4), 0, le::spelled(take as nat, 2), 2, 2);
        lemma_zero_field();
    }
    let mut raw: Vec<u8> = head;
    let ghost front = raw@;
    append(&mut raw, &line[0..take]);
    crate::bytes::push_repeated(&mut raw, 0, ZDIAG_TEXT - take);
    proof {
        assert(raw@.subrange(0, 2) =~= front.subrange(0, 2));
        assert(raw@.subrange(2, 4) =~= front.subrange(2, 4));
        assert(raw@.subrange(4, 4 + take) =~= line@.take(take as int));
    }
    raw
}

proof fn lemma_zero_field()
    ensures
        le::field(bytes::repeated(0, 4), 2, 2) == 0,
{
    let s = bytes::repeated(0, 4).subrange(2, 4);
    reveal_with_fuel(le::value, 3);
    assert(s.skip(1).skip(1) =~= Seq::<u8>::empty());
    assert(s.skip(1)[0] == 0);
}

/// What a series of writes sent.
pub open spec fn stream(writes: Seq<Vec<u8>>) -> Seq<u8>
    decreases writes.len(),
{
    if writes.len() == 0 {
        Seq::empty()
    } else {
        stream(writes.drop_last()) + writes.last()@
    }
}

/// Output gathered so that a screen is drawn by few writes.
pub struct Frame {
    held: Vec<u8>,
}

impl Frame {
    /// What is gathered and not sent.
    pub closed spec fn view(&self) -> Seq<u8> {
        self.held@
    }

    /// The frame holds at most its size.
    pub open spec fn wf(&self) -> bool {
        self@.len() <= FRAME_MAX
    }

    /// Nothing gathered.
    pub fn new() -> (frame: Self)
        ensures
            frame.wf(),
            frame@ == Seq::<u8>::empty(),
    {
        Frame { held: Vec::new() }
    }

    /// Gathers `piece`. Each time the frame is full and more comes, what it
    /// holds goes to `writes`. Nothing is lost and nothing changes its place.
    pub fn frame_push(&mut self, piece: &[u8], writes: &mut Vec<Vec<u8>>)
        requires
            old(self).wf(),
        ensures
            final(self).wf(),
            stream(final(writes)@) + final(self)@ == stream(old(writes)@) + old(self)@ + piece@,
            final(writes)@.len() >= old(writes)@.len(),
            final(writes)@.take(old(writes)@.len() as int) == old(writes)@,
            forall|i: int|
                old(writes)@.len() <= i < final(writes)@.len() ==> #[trigger] final(writes)@[i]@.len() == FRAME_MAX,
            piece@.len() > 0 ==> final(self)@.len() > 0,
            piece@.len() == 0 ==> final(self)@ == old(self)@ && final(writes)@ == old(writes)@,
    {
        let mut at: usize = 0;
        assert(piece@.take(0) =~= Seq::<u8>::empty());
        assert(writes@.take(old(writes)@.len() as int) =~= old(writes)@);
        while at < piece.len()
            invariant
                at <= piece@.len(),
                self@.len() <= FRAME_MAX,
                at > 0 ==> self@.len() > 0,
                at == 0 ==> self@ == old(self)@ && writes@ == old(writes)@,
                stream(writes@) + self@ == stream(old(writes)@) + old(self)@ + piece@.take(
                    at as int,
                ),
                writes@.len() >= old(writes)@.len(),
                writes@.take(old(writes)@.len() as int) == old(writes)@,
                forall|i: int|
                    old(writes)@.len() <= i < writes@.len() ==> #[trigger] writes@[i]@.len()
                        == FRAME_MAX,
            decreases piece@.len() - at,
        {
            if self.held.len() == FRAME_MAX {
                let ghost sent = writes@;
                self.frame_flush(writes);
                assert forall|i: int|
                    old(writes)@.len() <= i < writes@.len() implies #[trigger] writes@[i]@.len()
                    == FRAME_MAX by {
                    if i < sent.len() {
                        assert(writes@.drop_last()[i] == sent[i]);
                    }
                }
                assert(writes@.take(old(writes)@.len() as int) =~= old(writes)@);
            }
            let used: usize = self.held.len();
            let take: usize = least(FRAME_MAX - used, piece.len() - at);
            let ghost before = self@;
            append(&mut self.held, &piece[at..at + take]);
            assert(stream(writes@) + self@ =~= stream(writes@) + before + piece@.subrange(
                at as int,
                at + take,
            ));
            assert(piece@.take(at + take) =~= piece@.take(at as int) + piece@.subrange(
                at as int,
                at + take,
            ));
            at += take;
            assert(stream(old(writes)@) + old(self)@ + piece@.take(at as int) =~= stream(
                writes@,
            ) + self@);
        }
        assert(piece@.take(piece@.len() as int) =~= piece@);
    }

    /// Sends what is gathered, as one write; nothing where there is nothing.
    pub fn frame_flush(&mut self, writes: &mut Vec<Vec<u8>>)
        ensures
            final(self)@ == Seq::<u8>::empty(),
            stream(final(writes)@) == stream(old(writes)@) + old(self)@,
            old(self)@.len() == 0 ==> final(writes)@ == old(writes)@,
            old(self)@.len() > 0 ==> final(writes)@.len() == old(writes)@.len() + 1 && final(writes)@.last()@ == old(self)@ && final(writes)@.drop_last() == old(writes)@,
    {
        if self.held.len() == 0 {
            assert(self@ =~= Seq::<u8>::empty());
            assert(stream(writes@) + self@ =~= stream(writes@));
            return;
        }
        let sent = copy_of(self.held.as_slice());
        writes.push(sent);
        self.held = Vec::new();
        assert(writes@.drop_last() =~= old(writes)@);
    }
}

/// Output gathered and then flushed arrives whole and in order, however it was
/// divided into pieces.
pub proof fn frames_lose_nothing(
    before: Seq<Vec<u8>>,
    held: Seq<u8>,
    a: Seq<u8>,
    b: Seq<u8>,
    middle: Seq<Vec<u8>>,
    middle_held: Seq<u8>,
    after: Seq<Vec<u8>>,
    after_held: Seq<u8>,
)
    requires
        stream(middle) + middle_held == stream(before) + held + a,
        stream(after) + after_held == stream(middle) + middle_held + b,
    ensures
        stream(after) + after_held == stream(before) + held + (a + b),
{
    assert(stream(before) + held + a + b =~= stream(before) + held + (a + b));
}

/// A write that goes on until everything is written.
pub struct Writing {
    pub length: usize,
    pub done: usize,
}

impl Writing {
    /// A write of `length` bytes, none of them written.
    pub fn new(length: usize) -> (w: Self)
        ensures
            w.length == length,
            w.done == 0,
    {
        Writing { length, done: 0 }
    }

    /// How many bytes are left to ask for; nothing where all are written.
    pub fn left(&self) -> (r: Option<usize>)
        ensures
            r == (if self.done < self.length {
                Some((self.length - self.done) as usize)
            } else {
                None
            }),
    {
        if self.done < self.length {
            Some(self.length - self.done)
        } else {
            None
        }
    }

    /// Takes the kernel's answer to a write. A write that did nothing ends it:
    /// with what was written before, or else with that answer.
    pub fn write_all(&mut self, written: i64) -> (r: Option<i64>)
        requires
            old(self).done + written <= i64::MAX,
            old(self).done + written <= usize::MAX,
            old(self).done <= i64::MAX,
        ensures
            final(self).length == old(self).length,
            written <= 0 ==> final(self).done == old(self).done && r == Some(
                if old(self).done == 0 {
                    written
                } else {
                    old(self).done as i64
                },
            ),
            written > 0 ==> final(self).done == old(self).done + written && r == (if final(self).done < old(self).length {
                None
            } else {
                Some(final(self).done as i64)
            }),
    {
        if written <= 0 {
            return Some(
                if self.done == 0 {
                    written
                } else {
                    self.done as i64
                },
            );
        }
        self.done = self.done + written as usize;
        if self.done < self.length {
            None
        } else {
            Some(self.done as i64)
        }
    }
}

/// The size of a file, from its `stat` record, or what the kernel answered
/// instead.
pub fn size_of_file(answer: i64, record: &[u8]) -> (r: Result<u64, i64>)
    requires
        record@.len() == STAT_BYTES,
    ensures
        r == (if answer < 0 {
            Err::<u64, i64>(answer)
        } else {
            Ok(le::field(record@, STAT_SIZE_OFFSET as int, 8) as u64)
        }),
        le::field(record@, STAT_SIZE_OFFSET as int, 8) <= u64::MAX,
{
    let size: u64 = le::read(record, STAT_SIZE_OFFSET, 8);
    if answer < 0 {
        Err(answer)
    } else {
        Ok(size)
    }
}

/// A string argument made into a path of at most `max` bytes, the zero byte
/// behind it included.
pub fn path_from(argument: &[u8], max: usize) -> (r: Vec<u8>)
    requires
        max > 0,
    ensures
        r@ == (if argument@.len() < max {
            argument@
        } else {
            argument@.take(max - 1)
        }).push(0),
        r@.len() <= max,
{
    let take: usize = least(argument.len(), max - 1);
    let mut r = copy_of(&argument[0..take]);
    assert(argument@.subrange(0, take as int) =~= (if argument@.len() < max {
        argument@
    } else {
        argument@.take(max - 1)
    }));
    r.push(0);
    r
}

/// The names in a run of directory records, from `at` on. A record that is too
/// short or does not end inside the run ends it.
pub open spec fn names_from(buf: Seq<u8>, at: int) -> Seq<Seq<u8>>
    decreases buf.len() - at,
{
    if at < 0 || at + DIRENT_NAME_OFFSET > buf.len() {
        Seq::empty()
    } else {
        let length = le::field(buf, at + DIRENT_RECLEN_OFFSET, 2);
        if length < DIRENT_NAME_OFFSET || at + length > buf.len() {
            Seq::empty()
        } else {
            seq![record_name(buf, at, length)] + names_from(buf, at + length)
        }
    }
}

/// The name in the record of `length` bytes at `at`: up to its zero byte, or
/// the end of the record.
pub open spec fn record_name(buf: Seq<u8>, at: int, length: int) -> Seq<u8> {
    let start = at + DIRENT_NAME_OFFSET;
    let end = bytes::first_at(buf.take(at + length), 0, start);
    buf.subrange(start, end)
}

/// The names in a run of directory records, in order.
pub fn for_each_dirent(buf: &[u8]) -> (names: Vec<Vec<u8>>)
    ensures
        names@.map_values(|name: Vec<u8>| name@) == names_from(buf@, 0),
{
    let mut names: Vec<Vec<u8>> = Vec::new();
    let mut at: usize = 0;
    let total: usize = buf.len();
    let ghost f = |name: Vec<u8>| name@;
    assert(names@.map_values(f) + names_from(buf@, 0) =~= names_from(buf@, 0));
    while at <= total && total - at >= DIRENT_NAME_OFFSET
        invariant
            total == buf@.len(),
            at <= total,
            f == (|name: Vec<u8>| name@),
            names@.map_values(f) + names_from(buf@, at as int) == names_from(buf@, 0),
        decreases total - at,
    {
        proof {
            le::lemma_limits();
        }
        let length: usize = le::read(buf, at + DIRENT_RECLEN_OFFSET, 2) as usize;
        if length < DIRENT_NAME_OFFSET || length > total - at {
            assert(names_from(buf@, at as int) =~= Seq::<Seq<u8>>::empty());
            assert(names@.map_values(f) =~= names_from(buf@, 0));
            return names;
        }
        let start: usize = at + DIRENT_NAME_OFFSET;
        let record: &[u8] = &buf[0..at + length];
        assert(record@ =~= buf@.take(at + length));
        let end: usize = crate::bytes::find(record, 0, start);
        let name = copy_of(&buf[start..end]);
        let ghost before = names@;
        names.push(name);
        proof {
            assert(names@.map_values(f) =~= before.map_values(f).push(name@));
            assert(names@.map_values(f) + names_from(buf@, at + length) =~= before.map_values(f) + (
            seq![name@] + names_from(buf@, at + length)));
        }
        at = at + length;
    }
    assert(names_from(buf@, at as int) =~= Seq::<Seq<u8>>::empty());
    assert(names@.map_values(f) =~= names_from(buf@, 0));
    names
}

/// What has to be done about the end of the heap after it was asked to move.
#[derive(Clone, Copy, PartialEq, Eq, Structural, Debug)]
pub enum Brk {
    /// Nothing was asked.
    Refused,
    /// The answer was not what was asked for: move it back to this address.
    RollBack(u64),
    /// The region has the size that was asked for.
    Granted,
}

/// The one region that a program takes from its heap.
#[derive(Clone, Copy, PartialEq, Eq, Structural, Debug)]
pub struct Region {
    /// Where it begins; zero where there is none.
    pub base: u64,
    /// Its size.
    pub length: usize,
}

impl Region {
    /// A region ends inside the address space, and none has no size.
    pub open spec fn wf(self) -> bool {
        &&& self.base + self.length <= u64::MAX
        &&& self.base == 0 ==> self.length == 0
    }

    /// No region.
    pub fn none() -> (r: Self)
        ensures
            r.wf(),
            r.base == 0,
    {
        Region { base: 0, length: 0 }
    }

    /// The address to ask for to reserve `size` bytes behind the present end of
    /// the heap, `current`; nothing where there is a region already or none can
    /// be had.
    pub fn reserve_target(&self, size: usize, current: i64) -> (r: Option<u64>)
        ensures
            r is Some <==> size > 0 && self.base == 0 && current > 0 && current + size <= u64::MAX,
            r matches Some(wanted) ==> wanted == current + size,
    {
        if size == 0 || self.base != 0 || current <= 0 {
            return None;
        }
        let base: u64 = current as u64;
        base.checked_add(size as u64)
    }

    /// Reserves `size` bytes, where the end of the heap was `current` and moved
    /// to `reached`.
    pub fn reserve(&mut self, size: usize, current: i64, reached: i64) -> (r: Brk)
        requires
            old(self).wf(),
        ensures
            final(self).wf(),
            ({
                let possible = size > 0 && old(self).base == 0 && current > 0 && current + size
                    <= u64::MAX;
                &&& r == (if !possible {
                    Brk::Refused
                } else if reached != current + size {
                    Brk::RollBack(current as u64)
                } else {
                    Brk::Granted
                })
                &&& *final(self) == (if r == Brk::Granted {
                    Region { base: current as u64, length: size }
                } else {
                    *old(self)
                })
            }),
    {
        match self.reserve_target(size, current) {
            None => Brk::Refused,
            Some(wanted) => {
                if reached < 0 || reached as u64 != wanted {
                    return Brk::RollBack(current as u64);
                }
                self.base = current as u64;
                self.length = size;
                Brk::Granted
            },
        }
    }

    /// The address to ask for to grow the region at `base` of `length` bytes to
    /// `size` bytes; nothing where that is not the region, or is not growing.
    pub fn grow_target(&self, base: u64, length: usize, size: usize) -> (r: Option<u64>)
        ensures
            r is Some <==> self.base != 0 && base == self.base && length == self.length && size
                > self.length && self.base + size <= u64::MAX,
            r matches Some(wanted) ==> wanted == self.base + size,
    {
        if self.base == 0 || base != self.base || length != self.length || size <= self.length {
            return None;
        }
        self.base.checked_add(size as u64)
    }

    /// Grows the region at `base` of `length` bytes to `size` bytes, where the
    /// end of the heap moved to `reached`. A region that does not grow keeps
    /// its size, and the end of the heap goes back to where it was.
    pub fn grow_to(&mut self, base: u64, length: usize, size: usize, reached: i64) -> (r: Brk)
        requires
            old(self).wf(),
        ensures
            final(self).wf(),
            ({
                let possible = old(self).base != 0 && base == old(self).base && length
                    == old(self).length && size > old(self).length && old(self).base + size
                    <= u64::MAX;
                &&& r == (if !possible {
                    Brk::Refused
                } else if reached != old(self).base + size {
                    Brk::RollBack((old(self).base + old(self).length) as u64)
                } else {
                    Brk::Granted
                })
                &&& *final(self) == (if r == Brk::Granted {
                    Region { base: old(self).base, length: size }
                } else {
                    *old(self)
                })
            }),
    {
        match self.grow_target(base, length, size) {
            None => Brk::Refused,
            Some(wanted) => {
                if reached < 0 || reached as u64 != wanted {
                    return Brk::RollBack(self.base + self.length as u64);
                }
                self.length = size;
                Brk::Granted
            },
        }
    }

    /// Gives the region at `base` back: the address to move the end of the heap
    /// to, where that is the region.
    pub fn release(&mut self, base: u64) -> (r: Option<u64>)
        requires
            old(self).wf(),
        ensures
            final(self).wf(),
            r == (if old(self).base != 0 && base == old(self).base {
                Some(base)
            } else {
                None
            }),
            *final(self) == (if r is Some {
                Region { base: 0, length: 0 }
            } else {
                *old(self)
            }),
    {
        if self.base == 0 || base != self.base {
            return None;
        }
        self.base = 0;
        self.length = 0;
        Some(base)
    }
}

/// A text is put on one line by leaving out its line feeds and carriage returns,
/// and nothing else; the rest keeps its order.
pub proof fn only_line_ends_are_left_out(a: Seq<u8>, b: Seq<u8>)
    ensures
        one_line(a + b) == one_line(a) + one_line(b),
        (forall|i: int| 0 <= i < a.len() ==> #[trigger] a[i] != 0x0a && a[i] != 0x0d) ==> one_line(
            a,
        ) == a,
        one_line(seq![0x0au8]).len() == 0,
        one_line(seq![0x0du8]).len() == 0,
    decreases b.len(),
{
    reveal_with_fuel(one_line, 2);
    assert(seq![0x0au8].drop_last() =~= Seq::<u8>::empty());
    assert(seq![0x0du8].drop_last() =~= Seq::<u8>::empty());
    if b.len() == 0 {
        assert(a + b =~= a);
        assert(one_line(a) + one_line(b) =~= one_line(a));
    } else {
        only_line_ends_are_left_out(a, b.drop_last());
        assert((a + b).drop_last() =~= a + b.drop_last());
        assert((a + b).last() == b.last());
        assert(one_line(a) + one_line(b.drop_last()).push(b.last()) =~= (one_line(a) + one_line(
            b.drop_last(),
        )).push(b.last()));
    }
    if forall|i: int| 0 <= i < a.len() ==> #[trigger] a[i] != 0x0a && a[i] != 0x0d {
        lemma_whole_line(a);
    }
}

proof fn lemma_whole_line(a: Seq<u8>)
    requires
        forall|i: int| 0 <= i < a.len() ==> #[trigger] a[i] != 0x0a && a[i] != 0x0d,
    ensures
        one_line(a) == a,
    decreases a.len(),
{
    if a.len() > 0 {
        let front = a.drop_last();
        assert forall|i: int| 0 <= i < front.len() implies #[trigger] front[i] != 0x0a && front[i]
            != 0x0d by {
            assert(front[i] == a[i]);
        }
        lemma_whole_line(front);
        assert(a.last() == a[a.len() - 1]);
        assert(front.push(a.last()) =~= a);
    }
}

/// A record tells its text: as many bytes as it says, and three dots behind them
/// where some were lost and there is room. A record without a text, and one that
/// the kernel did not fill in, tell nothing.
pub proof fn a_record_tells_its_text(answer: i64, raw: Seq<u8>, text: Seq<u8>)
    requires
        raw.len() == 256,
        le::field(raw, 0, 2) == text.len(),
        text.len() <= 252,
        raw.subrange(4, 4 + text.len() as int) == text,
        forall|i: int| 0 <= i < text.len() ==> #[trigger] text[i] != 0x0a && text[i] != 0x0d,
    ensures
        tells_line(answer, raw) <==> answer >= 0 && text.len() > 0,
        le::field(raw, 2, 2) == 0 ==> kept_text(raw) == text,
        le::field(raw, 2, 2) > 0 && text.len() <= 248 ==> kept_text(raw) == text + bytes::ascii(
            " ..."@,
        ),
        le::field(raw, 2, 2) > 0 && text.len() > 248 ==> kept_text(raw) == text,
{
    lemma_whole_line(text);
}

/// Writes send what they hold, one behind the other.
pub proof fn writes_send_what_they_hold(writes: Seq<Vec<u8>>, next: Vec<u8>)
    ensures
        stream(writes.push(next)) == stream(writes) + next@,
        stream(Seq::empty()).len() == 0,
{
    assert(writes.push(next).drop_last() =~= writes);
}

proof fn lemma_names_moved(a: Seq<u8>, b: Seq<u8>, at: int)
    requires
        0 <= at,
    ensures
        names_from(a + b, a.len() + at) == names_from(b, at),
    decreases b.len() - at,
{
    let whole = a + b;
    let moved = a.len() + at;
    if at + 19 <= b.len() {
        assert(whole.subrange(moved + 16, moved + 16 + 2) =~= b.subrange(at + 16, at + 16 + 2));
        let length = le::field(b, at + 16, 2);
        assert(le::field(whole, moved + 16, 2) == length);
        if 19 <= length && at + length <= b.len() {
            let short = b.take(at + length);
            let long = whole.take(moved + length);
            assert(long =~= a + short);
            bytes::lemma_first_at(short, 0, at + 19);
            let end = bytes::first_at(short, 0, at + 19);
            assert forall|i: int| moved + 19 <= i < a.len() + end implies long[i] != 0 by {
                assert(long[i] == short[i - a.len()]);
            }
            bytes::lemma_first_at_is(long, 0, moved + 19, a.len() + end);
            assert(whole.subrange(moved + 19, a.len() + end) =~= b.subrange(at + 19, end));
            lemma_names_moved(a, b, at + length);
        }
    }
}

/// Every record of a directory gives its name: what stands from its twentieth byte
/// to the zero, however long the record is. Then come the names of the records
/// behind it.
pub proof fn every_record_gives_its_name(record: Seq<u8>, name: Seq<u8>, rest: Seq<u8>)
    requires
        record.len() >= 19 + name.len() + 1,
        le::field(record, 16, 2) == record.len(),
        record.subrange(19, 19 + name.len() as int) == name,
        record[19 + name.len() as int] == 0,
        !name.contains(0),
    ensures
        names_from(record + rest, 0) == seq![name] + names_from(rest, 0),
        names_from(Seq::empty(), 0).len() == 0,
{
    let whole = record + rest;
    assert(whole.subrange(16, 18) =~= record.subrange(16, 18));
    let length = record.len() as int;
    assert(whole.take(length) =~= record);
    assert forall|i: int| 19 <= i < 19 + name.len() implies record[i] != 0 by {
        assert(record[i] == record.subrange(19, 19 + name.len() as int)[i - 19]);
        assert(name.contains(name[i - 19]));
    }
    bytes::lemma_first_at_is(record, 0, 19, 19 + name.len() as int);
    assert(whole.subrange(19, 19 + name.len() as int) =~= name);
    lemma_names_moved(record, rest, 0);
}

} // verus!
