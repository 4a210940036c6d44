//! The text that is shown: a file read whole, with an index of its lines.
use crate::bytes::{self, append, NEWLINE};
use crate::zi::buffer;
use vstd::prelude::*;

verus! {

/// The slots that the index starts with.
pub const INDEX_INITIAL: usize = 64;

/// Bytes in one slot of the index.
pub const WORD: usize = 8;

/// A file with a line feed supplied where its last line has none. A file with
/// nothing in it has no line.
pub open spec fn completed(file: Seq<u8>) -> Seq<u8> {
    if file.len() == 0 || file.last() == NEWLINE {
        file
    } else {
        file.push(NEWLINE)
    }
}

/// The lines of a file.
pub open spec fn lines_of(file: Seq<u8>) -> Seq<Seq<u8>> {
    buffer::lines_from(completed(file), 0)
}

/// A file that is being read.
pub struct Reading {
    file: Vec<u8>,
    text_cap: usize,
}

/// The text capacity for a file of `size` bytes: one line feed more than that,
/// for a last line that has none. A file whose size is not known gets the room of
/// an empty one.
pub open spec fn room_for(size: Result<u64, i64>) -> int {
    match size {
        Ok(size) => size + 1,
        Err(_) => 1,
    }
}

impl Reading {
    /// What was read so far.
    pub closed spec fn view(&self) -> Seq<u8> {
        self.file@
    }

    /// The bytes that fit, the line feed that may be supplied among them.
    pub closed spec fn room(&self) -> int {
        self.text_cap as int
    }

    /// What was read fits, with a line feed more, and so does the smallest index
    /// behind it.
    pub open spec fn wf(&self) -> bool {
        &&& self@.len() < self.room()
        &&& self.room() + INDEX_INITIAL * WORD <= usize::MAX
    }

    /// Nothing read yet of a file whose size the kernel gave.
    pub fn new(size: Result<u64, i64>) -> (r: Self)
        requires
            room_for(size) + INDEX_INITIAL * WORD <= usize::MAX,
        ensures
            r.wf(),
            r@ == Seq::<u8>::empty(),
            r.room() == room_for(size),
    {
        let text_cap: usize = match size {
            Ok(size) => size as usize + 1,
            Err(_) => 1,
        };
        Reading { file: Vec::new(), text_cap }
    }

    /// The memory to ask for before anything is read.
    pub fn region(&self) -> (r: usize)
        requires
            self.wf(),
        ensures
            r == self.room() + INDEX_INITIAL * WORD,
    {
        self.text_cap + INDEX_INITIAL * WORD
    }

    /// Takes `chunk` in. False, and nothing taken, where the file turns out to
    /// be longer than was said.
    pub fn accept(&mut self, chunk: &[u8]) -> (ok: bool)
        requires
            old(self).wf(),
        ensures
            final(self).wf(),
            final(self).room() == old(self).room(),
            ok == (old(self)@.len() + chunk@.len() < old(self).room()),
            final(self)@ == (if ok {
                old(self)@ + chunk@
            } else {
                old(self)@
            }),
    {
        if chunk.len() >= self.text_cap - self.file.len() {
            return false;
        }
        append(&mut self.file, chunk);
        true
    }

    /// The memory to ask for before the index is built, where its slots do not
    /// fit what there is: one slot for each line, and one for the end.
    pub fn growth(&self) -> (r: Option<usize>)
        requires
            self.wf(),
            self.room() + (lines_of(self@).len() + 1) * WORD <= usize::MAX,
        ensures
            r is Some <==> lines_of(self@).len() + 1 > INDEX_INITIAL,
            r matches Some(total) ==> total == self.room() + (lines_of(self@).len() + 1) * WORD,
    {
        let lines: usize = count_lines(self.file.as_slice());
        if lines + 1 > INDEX_INITIAL {
            Some(self.text_cap + (lines + 1) * WORD)
        } else {
            None
        }
    }
}

/// A text with the index of its lines: where each line begins, and where the
/// text ends.
pub struct Doc {
    text: Vec<u8>,
    starts: Vec<usize>,
}

impl Doc {
    /// The lines.
    pub closed spec fn view(&self) -> Seq<Seq<u8>> {
        Seq::new(
            (self.starts@.len() - 1) as nat,
            |row: int|
                self.text@.subrange(self.starts@[row] as int, self.starts@[row + 1] - 1),
        )
    }

    /// The index goes up, and a line feed stands before every slot but the
    /// first.
    pub closed spec fn wf(&self) -> bool {
        &&& self.starts@.len() >= 1
        &&& self.starts@[0] == 0
        &&& self.starts@.last() == self.text@.len()
        &&& forall|i: int, j: int|
            0 <= i < j < self.starts@.len() ==> self.starts@[i] < self.starts@[j]
        &&& forall|i: int|
            0 < i < self.starts@.len() ==> self.text@[#[trigger] self.starts@[i] - 1] == NEWLINE
    }

    /// How many lines there are.
    pub fn count(&self) -> (r: usize)
        requires
            self.wf(),
        ensures
            r == self@.len(),
            r < usize::MAX,
    {
        self.starts.len() - 1
    }

    /// The line `line`, without its line feed; nothing behind the last line.
    pub fn line(&self, line: usize) -> (r: &[u8])
        requires
            self.wf(),
        ensures
            r@ == (if line < self@.len() {
                self@[line as int]
            } else {
                Seq::empty()
            }),
    {
        if line >= self.starts.len() - 1 {
            return &self.text[0..0];
        }
        let start: usize = self.starts[line];
        let end: usize = self.starts[line + 1];
        assert(start < end);
        assert(end <= self.text@.len()) by {
            if line + 1 < self.starts@.len() - 1 {
                assert(self.starts@[line + 1] < self.starts@[self.starts@.len() - 1]);
            }
        }
        &self.text[start..end - 1]
    }
}

/// The line that a line feed ends, and those behind it.
proof fn lemma_lines_step(text: Seq<u8>, from: int, at: int)
    requires
        0 <= from <= at < text.len(),
        text[at] == NEWLINE,
        forall|i: int| from <= i < at ==> text[i] != NEWLINE,
    ensures
        buffer::lines_from(text, from) == seq![text.subrange(from, at)] + buffer::lines_from(
            text,
            at + 1,
        ),
{
    bytes::lemma_first_at_is(text, NEWLINE, from, at);
}

/// How many lines a file has.
fn count_lines(file: &[u8]) -> (r: usize)
    requires
        lines_of(file@).len() <= usize::MAX,
    ensures
        r == lines_of(file@).len(),
{
    let mut count: usize = 0;
    let mut at: usize = 0;
    let ghost text = completed(file@);
    let ghost mut from: int = 0;
    let total: usize = file.len();
    while at < total
        invariant
            total == file@.len(),
            at <= total,
            text == completed(file@),
            0 <= from <= at,
            count <= at,
            forall|i: int| from <= i < at ==> file@[i] != NEWLINE,
            from < at ==> file@[at - 1] != NEWLINE,
            from == at && at > 0 ==> file@[at - 1] == NEWLINE,
            lines_of(file@).len() == count + buffer::lines_from(text, from).len(),
        decreases total - at,
    {
        if file[at] == NEWLINE {
            proof {
                lemma_lines_step(text, from, at as int);
                from = at + 1;
            }
            count += 1;
        }
        at += 1;
    }
    if total > 0 && file[total - 1] != NEWLINE {
        proof {
            lemma_lines_step(text, from, total as int);
        }
        count += 1;
    }
    count
}

/// Ends the reading: supplies a line feed where the last line has none and
/// builds the index. Nothing where the index does not fit and `granted` does
/// not give it the memory.
pub fn index_lines(reading: Reading, granted: bool) -> (r: Option<Doc>)
    requires
        reading.wf(),
        reading.room() + (lines_of(reading@).len() + 1) * WORD <= usize::MAX,
    ensures
        r is Some <==> granted || lines_of(reading@).len() + 1 <= INDEX_INITIAL,
        r matches Some(doc) ==> doc.wf() && doc@ == lines_of(reading@),
{
    if reading.growth().is_some() && !granted {
        return None;
    }
    let ghost file = reading@;
    let mut text = reading.file;
    let length: usize = text.len();
    if length > 0 && text[length - 1] != NEWLINE {
        text.push(NEWLINE);
    }
    assert(text@ =~= completed(file));
    let mut starts: Vec<usize> = Vec::new();
    starts.push(0);
    let mut at: usize = 0;
    let total: usize = text.len();
    let ghost whole = buffer::lines_from(text@, 0);
    let ghost mut found: Seq<Seq<u8>> = Seq::empty();
    assert(found + whole =~= whole);
    while at < total
        invariant
            total == text@.len(),
            at <= total,
            1 <= starts@.len(),
            found.len() == starts@.len() - 1,
            starts@[0] == 0,
            starts@.last() <= at,
            forall|i: int| starts@.last() <= i < at ==> text@[i] != NEWLINE,
            starts@.last() < at ==> text@[at - 1] != NEWLINE,
            forall|i: int, j: int| 0 <= i < j < starts@.len() ==> starts@[i] < starts@[j],
            forall|i: int|
                0 < i < starts@.len() ==> text@[#[trigger] starts@[i] - 1] == NEWLINE,
            forall|r: int|
                0 <= r < found.len() ==> #[trigger] found[r] == text@.subrange(
                    starts@[r] as int,
                    starts@[r + 1] - 1,
                ),
            whole == found + buffer::lines_from(text@, starts@.last() as int),
        decreases total - at,
    {
        if text[at] == NEWLINE {
            let ghost from = starts@.last() as int;
            proof {
                lemma_lines_step(text@, from, at as int);
                let line = text@.subrange(from, at as int);
                assert(found + (seq![line] + buffer::lines_from(text@, at + 1)) =~= found.push(line)
                    + buffer::lines_from(text@, at + 1));
                found = found.push(line);
            }
            starts.push(at + 1);
        }
        at += 1;
    }
    assert(starts@.last() == total);
    assert(buffer::lines_from(text@, total as int) =~= Seq::<Seq<u8>>::empty());
    let doc = Doc { text, starts };
    assert(doc@ =~= whole);
    Some(doc)
}

/// The lines are the whole file: put together again, each with a line feed behind
/// it, they are the file, with a line feed supplied where its last line has none.
/// A file with nothing in it has no line.
pub proof fn the_lines_are_the_file(file: Seq<u8>)
    ensures
        file.len() == 0 ==> lines_of(file).len() == 0,
        file.len() > 0 ==> buffer::flat(lines_of(file)) == (if file.last() == NEWLINE {
            file
        } else {
            file.push(NEWLINE)
        }),
        buffer::clean(lines_of(file)),
{
    if file.len() > 0 {
        buffer::a_last_line_may_lack_its_line_feed(file);
        buffer::opened_file_saves_back(file);
    } else {
        assert(completed(file) =~= Seq::<u8>::empty());
    }
}

/// The room for a file is its size and one byte for a line feed.
pub proof fn the_room_is_one_byte_more(size: u64, error: i64)
    ensures
        room_for(Ok::<u64, i64>(size)) == size + 1,
        room_for(Err::<u64, i64>(error)) == 1,
{
}

} // verus!
