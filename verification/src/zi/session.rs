//! Opening and saving a file, and the lines that report on it.
use crate::bytes::{self, append, bytes_of, push_str, NEWLINE};
use crate::chars;
use crate::decimal::{self, push_number};
use crate::zi::buffer::{self, Grants};
use crate::zi::draw::Mode;
use crate::zi::editor::{self, Direction, Escape, Message, Model, Outcome};
use vstd::prelude::*;

verus! {

/// The most bytes of a path, its zero byte included.
pub const PATH_MAX: usize = 256;

/// The bytes asked for by one read.
pub const CHUNK: usize = 256;

/// The exit status after a normal end.
pub const DONE: u64 = 0;

/// The exit status where the file cannot be opened.
pub const CANNOT_OPEN: u64 = 1;

/// The exit status where no file was named.
pub const NO_ARGUMENT: u64 = 2;

/// The exit status where the file cannot be read.
pub const CANNOT_READ: u64 = 3;

/// The exit status where memory ran out while reading.
pub const OUT_OF_MEMORY: u64 = 4;

/// The exit status where no memory could be reserved.
pub const NO_HEAP: u64 = 6;

/// What the answer to opening a file means.
#[derive(Clone, Copy, PartialEq, Eq, Structural, Debug)]
pub enum Opened {
    /// There is no such file: start with an empty text.
    Absent,
    /// The file cannot be opened.
    Refused,
    /// The file, by its descriptor.
    Descriptor(u64),
}

/// What the answer to opening the file means. A file that does not exist is a
/// new one.
pub open spec fn opening(answer: i64) -> Opened {
    if answer == -2 {
        Opened::Absent
    } else if answer < 0 {
        Opened::Refused
    } else {
        Opened::Descriptor(answer as u64)
    }
}

/// Reads the answer to opening the file.
pub fn opened(answer: i64) -> (r: Opened)
    ensures
        r == opening(answer),
{
    if answer == -2 {
        Opened::Absent
    } else if answer < 0 {
        Opened::Refused
    } else {
        Opened::Descriptor(answer as u64)
    }
}

/// The line that the exit status `status` is told with.
pub fn farewell(status: u64) -> (r: Vec<u8>)
    ensures
        r@ == (if status == CANNOT_OPEN {
            bytes::ascii("zi: cannot open\n"@)
        } else if status == NO_ARGUMENT {
            bytes::ascii("zi: usage: zi PATH\n"@)
        } else if status == CANNOT_READ {
            bytes::ascii("zi: cannot read\n"@)
        } else if status == OUT_OF_MEMORY {
            bytes::ascii("zi: ran out of memory while reading the file\n"@)
        } else if status == NO_HEAP {
            bytes::ascii("zi: cannot reserve memory for the edit buffer\n"@)
        } else {
            Seq::empty()
        }),
{
    proof {
        reveal_strlit("zi: cannot open\n");
        reveal_strlit("zi: usage: zi PATH\n");
        reveal_strlit("zi: cannot read\n");
        reveal_strlit("zi: ran out of memory while reading the file\n");
        reveal_strlit("zi: cannot reserve memory for the edit buffer\n");
    }
    if status == CANNOT_OPEN {
        bytes_of("zi: cannot open\n")
    } else if status == NO_ARGUMENT {
        bytes_of("zi: usage: zi PATH\n")
    } else if status == CANNOT_READ {
        bytes_of("zi: cannot read\n")
    } else if status == OUT_OF_MEMORY {
        bytes_of("zi: ran out of memory while reading the file\n")
    } else if status == NO_HEAP {
        bytes_of("zi: cannot reserve memory for the edit buffer\n")
    } else {
        Vec::new()
    }
}

/// Whether a save succeeded, and what the user is told where it did not.
pub struct Saved {
    pub ok: bool,
    pub error: Vec<u8>,
}

/// Judges a save of `requested` bytes by what opening, writing and closing
/// answered. Where the file could not be opened, nothing was written or closed
/// and those answers do not count.
pub fn save(requested: usize, opened: i64, written: i64, closed: i64) -> (r: Saved)
    ensures
        r.ok == (opened >= 0 && written == requested && closed >= 0),
        r.error@ == (if opened < 0 {
            bytes::ascii("zi: cannot open for writing\n"@)
        } else if closed < 0 {
            bytes::ascii("zi: saved to memory but not to the disk\n"@)
        } else {
            Seq::empty()
        }),
{
    proof {
        reveal_strlit("zi: cannot open for writing\n");
        reveal_strlit("zi: saved to memory but not to the disk\n");
    }
    if opened < 0 {
        return Saved { ok: false, error: bytes_of("zi: cannot open for writing\n") };
    }
    let error = if closed < 0 {
        bytes_of("zi: saved to memory but not to the disk\n")
    } else {
        Vec::new()
    };
    Saved { ok: written as i128 == requested as i128 && closed >= 0, error }
}

/// The most bytes of a report.
pub const REPORT: usize = 96;

/// A report of the cursor, without the tag that ends it.
pub open spec fn cursor_head(row: int, col: int, count: int, top: int) -> Seq<u8> {
    bytes::ascii("zi: cursor (buffer state, not the screen) row="@) + decimal::digits(row as nat)
        + bytes::ascii(" col="@) + decimal::digits(col as nat) + bytes::ascii(" lines="@)
        + decimal::digits(count as nat) + bytes::ascii(" top="@) + decimal::digits(top as nat)
        + bytes::ascii(" "@)
}

/// The line that reports the cursor, with as much of the tag as fits. There is
/// room for the numbers and the line feed.
pub fn report_cursor(row: usize, col: usize, count: usize, top: usize, tag: &[u8]) -> (r: Vec<u8>)
    requires
        cursor_head(row as int, col as int, count as int, top as int).len() < REPORT,
    ensures
        ({
            let head = cursor_head(row as int, col as int, count as int, top as int);
            let room = REPORT - head.len() - 1;
            r@ == head + (if tag@.len() <= room {
                tag@
            } else {
                tag@.take(room as int)
            }) + seq![NEWLINE]
        }),
        r@.len() <= REPORT,
{
    proof {
        reveal_strlit("zi: cursor (buffer state, not the screen) row=");
        reveal_strlit(" col=");
        reveal_strlit(" lines=");
        reveal_strlit(" top=");
        reveal_strlit(" ");
    }
    let mut out: Vec<u8> = Vec::new();
    push_str(&mut out, "zi: cursor (buffer state, not the screen) row=");
    push_number(&mut out, row as u64);
    push_str(&mut out, " col=");
    push_number(&mut out, col as u64);
    push_str(&mut out, " lines=");
    push_number(&mut out, count as u64);
    push_str(&mut out, " top=");
    push_number(&mut out, top as u64);
    push_str(&mut out, " ");
    assert(out@ =~= cursor_head(row as int, col as int, count as int, top as int));
    let room: usize = REPORT - out.len() - 1;
    let take: usize = if tag.len() <= room {
        tag.len()
    } else {
        room
    };
    append(&mut out, &tag[0..take]);
    assert(tag@.subrange(0, take as int) =~= (if tag@.len() <= room {
        tag@
    } else {
        tag@.take(room as int)
    }));
    out.push(NEWLINE);
    out
}

/// The line that reports a save: what was asked for, what was written, and
/// whether all is well.
pub fn report_save(requested: usize, written: i64, ok: bool) -> (r: Vec<u8>)
    ensures
        r@ == bytes::ascii("zi: saved bytes requested="@) + decimal::digits(requested as nat)
            + bytes::ascii(" written="@) + decimal::signed(written as int) + (if ok {
            bytes::ascii(" match=true\n"@)
        } else {
            bytes::ascii(" match=false\n"@)
        }),
{
    proof {
        reveal_strlit("zi: saved bytes requested=");
        reveal_strlit(" written=");
        reveal_strlit(" match=true\n");
        reveal_strlit(" match=false\n");
    }
    let mut out: Vec<u8> = Vec::new();
    push_str(&mut out, "zi: saved bytes requested=");
    push_number(&mut out, requested as u64);
    push_str(&mut out, " written=");
    crate::decimal::push_signed(&mut out, written);
    if ok {
        push_str(&mut out, " match=true\n");
    } else {
        push_str(&mut out, " match=false\n");
    }
    assert(out@ =~= bytes::ascii("zi: saved bytes requested="@) + decimal::digits(requested as nat)
        + bytes::ascii(" written="@) + decimal::signed(written as int) + (if ok {
        bytes::ascii(" match=true\n"@)
    } else {
        bytes::ascii(" match=false\n"@)
    }));
    out
}

/// The line that reports the size of the screen; a size that could not be had
/// is reported as zero.
pub fn report_window_size(size: Option<(u16, u16)>) -> (r: Vec<u8>)
    ensures
        ({
            let (rows, columns) = match size {
                Some(pair) => (pair.0 as nat, pair.1 as nat),
                None => (0nat, 0nat),
            };
            r@ == bytes::ascii("zi: winsize rows="@) + decimal::digits(rows) + bytes::ascii(
                " columns="@,
            ) + decimal::digits(columns) + seq![NEWLINE]
        }),
{
    proof {
        reveal_strlit("zi: winsize rows=");
        reveal_strlit(" columns=");
    }
    let (rows, columns): (u16, u16) = match size {
        Some(pair) => pair,
        None => (0, 0),
    };
    let mut out: Vec<u8> = Vec::new();
    push_str(&mut out, "zi: winsize rows=");
    push_number(&mut out, rows as u64);
    push_str(&mut out, " columns=");
    push_number(&mut out, columns as u64);
    out.push(NEWLINE);
    assert(out@ =~= bytes::ascii("zi: winsize rows="@) + decimal::digits(rows as nat)
        + bytes::ascii(" columns="@) + decimal::digits(columns as nat) + seq![NEWLINE]);
    out
}

/// Moving the cursor never changes the text, nor leaves it.
pub proof fn moving_keeps_the_text(model: Model, direction: Direction)
    requires
        model.wf(),
    ensures
        model.moved(direction).lines == model.lines,
        model.moved(direction).dirty == model.dirty,
        model.moved(direction).wf(),
{
    editor::lemma_moved(model, direction);
}

/// A byte that begins a character, typed while inserting and erased again, leaves
/// the text and the cursor as they were.
pub proof fn erasing_undoes_typing(model: Model, rows: int, path: Seq<u8>, byte: u8, grants: Grants)
    requires
        model.wf(),
        model.mode == Mode::Insert,
        byte != bytes::NEWLINE,
        byte != bytes::BACKSPACE,
        !chars::goes_on(byte),
        model.col < model.line().len() ==> !chars::goes_on(model.line()[model.col]),
        buffer::text_fits(model.text_room, model.index_room, model.size() + 1, grants.text),
    ensures
        ({
            let typed = model.typed(rows, path, byte, grants).model;
            let erased = typed.typed(rows, path, bytes::BACKSPACE, grants).model;
            erased.lines == model.lines && erased.row == model.row && erased.col == model.col
        }),
{
    reveal(Model::typed);
    let typed = model.typed(rows, path, byte, grants).model;
    let line = model.line().insert(model.col, byte);
    assert(typed.line() == line);
    assert(model.col + 1 < line.len() ==> line[model.col + 1] == model.line()[model.col]);
    assert(chars::between(line, model.col + 1));
    assert(line[model.col] == byte);
    assert(chars::left_of(line, model.col + 1) == model.col);
    assert(chars::without(line, model.col, model.col + 1) =~= model.line());
    assert(typed.lines.update(model.row, model.line()) =~= model.lines);
}

/// A line split while inserting and joined again leaves the text and the cursor
/// as they were.
pub proof fn erasing_undoes_enter(model: Model, rows: int, path: Seq<u8>, grants: Grants)
    requires
        model.wf(),
        model.mode == Mode::Insert,
        model.enter(rows, path, grants).changed,
    ensures
        ({
            let split = model.typed(rows, path, bytes::NEWLINE, grants).model;
            let joined = split.typed(rows, path, bytes::BACKSPACE, grants).model;
            joined.lines == model.lines && joined.row == model.row && joined.col == model.col
        }),
{
    reveal(Model::typed);
    let split = model.typed(rows, path, bytes::NEWLINE, grants).model;
    buffer::joining_undoes_splitting(model.lines, model.row, model.col);
    assert(split.lines == buffer::split_at(model.lines, model.row, model.col));
    assert(split.lines[model.row] == model.line().take(model.col));
}

/// An escape gives a command up: when nothing follows it, what was typed of the
/// command is dropped and the editor is back in normal mode, with the text as it
/// was.
pub proof fn an_escape_gives_a_command_up(model: Model, rows: int, path: Seq<u8>, grants: Grants)
    requires
        model.mode == Mode::Command,
        model.escape == Escape::Idle,
    ensures
        ({
            let after = model.key(rows, path, bytes::ESC, grants).model.paused(rows, path).model;
            after == (Model {
                mode: Mode::Normal,
                shown: Mode::Normal,
                command: Seq::empty(),
                ..model
            })
        }),
{
}

/// An escape swallows nothing: a byte right behind it that begins no sequence does
/// what it does when it comes later.
pub proof fn an_escape_swallows_nothing(
    model: Model,
    rows: int,
    path: Seq<u8>,
    byte: u8,
    grants: Grants,
)
    requires
        model.escape == Escape::Idle,
        byte != '[' as u8,
    ensures
        ({
            let waiting = model.key(rows, path, bytes::ESC, grants).model;
            let at_once = waiting.key(rows, path, byte, grants);
            let pause = waiting.paused(rows, path);
            let later = pause.model.key(rows, path, byte, grants);
            &&& at_once.model == later.model
            &&& at_once.drawn == pause.drawn + later.drawn
            &&& waiting.outcome(byte) == pause.model.outcome(byte)
        }),
{
    let waiting = model.key(rows, path, bytes::ESC, grants).model;
    let pause = waiting.paused(rows, path);
    assert(pause.drawn + Seq::<u8>::empty() =~= pause.drawn);
}

/// The editor ends on `:q` only where nothing is unsaved; `:wq` ends it only
/// through a save.
pub proof fn quitting_loses_nothing(model: Model, byte: u8)
    ensures
        model.outcome(byte) == Outcome::Quit ==> !model.dirty,
{
}

proof fn lemma_typed_tells(model: Model, rows: int, path: Seq<u8>, byte: u8, grants: Grants)
    requires
        model.wf(),
    ensures
        ({
            let effect = model.typed(rows, path, byte, grants);
            effect.changed || effect.model.lines == model.lines
        }),
{
    reveal(Model::typed);
}

/// A key that changes the text marks it as changed, so that it is not left
/// behind.
pub proof fn changing_marks_the_text(
    model: Model,
    rows: int,
    path: Seq<u8>,
    byte: u8,
    grants: Grants,
)
    requires
        model.wf(),
    ensures
        ({
            let after = model.key(rows, path, byte, grants).model;
            after.lines != model.lines ==> after.dirty
        }),
{
    lemma_typed_tells(model, rows, path, byte, grants);
    let ready = Model { escape: Escape::Idle, ..model };
    chars::lemma_left_of(model.line(), model.col);
    lemma_typed_tells(ready.lone_escape(rows, path).model, rows, path, byte, grants);
}

/// Whether the editor knows what is not on the disk: where the text is not
/// marked as changed, the disk has it.
pub open spec fn known(model: Model, disk: Seq<Seq<u8>>) -> bool {
    model.dirty || model.lines == disk
}

/// The editor always knows what is not on the disk, whatever is typed, and it
/// ends without a save only where the disk has the text.
pub proof fn unsaved_text_is_never_left(
    model: Model,
    disk: Seq<Seq<u8>>,
    rows: int,
    path: Seq<u8>,
    byte: u8,
    grants: Grants,
)
    requires
        model.wf(),
        known(model, disk),
    ensures
        known(model.key(rows, path, byte, grants).model, disk),
        model.outcome(byte) == Outcome::Quit ==> model.lines == disk,
{
    changing_marks_the_text(model, rows, path, byte, grants);
    lemma_mark_stays(model, rows, path, byte, grants);
}

proof fn lemma_typed_keeps_mark(model: Model, rows: int, path: Seq<u8>, byte: u8, grants: Grants)
    ensures
        model.typed(rows, path, byte, grants).model.dirty == model.dirty,
{
    reveal(Model::typed);
}

/// No key takes the mark away; only a save does.
proof fn lemma_mark_stays(model: Model, rows: int, path: Seq<u8>, byte: u8, grants: Grants)
    ensures
        model.dirty ==> model.key(rows, path, byte, grants).model.dirty,
{
    lemma_typed_keeps_mark(model, rows, path, byte, grants);
    let ready = Model { escape: Escape::Idle, ..model };
    lemma_typed_keeps_mark(ready.lone_escape(rows, path).model, rows, path, byte, grants);
}

/// After a save that succeeded the disk has the text, and after one that failed
/// the text is still there, marked as it was.
pub proof fn a_save_keeps_the_text(
    model: Model,
    rows: int,
    path: Seq<u8>,
    message: Message,
    ok: bool,
)
    ensures
        ({
            let after = model.concluded(rows, path, message, ok).model;
            &&& after.lines == model.lines
            &&& ok ==> known(after, model.lines)
            &&& !ok ==> after.dirty == model.dirty
        }),
{
}

/// A file is opened by what the kernel answers: a descriptor is one, a file that
/// is not there is a new one, and anything else is refused.
pub proof fn the_answer_tells_the_file(answer: i64)
    ensures
        answer >= 0 ==> opening(answer) == Opened::Descriptor(answer as u64),
        answer == -2 ==> opening(answer) == Opened::Absent,
        answer < 0 && answer != -2 ==> opening(answer) == Opened::Refused,
{
}

/// A report of the cursor tells the row, the column, how many lines there are and
/// the first line of the window, in this order.
pub proof fn a_report_tells_the_cursor(row: nat, col: nat, count: nat, top: nat)
    ensures
        cursor_head(row as int, col as int, count as int, top as int) == bytes::ascii(
            "zi: cursor (buffer state, not the screen) row="@,
        ) + decimal::digits(row) + bytes::ascii(" col="@) + decimal::digits(col) + bytes::ascii(
            " lines="@,
        ) + decimal::digits(count) + bytes::ascii(" top="@) + decimal::digits(top) + bytes::ascii(
            " "@,
        ),
{
}

} // verus!
