//! The row of the screen that shows the line. What the editor of the line
//! writes keeps the row showing the line, with the terminal's cursor where the
//! editor's is. This is said of lines whose bytes stand for themselves: a
//! character of more than one byte may have fewer cells than bytes.
use crate::bytes::{self, BACKSPACE, NEWLINE, SPACE};
use crate::chars;
use crate::terminal;
use crate::zash::edit::{self, Effect, Escape, Model};
use crate::zash::expand::LINE_MAX;
use vstd::prelude::*;

verus! {

/// The cells behind the prompt, and where the terminal's cursor is.
pub struct Row {
    pub cells: Seq<u8>,
    pub at: int,
}

/// One byte on the screen: a backspace moves to the left, a byte that stands for
/// itself is written over what is there.
pub open spec fn after_byte(row: Row, byte: u8) -> Row {
    if byte == BACKSPACE {
        Row { at: row.at - 1, ..row }
    } else {
        Row { cells: row.cells.update(row.at, byte), at: row.at + 1 }
    }
}

/// Bytes on the screen, one after the other.
pub open spec fn after(row: Row, written: Seq<u8>) -> Row
    decreases written.len(),
{
    if written.len() == 0 {
        row
    } else {
        after(after_byte(row, written[0]), written.skip(1))
    }
}

/// Whether a row shows a line: the line, spaces behind it, and the cursor.
pub open spec fn shows(row: Row, model: Model) -> bool {
    &&& row.at == model.cursor
    &&& row.cells.len() >= LINE_MAX
    &&& forall|i: int|
        0 <= i < row.cells.len() ==> #[trigger] row.cells[i] == (if i < model.line.len() {
            model.line[i]
        } else {
            SPACE
        })
}

/// Whether every line that can be shown has one cell for each of its bytes.
pub open spec fn cell_by_byte(model: Model) -> bool {
    &&& terminal::all_printable(model.line)
    &&& terminal::all_printable(model.saved)
    &&& forall|i: int|
        0 <= i < model.history.len() ==> terminal::all_printable(#[trigger] model.history[i])
}

/// Whether a byte is a control byte or has a cell of its own.
pub open spec fn control_or_cell(byte: u8) -> bool {
    byte < 0x20 || terminal::printable(byte)
}

proof fn lemma_after_two(row: Row, a: Seq<u8>, b: Seq<u8>)
    ensures
        after(row, a + b) == after(after(row, a), b),
    decreases a.len(),
{
    if a.len() == 0 {
        assert(a + b =~= b);
    } else {
        assert((a + b).skip(1) =~= a.skip(1) + b);
        lemma_after_two(after_byte(row, a[0]), a.skip(1), b);
    }
}

proof fn lemma_after_back(row: Row, count: int)
    requires
        count >= 0,
    ensures
        after(row, bytes::repeated(BACKSPACE, count)) == (Row { at: row.at - count, ..row }),
    decreases count,
{
    let back = bytes::repeated(BACKSPACE, count);
    if count > 0 {
        assert(back.skip(1) =~= bytes::repeated(BACKSPACE, count - 1));
        lemma_after_back(after_byte(row, BACKSPACE), count - 1);
    }
}

proof fn lemma_after_text(row: Row, text: Seq<u8>)
    requires
        0 <= row.at,
        row.at + text.len() <= row.cells.len(),
        forall|i: int| 0 <= i < text.len() ==> #[trigger] text[i] >= 0x20,
    ensures
        after(row, text) == (Row {
            cells: Seq::new(
                row.cells.len(),
                |i: int|
                    if row.at <= i < row.at + text.len() {
                        text[i - row.at]
                    } else {
                        row.cells[i]
                    },
            ),
            at: row.at + text.len(),
        }),
    decreases text.len(),
{
    let want = Seq::new(
        row.cells.len(),
        |i: int|
            if row.at <= i < row.at + text.len() {
                text[i - row.at]
            } else {
                row.cells[i]
            },
    );
    if text.len() == 0 {
        assert(want =~= row.cells);
    } else {
        assert(text[0] >= 0x20);
        let rest = text.skip(1);
        assert forall|i: int| 0 <= i < rest.len() implies #[trigger] rest[i] >= 0x20 by {
            assert(rest[i] == text[i + 1]);
        }
        let next = after_byte(row, text[0]);
        lemma_after_text(next, rest);
        assert(after(next, rest).cells =~= want);
    }
}

proof fn lemma_moves(row: Row, model: Model)
    requires
        model.wf(),
        shows(row, model),
    ensures
        shows(after(row, model.left().shown), model.left().model),
        shows(after(row, model.right().shown), model.right().model),
        shows(after(row, model.to_start().shown), model.to_start().model),
        shows(after(row, model.to_end().shown), model.to_end().model),
        shows(after(row, Seq::empty()), model),
{
    let cursor = model.cursor;
    let left = chars::left_of(model.line, cursor);
    let right = chars::right_of(model.line, cursor);
    chars::lemma_left_of(model.line, cursor);
    chars::lemma_right_of(model.line, cursor);
    lemma_after_back(row, cursor);
    lemma_after_back(row, cursor - left);
    lemma_after_text(row, model.line.skip(cursor));
    lemma_after_text(row, model.line.subrange(cursor, right));
}

proof fn lemma_delete(row: Row, model: Model, start: int, end: int)
    requires
        model.wf(),
        shows(row, model),
        0 <= start <= model.cursor,
    ensures
        shows(after(row, model.delete(start, end).shown), model.delete(start, end).model),
{
    if start < end && end <= model.line.len() {
        let from = chars::at_or_before(model.line, start);
        let to = chars::at_or_behind(model.line, end);
        chars::lemma_at_or_before(model.line, start);
        chars::lemma_at_or_behind(model.line, end);
        let line = chars::without(model.line, from, to);
        let removed = to - from;
        let tail = line.skip(from);
        let a = bytes::repeated(BACKSPACE, model.cursor - from);
        let c = bytes::repeated(SPACE, removed);
        let d = bytes::repeated(BACKSPACE, line.len() - from + removed);
        lemma_after_two(row, a + tail + c, d);
        lemma_after_two(row, a + tail, c);
        lemma_after_two(row, a, tail);
        lemma_after_back(row, model.cursor - from);
        let r1 = after(row, a);
        lemma_after_text(r1, tail);
        let r2 = after(r1, tail);
        lemma_after_text(r2, c);
        let r3 = after(r2, c);
        lemma_after_back(r3, line.len() - from + removed);
    }
}

proof fn lemma_put(row: Row, model: Model, byte: u8)
    requires
        model.wf(),
        shows(row, model),
        byte >= 0x20,
    ensures
        shows(after(row, model.put(byte).shown), model.put(byte).model),
{
    if model.line.len() + 1 < LINE_MAX {
        let line = model.line.insert(model.cursor, byte);
        let tail = line.skip(model.cursor + 1);
        let cursor = chars::at_or_behind(line, model.cursor + 1);
        chars::lemma_at_or_behind(line, model.cursor + 1);
        let back = bytes::repeated(BACKSPACE, line.len() - cursor);
        lemma_after_two(row, seq![byte] + tail, back);
        lemma_after_two(row, seq![byte], tail);
        lemma_after_text(row, seq![byte]);
        let r1 = after(row, seq![byte]);
        assert forall|i: int| 0 <= i < tail.len() implies #[trigger] tail[i] >= 0x20 by {
            assert(tail[i] == model.line[model.cursor + i]);
        }
        lemma_after_text(r1, tail);
        lemma_after_back(after(r1, tail), line.len() - cursor);
    }
}

proof fn lemma_replace(row: Row, model: Model, line: Seq<u8>)
    requires
        model.wf(),
        shows(row, model),
        edit::typeable(line),
    ensures
        shows(after(row, model.replace(line).shown), model.replace(line).model),
{
    let old_len = model.line.len() as int;
    let end = model.line.skip(model.cursor);
    let back = bytes::repeated(BACKSPACE, old_len);
    let blank = bytes::repeated(SPACE, old_len);
    lemma_after_two(row, end + back + blank + back, line);
    lemma_after_two(row, end + back + blank, back);
    lemma_after_two(row, end + back, blank);
    lemma_after_two(row, end, back);
    lemma_after_text(row, end);
    let r1 = after(row, end);
    lemma_after_back(r1, old_len);
    let r2 = after(r1, back);
    lemma_after_text(r2, blank);
    let r3 = after(r2, blank);
    lemma_after_back(r3, old_len);
    let r4 = after(r3, back);
    lemma_after_text(r4, line);
}

/// Whether a row shows the line after what a key does.
#[verifier::opaque]
spec fn kept(row: Row, effect: Effect) -> bool {
    shows(after(row, effect.shown), effect.model)
}

proof fn lemma_moves_kept(row: Row, model: Model)
    requires
        model.wf(),
        shows(row, model),
    ensures
        kept(row, model.left()),
        kept(row, model.right()),
        kept(row, model.to_start()),
        kept(row, model.to_end()),
        kept(row, model.idle()),
{
    reveal(kept);
    lemma_moves(row, model);
}

proof fn lemma_idle_kept(row: Row, model: Model, escape: Escape)
    requires
        model.wf(),
        shows(row, model),
    ensures
        kept(row, (Model { escape, ..model }).idle()),
{
    reveal(kept);
    lemma_moves(row, model);
}

proof fn lemma_delete_kept(row: Row, model: Model, start: int, end: int)
    requires
        model.wf(),
        shows(row, model),
        0 <= start <= model.cursor,
    ensures
        kept(row, model.delete(start, end)),
{
    reveal(kept);
    lemma_delete(row, model, start, end);
}

proof fn lemma_put_kept(row: Row, model: Model, byte: u8)
    requires
        model.wf(),
        shows(row, model),
        byte >= 0x20,
    ensures
        kept(row, model.put(byte)),
{
    reveal(kept);
    lemma_put(row, model, byte);
}

proof fn lemma_history_kept(row: Row, model: Model)
    requires
        model.wf(),
        shows(row, model),
    ensures
        kept(row, model.previous()),
        kept(row, model.next()),
{
    reveal(kept);
    lemma_moves(row, model);
    if model.back < model.history.len() {
        let saving = Model {
            saved: if model.back == 0 {
                model.line
            } else {
                model.saved
            },
            back: model.back + 1,
            ..model
        };
        lemma_replace(row, saving, model.recalled(model.back + 1));
    }
    if model.back > 0 {
        let line = if model.back == 1 {
            model.saved
        } else {
            model.recalled(model.back - 1)
        };
        lemma_replace(row, Model { back: model.back - 1, ..model }, line);
    }
}

proof fn lemma_plain_kept(row: Row, model: Model, byte: u8)
    requires
        model.wf(),
        shows(row, model),
        byte != NEWLINE,
        byte != 0x03,
        byte != 0x0c,
    ensures
        kept(row, model.plain(byte)),
{
    let cursor = model.cursor;
    if byte >= 0x20 {
        lemma_put_kept(row, model, byte);
    } else if byte == BACKSPACE {
        lemma_delete_kept(
            row,
            model,
            if cursor > 0 {
                cursor - 1
            } else {
                0
            },
            cursor,
        );
    } else if byte == 0x04 {
        lemma_delete_kept(row, model, cursor, cursor + 1);
    } else if byte == 0x0b {
        lemma_delete_kept(row, model, cursor, model.line.len() as int);
    } else if byte == 0x15 {
        lemma_delete_kept(row, model, 0, cursor);
    } else if byte == 0x17 {
        lemma_word_begin(model.line, cursor);
        lemma_delete_kept(row, model, edit::word_begin(model.line, cursor), cursor);
    } else {
        lemma_moves_kept(row, model);
        lemma_history_kept(row, model);
    }
}

/// What a key writes keeps the row showing the line, as long as every byte that
/// is shown has one cell. The keys that end the line or give it up begin another
/// row, and the one that clears the screen draws the row anew.
pub proof fn screen_follows_the_line(row: Row, model: Model, byte: u8)
    requires
        model.wf(),
        shows(row, model),
        cell_by_byte(model),
        control_or_cell(byte),
        byte != NEWLINE,
        byte != 0x03,
        byte != 0x0c,
    ensures
        shows(after(row, model.key(byte).shown), model.key(byte).model),
        cell_by_byte(model.key(byte).model),
{
    lines_keep_a_cell_for_a_byte(model, byte);
    let ready = Model { escape: Escape::Idle, ..model };
    assert(kept(row, model.key(byte))) by {
        lemma_moves_kept(row, ready);
        lemma_idle_kept(row, model, Escape::Esc);
        lemma_idle_kept(row, model, Escape::Bracket);
        lemma_idle_kept(row, model, Escape::Number(byte));
        lemma_history_kept(row, ready);
        lemma_delete_kept(row, ready, model.cursor, model.cursor + 1);
        lemma_plain_kept(row, ready, byte);
        lemma_plain_kept(row, model, byte);
    }
    reveal(kept);
}

proof fn lemma_delete_cells(model: Model, start: int, end: int)
    requires
        model.wf(),
        cell_by_byte(model),
        0 <= start,
    ensures
        cell_by_byte(model.delete(start, end).model),
{
    if start < end && end <= model.line.len() {
        let from = chars::at_or_before(model.line, start);
        let to = chars::at_or_behind(model.line, end);
        chars::lemma_at_or_before(model.line, start);
        chars::lemma_at_or_behind(model.line, end);
        let line = chars::without(model.line, from, to);
        assert forall|i: int| 0 <= i < line.len() implies terminal::printable(
            #[trigger] line[i],
        ) by {
            assert(line[i] == model.line[if i < from {
                i
            } else {
                i + (to - from)
            }]);
        }
    }
}

proof fn lemma_put_cells(model: Model, byte: u8)
    requires
        model.wf(),
        cell_by_byte(model),
        terminal::printable(byte),
    ensures
        cell_by_byte(model.put(byte).model),
{
    let line = model.line.insert(model.cursor, byte);
    assert forall|i: int| 0 <= i < line.len() implies terminal::printable(#[trigger] line[i]) by {
        if i < model.cursor {
            assert(line[i] == model.line[i]);
        } else if i > model.cursor {
            assert(line[i] == model.line[i - 1]);
        }
    }
}

proof fn lemma_enter_cells(model: Model)
    requires
        model.wf(),
        cell_by_byte(model),
    ensures
        cell_by_byte(model.enter().model),
{
    let history = edit::remembered(model.history, model.line);
    assert forall|i: int| 0 <= i < history.len() implies terminal::all_printable(
        #[trigger] history[i],
    ) by {
        assert(i < model.history.len() ==> terminal::all_printable(model.history[i]));
        assert(i + 1 < model.history.len() ==> terminal::all_printable(model.history[i + 1]));
    }
}

proof fn lemma_plain_cells(model: Model, byte: u8)
    requires
        model.wf(),
        cell_by_byte(model),
        control_or_cell(byte),
    ensures
        cell_by_byte(model.plain(byte).model),
{
    let cursor = model.cursor;
    lemma_word_begin(model.line, cursor);
    lemma_enter_cells(model);
    lemma_delete_cells(
        model,
        if cursor > 0 {
            cursor - 1
        } else {
            0
        },
        cursor,
    );
    lemma_delete_cells(model, cursor, cursor + 1);
    lemma_delete_cells(model, cursor, model.line.len() as int);
    lemma_delete_cells(model, 0, cursor);
    lemma_delete_cells(model, edit::word_begin(model.line, cursor), cursor);
    if byte >= 0x20 {
        lemma_put_cells(model, byte);
    }
}

/// Keys that are control bytes or have a cell of their own leave only lines
/// that have one cell for each of their bytes.
pub proof fn lines_keep_a_cell_for_a_byte(model: Model, byte: u8)
    requires
        model.wf(),
        cell_by_byte(model),
        control_or_cell(byte),
    ensures
        cell_by_byte(model.key(byte).model),
{
    let ready = Model { escape: Escape::Idle, ..model };
    lemma_plain_cells(model, byte);
    lemma_plain_cells(ready, byte);
    lemma_delete_cells(ready, model.cursor, model.cursor + 1);
}

proof fn lemma_word_begin(line: Seq<u8>, cursor: int)
    requires
        0 <= cursor <= line.len(),
    ensures
        0 <= edit::word_begin(line, cursor) <= cursor,
{
    lemma_spaces_begin(line, cursor);
    lemma_letters_begin(line, edit::spaces_begin(line, cursor));
}

proof fn lemma_spaces_begin(line: Seq<u8>, at: int)
    requires
        0 <= at <= line.len(),
    ensures
        0 <= edit::spaces_begin(line, at) <= at,
    decreases at,
{
    if at > 0 && line[at - 1] == SPACE {
        lemma_spaces_begin(line, at - 1);
    }
}

proof fn lemma_letters_begin(line: Seq<u8>, at: int)
    requires
        0 <= at <= line.len(),
    ensures
        0 <= edit::letters_begin(line, at) <= at,
    decreases at,
{
    if at > 0 && line[at - 1] != SPACE {
        lemma_letters_begin(line, at - 1);
    }
}

} // verus!
