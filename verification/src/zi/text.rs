//! What the keys do to the text as it would be saved, and where the cursor goes.
use crate::bytes::{self, NEWLINE};
use crate::chars;
use crate::zi::buffer::{self, Grants};
use crate::zi::draw::{self, Mode};
use crate::zi::editor::{self, Escape, Message, Model, Outcome};
use vstd::prelude::*;

verus! {

/// Where the cursor is in the text as it would be saved.
pub open spec fn offset(model: Model) -> int {
    buffer::flat(model.lines.take(model.row)).len() + model.col
}

proof fn lemma_around(lines: Seq<Seq<u8>>, row: int)
    requires
        0 <= row < lines.len(),
    ensures
        buffer::flat(lines) == buffer::flat(lines.take(row)) + lines[row].push(NEWLINE)
            + buffer::flat(lines.skip(row + 1)),
{
    assert(lines =~= lines.take(row) + (seq![lines[row]] + lines.skip(row + 1)));
    buffer::saving_is_line_by_line(lines.take(row), seq![lines[row]] + lines.skip(row + 1));
    buffer::saving_is_line_by_line(seq![lines[row]], lines.skip(row + 1));
    buffer::one_line_is_saved_with_its_line_feed(lines[row]);
    assert(buffer::flat(lines.take(row)) + (lines[row].push(NEWLINE) + buffer::flat(
        lines.skip(row + 1),
    )) =~= buffer::flat(lines.take(row)) + lines[row].push(NEWLINE) + buffer::flat(
        lines.skip(row + 1),
    ));
}

proof fn lemma_changed(lines: Seq<Seq<u8>>, row: int, line: Seq<u8>)
    requires
        0 <= row < lines.len(),
    ensures
        buffer::flat(lines.update(row, line)) == buffer::flat(lines.take(row)) + line.push(NEWLINE)
            + buffer::flat(lines.skip(row + 1)),
{
    let after = lines.update(row, line);
    lemma_around(after, row);
    assert(after.take(row) =~= lines.take(row));
    assert(after.skip(row + 1) =~= lines.skip(row + 1));
}

proof fn lemma_split(lines: Seq<Seq<u8>>, row: int, at: int)
    requires
        0 <= row < lines.len(),
        0 <= at <= lines[row].len(),
    ensures
        buffer::flat(buffer::split_at(lines, row, at)) == buffer::flat(lines).insert(
            buffer::flat(lines.take(row)).len() + at,
            NEWLINE,
        ),
{
    let after = buffer::split_at(lines, row, at);
    let first = lines[row].take(at);
    let second = lines[row].skip(at);
    let head = buffer::flat(lines.take(row));
    let tail = buffer::flat(lines.skip(row + 1));
    lemma_around(lines, row);
    lemma_around(after, row);
    assert(after.take(row) =~= lines.take(row));
    assert(after[row] == first);
    let rest = after.skip(row + 1);
    lemma_around(rest, 0);
    assert(rest.take(0) =~= Seq::<Seq<u8>>::empty());
    assert(rest[0] == second);
    assert(rest.skip(1) =~= lines.skip(row + 1));
    assert(buffer::flat(after) =~= (head + lines[row].push(NEWLINE) + tail).insert(
        head.len() + at,
        NEWLINE,
    ));
}

proof fn lemma_inserted(lines: Seq<Seq<u8>>, row: int, at: int, byte: u8)
    requires
        0 <= row < lines.len(),
        0 <= at <= lines[row].len(),
    ensures
        buffer::flat(lines.update(row, lines[row].insert(at, byte))) == buffer::flat(lines).insert(
            buffer::flat(lines.take(row)).len() + at,
            byte,
        ),
{
    let line = lines[row].insert(at, byte);
    lemma_around(lines, row);
    lemma_changed(lines, row, line);
    let head = buffer::flat(lines.take(row));
    let tail = buffer::flat(lines.skip(row + 1));
    assert(head + line.push(NEWLINE) + tail =~= (head + lines[row].push(NEWLINE) + tail).insert(
        head.len() + at,
        byte,
    ));
}

proof fn lemma_taken(lines: Seq<Seq<u8>>, row: int, from: int, to: int)
    requires
        0 <= row < lines.len(),
        0 <= from <= to <= lines[row].len(),
    ensures
        ({
            let text = buffer::flat(lines);
            let front = buffer::flat(lines.take(row)).len() as int;
            buffer::flat(lines.update(row, chars::without(lines[row], from, to))) == text.take(
                front + from,
            ) + text.skip(front + to)
        }),
{
    let line = chars::without(lines[row], from, to);
    lemma_around(lines, row);
    lemma_changed(lines, row, line);
    let text = buffer::flat(lines);
    let head = buffer::flat(lines.take(row));
    let tail = buffer::flat(lines.skip(row + 1));
    assert(head + line.push(NEWLINE) + tail =~= text.take(head.len() + from) + text.skip(
        head.len() + to,
    ));
}

proof fn lemma_joined(lines: Seq<Seq<u8>>, row: int)
    requires
        0 <= row,
        row + 1 < lines.len(),
    ensures
        ({
            let text = buffer::flat(lines);
            let front = buffer::flat(lines.take(row + 1)).len() as int;
            &&& 0 < front <= text.len()
            &&& text[front - 1] == NEWLINE
            &&& buffer::flat(buffer::joined_at(lines, row)) == text.remove(front - 1)
        }),
{
    let joined = buffer::joined_at(lines, row);
    let text = buffer::flat(lines);
    let above = buffer::flat(lines.take(row));
    let head = buffer::flat(lines.take(row + 1));
    let tail = buffer::flat(lines.skip(row + 2));
    lemma_around(lines, row + 1);
    lemma_around(joined, row);
    assert(joined.take(row) =~= lines.take(row));
    assert(joined.skip(row + 1) =~= lines.skip(row + 2));
    lemma_around(lines.take(row + 1), row);
    assert(lines.take(row + 1).take(row) =~= lines.take(row));
    assert(lines.take(row + 1).skip(row + 1) =~= Seq::<Seq<u8>>::empty());
    assert(head =~= above + lines[row].push(NEWLINE));
    assert(text == head + lines[row + 1].push(NEWLINE) + tail);
    assert(buffer::flat(joined) =~= text.remove(head.len() - 1));
}

/// A byte that is typed while inserting goes into the text where the cursor is,
/// and the cursor goes behind it. Where there is no memory for it, nothing
/// changes.
pub proof fn typing_puts_the_byte_at_the_cursor(
    model: Model,
    rows: int,
    path: Seq<u8>,
    byte: u8,
    grants: Grants,
)
    requires
        model.wf(),
        model.mode == Mode::Insert,
        model.escape == Escape::Idle,
        byte != 0x0a,
        byte != 0x08,
        byte != 0x1b,
    ensures
        ({
            let fits = buffer::text_fits(
                model.text_room,
                model.index_room,
                buffer::flat(model.lines).len() as int + 1,
                grants.text,
            );
            let after = model.key(rows, path, byte, grants).model;
            &&& after.mode == Mode::Insert
            &&& after.row == model.row
            &&& fits ==> {
                &&& buffer::flat(after.lines) == buffer::flat(model.lines).insert(
                    offset(model),
                    byte,
                )
                &&& after.lines.len() == model.lines.len()
                &&& after.dirty
                &&& model.col == model.line().len() || !chars::goes_on(model.line()[model.col])
                    ==> after.col == model.col + 1
            }
            &&& !fits ==> after == model
        }),
{
    reveal(Model::typed);
    lemma_inserted(model.lines, model.row, model.col, byte);
    let line = model.line().insert(model.col, byte);
    assert(model.col + 1 < line.len() ==> line[model.col + 1] == model.line()[model.col]);
}

/// Enter puts a line feed into the text where the cursor is, and the cursor goes
/// to the front of the line that begins there. Where there is no memory for it,
/// the text stays and the bottom line says so.
pub proof fn enter_puts_a_line_feed_at_the_cursor(
    model: Model,
    rows: int,
    path: Seq<u8>,
    grants: Grants,
)
    requires
        model.wf(),
        model.mode == Mode::Insert,
        model.escape == Escape::Idle,
    ensures
        ({
            let text_room = buffer::text_cap_after(
                model.text_room,
                model.index_room,
                buffer::flat(model.lines).len() as int + 1,
                grants.text,
            );
            let fits = buffer::text_fits(
                model.text_room,
                model.index_room,
                buffer::flat(model.lines).len() as int + 1,
                grants.text,
            ) && buffer::index_fits(
                text_room,
                model.index_room,
                model.lines.len() as int + 2,
                grants.index,
            );
            let after = model.key(rows, path, 0x0a, grants).model;
            &&& after.mode == Mode::Insert
            &&& fits ==> {
                &&& buffer::flat(after.lines) == buffer::flat(model.lines).insert(
                    offset(model),
                    NEWLINE,
                )
                &&& after.lines.len() == model.lines.len() + 1
                &&& after.row == model.row + 1
                &&& after.col == 0
                &&& after.dirty
            }
            &&& !fits ==> after.lines == model.lines && after.row == model.row && after.col
                == model.col && after.message == Message::OutOfMemory
        }),
{
    reveal(Model::typed);
    lemma_split(model.lines, model.row, model.col);
}

/// Backspace while inserting takes what stands before the cursor: a character, or
/// at the front of a line the line feed before it. At the front of the text there
/// is nothing to take.
pub proof fn backspace_takes_what_stands_before_the_cursor(
    model: Model,
    rows: int,
    path: Seq<u8>,
    grants: Grants,
)
    requires
        model.wf(),
        model.mode == Mode::Insert,
        model.escape == Escape::Idle,
    ensures
        ({
            let after = model.key(rows, path, 0x08, grants).model;
            let text = buffer::flat(model.lines);
            let at = offset(model);
            let length = model.col - chars::left_of(model.line(), model.col);
            &&& after.mode == Mode::Insert
            &&& model.col > 0 ==> {
                &&& buffer::flat(after.lines) == text.take(at - length) + text.skip(at)
                &&& after.row == model.row
                &&& after.col == model.col - length
                &&& length > 0
                &&& after.dirty
            }
            &&& model.col == 0 && model.row > 0 ==> {
                &&& text[at - 1] == NEWLINE
                &&& buffer::flat(after.lines) == text.remove(at - 1)
                &&& after.row == model.row - 1
                &&& model.line().len() == 0 || !chars::goes_on(model.line()[0]) ==> after.col
                    == model.lines[model.row - 1].len()
                &&& after.dirty
            }
            &&& model.col == 0 && model.row == 0 ==> after == model
        }),
{
    reveal(Model::typed);
    if model.col > 0 {
        let from = chars::left_of(model.line(), model.col);
        chars::lemma_left_of(model.line(), model.col);
        lemma_taken(model.lines, model.row, from, model.col);
    } else if model.row > 0 {
        let above = model.row - 1;
        lemma_joined(model.lines, above);
        let joined = buffer::joined_at(model.lines, above);
        let length = model.lines[above].len() as int;
        assert(joined[above] == model.lines[above] + model.line());
        assert(length < joined[above].len() ==> joined[above][length] == model.line()[0]);
    }
}

proof fn lemma_without_character(model: Model)
    requires
        model.wf(),
        model.col < model.line().len(),
    ensures
        ({
            let text = buffer::flat(model.lines);
            let at = offset(model);
            let end = at + chars::right_of(model.line(), model.col) - model.col;
            buffer::flat(model.without_character().lines) == text.take(at) + text.skip(end)
        }),
{
    let to = chars::right_of(model.line(), model.col);
    chars::lemma_right_of(model.line(), model.col);
    lemma_taken(model.lines, model.row, model.col, to);
}

/// The keys that take the character under the cursor: `x` in normal mode, and the
/// delete key. On nothing they take nothing.
pub proof fn deleting_takes_the_character_under_the_cursor(
    model: Model,
    rows: int,
    path: Seq<u8>,
    grants: Grants,
)
    requires
        model.wf(),
        model.escape == Escape::Idle,
    ensures
        ({
            let x = model.key(rows, path, 'x' as u8, grants).model;
            let open = model.key(rows, path, 0x1b, grants).model.key(rows, path, '[' as u8, grants);
            let delete = open.model.key(rows, path, '3' as u8, grants).model.key(
                rows,
                path,
                '~' as u8,
                grants,
            ).model;
            let text = buffer::flat(model.lines);
            let at = offset(model);
            let end = at + chars::right_of(model.line(), model.col) - model.col;
            &&& model.col < model.line().len() ==> {
                &&& end > at
                &&& model.mode == Mode::Normal ==> buffer::flat(x.lines) == text.take(at)
                    + text.skip(end)
                &&& model.mode == Mode::Normal ==> x.dirty && x.row == model.row && x.mode
                    == Mode::Normal
                &&& buffer::flat(delete.lines) == text.take(at) + text.skip(end)
                &&& delete.dirty && delete.row == model.row && delete.mode == model.mode
                &&& model.mode == Mode::Insert ==> delete.col == model.col
            }
            &&& model.col == model.line().len() ==> {
                &&& model.mode == Mode::Normal ==> x == model
                &&& delete == model
            }
        }),
{
    reveal(Model::typed);
    if model.col < model.line().len() {
        lemma_without_character(model);
        chars::lemma_right_of(model.line(), model.col);
    }
}

/// The column on another line is the one that the cursor had, or the last one
/// before it where a character of that line is.
pub proof fn the_nearest_column_is_on_a_character(col: int, line: Seq<u8>)
    requires
        0 <= col,
    ensures
        0 <= editor::clamped(col, line) <= col,
        line.len() > 0 ==> editor::clamped(col, line) < line.len(),
        line.len() == 0 ==> editor::clamped(col, line) == 0,
        col < line.len() && chars::between(line, col) ==> editor::clamped(col, line) == col,
        col >= line.len() > 0 && chars::between(line, line.len() - 1) ==> editor::clamped(col, line)
            == line.len() - 1,
        forall|i: int|
            editor::clamped(col, line) < i <= col && i < line.len() ==> chars::goes_on(
                #[trigger] line[i],
            ),
{
    let limit = if line.len() > 0 {
        line.len() - 1
    } else {
        0
    };
    let at = if col > limit {
        limit
    } else {
        col
    };
    chars::lemma_at_or_before(line, at);
    assert forall|i: int| editor::clamped(col, line) < i <= col && i < line.len() implies
        chars::goes_on(#[trigger] line[i]) by {
        assert(!chars::between(line, i));
    }
}

/// Where the keys go that move by a line: to the line below or above, where there
/// is one, at the nearest column; and by a character: to the one beside, where
/// there is one.
pub proof fn moving_goes_to_the_next_line_or_character(
    model: Model,
    rows: int,
    path: Seq<u8>,
    grants: Grants,
)
    requires
        model.wf(),
        model.mode == Mode::Normal,
        model.escape == Escape::Idle,
    ensures
        ({
            let down = model.key(rows, path, 'j' as u8, grants).model;
            let up = model.key(rows, path, 'k' as u8, grants).model;
            let left = model.key(rows, path, 'h' as u8, grants).model;
            let right = model.key(rows, path, 'l' as u8, grants).model;
            &&& model.row + 1 < model.lines.len() ==> down.row == model.row + 1 && down.col
                == editor::clamped(model.col, model.lines[model.row + 1])
            &&& model.row + 1 == model.lines.len() ==> down == model
            &&& model.row > 0 ==> up.row == model.row - 1 && up.col == editor::clamped(
                model.col,
                model.lines[model.row - 1],
            )
            &&& model.row == 0 ==> up == model
            &&& left.row == model.row
            &&& model.col > 0 ==> left.col == chars::left_of(model.line(), model.col)
            &&& model.col == 0 ==> left == model
            &&& right.row == model.row
            &&& model.col < model.line().len() && chars::right_of(model.line(), model.col)
                < model.line().len() ==> right.col == chars::right_of(model.line(), model.col)
            &&& model.col == model.line().len() || chars::right_of(model.line(), model.col)
                >= model.line().len() ==> right == model
        }),
{
    reveal(Model::typed);
    chars::lemma_left_of(model.line(), model.col);
    chars::lemma_right_of(model.line(), model.col);
}

/// The arrows go where the keys of normal mode go, and while inserting the cursor
/// can go behind the last character too.
pub proof fn arrows_move_the_cursor(model: Model, rows: int, path: Seq<u8>, grants: Grants)
    requires
        model.wf(),
        model.escape == Escape::Idle,
    ensures
        ({
            let open = model.key(rows, path, 0x1b, grants).model.key(rows, path, '[' as u8, grants);
            let up = open.model.key(rows, path, 'A' as u8, grants).model;
            let down = open.model.key(rows, path, 'B' as u8, grants).model;
            let right = open.model.key(rows, path, 'C' as u8, grants).model;
            let left = open.model.key(rows, path, 'D' as u8, grants).model;
            &&& open.drawn.len() == 0
            &&& model.mode == Mode::Normal ==> {
                &&& up == model.key(rows, path, 'k' as u8, grants).model
                &&& down == model.key(rows, path, 'j' as u8, grants).model
                &&& right == model.key(rows, path, 'l' as u8, grants).model
                &&& left == model.key(rows, path, 'h' as u8, grants).model
            }
            &&& model.mode == Mode::Insert ==> {
                &&& right.row == model.row && right.col == chars::right_of(
                    model.line(),
                    model.col,
                )
                &&& left.row == model.row && left.col == chars::left_of(model.line(), model.col)
                &&& down.row == (if model.row + 1 < model.lines.len() {
                    model.row + 1
                } else {
                    model.row
                })
                &&& up.row == (if model.row > 0 {
                    model.row - 1
                } else {
                    model.row
                })
            }
        }),
{
    reveal(Model::typed);
    chars::lemma_left_of(model.line(), model.col);
    chars::lemma_right_of(model.line(), model.col);
}

/// The keys that begin to insert, before the character under the cursor or behind
/// it, and the escape that ends it, one character back. None changes the text.
pub proof fn inserting_begins_and_ends_at_the_cursor(
    model: Model,
    rows: int,
    path: Seq<u8>,
    grants: Grants,
)
    requires
        model.wf(),
        model.escape == Escape::Idle,
    ensures
        model.mode == Mode::Normal ==> model.key(rows, path, 'i' as u8, grants).model == (Model {
            mode: Mode::Insert,
            ..model
        }),
        model.mode == Mode::Normal ==> model.key(rows, path, 'a' as u8, grants).model == (Model {
            mode: Mode::Insert,
            col: chars::right_of(model.line(), model.col),
            ..model
        }),
        model.mode == Mode::Insert ==> model.key(rows, path, 0x1b, grants).model.paused(
            rows,
            path,
        ).model == (Model {
            mode: Mode::Normal,
            shown: Mode::Normal,
            col: chars::left_of(model.line(), model.col),
            ..model
        }),
{
    reveal(Model::typed);
}

/// The colon begins a command, and what is typed then is the command, as far as
/// there is room for it. The text and the cursor stay.
pub proof fn a_command_is_what_was_typed(
    model: Model,
    rows: int,
    path: Seq<u8>,
    byte: u8,
    grants: Grants,
)
    requires
        model.wf(),
        model.escape == Escape::Idle,
        byte != 0x0a,
        byte != 0x1b,
    ensures
        model.mode == Mode::Normal ==> model.key(rows, path, ':' as u8, grants).model == (Model {
            mode: Mode::Command,
            command: Seq::empty(),
            ..model
        }),
        model.mode == Mode::Command && model.command.len() < 16 ==> model.key(
            rows,
            path,
            byte,
            grants,
        ).model == (Model { command: model.command.push(byte), ..model }),
        model.mode == Mode::Command && model.command.len() == 16 ==> model.key(
            rows,
            path,
            byte,
            grants,
        ).model == model,
        model.outcome(byte) == Outcome::Continue,
{
}

/// What a command does: `w` saves, `wq` saves and ends, `q` ends where nothing is
/// unsaved and is refused otherwise, and anything else is not known. No command
/// changes the text.
pub proof fn commands_do_what_they_say(model: Model, rows: int, path: Seq<u8>, grants: Grants)
    requires
        model.wf(),
        model.escape == Escape::Idle,
        model.mode == Mode::Command,
    ensures
        ({
            let after = model.key(rows, path, 0x0a, grants).model;
            let outcome = model.outcome(0x0a);
            let w = model.command == bytes::ascii("w"@);
            let wq = model.command == bytes::ascii("wq"@);
            let q = model.command == bytes::ascii("q"@);
            &&& after.lines == model.lines && after.dirty == model.dirty
            &&& w ==> outcome == Outcome::Save { quit: false }
            &&& wq ==> outcome == Outcome::Save { quit: true }
            &&& q && !model.dirty ==> outcome == Outcome::Quit
            &&& q && model.dirty ==> outcome == Outcome::Continue && after.message
                == Message::Unsaved && after.mode == Mode::Normal
            &&& !w && !wq && !q ==> outcome == Outcome::Continue && after.message
                == Message::Unknown && after.mode == Mode::Normal
        }),
{
    reveal_strlit("w");
    reveal_strlit("wq");
    reveal_strlit("q");
    let w = bytes::ascii("w"@);
    let wq = bytes::ascii("wq"@);
    let q = bytes::ascii("q"@);
    assert(w.len() == 1 && wq.len() == 2 && q.len() == 1);
    assert(w[0] != q[0]);
}

/// What the bottom line tells: nothing, that memory ran out, that the text is
/// written, that it is not saved, or that a command is not known.
pub proof fn messages_say_what_happened()
    ensures
        editor::message_text(Message::Nothing).len() == 0,
        editor::message_text(Message::OutOfMemory) == bytes::ascii(
            "out of memory: cannot add a line"@,
        ),
        editor::message_text(Message::Written) == bytes::ascii("written"@),
        editor::message_text(Message::Unsaved) == bytes::ascii("unsaved changes; use :wq"@),
        editor::message_text(Message::Unknown) == bytes::ascii("unknown command"@),
{
}

/// After a save the editor is in normal mode, tells that the text is written where
/// it is, and has it no longer as changed; a save that failed leaves the mark.
pub proof fn a_save_is_told(model: Model, rows: int, path: Seq<u8>, message: Message, ok: bool)
    requires
        model.wf(),
        rows >= 3,
    ensures
        ({
            let after = model.concluded(rows, path, message, ok).model;
            &&& after.mode == Mode::Normal
            &&& after.command.len() == 0
            &&& after.message == message
            &&& after.dirty == (model.dirty && !ok)
            &&& after.row == model.row && after.col == model.col && after.lines == model.lines
        }),
        model.left().model.lines == model.lines,
{
}

/// The name of the mode in the status line.
pub proof fn modes_are_named()
    ensures
        draw::label(Mode::Normal) == bytes::ascii("-- NORMAL  --"@),
        draw::label(Mode::Insert) == bytes::ascii("-- INSERT  --"@),
        draw::label(Mode::Command) == bytes::ascii("-- COMMAND --"@),
{
}

/// The name of the file in the status line is its path up to the zero, all of it
/// where it is short enough.
pub proof fn the_path_is_shown(name: Seq<u8>, rest: Seq<u8>)
    requires
        !name.contains(0),
    ensures
        name.len() <= 93 ==> draw::shown_name(name + seq![0u8] + rest) == name,
        name.len() > 93 ==> draw::shown_name(name + seq![0u8] + rest).is_prefix_of(name)
            && draw::shown_name(name + seq![0u8] + rest).len() >= 90,
{
    let path = name + seq![0u8] + rest;
    assert forall|i: int| 0 <= i < name.len() implies path[i] != 0 by {
        assert(name.contains(name[i]));
    }
    assert(path[name.len() as int] == 0);
    bytes::lemma_first_at_is(path, 0, 0, name.len() as int);
    assert(path.take(name.len() as int) =~= name);
    chars::lemma_cut(name, 93);
}

/// Memory is asked for exactly where a byte that is put into the text does not fit
/// any more: for the text, and for the index where a line is added.
pub proof fn memory_is_asked_for_where_it_is_needed(model: Model, byte: u8, granted: bool)
    ensures
        model.text_short(byte) <==> model.mode == Mode::Insert && model.escape == Escape::Idle
            && byte != 0x08 && byte != 0x1b && buffer::flat(model.lines).len() + 1
            > model.text_room,
        model.index_short(byte, granted) <==> model.mode == Mode::Insert && model.escape
            == Escape::Idle && byte == 0x0a && model.lines.len() + 2 > model.index_room
            && buffer::text_fits(
            model.text_room,
            model.index_room,
            buffer::flat(model.lines).len() as int + 1,
            granted,
        ),
{
}

} // verus!
