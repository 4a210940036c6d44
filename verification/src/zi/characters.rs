//! The editor and the characters of its text: the cursor stands between two of
//! them, and no key takes one apart.
use crate::bytes::{BACKSPACE, ESC, NEWLINE};
use crate::chars;
use crate::zi::buffer::{self, Grants};
use crate::zi::draw::Mode;
use crate::zi::editor::{self, Direction, Escape, Model};
use vstd::prelude::*;
use vstd::utf8;

verus! {

/// Whether every line is UTF-8.
pub open spec fn whole(lines: Seq<Seq<u8>>) -> bool {
    forall|i: int| 0 <= i < lines.len() ==> utf8::valid_utf8(#[trigger] lines[i])
}

/// The insertion point is always between two characters: on a line of UTF-8 the
/// cursor parts the line into two that are UTF-8 too.
pub proof fn cursor_is_between_characters(model: Model)
    requires
        model.wf(),
        utf8::valid_utf8(model.line()),
    ensures
        utf8::is_char_boundary(model.line(), model.col),
        utf8::valid_utf8(model.line().take(model.col)),
        utf8::valid_utf8(model.line().skip(model.col)),
{
    chars::positions_are_between_characters(model.line(), model.col);
}

proof fn lemma_put_wf(model: Model, rows: int, path: Seq<u8>, byte: u8, granted: bool)
    requires
        model.wf(),
        byte != NEWLINE,
    ensures
        model.put(rows, path, byte, granted).model.wf(),
{
    let line = model.line().insert(model.col, byte);
    chars::lemma_at_or_behind(line, model.col + 1);
    buffer::lemma_clean_insert(model.lines, model.row, model.col, byte);
    assert(model.lines.update(model.row, line)[model.row] == line);
}

proof fn lemma_erase_wf(model: Model, rows: int, path: Seq<u8>)
    requires
        model.wf(),
    ensures
        model.erase(rows, path).model.wf(),
{
    if model.col > 0 {
        let from = chars::left_of(model.line(), model.col);
        let line = chars::without(model.line(), from, model.col);
        chars::lemma_left_of(model.line(), model.col);
        chars::lemma_without(model.line(), from, model.col);
        buffer::lemma_clean_remove(model.lines, model.row, from, model.col);
        assert(model.lines.update(model.row, line)[model.row] == line);
    } else if model.row > 0 {
        let lines = buffer::joined_at(model.lines, model.row - 1);
        let landing = model.lines[model.row - 1].len() as int;
        assert(lines[model.row - 1] == model.lines[model.row - 1] + model.line());
        chars::lemma_at_or_behind(lines[model.row - 1], landing);
        buffer::lemma_clean_join(model.lines, model.row - 1);
    }
}

proof fn lemma_enter_wf(model: Model, rows: int, path: Seq<u8>, grants: Grants)
    requires
        model.wf(),
    ensures
        model.enter(rows, path, grants).model.wf(),
{
    buffer::lemma_clean_split(model.lines, model.row, model.col);
    let lines = buffer::split_at(model.lines, model.row, model.col);
    assert(lines[model.row + 1] == model.line().skip(model.col));
}

proof fn lemma_normal_wf(model: Model, rows: int, path: Seq<u8>, byte: u8)
    requires
        model.wf(),
    ensures
        model.normal_key(rows, path, byte).model.wf(),
{
    editor::lemma_moved(model, Direction::Left);
    editor::lemma_moved(model, Direction::Down);
    editor::lemma_moved(model, Direction::Up);
    editor::lemma_moved(model, Direction::Right);
    chars::lemma_right_of(model.line(), model.col);
    editor::lemma_without_character(model);
}

proof fn lemma_typed_wf(model: Model, rows: int, path: Seq<u8>, byte: u8, grants: Grants)
    requires
        model.wf(),
    ensures
        model.typed(rows, path, byte, grants).model.wf(),
{
    reveal(Model::typed);
    match model.mode {
        Mode::Command => {},
        Mode::Normal => {
            lemma_normal_wf(model, rows, path, byte);
        },
        Mode::Insert => {
            if byte == NEWLINE {
                lemma_enter_wf(model, rows, path, grants);
            } else if byte == BACKSPACE {
                lemma_erase_wf(model, rows, path);
            } else {
                lemma_put_wf(model, rows, path, byte, grants.text);
            }
        },
    }
}

/// Whatever is typed, the cursor stays in the text and between characters.
pub proof fn keys_keep_the_cursor_between_characters(
    model: Model,
    rows: int,
    path: Seq<u8>,
    byte: u8,
    grants: Grants,
)
    requires
        model.wf(),
    ensures
        model.key(rows, path, byte, grants).model.wf(),
        model.paused(rows, path).model.wf(),
{
    let ready = Model { escape: Escape::Idle, ..model };
    chars::lemma_left_of(model.line(), model.col);
    lemma_typed_wf(model, rows, path, byte, grants);
    lemma_typed_wf(ready.lone_escape(rows, path).model, rows, path, byte, grants);
    editor::lemma_moved(ready, Direction::Left);
    editor::lemma_moved(ready, Direction::Down);
    editor::lemma_moved(ready, Direction::Up);
    editor::lemma_moved(ready, Direction::Right);
    editor::lemma_without_character(ready);
}

proof fn lemma_whole_update(lines: Seq<Seq<u8>>, row: int, line: Seq<u8>)
    requires
        whole(lines),
        0 <= row < lines.len(),
        utf8::valid_utf8(line),
    ensures
        whole(lines.update(row, line)),
{
}

proof fn lemma_one_byte(byte: u8)
    requires
        byte < 0x80,
    ensures
        utf8::valid_utf8(seq![byte]),
{
    reveal_with_fuel(utf8::valid_utf8, 2);
    assert(utf8::pop_first_scalar(seq![byte]) =~= Seq::<u8>::empty());
    assert(utf8::valid_first_scalar(seq![byte])) by {
        assert(byte & 0x7f < 0x80) by (bit_vector);
    }
}

proof fn lemma_without_whole(model: Model)
    requires
        model.wf(),
        whole(model.lines),
    ensures
        whole(model.without_character().lines),
{
    let line = model.line();
    let end = chars::right_of(line, model.col);
    chars::lemma_right_of(line, model.col);
    chars::characters_stay_whole(line, model.col, end, Seq::empty());
    lemma_whole_update(model.lines, model.row, chars::without(line, model.col, end));
}

proof fn lemma_typed_whole(model: Model, rows: int, path: Seq<u8>, byte: u8, grants: Grants)
    requires
        model.wf(),
        whole(model.lines),
        byte < 0x80,
    ensures
        whole(model.typed(rows, path, byte, grants).model.lines),
{
    reveal(Model::typed);
    let line = model.line();
    let col = model.col;
    chars::positions_are_between_characters(line, col);
    match model.mode {
        Mode::Command => {},
        Mode::Normal => {
            lemma_without_whole(model);
        },
        Mode::Insert => {
            if byte == NEWLINE {
                let after = buffer::split_at(model.lines, model.row, col);
                assert forall|i: int| 0 <= i < after.len() implies utf8::valid_utf8(
                    #[trigger] after[i],
                ) by {
                    if i < model.row {
                        assert(after[i] == model.lines[i]);
                    } else if i > model.row + 1 {
                        assert(after[i] == model.lines[i - 1]);
                    } else if i == model.row {
                        assert(after[i] == line.take(col));
                    } else {
                        assert(after[i] == line.skip(col));
                    }
                }
            } else if byte == BACKSPACE {
                if col > 0 {
                    let from = chars::left_of(line, col);
                    chars::lemma_left_of(line, col);
                    chars::characters_stay_whole(line, from, col, Seq::empty());
                    lemma_whole_update(model.lines, model.row, chars::without(line, from, col));
                } else if model.row > 0 {
                    let before = model.lines[model.row - 1];
                    let after = buffer::joined_at(model.lines, model.row - 1);
                    utf8::valid_utf8_concat(before, line);
                    assert forall|i: int| 0 <= i < after.len() implies utf8::valid_utf8(
                        #[trigger] after[i],
                    ) by {
                        if i < model.row - 1 {
                            assert(after[i] == model.lines[i]);
                        } else if i == model.row - 1 {
                            assert(after[i] == before + line);
                        } else {
                            assert(after[i] == model.lines[i + 1]);
                        }
                    }
                }
            } else {
                lemma_one_byte(byte);
                chars::characters_stay_whole(line, col, col, seq![byte]);
                assert(line.insert(col, byte) =~= line.take(col) + seq![byte] + line.skip(col));
                lemma_whole_update(model.lines, model.row, line.insert(col, byte));
            }
        },
    }
}

/// No key takes a character apart: a text of UTF-8 stays UTF-8 whatever is moved,
/// erased, divided, joined or typed, as long as what is typed are characters of
/// one byte. Longer characters come byte by byte, and the text is UTF-8 again when
/// the last of them is there.
pub proof fn keys_keep_characters_whole(
    model: Model,
    rows: int,
    path: Seq<u8>,
    byte: u8,
    grants: Grants,
)
    requires
        model.wf(),
        whole(model.lines),
        byte < 0x80,
    ensures
        whole(model.key(rows, path, byte, grants).model.lines),
{
    let ready = Model { escape: Escape::Idle, ..model };
    chars::lemma_left_of(model.line(), model.col);
    lemma_typed_whole(model, rows, path, byte, grants);
    lemma_typed_whole(ready.lone_escape(rows, path).model, rows, path, byte, grants);
    lemma_without_whole(ready);
}

/// The editor after a byte.
#[verifier::opaque]
pub open spec fn after_byte(
    model: Model,
    rows: int,
    path: Seq<u8>,
    byte: u8,
    grants: Grants,
) -> Model {
    model.key(rows, path, byte, grants).model
}

/// The editor after bytes were typed one after the other.
pub open spec fn typed_all(
    model: Model,
    rows: int,
    path: Seq<u8>,
    text: Seq<u8>,
    grants: Grants,
) -> Model
    decreases text.len(),
{
    if text.len() == 0 {
        model
    } else {
        after_byte(
            typed_all(model, rows, path, text.drop_last(), grants),
            rows,
            path,
            text.last(),
            grants,
        )
    }
}

/// Whether there is memory for each of the bytes when it is typed.
pub open spec fn all_fit(
    model: Model,
    rows: int,
    path: Seq<u8>,
    text: Seq<u8>,
    grants: Grants,
) -> bool
    decreases text.len(),
{
    text.len() > 0 ==> {
        let before = typed_all(model, rows, path, text.drop_last(), grants);
        &&& all_fit(model, rows, path, text.drop_last(), grants)
        &&& buffer::text_fits(
            before.text_room,
            before.index_room,
            before.size() + 1,
            grants.text,
        )
    }
}

/// Whether some bytes are one character that is typed into a text.
pub open spec fn is_character(text: Seq<u8>) -> bool {
    &&& utf8::valid_first_scalar(text)
    &&& text.len() == utf8::length_of_first_scalar(text)
    &&& text[0] != NEWLINE && text[0] != BACKSPACE && text[0] != ESC
}

proof fn lemma_one_more(model: Model, rows: int, path: Seq<u8>, byte: u8, grants: Grants)
    requires
        model.wf(),
        model.mode == Mode::Insert,
        model.escape == Escape::Idle,
        model.col < model.line().len() ==> !chars::goes_on(model.line()[model.col]),
        byte != NEWLINE,
        byte != BACKSPACE,
        byte != ESC,
        buffer::text_fits(model.text_room, model.index_room, model.size() + 1, grants.text),
    ensures
        ({
            let after = after_byte(model, rows, path, byte, grants);
            &&& after.wf()
            &&& after.mode == Mode::Insert
            &&& after.escape == Escape::Idle
            &&& after.row == model.row
            &&& after.col == model.col + 1
            &&& after.lines == model.lines.update(
                model.row,
                model.line().insert(model.col, byte),
            )
        }),
{
    let longer = model.line().insert(model.col, byte);
    assert(model.col + 1 < longer.len() ==> longer[model.col + 1] == model.line()[model.col]);
    assert(chars::between(longer, model.col + 1));
    keys_keep_the_cursor_between_characters(model, rows, path, byte, grants);
    reveal(Model::typed);
    reveal(after_byte);
}

proof fn lemma_typed_all(
    model: Model,
    rows: int,
    path: Seq<u8>,
    text: Seq<u8>,
    grants: Grants,
)
    requires
        model.wf(),
        model.mode == Mode::Insert,
        model.escape == Escape::Idle,
        model.col < model.line().len() ==> !chars::goes_on(model.line()[model.col]),
        forall|i: int|
            0 <= i < text.len() ==> #[trigger] text[i] != NEWLINE && text[i] != BACKSPACE
                && text[i] != ESC,
        all_fit(model, rows, path, text, grants),
    ensures
        ({
            let after = typed_all(model, rows, path, text, grants);
            &&& after.wf()
            &&& after.mode == Mode::Insert
            &&& after.escape == Escape::Idle
            &&& after.row == model.row
            &&& after.col == model.col + text.len()
            &&& after.lines == model.lines.update(
                model.row,
                model.line().take(model.col) + text + model.line().skip(model.col),
            )
        }),
    decreases text.len(),
{
    let line = model.line();
    let col = model.col;
    if text.len() == 0 {
        assert(line.take(col) + text + line.skip(col) =~= line);
        assert(model.lines.update(model.row, line) =~= model.lines);
    } else {
        let fewer = text.drop_last();
        assert forall|i: int| 0 <= i < fewer.len() implies #[trigger] fewer[i] != NEWLINE
            && fewer[i] != BACKSPACE && fewer[i] != ESC by {
            assert(fewer[i] == text[i]);
        }
        lemma_typed_all(model, rows, path, fewer, grants);
        let before = typed_all(model, rows, path, fewer, grants);
        let byte = text.last();
        assert(byte == text[text.len() - 1]);
        let longer = before.line().insert(before.col, byte);
        let wanted = line.take(col) + text + line.skip(col);
        assert(before.line() == line.take(col) + fewer + line.skip(col));
        assert(longer =~= wanted);
        assert(before.col < before.line().len() ==> before.line()[before.col] == line[col]);
        lemma_one_more(before, rows, path, byte, grants);
        assert(before.lines.update(model.row, longer) =~= model.lines.update(model.row, wanted));
    }
}

/// A character of any length that is typed into a line of UTF-8 stands there
/// whole, before the cursor, and the line is UTF-8.
pub proof fn a_character_is_typed_whole(
    model: Model,
    rows: int,
    path: Seq<u8>,
    text: Seq<u8>,
    grants: Grants,
)
    requires
        model.wf(),
        model.mode == Mode::Insert,
        model.escape == Escape::Idle,
        utf8::valid_utf8(model.line()),
        is_character(text),
        all_fit(model, rows, path, text, grants),
    ensures
        ({
            let after = typed_all(model, rows, path, text, grants);
            &&& after.line() == model.line().take(model.col) + text + model.line().skip(model.col)
            &&& after.col == model.col + text.len()
            &&& utf8::valid_utf8(after.line())
            &&& utf8::is_char_boundary(after.line(), after.col)
        }),
{
    let line = model.line();
    lemma_starts(line, model.col);
    lemma_bytes_of(text);
    lemma_typed_all(model, rows, path, text, grants);
    let after = typed_all(model, rows, path, text, grants);
    assert(after.line() == line.take(model.col) + text + line.skip(model.col));
    assert(utf8::valid_utf8(text)) by {
        reveal_with_fuel(utf8::valid_utf8, 2);
        assert(utf8::pop_first_scalar(text) =~= Seq::<u8>::empty());
    }
    chars::characters_stay_whole(line, model.col, model.col, text);
    cursor_is_between_characters(after);
}

/// A character of any length that is typed and then erased by one key leaves the
/// text and the cursor as they were.
pub proof fn erasing_undoes_a_character(
    model: Model,
    rows: int,
    path: Seq<u8>,
    text: Seq<u8>,
    grants: Grants,
)
    requires
        model.wf(),
        model.mode == Mode::Insert,
        model.escape == Escape::Idle,
        utf8::valid_utf8(model.line()),
        is_character(text),
        all_fit(model, rows, path, text, grants),
    ensures
        ({
            let after = typed_all(model, rows, path, text, grants).key(
                rows,
                path,
                BACKSPACE,
                grants,
            ).model;
            after.lines == model.lines && after.row == model.row && after.col == model.col
        }),
{
    let line = model.line();
    let col = model.col;
    lemma_starts(line, col);
    lemma_bytes_of(text);
    lemma_typed_all(model, rows, path, text, grants);
    let typed = typed_all(model, rows, path, text, grants);
    let longer = line.take(col) + text + line.skip(col);
    assert(typed.line() == longer);
    let end = col + text.len();
    assert(longer[col] == text[0]);
    chars::lemma_left_of(longer, end);
    let back = chars::left_of(longer, end);
    chars::lemma_at_or_before(longer, end - 1);
    if back > col {
        assert(longer[back] == text[back - col]);
        assert(chars::goes_on(longer[back]));
    }
    if back < col {
        assert(!chars::between(longer, col));
    }
    assert(chars::without(longer, col, end) =~= line);
    assert(typed.lines.update(model.row, line) =~= model.lines);
    reveal(Model::typed);
}

/// Behind a position between characters a line of UTF-8 begins a character.
proof fn lemma_starts(line: Seq<u8>, at: int)
    requires
        utf8::valid_utf8(line),
        0 <= at <= line.len(),
        chars::between(line, at),
    ensures
        at < line.len() ==> !chars::goes_on(line[at]),
{
    if at < line.len() {
        chars::positions_are_between_characters(line, at);
        utf8::is_char_boundary_iff_not_is_continuation_byte(line, at);
    }
}

/// The bytes of a character: the first begins it, the others go on with it, and
/// none of them is a key.
proof fn lemma_bytes_of(text: Seq<u8>)
    requires
        is_character(text),
    ensures
        text.len() > 0,
        !chars::goes_on(text[0]),
        forall|i: int| 0 < i < text.len() ==> chars::goes_on(#[trigger] text[i]),
        forall|i: int|
            0 <= i < text.len() ==> #[trigger] text[i] != NEWLINE && text[i] != BACKSPACE
                && text[i] != ESC,
{
}

} // verus!
