//! The line and its characters: the cursor stands between two of them, and no key
//! takes one apart.
use crate::bytes::{self, BACKSPACE};
use crate::chars;
use crate::zash::edit::{self, Escape, Model};
use crate::zash::expand::LINE_MAX;
use vstd::prelude::*;
use vstd::utf8;

verus! {

/// Whether the line and all that can be recalled are UTF-8.
pub open spec fn whole(model: Model) -> bool {
    &&& utf8::valid_utf8(model.line)
    &&& utf8::valid_utf8(model.saved)
    &&& forall|i: int|
        0 <= i < model.history.len() ==> utf8::valid_utf8(#[trigger] model.history[i])
}

/// The insertion point is always between two characters: in a line of UTF-8 the
/// cursor parts the line into two that are UTF-8 too.
pub proof fn cursor_is_between_characters(model: Model)
    requires
        model.wf(),
        utf8::valid_utf8(model.line),
    ensures
        utf8::is_char_boundary(model.line, model.cursor),
        utf8::valid_utf8(model.line.take(model.cursor)),
        utf8::valid_utf8(model.line.skip(model.cursor)),
{
    chars::positions_are_between_characters(model.line, model.cursor);
}

proof fn lemma_delete(model: Model, start: int, end: int)
    requires
        model.wf(),
        0 <= start,
    ensures
        model.delete(start, end).model.wf(),
        whole(model) ==> whole(model.delete(start, end).model),
{
    if start < end && end <= model.line.len() {
        let from = chars::at_or_before(model.line, start);
        let to = chars::at_or_behind(model.line, end);
        chars::lemma_at_or_before(model.line, start);
        chars::lemma_at_or_behind(model.line, end);
        chars::lemma_without(model.line, from, to);
        let line = chars::without(model.line, from, to);
        assert forall|i: int| 0 <= i < line.len() implies #[trigger] line[i] >= 0x20 by {
            assert(line[i] == model.line[if i < from {
                i
            } else {
                i + (to - from)
            }]);
        }
        if whole(model) {
            chars::characters_stay_whole(model.line, from, to, Seq::empty());
        }
    }
}

proof fn lemma_moves(model: Model)
    requires
        model.wf(),
    ensures
        model.left().model.wf(),
        model.right().model.wf(),
        model.to_start().model.wf(),
        model.to_end().model.wf(),
{
    chars::lemma_left_of(model.line, model.cursor);
    chars::lemma_right_of(model.line, model.cursor);
}

proof fn lemma_history(model: Model)
    requires
        model.wf(),
    ensures
        model.previous().model.wf(),
        model.next().model.wf(),
        whole(model) ==> whole(model.previous().model) && whole(model.next().model),
{
}

proof fn lemma_enter(model: Model)
    requires
        model.wf(),
    ensures
        model.enter().model.wf(),
        model.abandon().model.wf(),
        whole(model) ==> whole(model.enter().model) && whole(model.abandon().model),
{
    let before = model.history;
    let after = edit::remembered(before, model.line);
    assert(utf8::valid_utf8(Seq::<u8>::empty()));
    assert forall|i: int| 0 <= i < after.len() implies edit::typeable(#[trigger] after[i]) && (
    whole(model) ==> utf8::valid_utf8(after[i])) by {
        if after != before {
            if before.len() < edit::HISTORY_MAX {
                if i < before.len() {
                    assert(after[i] == before[i]);
                }
            } else if i < before.len() - 1 {
                assert(after[i] == before[i + 1]);
            }
        } else {
            assert(after[i] == before[i]);
        }
    }
}

proof fn lemma_put(model: Model, byte: u8)
    requires
        model.wf(),
        byte >= 0x20,
    ensures
        model.put(byte).model.wf(),
        whole(model) && byte < 0x80 ==> whole(model.put(byte).model),
{
    let cursor = model.cursor;
    let line = model.line.insert(cursor, byte);
    chars::lemma_at_or_behind(line, cursor + 1);
    assert forall|i: int| 0 <= i < line.len() implies #[trigger] line[i] >= 0x20 by {
        if i < cursor {
            assert(line[i] == model.line[i]);
        } else if i > cursor {
            assert(line[i] == model.line[i - 1]);
        }
    }
    if whole(model) && byte < 0x80 {
        assert(utf8::valid_utf8(seq![byte])) by {
            reveal_with_fuel(utf8::valid_utf8, 2);
            assert(utf8::pop_first_scalar(seq![byte]) =~= Seq::<u8>::empty());
            assert(byte & 0x7f < 0x80) by (bit_vector);
        }
        chars::characters_stay_whole(model.line, cursor, cursor, seq![byte]);
        assert(line =~= model.line.take(cursor) + seq![byte] + model.line.skip(cursor));
    }
}

proof fn lemma_plain(model: Model, byte: u8)
    requires
        model.wf(),
    ensures
        model.plain(byte).model.wf(),
        whole(model) && byte < 0x80 ==> whole(model.plain(byte).model),
{
    let cursor = model.cursor;
    lemma_moves(model);
    lemma_history(model);
    lemma_enter(model);
    if byte >= 0x20 {
        lemma_put(model, byte);
    }
    lemma_delete(
        model,
        if cursor > 0 {
            cursor - 1
        } else {
            0
        },
        cursor,
    );
    lemma_delete(model, cursor, cursor + 1);
    lemma_delete(model, cursor, model.line.len() as int);
    lemma_delete(model, 0, cursor);
    lemma_word(model.line, cursor);
    lemma_delete(model, edit::word_begin(model.line, cursor), cursor);
}

proof fn lemma_word(line: Seq<u8>, cursor: int)
    requires
        0 <= cursor <= line.len(),
    ensures
        0 <= edit::word_begin(line, cursor),
{
    lemma_spaces(line, cursor);
    lemma_letters(line, edit::spaces_begin(line, cursor));
}

proof fn lemma_spaces(line: Seq<u8>, at: int)
    requires
        0 <= at,
    ensures
        0 <= edit::spaces_begin(line, at),
    decreases at,
{
    if at > 0 && line[at - 1] == bytes::SPACE {
        lemma_spaces(line, at - 1);
    }
}

proof fn lemma_letters(line: Seq<u8>, at: int)
    requires
        0 <= at,
    ensures
        0 <= edit::letters_begin(line, at),
    decreases at,
{
    if at > 0 && line[at - 1] != bytes::SPACE {
        lemma_letters(line, at - 1);
    }
}

/// Whether the editor of the line is in order, and UTF-8 where it has to be.
#[verifier::opaque]
spec fn kept(has_to: bool, model: Model) -> bool {
    model.wf() && (has_to ==> whole(model))
}

proof fn lemma_plain_kept(model: Model, byte: u8)
    requires
        model.wf(),
    ensures
        kept(whole(model) && byte < 0x80, model.plain(byte).model),
{
    reveal(kept);
    lemma_plain(model, byte);
}

proof fn lemma_idle_kept(model: Model, escape: Escape)
    requires
        model.wf(),
    ensures
        kept(whole(model), Model { escape, ..model }),
        whole(Model { escape, ..model }) <==> whole(model),
{
    reveal(kept);
    let other = Model { escape, ..model };
    if whole(other) {
        assert forall|i: int| 0 <= i < model.history.len() implies utf8::valid_utf8(
            #[trigger] model.history[i],
        ) by {
            assert(other.history[i] == model.history[i]);
        }
    }
}

proof fn lemma_others_kept(model: Model)
    requires
        model.wf(),
    ensures
        kept(whole(model), model.left().model),
        kept(whole(model), model.right().model),
        kept(whole(model), model.to_start().model),
        kept(whole(model), model.to_end().model),
        kept(whole(model), model.previous().model),
        kept(whole(model), model.next().model),
        kept(whole(model), model.delete(model.cursor, model.cursor + 1).model),
{
    reveal(kept);
    lemma_moves(model);
    lemma_history(model);
    lemma_delete(model, model.cursor, model.cursor + 1);
}

proof fn lemma_key_kept(model: Model, byte: u8)
    requires
        model.wf(),
    ensures
        kept(whole(model), model.key(byte).model) || kept(
            whole(model) && byte < 0x80,
            model.key(byte).model,
        ),
{
    let ready = Model { escape: Escape::Idle, ..model };
    lemma_idle_kept(model, Escape::Idle);
    lemma_idle_kept(model, Escape::Esc);
    lemma_idle_kept(model, Escape::Bracket);
    lemma_idle_kept(model, Escape::Number(byte));
    lemma_plain_kept(model, byte);
    lemma_plain_kept(ready, byte);
    lemma_others_kept(ready);
}

/// Whatever is typed, the cursor stays on the line and between characters; and no
/// key takes a character apart: a line of UTF-8 stays UTF-8 whatever is moved,
/// erased, recalled or typed, as long as what is typed are characters of one byte.
/// Longer characters come byte by byte, and the line is UTF-8 again when the last
/// of them is there.
pub proof fn keys_keep_characters_whole(model: Model, byte: u8)
    requires
        model.wf(),
    ensures
        model.key(byte).model.wf(),
        whole(model) && byte < 0x80 ==> whole(model.key(byte).model),
{
    reveal(kept);
    lemma_key_kept(model, byte);
}

/// The editor of the line after a byte.
#[verifier::opaque]
pub open spec fn after_byte(model: Model, byte: u8) -> Model {
    model.key(byte).model
}

/// The editor of the line after bytes were typed one after the other.
pub open spec fn typed_all(model: Model, text: Seq<u8>) -> Model
    decreases text.len(),
{
    if text.len() == 0 {
        model
    } else {
        after_byte(typed_all(model, text.drop_last()), text.last())
    }
}

/// Whether some bytes are one character that is typed into a line.
pub open spec fn is_character(text: Seq<u8>) -> bool {
    &&& utf8::valid_first_scalar(text)
    &&& text.len() == utf8::length_of_first_scalar(text)
    &&& text[0] >= 0x20
}

proof fn lemma_one_more(model: Model, byte: u8)
    requires
        model.wf(),
        model.escape == Escape::Idle,
        model.cursor < model.line.len() ==> !chars::goes_on(model.line[model.cursor]),
        byte >= 0x20,
        model.line.len() + 1 < LINE_MAX,
    ensures
        after_byte(model, byte) == (Model {
            line: model.line.insert(model.cursor, byte),
            cursor: model.cursor + 1,
            ..model
        }),
        after_byte(model, byte).wf(),
{
    let longer = model.line.insert(model.cursor, byte);
    assert(model.cursor + 1 < longer.len() ==> longer[model.cursor + 1]
        == model.line[model.cursor]);
    assert(chars::between(longer, model.cursor + 1));
    keys_keep_characters_whole(model, byte);
    reveal(after_byte);
}

proof fn lemma_typed_all(model: Model, text: Seq<u8>)
    requires
        model.wf(),
        model.escape == Escape::Idle,
        model.cursor < model.line.len() ==> !chars::goes_on(model.line[model.cursor]),
        forall|i: int| 0 <= i < text.len() ==> #[trigger] text[i] >= 0x20,
        model.line.len() + text.len() < LINE_MAX,
    ensures
        typed_all(model, text).wf(),
        typed_all(model, text) == (Model {
            line: model.line.take(model.cursor) + text + model.line.skip(model.cursor),
            cursor: model.cursor + text.len(),
            ..model
        }),
    decreases text.len(),
{
    let line = model.line;
    let cursor = model.cursor;
    if text.len() == 0 {
        assert(line.take(cursor) + text + line.skip(cursor) =~= line);
    } else {
        let fewer = text.drop_last();
        assert forall|i: int| 0 <= i < fewer.len() implies #[trigger] fewer[i] >= 0x20 by {
            assert(fewer[i] == text[i]);
        }
        lemma_typed_all(model, fewer);
        let before = typed_all(model, fewer);
        let byte = text.last();
        assert(byte == text[text.len() - 1]);
        assert(before.cursor < before.line.len() ==> before.line[before.cursor] == line[cursor]);
        lemma_one_more(before, byte);
        assert(before.line.insert(before.cursor, byte) =~= line.take(cursor) + text + line.skip(
            cursor,
        ));
    }
}

/// A character of any length that is typed into a line of UTF-8, where there is
/// room for it, stands there whole, before the cursor, and the line is UTF-8. One
/// key erases it again, and leaves everything as it was.
pub proof fn erasing_undoes_a_character(model: Model, text: Seq<u8>)
    requires
        model.wf(),
        model.escape == Escape::Idle,
        utf8::valid_utf8(model.line),
        is_character(text),
        model.line.len() + text.len() < LINE_MAX,
    ensures
        ({
            let typed = typed_all(model, text);
            &&& typed.line == model.line.take(model.cursor) + text + model.line.skip(model.cursor)
            &&& typed.cursor == model.cursor + text.len()
            &&& utf8::valid_utf8(typed.line)
            &&& utf8::is_char_boundary(typed.line, typed.cursor)
            &&& typed.key(BACKSPACE).model == model
        }),
{
    let line = model.line;
    let cursor = model.cursor;
    if cursor < line.len() {
        chars::positions_are_between_characters(line, cursor);
        utf8::is_char_boundary_iff_not_is_continuation_byte(line, cursor);
    }
    assert forall|i: int| 0 < i < text.len() implies chars::goes_on(#[trigger] text[i]) by {}
    assert(!chars::goes_on(text[0]));
    lemma_typed_all(model, text);
    let typed = typed_all(model, text);
    let longer = line.take(cursor) + text + line.skip(cursor);
    assert(utf8::valid_utf8(text)) by {
        reveal_with_fuel(utf8::valid_utf8, 2);
        assert(utf8::pop_first_scalar(text) =~= Seq::<u8>::empty());
    }
    chars::characters_stay_whole(line, cursor, cursor, text);
    cursor_is_between_characters(typed);
    let end = cursor + text.len();
    assert(longer[cursor] == text[0]);
    chars::lemma_at_or_before(longer, end - 1);
    let back = chars::at_or_before(longer, end - 1);
    if back > cursor {
        assert(longer[back] == text[back - cursor]);
        assert(chars::goes_on(longer[back]));
    }
    if back < cursor {
        assert(!chars::between(longer, cursor));
    }
    assert(chars::at_or_behind(longer, end) == end);
    assert(chars::without(longer, cursor, end) =~= line);
}

} // verus!
