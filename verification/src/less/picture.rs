//! What the pager's drawing leaves on the screen.
use crate::bytes;
use crate::chars;
use crate::decimal;
use crate::less::pager::{self, Model, Step};
use crate::line;
use crate::screen;
use crate::terminal::{self, Parsing, Terminal};
use vstd::prelude::*;
use vstd::utf8;

verus! {

/// What a row of the screen shows of the text: as much of a line as the screen
/// is wide, cut between characters, and nothing behind the last one.
pub open spec fn text_row(model: Model, row: int) -> Seq<u8> {
    let at = model.first() + row;
    if at < model.end() {
        chars::cut(model.lines[at], model.columns)
    } else {
        Seq::empty()
    }
}

/// What the status line says.
pub open spec fn status_text(model: Model) -> Seq<u8> {
    if model.echo.len() > 0 {
        chars::cut(model.echo, model.columns)
    } else {
        line::clip(model.position(), model.columns)
    }
}

/// The whole screen.
pub open spec fn picture(model: Model) -> Seq<Seq<u8>> {
    Seq::new(
        model.rows as nat,
        |row: int|
            if row < model.height() {
                text_row(model, row)
            } else {
                status_text(model)
            },
    )
}

/// Whether the text and the error line are made of bytes that stand for
/// themselves, and the window begins inside the text.
pub open spec fn plain(model: Model) -> bool {
    &&& 0 <= model.top
    &&& 0 <= model.columns
    &&& terminal::all_printable(model.echo)
    &&& forall|i: int|
        0 <= i < model.lines.len() ==> terminal::all_printable(#[trigger] model.lines[i])
}

proof fn lemma_rows(t: Terminal, model: Model, rows: int)
    requires
        t.parsing == Parsing::Ground,
        t.rows.len() == model.rows,
        plain(model),
        0 <= rows <= model.height(),
    ensures
        ({
            let after = t.fed(pager::rows_drawn(model, rows));
            &&& after.parsing == Parsing::Ground
            &&& after.rows.len() == model.rows
            &&& forall|i: int|
                0 <= i < model.rows ==> #[trigger] after.rows[i] == (if i < rows {
                    text_row(model, i)
                } else {
                    t.rows[i]
                })
        }),
    decreases rows,
{
    if rows > 0 {
        lemma_rows(t, model, rows - 1);
        let above = pager::rows_drawn(model, rows - 1);
        let last = pager::row_drawn(model, rows - 1);
        terminal::lemma_fed_two(t, above, last);
        let text = text_row(model, rows - 1);
        let at = model.first() + rows - 1;
        if at < model.end() {
            terminal::lemma_printable_cut(model.lines[at], model.columns);
        }
        terminal::lemma_row_drawn(t.fed(above), rows - 1, text);
    }
}

proof fn lemma_plain_position(model: Model)
    ensures
        terminal::all_printable(model.position()),
{
    reveal_strlit("less: lines ");
    reveal_strlit("-");
    reveal_strlit(" of ");
    reveal_strlit(" (q to quit)");
    let head = bytes::ascii("less: lines "@);
    let dash = bytes::ascii("-"@);
    let of = bytes::ascii(" of "@);
    let tail = bytes::ascii(" (q to quit)"@);
    let from: nat = if model.lines.len() == 0 {
        0
    } else {
        (model.first() + 1) as nat
    };
    let first = decimal::digits(from);
    let end = decimal::digits(model.end() as nat);
    let total = decimal::digits(model.lines.len());
    terminal::lemma_printable_digits(from);
    terminal::lemma_printable_digits(model.end() as nat);
    terminal::lemma_printable_digits(model.lines.len());
    terminal::lemma_printable_sum(head, first);
    terminal::lemma_printable_sum(head + first, dash);
    terminal::lemma_printable_sum(head + first + dash, end);
    terminal::lemma_printable_sum(head + first + dash + end, of);
    terminal::lemma_printable_sum(head + first + dash + end + of, total);
    terminal::lemma_printable_sum(head + first + dash + end + of + total, tail);
}

/// The status line is drawn in its row, and the others stay.
proof fn lemma_status(t: Terminal, model: Model)
    requires
        t.parsing == Parsing::Ground,
        t.rows.len() == model.rows,
        model.rows >= 1,
        plain(model),
    ensures
        ({
            let after = t.fed(model.status());
            &&& after.parsing == Parsing::Ground
            &&& after.rows == t.rows.update(model.height(), status_text(model))
        }),
{
    let row = model.height();
    let head = screen::cursor_to(row, 0) + bytes::ascii(screen::ERASE_LINE@);
    let none = Seq::<u8>::empty();
    let text = status_text(model);
    lemma_plain_position(model);
    terminal::lemma_printable_cut(model.echo, model.columns);
    terminal::lemma_printable_clip(model.position(), model.columns);
    if model.echo.len() > 0 {
        terminal::lemma_row_drawn(t, row, text);
    } else {
        reveal_strlit("\x1b[38;2;0;200;200m");
        reveal_strlit("\x1b[0m");
        let colour = bytes::ascii(pager::STATUS_COLOR@);
        let reset = bytes::ascii(screen::RESET@);
        assert(model.status() =~= head + none + colour + text + reset);
        terminal::lemma_row_drawn(t, row, none);
        let blank = t.fed(head + none);
        let parameters = colour.subrange(2, colour.len() - 1);
        assert(colour =~= seq![bytes::ESC, '[' as u8] + parameters + seq!['m' as u8]);
        terminal::lemma_passed_over(blank, parameters, 'm' as u8, colour);
        terminal::lemma_fed_two(t, head + none, colour);
        terminal::lemma_fed_two(t, head + none + colour, text);
        terminal::lemma_text(blank, text);
        let written = blank.fed(text);
        terminal::lemma_fed_two(t, head + none + colour + text, reset);
        let zero = seq!['0' as u8];
        assert(reset =~= seq![bytes::ESC, '[' as u8] + zero + seq!['m' as u8]);
        terminal::lemma_passed_over(written, zero, 'm' as u8, reset);
        assert(none + text =~= text);
        assert(written.rows =~= t.rows.update(row, text));
    }
}

/// Drawing everything shows the window on the text and the status line,
/// whatever was there before.
pub proof fn redrawing_shows_everything(t: Terminal, model: Model)
    requires
        t.parsing == Parsing::Ground,
        t.rows.len() == model.rows,
        model.rows >= 1,
        plain(model),
    ensures
        t.fed(model.screen()).parsing == Parsing::Ground,
        t.fed(model.screen()).rows == picture(model),
{
    let text = pager::rows_drawn(model, model.height());
    terminal::lemma_fed_two(t, text, model.status());
    lemma_rows(t, model, model.height());
    lemma_status(t.fed(text), model);
    assert(t.fed(model.screen()).rows =~= picture(model));
}

/// Whether the screen shows the text: the window on it. The status line counts
/// from the last time that it was drawn.
pub open spec fn on_screen(t: Terminal, model: Model) -> bool {
    &&& plain(model)
    &&& model.rows >= 1
    &&& t.parsing == Parsing::Ground
    &&& t.rows.len() == model.rows
    &&& forall|i: int| 0 <= i < model.height() ==> #[trigger] t.rows[i] == text_row(model, i)
}

/// The screen follows the window: whatever the keyboard gives, the rows of the
/// text show the window on it, until the pager is left.
pub proof fn screen_follows_the_window(t: Terminal, model: Model, got: i64, byte: u8)
    requires
        on_screen(t, model),
        model.heard(got, byte).step != Step::Quit,
    ensures
        on_screen(t.fed(model.heard(got, byte).shown), model.heard(got, byte).model),
{
    let effect = model.heard(got, byte);
    let after = effect.model;
    if effect.shown == after.screen() {
        redrawing_shows_everything(t, after);
        let shown = picture(after);
        assert forall|i: int| 0 <= i < after.height() implies #[trigger] shown[i] == text_row(
            after,
            i,
        ) by {}
    } else if effect.shown == after.status() {
        lemma_status(t, after);
        assert forall|i: int| 0 <= i < after.height() implies #[trigger] t.rows[i] == text_row(
            after,
            i,
        ) by {
            assert(text_row(after, i) == text_row(model, i));
        }
    } else {
        assert(effect.shown.len() == 0);
        assert forall|i: int| 0 <= i < after.height() implies #[trigger] t.rows[i] == text_row(
            after,
            i,
        ) by {
            assert(text_row(after, i) == text_row(model, i));
        }
    }
}

/// The screen shows the text from the beginning: whatever was on it, entering it
/// and drawing everything shows the window.
pub proof fn screen_begins_with_the_window(t: Terminal, model: Model)
    requires
        t.parsing == Parsing::Ground,
        t.rows.len() == model.rows,
        model.rows >= 1,
        plain(model),
    ensures
        on_screen(t.fed(bytes::ascii(screen::ENTER_SCREEN@) + model.screen()), model),
{
    reveal_strlit("\x1b[?1049h");
    let enter = bytes::ascii(screen::ENTER_SCREEN@);
    let parameters = enter.subrange(2, enter.len() - 1);
    assert(enter =~= seq![bytes::ESC, '[' as u8] + parameters + seq!['h' as u8]);
    terminal::lemma_passed_over(t, parameters, 'h' as u8, enter);
    terminal::lemma_fed_two(t, enter, model.screen());
    redrawing_shows_everything(t, model);
    let shown = picture(model);
    assert forall|i: int| 0 <= i < model.height() implies #[trigger] shown[i] == text_row(
        model,
        i,
    ) by {}
}

/// No row takes a character apart: what a row shows of a line of UTF-8 is UTF-8,
/// and so is what the status line shows of an error.
pub proof fn rows_keep_characters_whole(model: Model, row: int)
    requires
        0 <= model.columns,
        0 <= row,
        0 <= model.top,
        model.first() + row < model.end(),
        utf8::valid_utf8(model.lines[model.first() + row]),
        utf8::valid_utf8(model.echo),
    ensures
        utf8::valid_utf8(text_row(model, row)),
        model.echo.len() > 0 ==> utf8::valid_utf8(status_text(model)),
        text_row(model, row).len() <= model.columns,
{
    chars::cuts_keep_characters_whole(model.lines[model.first() + row], model.columns);
    chars::lemma_cut(model.lines[model.first() + row], model.columns);
    chars::cuts_keep_characters_whole(model.echo, model.columns);
}

/// A row of the screen shows the line that is as far below the first one, as much
/// of it as the screen is wide, and rows behind the last line are empty. The last
/// row is the status line.
pub proof fn rows_show_the_lines_from_the_top(t: Terminal, model: Model, row: int)
    requires
        t.parsing == Parsing::Ground,
        t.rows.len() == model.rows,
        model.rows >= 1,
        plain(model),
        model.top <= model.lines.len(),
        0 <= row < model.rows,
    ensures
        ({
            let shown = t.fed(model.screen()).rows[row];
            let at = model.top + row;
            &&& row < model.rows - 1 && at < model.lines.len() && model.lines[at].len()
                <= model.columns ==> shown == model.lines[at]
            &&& row < model.rows - 1 && at < model.lines.len() ==> shown.is_prefix_of(
                model.lines[at],
            ) && shown.len() <= model.columns
            &&& row < model.rows - 1 && at >= model.lines.len() ==> shown.len() == 0
            &&& row == model.rows - 1 && model.echo.len() == 0 && model.position().len()
                <= model.columns ==> shown == model.position()
            &&& row == model.rows - 1 && 0 < model.echo.len() <= model.columns ==> shown
                == model.echo
        }),
{
    redrawing_shows_everything(t, model);
    let at = model.top + row;
    if at < model.lines.len() {
        chars::lemma_cut(model.lines[at], model.columns);
    }
    chars::lemma_cut(model.echo, model.columns);
}

} // verus!
