//! What the editor's drawing leaves on the screen: the lines that the window
//! shows, and the cursor where it is in the text.
use crate::bytes;
use crate::chars;
use crate::decimal;
use crate::screen;
use crate::terminal::{self, Parsing, Terminal};
use crate::zi::buffer::{self, Grants};
use crate::zi::draw::{self, Mode, Shown};
use crate::zi::editor::{self, Direction, Escape, Message, Model, Outcome};
use vstd::prelude::*;

verus! {

/// What a row of the screen shows of the text.
pub open spec fn text_row(lines: Seq<Seq<u8>>, top: int, row: int) -> Seq<u8> {
    if top + row < lines.len() {
        lines[top + row]
    } else {
        Seq::empty()
    }
}

/// What the status line says.
pub open spec fn status_text(path: Seq<u8>, s: Shown) -> Seq<u8> {
    draw::label(s.mode) + bytes::ascii(" "@) + draw::shown_name(path) + bytes::ascii(" "@)
        + decimal::digits((s.row + 1) as nat) + bytes::ascii(":"@) + decimal::digits(
        (s.col + 1) as nat,
    ) + (if s.dirty {
        bytes::ascii(" [+]"@)
    } else {
        Seq::empty()
    })
}

/// What the bottom line says.
pub open spec fn command_text(s: Shown) -> Seq<u8> {
    if s.in_command {
        bytes::ascii(":"@) + (if s.command.len() <= draw::COMMAND_MAX {
            s.command
        } else {
            s.command.take(draw::COMMAND_MAX as int)
        })
    } else {
        s.message
    }
}

/// The whole screen: the window on the text, and the two lines at the bottom.
pub open spec fn picture(
    rows: int,
    path: Seq<u8>,
    lines: Seq<Seq<u8>>,
    top: int,
    s: Shown,
) -> Seq<Seq<u8>> {
    Seq::new(
        rows as nat,
        |row: int|
            if row < rows - 2 {
                text_row(lines, top, row)
            } else if row == rows - 2 {
                status_text(path, s)
            } else {
                command_text(s)
            },
    )
}

/// Whether the two lines at the bottom of the screen say a status.
pub open spec fn says(t: Terminal, rows: int, path: Seq<u8>, s: Shown) -> bool {
    t.rows[rows - 2] == status_text(path, s) && t.rows[rows - 1] == command_text(s)
}

/// What the bottom lines say of a text that was changed.
pub open spec fn changed_status(mode: Mode, row: int, col: int) -> Shown {
    Shown {
        mode,
        row,
        col,
        dirty: true,
        command: Seq::empty(),
        in_command: false,
        message: Seq::empty(),
    }
}

/// Whether all lines are made of bytes that stand for themselves.
pub open spec fn plain_lines(lines: Seq<Seq<u8>>) -> bool {
    forall|i: int| 0 <= i < lines.len() ==> terminal::all_printable(#[trigger] lines[i])
}

/// Whether everything that the bottom lines say is made of such bytes.
pub open spec fn plain_status(path: Seq<u8>, s: Shown) -> bool {
    terminal::all_printable(draw::shown_name(path)) && terminal::all_printable(s.command)
        && terminal::all_printable(s.message) && 0 <= s.row && 0 <= s.col
}

/// Whether a line and a column are on the screen.
pub open spec fn in_view(rows: int, top: int, row: int) -> bool {
    top <= row < top + (rows - 2)
}

/// What stands in the status line behind the mode.
spec fn status_tail(path: Seq<u8>, s: Shown) -> Seq<u8> {
    bytes::ascii(" "@) + draw::shown_name(path) + bytes::ascii(" "@) + decimal::digits(
        (s.row + 1) as nat,
    ) + bytes::ascii(":"@) + decimal::digits((s.col + 1) as nat) + (if s.dirty {
        bytes::ascii(" [+]"@)
    } else {
        Seq::empty()
    })
}

proof fn lemma_plain_tail(path: Seq<u8>, s: Shown)
    requires
        plain_status(path, s),
    ensures
        terminal::all_printable(status_tail(path, s)),
{
    reveal_strlit(" ");
    reveal_strlit(":");
    reveal_strlit(" [+]");
    let space = bytes::ascii(" "@);
    let colon = bytes::ascii(":"@);
    let mark = bytes::ascii(" [+]"@);
    assert(terminal::all_printable(space));
    assert(terminal::all_printable(colon));
    assert(terminal::all_printable(mark));
    let row = decimal::digits((s.row + 1) as nat);
    let col = decimal::digits((s.col + 1) as nat);
    terminal::lemma_printable_digits((s.row + 1) as nat);
    terminal::lemma_printable_digits((s.col + 1) as nat);
    let name = draw::shown_name(path);
    terminal::lemma_printable_sum(space, name);
    terminal::lemma_printable_sum(space + name, space);
    terminal::lemma_printable_sum(space + name + space, row);
    terminal::lemma_printable_sum(space + name + space + row, colon);
    terminal::lemma_printable_sum(space + name + space + row + colon, col);
    terminal::lemma_printable_sum(
        space + name + space + row + colon + col,
        if s.dirty {
            mark
        } else {
            Seq::empty()
        },
    );
}

proof fn lemma_plain_label(mode: Mode)
    ensures
        terminal::all_printable(draw::label(mode)),
{
    reveal_strlit("-- NORMAL  --");
    reveal_strlit("-- INSERT  --");
    reveal_strlit("-- COMMAND --");
    let text = draw::label(mode);
    assert forall|i: int| 0 <= i < text.len() implies terminal::printable(#[trigger] text[i]) by {
        assert(text.len() == 13);
    }
}

/// The colour that the mode is shown in.
proof fn lemma_status_colour(t: Terminal)
    requires
        t.parsing == Parsing::Ground,
    ensures
        t.fed(bytes::ascii(draw::STATUS_COLOR@)) == t,
        t.fed(bytes::ascii(screen::RESET@)) == t,
{
    reveal_strlit("\x1b[38;2;200;200;0m");
    reveal_strlit("\x1b[0m");
    let colour = bytes::ascii(draw::STATUS_COLOR@);
    let parameters = colour.subrange(2, colour.len() - 1);
    assert(colour =~= seq![bytes::ESC, '[' as u8] + parameters + seq!['m' as u8]);
    terminal::lemma_passed_over(t, parameters, 'm' as u8, colour);
    let reset = bytes::ascii(screen::RESET@);
    let zero = seq!['0' as u8];
    assert(reset =~= seq![bytes::ESC, '[' as u8] + zero + seq!['m' as u8]);
    terminal::lemma_passed_over(t, zero, 'm' as u8, reset);
}

/// The status line is drawn in its row.
proof fn lemma_status_line(t: Terminal, rows: int, path: Seq<u8>, s: Shown)
    requires
        t.parsing == Parsing::Ground,
        t.rows.len() == rows,
        rows >= 2,
        plain_status(path, s),
    ensures
        t.fed(draw::status_line(rows, path, s)) == (Terminal {
            rows: t.rows.update(rows - 2, status_text(path, s)),
            row: rows - 2,
            col: status_text(path, s).len() as int,
            ..t
        }),
{
    let head = screen::cursor_to(rows - 2, 0) + bytes::ascii(screen::ERASE_LINE@);
    let none = Seq::<u8>::empty();
    let colour = bytes::ascii(draw::STATUS_COLOR@);
    let label = draw::label(s.mode);
    let reset = bytes::ascii(screen::RESET@);
    let tail = status_tail(path, s);
    lemma_plain_label(s.mode);
    lemma_plain_tail(path, s);
    assert(draw::status_line(rows, path, s) =~= head + none + colour + label + reset + tail);
    terminal::lemma_row_drawn(t, rows - 2, none);
    let blank = t.fed(head + none);
    terminal::lemma_fed_two(t, head + none, colour);
    lemma_status_colour(blank);
    terminal::lemma_fed_two(t, head + none + colour, label);
    terminal::lemma_text(blank, label);
    let named = blank.fed(label);
    terminal::lemma_fed_two(t, head + none + colour + label, reset);
    lemma_status_colour(named);
    terminal::lemma_fed_two(t, head + none + colour + label + reset, tail);
    assert(none + label =~= label);
    terminal::lemma_text(named, tail);
    assert(label + tail =~= status_text(path, s));
    assert(named.fed(tail).rows =~= t.rows.update(rows - 2, status_text(path, s)));
}

/// The bottom line is drawn in its row.
proof fn lemma_command_line(t: Terminal, rows: int, path: Seq<u8>, s: Shown)
    requires
        t.parsing == Parsing::Ground,
        t.rows.len() == rows,
        rows >= 2,
        plain_status(path, s),
    ensures
        t.fed(draw::command_line(rows, s)) == (Terminal {
            rows: t.rows.update(rows - 1, command_text(s)),
            row: rows - 1,
            col: command_text(s).len() as int,
            ..t
        }),
{
    reveal_strlit(":");
    let colon = bytes::ascii(":"@);
    assert(terminal::all_printable(colon));
    let typed = if s.command.len() <= draw::COMMAND_MAX {
        s.command
    } else {
        s.command.take(draw::COMMAND_MAX as int)
    };
    terminal::lemma_printable_clip(s.command, draw::COMMAND_MAX as int);
    terminal::lemma_printable_sum(colon, typed);
    terminal::lemma_row_drawn(t, rows - 1, command_text(s));
    assert(draw::command_line(rows, s) =~= screen::cursor_to(rows - 1, 0) + bytes::ascii(
        screen::ERASE_LINE@,
    ) + command_text(s));
}

/// The two lines at the bottom are drawn, the cursor is back in the text, and
/// the rows above stay.
proof fn lemma_refreshed(t: Terminal, rows: int, path: Seq<u8>, top: int, s: Shown)
    requires
        t.parsing == Parsing::Ground,
        t.rows.len() == rows,
        rows >= 3,
        0 <= top,
        plain_status(path, s),
        in_view(rows, top, s.row),
    ensures
        t.fed(draw::refreshed(rows, path, top, s)) == (Terminal {
            rows: t.rows.update(rows - 2, status_text(path, s)).update(rows - 1, command_text(s)),
            row: s.row - top,
            col: s.col,
            ..t
        }),
{
    let status = draw::status_line(rows, path, s);
    let command = draw::command_line(rows, s);
    let cursor = draw::cursor_in(top, rows - 2, s.row, s.col);
    terminal::lemma_fed_two(t, status + command, cursor);
    terminal::lemma_fed_two(t, status, command);
    lemma_status_line(t, rows, path, s);
    let first = t.fed(status);
    lemma_command_line(first, rows, path, s);
    let second = first.fed(command);
    terminal::lemma_cursor_to(second, s.row - top, s.col);
}

/// Lines drawn on a blank screen, one on each row.
proof fn lemma_rows_of(t: Terminal, lines: Seq<Seq<u8>>, first: int, end: int)
    requires
        t.parsing == Parsing::Ground,
        plain_lines(lines),
        0 <= first <= end <= lines.len(),
        end - first <= t.rows.len(),
        forall|i: int| 0 <= i < t.rows.len() ==> (#[trigger] t.rows[i]).len() == 0,
    ensures
        ({
            let after = t.fed(draw::rows_of(lines, first, end));
            &&& after.parsing == Parsing::Ground
            &&& after.rows == Seq::new(
                t.rows.len(),
                |row: int|
                    if row < end - first {
                        lines[first + row]
                    } else {
                        Seq::<u8>::empty()
                    },
            )
        }),
    decreases end - first,
{
    let want = Seq::new(
        t.rows.len(),
        |row: int|
            if row < end - first {
                lines[first + row]
            } else {
                Seq::<u8>::empty()
            },
    );
    if end > first {
        lemma_rows_of(t, lines, first, end - 1);
        let above = draw::rows_of(lines, first, end - 1);
        let last = screen::cursor_to(end - 1 - first, 0) + bytes::ascii(screen::ERASE_LINE@)
            + lines[end - 1];
        assert(draw::rows_of(lines, first, end) =~= above + last);
        terminal::lemma_fed_two(t, above, last);
        terminal::lemma_row_drawn(t.fed(above), end - 1 - first, lines[end - 1]);
        assert(t.fed(above + last).rows =~= want);
    } else {
        assert forall|row: int| 0 <= row < t.rows.len() implies t.rows[row] == want[row] by {
            assert(t.rows[row] =~= Seq::<u8>::empty());
        }
        assert(t.rows =~= want);
    }
}

/// Drawing everything shows the window on the text, the two lines at the
/// bottom, and the cursor where it is in the text, whatever was there before.
pub proof fn redrawing_shows_everything(
    t: Terminal,
    rows: int,
    path: Seq<u8>,
    lines: Seq<Seq<u8>>,
    top: int,
    s: Shown,
)
    requires
        t.parsing == Parsing::Ground,
        t.rows.len() == rows,
        rows >= 3,
        plain_lines(lines),
        plain_status(path, s),
        0 <= top,
        s.row < lines.len(),
        in_view(rows, top, s.row),
    ensures
        t.fed(draw::redrawn(rows, path, lines, top, s)) == (Terminal {
            rows: picture(rows, path, lines, top, s),
            row: s.row - top,
            col: s.col,
            parsing: Parsing::Ground,
        }),
{
    let total = lines.len() as int;
    let end = if top + (rows - 2) <= total {
        top + (rows - 2)
    } else {
        total
    };
    let erase = bytes::ascii(screen::ERASE_SCREEN@);
    let text = draw::rows_of(lines, top, end);
    let bottom = draw::refreshed(rows, path, top, s);
    assert(draw::redrawn(rows, path, lines, top, s) == erase + text + bottom);
    terminal::lemma_fed_two(t, erase + text, bottom);
    terminal::lemma_fed_two(t, erase, text);
    terminal::lemma_erase_screen(t);
    let blank = t.fed(erase);
    lemma_rows_of(blank, lines, top, end);
    let drawn = blank.fed(text);
    lemma_refreshed(drawn, rows, path, top, s);
    assert(drawn.fed(bottom).rows =~= picture(rows, path, lines, top, s));
}

/// Whether the screen shows the text: the window on it, and the cursor.
pub open spec fn shows_text(
    t: Terminal,
    rows: int,
    lines: Seq<Seq<u8>>,
    top: int,
    row: int,
    col: int,
) -> bool {
    &&& t.parsing == Parsing::Ground
    &&& t.rows.len() == rows
    &&& t.row == row - top
    &&& t.col == col
    &&& forall|i: int| 0 <= i < rows - 2 ==> #[trigger] t.rows[i] == text_row(lines, top, i)
}

/// The row of the screen that a line which comes into view is drawn in.
spec fn entering_row(rows: int, down: bool) -> int {
    if down {
        rows - 3
    } else {
        0
    }
}

/// The bytes that move the screen by one line.
spec fn motion(down: bool) -> Seq<u8> {
    screen::cursor_to(0, 0) + (if down {
        bytes::ascii("\x1b[M"@)
    } else {
        bytes::ascii("\x1b[L"@)
    })
}

/// The rows after the screen moved by one line.
proof fn lemma_moved(t: Terminal, rows: int, lines: Seq<Seq<u8>>, top: int, down: bool)
    requires
        t.parsing == Parsing::Ground,
        t.rows.len() == rows,
        rows >= 3,
        0 <= top,
        forall|i: int|
            0 <= i < rows - 2 ==> #[trigger] t.rows[i] == text_row(
                lines,
                if down {
                    top - 1
                } else {
                    top + 1
                },
                i,
            ),
    ensures
        ({
            let moved = t.fed(motion(down));
            &&& moved.parsing == Parsing::Ground
            &&& moved.rows.len() == rows
            &&& forall|i: int|
                0 <= i < rows - 2 && i != entering_row(rows, down) ==> #[trigger] moved.rows[i]
                    == text_row(lines, top, i)
        }),
{
    let home = screen::cursor_to(0, 0);
    terminal::lemma_cursor_to(t, 0, 0);
    let placed = t.fed(home);
    if down {
        let sequence = bytes::ascii("\x1b[M"@);
        terminal::lemma_fed_two(t, home, sequence);
        terminal::lemma_delete_line(placed);
        let moved = placed.fed(sequence);
        assert forall|i: int| 0 <= i < rows - 3 implies #[trigger] moved.rows[i] == text_row(
            lines,
            top,
            i,
        ) by {
            assert(moved.rows[i] == t.rows[i + 1]);
        }
    } else {
        let sequence = bytes::ascii("\x1b[L"@);
        terminal::lemma_fed_two(t, home, sequence);
        terminal::lemma_insert_line(placed);
        let moved = placed.fed(sequence);
        assert forall|i: int| 0 < i < rows - 2 implies #[trigger] moved.rows[i] == text_row(
            lines,
            top,
            i,
        ) by {
            assert(moved.rows[i] == t.rows[i - 1]);
        }
    }
}

/// The rows after the screen moved by one line and the line that came into view
/// was drawn.
proof fn lemma_shifted(t: Terminal, rows: int, lines: Seq<Seq<u8>>, top: int, down: bool)
    requires
        t.parsing == Parsing::Ground,
        t.rows.len() == rows,
        rows >= 3,
        plain_lines(lines),
        0 <= top < lines.len(),
        forall|i: int|
            0 <= i < rows - 2 ==> #[trigger] t.rows[i] == text_row(
                lines,
                if down {
                    top - 1
                } else {
                    top + 1
                },
                i,
            ),
    ensures
        ({
            let after = t.fed(draw::shifted(rows, lines, top, down));
            &&& after.parsing == Parsing::Ground
            &&& after.rows.len() == rows
            &&& forall|i: int|
                0 <= i < rows - 2 ==> #[trigger] after.rows[i] == text_row(lines, top, i)
        }),
{
    let row = entering_row(rows, down);
    let text = text_row(lines, top, row);
    let drawn = screen::cursor_to(row, 0) + bytes::ascii(screen::ERASE_LINE@) + text;
    assert(draw::shifted(rows, lines, top, down) =~= motion(down) + drawn);
    terminal::lemma_fed_two(t, motion(down), drawn);
    lemma_moved(t, rows, lines, top, down);
    assert(terminal::all_printable(text));
    terminal::lemma_row_drawn(t.fed(motion(down)), row, text);
}

/// Moving the screen by one line and drawing the line that came into view
/// shows the same as drawing everything.
pub proof fn scrolling_shows_everything(
    t: Terminal,
    rows: int,
    path: Seq<u8>,
    lines: Seq<Seq<u8>>,
    top: int,
    down: bool,
    s: Shown,
)
    requires
        t.parsing == Parsing::Ground,
        t.rows.len() == rows,
        rows >= 3,
        plain_lines(lines),
        plain_status(path, s),
        0 <= top,
        s.row < lines.len(),
        in_view(rows, top, s.row),
        forall|i: int|
            0 <= i < rows - 2 ==> #[trigger] t.rows[i] == text_row(
                lines,
                if down {
                    top - 1
                } else {
                    top + 1
                },
                i,
            ),
    ensures
        t.fed(draw::shifted(rows, lines, top, down) + draw::refreshed(rows, path, top, s))
            == t.fed(draw::redrawn(rows, path, lines, top, s)),
{
    let shifted = draw::shifted(rows, lines, top, down);
    let bottom = draw::refreshed(rows, path, top, s);
    terminal::lemma_fed_two(t, shifted, bottom);
    lemma_shifted(t, rows, lines, top, down);
    lemma_refreshed(t.fed(shifted), rows, path, top, s);
    redrawing_shows_everything(t, rows, path, lines, top, s);
    assert(t.fed(shifted).fed(bottom).rows =~= picture(rows, path, lines, top, s));
}

/// Drawing one line after it changed shows the same as drawing everything.
pub proof fn drawing_one_line_shows_everything(
    t: Terminal,
    rows: int,
    path: Seq<u8>,
    lines: Seq<Seq<u8>>,
    top: int,
    s: Shown,
)
    requires
        t.parsing == Parsing::Ground,
        t.rows.len() == rows,
        rows >= 3,
        plain_lines(lines),
        plain_status(path, s),
        0 <= top,
        s.row < lines.len(),
        in_view(rows, top, s.row),
        forall|i: int|
            0 <= i < rows - 2 && i != s.row - top ==> #[trigger] t.rows[i] == text_row(
                lines,
                top,
                i,
            ),
    ensures
        t.fed(draw::line_drawn(lines, top, rows - 2, s.row) + draw::refreshed(rows, path, top, s))
            == t.fed(draw::redrawn(rows, path, lines, top, s)),
{
    let line = draw::line_drawn(lines, top, rows - 2, s.row);
    let bottom = draw::refreshed(rows, path, top, s);
    terminal::lemma_fed_two(t, line, bottom);
    terminal::lemma_row_drawn(t, s.row - top, lines[s.row]);
    let drawn = t.fed(line);
    lemma_refreshed(drawn, rows, path, top, s);
    redrawing_shows_everything(t, rows, path, lines, top, s);
    assert(drawn.fed(bottom).rows =~= picture(rows, path, lines, top, s));
}

/// Whether the editor is in order on a screen: everything is made of bytes that
/// stand for themselves, the cursor's line is in view, and the screen shows the
/// text.
pub open spec fn on_screen(t: Terminal, rows: int, path: Seq<u8>, model: Model) -> bool {
    &&& model.wf()
    &&& rows >= 3
    &&& plain_lines(model.lines)
    &&& terminal::all_printable(model.command)
    &&& terminal::all_printable(draw::shown_name(path))
    &&& in_view(rows, model.top, model.row)
    &&& shows_text(t, rows, model.lines, model.top, model.row, model.col)
}

proof fn lemma_plain_message(message: Message)
    ensures
        terminal::all_printable(editor::message_text(message)),
{
    reveal_strlit("out of memory: cannot add a line");
    reveal_strlit("written");
    reveal_strlit("unsaved changes; use :wq");
    reveal_strlit("unknown command");
}

proof fn lemma_on_screen_redraw(
    t: Terminal,
    rows: int,
    path: Seq<u8>,
    model: Model,
    dirty: bool,
    message: Seq<u8>,
    changed: bool,
)
    requires
        t.parsing == Parsing::Ground,
        t.rows.len() == rows,
        rows >= 3,
        model.wf(),
        plain_lines(model.lines),
        terminal::all_printable(model.command),
        terminal::all_printable(draw::shown_name(path)),
        terminal::all_printable(message),
    ensures
        ({
            let effect = model.redraw(rows, path, dirty, message, changed);
            on_screen(t.fed(effect.drawn), rows, path, effect.model) && says(
                t.fed(effect.drawn),
                rows,
                path,
                model.status(dirty, message),
            )
        }),
{
    let after = model.followed(rows);
    let s = model.status(dirty, message);
    redrawing_shows_everything(t, rows, path, model.lines, after.top, s);
    let shown = picture(rows, path, model.lines, after.top, s);
    assert forall|i: int| 0 <= i < rows - 2 implies #[trigger] shown[i] == text_row(
        model.lines,
        after.top,
        i,
    ) by {}
}

proof fn lemma_on_screen_line(t: Terminal, rows: int, path: Seq<u8>, before: Model, after: Model)
    requires
        on_screen(t, rows, path, before),
        after.wf(),
        plain_lines(after.lines),
        after.command == before.command,
        after.top == before.top,
        after.row == before.row,
        after.lines.len() == before.lines.len(),
        forall|i: int|
            0 <= i < after.lines.len() && i != after.row ==> #[trigger] after.lines[i]
                == before.lines[i],
    ensures
        ({
            let effect = after.redraw_line(rows, path);
            on_screen(t.fed(effect.drawn), rows, path, effect.model) && says(
                t.fed(effect.drawn),
                rows,
                path,
                changed_status(after.mode, after.row, after.col),
            )
        }),
{
    let s = after.status(true, Seq::empty());
    assert forall|i: int| 0 <= i < rows - 2 && i != s.row - after.top implies #[trigger] t.rows[i]
        == text_row(after.lines, after.top, i) by {
        assert(t.rows[i] == text_row(before.lines, before.top, i));
    }
    drawing_one_line_shows_everything(t, rows, path, after.lines, after.top, s);
    redrawing_shows_everything(t, rows, path, after.lines, after.top, s);
    let shown = picture(rows, path, after.lines, after.top, s);
    assert forall|i: int| 0 <= i < rows - 2 implies #[trigger] shown[i] == text_row(
        after.lines,
        after.top,
        i,
    ) by {}
}

proof fn lemma_on_screen_refresh(
    t: Terminal,
    rows: int,
    path: Seq<u8>,
    before: Model,
    after: Model,
    s: Shown,
)
    requires
        on_screen(t, rows, path, before),
        after.wf(),
        after.lines == before.lines,
        after.top == before.top,
        after.row == before.row,
        terminal::all_printable(after.command),
        s.row == after.row,
        s.col == after.col,
        plain_status(path, s),
    ensures
        on_screen(t.fed(draw::refreshed(rows, path, after.top, s)), rows, path, after),
        says(t.fed(draw::refreshed(rows, path, after.top, s)), rows, path, s),
{
    lemma_refreshed(t, rows, path, after.top, s);
    let drawn = t.fed(draw::refreshed(rows, path, after.top, s));
    assert forall|i: int| 0 <= i < rows - 2 implies #[trigger] drawn.rows[i] == text_row(
        after.lines,
        after.top,
        i,
    ) by {
        assert(drawn.rows[i] == t.rows[i]);
    }
}

proof fn lemma_on_screen_cursor(
    t: Terminal,
    rows: int,
    path: Seq<u8>,
    before: Model,
    after: Model,
    message: Seq<u8>,
)
    requires
        on_screen(t, rows, path, before),
        after.wf(),
        after.lines == before.lines,
        after.top == before.top,
        after.command == before.command,
        terminal::all_printable(message),
    ensures
        ({
            let effect = after.show_cursor(rows, path, message);
            on_screen(t.fed(effect.drawn), rows, path, effect.model)
        }),
{
    let shown = after.followed(rows);
    let s = after.status(after.dirty, message);
    if shown.top == after.top {
        terminal::lemma_cursor_to(t, after.row - after.top, after.col);
    } else {
        if shown.top == after.top + 1 || shown.top == after.top - 1 {
            let down = shown.top == after.top + 1;
            scrolling_shows_everything(t, rows, path, after.lines, shown.top, down, s);
        }
        redrawing_shows_everything(t, rows, path, after.lines, shown.top, s);
        let drawn = picture(rows, path, after.lines, shown.top, s);
        assert forall|i: int| 0 <= i < rows - 2 implies #[trigger] drawn[i] == text_row(
            after.lines,
            shown.top,
            i,
        ) by {}
    }
}

proof fn lemma_plain_is_clean(lines: Seq<Seq<u8>>)
    requires
        plain_lines(lines),
    ensures
        buffer::clean(lines),
{
    assert forall|r: int, i: int|
        0 <= r < lines.len() && 0 <= i < lines[r].len() implies #[trigger] lines[r][i]
        != bytes::NEWLINE by {
        assert(terminal::all_printable(lines[r]));
        assert(terminal::printable(lines[r][i]));
    }
}

proof fn lemma_plain_update(lines: Seq<Seq<u8>>, row: int, line: Seq<u8>)
    requires
        plain_lines(lines),
        0 <= row < lines.len(),
        terminal::all_printable(line),
    ensures
        plain_lines(lines.update(row, line)),
        buffer::clean(lines.update(row, line)),
{
    let after = lines.update(row, line);
    assert forall|i: int| 0 <= i < after.len() implies terminal::all_printable(
        #[trigger] after[i],
    ) by {
        if i != row {
            assert(after[i] == lines[i]);
        }
    }
    lemma_plain_is_clean(after);
}

proof fn lemma_plain_remove(line: Seq<u8>, from: int, to: int)
    requires
        terminal::all_printable(line),
        0 <= from <= to <= line.len(),
    ensures
        terminal::all_printable(chars::without(line, from, to)),
{
    let after = chars::without(line, from, to);
    assert forall|i: int| 0 <= i < after.len() implies terminal::printable(
        #[trigger] after[i],
    ) by {
        assert(after[i] == line[if i < from {
            i
        } else {
            i + (to - from)
        }]);
    }
}

proof fn lemma_plain_insert(line: Seq<u8>, at: int, byte: u8)
    requires
        terminal::all_printable(line),
        0 <= at <= line.len(),
        terminal::printable(byte),
    ensures
        terminal::all_printable(line.insert(at, byte)),
{
    let after = line.insert(at, byte);
    assert forall|i: int| 0 <= i < after.len() implies terminal::printable(
        #[trigger] after[i],
    ) by {
        if i < at {
            assert(after[i] == line[i]);
        } else if i > at {
            assert(after[i] == line[i - 1]);
        }
    }
}

proof fn lemma_plain_split(lines: Seq<Seq<u8>>, row: int, at: int)
    requires
        plain_lines(lines),
        0 <= row < lines.len(),
        0 <= at <= lines[row].len(),
    ensures
        plain_lines(buffer::split_at(lines, row, at)),
        buffer::clean(buffer::split_at(lines, row, at)),
{
    let after = buffer::split_at(lines, row, at);
    let line = lines[row];
    let front = line.take(at);
    let back = line.skip(at);
    assert forall|i: int| 0 <= i < front.len() implies terminal::printable(
        #[trigger] front[i],
    ) by {
        assert(front[i] == line[i]);
    }
    assert forall|i: int| 0 <= i < back.len() implies terminal::printable(#[trigger] back[i]) by {
        assert(back[i] == line[i + at]);
    }
    assert forall|i: int| 0 <= i < after.len() implies terminal::all_printable(
        #[trigger] after[i],
    ) by {
        if i < row {
            assert(after[i] == lines[i]);
        } else if i == row {
            assert(after[i] == front);
        } else if i == row + 1 {
            assert(after[i] == back);
        } else {
            assert(after[i] == lines[i - 1]);
        }
    }
    lemma_plain_is_clean(after);
}

proof fn lemma_plain_join(lines: Seq<Seq<u8>>, row: int)
    requires
        plain_lines(lines),
        0 <= row,
        row + 1 < lines.len(),
    ensures
        plain_lines(buffer::joined_at(lines, row)),
        buffer::clean(buffer::joined_at(lines, row)),
{
    let after = buffer::joined_at(lines, row);
    terminal::lemma_printable_sum(lines[row], lines[row + 1]);
    assert forall|i: int| 0 <= i < after.len() implies terminal::all_printable(
        #[trigger] after[i],
    ) by {
        if i < row {
            assert(after[i] == lines[i]);
        } else if i == row {
            assert(after[i] == lines[row] + lines[row + 1]);
        } else {
            assert(after[i] == lines[i + 1]);
        }
    }
    lemma_plain_is_clean(after);
}

proof fn lemma_step(
    t: Terminal,
    rows: int,
    path: Seq<u8>,
    model: Model,
    direction: Direction,
    message: Seq<u8>,
)
    requires
        on_screen(t, rows, path, model),
        terminal::all_printable(message),
    ensures
        ({
            let effect = model.step(rows, path, direction, message);
            on_screen(t.fed(effect.drawn), rows, path, effect.model)
        }),
{
    let after = model.moved(direction);
    editor::lemma_moved(model, direction);
    if after != model {
        lemma_on_screen_cursor(t, rows, path, model, after, message);
    }
}

proof fn lemma_insert_at(t: Terminal, rows: int, path: Seq<u8>, model: Model, col: int)
    requires
        on_screen(t, rows, path, model),
        0 <= col <= model.line().len(),
        chars::between(model.line(), col),
    ensures
        ({
            let effect = model.insert_at(rows, col);
            on_screen(t.fed(effect.drawn), rows, path, effect.model)
        }),
{
    terminal::lemma_cursor_to(t, model.row - model.top, col);
}

proof fn lemma_normal_key(t: Terminal, rows: int, path: Seq<u8>, model: Model, byte: u8)
    requires
        on_screen(t, rows, path, model),
        model.mode == Mode::Normal,
    ensures
        ({
            let effect = model.normal_key(rows, path, byte);
            on_screen(t.fed(effect.drawn), rows, path, effect.model) && (effect.changed ==> says(
                t.fed(effect.drawn),
                rows,
                path,
                changed_status(model.mode, effect.model.row, effect.model.col),
            ))
        }),
{
    let none = Seq::<u8>::empty();
    lemma_step(t, rows, path, model, Direction::Left, none);
    lemma_step(t, rows, path, model, Direction::Down, none);
    lemma_step(t, rows, path, model, Direction::Up, none);
    lemma_step(t, rows, path, model, Direction::Right, none);
    lemma_insert_at(t, rows, path, model, model.col);
    let end = chars::right_of(model.line(), model.col);
    chars::lemma_right_of(model.line(), model.col);
    lemma_insert_at(t, rows, path, model, end);
    if model.col < model.line().len() {
        let line = chars::without(model.line(), model.col, end);
        lemma_plain_remove(model.line(), model.col, end);
        lemma_plain_update(model.lines, model.row, line);
        editor::lemma_without_character(model);
        let after = model.without_character();
        assert(after.line() == line);
        lemma_on_screen_redraw(t, rows, path, after, true, none, true);
    }
}

proof fn lemma_enter(t: Terminal, rows: int, path: Seq<u8>, model: Model, grants: Grants)
    requires
        on_screen(t, rows, path, model),
    ensures
        ({
            let effect = model.enter(rows, path, grants);
            on_screen(t.fed(effect.drawn), rows, path, effect.model) && (effect.changed ==> says(
                t.fed(effect.drawn),
                rows,
                path,
                changed_status(model.mode, effect.model.row, effect.model.col),
            ))
        }),
{
    let text_room = buffer::text_cap_after(
        model.text_room,
        model.index_room,
        model.size() + 1,
        grants.text,
    );
    let slots = model.lines.len() + 2;
    let split = Model {
        lines: buffer::split_at(model.lines, model.row, model.col),
        text_room,
        index_room: buffer::index_cap_after(
            text_room,
            model.index_room,
            slots as int,
            grants.index,
        ),
        row: model.row + 1,
        col: 0,
        ..model
    };
    let full = Model { text_room, message: Message::OutOfMemory, ..model };
    lemma_plain_split(model.lines, model.row, model.col);
    lemma_plain_message(Message::OutOfMemory);
    lemma_on_screen_redraw(t, rows, path, split, true, Seq::empty(), true);
    lemma_on_screen_redraw(
        t,
        rows,
        path,
        full,
        true,
        editor::message_text(Message::OutOfMemory),
        false,
    );
}

proof fn lemma_erase(t: Terminal, rows: int, path: Seq<u8>, model: Model)
    requires
        on_screen(t, rows, path, model),
    ensures
        ({
            let effect = model.erase(rows, path);
            on_screen(t.fed(effect.drawn), rows, path, effect.model) && (effect.changed ==> says(
                t.fed(effect.drawn),
                rows,
                path,
                changed_status(model.mode, effect.model.row, effect.model.col),
            ))
        }),
{
    if model.col > 0 {
        let from = chars::left_of(model.line(), model.col);
        chars::lemma_left_of(model.line(), model.col);
        chars::lemma_without(model.line(), from, model.col);
        let line = chars::without(model.line(), from, model.col);
        lemma_plain_remove(model.line(), from, model.col);
        lemma_plain_update(model.lines, model.row, line);
        let after = Model {
            lines: model.lines.update(model.row, line),
            col: from,
            ..model
        };
        assert(after.line() == line);
        lemma_on_screen_line(t, rows, path, model, after);
    } else if model.row > 0 {
        lemma_plain_join(model.lines, model.row - 1);
        let lines = buffer::joined_at(model.lines, model.row - 1);
        let landing = model.lines[model.row - 1].len() as int;
        assert(lines[model.row - 1] == model.lines[model.row - 1] + model.line());
        chars::lemma_at_or_behind(lines[model.row - 1], landing);
        let after = Model {
            lines,
            row: model.row - 1,
            col: chars::at_or_behind(lines[model.row - 1], landing),
            ..model
        };
        assert(after.line() == model.lines[model.row - 1] + model.line());
        lemma_on_screen_redraw(t, rows, path, after, true, Seq::empty(), true);
    }
}

proof fn lemma_put(
    t: Terminal,
    rows: int,
    path: Seq<u8>,
    model: Model,
    byte: u8,
    granted: bool,
)
    requires
        on_screen(t, rows, path, model),
        terminal::printable(byte),
    ensures
        ({
            let effect = model.put(rows, path, byte, granted);
            on_screen(t.fed(effect.drawn), rows, path, effect.model) && (effect.changed ==> says(
                t.fed(effect.drawn),
                rows,
                path,
                changed_status(model.mode, effect.model.row, effect.model.col),
            ))
        }),
{
    let line = model.line().insert(model.col, byte);
    lemma_plain_insert(model.line(), model.col, byte);
    lemma_plain_update(model.lines, model.row, line);
    let after = Model {
        lines: model.lines.update(model.row, line),
        text_room: buffer::text_cap_after(
            model.text_room,
            model.index_room,
            model.size() + 1,
            granted,
        ),
        col: chars::at_or_behind(line, model.col + 1),
        ..model
    };
    chars::lemma_at_or_behind(line, model.col + 1);
    assert(after.line() == line);
    lemma_on_screen_line(t, rows, path, model, after);
}

/// Whether a byte is one that a keyboard types into a text.
pub open spec fn typable(byte: u8) -> bool {
    terminal::printable(byte) || byte == bytes::NEWLINE || byte == bytes::BACKSPACE || byte
        == bytes::ESC
}

proof fn lemma_typed(
    t: Terminal,
    rows: int,
    path: Seq<u8>,
    model: Model,
    byte: u8,
    grants: Grants,
)
    requires
        on_screen(t, rows, path, model),
        typable(byte),
        byte != bytes::ESC,
    ensures
        ({
            let effect = model.typed(rows, path, byte, grants);
            on_screen(t.fed(effect.drawn), rows, path, effect.model) && (effect.changed ==> says(
                t.fed(effect.drawn),
                rows,
                path,
                changed_status(model.mode, effect.model.row, effect.model.col),
            ))
        }),
{
    reveal(Model::typed);
    match model.mode {
        Mode::Command => {},
        Mode::Normal => {
            lemma_normal_key(t, rows, path, model, byte);
        },
        Mode::Insert => {
            if byte == bytes::NEWLINE {
                lemma_enter(t, rows, path, model, grants);
            } else if byte == bytes::BACKSPACE {
                lemma_erase(t, rows, path, model);
            } else {
                lemma_put(t, rows, path, model, byte, grants.text);
            }
        },
    }
}

proof fn lemma_escaped(t: Terminal, rows: int, path: Seq<u8>, model: Model)
    requires
        on_screen(t, rows, path, model),
    ensures
        ({
            let effect = model.lone_escape(rows, path);
            on_screen(t.fed(effect.drawn), rows, path, effect.model)
        }),
{
    if model.mode == Mode::Command {
        let after = Model {
            mode: Mode::Normal,
            shown: Mode::Normal,
            command: Seq::empty(),
            ..model
        };
        lemma_plain_message(model.message);
        lemma_on_screen_refresh(t, rows, path, model, after, after.command_status());
    }
    if model.mode == Mode::Insert {
        let after = Model {
            mode: Mode::Normal,
            shown: Mode::Normal,
            col: chars::left_of(model.line(), model.col),
            ..model
        };
        chars::lemma_left_of(model.line(), model.col);
        let s = after.status(after.dirty, Seq::empty());
        lemma_on_screen_refresh(t, rows, path, model, after, s);
    }
}

proof fn lemma_concluded(
    t: Terminal,
    rows: int,
    path: Seq<u8>,
    model: Model,
    message: Message,
    saved: bool,
)
    requires
        on_screen(t, rows, path, model),
    ensures
        ({
            let effect = model.concluded(rows, path, message, saved);
            on_screen(t.fed(effect.drawn), rows, path, effect.model)
        }),
{
    let after = Model {
        command: Seq::empty(),
        mode: Mode::Normal,
        message,
        dirty: model.dirty && !saved,
        ..model
    };
    lemma_plain_message(message);
    lemma_on_screen_redraw(
        t,
        rows,
        path,
        after,
        after.dirty,
        editor::message_text(message),
        false,
    );
}

proof fn lemma_plain(
    t: Terminal,
    rows: int,
    path: Seq<u8>,
    model: Model,
    byte: u8,
    grants: Grants,
)
    requires
        on_screen(t, rows, path, model),
        typable(byte),
        byte != bytes::ESC,
        model.mode == Mode::Command && byte == bytes::NEWLINE ==> model.asked() != Outcome::Quit,
        model.mode == Mode::Command ==> byte != bytes::BACKSPACE,
    ensures
        ({
            let effect = model.plain(rows, path, byte, grants);
            on_screen(t.fed(effect.drawn), rows, path, effect.model)
        }),
{
    if model.mode == Mode::Command {
        if byte == bytes::NEWLINE {
            lemma_concluded(t, rows, path, model, Message::Unsaved, false);
            lemma_concluded(t, rows, path, model, Message::Unknown, false);
        } else {
            let after = Model {
                command: if model.command.len() < draw::COMMAND_MAX {
                    model.command.push(byte)
                } else {
                    model.command
                },
                ..model
            };
            assert forall|i: int| 0 <= i < after.command.len() implies terminal::printable(
                #[trigger] after.command[i],
            ) by {
                if i < model.command.len() {
                    assert(after.command[i] == model.command[i]);
                }
            }
            lemma_plain_message(model.message);
            lemma_on_screen_refresh(t, rows, path, model, after, after.command_status());
        }
    } else {
        lemma_typed(t, rows, path, model, byte, grants);
    }
}

proof fn lemma_after_escape(
    t: Terminal,
    rows: int,
    path: Seq<u8>,
    model: Model,
    byte: u8,
    grants: Grants,
)
    requires
        on_screen(t, rows, path, model),
        typable(byte),
    ensures
        ({
            let effect = model.after_escape(rows, path, byte, grants);
            on_screen(t.fed(effect.drawn), rows, path, effect.model)
        }),
{
    let ready = Model { escape: Escape::Idle, ..model };
    lemma_escaped(t, rows, path, ready);
    let first = ready.lone_escape(rows, path);
    if byte != bytes::ESC {
        let second = first.model.plain(rows, path, byte, grants);
        terminal::lemma_fed_two(t, first.drawn, second.drawn);
        lemma_plain(t.fed(first.drawn), rows, path, first.model, byte, grants);
    }
}

/// The screen follows the text: whatever is typed, the rows of the text show
/// the window on it and the cursor is where it is in the text, until the editor
/// is left. Bytes that do not stand for themselves on a screen are not spoken
/// of.
pub proof fn screen_follows_the_text(
    t: Terminal,
    rows: int,
    path: Seq<u8>,
    model: Model,
    byte: u8,
    grants: Grants,
)
    requires
        on_screen(t, rows, path, model),
        typable(byte),
        model.mode == Mode::Command ==> byte != bytes::BACKSPACE,
        model.outcome(byte) != Outcome::Quit,
    ensures
        ({
            let effect = model.key(rows, path, byte, grants);
            on_screen(t.fed(effect.drawn), rows, path, effect.model)
        }),
{
    let ready = Model { escape: Escape::Idle, ..model };
    match model.escape {
        Escape::Idle => {
            if byte != bytes::ESC {
                lemma_plain(t, rows, path, model, byte, grants);
            }
        },
        Escape::Esc => {
            if byte != '[' as u8 {
                lemma_after_escape(t, rows, path, model, byte, grants);
            }
        },
        Escape::Bracket => {
            let message = editor::message_text(model.message);
            lemma_plain_message(model.message);
            lemma_step(t, rows, path, ready, Direction::Up, message);
            lemma_step(t, rows, path, ready, Direction::Down, message);
            lemma_step(t, rows, path, ready, Direction::Right, message);
            lemma_step(t, rows, path, ready, Direction::Left, message);
        },
        Escape::Tilde => {
            if byte == '~' as u8 && model.col < model.line().len() {
                let end = chars::right_of(model.line(), model.col);
                let line = chars::without(model.line(), model.col, end);
                chars::lemma_right_of(model.line(), model.col);
                lemma_plain_remove(model.line(), model.col, end);
                lemma_plain_update(model.lines, model.row, line);
                editor::lemma_without_character(ready);
                let after = ready.without_character();
                assert(after.line() == line);
                lemma_on_screen_line(t, rows, path, ready, after);
            }
        },
    }
}

/// The screen follows the text also where nothing is typed, a save is done with
/// or the mode is shown.
pub proof fn screen_follows_between_keys(
    t: Terminal,
    rows: int,
    path: Seq<u8>,
    model: Model,
    message: Message,
    saved: bool,
)
    requires
        on_screen(t, rows, path, model),
    ensures
        ({
            let paused = Model { escape: Escape::Idle, ..model }.lone_escape(rows, path);
            on_screen(t.fed(paused.drawn), rows, path, paused.model)
        }),
        ({
            let concluded = model.concluded(rows, path, message, saved);
            on_screen(t.fed(concluded.drawn), rows, path, concluded.model)
        }),
        on_screen(
            t.fed(draw::refreshed(rows, path, model.top, model.command_status())),
            rows,
            path,
            Model { shown: model.mode, ..model },
        ),
{
    let ready = Model { escape: Escape::Idle, ..model };
    lemma_escaped(t, rows, path, ready);
    lemma_concluded(t, rows, path, model, message, saved);
    lemma_plain_message(model.message);
    let after = Model { shown: model.mode, ..model };
    lemma_on_screen_refresh(t, rows, path, model, after, model.command_status());
}

/// The screen shows the text from the beginning: whatever was on it, entering it
/// and drawing everything shows the first lines and the cursor before them.
pub proof fn screen_begins_with_the_text(t: Terminal, rows: int, path: Seq<u8>, model: Model)
    requires
        t.parsing == Parsing::Ground,
        t.rows.len() == rows,
        rows >= 3,
        model.wf(),
        plain_lines(model.lines),
        model.command.len() == 0,
        terminal::all_printable(draw::shown_name(path)),
        model.top == 0,
        model.row == 0,
    ensures
        on_screen(
            t.fed(
                bytes::ascii(screen::ENTER_SCREEN@) + draw::redrawn(
                    rows,
                    path,
                    model.lines,
                    0,
                    model.status(false, Seq::empty()),
                ),
            ),
            rows,
            path,
            model,
        ),
{
    reveal_strlit("\x1b[?1049h");
    let enter = bytes::ascii(screen::ENTER_SCREEN@);
    let parameters = enter.subrange(2, enter.len() - 1);
    assert(enter =~= seq![bytes::ESC, '[' as u8] + parameters + seq!['h' as u8]);
    terminal::lemma_passed_over(t, parameters, 'h' as u8, enter);
    let drawn = draw::redrawn(rows, path, model.lines, 0, model.status(false, Seq::empty()));
    terminal::lemma_fed_two(t, enter, drawn);
    lemma_on_screen_redraw(t, rows, path, model, false, Seq::empty(), false);
}

/// The status line says the mode, the path, the row and the column counted from
/// one, and whether the text was changed; the bottom line is the command behind a
/// colon while one is typed, and else the message.
pub proof fn the_bottom_lines_tell_the_status(path: Seq<u8>, s: Shown)
    ensures
        status_text(path, s) == draw::label(s.mode) + bytes::ascii(" "@) + draw::shown_name(path)
            + bytes::ascii(" "@) + decimal::digits((s.row + 1) as nat) + bytes::ascii(":"@)
            + decimal::digits((s.col + 1) as nat) + (if s.dirty {
            bytes::ascii(" [+]"@)
        } else {
            Seq::empty()
        }),
        s.in_command && s.command.len() <= 16 ==> command_text(s) == bytes::ascii(":"@) + s.command,
        !s.in_command ==> command_text(s) == s.message,
{
}

/// Whatever changes the text is told at once: the status line has the mode, the
/// place that the cursor came to and the mark of a changed text, and the bottom
/// line is empty.
pub proof fn changes_are_told(
    t: Terminal,
    rows: int,
    path: Seq<u8>,
    model: Model,
    byte: u8,
    grants: Grants,
)
    requires
        on_screen(t, rows, path, model),
        model.escape == Escape::Idle,
        model.mode != Mode::Command,
        typable(byte),
        byte != 0x1b,
        model.key(rows, path, byte, grants).changed,
    ensures
        ({
            let effect = model.key(rows, path, byte, grants);
            &&& effect.model.dirty
            &&& says(
                t.fed(effect.drawn),
                rows,
                path,
                (Shown {
                    mode: model.mode,
                    row: effect.model.row,
                    col: effect.model.col,
                    dirty: true,
                    command: Seq::empty(),
                    in_command: false,
                    message: Seq::empty(),
                }),
            )
        }),
{
    reveal(Model::typed);
    lemma_typed(t, rows, path, model, byte, grants);
}

/// A command is shown as it is typed.
pub proof fn a_command_is_shown_as_it_is_typed(
    t: Terminal,
    rows: int,
    path: Seq<u8>,
    model: Model,
    byte: u8,
    grants: Grants,
)
    requires
        on_screen(t, rows, path, model),
        model.escape == Escape::Idle,
        model.mode == Mode::Command,
        terminal::printable(byte),
    ensures
        ({
            let effect = model.key(rows, path, byte, grants);
            let shown = t.fed(effect.drawn);
            &&& shown.rows[rows - 1] == bytes::ascii(":"@) + effect.model.command
            &&& shown.rows[rows - 2] == status_text(
                path,
                (Shown {
                    mode: Mode::Command,
                    row: model.row,
                    col: model.col,
                    dirty: model.dirty,
                    command: Seq::empty(),
                    in_command: true,
                    message: Seq::empty(),
                }),
            )
        }),
{
    let after = model.command_byte(rows, path, byte).model;
    assert(terminal::all_printable(after.command));
    lemma_plain_message(model.message);
    lemma_on_screen_refresh(t, rows, path, model, after, after.command_status());
}

/// What a command came to is told on the bottom line, and the mode is the normal
/// one again.
pub proof fn what_came_of_a_command_is_told(
    t: Terminal,
    rows: int,
    path: Seq<u8>,
    model: Model,
    message: Message,
    saved: bool,
)
    requires
        on_screen(t, rows, path, model),
    ensures
        says(
            t.fed(model.concluded(rows, path, message, saved).drawn),
            rows,
            path,
            (Shown {
                mode: Mode::Normal,
                row: model.row,
                col: model.col,
                dirty: model.dirty && !saved,
                command: Seq::empty(),
                in_command: false,
                message: editor::message_text(message),
            }),
        ),
{
    let after = Model {
        command: Seq::empty(),
        mode: Mode::Normal,
        message,
        dirty: model.dirty && !saved,
        ..model
    };
    lemma_plain_message(message);
    lemma_on_screen_redraw(
        t,
        rows,
        path,
        after,
        after.dirty,
        editor::message_text(message),
        false,
    );
}

/// A new mode is shown before the next byte is read, with the text as it is; a
/// mode that is shown is not drawn again.
pub proof fn a_new_mode_is_shown(t: Terminal, rows: int, path: Seq<u8>, model: Model)
    requires
        on_screen(t, rows, path, model),
    ensures
        ({
            let effect = model.mode_shown(rows, path);
            let shown = t.fed(effect.drawn);
            &&& effect.model.mode == model.mode && effect.model.shown == model.mode
            &&& model.mode == model.shown ==> effect.drawn == Seq::<u8>::empty()
            &&& model.mode != model.shown ==> on_screen(shown, rows, path, effect.model) && says(
                shown,
                rows,
                path,
                (Shown {
                    mode: model.mode,
                    row: model.row,
                    col: model.col,
                    dirty: model.dirty,
                    command: model.command,
                    in_command: model.mode == Mode::Command,
                    message: editor::message_text(model.message),
                }),
            )
        }),
{
    lemma_plain_message(model.message);
    let after = Model { shown: model.mode, ..model };
    lemma_on_screen_refresh(t, rows, path, model, after, model.command_status());
}

/// A line that the kernel kept for the user is shown on the bottom line, with the
/// text as it is; while a command is typed the command stays there.
pub proof fn a_kept_line_is_shown(
    t: Terminal,
    rows: int,
    path: Seq<u8>,
    model: Model,
    line: Seq<u8>,
)
    requires
        on_screen(t, rows, path, model),
        terminal::all_printable(line),
    ensures
        ({
            let shown = t.fed(model.noticed(rows, path, line));
            &&& on_screen(shown, rows, path, model)
            &&& model.mode != Mode::Command ==> shown.rows[rows - 1] == line
            &&& model.mode == Mode::Command ==> shown.rows[rows - 1] == bytes::ascii(":"@)
                + model.command
        }),
{
    let s = Shown { message: line, ..model.command_status() };
    lemma_on_screen_refresh(t, rows, path, model, model, s);
}

/// An escape that nothing followed shows the normal mode again: it ends
/// inserting, with the cursor on the character before, and gives a command up.
pub proof fn an_escape_shows_the_normal_mode(t: Terminal, rows: int, path: Seq<u8>, model: Model)
    requires
        on_screen(t, rows, path, model),
        model.escape == Escape::Esc,
    ensures
        ({
            let effect = model.paused(rows, path);
            let shown = t.fed(effect.drawn);
            &&& effect.model.mode == Mode::Normal
            &&& effect.model.lines == model.lines
            &&& effect.model.row == model.row
            &&& model.mode == Mode::Insert ==> effect.model.col == chars::left_of(
                model.lines[model.row],
                model.col,
            )
            &&& model.mode != Mode::Insert ==> effect.model.col == model.col
            &&& model.mode == Mode::Normal ==> effect.drawn == Seq::<u8>::empty()
            &&& model.mode == Mode::Command ==> effect.model.command.len() == 0
            &&& model.mode != Mode::Normal ==> says(
                shown,
                rows,
                path,
                (Shown {
                    mode: Mode::Normal,
                    row: model.row,
                    col: effect.model.col,
                    dirty: model.dirty,
                    command: Seq::empty(),
                    in_command: false,
                    message: if model.mode == Mode::Insert {
                        Seq::empty()
                    } else {
                        editor::message_text(model.message)
                    },
                }),
            )
        }),
{
    let ready = Model { escape: Escape::Idle, ..model };
    if model.mode == Mode::Command {
        let after = Model {
            mode: Mode::Normal,
            shown: Mode::Normal,
            command: Seq::empty(),
            ..ready
        };
        lemma_plain_message(model.message);
        lemma_on_screen_refresh(t, rows, path, ready, after, after.command_status());
    }
    if model.mode == Mode::Insert {
        let after = Model {
            mode: Mode::Normal,
            shown: Mode::Normal,
            col: chars::left_of(model.line(), model.col),
            ..ready
        };
        chars::lemma_left_of(model.line(), model.col);
        lemma_on_screen_refresh(
            t,
            rows,
            path,
            ready,
            after,
            after.status(after.dirty, Seq::empty()),
        );
    }
}

} // verus!
