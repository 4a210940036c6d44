//! What the editor puts on the screen.
use crate::bytes::{self, append, find, push_str};
use crate::chars::{self, cut_position};
use crate::decimal;
use crate::screen::{self, erase_line, move_cursor, write_number};
use crate::window::Window;
use crate::zi::buffer::{Buffer, REGION_LIMIT};
use vstd::prelude::*;

verus! {

/// The most bytes that a command has.
pub const COMMAND_MAX: usize = 16;

/// The most bytes of the path that the status line shows.
pub const NAME_SHOWN: usize = 93;

/// The colour of the mode in the status line.
pub const STATUS_COLOR: &'static str = "\x1b[38;2;200;200;0m";

/// The mode that the editor is in.
#[derive(Clone, Copy, PartialEq, Eq, Structural, Debug)]
pub enum Mode {
    Normal,
    Insert,
    Command,
}

/// The size of the screen, and the path of the file, which ends at its first
/// zero byte.
pub struct Layout {
    pub rows: usize,
    pub path: Vec<u8>,
}

/// What the two lines at the bottom say, and where the cursor is.
pub struct Status<'a> {
    pub mode: Mode,
    pub row: usize,
    pub col: usize,
    pub dirty: bool,
    pub command: &'a [u8],
    pub in_command: bool,
    pub message: &'a [u8],
}

/// A status, in mathematical terms.
pub struct Shown {
    pub mode: Mode,
    pub row: int,
    pub col: int,
    pub dirty: bool,
    pub command: Seq<u8>,
    pub in_command: bool,
    pub message: Seq<u8>,
}

/// The label of a mode. All labels have the same length.
pub open spec fn label(mode: Mode) -> Seq<u8> {
    match mode {
        Mode::Normal => bytes::ascii("-- NORMAL  --"@),
        Mode::Insert => bytes::ascii("-- INSERT  --"@),
        Mode::Command => bytes::ascii("-- COMMAND --"@),
    }
}

/// The path up to its first zero byte, as far as the status line shows it: cut
/// between characters.
pub open spec fn shown_name(path: Seq<u8>) -> Seq<u8> {
    chars::cut(path.take(bytes::first_at(path, 0, 0)), NAME_SHOWN as int)
}

/// The status line: it stands second from the bottom, and counts rows and
/// columns from one.
pub open spec fn status_line(rows: int, path: Seq<u8>, s: Shown) -> Seq<u8> {
    screen::cursor_to(rows - 2, 0) + bytes::ascii(screen::ERASE_LINE@) + bytes::ascii(
        STATUS_COLOR@,
    ) + label(s.mode) + bytes::ascii(screen::RESET@) + bytes::ascii(" "@) + shown_name(path)
        + bytes::ascii(" "@) + decimal::digits((s.row + 1) as nat) + bytes::ascii(":"@)
        + decimal::digits((s.col + 1) as nat) + (if s.dirty {
        bytes::ascii(" [+]"@)
    } else {
        Seq::empty()
    })
}

/// The bottom line: the command as it is typed, or else the message.
pub open spec fn command_line(rows: int, s: Shown) -> Seq<u8> {
    screen::cursor_to(rows - 1, 0) + bytes::ascii(screen::ERASE_LINE@) + (if s.in_command {
        bytes::ascii(":"@) + (if s.command.len() <= COMMAND_MAX {
            s.command
        } else {
            s.command.take(COMMAND_MAX as int)
        })
    } else {
        s.message
    })
}

/// The cursor, put where it is in the text, if the window shows that line.
pub open spec fn cursor_in(top: int, height: int, row: int, col: int) -> Seq<u8> {
    if top <= row < top + height {
        screen::cursor_to(row - top, col)
    } else {
        Seq::empty()
    }
}

/// The two lines at the bottom, and the cursor after them.
pub open spec fn refreshed(rows: int, path: Seq<u8>, top: int, s: Shown) -> Seq<u8> {
    status_line(rows, path, s) + command_line(rows, s) + cursor_in(top, rows - 2, s.row, s.col)
}

/// The lines from `first` on, one on each row of the screen.
pub open spec fn rows_of(lines: Seq<Seq<u8>>, first: int, end: int) -> Seq<u8>
    decreases end - first,
{
    if end <= first {
        Seq::empty()
    } else {
        rows_of(lines, first, end - 1) + screen::cursor_to(end - 1 - first, 0) + bytes::ascii(
            screen::ERASE_LINE@,
        ) + lines[end - 1]
    }
}

/// The whole screen with the window at `top`.
pub open spec fn redrawn(
    rows: int,
    path: Seq<u8>,
    lines: Seq<Seq<u8>>,
    top: int,
    s: Shown,
) -> Seq<u8> {
    let total = lines.len() as int;
    let first = if top <= total {
        top
    } else {
        total
    };
    let end = if top + (rows - 2) <= total {
        top + (rows - 2)
    } else {
        total
    };
    bytes::ascii(screen::ERASE_SCREEN@) + rows_of(lines, first, end) + refreshed(
        rows,
        path,
        top,
        s,
    )
}

/// The screen moved by one line, with the line that came into view drawn.
pub open spec fn shifted(rows: int, lines: Seq<Seq<u8>>, top: int, down: bool) -> Seq<u8> {
    let total = lines.len() as int;
    let height = rows - 2;
    let first = if top <= total {
        top
    } else {
        total
    };
    let end = if top + height <= total {
        top + height
    } else {
        total
    };
    let last = if height > 0 {
        height - 1
    } else {
        0
    };
    let (sequence, row, line) = if down {
        (bytes::ascii("\x1b[M"@), last, first + last)
    } else {
        (bytes::ascii("\x1b[L"@), 0, first)
    };
    screen::cursor_to(0, 0) + sequence + screen::cursor_to(row, 0) + bytes::ascii(
        screen::ERASE_LINE@,
    ) + (if line < end {
        lines[line]
    } else {
        Seq::empty()
    })
}

/// The line `row` drawn again, where the window shows it.
pub open spec fn line_drawn(lines: Seq<Seq<u8>>, top: int, height: int, row: int) -> Seq<u8> {
    if top <= row < top + height {
        screen::cursor_to(row - top, 0) + bytes::ascii(screen::ERASE_LINE@) + lines[row]
    } else {
        Seq::empty()
    }
}

impl Layout {
    /// The screen has room for the two lines at the bottom.
    pub open spec fn wf(&self) -> bool {
        2 <= self.rows <= 0xffff
    }

    /// The row of the status line.
    pub fn status_row(&self) -> (r: usize)
        requires
            self.wf(),
        ensures
            r == self.rows - 2,
    {
        self.rows - 2
    }

    /// The row of the command line.
    pub fn command_row(&self) -> (r: usize)
        requires
            self.wf(),
        ensures
            r == self.rows - 1,
    {
        self.rows - 1
    }

    /// How many rows the text has.
    pub fn text_rows(&self) -> (r: usize)
        requires
            self.wf(),
        ensures
            r == self.rows - 2,
    {
        self.rows - 2
    }
}

impl<'a> Status<'a> {
    /// The status in mathematical terms.
    pub open spec fn view(&self) -> Shown {
        Shown {
            mode: self.mode,
            row: self.row as int,
            col: self.col as int,
            dirty: self.dirty,
            command: self.command@,
            in_command: self.in_command,
            message: self.message@,
        }
    }

    /// Rows and columns are those of a text that fits the heap.
    pub open spec fn wf(&self) -> bool {
        self.row < REGION_LIMIT && self.col < REGION_LIMIT
    }
}

/// The label of a mode.
pub fn mode_label(mode: Mode) -> (r: &'static str)
    ensures
        bytes::ascii(r@) == label(mode),
        r.is_ascii(),
{
    proof {
        reveal_strlit("-- NORMAL  --");
        reveal_strlit("-- INSERT  --");
        reveal_strlit("-- COMMAND --");
    }
    match mode {
        Mode::Normal => "-- NORMAL  --",
        Mode::Insert => "-- INSERT  --",
        Mode::Command => "-- COMMAND --",
    }
}

/// Writes the name of the file, as far as the status line shows it.
fn push_name(out: &mut Vec<u8>, path: &[u8])
    ensures
        final(out)@ == old(out)@ + shown_name(path@),
{
    let end: usize = find(path, 0, 0);
    proof {
        bytes::lemma_first_at(path@, 0, 0);
    }
    let name: &[u8] = &path[0..end];
    assert(name@ =~= path@.take(end as int));
    let take: usize = cut_position(name, NAME_SHOWN);
    append(out, &name[0..take]);
    assert(name@.subrange(0, take as int) =~= shown_name(path@));
}

/// Draws the status line.
pub fn draw_status(out: &mut Vec<u8>, view: &Layout, status: &Status)
    requires
        view.wf(),
        status.wf(),
    ensures
        final(out)@ == old(out)@ + status_line(view.rows as int, view.path@, status@),
{
    proof {
        reveal_strlit("\x1b[38;2;200;200;0m");
        reveal_strlit("\x1b[0m");
        reveal_strlit(" ");
        reveal_strlit(":");
        reveal_strlit(" [+]");
    }
    move_cursor(out, view.status_row(), 0);
    erase_line(out);
    push_str(out, STATUS_COLOR);
    push_str(out, mode_label(status.mode));
    push_str(out, screen::RESET);
    push_str(out, " ");
    push_name(out, &view.path);
    push_str(out, " ");
    write_number(out, status.row + 1);
    push_str(out, ":");
    write_number(out, status.col + 1);
    if status.dirty {
        push_str(out, " [+]");
    }
    assert(out@ =~= old(out)@ + status_line(view.rows as int, view.path@, status@));
}

/// Draws the command line.
pub fn draw_command_line(out: &mut Vec<u8>, view: &Layout, status: &Status)
    requires
        view.wf(),
    ensures
        final(out)@ == old(out)@ + command_line(view.rows as int, status@),
{
    proof {
        reveal_strlit(":");
    }
    move_cursor(out, view.command_row(), 0);
    erase_line(out);
    if !status.in_command {
        append(out, status.message);
    } else {
        push_str(out, ":");
        let take: usize = if status.command.len() <= COMMAND_MAX {
            status.command.len()
        } else {
            COMMAND_MAX
        };
        append(out, &status.command[0..take]);
        assert(status.command@.subrange(0, take as int) =~= (if status.command@.len()
            <= COMMAND_MAX {
            status.command@
        } else {
            status.command@.take(COMMAND_MAX as int)
        }));
    }
    assert(out@ =~= old(out)@ + command_line(view.rows as int, status@));
}

/// Puts the cursor back to where it is in the text.
pub fn restore_cursor(out: &mut Vec<u8>, window: &Window, row: usize, col: usize)
    requires
        row < REGION_LIMIT,
        col < REGION_LIMIT,
    ensures
        final(out)@ == old(out)@ + cursor_in(
            window.top as int,
            window.height as int,
            row as int,
            col as int,
        ),
{
    match window.screen_row(row) {
        Some(at) => move_cursor(out, at, col),
        None => {},
    }
    assert(out@ =~= old(out)@ + cursor_in(
        window.top as int,
        window.height as int,
        row as int,
        col as int,
    ));
}

/// Draws the two lines at the bottom and puts the cursor back.
pub fn refresh(out: &mut Vec<u8>, view: &Layout, window: &Window, status: &Status)
    requires
        view.wf(),
        status.wf(),
        window.height == view.rows - 2,
    ensures
        final(out)@ == old(out)@ + refreshed(
            view.rows as int,
            view.path@,
            window.top as int,
            status@,
        ),
{
    draw_status(out, view, status);
    draw_command_line(out, view, status);
    restore_cursor(out, window, status.row, status.col);
    assert(out@ =~= old(out)@ + refreshed(
        view.rows as int,
        view.path@,
        window.top as int,
        status@,
    ));
}

/// Draws the whole screen, with the window moved to where the cursor is.
pub fn redraw(out: &mut Vec<u8>, view: &Layout, buffer: &Buffer, window: &mut Window, status: &Status)
    requires
        view.wf(),
        status.wf(),
        buffer.wf(),
        old(window).height == view.rows - 2,
    ensures
        final(window).height == old(window).height,
        final(window).top == crate::window::followed(
            old(window).top as int,
            old(window).height as int,
            status.row as int,
        ),
        final(out)@ == old(out)@ + redrawn(
            view.rows as int,
            view.path@,
            buffer@,
            final(window).top as int,
            status@,
        ),
{
    proof {
        reveal_strlit("\x1b[2J");
    }
    window.follow(status.row);
    push_str(out, screen::ERASE_SCREEN);
    let (first, end): (usize, usize) = window.visible(buffer.count());
    let ghost base = out@;
    assert(base + rows_of(buffer@, first as int, first as int) =~= base);
    let mut row: usize = first;
    while row < end
        invariant
            first <= row <= end,
            end <= buffer@.len(),
            end - first <= 0xffff,
            buffer.wf(),
            out@ == base + rows_of(buffer@, first as int, row as int),
        decreases end - row,
    {
        move_cursor(out, row - first, 0);
        erase_line(out);
        append(out, buffer.line(row));
        row += 1;
        assert(out@ =~= base + rows_of(buffer@, first as int, row as int));
    }
    refresh(out, view, window, status);
    assert(out@ =~= old(out)@ + redrawn(
        view.rows as int,
        view.path@,
        buffer@,
        window.top as int,
        status@,
    ));
}

/// Moves the screen by one line and draws the line that came into view.
pub fn scroll_by_one(out: &mut Vec<u8>, view: &Layout, buffer: &Buffer, window: &Window, down: bool)
    requires
        view.wf(),
        buffer.wf(),
        window.height == view.rows - 2,
        window.top < REGION_LIMIT,
    ensures
        final(out)@ == old(out)@ + shifted(view.rows as int, buffer@, window.top as int, down),
{
    proof {
        reveal_strlit("\x1b[M");
        reveal_strlit("\x1b[L");
    }
    let (first, end): (usize, usize) = window.visible(buffer.count());
    let height: usize = view.text_rows();
    let last: usize = if height > 0 {
        height - 1
    } else {
        0
    };
    move_cursor(out, 0, 0);
    let line: usize;
    if down {
        push_str(out, "\x1b[M");
        move_cursor(out, last, 0);
        line = first + last;
    } else {
        push_str(out, "\x1b[L");
        move_cursor(out, 0, 0);
        line = first;
    }
    erase_line(out);
    if line < end {
        append(out, buffer.line(line));
    }
    assert(out@ =~= old(out)@ + shifted(view.rows as int, buffer@, window.top as int, down));
}

/// Draws the line `row` again, where the window shows it.
pub fn redraw_line(out: &mut Vec<u8>, buffer: &Buffer, window: &Window, row: usize)
    requires
        buffer.wf(),
        row < buffer@.len(),
        window.height <= 0xffff,
    ensures
        final(out)@ == old(out)@ + line_drawn(
            buffer@,
            window.top as int,
            window.height as int,
            row as int,
        ),
{
    match window.screen_row(row) {
        Some(at) => {
            move_cursor(out, at, 0);
            erase_line(out);
            append(out, buffer.line(row));
        },
        None => {},
    }
    assert(out@ =~= old(out)@ + line_drawn(
        buffer@,
        window.top as int,
        window.height as int,
        row as int,
    ));
}

/// The text is drawn row by row: a line more is drawn on the row below, at its
/// beginning, over what was there, and with all of its bytes.
pub proof fn lines_are_drawn_row_by_row(lines: Seq<Seq<u8>>, first: int, end: int)
    requires
        0 <= first <= end < lines.len(),
    ensures
        rows_of(lines, first, first).len() == 0,
        rows_of(lines, first, end + 1) == rows_of(lines, first, end) + screen::cursor_to(
            end - first,
            0,
        ) + bytes::ascii("\x1b[2K"@) + lines[end],
        forall|top: int, height: int|
            top <= end < top + height ==> #[trigger] line_drawn(lines, top, height, end)
                == screen::cursor_to(end - top, 0) + bytes::ascii("\x1b[2K"@) + lines[end],
{
}

/// Drawing everything erases the screen and draws the lines that the window shows,
/// as many as there are rows for, and then the two lines at the bottom.
pub proof fn drawing_shows_what_the_window_shows(
    rows: int,
    path: Seq<u8>,
    lines: Seq<Seq<u8>>,
    top: int,
    s: Shown,
)
    requires
        rows >= 2,
        0 <= top <= lines.len(),
    ensures
        redrawn(rows, path, lines, top, s) == bytes::ascii("\x1b[2J"@) + rows_of(
            lines,
            top,
            if top + rows - 2 <= lines.len() {
                top + rows - 2
            } else {
                lines.len() as int
            },
        ) + refreshed(rows, path, top, s),
{
}

} // verus!
