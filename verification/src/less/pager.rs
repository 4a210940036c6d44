//! What `less` shows, and what its keys do.
use crate::bytes::{self, append, push_str, ESC};
use crate::chars::{self, cut_position};
use crate::decimal;
use crate::less::doc::Doc;
use crate::line;
use crate::screen::{self, enter_screen, erase_line, leave_screen, move_cursor, write_number};
use crate::userlib::{self, Echo, MINUS_EAGAIN, ZDIAG_LEN};
use crate::window::{self, Window};
use vstd::prelude::*;

verus! {

/// The colour of the status line.
pub const STATUS_COLOR: &'static str = "\x1b[38;2;0;200;200m";

/// How much of an arrow key has arrived.
#[derive(Clone, Copy, PartialEq, Eq, Structural, Debug)]
pub enum Escape {
    Idle,
    /// After `ESC`.
    Esc,
    /// After `ESC [`.
    Bracket,
}

/// What comes after a byte.
#[derive(Clone, Copy, PartialEq, Eq, Structural, Debug)]
pub enum Step {
    /// The next byte.
    Wait,
    /// The program ends with status zero.
    Quit,
}

/// The pager in mathematical terms.
pub struct Model {
    pub lines: Seq<Seq<u8>>,
    pub rows: int,
    pub columns: int,
    pub top: int,
    pub echo: Seq<u8>,
    pub escape: Escape,
}

/// What a byte does: the pager after it, what goes to the screen, and what
/// comes next.
pub struct Effect {
    pub model: Model,
    pub shown: Seq<u8>,
    pub step: Step,
}

/// One row of the text: as much of its line as the screen is wide, cut between
/// characters, or nothing behind the last line.
pub open spec fn row_drawn(model: Model, row: int) -> Seq<u8> {
    let at = model.first() + row;
    screen::cursor_to(row, 0) + bytes::ascii(screen::ERASE_LINE@) + (if at < model.end() {
        chars::cut(model.lines[at], model.columns)
    } else {
        Seq::empty()
    })
}

/// The first `rows` rows of the text.
pub open spec fn rows_drawn(model: Model, rows: int) -> Seq<u8>
    decreases rows,
{
    if rows <= 0 {
        Seq::empty()
    } else {
        rows_drawn(model, rows - 1) + row_drawn(model, rows - 1)
    }
}

impl Model {
    /// The rows that the text has: all but the last.
    pub open spec fn height(self) -> int {
        if self.rows > 0 {
            self.rows - 1
        } else {
            0
        }
    }

    /// The first line shown.
    pub open spec fn first(self) -> int {
        if self.top <= self.lines.len() {
            self.top
        } else {
            self.lines.len() as int
        }
    }

    /// The line behind the last one shown.
    pub open spec fn end(self) -> int {
        if self.top + self.height() <= self.lines.len() {
            self.top + self.height()
        } else {
            self.lines.len() as int
        }
    }

    /// The text of the status line: which lines are shown, counted from one.
    pub open spec fn position(self) -> Seq<u8> {
        bytes::ascii("less: lines "@) + decimal::digits(
            if self.lines.len() == 0 {
                0
            } else {
                (self.first() + 1) as nat
            },
        ) + bytes::ascii("-"@) + decimal::digits(self.end() as nat) + bytes::ascii(" of "@)
            + decimal::digits(self.lines.len()) + bytes::ascii(" (q to quit)"@)
    }

    /// The status line: the error that the kernel kept, or else the position.
    pub open spec fn status(self) -> Seq<u8> {
        screen::cursor_to(self.height(), 0) + bytes::ascii(screen::ERASE_LINE@) + (if self.echo.len()
            > 0 {
            chars::cut(self.echo, self.columns)
        } else {
            bytes::ascii(STATUS_COLOR@) + line::clip(self.position(), self.columns)
                + bytes::ascii(screen::RESET@)
        })
    }

    /// The whole screen.
    pub open spec fn screen(self) -> Seq<u8> {
        rows_drawn(self, self.height()) + self.status()
    }

    /// The window moved down.
    pub open spec fn down(self, lines: int) -> Model {
        Model {
            top: window::scrolled_down(self.top, self.height(), lines, self.lines.len() as int),
            ..self
        }
    }

    /// The window moved up.
    pub open spec fn up(self, lines: int) -> Model {
        Model { top: window::scrolled_up(self.top, lines), ..self }
    }

    /// A byte that is not part of an arrow key. Where the window does not move,
    /// the status line is drawn all the same.
    pub open spec fn plain(self, byte: u8) -> Effect {
        let moved = if byte == 'j' as u8 {
            self.down(1)
        } else if byte == 'k' as u8 {
            self.up(1)
        } else if byte == ' ' as u8 {
            self.down(self.height())
        } else if byte == 'b' as u8 {
            self.up(self.height())
        } else {
            self
        };
        if byte == 'q' as u8 {
            Effect {
                model: self,
                shown: bytes::ascii(screen::LEAVE_SCREEN@),
                step: Step::Quit,
            }
        } else if moved.top != self.top {
            Effect { model: moved, shown: moved.screen(), step: Step::Wait }
        } else {
            Effect { model: self, shown: self.status(), step: Step::Wait }
        }
    }

    /// The last byte of an arrow key.
    pub open spec fn arrow(self, byte: u8) -> Effect {
        let moved = if byte == 'B' as u8 {
            self.down(1)
        } else if byte == 'A' as u8 {
            self.up(1)
        } else {
            self
        };
        Effect {
            model: moved,
            shown: if moved.top != self.top {
                moved.screen()
            } else {
                Seq::empty()
            },
            step: Step::Wait,
        }
    }

    /// A byte of the keyboard.
    pub open spec fn key(self, byte: u8) -> Effect {
        let ready = Model { echo: Seq::empty(), escape: Escape::Idle, ..self };
        match self.escape {
            Escape::Idle => if byte == ESC {
                Effect {
                    model: Model { escape: Escape::Esc, ..ready },
                    shown: Seq::empty(),
                    step: Step::Wait,
                }
            } else {
                ready.plain(byte)
            },
            Escape::Esc => if byte == '[' as u8 {
                Effect {
                    model: Model { escape: Escape::Bracket, ..ready },
                    shown: Seq::empty(),
                    step: Step::Wait,
                }
            } else {
                ready.plain(byte)
            },
            Escape::Bracket => ready.arrow(byte),
        }
    }

    /// The answer of a read of one byte: nothing yet ends an escape sequence,
    /// and a keyboard that is gone ends the program.
    pub open spec fn heard(self, got: i64, byte: u8) -> Effect {
        if got == MINUS_EAGAIN {
            Effect {
                model: Model { escape: Escape::Idle, ..self },
                shown: Seq::empty(),
                step: Step::Wait,
            }
        } else if got <= 0 {
            Effect {
                model: self,
                shown: bytes::ascii(screen::LEAVE_SCREEN@),
                step: Step::Quit,
            }
        } else {
            self.key(byte)
        }
    }
}

/// A text on the screen.
pub struct Pager {
    doc: Doc,
    rows: u16,
    columns: u16,
    window: Window,
    echo: Echo,
    escape: Escape,
}

impl Pager {
    /// The pager in mathematical terms.
    pub closed spec fn view(&self) -> Model {
        Model {
            lines: self.doc@,
            rows: self.rows as int,
            columns: self.columns as int,
            top: self.window.top as int,
            echo: self.echo@,
            escape: self.escape,
        }
    }

    /// The window is as high as the text's rows, and the numbers of the lines
    /// fit what they are written in.
    pub closed spec fn wf(&self) -> bool {
        &&& self.doc.wf()
        &&& self.window.height == self@.height()
        &&& self.doc@.len() + 1 < screen::NUMBER_LIMIT
    }

    /// The text at its beginning: enters the alternate screen and draws.
    pub fn new(doc: Doc, rows: u16, columns: u16, out: &mut Vec<u8>) -> (r: Self)
        requires
            doc.wf(),
            doc@.len() + 1 < screen::NUMBER_LIMIT,
        ensures
            r.wf(),
            r@ == (Model {
                lines: doc@,
                rows: rows as int,
                columns: columns as int,
                top: 0,
                echo: Seq::empty(),
                escape: Escape::Idle,
            }),
            final(out)@ == old(out)@ + (bytes::ascii(screen::ENTER_SCREEN@) + r@.screen()),
    {
        let height: usize = if rows > 0 {
            rows as usize - 1
        } else {
            0
        };
        let r = Pager {
            doc,
            rows,
            columns,
            window: Window::new(height),
            echo: Echo::new(),
            escape: Escape::Idle,
        };
        enter_screen(out);
        r.redraw(out);
        assert(out@ =~= old(out)@ + (bytes::ascii(screen::ENTER_SCREEN@) + r@.screen()));
        r
    }

    /// Draws the text.
    fn draw_text(&self, out: &mut Vec<u8>)
        requires
            self.wf(),
        ensures
            final(out)@ == old(out)@ + rows_drawn(self@, self@.height()),
    {
        let total: usize = self.doc.count();
        let (first, end) = self.window.visible(total);
        let height: usize = self.window.height;
        let columns: usize = self.columns as usize;
        let mut row: usize = 0;
        assert(out@ =~= old(out)@ + rows_drawn(self@, 0));
        while row < height
            invariant
                self.wf(),
                total == self.doc@.len(),
                first == self@.first(),
                end == self@.end(),
                first <= total,
                end <= total,
                height == self@.height(),
                height == self.window.height,
                height <= 0xffff,
                columns == self.columns,
                row <= height,
                out@ == old(out)@ + rows_drawn(self@, row as int),
            decreases height - row,
        {
            let ghost before = out@;
            move_cursor(out, row, 0);
            erase_line(out);
            if row < end - first {
                let text = self.doc.line(first + row);
                let take: usize = cut_position(text, columns);
                append(out, &text[0..take]);
                assert(text@.subrange(0, take as int) =~= chars::cut(text@, columns as int));
            }
            assert(out@ =~= before + row_drawn(self@, row as int));
            assert(out@ =~= old(out)@ + rows_drawn(self@, row + 1));
            row += 1;
        }
    }

    /// Draws the status line.
    pub fn draw_status(&self, out: &mut Vec<u8>)
        requires
            self.wf(),
        ensures
            final(out)@ == old(out)@ + self@.status(),
    {
        proof {
            reveal_strlit("\x1b[38;2;0;200;200m");
            reveal_strlit("\x1b[0m");
            reveal_strlit("less: lines ");
            reveal_strlit("-");
            reveal_strlit(" of ");
            reveal_strlit(" (q to quit)");
        }
        let columns: usize = self.columns as usize;
        move_cursor(out, self.window.height, 0);
        erase_line(out);
        let echo = self.echo.line();
        if echo.len() > 0 {
            let take: usize = cut_position(echo, columns);
            append(out, &echo[0..take]);
            assert(echo@.subrange(0, take as int) =~= chars::cut(echo@, columns as int));
            assert(out@ =~= old(out)@ + self@.status());
            return;
        }
        let total: usize = self.doc.count();
        let (first, end) = self.window.visible(total);
        let mut text: Vec<u8> = Vec::new();
        push_str(&mut text, "less: lines ");
        write_number(
            &mut text,
            if total == 0 {
                0
            } else {
                first + 1
            },
        );
        push_str(&mut text, "-");
        write_number(&mut text, end);
        push_str(&mut text, " of ");
        write_number(&mut text, total);
        push_str(&mut text, " (q to quit)");
        assert(text@ =~= self@.position());
        push_str(out, STATUS_COLOR);
        let take: usize = crate::bytes::least(text.len(), columns);
        append(out, &text[0..take]);
        assert(text@.subrange(0, take as int) =~= line::clip(text@, columns as int));
        push_str(out, screen::RESET);
        assert(out@ =~= old(out)@ + self@.status());
    }

    /// Draws the whole screen.
    pub fn redraw(&self, out: &mut Vec<u8>)
        requires
            self.wf(),
        ensures
            final(out)@ == old(out)@ + self@.screen(),
    {
        self.draw_text(out);
        self.draw_status(out);
        assert(out@ =~= old(out)@ + self@.screen());
    }

    /// Takes the error that the kernel kept, and shows it where there is one.
    pub fn take_echo(&mut self, answer: i64, raw: &[u8], out: &mut Vec<u8>)
        requires
            old(self).wf(),
            raw@.len() == ZDIAG_LEN,
        ensures
            final(self).wf(),
            final(self)@ == (Model {
                echo: if userlib::tells_line(answer, raw@) {
                    userlib::kept_text(raw@)
                } else {
                    old(self)@.echo
                },
                ..old(self)@
            }),
            final(out)@ == old(out)@ + (if userlib::tells_line(answer, raw@) {
                final(self)@.status()
            } else {
                Seq::empty()
            }),
    {
        if self.echo.take(answer, raw) {
            self.draw_status(out);
        } else {
            assert(out@ =~= old(out)@ + Seq::<u8>::empty());
        }
    }

    /// A byte that is not part of an arrow key.
    fn plain(&mut self, byte: u8, out: &mut Vec<u8>) -> (step: Step)
        requires
            old(self).wf(),
        ensures
            final(self).wf(),
            final(self)@ == old(self)@.plain(byte).model,
            final(out)@ == old(out)@ + old(self)@.plain(byte).shown,
            step == old(self)@.plain(byte).step,
    {
        let total: usize = self.doc.count();
        let height: usize = self.window.height;
        let moved = if byte == 'j' as u8 {
            self.window.scroll_down(1, total)
        } else if byte == 'k' as u8 {
            self.window.scroll_up(1)
        } else if byte == ' ' as u8 {
            self.window.scroll_down(height, total)
        } else if byte == 'b' as u8 {
            self.window.scroll_up(height)
        } else if byte == 'q' as u8 {
            leave_screen(out);
            return Step::Quit;
        } else {
            false
        };
        if moved {
            self.redraw(out);
        } else {
            self.draw_status(out);
        }
        Step::Wait
    }

    /// The answer of a read of one byte.
    pub fn heard(&mut self, got: i64, byte: u8, out: &mut Vec<u8>) -> (step: Step)
        requires
            old(self).wf(),
        ensures
            final(self).wf(),
            final(self)@ == old(self)@.heard(got, byte).model,
            final(out)@ == old(out)@ + old(self)@.heard(got, byte).shown,
            step == old(self)@.heard(got, byte).step,
    {
        assert(out@ + Seq::<u8>::empty() =~= out@);
        if got == MINUS_EAGAIN {
            self.escape = Escape::Idle;
            return Step::Wait;
        }
        if got <= 0 {
            leave_screen(out);
            return Step::Quit;
        }
        self.echo.clear();
        let escape = self.escape;
        match escape {
            Escape::Idle => {
                if byte == ESC {
                    self.escape = Escape::Esc;
                    return Step::Wait;
                }
            },
            Escape::Esc => {
                if byte == '[' as u8 {
                    self.escape = Escape::Bracket;
                    return Step::Wait;
                }
            },
            Escape::Bracket => {
                self.escape = Escape::Idle;
                let total: usize = self.doc.count();
                let moved = if byte == 'B' as u8 {
                    self.window.scroll_down(1, total)
                } else if byte == 'A' as u8 {
                    self.window.scroll_up(1)
                } else {
                    false
                };
                if moved {
                    self.redraw(out);
                }
                return Step::Wait;
            },
        }
        self.escape = Escape::Idle;
        self.plain(byte, out)
    }
}

/// The window never passes the end of the text by a key: where it began inside
/// the text, it stays there, and where lines are left below, the screen is full.
pub proof fn window_stays_on_the_text(model: Model, got: i64, byte: u8)
    requires
        0 <= model.rows,
        0 <= model.top,
        model.top == 0 || model.top + model.height() <= model.lines.len(),
    ensures
        ({
            let after = model.heard(got, byte).model;
            0 <= after.top && (after.top == 0 || after.top + after.height() <= after.lines.len())
        }),
{
}

/// No key changes the text.
pub proof fn keys_keep_the_text(model: Model, got: i64, byte: u8)
    ensures
        model.heard(got, byte).model.lines == model.lines,
{
}

/// A screen down and a screen up, with a whole screen left below, returns.
pub proof fn page_up_undoes_page_down(model: Model)
    requires
        0 <= model.top,
        0 < model.height(),
        model.top + 2 * model.height() <= model.lines.len(),
        model.escape == Escape::Idle,
    ensures
        model.key(' ' as u8).model.key('b' as u8).model == (Model { echo: Seq::empty(), ..model }),
{
}

/// Pages show every line: what a page ends with, the next one begins behind.
pub proof fn pages_leave_no_line_out(model: Model)
    requires
        0 <= model.top,
        0 < model.height(),
        model.top + 2 * model.height() <= model.lines.len(),
        model.escape == Escape::Idle,
    ensures
        model.key(' ' as u8).model.first() == model.end(),
{
}

/// A page down moves on wherever lines are left below: by a whole screen, or to
/// the end of the text where less than that is left. No line is passed over.
pub proof fn a_page_down_moves_on(model: Model)
    requires
        0 <= model.top,
        model.rows > 1,
        model.top + model.rows - 1 < model.lines.len(),
        model.escape == Escape::Idle,
    ensures
        ({
            let after = model.key(' ' as u8).model;
            &&& after.top > model.top
            &&& after.top <= model.top + model.rows - 1
            &&& model.top + 2 * (model.rows - 1) <= model.lines.len() ==> after.top == model.top
                + model.rows - 1
            &&& model.top + 2 * (model.rows - 1) >= model.lines.len() ==> after.top + model.rows
                - 1 == model.lines.len()
            &&& after.lines == model.lines && after.rows == model.rows
            &&& after.escape == Escape::Idle
        }),
{
}

/// The pager after `count` pages down.
pub open spec fn pages_down(model: Model, count: nat) -> Model
    decreases count,
{
    if count == 0 {
        model
    } else {
        pages_down(model.key(' ' as u8).model, (count - 1) as nat)
    }
}

/// Pages down, often enough, show the last line of every text, and then every
/// line of it has been shown.
pub proof fn pages_reach_the_last_line(model: Model, count: nat)
    requires
        0 <= model.top,
        model.rows > 1,
        model.escape == Escape::Idle,
        model.top + model.rows - 1 + count >= model.lines.len(),
    ensures
        pages_down(model, count).top + model.rows - 1 >= model.lines.len(),
        pages_down(model, count).lines == model.lines,
    decreases count,
{
    if count > 0 {
        let after = model.key(' ' as u8).model;
        assert(after.lines == model.lines && after.rows == model.rows && after.escape
            == Escape::Idle);
        if model.top + model.rows - 1 < model.lines.len() {
            a_page_down_moves_on(model);
        } else {
            assert(after.top == model.top);
        }
        pages_reach_the_last_line(after, (count - 1) as nat);
    }
}

/// The keys that move by a line: one line down where lines are left below, one
/// line up where lines are left above. The arrows do the same.
pub proof fn line_keys_move_by_one_line(model: Model)
    requires
        0 <= model.top,
        model.rows >= 1,
        model.escape == Escape::Idle,
    ensures
        model.top + model.rows - 1 < model.lines.len() ==> model.key('j' as u8).model.top
            == model.top + 1,
        model.top + model.rows - 1 >= model.lines.len() ==> model.key('j' as u8).model.top
            == model.top,
        model.top > 0 ==> model.key('k' as u8).model.top == model.top - 1,
        model.top == 0 ==> model.key('k' as u8).model.top == 0,
        ({
            let bracket = model.key(0x1b).model.key('[' as u8).model;
            &&& bracket.key('B' as u8).model == model.key('j' as u8).model
            &&& bracket.key('A' as u8).model == model.key('k' as u8).model
        }),
{
}

/// A page up goes back by a whole screen, or to the front of the text where less
/// than that is above.
pub proof fn a_page_up_moves_back(model: Model)
    requires
        0 <= model.top,
        model.rows >= 1,
        model.escape == Escape::Idle,
    ensures
        model.top >= model.rows - 1 ==> model.key('b' as u8).model.top == model.top - (model.rows
            - 1),
        model.top < model.rows - 1 ==> model.key('b' as u8).model.top == 0,
{
}

/// Only `q` and a keyboard that is gone end the program, and any other key that
/// has no meaning leaves the window where it is.
pub proof fn only_q_ends_the_program(model: Model, got: i64, byte: u8)
    ensures
        model.heard(got, byte).step == Step::Quit <==> got != -11 && (got <= 0 || (byte
            == 'q' as u8 && model.escape != Escape::Bracket)),
        got > 0 && model.escape != Escape::Bracket && byte != 'j' as u8 && byte != 'k' as u8
            && byte != ' ' as u8 && byte != 'b' as u8 ==> model.heard(got, byte).model.top
            == model.top,
        got <= 0 ==> model.heard(got, byte).model.top == model.top,
        got > 0 && model.escape == Escape::Bracket && byte != 'A' as u8 && byte != 'B' as u8
            ==> model.heard(got, byte).model.top == model.top,
{
}

/// The status line counts the lines from one: the first and the last that are
/// shown, and how many there are.
pub proof fn status_counts_from_one(model: Model)
    requires
        0 <= model.top,
        model.rows > 1,
        model.top < model.lines.len(),
    ensures
        model.position() == bytes::ascii("less: lines "@) + decimal::digits((model.top + 1) as nat)
            + bytes::ascii("-"@) + decimal::digits(
            if model.top + model.rows - 1 <= model.lines.len() {
                (model.top + model.rows - 1) as nat
            } else {
                model.lines.len()
            },
        ) + bytes::ascii(" of "@) + decimal::digits(model.lines.len()) + bytes::ascii(
            " (q to quit)"@,
        ),
{
}

} // verus!
