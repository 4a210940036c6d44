//! The editor's state, and what each key does to it.
use crate::bytes::{self, spells, BACKSPACE, ESC, NEWLINE};
use crate::chars::{self, settle_before, settle_behind, step_left, step_right};
use crate::screen::{self, enter_screen, leave_screen};
use crate::window::{self, Window};
use crate::zi::buffer::{self, Buffer, Grants, REGION_LIMIT};
use crate::zi::draw::{
    self, redraw, redraw_line, refresh, restore_cursor, scroll_by_one, Layout, Mode, Shown, Status,
    COMMAND_MAX,
};
use vstd::prelude::*;

verus! {

/// How much of an escape sequence has arrived.
#[derive(Clone, Copy, PartialEq, Eq, Structural, Debug)]
pub enum Escape {
    Idle,
    /// After `ESC`.
    Esc,
    /// After `ESC [`.
    Bracket,
    /// After `ESC [ 3`.
    Tilde,
}

/// What the bottom line tells.
#[derive(Clone, Copy, PartialEq, Eq, Structural, Debug)]
pub enum Message {
    Nothing,
    OutOfMemory,
    Written,
    Unsaved,
    Unknown,
}

/// What the caller has to do after a key.
#[derive(Clone, Copy, PartialEq, Eq, Structural, Debug)]
pub enum Outcome {
    /// Read the next key.
    Continue,
    /// Write the text to the file, then call `saved`.
    Save {
        /// Whether the editor ends when that succeeds.
        quit: bool,
    },
    /// Release the memory and exit.
    Quit,
}

/// The editor in mathematical terms.
pub struct Model {
    pub lines: Seq<Seq<u8>>,
    pub text_room: int,
    pub index_room: int,
    pub top: int,
    pub row: int,
    pub col: int,
    pub mode: Mode,
    pub shown: Mode,
    pub escape: Escape,
    pub command: Seq<u8>,
    pub dirty: bool,
    pub message: Message,
}

/// What a key does: the editor after it, the bytes that go to the screen, and
/// whether the text changed.
pub struct Effect {
    pub model: Model,
    pub drawn: Seq<u8>,
    pub changed: bool,
}

/// The text of a message.
pub open spec fn message_text(message: Message) -> Seq<u8> {
    match message {
        Message::Nothing => Seq::empty(),
        Message::OutOfMemory => bytes::ascii("out of memory: cannot add a line"@),
        Message::Written => bytes::ascii("written"@),
        Message::Unsaved => bytes::ascii("unsaved changes; use :wq"@),
        Message::Unknown => bytes::ascii("unknown command"@),
    }
}

/// The column that is nearest to `col` on a line, as it is when the cursor comes
/// from another line: on a character of the line.
pub open spec fn clamped(col: int, line: Seq<u8>) -> int {
    let limit = if line.len() > 0 {
        line.len() - 1
    } else {
        0
    };
    chars::at_or_before(
        line,
        if col > limit {
            limit
        } else {
            col
        },
    )
}

/// Whether the cursor can go one character to the right: when inserting, until
/// it is behind the line; otherwise, until it is on the last character.
pub open spec fn has_right(mode: Mode, line: Seq<u8>, col: int) -> bool {
    col < line.len() && (mode == Mode::Insert || chars::right_of(line, col) < line.len())
}

/// A direction to move in.
#[derive(Clone, Copy, PartialEq, Eq, Structural, Debug)]
pub enum Direction {
    Left,
    Down,
    Up,
    Right,
}

impl Model {
    /// The editor with a text that was read.
    pub open spec fn begun(lines: Seq<Seq<u8>>, text_room: int, index_room: int) -> Model {
        Model {
            lines,
            text_room,
            index_room,
            top: 0,
            row: 0,
            col: 0,
            mode: Mode::Normal,
            shown: Mode::Normal,
            escape: Escape::Idle,
            command: Seq::empty(),
            dirty: false,
            message: Message::Nothing,
        }
    }

    /// The line that the cursor is on.
    pub open spec fn line(self) -> Seq<u8> {
        self.lines[self.row]
    }

    /// The text as bytes.
    pub open spec fn size(self) -> int {
        buffer::flat(self.lines).len() as int
    }

    /// The cursor moved by one character or by one line.
    pub open spec fn moved(self, direction: Direction) -> Model {
        match direction {
            Direction::Left => if self.col > 0 {
                Model { col: chars::left_of(self.line(), self.col), ..self }
            } else {
                self
            },
            Direction::Right => if has_right(self.mode, self.line(), self.col) {
                Model { col: chars::right_of(self.line(), self.col), ..self }
            } else {
                self
            },
            Direction::Up => if self.row > 0 {
                Model {
                    row: self.row - 1,
                    col: clamped(self.col, self.lines[self.row - 1]),
                    ..self
                }
            } else {
                self
            },
            Direction::Down => if self.row + 1 < self.lines.len() {
                Model {
                    row: self.row + 1,
                    col: clamped(self.col, self.lines[self.row + 1]),
                    ..self
                }
            } else {
                self
            },
        }
    }

    /// The status with no command in it.
    pub open spec fn status(self, dirty: bool, message: Seq<u8>) -> Shown {
        Shown {
            mode: self.mode,
            row: self.row,
            col: self.col,
            dirty,
            command: Seq::empty(),
            in_command: false,
            message,
        }
    }

    /// The window, moved to where the cursor is.
    pub open spec fn followed(self, rows: int) -> Model {
        Model { top: window::followed(self.top, rows - 2, self.row), ..self }
    }

    /// The whole screen drawn, with the window moved to where the cursor is.
    pub open spec fn redraw(
        self,
        rows: int,
        path: Seq<u8>,
        dirty: bool,
        message: Seq<u8>,
        changed: bool,
    ) -> Effect {
        let after = self.followed(rows);
        Effect {
            model: after,
            drawn: draw::redrawn(rows, path, self.lines, after.top, self.status(dirty, message)),
            changed,
        }
    }

    /// The line that the cursor is on drawn after it changed.
    pub open spec fn redraw_line(self, rows: int, path: Seq<u8>) -> Effect {
        Effect {
            model: self,
            drawn: draw::line_drawn(self.lines, self.top, rows - 2, self.row) + draw::refreshed(
                rows,
                path,
                self.top,
                self.status(true, Seq::empty()),
            ),
            changed: true,
        }
    }

    /// The screen after the cursor moved: as little is drawn as the window
    /// allows.
    pub open spec fn show_cursor(self, rows: int, path: Seq<u8>, message: Seq<u8>) -> Effect {
        let after = self.followed(rows);
        let status = self.status(self.dirty, message);
        Effect {
            model: after,
            drawn: if after.top == self.top {
                draw::cursor_in(self.top, rows - 2, self.row, self.col)
            } else if after.top == self.top + 1 || after.top == self.top - 1 {
                draw::shifted(rows, self.lines, after.top, after.top == self.top + 1)
                    + draw::refreshed(rows, path, after.top, status)
            } else {
                draw::redrawn(rows, path, self.lines, after.top, status)
            },
            changed: false,
        }
    }

    /// Nothing.
    pub open spec fn idle(self) -> Effect {
        Effect { model: self, drawn: Seq::empty(), changed: false }
    }

    /// The cursor moved by one, and shown where it did move.
    pub open spec fn step(
        self,
        rows: int,
        path: Seq<u8>,
        direction: Direction,
        message: Seq<u8>,
    ) -> Effect {
        let after = self.moved(direction);
        if after == self {
            self.idle()
        } else {
            after.show_cursor(rows, path, message)
        }
    }

    /// The mode changed to inserting at the column `col`.
    pub open spec fn insert_at(self, rows: int, col: int) -> Effect {
        let after = Model { mode: Mode::Insert, col, ..self };
        Effect {
            model: after,
            drawn: draw::cursor_in(after.top, rows - 2, after.row, col),
            changed: false,
        }
    }

    /// The character under the cursor removed, with the cursor kept on the line
    /// in normal mode.
    pub open spec fn without_character(self) -> Model {
        let line = chars::without(
            self.line(),
            self.col,
            chars::right_of(self.line(), self.col),
        );
        Model {
            lines: self.lines.update(self.row, line),
            col: if self.mode == Mode::Normal {
                clamped(self.col, line)
            } else {
                self.col
            },
            ..self
        }
    }

    /// A key in normal mode.
    pub open spec fn normal_key(self, rows: int, path: Seq<u8>, byte: u8) -> Effect {
        if byte == 'h' as u8 {
            self.step(rows, path, Direction::Left, Seq::empty())
        } else if byte == 'j' as u8 {
            self.step(rows, path, Direction::Down, Seq::empty())
        } else if byte == 'k' as u8 {
            self.step(rows, path, Direction::Up, Seq::empty())
        } else if byte == 'l' as u8 {
            self.step(rows, path, Direction::Right, Seq::empty())
        } else if byte == 'i' as u8 {
            self.insert_at(rows, self.col)
        } else if byte == 'a' as u8 {
            self.insert_at(rows, chars::right_of(self.line(), self.col))
        } else if byte == 'x' as u8 && self.col < self.line().len() {
            self.without_character().redraw(rows, path, true, Seq::empty(), true)
        } else {
            self.idle()
        }
    }

    /// Enter in insert mode.
    pub open spec fn enter(self, rows: int, path: Seq<u8>, grants: Grants) -> Effect {
        let text_room = buffer::text_cap_after(
            self.text_room,
            self.index_room,
            self.size() + 1,
            grants.text,
        );
        let slots = self.lines.len() + 2;
        if buffer::text_fits(self.text_room, self.index_room, self.size() + 1, grants.text)
            && buffer::index_fits(text_room, self.index_room, slots as int, grants.index) {
            Model {
                lines: buffer::split_at(self.lines, self.row, self.col),
                text_room,
                index_room: buffer::index_cap_after(
                    text_room,
                    self.index_room,
                    slots as int,
                    grants.index,
                ),
                row: self.row + 1,
                col: 0,
                ..self
            }.redraw(rows, path, true, Seq::empty(), true)
        } else {
            Model { text_room, message: Message::OutOfMemory, ..self }.redraw(
                rows,
                path,
                true,
                message_text(Message::OutOfMemory),
                false,
            )
        }
    }

    /// Backspace in insert mode.
    pub open spec fn erase(self, rows: int, path: Seq<u8>) -> Effect {
        if self.col > 0 {
            let from = chars::left_of(self.line(), self.col);
            Model {
                lines: self.lines.update(self.row, chars::without(self.line(), from, self.col)),
                col: from,
                ..self
            }.redraw_line(rows, path)
        } else if self.row == 0 {
            self.idle()
        } else {
            let lines = buffer::joined_at(self.lines, self.row - 1);
            Model {
                lines,
                row: self.row - 1,
                col: chars::at_or_behind(
                    lines[self.row - 1],
                    self.lines[self.row - 1].len() as int,
                ),
                ..self
            }.redraw(rows, path, true, Seq::empty(), true)
        }
    }

    /// Any other byte in insert mode.
    pub open spec fn put(self, rows: int, path: Seq<u8>, byte: u8, granted: bool) -> Effect {
        if buffer::text_fits(self.text_room, self.index_room, self.size() + 1, granted) {
            let line = self.line().insert(self.col, byte);
            Model {
                lines: self.lines.update(self.row, line),
                text_room: buffer::text_cap_after(
                    self.text_room,
                    self.index_room,
                    self.size() + 1,
                    granted,
                ),
                col: chars::at_or_behind(line, self.col + 1),
                ..self
            }.redraw_line(rows, path)
        } else {
            self.idle()
        }
    }

    /// A byte in normal or insert mode.
    #[verifier::opaque]
    pub open spec fn typed(self, rows: int, path: Seq<u8>, byte: u8, grants: Grants) -> Effect {
        match self.mode {
            Mode::Command => self.idle(),
            Mode::Normal => self.normal_key(rows, path, byte),
            Mode::Insert => if byte == NEWLINE {
                self.enter(rows, path, grants)
            } else if byte == BACKSPACE {
                self.erase(rows, path)
            } else {
                self.put(rows, path, byte, grants.text)
            },
        }
    }

    /// An escape that nothing followed: it ends inserting.
    pub open spec fn escaped(self, rows: int, path: Seq<u8>) -> Effect {
        if self.mode != Mode::Insert {
            self.idle()
        } else {
            let after = Model {
                mode: Mode::Normal,
                shown: Mode::Normal,
                col: chars::left_of(self.line(), self.col),
                ..self
            };
            Effect {
                model: after,
                drawn: draw::refreshed(
                    rows,
                    path,
                    after.top,
                    after.status(after.dirty, Seq::empty()),
                ),
                changed: false,
            }
        }
    }

    /// A command given up: what was typed of it is dropped, and the editor is back
    /// in normal mode.
    pub open spec fn given_up(self, rows: int, path: Seq<u8>) -> Effect {
        let after = Model {
            mode: Mode::Normal,
            shown: Mode::Normal,
            command: Seq::empty(),
            ..self
        };
        Effect {
            model: after,
            drawn: draw::refreshed(rows, path, after.top, after.command_status()),
            changed: false,
        }
    }

    /// An escape by itself: it ends inserting, and gives up a command.
    pub open spec fn lone_escape(self, rows: int, path: Seq<u8>) -> Effect {
        match self.mode {
            Mode::Normal => self.idle(),
            Mode::Insert => self.escaped(rows, path),
            Mode::Command => self.given_up(rows, path),
        }
    }

    /// The last byte of an arrow key.
    pub open spec fn arrow(self, rows: int, path: Seq<u8>, byte: u8) -> Effect {
        let message = message_text(self.message);
        if byte == 'A' as u8 {
            self.step(rows, path, Direction::Up, message)
        } else if byte == 'B' as u8 {
            self.step(rows, path, Direction::Down, message)
        } else if byte == 'C' as u8 {
            self.step(rows, path, Direction::Right, message)
        } else if byte == 'D' as u8 {
            self.step(rows, path, Direction::Left, message)
        } else {
            self.idle()
        }
    }

    /// The delete key.
    pub open spec fn delete(self, rows: int, path: Seq<u8>) -> Effect {
        if self.col < self.line().len() {
            let effect = self.without_character().redraw_line(rows, path);
            Effect { model: Model { dirty: true, ..effect.model }, ..effect }
        } else {
            self.idle()
        }
    }

    /// The status while a command is typed.
    pub open spec fn command_status(self) -> Shown {
        Shown {
            mode: self.mode,
            row: self.row,
            col: self.col,
            dirty: self.dirty,
            command: self.command,
            in_command: self.mode == Mode::Command,
            message: message_text(self.message),
        }
    }

    /// One more byte of a command, where there is room for it.
    pub open spec fn command_byte(self, rows: int, path: Seq<u8>, byte: u8) -> Effect {
        let after = Model {
            command: if self.command.len() < COMMAND_MAX {
                self.command.push(byte)
            } else {
                self.command
            },
            ..self
        };
        Effect {
            model: after,
            drawn: draw::refreshed(rows, path, after.top, after.command_status()),
            changed: false,
        }
    }

    /// A command done with: back to normal mode, with a message.
    pub open spec fn concluded(
        self,
        rows: int,
        path: Seq<u8>,
        message: Message,
        saved: bool,
    ) -> Effect {
        let after = Model {
            command: Seq::empty(),
            mode: Mode::Normal,
            message,
            dirty: self.dirty && !saved,
            ..self
        };
        after.redraw(rows, path, after.dirty, message_text(message), false)
    }

    /// The end of the editor.
    pub open spec fn left(self) -> Effect {
        Effect {
            model: Model {
                command: Seq::empty(),
                mode: Mode::Normal,
                message: Message::Nothing,
                ..self
            },
            drawn: bytes::ascii(screen::LEAVE_SCREEN@),
            changed: false,
        }
    }

    /// What the command on the bottom line asks for.
    pub open spec fn asked(self) -> Outcome {
        if self.command == bytes::ascii("w"@) {
            Outcome::Save { quit: false }
        } else if self.command == bytes::ascii("wq"@) {
            Outcome::Save { quit: true }
        } else if self.command == bytes::ascii("q"@) && !self.dirty {
            Outcome::Quit
        } else {
            Outcome::Continue
        }
    }

    /// Enter behind a command.
    pub open spec fn run_command(self, rows: int, path: Seq<u8>) -> Effect {
        match self.asked() {
            Outcome::Save { .. } => self.idle(),
            Outcome::Quit => self.left(),
            Outcome::Continue => if self.command == bytes::ascii("q"@) {
                self.concluded(rows, path, Message::Unsaved, false)
            } else {
                self.concluded(rows, path, Message::Unknown, false)
            },
        }
    }

    /// A byte that is not part of an escape sequence.
    pub open spec fn plain(self, rows: int, path: Seq<u8>, byte: u8, grants: Grants) -> Effect {
        if self.mode == Mode::Command {
            if byte == NEWLINE {
                self.run_command(rows, path)
            } else {
                self.command_byte(rows, path, byte)
            }
        } else if self.mode == Mode::Normal && byte == ':' as u8 {
            Model { mode: Mode::Command, command: Seq::empty(), ..self }.idle()
        } else {
            let effect = self.typed(rows, path, byte, grants);
            Effect {
                model: Model { dirty: effect.model.dirty || effect.changed, ..effect.model },
                ..effect
            }
        }
    }

    /// A byte behind an escape that did not begin a sequence: the escape counts
    /// by itself, then the byte.
    pub open spec fn after_escape(
        self,
        rows: int,
        path: Seq<u8>,
        byte: u8,
        grants: Grants,
    ) -> Effect {
        let first = Model { escape: Escape::Idle, ..self }.lone_escape(rows, path);
        if byte == ESC {
            Effect { model: Model { escape: Escape::Esc, ..first.model }, ..first }
        } else {
            let second = first.model.plain(rows, path, byte, grants);
            Effect { drawn: first.drawn + second.drawn, ..second }
        }
    }

    /// Any byte.
    pub open spec fn key(self, rows: int, path: Seq<u8>, byte: u8, grants: Grants) -> Effect {
        let ready = Model { escape: Escape::Idle, ..self };
        match self.escape {
            Escape::Idle => if byte == ESC {
                Model { escape: Escape::Esc, ..self }.idle()
            } else {
                self.plain(rows, path, byte, grants)
            },
            Escape::Esc => if byte == '[' as u8 {
                Model { escape: Escape::Bracket, ..self }.idle()
            } else {
                self.after_escape(rows, path, byte, grants)
            },
            Escape::Bracket => if byte == '3' as u8 {
                Model { escape: Escape::Tilde, ..self }.idle()
            } else {
                ready.arrow(rows, path, byte)
            },
            Escape::Tilde => if byte == '~' as u8 {
                ready.delete(rows, path)
            } else {
                ready.idle()
            },
        }
    }

    /// No byte is waiting: an escape that nothing followed counts by itself.
    pub open spec fn paused(self, rows: int, path: Seq<u8>) -> Effect {
        if self.escape == Escape::Esc {
            Model { escape: Escape::Idle, ..self }.lone_escape(rows, path)
        } else {
            self.idle()
        }
    }

    /// Before a byte is read: the mode is shown where it changed.
    pub open spec fn mode_shown(self, rows: int, path: Seq<u8>) -> Effect {
        Effect {
            model: Model { shown: self.mode, ..self },
            drawn: if self.mode != self.shown {
                draw::refreshed(rows, path, self.top, self.command_status())
            } else {
                Seq::empty()
            },
            changed: false,
        }
    }

    /// The bytes that show a line which the kernel kept for the user.
    pub open spec fn noticed(self, rows: int, path: Seq<u8>, line: Seq<u8>) -> Seq<u8> {
        draw::refreshed(
            rows,
            path,
            self.top,
            (Shown { message: line, ..self.command_status() }),
        )
    }

    /// What the caller has to do after the byte.
    pub open spec fn outcome(self, byte: u8) -> Outcome {
        if self.escape == Escape::Idle && self.mode == Mode::Command && byte == NEWLINE {
            self.asked()
        } else {
            Outcome::Continue
        }
    }

    /// The cursor is in the text, between two characters of its line, the text is
    /// made of lines, and the command has its bounded length.
    pub open spec fn wf(self) -> bool {
        &&& 0 <= self.row < self.lines.len()
        &&& 0 <= self.col <= self.line().len()
        &&& chars::between(self.line(), self.col)
        &&& 0 <= self.top
        &&& buffer::clean(self.lines)
        &&& self.command.len() <= COMMAND_MAX
    }
}

/// Where the cursor comes to on a line is between characters of that line.
pub proof fn lemma_clamped(col: int, line: Seq<u8>)
    requires
        0 <= col,
    ensures
        0 <= clamped(col, line) <= line.len(),
        chars::between(line, clamped(col, line)),
{
    let limit = if line.len() > 0 {
        line.len() - 1
    } else {
        0
    };
    chars::lemma_at_or_before(
        line,
        if col > limit {
            limit
        } else {
            col
        },
    );
}

/// A cursor that moved is in the text.
pub proof fn lemma_moved(model: Model, direction: Direction)
    requires
        model.wf(),
    ensures
        model.moved(direction).wf(),
{
    chars::lemma_left_of(model.line(), model.col);
    chars::lemma_right_of(model.line(), model.col);
    if model.row > 0 {
        lemma_clamped(model.col, model.lines[model.row - 1]);
    }
    if model.row + 1 < model.lines.len() {
        lemma_clamped(model.col, model.lines[model.row + 1]);
    }
}

/// The text without a character is in order.
pub proof fn lemma_without_character(model: Model)
    requires
        model.wf(),
    ensures
        model.without_character().wf(),
{
    let end = chars::right_of(model.line(), model.col);
    let line = chars::without(model.line(), model.col, end);
    chars::lemma_right_of(model.line(), model.col);
    chars::lemma_without(model.line(), model.col, end);
    lemma_clamped(model.col, line);
    buffer::lemma_clean_remove(model.lines, model.row, model.col, end);
    assert(model.without_character().line() == line);
}

/// The editor.
pub struct Editor {
    pub buffer: Buffer,
    pub window: Window,
    pub layout: Layout,
    pub row: usize,
    pub col: usize,
    pub mode: Mode,
    pub shown: Mode,
    pub escape: Escape,
    pub command: Vec<u8>,
    pub dirty: bool,
    pub message: Message,
}

/// The bytes of a message.
pub fn message_bytes(message: Message) -> (r: Vec<u8>)
    ensures
        r@ == message_text(message),
{
    proof {
        reveal_strlit("out of memory: cannot add a line");
        reveal_strlit("written");
        reveal_strlit("unsaved changes; use :wq");
        reveal_strlit("unknown command");
    }
    match message {
        Message::Nothing => Vec::new(),
        Message::OutOfMemory => crate::bytes::bytes_of("out of memory: cannot add a line"),
        Message::Written => crate::bytes::bytes_of("written"),
        Message::Unsaved => crate::bytes::bytes_of("unsaved changes; use :wq"),
        Message::Unknown => crate::bytes::bytes_of("unknown command"),
    }
}

impl Editor {
    /// The editor in mathematical terms.
    pub open spec fn view(&self) -> Model {
        Model {
            lines: self.buffer@,
            text_room: self.buffer.text_room(),
            index_room: self.buffer.index_room(),
            top: self.window.top as int,
            row: self.row as int,
            col: self.col as int,
            mode: self.mode,
            shown: self.shown,
            escape: self.escape,
            command: self.command@,
            dirty: self.dirty,
            message: self.message,
        }
    }

    /// Every part is in order, and the window has the rows that the two lines
    /// at the bottom leave.
    pub open spec fn wf(&self) -> bool {
        &&& self.buffer.wf()
        &&& self.layout.wf()
        &&& self.window.height == self.layout.rows - 2
        &&& self@.wf()
    }

    /// The size of the screen.
    pub open spec fn rows(&self) -> int {
        self.layout.rows as int
    }

    /// The path of the file.
    pub open spec fn path(&self) -> Seq<u8> {
        self.layout.path@
    }

    /// The same screen and the same file.
    pub open spec fn same_screen(&self, other: &Editor) -> bool {
        self.layout == other.layout
    }

    proof fn lemma_bounds(&self)
        requires
            self.wf(),
        ensures
            self.row < REGION_LIMIT,
            self.col < REGION_LIMIT,
            self.buffer@.len() <= REGION_LIMIT,
            self.buffer.bytes().len() == self@.size(),
    {
        buffer::lemma_sizes(self.buffer, self.row as int);
        buffer::buffer_is_its_lines(self.buffer);
    }

    /// Draws the whole screen.
    fn draw_all(&mut self, dirty: bool, message: &[u8], out: &mut Vec<u8>)
        requires
            old(self).wf(),
        ensures
            final(self).wf(),
            final(self).same_screen(old(self)),
            ({
                let effect = old(self)@.redraw(
                    old(self).rows(),
                    old(self).path(),
                    dirty,
                    message@,
                    false,
                );
                final(self)@ == effect.model && final(out)@ == old(out)@ + effect.drawn
            }),
    {
        proof {
            self.lemma_bounds();
        }
        let none: Vec<u8> = Vec::new();
        let status = Status {
            mode: self.mode,
            row: self.row,
            col: self.col,
            dirty,
            command: none.as_slice(),
            in_command: false,
            message,
        };
        assert(none@ =~= Seq::<u8>::empty());
        redraw(out, &self.layout, &self.buffer, &mut self.window, &status);
    }

    /// Draws the two lines at the bottom, with no command in them.
    fn draw_bottom(&self, dirty: bool, message: &[u8], out: &mut Vec<u8>)
        requires
            self.wf(),
        ensures
            final(out)@ == old(out)@ + draw::refreshed(
                self.rows(),
                self.path(),
                self@.top,
                self@.status(dirty, message@),
            ),
    {
        proof {
            self.lemma_bounds();
        }
        let none: Vec<u8> = Vec::new();
        let status = Status {
            mode: self.mode,
            row: self.row,
            col: self.col,
            dirty,
            command: none.as_slice(),
            in_command: false,
            message,
        };
        assert(none@ =~= Seq::<u8>::empty());
        refresh(out, &self.layout, &self.window, &status);
    }

    /// Draws the line that the cursor is on after it changed.
    fn draw_line(&self, out: &mut Vec<u8>)
        requires
            self.wf(),
        ensures
            final(out)@ == old(out)@ + self@.redraw_line(self.rows(), self.path()).drawn,
    {
        redraw_line(out, &self.buffer, &self.window, self.row);
        let none: Vec<u8> = Vec::new();
        assert(none@ =~= Seq::<u8>::empty());
        self.draw_bottom(true, none.as_slice(), out);
        assert(out@ =~= old(out)@ + self@.redraw_line(self.rows(), self.path()).drawn);
    }

    /// Puts the cursor where it is in the text.
    fn put_cursor(&self, out: &mut Vec<u8>)
        requires
            self.wf(),
        ensures
            final(out)@ == old(out)@ + draw::cursor_in(
                self@.top,
                self.rows() - 2,
                self@.row,
                self@.col,
            ),
    {
        proof {
            self.lemma_bounds();
        }
        restore_cursor(out, &self.window, self.row, self.col);
    }

    /// Shows the cursor after it moved.
    #[verifier::rlimit(40)]
    fn show_cursor(&mut self, message: &[u8], out: &mut Vec<u8>)
        requires
            old(self).wf(),
        ensures
            final(self).wf(),
            final(self).same_screen(old(self)),
            ({
                let effect = old(self)@.show_cursor(old(self).rows(), old(self).path(), message@);
                final(self)@ == effect.model && final(out)@ == old(out)@ + effect.drawn
            }),
    {
        proof {
            self.lemma_bounds();
        }
        let before: usize = self.window.top;
        if !self.window.follow(self.row) {
            self.put_cursor(out);
            return;
        }
        let down: bool = self.window.top > before && self.window.top - before == 1;
        let up: bool = self.window.top < before && before - self.window.top == 1;
        if down || up {
            scroll_by_one(out, &self.layout, &self.buffer, &self.window, down);
            self.draw_bottom(self.dirty, message, out);
            assert(out@ =~= old(out)@ + old(self)@.show_cursor(
                old(self).rows(),
                old(self).path(),
                message@,
            ).drawn);
            return;
        }
        let dirty: bool = self.dirty;
        let ghost moved = *self;
        self.draw_all(dirty, message, out);
        assert(self@.top == moved@.top);
    }

    /// Moves the cursor by one; true where it moved.
    fn move_by_one(&mut self, direction: Direction) -> (moved: bool)
        requires
            old(self).wf(),
        ensures
            final(self).wf(),
            final(self).same_screen(old(self)),
            final(self)@ == old(self)@.moved(direction),
            moved == (final(self)@ != old(self)@),
    {
        proof {
            self.lemma_bounds();
        }
        match direction {
            Direction::Left => {
                if self.col == 0 {
                    return false;
                }
                self.col = step_left(self.buffer.line(self.row), self.col);
            },
            Direction::Right => {
                let length: usize = self.buffer.length(self.row);
                if self.col >= length {
                    return false;
                }
                let next: usize = step_right(self.buffer.line(self.row), self.col);
                if self.mode != Mode::Insert && next >= length {
                    return false;
                }
                self.col = next;
            },
            Direction::Up => {
                if self.row == 0 {
                    return false;
                }
                self.row = self.row - 1;
                self.clamp_column();
            },
            Direction::Down => {
                if self.row + 1 >= self.buffer.count() {
                    return false;
                }
                self.row = self.row + 1;
                self.clamp_column();
            },
        }
        true
    }

    /// Keeps the column on the line.
    fn clamp_column(&mut self)
        requires
            old(self).buffer.wf(),
            old(self).row < old(self).buffer@.len(),
        ensures
            *final(self) == (Editor { col: final(self).col, ..*old(self) }),
            final(self).col == clamped(
                old(self).col as int,
                old(self).buffer@[old(self).row as int],
            ),
            final(self).col <= old(self).buffer@[old(self).row as int].len(),
            chars::between(old(self).buffer@[old(self).row as int], final(self).col as int),
    {
        let length: usize = self.buffer.length(self.row);
        let limit: usize = if length > 0 {
            length - 1
        } else {
            0
        };
        let nearest: usize = if self.col > limit {
            limit
        } else {
            self.col
        };
        self.col = settle_before(self.buffer.line(self.row), nearest);
    }

    /// Moves the cursor by one and shows it.
    fn step(&mut self, direction: Direction, message: &[u8], out: &mut Vec<u8>)
        requires
            old(self).wf(),
        ensures
            final(self).wf(),
            final(self).same_screen(old(self)),
            ({
                let effect = old(self)@.step(
                    old(self).rows(),
                    old(self).path(),
                    direction,
                    message@,
                );
                final(self)@ == effect.model && final(out)@ == old(out)@ + effect.drawn
            }),
    {
        if self.move_by_one(direction) {
            self.show_cursor(message, out);
        } else {
            assert(out@ =~= old(out)@ + Seq::<u8>::empty());
        }
    }

    /// Removes the character under the cursor.
    fn remove_character(&mut self) -> (removed: bool)
        requires
            old(self).wf(),
        ensures
            final(self).wf(),
            final(self).same_screen(old(self)),
            removed == (old(self)@.col < old(self)@.line().len()),
            final(self)@ == (if removed {
                old(self)@.without_character()
            } else {
                old(self)@
            }),
    {
        let ghost before = self@;
        let end: usize = step_right(self.buffer.line(self.row), self.col);
        if end == self.col {
            return false;
        }
        self.buffer.remove_range(self.row, self.col, end);
        proof {
            buffer::lemma_clean_remove(before.lines, before.row, before.col, end as int);
            chars::lemma_without(before.line(), before.col, end as int);
            assert(self.buffer@[self.row as int] == chars::without(
                before.line(),
                before.col,
                end as int,
            ));
        }
        if self.mode == Mode::Normal {
            self.clamp_column();
        }
        true
    }

    /// A key in normal mode; true where it changed the text.
    fn normal_key(&mut self, byte: u8, out: &mut Vec<u8>) -> (changed: bool)
        requires
            old(self).wf(),
            old(self).mode == Mode::Normal,
        ensures
            final(self).wf(),
            final(self).same_screen(old(self)),
            ({
                let effect = old(self)@.normal_key(old(self).rows(), old(self).path(), byte);
                final(self)@ == effect.model && final(out)@ == old(out)@ + effect.drawn && changed
                    == effect.changed
            }),
    {
        let none: Vec<u8> = Vec::new();
        assert(none@ =~= Seq::<u8>::empty());
        assert(out@ + Seq::<u8>::empty() =~= out@);
        if byte == 'h' as u8 {
            self.step(Direction::Left, none.as_slice(), out);
        } else if byte == 'j' as u8 {
            self.step(Direction::Down, none.as_slice(), out);
        } else if byte == 'k' as u8 {
            self.step(Direction::Up, none.as_slice(), out);
        } else if byte == 'l' as u8 {
            self.step(Direction::Right, none.as_slice(), out);
        } else if byte == 'i' as u8 {
            self.mode = Mode::Insert;
            self.put_cursor(out);
        } else if byte == 'a' as u8 {
            self.mode = Mode::Insert;
            self.col = step_right(self.buffer.line(self.row), self.col);
            self.put_cursor(out);
        } else if byte == 'x' as u8 {
            if self.remove_character() {
                self.draw_all(true, none.as_slice(), out);
                return true;
            }
        }
        false
    }

    /// Enter in insert mode; true where the line was split.
    fn enter(&mut self, grants: Grants, out: &mut Vec<u8>) -> (changed: bool)
        requires
            old(self).wf(),
            old(self).mode == Mode::Insert,
        ensures
            final(self).wf(),
            final(self).same_screen(old(self)),
            ({
                let effect = old(self)@.enter(old(self).rows(), old(self).path(), grants);
                final(self)@ == effect.model && final(out)@ == old(out)@ + effect.drawn && changed
                    == effect.changed
            }),
    {
        proof {
            self.lemma_bounds();
        }
        let ghost before = self@;
        if !self.buffer.split_line(self.row, self.col, grants) {
            self.message = Message::OutOfMemory;
            let message = message_bytes(Message::OutOfMemory);
            self.draw_all(true, message.as_slice(), out);
            return false;
        }
        self.row = self.row + 1;
        self.col = 0;
        proof {
            buffer::lemma_clean_split(before.lines, before.row, before.col);
        }
        let none: Vec<u8> = Vec::new();
        assert(none@ =~= Seq::<u8>::empty());
        self.draw_all(true, none.as_slice(), out);
        true
    }

    /// Backspace in insert mode; true where something was erased.
    fn erase(&mut self, out: &mut Vec<u8>) -> (changed: bool)
        requires
            old(self).wf(),
            old(self).mode == Mode::Insert,
        ensures
            final(self).wf(),
            final(self).same_screen(old(self)),
            ({
                let effect = old(self)@.erase(old(self).rows(), old(self).path());
                final(self)@ == effect.model && final(out)@ == old(out)@ + effect.drawn && changed
                    == effect.changed
            }),
    {
        let ghost before = self@;
        if self.col > 0 {
            let from: usize = step_left(self.buffer.line(self.row), self.col);
            self.buffer.remove_range(self.row, from, self.col);
            self.col = from;
            proof {
                buffer::lemma_clean_remove(before.lines, before.row, from as int, before.col);
                chars::lemma_without(before.line(), from as int, before.col);
            }
            self.draw_line(out);
            return true;
        }
        if self.row == 0 {
            assert(out@ =~= old(out)@ + Seq::<u8>::empty());
            return false;
        }
        let landing: usize = self.buffer.length(self.row - 1);
        self.buffer.join_with_next(self.row - 1);
        self.row = self.row - 1;
        self.col = settle_behind(self.buffer.line(self.row), landing);
        proof {
            buffer::lemma_clean_join(before.lines, before.row - 1);
        }
        let none: Vec<u8> = Vec::new();
        assert(none@ =~= Seq::<u8>::empty());
        self.draw_all(true, none.as_slice(), out);
        true
    }

    /// Any other byte in insert mode; true where it was inserted.
    fn put(&mut self, byte: u8, granted: bool, out: &mut Vec<u8>) -> (changed: bool)
        requires
            old(self).wf(),
            old(self).mode == Mode::Insert,
            byte != NEWLINE,
        ensures
            final(self).wf(),
            final(self).same_screen(old(self)),
            ({
                let effect = old(self)@.put(old(self).rows(), old(self).path(), byte, granted);
                final(self)@ == effect.model && final(out)@ == old(out)@ + effect.drawn && changed
                    == effect.changed
            }),
    {
        proof {
            self.lemma_bounds();
        }
        let ghost before = self@;
        if !self.buffer.insert(self.row, self.col, byte, granted) {
            assert(out@ =~= old(out)@ + Seq::<u8>::empty());
            return false;
        }
        self.col = settle_behind(self.buffer.line(self.row), self.col + 1);
        proof {
            buffer::lemma_clean_insert(before.lines, before.row, before.col, byte);
        }
        self.draw_line(out);
        true
    }

    /// A byte in normal or insert mode; true where it changed the text.
    pub fn handle_byte(&mut self, byte: u8, grants: Grants, out: &mut Vec<u8>) -> (changed: bool)
        requires
            old(self).wf(),
        ensures
            final(self).wf(),
            final(self).same_screen(old(self)),
            ({
                let effect = old(self)@.typed(old(self).rows(), old(self).path(), byte, grants);
                final(self)@ == effect.model && final(out)@ == old(out)@ + effect.drawn && changed
                    == effect.changed
            }),
    {
        proof {
            reveal(Model::typed);
        }
        match self.mode {
            Mode::Command => {
                assert(out@ =~= old(out)@ + Seq::<u8>::empty());
                false
            },
            Mode::Normal => self.normal_key(byte, out),
            Mode::Insert => {
                if byte == NEWLINE {
                    self.enter(grants, out)
                } else if byte == BACKSPACE {
                    self.erase(out)
                } else {
                    self.put(byte, grants.text, out)
                }
            },
        }
    }

    /// An escape that nothing followed: it ends inserting.
    pub fn finish_pending_escape(&mut self, out: &mut Vec<u8>)
        requires
            old(self).wf(),
        ensures
            final(self).wf(),
            final(self).same_screen(old(self)),
            ({
                let effect = old(self)@.escaped(old(self).rows(), old(self).path());
                final(self)@ == effect.model && final(out)@ == old(out)@ + effect.drawn
            }),
    {
        if self.mode != Mode::Insert {
            assert(out@ =~= old(out)@ + Seq::<u8>::empty());
            return;
        }
        self.mode = Mode::Normal;
        self.shown = Mode::Normal;
        self.col = step_left(self.buffer.line(self.row), self.col);
        let none: Vec<u8> = Vec::new();
        assert(none@ =~= Seq::<u8>::empty());
        self.draw_bottom(self.dirty, none.as_slice(), out);
    }

    /// The last byte of an arrow key.
    fn arrow(&mut self, byte: u8, out: &mut Vec<u8>)
        requires
            old(self).wf(),
        ensures
            final(self).wf(),
            final(self).same_screen(old(self)),
            ({
                let effect = old(self)@.arrow(old(self).rows(), old(self).path(), byte);
                final(self)@ == effect.model && final(out)@ == old(out)@ + effect.drawn
            }),
    {
        let message = message_bytes(self.message);
        if byte == 'A' as u8 {
            self.step(Direction::Up, message.as_slice(), out);
        } else if byte == 'B' as u8 {
            self.step(Direction::Down, message.as_slice(), out);
        } else if byte == 'C' as u8 {
            self.step(Direction::Right, message.as_slice(), out);
        } else if byte == 'D' as u8 {
            self.step(Direction::Left, message.as_slice(), out);
        } else {
            assert(out@ =~= old(out)@ + Seq::<u8>::empty());
        }
    }

    /// The delete key.
    fn delete(&mut self, out: &mut Vec<u8>)
        requires
            old(self).wf(),
        ensures
            final(self).wf(),
            final(self).same_screen(old(self)),
            ({
                let effect = old(self)@.delete(old(self).rows(), old(self).path());
                final(self)@ == effect.model && final(out)@ == old(out)@ + effect.drawn
            }),
    {
        if self.remove_character() {
            self.draw_line(out);
            self.dirty = true;
        } else {
            assert(out@ =~= old(out)@ + Seq::<u8>::empty());
        }
    }

    /// A command done with: back to normal mode, with a message.
    fn conclude(&mut self, message: Message, saved: bool, out: &mut Vec<u8>)
        requires
            old(self).wf(),
        ensures
            final(self).wf(),
            final(self).same_screen(old(self)),
            ({
                let effect = old(self)@.concluded(
                    old(self).rows(),
                    old(self).path(),
                    message,
                    saved,
                );
                final(self)@ == effect.model && final(out)@ == old(out)@ + effect.drawn
            }),
    {
        self.command = Vec::new();
        assert(self.command@ =~= Seq::<u8>::empty());
        self.mode = Mode::Normal;
        self.message = message;
        if saved {
            self.dirty = false;
        }
        let text = message_bytes(message);
        let dirty: bool = self.dirty;
        self.draw_all(dirty, text.as_slice(), out);
    }

    /// Leaves the screen.
    fn leave(&mut self, out: &mut Vec<u8>)
        requires
            old(self).wf(),
        ensures
            final(self).wf(),
            final(self).same_screen(old(self)),
            final(self)@ == old(self)@.left().model,
            final(out)@ == old(out)@ + old(self)@.left().drawn,
    {
        self.command = Vec::new();
        assert(self.command@ =~= Seq::<u8>::empty());
        self.mode = Mode::Normal;
        self.message = Message::Nothing;
        leave_screen(out);
    }

    /// Enter behind a command.
    pub fn run_command(&mut self, out: &mut Vec<u8>) -> (outcome: Outcome)
        requires
            old(self).wf(),
        ensures
            final(self).wf(),
            final(self).same_screen(old(self)),
            outcome == old(self)@.asked(),
            ({
                let effect = old(self)@.run_command(old(self).rows(), old(self).path());
                final(self)@ == effect.model && final(out)@ == old(out)@ + effect.drawn
            }),
    {
        proof {
            reveal_strlit("w");
            reveal_strlit("wq");
            reveal_strlit("q");
            assert(bytes::ascii("w"@)[0] != bytes::ascii("q"@)[0]);
        }
        assert(out@ + Seq::<u8>::empty() =~= out@);
        if spells(self.command.as_slice(), "w") {
            Outcome::Save { quit: false }
        } else if spells(self.command.as_slice(), "wq") {
            Outcome::Save { quit: true }
        } else if spells(self.command.as_slice(), "q") {
            if self.dirty {
                self.conclude(Message::Unsaved, false, out);
                Outcome::Continue
            } else {
                self.leave(out);
                Outcome::Quit
            }
        } else {
            self.conclude(Message::Unknown, false, out);
            Outcome::Continue
        }
    }

    /// Takes the result of a save that `run_command` asked for. A save that
    /// failed keeps the editor open, with the text as it is.
    pub fn saved(&mut self, quit: bool, ok: bool, out: &mut Vec<u8>) -> (outcome: Outcome)
        requires
            old(self).wf(),
        ensures
            final(self).wf(),
            final(self).same_screen(old(self)),
            final(self)@.lines == old(self)@.lines,
            outcome == (if quit && ok {
                Outcome::Quit
            } else {
                Outcome::Continue
            }),
            ({
                let effect = if quit && ok {
                    old(self)@.left()
                } else {
                    old(self)@.concluded(
                        old(self).rows(),
                        old(self).path(),
                        if ok {
                            Message::Written
                        } else {
                            Message::Nothing
                        },
                        ok,
                    )
                };
                final(self)@ == effect.model && final(out)@ == old(out)@ + effect.drawn
            }),
    {
        if quit && ok {
            self.leave(out);
            return Outcome::Quit;
        }
        let message = if ok {
            Message::Written
        } else {
            Message::Nothing
        };
        self.conclude(message, ok, out);
        Outcome::Continue
    }

    /// One more byte of a command.
    fn command_byte(&mut self, byte: u8, out: &mut Vec<u8>)
        requires
            old(self).wf(),
        ensures
            final(self).wf(),
            final(self).same_screen(old(self)),
            ({
                let effect = old(self)@.command_byte(old(self).rows(), old(self).path(), byte);
                final(self)@ == effect.model && final(out)@ == old(out)@ + effect.drawn
            }),
    {
        if self.command.len() < COMMAND_MAX {
            self.command.push(byte);
        }
        self.draw_command(out);
    }

    /// Draws the two lines at the bottom as the mode wants them.
    fn draw_command(&self, out: &mut Vec<u8>)
        requires
            self.wf(),
        ensures
            final(out)@ == old(out)@ + draw::refreshed(
                self.rows(),
                self.path(),
                self@.top,
                self@.command_status(),
            ),
    {
        proof {
            self.lemma_bounds();
        }
        let message = message_bytes(self.message);
        let status = Status {
            mode: self.mode,
            row: self.row,
            col: self.col,
            dirty: self.dirty,
            command: self.command.as_slice(),
            in_command: self.mode == Mode::Command,
            message: message.as_slice(),
        };
        refresh(out, &self.layout, &self.window, &status);
    }

    /// A byte that is not part of an escape sequence.
    fn plain(&mut self, byte: u8, grants: Grants, out: &mut Vec<u8>) -> (outcome: Outcome)
        requires
            old(self).wf(),
            old(self).escape == Escape::Idle,
        ensures
            final(self).wf(),
            final(self).same_screen(old(self)),
            outcome == old(self)@.outcome(byte),
            ({
                let effect = old(self)@.plain(old(self).rows(), old(self).path(), byte, grants);
                final(self)@ == effect.model && final(out)@ == old(out)@ + effect.drawn
            }),
    {
        if self.mode == Mode::Command {
            if byte == NEWLINE {
                return self.run_command(out);
            }
            self.command_byte(byte, out);
        } else if self.mode == Mode::Normal && byte == ':' as u8 {
            self.mode = Mode::Command;
            self.command = Vec::new();
            assert(self.command@ =~= Seq::<u8>::empty());
            assert(out@ =~= old(out)@ + Seq::<u8>::empty());
        } else {
            let changed: bool = self.handle_byte(byte, grants, out);
            self.dirty = self.dirty || changed;
        }
        Outcome::Continue
    }

    /// An escape by itself.
    fn take_escape(&mut self, out: &mut Vec<u8>)
        requires
            old(self).wf(),
        ensures
            final(self).wf(),
            final(self).same_screen(old(self)),
            ({
                let effect = old(self)@.lone_escape(old(self).rows(), old(self).path());
                final(self)@ == effect.model && final(out)@ == old(out)@ + effect.drawn
            }),
    {
        match self.mode {
            Mode::Command => {
                self.command = Vec::new();
                assert(self.command@ =~= Seq::<u8>::empty());
                self.mode = Mode::Normal;
                self.shown = Mode::Normal;
                self.draw_command(out);
            },
            _ => {
                self.finish_pending_escape(out);
            },
        }
    }

    /// A byte behind an escape that did not begin a sequence.
    #[verifier::rlimit(60)]
    fn after_escape(&mut self, byte: u8, grants: Grants, out: &mut Vec<u8>)
        requires
            old(self).wf(),
        ensures
            final(self).wf(),
            final(self).same_screen(old(self)),
            ({
                let effect = old(self)@.after_escape(
                    old(self).rows(),
                    old(self).path(),
                    byte,
                    grants,
                );
                final(self)@ == effect.model && final(out)@ == old(out)@ + effect.drawn
            }),
    {
        self.escape = Escape::Idle;
        self.take_escape(out);
        if byte == ESC {
            self.escape = Escape::Esc;
            return;
        }
        let ghost before = self@;
        let ghost shown = out@;
        self.plain(byte, grants, out);
        proof {
            let first = Model { escape: Escape::Idle, ..old(self)@ }.lone_escape(
                old(self).rows(),
                old(self).path(),
            );
            let second = before.plain(old(self).rows(), old(self).path(), byte, grants);
            assert(before == first.model);
            assert(shown == old(out)@ + first.drawn);
            assert(shown + second.drawn =~= old(out)@ + (first.drawn + second.drawn));
        }
    }

    /// Any byte from the keyboard. `grants` is what the kernel answers if the
    /// text or the index has to grow.
    pub fn key(&mut self, byte: u8, grants: Grants, out: &mut Vec<u8>) -> (outcome: Outcome)
        requires
            old(self).wf(),
        ensures
            final(self).wf(),
            final(self).same_screen(old(self)),
            outcome == old(self)@.outcome(byte),
            ({
                let effect = old(self)@.key(old(self).rows(), old(self).path(), byte, grants);
                final(self)@ == effect.model && final(out)@ == old(out)@ + effect.drawn
            }),
    {
        assert(out@ + Seq::<u8>::empty() =~= out@);
        match self.escape {
            Escape::Idle => {
                if byte == ESC {
                    self.escape = Escape::Esc;
                } else {
                    return self.plain(byte, grants, out);
                }
            },
            Escape::Esc => {
                if byte == '[' as u8 {
                    self.escape = Escape::Bracket;
                } else {
                    self.after_escape(byte, grants, out);
                }
            },
            Escape::Bracket => {
                if byte == '3' as u8 {
                    self.escape = Escape::Tilde;
                } else {
                    self.escape = Escape::Idle;
                    self.arrow(byte, out);
                }
            },
            Escape::Tilde => {
                self.escape = Escape::Idle;
                if byte == '~' as u8 {
                    self.delete(out);
                }
            },
        }
        Outcome::Continue
    }

    /// No byte is waiting. An escape that nothing followed counts by itself.
    pub fn pause(&mut self, out: &mut Vec<u8>)
        requires
            old(self).wf(),
        ensures
            final(self).wf(),
            final(self).same_screen(old(self)),
            ({
                let effect = old(self)@.paused(old(self).rows(), old(self).path());
                final(self)@ == effect.model && final(out)@ == old(out)@ + effect.drawn
            }),
    {
        if self.escape == Escape::Esc {
            self.escape = Escape::Idle;
            self.take_escape(out);
        } else {
            assert(out@ =~= old(out)@ + Seq::<u8>::empty());
        }
    }

    /// Before a byte is read: shows the mode where it changed.
    pub fn show_mode(&mut self, out: &mut Vec<u8>)
        requires
            old(self).wf(),
        ensures
            final(self).wf(),
            final(self).same_screen(old(self)),
            ({
                let effect = old(self)@.mode_shown(old(self).rows(), old(self).path());
                final(self)@ == effect.model && final(out)@ == old(out)@ + effect.drawn
            }),
    {
        if self.mode != self.shown {
            self.draw_command(out);
            self.shown = self.mode;
        } else {
            assert(out@ =~= old(out)@ + Seq::<u8>::empty());
        }
    }

    /// Shows a line that the kernel kept for the user.
    pub fn notice(&self, line: &[u8], out: &mut Vec<u8>)
        requires
            self.wf(),
        ensures
            final(out)@ == old(out)@ + self@.noticed(self.rows(), self.path(), line@),
    {
        proof {
            self.lemma_bounds();
        }
        let status = Status {
            mode: self.mode,
            row: self.row,
            col: self.col,
            dirty: self.dirty,
            command: self.command.as_slice(),
            in_command: self.mode == Mode::Command,
            message: line,
        };
        refresh(out, &self.layout, &self.window, &status);
    }

    /// Enters the screen with a text that was read.
    pub fn open(buffer: Buffer, layout: Layout, out: &mut Vec<u8>) -> (editor: Editor)
        requires
            buffer.wf(),
            buffer::clean(buffer@),
            layout.wf(),
        ensures
            editor.wf(),
            editor.layout == layout,
            editor@ == Model::begun(buffer@, buffer.text_room(), buffer.index_room()),
            final(out)@ == old(out)@ + bytes::ascii(screen::ENTER_SCREEN@) + draw::redrawn(
                layout.rows as int,
                layout.path@,
                buffer@,
                0,
                editor@.status(false, Seq::empty()),
            ),
    {
        enter_screen(out);
        let count: usize = buffer.count();
        let window = Window::new(layout.text_rows());
        let mut editor = Editor {
            buffer,
            window,
            layout,
            row: 0,
            col: 0,
            mode: Mode::Normal,
            shown: Mode::Normal,
            escape: Escape::Idle,
            command: Vec::new(),
            dirty: false,
            message: Message::Nothing,
        };
        assert(editor.command@ =~= Seq::<u8>::empty());
        let none: Vec<u8> = Vec::new();
        assert(none@ =~= Seq::<u8>::empty());
        editor.draw_all(false, none.as_slice(), out);
        editor
    }
}

} // verus!
