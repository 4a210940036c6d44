//! The line that is being typed, and the lines typed before.
use crate::bytes::{self, append, push_repeated, push_str, BACKSPACE, ESC, NEWLINE, SPACE};
use crate::chars::{self, settle_before, settle_behind, step_left, step_right};
use crate::zash::expand::LINE_MAX;
use vstd::prelude::*;

verus! {

/// How many lines are remembered.
pub const HISTORY_MAX: usize = 16;

/// How much of an escape sequence has arrived.
#[derive(Clone, Copy, PartialEq, Eq, Structural, Debug)]
pub enum Escape {
    Idle,
    /// After `ESC`.
    Esc,
    /// After `ESC [`.
    Bracket,
    /// After `ESC [` and a digit.
    Number(u8),
}

/// The prompt.
pub open spec fn prompt(color: bool) -> Seq<u8> {
    if color {
        bytes::ascii("\x1b[38;2;0;200;0m"@) + bytes::ascii("zaytos"@) + bytes::ascii("\x1b[0m"@)
            + bytes::ascii("$ "@)
    } else {
        bytes::ascii("zaytos"@) + bytes::ascii("$ "@)
    }
}

/// The editor of the line in mathematical terms.
pub struct Model {
    pub line: Seq<u8>,
    pub cursor: int,
    pub overflowed: bool,
    pub escape: Escape,
    pub history: Seq<Seq<u8>>,
    pub back: int,
    pub saved: Seq<u8>,
    pub color: bool,
}

/// What a key does: the editor after it, the bytes that go to the screen, and
/// the line where one was ended.
pub struct Effect {
    pub model: Model,
    pub shown: Seq<u8>,
    pub ended: Option<Seq<u8>>,
}

/// The lines remembered after `line` was ended. An empty line and one that
/// repeats the last are not remembered; the oldest is forgotten.
pub open spec fn remembered(history: Seq<Seq<u8>>, line: Seq<u8>) -> Seq<Seq<u8>> {
    if line.len() == 0 || (history.len() > 0 && history.last() == line) {
        history
    } else if history.len() < HISTORY_MAX {
        history.push(line)
    } else {
        history.skip(1).push(line)
    }
}

/// The beginning of the word before `cursor`: spaces before the cursor belong
/// to it.
pub open spec fn word_begin(line: Seq<u8>, cursor: int) -> int {
    letters_begin(line, spaces_begin(line, cursor))
}

/// Where the spaces before `at` begin.
pub open spec fn spaces_begin(line: Seq<u8>, at: int) -> int
    decreases at,
{
    if at > 0 && line[at - 1] == SPACE {
        spaces_begin(line, at - 1)
    } else {
        at
    }
}

/// Where the bytes before `at` that are not spaces begin.
pub open spec fn letters_begin(line: Seq<u8>, at: int) -> int
    decreases at,
{
    if at > 0 && line[at - 1] != SPACE {
        letters_begin(line, at - 1)
    } else {
        at
    }
}

/// A line that can have been typed: it leaves room for what ends it, and holds
/// no control byte.
pub open spec fn typeable(line: Seq<u8>) -> bool {
    line.len() < LINE_MAX && forall|i: int| 0 <= i < line.len() ==> #[trigger] line[i] >= 0x20
}

impl Model {
    /// The cursor is on the line, between two of its characters, every line can
    /// have been typed, and not more are remembered than there is room for.
    pub open spec fn wf(self) -> bool {
        &&& 0 <= self.cursor <= self.line.len()
        &&& chars::between(self.line, self.cursor)
        &&& typeable(self.line)
        &&& typeable(self.saved)
        &&& self.history.len() <= HISTORY_MAX
        &&& 0 <= self.back <= self.history.len()
        &&& forall|i: int| 0 <= i < self.history.len() ==> typeable(#[trigger] self.history[i])
    }

    /// Nothing.
    pub open spec fn idle(self) -> Effect {
        Effect { model: self, shown: Seq::empty(), ended: None }
    }

    /// One character to the left.
    pub open spec fn left(self) -> Effect {
        let cursor = chars::left_of(self.line, self.cursor);
        Effect {
            model: Model { cursor, ..self },
            shown: bytes::repeated(BACKSPACE, self.cursor - cursor),
            ended: None,
        }
    }

    /// One character to the right: it is written again.
    pub open spec fn right(self) -> Effect {
        let cursor = chars::right_of(self.line, self.cursor);
        Effect {
            model: Model { cursor, ..self },
            shown: self.line.subrange(self.cursor, cursor),
            ended: None,
        }
    }

    /// To the beginning.
    pub open spec fn to_start(self) -> Effect {
        Effect {
            model: Model { cursor: 0, ..self },
            shown: bytes::repeated(BACKSPACE, self.cursor),
            ended: None,
        }
    }

    /// To the end: the rest of the line is written again.
    pub open spec fn to_end(self) -> Effect {
        Effect {
            model: Model { cursor: self.line.len() as int, ..self },
            shown: self.line.skip(self.cursor),
            ended: None,
        }
    }

    /// Without the characters that reach between `start` and `end`: the rest is
    /// written again, with spaces over what is left of the old line.
    pub open spec fn delete(self, start: int, end: int) -> Effect {
        if start >= end || end > self.line.len() {
            self.idle()
        } else {
            let from = chars::at_or_before(self.line, start);
            let to = chars::at_or_behind(self.line, end);
            let line = chars::without(self.line, from, to);
            let removed = to - from;
            Effect {
                model: Model { line, cursor: from, ..self },
                shown: bytes::repeated(BACKSPACE, self.cursor - from) + line.skip(from)
                    + bytes::repeated(SPACE, removed) + bytes::repeated(
                    BACKSPACE,
                    line.len() - from + removed,
                ),
                ended: None,
            }
        }
    }

    /// One byte more, where there is room for it.
    pub open spec fn put(self, byte: u8) -> Effect {
        if self.line.len() + 1 < LINE_MAX {
            let line = self.line.insert(self.cursor, byte);
            let tail = line.skip(self.cursor + 1);
            let cursor = chars::at_or_behind(line, self.cursor + 1);
            Effect {
                model: Model { line, cursor, ..self },
                shown: seq![byte] + tail + bytes::repeated(BACKSPACE, line.len() - cursor),
                ended: None,
            }
        } else {
            Model { overflowed: true, ..self }.idle()
        }
    }

    /// Another line in the place of this one.
    pub open spec fn replace(self, line: Seq<u8>) -> Effect {
        let old = self.line.len() as int;
        Effect {
            model: Model { line, cursor: line.len() as int, ..self },
            shown: self.line.skip(self.cursor) + bytes::repeated(BACKSPACE, old)
                + bytes::repeated(SPACE, old) + bytes::repeated(BACKSPACE, old) + line,
            ended: None,
        }
    }

    /// The line that was remembered `back` lines ago.
    pub open spec fn recalled(self, back: int) -> Seq<u8> {
        self.history[self.history.len() - back]
    }

    /// The line before, with the unfinished line kept.
    pub open spec fn previous(self) -> Effect {
        if self.back >= self.history.len() {
            self.idle()
        } else {
            Model {
                saved: if self.back == 0 {
                    self.line
                } else {
                    self.saved
                },
                back: self.back + 1,
                ..self
            }.replace(self.recalled(self.back + 1))
        }
    }

    /// The line behind; behind the last, the unfinished one.
    pub open spec fn next(self) -> Effect {
        if self.back == 0 {
            self.idle()
        } else {
            Model { back: self.back - 1, ..self }.replace(
                if self.back == 1 {
                    self.saved
                } else {
                    self.recalled(self.back - 1)
                },
            )
        }
    }

    /// The screen cleared and drawn anew.
    pub open spec fn redraw(self) -> Effect {
        Effect {
            model: self,
            shown: bytes::ascii("\x1b[2J\x1b[H"@) + prompt(self.color) + self.line
                + bytes::repeated(BACKSPACE, self.line.len() - self.cursor),
            ended: None,
        }
    }

    /// An empty line.
    pub open spec fn cleared(self) -> Model {
        Model {
            line: Seq::empty(),
            cursor: 0,
            overflowed: false,
            escape: Escape::Idle,
            back: 0,
            saved: Seq::empty(),
            ..self
        }
    }

    /// The end of the line. A line with more bytes than it holds is refused.
    pub open spec fn enter(self) -> Effect {
        Effect {
            model: Model { history: remembered(self.history, self.line), ..self.cleared() },
            shown: bytes::ascii("\n"@) + (if self.overflowed {
                bytes::ascii("zash: line too long\n"@)
            } else {
                Seq::empty()
            }),
            ended: if self.overflowed {
                Some(Seq::empty())
            } else {
                Some(self.line)
            },
        }
    }

    /// The line given up.
    pub open spec fn abandon(self) -> Effect {
        Effect {
            model: self.cleared(),
            shown: bytes::ascii("^C\n"@) + prompt(self.color),
            ended: None,
        }
    }

    /// A byte that is not part of an escape sequence.
    pub open spec fn plain(self, byte: u8) -> Effect {
        if byte == NEWLINE {
            self.enter()
        } else if byte == 0x03 {
            self.abandon()
        } else if byte == 0x02 {
            self.left()
        } else if byte == 0x06 {
            self.right()
        } else if byte == 0x10 {
            self.previous()
        } else if byte == 0x0e {
            self.next()
        } else if byte == 0x01 {
            self.to_start()
        } else if byte == 0x05 {
            self.to_end()
        } else if byte == BACKSPACE {
            self.delete(
                if self.cursor > 0 {
                    self.cursor - 1
                } else {
                    0
                },
                self.cursor,
            )
        } else if byte == 0x04 {
            self.delete(self.cursor, self.cursor + 1)
        } else if byte == 0x0b {
            self.delete(self.cursor, self.line.len() as int)
        } else if byte == 0x15 {
            self.delete(0, self.cursor)
        } else if byte == 0x17 {
            self.delete(word_begin(self.line, self.cursor), self.cursor)
        } else if byte == 0x0c {
            self.redraw()
        } else if byte < 0x20 {
            self.idle()
        } else {
            self.put(byte)
        }
    }

    /// The key that a digit in an escape sequence stands for.
    pub open spec fn numbered(self, digit: u8) -> Effect {
        if digit == '1' as u8 {
            self.to_start()
        } else if digit == '4' as u8 {
            self.to_end()
        } else if digit == '3' as u8 {
            self.delete(self.cursor, self.cursor + 1)
        } else {
            self.idle()
        }
    }

    /// Any byte. A sequence that is not known is dropped, and the byte that
    /// showed it counts by itself.
    pub open spec fn key(self, byte: u8) -> Effect {
        let ready = Model { escape: Escape::Idle, ..self };
        match self.escape {
            Escape::Idle => if byte == ESC {
                Model { escape: Escape::Esc, ..self }.idle()
            } else {
                self.plain(byte)
            },
            Escape::Esc => if byte == '[' as u8 {
                Model { escape: Escape::Bracket, ..self }.idle()
            } else {
                ready.plain(byte)
            },
            Escape::Bracket => if byte == 'D' as u8 {
                ready.left()
            } else if byte == 'C' as u8 {
                ready.right()
            } else if 0x30 <= byte <= 0x39 {
                Model { escape: Escape::Number(byte), ..self }.idle()
            } else if byte == 'A' as u8 {
                ready.previous()
            } else if byte == 'B' as u8 {
                ready.next()
            } else {
                ready.plain(byte)
            },
            Escape::Number(digit) => if byte == '~' as u8 {
                ready.numbered(digit)
            } else {
                ready.plain(byte)
            },
        }
    }
}

/// The editor of the line.
pub struct Editor {
    line: Vec<u8>,
    cursor: usize,
    overflowed: bool,
    escape: Escape,
    history: Vec<Vec<u8>>,
    back: usize,
    saved: Vec<u8>,
    color: bool,
}

/// Writes the prompt, in colour where the terminal is known.
pub fn write_prompt(color: bool, out: &mut Vec<u8>)
    ensures
        final(out)@ == old(out)@ + prompt(color),
{
    proof {
        reveal_strlit("\x1b[38;2;0;200;0m");
        reveal_strlit("zaytos");
        reveal_strlit("\x1b[0m");
        reveal_strlit("$ ");
    }
    if color {
        push_str(out, "\x1b[38;2;0;200;0m");
        push_str(out, "zaytos");
        push_str(out, "\x1b[0m");
    } else {
        push_str(out, "zaytos");
    }
    push_str(out, "$ ");
    assert(out@ =~= old(out)@ + prompt(color));
}

/// The beginning of the word before `cursor`.
pub fn word_start(line: &[u8], cursor: usize) -> (r: usize)
    requires
        cursor <= line@.len(),
    ensures
        r == word_begin(line@, cursor as int),
        r <= cursor,
{
    let mut at: usize = cursor;
    while at > 0 && line[at - 1] == SPACE
        invariant
            at <= cursor <= line@.len(),
            spaces_begin(line@, cursor as int) == spaces_begin(line@, at as int),
        decreases at,
    {
        at -= 1;
    }
    let ghost middle = at as int;
    while at > 0 && line[at - 1] != SPACE
        invariant
            at <= cursor <= line@.len(),
            letters_begin(line@, middle) == letters_begin(line@, at as int),
        decreases at,
    {
        at -= 1;
    }
    at
}

impl Editor {
    /// The editor in mathematical terms.
    pub closed spec fn view(&self) -> Model {
        Model {
            line: self.line@,
            cursor: self.cursor as int,
            overflowed: self.overflowed,
            escape: self.escape,
            history: crate::startup::strings(self.history@),
            back: self.back as int,
            saved: self.saved@,
            color: self.color,
        }
    }

    /// An empty line and nothing remembered.
    pub fn new(color: bool) -> (r: Self)
        ensures
            r@ == (Model {
                line: Seq::empty(),
                cursor: 0,
                overflowed: false,
                escape: Escape::Idle,
                history: Seq::empty(),
                back: 0,
                saved: Seq::empty(),
                color,
            }),
            r@.wf(),
    {
        let r = Editor {
            line: Vec::new(),
            cursor: 0,
            overflowed: false,
            escape: Escape::Idle,
            history: Vec::new(),
            back: 0,
            saved: Vec::new(),
            color,
        };
        assert(r@.history =~= Seq::<Seq<u8>>::empty());
        r
    }

    /// Whether the prompt is in colour.
    pub fn color(&self) -> (r: bool)
        ensures
            r == self@.color,
    {
        self.color
    }

    /// One character to the left.
    pub fn move_left(&mut self, out: &mut Vec<u8>)
        requires
            old(self)@.wf(),
        ensures
            final(self)@.wf(),
            final(self)@ == old(self)@.left().model,
            final(out)@ == old(out)@ + old(self)@.left().shown,
    {
        let cursor: usize = step_left(self.line.as_slice(), self.cursor);
        push_repeated(out, BACKSPACE, self.cursor - cursor);
        self.cursor = cursor;
    }

    /// One character to the right.
    pub fn move_right(&mut self, out: &mut Vec<u8>)
        requires
            old(self)@.wf(),
        ensures
            final(self)@.wf(),
            final(self)@ == old(self)@.right().model,
            final(out)@ == old(out)@ + old(self)@.right().shown,
    {
        let cursor: usize = step_right(self.line.as_slice(), self.cursor);
        append(out, &self.line[self.cursor..cursor]);
        self.cursor = cursor;
    }

    /// To the beginning.
    pub fn move_to_start(&mut self, out: &mut Vec<u8>)
        requires
            old(self)@.wf(),
        ensures
            final(self)@.wf(),
            final(self)@ == old(self)@.to_start().model,
            final(out)@ == old(out)@ + old(self)@.to_start().shown,
    {
        push_repeated(out, BACKSPACE, self.cursor);
        self.cursor = 0;
    }

    /// To the end.
    pub fn move_to_end(&mut self, out: &mut Vec<u8>)
        requires
            old(self)@.wf(),
        ensures
            final(self)@.wf(),
            final(self)@ == old(self)@.to_end().model,
            final(out)@ == old(out)@ + old(self)@.to_end().shown,
    {
        let length: usize = self.line.len();
        append(out, &self.line[self.cursor..length]);
        assert(self.line@.subrange(self.cursor as int, length as int) =~= self.line@.skip(
            self.cursor as int,
        ));
        self.cursor = length;
    }

    /// Without the characters that reach between `start` and `end`.
    pub fn delete_range(&mut self, start: usize, end: usize, out: &mut Vec<u8>)
        requires
            old(self)@.wf(),
            start <= old(self)@.cursor,
        ensures
            final(self)@.wf(),
            final(self)@ == old(self)@.delete(start as int, end as int).model,
            final(out)@ == old(out)@ + old(self)@.delete(start as int, end as int).shown,
    {
        let length: usize = self.line.len();
        if start >= end || end > length {
            assert(out@ =~= old(out)@ + Seq::<u8>::empty());
            return;
        }
        let from: usize = settle_before(self.line.as_slice(), start);
        let to: usize = settle_behind(self.line.as_slice(), end);
        let removed: usize = to - from;
        push_repeated(out, BACKSPACE, self.cursor - from);
        let mut line: Vec<u8> = Vec::new();
        append(&mut line, &self.line[0..from]);
        append(&mut line, &self.line[to..length]);
        let ghost want = chars::without(old(self)@.line, from as int, to as int);
        assert(line@ =~= want);
        proof {
            chars::lemma_without(old(self)@.line, from as int, to as int);
        }
        self.line = line;
        self.cursor = from;
        let tail: usize = self.line.len() - from;
        append(out, &self.line[from..from + tail]);
        assert(want.subrange(from as int, from + tail) =~= want.skip(from as int));
        push_repeated(out, SPACE, removed);
        push_repeated(out, BACKSPACE, tail + removed);
        assert(out@ =~= old(out)@ + old(self)@.delete(start as int, end as int).shown);
    }

    /// One byte more, where there is room for it.
    fn put(&mut self, byte: u8, out: &mut Vec<u8>)
        requires
            old(self)@.wf(),
            byte >= 0x20,
        ensures
            final(self)@.wf(),
            final(self)@ == old(self)@.put(byte).model,
            final(out)@ == old(out)@ + old(self)@.put(byte).shown,
    {
        if self.line.len() + 1 < LINE_MAX {
            self.line.insert(self.cursor, byte);
            let behind: usize = self.cursor + 1;
            out.push(byte);
            let length: usize = self.line.len();
            append(out, &self.line[behind..length]);
            assert(self.line@.subrange(behind as int, length as int) =~= self.line@.skip(
                behind as int,
            ));
            self.cursor = settle_behind(self.line.as_slice(), behind);
            push_repeated(out, BACKSPACE, length - self.cursor);
        } else {
            self.overflowed = true;
        }
        assert(out@ =~= old(out)@ + old(self)@.put(byte).shown);
    }

    /// Another line in the place of this one.
    fn replace_line(&mut self, line: Vec<u8>, out: &mut Vec<u8>)
        requires
            old(self)@.wf(),
            typeable(line@),
        ensures
            final(self)@.wf(),
            final(self)@ == old(self)@.replace(line@).model,
            final(out)@ == old(out)@ + old(self)@.replace(line@).shown,
    {
        let length: usize = self.line.len();
        self.move_to_end(out);
        push_repeated(out, BACKSPACE, length);
        push_repeated(out, SPACE, length);
        push_repeated(out, BACKSPACE, length);
        append(out, line.as_slice());
        self.cursor = line.len();
        self.line = line;
        assert(out@ =~= old(out)@ + old(self)@.replace(self.line@).shown);
    }

    /// The line that was remembered `back` lines ago.
    fn history_at(&self, back: usize) -> (r: Vec<u8>)
        requires
            self@.wf(),
            1 <= back <= self@.history.len(),
        ensures
            r@ == self@.recalled(back as int),
            typeable(r@),
    {
        let at: usize = self.history.len() - back;
        assert(self@.history[at as int] == self.history@[at as int]@);
        crate::bytes::copy_of(self.history[at].as_slice())
    }

    /// The line before, with the unfinished line kept.
    pub fn history_previous(&mut self, out: &mut Vec<u8>)
        requires
            old(self)@.wf(),
        ensures
            final(self)@.wf(),
            final(self)@ == old(self)@.previous().model,
            final(out)@ == old(out)@ + old(self)@.previous().shown,
    {
        if self.back >= self.history.len() {
            assert(out@ =~= old(out)@ + Seq::<u8>::empty());
            return;
        }
        let entry = self.history_at(self.back + 1);
        if self.back == 0 {
            self.saved = crate::bytes::copy_of(self.line.as_slice());
        }
        self.back = self.back + 1;
        self.replace_line(entry, out);
    }

    /// The line behind; behind the last, the unfinished one.
    pub fn history_next(&mut self, out: &mut Vec<u8>)
        requires
            old(self)@.wf(),
        ensures
            final(self)@.wf(),
            final(self)@ == old(self)@.next().model,
            final(out)@ == old(out)@ + old(self)@.next().shown,
    {
        if self.back == 0 {
            assert(out@ =~= old(out)@ + Seq::<u8>::empty());
            return;
        }
        self.back = self.back - 1;
        let entry = if self.back == 0 {
            crate::bytes::copy_of(self.saved.as_slice())
        } else {
            self.history_at(self.back)
        };
        self.replace_line(entry, out);
    }

    /// The screen cleared and drawn anew.
    pub fn redraw_screen(&self, out: &mut Vec<u8>)
        requires
            self@.wf(),
        ensures
            final(out)@ == old(out)@ + self@.redraw().shown,
    {
        proof {
            reveal_strlit("\x1b[2J\x1b[H");
        }
        push_str(out, "\x1b[2J\x1b[H");
        write_prompt(self.color, out);
        append(out, self.line.as_slice());
        push_repeated(out, BACKSPACE, self.line.len() - self.cursor);
        assert(out@ =~= old(out)@ + self@.redraw().shown);
    }

    /// Remembers the line that was ended.
    fn remember_line(&mut self)
        requires
            old(self)@.wf(),
        ensures
            final(self)@ == (Model {
                history: remembered(old(self)@.history, old(self)@.line),
                ..old(self)@
            }),
            final(self)@.history.len() <= HISTORY_MAX,
            forall|i: int|
                0 <= i < final(self)@.history.len() ==> typeable(
                    #[trigger] final(self)@.history[i],
                ),
    {
        let count: usize = self.history.len();
        let ghost before = self@.history;
        if self.line.len() == 0 {
            return;
        }
        if count > 0 {
            assert(before.last() == self.history@[count - 1]@);
            if crate::bytes::equal(self.history[count - 1].as_slice(), self.line.as_slice()) {
                return;
            }
        }
        if count >= HISTORY_MAX {
            self.history.remove(0);
            assert(self@.history =~= before.skip(1));
        }
        let ghost middle = self@.history;
        self.history.push(crate::bytes::copy_of(self.line.as_slice()));
        assert(self@.history =~= middle.push(self.line@));
        assert forall|i: int| 0 <= i < self@.history.len() implies typeable(
            #[trigger] self@.history[i],
        ) by {
            if i < middle.len() {
                assert(self@.history[i] == middle[i]);
                if count >= HISTORY_MAX {
                    assert(middle[i] == before[i + 1]);
                }
            }
        }
    }

    /// Takes back to an empty line.
    fn clear(&mut self)
        requires
            old(self)@.history.len() <= HISTORY_MAX,
            forall|i: int|
                0 <= i < old(self)@.history.len() ==> typeable(#[trigger] old(self)@.history[i]),
        ensures
            final(self)@.wf(),
            final(self)@ == old(self)@.cleared(),
    {
        self.line = Vec::new();
        self.cursor = 0;
        self.overflowed = false;
        self.escape = Escape::Idle;
        self.back = 0;
        self.saved = Vec::new();
        assert(self@.line =~= Seq::<u8>::empty());
        assert(self@.saved =~= Seq::<u8>::empty());
    }

    /// The end of the line: what was typed.
    fn enter(&mut self, out: &mut Vec<u8>) -> (ended: Vec<u8>)
        requires
            old(self)@.wf(),
        ensures
            final(self)@.wf(),
            final(self)@ == old(self)@.enter().model,
            final(out)@ == old(out)@ + old(self)@.enter().shown,
            Some(ended@) == old(self)@.enter().ended,
    {
        proof {
            reveal_strlit("\n");
            reveal_strlit("zash: line too long\n");
        }
        push_str(out, "\n");
        self.remember_line();
        let ended: Vec<u8>;
        if self.overflowed {
            push_str(out, "zash: line too long\n");
            ended = Vec::new();
            assert(ended@ =~= Seq::<u8>::empty());
        } else {
            ended = crate::bytes::copy_of(self.line.as_slice());
        }
        self.clear();
        assert(out@ =~= old(out)@ + old(self)@.enter().shown);
        ended
    }

    /// The line given up.
    fn abandon(&mut self, out: &mut Vec<u8>)
        requires
            old(self)@.wf(),
        ensures
            final(self)@.wf(),
            final(self)@ == old(self)@.abandon().model,
            final(out)@ == old(out)@ + old(self)@.abandon().shown,
    {
        proof {
            reveal_strlit("^C\n");
        }
        push_str(out, "^C\n");
        self.clear();
        write_prompt(self.color, out);
        assert(out@ =~= old(out)@ + old(self)@.abandon().shown);
    }

    /// A byte that is not part of an escape sequence.
    fn plain(&mut self, byte: u8, out: &mut Vec<u8>) -> (ended: Option<Vec<u8>>)
        requires
            old(self)@.wf(),
        ensures
            final(self)@.wf(),
            final(self)@ == old(self)@.plain(byte).model,
            final(out)@ == old(out)@ + old(self)@.plain(byte).shown,
            ended is Some <==> old(self)@.plain(byte).ended is Some,
            ended matches Some(line) ==> old(self)@.plain(byte).ended == Some(line@),
    {
        if byte == NEWLINE {
            return Some(self.enter(out));
        } else if byte == 0x03 {
            self.abandon(out);
        } else if byte == 0x02 {
            self.move_left(out);
        } else if byte == 0x06 {
            self.move_right(out);
        } else if byte == 0x10 {
            self.history_previous(out);
        } else if byte == 0x0e {
            self.history_next(out);
        } else if byte == 0x01 {
            self.move_to_start(out);
        } else if byte == 0x05 {
            self.move_to_end(out);
        } else if byte == BACKSPACE {
            let end: usize = self.cursor;
            let start: usize = if end > 0 {
                end - 1
            } else {
                0
            };
            self.delete_range(start, end, out);
        } else if byte == 0x04 {
            let at: usize = self.cursor;
            self.delete_range(at, at + 1, out);
        } else if byte == 0x0b {
            let at: usize = self.cursor;
            let end: usize = self.line.len();
            self.delete_range(at, end, out);
        } else if byte == 0x15 {
            let at: usize = self.cursor;
            self.delete_range(0, at, out);
        } else if byte == 0x17 {
            let at: usize = self.cursor;
            let start: usize = word_start(self.line.as_slice(), at);
            self.delete_range(start, at, out);
        } else if byte == 0x0c {
            self.redraw_screen(out);
        } else if byte < 0x20 {
            assert(out@ =~= old(out)@ + Seq::<u8>::empty());
        } else {
            self.put(byte, out);
        }
        None
    }

    /// Any byte from the keyboard: the line, where the byte ended one.
    pub fn key(&mut self, byte: u8, out: &mut Vec<u8>) -> (ended: Option<Vec<u8>>)
        requires
            old(self)@.wf(),
        ensures
            final(self)@.wf(),
            final(self)@ == old(self)@.key(byte).model,
            final(out)@ == old(out)@ + old(self)@.key(byte).shown,
            ended is Some <==> old(self)@.key(byte).ended is Some,
            ended matches Some(line) ==> old(self)@.key(byte).ended == Some(line@),
    {
        assert(out@ + Seq::<u8>::empty() =~= out@);
        let escape = self.escape;
        match escape {
            Escape::Idle => {
                if byte == ESC {
                    self.escape = Escape::Esc;
                    return None;
                }
            },
            Escape::Esc => {
                if byte == '[' as u8 {
                    self.escape = Escape::Bracket;
                    return None;
                }
            },
            Escape::Bracket => {
                if byte == 'D' as u8 {
                    self.escape = Escape::Idle;
                    self.move_left(out);
                    return None;
                }
                if byte == 'C' as u8 {
                    self.escape = Escape::Idle;
                    self.move_right(out);
                    return None;
                }
                if 0x30 <= byte && byte <= 0x39 {
                    self.escape = Escape::Number(byte);
                    return None;
                }
                if byte == 'A' as u8 {
                    self.escape = Escape::Idle;
                    self.history_previous(out);
                    return None;
                }
                if byte == 'B' as u8 {
                    self.escape = Escape::Idle;
                    self.history_next(out);
                    return None;
                }
            },
            Escape::Number(digit) => {
                if byte == '~' as u8 {
                    self.escape = Escape::Idle;
                    if digit == '1' as u8 {
                        self.move_to_start(out);
                    } else if digit == '4' as u8 {
                        self.move_to_end(out);
                    } else if digit == '3' as u8 {
                        let at: usize = self.cursor;
                        self.delete_range(at, at + 1, out);
                    }
                    return None;
                }
            },
        }
        self.escape = Escape::Idle;
        self.plain(byte, out)
    }
}

/// Erasing takes back a byte that was typed, where it begins a character.
pub proof fn erasing_undoes_typing(model: Model, byte: u8)
    requires
        model.wf(),
        model.escape == Escape::Idle,
        model.line.len() + 1 < LINE_MAX,
        byte >= 0x20,
        !chars::goes_on(byte),
        model.cursor < model.line.len() ==> !chars::goes_on(model.line[model.cursor]),
    ensures
        model.key(byte).model.key(BACKSPACE).model == model,
{
    let cursor = model.cursor;
    let line = model.line.insert(cursor, byte);
    assert(cursor + 1 < line.len() ==> line[cursor + 1] == model.line[cursor]);
    assert(chars::between(line, cursor + 1));
    assert(line[cursor] == byte);
    assert(chars::between(line, cursor));
    let typed = model.key(byte).model;
    assert(typed.line == line && typed.cursor == cursor + 1);
    assert(chars::without(line, cursor, cursor + 1) =~= model.line);
}

/// A key that only moves leaves the line as it is, and what is remembered.
pub proof fn moving_keeps_the_line(model: Model, byte: u8)
    requires
        model.wf(),
        model.escape == Escape::Idle,
        byte == 0x01 || byte == 0x02 || byte == 0x05 || byte == 0x06,
    ensures
        model.key(byte).model == (Model { cursor: model.key(byte).model.cursor, ..model }),
{
}

/// The line before and the line behind it: the unfinished line is back.
pub proof fn unfinished_line_comes_back(model: Model)
    requires
        model.wf(),
        model.back == 0,
        model.history.len() > 0,
    ensures
        model.previous().model.line == model.history.last(),
        model.previous().model.next().model == (Model {
            cursor: model.line.len() as int,
            saved: model.line,
            ..model
        }),
{
}

/// A line that was ended is the first that is recalled.
pub proof fn ended_line_is_recalled_first(model: Model)
    requires
        model.wf(),
        model.line.len() > 0,
    ensures
        model.enter().model.previous().model.line == model.line,
{
}

/// Lines come back newest first: each step back recalls the line before.
pub proof fn lines_come_back_newest_first(model: Model)
    requires
        model.wf(),
        model.back < model.history.len(),
    ensures
        model.previous().model.line == model.history[model.history.len() - 1 - model.back],
        model.previous().model.back == model.back + 1,
        model.previous().model.history == model.history,
{
}

proof fn lemma_spaces_before(line: Seq<u8>, at: int)
    requires
        0 <= at <= line.len(),
    ensures
        0 <= spaces_begin(line, at) <= at,
        forall|i: int| spaces_begin(line, at) <= i < at ==> #[trigger] line[i] == SPACE,
        spaces_begin(line, at) > 0 ==> line[spaces_begin(line, at) - 1] != SPACE,
    decreases at,
{
    if at > 0 && line[at - 1] == SPACE {
        lemma_spaces_before(line, at - 1);
    }
}

proof fn lemma_letters_before(line: Seq<u8>, at: int)
    requires
        0 <= at <= line.len(),
    ensures
        0 <= letters_begin(line, at) <= at,
        forall|i: int| letters_begin(line, at) <= i < at ==> #[trigger] line[i] != SPACE,
        letters_begin(line, at) > 0 ==> line[letters_begin(line, at) - 1] == SPACE,
    decreases at,
{
    if at > 0 && line[at - 1] != SPACE {
        lemma_letters_before(line, at - 1);
    }
}

/// The word before the cursor is letters without a space among them, and the
/// spaces between them and the cursor. It begins at the front of the line or
/// behind a space, and has a letter unless only spaces stand before the cursor.
pub proof fn the_word_before_the_cursor_has_no_space(line: Seq<u8>, cursor: int) -> (middle: int)
    requires
        0 <= cursor <= line.len(),
    ensures
        0 <= word_begin(line, cursor) <= middle <= cursor,
        forall|i: int| word_begin(line, cursor) <= i < middle ==> #[trigger] line[i] != SPACE,
        forall|i: int| middle <= i < cursor ==> #[trigger] line[i] == SPACE,
        word_begin(line, cursor) > 0 ==> line[word_begin(line, cursor) - 1] == SPACE,
        word_begin(line, cursor) == middle ==> middle == 0,
{
    let middle = spaces_begin(line, cursor);
    lemma_spaces_before(line, cursor);
    lemma_letters_before(line, middle);
    middle
}

/// Erasing the word before the cursor takes exactly that word: behind text that
/// ends in a space, the letters and the spaces behind them go, and nothing else.
pub proof fn erasing_a_word_takes_the_word(
    model: Model,
    before: Seq<u8>,
    word: Seq<u8>,
    spaces: Seq<u8>,
    behind: Seq<u8>,
)
    requires
        model.wf(),
        model.escape == Escape::Idle,
        model.line == before + word + spaces + behind,
        model.cursor == before.len() + word.len() + spaces.len(),
        before.len() > 0 ==> before.last() == SPACE,
        word.len() > 0,
        !chars::goes_on(word[0]),
        forall|i: int| 0 <= i < word.len() ==> #[trigger] word[i] != SPACE,
        forall|i: int| 0 <= i < spaces.len() ==> #[trigger] spaces[i] == SPACE,
    ensures
        model.key(0x17).model.line == before + behind,
        model.key(0x17).model.cursor == before.len(),
        model.key(0x17).ended is None,
{
    let line = model.line;
    let cursor = model.cursor;
    let begin = before.len() as int;
    let middle = begin + word.len();
    assert forall|i: int| begin <= i < middle implies #[trigger] line[i] != SPACE by {
        assert(line[i] == word[i - begin]);
    }
    assert forall|i: int| middle <= i < cursor implies #[trigger] line[i] == SPACE by {
        assert(line[i] == spaces[i - middle]);
    }
    let found = the_word_before_the_cursor_has_no_space(line, cursor);
    let w = word_begin(line, cursor);
    if found < middle {
        assert(line[middle - 1] == SPACE);
    }
    if found > middle {
        assert(line[found - 1] != SPACE || w == found);
        assert(line[middle] == SPACE);
        if w <= middle {
            assert(line[middle] != SPACE);
        } else {
            assert(line[w - 1] == SPACE);
            assert(w < found);
            assert(line[w] != SPACE);
        }
    }
    assert(found == middle);
    if w < begin {
        assert(line[begin - 1] == before.last());
    }
    if w > begin {
        assert(line[w - 1] != SPACE);
    }
    assert(w == begin);
    assert(line[begin] == word[0]);
    assert(chars::between(line, begin));
    assert(chars::without(line, begin, cursor) =~= before + behind);
}

/// What the other keys that erase take: all before the cursor, or all behind it.
pub proof fn erasing_to_an_end_takes_that_part(model: Model)
    requires
        model.wf(),
        model.escape == Escape::Idle,
    ensures
        model.key(0x15).model.line == model.line.skip(model.cursor),
        model.key(0x15).model.cursor == 0,
        model.key(0x0b).model.line == model.line.take(model.cursor),
        model.key(0x0b).model.cursor == model.cursor,
{
    let line = model.line;
    let cursor = model.cursor;
    if cursor > 0 {
        assert(chars::without(line, 0, cursor) =~= line.skip(cursor));
    } else {
        assert(line.skip(0) =~= line);
    }
    if cursor < line.len() {
        assert(chars::without(line, cursor, line.len() as int) =~= line.take(cursor));
    } else {
        assert(line.take(cursor) =~= line);
    }
}

/// A byte that is typed stands before the cursor, and what was there stays around
/// it. A line that is full stays as it is.
pub proof fn typing_puts_a_byte_before_the_cursor(model: Model, byte: u8)
    requires
        model.wf(),
        model.escape == Escape::Idle,
        byte >= 0x20,
    ensures
        model.line.len() < 127 ==> model.key(byte).model.line == model.line.take(model.cursor)
            + seq![byte] + model.line.skip(model.cursor),
        model.line.len() < 127 && !(model.cursor < model.line.len() && chars::goes_on(
            model.line[model.cursor],
        )) ==> model.key(byte).model.cursor == model.cursor + 1,
        model.line.len() >= 127 ==> model.key(byte).model == (Model { overflowed: true, ..model }),
        model.key(byte).ended is None,
        model.key(byte).model.history == model.history,
{
    let line = model.line.insert(model.cursor, byte);
    if model.line.len() < 127 {
        assert(line =~= model.line.take(model.cursor) + seq![byte] + model.line.skip(
            model.cursor,
        ));
        let cursor = model.cursor;
        assert(cursor + 1 < line.len() ==> line[cursor + 1] == model.line[cursor]);
    }
}

/// Where the keys that move go: to the front, to the end, and one character to
/// the left or to the right, as far as there is one.
pub proof fn moving_goes_where_it_says(model: Model)
    requires
        model.wf(),
        model.escape == Escape::Idle,
    ensures
        model.key(0x01).model.cursor == 0,
        model.key(0x05).model.cursor == model.line.len(),
        model.key(0x02).model.cursor <= model.cursor,
        model.cursor > 0 ==> model.key(0x02).model.cursor < model.cursor,
        forall|i: int|
            model.key(0x02).model.cursor < i < model.cursor ==> chars::goes_on(
                #[trigger] model.line[i],
            ),
        model.key(0x06).model.cursor >= model.cursor,
        model.cursor < model.line.len() ==> model.cursor < model.key(0x06).model.cursor
            <= model.line.len(),
        forall|i: int|
            model.cursor < i < model.key(0x06).model.cursor ==> chars::goes_on(
                #[trigger] model.line[i],
            ),
{
    let line = model.line;
    chars::lemma_left_of(line, model.cursor);
    chars::lemma_right_of(line, model.cursor);
    if model.cursor > 0 {
        chars::lemma_at_or_before(line, model.cursor - 1);
    }
    if model.cursor < line.len() {
        chars::lemma_at_or_behind(line, model.cursor + 1);
    }
    assert forall|i: int| model.key(0x02).model.cursor < i < model.cursor implies chars::goes_on(
        #[trigger] line[i],
    ) by {
        assert(!chars::between(line, i));
    }
    assert forall|i: int| model.cursor < i < model.key(0x06).model.cursor implies chars::goes_on(
        #[trigger] line[i],
    ) by {
        assert(!chars::between(line, i));
    }
}

/// Erasing takes the character that a step would pass: the one before the cursor,
/// or the one at it.
pub proof fn erasing_takes_one_character(model: Model)
    requires
        model.wf(),
        model.escape == Escape::Idle,
    ensures
        model.key(0x08).model.line == model.line.take(model.key(0x02).model.cursor)
            + model.line.skip(model.cursor),
        model.key(0x08).model.cursor == model.key(0x02).model.cursor,
        model.key(0x04).model.line == model.line.take(model.cursor) + model.line.skip(
            model.key(0x06).model.cursor,
        ),
        model.key(0x04).model.cursor == model.cursor,
{
    let line = model.line;
    let cursor = model.cursor;
    chars::lemma_left_of(line, cursor);
    chars::lemma_right_of(line, cursor);
    assert(line.take(cursor) + line.skip(cursor) =~= line);
}

/// The keys of the keyboard that send more than one byte do what a control key
/// does: the arrows move and recall, and `Home`, `End` and `Delete` are what their
/// names say.
pub proof fn arrows_are_control_keys(model: Model)
    requires
        model.wf(),
        model.escape == Escape::Idle,
    ensures
        ({
            let bracket = model.key(0x1b).model.key('[' as u8).model;
            &&& model.key(0x1b).shown.len() == 0
            &&& model.key(0x1b).model.key('[' as u8).shown.len() == 0
            &&& bracket.key('A' as u8) == model.key(0x10)
            &&& bracket.key('B' as u8) == model.key(0x0e)
            &&& bracket.key('C' as u8) == model.key(0x06)
            &&& bracket.key('D' as u8) == model.key(0x02)
            &&& bracket.key('1' as u8).model.key('~' as u8) == model.key(0x01)
            &&& bracket.key('3' as u8).model.key('~' as u8) == model.key(0x04)
            &&& bracket.key('4' as u8).model.key('~' as u8) == model.key(0x05)
        }),
{
}

/// The end of a line hands out what was typed, as it was typed, and begins an
/// empty line; the line is remembered last. A line that was too long gives
/// nothing.
pub proof fn enter_hands_out_the_line(model: Model)
    requires
        model.wf(),
        model.escape == Escape::Idle,
    ensures
        !model.overflowed ==> model.key(0x0a).ended == Some(model.line),
        model.overflowed ==> (model.key(0x0a).ended matches Some(line) && line.len() == 0),
        model.key(0x0a).model.line.len() == 0,
        model.key(0x0a).model.cursor == 0,
        !model.key(0x0a).model.overflowed,
        model.key(0x0a).model.back == 0,
        model.line.len() > 0 ==> model.key(0x0a).model.history.last() == model.line,
        model.line.len() == 0 ==> model.key(0x0a).model.history == model.history,
{
}

/// A line given up is neither run nor remembered.
pub proof fn a_line_given_up_is_forgotten(model: Model)
    requires
        model.wf(),
        model.escape == Escape::Idle,
    ensures
        model.key(0x03).ended is None,
        model.key(0x03).model.line.len() == 0,
        model.key(0x03).model.cursor == 0,
        !model.key(0x03).model.overflowed,
        model.key(0x03).model.history == model.history,
        model.key(0x03).model.back == 0,
{
}

/// What is remembered: the lines that were ended, in order, up to as many as
/// there is room for, and no line twice in a row.
pub proof fn history_keeps_the_newest_lines(history: Seq<Seq<u8>>, line: Seq<u8>)
    requires
        line.len() > 0,
        history.len() <= 16,
    ensures
        history.len() > 0 && history.last() == line ==> remembered(history, line) == history,
        !(history.len() > 0 && history.last() == line) ==> {
            &&& remembered(history, line).last() == line
            &&& history.len() < 16 ==> remembered(history, line).drop_last() == history
            &&& history.len() == 16 ==> remembered(history, line).drop_last() == history.skip(1)
        },
{
    if history.len() < 16 {
        assert(history.push(line).drop_last() =~= history);
    } else {
        assert(history.skip(1).push(line).drop_last() =~= history.skip(1));
    }
}

/// A step back in the history and a step forward return to the line that was
/// there.
pub proof fn a_step_forward_undoes_a_step_back(model: Model)
    requires
        model.wf(),
        model.escape == Escape::Idle,
        model.back < model.history.len(),
        model.back > 0 ==> model.line == model.history[model.history.len() - model.back],
    ensures
        model.key(0x10).model.key(0x0e).model.line == model.line,
        model.key(0x10).model.key(0x0e).model.back == model.back,
{
}

/// The prompt is written before every new line, in colour or without, and drawing
/// the screen anew shows it and the line.
pub proof fn drawing_anew_shows_the_line(model: Model)
    requires
        model.wf(),
        model.escape == Escape::Idle,
    ensures
        model.key(0x0c).model == model,
        model.key(0x0c).ended is None,
        model.key(0x0c).shown == bytes::ascii("\x1b[2J\x1b[H"@) + prompt(model.color) + model.line
            + Seq::new((model.line.len() - model.cursor) as nat, |i: int| 0x08u8),
        model.key(0x03).shown == bytes::ascii("^C\n"@) + prompt(model.color),
        model.key(0x0a).shown == bytes::ascii("\n"@) + (if model.overflowed {
            bytes::ascii("zash: line too long\n"@)
        } else {
            Seq::empty()
        }),
        prompt(false) == bytes::ascii("zaytos"@) + bytes::ascii("$ "@),
{
    assert(bytes::repeated(BACKSPACE, model.line.len() - model.cursor) =~= Seq::new(
        (model.line.len() - model.cursor) as nat,
        |i: int| 0x08u8,
    ));
}

/// The prompt is the name and a dollar sign, in colour where there is colour, and
/// the colour ends before the dollar sign.
pub proof fn the_prompt_is_the_name()
    ensures
        prompt(false) == bytes::ascii("zaytos"@) + bytes::ascii("$ "@),
        prompt(true) == bytes::ascii("\x1b[38;2;0;200;0m"@) + bytes::ascii("zaytos"@) + bytes::ascii(
            "\x1b[0m"@,
        ) + bytes::ascii("$ "@),
{
}

} // verus!
