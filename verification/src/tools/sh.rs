//! `sh`: the first shell. It reads a line, knows how to leave, and finds
//! nothing else.
use crate::bytes::{self, append, find, push_repeated, push_str, BACKSPACE, NEWLINE, SPACE};
use crate::chars::{self, step_left};
use crate::userlib::MINUS_EAGAIN;
use crate::zash::expand;
use vstd::prelude::*;
use vstd::utf8;

verus! {

/// The most bytes of a line.
pub const LINE_MAX: usize = 128;

/// What comes next.
#[derive(Clone, Copy, PartialEq, Eq, Structural, Debug)]
pub enum Step {
    /// The next byte.
    Wait,
    /// The program ends with this status.
    Exit(u64),
}

/// The first word of a line; nothing where the line has none.
pub open spec fn word_of(line: Seq<u8>) -> Seq<u8> {
    let start = expand::past_spaces(line, 0);
    line.subrange(start, bytes::first_at(line, SPACE, start))
}

/// The first word of a line.
pub fn first_word(line: &[u8]) -> (r: &[u8])
    ensures
        r@ == word_of(line@),
{
    let mut start: usize = 0;
    while start < line.len() && line[start] == SPACE
        invariant
            start <= line@.len(),
            expand::past_spaces(line@, 0) == expand::past_spaces(line@, start as int),
        decreases line@.len() - start,
    {
        start += 1;
    }
    let end: usize = find(line, SPACE, start);
    proof {
        bytes::lemma_first_at(line@, SPACE, start as int);
    }
    &line[start..end]
}

/// The shell in mathematical terms.
pub struct Model {
    pub line: Seq<u8>,
    pub overflowed: bool,
}

/// What a byte does.
pub struct Effect {
    pub model: Model,
    pub shown: Seq<u8>,
    pub step: Step,
}

/// What a line makes the shell write, and what comes next.
pub open spec fn ran(line: Seq<u8>) -> (Seq<u8>, Step) {
    let command = word_of(line);
    if command.len() == 0 {
        (Seq::empty(), Step::Wait)
    } else if command == bytes::ascii("exit"@) {
        (Seq::empty(), Step::Exit(0))
    } else {
        (bytes::ascii("sh: "@) + command + bytes::ascii(": not found\n"@), Step::Wait)
    }
}

impl Model {
    /// The line fits.
    pub open spec fn wf(self) -> bool {
        self.line.len() <= LINE_MAX
    }

    /// A byte of the keyboard. A backspace takes the last character away.
    pub open spec fn key(self, byte: u8) -> Effect {
        if byte == NEWLINE {
            let (said, step) = if self.overflowed {
                (bytes::ascii("sh: line too long\n"@), Step::Wait)
            } else {
                ran(self.line)
            };
            let left = step == Step::Wait;
            Effect {
                model: if left {
                    Model { line: Seq::empty(), overflowed: false }
                } else {
                    self
                },
                shown: bytes::ascii("\n"@) + said + (if left {
                    bytes::ascii("zaytos$ "@)
                } else {
                    Seq::empty()
                }),
                step,
            }
        } else if byte == BACKSPACE {
            let length = chars::left_of(self.line, self.line.len() as int);
            let erased = self.line.len() - length;
            Effect {
                model: Model { line: self.line.take(length), ..self },
                shown: bytes::repeated(BACKSPACE, erased) + bytes::repeated(SPACE, erased)
                    + bytes::repeated(BACKSPACE, erased),
                step: Step::Wait,
            }
        } else if self.line.len() < LINE_MAX {
            Effect {
                model: Model { line: self.line.push(byte), ..self },
                shown: seq![byte],
                step: Step::Wait,
            }
        } else {
            Effect {
                model: Model { overflowed: true, ..self },
                shown: Seq::empty(),
                step: Step::Wait,
            }
        }
    }

    /// The answer of a read of one byte.
    pub open spec fn heard(self, got: i64, byte: u8) -> Effect {
        if got == MINUS_EAGAIN {
            Effect { model: self, shown: Seq::empty(), step: Step::Wait }
        } else if got <= 0 {
            Effect { model: self, shown: Seq::empty(), step: Step::Exit(1) }
        } else {
            self.key(byte)
        }
    }
}

/// The shell.
pub struct Sh {
    line: Vec<u8>,
    overflowed: bool,
}

/// What a line makes the shell write, and what comes next.
pub fn run_line(line: &[u8], out: &mut Vec<u8>) -> (step: Step)
    ensures
        final(out)@ == old(out)@ + ran(line@).0,
        step == ran(line@).1,
{
    proof {
        reveal_strlit("exit");
        reveal_strlit("sh: ");
        reveal_strlit(": not found\n");
    }
    let command = first_word(line);
    if command.len() == 0 {
        assert(out@ =~= old(out)@ + Seq::<u8>::empty());
        return Step::Wait;
    }
    if crate::bytes::spells(command, "exit") {
        assert(out@ =~= old(out)@ + Seq::<u8>::empty());
        return Step::Exit(0);
    }
    push_str(out, "sh: ");
    append(out, command);
    push_str(out, ": not found\n");
    assert(out@ =~= old(out)@ + ran(line@).0);
    Step::Wait
}

impl Sh {
    /// The shell in mathematical terms.
    pub closed spec fn view(&self) -> Model {
        Model { line: self.line@, overflowed: self.overflowed }
    }

    /// The shell at its start: it says that it is ready, and prompts.
    pub fn new(out: &mut Vec<u8>) -> (r: Self)
        ensures
            r@.wf(),
            r@ == (Model { line: Seq::empty(), overflowed: false }),
            final(out)@ == old(out)@ + (bytes::ascii("sh: ready\n"@) + bytes::ascii("zaytos$ "@)),
    {
        proof {
            reveal_strlit("sh: ready\n");
            reveal_strlit("zaytos$ ");
        }
        push_str(out, "sh: ready\n");
        push_str(out, "zaytos$ ");
        assert(out@ =~= old(out)@ + (bytes::ascii("sh: ready\n"@) + bytes::ascii("zaytos$ "@)));
        Sh { line: Vec::new(), overflowed: false }
    }

    /// The answer of a read of one byte.
    pub fn heard(&mut self, got: i64, byte: u8, out: &mut Vec<u8>) -> (step: Step)
        requires
            old(self)@.wf(),
        ensures
            final(self)@.wf(),
            final(self)@ == old(self)@.heard(got, byte).model,
            final(out)@ == old(out)@ + old(self)@.heard(got, byte).shown,
            step == old(self)@.heard(got, byte).step,
    {
        proof {
            reveal_strlit("\n");
            reveal_strlit("sh: line too long\n");
            reveal_strlit("zaytos$ ");
        }
        assert(out@ =~= out@ + Seq::<u8>::empty());
        if got == MINUS_EAGAIN {
            return Step::Wait;
        }
        if got <= 0 {
            return Step::Exit(1);
        }
        if byte == NEWLINE {
            push_str(out, "\n");
            if self.overflowed {
                push_str(out, "sh: line too long\n");
            } else {
                match run_line(self.line.as_slice(), out) {
                    Step::Exit(status) => {
                        assert(out@ =~= old(out)@ + old(self)@.key(byte).shown);
                        return Step::Exit(status);
                    },
                    Step::Wait => {},
                }
            }
            self.line = Vec::new();
            self.overflowed = false;
            assert(self@.line =~= Seq::<u8>::empty());
            push_str(out, "zaytos$ ");
            assert(out@ =~= old(out)@ + old(self)@.key(byte).shown);
            return Step::Wait;
        }
        if byte == BACKSPACE {
            let total: usize = self.line.len();
            let length: usize = step_left(self.line.as_slice(), total);
            self.line.truncate(length);
            assert(self.line@ =~= old(self)@.line.take(length as int));
            push_repeated(out, BACKSPACE, total - length);
            push_repeated(out, SPACE, total - length);
            push_repeated(out, BACKSPACE, total - length);
            assert(out@ =~= old(out)@ + old(self)@.key(byte).shown);
            return Step::Wait;
        }
        if self.line.len() < LINE_MAX {
            self.line.push(byte);
            out.push(byte);
            assert(out@ =~= old(out)@ + old(self)@.key(byte).shown);
        } else {
            self.overflowed = true;
        }
        Step::Wait
    }
}

/// Erasing takes back a byte that was typed, where it begins a character.
pub proof fn erasing_undoes_typing(model: Model, byte: u8)
    requires
        model.wf(),
        model.line.len() < LINE_MAX,
        byte != NEWLINE,
        byte != BACKSPACE,
        !chars::goes_on(byte),
    ensures
        model.key(byte).model.key(BACKSPACE).model == model,
{
    let line = model.line.push(byte);
    assert(line[line.len() - 1] == byte);
    assert(chars::left_of(line, line.len() as int) == line.len() - 1);
    assert(line.take(line.len() - 1) =~= model.line);
}

/// Erasing takes no character apart: a line of UTF-8 loses its last character,
/// and is UTF-8 then too.
pub proof fn erasing_keeps_characters_whole(model: Model)
    requires
        utf8::valid_utf8(model.line),
    ensures
        utf8::valid_utf8(model.key(BACKSPACE).model.line),
        model.line.len() > 0 ==> model.key(BACKSPACE).model.line.len() < model.line.len(),
{
    let total = model.line.len() as int;
    chars::lemma_left_of(model.line, total);
    chars::positions_are_between_characters(model.line, chars::left_of(model.line, total));
}

/// The first word of a line is the first of the words that stand between its
/// spaces.
pub proof fn the_first_word_is_the_first(line: Seq<u8>, rest: Seq<u8>, spaces: Seq<u8>)
    requires
        !line.contains(SPACE),
        forall|i: int| 0 <= i < spaces.len() ==> #[trigger] spaces[i] == SPACE,
    ensures
        line.len() > 0 ==> word_of(spaces + line + seq![SPACE] + rest) == line,
        word_of(spaces + line) == line,
{
    let front = spaces.len() as int;
    let end = front + line.len();
    let whole = spaces + line + seq![SPACE] + rest;
    let short = spaces + line;
    assert forall|i: int| 0 <= i < line.len() implies line[i] != SPACE by {
        assert(line.contains(line[i]));
    }
    lemma_spaces_end(short, 0, front);
    assert forall|i: int| front <= i < end implies short[i] != SPACE by {
        assert(short[i] == line[i - front]);
    }
    bytes::lemma_first_at_is(short, SPACE, front, end);
    assert(short.subrange(front, end) =~= line);
    if line.len() > 0 {
        assert(whole[front] == line[0]);
        lemma_spaces_end(whole, 0, front);
        assert forall|i: int| front <= i < end implies whole[i] != SPACE by {
            assert(whole[i] == line[i - front]);
        }
        assert(whole[end] == SPACE);
        bytes::lemma_first_at_is(whole, SPACE, front, end);
        assert(whole.subrange(front, end) =~= line);
    }
}

proof fn lemma_spaces_end(line: Seq<u8>, from: int, at: int)
    requires
        0 <= from <= at <= line.len(),
        forall|i: int| from <= i < at ==> #[trigger] line[i] == SPACE,
        at < line.len() ==> line[at] != SPACE,
    ensures
        expand::past_spaces(line, from) == at,
    decreases at - from,
{
    if from < at {
        assert(line[from] == SPACE);
        lemma_spaces_end(line, from + 1, at);
    }
}

/// What is typed is the line, as far as it fits, and it is shown.
pub proof fn typing_makes_the_line_longer(model: Model, byte: u8)
    requires
        byte != 0x0a,
        byte != 0x08,
    ensures
        model.line.len() < 128 ==> model.key(byte).model == (Model {
            line: model.line.push(byte),
            ..model
        }) && model.key(byte).shown == seq![byte],
        model.line.len() >= 128 ==> model.key(byte).model == (Model { overflowed: true, ..model })
            && model.key(byte).shown.len() == 0,
        model.key(byte).step == Step::Wait,
{
}

/// The end of a line: `exit` ends the shell, any other command is not found, and a
/// line without a word does nothing. Then a new line is prompted for.
pub proof fn the_end_of_a_line_runs_its_first_word(model: Model)
    ensures
        ({
            let word = word_of(model.line);
            let effect = model.key(0x0a);
            let leaves = !model.overflowed && word == bytes::ascii("exit"@);
            &&& effect.step == (if leaves {
                Step::Exit(0)
            } else {
                Step::Wait
            })
            &&& !leaves ==> effect.model == (Model { line: Seq::empty(), overflowed: false })
            &&& leaves ==> effect.shown == bytes::ascii("\n"@)
            &&& model.overflowed ==> effect.shown == bytes::ascii("\n"@) + bytes::ascii(
                "sh: line too long\n"@,
            ) + bytes::ascii("zaytos$ "@)
            &&& !model.overflowed && word.len() == 0 ==> effect.shown == bytes::ascii("\n"@)
                + bytes::ascii("zaytos$ "@)
            &&& !model.overflowed && word.len() > 0 && !leaves ==> effect.shown == bytes::ascii(
                "\n"@,
            ) + (bytes::ascii("sh: "@) + word + bytes::ascii(": not found\n"@)) + bytes::ascii(
                "zaytos$ "@,
            )
        }),
{
    reveal_strlit("exit");
    let none = Seq::<u8>::empty();
    let newline = bytes::ascii("\n"@);
    assert(newline + none + none =~= newline);
    assert(newline + none =~= newline);
}

/// A keyboard that has nothing yet is waited for, and one that is gone ends the
/// shell.
pub proof fn a_keyboard_that_is_gone_ends_the_shell(model: Model, got: i64, byte: u8)
    ensures
        got == -11 ==> model.heard(got, byte).model == model && model.heard(got, byte).step
            == Step::Wait && model.heard(got, byte).shown.len() == 0,
        got <= 0 && got != -11 ==> model.heard(got, byte).step == Step::Exit(1),
        got > 0 ==> model.heard(got, byte) == model.key(byte),
{
}

} // verus!
