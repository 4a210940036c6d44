//! The shell as a whole: bytes from the keyboard in, what is written and what
//! is started out.
use crate::bytes::{self, push_str};
use crate::startup::{self, Start};
use crate::userlib::MINUS_EAGAIN;
use crate::zash::edit::{self, write_prompt, Editor, Model};
use crate::zash::expand::{self, expand_line, LINE_MAX};
use crate::zash::run::{self, run_line, Report, Search};
use vstd::prelude::*;

verus! {

/// What the keyboard's answer means.
#[derive(Clone, Copy, PartialEq, Eq, Structural, Debug)]
pub enum Heard {
    /// Nothing yet.
    Again,
    /// A byte.
    Byte,
    /// There is no keyboard any more: the shell ends with status one.
    Gone,
}

/// What the answer of a read of one byte means.
pub fn heard(got: i64) -> (r: Heard)
    ensures
        r == (if got == MINUS_EAGAIN {
            Heard::Again
        } else if got <= 0 {
            Heard::Gone
        } else {
            Heard::Byte
        }),
{
    if got == MINUS_EAGAIN {
        Heard::Again
    } else if got <= 0 {
        Heard::Gone
    } else {
        Heard::Byte
    }
}

/// What the shell does with a line.
pub enum Meaning {
    /// Nothing.
    Nothing,
    /// The line got too long when it was expanded.
    TooLong,
    /// The shell ends with status zero.
    Exit,
    /// A program is started with these arguments.
    Run(Seq<Seq<u8>>),
}

/// What a line means.
pub open spec fn meaning(start: Start, line: Seq<u8>) -> Meaning {
    let words = expand::expanded_words(start, line);
    let argv = run::arguments_of(words);
    if expand::line_length(words) > LINE_MAX {
        Meaning::TooLong
    } else if argv.len() == 0 {
        Meaning::Nothing
    } else if argv[0] == bytes::ascii("exit"@) {
        Meaning::Exit
    } else {
        Meaning::Run(argv)
    }
}

/// What comes after a byte.
pub enum Step {
    /// The next byte.
    Wait,
    /// The shell ends with status zero.
    Exit,
    /// A program is started with these arguments.
    Run(Vec<Vec<u8>>),
}

/// The shell.
pub struct Shell {
    editor: Editor,
    start: Start,
}

/// Whether the prompt is in colour: only on the terminal of this system.
pub open spec fn in_color(start: Start) -> bool {
    start.spec_environment(bytes::ascii("TERM"@)) == Some(bytes::ascii("zaytos"@))
}

/// Whether the prompt is in colour.
pub fn decide_prompt_color(start: &Start) -> (r: bool)
    requires
        start.wf(),
    ensures
        r == in_color(*start),
{
    proof {
        reveal_strlit("TERM");
        reveal_strlit("zaytos");
    }
    let name = crate::bytes::bytes_of("TERM");
    match start.environment(name.as_slice()) {
        Some(value) => crate::bytes::spells(value, "zaytos"),
        None => false,
    }
}

impl Shell {
    /// The editor of the line.
    pub closed spec fn view(&self) -> Model {
        self.editor@
    }

    /// The stack the shell started on.
    pub closed spec fn spec_start(&self) -> Start {
        self.start
    }

    /// The line is well-formed, and so is the stack.
    pub open spec fn wf(&self) -> bool {
        self@.wf() && self.spec_start().wf()
    }

    /// The shell at its start: it says that it is ready, and prompts.
    pub fn new(start: Start, out: &mut Vec<u8>) -> (r: Self)
        requires
            start.wf(),
        ensures
            r.wf(),
            r.spec_start() == start,
            r@ == (Model {
                line: Seq::empty(),
                cursor: 0,
                overflowed: false,
                escape: edit::Escape::Idle,
                history: Seq::empty(),
                back: 0,
                saved: Seq::empty(),
                color: in_color(start),
            }),
            final(out)@ == old(out)@ + (bytes::ascii("zash: ready\n"@) + edit::prompt(
                in_color(start),
            )),
    {
        proof {
            reveal_strlit("zash: ready\n");
        }
        let color = decide_prompt_color(&start);
        push_str(out, "zash: ready\n");
        write_prompt(color, out);
        assert(out@ =~= old(out)@ + (bytes::ascii("zash: ready\n"@) + edit::prompt(color)));
        Shell { editor: Editor::new(color), start }
    }

    /// What a byte makes the shell write.
    pub open spec fn shown(&self, byte: u8) -> Seq<u8> {
        let effect = self@.key(byte);
        let prompt = edit::prompt(self@.color);
        effect.shown + (match effect.ended {
            None => Seq::empty(),
            Some(line) => match meaning(self.spec_start(), line) {
                Meaning::Nothing => prompt,
                Meaning::TooLong => bytes::ascii("zash: line too long\n"@) + prompt,
                Meaning::Exit => Seq::empty(),
                Meaning::Run(_) => Seq::empty(),
            },
        })
    }

    /// What comes after a byte.
    pub open spec fn followed_by(&self, byte: u8) -> Meaning {
        match self@.key(byte).ended {
            None => Meaning::Nothing,
            Some(line) => match meaning(self.spec_start(), line) {
                Meaning::Exit => Meaning::Exit,
                Meaning::Run(argv) => Meaning::Run(argv),
                _ => Meaning::Nothing,
            },
        }
    }

    /// A byte from the keyboard.
    pub fn key(&mut self, byte: u8, out: &mut Vec<u8>) -> (step: Step)
        requires
            old(self).wf(),
        ensures
            final(self).wf(),
            final(self).spec_start() == old(self).spec_start(),
            final(self)@ == old(self)@.key(byte).model,
            final(out)@ == old(out)@ + old(self).shown(byte),
            step is Wait <==> old(self).followed_by(byte) is Nothing,
            step is Exit <==> old(self).followed_by(byte) is Exit,
            step matches Step::Run(argv) ==> old(self).followed_by(byte) == Meaning::Run(
                startup::strings(argv@),
            ),
    {
        proof {
            reveal_strlit("zash: line too long\n");
            reveal_strlit("exit");
        }
        let ghost before = old(self)@;
        let line = match self.editor.key(byte, out) {
            Some(line) => line,
            None => {
                assert(out@ =~= old(out)@ + old(self).shown(byte));
                return Step::Wait;
            },
        };
        let color = self.editor.color();
        assert(color == before.color) by {
            lemma_color_stays(before, byte);
        }
        match expand_line(&self.start, line.as_slice()) {
            None => {
                push_str(out, "zash: line too long\n");
            },
            Some(expanded) => {
                let argv = run_line(expanded.as_slice());
                let ghost words = startup::strings(argv@);
                if argv.len() > 0 {
                    assert(words[0] == argv@[0]@);
                    if crate::bytes::spells(argv[0].as_slice(), "exit") {
                        assert(out@ =~= old(out)@ + old(self).shown(byte));
                        return Step::Exit;
                    }
                    assert(out@ =~= old(out)@ + old(self).shown(byte));
                    return Step::Run(argv);
                }
            },
        }
        write_prompt(color, out);
        assert(out@ =~= old(out)@ + old(self).shown(byte));
        Step::Wait
    }

    /// Where a command is looked for.
    pub fn search(&self, command: &[u8]) -> (r: Search)
        requires
            self.wf(),
        ensures
            r.wf(),
            r.spec_tried() == 0,
            r.spec_status() == crate::userlib::MINUS_ENOENT,
            r.spec_places() == run::places(
                command@,
                self.spec_start().spec_environment(bytes::ascii("PATH"@)),
            ),
    {
        proof {
            reveal_strlit("PATH");
        }
        let name = crate::bytes::bytes_of("PATH");
        Search::new(command, self.start.environment(name.as_slice()))
    }

    /// What is said when a program has ended, and the next prompt.
    pub fn ended(&self, command: &[u8], status: i64) -> (r: Report)
        requires
            self.wf(),
        ensures
            r.err@ == run::reported_err(command@, status),
            r.out@ == run::reported_out(status) + edit::prompt(self@.color),
    {
        let mut r = run::report(command, status);
        write_prompt(self.editor.color(), &mut r.out);
        r
    }
}

/// A program is given as many arguments as the line has words that come to
/// something, as far as a program can be given so many: a space in a value makes
/// no argument more.
pub proof fn values_add_no_arguments(start: Start, line: Seq<u8>)
    ensures
        ({
            let left = expand::words_left(start, expand::words_from(line, 0));
            &&& meaning(start, line) matches Meaning::Run(argv) ==> argv.len() == (if left
                < run::MAX_ARGS {
                left
            } else {
                run::MAX_ARGS as int
            })
            &&& meaning(start, line) is Nothing <==> left == 0
        }),
{
    expand::values_add_no_words(start, line);
}

/// The colour of the prompt is decided once.
#[verifier::rlimit(50)]
pub proof fn lemma_color_stays(model: Model, byte: u8)
    ensures
        model.key(byte).model.color == model.color,
{
}

/// A line runs its words: the first names the program, and all of them are its
/// arguments, in order and as they were expanded.
pub proof fn a_line_runs_its_words(start: Start, line: Seq<u8>, words: Seq<Seq<u8>>)
    requires
        expand::expanded_words(start, line) == words,
        0 < words.len() <= 8,
        forall|i: int| 0 <= i < words.len() ==> !(#[trigger] words[i]).contains(0),
        expand::line_length(words) <= 128,
    ensures
        words[0] != bytes::ascii("exit"@) ==> meaning(start, line) == Meaning::Run(words),
        words[0] == bytes::ascii("exit"@) ==> meaning(start, line) is Exit,
{
    run::arguments_are_the_words(words);
}

/// A line that comes to no word does nothing, and one that gets too long is
/// refused.
pub proof fn other_lines_run_nothing(start: Start, line: Seq<u8>)
    ensures
        expand::expanded_words(start, line).len() == 0 ==> meaning(start, line) is Nothing,
        expand::line_length(expand::expanded_words(start, line)) > 128 ==> meaning(start, line)
            is TooLong,
        meaning(start, line) is TooLong ==> expand::line_length(
            expand::expanded_words(start, line),
        ) > 128,
        meaning(start, line) is Exit ==> run::until_zero(expand::expanded_words(start, line)[0])
            == bytes::ascii("exit"@),
{
}

/// Nothing runs before the line is ended; then it is the line that was typed, and
/// the shell prompts again where nothing is started.
pub proof fn enter_runs_the_line(shell: Shell, byte: u8)
    requires
        shell.wf(),
        shell@.escape == edit::Escape::Idle,
        !shell@.overflowed,
    ensures
        byte != 0x0a ==> shell.followed_by(byte) is Nothing && shell.shown(byte) == shell@.key(
            byte,
        ).shown,
        ({
            let meant = meaning(shell.spec_start(), shell@.line);
            &&& shell.followed_by(0x0a) is Exit <==> meant is Exit
            &&& meant is Run ==> shell.followed_by(0x0a) == meant
            &&& meant is Run || meant is Exit ==> shell.shown(0x0a) == bytes::ascii("\n"@)
            &&& meant is Nothing ==> shell.followed_by(0x0a) is Nothing && shell.shown(0x0a)
                == bytes::ascii("\n"@) + edit::prompt(shell@.color)
            &&& meant is TooLong ==> shell.followed_by(0x0a) is Nothing && shell.shown(0x0a)
                == bytes::ascii("\n"@) + (bytes::ascii("zash: line too long\n"@) + edit::prompt(
                shell@.color,
            ))
        }),
{
    let model = shell@;
    assert(model.key(byte).shown + Seq::<u8>::empty() =~= model.key(byte).shown);
    let newline = bytes::ascii("\n"@);
    assert(model.key(0x0a).shown =~= newline);
    assert(newline + Seq::<u8>::empty() =~= newline);
}

/// The prompt is in colour exactly where the terminal is this system's own.
pub proof fn colour_is_for_the_own_terminal(start: Start)
    ensures
        in_color(start) <==> (start.spec_environment(bytes::ascii("TERM"@)) matches Some(name)
            && name == bytes::ascii("zaytos"@)),
{
}

} // verus!
