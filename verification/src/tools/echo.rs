//! `echo`: its arguments, with one space between them.
use crate::bytes::{append, NEWLINE, SPACE};
use crate::line;
use crate::startup::{self, Start, VALUE_MAX};
use vstd::prelude::*;

verus! {

/// The most bytes of one write.
pub const OUT_MAX: usize = 256;

/// What was written, and what is gathered for the next write.
pub struct Sent {
    pub writes: Seq<Seq<u8>>,
    pub held: Seq<u8>,
}

/// Everything, in order.
pub open spec fn all_of(sent: Sent) -> Seq<u8>
    decreases sent.writes.len(),
{
    if sent.writes.len() == 0 {
        sent.held
    } else {
        all_of(Sent { writes: sent.writes.drop_last(), held: sent.writes.last() }) + sent.held
    }
}

/// Bytes gathered piece by piece: what a piece does not fit behind is written
/// first.
pub open spec fn pushed(sent: Sent, bytes: Seq<u8>) -> Sent
    decreases bytes.len(),
{
    if bytes.len() == 0 {
        sent
    } else {
        let piece = line::clip(bytes, OUT_MAX as int);
        let next = if sent.held.len() + piece.len() > OUT_MAX {
            Sent { writes: sent.writes.push(sent.held), held: piece }
        } else {
            Sent { held: sent.held + piece, ..sent }
        };
        pushed(next, bytes.skip(piece.len() as int))
    }
}

/// The output that is gathered.
pub struct Output {
    writes: Vec<Vec<u8>>,
    held: Vec<u8>,
}

impl Output {
    /// The output in mathematical terms.
    pub closed spec fn view(&self) -> Sent {
        Sent { writes: startup::strings(self.writes@), held: self.held@ }
    }

    /// What is gathered fits one write.
    pub open spec fn wf(&self) -> bool {
        self@.held.len() <= OUT_MAX
    }

    /// Nothing.
    pub fn new() -> (r: Self)
        ensures
            r.wf(),
            r@ == (Sent { writes: Seq::empty(), held: Seq::empty() }),
    {
        let r = Output { writes: Vec::new(), held: Vec::new() };
        assert(r@.writes =~= Seq::<Seq<u8>>::empty());
        assert(r@.held =~= Seq::<u8>::empty());
        r
    }

    /// Gathers bytes.
    pub fn push(&mut self, bytes: &[u8])
        requires
            old(self).wf(),
        ensures
            final(self).wf(),
            final(self)@ == pushed(old(self)@, bytes@),
    {
        let mut at: usize = 0;
        let total: usize = bytes.len();
        proof {
            assert(bytes@.skip(0) =~= bytes@);
        }
        while at < total
            invariant
                total == bytes@.len(),
                at <= total,
                self.wf(),
                pushed(old(self)@, bytes@) == pushed(self@, bytes@.skip(at as int)),
            decreases total - at,
        {
            let size: usize = crate::bytes::least(total - at, OUT_MAX);
            let ghost before = self@;
            let piece = &bytes[at..at + size];
            assert(piece@ =~= line::clip(bytes@.skip(at as int), OUT_MAX as int));
            if self.held.len() + size > OUT_MAX {
                let mut full: Vec<u8> = Vec::new();
                std::mem::swap(&mut full, &mut self.held);
                self.writes.push(full);
                assert(self@.writes =~= before.writes.push(before.held));
            }
            let ghost held = self.held@;
            append(&mut self.held, piece);
            assert(before.held.len() + size > OUT_MAX ==> self.held@ =~= piece@);
            assert(bytes@.skip(at as int).skip(size as int) =~= bytes@.skip(at + size));
            at += size;
        }
        assert(bytes@.skip(total as int) =~= Seq::<u8>::empty());
    }

    /// Everything that is to be written, in order.
    pub fn end(self) -> (r: Vec<Vec<u8>>)
        ensures
            startup::strings(r@) == self@.writes.push(self@.held),
    {
        let mut output = self;
        let ghost before = output@;
        let last = output.held;
        let mut r = output.writes;
        r.push(last);
        assert(startup::strings(r@) =~= before.writes.push(before.held));
        r
    }
}

/// An argument as far as it is read.
pub open spec fn read_argument(start: Start, index: int) -> Option<Seq<u8>> {
    match start.spec_argument(index) {
        Some(text) => Some(line::clip(text, VALUE_MAX as int)),
        None => None,
    }
}

/// The arguments from `index` on, put behind `sent`: a space before each but
/// the first.
pub open spec fn arguments_from(start: Start, sent: Sent, index: int) -> Sent
    decreases start.page@.len() - index,
{
    match read_argument(start, index) {
        None => sent,
        Some(text) => if index > start.page@.len() {
            sent
        } else {
            let front = if index > 1 {
                pushed(sent, seq![SPACE])
            } else {
                sent
            };
            arguments_from(start, pushed(front, text), index + 1)
        },
    }
}

/// An argument stands on the page.
proof fn lemma_argument_on_page(start: Start, index: int)
    requires
        index >= 0,
        start.spec_argument(index) is Some,
    ensures
        index < start.page@.len(),
{
}

/// What `echo` writes: its arguments with one space between them, and a line
/// feed.
pub fn echo(start: &Start) -> (writes: Vec<Vec<u8>>)
    requires
        start.wf(),
    ensures
        ({
            let sent = pushed(
                arguments_from(*start, Sent { writes: Seq::empty(), held: Seq::empty() }, 1),
                seq![NEWLINE],
            );
            startup::strings(writes@) == sent.writes.push(sent.held)
        }),
{
    let mut out = Output::new();
    let mut index: usize = 1;
    let ghost whole = arguments_from(*start, out@, 1);
    let limit: usize = start.page.len();
    let mut going: bool = true;
    while going
        invariant
            start.wf(),
            out.wf(),
            limit == start.page@.len(),
            1 <= index,
            going ==> index <= limit + 1,
            whole == (if going {
                arguments_from(*start, out@, index as int)
            } else {
                out@
            }),
        decreases limit + 2 - index + (if going { 1int } else { 0int }),
    {
        match start.argument(index) {
            None => {
                going = false;
            },
            Some(text) => {
                proof {
                    lemma_argument_on_page(*start, index as int);
                }
                if index > 1 {
                    let space: [u8; 1] = [SPACE];
                    assert(space@ =~= seq![SPACE]);
                    out.push(&space);
                }
                let take: usize = crate::bytes::least(text.len(), VALUE_MAX);
                assert(text@.subrange(0, take as int) =~= line::clip(text@, VALUE_MAX as int));
                out.push(&text[0..take]);
                index += 1;
            },
        }
    }
    let end: [u8; 1] = [NEWLINE];
    assert(end@ =~= seq![NEWLINE]);
    out.push(&end);
    out.end()
}

/// Gathering changes neither the bytes nor their order.
pub proof fn writes_lose_nothing(sent: Sent, bytes: Seq<u8>)
    ensures
        all_of(pushed(sent, bytes)) == all_of(sent) + bytes,
    decreases bytes.len(),
{
    if bytes.len() == 0 {
        assert(all_of(sent) + bytes =~= all_of(sent));
    } else {
        let piece = line::clip(bytes, OUT_MAX as int);
        let rest = bytes.skip(piece.len() as int);
        let next = if sent.held.len() + piece.len() > OUT_MAX {
            Sent { writes: sent.writes.push(sent.held), held: piece }
        } else {
            Sent { held: sent.held + piece, ..sent }
        };
        writes_lose_nothing(next, rest);
        assert(piece + rest =~= bytes);
        assert(all_of(next) =~= all_of(sent) + piece) by {
            if sent.held.len() + piece.len() > OUT_MAX {
                assert(next.writes.drop_last() =~= sent.writes);
                assert(next.writes.last() == sent.held);
            } else if sent.writes.len() == 0 {
            } else {
                let front = all_of(
                    Sent { writes: sent.writes.drop_last(), held: sent.writes.last() },
                );
                assert(front + (sent.held + piece) =~= front + sent.held + piece);
            }
        }
        assert(all_of(sent) + piece + rest =~= all_of(sent) + bytes);
    }
}

/// The arguments from `index` on in one line: a space before each but the
/// first.
pub open spec fn line_from(start: Start, index: int) -> Seq<u8>
    decreases start.page@.len() - index,
{
    match read_argument(start, index) {
        None => Seq::empty(),
        Some(text) => if index > start.page@.len() {
            Seq::empty()
        } else {
            (if index > 1 {
                seq![SPACE]
            } else {
                Seq::empty()
            }) + text + line_from(start, index + 1)
        },
    }
}

/// What is written is the arguments, one space between them, whatever the
/// writes it takes.
pub proof fn arguments_are_written_whole(start: Start, sent: Sent, index: int)
    requires
        index >= 1,
    ensures
        all_of(arguments_from(start, sent, index)) == all_of(sent) + line_from(start, index),
    decreases start.page@.len() - index,
{
    match read_argument(start, index) {
        None => {
            assert(all_of(sent) + Seq::<u8>::empty() =~= all_of(sent));
        },
        Some(text) => {
            lemma_argument_on_page(start, index);
            let front = if index > 1 {
                pushed(sent, seq![SPACE])
            } else {
                sent
            };
            writes_lose_nothing(sent, seq![SPACE]);
            writes_lose_nothing(front, text);
            arguments_are_written_whole(start, pushed(front, text), index + 1);
            let space = if index > 1 {
                seq![SPACE]
            } else {
                Seq::<u8>::empty()
            };
            assert(all_of(sent) + space + text + line_from(start, index + 1) =~= all_of(sent) + (
            space + text + line_from(start, index + 1)));
            assert(all_of(front) =~= all_of(sent) + space);
        },
    }
}

/// Words with one space between them.
pub open spec fn spaced(words: Seq<Seq<u8>>) -> Seq<u8>
    decreases words.len(),
{
    if words.len() == 0 {
        Seq::empty()
    } else if words.len() == 1 {
        words[0]
    } else {
        words[0] + seq![SPACE] + spaced(words.skip(1))
    }
}

/// What is said of a program's arguments is the arguments that it was given, but
/// for its own name, with one space between them and a line feed behind, whatever
/// the writes it takes.
pub proof fn echo_says_its_arguments(
    start: Start,
    argv: Seq<Seq<u8>>,
    envp: Seq<Seq<u8>>,
)
    requires
        start.page_base > 0,
        startup::fits(argv, envp),
        startup::built(start.page@, start.page_base as int, argv, envp),
        start.stack == start.page_base + startup::table_at(argv, envp),
        forall|i: int| 0 <= i < argv.len() ==> !(#[trigger] argv[i]).contains(0u8),
        forall|i: int| 0 <= i < envp.len() ==> !(#[trigger] envp[i]).contains(0u8),
        argv.len() >= 1,
    ensures
        ({
            let sent = pushed(
                arguments_from(start, Sent { writes: Seq::empty(), held: Seq::empty() }, 1),
                seq![NEWLINE],
            );
            all_of(sent) == spaced(argv.skip(1)).push(NEWLINE)
        }),
{
    let none = Sent { writes: Seq::empty(), held: Seq::empty() };
    let before = arguments_from(start, none, 1);
    writes_lose_nothing(before, seq![NEWLINE]);
    arguments_are_written_whole(start, none, 1);
    lemma_said(start, argv, envp, 1);
    assert(all_of(none) =~= Seq::<u8>::empty());
    let said = spaced(argv.skip(1));
    assert(all_of(before) =~= said);
    assert(said + seq![NEWLINE] =~= said.push(NEWLINE));
}

proof fn lemma_said(start: Start, argv: Seq<Seq<u8>>, envp: Seq<Seq<u8>>, index: int)
    requires
        start.page_base > 0,
        startup::fits(argv, envp),
        startup::built(start.page@, start.page_base as int, argv, envp),
        start.stack == start.page_base + startup::table_at(argv, envp),
        forall|i: int| 0 <= i < argv.len() ==> !(#[trigger] argv[i]).contains(0u8),
        forall|i: int| 0 <= i < envp.len() ==> !(#[trigger] envp[i]).contains(0u8),
        1 <= index <= argv.len(),
    ensures
        line_from(start, index) == (if index == argv.len() {
            Seq::empty()
        } else if index == 1 {
            spaced(argv.skip(1))
        } else {
            seq![SPACE] + spaced(argv.skip(index))
        }),
    decreases argv.len() - index,
{
    startup::programs_have_what_they_were_given(start, argv, envp, index, Seq::empty());
    if index < argv.len() {
        lemma_argument_on_page(start, index);
        lemma_said(start, argv, envp, index + 1);
        let words = argv.skip(index);
        assert(words[0] == argv[index]);
        assert(words.skip(1) =~= argv.skip(index + 1));
        startup::the_first_stack_is_laid_out(
            start.page@,
            start.page_base as int,
            argv,
            envp,
            index,
        );
        assert(argv[index].len() <= 4096);
        let text = argv[index];
        let rest = line_from(start, index + 1);
        if index + 1 == argv.len() {
            assert(text + rest =~= text);
            assert(Seq::<u8>::empty() + text + rest =~= text);
            assert(seq![SPACE] + text + rest =~= seq![SPACE] + text);
        } else {
            let more = spaced(argv.skip(index + 1));
            assert(Seq::<u8>::empty() + text + (seq![SPACE] + more) =~= text + seq![SPACE] + more);
            assert(seq![SPACE] + text + (seq![SPACE] + more) =~= seq![SPACE] + (text + seq![SPACE]
                + more));
        }
    }
}

/// No write is longer than there is room for.
pub proof fn writes_are_short(sent: Sent, bytes: Seq<u8>)
    requires
        sent.held.len() <= 256,
        forall|i: int| 0 <= i < sent.writes.len() ==> (#[trigger] sent.writes[i]).len() <= 256,
    ensures
        pushed(sent, bytes).held.len() <= 256,
        forall|i: int|
            0 <= i < pushed(sent, bytes).writes.len() ==> (#[trigger] pushed(
                sent,
                bytes,
            ).writes[i]).len() <= 256,
    decreases bytes.len(),
{
    if bytes.len() > 0 {
        let piece = line::clip(bytes, OUT_MAX as int);
        let next = if sent.held.len() + piece.len() > OUT_MAX {
            Sent { writes: sent.writes.push(sent.held), held: piece }
        } else {
            Sent { held: sent.held + piece, ..sent }
        };
        writes_are_short(next, bytes.skip(piece.len() as int));
    }
}

} // verus!
