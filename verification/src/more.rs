//! `more`: shows a file page by page, without leaving the screen it is on.
use crate::bytes::{self, append, find, push_str, NEWLINE};
use crate::line;
use crate::userlib::MINUS_EAGAIN;
use crate::zi::buffer;
use vstd::prelude::*;

verus! {

/// The most bytes of the path, with the zero behind them.
pub const PATH_MAX: usize = 128;

/// Bytes that are read at a time.
pub const CHUNK: usize = 1024;

/// The most bytes of a line that are shown.
pub const LINE_MAX: usize = 512;

/// The lines of a file that arrives in pieces, in mathematical terms: the line
/// that has begun, what has arrived behind it, and how the file ended.
pub struct Stream {
    pub partial: Seq<u8>,
    pub pending: Seq<u8>,
    pub eof: bool,
    pub error: bool,
}

/// What the next line takes.
#[derive(Debug)]
pub enum Pull {
    /// More of the file.
    Read,
    /// Nothing: here is the line.
    Line(Vec<u8>),
    /// There is none.
    End,
}

/// The same in mathematical terms.
pub enum Pulled {
    Read,
    Line(Seq<u8>),
    End,
}

impl Stream {
    /// What was begun is a part of one line, and fits it.
    pub open spec fn wf(self) -> bool {
        self.partial.len() <= LINE_MAX && !self.partial.contains(NEWLINE)
    }

    /// The next line, as far as what has arrived goes.
    pub open spec fn pull(self) -> (Stream, Pulled) {
        let end = bytes::first_at(self.pending, NEWLINE, 0);
        if end < self.pending.len() {
            (
                Stream {
                    partial: Seq::empty(),
                    pending: self.pending.skip(end + 1),
                    ..self
                },
                Pulled::Line(line::clip(self.partial + self.pending.take(end), LINE_MAX as int)),
            )
        } else {
            let whole = line::clip(self.partial + self.pending, LINE_MAX as int);
            if !self.eof {
                (Stream { partial: whole, pending: Seq::empty(), ..self }, Pulled::Read)
            } else if whole.len() > 0 {
                (
                    Stream { partial: Seq::empty(), pending: Seq::empty(), ..self },
                    Pulled::Line(whole),
                )
            } else {
                (Stream { partial: whole, pending: Seq::empty(), ..self }, Pulled::End)
            }
        }
    }

    /// The answer of a read: a piece of the file, its end, or an error, which
    /// ends it too.
    pub open spec fn fed(self, got: i64, chunk: Seq<u8>) -> Stream {
        if got < 0 {
            Stream { eof: true, error: true, ..self }
        } else if got == 0 {
            Stream { eof: true, ..self }
        } else {
            Stream { pending: chunk, ..self }
        }
    }
}

/// The lines of a file that arrives in pieces.
pub struct Lines {
    partial: Vec<u8>,
    pending: Vec<u8>,
    eof: bool,
    error: bool,
}

impl Lines {
    /// The lines in mathematical terms.
    pub closed spec fn view(&self) -> Stream {
        Stream {
            partial: self.partial@,
            pending: self.pending@,
            eof: self.eof,
            error: self.error,
        }
    }

    /// Nothing has arrived.
    pub fn new() -> (r: Self)
        ensures
            r@ == (Stream {
                partial: Seq::empty(),
                pending: Seq::empty(),
                eof: false,
                error: false,
            }),
            r@.wf(),
    {
        Lines { partial: Vec::new(), pending: Vec::new(), eof: false, error: false }
    }

    /// The next line, or what it takes. A line that is too long is cut.
    pub fn next(&mut self) -> (r: Pull)
        requires
            old(self)@.wf(),
        ensures
            final(self)@.wf(),
            final(self)@ == old(self)@.pull().0,
            match r {
                Pull::Read => old(self)@.pull().1 == Pulled::Read,
                Pull::Line(text) => old(self)@.pull().1 == Pulled::Line(text@),
                Pull::End => old(self)@.pull().1 == Pulled::End,
            },
    {
        let end: usize = find(self.pending.as_slice(), NEWLINE, 0);
        proof {
            bytes::lemma_first_at(self.pending@, NEWLINE, 0);
        }
        let room: usize = LINE_MAX - self.partial.len();
        let take: usize = crate::bytes::least(end, room);
        let ghost before = self@;
        append(&mut self.partial, &self.pending[0..take]);
        assert(self.partial@ =~= line::clip(
            before.partial + before.pending.take(end as int),
            LINE_MAX as int,
        ));
        assert(!self.partial@.contains(NEWLINE)) by {
            assert forall|i: int| 0 <= i < self.partial@.len() implies self.partial@[i]
                != NEWLINE by {
                if i < before.partial.len() {
                    assert(before.partial.contains(before.partial[i]));
                }
            }
        }
        let total: usize = self.pending.len();
        if end < total {
            let mut text: Vec<u8> = Vec::new();
            std::mem::swap(&mut text, &mut self.partial);
            let rest = crate::bytes::copy_of(&self.pending[end + 1..total]);
            assert(rest@ =~= before.pending.skip(end + 1));
            self.pending = rest;
            assert(self.partial@ =~= Seq::<u8>::empty());
            return Pull::Line(text);
        }
        assert(before.pending.take(end as int) =~= before.pending);
        self.pending = Vec::new();
        assert(self.pending@ =~= Seq::<u8>::empty());
        if !self.eof {
            return Pull::Read;
        }
        if self.partial.len() > 0 {
            let mut text: Vec<u8> = Vec::new();
            std::mem::swap(&mut text, &mut self.partial);
            assert(self.partial@ =~= Seq::<u8>::empty());
            return Pull::Line(text);
        }
        Pull::End
    }

    /// Takes the answer of a read.
    pub fn feed(&mut self, got: i64, chunk: &[u8])
        requires
            old(self)@.wf(),
        ensures
            final(self)@.wf(),
            final(self)@ == old(self)@.fed(got, chunk@),
    {
        if got < 0 {
            self.error = true;
            self.eof = true;
        } else if got == 0 {
            self.eof = true;
        } else {
            self.pending = crate::bytes::copy_of(chunk);
        }
    }

    /// Whether a read failed.
    pub fn error(&self) -> (r: bool)
        ensures
            r == self@.error,
    {
        self.error
    }
}

/// What is done next.
#[derive(Clone, Copy, PartialEq, Eq, Structural, Debug)]
pub enum Action {
    /// A piece of the file is read.
    Read,
    /// A key is read.
    Ask,
    /// The file is closed, and the program ends.
    End,
}

/// `more` in mathematical terms.
pub struct Model {
    pub lines: Stream,
    pub page: int,
    pub printed: int,
}

/// What happens up to the next action.
pub struct Effect {
    pub model: Model,
    pub shown: Seq<u8>,
    pub action: Action,
}

impl Model {
    /// The page has a line, and no more were printed than it has.
    pub open spec fn wf(self) -> bool {
        self.lines.wf() && 1 <= self.page && 0 <= self.printed <= self.page
    }

    /// Lines are shown until the page is full, the file has to be read or is at
    /// its end.
    pub open spec fn advanced(self) -> Effect
        decreases self.page - self.printed,
    {
        if self.printed >= self.page {
            Effect { model: self, shown: bytes::ascii("--More--"@), action: Action::Ask }
        } else {
            let (lines, pulled) = self.lines.pull();
            match pulled {
                Pulled::Read => Effect {
                    model: Model { lines, ..self },
                    shown: Seq::empty(),
                    action: Action::Read,
                },
                Pulled::End => Effect {
                    model: Model { lines, ..self },
                    shown: Seq::empty(),
                    action: Action::End,
                },
                Pulled::Line(text) => {
                    let rest = Model { lines, printed: self.printed + 1, ..self }.advanced();
                    Effect { shown: text.push(NEWLINE) + rest.shown, ..rest }
                },
            }
        }
    }

    /// The answer of a read of one key. Space goes on with the next page, `q`
    /// and a keyboard that is gone end the program, and the prompt goes away.
    pub open spec fn answered(self, got: i64, byte: u8) -> Effect {
        let gone = bytes::ascii("\r\x1b[2K"@);
        if got == MINUS_EAGAIN {
            Effect { model: self, shown: Seq::empty(), action: Action::Ask }
        } else if got <= 0 || byte == 'q' as u8 {
            Effect { model: self, shown: gone, action: Action::End }
        } else if byte == ' ' as u8 {
            let next = Model { printed: 0, ..self }.advanced();
            Effect { shown: gone + next.shown, ..next }
        } else {
            Effect { model: self, shown: Seq::empty(), action: Action::Ask }
        }
    }
}

/// A file that is shown page by page.
pub struct More {
    lines: Lines,
    page: usize,
    printed: usize,
}

/// The lines of a page: one less than the screen has rows, but at least one.
pub open spec fn page_of(rows: int) -> int {
    if rows > 2 {
        rows - 1
    } else {
        1
    }
}

impl More {
    /// `more` in mathematical terms.
    pub closed spec fn view(&self) -> Model {
        Model { lines: self.lines@, page: self.page as int, printed: self.printed as int }
    }

    /// A file of which nothing was read, on a screen of `rows` rows.
    pub fn new(rows: u16) -> (r: Self)
        ensures
            r@.wf(),
            r@ == (Model {
                lines: Stream {
                    partial: Seq::empty(),
                    pending: Seq::empty(),
                    eof: false,
                    error: false,
                },
                page: page_of(rows as int),
                printed: 0,
            }),
    {
        let page: usize = if rows > 2 {
            rows as usize - 1
        } else {
            1
        };
        More { lines: Lines::new(), page, printed: 0 }
    }

    /// Shows lines until something has to be asked for.
    pub fn advance(&mut self, out: &mut Vec<u8>) -> (action: Action)
        requires
            old(self)@.wf(),
        ensures
            final(self)@.wf(),
            final(self)@ == old(self)@.advanced().model,
            final(out)@ == old(out)@ + old(self)@.advanced().shown,
            action == old(self)@.advanced().action,
    {
        proof {
            reveal_strlit("--More--");
        }
        let ghost want = self@.advanced();
        assert(out@ + want.shown =~= old(out)@ + want.shown);
        while self.printed < self.page
            invariant
                self@.wf(),
                want == old(self)@.advanced(),
                want.model == self@.advanced().model,
                want.action == self@.advanced().action,
                old(out)@ + want.shown == out@ + self@.advanced().shown,
            decreases self.page - self.printed,
        {
            let ghost before = self@;
            let ghost written = out@;
            match self.lines.next() {
                Pull::Read => {
                    assert(out@ =~= out@ + Seq::<u8>::empty());
                    return Action::Read;
                },
                Pull::End => {
                    assert(out@ =~= out@ + Seq::<u8>::empty());
                    return Action::End;
                },
                Pull::Line(text) => {
                    append(out, text.as_slice());
                    out.push(NEWLINE);
                    self.printed = self.printed + 1;
                    proof {
                        let rest = self@.advanced().shown;
                        assert(before.advanced().shown == text@.push(NEWLINE) + rest);
                        assert(written + (text@.push(NEWLINE) + rest) =~= out@ + rest);
                    }
                },
            }
        }
        push_str(out, "--More--");
        Action::Ask
    }

    /// Takes the answer of a read of the file.
    pub fn feed(&mut self, got: i64, chunk: &[u8])
        requires
            old(self)@.wf(),
        ensures
            final(self)@.wf(),
            final(self)@ == (Model { lines: old(self)@.lines.fed(got, chunk@), ..old(self)@ }),
    {
        self.lines.feed(got, chunk);
    }

    /// Takes the answer of a read of one key.
    pub fn answer(&mut self, got: i64, byte: u8, out: &mut Vec<u8>) -> (action: Action)
        requires
            old(self)@.wf(),
        ensures
            final(self)@.wf(),
            final(self)@ == old(self)@.answered(got, byte).model,
            final(out)@ == old(out)@ + old(self)@.answered(got, byte).shown,
            action == old(self)@.answered(got, byte).action,
    {
        proof {
            reveal_strlit("\r\x1b[2K");
        }
        if got == MINUS_EAGAIN {
            assert(out@ =~= old(out)@ + Seq::<u8>::empty());
            return Action::Ask;
        }
        if got <= 0 || byte == 'q' as u8 {
            push_str(out, "\r\x1b[2K");
            return Action::End;
        }
        if byte == ' ' as u8 {
            push_str(out, "\r\x1b[2K");
            self.printed = 0;
            let action = self.advance(out);
            assert(out@ =~= old(out)@ + old(self)@.answered(got, byte).shown);
            return action;
        }
        assert(out@ =~= old(out)@ + Seq::<u8>::empty());
        Action::Ask
    }

    /// Whether a read of the file failed.
    pub fn error(&self) -> (r: bool)
        ensures
            r == self@.lines.error,
    {
        self.lines.error()
    }
}

/// What the program says as it ends.
#[derive(Clone, Copy, PartialEq, Eq, Structural, Debug)]
pub enum Ending {
    /// No path was given.
    Usage,
    /// The file does not open.
    Open,
    /// A read failed.
    Read,
    /// Nothing went wrong.
    Done,
}

/// What an ending says.
pub open spec fn message(ending: Ending) -> Seq<u8> {
    match ending {
        Ending::Usage => bytes::ascii("more: usage: more <path>\n"@),
        Ending::Open => bytes::ascii("more: cannot open\n"@),
        Ending::Read => bytes::ascii("more: read failed\n"@),
        Ending::Done => Seq::empty(),
    }
}

/// The status of an ending.
pub open spec fn code(ending: Ending) -> u64 {
    match ending {
        Ending::Usage => 2,
        Ending::Open => 1,
        Ending::Read => 3,
        Ending::Done => 0,
    }
}

/// What an ending says on the error output, and its status.
pub fn farewell(ending: Ending) -> (r: (Vec<u8>, u64))
    ensures
        r.0@ == message(ending),
        r.1 == code(ending),
{
    proof {
        reveal_strlit("more: usage: more <path>\n");
        reveal_strlit("more: cannot open\n");
        reveal_strlit("more: read failed\n");
    }
    match ending {
        Ending::Usage => (crate::bytes::bytes_of("more: usage: more <path>\n"), 2),
        Ending::Open => (crate::bytes::bytes_of("more: cannot open\n"), 1),
        Ending::Read => (crate::bytes::bytes_of("more: read failed\n"), 3),
        Ending::Done => {
            let none: Vec<u8> = Vec::new();
            assert(none@ =~= Seq::<u8>::empty());
            (none, 0)
        },
    }
}

/// Lines as they are shown: each cut to what a line can have.
pub open spec fn cut(lines: Seq<Seq<u8>>) -> Seq<Seq<u8>> {
    Seq::new(lines.len(), |i: int| line::clip(lines[i], LINE_MAX as int))
}

/// The lines that are still to come, when `future` is what is still to be read.
pub open spec fn to_come(stream: Stream, future: Seq<u8>) -> Seq<Seq<u8>> {
    cut(buffer::lines_from(stream.partial + stream.pending + future, 0))
}

proof fn lemma_lines_shift(a: Seq<u8>, b: Seq<u8>, at: int)
    requires
        0 <= at <= b.len(),
    ensures
        buffer::lines_from(a + b, a.len() + at) == buffer::lines_from(b, at),
    decreases b.len() - at,
{
    if at < b.len() {
        bytes::lemma_first_at(b, NEWLINE, at);
        let end = bytes::first_at(b, NEWLINE, at);
        let whole = a + b;
        if end < b.len() {
            bytes::lemma_first_at_is(whole, NEWLINE, a.len() + at, a.len() + end);
            assert(whole.subrange(a.len() + at, a.len() + end) =~= b.subrange(at, end));
            lemma_lines_shift(a, b, end + 1);
        } else {
            bytes::lemma_first_at(whole, NEWLINE, a.len() + at);
            let found = bytes::first_at(whole, NEWLINE, a.len() + at);
            if found < whole.len() {
                assert(b[found - a.len()] == NEWLINE);
            }
            assert(whole.skip(a.len() + at) =~= b.skip(at));
        }
    }
}

/// The lines of a text that begins with a part of a line.
proof fn lemma_first_line(a: Seq<u8>, b: Seq<u8>)
    requires
        !a.contains(NEWLINE),
    ensures
        ({
            let end = bytes::first_at(b, NEWLINE, 0);
            buffer::lines_from(a + b, 0) == (if end < b.len() {
                seq![a + b.take(end)] + buffer::lines_from(b, end + 1)
            } else if a.len() + b.len() > 0 {
                seq![a + b]
            } else {
                Seq::empty()
            })
        }),
{
    let whole = a + b;
    bytes::lemma_first_at(b, NEWLINE, 0);
    let end = bytes::first_at(b, NEWLINE, 0);
    assert forall|i: int| 0 <= i < a.len() implies a[i] != NEWLINE by {
        assert(a.contains(a[i]));
    }
    if end < b.len() {
        bytes::lemma_first_at_is(whole, NEWLINE, 0, a.len() + end);
        assert(whole.subrange(0, a.len() + end) =~= a + b.take(end));
        lemma_lines_shift(a, b, end + 1);
    } else if whole.len() > 0 {
        bytes::lemma_first_at(whole, NEWLINE, 0);
        let found = bytes::first_at(whole, NEWLINE, 0);
        if found < whole.len() {
            if found >= a.len() {
                assert(b[found - a.len()] == NEWLINE);
            }
        }
        assert(whole.skip(0) =~= a + b);
    }
}

/// Cutting what a line begins with does not change what is shown of it.
proof fn lemma_cut_first(a: Seq<u8>, b: Seq<u8>)
    requires
        !a.contains(NEWLINE),
    ensures
        cut(buffer::lines_from(line::clip(a, LINE_MAX as int) + b, 0)) == cut(
            buffer::lines_from(a + b, 0),
        ),
{
    let c = line::clip(a, LINE_MAX as int);
    assert(!c.contains(NEWLINE)) by {
        assert forall|i: int| 0 <= i < c.len() implies c[i] != NEWLINE by {
            assert(a.contains(a[i]));
        }
    }
    lemma_first_line(a, b);
    lemma_first_line(c, b);
    let end = bytes::first_at(b, NEWLINE, 0);
    bytes::lemma_first_at(b, NEWLINE, 0);
    let piece = if end < b.len() {
        b.take(end)
    } else {
        b
    };
    assert(line::clip(c + piece, LINE_MAX as int) =~= line::clip(a + piece, LINE_MAX as int));
    assert(cut(buffer::lines_from(c + b, 0)) =~= cut(buffer::lines_from(a + b, 0)));
}

/// The lines come out one by one as they stand in the file, whatever the pieces
/// are that the file arrives in: a line that comes out is the first of those
/// that were to come, what is read joins them, and none is left at the end.
pub proof fn lines_come_out_in_order(stream: Stream, future: Seq<u8>)
    requires
        stream.wf(),
        stream.eof ==> future.len() == 0,
    ensures
        ({
            let (after, pulled) = stream.pull();
            match pulled {
                Pulled::Line(text) => to_come(stream, future) == seq![text] + to_come(
                    after,
                    future,
                ),
                Pulled::Read => to_come(stream, future) == to_come(after, future)
                    && after.pending.len() == 0,
                Pulled::End => to_come(stream, future).len() == 0,
            }
        }),
{
    let (after, pulled) = stream.pull();
    let p = stream.partial;
    let q = stream.pending;
    let end = bytes::first_at(q, NEWLINE, 0);
    bytes::lemma_first_at(q, NEWLINE, 0);
    assert(p + q + future =~= p + (q + future));
    if end < q.len() {
        bytes::lemma_first_at_is(q + future, NEWLINE, 0, end);
        lemma_first_line(p, q + future);
        assert((q + future).take(end) =~= q.take(end));
        let rest = q.skip(end + 1) + future;
        assert(q + future =~= q.take(end + 1) + rest);
        lemma_lines_shift(q.take(end + 1), rest, 0);
        assert(after.partial + after.pending + future =~= rest);
        let text = line::clip(p + q.take(end), LINE_MAX as int);
        assert(to_come(stream, future) =~= seq![text] + to_come(after, future));
    } else {
        let whole = p + q;
        assert(!whole.contains(NEWLINE)) by {
            assert forall|i: int| 0 <= i < whole.len() implies whole[i] != NEWLINE by {
                if i < p.len() {
                    assert(p.contains(p[i]));
                } else {
                    assert(q[i - p.len()] != NEWLINE);
                }
            }
        }
        if !stream.eof {
            lemma_cut_first(whole, future);
            assert(after.partial + after.pending + future =~= line::clip(whole, LINE_MAX as int)
                + future);
        } else {
            lemma_first_line(whole, future);
            assert(whole + future =~= whole);
            assert(p + q + future =~= whole);
            assert(after.partial + after.pending + future =~= Seq::<u8>::empty());
            if whole.len() > 0 {
                assert(to_come(stream, future) =~= seq![line::clip(whole, LINE_MAX as int)]
                    + to_come(after, future));
            }
        }
    }
}

/// What is read takes its place among what is to come.
pub proof fn reading_moves_the_stream(stream: Stream, got: i64, chunk: Seq<u8>, future: Seq<u8>)
    requires
        stream.pending.len() == 0,
        got > 0,
    ensures
        to_come(stream, chunk + future) == to_come(stream.fed(got, chunk), future),
{
    assert(stream.partial + stream.pending + (chunk + future) =~= stream.partial + chunk + future);
}

/// What is shown is the file: the lines that are to come, in order and with none
/// left out, an empty one no less than another, each with a line feed behind it.
/// As many are shown as the page has room for, and then the prompt; what is left
/// is still to come. Only where a page is not full the file is read or at its end.
pub proof fn pages_show_the_file(model: Model, future: Seq<u8>)
    requires
        model.wf(),
        model.lines.eof ==> future.len() == 0,
    ensures
        ({
            let effect = model.advanced();
            let after = effect.model;
            let lines = to_come(model.lines, future);
            let count = after.printed - model.printed;
            &&& after.wf()
            &&& after.page == model.page
            &&& after.lines.eof == model.lines.eof && after.lines.error == model.lines.error
            &&& 0 <= count <= lines.len()
            &&& effect.shown == buffer::flat(lines.take(count)) + (if effect.action == Action::Ask {
                bytes::ascii("--More--"@)
            } else {
                Seq::empty()
            })
            &&& to_come(after.lines, future) == lines.skip(count)
            &&& effect.action == Action::Ask <==> after.printed == after.page
            &&& effect.action == Action::End ==> after.lines.eof && count == lines.len()
            &&& effect.action == Action::Read ==> !after.lines.eof && after.lines.pending.len() == 0
        }),
    decreases model.page - model.printed,
{
    let effect = model.advanced();
    let all = to_come(model.lines, future);
    let none = Seq::<u8>::empty();
    assert(buffer::flat(all.take(0)) =~= none) by {
        assert(all.take(0) =~= Seq::<Seq<u8>>::empty());
    }
    assert(all.skip(0) =~= all);
    if model.printed >= model.page {
        assert(none + bytes::ascii("--More--"@) =~= bytes::ascii("--More--"@));
    } else {
        lines_come_out_in_order(model.lines, future);
        lemma_pull_wf(model.lines);
        let (lines, pulled) = model.lines.pull();
        match pulled {
            Pulled::Line(text) => {
                let next = Model { lines, printed: model.printed + 1, ..model };
                pages_show_the_file(next, future);
                let rest = to_come(lines, future);
                let count = effect.model.printed - next.printed;
                assert(all == seq![text] + rest);
                assert(all.take(count + 1) =~= seq![text] + rest.take(count));
                assert(all.skip(count + 1) =~= rest.skip(count));
                buffer::saving_is_line_by_line(seq![text], rest.take(count));
                buffer::one_line_is_saved_with_its_line_feed(text);
                let prompt = if effect.action == Action::Ask {
                    bytes::ascii("--More--"@)
                } else {
                    none
                };
                assert(text.push(NEWLINE) + (buffer::flat(rest.take(count)) + prompt)
                    =~= text.push(NEWLINE) + buffer::flat(rest.take(count)) + prompt);
            },
            _ => {
                assert(none + none =~= none);
            },
        }
    }
}

proof fn lemma_pull_wf(stream: Stream)
    requires
        stream.wf(),
    ensures
        stream.pull().0.wf(),
{
    let end = bytes::first_at(stream.pending, NEWLINE, 0);
    bytes::lemma_first_at(stream.pending, NEWLINE, 0);
    let after = stream.pull().0;
    assert forall|i: int| 0 <= i < after.partial.len() implies after.partial[i] != NEWLINE by {
        let whole = stream.partial + stream.pending;
        assert(after.partial[i] == whole[i]);
        if i < stream.partial.len() {
            assert(stream.partial.contains(stream.partial[i]));
        }
    }
}

/// The space key goes on: the prompt goes away, and a whole page more is shown.
pub proof fn space_shows_the_next_page(model: Model, got: i64, future: Seq<u8>)
    requires
        model.wf(),
        model.lines.eof ==> future.len() == 0,
        got > 0,
    ensures
        ({
            let effect = model.answered(got, ' ' as u8);
            let after = effect.model;
            let lines = to_come(model.lines, future);
            &&& 0 <= after.printed <= lines.len()
            &&& effect.shown == bytes::ascii("\r\x1b[2K"@) + buffer::flat(lines.take(after.printed))
                + (if effect.action == Action::Ask {
                bytes::ascii("--More--"@)
            } else {
                Seq::empty()
            })
            &&& to_come(after.lines, future) == lines.skip(after.printed)
            &&& effect.action == Action::Ask <==> after.printed == model.page
            &&& effect.action == Action::End ==> after.printed == lines.len()
        }),
{
    pages_show_the_file(Model { printed: 0, ..model }, future);
    let effect = model.answered(got, ' ' as u8);
    let lines = to_come(model.lines, future);
    let gone = bytes::ascii("\r\x1b[2K"@);
    let prompt = if effect.action == Action::Ask {
        bytes::ascii("--More--"@)
    } else {
        Seq::empty()
    };
    assert(gone + (buffer::flat(lines.take(effect.model.printed)) + prompt) =~= gone
        + buffer::flat(lines.take(effect.model.printed)) + prompt);
}

/// Any other key is waited past, `q` and a keyboard that is gone end the program,
/// and none of them shows a line or loses one.
pub proof fn other_keys_show_nothing(model: Model, got: i64, byte: u8)
    requires
        got <= 0 || byte != ' ' as u8,
    ensures
        model.answered(got, byte).model == model,
        model.answered(got, byte).action == (if got != -11 && (got <= 0 || byte == 'q' as u8) {
            Action::End
        } else {
            Action::Ask
        }),
        model.answered(got, byte).shown == (if got != -11 && (got <= 0 || byte == 'q' as u8) {
            bytes::ascii("\r\x1b[2K"@)
        } else {
            Seq::empty()
        }),
{
}

/// A file whose lines are not too long is shown as it is, with a line feed behind
/// its last line; of a line that is too long, its first part is shown.
pub proof fn short_lines_are_shown_whole(file: Seq<u8>)
    requires
        file.len() > 0,
        forall|i: int|
            0 <= i < buffer::lines_from(file, 0).len() ==> (#[trigger] buffer::lines_from(
                file,
                0,
            )[i]).len() <= 512,
    ensures
        ({
            let fresh = Stream {
                partial: Seq::empty(),
                pending: Seq::empty(),
                eof: false,
                error: false,
            };
            buffer::flat(to_come(fresh, file)) == (if file.last() == NEWLINE {
                file
            } else {
                file.push(NEWLINE)
            })
        }),
{
    let none = Seq::<u8>::empty();
    assert(none + none + file =~= file);
    let lines = buffer::lines_from(file, 0);
    assert(cut(lines) =~= lines);
    buffer::a_last_line_may_lack_its_line_feed(file);
    buffer::opened_file_saves_back(file);
}

/// What is shown of a line is its beginning, all of it where it is short enough.
pub proof fn lines_are_cut_at_their_end(lines: Seq<Seq<u8>>, i: int)
    requires
        0 <= i < lines.len(),
    ensures
        cut(lines).len() == lines.len(),
        cut(lines)[i].is_prefix_of(lines[i]),
        lines[i].len() <= 512 ==> cut(lines)[i] == lines[i],
        lines[i].len() > 512 ==> cut(lines)[i].len() == 512,
{
}

/// The end of the file and a read that failed end it, and only the second is an
/// error. What was to come of it before comes still.
pub proof fn the_end_of_the_file_loses_nothing(stream: Stream, got: i64, chunk: Seq<u8>)
    requires
        got <= 0,
    ensures
        stream.fed(got, chunk).eof,
        stream.fed(got, chunk).error == (stream.error || got < 0),
        to_come(stream.fed(got, chunk), Seq::empty()) == to_come(stream, Seq::empty()),
{
}

/// A page is as many lines as the screen has rows but one, and at least one.
pub proof fn a_page_leaves_a_row_for_the_prompt(rows: int)
    requires
        0 <= rows,
    ensures
        page_of(rows) >= 1,
        rows >= 2 ==> page_of(rows) == rows - 1,
{
}

/// Each failure has its line and its status, and a good end has neither.
pub proof fn failures_are_told()
    ensures
        message(Ending::Usage) == bytes::ascii("more: usage: more <path>\n"@),
        message(Ending::Open) == bytes::ascii("more: cannot open\n"@),
        message(Ending::Read) == bytes::ascii("more: read failed\n"@),
        message(Ending::Done).len() == 0,
        code(Ending::Usage) == 2,
        code(Ending::Open) == 1,
        code(Ending::Read) == 3,
        code(Ending::Done) == 0,
{
}

} // verus!
