//! One line of output, put together piece by piece in a buffer that never grows.
use crate::bytes::{self, bytes_of, NEWLINE};
use crate::decimal::{self, push_signed};
use vstd::prelude::*;

verus! {

/// The capacity of the line that most programs report with.
pub const SHORT: usize = 96;

/// `s` cut to at most `cap` bytes.
pub open spec fn clip(s: Seq<u8>, cap: int) -> Seq<u8> {
    if s.len() <= cap {
        s
    } else {
        s.take(cap)
    }
}

/// A line of at most `CAP` bytes. What does not fit is dropped.
pub struct Line<const CAP: usize> {
    buf: Vec<u8>,
}

impl<const CAP: usize> Line<CAP> {
    /// The bytes pushed so far.
    pub closed spec fn view(&self) -> Seq<u8> {
        self.buf@
    }

    /// The line holds at most its capacity.
    pub open spec fn wf(&self) -> bool {
        self@.len() <= CAP
    }

    /// An empty line.
    pub fn new() -> (line: Self)
        ensures
            line.wf(),
            line@ == Seq::<u8>::empty(),
    {
        Line { buf: Vec::new() }
    }

    /// Appends `bytes`, as far as they fit.
    pub fn push(&mut self, bytes: &[u8])
        requires
            old(self).wf(),
        ensures
            final(self).wf(),
            final(self)@ == clip(old(self)@ + bytes@, CAP as int),
    {
        let mut at: usize = 0;
        while at < bytes.len()
            invariant
                at <= bytes.len(),
                self@.len() <= CAP,
                self@ == clip(old(self)@ + bytes@.take(at as int), CAP as int),
            decreases bytes.len() - at,
        {
            if self.buf.len() < CAP {
                self.buf.push(bytes[at]);
            }
            at += 1;
            assert(old(self)@ + bytes@.take(at as int) =~= (old(self)@ + bytes@.take(at - 1)).push(
                bytes@[at - 1],
            ));
        }
        assert(bytes@.take(bytes@.len() as int) == bytes@);
    }

    /// Appends an ASCII text, as far as it fits.
    pub fn push_text(&mut self, text: &str)
        requires
            old(self).wf(),
            text.is_ascii(),
        ensures
            final(self).wf(),
            final(self)@ == clip(old(self)@ + bytes::ascii(text@), CAP as int),
    {
        let bytes = bytes_of(text);
        self.push(&bytes);
    }

    /// Appends `value` in decimal, as far as it fits.
    pub fn push_decimal(&mut self, value: i64)
        requires
            old(self).wf(),
        ensures
            final(self).wf(),
            final(self)@ == clip(old(self)@ + decimal::signed(value as int), CAP as int),
    {
        let mut text: Vec<u8> = Vec::new();
        push_signed(&mut text, value);
        self.push(&text);
    }

    /// Ends the line with a line feed, where there is room for one, and hands
    /// out its bytes.
    pub fn end(self) -> (bytes: Vec<u8>)
        requires
            self.wf(),
        ensures
            bytes@ == clip(self@.push(NEWLINE), CAP as int),
            bytes@.len() <= CAP,
    {
        let mut bytes = self.buf;
        if bytes.len() < CAP {
            bytes.push(NEWLINE);
        } else {
            assert(bytes@.push(NEWLINE).take(CAP as int) =~= bytes@);
        }
        bytes
    }
}

/// Cutting after each piece leaves what one cut at the end leaves: a line does
/// not depend on how its text was divided into pieces.
pub proof fn clipping_once_is_enough(a: Seq<u8>, b: Seq<u8>, cap: int)
    requires
        cap >= 0,
    ensures
        clip(clip(a, cap) + b, cap) == clip(a + b, cap),
{
    if a.len() > cap {
        assert((a.take(cap) + b).take(cap) =~= (a + b).take(cap));
        assert(a.take(cap).take(cap) =~= a.take(cap));
        assert((a + b).take(cap) =~= a.take(cap));
        assert(a.take(cap) + b =~= a.take(cap) + b);
        if b.len() == 0 {
            assert(a.take(cap) + b =~= a.take(cap));
        }
    }
}

/// A text as a line: with a line feed behind it, as far as it fits.
pub open spec fn line_of(text: Seq<u8>, cap: int) -> Seq<u8> {
    clip(text.push(NEWLINE), cap)
}

/// The line of a text that was put together before.
pub fn line_from<const CAP: usize>(text: &[u8]) -> (bytes: Vec<u8>)
    ensures
        bytes@ == line_of(text@, CAP as int),
{
    let mut line: Line<CAP> = Line::new();
    line.push(text);
    proof {
        assert(Seq::<u8>::empty() + text@ =~= text@);
        clipping_once_is_enough(text@, seq![NEWLINE], CAP as int);
        assert(line@ + seq![NEWLINE] =~= line@.push(NEWLINE));
        assert(text@ + seq![NEWLINE] =~= text@.push(NEWLINE));
    }
    line.end()
}

/// The line that says `text`.
pub fn say(text: &str) -> (bytes: Vec<u8>)
    requires
        text.is_ascii(),
    ensures
        bytes@ == line_of(bytes::ascii(text@), SHORT as int),
{
    let mut line: Line<SHORT> = Line::new();
    line.push_text(text);
    proof {
        assert(Seq::<u8>::empty() + bytes::ascii(text@) =~= bytes::ascii(text@));
        clipping_once_is_enough(bytes::ascii(text@), seq![NEWLINE], SHORT as int);
        assert(line@ + seq![NEWLINE] =~= line@.push(NEWLINE));
        assert(bytes::ascii(text@) + seq![NEWLINE] =~= bytes::ascii(text@).push(NEWLINE));
    }
    line.end()
}

/// The line that says `text` and then `code` in decimal.
pub fn say_code(text: &str, code: i64) -> (bytes: Vec<u8>)
    requires
        text.is_ascii(),
    ensures
        bytes@ == line_of(bytes::ascii(text@) + decimal::signed(code as int), SHORT as int),
{
    let mut line: Line<SHORT> = Line::new();
    line.push_text(text);
    line.push_decimal(code);
    proof {
        let whole = bytes::ascii(text@) + decimal::signed(code as int);
        assert(Seq::<u8>::empty() + bytes::ascii(text@) =~= bytes::ascii(text@));
        clipping_once_is_enough(bytes::ascii(text@), decimal::signed(code as int), SHORT as int);
        clipping_once_is_enough(whole, seq![NEWLINE], SHORT as int);
        assert(line@ + seq![NEWLINE] =~= line@.push(NEWLINE));
        assert(whole + seq![NEWLINE] =~= whole.push(NEWLINE));
    }
    line.end()
}

/// What is cut is the end: a line keeps its beginning, and all of it where it
/// fits.
pub proof fn clipping_keeps_the_beginning(s: Seq<u8>, cap: int)
    requires
        0 <= cap,
    ensures
        clip(s, cap).is_prefix_of(s),
        s.len() <= cap ==> clip(s, cap) == s,
        s.len() > cap ==> clip(s, cap).len() == cap,
        s.len() < cap ==> line_of(s, cap) == s.push(NEWLINE),
        s.len() >= cap ==> line_of(s, cap) == s.take(cap),
{
    if s.len() >= cap {
        assert(s.push(NEWLINE).take(cap) =~= s.take(cap));
    }
}

} // verus!
