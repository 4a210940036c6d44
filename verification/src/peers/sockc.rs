//! `sockc`: a client that tries one thing with a server and says how it went.
use crate::bytes::{self, append, push_str, spells};
use crate::decimal::{self, push_signed};
use crate::line::{self, line_from};
use crate::peers::sockd::{self, big_byte};
use vstd::prelude::*;

verus! {

/// The most bytes of a line.
pub const LINE_MAX: usize = 128;

/// The most bytes of the argument that chooses what is tried.
pub const MODE_MAX: usize = 16;

/// The most bytes of an answer.
pub const REPLY_CAP: usize = 64;

/// Bytes of the large message.
pub const BIG_LEN: usize = 1536;

/// What is tried.
#[derive(Clone, Copy, PartialEq, Eq, Structural, Debug)]
pub enum Mode {
    Hello,
    Big,
    Nobody,
    Bind,
    Twice,
    Quit,
    Unknown,
}

/// What an argument chooses.
pub open spec fn chosen(argument: Seq<u8>) -> Mode {
    if argument == bytes::ascii("hello"@) {
        Mode::Hello
    } else if argument == bytes::ascii("big"@) {
        Mode::Big
    } else if argument == bytes::ascii("nobody"@) {
        Mode::Nobody
    } else if argument == bytes::ascii("bind"@) {
        Mode::Bind
    } else if argument == bytes::ascii("twice"@) {
        Mode::Twice
    } else if argument == bytes::ascii("quit"@) {
        Mode::Quit
    } else {
        Mode::Unknown
    }
}

/// What an argument chooses; its first bytes decide.
pub fn mode_of(argument: &[u8]) -> (r: Mode)
    ensures
        r == chosen(line::clip(argument@, MODE_MAX as int)),
{
    proof {
        reveal_strlit("hello");
        reveal_strlit("big");
        reveal_strlit("nobody");
        reveal_strlit("bind");
        reveal_strlit("twice");
        reveal_strlit("quit");
        assert(bytes::ascii("hello"@).len() == 5);
        assert(bytes::ascii("big"@).len() == 3);
        assert(bytes::ascii("nobody"@).len() == 6);
        assert(bytes::ascii("bind"@).len() == 4);
        assert(bytes::ascii("twice"@).len() == 5);
        assert(bytes::ascii("quit"@).len() == 4);
    }
    let take: usize = crate::bytes::least(argument.len(), MODE_MAX);
    let mode = &argument[0..take];
    assert(mode@ =~= line::clip(argument@, MODE_MAX as int));
    if spells(mode, "hello") {
        Mode::Hello
    } else if spells(mode, "big") {
        Mode::Big
    } else if spells(mode, "nobody") {
        Mode::Nobody
    } else if spells(mode, "bind") {
        Mode::Bind
    } else if spells(mode, "twice") {
        Mode::Twice
    } else if spells(mode, "quit") {
        Mode::Quit
    } else {
        Mode::Unknown
    }
}

/// What is said of an answer: the bytes that were read, or why none were.
pub open spec fn answer_text(got: i64, reply: Seq<u8>) -> Seq<u8> {
    if got < 0 {
        bytes::ascii(" read="@) + decimal::signed(got as int)
    } else {
        bytes::ascii(" reply="@) + reply
    }
}

/// Adds to a text what is said of an answer.
pub fn ask(text: &mut Vec<u8>, got: i64, reply: &[u8])
    ensures
        final(text)@ == old(text)@ + answer_text(got, reply@),
{
    proof {
        reveal_strlit(" read=");
        reveal_strlit(" reply=");
    }
    if got < 0 {
        push_str(text, " read=");
        push_signed(text, got);
    } else {
        push_str(text, " reply=");
        append(text, reply);
    }
    assert(text@ =~= old(text)@ + answer_text(got, reply@));
}

/// What is said of a greeting.
pub fn hello_line(got: i64, reply: &[u8]) -> (r: Vec<u8>)
    ensures
        r@ == line::line_of(
            bytes::ascii("sockc: hello"@) + answer_text(got, reply@),
            LINE_MAX as int,
        ),
{
    proof {
        reveal_strlit("sockc: hello");
    }
    let mut text: Vec<u8> = Vec::new();
    push_str(&mut text, "sockc: hello");
    assert(text@ =~= bytes::ascii("sockc: hello"@));
    ask(&mut text, got, reply);
    line_from::<LINE_MAX>(text.as_slice())
}

/// The large message.
pub fn big_data() -> (r: Vec<u8>)
    ensures
        r@.len() == BIG_LEN,
        sockd::filled(r@),
{
    let mut r: Vec<u8> = Vec::new();
    while r.len() < BIG_LEN
        invariant
            r@.len() <= BIG_LEN,
            sockd::filled(r@),
        decreases BIG_LEN - r@.len(),
    {
        let index: usize = r.len();
        r.push(big_byte(index));
    }
    r
}

/// The large message on its way back.
pub struct Return {
    got_back: usize,
    matched: bool,
}

/// Whether a piece of the large message is the one that stands at `from`.
pub open spec fn piece_of_big(piece: Seq<u8>, from: int) -> bool {
    forall|i: int| 0 <= i < piece.len() ==> #[trigger] piece[i] == sockd::big(from + i)
}

impl Return {
    /// How many bytes came back.
    pub closed spec fn spec_got(&self) -> int {
        self.got_back as int
    }

    /// Whether all of them were the ones that were sent.
    pub closed spec fn spec_matched(&self) -> bool {
        self.matched
    }

    /// Nothing came back yet.
    pub fn new() -> (r: Self)
        ensures
            r.spec_got() == 0,
            r.spec_matched(),
    {
        Return { got_back: 0, matched: true }
    }

    /// Takes a piece that came back; true where more is to come.
    pub fn take(&mut self, piece: &[u8]) -> (more: bool)
        requires
            old(self).spec_got() < BIG_LEN,
            piece@.len() <= 256,
        ensures
            final(self).spec_got() == old(self).spec_got() + piece@.len(),
            final(self).spec_matched() == (old(self).spec_matched() && piece_of_big(
                piece@,
                old(self).spec_got(),
            )),
            more == (piece@.len() > 0 && final(self).spec_got() < BIG_LEN),
    {
        let from: usize = self.got_back;
        let mut index: usize = 0;
        let mut same: bool = true;
        while index < piece.len()
            invariant
                index <= piece@.len() <= 256,
                from < BIG_LEN,
                same == (forall|i: int|
                    0 <= i < index ==> #[trigger] piece@[i] == sockd::big(from + i)),
            decreases piece@.len() - index,
        {
            if piece[index] != big_byte(from + index) {
                same = false;
            }
            index += 1;
        }
        if !same {
            self.matched = false;
        }
        self.got_back = from + piece.len();
        piece.len() > 0 && self.got_back < BIG_LEN
    }

    /// What is said of the large message: well where all of it was sent, and
    /// came back as it was.
    pub fn line(&self, sent: i64) -> (r: Vec<u8>)
        requires
            self.spec_got() <= i64::MAX,
        ensures
            r@ == line::line_of(
                bytes::ascii("sockc: big sent="@) + decimal::signed(sent as int)
                    + bytes::ascii(" got="@) + decimal::signed(self.spec_got()) + (
                if self.spec_matched() && self.spec_got() == BIG_LEN && sent == BIG_LEN {
                    bytes::ascii(" match=true"@)
                } else {
                    bytes::ascii(" match=false"@)
                }),
                LINE_MAX as int,
            ),
    {
        proof {
            reveal_strlit("sockc: big sent=");
            reveal_strlit(" got=");
            reveal_strlit(" match=true");
            reveal_strlit(" match=false");
        }
        let ok = self.matched && self.got_back == BIG_LEN && sent == BIG_LEN as i64;
        let mut text: Vec<u8> = Vec::new();
        push_str(&mut text, "sockc: big sent=");
        push_signed(&mut text, sent);
        push_str(&mut text, " got=");
        push_signed(&mut text, self.got_back as i64);
        push_str(
            &mut text,
            if ok {
                " match=true"
            } else {
                " match=false"
            },
        );
        assert(text@ =~= bytes::ascii("sockc: big sent="@) + decimal::signed(sent as int)
            + bytes::ascii(" got="@) + decimal::signed(self.spec_got()) + (if ok {
            bytes::ascii(" match=true"@)
        } else {
            bytes::ascii(" match=false"@)
        }));
        line_from::<LINE_MAX>(text.as_slice())
    }
}

/// What is said of a name that nobody has.
pub fn nobody_line(result: i64) -> (r: Vec<u8>)
    ensures
        r@ == line::line_of(
            bytes::ascii("sockc: connect nobody -> "@) + decimal::signed(result as int),
            LINE_MAX as int,
        ),
{
    proof {
        reveal_strlit("sockc: connect nobody -> ");
    }
    let mut text: Vec<u8> = Vec::new();
    push_str(&mut text, "sockc: connect nobody -> ");
    push_signed(&mut text, result);
    assert(text@ =~= bytes::ascii("sockc: connect nobody -> "@) + decimal::signed(result as int));
    line_from::<LINE_MAX>(text.as_slice())
}

/// What is said of a name that was taken.
pub fn bind_line(name: &[u8], result: i64) -> (r: Vec<u8>)
    ensures
        r@ == line::line_of(
            bytes::ascii("sockc: bind "@) + name@ + bytes::ascii(" -> "@) + decimal::signed(
                result as int,
            ),
            LINE_MAX as int,
        ),
{
    proof {
        reveal_strlit("sockc: bind ");
        reveal_strlit(" -> ");
    }
    let mut text: Vec<u8> = Vec::new();
    push_str(&mut text, "sockc: bind ");
    append(&mut text, name);
    push_str(&mut text, " -> ");
    push_signed(&mut text, result);
    assert(text@ =~= bytes::ascii("sockc: bind "@) + name@ + bytes::ascii(" -> "@)
        + decimal::signed(result as int));
    line_from::<LINE_MAX>(text.as_slice())
}

/// What is said of two connections: how the second one came about, and what
/// each was answered. The second is asked only where there is one.
pub fn twice_line(
    second: i64,
    first_got: i64,
    first_reply: &[u8],
    second_got: i64,
    second_reply: &[u8],
) -> (r: Vec<u8>)
    ensures
        r@ == line::line_of(
            bytes::ascii("sockc: twice"@) + bytes::ascii(" second="@) + decimal::signed(
                second as int,
            ) + answer_text(first_got, first_reply@) + (if second >= 0 {
                answer_text(second_got, second_reply@)
            } else {
                Seq::empty()
            }),
            LINE_MAX as int,
        ),
{
    proof {
        reveal_strlit("sockc: twice");
        reveal_strlit(" second=");
    }
    let mut text: Vec<u8> = Vec::new();
    push_str(&mut text, "sockc: twice");
    push_str(&mut text, " second=");
    push_signed(&mut text, second);
    ask(&mut text, first_got, first_reply);
    if second >= 0 {
        ask(&mut text, second_got, second_reply);
    }
    assert(text@ =~= bytes::ascii("sockc: twice"@) + bytes::ascii(" second="@) + decimal::signed(
        second as int,
    ) + answer_text(first_got, first_reply@) + (if second >= 0 {
        answer_text(second_got, second_reply@)
    } else {
        Seq::empty()
    }));
    line_from::<LINE_MAX>(text.as_slice())
}

/// What is said of a server that was told to quit.
pub fn quit_line(got: i64, written: i64) -> (r: Vec<u8>)
    ensures
        r@ == line::line_of(
            bytes::ascii("sockc: quit read="@) + decimal::signed(got as int) + bytes::ascii(
                " write="@,
            ) + decimal::signed(written as int),
            LINE_MAX as int,
        ),
{
    proof {
        reveal_strlit("sockc: quit read=");
        reveal_strlit(" write=");
    }
    let mut text: Vec<u8> = Vec::new();
    push_str(&mut text, "sockc: quit read=");
    push_signed(&mut text, got);
    push_str(&mut text, " write=");
    push_signed(&mut text, written);
    assert(text@ =~= bytes::ascii("sockc: quit read="@) + decimal::signed(got as int)
        + bytes::ascii(" write="@) + decimal::signed(written as int));
    line_from::<LINE_MAX>(text.as_slice())
}

/// What comes of the two steps of a connection.
#[derive(Debug)]
pub enum Connected {
    /// The descriptor.
    Stream(u64),
    /// There is no socket; this is said.
    NoSocket(Vec<u8>),
    /// Nobody answers; this is said, and the descriptor closed.
    Refused(u64, Vec<u8>),
}

/// What comes of the two steps of a connection. `result` counts only where
/// there is a socket.
pub fn connected(fd: i64, result: i64) -> (r: Connected)
    ensures
        match r {
            Connected::Stream(stream) => fd >= 0 && result >= 0 && stream == fd,
            Connected::NoSocket(said) => fd < 0 && said@ == line::line_of(
                bytes::ascii("sockc: socket failed "@) + decimal::signed(fd as int),
                LINE_MAX as int,
            ),
            Connected::Refused(stream, said) => fd >= 0 && result < 0 && stream == fd && said@
                == line::line_of(
                bytes::ascii("sockc: connect failed "@) + decimal::signed(result as int),
                LINE_MAX as int,
            ),
        },
{
    proof {
        reveal_strlit("sockc: socket failed ");
        reveal_strlit("sockc: connect failed ");
    }
    let mut text: Vec<u8> = Vec::new();
    if fd < 0 {
        push_str(&mut text, "sockc: socket failed ");
        push_signed(&mut text, fd);
        assert(text@ =~= bytes::ascii("sockc: socket failed "@) + decimal::signed(fd as int));
        return Connected::NoSocket(line_from::<LINE_MAX>(text.as_slice()));
    }
    if result < 0 {
        push_str(&mut text, "sockc: connect failed ");
        push_signed(&mut text, result);
        assert(text@ =~= bytes::ascii("sockc: connect failed "@) + decimal::signed(result as int));
        return Connected::Refused(fd as u64, line_from::<LINE_MAX>(text.as_slice()));
    }
    Connected::Stream(fd as u64)
}

/// The large message, sent back piece by piece by a server that sends back what
/// it is sent, matches whatever the pieces are.
pub proof fn echoed_message_matches(data: Seq<u8>, from: int, end: int)
    requires
        sockd::filled(data),
        0 <= from <= end <= data.len(),
    ensures
        piece_of_big(data.subrange(from, end), from),
{
    let piece = data.subrange(from, end);
    assert forall|i: int| 0 <= i < piece.len() implies #[trigger] piece[i] == sockd::big(
        from + i,
    ) by {
        assert(data[from + i] == sockd::big(from + i));
    }
}

/// Each word chooses what is tried, and no other does.
pub proof fn words_choose_what_is_tried(argument: Seq<u8>)
    ensures
        chosen(argument) == Mode::Hello <==> argument == bytes::ascii("hello"@),
        chosen(argument) == Mode::Big <==> argument == bytes::ascii("big"@),
        chosen(argument) == Mode::Nobody <==> argument == bytes::ascii("nobody"@),
        chosen(argument) == Mode::Bind <==> argument == bytes::ascii("bind"@),
        chosen(argument) == Mode::Twice <==> argument == bytes::ascii("twice"@),
        chosen(argument) == Mode::Quit <==> argument == bytes::ascii("quit"@),
{
    reveal_strlit("hello");
    reveal_strlit("big");
    reveal_strlit("nobody");
    reveal_strlit("bind");
    reveal_strlit("twice");
    reveal_strlit("quit");
    assert(bytes::ascii("hello"@)[0] == 'h' as u8);
    assert(bytes::ascii("big"@).len() == 3);
    assert(bytes::ascii("nobody"@)[0] == 'n' as u8);
    assert(bytes::ascii("bind"@)[0] == 'b' as u8);
    assert(bytes::ascii("bind"@).len() == 4);
    assert(bytes::ascii("twice"@)[0] == 't' as u8);
    assert(bytes::ascii("quit"@)[0] == 'q' as u8);
    assert(bytes::ascii("big"@)[0] == 'b' as u8);
}

/// An answer is told as it came, and a read that failed by its number.
pub proof fn answers_are_told(got: i64, reply: Seq<u8>)
    ensures
        got >= 0 ==> answer_text(got, reply) == bytes::ascii(" reply="@) + reply,
        got < 0 ==> answer_text(got, reply) == bytes::ascii(" read="@) + decimal::signed(
            got as int,
        ),
{
}

/// A piece that is not what was sent is noticed.
pub proof fn a_changed_byte_is_noticed(data: Seq<u8>, from: int, end: int, at: int, byte: u8)
    requires
        sockd::filled(data),
        0 <= from <= at < end <= data.len(),
        byte != data[at],
    ensures
        !piece_of_big(data.subrange(from, end).update(at - from, byte), from),
{
    let piece = data.subrange(from, end).update(at - from, byte);
    assert(piece[at - from] == byte);
    assert(data[at] == sockd::big(from + (at - from)));
}

} // verus!
