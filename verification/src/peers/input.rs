//! `inputd`: says what the keyboard does, until a key is pressed. And the
//! records in which the kernel tells of the keyboard.
use crate::bytes::{self, push_str};
use crate::decimal::{self, push_signed};
use crate::le;
use crate::line::{self, line_from, SHORT};
use crate::startup;
use vstd::prelude::*;

verus! {

/// Bytes of one record.
pub const INPUT_EVENT_LEN: usize = 24;

/// The value of a key that went down.
pub const PRESSED: i32 = 1;

/// A number of 32 bits read with its sign.
pub open spec fn signed32(n: int) -> int {
    if n >= 0x8000_0000 {
        n - 0x1_0000_0000
    } else {
        n
    }
}

/// A number of 64 bits read with its sign.
pub open spec fn signed64(n: int) -> int {
    if n >= 0x8000_0000_0000_0000 {
        n - 0x1_0000_0000_0000_0000
    } else {
        n
    }
}

/// The seconds of the time of an event.
pub fn event_sec(event: &[u8]) -> (r: u64)
    requires
        event@.len() >= INPUT_EVENT_LEN,
    ensures
        r == le::field(event@, 0, 8),
{
    le::read(event, 0, 8)
}

/// The microseconds of the time of an event.
pub fn event_usec(event: &[u8]) -> (r: u64)
    requires
        event@.len() >= INPUT_EVENT_LEN,
    ensures
        r == le::field(event@, 8, 8),
{
    le::read(event, 8, 8)
}

/// The key of an event.
pub fn event_code(event: &[u8]) -> (r: u16)
    requires
        event@.len() >= INPUT_EVENT_LEN,
    ensures
        r == le::field(event@, 18, 2),
{
    proof {
        le::lemma_limits();
    }
    le::read(event, 18, 2) as u16
}

/// What happened to the key of an event.
pub fn event_value(event: &[u8]) -> (r: i32)
    requires
        event@.len() >= INPUT_EVENT_LEN,
    ensures
        r == signed32(le::field(event@, 20, 4)),
{
    proof {
        le::lemma_limits();
    }
    let n: u64 = le::read(event, 20, 4);
    if n >= 0x8000_0000 {
        (n as i64 - 0x1_0000_0000) as i32
    } else {
        n as i32
    }
}

/// Whether an event is that of a key that went down.
pub open spec fn is_press(event: Seq<u8>) -> bool {
    signed32(le::field(event, 20, 4)) == PRESSED
}

/// The whole records in the first `got` bytes of what was read.
pub open spec fn event_count(got: int) -> int {
    if got < 0 {
        0
    } else {
        got / 24
    }
}

/// One of the records.
pub open spec fn event_at(chunk: Seq<u8>, index: int) -> Seq<u8> {
    chunk.subrange(24 * index, 24 * index + 24)
}

/// Whether one of the first records is that of a key that went down.
pub open spec fn any_press(chunk: Seq<u8>, count: int) -> bool {
    exists|i: int| 0 <= i < count && is_press(#[trigger] event_at(chunk, i))
}

/// Whether a key went down, in what was read of the keyboard.
pub fn pressed(chunk: &[u8], got: i64) -> (r: bool)
    requires
        got <= chunk@.len(),
    ensures
        r == any_press(chunk@, event_count(got as int)),
{
    let length: usize = chunk.len();
    let mut index: usize = 0;
    let total: usize = if got <= 0 {
        0
    } else {
        got as usize / INPUT_EVENT_LEN
    };
    while index < total
        invariant
            total == event_count(got as int),
            length == chunk@.len(),
            24 * total <= length,
            index <= total,
            forall|i: int| 0 <= i < index ==> !is_press(#[trigger] event_at(chunk@, i)),
        decreases total - index,
    {
        let event = &chunk[INPUT_EVENT_LEN * index..INPUT_EVENT_LEN * index + INPUT_EVENT_LEN];
        assert(event@ == event_at(chunk@, index as int));
        if event_value(event) == PRESSED {
            return true;
        }
        index += 1;
    }
    false
}

/// What `inputd` says of an event.
pub open spec fn event_text(event: Seq<u8>) -> Seq<u8> {
    bytes::ascii("inputd: event code="@) + decimal::signed(le::field(event, 18, 2))
        + bytes::ascii(" value="@) + decimal::signed(signed32(le::field(event, 20, 4)))
        + bytes::ascii(" sec="@) + decimal::signed(signed64(le::field(event, 0, 8)))
        + bytes::ascii(" usec="@) + decimal::signed(signed64(le::field(event, 8, 8)))
}

/// A number of 64 bits with its sign.
fn with_sign(n: u64) -> (r: i64)
    ensures
        r == signed64(n as int),
{
    if n >= 0x8000_0000_0000_0000 {
        let low: u64 = n - 0x8000_0000_0000_0000;
        low as i64 + i64::MIN
    } else {
        n as i64
    }
}

/// What `inputd` says of an event, as a line.
pub fn event_line(event: &[u8]) -> (r: Vec<u8>)
    requires
        event@.len() >= INPUT_EVENT_LEN,
    ensures
        r@ == line::line_of(event_text(event@), SHORT as int),
{
    proof {
        reveal_strlit("inputd: event code=");
        reveal_strlit(" value=");
        reveal_strlit(" sec=");
        reveal_strlit(" usec=");
    }
    let mut text: Vec<u8> = Vec::new();
    push_str(&mut text, "inputd: event code=");
    push_signed(&mut text, event_code(event) as i64);
    push_str(&mut text, " value=");
    push_signed(&mut text, event_value(event) as i64);
    push_str(&mut text, " sec=");
    push_signed(&mut text, with_sign(event_sec(event)));
    push_str(&mut text, " usec=");
    push_signed(&mut text, with_sign(event_usec(event)));
    assert(text@ =~= event_text(event@));
    line_from::<SHORT>(text.as_slice())
}

/// What comes after a read of the keyboard.
#[derive(Debug)]
pub enum Next {
    /// Another read.
    Again,
    /// These lines are said, and then another read.
    Said(Vec<Vec<u8>>),
    /// These lines are said, and the program ends well.
    Done(Vec<Vec<u8>>),
    /// This line is said, and the program ends with status two.
    Fail(Vec<u8>),
}

/// The lines of the first events.
pub open spec fn event_lines(chunk: Seq<u8>, count: int) -> Seq<Seq<u8>> {
    Seq::new(
        count as nat,
        |i: int| line::line_of(event_text(event_at(chunk, i)), SHORT as int),
    )
}

/// What comes after a read of the keyboard: every event is said, and a key that
/// went down ends the program.
pub fn after_read(chunk: &[u8], got: i64) -> (r: Next)
    requires
        got <= chunk@.len(),
    ensures
        match r {
            Next::Again => got == crate::userlib::MINUS_EAGAIN,
            Next::Fail(said) => got < 0 && got != crate::userlib::MINUS_EAGAIN && said@
                == line::line_of(
                bytes::ascii("inputd: read failed "@) + decimal::signed(got as int),
                SHORT as int,
            ),
            Next::Said(lines) => got >= 0 && !any_press(chunk@, event_count(got as int))
                && startup::strings(lines@) == event_lines(chunk@, event_count(got as int)),
            Next::Done(lines) => got >= 0 && any_press(chunk@, event_count(got as int))
                && startup::strings(lines@) == event_lines(
                chunk@,
                event_count(got as int),
            ).push(line::line_of(bytes::ascii("inputd: got a key press"@), SHORT as int)),
        },
{
    proof {
        reveal_strlit("inputd: read failed ");
        reveal_strlit("inputd: got a key press");
    }
    if got == crate::userlib::MINUS_EAGAIN {
        return Next::Again;
    }
    if got < 0 {
        return Next::Fail(crate::line::say_code("inputd: read failed ", got));
    }
    let length: usize = chunk.len();
    let total: usize = got as usize / INPUT_EVENT_LEN;
    let mut lines: Vec<Vec<u8>> = Vec::new();
    let mut index: usize = 0;
    while index < total
        invariant
            total == event_count(got as int),
            length == chunk@.len(),
            24 * total <= length,
            index <= total,
            lines@.len() == index,
            forall|i: int|
                0 <= i < index ==> (#[trigger] lines@[i])@ == event_lines(
                    chunk@,
                    total as int,
                )[i],
        decreases total - index,
    {
        let event = &chunk[INPUT_EVENT_LEN * index..INPUT_EVENT_LEN * index + INPUT_EVENT_LEN];
        assert(event@ == event_at(chunk@, index as int));
        lines.push(event_line(event));
        index += 1;
    }
    assert(startup::strings(lines@) =~= event_lines(chunk@, total as int));
    if pressed(chunk, got) {
        let ghost before = startup::strings(lines@);
        lines.push(crate::line::say("inputd: got a key press"));
        assert(startup::strings(lines@) =~= before.push(
            line::line_of(bytes::ascii("inputd: got a key press"@), SHORT as int),
        ));
        return Next::Done(lines);
    }
    Next::Said(lines)
}

/// What the probe says, a second program that must not get the keyboard, and
/// its status: one where it got it.
pub fn probed(fd: i64) -> (r: (Vec<u8>, u64))
    ensures
        r.0@ == line::line_of(
            bytes::ascii("inputd probe: open_input returned "@) + decimal::signed(fd as int),
            SHORT as int,
        ),
        r.1 == (if fd >= 0 {
            1u64
        } else {
            0u64
        }),
{
    proof {
        reveal_strlit("inputd probe: open_input returned ");
    }
    (
        crate::line::say_code("inputd probe: open_input returned ", fd),
        if fd >= 0 {
            1
        } else {
            0
        },
    )
}

/// What is said as the keyboard is opened, and whether the program goes on.
pub fn opened(fd: i64) -> (r: (Vec<u8>, bool))
    ensures
        r.1 == (fd >= 0),
        r.0@ == line::line_of(
            (if fd < 0 {
                bytes::ascii("inputd: open_input failed "@)
            } else {
                bytes::ascii("inputd: opened input fd "@)
            }) + decimal::signed(fd as int),
            SHORT as int,
        ),
{
    proof {
        reveal_strlit("inputd: open_input failed ");
        reveal_strlit("inputd: opened input fd ");
    }
    if fd < 0 {
        (crate::line::say_code("inputd: open_input failed ", fd), false)
    } else {
        (crate::line::say_code("inputd: opened input fd ", fd), true)
    }
}

/// A number with its sign is the number itself below half of what its bits hold,
/// and from there on that much less.
pub proof fn the_highest_bit_is_the_sign(n: int)
    ensures
        0 <= n < 0x8000_0000 ==> signed32(n) == n,
        0x8000_0000 <= n < 0x1_0000_0000 ==> signed32(n) == n - 0x1_0000_0000 && signed32(n) < 0,
        0 <= n < 0x8000_0000_0000_0000 ==> signed64(n) == n,
        0x8000_0000_0000_0000 <= n < 0x1_0000_0000_0000_0000 ==> signed64(n) == n
            - 0x1_0000_0000_0000_0000 && signed64(n) < 0,
{
}

/// A key went down exactly where one of the whole records that were read has the
/// value one.
pub proof fn a_press_is_a_value_of_one(chunk: Seq<u8>, got: int)
    requires
        got <= chunk.len(),
    ensures
        any_press(chunk, event_count(got)) <==> exists|i: int|
            0 <= i && 24 * i + 24 <= got && #[trigger] le::field(event_at(chunk, i), 20, 4) == 1,
        forall|i: int|
            0 <= i && 24 * i + 24 <= chunk.len() ==> #[trigger] event_at(chunk, i)
                == chunk.subrange(24 * i, 24 * i + 24),
{
    let count = event_count(got);
    if any_press(chunk, count) {
        let i = choose|i: int| 0 <= i < count && is_press(#[trigger] event_at(chunk, i));
        le::lemma_value_bound(event_at(chunk, i).subrange(20, 24));
        le::lemma_limits();
        assert(24 * i + 24 <= got);
        assert(le::field(event_at(chunk, i), 20, 4) == 1);
    }
    if exists|i: int|
        0 <= i && 24 * i + 24 <= got && #[trigger] le::field(event_at(chunk, i), 20, 4) == 1 {
        let i = choose|i: int|
            0 <= i && 24 * i + 24 <= got && #[trigger] le::field(event_at(chunk, i), 20, 4) == 1;
        assert(i < count);
        assert(is_press(event_at(chunk, i)));
    }
}

/// Every whole record that was read is told on a line of its own: its key, what
/// happened to it, and when.
pub proof fn every_event_is_told(chunk: Seq<u8>, got: int, i: int)
    requires
        0 <= got <= chunk.len(),
        0 <= i,
        24 * i + 24 <= got,
    ensures
        event_lines(chunk, event_count(got)).len() == got / 24,
        ({
            let event = chunk.subrange(24 * i, 24 * i + 24);
            event_lines(chunk, event_count(got))[i] == line::line_of(
                bytes::ascii("inputd: event code="@) + decimal::signed(le::field(event, 18, 2))
                    + bytes::ascii(" value="@) + decimal::signed(
                    signed32(le::field(event, 20, 4)),
                ) + bytes::ascii(" sec="@) + decimal::signed(signed64(le::field(event, 0, 8)))
                    + bytes::ascii(" usec="@) + decimal::signed(signed64(le::field(event, 8, 8))),
                96,
            )
        }),
{
}

} // verus!
