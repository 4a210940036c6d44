//! `sockd`: a server that sends back what it is sent, until it is told to quit,
//! and that looks through shared memory where it is sent some.
use crate::bytes::{self, append, push_str, starts_with};
use crate::decimal::{self, push_signed};
use crate::line::{self, line_from, SHORT};
use vstd::prelude::*;

verus! {

/// The most bytes of a socket's name.
pub const NAME_MAX: usize = 31;

/// Bytes that are received at a time.
pub const CHUNK: usize = 1024;

/// How many clients can wait.
pub const BACKLOG: u64 = 2;

/// Bytes of shared memory that are looked through.
pub const SHM_LEN: usize = 6000;

/// The byte that a large message and shared memory have at `index`.
pub open spec fn big(index: int) -> u8 {
    ((7 + index) % 251) as u8
}

/// The byte that a large message and shared memory have at `index`.
pub fn big_byte(index: usize) -> (r: u8)
    requires
        index + 7 <= usize::MAX,
    ensures
        r == big(index as int),
{
    ((7 + index) % 251) as u8
}

/// The name of the socket: the argument, as far as it goes, or else the one
/// that everybody knows.
pub open spec fn name_of(argument: Option<Seq<u8>>) -> Seq<u8> {
    match argument {
        Some(name) => line::clip(name, NAME_MAX as int),
        None => bytes::ascii("wayland-0"@),
    }
}

/// The name of the socket.
pub fn socket_name(argument: Option<&[u8]>) -> (r: Vec<u8>)
    ensures
        r@ == name_of(
            match argument {
                Some(name) => Some(name@),
                None => None,
            },
        ),
{
    proof {
        reveal_strlit("wayland-0");
    }
    match argument {
        Some(name) => {
            let take: usize = crate::bytes::least(name.len(), NAME_MAX);
            assert(name@.subrange(0, take as int) =~= line::clip(name@, NAME_MAX as int));
            crate::bytes::copy_of(&name[0..take])
        },
        None => crate::bytes::bytes_of("wayland-0"),
    }
}

/// Whether memory holds what shared memory is filled with.
pub open spec fn filled(memory: Seq<u8>) -> bool {
    forall|i: int| 0 <= i < memory.len() ==> #[trigger] memory[i] == big(i)
}

/// Whether memory holds what shared memory is filled with.
pub fn check_shm(memory: &[u8]) -> (r: bool)
    requires
        memory@.len() <= SHM_LEN,
    ensures
        r == filled(memory@),
{
    let mut index: usize = 0;
    while index < memory.len()
        invariant
            index <= memory@.len() <= SHM_LEN,
            forall|i: int| 0 <= i < index ==> #[trigger] memory@[i] == big(i),
        decreases memory@.len() - index,
    {
        if memory[index] != big_byte(index) {
            return false;
        }
        index += 1;
    }
    true
}

/// What comes after a message was received.
#[derive(Clone, Copy, PartialEq, Eq, Structural, Debug)]
pub enum Next {
    /// The server gives up, with status two.
    Fail,
    /// The client has left: the next one is waited for.
    Left,
    /// The memory that came with the message is looked through.
    Look,
    /// The server ends.
    Quit,
    /// The message is sent back.
    Echo,
}

/// What comes after a message of `got` bytes. Memory comes before what the
/// message says.
pub open spec fn decided(got: i64, shm_fd: u32, message: Seq<u8>) -> Next {
    if got < 0 {
        Next::Fail
    } else if got == 0 {
        Next::Left
    } else if shm_fd != 0 {
        Next::Look
    } else if bytes::ascii("quit"@).is_prefix_of(message) {
        Next::Quit
    } else {
        Next::Echo
    }
}

/// What comes after a message was received.
pub fn received(got: i64, shm_fd: u32, message: &[u8]) -> (r: Next)
    ensures
        r == decided(got, shm_fd, message@),
{
    proof {
        reveal_strlit("quit");
    }
    if got < 0 {
        return Next::Fail;
    }
    if got == 0 {
        return Next::Left;
    }
    if shm_fd != 0 {
        return Next::Look;
    }
    if starts_with(message, "quit") {
        assert(bytes::ascii("quit"@).is_prefix_of(message@));
        return Next::Quit;
    }
    assert(!bytes::ascii("quit"@).is_prefix_of(message@));
    Next::Echo
}

/// What is said of the memory that was looked through.
pub fn shm_line(ok: bool) -> (r: Vec<u8>)
    ensures
        r@ == line::line_of(
            bytes::ascii("sockd: shm "@) + decimal::signed(SHM_LEN as int) + (if ok {
                bytes::ascii(" bytes ok=true"@)
            } else {
                bytes::ascii(" bytes ok=false"@)
            }),
            SHORT as int,
        ),
{
    proof {
        reveal_strlit("sockd: shm ");
        reveal_strlit(" bytes ok=true");
        reveal_strlit(" bytes ok=false");
    }
    let mut text: Vec<u8> = Vec::new();
    push_str(&mut text, "sockd: shm ");
    push_signed(&mut text, SHM_LEN as i64);
    push_str(
        &mut text,
        if ok {
            " bytes ok=true"
        } else {
            " bytes ok=false"
        },
    );
    assert(text@ =~= bytes::ascii("sockd: shm "@) + decimal::signed(SHM_LEN as int) + (if ok {
        bytes::ascii(" bytes ok=true"@)
    } else {
        bytes::ascii(" bytes ok=false"@)
    }));
    line_from::<SHORT>(text.as_slice())
}

/// What the client is told of the memory that it sent.
pub fn shm_reply(ok: bool) -> (r: Vec<u8>)
    ensures
        r@ == (if ok {
            bytes::ascii("shm-ok"@)
        } else {
            bytes::ascii("shm-bad"@)
        }),
{
    proof {
        reveal_strlit("shm-ok");
        reveal_strlit("shm-bad");
    }
    if ok {
        crate::bytes::bytes_of("shm-ok")
    } else {
        crate::bytes::bytes_of("shm-bad")
    }
}

/// What is said as the server begins to listen.
pub fn listening_line(name: &[u8]) -> (r: Vec<u8>)
    ensures
        r@ == line::line_of(bytes::ascii("sockd: listening on "@) + name@, SHORT as int),
{
    proof {
        reveal_strlit("sockd: listening on ");
    }
    let mut text: Vec<u8> = Vec::new();
    push_str(&mut text, "sockd: listening on ");
    append(&mut text, name);
    assert(text@ =~= bytes::ascii("sockd: listening on "@) + name@);
    line_from::<SHORT>(text.as_slice())
}

/// The bytes of a large message count up from seven, and begin again at zero
/// behind 250.
pub proof fn large_messages_count_up(index: int)
    requires
        0 <= index,
    ensures
        big(0) == 7,
        big(index) < 250 ==> big(index + 1) == big(index) + 1,
        big(index) == 250 ==> big(index + 1) == 0,
        big(index) <= 250,
{
}

/// The name of the socket is the one that was given, its first 31 bytes where it is
/// longer, and `wayland-0` where none was given.
pub proof fn sockets_have_the_name_that_was_given(name: Seq<u8>)
    ensures
        name.len() <= 31 ==> name_of(Some(name)) == name,
        name.len() > 31 ==> name_of(Some(name)) == name.take(31),
        name_of(None) == bytes::ascii("wayland-0"@),
{
}

/// What a message makes the server do: memory is looked through, `quit` ends it,
/// and anything else is sent back; nothing means that the client has left.
pub proof fn messages_are_sent_back(got: i64, shm_fd: u32, message: Seq<u8>)
    ensures
        got < 0 ==> decided(got, shm_fd, message) == Next::Fail,
        got == 0 ==> decided(got, shm_fd, message) == Next::Left,
        got > 0 && shm_fd != 0 ==> decided(got, shm_fd, message) == Next::Look,
        got > 0 && shm_fd == 0 ==> (decided(got, shm_fd, message) == Next::Quit <==>
            message.len() >= 4 && message[0] == 'q' as u8 && message[1] == 'u' as u8 && message[2]
            == 'i' as u8 && message[3] == 't' as u8),
        got > 0 && shm_fd == 0 && decided(got, shm_fd, message) != Next::Quit ==> decided(
            got,
            shm_fd,
            message,
        ) == Next::Echo,
{
    reveal_strlit("quit");
    let quit = bytes::ascii("quit"@);
    assert(quit.len() == 4);
    assert(quit[0] == 'q' as u8 && quit[1] == 'u' as u8 && quit[2] == 'i' as u8 && quit[3]
        == 't' as u8);
    if message.len() >= 4 && message[0] == 'q' as u8 && message[1] == 'u' as u8 && message[2]
        == 'i' as u8 && message[3] == 't' as u8 {
        assert(message.take(4) =~= quit);
        assert(message.subrange(0, 4) =~= quit);
    }
    if quit.is_prefix_of(message) {
        assert(message.subrange(0, 4) == quit);
        assert(message.subrange(0, 4)[0] == message[0]);
        assert(message.subrange(0, 4)[1] == message[1]);
        assert(message.subrange(0, 4)[2] == message[2]);
        assert(message.subrange(0, 4)[3] == message[3]);
    }
}

} // verus!
