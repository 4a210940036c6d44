//! `tail`: shows the last bytes of a file.
use crate::bytes;
use vstd::prelude::*;

verus! {

/// The most bytes of the path, with the zero behind them.
pub const PATH_MAX: usize = 256;

/// Bytes that are read at a time.
pub const CHUNK: usize = 256;

/// How many bytes are shown.
pub const TAIL_BYTES: u64 = 12;

/// Where the last bytes of a file begin.
pub open spec fn tail_start(size: int) -> int {
    if size > TAIL_BYTES {
        size - TAIL_BYTES
    } else {
        0
    }
}

/// Where the last bytes of a file begin: at its beginning where it is short.
pub fn tail_from(size: u64) -> (r: u64)
    ensures
        r == tail_start(size as int),
{
    if size > TAIL_BYTES {
        size - TAIL_BYTES
    } else {
        0
    }
}

/// Whether a seek went where it was sent.
pub fn landed_at(landed: i64, from: u64) -> (r: bool)
    ensures
        r == (landed >= 0 && landed == from),
{
    landed >= 0 && landed as u64 == from
}

/// What is shown of a file is its end: all of a short one, and of a longer one
/// as many bytes as are shown at most.
pub proof fn tail_is_the_end(file: Seq<u8>)
    ensures
        ({
            let shown = file.skip(tail_start(file.len() as int));
            &&& shown.len() == (if file.len() < TAIL_BYTES {
                file.len() as int
            } else {
                TAIL_BYTES as int
            })
            &&& file == file.take(file.len() - shown.len()) + shown
        }),
{
    let shown = file.skip(tail_start(file.len() as int));
    assert(file =~= file.take(file.len() - shown.len()) + shown);
}

/// What is said of a status.
pub open spec fn message(status: u64) -> Seq<u8> {
    if status == 1 {
        bytes::ascii("tail: cannot open\n"@)
    } else if status == 2 {
        bytes::ascii("tail: usage: tail PATH\n"@)
    } else if status == 3 {
        bytes::ascii("tail: cannot read\n"@)
    } else if status == 5 {
        bytes::ascii("tail: cannot seek\n"@)
    } else {
        Seq::empty()
    }
}

/// What is said of a status, on the error output. Of a failed write nothing is
/// said.
pub fn farewell(status: u64) -> (r: Vec<u8>)
    ensures
        r@ == message(status),
{
    proof {
        reveal_strlit("tail: cannot open\n");
        reveal_strlit("tail: usage: tail PATH\n");
        reveal_strlit("tail: cannot read\n");
        reveal_strlit("tail: cannot seek\n");
    }
    if status == 1 {
        crate::bytes::bytes_of("tail: cannot open\n")
    } else if status == 2 {
        crate::bytes::bytes_of("tail: usage: tail PATH\n")
    } else if status == 3 {
        crate::bytes::bytes_of("tail: cannot read\n")
    } else if status == 5 {
        crate::bytes::bytes_of("tail: cannot seek\n")
    } else {
        let none: Vec<u8> = Vec::new();
        assert(none@ =~= Seq::<u8>::empty());
        none
    }
}

/// The last twelve bytes of a file are shown, and all of a file that has fewer.
pub proof fn twelve_bytes_are_shown(size: int)
    requires
        0 <= size,
    ensures
        size >= 12 ==> size - tail_start(size) == 12,
        size < 12 ==> tail_start(size) == 0,
{
}

/// Each failure has its line, and a good end none.
pub proof fn failures_are_told(status: u64)
    ensures
        status == 1 ==> message(status) == bytes::ascii("tail: cannot open\n"@),
        status == 2 ==> message(status) == bytes::ascii("tail: usage: tail PATH\n"@),
        status == 3 ==> message(status) == bytes::ascii("tail: cannot read\n"@),
        status == 5 ==> message(status) == bytes::ascii("tail: cannot seek\n"@),
        status == 0 || status == 4 || status > 5 ==> message(status).len() == 0,
{
}

} // verus!
