//! `cat`: copies a file, or the standard input, to the standard output.
use crate::bytes;
use vstd::prelude::*;

verus! {

/// The most bytes of the path, with the zero behind them.
pub const PATH_MAX: usize = 256;

/// Bytes that are read at a time.
pub const CHUNK: usize = 256;

/// What comes next.
#[derive(Clone, Copy, PartialEq, Eq, Structural, Debug)]
pub enum Next {
    /// The next piece is read.
    Read,
    /// What was read is written, this many bytes of it.
    Write(usize),
    /// The copy is over, with this status.
    Stop(u64),
}

/// What comes after a read: the end of the input ends the copy.
pub fn after_read(got: i64) -> (r: Next)
    requires
        got <= usize::MAX,
    ensures
        r == (if got < 0 {
            Next::Stop(3)
        } else if got == 0 {
            Next::Stop(0)
        } else {
            Next::Write(got as usize)
        }),
{
    if got < 0 {
        Next::Stop(3)
    } else if got == 0 {
        Next::Stop(0)
    } else {
        Next::Write(got as usize)
    }
}

/// What comes after a write.
pub fn after_write(written: i64) -> (r: Next)
    ensures
        r == (if written < 0 {
            Next::Stop(4)
        } else {
            Next::Read
        }),
{
    if written < 0 {
        Next::Stop(4)
    } else {
        Next::Read
    }
}

/// What is said of a status.
pub open spec fn message(status: u64) -> Seq<u8> {
    if status == 1 {
        bytes::ascii("cat: cannot open\n"@)
    } else if status == 3 {
        bytes::ascii("cat: cannot read\n"@)
    } else {
        Seq::empty()
    }
}

/// What is said of a status, on the error output. Of a failed write nothing is
/// said.
pub fn farewell(status: u64) -> (r: Vec<u8>)
    ensures
        r@ == message(status),
{
    proof {
        reveal_strlit("cat: cannot open\n");
        reveal_strlit("cat: cannot read\n");
    }
    if status == 1 {
        crate::bytes::bytes_of("cat: cannot open\n")
    } else if status == 3 {
        crate::bytes::bytes_of("cat: cannot read\n")
    } else {
        let none: Vec<u8> = Vec::new();
        assert(none@ =~= Seq::<u8>::empty());
        none
    }
}

/// Of a file that cannot be opened or read it is said so; of any other end
/// nothing.
pub proof fn failures_are_told(status: u64)
    ensures
        status == 1 ==> message(status) == bytes::ascii("cat: cannot open\n"@),
        status == 3 ==> message(status) == bytes::ascii("cat: cannot read\n"@),
        status != 1 && status != 3 ==> message(status).len() == 0,
{
}

} // verus!
