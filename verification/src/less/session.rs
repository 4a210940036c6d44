//! How `less` begins and ends.
use crate::bytes;
use vstd::prelude::*;

verus! {

/// The most bytes of the path, with the zero behind them.
pub const PATH_MAX: usize = 128;

/// Bytes that are read at a time.
pub const CHUNK: usize = 1024;

/// What ends the program before it shows anything.
#[derive(Clone, Copy, PartialEq, Eq, Structural, Debug)]
pub enum Failure {
    /// No path was given.
    Usage,
    /// The file does not open.
    Open,
    /// The file does not read, or holds more than was said.
    Read,
    /// There is not enough memory.
    Memory,
}

/// What a failure says.
pub open spec fn message(failure: Failure) -> Seq<u8> {
    match failure {
        Failure::Usage => bytes::ascii("less: usage: less <path>\n"@),
        Failure::Open => bytes::ascii("less: cannot open\n"@),
        Failure::Read => bytes::ascii("less: read failed\n"@),
        Failure::Memory => bytes::ascii("less: out of memory\n"@),
    }
}

/// The status that a failure ends with.
pub open spec fn code(failure: Failure) -> u64 {
    match failure {
        Failure::Usage => 2,
        Failure::Open => 1,
        Failure::Read => 3,
        Failure::Memory => 6,
    }
}

/// What a failure says on the error output, and its status.
pub fn farewell(failure: Failure) -> (r: (Vec<u8>, u64))
    ensures
        r.0@ == message(failure),
        r.1 == code(failure),
{
    proof {
        reveal_strlit("less: usage: less <path>\n");
        reveal_strlit("less: cannot open\n");
        reveal_strlit("less: read failed\n");
        reveal_strlit("less: out of memory\n");
    }
    match failure {
        Failure::Usage => (crate::bytes::bytes_of("less: usage: less <path>\n"), 2),
        Failure::Open => (crate::bytes::bytes_of("less: cannot open\n"), 1),
        Failure::Read => (crate::bytes::bytes_of("less: read failed\n"), 3),
        Failure::Memory => (crate::bytes::bytes_of("less: out of memory\n"), 6),
    }
}

/// Every failure says what it is, in a line of its own, and has a status of its
/// own that is not that of success.
pub proof fn failures_are_told(failure: Failure, other: Failure)
    ensures
        message(failure) == bytes::ascii("less: "@) + (match failure {
            Failure::Usage => bytes::ascii("usage: less <path>\n"@),
            Failure::Open => bytes::ascii("cannot open\n"@),
            Failure::Read => bytes::ascii("read failed\n"@),
            Failure::Memory => bytes::ascii("out of memory\n"@),
        }),
        code(failure) != 0,
        code(failure) == code(other) <==> failure == other,
        code(Failure::Open) == 1,
        code(Failure::Usage) == 2,
        code(Failure::Read) == 3,
        code(Failure::Memory) == 6,
{
    reveal_strlit("less: ");
    reveal_strlit("usage: less <path>\n");
    reveal_strlit("cannot open\n");
    reveal_strlit("read failed\n");
    reveal_strlit("out of memory\n");
    reveal_strlit("less: usage: less <path>\n");
    reveal_strlit("less: cannot open\n");
    reveal_strlit("less: read failed\n");
    reveal_strlit("less: out of memory\n");
    assert(message(failure) =~= bytes::ascii("less: "@) + (match failure {
        Failure::Usage => bytes::ascii("usage: less <path>\n"@),
        Failure::Open => bytes::ascii("cannot open\n"@),
        Failure::Read => bytes::ascii("read failed\n"@),
        Failure::Memory => bytes::ascii("out of memory\n"@),
    }));
}

} // verus!
