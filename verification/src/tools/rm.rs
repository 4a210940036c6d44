//! `rm`: removes a file. A directory is left to `rmdir`.
use crate::bytes::{self, append, push_str};
use vstd::prelude::*;

verus! {

/// The most bytes of the path, with the zero behind them.
pub const PATH_MAX: usize = 256;

/// What the kernel answers where the path is a directory.
pub const MINUS_EISDIR: i64 = -21;

/// What is said where no path was given; the status is two.
pub fn usage() -> (r: Vec<u8>)
    ensures
        r@ == bytes::ascii("rm: usage: rm PATH\n"@),
{
    proof {
        reveal_strlit("rm: usage: rm PATH\n");
    }
    crate::bytes::bytes_of("rm: usage: rm PATH\n")
}

/// What is said of the kernel's answer.
pub open spec fn message(path: Seq<u8>, answer: i64) -> Seq<u8> {
    if answer >= 0 {
        Seq::empty()
    } else {
        bytes::ascii("rm: cannot remove "@) + path + (if answer == MINUS_EISDIR {
            bytes::ascii(": is a directory; use rmdir\n"@)
        } else {
            bytes::ascii(": cannot remove\n"@)
        })
    }
}

/// What is said of the kernel's answer on the error output, and the status.
pub fn removed(path: &[u8], answer: i64) -> (r: (Vec<u8>, u64))
    ensures
        r.0@ == message(path@, answer),
        r.1 == (if answer < 0 {
            1u64
        } else {
            0u64
        }),
{
    proof {
        reveal_strlit("rm: cannot remove ");
        reveal_strlit(": is a directory; use rmdir\n");
        reveal_strlit(": cannot remove\n");
    }
    let mut said: Vec<u8> = Vec::new();
    if answer >= 0 {
        assert(said@ =~= message(path@, answer));
        return (said, 0);
    }
    push_str(&mut said, "rm: cannot remove ");
    append(&mut said, path);
    if answer == MINUS_EISDIR {
        push_str(&mut said, ": is a directory; use rmdir\n");
    } else {
        push_str(&mut said, ": cannot remove\n");
    }
    assert(said@ =~= message(path@, answer));
    (said, 1)
}

/// Nothing is said where the file was removed; where it was not, which one, and
/// for a directory what removes it.
pub proof fn failures_are_told(path: Seq<u8>, answer: i64)
    ensures
        answer >= 0 ==> message(path, answer).len() == 0,
        answer == -21 ==> message(path, answer) == bytes::ascii("rm: cannot remove "@) + path
            + bytes::ascii(": is a directory; use rmdir\n"@),
        answer < 0 && answer != -21 ==> message(path, answer) == bytes::ascii(
            "rm: cannot remove "@,
        ) + path + bytes::ascii(": cannot remove\n"@),
{
}

} // verus!
