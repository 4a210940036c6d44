//! `mkdir` and `rmdir`: make and remove a directory.
use crate::bytes::{self, append, push_str};
use vstd::prelude::*;

verus! {

/// The most bytes of the path, with the zero behind them.
pub const PATH_MAX: usize = 256;

/// What is done to the directory.
#[derive(Clone, Copy, PartialEq, Eq, Structural, Debug)]
pub enum Deed {
    Make,
    Remove,
}

/// What is said where no path was given.
pub open spec fn usage_of(deed: Deed) -> Seq<u8> {
    match deed {
        Deed::Make => bytes::ascii("mkdir: usage: mkdir PATH\n"@),
        Deed::Remove => bytes::ascii("rmdir: usage: rmdir PATH\n"@),
    }
}

/// What is said where no path was given; the status is two.
pub fn usage(deed: Deed) -> (r: Vec<u8>)
    ensures
        r@ == usage_of(deed),
{
    proof {
        reveal_strlit("mkdir: usage: mkdir PATH\n");
        reveal_strlit("rmdir: usage: rmdir PATH\n");
    }
    match deed {
        Deed::Make => crate::bytes::bytes_of("mkdir: usage: mkdir PATH\n"),
        Deed::Remove => crate::bytes::bytes_of("rmdir: usage: rmdir PATH\n"),
    }
}

/// What is said of the kernel's answer.
pub open spec fn message(deed: Deed, path: Seq<u8>, answer: i64) -> Seq<u8> {
    if answer >= 0 {
        Seq::empty()
    } else {
        match deed {
            Deed::Make => bytes::ascii("mkdir: cannot create "@) + path + bytes::ascii(
                ": cannot create\n"@,
            ),
            Deed::Remove => bytes::ascii("rmdir: cannot remove "@) + path + bytes::ascii(
                ": cannot remove\n"@,
            ),
        }
    }
}

/// What is said of the kernel's answer on the error output, and the status.
pub fn done(deed: Deed, path: &[u8], answer: i64) -> (r: (Vec<u8>, u64))
    ensures
        r.0@ == message(deed, path@, answer),
        r.1 == (if answer < 0 {
            1u64
        } else {
            0u64
        }),
{
    proof {
        reveal_strlit("mkdir: cannot create ");
        reveal_strlit("rmdir: cannot remove ");
        reveal_strlit(": cannot create\n");
        reveal_strlit(": cannot remove\n");
    }
    let mut said: Vec<u8> = Vec::new();
    if answer >= 0 {
        assert(said@ =~= message(deed, path@, answer));
        return (said, 0);
    }
    match deed {
        Deed::Make => {
            push_str(&mut said, "mkdir: cannot create ");
            append(&mut said, path);
            push_str(&mut said, ": cannot create\n");
        },
        Deed::Remove => {
            push_str(&mut said, "rmdir: cannot remove ");
            append(&mut said, path);
            push_str(&mut said, ": cannot remove\n");
        },
    }
    assert(said@ =~= message(deed, path@, answer));
    (said, 1)
}

/// Nothing is said where it was done; where it was not, what was not done to which
/// path.
pub proof fn failures_are_told(deed: Deed, path: Seq<u8>, answer: i64)
    ensures
        answer >= 0 ==> message(deed, path, answer).len() == 0,
        answer < 0 && deed == Deed::Make ==> message(deed, path, answer) == bytes::ascii(
            "mkdir: cannot create "@,
        ) + path + bytes::ascii(": cannot create\n"@),
        answer < 0 && deed == Deed::Remove ==> message(deed, path, answer) == bytes::ascii(
            "rmdir: cannot remove "@,
        ) + path + bytes::ascii(": cannot remove\n"@),
        usage_of(Deed::Make) == bytes::ascii("mkdir: usage: mkdir PATH\n"@),
        usage_of(Deed::Remove) == bytes::ascii("rmdir: usage: rmdir PATH\n"@),
{
}

} // verus!
