//! `touch`: makes an empty file where there is none.
use crate::bytes::{self, append, push_str};
use crate::userlib::MINUS_ENOENT;
use vstd::prelude::*;

verus! {

/// The most bytes of the path, with the zero behind them.
pub const PATH_MAX: usize = 256;

/// What is done next.
#[derive(Clone, Copy, PartialEq, Eq, Structural, Debug)]
pub enum Next {
    /// The file is made.
    Create,
    /// The descriptor is closed, and the program ends well.
    Close(u64),
    /// The program says that it cannot make the file, and ends.
    Fail,
}

/// What comes after the file was opened for reading. Making a file empties one
/// that is there, so it is made only where there is none: any other answer
/// leaves it open what is there.
pub fn after_open(existing: i64) -> (r: Next)
    ensures
        r == (if existing >= 0 {
            Next::Close(existing as u64)
        } else if existing == MINUS_ENOENT {
            Next::Create
        } else {
            Next::Fail
        }),
{
    if existing >= 0 {
        Next::Close(existing as u64)
    } else if existing == MINUS_ENOENT {
        Next::Create
    } else {
        Next::Fail
    }
}

/// What comes after the file was made.
pub fn after_create(created: i64) -> (r: Next)
    ensures
        r == (if created < 0 {
            Next::Fail
        } else {
            Next::Close(created as u64)
        }),
{
    if created < 0 {
        Next::Fail
    } else {
        Next::Close(created as u64)
    }
}

/// What is said where no path was given; the status is two.
pub fn usage() -> (r: Vec<u8>)
    ensures
        r@ == bytes::ascii("touch: usage: touch PATH\n"@),
{
    proof {
        reveal_strlit("touch: usage: touch PATH\n");
    }
    crate::bytes::bytes_of("touch: usage: touch PATH\n")
}

/// What is said where the file cannot be made; the status is one.
pub fn failed(path: &[u8]) -> (r: Vec<u8>)
    ensures
        r@ == bytes::ascii("touch: cannot create "@) + path@ + bytes::ascii("\n"@),
{
    proof {
        reveal_strlit("touch: cannot create ");
        reveal_strlit("\n");
    }
    let mut r: Vec<u8> = Vec::new();
    push_str(&mut r, "touch: cannot create ");
    append(&mut r, path);
    push_str(&mut r, "\n");
    assert(r@ =~= bytes::ascii("touch: cannot create "@) + path@ + bytes::ascii("\n"@));
    r
}

} // verus!
