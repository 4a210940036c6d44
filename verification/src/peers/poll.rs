//! `polld` and `pollc`: a server that waits for two things at once, and the
//! client that it is tried with.
use crate::bytes::{self, append, push_str};
use crate::decimal::{self, push_signed};
use crate::line::{self, line_from, SHORT};
use vstd::prelude::*;

verus! {

/// The names of what is ready, of two things, with a plus sign between them.
pub open spec fn ready_text(first: bool, second: bool, names: (Seq<u8>, Seq<u8>)) -> Seq<u8> {
    if first && second {
        names.0 + bytes::ascii("+"@) + names.1
    } else if first {
        names.0
    } else if second {
        names.1
    } else {
        bytes::ascii("none"@)
    }
}

/// What is said of a round: which of two things is ready.
pub fn report(round: i64, first: bool, second: bool, name: &[u8], other: &[u8]) -> (r: Vec<u8>)
    ensures
        r@ == line::line_of(
            bytes::ascii("polld: poll "@) + decimal::signed(round as int) + bytes::ascii(
                " ready="@,
            ) + ready_text(first, second, (name@, other@)),
            SHORT as int,
        ),
{
    proof {
        reveal_strlit("polld: poll ");
        reveal_strlit(" ready=");
        reveal_strlit("+");
        reveal_strlit("none");
    }
    let mut text: Vec<u8> = Vec::new();
    push_str(&mut text, "polld: poll ");
    push_signed(&mut text, round);
    push_str(&mut text, " ready=");
    if first {
        append(&mut text, name);
    }
    if second {
        if first {
            push_str(&mut text, "+");
        }
        append(&mut text, other);
    }
    if !first && !second {
        push_str(&mut text, "none");
    }
    assert(text@ =~= bytes::ascii("polld: poll "@) + decimal::signed(round as int) + bytes::ascii(
        " ready="@,
    ) + ready_text(first, second, (name@, other@)));
    line_from::<SHORT>(text.as_slice())
}

/// What is said of a read: how many bytes something gave.
pub fn gave_line(what: &[u8], got: i64) -> (r: Vec<u8>)
    ensures
        r@ == line::line_of(
            bytes::ascii("polld: "@) + what@ + bytes::ascii(" gave "@) + decimal::signed(
                got as int,
            ) + bytes::ascii(" byte(s)"@),
            SHORT as int,
        ),
{
    proof {
        reveal_strlit("polld: ");
        reveal_strlit(" gave ");
        reveal_strlit(" byte(s)");
    }
    let mut text: Vec<u8> = Vec::new();
    push_str(&mut text, "polld: ");
    append(&mut text, what);
    push_str(&mut text, " gave ");
    push_signed(&mut text, got);
    push_str(&mut text, " byte(s)");
    assert(text@ =~= bytes::ascii("polld: "@) + what@ + bytes::ascii(" gave "@) + decimal::signed(
        got as int,
    ) + bytes::ascii(" byte(s)"@));
    line_from::<SHORT>(text.as_slice())
}

/// What the client says as the server closes.
pub fn closed_line(got: i64) -> (r: Vec<u8>)
    ensures
        r@ == line::line_of(
            bytes::ascii("pollc: the server closed (got "@) + decimal::signed(got as int)
                + bytes::ascii(")"@),
            SHORT as int,
        ),
{
    proof {
        reveal_strlit("pollc: the server closed (got ");
        reveal_strlit(")");
    }
    let mut text: Vec<u8> = Vec::new();
    push_str(&mut text, "pollc: the server closed (got ");
    push_signed(&mut text, got);
    push_str(&mut text, ")");
    assert(text@ =~= bytes::ascii("pollc: the server closed (got "@) + decimal::signed(got as int)
        + bytes::ascii(")"@));
    line_from::<SHORT>(text.as_slice())
}

/// What is ready is named: one, the other, both with a plus sign between them, or
/// that none is.
pub proof fn what_is_ready_is_named(a: Seq<u8>, b: Seq<u8>)
    ensures
        ready_text(true, true, (a, b)) == a + bytes::ascii("+"@) + b,
        ready_text(true, false, (a, b)) == a,
        ready_text(false, true, (a, b)) == b,
        ready_text(false, false, (a, b)) == bytes::ascii("none"@),
{
}

} // verus!
