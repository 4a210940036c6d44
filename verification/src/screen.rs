//! The escape sequences that full-screen programs draw with.
use crate::bytes::{self, push_str, ESC};
use crate::decimal::{self, push_number};
use vstd::prelude::*;

verus! {

/// The first number that does not fit the twelve digits of a coordinate.
pub const NUMBER_LIMIT: u64 = 1_000_000_000_000;

/// Erase the line that the cursor is on.
pub const ERASE_LINE: &'static str = "\x1b[2K";

/// Erase the whole screen.
pub const ERASE_SCREEN: &'static str = "\x1b[2J";

/// Enter the alternate screen.
pub const ENTER_SCREEN: &'static str = "\x1b[?1049h";

/// Leave the alternate screen.
pub const LEAVE_SCREEN: &'static str = "\x1b[?1049l";

/// Back to the default colours.
pub const RESET: &'static str = "\x1b[0m";

/// The sequence that moves the cursor to a row and a column counted from zero.
/// The terminal counts from one.
pub open spec fn cursor_to(row: int, col: int) -> Seq<u8> {
    seq![ESC, '[' as u8] + decimal::digits((row + 1) as nat) + seq![';' as u8] + decimal::digits(
        (col + 1) as nat,
    ) + seq!['H' as u8]
}

/// `value` in decimal. A coordinate is written in at most twelve digits.
pub fn write_number(out: &mut Vec<u8>, value: usize)
    requires
        value < NUMBER_LIMIT,
    ensures
        final(out)@ == old(out)@ + decimal::digits(value as nat),
        decimal::digits(value as nat).len() <= 12,
{
    push_number(out, value as u64);
    proof {
        reveal_with_fuel(decimal::ten_to, 13);
        decimal::decimal_length(value as nat, 12);
    }
}

/// Moves the cursor to a row and a column counted from zero.
pub fn move_cursor(out: &mut Vec<u8>, row: usize, col: usize)
    requires
        row + 1 < NUMBER_LIMIT,
        row < usize::MAX,
        col + 1 < NUMBER_LIMIT,
        col < usize::MAX,
    ensures
        final(out)@ == old(out)@ + cursor_to(row as int, col as int),
{
    out.push(ESC);
    out.push('[' as u8);
    write_number(out, row + 1);
    out.push(';' as u8);
    write_number(out, col + 1);
    out.push('H' as u8);
    assert(out@ =~= old(out)@ + cursor_to(row as int, col as int));
}

/// Erases the line that the cursor is on.
pub fn erase_line(out: &mut Vec<u8>)
    ensures
        final(out)@ == old(out)@ + bytes::ascii(ERASE_LINE@),
{
    proof {
        reveal_strlit("\x1b[2K");
    }
    push_str(out, ERASE_LINE);
}

/// Enters the alternate screen.
pub fn enter_screen(out: &mut Vec<u8>)
    ensures
        final(out)@ == old(out)@ + bytes::ascii(ENTER_SCREEN@),
{
    proof {
        reveal_strlit("\x1b[?1049h");
    }
    push_str(out, ENTER_SCREEN);
}

/// Leaves the alternate screen.
pub fn leave_screen(out: &mut Vec<u8>)
    ensures
        final(out)@ == old(out)@ + bytes::ascii(LEAVE_SCREEN@),
{
    proof {
        reveal_strlit("\x1b[?1049l");
    }
    push_str(out, LEAVE_SCREEN);
}

/// The terminal counts rows and columns from one, and the row comes first.
pub proof fn rows_and_columns_count_from_one(row: nat, col: nat)
    ensures
        cursor_to(row as int, col as int) == seq![0x1bu8, 0x5b] + decimal::digits(row + 1) + seq![
            0x3bu8,
        ] + decimal::digits(col + 1) + seq![0x48u8],
{
}

} // verus!
