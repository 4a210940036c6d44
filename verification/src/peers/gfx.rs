//! `gfxd` and `gfxc`: a program that draws a square on the screen, and one
//! that must not get the screen.
use crate::bytes::{self, push_str};
use crate::decimal::{self, push_signed};
use crate::le;
use crate::line::{self, line_from, SHORT};
use crate::peers::comp::MAGENTA;
use crate::peers::frame::{self, blit, Tile};
use crate::userlib::MINUS_EAGAIN;
use vstd::prelude::*;

verus! {

/// Where the square is.
pub const SQUARE_X: u32 = 200;

/// Where the square is.
pub const SQUARE_Y: u32 = 200;

/// The width and height of the square.
pub const SQUARE_SIZE: u32 = 160;

/// What the kernel says of the screen.
#[derive(Clone, Copy, PartialEq, Eq, Structural, Debug)]
pub struct ScreenInfo {
    pub width: u32,
    pub height: u32,
    pub bits_per_pixel: u32,
    pub line_length: u32,
    pub smem_len: u32,
}

/// What is said of the screen.
pub open spec fn info_text(info: ScreenInfo) -> Seq<u8> {
    bytes::ascii("gfxd: screen "@) + decimal::signed(info.width as int) + bytes::ascii("x"@)
        + decimal::signed(info.height as int) + bytes::ascii(" bpp "@) + decimal::signed(
        info.bits_per_pixel as int,
    ) + bytes::ascii(" line "@) + decimal::signed(info.line_length as int) + bytes::ascii(
        " size "@,
    ) + decimal::signed(info.smem_len as int)
}

/// What is said of the screen, as a line.
pub fn info_line(info: ScreenInfo) -> (r: Vec<u8>)
    ensures
        r@ == line::line_of(info_text(info), SHORT as int),
{
    proof {
        reveal_strlit("gfxd: screen ");
        reveal_strlit("x");
        reveal_strlit(" bpp ");
        reveal_strlit(" line ");
        reveal_strlit(" size ");
    }
    let mut text: Vec<u8> = Vec::new();
    push_str(&mut text, "gfxd: screen ");
    push_signed(&mut text, info.width as i64);
    push_str(&mut text, "x");
    push_signed(&mut text, info.height as i64);
    push_str(&mut text, " bpp ");
    push_signed(&mut text, info.bits_per_pixel as i64);
    push_str(&mut text, " line ");
    push_signed(&mut text, info.line_length as i64);
    push_str(&mut text, " size ");
    push_signed(&mut text, info.smem_len as i64);
    assert(text@ =~= info_text(info));
    line_from::<SHORT>(text.as_slice())
}

/// Whether the square can be drawn on the screen.
pub open spec fn suits(info: ScreenInfo) -> bool {
    info.bits_per_pixel == 32 && info.width >= SQUARE_X + SQUARE_SIZE && info.height >= SQUARE_Y
        + SQUARE_SIZE
}

/// Whether the square can be drawn on the screen.
pub fn screen_suits(info: ScreenInfo) -> (r: bool)
    ensures
        r == suits(info),
{
    info.bits_per_pixel == 32 && info.width >= SQUARE_X + SQUARE_SIZE && info.height >= SQUARE_Y
        + SQUARE_SIZE
}

/// The bytes of the pixels of the square.
pub open spec fn square_byte(off: int) -> u8 {
    if off % 2 == 0 {
        0xff
    } else {
        0
    }
}

/// Draws the square. Everything beside it stays.
pub fn draw_square(frame: &mut Vec<u8>, line_length: u32)
    requires
        4 * (SQUARE_X + SQUARE_SIZE) <= line_length,
        (SQUARE_Y + SQUARE_SIZE) * line_length <= old(frame)@.len(),
    ensures
        final(frame)@.len() == old(frame)@.len(),
        forall|at: int|
            0 <= at < old(frame)@.len() ==> #[trigger] final(frame)@[at] == (if SQUARE_Y <= at
                / (line_length as int) < SQUARE_Y + SQUARE_SIZE && 4 * SQUARE_X <= at % (
            line_length as int) < 4 * (SQUARE_X + SQUARE_SIZE) {
                square_byte(at % (line_length as int))
            } else {
                old(frame)@[at]
            }),
{
    let mut pool: Vec<u8> = Vec::new();
    let ghost before = frame@;
    let mut done: usize = 0;
    while done < 102400
        invariant
            done <= 102400,
            pool@.len() == done,
            done % 2 == 0,
            forall|i: int| 0 <= i < done ==> #[trigger] pool@[i] == square_byte(i),
        decreases 102400 - done,
    {
        pool.push((MAGENTA % 256) as u8);
        pool.push((MAGENTA / 256 % 256) as u8);
        done += 2;
    }
    let tile = Tile { width: SQUARE_SIZE, height: SQUARE_SIZE, x: SQUARE_X, y: SQUARE_Y };
    blit(frame, line_length, pool.as_slice(), tile);
    proof {
        let line = line_length as int;
        assert forall|at: int| 0 <= at < before.len() implies #[trigger] frame@[at] == (
        if SQUARE_Y <= at / line < SQUARE_Y + SQUARE_SIZE && 4 * SQUARE_X <= at % line < 4 * (
        SQUARE_X + SQUARE_SIZE) {
            square_byte(at % line)
        } else {
            before[at]
        }) by {
            let row = at / line - tile.y;
            let off = at % line - 4 * tile.x;
            assert(frame@[at] == frame::composed(before, line, pool@, tile, 160, at));
            if 0 <= row < 160 && 0 <= off < 640 {
                let index = row * 640 + off;
                assert(pool@[index] == square_byte(index));
                assert(square_byte(index) == square_byte(at % line));
            }
        }
    }
}

/// The bytes of the square are those of its colour.
pub proof fn square_has_its_colour(off: int)
    requires
        0 <= off,
    ensures
        seq![
            square_byte(4 * off),
            square_byte(4 * off + 1),
            square_byte(4 * off + 2),
            square_byte(4 * off + 3),
        ] == le::spelled(MAGENTA as nat, 4),
{
    reveal_with_fuel(le::spelled, 5);
    assert(seq![
        square_byte(4 * off),
        square_byte(4 * off + 1),
        square_byte(4 * off + 2),
        square_byte(4 * off + 3),
    ] =~= le::spelled(MAGENTA as nat, 4));
}

/// What comes after a read of the keyboard.
#[derive(Clone, Copy, PartialEq, Eq, Structural, Debug)]
pub enum Next {
    Again,
    Fail,
    Leave,
}

/// What comes after a read of the keyboard: anything ends the program.
pub fn after_read(got: i64) -> (r: Next)
    ensures
        r == (if got > 0 {
            Next::Leave
        } else if got == 0 || got == MINUS_EAGAIN {
            Next::Again
        } else {
            Next::Fail
        }),
{
    if got == MINUS_EAGAIN {
        return Next::Again;
    }
    if got < 0 {
        return Next::Fail;
    }
    if got > 0 {
        Next::Leave
    } else {
        Next::Again
    }
}

/// The status of the program that must get neither the screen nor the keyboard.
pub fn intruder_status(screen: i64, input: i64) -> (r: u64)
    ensures
        r == (if screen >= 0 || input >= 0 {
            1u64
        } else {
            0u64
        }),
{
    if screen >= 0 || input >= 0 {
        1
    } else {
        0
    }
}

/// The square is drawn only on a screen of 32 bits for a pixel that has room for
/// it.
pub proof fn the_square_needs_its_room(info: ScreenInfo)
    ensures
        suits(info) <==> info.bits_per_pixel == 32 && info.width >= 360 && info.height >= 360,
{
}

/// Every pixel of the square is magenta: red and blue in full, and no green.
pub proof fn the_square_is_magenta(off: int)
    requires
        0 <= off,
    ensures
        square_byte(4 * off) == 0xff,
        square_byte(4 * off + 1) == 0,
        square_byte(4 * off + 2) == 0xff,
        square_byte(4 * off + 3) == 0,
{
}

/// What is said of the screen is its size, its pixels, its rows and its memory.
pub proof fn the_screen_is_told(info: ScreenInfo)
    ensures
        info_text(info) == bytes::ascii("gfxd: screen "@) + decimal::digits(info.width as nat)
            + bytes::ascii("x"@) + decimal::digits(info.height as nat) + bytes::ascii(" bpp "@)
            + decimal::digits(info.bits_per_pixel as nat) + bytes::ascii(" line "@)
            + decimal::digits(info.line_length as nat) + bytes::ascii(" size "@)
            + decimal::digits(info.smem_len as nat),
{
}

} // verus!
