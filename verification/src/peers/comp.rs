//! `compd` and `compc`: a server that puts the pictures of its clients on the
//! screen, and a client that sends it one.
use crate::bytes::{self, push_str};
use crate::decimal::{self, push_signed};
use crate::le;
use crate::line::{self, line_from, SHORT};
use crate::peers::frame::Tile;
use crate::userlib::MINUS_EAGAIN;
use vstd::prelude::*;

verus! {

/// Bytes of the header that a client sends before its picture.
pub const HEADER_LEN: usize = 16;

/// The most bytes of a picture.
pub const POOL_MAX: u32 = 32768;

/// The width and height of the client's picture.
pub const SIZE: u32 = 64;

/// Where the client's picture goes.
pub const AT_X: u32 = 400;

/// Where the client's picture goes.
pub const AT_Y: u32 = 300;

/// The colours of the client's picture.
pub const MAGENTA: u32 = 0x00ff_00ff;

pub const GREEN: u32 = 0x0000_ff00;

pub const WHITE: u32 = 0x00ff_ffff;

pub const GRAY: u32 = 0x0080_8080;

/// The colour of a pixel of the client's picture: each quarter has its own.
pub open spec fn color_at(x: int, y: int) -> u32 {
    if x < 32 {
        if y < 32 {
            MAGENTA
        } else {
            WHITE
        }
    } else if y < 32 {
        GREEN
    } else {
        GRAY
    }
}

/// The colour of a pixel of the client's picture.
pub fn color(x: u32, y: u32) -> (r: u32)
    ensures
        r == color_at(x as int, y as int),
{
    let left = x < SIZE / 2;
    let upper = y < SIZE / 2;
    match (left, upper) {
        (true, true) => MAGENTA,
        (false, true) => GREEN,
        (true, false) => WHITE,
        (false, false) => GRAY,
    }
}

/// Whether memory holds the first `count` pixels of the client's picture.
pub open spec fn painted(pixels: Seq<u8>, count: int) -> bool {
    forall|i: int|
        0 <= i < count ==> #[trigger] pixels.subrange(4 * i, 4 * i + 4) == le::spelled(
            color_at(i % 64, i / 64) as nat,
            4,
        )
}

/// The client's picture: row by row, four bytes for each pixel.
pub fn paint() -> (r: Vec<u8>)
    ensures
        r@.len() == 16384,
        painted(r@, 4096),
{
    let mut r: Vec<u8> = Vec::new();
    crate::bytes::push_repeated(&mut r, 0, 16384);
    assert(r@.len() == 16384);
    let mut index: u32 = 0;
    while index < 4096
        invariant
            index <= 4096,
            r@.len() == 16384,
            painted(r@, index as int),
        decreases 4096 - index,
    {
        let value: u32 = color(index % SIZE, index / SIZE);
        let ghost before = r@;
        let at: usize = 4 * (index as usize);
        le::write(&mut r, at, value as u64, 4);
        proof {
            let part = le::spelled(value as nat, 4);
            le::lemma_spelled_len(value as nat, 4);
            assert forall|i: int| 0 <= i < index + 1 implies #[trigger] r@.subrange(
                4 * i,
                4 * i + 4,
            ) == le::spelled(color_at(i % 64, i / 64) as nat, 4) by {
                if i < index {
                    assert(r@.subrange(4 * i, 4 * i + 4) =~= before.subrange(4 * i, 4 * i + 4));
                } else {
                    assert(r@.subrange(4 * i, 4 * i + 4) =~= part);
                }
            }
        }
        index += 1;
    }
    r
}

/// The header of a picture: its width and height, and where it goes.
pub open spec fn header_of(tile: Tile) -> Seq<u8> {
    le::spelled(tile.width as nat, 4) + le::spelled(tile.height as nat, 4) + le::spelled(
        tile.x as nat,
        4,
    ) + le::spelled(tile.y as nat, 4)
}

/// The header of a picture.
pub fn header(tile: Tile) -> (r: Vec<u8>)
    ensures
        r@ == header_of(tile),
        r@.len() == HEADER_LEN,
{
    let mut r: Vec<u8> = Vec::new();
    crate::bytes::push_repeated(&mut r, 0, HEADER_LEN);
    le::write(&mut r, 0, tile.width as u64, 4);
    le::write(&mut r, 4, tile.height as u64, 4);
    le::write(&mut r, 8, tile.x as u64, 4);
    le::write(&mut r, 12, tile.y as u64, 4);
    proof {
        le::lemma_spelled_len(tile.width as nat, 4);
        le::lemma_spelled_len(tile.height as nat, 4);
        le::lemma_spelled_len(tile.x as nat, 4);
        le::lemma_spelled_len(tile.y as nat, 4);
    }
    assert(r@ =~= header_of(tile));
    r
}

/// The picture that a header tells of.
pub open spec fn tile_in(header: Seq<u8>) -> Tile {
    Tile {
        width: le::field(header, 0, 4) as u32,
        height: le::field(header, 4, 4) as u32,
        x: le::field(header, 8, 4) as u32,
        y: le::field(header, 12, 4) as u32,
    }
}

/// A number of 32 bits.
pub fn le_u32(bytes: &[u8], at: usize) -> (r: u32)
    requires
        at + 4 <= bytes@.len(),
    ensures
        r == le::field(bytes@, at as int, 4),
{
    proof {
        le::lemma_limits();
    }
    le::read(bytes, at, 4) as u32
}

/// The picture that a header tells of.
pub fn tile_of(header: &[u8]) -> (r: Tile)
    requires
        header@.len() == HEADER_LEN,
    ensures
        r == tile_in(header@),
{
    Tile {
        width: le_u32(header, 0),
        height: le_u32(header, 4),
        x: le_u32(header, 8),
        y: le_u32(header, 12),
    }
}

/// A header tells of the picture that it was made for.
pub proof fn header_reads_back(tile: Tile)
    ensures
        tile_in(header_of(tile)) == tile,
{
    le::lemma_limits();
    le::number_reads_back(tile.width as nat, 4);
    le::number_reads_back(tile.height as nat, 4);
    le::number_reads_back(tile.x as nat, 4);
    le::number_reads_back(tile.y as nat, 4);
    let header = header_of(tile);
    assert(header.subrange(0, 4) =~= le::spelled(tile.width as nat, 4));
    assert(header.subrange(4, 8) =~= le::spelled(tile.height as nat, 4));
    assert(header.subrange(8, 12) =~= le::spelled(tile.x as nat, 4));
    assert(header.subrange(12, 16) =~= le::spelled(tile.y as nat, 4));
}

/// Whether a picture is one that the server takes: a whole header, memory with
/// it, not empty, not too large, and on the screen.
pub open spec fn proper(tile: Tile, got: i64, pool_fd: u32, width: int, height: int) -> bool {
    &&& got == HEADER_LEN
    &&& pool_fd != 0
    &&& 0 < 4 * (tile.width * tile.height) <= POOL_MAX
    &&& tile.x + tile.width <= width
    &&& tile.y + tile.height <= height
}

/// The bytes of a picture, where the server takes it.
pub fn check_tile(tile: Tile, got: i64, pool_fd: u32, width: u32, height: u32) -> (r: Option<u32>)
    ensures
        r is Some <==> proper(tile, got, pool_fd, width as int, height as int),
        r matches Some(bytes) ==> bytes == 4 * (tile.width * tile.height),
{
    if got != HEADER_LEN as i64 || pool_fd == 0 {
        return None;
    }
    if tile.x as u64 + tile.width as u64 > width as u64 || tile.y as u64 + tile.height as u64
        > height as u64 {
        return None;
    }
    proof {
        assert(tile.width * tile.height <= 0xffff_ffff * 0xffff_ffff) by (nonlinear_arith)
            requires
                tile.width <= 0xffff_ffff,
                tile.height <= 0xffff_ffff,
        ;
        assert(tile.width * tile.height >= 0) by (nonlinear_arith);
    }
    let pixels: u64 = tile.width as u64 * tile.height as u64;
    if pixels == 0 || pixels > POOL_MAX as u64 / 4 {
        return None;
    }
    Some(pixels as u32 * 4)
}

/// The client's picture is one that the server takes, on a screen that has room
/// for it.
pub proof fn client_picture_is_taken(pool_fd: u32, width: int, height: int)
    requires
        pool_fd != 0,
        width >= AT_X + SIZE,
        height >= AT_Y + SIZE,
    ensures
        ({
            let tile = Tile { width: SIZE, height: SIZE, x: AT_X, y: AT_Y };
            proper(tile_in(header_of(tile)), HEADER_LEN as i64, pool_fd, width, height)
        }),
{
    header_reads_back(Tile { width: SIZE, height: SIZE, x: AT_X, y: AT_Y });
}

/// The corners of a picture, as the kernel takes them: in 16 bits each.
pub fn corners(tile: Tile) -> (r: (u16, u16, u16, u16))
    requires
        tile.x + tile.width <= u32::MAX,
        tile.y + tile.height <= u32::MAX,
    ensures
        r.0 == tile.x as int % 0x1_0000,
        r.1 == tile.y as int % 0x1_0000,
        r.2 == (tile.x + tile.width) % 0x1_0000,
        r.3 == (tile.y + tile.height) % 0x1_0000,
{
    (
        (tile.x % 0x1_0000) as u16,
        (tile.y % 0x1_0000) as u16,
        ((tile.x + tile.width) % 0x1_0000) as u16,
        ((tile.y + tile.height) % 0x1_0000) as u16,
    )
}

/// What is said of a picture that is on the screen.
pub fn composited_line(tile: Tile, presented: i64) -> (r: Vec<u8>)
    ensures
        r@ == line::line_of(
            bytes::ascii("compd: composited "@) + decimal::signed(tile.width as int)
                + bytes::ascii("x"@) + decimal::signed(tile.height as int) + bytes::ascii(" at "@)
                + decimal::signed(tile.x as int) + bytes::ascii(","@) + decimal::signed(
                tile.y as int,
            ) + bytes::ascii(" present="@) + decimal::signed(presented as int),
            SHORT as int,
        ),
{
    proof {
        reveal_strlit("compd: composited ");
        reveal_strlit("x");
        reveal_strlit(" at ");
        reveal_strlit(",");
        reveal_strlit(" present=");
    }
    let mut text: Vec<u8> = Vec::new();
    push_str(&mut text, "compd: composited ");
    push_signed(&mut text, tile.width as i64);
    push_str(&mut text, "x");
    push_signed(&mut text, tile.height as i64);
    push_str(&mut text, " at ");
    push_signed(&mut text, tile.x as i64);
    push_str(&mut text, ",");
    push_signed(&mut text, tile.y as i64);
    push_str(&mut text, " present=");
    push_signed(&mut text, presented);
    assert(text@ =~= bytes::ascii("compd: composited "@) + decimal::signed(tile.width as int)
        + bytes::ascii("x"@) + decimal::signed(tile.height as int) + bytes::ascii(" at "@)
        + decimal::signed(tile.x as int) + bytes::ascii(","@) + decimal::signed(tile.y as int)
        + bytes::ascii(" present="@) + decimal::signed(presented as int));
    line_from::<SHORT>(text.as_slice())
}

/// What is ready: the keyboard, the listener, and the client where there is
/// one.
#[derive(Clone, Copy, PartialEq, Eq, Structural, Debug)]
pub struct Ready {
    pub input: bool,
    pub listener: bool,
    pub client: bool,
}

/// The names of what is ready, with a plus sign between them.
pub open spec fn ready_names(ready: Ready) -> Seq<u8> {
    let plus = bytes::ascii("+"@);
    let none = Seq::<u8>::empty();
    (if ready.input {
        bytes::ascii("input"@)
    } else {
        none
    }) + (if ready.input && ready.listener {
        plus
    } else {
        none
    }) + (if ready.listener {
        bytes::ascii("listener"@)
    } else {
        none
    }) + (if (ready.input || ready.listener) && ready.client {
        plus
    } else {
        none
    }) + (if ready.client {
        bytes::ascii("client"@)
    } else {
        none
    })
}

/// What is said of what is ready.
pub fn ready_line(ready: Ready) -> (r: Vec<u8>)
    ensures
        r@ == line::line_of(
            bytes::ascii("compd: poll ready="@) + ready_names(ready),
            SHORT as int,
        ),
{
    proof {
        reveal_strlit("compd: poll ready=");
        reveal_strlit("+");
        reveal_strlit("input");
        reveal_strlit("listener");
        reveal_strlit("client");
    }
    let mut text: Vec<u8> = Vec::new();
    push_str(&mut text, "compd: poll ready=");
    if ready.input {
        push_str(&mut text, "input");
    }
    if ready.listener {
        if ready.input {
            push_str(&mut text, "+");
        }
        push_str(&mut text, "listener");
    }
    if ready.client {
        if ready.input || ready.listener {
            push_str(&mut text, "+");
        }
        push_str(&mut text, "client");
    }
    assert(text@ =~= bytes::ascii("compd: poll ready="@) + ready_names(ready));
    line_from::<SHORT>(text.as_slice())
}

/// What the server does in one round, in this order.
#[derive(Clone, Copy, PartialEq, Eq, Structural, Debug)]
pub struct Round {
    /// A client is let in.
    pub accept: bool,
    /// The client's message is received.
    pub receive: bool,
    /// The keyboard is read.
    pub keys: bool,
}

/// What the server does in one round. One client is served at a time, and one
/// that was just let in is heard in the next round.
pub fn round(has_client: bool, ready: Ready) -> (r: Round)
    ensures
        r.accept == (ready.listener && !has_client),
        r.receive == (ready.client && has_client),
        r.keys == ready.input,
{
    Round {
        accept: ready.listener && !has_client,
        receive: has_client && ready.client,
        keys: ready.input,
    }
}

/// What the answer of a poll means: nothing where it is asked again.
pub fn poll_until(ready: i64) -> (r: Option<i64>)
    ensures
        r == (if ready == 0 || ready == MINUS_EAGAIN {
            None
        } else {
            Some(ready)
        }),
{
    if ready > 0 || (ready < 0 && ready != MINUS_EAGAIN) {
        Some(ready)
    } else {
        None
    }
}

/// Whether the client was told that its picture is on the screen.
pub fn reply_is_ok(got: i64, reply: &[u8]) -> (r: bool)
    requires
        reply@.len() >= 2,
    ensures
        r == (got == 2 && reply@.take(2) == bytes::ascii("ok"@)),
{
    proof {
        reveal_strlit("ok");
    }
    let head = &reply[0..2];
    assert(head@ =~= reply@.take(2));
    got == 2 && crate::bytes::spells(head, "ok")
}

/// Each quarter of the client's picture has its own colour.
pub proof fn every_quarter_has_its_colour(x: int, y: int)
    requires
        0 <= x < 64,
        0 <= y < 64,
    ensures
        x < 32 && y < 32 ==> color_at(x, y) == 0x00ff_00ff,
        x >= 32 && y < 32 ==> color_at(x, y) == 0x0000_ff00,
        x < 32 && y >= 32 ==> color_at(x, y) == 0x00ff_ffff,
        x >= 32 && y >= 32 ==> color_at(x, y) == 0x0080_8080,
{
}

/// A pixel of the client's picture stands in its row and column, with the low byte
/// of its colour first.
pub proof fn pixels_stand_in_their_rows(pixels: Seq<u8>, x: int, y: int)
    requires
        pixels.len() == 16384,
        painted(pixels, 4096),
        0 <= x < 64,
        0 <= y < 64,
    ensures
        le::field(pixels, 4 * (64 * y + x), 4) == color_at(x, y),
{
    let i = 64 * y + x;
    assert(i % 64 == x && i / 64 == y);
    assert(pixels.subrange(4 * i, 4 * i + 4) == le::spelled(color_at(x, y) as nat, 4));
    le::lemma_limits();
    le::number_reads_back(color_at(x, y) as nat, 4);
}

/// The header has the width, the height, the column and the row, in this order.
pub proof fn the_header_is_in_order(tile: Tile)
    ensures
        header_of(tile).len() == 16,
        le::field(header_of(tile), 0, 4) == tile.width,
        le::field(header_of(tile), 4, 4) == tile.height,
        le::field(header_of(tile), 8, 4) == tile.x,
        le::field(header_of(tile), 12, 4) == tile.y,
{
    le::lemma_limits();
    le::number_reads_back(tile.width as nat, 4);
    le::number_reads_back(tile.height as nat, 4);
    le::number_reads_back(tile.x as nat, 4);
    le::number_reads_back(tile.y as nat, 4);
    let header = header_of(tile);
    assert(header.subrange(0, 4) =~= le::spelled(tile.width as nat, 4));
    assert(header.subrange(4, 8) =~= le::spelled(tile.height as nat, 4));
    assert(header.subrange(8, 12) =~= le::spelled(tile.x as nat, 4));
    assert(header.subrange(12, 16) =~= le::spelled(tile.y as nat, 4));
}

/// A picture that is taken is not empty, fits the memory for pictures, and lies on
/// the screen with all of it; and every such picture is taken.
pub proof fn pictures_on_the_screen_are_taken(
    tile: Tile,
    got: i64,
    pool_fd: u32,
    width: int,
    height: int,
)
    ensures
        proper(tile, got, pool_fd, width, height) <==> got == 16 && pool_fd != 0 && tile.width > 0
            && tile.height > 0 && tile.width * tile.height <= 8192 && tile.x + tile.width <= width
            && tile.y + tile.height <= height,
{
    assert(tile.width * tile.height > 0 <==> tile.width > 0 && tile.height > 0)
        by (nonlinear_arith)
        requires
            tile.width >= 0,
            tile.height >= 0,
    ;
}

/// What is ready is named, in a fixed order, with a plus sign between two names.
pub proof fn what_is_ready_is_named(ready: Ready)
    ensures
        ({
            let input = bytes::ascii("input"@);
            let listener = bytes::ascii("listener"@);
            let client = bytes::ascii("client"@);
            let plus = bytes::ascii("+"@);
            ready_names(ready) == match (ready.input, ready.listener, ready.client) {
                (true, true, true) => input + plus + listener + plus + client,
                (true, true, false) => input + plus + listener,
                (true, false, true) => input + plus + client,
                (true, false, false) => input,
                (false, true, true) => listener + plus + client,
                (false, true, false) => listener,
                (false, false, true) => client,
                (false, false, false) => Seq::empty(),
            }
        }),
{
    let input = bytes::ascii("input"@);
    let listener = bytes::ascii("listener"@);
    let client = bytes::ascii("client"@);
    let plus = bytes::ascii("+"@);
    let want = match (ready.input, ready.listener, ready.client) {
        (true, true, true) => input + plus + listener + plus + client,
        (true, true, false) => input + plus + listener,
        (true, false, true) => input + plus + client,
        (true, false, false) => input,
        (false, true, true) => listener + plus + client,
        (false, true, false) => listener,
        (false, false, true) => client,
        (false, false, false) => Seq::empty(),
    };
    assert(ready_names(ready) =~= want);
}

} // verus!
