//! The memory of the screen, and a rectangle of pixels put into it.
use crate::startup::put;
use vstd::prelude::*;

verus! {

/// A rectangle of pixels on the screen. A pixel has four bytes.
#[derive(Clone, Copy, PartialEq, Eq, Structural, Debug)]
pub struct Tile {
    pub width: u32,
    pub height: u32,
    pub x: u32,
    pub y: u32,
}

/// The byte of the screen at `at` when the first `rows` rows of the rectangle
/// have been put there: one of the rectangle's where it covers the place, else
/// what was there.
pub open spec fn composed(
    frame: Seq<u8>,
    line_length: int,
    pool: Seq<u8>,
    tile: Tile,
    rows: int,
    at: int,
) -> u8 {
    let row = at / line_length - tile.y;
    let off = at % line_length - 4 * tile.x;
    if 0 <= row < rows && 0 <= off < 4 * tile.width {
        pool[row * (4 * tile.width) + off]
    } else {
        frame[at]
    }
}

/// Which bytes of the screen one row of the rectangle covers.
proof fn lemma_row(line_length: int, tile: Tile, row: int, at: int)
    requires
        0 <= row < tile.height,
        0 <= at,
        4 * (tile.x + tile.width) <= line_length,
        0 < line_length,
    ensures
        ({
            let begin = (tile.y + row) * line_length + 4 * tile.x;
            let covered = at / line_length == tile.y + row && 4 * tile.x <= at % line_length < 4 * (
            tile.x + tile.width);
            &&& covered <==> begin <= at < begin + 4 * tile.width
            &&& covered ==> at - begin == at % line_length - 4 * tile.x
        }),
{
    let q = at / line_length;
    let r = at % line_length;
    let want = tile.y + row;
    vstd::arithmetic::div_mod::lemma_fundamental_div_mod(at, line_length);
    assert(at == q * line_length + r) by (nonlinear_arith)
        requires
            at == line_length * q + r,
    ;
    assert(0 <= r < line_length);
    if q < want {
        assert((q + 1) * line_length <= want * line_length) by (nonlinear_arith)
            requires
                q + 1 <= want,
                0 < line_length,
        ;
        assert((q + 1) * line_length == q * line_length + line_length) by (nonlinear_arith);
    } else if q > want {
        assert((want + 1) * line_length <= q * line_length) by (nonlinear_arith)
            requires
                want + 1 <= q,
                0 < line_length,
        ;
        assert((want + 1) * line_length == want * line_length + line_length) by (nonlinear_arith);
    }
}

/// Puts a rectangle of pixels into the memory of the screen, row by row.
/// Everything beside it stays.
pub fn blit(frame: &mut Vec<u8>, line_length: u32, pool: &[u8], tile: Tile)
    requires
        0 < line_length,
        4 * (tile.x + tile.width) <= line_length,
        (tile.y + tile.height) * line_length <= old(frame)@.len(),
        4 * tile.width * tile.height <= pool@.len(),
    ensures
        final(frame)@.len() == old(frame)@.len(),
        forall|at: int|
            0 <= at < old(frame)@.len() ==> #[trigger] final(frame)@[at] == composed(
                old(frame)@,
                line_length as int,
                pool@,
                tile,
                tile.height as int,
                at,
            ),
{
    let total: usize = frame.len();
    let length: usize = pool.len();
    let ghost before = frame@;
    let mut row: u32 = 0;
    while row < tile.height
        invariant
            row <= tile.height,
            0 < line_length,
            4 * (tile.x + tile.width) <= line_length,
            (tile.y + tile.height) * line_length <= total,
            4 * tile.width * tile.height <= length,
            total == before.len(),
            length == pool@.len(),
            frame@.len() == total,
            forall|at: int|
                0 <= at < total ==> #[trigger] frame@[at] == composed(
                    before,
                    line_length as int,
                    pool@,
                    tile,
                    row as int,
                    at,
                ),
        decreases tile.height - row,
    {
        proof {
            assert(((tile.y + row) as int + 1) * line_length <= (tile.y + tile.height)
                * line_length) by (nonlinear_arith)
                requires
                    row + 1 <= tile.height,
                    0 < line_length,
            ;
            assert(((tile.y + row) as int + 1) * line_length == (tile.y + row) * line_length
                + line_length) by (nonlinear_arith);
            assert((row + 1) * (4 * tile.width) <= 4 * tile.width * tile.height)
                by (nonlinear_arith)
                requires
                    row + 1 <= tile.height,
            ;
            assert((row + 1) * (4 * tile.width) == row * (4 * tile.width) + 4 * tile.width)
                by (nonlinear_arith);
            assert((tile.y + row) * line_length >= 0) by (nonlinear_arith)
                requires
                    tile.y + row >= 0,
                    line_length > 0,
            ;
            assert(row * (4 * tile.width) >= 0) by (nonlinear_arith);
            assert(tile.y + row <= (tile.y + row) * line_length) by (nonlinear_arith)
                requires
                    tile.y + row >= 0,
                    line_length > 0,
            ;
        }
        let wide: usize = 4 * (tile.width as usize);
        let begin: usize = (tile.y as usize + row as usize) * (line_length as usize) + 4 * (
        tile.x as usize);
        let from: usize = row as usize * wide;
        let ghost held = frame@;
        put(frame, begin, &pool[from..from + wide]);
        proof {
            assert forall|at: int| 0 <= at < total implies #[trigger] frame@[at] == composed(
                before,
                line_length as int,
                pool@,
                tile,
                row + 1,
                at,
            ) by {
                lemma_row(line_length as int, tile, row as int, at);
                assert(held[at] == composed(
                    before,
                    line_length as int,
                    pool@,
                    tile,
                    row as int,
                    at,
                ));
                if begin <= at < begin + wide {
                    assert(frame@[at] == pool@[from + (at - begin)]);
                }
            }
        }
        row += 1;
    }
}

/// A part of the screen that the rectangle does not reach stays as it is.
pub proof fn outside_stays(frame: Seq<u8>, line_length: int, pool: Seq<u8>, tile: Tile, at: int)
    requires
        0 <= at < frame.len(),
        0 < line_length,
        at / line_length < tile.y || at / line_length >= tile.y + tile.height || at % line_length
            < 4 * tile.x || at % line_length >= 4 * (tile.x + tile.width),
    ensures
        composed(frame, line_length, pool, tile, tile.height as int, at) == frame[at],
{
}

/// A pixel of the rectangle goes where the rectangle goes: as far to the right and
/// down from its corner as it was in the rectangle.
pub proof fn pixels_go_where_the_rectangle_goes(
    frame: Seq<u8>,
    line_length: int,
    pool: Seq<u8>,
    tile: Tile,
    x: int,
    y: int,
    byte: int,
)
    requires
        0 <= x < tile.width,
        0 <= y < tile.height,
        0 <= byte < 4,
        4 * (tile.x + tile.width) <= line_length,
    ensures
        composed(
            frame,
            line_length,
            pool,
            tile,
            tile.height as int,
            (tile.y + y) * line_length + 4 * (tile.x + x) + byte,
        ) == pool[4 * (y * tile.width + x) + byte],
{
    let off = 4 * (tile.x + x) + byte;
    let at = (tile.y + y) * line_length + off;
    vstd::arithmetic::div_mod::lemma_fundamental_div_mod_converse(
        at,
        line_length,
        tile.y + y,
        off,
    );
    assert(y * (4 * tile.width) == 4 * (y * tile.width)) by (nonlinear_arith);
}

} // verus!
