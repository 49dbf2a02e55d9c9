//! Cell coordinates and the parity-dependent partition of the plane into
//! 2x2 rule squares.
//!
//! On even steps the plane is tiled by 2x2 blocks whose top-left corner has
//! two even coordinates; on odd steps the tiling is shifted by (+1, +1).
//! Within a block whose top-left is (x0, y0) the four cells in canonical
//! order are (x0, y0), (x0+1, y0), (x0, y0+1), (x0+1, y0+1); bit k of a
//! 4-bit pattern is 1 iff the k-th cell is live.

use vstd::prelude::*;
use vstd::arithmetic::div_mod::lemma_mod_multiples_vanish;

verus! {

/// A cell of the grid, ordered lexicographically by (x, then y).
#[derive(Clone, Copy, PartialEq, Eq, Structural, Hash, Debug, PartialOrd, Ord)]
pub struct Coordinates {
    pub x: i32,
    pub y: i32,
}

/// Largest coordinate magnitude the step engine accepts. Blocks reach one
/// cell beyond a live cell and the origin computation shifts coordinates
/// into the non-negative range, so a margin below `i32` limits is forced.
pub const COORD_LIMIT: i32 = 1073741820;

/// Strict lexicographic order on coordinates, x before y.
pub open spec fn lex_lt(a: Coordinates, b: Coordinates) -> bool {
    a.x < b.x || (a.x == b.x && a.y < b.y)
}

/// Whether a coordinate value is within the magnitude `b`.
pub open spec fn val_in_bounds(v: int, b: int) -> bool {
    -b <= v <= b
}

/// Whether both coordinates are within the magnitude `b`.
pub open spec fn coord_in_bounds(c: Coordinates, b: int) -> bool {
    val_in_bounds(c.x as int, b) && val_in_bounds(c.y as int, b)
}

/// Exec comparison matching `lex_lt`.
pub fn coord_lt(a: &Coordinates, b: &Coordinates) -> (r: bool)
    ensures
        r == lex_lt(*a, *b),
{
    a.x < b.x || (a.x == b.x && a.y < b.y)
}

/// The top-left coordinate value of the block containing position `v` on
/// the axis: on even steps `v` rounded down to an even value, on odd steps
/// to an odd value.
pub open spec fn origin_val(v: int, even: bool) -> int {
    if even {
        v - (v % 2)
    } else {
        v - ((v + 1) % 2)
    }
}

/// Exec computation of `origin_val`. Shifts the coordinate into the
/// non-negative range so that the remainder is the Euclidean one.
pub fn origin_val_exec(v: i32, even: bool) -> (r: i32)
    requires
        val_in_bounds(v as int, COORD_LIMIT as int),
    ensures
        r as int == origin_val(v as int, even),
        v - 1 <= r <= v,
{
    let shifted: i32 = if even {
        v + 1073741824
    } else {
        v + 1073741825
    };
    let m: i32 = shifted % 2;
    proof {
        if even {
            lemma_mod_multiples_vanish(536870912, v as int, 2);
            assert(shifted as int == 2 * 536870912 + v);
        } else {
            lemma_mod_multiples_vanish(536870912, v as int + 1, 2);
            assert(shifted as int == 2 * 536870912 + (v + 1));
        }
    }
    v - m
}

/// The k-th cell of the block whose top-left is `o`, in canonical order:
/// bit 0 is the top-left, bit 1 the top-right, bit 2 the bottom-left,
/// bit 3 the bottom-right.
pub open spec fn block_cell(o: (int, int), k: int) -> (int, int) {
    (o.0 + if k == 1 || k == 3 { 1int } else { 0int }, o.1 + if k == 2 || k == 3 { 1int } else { 0int })
}

/// Every cell of a block is mapped back to that block's origin: the
/// tiling is a partition, so blocks with distinct origins are disjoint.
pub proof fn lemma_block_cells_origin(o: (int, int), k: int, even: bool)
    requires
        0 <= k < 4,
        origin_val(o.0, even) == o.0,
        origin_val(o.1, even) == o.1,
    ensures
        origin_val(block_cell(o, k).0, even) == o.0,
        origin_val(block_cell(o, k).1, even) == o.1,
{
}

/// A block origin is a fixed point of the origin computation.
pub proof fn lemma_origin_idempotent(v: int, even: bool)
    ensures
        origin_val(origin_val(v, even), even) == origin_val(v, even),
{
}

/// Whether a coordinate is a block origin of the given parity.
pub open spec fn aligned_coord(o: Coordinates, even: bool) -> bool {
    origin_val(o.x as int, even) == o.x as int && origin_val(o.y as int, even) == o.y as int
}

} // verus!
