//! Vertex indexing and the four directional neighbour maps.
//!
//! Board positions are `0..361` in row-major order (`index = 19*y + x`).
//! Indices `361..368` are sentinel cells that always hold the off-board
//! marker, so a neighbour lookup never needs a bounds branch: a neighbour
//! that would fall off the edge is redirected to a sentinel cell.

use vstd::prelude::*;

verus! {

/// Number of playable vertices on a 19x19 board.
pub const BOARD_CELLS: usize = 361;

/// Length of the padded vertex array: 361 playable cells plus 7 sentinels.
pub const VERTEX_SLOTS: usize = 368;

/// Index of the sentinel cell that all off-the-edge neighbour lookups hit.
pub const SENTINEL: usize = 361;

/// Marker byte for an empty vertex.
pub const EMPTY: u8 = 0;

/// Marker byte for a black stone.
pub const BLACK_STONE: u8 = 1;

/// Marker byte for a white stone.
pub const WHITE_STONE: u8 = 2;

/// Marker byte held by the sentinel cells.
pub const OFF_BOARD: u8 = 0xff;

pub open spec fn on_board(i: int) -> bool {
    0 <= i < 361
}

/// Neighbour one row up (towards higher indices); sentinel past the edge.
pub open spec fn north_of(i: int) -> int {
    if i + 19 < 361 {
        i + 19
    } else {
        361
    }
}

/// Neighbour one column right; sentinel past the edge.
pub open spec fn east_of(i: int) -> int {
    if i % 19 < 18 {
        i + 1
    } else {
        361
    }
}

/// Neighbour one row down (towards lower indices); sentinel past the edge.
pub open spec fn south_of(i: int) -> int {
    if i >= 19 {
        i - 19
    } else {
        361
    }
}

/// Neighbour one column left; sentinel past the edge.
pub open spec fn west_of(i: int) -> int {
    if i % 19 > 0 {
        i - 1
    } else {
        361
    }
}

/// `j` is one of the four cardinal neighbours of `w`.
pub open spec fn adjacent(w: int, j: int) -> bool {
    north_of(w) == j || east_of(w) == j || south_of(w) == j || west_of(w) == j
}

pub fn north(i: usize) -> (r: usize)
    requires
        i < 361,
    ensures
        r == north_of(i as int),
        r <= 361,
{
    if i + 19 < 361 {
        i + 19
    } else {
        361
    }
}

pub fn east(i: usize) -> (r: usize)
    requires
        i < 361,
    ensures
        r == east_of(i as int),
        r <= 361,
{
    if i % 19 < 18 {
        i + 1
    } else {
        361
    }
}

pub fn south(i: usize) -> (r: usize)
    requires
        i < 361,
    ensures
        r == south_of(i as int),
        r <= 361,
{
    if i >= 19 {
        i - 19
    } else {
        361
    }
}

pub fn west(i: usize) -> (r: usize)
    requires
        i < 361,
    ensures
        r == west_of(i as int),
        r <= 361,
{
    if i % 19 > 0 {
        i - 1
    } else {
        361
    }
}

/// Every neighbour map stays inside the padded array, and an on-board
/// neighbour of an on-board vertex is adjacent in both directions.
pub proof fn lemma_neighbor_range(i: int)
    requires
        on_board(i),
    ensures
        0 <= north_of(i) <= 361,
        0 <= east_of(i) <= 361,
        0 <= south_of(i) <= 361,
        0 <= west_of(i) <= 361,
{
}

/// The `dd`-th cardinal neighbour of `v`: north, east, south, west.
pub open spec fn dir_of(v: int, dd: int) -> int {
    if dd == 0 {
        north_of(v)
    } else if dd == 1 {
        east_of(v)
    } else if dd == 2 {
        south_of(v)
    } else {
        west_of(v)
    }
}

/// Cardinal adjacency is symmetric between on-board vertices.
pub proof fn lemma_adjacent_sym(w: int, j: int)
    requires
        on_board(w),
        on_board(j),
    ensures
        adjacent(w, j) <==> adjacent(j, w),
{
    assert(north_of(w) == j ==> south_of(j) == w);
    assert(south_of(w) == j ==> north_of(j) == w);
    assert(east_of(w) == j ==> west_of(j) == w) by {
        if east_of(w) == j {
            assert(w % 19 < 18);
            assert(j == w + 1);
            assert(j % 19 == w % 19 + 1) by (nonlinear_arith)
                requires
                    j == w + 1,
                    w % 19 < 18,
                    0 <= w,
            ;
        }
    }
    assert(west_of(w) == j ==> east_of(j) == w) by {
        if west_of(w) == j {
            assert(w % 19 > 0);
            assert(j == w - 1);
            assert(j % 19 == w % 19 - 1) by (nonlinear_arith)
                requires
                    j == w - 1,
                    w % 19 > 0,
                    0 <= w,
            ;
        }
    }
    assert(north_of(j) == w ==> south_of(w) == j);
    assert(south_of(j) == w ==> north_of(w) == j);
    assert(east_of(j) == w ==> west_of(w) == j) by {
        if east_of(j) == w {
            assert(j % 19 < 18);
            assert(w == j + 1);
            assert(w % 19 == j % 19 + 1) by (nonlinear_arith)
                requires
                    w == j + 1,
                    j % 19 < 18,
                    0 <= j,
            ;
        }
    }
    assert(west_of(j) == w ==> east_of(w) == j) by {
        if west_of(j) == w {
            assert(j % 19 > 0);
            assert(w == j - 1);
            assert(w % 19 == j % 19 - 1) by (nonlinear_arith)
                requires
                    w == j - 1,
                    j % 19 > 0,
                    0 <= j,
            ;
        }
    }
}

} // verus!
