//! Geometry of a row-major grid: positions, indexes and neighbourhoods.

use crate::settings::{direction, get_direction, DIRECTION_COUNT};
use vstd::arithmetic::div_mod::{lemma_fundamental_div_mod, lemma_fundamental_div_mod_converse};
use vstd::prelude::*;

verus! {

/// Index of the cell in column `x` of row `y`.
pub open spec fn cell_index(width: nat, x: int, y: int) -> int {
    y * width + x
}

/// Column of the cell at `index`.
pub open spec fn cell_x(width: nat, index: int) -> int {
    index % (width as int)
}

/// Row of the cell at `index`.
pub open spec fn cell_y(width: nat, index: int) -> int {
    index / (width as int)
}

/// The position `(x, y)` lies on a grid of the given size.
pub open spec fn in_grid(width: nat, height: nat, x: int, y: int) -> bool {
    0 <= x < width && 0 <= y < height
}

/// Cells `a` and `b` are distinct cells of the grid that touch by an edge or
/// by a corner.
pub open spec fn adjacent(width: nat, height: nat, a: int, b: int) -> bool {
    &&& 0 <= a < width * height
    &&& 0 <= b < width * height
    &&& a != b
    &&& -1 <= cell_x(width, b) - cell_x(width, a) <= 1
    &&& -1 <= cell_y(width, b) - cell_y(width, a) <= 1
}

/// The cell one step from `index` in the `k`-th direction, if the grid has
/// one there.
pub open spec fn neighbor_toward(width: nat, height: nat, index: int, k: int) -> Option<int> {
    let x = cell_x(width, index) + direction(k).0;
    let y = cell_y(width, index) + direction(k).1;
    if in_grid(width, height, x, y) {
        Some(cell_index(width, x, y))
    } else {
        None
    }
}

/// The neighbours of `index` in the first `k` directions, in the order of
/// the directions.
pub open spec fn neighbors_toward(width: nat, height: nat, index: int, k: int) -> Seq<int>
    decreases k,
{
    if k <= 0 {
        Seq::empty()
    } else {
        let before = neighbors_toward(width, height, index, k - 1);
        match neighbor_toward(width, height, index, k - 1) {
            Some(j) => before.push(j),
            None => before,
        }
    }
}

/// All neighbours of `index`, in the order of the directions.
pub open spec fn neighbors(width: nat, height: nat, index: int) -> Seq<int> {
    neighbors_toward(width, height, index, DIRECTION_COUNT as int)
}

/// A position on the grid has an index below the number of cells, and the
/// index gives the position back.
pub proof fn lemma_cell_index(width: nat, height: nat, x: int, y: int)
    requires
        in_grid(width, height, x, y),
    ensures
        0 <= cell_index(width, x, y) < width * height,
        cell_x(width, cell_index(width, x, y)) == x,
        cell_y(width, cell_index(width, x, y)) == y,
{
    let w = width as int;
    let h = height as int;
    assert(0 <= y * w + x < w * h) by (nonlinear_arith)
        requires
            0 <= x < w,
            0 <= y < h,
    ;
    lemma_fundamental_div_mod_converse(y * w + x, w, y, x);
}

/// An index below the number of cells names a position on the grid, and the
/// position gives the index back.
pub proof fn lemma_cell_loc(width: nat, height: nat, index: int)
    requires
        0 <= index < width * height,
    ensures
        in_grid(width, height, cell_x(width, index), cell_y(width, index)),
        cell_index(width, cell_x(width, index), cell_y(width, index)) == index,
{
    let w = width as int;
    let h = height as int;
    assert(w > 0) by (nonlinear_arith)
        requires
            0 <= index < w * h,
            w >= 0,
    ;
    lemma_fundamental_div_mod(index, w);
    let q = index / w;
    let r = index % w;
    assert(0 <= r < w);
    assert(0 <= q < h) by (nonlinear_arith)
        requires
            index == w * q + r,
            0 <= r < w,
            0 <= index < w * h,
    ;
    assert(q * w + r == index) by (nonlinear_arith)
        requires
            index == w * q + r,
    ;
}

/// What a step in one direction leads to is a cell of the grid that touches
/// the starting cell, displaced by exactly that direction.
pub proof fn lemma_neighbor_toward(width: nat, height: nat, index: int, k: int)
    requires
        0 <= index < width * height,
        0 <= k < DIRECTION_COUNT,
        neighbor_toward(width, height, index, k).is_some(),
    ensures
        adjacent(width, height, index, neighbor_toward(width, height, index, k).unwrap()),
        cell_x(width, neighbor_toward(width, height, index, k).unwrap()) == cell_x(width, index)
            + direction(k).0,
        cell_y(width, neighbor_toward(width, height, index, k).unwrap()) == cell_y(width, index)
            + direction(k).1,
{
    let x = cell_x(width, index) + direction(k).0;
    let y = cell_y(width, index) + direction(k).1;
    lemma_cell_index(width, height, x, y);
    lemma_cell_loc(width, height, index);
}

/// Every cell that touches `a` is one step from it in some direction.
pub proof fn lemma_adjacent_toward(width: nat, height: nat, a: int, b: int) -> (k: int)
    requires
        adjacent(width, height, a, b),
    ensures
        0 <= k < DIRECTION_COUNT,
        neighbor_toward(width, height, a, k) == Some(b),
{
    lemma_cell_loc(width, height, a);
    lemma_cell_loc(width, height, b);
    let dx = cell_x(width, b) - cell_x(width, a);
    let dy = cell_y(width, b) - cell_y(width, a);
    let k: int = if dx == 1 {
        if dy == 1 {
            0
        } else if dy == 0 {
            1
        } else {
            2
        }
    } else if dx == -1 {
        if dy == 1 {
            3
        } else if dy == 0 {
            4
        } else {
            5
        }
    } else {
        if dy == 1 {
            6
        } else {
            7
        }
    };
    assert(direction(k) == (dx, dy));
    k
}

/// The neighbours in the first `k` directions are exactly the cells that a
/// step in one of these directions leads to, each listed once.
pub proof fn lemma_neighbors_toward(width: nat, height: nat, index: int, k: int)
    requires
        0 <= index < width * height,
        0 <= k <= DIRECTION_COUNT,
    ensures
        neighbors_toward(width, height, index, k).len() <= k,
        neighbors_toward(width, height, index, k).no_duplicates(),
        forall|j: int|
            neighbors_toward(width, height, index, k).contains(j) <==> exists|d: int|
                0 <= d < k && #[trigger] neighbor_toward(width, height, index, d) == Some(j),
    decreases k,
{
    if k > 0 {
        lemma_neighbors_toward(width, height, index, k - 1);
        let before = neighbors_toward(width, height, index, k - 1);
        let here = neighbors_toward(width, height, index, k);
        match neighbor_toward(width, height, index, k - 1) {
            Some(c) => {
                assert(here == before.push(c));
                assert(here[before.len() as int] == c);
                if before.contains(c) {
                    let d = choose|d: int|
                        0 <= d < k - 1 && #[trigger] neighbor_toward(width, height, index, d)
                            == Some(c);
                    lemma_neighbor_toward(width, height, index, d);
                    lemma_neighbor_toward(width, height, index, k - 1);
                    assert(false);
                }
                assert forall|j: int| here.contains(j) implies exists|d: int|
                    0 <= d < k && #[trigger] neighbor_toward(width, height, index, d) == Some(
                        j,
                    ) by {
                    let i = choose|i: int| 0 <= i < here.len() && here[i] == j;
                    if i < before.len() {
                        assert(before[i] == j);
                        assert(before.contains(j));
                        let d = choose|d: int|
                            0 <= d < k - 1 && #[trigger] neighbor_toward(width, height, index, d)
                                == Some(j);
                        assert(0 <= d < k && neighbor_toward(width, height, index, d) == Some(j));
                    } else {
                        assert(neighbor_toward(width, height, index, k - 1) == Some(j));
                    }
                }
                assert forall|j: int|
                    (exists|d: int|
                        0 <= d < k && #[trigger] neighbor_toward(width, height, index, d) == Some(
                            j,
                        )) implies here.contains(j) by {
                    let d = choose|d: int|
                        0 <= d < k && #[trigger] neighbor_toward(width, height, index, d) == Some(
                            j,
                        );
                    if d < k - 1 {
                        assert(before.contains(j));
                        let i = choose|i: int| 0 <= i < before.len() && before[i] == j;
                        assert(here[i] == j);
                    } else {
                        assert(here[before.len() as int] == j);
                    }
                }
            },
            None => {
                assert(here == before);
                assert forall|j: int|
                    (exists|d: int|
                        0 <= d < k && #[trigger] neighbor_toward(width, height, index, d) == Some(
                            j,
                        )) implies here.contains(j) by {
                    let d = choose|d: int|
                        0 <= d < k && #[trigger] neighbor_toward(width, height, index, d) == Some(
                            j,
                        );
                    assert(d < k - 1);
                }
            },
        }
    }
}

/// The neighbour list of a cell holds exactly the cells that touch it, each
/// once; there are at most eight of them.
pub proof fn lemma_neighbors(width: nat, height: nat, index: int)
    requires
        0 <= index < width * height,
    ensures
        neighbors(width, height, index).len() <= DIRECTION_COUNT,
        neighbors(width, height, index).no_duplicates(),
        forall|j: int| #[trigger]
            neighbors(width, height, index).contains(j) <==> adjacent(width, height, index, j),
{
    lemma_neighbors_toward(width, height, index, DIRECTION_COUNT as int);
    let all = neighbors(width, height, index);
    assert forall|j: int| #[trigger] all.contains(j) implies adjacent(width, height, index, j) by {
        let d = choose|d: int|
            0 <= d < DIRECTION_COUNT && #[trigger] neighbor_toward(width, height, index, d) == Some(
                j,
            );
        lemma_neighbor_toward(width, height, index, d);
    }
    assert forall|j: int| adjacent(width, height, index, j) implies #[trigger] all.contains(j) by {
        let d = lemma_adjacent_toward(width, height, index, j);
        assert(neighbor_toward(width, height, index, d) == Some(j));
    }
}

/// Index of the cell in column `x` of row `y` on a grid `width` cells wide.
pub fn calculate_index(x: usize, y: usize, width: usize) -> (index: usize)
    requires
        y * width + x <= usize::MAX,
    ensures
        index == cell_index(width as nat, x as int, y as int),
{
    assert(y * width <= y * width + x);
    y * width + x
}

/// Column and row, in that order, of the cell at `index` on a grid `width`
/// cells wide.
pub fn calculate_loc(index: usize, width: usize) -> (loc: (usize, usize))
    requires
        width > 0,
    ensures
        loc.0 == cell_x(width as nat, index as int),
        loc.1 == cell_y(width as nat, index as int),
{
    let x: usize = index % width;
    let y: usize = index / width;
    (x, y)
}

/// Moves a coordinate by one step of `delta`, unless that leaves `0..limit`.
fn step(coordinate: usize, delta: i8, limit: usize) -> (moved: Option<usize>)
    requires
        coordinate < limit,
        -1 <= delta <= 1,
    ensures
        moved == if 0 <= coordinate + delta < limit {
            Some((coordinate + delta) as usize)
        } else {
            None
        },
{
    if delta == 0 {
        Some(coordinate)
    } else if delta == 1 {
        if coordinate + 1 < limit {
            Some(coordinate + 1)
        } else {
            None
        }
    } else {
        if coordinate > 0 {
            Some(coordinate - 1)
        } else {
            None
        }
    }
}

/// The cell one step from `index` in the `k`-th direction, if the grid has
/// one there.
pub fn sibling_toward(index: usize, k: usize, width: usize, height: usize) -> (sibling: Option<
    usize,
>)
    requires
        index < width * height <= usize::MAX,
        k < DIRECTION_COUNT,
    ensures
        match sibling {
            Some(j) => neighbor_toward(width as nat, height as nat, index as int, k as int)
                == Some(j as int),
            None => neighbor_toward(width as nat, height as nat, index as int, k as int).is_none(),
        },
{
    proof {
        lemma_cell_loc(width as nat, height as nat, index as int);
    }
    let (x, y) = calculate_loc(index, width);
    let (dx, dy) = get_direction(k);
    match (step(x, dx, width), step(y, dy, height)) {
        (Some(nx), Some(ny)) => {
            proof {
                lemma_cell_index(width as nat, height as nat, nx as int, ny as int);
            }
            Some(calculate_index(nx, ny, width))
        },
        _ => None,
    }
}

} // verus!
