//! Difficulty presets and the table of neighbour directions.

use vstd::prelude::*;

verus! {

/// A named preset bundling grid width, grid height and number of mines.
#[derive(Clone, Copy, PartialEq, Eq, Structural, Debug, Hash)]
pub enum Difficulty {
    Easy,
    Medium,
    Hard,
}

impl Difficulty {
    /// The `(width, height, mines)` triple that the preset stands for.
    pub open spec fn config(self) -> (nat, nat, nat) {
        match self {
            Difficulty::Easy => (9, 9, 10),
            Difficulty::Medium => (16, 16, 40),
            Difficulty::Hard => (30, 16, 99),
        }
    }

    /// Returns the width, the height and the number of mines, in that order.
    pub fn get_config(&self) -> (c: (usize, usize, usize))
        ensures
            c.0 == self.config().0,
            c.1 == self.config().1,
            c.2 == self.config().2,
    {
        match self {
            Difficulty::Easy => (9, 9, 10),
            Difficulty::Medium => (16, 16, 40),
            Difficulty::Hard => (30, 16, 99),
        }
    }
}

/// Every preset leaves room for a first click: it has at least one tile more
/// than it has mines, and its tile count is far from any machine limit.
pub proof fn lemma_config_has_room(d: Difficulty)
    ensures
        0 < d.config().0,
        0 < d.config().1,
        d.config().2 < d.config().0 * d.config().1 <= 480,
{
}

/// Number of directions in which a tile can have a neighbour.
pub const DIRECTION_COUNT: usize = 8;

/// The `k`-th direction as a `(dx, dy)` offset; each component is -1, 0 or 1.
pub open spec fn direction(k: int) -> (int, int) {
    if k == 0 {
        (1, 1)
    } else if k == 1 {
        (1, 0)
    } else if k == 2 {
        (1, -1)
    } else if k == 3 {
        (-1, 1)
    } else if k == 4 {
        (-1, 0)
    } else if k == 5 {
        (-1, -1)
    } else if k == 6 {
        (0, 1)
    } else {
        (0, -1)
    }
}

/// The `k`-th direction, for `k` below [`DIRECTION_COUNT`].
pub fn get_direction(k: usize) -> (d: (i8, i8))
    requires
        k < DIRECTION_COUNT,
    ensures
        d.0 == direction(k as int).0,
        d.1 == direction(k as int).1,
{
    match k {
        0 => (1, 1),
        1 => (1, 0),
        2 => (1, -1),
        3 => (-1, 1),
        4 => (-1, 0),
        5 => (-1, -1),
        6 => (0, 1),
        _ => (0, -1),
    }
}

} // verus!
