//! One cell of the grid.

use vstd::prelude::*;

verus! {

/// What a tile is, as a plain mathematical record.
pub struct TileView {
    /// Row-major position `y * width + x`.
    pub index: nat,
    /// Uncovered; never reset.
    pub revealed: bool,
    /// Marked by the player as a suspected mine.
    pub flagged: bool,
    /// A mine occupies the cell.
    pub mine: bool,
    /// Mines among the neighbours; meaningful for tiles without a mine,
    /// once the grid has been numbered.
    pub adjacent_mines: nat,
}

/// One cell of the grid: a passive record behind accessors.
#[derive(Clone, Copy, PartialEq, Eq, Structural, Debug)]
pub struct Tile {
    index: usize,
    revealed: bool,
    adjacent_mines: usize,
    mine: bool,
    flagged: bool,
}

impl View for Tile {
    type V = TileView;

    closed spec fn view(&self) -> TileView {
        TileView {
            index: self.index as nat,
            revealed: self.revealed,
            flagged: self.flagged,
            mine: self.mine,
            adjacent_mines: self.adjacent_mines as nat,
        }
    }
}

/// The record of a tile that was just created at `index`.
pub open spec fn fresh_tile(index: nat) -> TileView {
    TileView { index, revealed: false, flagged: false, mine: false, adjacent_mines: 0 }
}

impl Tile {
    /// A covered, unflagged tile without a mine at position `index`.
    pub fn new(index: usize) -> (tile: Tile)
        ensures
            tile@ == fresh_tile(index as nat),
    {
        Tile { index, revealed: false, adjacent_mines: 0, mine: false, flagged: false }
    }

    pub fn has_mine(&self) -> (mine: bool)
        ensures
            mine == self@.mine,
    {
        self.mine
    }

    pub fn get_index(&self) -> (index: usize)
        ensures
            index == self@.index,
    {
        self.index
    }

    pub fn get_adjacent_mines(&self) -> (count: usize)
        ensures
            count == self@.adjacent_mines,
    {
        self.adjacent_mines
    }

    pub fn is_revealed(&self) -> (revealed: bool)
        ensures
            revealed == self@.revealed,
    {
        self.revealed
    }

    pub fn is_flagged(&self) -> (flagged: bool)
        ensures
            flagged == self@.flagged,
    {
        self.flagged
    }

    /// Uncovers the tile.
    pub(crate) fn uncover(&mut self)
        ensures
            final(self)@ == (TileView { revealed: true, ..old(self)@ }),
    {
        self.revealed = true;
    }

    /// Marks the tile as a suspected mine.
    pub(crate) fn flag(&mut self)
        ensures
            final(self)@ == (TileView { flagged: true, ..old(self)@ }),
    {
        self.flagged = true;
    }

    /// Puts a mine on the tile.
    pub(crate) fn plant_mine(&mut self)
        ensures
            final(self)@ == (TileView { mine: true, ..old(self)@ }),
    {
        self.mine = true;
    }

    /// Records the number of mines among the neighbours.
    pub(crate) fn set_adjacent_mines(&mut self, count: usize)
        ensures
            final(self)@ == (TileView { adjacent_mines: count as nat, ..old(self)@ }),
    {
        self.adjacent_mines = count;
    }
}

/// Two tiles with the same record are the same tile.
pub proof fn lemma_tile_view_injective(a: Tile, b: Tile)
    requires
        a@ == b@,
    ensures
        a == b,
{
}

} // verus!
