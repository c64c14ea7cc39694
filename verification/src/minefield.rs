//! The grid of tiles and what a game does to it: placing mines, numbering,
//! revealing, flagging and flood fill.

use crate::fill::{
    expand_tiles, fill_closed, fill_origin, fill_pending, fill_sound, lemma_fill_complete,
    lemma_fill_put_down, lemma_fill_spares_flagged, lemma_fill_take, lemma_fill_uncover,
    reveals_added, settled,
};
use crate::grid::{adjacent, lemma_neighbors, neighbors, neighbors_toward, sibling_toward};
use crate::random::draw_below;
use crate::rules::{
    accepts_mine, covered_total, evaluate, flag, free_total, lemma_count_bound, lemma_count_zero,
    lemma_mines_added_chain, lemma_mines_defined_by_mines, lemma_number_tiles, lemma_plant,
    mine_total, mines_added, mines_among, mines_around, number_tile, number_tiles, numbered, plant,
    tiles_fit, uncover, GameState,
};
use crate::settings::DIRECTION_COUNT;
use crate::tile::{fresh_tile, Tile, TileView};
use rand::rngs::ThreadRng;
use vstd::prelude::*;

verus! {

/// A minefield as a plain mathematical record.
pub struct MinefieldView {
    /// Number of columns.
    pub width: nat,
    /// Number of rows.
    pub height: nat,
    /// The tiles, row by row.
    pub tiles: Seq<TileView>,
}

/// A rectangular grid of tiles, stored row by row.
pub struct Minefield {
    width: usize,
    height: usize,
    tiles: Vec<Tile>,
}

impl View for Minefield {
    type V = MinefieldView;

    closed spec fn view(&self) -> MinefieldView {
        MinefieldView {
            width: self.width as nat,
            height: self.height as nat,
            tiles: Seq::new(self.tiles@.len(), |i: int| self.tiles@[i]@),
        }
    }
}

/// How many draws a placement makes for each tile of the grid before it
/// stops drawing.
pub const DRAWS_PER_TILE: usize = 64;

/// A list of tile indexes as a list of cells.
pub open spec fn cells_of(indexes: Seq<usize>) -> Seq<int> {
    Seq::new(indexes.len(), |k: int| indexes[k] as int)
}

/// The records of `count` fresh tiles, numbered from zero.
pub open spec fn fresh_tiles(count: nat) -> Seq<TileView> {
    Seq::new(count, |i: int| fresh_tile(i as nat))
}

impl Minefield {
    /// The grid has as many tiles as its size calls for, and each tile knows
    /// its own position.
    pub open spec fn wf(&self) -> bool {
        tiles_fit(self@.tiles, self@.width, self@.height)
    }

    /// The same grid with other tiles.
    pub open spec fn with_tiles(&self, tiles: Seq<TileView>) -> MinefieldView {
        MinefieldView { tiles, ..self@ }
    }

    /// A grid of fresh tiles, or nothing where the number of tiles is zero
    /// or beyond what an index can hold.
    pub fn new(width: usize, height: usize) -> (made: Option<Minefield>)
        ensures
            made.is_some() <==> 0 < width * height <= usize::MAX,
            made.is_some() ==> made.unwrap().wf() && made.unwrap()@ == (MinefieldView {
                width: width as nat,
                height: height as nat,
                tiles: fresh_tiles((width * height) as nat),
            }),
    {
        if width == 0 || height == 0 {
            assert(width * height == 0) by (nonlinear_arith)
                requires
                    width == 0 || height == 0,
            ;
            return None;
        }
        let total: usize = match width.checked_mul(height) {
            Some(total) => total,
            None => {
                return None;
            },
        };
        assert(0 < width * height) by (nonlinear_arith)
            requires
                width > 0,
                height > 0,
        ;
        let mut tiles: Vec<Tile> = Vec::new();
        let mut index: usize = 0;
        while index < total
            invariant
                index <= total,
                tiles@.len() == index,
                forall|i: int| 0 <= i < index ==> (#[trigger] tiles@[i])@ == fresh_tile(i as nat),
            decreases total - index,
        {
            tiles.push(Tile::new(index));
            index += 1;
        }
        let made = Minefield { width, height, tiles };
        assert(made@.tiles =~= fresh_tiles((width * height) as nat));
        Some(made)
    }

    /// Number of columns.
    pub fn get_width(&self) -> (width: usize)
        ensures
            width == self@.width,
    {
        self.width
    }

    /// Number of rows.
    pub fn get_height(&self) -> (height: usize)
        ensures
            height == self@.height,
    {
        self.height
    }

    /// Number of tiles.
    pub fn len(&self) -> (count: usize)
        ensures
            count == self@.tiles.len(),
    {
        self.tiles.len()
    }

    /// A copy of the tile at `index`.
    pub fn get(&self, index: usize) -> (tile: Tile)
        requires
            index < self@.tiles.len(),
        ensures
            tile@ == self@.tiles[index as int],
    {
        self.tiles[index]
    }

    /// A copy of all tiles, row by row.
    pub fn get_tiles(&self) -> (tiles: Vec<Tile>)
        ensures
            tiles@.len() == self@.tiles.len(),
            forall|i: int| 0 <= i < tiles@.len() ==> (#[trigger] tiles@[i])@ == self@.tiles[i],
    {
        let mut tiles: Vec<Tile> = Vec::new();
        let mut index: usize = 0;
        while index < self.tiles.len()
            invariant
                index <= self.tiles@.len(),
                tiles@.len() == index,
                forall|i: int| 0 <= i < index ==> tiles@[i] == self.tiles@[i],
            decreases self.tiles@.len() - index,
        {
            tiles.push(self.tiles[index]);
            index += 1;
        }
        tiles
    }

    /// Uncovers the tile at `index`; no other tile changes.
    pub fn uncover(&mut self, index: usize)
        requires
            old(self).wf(),
            index < old(self)@.tiles.len(),
        ensures
            final(self).wf(),
            final(self)@ == old(self).with_tiles(uncover(old(self)@.tiles, index as int)),
    {
        let mut tile = self.tiles[index];
        tile.uncover();
        self.tiles[index] = tile;
        assert(self@.tiles =~= uncover(old(self)@.tiles, index as int));
    }

    /// Number of tiles that hold a mine.
    pub fn count_mines(&self) -> (count: usize)
        ensures
            count == mine_total(self@.tiles),
    {
        let mut count: usize = 0;
        let mut index: usize = 0;
        while index < self.tiles.len()
            invariant
                index <= self.tiles@.len(),
                count <= index,
                count == mine_total(self@.tiles.take(index as int)),
            decreases self.tiles@.len() - index,
        {
            assert(self@.tiles.take(index + 1).drop_last() =~= self@.tiles.take(index as int));
            assert(self@.tiles.take(index + 1).last() == self.tiles@[index as int]@);
            if self.tiles[index].has_mine() {
                count += 1;
            }
            index += 1;
        }
        assert(self@.tiles.take(index as int) =~= self@.tiles);
        count
    }

    /// Marks the tile at `index` as a suspected mine; no other tile changes.
    pub fn flag(&mut self, index: usize)
        requires
            old(self).wf(),
            index < old(self)@.tiles.len(),
        ensures
            final(self).wf(),
            final(self)@ == old(self).with_tiles(flag(old(self)@.tiles, index as int)),
    {
        let mut tile = self.tiles[index];
        tile.flag();
        self.tiles[index] = tile;
        assert(self@.tiles =~= flag(old(self)@.tiles, index as int));
    }

    /// Puts a mine on the tile at `draw` if that tile accepts one, and says
    /// whether it did. A draw that names no tile, the excluded tile or a
    /// tile with a mine is rejected and changes nothing.
    pub fn place_mine(&mut self, draw: usize, excluded: usize) -> (placed: bool)
        requires
            old(self).wf(),
        ensures
            final(self).wf(),
            placed == accepts_mine(old(self)@.tiles, draw as int, excluded as int),
            final(self)@ == old(self).with_tiles(
                if placed {
                    plant(old(self)@.tiles, draw as int)
                } else {
                    old(self)@.tiles
                },
            ),
    {
        if draw == excluded || draw >= self.tiles.len() {
            assert(self@.tiles =~= old(self)@.tiles);
            return false;
        }
        let mut tile = self.tiles[draw];
        if tile.has_mine() {
            assert(self@.tiles =~= old(self)@.tiles);
            return false;
        }
        tile.plant_mine();
        self.tiles[draw] = tile;
        assert(self@.tiles =~= plant(old(self)@.tiles, draw as int));
        true
    }

    /// Puts `count` more mines on the grid, none of them on the tile at
    /// `excluded`.
    ///
    /// Tiles are drawn at random, and a draw that is rejected is made again.
    /// So that the placement ends whatever is drawn, it stops drawing after
    /// [`DRAWS_PER_TILE`] draws for each tile of the grid and puts the mines
    /// that are still missing on the first tiles that accept one.
    pub fn place_mines(&mut self, rng: &mut ThreadRng, excluded: usize, count: usize)
        requires
            old(self).wf(),
            count <= free_total(old(self)@.tiles, excluded as int),
        ensures
            final(self).wf(),
            final(self)@.width == old(self)@.width,
            final(self)@.height == old(self)@.height,
            mines_added(old(self)@.tiles, final(self)@.tiles),
            mine_total(final(self)@.tiles) == mine_total(old(self)@.tiles) + count,
            free_total(final(self)@.tiles, excluded as int) + count == free_total(
                old(self)@.tiles,
                excluded as int,
            ),
            excluded < old(self)@.tiles.len() ==> final(self)@.tiles[excluded as int] == old(
                self,
            )@.tiles[excluded as int],
    {
        let ghost start = self@.tiles;
        let total: usize = self.tiles.len();
        let mut draws_left: usize = if total <= usize::MAX / DRAWS_PER_TILE {
            total * DRAWS_PER_TILE
        } else {
            usize::MAX
        };
        let mut placed: usize = 0;
        proof {
            lemma_mines_added_chain(start, start, start);
        }
        while placed < count && draws_left > 0
            invariant
                self.wf(),
                self@.width == old(self)@.width,
                self@.height == old(self)@.height,
                start == old(self)@.tiles,
                total == self@.tiles.len(),
                placed <= count,
                mines_added(start, self@.tiles),
                mine_total(self@.tiles) == mine_total(start) + placed,
                free_total(self@.tiles, excluded as int) + placed == free_total(
                    start,
                    excluded as int,
                ),
                count <= free_total(start, excluded as int),
                excluded < total ==> self@.tiles[excluded as int] == start[excluded as int],
            decreases draws_left,
        {
            let ghost before = self@.tiles;
            proof {
                lemma_count_bound(before, |t: TileView| !t.mine && t.index != excluded as int);
            }
            let draw: usize = draw_below(rng, total);
            if self.place_mine(draw, excluded) {
                proof {
                    lemma_plant(before, draw as int, excluded as int);
                    lemma_mines_added_chain(start, before, self@.tiles);
                }
                placed += 1;
            }
            draws_left -= 1;
        }
        let mut next: usize = 0;
        while placed < count
            invariant
                self.wf(),
                self@.width == old(self)@.width,
                self@.height == old(self)@.height,
                start == old(self)@.tiles,
                total == self@.tiles.len(),
                placed <= count,
                next <= total,
                mines_added(start, self@.tiles),
                mine_total(self@.tiles) == mine_total(start) + placed,
                free_total(self@.tiles, excluded as int) + placed == free_total(
                    start,
                    excluded as int,
                ),
                count <= free_total(start, excluded as int),
                excluded < total ==> self@.tiles[excluded as int] == start[excluded as int],
                forall|i: int|
                    0 <= i < next ==> (#[trigger] self@.tiles[i]).mine || i == excluded,
            decreases total - next,
        {
            let ghost before = self@.tiles;
            proof {
                if next == total {
                    lemma_count_zero(before, |t: TileView| !t.mine && t.index != excluded as int);
                }
            }
            if self.place_mine(next, excluded) {
                proof {
                    lemma_plant(before, next as int, excluded as int);
                    lemma_mines_added_chain(start, before, self@.tiles);
                }
                placed += 1;
            }
            next += 1;
        }
    }

    /// The indexes of the tiles that touch the tile at `index`, in the order
    /// of the directions.
    pub fn get_siblings(&self, index: usize) -> (siblings: Vec<usize>)
        requires
            self.wf(),
            index < self@.tiles.len(),
        ensures
            cells_of(siblings@) == neighbors(self@.width, self@.height, index as int),
    {
        let mut siblings: Vec<usize> = Vec::new();
        let total: usize = self.tiles.len();
        assert(total == self@.tiles.len());
        assert(total == self.width * self.height);
        let mut k: usize = 0;
        while k < DIRECTION_COUNT
            invariant
                index < total == self.width * self.height,
                k <= DIRECTION_COUNT,
                cells_of(siblings@) == neighbors_toward(
                    self@.width,
                    self@.height,
                    index as int,
                    k as int,
                ),
            decreases DIRECTION_COUNT - k,
        {
            let ghost before = cells_of(siblings@);
            match sibling_toward(index, k, self.width, self.height) {
                Some(j) => {
                    siblings.push(j);
                    assert(cells_of(siblings@) =~= before.push(j as int));
                },
                None => {},
            }
            k += 1;
        }
        siblings
    }

    /// Number of mines among the neighbours of the tile at `index`.
    pub fn count_adjacent_mines(&self, index: usize) -> (count: usize)
        requires
            self.wf(),
            index < self@.tiles.len(),
        ensures
            count == mines_around(self@.tiles, self@.width, self@.height, index as int),
            count <= DIRECTION_COUNT,
    {
        let siblings = self.get_siblings(index);
        let ghost cells = cells_of(siblings@);
        proof {
            lemma_neighbors(self@.width, self@.height, index as int);
        }
        let mut count: usize = 0;
        let mut k: usize = 0;
        while k < siblings.len()
            invariant
                self.wf(),
                k <= siblings@.len() <= DIRECTION_COUNT,
                cells == cells_of(siblings@),
                cells == neighbors(self@.width, self@.height, index as int),
                index < self@.tiles.len(),
                forall|j: int| #[trigger]
                    cells.contains(j) ==> adjacent(self@.width, self@.height, index as int, j),
                count == mines_among(self@.tiles, cells.take(k as int)),
                count <= k,
            decreases siblings@.len() - k,
        {
            assert(cells.contains(cells[k as int]));
            assert(cells.take(k + 1).drop_last() =~= cells.take(k as int));
            if self.tiles[siblings[k]].has_mine() {
                count += 1;
            }
            k += 1;
        }
        assert(cells.take(k as int) =~= cells);
        count
    }

    /// Numbers the grid: every tile without a mine gets the number of mines
    /// around it; tiles with a mine are left as they are.
    pub fn update_numbers(&mut self)
        requires
            old(self).wf(),
        ensures
            final(self).wf(),
            final(self)@ == old(self).with_tiles(
                number_tiles(old(self)@.tiles, old(self)@.width, old(self)@.height),
            ),
            numbered(final(self)@.tiles, final(self)@.width, final(self)@.height),
            mine_total(final(self)@.tiles) == mine_total(old(self)@.tiles),
    {
        let ghost start = self@.tiles;
        let total: usize = self.tiles.len();
        let mut index: usize = 0;
        while index < total
            invariant
                self.wf(),
                self@.width == old(self)@.width,
                self@.height == old(self)@.height,
                start == old(self)@.tiles,
                total == self@.tiles.len() == start.len(),
                index <= total,
                forall|i: int|
                    0 <= i < index ==> #[trigger] self@.tiles[i] == number_tile(
                        start,
                        self@.width,
                        self@.height,
                        i,
                    ),
                forall|i: int| index <= i < total ==> #[trigger] self@.tiles[i] == start[i],
            decreases total - index,
        {
            let ghost before = self@.tiles;
            let mut tile = self.tiles[index];
            assert(tile@ == before[index as int]);
            if !tile.has_mine() {
                let count = self.count_adjacent_mines(index);
                proof {
                    assert forall|i: int| 0 <= i < start.len() implies (#[trigger] self@
                        .tiles[i]).mine == start[i].mine by {}
                    lemma_mines_defined_by_mines(
                        self@.tiles,
                        start,
                        self@.width,
                        self@.height,
                        index as int,
                    );
                }
                tile.set_adjacent_mines(count);
                self.tiles[index] = tile;
                assert(self@.tiles =~= before.update(
                    index as int,
                    number_tile(start, self@.width, self@.height, index as int),
                ));
            }
            index += 1;
        }
        assert(self@.tiles =~= number_tiles(start, self@.width, self@.height));
        proof {
            lemma_number_tiles(start, self@.width, self@.height);
        }
    }

    /// Flood fill from the tile at `index`: where that tile shows no mine
    /// around it, its covered and unflagged neighbours are revealed, and the
    /// fill goes on from each of them in the same way. The tile at `index`
    /// itself is left to the caller.
    pub fn expand(&mut self, index: usize)
        requires
            old(self).wf(),
            index < old(self)@.tiles.len(),
        ensures
            final(self).wf(),
            final(self)@ == old(self).with_tiles(
                expand_tiles(
                    old(self)@.tiles,
                    old(self)@.width,
                    old(self)@.height,
                    index as int,
                ),
            ),
            reveals_added(old(self)@.tiles, final(self)@.tiles),
            forall|i: int|
                0 <= i < old(self)@.tiles.len() && old(self)@.tiles[i].flagged
                    ==> #[trigger] final(self)@.tiles[i] == old(self)@.tiles[i],
    {
        let ghost start = self@.tiles;
        let ghost width = self@.width;
        let ghost height = self@.height;
        let mut pending: Vec<usize> = Vec::new();
        if self.tiles[index].get_adjacent_mines() == 0 {
            pending.push(index);
            assert(cells_of(pending@)[0] == index);
        }
        while pending.len() > 0
            invariant
                self.wf(),
                self@.width == width,
                self@.height == height,
                start == old(self)@.tiles,
                width == old(self)@.width,
                height == old(self)@.height,
                index < start.len(),
                reveals_added(start, self@.tiles),
                fill_sound(start, self@.tiles, width, height, index as int),
                fill_closed(
                    start,
                    self@.tiles,
                    width,
                    height,
                    index as int,
                    cells_of(pending@),
                    -1,
                ),
                fill_pending(start, width, height, index as int, cells_of(pending@)),
            decreases covered_total(self@.tiles) + pending@.len(),
        {
            let ghost measure = covered_total(self@.tiles) + pending@.len();
            let ghost waiting = cells_of(pending@);
            proof {
                lemma_fill_take(start, self@.tiles, width, height, index as int, waiting);
            }
            let in_hand: usize = pending.pop().unwrap();
            assert(cells_of(pending@) =~= waiting.drop_last());
            assert(in_hand as int == waiting.last());
            let siblings = self.get_siblings(in_hand);
            let ghost cells = cells_of(siblings@);
            proof {
                lemma_neighbors(width, height, in_hand as int);
            }
            let mut k: usize = 0;
            while k < siblings.len()
                invariant
                    self.wf(),
                    self@.width == width,
                    self@.height == height,
                    index < start.len(),
                    in_hand < start.len(),
                    k <= siblings@.len(),
                    cells == cells_of(siblings@),
                    forall|j: int| #[trigger]
                        cells.contains(j) ==> adjacent(width, height, in_hand as int, j),
                    reveals_added(start, self@.tiles),
                    fill_sound(start, self@.tiles, width, height, index as int),
                    fill_closed(
                        start,
                        self@.tiles,
                        width,
                        height,
                        index as int,
                        cells_of(pending@),
                        in_hand as int,
                    ),
                    fill_pending(start, width, height, index as int, cells_of(pending@)),
                    fill_origin(start, width, height, index as int, in_hand as int),
                    covered_total(self@.tiles) + pending@.len() < measure,
                    forall|m: int|
                        0 <= m < k ==> {
                            let n = #[trigger] cells[m];
                            0 <= n < self@.tiles.len() && (self@.tiles[n].flagged
                                || self@.tiles[n].revealed)
                        },
                decreases siblings@.len() - k,
            {
                let n: usize = siblings[k];
                assert(cells[k as int] == n);
                assert(cells.contains(n as int));
                let tile = self.tiles[n];
                assert(tile@ == self@.tiles[n as int]);
                if !tile.is_revealed() && !tile.is_flagged() {
                    let ghost now = self@.tiles;
                    let ghost queue = cells_of(pending@);
                    proof {
                        lemma_fill_uncover(
                            start,
                            now,
                            width,
                            height,
                            index as int,
                            queue,
                            in_hand as int,
                            n as int,
                        );
                    }
                    self.uncover(n);
                    assert(self@.tiles == uncover(now, n as int));
                    if tile.get_adjacent_mines() == 0 {
                        pending.push(n);
                        assert(cells_of(pending@) =~= queue.push(n as int));
                    }
                    assert forall|m: int| 0 <= m < k implies {
                        let n = #[trigger] cells[m];
                        0 <= n < self@.tiles.len() && (self@.tiles[n].flagged
                            || self@.tiles[n].revealed)
                    } by {
                        assert(cells.contains(cells[m]));
                    }
                }
                k += 1;
            }
            proof {
                assert forall|n: int| #[trigger]
                    adjacent(width, height, in_hand as int, n) && 0 <= n
                        < self@.tiles.len() implies self@.tiles[n].flagged
                    || self@.tiles[n].revealed by {
                    assert(cells.contains(n));
                    let m = choose|m: int| 0 <= m < cells.len() && cells[m] == n;
                    assert(self@.tiles[cells[m]].flagged || self@.tiles[cells[m]].revealed);
                }
                assert(settled(self@.tiles, width, height, in_hand as int));
                lemma_fill_put_down(
                    start,
                    self@.tiles,
                    width,
                    height,
                    index as int,
                    cells_of(pending@),
                    in_hand as int,
                );
            }
        }
        proof {
            assert(cells_of(pending@) =~= Seq::<int>::empty());
            lemma_fill_complete(start, self@.tiles, width, height, index as int);
            assert forall|i: int| 0 <= i < start.len() && start[i].flagged implies #[trigger] self@
                .tiles[i] == start[i] by {
                lemma_fill_spares_flagged(start, width, height, index as int, i);
            }
        }
    }

    /// The state that the tiles call for: lost with a revealed mine, else
    /// won with every safe tile revealed, else `state` as it was.
    pub fn evaluate(&self, state: GameState) -> (next: GameState)
        ensures
            next == evaluate(self@.tiles, state),
    {
        let mut covered: usize = 0;
        let mut index: usize = 0;
        while index < self.tiles.len()
            invariant
                index <= self.tiles@.len(),
                covered <= index,
                forall|i: int|
                    0 <= i < index ==> !((#[trigger] self@.tiles[i]).mine
                        && self@.tiles[i].revealed),
                covered == 0 <==> forall|i: int|
                    0 <= i < index && !(#[trigger] self@.tiles[i]).mine ==> self@.tiles[i].revealed,
            decreases self.tiles@.len() - index,
        {
            let tile = self.tiles[index];
            assert(tile@ == self@.tiles[index as int]);
            if tile.has_mine() && tile.is_revealed() {
                return GameState::Lost;
            }
            if !tile.has_mine() && !tile.is_revealed() {
                covered += 1;
            }
            index += 1;
        }
        if covered == 0 {
            GameState::Won
        } else {
            state
        }
    }
}

} // verus!
