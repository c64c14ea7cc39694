//! The rules of the game, stated over sequences of tile records: counting,
//! mine placement, numbering, flood fill and the evaluation of the state.

use crate::grid::{adjacent, lemma_neighbors, neighbors};
use crate::tile::TileView;
use vstd::prelude::*;

verus! {

/// Where a game stands.
#[derive(Clone, Copy, PartialEq, Eq, Structural, Debug)]
pub enum GameState {
    /// No reveal yet; no mines placed.
    Ready,
    /// Mines are placed and the game is undecided.
    Playing,
    /// A mine was revealed.
    Lost,
    /// Every tile without a mine is revealed.
    Won,
}

impl GameState {
    /// No click is accepted any more.
    pub open spec fn is_terminal(self) -> bool {
        self == GameState::Lost || self == GameState::Won
    }
}

/// The tiles number their own positions: a row-major grid of the given size.
pub open spec fn tiles_fit(tiles: Seq<TileView>, width: nat, height: nat) -> bool {
    &&& tiles.len() == width * height
    &&& forall|i: int| 0 <= i < tiles.len() ==> (#[trigger] tiles[i]).index == i
}

/// How many of the tiles satisfy `wanted`.
pub open spec fn count_tiles(tiles: Seq<TileView>, wanted: spec_fn(TileView) -> bool) -> nat
    decreases tiles.len(),
{
    if tiles.len() == 0 {
        0
    } else {
        count_tiles(tiles.drop_last(), wanted) + if wanted(tiles.last()) {
            1nat
        } else {
            0nat
        }
    }
}

/// Number of tiles that hold a mine.
pub open spec fn mine_total(tiles: Seq<TileView>) -> nat {
    count_tiles(tiles, |t: TileView| t.mine)
}

/// Number of tiles that are still covered.
pub open spec fn covered_total(tiles: Seq<TileView>) -> nat {
    count_tiles(tiles, |t: TileView| !t.revealed)
}

/// Number of tiles on which a mine can still be put when the tile at
/// `excluded` must stay clear.
pub open spec fn free_total(tiles: Seq<TileView>, excluded: int) -> nat {
    count_tiles(tiles, |t: TileView| !t.mine && t.index != excluded)
}

/// A count never exceeds the number of tiles.
pub proof fn lemma_count_bound(tiles: Seq<TileView>, wanted: spec_fn(TileView) -> bool)
    ensures
        count_tiles(tiles, wanted) <= tiles.len(),
    decreases tiles.len(),
{
    if tiles.len() > 0 {
        lemma_count_bound(tiles.drop_last(), wanted);
    }
}

/// The count is zero exactly when no tile is wanted.
pub proof fn lemma_count_zero(tiles: Seq<TileView>, wanted: spec_fn(TileView) -> bool)
    ensures
        count_tiles(tiles, wanted) == 0 <==> forall|i: int|
            0 <= i < tiles.len() ==> !wanted(#[trigger] tiles[i]),
    decreases tiles.len(),
{
    if tiles.len() > 0 {
        let front = tiles.drop_last();
        lemma_count_zero(front, wanted);
        if count_tiles(tiles, wanted) == 0 {
            assert forall|i: int| 0 <= i < tiles.len() implies !wanted(#[trigger] tiles[i]) by {
                if i < front.len() {
                    assert(tiles[i] == front[i]);
                }
            }
        } else if !wanted(tiles.last()) {
            let i = choose|i: int| 0 <= i < front.len() && wanted(#[trigger] front[i]);
            assert(wanted(tiles[i]));
        }
    }
}

/// The count is the number of tiles exactly when every tile is wanted.
pub proof fn lemma_count_full(tiles: Seq<TileView>, wanted: spec_fn(TileView) -> bool)
    ensures
        count_tiles(tiles, wanted) == tiles.len() <==> forall|i: int|
            0 <= i < tiles.len() ==> wanted(#[trigger] tiles[i]),
    decreases tiles.len(),
{
    if tiles.len() > 0 {
        let front = tiles.drop_last();
        lemma_count_full(front, wanted);
        lemma_count_bound(front, wanted);
        if count_tiles(tiles, wanted) == tiles.len() {
            assert forall|i: int| 0 <= i < tiles.len() implies wanted(#[trigger] tiles[i]) by {
                if i < front.len() {
                    assert(tiles[i] == front[i]);
                }
            }
        } else if wanted(tiles.last()) {
            let i = choose|i: int| 0 <= i < front.len() && !wanted(#[trigger] front[i]);
            assert(!wanted(tiles[i]));
        }
    }
}

/// Replacing one tile changes the count by what the old and the new tile
/// contribute.
pub proof fn lemma_count_update(
    tiles: Seq<TileView>,
    wanted: spec_fn(TileView) -> bool,
    i: int,
    tile: TileView,
)
    requires
        0 <= i < tiles.len(),
    ensures
        count_tiles(tiles.update(i, tile), wanted) + (if wanted(tiles[i]) {
            1nat
        } else {
            0nat
        }) == count_tiles(tiles, wanted) + (if wanted(tile) {
            1nat
        } else {
            0nat
        }),
    decreases tiles.len(),
{
    let changed = tiles.update(i, tile);
    if i == tiles.len() - 1 {
        assert(changed.drop_last() =~= tiles.drop_last());
    } else {
        assert(changed.drop_last() =~= tiles.drop_last().update(i, tile));
        lemma_count_update(tiles.drop_last(), wanted, i, tile);
    }
}

/// Two rows of tiles that agree on what is wanted, tile by tile, have the
/// same count.
pub proof fn lemma_count_agree(
    a: Seq<TileView>,
    b: Seq<TileView>,
    wanted: spec_fn(TileView) -> bool,
)
    requires
        a.len() == b.len(),
        forall|i: int| 0 <= i < a.len() ==> wanted(#[trigger] a[i]) == wanted(b[i]),
    ensures
        count_tiles(a, wanted) == count_tiles(b, wanted),
    decreases a.len(),
{
    if a.len() > 0 {
        assert forall|i: int| 0 <= i < a.len() - 1 implies wanted(#[trigger] a.drop_last()[i])
            == wanted(b.drop_last()[i]) by {
            assert(a.drop_last()[i] == a[i]);
        }
        lemma_count_agree(a.drop_last(), b.drop_last(), wanted);
        assert(wanted(a[a.len() - 1]) == wanted(b[a.len() - 1]));
    }
}

/// The tiles with the one at `index` uncovered.
pub open spec fn uncover(tiles: Seq<TileView>, index: int) -> Seq<TileView> {
    tiles.update(index, TileView { revealed: true, ..tiles[index] })
}

/// The tiles with the one at `index` flagged.
pub open spec fn flag(tiles: Seq<TileView>, index: int) -> Seq<TileView> {
    tiles.update(index, TileView { flagged: true, ..tiles[index] })
}

/// A mine can be put on the tile at `draw`: the tile exists, holds no mine
/// yet, and is not the one that must stay clear.
pub open spec fn accepts_mine(tiles: Seq<TileView>, draw: int, excluded: int) -> bool {
    0 <= draw < tiles.len() && draw != excluded && !tiles[draw].mine
}

/// The tiles with a mine put on the tile at `index`.
pub open spec fn plant(tiles: Seq<TileView>, index: int) -> Seq<TileView> {
    tiles.update(index, TileView { mine: true, ..tiles[index] })
}

/// `after` differs from `before` by mines that were added, and by nothing
/// else.
pub open spec fn mines_added(before: Seq<TileView>, after: Seq<TileView>) -> bool {
    &&& after.len() == before.len()
    &&& forall|i: int|
        0 <= i < before.len() ==> (#[trigger] after[i]) == (TileView {
            mine: after[i].mine,
            ..before[i]
        }) && (before[i].mine ==> after[i].mine)
}

/// The tiles of `base` with the mines of `layout`.
pub open spec fn with_mines_of(base: Seq<TileView>, layout: Seq<TileView>) -> Seq<TileView> {
    Seq::new(base.len(), |i: int| TileView { mine: layout[i].mine, ..base[i] })
}

/// How many of the listed cells hold a mine.
pub open spec fn mines_among(tiles: Seq<TileView>, cells: Seq<int>) -> nat
    decreases cells.len(),
{
    if cells.len() == 0 {
        0
    } else {
        mines_among(tiles, cells.drop_last()) + if tiles[cells.last()].mine {
            1nat
        } else {
            0nat
        }
    }
}

/// Number of mines among the neighbours of the tile at `index`.
pub open spec fn mines_around(tiles: Seq<TileView>, width: nat, height: nat, index: int) -> nat {
    mines_among(tiles, neighbors(width, height, index))
}

/// The tile at `index` after numbering: a tile without a mine carries the
/// number of mines around it, a tile with a mine is left as it is.
pub open spec fn number_tile(
    tiles: Seq<TileView>,
    width: nat,
    height: nat,
    index: int,
) -> TileView {
    if tiles[index].mine {
        tiles[index]
    } else {
        TileView { adjacent_mines: mines_around(tiles, width, height, index), ..tiles[index] }
    }
}

/// All tiles after numbering.
pub open spec fn number_tiles(tiles: Seq<TileView>, width: nat, height: nat) -> Seq<TileView> {
    Seq::new(tiles.len(), |i: int| number_tile(tiles, width, height, i))
}

/// Every tile without a mine carries the exact number of mines around it.
pub open spec fn numbered(tiles: Seq<TileView>, width: nat, height: nat) -> bool {
    forall|i: int|
        0 <= i < tiles.len() && !(#[trigger] tiles[i]).mine ==> tiles[i].adjacent_mines
            == mines_around(tiles, width, height, i)
}

/// Some mine is revealed.
pub open spec fn mine_revealed(tiles: Seq<TileView>) -> bool {
    exists|i: int| 0 <= i < tiles.len() && (#[trigger] tiles[i]).mine && tiles[i].revealed
}

/// Every tile without a mine is revealed.
pub open spec fn all_safe_revealed(tiles: Seq<TileView>) -> bool {
    forall|i: int| 0 <= i < tiles.len() && !(#[trigger] tiles[i]).mine ==> tiles[i].revealed
}

/// The state that the tiles call for: lost with a revealed mine, else won
/// with every safe tile revealed, else the state as it was.
pub open spec fn evaluate(tiles: Seq<TileView>, state: GameState) -> GameState {
    if mine_revealed(tiles) {
        GameState::Lost
    } else if all_safe_revealed(tiles) {
        GameState::Won
    } else {
        state
    }
}

/// The number of mines among some cells does not exceed their number.
pub proof fn lemma_mines_among_bound(tiles: Seq<TileView>, cells: Seq<int>)
    ensures
        mines_among(tiles, cells) <= cells.len(),
    decreases cells.len(),
{
    if cells.len() > 0 {
        lemma_mines_among_bound(tiles, cells.drop_last());
    }
}

/// The number of mines among some cells depends on nothing but the mines on
/// these cells.
pub proof fn lemma_mines_among_agree(a: Seq<TileView>, b: Seq<TileView>, cells: Seq<int>)
    requires
        forall|k: int| 0 <= k < cells.len() ==> a[#[trigger] cells[k]].mine == b[cells[k]].mine,
    ensures
        mines_among(a, cells) == mines_among(b, cells),
    decreases cells.len(),
{
    if cells.len() > 0 {
        let front = cells.drop_last();
        assert forall|k: int| 0 <= k < front.len() implies a[#[trigger] front[k]].mine
            == b[front[k]].mine by {
            assert(front[k] == cells[k]);
        }
        lemma_mines_among_agree(a, b, front);
        assert(cells.last() == cells[cells.len() - 1]);
    }
}

/// Putting a mine on a tile that accepts one adds one mine, takes one free
/// tile away and changes nothing else.
pub proof fn lemma_plant(tiles: Seq<TileView>, draw: int, excluded: int)
    requires
        accepts_mine(tiles, draw, excluded),
        tiles[draw].index == draw,
    ensures
        mines_added(tiles, plant(tiles, draw)),
        mine_total(plant(tiles, draw)) == mine_total(tiles) + 1,
        free_total(plant(tiles, draw), excluded) + 1 == free_total(tiles, excluded),
{
    let tile = TileView { mine: true, ..tiles[draw] };
    lemma_count_update(tiles, |t: TileView| t.mine, draw, tile);
    lemma_count_update(tiles, |t: TileView| !t.mine && t.index != excluded, draw, tile);
}

/// Adding mines is transitive, and adds nothing when nothing happens.
pub proof fn lemma_mines_added_chain(a: Seq<TileView>, b: Seq<TileView>, c: Seq<TileView>)
    requires
        mines_added(a, b),
        mines_added(b, c),
    ensures
        mines_added(a, c),
        mines_added(a, a),
{
    assert forall|i: int| 0 <= i < a.len() implies (#[trigger] c[i]) == (TileView {
        mine: c[i].mine,
        ..a[i]
    }) && (a[i].mine ==> c[i].mine) by {
        assert(b[i] == (TileView { mine: b[i].mine, ..a[i] }));
    }
}

/// On a grid without mines every tile but the excluded one is free.
pub proof fn lemma_free_on_clear_grid(tiles: Seq<TileView>, excluded: int)
    requires
        mine_total(tiles) == 0,
        forall|i: int| 0 <= i < tiles.len() ==> (#[trigger] tiles[i]).index == i,
    ensures
        free_total(tiles, excluded) == if 0 <= excluded < tiles.len() {
            tiles.len() - 1
        } else {
            tiles.len() as int
        },
{
    let free = |t: TileView| !t.mine && t.index != excluded;
    lemma_count_zero(tiles, |t: TileView| t.mine);
    if 0 <= excluded < tiles.len() {
        let patched = tiles.update(excluded, TileView { index: tiles.len(), ..tiles[excluded] });
        lemma_count_update(tiles, free, excluded, patched[excluded]);
        lemma_count_full(patched, free);
        assert forall|i: int| 0 <= i < patched.len() implies free(#[trigger] patched[i]) by {
            if i != excluded {
                assert(patched[i] == tiles[i]);
            }
        }
        assert(patched.update(excluded, tiles[excluded]) =~= tiles);
    } else {
        lemma_count_full(tiles, free);
    }
}

/// Numbering changes no mine and leaves every tile without a mine with the
/// exact number of mines around it.
pub proof fn lemma_number_tiles(tiles: Seq<TileView>, width: nat, height: nat)
    requires
        tiles.len() == width * height,
    ensures
        numbered(number_tiles(tiles, width, height), width, height),
        mine_total(number_tiles(tiles, width, height)) == mine_total(tiles),
        forall|i: int|
            0 <= i < tiles.len() ==> (#[trigger] number_tiles(tiles, width, height)[i]).mine
                == tiles[i].mine,
{
    let after = number_tiles(tiles, width, height);
    lemma_count_agree(after, tiles, |t: TileView| t.mine);
    assert forall|i: int| 0 <= i < after.len() && !(#[trigger] after[i]).mine implies after[i]
        .adjacent_mines == mines_around(after, width, height, i) by {
        lemma_mines_defined_by_mines(after, tiles, width, height, i);
    }
}

/// The number of mines around a tile is the same on two grids that hold the
/// same mines.
pub proof fn lemma_mines_defined_by_mines(
    a: Seq<TileView>,
    b: Seq<TileView>,
    width: nat,
    height: nat,
    index: int,
)
    requires
        a.len() == b.len() == width * height,
        0 <= index < a.len(),
        forall|i: int| 0 <= i < a.len() ==> (#[trigger] a[i]).mine == b[i].mine,
    ensures
        mines_around(a, width, height, index) == mines_around(b, width, height, index),
{
    let cells = neighbors(width, height, index);
    lemma_neighbors(width, height, index);
    assert forall|k: int| 0 <= k < cells.len() implies a[#[trigger] cells[k]].mine
        == b[cells[k]].mine by {
        assert(cells.contains(cells[k]));
    }
    lemma_mines_among_agree(a, b, cells);
}

/// Two rows of tiles that hold the same mines and carry the same numbers
/// hold as many mines, and are numbered together.
pub proof fn lemma_same_mines_same_numbers(
    a: Seq<TileView>,
    b: Seq<TileView>,
    width: nat,
    height: nat,
)
    requires
        a.len() == b.len() == width * height,
        forall|i: int|
            0 <= i < a.len() ==> (#[trigger] a[i]).mine == b[i].mine && a[i].adjacent_mines
                == b[i].adjacent_mines,
    ensures
        mine_total(a) == mine_total(b),
        numbered(a, width, height) ==> numbered(b, width, height),
{
    lemma_count_agree(a, b, |t: TileView| t.mine);
    if numbered(a, width, height) {
        assert forall|i: int| 0 <= i < b.len() && !(#[trigger] b[i]).mine implies b[i]
            .adjacent_mines == mines_around(b, width, height, i) by {
            assert(!a[i].mine);
            lemma_mines_defined_by_mines(a, b, width, height, i);
        }
    }
}

/// Two rows of tiles that hold the same mines and show the same tiles call
/// for the same state.
pub proof fn lemma_same_mines_same_state(a: Seq<TileView>, b: Seq<TileView>, state: GameState)
    requires
        a.len() == b.len(),
        forall|i: int|
            0 <= i < a.len() ==> (#[trigger] a[i]).mine == b[i].mine && a[i].revealed
                == b[i].revealed,
    ensures
        evaluate(a, state) == evaluate(b, state),
{
    if mine_revealed(a) {
        let i = choose|i: int| 0 <= i < a.len() && (#[trigger] a[i]).mine && a[i].revealed;
        assert(b[i].mine && b[i].revealed);
    }
    if mine_revealed(b) {
        let i = choose|i: int| 0 <= i < b.len() && (#[trigger] b[i]).mine && b[i].revealed;
        assert(a[i].mine && a[i].revealed);
    }
    if all_safe_revealed(a) {
        assert forall|i: int| 0 <= i < b.len() && !(#[trigger] b[i]).mine implies b[i].revealed by {
            assert(!a[i].mine);
        }
    }
    if all_safe_revealed(b) {
        assert forall|i: int| 0 <= i < a.len() && !(#[trigger] a[i]).mine implies a[i].revealed by {
            assert(!b[i].mine);
        }
    }
}

/// The tiles with a mine that touch the tile at `index`.
pub open spec fn mines_touching(tiles: Seq<TileView>, width: nat, height: nat, index: int) -> Set<
    int,
> {
    Set::new(|j: int| adjacent(width, height, index, j) && tiles[j].mine)
}

/// The number of mines among cells that are listed once each is the number
/// of listed cells that hold a mine.
pub proof fn lemma_mines_among_counts(tiles: Seq<TileView>, cells: Seq<int>)
    requires
        cells.no_duplicates(),
    ensures
        Set::new(|j: int| cells.contains(j) && tiles[j].mine).finite(),
        Set::new(|j: int| cells.contains(j) && tiles[j].mine).len() == mines_among(tiles, cells),
    decreases cells.len(),
{
    let found = Set::new(|j: int| cells.contains(j) && tiles[j].mine);
    if cells.len() == 0 {
        assert(found =~= Set::<int>::empty());
    } else {
        let front = cells.drop_last();
        let last = cells.last();
        let before = Set::new(|j: int| front.contains(j) && tiles[j].mine);
        assert(front.no_duplicates());
        lemma_mines_among_counts(tiles, front);
        assert forall|j: int| cells.contains(j) <==> front.contains(j) || j == last by {
            if cells.contains(j) {
                let k = choose|k: int| 0 <= k < cells.len() && cells[k] == j;
                if k < front.len() {
                    assert(front[k] == j);
                }
            }
            if front.contains(j) {
                let k = choose|k: int| 0 <= k < front.len() && front[k] == j;
                assert(cells[k] == j);
            }
            assert(cells[cells.len() - 1] == last);
        }
        if front.contains(last) {
            let k = choose|k: int| 0 <= k < front.len() && front[k] == last;
            assert(cells[k] == cells[cells.len() - 1]);
        }
        if tiles[last].mine {
            assert(found =~= before.insert(last));
        } else {
            assert(found =~= before);
        }
    }
}

/// The number of mines around a tile is the number of tiles with a mine
/// that touch it.
pub proof fn lemma_mines_around_counts(tiles: Seq<TileView>, width: nat, height: nat, index: int)
    requires
        0 <= index < width * height,
    ensures
        mines_touching(tiles, width, height, index).finite(),
        mines_around(tiles, width, height, index) == mines_touching(
            tiles,
            width,
            height,
            index,
        ).len(),
        mines_around(tiles, width, height, index) <= 8,
{
    let cells = neighbors(width, height, index);
    lemma_neighbors(width, height, index);
    lemma_mines_among_counts(tiles, cells);
    lemma_mines_among_bound(tiles, cells);
    assert(mines_touching(tiles, width, height, index) =~= Set::new(
        |j: int| cells.contains(j) && tiles[j].mine,
    ));
}

/// On a numbered grid, the number that a tile without a mine carries is the
/// number of tiles with a mine that touch it, which is at most eight.
pub proof fn lemma_numbers_count_touching_mines(
    tiles: Seq<TileView>,
    width: nat,
    height: nat,
    index: int,
)
    requires
        tiles_fit(tiles, width, height),
        numbered(tiles, width, height),
        0 <= index < tiles.len(),
        !tiles[index].mine,
    ensures
        mines_touching(tiles, width, height, index).finite(),
        tiles[index].adjacent_mines == mines_touching(tiles, width, height, index).len(),
        tiles[index].adjacent_mines <= 8,
{
    lemma_mines_around_counts(tiles, width, height, index);
}

/// Where no mine is around a tile, no tile that touches it holds one.
pub proof fn lemma_no_mines_around(
    tiles: Seq<TileView>,
    width: nat,
    height: nat,
    index: int,
    other: int,
)
    requires
        0 <= index < width * height,
        mines_around(tiles, width, height, index) == 0,
        adjacent(width, height, index, other),
    ensures
        !tiles[other].mine,
{
    lemma_mines_around_counts(tiles, width, height, index);
    let touching = mines_touching(tiles, width, height, index);
    if tiles[other].mine {
        assert(touching.contains(other));
        assert(touching.len() == 0);
        assert(false);
    }
}

} // verus!
