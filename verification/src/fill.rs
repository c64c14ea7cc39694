//! Flood fill: which tiles a reveal uncovers on its own.
//!
//! A fill starts on a tile and spreads over covered, unflagged tiles. It
//! leaves a tile for its neighbours only where the tile shows no mine
//! around it. What it reaches is stated here by paths, whatever the order in
//! which tiles are visited.

use crate::grid::adjacent;
use crate::rules::{
    covered_total, lemma_count_update, lemma_no_mines_around, numbered, uncover,
};
use crate::tile::TileView;
use vstd::prelude::*;

verus! {

/// `path` is a way along which a fill spreads: every tile but the last
/// shows no mine around it and touches the next one, and every tile but the
/// first is covered and unflagged.
pub open spec fn fill_path(tiles: Seq<TileView>, width: nat, height: nat, path: Seq<int>) -> bool {
    &&& path.len() >= 1
    &&& forall|k: int| 0 <= k < path.len() ==> 0 <= #[trigger] path[k] < tiles.len()
    &&& forall|k: int|
        0 <= k < path.len() - 1 ==> tiles[#[trigger] path[k]].adjacent_mines == 0 && adjacent(
            width,
            height,
            path[k],
            path[k + 1],
        )
    &&& forall|k: int|
        1 <= k < path.len() ==> !tiles[#[trigger] path[k]].revealed && !tiles[path[k]].flagged
}

/// A fill that starts on `start` uncovers `target`: a path of at least one
/// step leads from the one to the other.
pub open spec fn fill_reaches(
    tiles: Seq<TileView>,
    width: nat,
    height: nat,
    start: int,
    target: int,
) -> bool {
    exists|path: Seq<int>|
        #![trigger fill_path(tiles, width, height, path)]
        fill_path(tiles, width, height, path) && path.len() >= 2 && path[0] == start
            && path.last() == target
}

/// The tiles after a fill from `start`: what the fill reaches is revealed,
/// and nothing else changes.
pub open spec fn expand_tiles(tiles: Seq<TileView>, width: nat, height: nat, start: int) -> Seq<
    TileView,
> {
    Seq::new(
        tiles.len(),
        |t: int|
            TileView {
                revealed: tiles[t].revealed || fill_reaches(tiles, width, height, start, t),
                ..tiles[t]
            },
    )
}

/// `after` differs from `before` by tiles that were revealed, and by
/// nothing else.
pub open spec fn reveals_added(before: Seq<TileView>, after: Seq<TileView>) -> bool {
    &&& after.len() == before.len()
    &&& forall|i: int|
        0 <= i < before.len() ==> (#[trigger] after[i]) == (TileView {
            revealed: after[i].revealed,
            ..before[i]
        }) && (before[i].revealed ==> after[i].revealed)
}

/// Every neighbour of the tile at `index` is flagged or revealed: a fill has
/// nothing left to do around it.
pub open spec fn settled(tiles: Seq<TileView>, width: nat, height: nat, index: int) -> bool {
    forall|n: int| #[trigger]
        adjacent(width, height, index, n) && 0 <= n < tiles.len() ==> tiles[n].flagged
            || tiles[n].revealed
}

/// A fill spreads from a tile that it has reached, or from its start, to a
/// covered and unflagged neighbour.
pub proof fn lemma_fill_step(
    tiles: Seq<TileView>,
    width: nat,
    height: nat,
    start: int,
    from: int,
    to: int,
)
    requires
        0 <= start < tiles.len(),
        from == start || fill_reaches(tiles, width, height, start, from),
        0 <= from < tiles.len(),
        tiles[from].adjacent_mines == 0,
        adjacent(width, height, from, to),
        0 <= to < tiles.len(),
        !tiles[to].revealed,
        !tiles[to].flagged,
    ensures
        fill_reaches(tiles, width, height, start, to),
{
    if fill_reaches(tiles, width, height, start, from) {
        let path = choose|path: Seq<int>|
            #![trigger fill_path(tiles, width, height, path)]
            fill_path(tiles, width, height, path) && path.len() >= 2 && path[0] == start
                && path.last() == from;
        let longer = path.push(to);
        assert forall|k: int| 0 <= k < longer.len() - 1 implies tiles[#[trigger] longer[k]]
            .adjacent_mines == 0 && adjacent(width, height, longer[k], longer[k + 1]) by {
            if k < path.len() - 1 {
                assert(longer[k] == path[k]);
                assert(longer[k + 1] == path[k + 1]);
            }
        }
        assert forall|k: int| 1 <= k < longer.len() implies !tiles[#[trigger] longer[k]].revealed
            && !tiles[longer[k]].flagged by {
            if k < path.len() {
                assert(longer[k] == path[k]);
            }
        }
        assert forall|k: int| 0 <= k < longer.len() implies 0 <= #[trigger] longer[k]
            < tiles.len() by {
            if k < path.len() {
                assert(longer[k] == path[k]);
            }
        }
        assert(fill_path(tiles, width, height, longer));
        assert(longer[0] == start && longer.last() == to);
    } else {
        let path = seq![start, to];
        assert(path[0] == start && path[1] == to);
        assert(fill_path(tiles, width, height, path));
        assert(path.last() == to);
    }
}

/// What a fill reaches is covered and unflagged.
pub proof fn lemma_fill_reaches_covered(
    tiles: Seq<TileView>,
    width: nat,
    height: nat,
    start: int,
    target: int,
)
    requires
        fill_reaches(tiles, width, height, start, target),
    ensures
        0 <= target < tiles.len(),
        0 <= start < tiles.len(),
        !tiles[target].revealed,
        !tiles[target].flagged,
        tiles[start].adjacent_mines == 0,
{
    let path = choose|path: Seq<int>|
        #![trigger fill_path(tiles, width, height, path)]
        fill_path(tiles, width, height, path) && path.len() >= 2 && path[0] == start
            && path.last() == target;
    assert(path[path.len() - 1] == target);
    assert(path[0] == start);
}

/// A fill may spread from the tile at `z`: it is the start or was reached
/// from it, and it shows no mine around it.
pub open spec fn fill_origin(
    tiles: Seq<TileView>,
    width: nat,
    height: nat,
    start: int,
    z: int,
) -> bool {
    &&& 0 <= z < tiles.len()
    &&& tiles[z].adjacent_mines == 0
    &&& z == start || fill_reaches(tiles, width, height, start, z)
}

/// The tile at `z` is one whose neighbours the fill has to see to: the
/// start, or a tile uncovered since `before`, showing no mine around it.
pub open spec fn fill_source(
    before: Seq<TileView>,
    after: Seq<TileView>,
    start: int,
    z: int,
) -> bool {
    &&& 0 <= z < before.len()
    &&& z == start || (after[z].revealed && !before[z].revealed)
    &&& before[z].adjacent_mines == 0
}

/// Nothing was uncovered since `before` but what a fill from `start`
/// reaches.
pub open spec fn fill_sound(
    before: Seq<TileView>,
    after: Seq<TileView>,
    width: nat,
    height: nat,
    start: int,
) -> bool {
    forall|t: int|
        0 <= t < before.len() && (#[trigger] after[t]).revealed && !before[t].revealed
            ==> fill_reaches(before, width, height, start, t)
}

/// Every tile whose neighbours the fill has to see to is settled, or waits
/// in `pending`, or is the one in hand.
pub open spec fn fill_closed(
    before: Seq<TileView>,
    after: Seq<TileView>,
    width: nat,
    height: nat,
    start: int,
    pending: Seq<int>,
    in_hand: int,
) -> bool {
    forall|z: int| #[trigger]
        fill_source(before, after, start, z) ==> z == in_hand || pending.contains(z) || settled(
            after,
            width,
            height,
            z,
        )
}

/// The fill may spread from every tile that waits in `pending`.
pub open spec fn fill_pending(
    tiles: Seq<TileView>,
    width: nat,
    height: nat,
    start: int,
    pending: Seq<int>,
) -> bool {
    forall|k: int|
        0 <= k < pending.len() ==> fill_origin(tiles, width, height, start, #[trigger] pending[k])
}

/// A settled tile stays settled when more tiles are revealed.
pub proof fn lemma_settled_grows(
    before: Seq<TileView>,
    after: Seq<TileView>,
    width: nat,
    height: nat,
    z: int,
)
    requires
        reveals_added(before, after),
        settled(before, width, height, z),
    ensures
        settled(after, width, height, z),
{
    assert forall|n: int| #[trigger]
        adjacent(width, height, z, n) && 0 <= n < after.len() implies after[n].flagged
        || after[n].revealed by {
        assert(after[n] == (TileView { revealed: after[n].revealed, ..before[n] }));
    }
}

/// Taking the last waiting tile in hand keeps the bookkeeping of the fill.
pub proof fn lemma_fill_take(
    before: Seq<TileView>,
    after: Seq<TileView>,
    width: nat,
    height: nat,
    start: int,
    pending: Seq<int>,
)
    requires
        pending.len() > 0,
        fill_closed(before, after, width, height, start, pending, -1),
        fill_pending(before, width, height, start, pending),
    ensures
        fill_closed(before, after, width, height, start, pending.drop_last(), pending.last()),
        fill_pending(before, width, height, start, pending.drop_last()),
        fill_origin(before, width, height, start, pending.last()),
{
    let rest = pending.drop_last();
    assert forall|z: int| #[trigger] fill_source(before, after, start, z) implies z
        == pending.last() || rest.contains(z) || settled(after, width, height, z) by {
        if pending.contains(z) {
            let k = choose|k: int| 0 <= k < pending.len() && pending[k] == z;
            if k < rest.len() {
                assert(rest[k] == z);
            }
        }
    }
    assert forall|k: int| 0 <= k < rest.len() implies fill_origin(
        before,
        width,
        height,
        start,
        #[trigger] rest[k],
    ) by {
        assert(rest[k] == pending[k]);
    }
    assert(pending.last() == pending[pending.len() - 1]);
}

/// Uncovering a covered, unflagged neighbour of the tile in hand, and
/// letting it wait where it shows no mine around it, keeps the bookkeeping
/// of the fill and leaves one covered tile less.
pub proof fn lemma_fill_uncover(
    before: Seq<TileView>,
    after: Seq<TileView>,
    width: nat,
    height: nat,
    start: int,
    pending: Seq<int>,
    in_hand: int,
    n: int,
)
    requires
        0 <= start < before.len(),
        reveals_added(before, after),
        fill_sound(before, after, width, height, start),
        fill_closed(before, after, width, height, start, pending, in_hand),
        fill_pending(before, width, height, start, pending),
        fill_origin(before, width, height, start, in_hand),
        adjacent(width, height, in_hand, n),
        0 <= n < after.len(),
        !after[n].revealed,
        !after[n].flagged,
    ensures
        reveals_added(before, uncover(after, n)),
        reveals_added(after, uncover(after, n)),
        fill_sound(before, uncover(after, n), width, height, start),
        fill_closed(
            before,
            uncover(after, n),
            width,
            height,
            start,
            if before[n].adjacent_mines == 0 {
                pending.push(n)
            } else {
                pending
            },
            in_hand,
        ),
        fill_pending(
            before,
            width,
            height,
            start,
            if before[n].adjacent_mines == 0 {
                pending.push(n)
            } else {
                pending
            },
        ),
        covered_total(uncover(after, n)) + 1 == covered_total(after),
{
    let next = uncover(after, n);
    let waiting = if before[n].adjacent_mines == 0 {
        pending.push(n)
    } else {
        pending
    };
    assert(after[n] == (TileView { revealed: after[n].revealed, ..before[n] }));
    lemma_fill_step(before, width, height, start, in_hand, n);
    lemma_count_update(after, |t: TileView| !t.revealed, n, next[n]);
    assert forall|i: int| 0 <= i < before.len() implies (#[trigger] next[i]) == (TileView {
        revealed: next[i].revealed,
        ..before[i]
    }) && (before[i].revealed ==> next[i].revealed) by {
        assert(after[i] == (TileView { revealed: after[i].revealed, ..before[i] }));
    }
    assert forall|t: int|
        0 <= t < before.len() && (#[trigger] next[t]).revealed
            && !before[t].revealed implies fill_reaches(before, width, height, start, t) by {
        if t != n {
            assert(after[t].revealed);
        }
    }
    assert forall|k: int| 0 <= k < waiting.len() implies fill_origin(
        before,
        width,
        height,
        start,
        #[trigger] waiting[k],
    ) by {
        if k < pending.len() {
            assert(waiting[k] == pending[k]);
        }
    }
    assert forall|z: int| #[trigger] fill_source(before, next, start, z) implies z == in_hand
        || waiting.contains(z) || settled(next, width, height, z) by {
        if z == n {
            assert(waiting[pending.len() as int] == n);
        } else {
            assert(next[z] == after[z]);
            assert(fill_source(before, after, start, z));
            if pending.contains(z) {
                let k = choose|k: int| 0 <= k < pending.len() && pending[k] == z;
                assert(waiting[k] == z);
            } else if z != in_hand {
                lemma_settled_grows(after, next, width, height, z);
            }
        }
    }
}

/// Once the tile in hand is settled it needs no more attention.
pub proof fn lemma_fill_put_down(
    before: Seq<TileView>,
    after: Seq<TileView>,
    width: nat,
    height: nat,
    start: int,
    pending: Seq<int>,
    in_hand: int,
)
    requires
        fill_closed(before, after, width, height, start, pending, in_hand),
        settled(after, width, height, in_hand),
    ensures
        fill_closed(before, after, width, height, start, pending, -1),
{
}

/// Along a path of the fill every tile after the first is revealed, once
/// no tile waits any more.
pub proof fn lemma_fill_covers_path(
    before: Seq<TileView>,
    after: Seq<TileView>,
    width: nat,
    height: nat,
    start: int,
    path: Seq<int>,
    k: int,
)
    requires
        reveals_added(before, after),
        fill_closed(before, after, width, height, start, Seq::empty(), -1),
        fill_path(before, width, height, path),
        path[0] == start,
        1 <= k < path.len(),
    ensures
        after[path[k]].revealed,
    decreases k,
{
    let z = path[k - 1];
    if k > 1 {
        lemma_fill_covers_path(before, after, width, height, start, path, k - 1);
    }
    assert(0 <= z < before.len());
    assert(before[z].adjacent_mines == 0 && adjacent(width, height, z, path[k - 1 + 1]));
    assert(!before[path[k]].flagged);
    assert(fill_source(before, after, start, z));
    assert(!Seq::<int>::empty().contains(z));
    assert(settled(after, width, height, z));
    assert(adjacent(width, height, z, path[k]));
    assert(after[path[k]] == (TileView { revealed: after[path[k]].revealed, ..before[path[k]] }));
}

/// When no tile waits any more, the tiles are those that the fill is said
/// to leave.
pub proof fn lemma_fill_complete(
    before: Seq<TileView>,
    after: Seq<TileView>,
    width: nat,
    height: nat,
    start: int,
)
    requires
        reveals_added(before, after),
        fill_sound(before, after, width, height, start),
        fill_closed(before, after, width, height, start, Seq::empty(), -1),
    ensures
        after == expand_tiles(before, width, height, start),
{
    let wanted = expand_tiles(before, width, height, start);
    assert forall|t: int| 0 <= t < before.len() implies after[t] == wanted[t] by {
        assert(after[t] == (TileView { revealed: after[t].revealed, ..before[t] }));
        if fill_reaches(before, width, height, start, t) {
            let path = choose|path: Seq<int>|
                #![trigger fill_path(before, width, height, path)]
                fill_path(before, width, height, path) && path.len() >= 2 && path[0] == start
                    && path.last() == t;
            lemma_fill_covers_path(before, after, width, height, start, path, path.len() - 1);
        }
    }
    assert(after =~= wanted);
}

/// A fill leaves a flagged tile as it is: covered if it was covered, also
/// where it shows no mine around it and touches a tile that the fill
/// uncovers.
pub proof fn lemma_fill_spares_flagged(
    tiles: Seq<TileView>,
    width: nat,
    height: nat,
    start: int,
    index: int,
)
    requires
        0 <= index < tiles.len(),
        tiles[index].flagged,
    ensures
        expand_tiles(tiles, width, height, start)[index] == tiles[index],
{
    if fill_reaches(tiles, width, height, start, index) {
        lemma_fill_reaches_covered(tiles, width, height, start, index);
    }
}

/// A fill reveals tiles and changes nothing else; what was revealed stays
/// revealed.
pub proof fn lemma_fill_only_reveals(tiles: Seq<TileView>, width: nat, height: nat, start: int)
    ensures
        reveals_added(tiles, expand_tiles(tiles, width, height, start)),
{
}

/// A second fill from the same tile finds nothing more to reveal.
pub proof fn lemma_fill_idempotent(tiles: Seq<TileView>, width: nat, height: nat, start: int)
    ensures
        expand_tiles(expand_tiles(tiles, width, height, start), width, height, start)
            == expand_tiles(tiles, width, height, start),
{
    let once = expand_tiles(tiles, width, height, start);
    let twice = expand_tiles(once, width, height, start);
    assert forall|t: int| 0 <= t < once.len() implies !fill_reaches(
        once,
        width,
        height,
        start,
        t,
    ) by {
        if fill_reaches(once, width, height, start, t) {
            let path = choose|path: Seq<int>|
                #![trigger fill_path(once, width, height, path)]
                fill_path(once, width, height, path) && path.len() >= 2 && path[0] == start
                    && path.last() == t;
            let first = path[1];
            assert(0 <= path[0] < once.len());
            assert(0 <= first < once.len());
            assert(!once[first].revealed && !once[first].flagged);
            assert(once[path[0]].adjacent_mines == 0 && adjacent(width, height, path[0], path[1]));
            lemma_fill_step(tiles, width, height, start, start, first);
            assert(false);
        }
    }
    assert(twice =~= once);
}

/// On a numbered grid, no tile along a path of the fill holds a mine when
/// the first one holds none.
pub proof fn lemma_fill_path_is_clear(
    tiles: Seq<TileView>,
    width: nat,
    height: nat,
    path: Seq<int>,
    k: int,
)
    requires
        tiles.len() == width * height,
        numbered(tiles, width, height),
        fill_path(tiles, width, height, path),
        !tiles[path[0]].mine,
        0 <= k < path.len(),
    ensures
        !tiles[path[k]].mine,
    decreases k,
{
    if k > 0 {
        lemma_fill_path_is_clear(tiles, width, height, path, k - 1);
        let from = path[k - 1];
        assert(tiles[from].adjacent_mines == 0 && adjacent(width, height, from, path[k - 1 + 1]));
        lemma_no_mines_around(tiles, width, height, from, path[k]);
    }
}

/// On a numbered grid, a fill that starts on a tile without a mine reveals
/// no mine.
pub proof fn lemma_fill_reveals_no_mine(
    tiles: Seq<TileView>,
    width: nat,
    height: nat,
    start: int,
    index: int,
)
    requires
        tiles.len() == width * height,
        numbered(tiles, width, height),
        0 <= start < tiles.len(),
        !tiles[start].mine,
        0 <= index < tiles.len(),
        tiles[index].mine,
    ensures
        expand_tiles(tiles, width, height, start)[index] == tiles[index],
{
    if fill_reaches(tiles, width, height, start, index) {
        let path = choose|path: Seq<int>|
            #![trigger fill_path(tiles, width, height, path)]
            fill_path(tiles, width, height, path) && path.len() >= 2 && path[0] == start
                && path.last() == index;
        lemma_fill_path_is_clear(tiles, width, height, path, path.len() - 1);
    }
}

} // verus!
