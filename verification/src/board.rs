//! The game: a minefield, the number of mines it is to hold, and the state
//! machine that clicks drive.

use crate::fill::{expand_tiles, lemma_fill_reveals_no_mine};
use crate::grid::{calculate_index, cell_index, lemma_cell_index};
use crate::minefield::{fresh_tiles, Minefield};
use crate::random::thread_rng;
use crate::rules::{
    evaluate, flag, free_total, lemma_count_agree, lemma_count_zero, lemma_free_on_clear_grid,
    lemma_number_tiles, lemma_numbers_count_touching_mines, lemma_same_mines_same_numbers,
    lemma_same_mines_same_state, mine_revealed, mine_total, mines_added, number_tiles, numbered,
    tiles_fit, uncover, with_mines_of, GameState,
};
use crate::settings::{lemma_config_has_room, Difficulty};
use crate::tile::{Tile, TileView};
use rand::rngs::ThreadRng;
use vstd::prelude::*;

verus! {

/// Why a click was refused.
#[derive(Clone, Copy, PartialEq, Eq, Structural, Debug)]
pub enum ClickError {
    /// The index names no tile of the board.
    InvalidIndex,
}

/// A board as a plain mathematical record.
pub struct BoardView {
    /// Number of columns.
    pub width: nat,
    /// Number of rows.
    pub height: nat,
    /// Number of mines that the board holds once they are placed.
    pub mine_count: nat,
    /// The tiles, row by row.
    pub tiles: Seq<TileView>,
    /// Where the game stands.
    pub state: GameState,
    /// The first reveal has happened, and with it the placing of the mines.
    pub first_click_done: bool,
}

/// A game of Minesweeper.
pub struct Board {
    state: GameState,
    field: Minefield,
    rng: ThreadRng,
    first_click: bool,
    mine_count: usize,
}

impl View for Board {
    type V = BoardView;

    closed spec fn view(&self) -> BoardView {
        BoardView {
            width: self.field@.width,
            height: self.field@.height,
            mine_count: self.mine_count as nat,
            tiles: self.field@.tiles,
            state: self.state,
            first_click_done: !self.first_click,
        }
    }
}

/// What holds of a board between any two clicks.
///
/// Before the first reveal the board is ready, holds no mine, shows no tile
/// and has more tiles than it is to hold mines. From the first reveal on it
/// holds exactly its number of mines, every tile without a mine carries the
/// number of mines around it, and the state is the one that the tiles call
/// for.
pub open spec fn board_valid(board: BoardView) -> bool {
    &&& tiles_fit(board.tiles, board.width, board.height)
    &&& if board.first_click_done {
        &&& mine_total(board.tiles) == board.mine_count
        &&& numbered(board.tiles, board.width, board.height)
        &&& board.state == evaluate(board.tiles, GameState::Playing)
    } else {
        &&& board.state == GameState::Ready
        &&& board.mine_count < board.tiles.len()
        &&& forall|i: int|
            0 <= i < board.tiles.len() ==> !(#[trigger] board.tiles[i]).mine
                && !board.tiles[i].revealed
    }
}

/// A board on which nothing has happened yet.
pub open spec fn ready_board(width: nat, height: nat, mine_count: nat) -> BoardView {
    BoardView {
        width,
        height,
        mine_count,
        tiles: fresh_tiles(width * height),
        state: GameState::Ready,
        first_click_done: false,
    }
}

/// A board that takes up play on a prepared minefield: the tiles are
/// numbered, the mines are those of the field, and the state is the one
/// that the tiles call for.
pub open spec fn resumed_board(width: nat, height: nat, tiles: Seq<TileView>) -> BoardView {
    BoardView {
        width,
        height,
        mine_count: mine_total(tiles),
        tiles: number_tiles(tiles, width, height),
        state: evaluate(number_tiles(tiles, width, height), GameState::Playing),
        first_click_done: true,
    }
}

/// The board after a click that flags the tile at `index`.
pub open spec fn flag_click(board: BoardView, index: int) -> BoardView {
    BoardView { tiles: flag(board.tiles, index), ..board }
}

/// The board after a click that reveals the tile at `index`, on a board
/// whose mines are placed: the tile is uncovered, the fill spreads from it,
/// and the state follows the tiles.
pub open spec fn reveal_click(board: BoardView, index: int) -> BoardView {
    let tiles = expand_tiles(uncover(board.tiles, index), board.width, board.height, index);
    BoardView { tiles, state: evaluate(tiles, board.state), ..board }
}

/// The board after the first reveal, at `index`, when the mines fall as in
/// `layout`: the tile is uncovered, the mines are placed, the tiles are
/// numbered, the fill spreads, and the state follows the tiles.
pub open spec fn first_click(board: BoardView, index: int, layout: Seq<TileView>) -> BoardView {
    let placed = with_mines_of(uncover(board.tiles, index), layout);
    let tiles = expand_tiles(
        number_tiles(placed, board.width, board.height),
        board.width,
        board.height,
        index,
    );
    BoardView {
        tiles,
        state: evaluate(tiles, GameState::Playing),
        first_click_done: true,
        ..board
    }
}

/// The board after a click, when the mines of a first reveal fall as in
/// `layout`. A board whose game is over, and a click that names no tile,
/// leave the board as it is.
pub open spec fn click(
    board: BoardView,
    index: int,
    left: bool,
    layout: Seq<TileView>,
) -> BoardView {
    if board.state.is_terminal() || !(0 <= index < board.tiles.len()) {
        board
    } else if !left {
        flag_click(board, index)
    } else if board.first_click_done {
        reveal_click(board, index)
    } else {
        first_click(board, index, layout)
    }
}

/// A click that flags a tile keeps the board as a board is between clicks,
/// and changes neither the state nor what a second look at the tiles would
/// make of it.
pub proof fn lemma_flag_click_valid(board: BoardView, index: int)
    requires
        board_valid(board),
        !board.state.is_terminal(),
        0 <= index < board.tiles.len(),
    ensures
        board_valid(flag_click(board, index)),
        evaluate(flag(board.tiles, index), board.state) == board.state,
{
    let tiles = flag(board.tiles, index);
    lemma_same_mines_same_state(board.tiles, tiles, GameState::Playing);
    lemma_same_mines_same_state(board.tiles, tiles, board.state);
    if board.first_click_done {
        lemma_same_mines_same_numbers(board.tiles, tiles, board.width, board.height);
    } else {
        assert(!board.tiles[0].mine && !board.tiles[0].revealed);
        if mine_revealed(board.tiles) {
            let i = choose|i: int|
                0 <= i < board.tiles.len() && (#[trigger] board.tiles[i]).mine
                    && board.tiles[i].revealed;
        }
        assert(tiles[index].index == index);
    }
}

/// A click that reveals a tile on a board whose mines are placed keeps the
/// board as a board is between clicks.
pub proof fn lemma_reveal_click_valid(board: BoardView, index: int)
    requires
        board_valid(board),
        !board.state.is_terminal(),
        board.first_click_done,
        0 <= index < board.tiles.len(),
    ensures
        board_valid(reveal_click(board, index)),
{
    let after = reveal_click(board, index);
    lemma_same_mines_same_numbers(board.tiles, after.tiles, board.width, board.height);
}

/// The first reveal leaves the board as a board is between clicks: the mines
/// are placed, as many as the board is to hold and none of them on the tile
/// that was clicked, which is revealed.
pub proof fn lemma_first_click_valid(board: BoardView, index: int, layout: Seq<TileView>)
    requires
        board_valid(board),
        !board.first_click_done,
        0 <= index < board.tiles.len(),
        layout.len() == board.tiles.len(),
        !layout[index].mine,
        mine_total(layout) == board.mine_count,
    ensures
        board_valid(first_click(board, index, layout)),
        first_click(board, index, layout).first_click_done,
        mine_total(first_click(board, index, layout).tiles) == board.mine_count,
        !first_click(board, index, layout).tiles[index].mine,
        first_click(board, index, layout).tiles[index].revealed,
        first_click(board, index, layout).state == GameState::Playing || first_click(
            board,
            index,
            layout,
        ).state == GameState::Won,
{
    let placed = with_mines_of(uncover(board.tiles, index), layout);
    let numbers = number_tiles(placed, board.width, board.height);
    let after = first_click(board, index, layout);
    lemma_count_agree(placed, layout, |t: TileView| t.mine);
    lemma_number_tiles(placed, board.width, board.height);
    lemma_same_mines_same_numbers(numbers, after.tiles, board.width, board.height);
    if mine_revealed(after.tiles) {
        let i = choose|i: int|
            0 <= i < after.tiles.len() && (#[trigger] after.tiles[i]).mine
                && after.tiles[i].revealed;
        assert(numbers[i].mine);
        assert(!board.tiles[i].revealed);
        if i != index {
            lemma_fill_reveals_no_mine(numbers, board.width, board.height, index, i);
        }
        assert(false);
    }
}

/// On a board in play, the reveal of a tile with a mine loses the game, and
/// the reveal of a tile without one does not.
pub proof fn lemma_reveal_click_outcome(board: BoardView, index: int)
    requires
        board_valid(board),
        board.first_click_done,
        !board.state.is_terminal(),
        0 <= index < board.tiles.len(),
    ensures
        board.state == GameState::Playing,
        reveal_click(board, index).tiles[index].revealed,
        board.tiles[index].mine <==> reveal_click(board, index).state == GameState::Lost,
{
    let shown = uncover(board.tiles, index);
    let after = reveal_click(board, index);
    assert(after.tiles[index].revealed);
    if board.tiles[index].mine {
        assert(after.tiles[index].mine && after.tiles[index].revealed);
    } else if mine_revealed(after.tiles) {
        let i = choose|i: int|
            0 <= i < after.tiles.len() && (#[trigger] after.tiles[i]).mine
                && after.tiles[i].revealed;
        assert(board.tiles[i].mine);
        if board.tiles[i].revealed {
            assert(mine_revealed(board.tiles));
        }
        lemma_same_mines_same_numbers(board.tiles, shown, board.width, board.height);
        lemma_fill_reveals_no_mine(shown, board.width, board.height, index, i);
        assert(false);
    }
}

/// A click takes nothing back: the board keeps its size and its number of
/// mines, a tile that is revealed or flagged stays so, and once the mines
/// are placed, they and the numbers stay as they are.
pub proof fn lemma_click_takes_nothing_back(
    board: BoardView,
    index: int,
    left: bool,
    layout: Seq<TileView>,
)
    requires
        board_valid(board),
    ensures
        click(board, index, left, layout).width == board.width,
        click(board, index, left, layout).height == board.height,
        click(board, index, left, layout).mine_count == board.mine_count,
        click(board, index, left, layout).tiles.len() == board.tiles.len(),
        board.first_click_done ==> click(board, index, left, layout).first_click_done,
        board.state.is_terminal() ==> click(board, index, left, layout) == board,
        forall|i: int|
            0 <= i < board.tiles.len() ==> {
                let then = board.tiles[i];
                let now = #[trigger] click(board, index, left, layout).tiles[i];
                &&& now.index == then.index
                &&& then.revealed ==> now.revealed
                &&& then.flagged ==> now.flagged
                &&& board.first_click_done ==> now.mine == then.mine && now.adjacent_mines
                    == then.adjacent_mines
            },
{
}

/// Every click leaves the board as a board is between clicks and moves the
/// game forward only: a ready board stays ready until the first reveal,
/// which starts play or wins at once; a board in play stays in play, is lost
/// or is won; a game that is over stays as it is.
pub proof fn lemma_click_moves_forward(
    board: BoardView,
    index: int,
    left: bool,
    layout: Seq<TileView>,
)
    requires
        board_valid(board),
        left && !board.first_click_done && 0 <= index < board.tiles.len() ==> {
            &&& layout.len() == board.tiles.len()
            &&& !layout[index].mine
            &&& mine_total(layout) == board.mine_count
        },
    ensures
        board_valid(click(board, index, left, layout)),
        board.state == GameState::Ready ==> {
            let next = click(board, index, left, layout).state;
            if left && 0 <= index < board.tiles.len() {
                next == GameState::Playing || next == GameState::Won
            } else {
                next == GameState::Ready
            }
        },
        board.state == GameState::Playing ==> click(board, index, left, layout).state
            != GameState::Ready,
        board.state.is_terminal() ==> click(board, index, left, layout) == board,
{
    if !board.state.is_terminal() && 0 <= index < board.tiles.len() {
        if !left {
            lemma_flag_click_valid(board, index);
        } else if board.first_click_done {
            lemma_reveal_click_valid(board, index);
            lemma_reveal_click_outcome(board, index);
        } else {
            lemma_first_click_valid(board, index, layout);
        }
    }
}

/// The character that stands for a number of mines of at most eight.
pub open spec fn digit(count: nat) -> char {
    if count == 0 {
        '0'
    } else if count == 1 {
        '1'
    } else if count == 2 {
        '2'
    } else if count == 3 {
        '3'
    } else if count == 4 {
        '4'
    } else if count == 5 {
        '5'
    } else if count == 6 {
        '6'
    } else if count == 7 {
        '7'
    } else {
        '8'
    }
}

/// The character that shows a tile: `*` while it is covered, `b` for a
/// revealed mine, else the number of mines around it.
pub open spec fn glyph(tile: TileView) -> char {
    if !tile.revealed {
        '*'
    } else if tile.mine {
        'b'
    } else {
        digit(tile.adjacent_mines)
    }
}

/// The characters that show row `y` of the board, column by column.
pub open spec fn display_row(board: BoardView, y: int) -> Seq<char> {
    Seq::new(board.width, |x: int| glyph(board.tiles[cell_index(board.width, x, y)]))
}

impl Board {
    /// The board is as a board is between any two clicks.
    pub open spec fn inv(&self) -> bool {
        board_valid(self@)
    }

    /// A board of the given difficulty, ready for the first click.
    pub fn new(difficulty: Difficulty) -> (board: Board)
        ensures
            board.inv(),
            board@ == ready_board(
                difficulty.config().0,
                difficulty.config().1,
                difficulty.config().2,
            ),
            board@.state == GameState::Ready,
            forall|i: int|
                0 <= i < board@.tiles.len() ==> {
                    let tile = #[trigger] board@.tiles[i];
                    !tile.revealed && !tile.flagged && !tile.mine
                },
    {
        let (width, height, mine_count) = difficulty.get_config();
        proof {
            lemma_config_has_room(difficulty);
        }
        let field = Minefield::new(width, height).unwrap();
        Board { state: GameState::Ready, field, rng: thread_rng(), first_click: true, mine_count }
    }

    /// A board of the given size that is to hold `mine_count` mines, ready
    /// for the first click; or nothing where the size gives no tile, gives
    /// more tiles than an index can name, or leaves no tile without a mine.
    pub fn with_config(width: usize, height: usize, mine_count: usize) -> (made: Option<Board>)
        ensures
            made.is_some() <==> mine_count < width * height <= usize::MAX,
            made.is_some() ==> made.unwrap().inv() && made.unwrap()@ == ready_board(
                width as nat,
                height as nat,
                mine_count as nat,
            ),
    {
        match Minefield::new(width, height) {
            Some(field) => {
                if mine_count < field.len() {
                    Some(
                        Board {
                            state: GameState::Ready,
                            field,
                            rng: thread_rng(),
                            first_click: true,
                            mine_count,
                        },
                    )
                } else {
                    None
                }
            },
            None => None,
        }
    }

    /// Where the game stands.
    pub fn get_state(&self) -> (state: GameState)
        ensures
            state == self@.state,
    {
        self.state
    }

    /// Number of columns.
    pub fn get_width(&self) -> (width: usize)
        ensures
            width == self@.width,
    {
        self.field.get_width()
    }

    /// Number of rows.
    pub fn get_height(&self) -> (height: usize)
        ensures
            height == self@.height,
    {
        self.field.get_height()
    }

    /// Number of mines that the board holds once they are placed.
    pub fn get_mines(&self) -> (mine_count: usize)
        ensures
            mine_count == self@.mine_count,
    {
        self.mine_count
    }

    /// A copy of all tiles, row by row. What is done to the copy does
    /// nothing to the board.
    pub fn get_tiles(&self) -> (tiles: Vec<Tile>)
        ensures
            tiles@.len() == self@.tiles.len(),
            forall|i: int| 0 <= i < tiles@.len() ==> (#[trigger] tiles@[i])@ == self@.tiles[i],
    {
        self.field.get_tiles()
    }

    /// A board that takes up play on a prepared minefield. The mines are
    /// those of the field, however many; the tiles are numbered anew; the
    /// first reveal counts as done; and the state is the one that the tiles
    /// call for.
    pub fn with_minefield(field: Minefield) -> (board: Board)
        requires
            field.wf(),
        ensures
            board.inv(),
            board@ == resumed_board(field@.width, field@.height, field@.tiles),
    {
        let mut field = field;
        let ghost tiles = field@.tiles;
        let mine_count = field.count_mines();
        field.update_numbers();
        proof {
            lemma_number_tiles(tiles, field@.width, field@.height);
        }
        let state = field.evaluate(GameState::Playing);
        Board { state, field, rng: thread_rng(), first_click: false, mine_count }
    }

    /// Places `num_mine` mines at random, none of them on the tile at
    /// `init_index`, numbers the tiles and starts play.
    fn generate_mines(&mut self, init_index: usize, num_mine: usize)
        requires
            old(self).field.wf(),
            num_mine <= free_total(old(self)@.tiles, init_index as int),
        ensures
            final(self).field.wf(),
            final(self)@ == (BoardView {
                tiles: number_tiles(
                    with_mines_of(old(self)@.tiles, final(self)@.tiles),
                    old(self)@.width,
                    old(self)@.height,
                ),
                state: GameState::Playing,
                ..old(self)@
            }),
            mines_added(old(self)@.tiles, with_mines_of(old(self)@.tiles, final(self)@.tiles)),
            mine_total(final(self)@.tiles) == mine_total(old(self)@.tiles) + num_mine,
            init_index < old(self)@.tiles.len() ==> final(self)@.tiles[init_index as int].mine
                == old(self)@.tiles[init_index as int].mine,
    {
        self.field.place_mines(&mut self.rng, init_index, num_mine);
        let ghost placed = self.field@.tiles;
        self.field.update_numbers();
        self.state = GameState::Playing;
        proof {
            lemma_number_tiles(placed, self@.width, self@.height);
            assert(with_mines_of(old(self)@.tiles, self@.tiles) =~= placed);
        }
    }

    /// Brings the state in line with the tiles.
    fn update_state(&mut self)
        ensures
            final(self)@ == (BoardView {
                state: evaluate(old(self)@.tiles, old(self)@.state),
                ..old(self)@
            }),
            final(self).field == old(self).field,
    {
        self.state = self.field.evaluate(self.state);
    }

    /// A click on the tile at `index`: a left click reveals it, any other
    /// click flags it.
    ///
    /// Once the game is lost or won a click does nothing. On a board in play
    /// a click that names no tile is refused and changes nothing. The first
    /// reveal places the mines, away from the tile that was clicked, before
    /// the fill spreads from that tile.
    pub fn on_click(&mut self, index: usize, left: bool) -> (result: Result<(), ClickError>)
        requires
            old(self).inv(),
        ensures
            final(self).inv(),
            final(self)@ == click(old(self)@, index as int, left, final(self)@.tiles),
            result == if !old(self)@.state.is_terminal() && index >= old(self)@.tiles.len() {
                Err::<(), ClickError>(ClickError::InvalidIndex)
            } else {
                Ok::<(), ClickError>(())
            },
            result.is_err() || old(self)@.state.is_terminal() ==> final(self)@ == old(self)@,
            result.is_ok() && left && !old(self)@.first_click_done ==> {
                &&& final(self)@.first_click_done
                &&& final(self)@.tiles[index as int].revealed
                &&& !final(self)@.tiles[index as int].mine
                &&& mine_total(final(self)@.tiles) == final(self)@.mine_count
                &&& final(self)@.state == GameState::Playing || final(self)@.state
                    == GameState::Won
            },
    {
        if self.state != GameState::Ready && self.state != GameState::Playing {
            return Ok(());
        }
        if index >= self.field.len() {
            return Err(ClickError::InvalidIndex);
        }
        let ghost before = self@;
        if left {
            self.field.uncover(index);
            if self.first_click {
                let ghost shown = self@.tiles;
                proof {
                    lemma_count_zero(shown, |t: TileView| t.mine);
                    lemma_free_on_clear_grid(shown, index as int);
                }
                self.generate_mines(index, self.mine_count);
                self.first_click = false;
                let ghost numbers = self@.tiles;
                self.field.expand(index);
                proof {
                    let layout = self@.tiles;
                    assert(with_mines_of(shown, layout) =~= with_mines_of(shown, numbers));
                    lemma_count_agree(layout, numbers, |t: TileView| t.mine);
                    lemma_first_click_valid(before, index as int, layout);
                }
            } else {
                self.field.expand(index);
                proof {
                    lemma_reveal_click_valid(before, index as int);
                }
            }
        } else {
            self.field.flag(index);
            proof {
                lemma_flag_click_valid(before, index as int);
            }
        }
        self.update_state();
        Ok(())
    }

    /// The board as rows of characters: `*` for a covered tile, `b` for a
    /// revealed mine, and for any other tile the number of mines around it.
    pub fn display(&self) -> (rows: Vec<Vec<char>>)
        requires
            self.inv(),
        ensures
            rows@.len() == self@.height,
            forall|y: int| 0 <= y < rows@.len() ==> (#[trigger] rows@[y])@ == display_row(self@, y),
    {
        let width: usize = self.field.get_width();
        let height: usize = self.field.get_height();
        let total: usize = self.field.len();
        let mut rows: Vec<Vec<char>> = Vec::new();
        let mut y: usize = 0;
        while y < height
            invariant
                self.inv(),
                total == self@.tiles.len(),
                width == self@.width,
                height == self@.height,
                y <= height,
                rows@.len() == y,
                forall|r: int| 0 <= r < y ==> (#[trigger] rows@[r])@ == display_row(self@, r),
            decreases height - y,
        {
            let mut row: Vec<char> = Vec::new();
            let mut x: usize = 0;
            while x < width
                invariant
                    self.inv(),
                    total == self@.tiles.len(),
                    width == self@.width,
                    height == self@.height,
                    y < height,
                    x <= width,
                    row@.len() == x,
                    forall|c: int|
                        0 <= c < x ==> #[trigger] row@[c] == display_row(self@, y as int)[c],
                decreases width - x,
            {
                proof {
                    lemma_cell_index(self@.width, self@.height, x as int, y as int);
                }
                let tile = self.field.get(calculate_index(x, y, width));
                let shown: char = if !tile.is_revealed() {
                    '*'
                } else if tile.has_mine() {
                    'b'
                } else {
                    proof {
                        lemma_numbers_count_touching_mines(
                            self@.tiles,
                            self@.width,
                            self@.height,
                            cell_index(self@.width, x as int, y as int),
                        );
                    }
                    match tile.get_adjacent_mines() {
                        0 => '0',
                        1 => '1',
                        2 => '2',
                        3 => '3',
                        4 => '4',
                        5 => '5',
                        6 => '6',
                        7 => '7',
                        _ => '8',
                    }
                };
                row.push(shown);
                x += 1;
            }
            assert(row@ =~= display_row(self@, y as int));
            rows.push(row);
            y += 1;
        }
        rows
    }
}

} // verus!
