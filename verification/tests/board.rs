use minesweeper::{Board, ClickError, Difficulty, GameState, Minefield, Tile};

fn board_with_mines(width: usize, height: usize, mines: &[usize]) -> Board {
    let mut field = Minefield::new(width, height).unwrap();
    for &mine in mines {
        assert!(field.place_mine(mine, usize::MAX));
    }
    Board::with_minefield(field)
}

fn revealed(board: &Board) -> Vec<usize> {
    board.get_tiles().iter().filter(|t| t.is_revealed()).map(|t| t.get_index()).collect()
}

/// Number of mines among the tiles that touch the one at `index`, counted
/// from the positions.
fn mines_next_to(tiles: &[Tile], width: usize, height: usize, index: usize) -> usize {
    let (x, y) = ((index % width) as i64, (index / width) as i64);
    let mut count = 0;
    for ny in y - 1..=y + 1 {
        for nx in x - 1..=x + 1 {
            let on_grid = nx >= 0 && ny >= 0 && nx < width as i64 && ny < height as i64;
            if on_grid && (nx, ny) != (x, y) {
                if tiles[ny as usize * width + nx as usize].has_mine() {
                    count += 1;
                }
            }
        }
    }
    count
}

fn check_after_first_click(difficulty: Difficulty, index: usize) {
    let (width, height, mine_count) = difficulty.get_config();
    let mut board = Board::new(difficulty);
    assert_eq!(board.on_click(index, true), Ok(()));
    let tiles = board.get_tiles();
    assert_eq!(tiles.len(), width * height);
    assert!(tiles[index].is_revealed());
    assert!(!tiles[index].has_mine());
    assert_eq!(tiles.iter().filter(|t| t.has_mine()).count(), mine_count);
    for (i, tile) in tiles.iter().enumerate() {
        assert_eq!(tile.get_index(), i);
        if !tile.has_mine() {
            assert_eq!(tile.get_adjacent_mines(), mines_next_to(&tiles, width, height, i));
        }
        assert!(!(tile.has_mine() && tile.is_revealed()));
    }
    assert!(matches!(board.get_state(), GameState::Playing | GameState::Won));
}

#[test]
fn new_board_is_ready_and_clear() {
    for (difficulty, width, height, mine_count) in [
        (Difficulty::Easy, 9, 9, 10),
        (Difficulty::Medium, 16, 16, 40),
        (Difficulty::Hard, 30, 16, 99),
    ] {
        let board = Board::new(difficulty);
        assert_eq!(board.get_state(), GameState::Ready);
        assert_eq!(board.get_width(), width);
        assert_eq!(board.get_height(), height);
        assert_eq!(board.get_mines(), mine_count);
        let tiles = board.get_tiles();
        assert_eq!(tiles.len(), width * height);
        for (i, tile) in tiles.iter().enumerate() {
            assert_eq!(*tile, Tile::new(i));
            assert!(!tile.is_revealed() && !tile.is_flagged() && !tile.has_mine());
        }
    }
}

#[test]
fn first_click_places_the_mines_away_from_the_click() {
    for index in [0, 8, 40, 72, 80] {
        check_after_first_click(Difficulty::Easy, index);
    }
    for index in [0, 255, 120] {
        check_after_first_click(Difficulty::Medium, index);
    }
    for index in [0, 29, 479, 200] {
        check_after_first_click(Difficulty::Hard, index);
    }
}

#[test]
fn first_click_draws_the_mines() {
    // With every draw rejected the mines would lie on the first 99 tiles.
    let mut board = Board::new(Difficulty::Hard);
    assert_eq!(board.on_click(479, true), Ok(()));
    let mines: Vec<usize> =
        board.get_tiles().iter().filter(|t| t.has_mine()).map(|t| t.get_index()).collect();
    assert_eq!(mines.len(), 99);
    assert_ne!(mines, (0..99).collect::<Vec<usize>>());
}

#[test]
fn easy_game_opens_in_the_centre() {
    let mut board = Board::new(Difficulty::Easy);
    assert_eq!(board.get_state(), GameState::Ready);
    assert_eq!(board.on_click(40, true), Ok(()));
    // A first click that clears the whole board at once wins on the spot.
    assert!(matches!(board.get_state(), GameState::Playing | GameState::Won));
    assert!(board.get_tiles()[40].is_revealed());
    assert_eq!(board.get_tiles().len(), 81);
}

#[test]
fn two_tiles_and_one_mine_are_won_by_the_first_click() {
    for index in [0, 1] {
        let mut board = Board::with_config(2, 1, 1).unwrap();
        assert_eq!(board.get_state(), GameState::Ready);
        assert_eq!(board.on_click(index, true), Ok(()));
        assert_eq!(board.get_state(), GameState::Won);
        let tiles = board.get_tiles();
        assert!(tiles[index].is_revealed() && !tiles[index].has_mine());
        assert!(tiles[1 - index].has_mine() && !tiles[1 - index].is_revealed());
        assert_eq!(tiles[index].get_adjacent_mines(), 1);
    }
}

#[test]
fn board_without_mines_is_won_by_the_first_click() {
    let mut board = Board::with_config(5, 4, 0).unwrap();
    assert_eq!(board.on_click(7, true), Ok(()));
    assert_eq!(board.get_state(), GameState::Won);
    assert!(board.get_tiles().iter().all(|t| t.is_revealed()));
}

#[test]
fn dense_board_places_a_mine_on_every_other_tile() {
    let mut board = Board::with_config(3, 3, 8).unwrap();
    assert_eq!(board.on_click(4, true), Ok(()));
    assert_eq!(board.get_state(), GameState::Won);
    let tiles = board.get_tiles();
    assert_eq!(tiles[4].get_adjacent_mines(), 8);
    assert!(tiles.iter().all(|t| t.has_mine() != (t.get_index() == 4)));
    assert_eq!(revealed(&board), vec![4]);
}

#[test]
fn custom_board_is_ready_and_clear() {
    let board = Board::with_config(7, 3, 5).unwrap();
    assert_eq!(board.get_state(), GameState::Ready);
    assert_eq!((board.get_width(), board.get_height(), board.get_mines()), (7, 3, 5));
    let tiles = board.get_tiles();
    assert_eq!(tiles.len(), 21);
    for (i, tile) in tiles.iter().enumerate() {
        assert_eq!(*tile, Tile::new(i));
    }
}

#[test]
fn custom_board_needs_a_tile_without_a_mine() {
    assert!(Board::with_config(2, 1, 2).is_none());
    assert!(Board::with_config(2, 1, 3).is_none());
    assert!(Board::with_config(3, 3, 9).is_none());
    assert!(Board::with_config(3, 3, 8).is_some());
    assert!(Board::with_config(1, 1, 0).is_some());
}

#[test]
fn custom_board_needs_tiles() {
    assert!(Board::with_config(0, 4, 0).is_none());
    assert!(Board::with_config(4, 0, 0).is_none());
    assert!(Board::with_config(usize::MAX, 2, 1).is_none());
}

#[test]
fn revealing_a_mine_loses() {
    let mut board = board_with_mines(3, 3, &[0]);
    assert_eq!(board.get_state(), GameState::Playing);
    assert_eq!(board.get_mines(), 1);
    assert_eq!(board.on_click(0, true), Ok(()));
    assert_eq!(board.get_state(), GameState::Lost);
    assert!(board.get_tiles()[0].is_revealed());
}

#[test]
fn clicks_after_a_loss_change_nothing() {
    let mut board = board_with_mines(3, 3, &[0]);
    assert_eq!(board.on_click(0, true), Ok(()));
    assert_eq!(board.get_state(), GameState::Lost);
    let tiles = board.get_tiles();
    for index in [0, 4, 8, 9, usize::MAX] {
        for left in [true, false] {
            assert_eq!(board.on_click(index, left), Ok(()));
            assert_eq!(board.get_tiles(), tiles);
            assert_eq!(board.get_state(), GameState::Lost);
        }
    }
}

#[test]
fn clicks_after_a_win_change_nothing() {
    let mut board = board_with_mines(4, 4, &[0]);
    assert_eq!(board.on_click(15, true), Ok(()));
    assert_eq!(board.get_state(), GameState::Won);
    let tiles = board.get_tiles();
    for index in [0, 5, 16] {
        for left in [true, false] {
            assert_eq!(board.on_click(index, left), Ok(()));
            assert_eq!(board.get_tiles(), tiles);
            assert_eq!(board.get_state(), GameState::Won);
        }
    }
    assert!(!tiles[0].is_revealed() && !tiles[0].is_flagged());
}

#[test]
fn click_off_the_board_is_refused() {
    let mut board = Board::new(Difficulty::Easy);
    let tiles = board.get_tiles();
    assert_eq!(board.on_click(81, true), Err(ClickError::InvalidIndex));
    assert_eq!(board.on_click(81, false), Err(ClickError::InvalidIndex));
    assert_eq!(board.on_click(usize::MAX, true), Err(ClickError::InvalidIndex));
    assert_eq!(board.get_state(), GameState::Ready);
    assert_eq!(board.get_tiles(), tiles);
    // The refused clicks did not use up the first click.
    assert_eq!(board.on_click(80, true), Ok(()));
    assert_eq!(board.get_tiles().iter().filter(|t| t.has_mine()).count(), 10);
    assert_eq!(board.on_click(81, true), Err(ClickError::InvalidIndex));
}

#[test]
fn flag_click_flags_one_tile_and_keeps_the_state() {
    let mut board = Board::new(Difficulty::Easy);
    assert_eq!(board.on_click(12, false), Ok(()));
    assert_eq!(board.get_state(), GameState::Ready);
    for tile in board.get_tiles() {
        assert_eq!(tile.is_flagged(), tile.get_index() == 12);
        assert!(!tile.is_revealed() && !tile.has_mine());
    }
    // A second flag click leaves the flag where it is.
    assert_eq!(board.on_click(12, false), Ok(()));
    assert!(board.get_tiles()[12].is_flagged());
}

#[test]
fn flag_click_in_play_keeps_the_state() {
    let mut board = board_with_mines(4, 4, &[0, 15]);
    assert_eq!(board.on_click(5, true), Ok(()));
    assert_eq!(board.get_state(), GameState::Playing);
    let shown = revealed(&board);
    assert_eq!(board.on_click(0, false), Ok(()));
    assert_eq!(board.on_click(15, false), Ok(()));
    assert_eq!(board.get_state(), GameState::Playing);
    assert_eq!(revealed(&board), shown);
    assert!(board.get_tiles()[0].is_flagged() && board.get_tiles()[15].is_flagged());
}

#[test]
fn flags_before_the_first_click_hold_back_the_fill() {
    let mut board = Board::with_config(5, 1, 0).unwrap();
    assert_eq!(board.on_click(2, false), Ok(()));
    assert_eq!(board.on_click(0, true), Ok(()));
    assert_eq!(revealed(&board), vec![0, 1]);
    assert_eq!(board.get_state(), GameState::Playing);
    // A left click reveals a flagged tile all the same.
    assert_eq!(board.on_click(2, true), Ok(()));
    assert_eq!(revealed(&board), vec![0, 1, 2, 3, 4]);
    assert_eq!(board.get_state(), GameState::Won);
    assert!(board.get_tiles()[2].is_flagged());
}

#[test]
fn flagged_tile_is_never_revealed_by_the_fill() {
    let mut board = board_with_mines(4, 4, &[0]);
    assert_eq!(board.on_click(10, false), Ok(()));
    assert_eq!(board.on_click(15, true), Ok(()));
    let mut expected: Vec<usize> = (1..16).collect();
    expected.retain(|&i| i != 10);
    assert_eq!(revealed(&board), expected);
    assert_eq!(board.get_state(), GameState::Playing);
    assert_eq!(board.on_click(10, true), Ok(()));
    assert_eq!(board.get_state(), GameState::Won);
}

#[test]
fn second_click_on_an_open_tile_reveals_nothing_more() {
    let mut board = board_with_mines(9, 9, &[0, 13, 26, 39, 52, 65, 78]);
    assert_eq!(board.on_click(45, true), Ok(()));
    let once = board.get_tiles();
    assert_eq!(board.get_state(), GameState::Playing);
    assert_eq!(board.on_click(45, true), Ok(()));
    assert_eq!(board.get_tiles(), once);
    assert_eq!(board.get_state(), GameState::Playing);
}

#[test]
fn click_on_a_numbered_tile_reveals_that_tile_only() {
    let mut board = board_with_mines(4, 4, &[0]);
    assert_eq!(board.on_click(5, true), Ok(()));
    assert_eq!(revealed(&board), vec![5]);
    assert_eq!(board.get_tiles()[5].get_adjacent_mines(), 1);
    assert_eq!(board.get_state(), GameState::Playing);
}

#[test]
fn resumed_board_counts_and_numbers_its_mines() {
    let board = board_with_mines(3, 3, &[0, 2, 4]);
    assert_eq!(board.get_mines(), 3);
    assert_eq!((board.get_width(), board.get_height()), (3, 3));
    assert_eq!(board.get_state(), GameState::Playing);
    let numbers: Vec<usize> = board.get_tiles().iter().map(|t| t.get_adjacent_mines()).collect();
    assert_eq!(numbers, vec![0, 3, 0, 2, 0, 2, 1, 1, 1]);
}

#[test]
fn resumed_board_takes_its_state_from_the_tiles() {
    let mut lost = Minefield::new(2, 2).unwrap();
    assert!(lost.place_mine(1, usize::MAX));
    lost.uncover(1);
    assert_eq!(Board::with_minefield(lost).get_state(), GameState::Lost);

    let mut won = Minefield::new(2, 1).unwrap();
    assert!(won.place_mine(1, usize::MAX));
    won.uncover(0);
    assert_eq!(Board::with_minefield(won).get_state(), GameState::Won);
}

#[test]
fn tiles_are_handed_out_as_a_copy() {
    let mut board = Board::new(Difficulty::Easy);
    let mut tiles = board.get_tiles();
    tiles.clear();
    tiles.push(Tile::new(99));
    assert_eq!(board.get_tiles().len(), 81);
    assert_eq!(board.get_tiles()[0], Tile::new(0));
    assert_eq!(board.on_click(0, false), Ok(()));
    assert!(board.get_tiles()[0].is_flagged());
}

#[test]
fn display_shows_covered_tiles_numbers_and_mines() {
    let mut board = board_with_mines(4, 4, &[0]);
    let covered: Vec<Vec<char>> = vec![vec!['*'; 4]; 4];
    assert_eq!(board.display(), covered);
    assert_eq!(board.on_click(5, true), Ok(()));
    assert_eq!(board.display()[1], vec!['*', '1', '*', '*']);
    assert_eq!(board.on_click(0, true), Ok(()));
    assert_eq!(board.get_state(), GameState::Lost);
    assert_eq!(board.display()[0][0], 'b');
}

#[test]
fn display_after_a_win() {
    let mut board = board_with_mines(4, 3, &[0]);
    assert_eq!(board.on_click(11, true), Ok(()));
    assert_eq!(board.get_state(), GameState::Won);
    let rows: Vec<String> = board.display().iter().map(|row| row.iter().collect()).collect();
    assert_eq!(rows, vec!["*100", "1100", "0000"]);
}

#[test]
fn display_shows_the_number_eight() {
    let mut board = Board::with_config(3, 3, 8).unwrap();
    assert_eq!(board.on_click(4, true), Ok(()));
    let rows: Vec<String> = board.display().iter().map(|row| row.iter().collect()).collect();
    assert_eq!(rows, vec!["***", "*8*", "***"]);
}

/// Checks what holds of a board between any two clicks, from the outside.
fn check_board(board: &Board, before: &[Tile]) {
    let (width, height) = (board.get_width(), board.get_height());
    let tiles = board.get_tiles();
    assert_eq!(tiles.len(), width * height);
    assert_eq!(tiles.len(), before.len());
    for (i, tile) in tiles.iter().enumerate() {
        assert_eq!(tile.get_index(), i);
        assert!(tile.is_revealed() || !before[i].is_revealed());
        assert!(tile.is_flagged() || !before[i].is_flagged());
    }
    let mines = tiles.iter().filter(|t| t.has_mine()).count();
    let mine_shown = tiles.iter().any(|t| t.has_mine() && t.is_revealed());
    let all_safe_shown = tiles.iter().all(|t| t.has_mine() || t.is_revealed());
    match board.get_state() {
        GameState::Ready => {
            assert_eq!(mines, 0);
            assert!(tiles.iter().all(|t| !t.is_revealed()));
        }
        GameState::Playing => {
            assert_eq!(mines, board.get_mines());
            assert!(!mine_shown && !all_safe_shown);
        }
        GameState::Lost => {
            assert_eq!(mines, board.get_mines());
            assert!(mine_shown);
        }
        GameState::Won => {
            assert_eq!(mines, board.get_mines());
            assert!(!mine_shown && all_safe_shown);
        }
    }
    if board.get_state() != GameState::Ready {
        for (i, tile) in tiles.iter().enumerate() {
            if !tile.has_mine() {
                assert_eq!(tile.get_adjacent_mines(), mines_next_to(&tiles, width, height, i));
            }
        }
    }
}

#[test]
fn whole_games_keep_the_board_in_order() {
    for difficulty in [Difficulty::Easy, Difficulty::Medium, Difficulty::Hard] {
        for stride in [1usize, 7, 13] {
            let mut board = Board::new(difficulty);
            let total = board.get_tiles().len();
            let mut index = total / 2;
            for turn in 0..total {
                let before = board.get_tiles();
                let state = board.get_state();
                let left = turn % 5 != 3;
                assert_eq!(board.on_click(index, left), Ok(()));
                check_board(&board, &before);
                let tiles = board.get_tiles();
                if state == GameState::Lost || state == GameState::Won {
                    assert_eq!(tiles, before);
                    assert_eq!(board.get_state(), state);
                } else if left {
                    assert!(tiles[index].is_revealed());
                    let lost = board.get_state() == GameState::Lost;
                    assert_eq!(lost, tiles[index].has_mine());
                } else {
                    assert!(tiles[index].is_flagged());
                    assert_eq!(board.get_state(), state);
                    let shown = |ts: &[Tile]| ts.iter().filter(|t| t.is_revealed()).count();
                    assert_eq!(shown(&tiles), shown(&before));
                }
                if state != GameState::Ready {
                    for (now, then) in tiles.iter().zip(before.iter()) {
                        assert_eq!(now.has_mine(), then.has_mine());
                        assert_eq!(now.get_adjacent_mines(), then.get_adjacent_mines());
                    }
                }
                index = (index + stride) % total;
            }
        }
    }
}

#[test]
fn fill_reveals_what_zero_tiles_lead_to_and_no_more() {
    // After the first click every revealed tile but the clicked one touches a
    // revealed tile that shows no mine around it, and every such tile has all
    // its neighbours revealed.
    let mut board = Board::new(Difficulty::Medium);
    assert_eq!(board.on_click(120, true), Ok(()));
    let tiles = board.get_tiles();
    let (width, height) = (16i64, 16i64);
    for tile in &tiles {
        let index = tile.get_index();
        let (x, y) = ((index as i64) % width, (index as i64) / width);
        let mut next_to_open_zero = false;
        for ny in (y - 1).max(0)..=(y + 1).min(height - 1) {
            for nx in (x - 1).max(0)..=(x + 1).min(width - 1) {
                let other = &tiles[(ny * width + nx) as usize];
                if other.get_index() == index {
                    continue;
                }
                let open_zero =
                    other.is_revealed() && !other.has_mine() && other.get_adjacent_mines() == 0;
                next_to_open_zero = next_to_open_zero || open_zero;
                if tile.is_revealed() && tile.get_adjacent_mines() == 0 {
                    assert!(other.is_revealed());
                }
            }
        }
        if index != 120 {
            assert_eq!(tile.is_revealed(), next_to_open_zero);
        }
    }
}
