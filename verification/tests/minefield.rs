use minesweeper::minefield::DRAWS_PER_TILE;
use minesweeper::{GameState, Minefield};

/// A field of the given size with mines on the given tiles, numbered.
fn field_with_mines(width: usize, height: usize, mines: &[usize]) -> Minefield {
    let mut field = Minefield::new(width, height).unwrap();
    for &mine in mines {
        assert!(field.place_mine(mine, usize::MAX));
    }
    field.update_numbers();
    field
}

fn revealed(field: &Minefield) -> Vec<usize> {
    field.get_tiles().iter().filter(|t| t.is_revealed()).map(|t| t.get_index()).collect()
}

fn mines(field: &Minefield) -> Vec<usize> {
    field.get_tiles().iter().filter(|t| t.has_mine()).map(|t| t.get_index()).collect()
}

#[test]
fn new_field_holds_fresh_tiles_in_order() {
    let field = Minefield::new(4, 3).unwrap();
    assert_eq!(field.get_width(), 4);
    assert_eq!(field.get_height(), 3);
    assert_eq!(field.len(), 12);
    let tiles = field.get_tiles();
    assert_eq!(tiles.len(), 12);
    for (i, tile) in tiles.iter().enumerate() {
        assert_eq!(tile.get_index(), i);
        assert!(!tile.is_revealed() && !tile.is_flagged() && !tile.has_mine());
        assert_eq!(tile.get_adjacent_mines(), 0);
        assert_eq!(field.get(i), *tile);
    }
    assert_eq!(field.count_mines(), 0);
}

#[test]
fn field_without_tiles_is_refused() {
    assert!(Minefield::new(0, 5).is_none());
    assert!(Minefield::new(5, 0).is_none());
    assert!(Minefield::new(0, 0).is_none());
}

#[test]
fn field_beyond_what_an_index_holds_is_refused() {
    assert!(Minefield::new(usize::MAX, 2).is_none());
    assert!(Minefield::new(usize::MAX / 2 + 1, 2).is_none());
}

#[test]
fn uncover_and_flag_touch_one_tile() {
    let mut field = Minefield::new(3, 3).unwrap();
    field.uncover(4);
    field.flag(7);
    for tile in field.get_tiles() {
        assert_eq!(tile.is_revealed(), tile.get_index() == 4);
        assert_eq!(tile.is_flagged(), tile.get_index() == 7);
        assert!(!tile.has_mine());
    }
}

#[test]
fn place_mine_accepts_a_free_tile() {
    let mut field = Minefield::new(3, 3).unwrap();
    assert!(field.place_mine(5, 0));
    assert_eq!(mines(&field), vec![5]);
    assert_eq!(field.count_mines(), 1);
}

#[test]
fn place_mine_rejects_the_excluded_tile() {
    let mut field = Minefield::new(3, 3).unwrap();
    assert!(!field.place_mine(4, 4));
    assert_eq!(field.count_mines(), 0);
}

#[test]
fn place_mine_rejects_a_tile_with_a_mine() {
    let mut field = Minefield::new(3, 3).unwrap();
    assert!(field.place_mine(2, 4));
    assert!(!field.place_mine(2, 4));
    assert_eq!(mines(&field), vec![2]);
}

#[test]
fn place_mine_rejects_a_draw_off_the_grid() {
    let mut field = Minefield::new(3, 3).unwrap();
    assert!(!field.place_mine(9, 4));
    assert!(!field.place_mine(usize::MAX, 4));
    assert_eq!(field.count_mines(), 0);
}

#[test]
fn place_mines_places_the_exact_number_away_from_the_excluded_tile() {
    let mut rng = rand::thread_rng();
    for excluded in [0usize, 40, 80] {
        let mut field = Minefield::new(9, 9).unwrap();
        field.place_mines(&mut rng, excluded, 10);
        assert_eq!(field.count_mines(), 10);
        assert!(!field.get(excluded).has_mine());
        for tile in field.get_tiles() {
            assert!(!tile.is_revealed() && !tile.is_flagged());
            assert_eq!(tile.get_adjacent_mines(), 0);
        }
    }
}

#[test]
fn place_mines_fills_every_free_tile_when_asked_to() {
    let mut rng = rand::thread_rng();
    let mut field = Minefield::new(3, 3).unwrap();
    field.place_mines(&mut rng, 4, 8);
    assert_eq!(mines(&field), vec![0, 1, 2, 3, 5, 6, 7, 8]);
}

#[test]
fn place_mines_adds_to_the_mines_that_are_there() {
    let mut rng = rand::thread_rng();
    let mut field = Minefield::new(4, 4).unwrap();
    assert!(field.place_mine(3, 0));
    field.place_mines(&mut rng, 0, 5);
    assert_eq!(field.count_mines(), 6);
    assert!(field.get(3).has_mine());
    assert!(!field.get(0).has_mine());
}

#[test]
fn place_mines_of_nothing_changes_nothing() {
    let mut rng = rand::thread_rng();
    let mut field = Minefield::new(2, 2).unwrap();
    field.place_mines(&mut rng, 0, 0);
    assert_eq!(field.get_tiles(), Minefield::new(2, 2).unwrap().get_tiles());
}

#[test]
fn place_mines_draws_its_tiles() {
    // With every draw rejected the mines would lie on the first 99 free
    // tiles; among the layouts of 99 mines on 479 tiles that is one.
    let mut rng = rand::thread_rng();
    let mut field = Minefield::new(30, 16).unwrap();
    field.place_mines(&mut rng, 479, 99);
    assert_eq!(field.count_mines(), 99);
    let swept: Vec<usize> = (0..99).collect();
    assert_ne!(mines(&field), swept);
}

#[test]
fn draws_per_tile_is_sixty_four() {
    assert_eq!(DRAWS_PER_TILE, 64);
}

#[test]
fn numbers_on_corner_edge_and_interior() {
    // Mines on tiles 0, 2 and 4 of a 3 x 3 grid:
    //   m 3 m
    //   2 m 2
    //   1 1 1
    let field = field_with_mines(3, 3, &[0, 2, 4]);
    let numbers: Vec<usize> = field.get_tiles().iter().map(|t| t.get_adjacent_mines()).collect();
    assert_eq!(numbers, vec![0, 3, 0, 2, 0, 2, 1, 1, 1]);
    assert_eq!(field.count_adjacent_mines(0), 1);
    assert_eq!(field.count_adjacent_mines(4), 2);
    assert_eq!(field.count_adjacent_mines(8), 1);
}

#[test]
fn number_eight_in_the_middle_of_mines() {
    let field = field_with_mines(3, 3, &[0, 1, 2, 3, 5, 6, 7, 8]);
    assert_eq!(field.get(4).get_adjacent_mines(), 8);
    assert_eq!(field.count_adjacent_mines(4), 8);
}

#[test]
fn numbers_do_not_wrap_round_the_rows() {
    // A mine at the end of the first row is no neighbour of the tile that
    // opens the third row, nor of the one that opens the second.
    let field = field_with_mines(4, 3, &[3]);
    let numbers: Vec<usize> = field.get_tiles().iter().map(|t| t.get_adjacent_mines()).collect();
    assert_eq!(numbers, vec![0, 0, 1, 0, 0, 0, 1, 1, 0, 0, 0, 0]);
}

#[test]
fn numbering_leaves_tiles_with_a_mine_alone() {
    let mut field = Minefield::new(3, 1).unwrap();
    assert!(field.place_mine(0, usize::MAX));
    field.update_numbers();
    assert_eq!(field.get(1).get_adjacent_mines(), 1);
    // Tile 1 gets a mine after it was numbered: its stale number stays.
    assert!(field.place_mine(1, usize::MAX));
    field.update_numbers();
    assert_eq!(field.get(1).get_adjacent_mines(), 1);
    assert_eq!(field.get(0).get_adjacent_mines(), 0);
    assert_eq!(field.get(2).get_adjacent_mines(), 1);
}

#[test]
fn expand_reveals_the_open_region_and_its_rim() {
    // A 4 x 4 grid with one mine in the first corner.
    let mut field = field_with_mines(4, 4, &[0]);
    field.uncover(15);
    field.expand(15);
    assert_eq!(revealed(&field), (1..16).collect::<Vec<usize>>());
}

#[test]
fn expand_stops_at_numbers() {
    // 5 x 1: mine on tile 2; tiles 1 and 3 are numbered.
    let mut field = field_with_mines(5, 1, &[2]);
    field.uncover(0);
    field.expand(0);
    assert_eq!(revealed(&field), vec![0, 1]);
}

#[test]
fn expand_from_a_numbered_tile_reveals_nothing() {
    let mut field = field_with_mines(4, 4, &[0]);
    field.uncover(5);
    field.expand(5);
    assert_eq!(revealed(&field), vec![5]);
}

#[test]
fn expand_twice_is_expand_once() {
    let mut field = field_with_mines(9, 9, &[0, 13, 26, 39, 52, 65, 78]);
    field.uncover(45);
    field.expand(45);
    let once = field.get_tiles();
    field.expand(45);
    assert_eq!(field.get_tiles(), once);
    assert!(!once.iter().all(|t| t.is_revealed() || t.has_mine()));
    assert!(once.iter().filter(|t| t.is_revealed()).count() > 1);
}

#[test]
fn expand_spares_a_flagged_tile() {
    let mut field = field_with_mines(4, 4, &[0]);
    // Tile 10 shows no mine around it and lies amid tiles that the fill reveals.
    field.flag(10);
    field.uncover(15);
    field.expand(15);
    assert!(!field.get(10).is_revealed());
    let mut expected: Vec<usize> = (1..16).collect();
    expected.retain(|&i| i != 10);
    assert_eq!(revealed(&field), expected);
}

#[test]
fn expand_does_not_pass_through_flags() {
    // 5 x 1 without mines: a flag on tile 2 parts the row.
    let mut field = field_with_mines(5, 1, &[]);
    field.flag(2);
    field.uncover(0);
    field.expand(0);
    assert_eq!(revealed(&field), vec![0, 1]);
}

#[test]
fn expand_does_not_pass_through_revealed_tiles() {
    // 5 x 1 without mines: tile 2 is revealed beforehand and never expanded.
    let mut field = field_with_mines(5, 1, &[]);
    field.uncover(2);
    field.uncover(0);
    field.expand(0);
    assert_eq!(revealed(&field), vec![0, 1, 2]);
}

#[test]
fn expand_comes_back_to_a_covered_start() {
    let mut field = field_with_mines(3, 1, &[]);
    field.expand(0);
    assert_eq!(revealed(&field), vec![0, 1, 2]);
}

#[test]
fn expand_on_a_single_tile() {
    let mut field = field_with_mines(1, 1, &[]);
    field.expand(0);
    assert_eq!(revealed(&field), Vec::<usize>::new());
}

#[test]
fn evaluate_finds_a_revealed_mine() {
    let mut field = field_with_mines(2, 2, &[3]);
    field.uncover(3);
    assert_eq!(field.evaluate(GameState::Playing), GameState::Lost);
    field.uncover(0);
    field.uncover(1);
    field.uncover(2);
    assert_eq!(field.evaluate(GameState::Playing), GameState::Lost);
}

#[test]
fn evaluate_finds_all_safe_tiles_revealed() {
    let mut field = field_with_mines(2, 2, &[3]);
    field.uncover(0);
    field.uncover(1);
    assert_eq!(field.evaluate(GameState::Playing), GameState::Playing);
    field.uncover(2);
    assert_eq!(field.evaluate(GameState::Playing), GameState::Won);
}

#[test]
fn evaluate_keeps_the_state_while_undecided() {
    let field = field_with_mines(2, 2, &[3]);
    assert_eq!(field.evaluate(GameState::Ready), GameState::Ready);
    assert_eq!(field.evaluate(GameState::Playing), GameState::Playing);
}
