use mcts2048::game_logic::{Direction, GameState};
use mcts2048::row::slide_row;

const SAMPLE: [[u32; 4]; 4] = [[2, 2, 4, 0], [0, 4, 4, 4], [2, 0, 0, 2], [8, 16, 32, 64]];

const STUCK: [[u32; 4]; 4] = [[2, 4, 2, 4], [4, 2, 4, 2], [2, 4, 2, 4], [4, 2, 4, 2]];

fn board(grid: [[u32; 4]; 4], score: u32) -> GameState {
    GameState { grid, score }
}

fn tiles_on(grid: &[[u32; 4]; 4]) -> usize {
    grid.iter().flatten().filter(|&&v| v != 0).count()
}

#[test]
fn slide_row_merges_a_pair() {
    assert_eq!(slide_row(&[2, 2, 0, 0]), ([4, 0, 0, 0], 4));
}

#[test]
fn slide_row_merges_each_tile_once() {
    assert_eq!(slide_row(&[2, 2, 2, 2]), ([4, 4, 0, 0], 8));
    assert_eq!(slide_row(&[4, 4, 8, 0]), ([8, 8, 0, 0], 8));
    assert_eq!(slide_row(&[2, 2, 4, 0]), ([4, 4, 0, 0], 4));
}

#[test]
fn slide_row_merges_from_the_leading_edge() {
    assert_eq!(slide_row(&[4, 4, 4, 0]), ([8, 4, 0, 0], 8));
    assert_eq!(slide_row(&[0, 4, 4, 4]), ([8, 4, 0, 0], 8));
}

#[test]
fn slide_row_merges_across_gaps() {
    assert_eq!(slide_row(&[2, 0, 0, 2]), ([4, 0, 0, 0], 4));
    assert_eq!(slide_row(&[2, 0, 2, 4]), ([4, 4, 0, 0], 4));
}

#[test]
fn slide_row_packs_without_merging() {
    assert_eq!(slide_row(&[0, 0, 0, 2]), ([2, 0, 0, 0], 0));
    assert_eq!(slide_row(&[0, 2, 0, 4]), ([2, 4, 0, 0], 0));
    assert_eq!(slide_row(&[0, 0, 0, 0]), ([0, 0, 0, 0], 0));
}

#[test]
fn slide_row_leaves_a_blocked_row() {
    assert_eq!(slide_row(&[2, 4, 8, 16]), ([2, 4, 8, 16], 0));
    assert_eq!(slide_row(&[2, 4, 2, 4]), ([2, 4, 2, 4], 0));
}

#[test]
fn slide_row_reaches_large_tiles() {
    assert_eq!(slide_row(&[65536, 65536, 0, 0]), ([131072, 0, 0, 0], 131072));
}

#[test]
fn move_left_slides_every_row() {
    let mut game = board(SAMPLE, 10);
    assert!(game.move_left());
    assert_eq!(game.grid, [[4, 4, 0, 0], [8, 4, 0, 0], [4, 0, 0, 0], [8, 16, 32, 64]]);
    assert_eq!(game.score, 26);
}

#[test]
fn move_right_slides_every_row() {
    let mut game = board(SAMPLE, 0);
    assert!(game.move_right());
    assert_eq!(game.grid, [[0, 0, 4, 4], [0, 0, 4, 8], [0, 0, 0, 4], [8, 16, 32, 64]]);
    assert_eq!(game.score, 16);
}

#[test]
fn move_up_slides_every_column() {
    let mut game = board(SAMPLE, 0);
    assert!(game.move_up());
    assert_eq!(game.grid, [[4, 2, 8, 4], [8, 4, 32, 2], [0, 16, 0, 64], [0, 0, 0, 0]]);
    assert_eq!(game.score, 12);
}

#[test]
fn move_down_slides_every_column() {
    let mut game = board(SAMPLE, 0);
    assert!(game.move_down());
    assert_eq!(game.grid, [[0, 0, 0, 0], [0, 2, 0, 4], [4, 4, 8, 2], [8, 16, 32, 64]]);
    assert_eq!(game.score, 12);
}

#[test]
fn moves_that_change_nothing_say_so() {
    let packed = [[2, 4, 0, 0], [4, 0, 0, 0], [0, 0, 0, 0], [0, 0, 0, 0]];
    let mut game = board(packed, 7);
    assert!(!game.move_left());
    assert_eq!(game.grid, packed);
    assert!(!game.move_up());
    assert_eq!(game.grid, packed);
    assert_eq!(game.score, 7);
    let mut stuck = board(STUCK, 3);
    assert!(!stuck.move_left());
    assert!(!stuck.move_right());
    assert!(!stuck.move_up());
    assert!(!stuck.move_down());
    assert_eq!(stuck.grid, STUCK);
    assert_eq!(stuck.score, 3);
}

#[test]
fn rotate_grid_turns_clockwise() {
    let mut game = board(SAMPLE, 5);
    game.rotate_grid();
    assert_eq!(game.grid, [[8, 2, 0, 2], [16, 0, 4, 2], [32, 0, 4, 4], [64, 2, 4, 0]]);
    assert_eq!(game.score, 5);
}

#[test]
fn rotate_grid_four_times_is_identity() {
    let mut game = board(SAMPLE, 0);
    for _ in 0..4 {
        game.rotate_grid();
    }
    assert_eq!(game.grid, SAMPLE);
    let mut numbered = board([[1, 2, 3, 4], [5, 6, 7, 8], [9, 10, 11, 12], [13, 14, 15, 16]], 0);
    let start = numbered.grid;
    numbered.rotate_grid();
    assert_ne!(numbered.grid, start);
    numbered.rotate_grid();
    numbered.rotate_grid();
    numbered.rotate_grid();
    assert_eq!(numbered.grid, start);
}

#[test]
fn game_is_over_on_a_blocked_board() {
    assert!(board(STUCK, 0).is_game_over());
}

#[test]
fn game_is_not_over_with_an_empty_cell() {
    let mut grid = STUCK;
    grid[2][1] = 0;
    assert!(!board(grid, 0).is_game_over());
    assert!(!board([[0; 4]; 4], 0).is_game_over());
}

#[test]
fn game_is_not_over_with_equal_neighbours_in_a_row() {
    let mut grid = STUCK;
    grid[3][3] = 4;
    assert!(!board(grid, 0).is_game_over());
}

#[test]
fn game_is_not_over_with_equal_neighbours_in_a_column() {
    let mut grid = STUCK;
    grid[3] = [2, 8, 16, 32];
    assert!(!board(grid, 0).is_game_over());
}

#[test]
fn move_tiles_without_effect_changes_nothing() {
    let packed = [[2, 4, 0, 0], [4, 0, 0, 0], [0, 0, 0, 0], [0, 0, 0, 0]];
    for direction in [Direction::Left, Direction::Up] {
        let mut game = board(packed, 12);
        game.move_tiles(direction);
        assert_eq!(game.grid, packed);
        assert_eq!(game.score, 12);
    }
    for direction in [Direction::Up, Direction::Down, Direction::Left, Direction::Right] {
        let mut game = board(STUCK, 12);
        game.move_tiles(direction);
        assert_eq!(game.grid, STUCK);
        assert_eq!(game.score, 12);
    }
}

#[test]
fn move_tiles_with_effect_adds_one_tile() {
    for direction in [Direction::Up, Direction::Down, Direction::Left, Direction::Right] {
        for _ in 0..50 {
            let mut slid = board(SAMPLE, 0);
            let moved = match direction {
                Direction::Left => slid.move_left(),
                Direction::Right => slid.move_right(),
                Direction::Up => slid.move_up(),
                Direction::Down => slid.move_down(),
            };
            assert!(moved);
            let mut game = board(SAMPLE, 0);
            game.move_tiles(direction);
            assert_eq!(game.score, slid.score);
            let mut added = 0;
            for r in 0..4 {
                for c in 0..4 {
                    if game.grid[r][c] != slid.grid[r][c] {
                        assert_eq!(slid.grid[r][c], 0);
                        assert!(game.grid[r][c] == 2 || game.grid[r][c] == 4);
                        added += 1;
                    }
                }
            }
            assert_eq!(added, 1);
        }
    }
}

#[test]
fn add_random_tile_fills_the_only_empty_cell() {
    let mut grid = STUCK;
    grid[1][2] = 0;
    let mut game = board(grid, 9);
    game.add_random_tile();
    assert!(game.grid[1][2] == 2 || game.grid[1][2] == 4);
    grid[1][2] = game.grid[1][2];
    assert_eq!(game.grid, grid);
    assert_eq!(game.score, 9);
}

#[test]
fn add_random_tile_on_a_full_board_does_nothing() {
    let mut game = board(STUCK, 9);
    game.add_random_tile();
    assert_eq!(game.grid, STUCK);
    assert_eq!(game.score, 9);
}

#[test]
fn add_random_tile_reaches_every_empty_cell() {
    let mut seen = [[false; 4]; 4];
    for _ in 0..2000 {
        let mut game = board([[0; 4]; 4], 0);
        game.add_random_tile();
        assert_eq!(tiles_on(&game.grid), 1);
        for r in 0..4 {
            for c in 0..4 {
                if game.grid[r][c] != 0 {
                    seen[r][c] = true;
                }
            }
        }
    }
    assert!(seen.iter().flatten().all(|&s| s));
}

#[test]
fn add_random_tile_prefers_twos() {
    let mut twos = 0;
    let mut fours = 0;
    for _ in 0..2000 {
        let mut game = board([[0; 4]; 4], 0);
        game.add_random_tile();
        let sum: u32 = game.grid.iter().flatten().sum();
        match sum {
            2 => twos += 1,
            4 => fours += 1,
            other => panic!("a new tile of {}", other),
        }
    }
    assert!(fours > 0);
    assert!(twos > fours);
}

#[test]
fn new_game_has_two_tiles_and_no_score() {
    for _ in 0..200 {
        let game = GameState::new();
        assert_eq!(game.score, 0);
        assert_eq!(tiles_on(&game.grid), 2);
        assert!(game.grid.iter().flatten().all(|&v| v == 0 || v == 2 || v == 4));
        assert!(!game.is_game_over());
    }
}

#[test]
fn clone_is_independent() {
    let game = board(SAMPLE, 3);
    let mut copy = game.clone();
    assert_eq!(copy.grid, game.grid);
    assert_eq!(copy.score, game.score);
    copy.move_left();
    assert_eq!(game.grid, SAMPLE);
    assert_eq!(game.score, 3);
}

#[test]
fn score_never_decreases_during_play() {
    let mut game = GameState::new();
    let order = [Direction::Left, Direction::Down, Direction::Right, Direction::Up];
    let mut turn = 0;
    while !game.is_game_over() && turn < 100000 {
        let before = game.score;
        game.move_tiles(order[turn % 4]);
        assert!(game.score >= before);
        assert!(game.grid.iter().flatten().all(|&v| v == 0 || (v >= 2 && v.is_power_of_two())));
        turn += 1;
    }
    assert!(game.is_game_over());
}

#[test]
fn boards_of_a_game_are_well_formed() {
    assert!(board([[0; 4]; 4], 0).is_wf());
    assert!(board(SAMPLE, 0).is_wf());
    assert!(board(STUCK, 44).is_wf());
    let mut game = GameState::new();
    assert!(game.is_wf());
    let order = [Direction::Left, Direction::Down, Direction::Right, Direction::Up];
    let mut turn = 0;
    while !game.is_game_over() && turn < 100000 {
        game.move_tiles(order[turn % 4]);
        assert!(game.is_wf());
        turn += 1;
    }
}

#[test]
fn a_cell_that_is_no_tile_is_not_well_formed() {
    let mut grid = SAMPLE;
    grid[0][3] = 3;
    assert!(!board(grid, 0).is_wf());
    grid[0][3] = 1;
    assert!(!board(grid, 0).is_wf());
    grid[0][3] = 6;
    assert!(!board(grid, 0).is_wf());
}

#[test]
fn a_board_without_room_for_its_tiles_is_not_well_formed() {
    assert!(!board([[2048; 4]; 4], 0).is_wf());
    let mut grid = [[0; 4]; 4];
    grid[0][0] = 262144;
    assert!(!board(grid, 0).is_wf());
    grid[0][0] = 131072;
    assert!(board(grid, 0).is_wf());
    grid[0][1] = 131072;
    assert!(!board(grid, 0).is_wf());
    grid[0][1] = 65536;
    assert!(board(grid, 0).is_wf());
}

#[test]
fn a_score_beyond_the_worth_of_the_tiles_is_not_well_formed() {
    assert!(!board([[0; 4]; 4], 1).is_wf());
    let mut grid = [[0; 4]; 4];
    grid[1][1] = 8;
    grid[2][3] = 2;
    assert!(board(grid, 26).is_wf());
    assert!(!board(grid, 27).is_wf());
}

#[test]
fn empty_positions_are_listed_row_by_row() {
    let game = board(SAMPLE, 0);
    assert_eq!(game.empty_positions(), vec![(0, 3), (1, 0), (2, 1), (2, 2)]);
    assert_eq!(board(STUCK, 0).empty_positions(), vec![]);
    let all = board([[0; 4]; 4], 0).empty_positions();
    assert_eq!(all.len(), 16);
    for (n, &(r, c)) in all.iter().enumerate() {
        assert_eq!((r, c), (n / 4, n % 4));
    }
}

#[test]
fn place_tile_fills_the_cell_of_its_number() {
    let cells = [(0, 3), (1, 0), (2, 1), (2, 2)];
    for (pick, &(r, c)) in cells.iter().enumerate() {
        for two in [true, false] {
            let mut game = board(SAMPLE, 12);
            game.place_tile(pick, two);
            let mut expected = SAMPLE;
            expected[r][c] = if two { 2 } else { 4 };
            assert_eq!(game.grid, expected);
            assert_eq!(game.score, 12);
        }
    }
}

#[test]
fn place_tile_counts_the_empty_cells_only() {
    let mut game = board([[0; 4]; 4], 0);
    game.place_tile(5, true);
    assert_eq!(game.grid[1][1], 2);
    game.place_tile(5, false);
    assert_eq!(game.grid[1][1], 2);
    assert_eq!(game.grid[1][2], 4);
    game.place_tile(0, false);
    assert_eq!(game.grid[0][0], 4);
    game.place_tile(12, true);
    assert_eq!(game.grid[3][3], 2);
    assert_eq!(tiles_on(&game.grid), 4);
    assert_eq!(game.score, 0);
}

#[test]
fn place_tile_fills_the_last_empty_cell() {
    let mut grid = STUCK;
    grid[3][3] = 0;
    let mut game = board(grid, 0);
    game.place_tile(0, true);
    assert_eq!(game.grid, STUCK);
}
