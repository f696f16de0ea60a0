//! The board, its four moves and the end of the game.

use crate::capacity::{
    all_tiles, count_at_least, counts, is_tile, is_tile_value, worth_of, lemma_count_bounds, lemma_is_tile_small,
    lemma_measures_of_four, lemma_measures_of_slide, lemma_measures_reversed, lemma_worth_bound,
    lemma_worth_small, total_worth, worth,
};
use crate::random::{random_below, random_ratio};
use crate::row::{
    cells, full, gain, lemma_full_pair_slides, lemma_gap_slides, lemma_slide_fixed,
    lemma_slide_frees_a_cell, lemma_slide_same_gains_nothing, no_equal_neighbours, slide, slide_row,
};
use vstd::arithmetic::power2::{lemma2_to64, lemma_pow2_pos, lemma_pow2_strictly_increases, lemma_pow2_unfold, pow2};
use vstd::prelude::*;

verus! {

/// The four rows of the board, top to bottom; each row left to right. A cell
/// that holds 0 is empty.
pub type Grid = [[u32; 4]; 4];

/// The four moves.
#[derive(Debug, Clone, Copy, PartialEq, Eq, Structural)]
pub enum Direction {
    Up,
    Down,
    Left,
    Right,
}

/// A game in progress: the board and the score.
#[derive(Debug)]
pub struct GameState {
    pub grid: Grid,
    pub score: u32,
}

impl Clone for GameState {
    fn clone(&self) -> (copy: Self)
        ensures
            copy == *self,
    {
        GameState { grid: self.grid, score: self.score }
    }
}

/// The value in row `r`, column `c`.
pub open spec fn at(grid: Grid, r: int, c: int) -> nat {
    grid[r][c] as nat
}

pub open spec fn in_grid(r: int, c: int) -> bool {
    0 <= r < 4 && 0 <= c < 4
}

/// Line `i` of the board for a move in direction `d`: the four cells that
/// slide along each other, read from the edge that they move toward. For
/// `Left` and `Right` it is row `i`, for `Up` and `Down` column `i`.
pub open spec fn line(grid: Grid, d: Direction, i: int) -> Seq<nat> {
    Seq::new(
        4,
        |k: int|
            match d {
                Direction::Left => at(grid, i, k),
                Direction::Right => at(grid, i, 3 - k),
                Direction::Up => at(grid, k, i),
                Direction::Down => at(grid, 3 - k, i),
            },
    )
}

/// What row `r`, column `c` holds once every line has slid in direction `d`.
pub open spec fn slid_at(grid: Grid, d: Direction, r: int, c: int) -> nat {
    match d {
        Direction::Left => slide(line(grid, d, r))[c],
        Direction::Right => slide(line(grid, d, r))[3 - c],
        Direction::Up => slide(line(grid, d, c))[r],
        Direction::Down => slide(line(grid, d, c))[3 - r],
    }
}

/// `after` is `before` with every line slid in direction `d`.
pub open spec fn slid(before: Grid, d: Direction, after: Grid) -> bool {
    forall|r: int, c: int| in_grid(r, c) ==> #[trigger] at(after, r, c) == slid_at(before, d, r, c)
}

/// What the lines before line `n` gain by a move in direction `d`.
pub open spec fn gain_upto(grid: Grid, d: Direction, n: int) -> nat {
    (if n > 0 {
        gain(line(grid, d, 0))
    } else {
        0
    }) + (if n > 1 {
        gain(line(grid, d, 1))
    } else {
        0
    }) + (if n > 2 {
        gain(line(grid, d, 2))
    } else {
        0
    }) + (if n > 3 {
        gain(line(grid, d, 3))
    } else {
        0
    })
}

/// What a move in direction `d` adds to the score.
pub open spec fn move_gain(grid: Grid, d: Direction) -> nat {
    gain_upto(grid, d, 4)
}

/// A move in direction `d` changes line `i`.
pub open spec fn line_changes(grid: Grid, d: Direction, i: int) -> bool {
    slide(line(grid, d, i)) != line(grid, d, i)
}

/// A move in direction `d` changes one of the lines before line `n`.
pub open spec fn changes_upto(grid: Grid, d: Direction, n: int) -> bool {
    ||| n > 0 && line_changes(grid, d, 0)
    ||| n > 1 && line_changes(grid, d, 1)
    ||| n > 2 && line_changes(grid, d, 2)
    ||| n > 3 && line_changes(grid, d, 3)
}

/// A move in direction `d` changes the board.
pub open spec fn move_changes(grid: Grid, d: Direction) -> bool {
    changes_upto(grid, d, 4)
}

/// `after` is `before` turned by a quarter, clockwise.
pub open spec fn is_rotation(before: Grid, after: Grid) -> bool {
    forall|r: int, c: int| in_grid(r, c) ==> #[trigger] at(after, r, c) == at(before, 3 - c, r)
}

/// `after` is `before` with `v` in row `r`, column `c`, which was empty.
pub open spec fn spawns(before: Grid, after: Grid, r: int, c: int, v: nat) -> bool {
    &&& in_grid(r, c)
    &&& at(before, r, c) == 0
    &&& at(after, r, c) == v
    &&& forall|a: int, b: int|
        in_grid(a, b) && !(a == r && b == c) ==> #[trigger] at(after, a, b) == at(before, a, b)
}

/// `after` is the board slid in direction `d`, with `v` in row `r`, column
/// `c`, which the slide had left empty.
pub open spec fn slid_and_spawned(before: Grid, d: Direction, after: Grid, r: int, c: int, v: nat) -> bool {
    &&& in_grid(r, c)
    &&& slid_at(before, d, r, c) == 0
    &&& at(after, r, c) == v
    &&& forall|a: int, b: int|
        in_grid(a, b) && !(a == r && b == c) ==> #[trigger] at(after, a, b) == slid_at(
            before,
            d,
            a,
            b,
        )
}

/// Boards with the same cells are the same board.
pub proof fn lemma_grid_ext(a: Grid, b: Grid)
    requires
        forall|r: int, c: int| in_grid(r, c) ==> at(a, r, c) == at(b, r, c),
    ensures
        a == b,
{
    assert forall|r: int| 0 <= r < 4 implies a[r] == b[r] by {
        assert forall|c: int| 0 <= c < 4 implies a[r][c] == b[r][c] by {
            assert(in_grid(r, c));
            assert(at(a, r, c) == at(b, r, c));
        }
        assert(a[r] =~= b[r]);
    }
    assert(a =~= b);
}

/// Four quarter turns give the board back.
pub proof fn lemma_four_rotations(g0: Grid, g1: Grid, g2: Grid, g3: Grid, g4: Grid)
    requires
        is_rotation(g0, g1),
        is_rotation(g1, g2),
        is_rotation(g2, g3),
        is_rotation(g3, g4),
    ensures
        g4 == g0,
{
    assert forall|r: int, c: int| in_grid(r, c) implies at(g4, r, c) == at(g0, r, c) by {
        assert(at(g4, r, c) == at(g3, 3 - c, r));
        assert(at(g3, 3 - c, r) == at(g2, 3 - r, 3 - c));
        assert(at(g2, 3 - r, 3 - c) == at(g1, c, 3 - r));
        assert(at(g1, c, 3 - r) == at(g0, r, c));
    }
    lemma_grid_ext(g4, g0);
}

/// Two quarter turns: every cell goes to the opposite place.
pub proof fn lemma_half_turn(g0: Grid, g1: Grid, g2: Grid)
    requires
        is_rotation(g0, g1),
        is_rotation(g1, g2),
    ensures
        forall|r: int, c: int| in_grid(r, c) ==> #[trigger] at(g2, r, c) == at(g0, 3 - r, 3 - c),
{
    assert forall|r: int, c: int| in_grid(r, c) implies #[trigger] at(g2, r, c) == at(
        g0,
        3 - r,
        3 - c,
    ) by {
        assert(at(g2, r, c) == at(g1, 3 - c, r));
        assert(at(g1, 3 - c, r) == at(g0, 3 - r, 3 - c));
    }
}

/// Three quarter turns clockwise are one quarter turn back.
pub proof fn lemma_three_quarter_turn(g0: Grid, g1: Grid, g2: Grid, g3: Grid)
    requires
        is_rotation(g0, g1),
        is_rotation(g1, g2),
        is_rotation(g2, g3),
    ensures
        forall|r: int, c: int| in_grid(r, c) ==> #[trigger] at(g3, r, c) == at(g0, c, 3 - r),
{
    lemma_half_turn(g0, g1, g2);
    assert forall|r: int, c: int| in_grid(r, c) implies #[trigger] at(g3, r, c) == at(
        g0,
        c,
        3 - r,
    ) by {
        assert(at(g3, r, c) == at(g2, 3 - c, r));
        assert(at(g2, 3 - c, r) == at(g0, c, 3 - r));
    }
}

/// Where the lines of one board for one direction are the lines of another
/// board for another direction, in the same order or in reverse, the two moves
/// gain the same and change a line together.
pub proof fn lemma_same_lines(a: Grid, da: Direction, b: Grid, db: Direction, reversed: bool)
    requires
        forall|i: int|
            0 <= i < 4 ==> #[trigger] line(b, db, i) == line(
                a,
                da,
                if reversed {
                    3 - i
                } else {
                    i
                },
            ),
    ensures
        move_gain(b, db) == move_gain(a, da),
        move_changes(b, db) == move_changes(a, da),
{
    assert(line(b, db, 0) == line(a, da, if reversed { 3 } else { 0 }));
    assert(line(b, db, 1) == line(a, da, if reversed { 2 } else { 1 }));
    assert(line(b, db, 2) == line(a, da, if reversed { 1 } else { 2 }));
    assert(line(b, db, 3) == line(a, da, if reversed { 0 } else { 3 }));
}

/// A move that changes the board leaves a cell empty.
pub proof fn lemma_move_frees_a_cell(grid: Grid, d: Direction)
    requires
        move_changes(grid, d),
    ensures
        exists|r: int, c: int| in_grid(r, c) && #[trigger] slid_at(grid, d, r, c) == 0,
{
    let i = if line_changes(grid, d, 0) {
        0int
    } else if line_changes(grid, d, 1) {
        1int
    } else if line_changes(grid, d, 2) {
        2int
    } else {
        3int
    };
    lemma_slide_frees_a_cell(line(grid, d, i));
    let (r, c) = match d {
        Direction::Left => (i, 3int),
        Direction::Right => (i, 0int),
        Direction::Up => (3int, i),
        Direction::Down => (0int, i),
    };
    assert(in_grid(r, c) && slid_at(grid, d, r, c) == 0);
}

/// A move changes the board exactly when it changes a cell.
pub proof fn lemma_move_changes_a_cell(grid: Grid, d: Direction)
    ensures
        move_changes(grid, d) <==> exists|r: int, c: int|
            in_grid(r, c) && #[trigger] slid_at(grid, d, r, c) != at(grid, r, c),
{
    if move_changes(grid, d) {
        let i = if line_changes(grid, d, 0) {
            0int
        } else if line_changes(grid, d, 1) {
            1int
        } else if line_changes(grid, d, 2) {
            2int
        } else {
            3int
        };
        let before = line(grid, d, i);
        let after = slide(before);
        if forall|k: int| 0 <= k < 4 ==> after[k] == before[k] {
            assert(after =~= before);
        }
        let k = choose|k: int| 0 <= k < 4 && after[k] != before[k];
        let (r, c) = match d {
            Direction::Left => (i, k),
            Direction::Right => (i, 3 - k),
            Direction::Up => (k, i),
            Direction::Down => (3 - k, i),
        };
        assert(in_grid(r, c) && slid_at(grid, d, r, c) != at(grid, r, c));
    } else {
        lemma_move_without_change(grid, d);
    }
}

/// A move that changes no line leaves every cell as it is and gains nothing.
pub proof fn lemma_move_without_change(grid: Grid, d: Direction)
    requires
        !move_changes(grid, d),
    ensures
        forall|r: int, c: int| in_grid(r, c) ==> #[trigger] slid_at(grid, d, r, c) == at(grid, r, c),
        move_gain(grid, d) == 0,
{
    lemma_slide_same_gains_nothing(line(grid, d, 0));
    lemma_slide_same_gains_nothing(line(grid, d, 1));
    lemma_slide_same_gains_nothing(line(grid, d, 2));
    lemma_slide_same_gains_nothing(line(grid, d, 3));
    assert forall|r: int, c: int| in_grid(r, c) implies #[trigger] slid_at(grid, d, r, c) == at(
        grid,
        r,
        c,
    ) by {
        let i = match d {
            Direction::Left | Direction::Right => r,
            Direction::Up | Direction::Down => c,
        };
        assert(slide(line(grid, d, i)) == line(grid, d, i));
    }
}

/// The cell in row `r`, column `c` is not empty, and differs from the cell to
/// its right and from the cell below it, where there is one.
pub open spec fn blocked_at(grid: Grid, r: int, c: int) -> bool {
    &&& at(grid, r, c) != 0
    &&& c < 3 ==> at(grid, r, c) != at(grid, r, c + 1)
    &&& r < 3 ==> at(grid, r, c) != at(grid, r + 1, c)
}

/// Some cell holds a tile.
pub open spec fn has_tile(grid: Grid) -> bool {
    exists|r: int, c: int| in_grid(r, c) && #[trigger] at(grid, r, c) != 0
}

/// A row that holds an empty cell and a tile changes by a move to the left or
/// by a move to the right.
pub proof fn lemma_mixed_row_moves(grid: Grid, r: int, z: int, c: int)
    requires
        in_grid(r, z),
        in_grid(r, c),
        at(grid, r, z) == 0,
        at(grid, r, c) != 0,
    ensures
        move_changes(grid, Direction::Left) || move_changes(grid, Direction::Right),
{
    if z < c {
        lemma_gap_slides(line(grid, Direction::Left, r), z, c);
        assert(line_changes(grid, Direction::Left, r));
    } else {
        lemma_gap_slides(line(grid, Direction::Right, r), 3 - z, 3 - c);
        assert(line_changes(grid, Direction::Right, r));
    }
}

/// A column that holds an empty cell and a tile changes by a move up or by a
/// move down.
pub proof fn lemma_mixed_column_moves(grid: Grid, c: int, z: int, r: int)
    requires
        in_grid(z, c),
        in_grid(r, c),
        at(grid, z, c) == 0,
        at(grid, r, c) != 0,
    ensures
        move_changes(grid, Direction::Up) || move_changes(grid, Direction::Down),
{
    if z < r {
        lemma_gap_slides(line(grid, Direction::Up, c), z, r);
        assert(line_changes(grid, Direction::Up, c));
    } else {
        lemma_gap_slides(line(grid, Direction::Down, c), 3 - z, 3 - r);
        assert(line_changes(grid, Direction::Down, c));
    }
}

/// The game is over exactly when no move is left: on a board where it is
/// over no move changes anything, and on any other board that holds a tile
/// some move does.
pub proof fn lemma_game_over_is_stuck(state: GameState)
    ensures
        state.game_over() ==> forall|d: Direction| !#[trigger] move_changes(state.grid, d),
        has_tile(state.grid) && !state.game_over() ==> exists|d: Direction| #[trigger]
            move_changes(state.grid, d),
{
    let grid = state.grid;
    if state.game_over() {
        assert forall|d: Direction| !#[trigger] move_changes(grid, d) by {
            assert forall|i: int| 0 <= i < 4 implies !#[trigger] line_changes(grid, d, i) by {
                let l = line(grid, d, i);
                assert forall|k: int| 0 <= k < 4 implies l[k] != 0 by {
                    match d {
                        Direction::Left => {
                            assert(blocked_at(grid, i, k));
                        },
                        Direction::Right => {
                            assert(blocked_at(grid, i, 3 - k));
                        },
                        Direction::Up => {
                            assert(blocked_at(grid, k, i));
                        },
                        Direction::Down => {
                            assert(blocked_at(grid, 3 - k, i));
                        },
                    }
                }
                assert forall|k: int, n: int| 0 <= k < 4 && n == k + 1 && n < 4 implies l[k]
                    != l[n] by {
                    match d {
                        Direction::Left => {
                            assert(blocked_at(grid, i, k));
                        },
                        Direction::Right => {
                            assert(blocked_at(grid, i, 3 - n));
                        },
                        Direction::Up => {
                            assert(blocked_at(grid, k, i));
                        },
                        Direction::Down => {
                            assert(blocked_at(grid, 3 - n, i));
                        },
                    }
                }
                assert(full(l));
                assert(no_equal_neighbours(l));
                lemma_slide_fixed(l);
            }
            assert(!line_changes(grid, d, 0));
            assert(!line_changes(grid, d, 1));
            assert(!line_changes(grid, d, 2));
            assert(!line_changes(grid, d, 3));
        }
    } else if has_tile(grid) {
        let (r, c) = choose|r: int, c: int| in_grid(r, c) && !#[trigger] blocked_at(grid, r, c);
        let (tr, tc) = choose|r: int, c: int| in_grid(r, c) && #[trigger] at(grid, r, c) != 0;
        if at(grid, r, c) == 0 {
            if at(grid, r, tc) != 0 {
                lemma_mixed_row_moves(grid, r, c, tc);
            } else {
                lemma_mixed_column_moves(grid, tc, r, tr);
            }
        } else if c < 3 && at(grid, r, c) == at(grid, r, c + 1) {
            let l = line(grid, Direction::Left, r);
            if full(l) {
                assert(l[c] == l[c + 1]);
                lemma_full_pair_slides(l, c);
                assert(line_changes(grid, Direction::Left, r));
                assert(move_changes(grid, Direction::Left));
            } else {
                let z = choose|z: int| 0 <= z < 4 && l[z] == 0;
                lemma_mixed_row_moves(grid, r, z, c);
            }
        } else {
            let l = line(grid, Direction::Up, c);
            if full(l) {
                assert(l[r] == l[r + 1]);
                lemma_full_pair_slides(l, r);
                assert(line_changes(grid, Direction::Up, c));
                assert(move_changes(grid, Direction::Up));
            } else {
                let z = choose|z: int| 0 <= z < 4 && l[z] == 0;
                lemma_mixed_column_moves(grid, c, z, r);
            }
        }
    }
}

/// The board at the start of a game: empty but for two tiles, each a 2 or a 4.
pub open spec fn opening(grid: Grid) -> bool {
    exists|r1: int, c1: int, r2: int, c2: int| #[trigger]
        opening_at(grid, r1, c1, r2, c2)
}

pub open spec fn opening_at(grid: Grid, r1: int, c1: int, r2: int, c2: int) -> bool {
    &&& in_grid(r1, c1)
    &&& in_grid(r2, c2)
    &&& !(r1 == r2 && c1 == c2)
    &&& at(grid, r1, c1) == 2 || at(grid, r1, c1) == 4
    &&& at(grid, r2, c2) == 2 || at(grid, r2, c2) == 4
    &&& forall|r: int, c: int|
        in_grid(r, c) && !(r == r1 && c == c1) && !(r == r2 && c == c2) ==> #[trigger] at(
            grid,
            r,
            c,
        ) == 0
}

/// How many cells of the board hold `least` or more.
pub open spec fn board_count(grid: Grid, least: nat) -> nat {
    count_at_least(line(grid, Direction::Left, 0), least) + count_at_least(
        line(grid, Direction::Left, 1),
        least,
    ) + count_at_least(line(grid, Direction::Left, 2), least) + count_at_least(
        line(grid, Direction::Left, 3),
        least,
    )
}

/// What the tiles of the board are worth together.
pub open spec fn board_worth(grid: Grid) -> nat {
    total_worth(line(grid, Direction::Left, 0)) + total_worth(line(grid, Direction::Left, 1))
        + total_worth(line(grid, Direction::Left, 2)) + total_worth(line(grid, Direction::Left, 3))
}

/// How many cells hold `least` or more once every line has slid in direction
/// `d`.
pub open spec fn slid_count(grid: Grid, d: Direction, least: nat) -> nat {
    count_at_least(slide(line(grid, d, 0)), least) + count_at_least(slide(line(grid, d, 1)), least)
        + count_at_least(slide(line(grid, d, 2)), least) + count_at_least(
        slide(line(grid, d, 3)),
        least,
    )
}

/// What the tiles are worth once every line has slid in direction `d`.
pub open spec fn slid_worth(grid: Grid, d: Direction) -> nat {
    total_worth(slide(line(grid, d, 0))) + total_worth(slide(line(grid, d, 1))) + total_worth(
        slide(line(grid, d, 2)),
    ) + total_worth(slide(line(grid, d, 3)))
}

/// The measures of the board, taken column by column.
pub proof fn lemma_measures_by_columns(grid: Grid, least: nat)
    ensures
        board_count(grid, least) == count_at_least(line(grid, Direction::Up, 0), least)
            + count_at_least(line(grid, Direction::Up, 1), least) + count_at_least(
            line(grid, Direction::Up, 2),
            least,
        ) + count_at_least(line(grid, Direction::Up, 3), least),
        board_worth(grid) == total_worth(line(grid, Direction::Up, 0)) + total_worth(
            line(grid, Direction::Up, 1),
        ) + total_worth(line(grid, Direction::Up, 2)) + total_worth(line(grid, Direction::Up, 3)),
{
    assert forall|i: int, k: int| 0 <= i < 4 && 0 <= k < 4 implies #[trigger] line(
        grid,
        Direction::Up,
        i,
    )[k] == line(grid, Direction::Left, k)[i] by {}
    lemma_measures_of_four(line(grid, Direction::Left, 0), least);
    lemma_measures_of_four(line(grid, Direction::Left, 1), least);
    lemma_measures_of_four(line(grid, Direction::Left, 2), least);
    lemma_measures_of_four(line(grid, Direction::Left, 3), least);
    lemma_measures_of_four(line(grid, Direction::Up, 0), least);
    lemma_measures_of_four(line(grid, Direction::Up, 1), least);
    lemma_measures_of_four(line(grid, Direction::Up, 2), least);
    lemma_measures_of_four(line(grid, Direction::Up, 3), least);
}

/// The measures of the board are the same along rows and along columns, in
/// either reading.
pub proof fn lemma_measures_by_lines(grid: Grid, d: Direction, least: nat)
    ensures
        board_count(grid, least) == count_at_least(line(grid, d, 0), least) + count_at_least(
            line(grid, d, 1),
            least,
        ) + count_at_least(line(grid, d, 2), least) + count_at_least(line(grid, d, 3), least),
        board_worth(grid) == total_worth(line(grid, d, 0)) + total_worth(line(grid, d, 1))
            + total_worth(line(grid, d, 2)) + total_worth(line(grid, d, 3)),
        board_count(grid, least) <= 16,
{
    lemma_count_bounds(line(grid, Direction::Left, 0), least);
    lemma_count_bounds(line(grid, Direction::Left, 1), least);
    lemma_count_bounds(line(grid, Direction::Left, 2), least);
    lemma_count_bounds(line(grid, Direction::Left, 3), least);
    match d {
        Direction::Left => {},
        Direction::Right => {
            lemma_measures_reversed(line(grid, Direction::Left, 0), line(grid, d, 0), least);
            lemma_measures_reversed(line(grid, Direction::Left, 1), line(grid, d, 1), least);
            lemma_measures_reversed(line(grid, Direction::Left, 2), line(grid, d, 2), least);
            lemma_measures_reversed(line(grid, Direction::Left, 3), line(grid, d, 3), least);
        },
        Direction::Up => {
            lemma_measures_by_columns(grid, least);
        },
        Direction::Down => {
            lemma_measures_by_columns(grid, least);
            lemma_measures_reversed(line(grid, Direction::Up, 0), line(grid, d, 0), least);
            lemma_measures_reversed(line(grid, Direction::Up, 1), line(grid, d, 1), least);
            lemma_measures_reversed(line(grid, Direction::Up, 2), line(grid, d, 2), least);
            lemma_measures_reversed(line(grid, Direction::Up, 3), line(grid, d, 3), least);
        },
    }
}

/// A move of a well-formed board: the room that the tiles need afterwards.
pub proof fn lemma_slid_count(state: GameState, d: Direction, k: nat)
    requires
        state.wf(),
        3 <= k <= 18,
    ensures
        slid_count(state.grid, d, pow2(k)) + k <= 18,
{
    let grid = state.grid;
    let half = pow2((k - 1) as nat);
    lemma_pow2_unfold(k);
    lemma_pow2_pos((k - 1) as nat);
    lemma_measures_by_lines(grid, d, half);
    lemma_measures_by_lines(grid, d, pow2(k));
    lemma_measures_of_slide(line(grid, d, 0), half);
    lemma_measures_of_slide(line(grid, d, 1), half);
    lemma_measures_of_slide(line(grid, d, 2), half);
    lemma_measures_of_slide(line(grid, d, 3), half);
    assert(board_count(grid, pow2(k)) + k <= 18);
    if k > 3 {
        assert(board_count(grid, pow2((k - 1) as nat)) + (k - 1) <= 18);
    }
}

/// A well-formed board is within the machine's limits for every move; after
/// the slide no tile reaches 2^18, and the score stays below 16 * 18 * 2^18.
pub proof fn lemma_wf_fits(state: GameState, d: Direction)
    requires
        state.wf(),
    ensures
        state.fits(d),
        forall|i: int, k: int|
            0 <= i < 4 && 0 <= k < 4 ==> #[trigger] slide(line(state.grid, d, i))[k] < 0x40000,
        state.score + move_gain(state.grid, d) <= slid_worth(state.grid, d) <= 75497472,
{
    let grid = state.grid;
    lemma2_to64();
    lemma_slid_count(state, d, 18);
    lemma_measures_by_lines(grid, d, 1);
    assert forall|i: int| 0 <= i < 4 implies (forall|k: int|
        0 <= k < 4 ==> #[trigger] slide(line(grid, d, i))[k] < 0x40000) && total_worth(
        #[trigger] slide(line(grid, d, i)),
    ) == total_worth(line(grid, d, i)) + gain(line(grid, d, i)) && total_worth(
        slide(line(grid, d, i)),
    ) <= 18874368 by {
        let s = slide(line(grid, d, i));
        lemma_count_bounds(s, pow2(18));
        lemma_measures_of_slide(line(grid, d, i), 1);
        lemma_measures_of_four(s, 1);
        lemma_worth_bound(s[0], 18);
        lemma_worth_bound(s[1], 18);
        lemma_worth_bound(s[2], 18);
        lemma_worth_bound(s[3], 18);
    }
    assert(total_worth(slide(line(grid, d, 0))) <= 18874368);
    assert(total_worth(slide(line(grid, d, 1))) <= 18874368);
    assert(total_worth(slide(line(grid, d, 2))) <= 18874368);
    assert(total_worth(slide(line(grid, d, 3))) <= 18874368);
}

/// A slide keeps a well-formed board well-formed.
pub proof fn lemma_slide_keeps_wf(before: GameState, d: Direction, after: GameState)
    requires
        before.wf(),
        slid(before.grid, d, after.grid),
        after.score == before.score + move_gain(before.grid, d),
    ensures
        after.wf(),
{
    let g = before.grid;
    let h = after.grid;
    assert forall|i: int| 0 <= i < 4 implies #[trigger] line(h, d, i) == slide(line(g, d, i)) by {
        assert forall|k: int| 0 <= k < 4 implies line(h, d, i)[k] == slide(line(g, d, i))[k] by {
            match d {
                Direction::Left => {
                    assert(at(h, i, k) == slid_at(g, d, i, k));
                },
                Direction::Right => {
                    assert(at(h, i, 3 - k) == slid_at(g, d, i, 3 - k));
                },
                Direction::Up => {
                    assert(at(h, k, i) == slid_at(g, d, k, i));
                },
                Direction::Down => {
                    assert(at(h, 3 - k, i) == slid_at(g, d, 3 - k, i));
                },
            }
        }
        assert(line(h, d, i) =~= slide(line(g, d, i)));
    }
    assert(line(h, d, 0) == slide(line(g, d, 0)));
    assert(line(h, d, 1) == slide(line(g, d, 1)));
    assert(line(h, d, 2) == slide(line(g, d, 2)));
    assert(line(h, d, 3) == slide(line(g, d, 3)));
    lemma_wf_fits(before, d);
    lemma_measures_by_lines(h, d, 1);
    assert forall|r: int, c: int| in_grid(r, c) implies is_tile(#[trigger] at(h, r, c)) by {
        let i = match d {
            Direction::Left | Direction::Right => r,
            Direction::Up | Direction::Down => c,
        };
        let k = match d {
            Direction::Left => c,
            Direction::Right => 3 - c,
            Direction::Up => r,
            Direction::Down => 3 - r,
        };
        assert forall|n: int| 0 <= n < 4 implies is_tile(#[trigger] line(g, d, i)[n]) by {
            match d {
                Direction::Left => {
                    assert(is_tile(at(g, i, n)));
                },
                Direction::Right => {
                    assert(is_tile(at(g, i, 3 - n)));
                },
                Direction::Up => {
                    assert(is_tile(at(g, n, i)));
                },
                Direction::Down => {
                    assert(is_tile(at(g, 3 - n, i)));
                },
            }
        }
        assert(all_tiles(line(g, d, i)));
        lemma_measures_of_slide(line(g, d, i), 1);
        assert(is_tile(slide(line(g, d, i))[k]));
        assert(at(h, r, c) == slid_at(g, d, r, c));
    }
    assert forall|k: nat| 3 <= k <= 18 implies #[trigger] board_count(h, pow2(k)) + k <= 18 by {
        lemma_slid_count(before, d, k);
        lemma_measures_by_lines(h, d, pow2(k));
    }
}

/// A new tile in an empty cell: what it does to the measures of the board.
pub proof fn lemma_spawn_measures(g: Grid, h: Grid, r: int, c: int, v: nat, least: nat)
    requires
        spawns(g, h, r, c, v),
    ensures
        least > 0 ==> board_count(h, least) == board_count(g, least) + counts(v, least),
        board_worth(h) == board_worth(g) + worth(v),
{
    reveal(counts);
    lemma_worth_small();
    assert forall|i: int| 0 <= i < 4 && i != r implies #[trigger] line(h, Direction::Left, i)
        == line(g, Direction::Left, i) by {
        assert forall|k: int| 0 <= k < 4 implies line(h, Direction::Left, i)[k] == line(
            g,
            Direction::Left,
            i,
        )[k] by {
            assert(at(h, i, k) == at(g, i, k));
        }
        assert(line(h, Direction::Left, i) =~= line(g, Direction::Left, i));
    }
    let a = line(g, Direction::Left, r);
    let b = line(h, Direction::Left, r);
    assert forall|k: int| 0 <= k < 4 && k != c implies b[k] == a[k] by {
        assert(at(h, r, k) == at(g, r, k));
    }
    assert(a[c] == 0 && b[c] == v);
    lemma_measures_of_four(a, least);
    lemma_measures_of_four(b, least);
    if r == 0 {
        assert(line(h, Direction::Left, 1) == line(g, Direction::Left, 1));
        assert(line(h, Direction::Left, 2) == line(g, Direction::Left, 2));
        assert(line(h, Direction::Left, 3) == line(g, Direction::Left, 3));
    } else if r == 1 {
        assert(line(h, Direction::Left, 0) == line(g, Direction::Left, 0));
        assert(line(h, Direction::Left, 2) == line(g, Direction::Left, 2));
        assert(line(h, Direction::Left, 3) == line(g, Direction::Left, 3));
    } else if r == 2 {
        assert(line(h, Direction::Left, 0) == line(g, Direction::Left, 0));
        assert(line(h, Direction::Left, 1) == line(g, Direction::Left, 1));
        assert(line(h, Direction::Left, 3) == line(g, Direction::Left, 3));
    } else {
        assert(line(h, Direction::Left, 0) == line(g, Direction::Left, 0));
        assert(line(h, Direction::Left, 1) == line(g, Direction::Left, 1));
        assert(line(h, Direction::Left, 2) == line(g, Direction::Left, 2));
    }
}

/// A new tile of 2 or 4 keeps a well-formed board well-formed.
pub proof fn lemma_spawn_keeps_wf(before: GameState, after: GameState, r: int, c: int, v: nat)
    requires
        before.wf(),
        spawns(before.grid, after.grid, r, c, v),
        v == 2 || v == 4,
        after.score == before.score,
    ensures
        after.wf(),
{
    let g = before.grid;
    let h = after.grid;
    lemma_is_tile_small();
    assert forall|a: int, b: int| in_grid(a, b) implies is_tile(#[trigger] at(h, a, b)) by {
        if !(a == r && b == c) {
            assert(at(h, a, b) == at(g, a, b));
        }
    }
    lemma_spawn_measures(g, h, r, c, v, 1);
    assert forall|k: nat| 3 <= k <= 18 implies #[trigger] board_count(h, pow2(k)) + k <= 18 by {
        reveal(counts);
        lemma2_to64();
        lemma_pow2_strictly_increases(2, k);
        lemma_spawn_measures(g, h, r, c, v, pow2(k));
    }
}

/// The empty board without a score is well-formed.
pub proof fn lemma_empty_wf(state: GameState)
    requires
        state.score == 0,
        forall|r: int, c: int| in_grid(r, c) ==> #[trigger] at(state.grid, r, c) == 0,
    ensures
        state.wf(),
{
    let g = state.grid;
    assert forall|k: nat| 3 <= k <= 18 implies #[trigger] board_count(g, pow2(k)) + k <= 18 by {
        let least = pow2(k);
        lemma_pow2_pos(k);
        reveal(counts);
        lemma_measures_of_four(line(g, Direction::Left, 0), least);
        lemma_measures_of_four(line(g, Direction::Left, 1), least);
        lemma_measures_of_four(line(g, Direction::Left, 2), least);
        lemma_measures_of_four(line(g, Direction::Left, 3), least);
    }
}

/// The empty cells among the first `n` cells of the board, as row and column.
/// The cells are counted row by row from the top, and in each row from the
/// left; the empty ones are listed in that order.
pub open spec fn empty_cells_upto(grid: Grid, n: nat) -> Seq<(int, int)>
    decreases n,
{
    if n == 0 {
        Seq::empty()
    } else {
        let rest = empty_cells_upto(grid, (n - 1) as nat);
        let r = (n - 1) / 4;
        let c = (n - 1) % 4;
        if at(grid, r, c) == 0 {
            rest.push((r, c))
        } else {
            rest
        }
    }
}

/// The empty cells of the board, row by row from the top, and in each row
/// from the left.
pub open spec fn empty_cells(grid: Grid) -> Seq<(int, int)> {
    empty_cells_upto(grid, 16)
}

/// `after` is `before` with a new tile in the empty cell number `pick`,
/// counted from 0 in the order of `empty_cells`: a 2 if `two`, else a 4.
pub open spec fn tile_placed(before: Grid, after: Grid, pick: int, two: bool) -> bool {
    &&& 0 <= pick < empty_cells(before).len()
    &&& spawns(
        before,
        after,
        empty_cells(before)[pick].0,
        empty_cells(before)[pick].1,
        if two {
            2
        } else {
            4
        },
    )
}

/// The place of a cell, given as row and column, in the order in which the
/// cells are counted: row by row from the top, and in each row from the left.
pub open spec fn cell_number(cell: (int, int)) -> int {
    4 * cell.0 + cell.1
}

/// The list of empty cells holds each empty cell among the first `n` cells,
/// and nothing else; it holds them in the order in which the cells are
/// counted, so none of them twice.
pub proof fn lemma_empty_cells_upto(grid: Grid, n: nat)
    requires
        n <= 16,
    ensures
        empty_cells_upto(grid, n).len() <= n,
        forall|k: int|
            0 <= k < empty_cells_upto(grid, n).len() ==> {
                let cell = #[trigger] empty_cells_upto(grid, n)[k];
                in_grid(cell.0, cell.1) && at(grid, cell.0, cell.1) == 0 && cell_number(cell) < n
            },
        forall|j: int, k: int|
            0 <= j < k < empty_cells_upto(grid, n).len() ==> cell_number(
                #[trigger] empty_cells_upto(grid, n)[j],
            ) < cell_number(#[trigger] empty_cells_upto(grid, n)[k]),
        forall|r: int, c: int|
            in_grid(r, c) && 4 * r + c < n && #[trigger] at(grid, r, c) == 0 ==> exists|k: int|
                0 <= k < empty_cells_upto(grid, n).len() && #[trigger] empty_cells_upto(grid, n)[k]
                    == (r, c),
    decreases n,
{
    if n > 0 {
        let m = (n - 1) as nat;
        let rest = empty_cells_upto(grid, m);
        let all = empty_cells_upto(grid, n);
        lemma_empty_cells_upto(grid, m);
        let lr = (n - 1) / 4;
        let lc = (n - 1) % 4;
        assert(in_grid(lr, lc) && 4 * lr + lc == n - 1);
        assert forall|k: int| 0 <= k < all.len() implies {
            let cell = #[trigger] all[k];
            in_grid(cell.0, cell.1) && at(grid, cell.0, cell.1) == 0 && cell_number(cell) < n
        } by {
            if k < rest.len() {
                assert(all[k] == rest[k]);
            }
        }
        assert forall|j: int, k: int| 0 <= j < k < all.len() implies cell_number(#[trigger] all[j])
            < cell_number(#[trigger] all[k]) by {
            assert(all[j] == rest[j]);
            if k < rest.len() {
                assert(all[k] == rest[k]);
            }
        }
        assert forall|r: int, c: int|
            in_grid(r, c) && 4 * r + c < n && #[trigger] at(grid, r, c) == 0 implies exists|k: int|
            0 <= k < all.len() && #[trigger] all[k] == (r, c) by {
            if 4 * r + c < m {
                let k = choose|k: int| 0 <= k < rest.len() && #[trigger] rest[k] == (r, c);
                assert(all[k] == (r, c));
            } else {
                assert(r == lr && c == lc);
                assert(all[all.len() - 1] == (r, c));
            }
        }
    }
}

/// A board has an empty cell exactly when its list of empty cells is not
/// empty.
pub proof fn lemma_has_empty(state: GameState)
    ensures
        state.has_empty() <==> empty_cells(state.grid).len() > 0,
{
    let cells = empty_cells(state.grid);
    lemma_empty_cells_upto(state.grid, 16);
    if cells.len() > 0 {
        let cell = cells[0];
        assert(in_grid(cell.0, cell.1) && at(state.grid, cell.0, cell.1) == 0);
    }
    if state.has_empty() {
        let (r, c) = choose|r: int, c: int| in_grid(r, c) && #[trigger] at(state.grid, r, c) == 0;
        assert(4 * r + c < 16);
    }
}

fn same_row(a: &[u32; 4], b: &[u32; 4]) -> (same: bool)
    ensures
        same == (cells(*a) == cells(*b)),
{
    let same = a[0] == b[0] && a[1] == b[1] && a[2] == b[2] && a[3] == b[3];
    proof {
        if same {
            assert(cells(*a) =~= cells(*b));
        } else {
            assert(cells(*a)[0] == a[0] && cells(*b)[0] == b[0]);
            assert(cells(*a)[1] == a[1] && cells(*b)[1] == b[1]);
            assert(cells(*a)[2] == a[2] && cells(*b)[2] == b[2]);
            assert(cells(*a)[3] == a[3] && cells(*b)[3] == b[3]);
        }
    }
    same
}

impl GameState {
    /// Machine limits: a move in direction `d` creates no tile and no score
    /// beyond `u32::MAX`.
    pub open spec fn fits(self, d: Direction) -> bool {
        &&& forall|i: int, k: int|
            0 <= i < 4 && 0 <= k < 4 ==> #[trigger] slide(line(self.grid, d, i))[k] <= u32::MAX
        &&& self.score + move_gain(self.grid, d) <= u32::MAX
    }

    /// What holds of every board that a game reaches. Each cell is empty or
    /// holds a power of two from 2 upward. For each k from 3 to 18, at most
    /// 18 - k cells hold 2^k or more: a tile needs the room in which it was
    /// built. And the score is no more than what the tiles are worth.
    pub open spec fn wf(self) -> bool {
        &&& forall|r: int, c: int| in_grid(r, c) ==> is_tile(#[trigger] at(self.grid, r, c))
        &&& forall|k: nat| 3 <= k <= 18 ==> #[trigger] board_count(self.grid, pow2(k)) + k <= 18
        &&& self.score <= board_worth(self.grid)
    }

    /// How many cells of row `r` hold `least` or more.
    fn row_count(&self, r: usize, least: u32) -> (n: usize)
        requires
            r < 4,
        ensures
            n == count_at_least(line(self.grid, Direction::Left, r as int), least as nat),
            n <= 4,
    {
        proof {
            reveal(counts);
            lemma_measures_of_four(line(self.grid, Direction::Left, r as int), least as nat);
        }
        let mut n: usize = 0;
        if self.grid[r][0] >= least {
            n = n + 1;
        }
        if self.grid[r][1] >= least {
            n = n + 1;
        }
        if self.grid[r][2] >= least {
            n = n + 1;
        }
        if self.grid[r][3] >= least {
            n = n + 1;
        }
        n
    }

    /// What the tiles of row `r` are worth together.
    fn row_worth(&self, r: usize) -> (w: u64)
        requires
            r < 4,
        ensures
            w == total_worth(line(self.grid, Direction::Left, r as int)),
            w <= 0x80_0000_0000,
    {
        proof {
            lemma_measures_of_four(line(self.grid, Direction::Left, r as int), 1);
        }
        worth_of(self.grid[r][0]) + worth_of(self.grid[r][1]) + worth_of(self.grid[r][2])
            + worth_of(self.grid[r][3])
    }

    /// Whether the board is well-formed. A game that starts with `new` and
    /// goes on by `move_tiles` always is; a board that was put together by
    /// hand can be tested here before it is played or shown to a player.
    pub fn is_wf(&self) -> (ok: bool)
        ensures
            ok == self.wf(),
    {
        let mut r: usize = 0;
        while r < 4
            invariant
                r <= 4,
                forall|i: int, c: int| in_grid(i, c) && i < r ==> is_tile(#[trigger] at(self.grid, i, c)),
            decreases 4 - r,
        {
            let mut c: usize = 0;
            while c < 4
                invariant
                    r < 4,
                    c <= 4,
                    forall|i: int, j: int|
                        in_grid(i, j) && (i < r || (i == r && j < c)) ==> is_tile(
                            #[trigger] at(self.grid, i, j),
                        ),
                decreases 4 - c,
            {
                if !is_tile_value(self.grid[r][c]) {
                    assert(in_grid(r as int, c as int) && !is_tile(at(self.grid, r as int, c as int)));
                    return false;
                }
                c = c + 1;
            }
            r = r + 1;
        }
        let mut k: u32 = 3;
        let mut least: u32 = 8;
        proof {
            lemma2_to64();
        }
        while k <= 18
            invariant
                3 <= k <= 19,
                least == pow2(k as nat),
                least <= 0x80000,
                forall|i: int, c: int| in_grid(i, c) ==> is_tile(#[trigger] at(self.grid, i, c)),
                forall|j: nat| 3 <= j < k ==> #[trigger] board_count(self.grid, pow2(j)) + j <= 18,
            decreases 19 - k,
        {
            let n = self.row_count(0, least) + self.row_count(1, least) + self.row_count(2, least)
                + self.row_count(3, least);
            if n + k as usize > 18 {
                assert(board_count(self.grid, pow2(k as nat)) + k > 18);
                return false;
            }
            proof {
                lemma_pow2_unfold((k + 1) as nat);
                lemma2_to64();
                if k < 18 {
                    lemma_pow2_strictly_increases((k + 1) as nat, 19);
                }
            }
            least = least * 2;
            k = k + 1;
        }
        let worth = self.row_worth(0) + self.row_worth(1) + self.row_worth(2) + self.row_worth(3);
        self.score as u64 <= worth
    }

    /// `after` is what a move in direction `d` can make of this game. If the
    /// move changes the board, the tiles slide and merge, the score grows by
    /// what the merges are worth, and one tile of 2 or 4 appears in a cell that
    /// the slide left empty. If it changes nothing, the game stays as it is.
    pub open spec fn moved(self, d: Direction, after: GameState) -> bool {
        if move_changes(self.grid, d) {
            &&& after.score == self.score + move_gain(self.grid, d)
            &&& exists|r: int, c: int, v: nat|
                (v == 2 || v == 4) && #[trigger] slid_and_spawned(self.grid, d, after.grid, r, c, v)
        } else {
            after == self
        }
    }

    /// Some cell is empty.
    pub open spec fn has_empty(self) -> bool {
        exists|r: int, c: int| in_grid(r, c) && #[trigger] at(self.grid, r, c) == 0
    }

    /// Turns the board by a quarter, clockwise: row `i` becomes column `3 - i`.
    pub fn rotate_grid(&mut self)
        ensures
            is_rotation(old(self).grid, final(self).grid),
            final(self).score == old(self).score,
    {
        let grid = self.grid;
        let mut new_grid = [[0u32;4];4];
        let mut i: usize = 0;
        while i < 4
            invariant
                i <= 4,
                forall|r: int, c: int|
                    in_grid(r, c) && c >= 4 - i ==> #[trigger] at(new_grid, r, c) == at(
                        grid,
                        3 - c,
                        r,
                    ),
            decreases 4 - i,
        {
            let mut j: usize = 0;
            while j < 4
                invariant
                    i < 4,
                    j <= 4,
                    forall|r: int, c: int|
                        in_grid(r, c) && (c > 3 - i || (c == 3 - i && r < j)) ==> #[trigger] at(
                            new_grid,
                            r,
                            c,
                        ) == at(grid, 3 - c, r),
                decreases 4 - j,
            {
                let ghost prev = new_grid;
                new_grid[j][3 - i] = grid[i][j];
                proof {
                    assert forall|r: int, c: int|
                        in_grid(r, c) && (c > 3 - i || (c == 3 - i && r < j + 1)) implies #[trigger] at(
                        new_grid,
                        r,
                        c,
                    ) == at(grid, 3 - c, r) by {
                        if !(r == j && c == 3 - i) {
                            assert(at(new_grid, r, c) == at(prev, r, c));
                        }
                    }
                }
                j = j + 1;
            }
            i = i + 1;
        }
        self.grid = new_grid;
    }

    /// Slides every row toward the left edge and adds what the merges are
    /// worth to the score. Tells whether the board changed.
    pub fn move_left(&mut self) -> (moved: bool)
        requires
            old(self).fits(Direction::Left),
        ensures
            slid(old(self).grid, Direction::Left, final(self).grid),
            final(self).score == old(self).score + move_gain(old(self).grid, Direction::Left),
            moved == move_changes(old(self).grid, Direction::Left),
    {
        let ghost before = self.grid;
        let ghost score = self.score;
        let mut moved = false;
        let mut r: usize = 0;
        while r < 4
            invariant
                r <= 4,
                forall|i: int, k: int|
                    0 <= i < 4 && 0 <= k < 4 ==> #[trigger] slide(line(before, Direction::Left, i))[k]
                        <= u32::MAX,
                score + move_gain(before, Direction::Left) <= u32::MAX,
                forall|i: int, c: int|
                    in_grid(i, c) ==> #[trigger] at(self.grid, i, c) == if i < r {
                        slid_at(before, Direction::Left, i, c)
                    } else {
                        at(before, i, c)
                    },
                self.score == score + gain_upto(before, Direction::Left, r as int),
                moved == changes_upto(before, Direction::Left, r as int),
            decreases 4 - r,
        {
            let row = self.grid[r];
            proof {
                assert forall|k: int| 0 <= k < 4 implies cells(row)[k] == line(
                    before,
                    Direction::Left,
                    r as int,
                )[k] by {
                    assert(at(self.grid, r as int, k) == at(before, r as int, k));
                }
                assert(cells(row) =~= line(before, Direction::Left, r as int));
            }
            let (new_row, gained) = slide_row(&row);
            let ghost prev = self.grid;
            self.score = self.score + gained;
            if !same_row(&row, &new_row) {
                moved = true;
                self.grid[r] = new_row;
            }
            proof {
                assert forall|i: int, c: int| in_grid(i, c) implies #[trigger] at(self.grid, i, c)
                    == if i < r + 1 {
                    slid_at(before, Direction::Left, i, c)
                } else {
                    at(before, i, c)
                } by {
                    if i == r {
                        assert(cells(new_row)[c] == new_row[c]);
                        assert(cells(row)[c] == row[c]);
                        assert(at(prev, i, c) == row[c]);
                    } else {
                        assert(at(self.grid, i, c) == at(prev, i, c));
                    }
                }
            }
            r = r + 1;
        }
        moved
    }

    /// Slides every row toward the right edge.
    pub fn move_right(&mut self) -> (moved: bool)
        requires
            old(self).fits(Direction::Right),
        ensures
            slid(old(self).grid, Direction::Right, final(self).grid),
            final(self).score == old(self).score + move_gain(old(self).grid, Direction::Right),
            moved == move_changes(old(self).grid, Direction::Right),
    {
        let ghost g0 = self.grid;
        self.rotate_grid();
        let ghost g1 = self.grid;
        self.rotate_grid();
        let ghost g2 = self.grid;
        proof {
            lemma_half_turn(g0, g1, g2);
            assert forall|i: int| 0 <= i < 4 implies #[trigger] line(g2, Direction::Left, i)
                == line(g0, Direction::Right, 3 - i) by {
                assert forall|k: int| 0 <= k < 4 implies line(g2, Direction::Left, i)[k] == line(
                    g0,
                    Direction::Right,
                    3 - i,
                )[k] by {
                    assert(at(g2, i, k) == at(g0, 3 - i, 3 - k));
                }
                assert(line(g2, Direction::Left, i) =~= line(g0, Direction::Right, 3 - i));
            }
            lemma_same_lines(g0, Direction::Right, g2, Direction::Left, true);
            assert forall|i: int, k: int| 0 <= i < 4 && 0 <= k < 4 implies #[trigger] slide(
                line(g2, Direction::Left, i),
            )[k] <= u32::MAX by {
                assert(slide(line(g0, Direction::Right, 3 - i))[k] <= u32::MAX);
            }
        }
        let moved = self.move_left();
        let ghost h0 = self.grid;
        self.rotate_grid();
        let ghost h1 = self.grid;
        self.rotate_grid();
        proof {
            lemma_half_turn(h0, h1, self.grid);
            assert forall|r: int, c: int| in_grid(r, c) implies #[trigger] at(self.grid, r, c)
                == slid_at(g0, Direction::Right, r, c) by {
                assert(at(self.grid, r, c) == at(h0, 3 - r, 3 - c));
                assert(at(h0, 3 - r, 3 - c) == slid_at(g2, Direction::Left, 3 - r, 3 - c));
                assert(line(g2, Direction::Left, 3 - r) == line(g0, Direction::Right, r));
            }
        }
        moved
    }

    /// Slides every column toward the top edge.
    pub fn move_up(&mut self) -> (moved: bool)
        requires
            old(self).fits(Direction::Up),
        ensures
            slid(old(self).grid, Direction::Up, final(self).grid),
            final(self).score == old(self).score + move_gain(old(self).grid, Direction::Up),
            moved == move_changes(old(self).grid, Direction::Up),
    {
        let ghost g0 = self.grid;
        self.rotate_grid();
        let ghost g1 = self.grid;
        self.rotate_grid();
        let ghost g2 = self.grid;
        self.rotate_grid();
        let ghost g3 = self.grid;
        proof {
            lemma_three_quarter_turn(g0, g1, g2, g3);
            assert forall|i: int| 0 <= i < 4 implies #[trigger] line(g3, Direction::Left, i)
                == line(g0, Direction::Up, 3 - i) by {
                assert forall|k: int| 0 <= k < 4 implies line(g3, Direction::Left, i)[k] == line(
                    g0,
                    Direction::Up,
                    3 - i,
                )[k] by {
                    assert(at(g3, i, k) == at(g0, k, 3 - i));
                }
                assert(line(g3, Direction::Left, i) =~= line(g0, Direction::Up, 3 - i));
            }
            lemma_same_lines(g0, Direction::Up, g3, Direction::Left, true);
            assert forall|i: int, k: int| 0 <= i < 4 && 0 <= k < 4 implies #[trigger] slide(
                line(g3, Direction::Left, i),
            )[k] <= u32::MAX by {
                assert(slide(line(g0, Direction::Up, 3 - i))[k] <= u32::MAX);
            }
        }
        let moved = self.move_left();
        let ghost h0 = self.grid;
        self.rotate_grid();
        proof {
            assert forall|r: int, c: int| in_grid(r, c) implies #[trigger] at(self.grid, r, c)
                == slid_at(g0, Direction::Up, r, c) by {
                assert(at(self.grid, r, c) == at(h0, 3 - c, r));
                assert(at(h0, 3 - c, r) == slid_at(g3, Direction::Left, 3 - c, r));
                assert(line(g3, Direction::Left, 3 - c) == line(g0, Direction::Up, c));
            }
        }
        moved
    }

    /// Slides every column toward the bottom edge.
    pub fn move_down(&mut self) -> (moved: bool)
        requires
            old(self).fits(Direction::Down),
        ensures
            slid(old(self).grid, Direction::Down, final(self).grid),
            final(self).score == old(self).score + move_gain(old(self).grid, Direction::Down),
            moved == move_changes(old(self).grid, Direction::Down),
    {
        let ghost g0 = self.grid;
        self.rotate_grid();
        let ghost g1 = self.grid;
        proof {
            assert forall|i: int| 0 <= i < 4 implies #[trigger] line(g1, Direction::Left, i)
                == line(g0, Direction::Down, i) by {
                assert forall|k: int| 0 <= k < 4 implies line(g1, Direction::Left, i)[k] == line(
                    g0,
                    Direction::Down,
                    i,
                )[k] by {
                    assert(at(g1, i, k) == at(g0, 3 - k, i));
                }
                assert(line(g1, Direction::Left, i) =~= line(g0, Direction::Down, i));
            }
            lemma_same_lines(g0, Direction::Down, g1, Direction::Left, false);
            assert forall|i: int, k: int| 0 <= i < 4 && 0 <= k < 4 implies #[trigger] slide(
                line(g1, Direction::Left, i),
            )[k] <= u32::MAX by {
                assert(slide(line(g0, Direction::Down, i))[k] <= u32::MAX);
            }
        }
        let moved = self.move_left();
        let ghost h0 = self.grid;
        self.rotate_grid();
        let ghost h1 = self.grid;
        self.rotate_grid();
        let ghost h2 = self.grid;
        self.rotate_grid();
        proof {
            lemma_three_quarter_turn(h0, h1, h2, self.grid);
            assert forall|r: int, c: int| in_grid(r, c) implies #[trigger] at(self.grid, r, c)
                == slid_at(g0, Direction::Down, r, c) by {
                assert(at(self.grid, r, c) == at(h0, c, 3 - r));
                assert(at(h0, c, 3 - r) == slid_at(g1, Direction::Left, c, 3 - r));
                assert(line(g1, Direction::Left, c) == line(g0, Direction::Down, c));
            }
        }
        moved
    }

    /// Makes a move: see `moved` for what it does to the game.
    pub fn move_tiles(&mut self, direction: Direction)
        requires
            old(self).fits(direction),
        ensures
            old(self).moved(direction, *final(self)),
            old(self).wf() ==> final(self).wf(),
    {
        let ghost g0 = self.grid;
        let ghost start = *self;
        let moved = match direction {
            Direction::Left => self.move_left(),
            Direction::Right => self.move_right(),
            Direction::Up => self.move_up(),
            Direction::Down => self.move_down(),
        };
        let ghost mid = self.grid;
        if moved {
            proof {
                lemma_move_frees_a_cell(g0, direction);
                let (r, c) = choose|r: int, c: int|
                    in_grid(r, c) && #[trigger] slid_at(g0, direction, r, c) == 0;
                assert(at(mid, r, c) == 0);
                if start.wf() {
                    lemma_slide_keeps_wf(start, direction, *self);
                }
            }
            self.add_random_tile();
            proof {
                let (r, c, v) = choose|r: int, c: int, v: nat|
                    (v == 2 || v == 4) && #[trigger] spawns(mid, self.grid, r, c, v);
                assert(at(mid, r, c) == slid_at(g0, direction, r, c));
                assert forall|a: int, b: int| in_grid(a, b) && !(a == r && b == c) implies #[trigger] at(
                    self.grid,
                    a,
                    b,
                ) == slid_at(g0, direction, a, b) by {
                    assert(at(self.grid, a, b) == at(mid, a, b));
                }
                assert(slid_and_spawned(g0, direction, self.grid, r, c, v));
            }
        } else {
            proof {
                lemma_move_without_change(g0, direction);
                assert forall|r: int, c: int| in_grid(r, c) implies at(self.grid, r, c) == at(
                    g0,
                    r,
                    c,
                ) by {
                    assert(at(self.grid, r, c) == slid_at(g0, direction, r, c));
                }
                lemma_grid_ext(self.grid, g0);
            }
        }
    }

    /// The game is over: no cell is empty and no two neighbours, in a row or
    /// in a column, are equal.
    pub open spec fn game_over(self) -> bool {
        forall|r: int, c: int| in_grid(r, c) ==> #[trigger] blocked_at(self.grid, r, c)
    }

    pub fn is_game_over(&self) -> (over: bool)
        ensures
            over == self.game_over(),
    {
        let mut i: usize = 0;
        while i < 4
            invariant
                i <= 4,
                forall|r: int, c: int| in_grid(r, c) && r < i ==> #[trigger] blocked_at(self.grid, r, c),
            decreases 4 - i,
        {
            let mut j: usize = 0;
            while j < 4
                invariant
                    i < 4,
                    j <= 4,
                    forall|r: int, c: int|
                        in_grid(r, c) && (r < i || (r == i && c < j)) ==> #[trigger] blocked_at(
                            self.grid,
                            r,
                            c,
                        ),
                decreases 4 - j,
            {
                if self.grid[i][j] == 0 {
                    assert(!blocked_at(self.grid, i as int, j as int));
                    return false;
                }
                if j < 3 && self.grid[i][j] == self.grid[i][j + 1] {
                    assert(!blocked_at(self.grid, i as int, j as int));
                    return false;
                }
                if i < 3 && self.grid[i][j] == self.grid[i + 1][j] {
                    assert(!blocked_at(self.grid, i as int, j as int));
                    return false;
                }
                j = j + 1;
            }
            i = i + 1;
        }
        true
    }

    /// A new game: an empty board with two tiles on it, and no score.
    pub fn new() -> (state: GameState)
        ensures
            state.score == 0,
            opening(state.grid),
            state.wf(),
    {
        let mut state = GameState { grid: [[0u32;4];4], score: 0 };
        let ghost g0 = state.grid;
        proof {
            lemma_empty_wf(state);
        }
        assert(state.has_empty()) by {
            assert(in_grid(0, 0) && at(state.grid, 0, 0) == 0);
        }
        state.add_random_tile();
        let ghost g1 = state.grid;
        proof {
            let (r1, c1, v1) = choose|r: int, c: int, v: nat|
                (v == 2 || v == 4) && #[trigger] spawns(g0, g1, r, c, v);
            let (r, c) = if r1 == 0 && c1 == 0 {
                (0int, 1int)
            } else {
                (0int, 0int)
            };
            assert(in_grid(r, c) && at(g1, r, c) == at(g0, r, c));
            assert(in_grid(r, c) && at(state.grid, r, c) == 0);
        }
        state.add_random_tile();
        proof {
            let g2 = state.grid;
            let (r1, c1, v1) = choose|r: int, c: int, v: nat|
                (v == 2 || v == 4) && #[trigger] spawns(g0, g1, r, c, v);
            let (r2, c2, v2) = choose|r: int, c: int, v: nat|
                (v == 2 || v == 4) && #[trigger] spawns(g1, g2, r, c, v);
            assert forall|r: int, c: int|
                in_grid(r, c) && !(r == r1 && c == c1) && !(r == r2 && c == c2) implies #[trigger] at(
                g2,
                r,
                c,
            ) == 0 by {
                assert(at(g2, r, c) == at(g1, r, c));
                assert(at(g1, r, c) == at(g0, r, c));
            }
            assert(at(g2, r1, c1) == at(g1, r1, c1));
            assert(opening_at(g2, r1, c1, r2, c2));
        }
        state
    }

    /// The empty cells, row by row from the top, and in each row from the
    /// left.
    pub fn empty_positions(&self) -> (positions: Vec<(usize, usize)>)
        ensures
            positions.len() == empty_cells(self.grid).len(),
            forall|k: int|
                0 <= k < positions.len() ==> ((#[trigger] positions[k]).0 as int, positions[k].1 as int)
                    == empty_cells(self.grid)[k],
    {
        let mut positions: Vec<(usize, usize)> = Vec::new();
        let mut i: usize = 0;
        while i < 4
            invariant
                i <= 4,
                positions.len() == empty_cells_upto(self.grid, (4 * i) as nat).len(),
                forall|k: int|
                    0 <= k < positions.len() ==> ((#[trigger] positions[k]).0 as int, positions[k].1 as int)
                        == empty_cells_upto(self.grid, (4 * i) as nat)[k],
            decreases 4 - i,
        {
            let mut j: usize = 0;
            while j < 4
                invariant
                    i < 4,
                    j <= 4,
                    positions.len() == empty_cells_upto(self.grid, (4 * i + j) as nat).len(),
                    forall|k: int|
                        0 <= k < positions.len() ==> (
                        (#[trigger] positions[k]).0 as int,
                        positions[k].1 as int,
                    ) == empty_cells_upto(self.grid, (4 * i + j) as nat)[k],
                decreases 4 - j,
            {
                proof {
                    let n = (4 * i + j) as nat;
                    assert(n / 4 == i && n % 4 == j);
                    assert(((n + 1) - 1) as nat == n);
                }
                if self.grid[i][j] == 0 {
                    positions.push((i, j));
                }
                j = j + 1;
            }
            i = i + 1;
        }
        positions
    }

    /// Puts a new tile into the empty cell number `pick`, counted from 0 row
    /// by row from the top and in each row from the left: a 2 if `two`, else
    /// a 4. Nothing else changes.
    pub fn place_tile(&mut self, pick: usize, two: bool)
        requires
            pick < empty_cells(old(self).grid).len(),
        ensures
            tile_placed(old(self).grid, final(self).grid, pick as int, two),
            final(self).score == old(self).score,
            old(self).wf() ==> final(self).wf(),
    {
        let ghost start = *self;
        let positions = self.empty_positions();
        let (r, c) = positions[pick];
        let v: u32 = if two {
            2
        } else {
            4
        };
        proof {
            lemma_empty_cells_upto(self.grid, 16);
            assert(empty_cells(self.grid)[pick as int] == (r as int, c as int));
        }
        self.grid[r][c] = v;
        proof {
            assert(spawns(start.grid, self.grid, r as int, c as int, v as nat));
            if start.wf() {
                lemma_spawn_keeps_wf(start, *self, r as int, c as int, v as nat);
            }
        }
    }

    /// Adds a tile to an empty cell chosen at random, each with the same
    /// chance: a 2 nine times in ten, else a 4. On a board without an empty
    /// cell it does nothing. Which cell and which tile is left to chance;
    /// `place_tile` says what each draw does.
    pub fn add_random_tile(&mut self)
        ensures
            final(self).score == old(self).score,
            !old(self).has_empty() ==> *final(self) == *old(self),
            old(self).has_empty() ==> exists|pick: int, two: bool| #[trigger]
                tile_placed(old(self).grid, final(self).grid, pick, two),
            old(self).has_empty() ==> exists|r: int, c: int, v: nat|
                (v == 2 || v == 4) && #[trigger] spawns(old(self).grid, final(self).grid, r, c, v),
            old(self).wf() ==> final(self).wf(),
    {
        let ghost before = self.grid;
        proof {
            lemma_has_empty(*self);
        }
        let empty = self.empty_positions().len();
        if empty > 0 {
            let pick = random_below(empty);
            let two = random_ratio(9, 10);
            self.place_tile(pick, two);
            proof {
                let cell = empty_cells(before)[pick as int];
                let v: nat = if two {
                    2
                } else {
                    4
                };
                assert(tile_placed(before, self.grid, pick as int, two));
                assert(spawns(before, self.grid, cell.0, cell.1, v));
            }
        }
    }
}

} // verus!
