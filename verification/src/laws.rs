//! What holds of every board and every move.

use vstd::prelude::*;
use crate::board::{
    can_move_cells, has_empty, has_equal_neighbours, has_tile, pair_below, pair_right, Direction,
    BOARD_COUNT, SIZE,
};
use crate::line_laws::{
    all_tiles, at_rest, cells_sum, is_multiple_of_tile, lemma_fixed_is_rest,
    lemma_line_score_is_marked_sum, lemma_marked_sum_of_four, lemma_moved_line_ends_empty,
    lemma_rest_is_fixed,
    lemma_slide_keeps_sum, lemma_slide_origin, lemma_sum_is_prefix_sum, lemma_sum_of_four,
    lemma_zeros_trail, prefix_sum,
};
use crate::moves::{
    cell_line, cell_offset, is_merge_cell, lemma_coordinates, line_cell, line_score, line_values,
    merged_cells, move_score, moved_cells, score_of_lines,
};
use crate::slide::{
    lemma_merge_bounded, lemma_tiles_bounded, merge_positions, no_negative, slide_line,
    tile_values,
};
use crate::tiles::{is_tile, valid_board};
use vstd::arithmetic::power2::{lemma_pow2_unfold, pow2};

verus! {

/// The direction that undoes the gravity of `direction`.
pub open spec fn opposite(direction: Direction) -> Direction {
    match direction {
        Direction::Up => Direction::Down,
        Direction::Down => Direction::Up,
        Direction::Left => Direction::Right,
        Direction::Right => Direction::Left,
    }
}

/// Every line of the board is at rest under `direction`.
pub open spec fn all_at_rest(board: Seq<int>, direction: Direction) -> bool {
    forall|line: int| 0 <= line < SIZE ==> at_rest(#[trigger] line_values(board, direction, line))
}

/// A line slides into a line of the same length.
pub proof fn lemma_slide_length(line: Seq<int>)
    ensures
        slide_line(line).len() == line.len(),
{
    lemma_tiles_bounded(line);
    lemma_merge_bounded(tile_values(line));
}

/// The lines of the moved board are the lines of the board, each slid.
pub proof fn lemma_moved_lines(board: Seq<int>, direction: Direction, line: int)
    requires
        board.len() == BOARD_COUNT,
        0 <= line < SIZE,
    ensures
        line_values(moved_cells(board, direction), direction, line) == slide_line(
            line_values(board, direction, line),
        ),
{
    lemma_coordinates(direction);
    lemma_slide_length(line_values(board, direction, line));
    assert(line_values(moved_cells(board, direction), direction, line) =~= slide_line(
        line_values(board, direction, line),
    ));
}

/// A move changes nothing exactly when every line is at rest.
pub proof fn lemma_unmoved_at_rest(board: Seq<int>, direction: Direction)
    requires
        board.len() == BOARD_COUNT,
    ensures
        moved_cells(board, direction) == board <==> all_at_rest(board, direction),
{
    lemma_coordinates(direction);
    if moved_cells(board, direction) == board {
        assert forall|line: int| 0 <= line < SIZE implies at_rest(
            #[trigger] line_values(board, direction, line),
        ) by {
            lemma_moved_lines(board, direction, line);
            lemma_fixed_is_rest(line_values(board, direction, line));
        }
    }
    if all_at_rest(board, direction) {
        assert forall|idx: int| 0 <= idx < BOARD_COUNT implies moved_cells(board, direction)[idx]
            == board[idx] by {
            let line = line_values(board, direction, cell_line(direction, idx));
            lemma_rest_is_fixed(line);
            assert(line[cell_offset(direction, idx)] == board[idx]);
        }
        assert(moved_cells(board, direction) =~= board);
    }
}

/// On a board that is full and has no two equal neighbours, every line is
/// at rest whichever way it is read.
proof fn lemma_stuck_board_rests(board: Seq<int>, direction: Direction)
    requires
        board.len() == BOARD_COUNT,
        !can_move_cells(board),
    ensures
        all_at_rest(board, direction),
{
    lemma_coordinates(direction);
    assert forall|line: int| 0 <= line < SIZE implies at_rest(
        #[trigger] line_values(board, direction, line),
    ) by {
        let values = line_values(board, direction, line);
        assert forall|k: int| 0 <= k < values.len() - 1 implies {
            &&& #[trigger] values[k] == 0 ==> values[k + 1] == 0
            &&& values[k] != 0 ==> values[k] != values[k + 1]
        } by {
            let here = line_cell(direction, line, k);
            let next = line_cell(direction, line, k + 1);
            assert(board[here] != 0);
            assert(board[next] != 0);
            match direction {
                Direction::Left => {
                    assert(!pair_right(board, line, k));
                },
                Direction::Right => {
                    assert(!pair_right(board, line, SIZE - 2 - k));
                },
                Direction::Up => {
                    assert(!pair_below(board, k, line));
                },
                Direction::Down => {
                    assert(!pair_below(board, SIZE - 2 - k, line));
                },
            }
        }
    }
}

/// A line that is at rest read from either end is all tiles or all zeros.
proof fn lemma_rest_both_ways(line: Seq<int>)
    requires
        at_rest(line),
        at_rest(line.reverse()),
    ensures
        all_tiles(line) || forall|k: int| 0 <= k < line.len() ==> line[k] == 0,
{
    if !all_tiles(line) {
        let z = choose|z: int| 0 <= z < line.len() && line[z] == 0;
        assert forall|k: int| 0 <= k < line.len() implies line[k] == 0 by {
            if k >= z {
                lemma_zeros_trail(line, z, k);
            } else {
                let back = line.reverse();
                assert(back[line.len() - 1 - z] == 0);
                lemma_zeros_trail(back, line.len() - 1 - z, line.len() - 1 - k);
            }
        }
    }
}

/// A row that rests under Left and Right, or a column that rests under Up
/// and Down, is all tiles or all zeros.
proof fn lemma_resting_line_uniform(board: Seq<int>, direction: Direction, line: int)
    requires
        board.len() == BOARD_COUNT,
        0 <= line < SIZE,
        all_at_rest(board, direction),
        all_at_rest(board, opposite(direction)),
    ensures
        all_tiles(line_values(board, direction, line)) || forall|k: int|
            0 <= k < SIZE ==> line_values(board, direction, line)[k] == 0,
{
    let forth = line_values(board, direction, line);
    let back = line_values(board, opposite(direction), line);
    assert(back =~= forth.reverse());
    lemma_rest_both_ways(forth);
}

/// A board with a tile that rests under all four directions is full and has
/// no two equal neighbours.
proof fn lemma_resting_board_stuck(board: Seq<int>)
    requires
        board.len() == BOARD_COUNT,
        has_tile(board),
        all_at_rest(board, Direction::Left),
        all_at_rest(board, Direction::Right),
        all_at_rest(board, Direction::Up),
        all_at_rest(board, Direction::Down),
    ensures
        !can_move_cells(board),
{
    if has_equal_neighbours(board) {
        let (r, c) = choose|r: int, c: int|
            #![trigger pair_right(board, r, c)]
            #![trigger pair_below(board, r, c)]
            pair_right(board, r, c) || pair_below(board, r, c);
        if pair_right(board, r, c) {
            let row = line_values(board, Direction::Left, r);
            assert(row[c] == board[r * SIZE + c]);
            assert(row[c + 1] == board[r * SIZE + c + 1]);
        } else {
            let column = line_values(board, Direction::Up, c);
            assert(column[r] == board[r * SIZE + c]);
            assert(column[r + 1] == board[(r + 1) * SIZE + c]);
        }
    } else if has_empty(board) {
        let tile = choose|i: int| 0 <= i < board.len() && board[i] != 0;
        let gap = choose|i: int| 0 <= i < board.len() && board[i] == 0;
        let r = tile / (SIZE as int);
        let row = line_values(board, Direction::Left, r);
        lemma_resting_line_uniform(board, Direction::Left, r);
        assert(row[tile % (SIZE as int)] == board[tile]);
        assert(all_tiles(row));
        let c = gap % (SIZE as int);
        let column = line_values(board, Direction::Up, c);
        lemma_resting_line_uniform(board, Direction::Up, c);
        assert(column[r] == row[c]);
        assert(all_tiles(column));
        assert(column[gap / (SIZE as int)] == board[gap]);
    }
}

/// The game can go on exactly when some direction changes the board.
///
/// The board must hold a tile: on the empty board every cell is free, and
/// yet no direction changes anything.
pub proof fn law_can_move_iff_some_direction_moves(board: Seq<int>)
    requires
        board.len() == BOARD_COUNT,
        has_tile(board),
    ensures
        can_move_cells(board) <==> exists|direction: Direction| #[trigger]
            moved_cells(board, direction) != board,
{
    lemma_unmoved_at_rest(board, Direction::Left);
    lemma_unmoved_at_rest(board, Direction::Right);
    lemma_unmoved_at_rest(board, Direction::Up);
    lemma_unmoved_at_rest(board, Direction::Down);
    if can_move_cells(board) {
        if moved_cells(board, Direction::Left) == board && moved_cells(board, Direction::Right)
            == board && moved_cells(board, Direction::Up) == board && moved_cells(
            board,
            Direction::Down,
        ) == board {
            lemma_resting_board_stuck(board);
        }
    } else {
        assert forall|direction: Direction| #[trigger]
            moved_cells(board, direction) == board by {
            lemma_stuck_board_rests(board, direction);
            lemma_unmoved_at_rest(board, direction);
        }
    }
}

/// No direction changes the empty board.
pub proof fn law_empty_board_stays(board: Seq<int>, direction: Direction)
    requires
        board.len() == BOARD_COUNT,
        !has_tile(board),
    ensures
        moved_cells(board, direction) == board,
{
    lemma_coordinates(direction);
    assert forall|line: int| 0 <= line < SIZE implies at_rest(
        #[trigger] line_values(board, direction, line),
    ) by {
        let values = line_values(board, direction, line);
        assert forall|k: int| 0 <= k < values.len() - 1 implies {
            &&& #[trigger] values[k] == 0 ==> values[k + 1] == 0
            &&& values[k] != 0 ==> values[k] != values[k + 1]
        } by {
            assert(board[line_cell(direction, line, k)] == 0);
            assert(board[line_cell(direction, line, k + 1)] == 0);
        }
    }
    lemma_unmoved_at_rest(board, direction);
}

/// The sum of the cells below index `upto` that `merged` names.
pub open spec fn merged_total(after: Seq<int>, merged: Set<usize>, upto: nat) -> int
    decreases upto,
{
    if upto == 0 {
        0
    } else {
        merged_total(after, merged, (upto - 1) as nat) + if merged.contains((upto - 1) as usize) {
            after[upto - 1]
        } else {
            0
        }
    }
}

/// What cell `idx` adds to the score: the tile that the move leaves there,
/// where it is a combined one.
pub open spec fn cell_gain(board: Seq<int>, direction: Direction, idx: int) -> int {
    if is_merge_cell(board, direction, idx) {
        moved_cells(board, direction)[idx]
    } else {
        0
    }
}

/// The score of a line is what its four cells add to the score.
proof fn lemma_line_score_by_cells(board: Seq<int>, direction: Direction, line: int)
    requires
        board.len() == BOARD_COUNT,
        0 <= line < SIZE,
    ensures
        line_score(board, direction, line) == cell_gain(
            board,
            direction,
            line_cell(direction, line, 0),
        ) + cell_gain(board, direction, line_cell(direction, line, 1)) + cell_gain(
            board,
            direction,
            line_cell(direction, line, 2),
        ) + cell_gain(board, direction, line_cell(direction, line, 3)),
{
    let values = line_values(board, direction, line);
    let marked = merge_positions(tile_values(values), 0);
    lemma_coordinates(direction);
    lemma_slide_length(values);
    lemma_line_score_is_marked_sum(values);
    lemma_marked_sum_of_four(slide_line(values), marked);
    assert forall|k: int| 0 <= k < SIZE implies cell_gain(
        board,
        direction,
        #[trigger] line_cell(direction, line, k),
    ) == if marked.contains(k as usize) {
        slide_line(values)[k]
    } else {
        0
    } by {
    }
    assert(line_cell(direction, line, 0) >= 0);
    assert(line_cell(direction, line, 1) >= 0);
    assert(line_cell(direction, line, 2) >= 0);
    assert(line_cell(direction, line, 3) >= 0);
}

/// The score of a move is the sum of the tiles it leaves on the cells where
/// a merge happened.
pub proof fn law_score_is_sum_of_merged_tiles(board: Seq<int>, direction: Direction)
    requires
        board.len() == BOARD_COUNT,
    ensures
        move_score(board, direction) == merged_total(
            moved_cells(board, direction),
            merged_cells(board, direction),
            BOARD_COUNT as nat,
        ),
{
    let after = moved_cells(board, direction);
    let merged = merged_cells(board, direction);
    lemma_line_score_by_cells(board, direction, 0);
    lemma_line_score_by_cells(board, direction, 1);
    lemma_line_score_by_cells(board, direction, 2);
    lemma_line_score_by_cells(board, direction, 3);
    reveal_with_fuel(score_of_lines, 5);
    assert forall|upto: nat| 0 < upto <= BOARD_COUNT implies #[trigger] merged_total(
        after,
        merged,
        upto,
    ) == merged_total(after, merged, (upto - 1) as nat) + cell_gain(board, direction, upto - 1) by {
    }
    assert(merged_total(after, merged, 4) == merged_total(after, merged, 0) + cell_gain(
        board,
        direction,
        0,
    ) + cell_gain(board, direction, 1) + cell_gain(board, direction, 2) + cell_gain(
        board,
        direction,
        3,
    ));
    assert(merged_total(after, merged, 8) == merged_total(after, merged, 4) + cell_gain(
        board,
        direction,
        4,
    ) + cell_gain(board, direction, 5) + cell_gain(board, direction, 6) + cell_gain(
        board,
        direction,
        7,
    ));
    assert(merged_total(after, merged, 12) == merged_total(after, merged, 8) + cell_gain(
        board,
        direction,
        8,
    ) + cell_gain(board, direction, 9) + cell_gain(board, direction, 10) + cell_gain(
        board,
        direction,
        11,
    ));
    assert(merged_total(after, merged, 16) == merged_total(after, merged, 12) + cell_gain(
        board,
        direction,
        12,
    ) + cell_gain(board, direction, 13) + cell_gain(board, direction, 14) + cell_gain(
        board,
        direction,
        15,
    ));
}

/// The cells of a board add up line by line.
proof fn lemma_sum_by_lines(board: Seq<int>, direction: Direction)
    requires
        board.len() == BOARD_COUNT,
    ensures
        cells_sum(board) == cells_sum(line_values(board, direction, 0)) + cells_sum(
            line_values(board, direction, 1),
        ) + cells_sum(line_values(board, direction, 2)) + cells_sum(
            line_values(board, direction, 3),
        ),
{
    lemma_sum_of_four(line_values(board, direction, 0));
    lemma_sum_of_four(line_values(board, direction, 1));
    lemma_sum_of_four(line_values(board, direction, 2));
    lemma_sum_of_four(line_values(board, direction, 3));
    lemma_sum_is_prefix_sum(board, 16);
    assert(board.take(16) == board);
    assert(prefix_sum(board, 4) == board[0] + board[1] + board[2] + board[3]) by {
        reveal_with_fuel(prefix_sum, 5);
    }
    assert(prefix_sum(board, 8) == prefix_sum(board, 4) + board[4] + board[5] + board[6]
        + board[7]) by {
        reveal_with_fuel(prefix_sum, 5);
    }
    assert(prefix_sum(board, 12) == prefix_sum(board, 8) + board[8] + board[9] + board[10]
        + board[11]) by {
        reveal_with_fuel(prefix_sum, 5);
    }
    assert(prefix_sum(board, 16) == prefix_sum(board, 12) + board[12] + board[13] + board[14]
        + board[15]) by {
        reveal_with_fuel(prefix_sum, 5);
    }
}

/// A move keeps the sum of the tiles, and where no cell is negative its
/// score is at least zero and at most that sum.
pub proof fn law_move_keeps_tile_sum(board: Seq<int>, direction: Direction)
    requires
        board.len() == BOARD_COUNT,
    ensures
        cells_sum(moved_cells(board, direction)) == cells_sum(board),
        no_negative(board) ==> 0 <= move_score(board, direction) <= cells_sum(board),
{
    let after = moved_cells(board, direction);
    lemma_coordinates(direction);
    lemma_sum_by_lines(board, direction);
    lemma_sum_by_lines(after, direction);
    reveal_with_fuel(score_of_lines, 5);
    assert forall|line: int| 0 <= line < SIZE implies {
        &&& cells_sum(#[trigger] line_values(after, direction, line)) == cells_sum(
            line_values(board, direction, line),
        )
        &&& no_negative(board) ==> 0 <= line_score(board, direction, line) <= cells_sum(
            line_values(board, direction, line),
        )
    } by {
        lemma_moved_lines(board, direction, line);
        lemma_slide_keeps_sum(line_values(board, direction, line));
        if no_negative(board) {
            assert(no_negative(line_values(board, direction, line)));
        }
    }
    assert(cells_sum(line_values(after, direction, 0)) == cells_sum(
        line_values(board, direction, 0),
    ));
    assert(cells_sum(line_values(after, direction, 1)) == cells_sum(
        line_values(board, direction, 1),
    ));
    assert(cells_sum(line_values(after, direction, 2)) == cells_sum(
        line_values(board, direction, 2),
    ));
    assert(cells_sum(line_values(after, direction, 3)) == cells_sum(
        line_values(board, direction, 3),
    ));
}

/// No tile merges twice within one move: every cell of the moved board is
/// empty, a tile of the board, or twice a tile of the board.
pub proof fn law_no_tile_merges_twice(board: Seq<int>, direction: Direction)
    requires
        board.len() == BOARD_COUNT,
    ensures
        forall|idx: int|
            0 <= idx < BOARD_COUNT ==> {
                let v = #[trigger] moved_cells(board, direction)[idx];
                v == 0 || is_multiple_of_tile(v, board, 1) || is_multiple_of_tile(v, board, 2)
            },
{
    lemma_coordinates(direction);
    assert forall|idx: int| 0 <= idx < BOARD_COUNT implies {
        let v = #[trigger] moved_cells(board, direction)[idx];
        v == 0 || is_multiple_of_tile(v, board, 1) || is_multiple_of_tile(v, board, 2)
    } by {
        let line = cell_line(direction, idx);
        let values = line_values(board, direction, line);
        let v = moved_cells(board, direction)[idx];
        lemma_slide_origin(values);
        assert(v == slide_line(values)[cell_offset(direction, idx)]);
        if v != 0 {
            let factor: int = if is_multiple_of_tile(v, values, 1) { 1 } else { 2 };
            let k = choose|k: int|
                0 <= k < values.len() && values[k] != 0 && v == factor * #[trigger] values[k];
            assert(v == factor * board[line_cell(direction, line, k)]);
        }
    }
}

/// A move and then the opposite move merge no tile more than twice: every
/// cell is then empty or one, two or four times a tile of the first board.
pub proof fn law_back_and_forth_at_most_quadruples(board: Seq<int>, direction: Direction)
    requires
        board.len() == BOARD_COUNT,
    ensures
        forall|idx: int|
            0 <= idx < BOARD_COUNT ==> {
                let v = #[trigger] moved_cells(
                    moved_cells(board, direction),
                    opposite(direction),
                )[idx];
                ||| v == 0
                ||| is_multiple_of_tile(v, board, 1)
                ||| is_multiple_of_tile(v, board, 2)
                ||| is_multiple_of_tile(v, board, 4)
            },
{
    let there = moved_cells(board, direction);
    let back = moved_cells(there, opposite(direction));
    law_no_tile_merges_twice(board, direction);
    law_no_tile_merges_twice(there, opposite(direction));
    assert forall|idx: int| 0 <= idx < BOARD_COUNT implies {
        let v = #[trigger] back[idx];
        ||| v == 0
        ||| is_multiple_of_tile(v, board, 1)
        ||| is_multiple_of_tile(v, board, 2)
        ||| is_multiple_of_tile(v, board, 4)
    } by {
        let v = back[idx];
        if v != 0 {
            let outer: int = if is_multiple_of_tile(v, there, 1) { 1 } else { 2 };
            let j = choose|j: int|
                0 <= j < there.len() && there[j] != 0 && v == outer * #[trigger] there[j];
            let w = there[j];
            let inner: int = if is_multiple_of_tile(w, board, 1) { 1 } else { 2 };
            let i = choose|i: int|
                0 <= i < board.len() && board[i] != 0 && w == inner * #[trigger] board[i];
            assert(v == (outer * inner) * board[i]) by (nonlinear_arith)
                requires
                    v == outer * w,
                    w == inner * board[i],
            ;
        }
    }
}

/// A move that changes the board leaves an empty cell.
pub proof fn law_move_leaves_gap(board: Seq<int>, direction: Direction)
    requires
        board.len() == BOARD_COUNT,
        moved_cells(board, direction) != board,
    ensures
        has_empty(moved_cells(board, direction)),
{
    let after = moved_cells(board, direction);
    lemma_coordinates(direction);
    if forall|idx: int| 0 <= idx < BOARD_COUNT ==> after[idx] == board[idx] {
        assert(after =~= board);
    }
    let idx = choose|idx: int| 0 <= idx < BOARD_COUNT && after[idx] != board[idx];
    let line = cell_line(direction, idx);
    let values = line_values(board, direction, line);
    assert(values[cell_offset(direction, idx)] == board[idx]);
    lemma_slide_length(values);
    lemma_moved_line_ends_empty(values);
    assert(after[line_cell(direction, line, SIZE - 1)] == 0);
}

/// A move of a board of tiles leaves a board of tiles.
pub proof fn law_move_keeps_tiles(board: Seq<int>, direction: Direction)
    requires
        valid_board(board),
    ensures
        valid_board(moved_cells(board, direction)),
{
    let after = moved_cells(board, direction);
    law_no_tile_merges_twice(board, direction);
    assert forall|idx: int| 0 <= idx < BOARD_COUNT implies after[idx] == 0 || is_tile(
        #[trigger] after[idx],
    ) by {
        let v = after[idx];
        if v != 0 {
            let factor: int = if is_multiple_of_tile(v, board, 1) { 1 } else { 2 };
            let j = choose|j: int|
                0 <= j < board.len() && board[j] != 0 && v == factor * #[trigger] board[j];
            assert(is_tile(board[j]));
            let e = choose|e: nat| 1 <= e && board[j] == #[trigger] pow2(e);
            if factor == 2 {
                lemma_pow2_unfold(e + 1);
                assert(v == pow2(e + 1));
            }
        }
    }
}

} // verus!
