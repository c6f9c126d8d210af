//! One move of the whole board: every line slides and merges towards the
//! edge that the direction names.

use std::collections::HashSet;
use vstd::prelude::*;
use crate::board::{cells, ints, lemma_ints_injective, Direction, BOARD_COUNT, SIZE};
use crate::laws::{law_score_is_sum_of_merged_tiles, merged_total};
use crate::slide::{
    lemma_merge_bounded, lemma_positions_bounded, lemma_tiles_bounded, line_moves,
    merge_positions, merge_score, merge_values, no_negative, slide_and_merge, slide_line,
    tile_sources, tile_values, Movement,
};

verus! {

broadcast use vstd::std_specs::hash::group_hash_axioms;

/// The board cell behind offset `k` of line `line`. Left and Up read a
/// line from its low end, Right and Down from its high end.
pub open spec fn line_cell(direction: Direction, line: int, k: int) -> int {
    match direction {
        Direction::Left => line * SIZE + k,
        Direction::Right => line * SIZE + (SIZE - 1 - k),
        Direction::Up => k * SIZE + line,
        Direction::Down => (SIZE - 1 - k) * SIZE + line,
    }
}

/// The line that holds cell `idx`.
pub open spec fn cell_line(direction: Direction, idx: int) -> int {
    match direction {
        Direction::Left | Direction::Right => idx / (SIZE as int),
        Direction::Up | Direction::Down => idx % (SIZE as int),
    }
}

/// The offset of cell `idx` in its line.
pub open spec fn cell_offset(direction: Direction, idx: int) -> int {
    match direction {
        Direction::Left => idx % (SIZE as int),
        Direction::Right => SIZE - 1 - idx % (SIZE as int),
        Direction::Up => idx / (SIZE as int),
        Direction::Down => SIZE - 1 - idx / (SIZE as int),
    }
}

/// The cells of a line in traversal order.
pub open spec fn line_cells(direction: Direction, line: int) -> Seq<usize> {
    Seq::new(SIZE as nat, |k: int| line_cell(direction, line, k) as usize)
}

/// The values of a line in traversal order.
pub open spec fn line_values(board: Seq<int>, direction: Direction, line: int) -> Seq<int> {
    Seq::new(SIZE as nat, |k: int| board[line_cell(direction, line, k)])
}

/// The board after the move.
pub open spec fn moved_cells(board: Seq<int>, direction: Direction) -> Seq<int> {
    Seq::new(
        BOARD_COUNT as nat,
        |idx: int|
            slide_line(line_values(board, direction, cell_line(direction, idx)))[cell_offset(
                direction,
                idx,
            )],
    )
}

/// The score that line `line` gains.
pub open spec fn line_score(board: Seq<int>, direction: Direction, line: int) -> int {
    merge_score(tile_values(line_values(board, direction, line)))
}

/// The score that the first `lines` lines gain together.
pub open spec fn score_of_lines(board: Seq<int>, direction: Direction, lines: nat) -> int
    decreases lines,
{
    if lines == 0 {
        0
    } else {
        score_of_lines(board, direction, (lines - 1) as nat) + line_score(
            board,
            direction,
            lines - 1,
        )
    }
}

/// The score of the move: the sum of every value that a merge creates.
pub open spec fn move_score(board: Seq<int>, direction: Direction) -> int {
    score_of_lines(board, direction, SIZE as nat)
}

/// Whether the move leaves a combined tile on cell `idx`.
pub open spec fn is_merge_cell(board: Seq<int>, direction: Direction, idx: int) -> bool {
    merge_positions(
        tile_values(line_values(board, direction, cell_line(direction, idx))),
        0,
    ).contains(cell_offset(direction, idx) as usize)
}

/// The cells on which the move leaves a combined tile.
pub open spec fn merged_cells(board: Seq<int>, direction: Direction) -> Set<usize> {
    Set::new(|idx: usize| idx < BOARD_COUNT && is_merge_cell(board, direction, idx as int))
}

/// The displacement records of line `line`.
pub open spec fn moves_of_line(board: Seq<int>, direction: Direction, line: int) -> Seq<
    Movement,
> {
    line_moves(
        tile_sources(line_values(board, direction, line), line_cells(direction, line)),
        tile_values(line_values(board, direction, line)),
        line_cells(direction, line),
        0,
    )
}

/// The displacement records of the first `lines` lines, line after line.
pub open spec fn moves_of_lines(board: Seq<int>, direction: Direction, lines: nat) -> Seq<
    Movement,
>
    decreases lines,
{
    if lines == 0 {
        Seq::empty()
    } else {
        moves_of_lines(board, direction, (lines - 1) as nat) + moves_of_line(
            board,
            direction,
            lines - 1,
        )
    }
}

/// The displacement records of the move: one per tile, line after line, each
/// line in traversal order.
pub open spec fn board_moves(board: Seq<int>, direction: Direction) -> Seq<Movement> {
    moves_of_lines(board, direction, SIZE as nat)
}

/// What one direction makes of one board.
#[derive(Debug)]
pub struct MoveOutcome {
    /// The board after the move.
    pub board: [i32; BOARD_COUNT],
    /// The score gained.
    pub score: i32,
    /// The cells on which a merge happened.
    pub merged_indices: HashSet<usize>,
    /// One record per tile.
    pub movements: Vec<Movement>,
    /// Whether any cell differs from before. A move that changes nothing
    /// is not legal.
    pub changed: bool,
}

impl MoveOutcome {
    /// `self` is exactly what `direction` makes of `board`.
    pub open spec fn is_move_of(&self, board: Seq<int>, direction: Direction) -> bool {
        &&& cells(self.board) == moved_cells(board, direction)
        &&& self.score == move_score(board, direction)
        &&& self.merged_indices@ == merged_cells(board, direction)
        &&& self.movements@ == board_moves(board, direction)
        &&& self.changed == (moved_cells(board, direction) != board)
    }
}

/// Lines and offsets number the cells of the board, in both directions.
pub proof fn lemma_coordinates(direction: Direction)
    ensures
        forall|line: int, k: int|
            0 <= line < SIZE && 0 <= k < SIZE ==> {
                let idx = #[trigger] line_cell(direction, line, k);
                &&& 0 <= idx < BOARD_COUNT
                &&& cell_line(direction, idx) == line
                &&& cell_offset(direction, idx) == k
            },
        forall|idx: int|
            0 <= idx < BOARD_COUNT ==> {
                &&& 0 <= #[trigger] cell_line(direction, idx) < SIZE
                &&& 0 <= cell_offset(direction, idx) < SIZE
                &&& line_cell(direction, cell_line(direction, idx), cell_offset(direction, idx))
                    == idx
            },
{
}

/// No line loses score where no cell is negative.
pub proof fn lemma_line_score_nonneg(board: Seq<int>, direction: Direction, line: int)
    requires
        board.len() == BOARD_COUNT,
        no_negative(board),
        0 <= line < SIZE,
    ensures
        0 <= line_score(board, direction, line),
{
    lemma_coordinates(direction);
    let values = line_values(board, direction, line);
    assert(no_negative(values));
    lemma_tiles_bounded(values);
    lemma_merge_bounded(tile_values(values));
}

/// The scores of the lines add up without ever going down.
pub proof fn lemma_line_scores(board: Seq<int>, direction: Direction, lines: nat)
    requires
        board.len() == BOARD_COUNT,
        no_negative(board),
        lines <= SIZE,
    ensures
        0 <= score_of_lines(board, direction, lines) <= move_score(board, direction),
        lines < SIZE ==> 0 <= line_score(board, direction, lines as int),
        lines < SIZE ==> score_of_lines(board, direction, lines) + line_score(
            board,
            direction,
            lines as int,
        ) <= move_score(board, direction),
{
    lemma_line_score_nonneg(board, direction, 0);
    lemma_line_score_nonneg(board, direction, 1);
    lemma_line_score_nonneg(board, direction, 2);
    lemma_line_score_nonneg(board, direction, 3);
    reveal_with_fuel(score_of_lines, 5);
}

/// The cells of one line, in the order in which `direction` reads them.
pub fn line_indices(direction: Direction, line: usize) -> (indices: Vec<usize>)
    requires
        line < SIZE,
    ensures
        indices@ == line_cells(direction, line as int),
{
    let mut indices: Vec<usize> = Vec::new();
    let mut i: usize = 0;
    while i < SIZE
        invariant
            i <= SIZE,
            line < SIZE,
            indices@.len() == i,
            forall|k: int| 0 <= k < i ==> indices@[k] == line_cell(direction, line as int, k),
        decreases SIZE - i,
    {
        let idx = match direction {
            Direction::Left => line * SIZE + i,
            Direction::Right => line * SIZE + (SIZE - 1 - i),
            Direction::Up => i * SIZE + line,
            Direction::Down => (SIZE - 1 - i) * SIZE + line,
        };
        indices.push(idx);
        i += 1;
    }
    assert(indices@ =~= line_cells(direction, line as int));
    indices
}

/// The values on the cells that `indices` names.
fn read_cells(board: &[i32; BOARD_COUNT], indices: &Vec<usize>) -> (values: Vec<i32>)
    requires
        forall|k: int| 0 <= k < indices@.len() ==> indices@[k] < BOARD_COUNT,
    ensures
        values@.len() == indices@.len(),
        forall|k: int| 0 <= k < indices@.len() ==> values@[k] == board@[indices@[k] as int],
{
    let mut values: Vec<i32> = Vec::new();
    let mut k: usize = 0;
    while k < indices.len()
        invariant
            k <= indices@.len(),
            values@.len() == k,
            forall|j: int| 0 <= j < indices@.len() ==> indices@[j] < BOARD_COUNT,
            forall|j: int| 0 <= j < k ==> values@[j] == board@[indices@[j] as int],
        decreases indices@.len() - k,
    {
        values.push(board[indices[k]]);
        k += 1;
    }
    values
}

/// Writes `new_line` over line `line` and tells whether a cell of it changed.
fn write_line(
    board: &mut [i32; BOARD_COUNT],
    direction: Direction,
    line: usize,
    indices: &Vec<usize>,
    new_line: &Vec<i32>,
) -> (differs: bool)
    requires
        line < SIZE,
        indices@ == line_cells(direction, line as int),
        new_line@.len() == SIZE,
    ensures
        forall|idx: int|
            0 <= idx < BOARD_COUNT ==> #[trigger] final(board)@[idx] == if cell_line(
                direction,
                idx,
            ) == line {
                new_line@[cell_offset(direction, idx)]
            } else {
                old(board)@[idx]
            },
        differs == exists|k: int|
            0 <= k < SIZE && old(board)@[#[trigger] line_cell(direction, line as int, k)]
                != new_line@[k],
{
    proof {
        lemma_coordinates(direction);
    }
    let mut differs = false;
    let mut offset: usize = 0;
    while offset < SIZE
        invariant
            offset <= SIZE,
            line < SIZE,
            indices@ == line_cells(direction, line as int),
            new_line@.len() == SIZE,
            forall|idx: int|
                0 <= idx < BOARD_COUNT ==> #[trigger] board@[idx] == if cell_line(
                    direction,
                    idx,
                ) == line && cell_offset(direction, idx) < offset {
                    new_line@[cell_offset(direction, idx)]
                } else {
                    old(board)@[idx]
                },
            differs == exists|k: int|
                0 <= k < offset && old(board)@[#[trigger] line_cell(direction, line as int, k)]
                    != new_line@[k],
        decreases SIZE - offset,
    {
        proof {
            lemma_coordinates(direction);
        }
        let idx = indices[offset];
        assert(idx == line_cell(direction, line as int, offset as int));
        if board[idx] != new_line[offset] {
            differs = true;
        }
        board[idx] = new_line[offset];
        offset += 1;
    }
    differs
}

/// Adds to `merged` the cells behind the offsets in `positions`.
fn mark_merged(merged: &mut HashSet<usize>, indices: &Vec<usize>, positions: &Vec<usize>)
    requires
        forall|j: int| 0 <= j < positions@.len() ==> positions@[j] < indices@.len(),
    ensures
        forall|idx: usize|
            final(merged)@.contains(idx) <==> (old(merged)@.contains(idx) || exists|j: int|
                0 <= j < positions@.len() && indices@[#[trigger] positions@[j] as int] == idx),
{
    let mut j: usize = 0;
    while j < positions.len()
        invariant
            j <= positions@.len(),
            forall|i: int| 0 <= i < positions@.len() ==> positions@[i] < indices@.len(),
            forall|idx: usize|
                merged@.contains(idx) <==> (old(merged)@.contains(idx) || exists|i: int|
                    0 <= i < j && indices@[#[trigger] positions@[i] as int] == idx),
        decreases positions@.len() - j,
    {
        let pos = positions[j];
        merged.insert(indices[pos]);
        j += 1;
    }
}

/// Moves every tile of the board as far as it goes towards `direction`,
/// merging equal neighbours once.
///
/// The cells must not be negative, and the score of the move must fit the
/// score's type.
pub fn move_board(board: &[i32; BOARD_COUNT], direction: Direction) -> (out: MoveOutcome)
    requires
        no_negative(cells(*board)),
        move_score(cells(*board), direction) <= i32::MAX,
    ensures
        out.is_move_of(cells(*board), direction),
        out.changed == (out.board@ != board@),
        out.score == merged_total(cells(out.board), out.merged_indices@, BOARD_COUNT as nat),
{
    let ghost before = cells(*board);
    let ghost after = moved_cells(before, direction);
    let mut new_board = *board;
    let mut total_score: i32 = 0;
    let mut merged: HashSet<usize> = HashSet::new();
    let mut changed = false;
    let mut movements: Vec<Movement> = Vec::new();
    let mut line: usize = 0;
    while line < SIZE
        invariant
            line <= SIZE,
            before == cells(*board),
            after == moved_cells(before, direction),
            no_negative(before),
            move_score(before, direction) <= i32::MAX,
            forall|idx: int|
                0 <= idx < BOARD_COUNT ==> #[trigger] new_board@[idx] as int == if cell_line(
                    direction,
                    idx,
                ) < line {
                    after[idx]
                } else {
                    before[idx]
                },
            total_score == score_of_lines(before, direction, line as nat),
            forall|idx: usize|
                merged@.contains(idx) <==> idx < BOARD_COUNT && cell_line(direction, idx as int)
                    < line && is_merge_cell(before, direction, idx as int),
            movements@ == moves_of_lines(before, direction, line as nat),
            changed == exists|idx: int|
                0 <= idx < BOARD_COUNT && cell_line(direction, idx) < line && #[trigger] after[idx]
                    != before[idx],
        decreases SIZE - line,
    {
        let ghost old_line = line_values(before, direction, line as int);
        let ghost tiles = tile_values(old_line);
        let ghost board_before = new_board@;
        let ghost merged_before = merged@;
        proof {
            lemma_coordinates(direction);
            lemma_line_scores(before, direction, line as nat);
            lemma_tiles_bounded(old_line);
            lemma_merge_bounded(tiles);
            lemma_positions_bounded(tiles, 0);
        }
        let indices = line_indices(direction, line);
        let values = read_cells(board, &indices);
        proof {
            assert(ints(values@) =~= old_line);
        }
        let (new_line, score, merged_positions, mut line_moves) = slide_and_merge(
            values.as_slice(),
            indices.as_slice(),
        );
        proof {
            assert(ints(new_line@) == slide_line(old_line));
            assert(new_line@.len() == ints(new_line@).len());
            assert forall|idx: int| 0 <= idx < BOARD_COUNT && cell_line(direction, idx) == line
                implies new_line@[cell_offset(direction, idx)] as int == after[idx] by {
                assert(ints(new_line@)[cell_offset(direction, idx)] == new_line@[cell_offset(
                    direction,
                    idx,
                )] as int);
            }
        }
        total_score += score;
        let differs = write_line(&mut new_board, direction, line, &indices, &new_line);
        if differs {
            changed = true;
        }
        mark_merged(&mut merged, &indices, &merged_positions);
        movements.append(&mut line_moves);
        proof {
            if differs {
                let k = choose|k: int|
                    0 <= k < SIZE && board_before[#[trigger] line_cell(direction, line as int, k)]
                        != new_line@[k];
                let idx = line_cell(direction, line as int, k);
                assert(after[idx] != before[idx]);
            }
            if exists|idx: int|
                0 <= idx < BOARD_COUNT && cell_line(direction, idx) == line && #[trigger] after[idx]
                    != before[idx] {
                let idx = choose|idx: int|
                    0 <= idx < BOARD_COUNT && cell_line(direction, idx) == line
                        && #[trigger] after[idx] != before[idx];
                let k = cell_offset(direction, idx);
                assert(line_cell(direction, line as int, k) == idx);
                assert(board_before[line_cell(direction, line as int, k)] != new_line@[k]);
                assert(differs);
            }
            assert forall|idx: usize|
                merged@.contains(idx) <==> idx < BOARD_COUNT && cell_line(direction, idx as int)
                    < line + 1 && is_merge_cell(before, direction, idx as int) by {
                let positions = merge_positions(tiles, 0);
                if idx < BOARD_COUNT && cell_line(direction, idx as int) == line && is_merge_cell(
                    before,
                    direction,
                    idx as int,
                ) {
                    let k = cell_offset(direction, idx as int);
                    let j = choose|j: int| 0 <= j < positions.len() && positions[j] == k as usize;
                    assert(indices@[merged_positions@[j] as int] == idx);
                }
                if exists|j: int|
                    0 <= j < merged_positions@.len() && indices@[#[trigger] merged_positions@[j] as int]
                        == idx {
                    let j = choose|j: int|
                        0 <= j < merged_positions@.len()
                            && indices@[#[trigger] merged_positions@[j] as int] == idx;
                    let k = merged_positions@[j];
                    assert(idx == line_cell(direction, line as int, k as int));
                    assert(positions.contains(k));
                }
            }
        }
        line += 1;
    }
    proof {
        lemma_coordinates(direction);
        assert(cells(new_board) =~= after);
        assert(merged@ =~= merged_cells(before, direction));
        if !changed {
            assert(after =~= before);
        }
        lemma_ints_injective(new_board@, board@);
        law_score_is_sum_of_merged_tiles(before, direction);
    }
    MoveOutcome { board: new_board, score: total_score, merged_indices: merged, movements, changed }
}

} // verus!
