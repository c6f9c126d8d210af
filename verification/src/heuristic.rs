//! The terms of the position heuristic that are whole numbers: how rough
//! the board is, where its largest tile sits and how large it is.
//!
//! Roughness is measured in base-2 logarithms, which are whole for tiles.

use vstd::prelude::*;
use crate::board::{cells, BOARD_COUNT, SIZE};
use crate::tiles::{exponent_of, is_tile, tile_exponent, valid_board, MAX_EXPONENT};

verus! {

/// More than the two gaps of one cell can add up to.
pub const ROUGHNESS_PER_CELL: i32 = 60;

/// The distance between the logarithms of two neighbouring cells, where both
/// hold a tile.
pub open spec fn pair_gap(a: int, b: int) -> int {
    if a != 0 && b != 0 {
        if exponent_of(a) >= exponent_of(b) {
            exponent_of(a) - exponent_of(b)
        } else {
            exponent_of(b) - exponent_of(a)
        }
    } else {
        0
    }
}

/// The gaps between cell `idx` and its right-hand and lower neighbours.
pub open spec fn cell_roughness(board: Seq<int>, idx: int) -> int {
    (if idx % (SIZE as int) + 1 < SIZE {
        pair_gap(board[idx], board[idx + 1])
    } else {
        0
    }) + (if idx / (SIZE as int) + 1 < SIZE {
        pair_gap(board[idx], board[idx + SIZE])
    } else {
        0
    })
}

/// The gaps of the first `upto` cells, added up.
pub open spec fn roughness(board: Seq<int>, upto: nat) -> int
    decreases upto,
{
    if upto == 0 {
        0
    } else {
        roughness(board, (upto - 1) as nat) + cell_roughness(board, upto - 1)
    }
}

/// Smoothness: for every pair of horizontally or vertically adjacent tiles
/// the distance of their logarithms, taken off zero. Never positive.
pub open spec fn smoothness_of(board: Seq<int>) -> int {
    -roughness(board, BOARD_COUNT as nat)
}

/// The stability penalty: the same distances, added up. Never negative.
pub open spec fn stability_of(board: Seq<int>) -> int {
    roughness(board, BOARD_COUNT as nat)
}

/// The largest cell of `line`; zero for no cells.
pub open spec fn largest(line: Seq<int>) -> int
    decreases line.len(),
{
    if line.len() == 0 {
        0
    } else if line.len() == 1 {
        line[0]
    } else if largest(line.drop_last()) >= line.last() {
        largest(line.drop_last())
    } else {
        line.last()
    }
}

/// The corner term: 0 on a board without a tile, 1 where the largest tile
/// sits in a corner, and -1 where it does not.
pub open spec fn corner_bonus(board: Seq<int>) -> int {
    let top = largest(board);
    if top <= 0 {
        0
    } else if board[0] == top || board[SIZE - 1] == top || board[BOARD_COUNT - SIZE] == top
        || board[BOARD_COUNT - 1] == top {
        1
    } else {
        -1
    }
}

/// The largest cell is a cell, and no cell is larger.
pub proof fn lemma_largest(line: Seq<int>)
    requires
        line.len() > 0,
    ensures
        exists|i: int| 0 <= i < line.len() && line[i] == largest(line),
        forall|i: int| 0 <= i < line.len() ==> line[i] <= largest(line),
    decreases line.len(),
{
    if line.len() > 1 {
        let front = line.drop_last();
        lemma_largest(front);
        let i = choose|i: int| 0 <= i < front.len() && front[i] == largest(front);
        assert(line[i] == front[i]);
        assert(line[line.len() - 1] == line.last());
        assert forall|k: int| 0 <= k < line.len() implies line[k] <= largest(line) by {
            if k < front.len() {
                assert(line[k] == front[k]);
            }
        }
    } else {
        assert(line[0] == largest(line));
    }
}

/// The distance between the logarithms of two cells of a board of tiles.
fn gap(a: i32, b: i32) -> (distance: i32)
    requires
        a == 0 || is_tile(a as int),
        b == 0 || is_tile(b as int),
    ensures
        distance == pair_gap(a as int, b as int),
        0 <= distance < MAX_EXPONENT,
{
    if a == 0 || b == 0 {
        return 0;
    }
    match (tile_exponent(a), tile_exponent(b)) {
        (Some(ea), Some(eb)) => {
            if ea >= eb {
                (ea - eb) as i32
            } else {
                (eb - ea) as i32
            }
        },
        _ => 0,
    }
}

/// The gaps between every pair of adjacent tiles, added up.
fn total_roughness(board: &[i32; BOARD_COUNT]) -> (total: i32)
    requires
        valid_board(cells(*board)),
    ensures
        total == roughness(cells(*board), BOARD_COUNT as nat),
        0 <= total <= ROUGHNESS_PER_CELL * BOARD_COUNT,
{
    let ghost grid = cells(*board);
    let mut total: i32 = 0;
    let mut r: usize = 0;
    while r < SIZE
        invariant
            r <= SIZE,
            grid == cells(*board),
            valid_board(grid),
            total == roughness(grid, (r * SIZE) as nat),
            0 <= total <= ROUGHNESS_PER_CELL * (r * SIZE),
        decreases SIZE - r,
    {
        let mut c: usize = 0;
        while c < SIZE
            invariant
                r < SIZE,
                c <= SIZE,
                grid == cells(*board),
                valid_board(grid),
                total == roughness(grid, (r * SIZE + c) as nat),
                0 <= total <= ROUGHNESS_PER_CELL * (r * SIZE + c),
            decreases SIZE - c,
        {
            let idx = r * SIZE + c;
            let v = board[idx];
            proof {
                assert(grid[idx as int] == v);
                assert(idx % SIZE == c && idx / SIZE == r);
            }
            if c + 1 < SIZE {
                assert(grid[idx + 1] == board@[idx + 1]);
                total += gap(v, board[idx + 1]);
            }
            if r + 1 < SIZE {
                assert(grid[idx + SIZE] == board@[idx + SIZE]);
                total += gap(v, board[idx + SIZE]);
            }
            c += 1;
        }
        r += 1;
    }
    total
}

/// Smoothness of a board of tiles.
pub fn smoothness(board: &[i32; BOARD_COUNT]) -> (penalty: i32)
    requires
        valid_board(cells(*board)),
    ensures
        penalty == smoothness_of(cells(*board)),
        penalty <= 0,
{
    -total_roughness(board)
}

/// Stability penalty of a board of tiles.
pub fn stability_penalty(board: &[i32; BOARD_COUNT]) -> (penalty: i32)
    requires
        valid_board(cells(*board)),
    ensures
        penalty == stability_of(cells(*board)),
        penalty == -smoothness_of(cells(*board)),
        penalty >= 0,
{
    total_roughness(board)
}

/// The largest cell of the board.
pub fn max_tile(board: &[i32; BOARD_COUNT]) -> (top: i32)
    ensures
        top == largest(cells(*board)),
        exists|i: int| 0 <= i < BOARD_COUNT && board@[i] == top,
        forall|i: int| 0 <= i < BOARD_COUNT ==> board@[i] <= top,
{
    let ghost grid = cells(*board);
    let mut top = board[0];
    let mut i: usize = 1;
    proof {
        assert(grid.take(1).len() == 1);
        assert(grid.take(1)[0] == board@[0]);
    }
    while i < BOARD_COUNT
        invariant
            1 <= i <= BOARD_COUNT,
            grid == cells(*board),
            top == largest(grid.take(i as int)),
        decreases BOARD_COUNT - i,
    {
        proof {
            let next = grid.take(i + 1);
            assert(next.drop_last() == grid.take(i as int));
            assert(next.last() == board@[i as int]);
        }
        if board[i] > top {
            top = board[i];
        }
        i += 1;
    }
    proof {
        assert(grid.take(BOARD_COUNT as int) == grid);
        lemma_largest(grid);
        let at = choose|i: int| 0 <= i < grid.len() && grid[i] == largest(grid);
        assert(board@[at] == top);
        assert forall|i: int| 0 <= i < BOARD_COUNT implies board@[i] <= top by {
            assert(grid[i] == board@[i]);
        }
    }
    top
}

/// The corner term of the heuristic.
pub fn corner_max_score(board: &[i32; BOARD_COUNT]) -> (bonus: i32)
    ensures
        bonus == corner_bonus(cells(*board)),
{
    let max_val = max_tile(board);
    if max_val <= 0 {
        return 0;
    }
    proof {
        assert(cells(*board)[0] == board@[0]);
        assert(cells(*board)[SIZE - 1] == board@[SIZE - 1]);
        assert(cells(*board)[BOARD_COUNT - SIZE] == board@[BOARD_COUNT - SIZE]);
        assert(cells(*board)[BOARD_COUNT - 1] == board@[BOARD_COUNT - 1]);
    }
    if board[0] == max_val || board[SIZE - 1] == max_val || board[BOARD_COUNT - SIZE] == max_val
        || board[BOARD_COUNT - 1] == max_val {
        1
    } else {
        -1
    }
}

} // verus!
