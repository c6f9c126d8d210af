//! The grid, its directions and the cell-level queries of the game.

use vstd::prelude::*;

verus! {

/// Cells per side of the grid.
pub const SIZE: usize = 4;

/// Cells on the grid.
pub const BOARD_COUNT: usize = 16;

/// The four gravity directions of a move.
#[derive(Clone, Copy, Debug, PartialEq, Eq, Structural)]
pub enum Direction {
    Up,
    Down,
    Left,
    Right,
}

/// Machine integers read as mathematical ones.
pub open spec fn ints(s: Seq<i32>) -> Seq<int> {
    s.map_values(|v: i32| v as int)
}

/// Two runs of machine integers that read as the same mathematical ones are
/// the same.
pub proof fn lemma_ints_injective(a: Seq<i32>, b: Seq<i32>)
    ensures
        ints(a) == ints(b) <==> a == b,
{
    if ints(a) == ints(b) {
        assert(a.len() == ints(a).len());
        assert(b.len() == ints(b).len());
        assert forall|k: int| 0 <= k < a.len() implies a[k] == b[k] by {
            assert(ints(a)[k] == a[k] as int);
            assert(ints(b)[k] == b[k] as int);
        }
        assert(a =~= b);
    }
}

/// The grid as a sequence of sixteen mathematical integers, row-major.
pub open spec fn cells(board: [i32; BOARD_COUNT]) -> Seq<int> {
    ints(board@)
}

/// Offsets of the zero cells of `line`, ascending.
pub open spec fn empty_offsets(line: Seq<int>) -> Seq<usize>
    decreases line.len(),
{
    if line.len() == 0 {
        Seq::empty()
    } else {
        let rest = empty_offsets(line.drop_last());
        if line.last() == 0 {
            rest.push((line.len() - 1) as usize)
        } else {
            rest
        }
    }
}

/// The empty offsets are just the offsets of the zeros, and they ascend.
pub proof fn lemma_empty_offsets(line: Seq<int>)
    requires
        line.len() <= usize::MAX,
    ensures
        forall|k: int|
            0 <= k < empty_offsets(line).len() ==> (#[trigger] empty_offsets(line)[k]) < line.len()
                && line[empty_offsets(line)[k] as int] == 0,
        forall|j: int, k: int|
            0 <= j < k < empty_offsets(line).len() ==> empty_offsets(line)[j] < empty_offsets(
                line,
            )[k],
        forall|i: int|
            0 <= i < line.len() && line[i] == 0 ==> empty_offsets(line).contains(i as usize),
    decreases line.len(),
{
    if line.len() > 0 {
        let front = line.drop_last();
        let found = empty_offsets(line);
        lemma_empty_offsets(front);
        assert forall|i: int| 0 <= i < line.len() && line[i] == 0 implies found.contains(
            i as usize,
        ) by {
            if i < line.len() - 1 {
                assert(front[i] == 0);
                let k = choose|k: int|
                    0 <= k < empty_offsets(front).len() && empty_offsets(front)[k] == i as usize;
                assert(found[k] == i as usize);
            } else {
                assert(found[found.len() - 1] == i as usize);
            }
        }
    }
}

/// Indices of the empty cells in scan order.
pub fn empty_indices(board: &[i32; BOARD_COUNT]) -> (empties: Vec<usize>)
    ensures
        empties@ == empty_offsets(cells(*board)),
{
    let mut empties: Vec<usize> = Vec::new();
    let mut i: usize = 0;
    while i < BOARD_COUNT
        invariant
            i <= BOARD_COUNT,
            empties@ == empty_offsets(cells(*board).take(i as int)),
        decreases BOARD_COUNT - i,
    {
        proof {
            let next = cells(*board).take(i + 1);
            assert(next.drop_last() == cells(*board).take(i as int));
            assert(next.last() == board@[i as int] as int);
        }
        if board[i] == 0 {
            empties.push(i);
        }
        i += 1;
    }
    proof {
        assert(cells(*board).take(BOARD_COUNT as int) == cells(*board));
    }
    empties
}

/// Some cell of the board is empty.
pub open spec fn has_empty(board: Seq<int>) -> bool {
    exists|i: int| 0 <= i < board.len() && board[i] == 0
}

/// Some cell of the board holds a tile.
pub open spec fn has_tile(board: Seq<int>) -> bool {
    exists|i: int| 0 <= i < board.len() && board[i] != 0
}

/// The tile at row `r`, column `c` equals its right-hand neighbour.
pub open spec fn pair_right(board: Seq<int>, r: int, c: int) -> bool {
    &&& 0 <= r < SIZE
    &&& 0 <= c < SIZE - 1
    &&& board[r * SIZE + c] != 0
    &&& board[r * SIZE + c] == board[r * SIZE + c + 1]
}

/// The tile at row `r`, column `c` equals the neighbour below it.
pub open spec fn pair_below(board: Seq<int>, r: int, c: int) -> bool {
    &&& 0 <= r < SIZE - 1
    &&& 0 <= c < SIZE
    &&& board[r * SIZE + c] != 0
    &&& board[r * SIZE + c] == board[(r + 1) * SIZE + c]
}

/// Two horizontally or vertically adjacent cells hold equal tiles.
pub open spec fn has_equal_neighbours(board: Seq<int>) -> bool {
    exists|r: int, c: int|
        #![trigger pair_right(board, r, c)]
        #![trigger pair_below(board, r, c)]
        pair_right(board, r, c) || pair_below(board, r, c)
}

/// The game can go on: a cell is empty, or two neighbours can merge.
pub open spec fn can_move_cells(board: Seq<int>) -> bool {
    has_empty(board) || has_equal_neighbours(board)
}

/// Whether the game can go on from `board`.
pub fn can_move(board: &[i32; BOARD_COUNT]) -> (movable: bool)
    ensures
        movable == can_move_cells(cells(*board)),
{
    let ghost grid = cells(*board);
    let mut i: usize = 0;
    while i < BOARD_COUNT
        invariant
            i <= BOARD_COUNT,
            grid == cells(*board),
            forall|j: int| 0 <= j < i ==> grid[j] != 0,
        decreases BOARD_COUNT - i,
    {
        if board[i] == 0 {
            assert(grid[i as int] == 0);
            return true;
        }
        i += 1;
    }
    let mut r: usize = 0;
    while r < SIZE
        invariant
            r <= SIZE,
            grid == cells(*board),
            forall|j: int| 0 <= j < BOARD_COUNT ==> grid[j] != 0,
            forall|rr: int, cc: int|
                #![trigger pair_right(grid, rr, cc)]
                #![trigger pair_below(grid, rr, cc)]
                0 <= rr < r ==> !pair_right(grid, rr, cc) && !pair_below(grid, rr, cc),
        decreases SIZE - r,
    {
        let mut c: usize = 0;
        while c < SIZE
            invariant
                r < SIZE,
                c <= SIZE,
                grid == cells(*board),
                forall|j: int| 0 <= j < BOARD_COUNT ==> grid[j] != 0,
                forall|rr: int, cc: int|
                    #![trigger pair_right(grid, rr, cc)]
                    #![trigger pair_below(grid, rr, cc)]
                    0 <= rr < r ==> !pair_right(grid, rr, cc) && !pair_below(grid, rr, cc),
                forall|cc: int|
                    #![trigger pair_right(grid, r as int, cc)]
                    #![trigger pair_below(grid, r as int, cc)]
                    0 <= cc < c ==> !pair_right(grid, r as int, cc) && !pair_below(
                        grid,
                        r as int,
                        cc,
                    ),
            decreases SIZE - c,
        {
            let idx = r * SIZE + c;
            let v = board[idx];
            if c + 1 < SIZE && board[idx + 1] == v {
                assert(pair_right(grid, r as int, c as int));
                return true;
            }
            if r + 1 < SIZE && board[idx + SIZE] == v {
                assert(pair_below(grid, r as int, c as int));
                return true;
            }
            c += 1;
        }
        r += 1;
    }
    assert(!has_equal_neighbours(grid));
    assert(!has_empty(grid));
    false
}

/// The first sixteen entries of `board` as a grid. Missing cells are empty,
/// further entries are dropped.
pub fn to_array(board: &Vec<i32>) -> (arr: [i32; BOARD_COUNT])
    ensures
        forall|i: int|
            0 <= i < BOARD_COUNT ==> arr@[i] == if i < board@.len() {
                board@[i]
            } else {
                0i32
            },
{
    let mut arr: [i32; BOARD_COUNT] = [0;BOARD_COUNT];
    let mut i: usize = 0;
    while i < BOARD_COUNT
        invariant
            i <= BOARD_COUNT,
            forall|j: int|
                0 <= j < i ==> arr@[j] == if j < board@.len() {
                    board@[j]
                } else {
                    0i32
                },
            forall|j: int| i <= j < BOARD_COUNT ==> arr@[j] == 0i32,
        decreases BOARD_COUNT - i,
    {
        if i < board.len() {
            arr[i] = board[i];
        }
        i += 1;
    }
    arr
}

} // verus!
