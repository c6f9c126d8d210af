//! The shape of the expectimax tree: which positions follow a position, when
//! a branch ends, and how a position is keyed in the transposition cache.
//!
//! A move layer has one child per legal direction. A chance layer has two
//! children per empty cell: the board with a 2 there and the board with a 4.

use vstd::prelude::*;
use crate::board::{
    can_move, can_move_cells, cells, empty_indices, empty_offsets, lemma_empty_offsets, Direction,
    BOARD_COUNT,
};
use crate::moves::{move_board, move_score, moved_cells, MoveOutcome};
use crate::slide::no_negative;

verus! {

/// Where the key of a move-layer position starts.
pub const MOVE_LAYER_SEED: u64 = 0x9E3779B185EBCA87;

/// Where the key of a chance-layer position starts.
pub const CHANCE_LAYER_SEED: u64 = 0xC2B2AE3D27D4EB4F;

/// The multiplier of the key.
pub const KEY_PRIME: u64 = 1099511628211;

/// What a cell's value is multiplied by before it enters the key.
pub const CELL_FACTOR: u64 = 31;

/// What is then added to it.
pub const CELL_OFFSET: u64 = 7;

/// What the remaining depth is multiplied by before it enters the key.
pub const DEPTH_FACTOR: u64 = 131;

/// The cache is cleared before an insert once it holds more entries than
/// this.
pub const CACHE_LIMIT: usize = 200_000;

/// A chance layer with at least this many empty cells, and more than one
/// level to go, is worth working on in parallel.
pub const FAN_OUT_EMPTIES: usize = 6;

/// The product of `a` and `b`, cut to 64 bits.
pub open spec fn wrapping_product(a: u64, b: u64) -> u64 {
    ((a as nat * b as nat) % 0x1_0000_0000_0000_0000) as u64
}

/// The key after one more cell.
pub open spec fn mix_cell(key: u64, cell: i32) -> u64 {
    wrapping_product(key, KEY_PRIME) ^ ((cell * CELL_FACTOR + CELL_OFFSET) as u64)
}

/// The key after the first `upto` cells.
pub open spec fn mix_cells(seed: u64, board: Seq<i32>, upto: nat) -> u64
    decreases upto,
{
    if upto == 0 {
        seed
    } else {
        mix_cell(mix_cells(seed, board, (upto - 1) as nat), board[upto - 1])
    }
}

/// The 64-bit key of a position: a seed for its layer, every cell mixed in
/// in scan order, and at last the remaining depth.
pub open spec fn position_key(board: Seq<i32>, depth: i32, is_player: bool) -> u64 {
    mix_cells(
        if is_player {
            MOVE_LAYER_SEED
        } else {
            CHANCE_LAYER_SEED
        },
        board,
        BOARD_COUNT as nat,
    ) ^ wrapping_product(depth as u64, DEPTH_FACTOR)
}

/// The directions in the order in which the search tries them.
pub open spec fn search_order() -> Seq<Direction> {
    seq![Direction::Up, Direction::Down, Direction::Left, Direction::Right]
}

/// Of the first `upto` directions of the search order, those that change
/// the board.
pub open spec fn legal_among(board: Seq<int>, upto: nat) -> Seq<Direction>
    decreases upto,
{
    if upto == 0 {
        Seq::empty()
    } else {
        let before = legal_among(board, (upto - 1) as nat);
        let direction = search_order()[upto - 1];
        if moved_cells(board, direction) != board {
            before.push(direction)
        } else {
            before
        }
    }
}

/// The legal directions in search order.
pub open spec fn legal_directions(board: Seq<int>) -> Seq<Direction> {
    legal_among(board, search_order().len())
}

/// The key of a position in the transposition cache.
pub fn board_hash(board: &[i32; BOARD_COUNT], depth: i32, is_player: bool) -> (key: u64)
    requires
        no_negative(cells(*board)),
    ensures
        key == position_key(board@, depth, is_player),
{
    let mut h: u64 = if is_player {
        MOVE_LAYER_SEED
    } else {
        CHANCE_LAYER_SEED
    };
    let ghost seed = h;
    let mut i: usize = 0;
    while i < BOARD_COUNT
        invariant
            i <= BOARD_COUNT,
            no_negative(cells(*board)),
            h == mix_cells(seed, board@, i as nat),
        decreases BOARD_COUNT - i,
    {
        let v = board[i];
        assert(cells(*board)[i as int] == v);
        h = h.wrapping_mul(KEY_PRIME) ^ ((v as u64).wrapping_mul(CELL_FACTOR) + CELL_OFFSET);
        i += 1;
    }
    h ^ (#[verifier::truncate] (depth as u64)).wrapping_mul(DEPTH_FACTOR)
}

/// The four directions in search order.
fn directions() -> (order: [Direction; 4])
    ensures
        order@ == search_order(),
{
    let order = [Direction::Up, Direction::Down, Direction::Left, Direction::Right];
    assert(order@ =~= search_order());
    order
}

/// Every direction that changes the board, in search order, each with what
/// it makes of the board. A board on which this is empty is lost, or empty.
pub fn legal_moves(board: &[i32; BOARD_COUNT]) -> (candidates: Vec<(Direction, MoveOutcome)>)
    requires
        no_negative(cells(*board)),
        forall|direction: Direction| #[trigger] move_score(cells(*board), direction) <= i32::MAX,
    ensures
        candidates@.len() == legal_directions(cells(*board)).len(),
        forall|k: int|
            0 <= k < candidates@.len() ==> {
                &&& (#[trigger] candidates@[k]).0 == legal_directions(cells(*board))[k]
                &&& candidates@[k].1.is_move_of(cells(*board), candidates@[k].0)
                &&& candidates@[k].1.changed
            },
{
    let ghost start = cells(*board);
    let order = directions();
    let mut candidates: Vec<(Direction, MoveOutcome)> = Vec::new();
    let mut i: usize = 0;
    while i < 4
        invariant
            i <= 4,
            start == cells(*board),
            order@ == search_order(),
            no_negative(start),
            forall|direction: Direction| #[trigger] move_score(start, direction) <= i32::MAX,
            candidates@.len() == legal_among(start, i as nat).len(),
            forall|k: int|
                0 <= k < candidates@.len() ==> {
                    &&& (#[trigger] candidates@[k]).0 == legal_among(start, i as nat)[k]
                    &&& candidates@[k].1.is_move_of(start, candidates@[k].0)
                    &&& candidates@[k].1.changed
                },
        decreases 4 - i,
    {
        let direction = order[i];
        let outcome = move_board(board, direction);
        if outcome.changed {
            candidates.push((direction, outcome));
        }
        i += 1;
    }
    candidates
}

/// The children of a chance-layer position: for every empty cell, in scan
/// order, the cell, the board with a 2 on it and the board with a 4 on it.
pub fn spawn_boards(board: &[i32; BOARD_COUNT]) -> (children: Vec<
    (usize, [i32; BOARD_COUNT], [i32; BOARD_COUNT]),
>)
    ensures
        children@.len() == empty_offsets(cells(*board)).len(),
        forall|k: int|
            0 <= k < children@.len() ==> {
                let child = #[trigger] children@[k];
                &&& child.0 == empty_offsets(cells(*board))[k]
                &&& child.0 < BOARD_COUNT
                &&& board@[child.0 as int] == 0
                &&& child.1@ == board@.update(child.0 as int, 2i32)
                &&& child.2@ == board@.update(child.0 as int, 4i32)
            },
{
    let empties = empty_indices(board);
    proof {
        lemma_empty_offsets(cells(*board));
    }
    let mut children: Vec<(usize, [i32; BOARD_COUNT], [i32; BOARD_COUNT])> = Vec::new();
    let mut k: usize = 0;
    while k < empties.len()
        invariant
            k <= empties@.len(),
            empties@ == empty_offsets(cells(*board)),
            forall|j: int|
                0 <= j < empties@.len() ==> (#[trigger] empties@[j]) < BOARD_COUNT && cells(
                    *board,
                )[empties@[j] as int] == 0,
            children@.len() == k,
            forall|j: int|
                0 <= j < k ==> {
                    let child = #[trigger] children@[j];
                    &&& child.0 == empties@[j]
                    &&& child.1@ == board@.update(child.0 as int, 2i32)
                    &&& child.2@ == board@.update(child.0 as int, 4i32)
                },
        decreases empties@.len() - k,
    {
        let idx = empties[k];
        let mut with_two = *board;
        with_two[idx] = 2;
        let mut with_four = *board;
        with_four[idx] = 4;
        children.push((idx, with_two, with_four));
        k += 1;
    }
    proof {
        assert forall|j: int| 0 <= j < children@.len() implies board@[(#[trigger] children@[j]).0 as int]
            == 0 by {
            assert(cells(*board)[empties@[j] as int] == 0);
        }
    }
    children
}

/// Whether the search stops at this position and takes its static value:
/// no depth is left, or no move is.
pub fn is_leaf(board: &[i32; BOARD_COUNT], depth: i32) -> (leaf: bool)
    ensures
        leaf == (depth == 0 || !can_move_cells(cells(*board))),
{
    depth == 0 || !can_move(board)
}

/// Whether the children of a chance layer are worth working on in parallel.
pub fn fans_out(depth: i32, empty_cells: usize) -> (parallel: bool)
    ensures
        parallel == (depth > 1 && empty_cells >= FAN_OUT_EMPTIES),
{
    depth > 1 && empty_cells >= FAN_OUT_EMPTIES
}

/// Whether a cache of `entries` entries is to be cleared before the next
/// insert.
pub fn cache_is_full(entries: usize) -> (full: bool)
    ensures
        full == (entries > CACHE_LIMIT),
{
    entries > CACHE_LIMIT
}

} // verus!
