//! Tile values: the powers of two from 2 on.

use vstd::arithmetic::power2::{
    lemma2_to64, lemma_pow2_pos, lemma_pow2_strictly_increases, lemma_pow2_unfold, pow2,
};
use vstd::prelude::*;
use crate::board::{cells, BOARD_COUNT};
use crate::line_laws::{cells_sum, lemma_sum_is_prefix_sum, prefix_sum};

verus! {

/// The exponent of the largest tile that a cell can hold.
pub const MAX_EXPONENT: u32 = 30;

/// `value` is a tile: a power of two, at least 2.
pub open spec fn is_tile(value: int) -> bool {
    exists|e: nat| 1 <= e && value == #[trigger] pow2(e)
}

/// The base-2 logarithm of a tile.
pub open spec fn exponent_of(value: int) -> nat {
    choose|e: nat| value == #[trigger] pow2(e)
}

/// The board has sixteen cells, each empty or a tile.
pub open spec fn valid_board(board: Seq<int>) -> bool {
    &&& board.len() == BOARD_COUNT
    &&& forall|i: int| 0 <= i < BOARD_COUNT ==> board[i] == 0 || is_tile(#[trigger] board[i])
}

/// Different exponents give different powers of two, so a tile has one
/// logarithm.
pub proof fn lemma_exponent_unique(e: nat)
    ensures
        exponent_of(pow2(e) as int) == e,
{
    let found = exponent_of(pow2(e) as int);
    if found < e {
        lemma_pow2_strictly_increases(found, e);
    }
    if e < found {
        lemma_pow2_strictly_increases(e, found);
    }
}

/// The logarithm of `value` where it is a tile.
pub fn tile_exponent(value: i32) -> (exponent: Option<u32>)
    ensures
        exponent is Some <==> is_tile(value as int),
        exponent matches Some(e) ==> 1 <= e <= MAX_EXPONENT && value == pow2(e as nat)
            && exponent_of(value as int) == e,
{
    proof {
        lemma2_to64();
    }
    if value < 2 {
        proof {
            assert forall|e: nat| 1 <= e implies value != #[trigger] pow2(e) by {
                if e > 1 {
                    lemma_pow2_strictly_increases(1, e);
                }
            }
        }
        return None;
    }
    let mut e: u32 = 1;
    let mut power: i32 = 2;
    while power < value && e < MAX_EXPONENT
        invariant
            1 <= e <= MAX_EXPONENT,
            power == pow2(e as nat),
            power <= 0x4000_0000,
            2 <= value,
            e > 1 ==> pow2((e - 1) as nat) < value,
        decreases MAX_EXPONENT - e,
    {
        proof {
            lemma2_to64();
            lemma_pow2_unfold((e + 1) as nat);
            lemma_pow2_strictly_increases(e as nat, 30);
        }
        power = power * 2;
        e += 1;
    }
    if power == value {
        proof {
            lemma_exponent_unique(e as nat);
        }
        Some(e)
    } else {
        proof {
            assert forall|k: nat| 1 <= k implies value != #[trigger] pow2(k) by {
                if k < e {
                    if k < e - 1 {
                        lemma_pow2_strictly_increases(k, (e - 1) as nat);
                    }
                } else if power > value {
                    if k > e {
                        lemma_pow2_strictly_increases(e as nat, k);
                    }
                } else {
                    if k > 31 {
                        lemma_pow2_strictly_increases(31, k);
                    }
                    if k < 30 {
                        lemma_pow2_strictly_increases(k, 30);
                    }
                }
            }
        }
        None
    }
}

/// Whether every cell of `board` is empty or a tile.
pub fn is_valid_board(board: &[i32; BOARD_COUNT]) -> (valid: bool)
    ensures
        valid == valid_board(cells(*board)),
{
    let mut i: usize = 0;
    while i < BOARD_COUNT
        invariant
            i <= BOARD_COUNT,
            forall|j: int| 0 <= j < i ==> cells(*board)[j] == 0 || is_tile(#[trigger] cells(*board)[j]),
        decreases BOARD_COUNT - i,
    {
        if board[i] != 0 && tile_exponent(board[i]).is_none() {
            assert(!is_tile(cells(*board)[i as int]));
            return false;
        }
        i += 1;
    }
    true
}

/// The sum of all cells.
pub fn tile_total(board: &[i32; BOARD_COUNT]) -> (total: i64)
    ensures
        total == cells_sum(cells(*board)),
{
    let mut total: i64 = 0;
    let mut i: usize = 0;
    while i < BOARD_COUNT
        invariant
            i <= BOARD_COUNT,
            total == prefix_sum(cells(*board), i as nat),
            -0x8000_0000 * i <= total <= 0x8000_0000 * i,
        decreases BOARD_COUNT - i,
    {
        total += board[i] as i64;
        i += 1;
    }
    proof {
        lemma_sum_is_prefix_sum(cells(*board), BOARD_COUNT as nat);
        assert(cells(*board).take(BOARD_COUNT as int) == cells(*board));
    }
    total
}

} // verus!
