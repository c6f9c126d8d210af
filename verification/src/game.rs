//! The game itself: one board, its score and the best score ever seen.
//! Confirmed moves change it, and every such move is followed by one new
//! tile on a random empty cell.

use rand::seq::SliceRandom;
use rand::Rng;
use std::collections::HashSet;
use vstd::arithmetic::power2::{lemma2_to64, lemma_pow2_pos, pow2};
use vstd::prelude::*;
use crate::board::{
    can_move, can_move_cells, cells, empty_indices, empty_offsets, has_empty, ints,
    lemma_empty_offsets, Direction, BOARD_COUNT,
};
use crate::laws::{law_move_keeps_tile_sum, law_move_keeps_tiles, law_move_leaves_gap};
use crate::moves::{board_moves, merged_cells, move_board, move_score, moved_cells};
use crate::slide::{no_negative, Movement};
use crate::tiles::{is_tile, valid_board};

verus! {

/// Of `SPAWN_CHANCES` new tiles, `TWO_CHANCES` are a 2 and the others a 4.
pub const TWO_CHANCES: u32 = 9;

/// See `TWO_CHANCES`.
pub const SPAWN_CHANCES: u32 = 10;

/// One entry of `entries`, chosen at random by `rand::seq::SliceRandom::choose`
/// with the thread's generator `rand::thread_rng()`.
///
/// Trusted: `choose` returns `None` for an empty slice and otherwise a
/// reference to one of the slice's elements. Which one is not stated.
#[verifier::external_body]
fn choose_entry(entries: &Vec<usize>) -> (picked: Option<usize>)
    ensures
        picked is None <==> entries@.len() == 0,
        picked is Some ==> entries@.contains(picked->0),
{
    entries.choose(&mut rand::thread_rng()).copied()
}

/// A coin that `rand::Rng::gen_ratio` throws with the thread's generator
/// `rand::thread_rng()`: true with probability `numerator / denominator`.
///
/// Trusted: `gen_ratio` returns for a denominator that is not zero and a
/// numerator that is not above it. Nothing is stated of the result.
#[verifier::external_body]
fn random_ratio(numerator: u32, denominator: u32) -> (hit: bool)
    requires
        0 < denominator,
        numerator <= denominator,
{
    rand::thread_rng().gen_ratio(numerator, denominator)
}

/// `after` is `before` with a 2 or a 4 on the empty cell `spawned`; or, where
/// nothing spawned, `before` had no empty cell and `after` is `before`.
pub open spec fn spawned_on(before: Seq<int>, after: Seq<int>, spawned: Option<usize>) -> bool {
    match spawned {
        Some(idx) => {
            &&& idx < before.len()
            &&& before[idx as int] == 0
            &&& (after == before.update(idx as int, 2) || after == before.update(idx as int, 4))
        },
        None => !has_empty(before) && after == before,
    }
}

/// Exactly two cells hold a tile, each a 2 or a 4.
pub open spec fn fresh_board(board: Seq<int>) -> bool {
    exists|i: int, j: int|
        #![trigger board[i], board[j]]
        {
            &&& 0 <= i < board.len()
            &&& 0 <= j < board.len()
            &&& i != j
            &&& (board[i] == 2 || board[i] == 4)
            &&& (board[j] == 2 || board[j] == 4)
            &&& forall|k: int| 0 <= k < board.len() && k != i && k != j ==> board[k] == 0
        }
}

/// Puts the new tile where the draw fell: a 2 if `two`, else a 4, on cell
/// `picked`. Without a cell nothing changes.
pub fn place_tile(board: &mut [i32; BOARD_COUNT], picked: Option<usize>, two: bool) -> (spawned:
    Option<usize>)
    requires
        picked matches Some(idx) ==> idx < BOARD_COUNT,
    ensures
        spawned == picked,
        picked is None ==> final(board)@ == old(board)@,
        picked matches Some(idx) ==> final(board)@ == old(board)@.update(
            idx as int,
            if two {
                2i32
            } else {
                4i32
            },
        ),
{
    match picked {
        Some(idx) => {
            let value: i32 = if two {
                2
            } else {
                4
            };
            board[idx] = value;
            Some(idx)
        },
        None => None,
    }
}

/// Puts a 2 (nine times of ten) or a 4 on an empty cell chosen at random, and
/// tells which. Without an empty cell the board stays as it is.
pub fn add_random_tile(board: &mut [i32; BOARD_COUNT]) -> (spawned: Option<usize>)
    ensures
        spawned_on(cells(*old(board)), cells(*final(board)), spawned),
{
    let ghost before = cells(*board);
    let empties = empty_indices(board);
    proof {
        lemma_empty_offsets(before);
    }
    if empties.len() == 0 {
        return None;
    }
    let picked = choose_entry(&empties);
    let two = random_ratio(TWO_CHANCES, SPAWN_CHANCES);
    let spawned = place_tile(board, picked, two);
    proof {
        let idx = picked->0;
        let k = choose|k: int| 0 <= k < empties@.len() && empties@[k] == idx;
        assert(empty_offsets(before)[k] == idx);
        if two {
            assert(cells(*board) =~= before.update(idx as int, 2));
        } else {
            assert(cells(*board) =~= before.update(idx as int, 4));
        }
    }
    spawned
}

/// The game state.
#[derive(Clone, Copy, Debug)]
pub struct Engine {
    /// The board.
    pub board: [i32; BOARD_COUNT],
    /// The score of the running game.
    pub score: i32,
    /// The highest score of any game so far. A reset keeps it.
    pub best_score: i32,
}

/// What the state looks like from outside.
#[derive(Clone, Copy, Debug)]
pub struct Snapshot {
    pub board: [i32; BOARD_COUNT],
    pub score: i32,
    pub best_score: i32,
    pub is_game_over: bool,
}

/// The full record of one confirmed move.
#[derive(Debug)]
pub struct Transition {
    /// The board before the move.
    pub previous_board: [i32; BOARD_COUNT],
    /// The board after the move and the spawn.
    pub final_board: [i32; BOARD_COUNT],
    /// One record per tile of the board before.
    pub movements: Vec<Movement>,
    /// The cells on which a merge happened.
    pub merged_indices: HashSet<usize>,
    /// The cell on which the new tile appeared.
    pub spawned_index: Option<usize>,
    /// The score after the move.
    pub score: i32,
    /// The best score after the move.
    pub best_score: i32,
    /// Whether no move is left.
    pub is_game_over: bool,
}

impl Transition {
    /// `self` records the step from `before` to `after` by `direction`.
    pub open spec fn records(&self, before: Engine, after: Engine, direction: Direction) -> bool {
        let start = cells(before.board);
        &&& self.previous_board == before.board
        &&& self.final_board == after.board
        &&& self.movements@ == board_moves(start, direction)
        &&& self.merged_indices@ == merged_cells(start, direction)
        &&& self.spawned_index is Some
        &&& spawned_on(moved_cells(start, direction), cells(after.board), self.spawned_index)
        &&& self.score == after.score
        &&& self.best_score == after.best_score
        &&& self.is_game_over == !can_move_cells(cells(after.board))
    }
}

/// A board of tiles has no negative cell.
pub proof fn lemma_valid_no_negative(board: Seq<int>)
    requires
        valid_board(board),
    ensures
        no_negative(board),
{
    assert forall|k: int| 0 <= k < board.len() implies board[k] >= 0 by {
        if board[k] != 0 {
            assert(is_tile(board[k]));
        }
    }
}

/// A 2 or a 4 on a cell of a board of tiles leaves a board of tiles.
pub proof fn lemma_spawn_keeps_tiles(before: Seq<int>, after: Seq<int>, spawned: Option<usize>)
    requires
        valid_board(before),
        spawned_on(before, after, spawned),
    ensures
        valid_board(after),
{
    lemma2_to64();
    assert(is_tile(2)) by {
        assert(2 == pow2(1));
    }
    assert(is_tile(4)) by {
        assert(4 == pow2(2));
    }
    assert forall|i: int| 0 <= i < BOARD_COUNT implies after[i] == 0 || is_tile(
        #[trigger] after[i],
    ) by {
        if after[i] != 0 && after[i] != 2 && after[i] != 4 {
            assert(after[i] == before[i]);
        }
    }
}

impl Engine {
    /// The board holds tiles only, and the score is between zero and the
    /// best score.
    pub open spec fn wf(&self) -> bool {
        &&& valid_board(cells(self.board))
        &&& 0 <= self.score <= self.best_score
    }

    /// A new game: two random tiles, no score.
    pub fn new() -> (engine: Engine)
        ensures
            engine.wf(),
            engine.score == 0,
            engine.best_score == 0,
            fresh_board(cells(engine.board)),
    {
        let mut engine = Engine { board: [0;BOARD_COUNT], score: 0, best_score: 0 };
        proof {
            assert forall|i: int| 0 <= i < BOARD_COUNT implies cells(engine.board)[i] == 0 by {
                assert(engine.board@[i] == 0);
            }
        }
        engine.reset();
        engine
    }

    /// Starts over: clears the board and the score and puts two random tiles.
    /// The best score stays.
    pub fn reset(&mut self)
        ensures
            0 <= old(self).best_score ==> final(self).wf(),
            final(self).score == 0,
            final(self).best_score == old(self).best_score,
            fresh_board(cells(final(self).board)),
    {
        self.board = [0;BOARD_COUNT];
        self.score = 0;
        let ghost blank = cells(self.board);
        proof {
            assert forall|i: int| 0 <= i < BOARD_COUNT implies blank[i] == 0 by {
                assert(self.board@[i] == 0);
            }
            assert(blank[0] == 0);
        }
        let first = add_random_tile(&mut self.board);
        let ghost one = cells(self.board);
        proof {
            let i = first->0 as int;
            let other = if i == 0 {
                1int
            } else {
                0int
            };
            assert(one[other] == 0);
            lemma_spawn_keeps_tiles(blank, one, first);
        }
        let second = add_random_tile(&mut self.board);
        proof {
            let two = cells(self.board);
            let i = first->0 as int;
            let j = second->0 as int;
            lemma_spawn_keeps_tiles(one, two, second);
            assert(two[i] == 2 || two[i] == 4);
            assert(two[j] == 2 || two[j] == 4);
            assert(fresh_board(two));
        }
    }

    /// Whether no move is left.
    pub fn is_game_over(&self) -> (over: bool)
        ensures
            over == !can_move_cells(cells(self.board)),
    {
        !can_move(&self.board)
    }

    /// The state as callers see it.
    pub fn snapshot(&self) -> (snapshot: Snapshot)
        ensures
            snapshot.board == self.board,
            snapshot.score == self.score,
            snapshot.best_score == self.best_score,
            snapshot.is_game_over == !can_move_cells(cells(self.board)),
    {
        Snapshot {
            board: self.board,
            score: self.score,
            best_score: self.best_score,
            is_game_over: self.is_game_over(),
        }
    }

    /// Plays `direction`. A direction that changes nothing is not a move:
    /// the state stays and nothing is returned. Otherwise the tiles move, the
    /// score grows by what the merges made, a new tile appears on a random
    /// empty cell and the best score follows the score.
    ///
    /// The new score must fit the score's type.
    pub fn apply_move(&mut self, direction: Direction) -> (result: Option<Transition>)
        requires
            old(self).wf(),
            old(self).score + move_score(cells(old(self).board), direction) <= i32::MAX,
        ensures
            final(self).wf(),
            result is None <==> moved_cells(cells(old(self).board), direction) == cells(
                old(self).board,
            ),
            result is None ==> *final(self) == *old(self),
            result matches Some(transition) ==> {
                &&& transition.records(*old(self), *final(self), direction)
                &&& final(self).score == old(self).score + move_score(
                    cells(old(self).board),
                    direction,
                )
                &&& final(self).best_score == if final(self).score > old(self).best_score {
                    final(self).score
                } else {
                    old(self).best_score
                }
            },
    {
        let ghost start = cells(self.board);
        proof {
            lemma_valid_no_negative(start);
            law_move_keeps_tile_sum(start, direction);
        }
        let outcome = move_board(&self.board, direction);
        if !outcome.changed {
            return None;
        }
        let previous = self.board;
        let mut new_board = outcome.board;
        self.score = self.score + outcome.score;
        let spawned_index = add_random_tile(&mut new_board);
        self.board = new_board;
        if self.score > self.best_score {
            self.best_score = self.score;
        }
        proof {
            law_move_leaves_gap(start, direction);
            law_move_keeps_tiles(start, direction);
            lemma_spawn_keeps_tiles(moved_cells(start, direction), cells(new_board), spawned_index);
        }
        let is_game_over = self.is_game_over();
        Some(
            Transition {
                previous_board: previous,
                final_board: self.board,
                movements: outcome.movements,
                merged_indices: outcome.merged_indices,
                spawned_index,
                score: self.score,
                best_score: self.best_score,
                is_game_over,
            },
        )
    }
}

} // verus!
