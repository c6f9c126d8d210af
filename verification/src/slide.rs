//! Slide-and-merge of one line of cells.
//!
//! A line is read in traversal order: its first cell is the one the tiles
//! fall towards. The non-zero cells are the line's tiles. Two neighbouring
//! equal tiles combine into one of double value, and a tile made that way
//! does not combine again in the same pass.

use vstd::prelude::*;
use crate::board::{ints, SIZE};

verus! {

/// One tile's displacement in a move.
#[derive(Clone, Copy, Debug, PartialEq, Eq, Structural)]
pub struct Movement {
    /// Cell the tile left.
    pub from: usize,
    /// Cell the tile arrived at.
    pub to: usize,
    /// Value of the tile before any merge.
    pub value: i32,
    /// Whether the tile combined with another at `to`.
    pub is_merge: bool,
}

/// The tiles of `line`: its non-zero cells, in order.
pub open spec fn tile_values(line: Seq<int>) -> Seq<int>
    decreases line.len(),
{
    if line.len() == 0 {
        Seq::empty()
    } else {
        let rest = tile_values(line.drop_last());
        if line.last() != 0 {
            rest.push(line.last())
        } else {
            rest
        }
    }
}

/// For each tile of `line`, the cell it sits on, where `indices[k]` is the
/// cell behind offset `k` of the line.
pub open spec fn tile_sources(line: Seq<int>, indices: Seq<usize>) -> Seq<usize>
    decreases line.len(),
{
    if line.len() == 0 {
        Seq::empty()
    } else {
        let rest = tile_sources(line.drop_last(), indices);
        if line.last() != 0 {
            rest.push(indices[line.len() - 1])
        } else {
            rest
        }
    }
}

/// Whether the first two of `tiles` combine.
pub open spec fn leading_pair(tiles: Seq<int>) -> bool {
    tiles.len() >= 2 && tiles[0] == tiles[1]
}

/// The tiles after one merge pass.
pub open spec fn merge_values(tiles: Seq<int>) -> Seq<int>
    decreases tiles.len(),
{
    if tiles.len() == 0 {
        Seq::empty()
    } else if leading_pair(tiles) {
        seq![2 * tiles[0]] + merge_values(tiles.skip(2))
    } else {
        seq![tiles[0]] + merge_values(tiles.skip(1))
    }
}

/// The score of one merge pass: the sum of the values it creates.
pub open spec fn merge_score(tiles: Seq<int>) -> int
    decreases tiles.len(),
{
    if tiles.len() == 0 {
        0
    } else if leading_pair(tiles) {
        2 * tiles[0] + merge_score(tiles.skip(2))
    } else {
        merge_score(tiles.skip(1))
    }
}

/// The offsets, counted from `dest`, at which a merge pass over `tiles`
/// puts a combined tile. Ascending.
pub open spec fn merge_positions(tiles: Seq<int>, dest: nat) -> Seq<usize>
    decreases tiles.len(),
{
    if tiles.len() == 0 {
        Seq::empty()
    } else if leading_pair(tiles) {
        seq![dest as usize] + merge_positions(tiles.skip(2), dest + 1)
    } else {
        merge_positions(tiles.skip(1), dest + 1)
    }
}

/// The displacement records of one merge pass, the first arrival at offset
/// `dest`. `sources[k]` is the cell of tile `k`, `indices[k]` the cell behind
/// offset `k`. The two halves of a merge come in traversal order.
pub open spec fn line_moves(
    sources: Seq<usize>,
    tiles: Seq<int>,
    indices: Seq<usize>,
    dest: nat,
) -> Seq<Movement>
    decreases tiles.len(),
{
    if tiles.len() == 0 {
        Seq::empty()
    } else if leading_pair(tiles) {
        seq![
            Movement { from: sources[0], to: indices[dest as int], value: tiles[0] as i32, is_merge: true },
            Movement { from: sources[1], to: indices[dest as int], value: tiles[1] as i32, is_merge: true },
        ] + line_moves(sources.skip(2), tiles.skip(2), indices, dest + 1)
    } else {
        seq![
            Movement { from: sources[0], to: indices[dest as int], value: tiles[0] as i32, is_merge: false },
        ] + line_moves(sources.skip(1), tiles.skip(1), indices, dest + 1)
    }
}

/// `tiles` followed by as many zeros as it lacks to `len` cells.
pub open spec fn pad_to(tiles: Seq<int>, len: nat) -> Seq<int> {
    if tiles.len() >= len {
        tiles
    } else {
        tiles + Seq::new((len - tiles.len()) as nat, |k: int| 0int)
    }
}

/// A line after the move: merged tiles at the leading edge, zeros behind.
pub open spec fn slide_line(line: Seq<int>) -> Seq<int> {
    pad_to(merge_values(tile_values(line)), line.len())
}

/// No cell is negative.
pub open spec fn no_negative(line: Seq<int>) -> bool {
    forall|k: int| 0 <= k < line.len() ==> line[k] >= 0
}

/// A line has no more tiles than cells, and none of them is zero.
pub proof fn lemma_tiles_bounded(line: Seq<int>)
    ensures
        tile_values(line).len() <= line.len(),
        no_negative(line) ==> no_negative(tile_values(line)),
        forall|k: int| 0 <= k < tile_values(line).len() ==> #[trigger] tile_values(line)[k] != 0,
    decreases line.len(),
{
    if line.len() > 0 {
        lemma_tiles_bounded(line.drop_last());
    }
}

/// Every tile has a source cell.
pub proof fn lemma_sources_match(line: Seq<int>, indices: Seq<usize>)
    ensures
        tile_sources(line, indices).len() == tile_values(line).len(),
    decreases line.len(),
{
    if line.len() > 0 {
        lemma_sources_match(line.drop_last(), indices);
    }
}

/// A merge pass does not add tiles, and gains nothing negative from
/// non-negative tiles.
pub proof fn lemma_merge_bounded(tiles: Seq<int>)
    ensures
        merge_values(tiles).len() <= tiles.len(),
        no_negative(tiles) ==> merge_score(tiles) >= 0,
    decreases tiles.len(),
{
    if tiles.len() == 0 {
    } else if leading_pair(tiles) {
        lemma_merge_bounded(tiles.skip(2));
    } else {
        lemma_merge_bounded(tiles.skip(1));
    }
}

/// A merge pass reports its merges at offsets where it leaves a tile.
pub proof fn lemma_positions_bounded(tiles: Seq<int>, dest: nat)
    requires
        dest + tiles.len() <= usize::MAX,
    ensures
        forall|j: int|
            0 <= j < merge_positions(tiles, dest).len() ==> dest <= #[trigger] merge_positions(
                tiles,
                dest,
            )[j] < dest + merge_values(tiles).len(),
    decreases tiles.len(),
{
    if tiles.len() == 0 {
    } else if leading_pair(tiles) {
        let rest = merge_positions(tiles.skip(2), dest + 1);
        lemma_positions_bounded(tiles.skip(2), dest + 1);
        assert forall|j: int| 0 <= j < merge_positions(tiles, dest).len() implies dest
            <= #[trigger] merge_positions(tiles, dest)[j] < dest + merge_values(tiles).len() by {
            if j > 0 {
                assert(merge_positions(tiles, dest)[j] == rest[j - 1]);
            }
        }
    } else {
        lemma_positions_bounded(tiles.skip(1), dest + 1);
        assert(merge_positions(tiles, dest) == merge_positions(tiles.skip(1), dest + 1));
        assert(merge_values(tiles).len() == 1 + merge_values(tiles.skip(1)).len());
    }
}

/// Slides the tiles of a line towards its first cell and merges equal
/// neighbours once. `values` is the line in traversal order and `indices[k]`
/// the board cell behind offset `k`.
///
/// Returns the new line (padded with zeros to `SIZE` cells), the score
/// gained, the offsets where a merge happened and one displacement record
/// per tile.
pub fn slide_and_merge(values: &[i32], indices: &[usize]) -> (out: (
    Vec<i32>,
    i32,
    Vec<usize>,
    Vec<Movement>,
))
    requires
        values@.len() <= indices@.len(),
        no_negative(ints(values@)),
        merge_score(tile_values(ints(values@))) <= i32::MAX,
    ensures
        ints(out.0@) == pad_to(merge_values(tile_values(ints(values@))), SIZE as nat),
        out.1 == merge_score(tile_values(ints(values@))),
        out.2@ == merge_positions(tile_values(ints(values@)), 0),
        out.3@ == line_moves(
            tile_sources(ints(values@), indices@),
            tile_values(ints(values@)),
            indices@,
            0,
        ),
{
    let ghost line = ints(values@);
    let mut sources: Vec<usize> = Vec::new();
    let mut tiles: Vec<i32> = Vec::new();
    let mut offset: usize = 0;
    while offset < values.len()
        invariant
            offset <= values@.len(),
            values@.len() <= indices@.len(),
            line == ints(values@),
            ints(tiles@) == tile_values(line.take(offset as int)),
            sources@ == tile_sources(line.take(offset as int), indices@),
        decreases values@.len() - offset,
    {
        proof {
            let next = line.take(offset + 1);
            assert(next.drop_last() == line.take(offset as int));
            assert(next.last() == values@[offset as int] as int);
        }
        let v = values[offset];
        if v != 0 {
            proof {
                assert(ints(tiles@.push(v)) == ints(tiles@).push(v as int));
            }
            sources.push(indices[offset]);
            tiles.push(v);
        }
        offset += 1;
    }
    proof {
        assert(line.take(values@.len() as int) == line);
        lemma_tiles_bounded(line);
        lemma_sources_match(line, indices@);
        lemma_merge_bounded(ints(tiles@));
        assert(ints(tiles@).skip(0) == ints(tiles@));
        assert(sources@.skip(0) == sources@);
    }

    let ghost all = ints(tiles@);
    let ghost srcs = sources@;
    let mut result: Vec<i32> = Vec::new();
    let mut score: i32 = 0;
    let mut merged_positions: Vec<usize> = Vec::new();
    let mut line_moves: Vec<Movement> = Vec::new();
    let mut i: usize = 0;
    while i < tiles.len()
        invariant
            i <= tiles@.len(),
            all == ints(tiles@),
            srcs == sources@,
            sources@.len() == tiles@.len(),
            tiles@.len() <= indices@.len(),
            no_negative(all),
            result@.len() <= i,
            0 <= score,
            merge_score(all) <= i32::MAX,
            merge_values(all) == ints(result@) + merge_values(all.skip(i as int)),
            merge_score(all) == score + merge_score(all.skip(i as int)),
            merge_positions(all, 0) == merged_positions@ + merge_positions(
                all.skip(i as int),
                result@.len() as nat,
            ),
            self::line_moves(srcs, all, indices@, 0) == line_moves@ + self::line_moves(
                srcs.skip(i as int),
                all.skip(i as int),
                indices@,
                result@.len() as nat,
            ),
        decreases tiles@.len() - i,
    {
        let ghost rest = all.skip(i as int);
        let ghost rest_srcs = srcs.skip(i as int);
        let ghost before = ints(result@);
        let ghost positions_before = merged_positions@;
        let ghost moves_before = line_moves@;
        let ghost dest = result@.len();
        proof {
            assert(rest[0] == tiles@[i as int] as int);
            assert(rest_srcs[0] == sources@[i as int]);
        }
        if i + 1 < tiles.len() && tiles[i] == tiles[i + 1] {
            proof {
                assert(rest[1] == tiles@[i + 1] as int);
                assert(rest_srcs[1] == sources@[i + 1]);
                assert(leading_pair(rest));
                assert(rest.skip(2) == all.skip(i + 2));
                assert(rest_srcs.skip(2) == srcs.skip(i + 2));
                lemma_merge_bounded(rest.skip(2));
            }
            let merged_value = tiles[i] * 2;
            result.push(merged_value);
            score += merged_value;
            let dest_pos = result.len() - 1;
            merged_positions.push(dest_pos);
            let dest_index = indices[dest_pos];
            line_moves.push(
                Movement { from: sources[i], to: dest_index, value: tiles[i], is_merge: true },
            );
            line_moves.push(
                Movement {
                    from: sources[i + 1],
                    to: dest_index,
                    value: tiles[i + 1],
                    is_merge: true,
                },
            );
            proof {
                let tail = merge_values(rest.skip(2));
                assert(ints(result@) == before.push(2 * rest[0]));
                assert(before + (seq![2 * rest[0]] + tail) == before.push(2 * rest[0]) + tail);
                let tail_positions = merge_positions(rest.skip(2), dest + 1);
                assert(positions_before + (seq![dest as usize] + tail_positions)
                    == positions_before.push(dest as usize) + tail_positions);
                let tail_moves = self::line_moves(
                    rest_srcs.skip(2),
                    rest.skip(2),
                    indices@,
                    dest + 1,
                );
                let first = Movement {
                    from: rest_srcs[0],
                    to: indices@[dest as int],
                    value: rest[0] as i32,
                    is_merge: true,
                };
                let second = Movement {
                    from: rest_srcs[1],
                    to: indices@[dest as int],
                    value: rest[1] as i32,
                    is_merge: true,
                };
                assert(moves_before + (seq![first, second] + tail_moves) == moves_before.push(
                    first,
                ).push(second) + tail_moves);
            }
            i += 2;
        } else {
            proof {
                assert(!leading_pair(rest));
                assert(rest.skip(1) == all.skip(i + 1));
                assert(rest_srcs.skip(1) == srcs.skip(i + 1));
            }
            result.push(tiles[i]);
            let dest_pos = result.len() - 1;
            let dest_index = indices[dest_pos];
            line_moves.push(
                Movement { from: sources[i], to: dest_index, value: tiles[i], is_merge: false },
            );
            proof {
                let tail = merge_values(rest.skip(1));
                assert(ints(result@) == before.push(rest[0]));
                assert(before + (seq![rest[0]] + tail) == before.push(rest[0]) + tail);
                let tail_moves = self::line_moves(
                    rest_srcs.skip(1),
                    rest.skip(1),
                    indices@,
                    dest + 1,
                );
                let only = Movement {
                    from: rest_srcs[0],
                    to: indices@[dest as int],
                    value: rest[0] as i32,
                    is_merge: false,
                };
                assert(moves_before + (seq![only] + tail_moves) == moves_before.push(only)
                    + tail_moves);
            }
            i += 1;
        }
    }
    let ghost merged = ints(result@);
    proof {
        assert(all.skip(tiles@.len() as int) == Seq::<int>::empty());
        assert(srcs.skip(tiles@.len() as int) == Seq::<usize>::empty());
        assert(merged == merge_values(all));
        assert(merged_positions@ == merge_positions(all, 0));
        assert(line_moves@ == self::line_moves(srcs, all, indices@, 0));
    }
    proof {
        assert(merged + Seq::new(0, |k: int| 0int) == merged);
    }
    while result.len() < SIZE
        invariant
            merged.len() <= result@.len(),
            merged.len() < SIZE ==> result@.len() <= SIZE,
            merged.len() >= SIZE ==> result@.len() == merged.len(),
            ints(result@) == merged + Seq::new(
                (result@.len() - merged.len()) as nat,
                |k: int| 0int,
            ),
        decreases SIZE - result@.len(),
    {
        let ghost padded = ints(result@);
        let ghost zeros = Seq::new((result@.len() - merged.len()) as nat, |k: int| 0int);
        result.push(0);
        proof {
            assert(ints(result@) == padded.push(0));
            assert((merged + zeros).push(0) == merged + Seq::new(
                (result@.len() - merged.len()) as nat,
                |k: int| 0int,
            ));
        }
    }
    proof {
        if merged.len() >= SIZE {
            assert(ints(result@) == merged);
        }
    }
    (result, score, merged_positions, line_moves)
}

} // verus!
