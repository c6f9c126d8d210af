//! What holds of every line: when a line is at rest, what a merge pass can
//! make, and what it keeps.

use vstd::prelude::*;
use crate::slide::{
    leading_pair, lemma_merge_bounded, lemma_positions_bounded, lemma_tiles_bounded,
    merge_positions, merge_score, merge_values, no_negative, pad_to, slide_line, tile_values,
};

verus! {

/// `len` zeros.
pub open spec fn zeros(len: nat) -> Seq<int> {
    Seq::new(len, |k: int| 0int)
}

/// No cell is zero.
pub open spec fn all_tiles(line: Seq<int>) -> bool {
    forall|k: int| 0 <= k < line.len() ==> line[k] != 0
}

/// No two neighbours are equal.
pub open spec fn no_equal_pair(tiles: Seq<int>) -> bool {
    forall|k: int| 0 <= k < tiles.len() - 1 ==> #[trigger] tiles[k] != tiles[k + 1]
}

/// The line is at rest: its tiles lead, its zeros trail, and no two
/// neighbouring tiles are equal.
pub open spec fn at_rest(line: Seq<int>) -> bool {
    forall|k: int|
        0 <= k < line.len() - 1 ==> {
            &&& #[trigger] line[k] == 0 ==> line[k + 1] == 0
            &&& line[k] != 0 ==> line[k] != line[k + 1]
        }
}

/// A line without zeros is its own tiles.
pub proof fn lemma_tiles_of_full(line: Seq<int>)
    requires
        all_tiles(line),
    ensures
        tile_values(line) == line,
    decreases line.len(),
{
    if line.len() > 0 {
        lemma_tiles_of_full(line.drop_last());
        assert(line.drop_last().push(line.last()) == line);
    }
}

/// Zeros behind a run of tiles do not count as tiles.
pub proof fn lemma_tiles_of_padded(tiles: Seq<int>, pad: nat)
    requires
        all_tiles(tiles),
    ensures
        tile_values(tiles + zeros(pad)) == tiles,
    decreases pad,
{
    if pad == 0 {
        assert(tiles + zeros(0) == tiles);
        lemma_tiles_of_full(tiles);
    } else {
        let line = tiles + zeros(pad);
        assert(line.drop_last() == tiles + zeros((pad - 1) as nat));
        lemma_tiles_of_padded(tiles, (pad - 1) as nat);
    }
}

/// A merge pass over tiles leaves tiles.
pub proof fn lemma_merge_keeps_tiles(tiles: Seq<int>)
    requires
        all_tiles(tiles),
    ensures
        all_tiles(merge_values(tiles)),
    decreases tiles.len(),
{
    if tiles.len() == 0 {
    } else if leading_pair(tiles) {
        lemma_merge_keeps_tiles(tiles.skip(2));
    } else {
        lemma_merge_keeps_tiles(tiles.skip(1));
    }
}

/// Where no two neighbours are equal, a merge pass changes nothing.
pub proof fn lemma_merge_fixed(tiles: Seq<int>)
    requires
        no_equal_pair(tiles),
    ensures
        merge_values(tiles) == tiles,
    decreases tiles.len(),
{
    if tiles.len() > 0 {
        let rest = tiles.skip(1);
        assert forall|k: int| 0 <= k < rest.len() - 1 implies #[trigger] rest[k] != rest[k + 1] by {
            assert(tiles[k + 1] != tiles[k + 2]);
        }
        if tiles.len() >= 2 {
            assert(tiles[0] != tiles[1]);
        }
        lemma_merge_fixed(rest);
        assert(seq![tiles[0]] + rest == tiles);
    }
}

/// Where two neighbours are equal, a merge pass leaves fewer tiles.
pub proof fn lemma_merge_shrinks(tiles: Seq<int>)
    requires
        !no_equal_pair(tiles),
    ensures
        merge_values(tiles).len() < tiles.len(),
    decreases tiles.len(),
{
    let k = choose|k: int| 0 <= k < tiles.len() - 1 && #[trigger] tiles[k] == tiles[k + 1];
    if leading_pair(tiles) {
        lemma_merge_bounded(tiles.skip(2));
    } else {
        let rest = tiles.skip(1);
        assert(k >= 1);
        assert(rest[k - 1] == rest[k - 1 + 1]);
        lemma_merge_shrinks(rest);
    }
}

/// In a line at rest nothing but zeros follows a zero.
pub proof fn lemma_zeros_trail(line: Seq<int>, k: int, j: int)
    requires
        at_rest(line),
        0 <= k <= j < line.len(),
        line[k] == 0,
    ensures
        line[j] == 0,
    decreases j - k,
{
    if k < j {
        lemma_zeros_trail(line, k, j - 1);
        assert(line[j - 1] == 0 ==> line[j - 1 + 1] == 0);
    }
}

/// A line at rest does not move.
pub proof fn lemma_rest_is_fixed(line: Seq<int>)
    requires
        at_rest(line),
    ensures
        slide_line(line) == line,
    decreases line.len(),
{
    if line.len() == 0 {
        assert(slide_line(line) =~= line);
    } else if line.last() != 0 {
        assert forall|k: int| 0 <= k < line.len() implies line[k] != 0 by {
            if line[k] == 0 {
                lemma_zeros_trail(line, k, line.len() - 1);
            }
        }
        lemma_tiles_of_full(line);
        assert forall|k: int| 0 <= k < line.len() - 1 implies #[trigger] line[k] != line[k + 1] by {
        }
        lemma_merge_fixed(line);
    } else {
        let front = line.drop_last();
        assert forall|k: int| 0 <= k < front.len() - 1 implies {
            &&& #[trigger] front[k] == 0 ==> front[k + 1] == 0
            &&& front[k] != 0 ==> front[k] != front[k + 1]
        } by {
            assert(line[k] == front[k]);
        }
        lemma_rest_is_fixed(front);
        let merged = merge_values(tile_values(front));
        lemma_tiles_bounded(front);
        lemma_merge_bounded(tile_values(front));
        assert(pad_to(merged, line.len()) =~= pad_to(merged, front.len()).push(0));
        assert(front.push(0) == line);
    }
}

/// A line that does not move is at rest.
pub proof fn lemma_fixed_is_rest(line: Seq<int>)
    requires
        slide_line(line) == line,
    ensures
        at_rest(line),
{
    let tiles = tile_values(line);
    let merged = merge_values(tiles);
    lemma_tiles_bounded(line);
    lemma_merge_bounded(tiles);
    lemma_merge_keeps_tiles(tiles);
    let pad = (line.len() - merged.len()) as nat;
    assert(pad_to(merged, line.len()) =~= merged + zeros(pad));
    lemma_tiles_of_padded(merged, pad);
    assert(tiles == merged);
    if !no_equal_pair(tiles) {
        lemma_merge_shrinks(tiles);
    }
    assert forall|k: int| 0 <= k < line.len() - 1 implies {
        &&& #[trigger] line[k] == 0 ==> line[k + 1] == 0
        &&& line[k] != 0 ==> line[k] != line[k + 1]
    } by {
        let padded = tiles + zeros(pad);
        assert(line[k] == padded[k]);
        assert(line[k + 1] == padded[k + 1]);
        if k + 1 < tiles.len() {
            assert(tiles[k] != tiles[k + 1]);
        }
    }
}

/// The sum of the cells of `line` whose offset, counted from `base`, is in
/// `marked`.
pub open spec fn marked_sum(line: Seq<int>, marked: Seq<usize>, base: nat) -> int
    decreases line.len(),
{
    if line.len() == 0 {
        0
    } else {
        (if marked.contains(base as usize) {
            line[0]
        } else {
            0
        }) + marked_sum(line.skip(1), marked, base + 1)
    }
}

/// The sum of the cells of `line`.
pub open spec fn cells_sum(line: Seq<int>) -> int
    decreases line.len(),
{
    if line.len() == 0 {
        0
    } else {
        cells_sum(line.drop_last()) + line.last()
    }
}

/// `value` is `factor` times a tile of `line`.
pub open spec fn is_multiple_of_tile(value: int, line: Seq<int>, factor: int) -> bool {
    exists|j: int| 0 <= j < line.len() && line[j] != 0 && value == factor * #[trigger] line[j]
}

/// A marked sum looks only at the marks from `base` on.
pub proof fn lemma_marked_sum_agrees(line: Seq<int>, first: Seq<usize>, second: Seq<usize>, base: nat)
    requires
        base + line.len() <= usize::MAX,
        forall|p: usize| base <= p < base + line.len() ==> first.contains(p) == second.contains(p),
    ensures
        marked_sum(line, first, base) == marked_sum(line, second, base),
    decreases line.len(),
{
    if line.len() > 0 {
        lemma_marked_sum_agrees(line.skip(1), first, second, base + 1);
    }
}

/// Zeros add nothing to a marked sum.
pub proof fn lemma_marked_sum_padded(line: Seq<int>, pad: nat, marked: Seq<usize>, base: nat)
    ensures
        marked_sum(line + zeros(pad), marked, base) == marked_sum(line, marked, base),
    decreases line.len() + pad,
{
    let padded = line + zeros(pad);
    if line.len() > 0 {
        assert(padded.skip(1) == line.skip(1) + zeros(pad));
        lemma_marked_sum_padded(line.skip(1), pad, marked, base + 1);
    } else if pad > 0 {
        assert(padded.skip(1) == line + zeros((pad - 1) as nat));
        lemma_marked_sum_padded(line, (pad - 1) as nat, marked, base + 1);
    }
}

/// The score of a merge pass is the sum of the tiles it leaves at the
/// offsets where it merged.
pub proof fn lemma_score_is_marked_sum(tiles: Seq<int>, dest: nat)
    requires
        dest + tiles.len() <= usize::MAX,
    ensures
        merge_score(tiles) == marked_sum(merge_values(tiles), merge_positions(tiles, dest), dest),
    decreases tiles.len(),
{
    let merged = merge_values(tiles);
    let marked = merge_positions(tiles, dest);
    if tiles.len() == 0 {
    } else if leading_pair(tiles) {
        let rest = tiles.skip(2);
        let rest_marked = merge_positions(rest, dest + 1);
        lemma_score_is_marked_sum(rest, dest + 1);
        lemma_positions_bounded(rest, dest + 1);
        lemma_merge_bounded(rest);
        assert(merged.skip(1) == merge_values(rest));
        assert(marked[0] == dest as usize);
        assert forall|p: usize| dest + 1 <= p < dest + 1 + merge_values(rest).len() implies marked.contains(
            p,
        ) == rest_marked.contains(p) by {
            if marked.contains(p) {
                let j = choose|j: int| 0 <= j < marked.len() && marked[j] == p;
                assert(rest_marked[j - 1] == p);
            }
            if rest_marked.contains(p) {
                let j = choose|j: int| 0 <= j < rest_marked.len() && rest_marked[j] == p;
                assert(marked[j + 1] == p);
            }
        }
        lemma_marked_sum_agrees(merge_values(rest), marked, rest_marked, dest + 1);
    } else {
        let rest = tiles.skip(1);
        lemma_score_is_marked_sum(rest, dest + 1);
        lemma_positions_bounded(rest, dest + 1);
        assert(merged.skip(1) == merge_values(rest));
        if marked.contains(dest as usize) {
            let j = choose|j: int| 0 <= j < marked.len() && marked[j] == dest as usize;
            assert(dest + 1 <= marked[j]);
        }
    }
}

/// The score of a line is the sum of the cells of the slid line at the
/// offsets where a merge happened.
pub proof fn lemma_line_score_is_marked_sum(line: Seq<int>)
    requires
        line.len() <= usize::MAX,
    ensures
        merge_score(tile_values(line)) == marked_sum(
            slide_line(line),
            merge_positions(tile_values(line), 0),
            0,
        ),
{
    let tiles = tile_values(line);
    let merged = merge_values(tiles);
    lemma_tiles_bounded(line);
    lemma_merge_bounded(tiles);
    lemma_score_is_marked_sum(tiles, 0);
    let pad = (line.len() - merged.len()) as nat;
    assert(slide_line(line) =~= merged + zeros(pad));
    lemma_marked_sum_padded(merged, pad, merge_positions(tiles, 0), 0);
}

/// The tiles of a line add up to what its cells add up to.
pub proof fn lemma_tiles_keep_sum(line: Seq<int>)
    ensures
        cells_sum(tile_values(line)) == cells_sum(line),
    decreases line.len(),
{
    if line.len() > 0 {
        lemma_tiles_keep_sum(line.drop_last());
        if line.last() != 0 {
            assert(tile_values(line).drop_last() == tile_values(line.drop_last()));
        }
    }
}

/// The sum of a line is its first cell and the sum of the others.
pub proof fn lemma_sum_from_front(line: Seq<int>)
    requires
        line.len() > 0,
    ensures
        cells_sum(line) == line[0] + cells_sum(line.skip(1)),
    decreases line.len(),
{
    if line.len() == 1 {
        assert(line.drop_last() == line.skip(1));
    } else {
        lemma_sum_from_front(line.drop_last());
        assert(line.drop_last().skip(1) == line.skip(1).drop_last());
    }
}

/// A merge pass keeps the sum of the tiles, and scores no more than that sum
/// where no tile is negative.
pub proof fn lemma_merge_keeps_sum(tiles: Seq<int>)
    ensures
        cells_sum(merge_values(tiles)) == cells_sum(tiles),
        no_negative(tiles) ==> merge_score(tiles) <= cells_sum(tiles),
    decreases tiles.len(),
{
    if tiles.len() == 0 {
    } else if leading_pair(tiles) {
        lemma_merge_keeps_sum(tiles.skip(2));
        lemma_sum_from_front(tiles);
        lemma_sum_from_front(tiles.skip(1));
        assert(tiles.skip(1).skip(1) == tiles.skip(2));
        lemma_sum_from_front(merge_values(tiles));
        assert(merge_values(tiles).skip(1) == merge_values(tiles.skip(2)));
    } else {
        lemma_merge_keeps_sum(tiles.skip(1));
        lemma_sum_from_front(tiles);
        lemma_sum_from_front(merge_values(tiles));
        assert(merge_values(tiles).skip(1) == merge_values(tiles.skip(1)));
    }
}

/// Zeros add nothing to a sum.
pub proof fn lemma_sum_padded(line: Seq<int>, pad: nat)
    ensures
        cells_sum(line + zeros(pad)) == cells_sum(line),
    decreases pad,
{
    if pad == 0 {
        assert(line + zeros(0) == line);
    } else {
        assert((line + zeros(pad)).drop_last() == line + zeros((pad - 1) as nat));
        lemma_sum_padded(line, (pad - 1) as nat);
    }
}

/// A slid line adds up to what the line added up to, and where no cell is
/// negative the line scores no more than that.
pub proof fn lemma_slide_keeps_sum(line: Seq<int>)
    ensures
        cells_sum(slide_line(line)) == cells_sum(line),
        no_negative(line) ==> 0 <= merge_score(tile_values(line)) <= cells_sum(line),
{
    let tiles = tile_values(line);
    let merged = merge_values(tiles);
    lemma_tiles_bounded(line);
    lemma_merge_bounded(tiles);
    lemma_tiles_keep_sum(line);
    lemma_merge_keeps_sum(tiles);
    let pad = (line.len() - merged.len()) as nat;
    assert(slide_line(line) =~= merged + zeros(pad));
    lemma_sum_padded(merged, pad);
}

/// Every tile that a merge pass leaves is a tile it found, or twice one: no
/// tile merges twice in one pass.
pub proof fn lemma_merge_origin(tiles: Seq<int>)
    requires
        all_tiles(tiles),
    ensures
        forall|k: int|
            0 <= k < merge_values(tiles).len() ==> is_multiple_of_tile(
                #[trigger] merge_values(tiles)[k],
                tiles,
                1,
            ) || is_multiple_of_tile(merge_values(tiles)[k], tiles, 2),
    decreases tiles.len(),
{
    let merged = merge_values(tiles);
    if tiles.len() == 0 {
    } else {
        let used: int = if leading_pair(tiles) { 2 } else { 1 };
        let rest = tiles.skip(used);
        lemma_merge_origin(rest);
        assert forall|k: int| 0 <= k < merged.len() implies is_multiple_of_tile(
            #[trigger] merged[k],
            tiles,
            1,
        ) || is_multiple_of_tile(merged[k], tiles, 2) by {
            if k == 0 {
                assert(tiles[0] != 0);
                assert(merged[0] == used * tiles[0]);
            } else {
                let v = merge_values(rest)[k - 1];
                assert(merged[k] == v);
                if is_multiple_of_tile(v, rest, 1) {
                    let j = choose|j: int| 0 <= j < rest.len() && rest[j] != 0 && v == 1 * #[trigger] rest[j];
                    assert(tiles[j + used] == rest[j]);
                } else {
                    let j = choose|j: int| 0 <= j < rest.len() && rest[j] != 0 && v == 2 * #[trigger] rest[j];
                    assert(tiles[j + used] == rest[j]);
                }
            }
        }
    }
}

/// Every tile of a line is one of its cells.
pub proof fn lemma_tiles_are_cells(line: Seq<int>)
    ensures
        forall|k: int|
            0 <= k < tile_values(line).len() ==> is_multiple_of_tile(
                #[trigger] tile_values(line)[k],
                line,
                1,
            ),
    decreases line.len(),
{
    if line.len() > 0 {
        let front = line.drop_last();
        lemma_tiles_are_cells(front);
        assert forall|k: int| 0 <= k < tile_values(line).len() implies is_multiple_of_tile(
            #[trigger] tile_values(line)[k],
            line,
            1,
        ) by {
            let v = tile_values(line)[k];
            if k < tile_values(front).len() {
                let j = choose|j: int| 0 <= j < front.len() && front[j] != 0 && v == 1 * #[trigger] front[j];
                assert(line[j] == front[j]);
            } else {
                assert(v == 1 * line[line.len() - 1]);
            }
        }
    }
}

/// Every cell of a slid line is empty, a tile of the line, or twice a tile
/// of the line.
pub proof fn lemma_slide_origin(line: Seq<int>)
    ensures
        forall|k: int|
            0 <= k < line.len() ==> {
                let v = #[trigger] slide_line(line)[k];
                v == 0 || is_multiple_of_tile(v, line, 1) || is_multiple_of_tile(v, line, 2)
            },
{
    let tiles = tile_values(line);
    let merged = merge_values(tiles);
    lemma_tiles_bounded(line);
    lemma_merge_bounded(tiles);
    lemma_tiles_are_cells(line);
    lemma_merge_origin(tiles);
    assert forall|k: int| 0 <= k < line.len() implies {
        let v = #[trigger] slide_line(line)[k];
        v == 0 || is_multiple_of_tile(v, line, 1) || is_multiple_of_tile(v, line, 2)
    } by {
        let v = slide_line(line)[k];
        if k < merged.len() {
            assert(v == merged[k]);
            let factor: int = if is_multiple_of_tile(v, tiles, 1) { 1 } else { 2 };
            let j = choose|j: int| 0 <= j < tiles.len() && tiles[j] != 0 && v == factor * #[trigger] tiles[j];
            let i = choose|i: int| 0 <= i < line.len() && line[i] != 0 && tiles[j] == 1 * #[trigger] line[i];
            assert(v == factor * line[i]);
        }
    }
}

/// The sum of the first `upto` cells of `line`.
pub open spec fn prefix_sum(line: Seq<int>, upto: nat) -> int
    decreases upto,
{
    if upto == 0 {
        0
    } else {
        prefix_sum(line, (upto - 1) as nat) + line[upto - 1]
    }
}

/// The sum of a line, cell by cell.
pub proof fn lemma_sum_is_prefix_sum(line: Seq<int>, upto: nat)
    requires
        upto <= line.len(),
    ensures
        cells_sum(line.take(upto as int)) == prefix_sum(line, upto),
    decreases upto,
{
    if upto > 0 {
        lemma_sum_is_prefix_sum(line, (upto - 1) as nat);
        assert(line.take(upto as int).drop_last() == line.take(upto - 1));
    }
}

/// The sum of a line of four cells.
pub proof fn lemma_sum_of_four(line: Seq<int>)
    requires
        line.len() == 4,
    ensures
        cells_sum(line) == line[0] + line[1] + line[2] + line[3],
{
    lemma_sum_is_prefix_sum(line, 4);
    assert(line.take(4) == line);
    reveal_with_fuel(prefix_sum, 5);
}

/// The marked sum of a line of four cells.
pub proof fn lemma_marked_sum_of_four(line: Seq<int>, marked: Seq<usize>)
    requires
        line.len() == 4,
    ensures
        marked_sum(line, marked, 0) == (if marked.contains(0) {
            line[0]
        } else {
            0
        }) + (if marked.contains(1) {
            line[1]
        } else {
            0
        }) + (if marked.contains(2) {
            line[2]
        } else {
            0
        }) + (if marked.contains(3) {
            line[3]
        } else {
            0
        }),
{
    let one = line.skip(1);
    let two = one.skip(1);
    let three = two.skip(1);
    let four = three.skip(1);
    assert(one[0] == line[1]);
    assert(two[0] == line[2]);
    assert(three[0] == line[3]);
    assert(four.len() == 0);
    assert(marked_sum(four, marked, 4) == 0);
    assert(marked_sum(three, marked, 3) == (if marked.contains(3) {
        line[3]
    } else {
        0
    }) + marked_sum(four, marked, 4));
    assert(marked_sum(two, marked, 2) == (if marked.contains(2) {
        line[2]
    } else {
        0
    }) + marked_sum(three, marked, 3));
    assert(marked_sum(one, marked, 1) == (if marked.contains(1) {
        line[1]
    } else {
        0
    }) + marked_sum(two, marked, 2));
}

/// A line with as many tiles as cells has no zero.
pub proof fn lemma_full_count(line: Seq<int>)
    requires
        tile_values(line).len() == line.len(),
    ensures
        all_tiles(line),
        tile_values(line) == line,
    decreases line.len(),
{
    if line.len() > 0 {
        lemma_tiles_bounded(line.drop_last());
        lemma_full_count(line.drop_last());
        assert forall|k: int| 0 <= k < line.len() implies line[k] != 0 by {
            if k < line.len() - 1 {
                assert(line.drop_last()[k] == line[k]);
            }
        }
        lemma_tiles_of_full(line);
    }
}

/// A line that moves ends in a zero afterwards.
pub proof fn lemma_moved_line_ends_empty(line: Seq<int>)
    requires
        line.len() > 0,
        slide_line(line) != line,
    ensures
        slide_line(line).last() == 0,
{
    let tiles = tile_values(line);
    let merged = merge_values(tiles);
    lemma_tiles_bounded(line);
    lemma_merge_bounded(tiles);
    if merged.len() == line.len() {
        lemma_full_count(line);
        if !no_equal_pair(tiles) {
            lemma_merge_shrinks(tiles);
        }
        lemma_merge_fixed(tiles);
        assert(slide_line(line) =~= line);
    }
}

} // verus!
