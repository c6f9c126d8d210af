use engine::board::{can_move, empty_indices, to_array, Direction};
use engine::moves::{line_indices, move_board};
use engine::slide::{slide_and_merge, Movement};

const STUCK: [i32; 16] = [2, 4, 2, 4, 4, 2, 4, 2, 2, 4, 2, 4, 4, 2, 4, 2];
const ALL: [Direction; 4] = [Direction::Up, Direction::Down, Direction::Left, Direction::Right];

fn opposite(direction: Direction) -> Direction {
    match direction {
        Direction::Up => Direction::Down,
        Direction::Down => Direction::Up,
        Direction::Left => Direction::Right,
        Direction::Right => Direction::Left,
    }
}

fn sorted(set: &std::collections::HashSet<usize>) -> Vec<usize> {
    let mut v: Vec<usize> = set.iter().copied().collect();
    v.sort();
    v
}

#[test]
fn pair_moved_left_merges_once() {
    let mut board = [0; 16];
    board[0] = 2;
    board[1] = 2;
    let out = move_board(&board, Direction::Left);
    let mut expected = [0; 16];
    expected[0] = 4;
    assert_eq!(out.board, expected);
    assert_eq!(out.score, 4);
    assert!(out.changed);
    assert_eq!(sorted(&out.merged_indices), vec![0]);
    assert_eq!(
        out.movements,
        vec![
            Movement { from: 0, to: 0, value: 2, is_merge: true },
            Movement { from: 1, to: 0, value: 2, is_merge: true },
        ]
    );
}

#[test]
fn stuck_board_moves_nowhere() {
    for direction in ALL {
        let out = move_board(&STUCK, direction);
        assert!(!out.changed);
        assert_eq!(out.board, STUCK);
        assert_eq!(out.score, 0);
        assert!(out.merged_indices.is_empty());
    }
    assert!(!can_move(&STUCK));
}

#[test]
fn unchanged_move_returns_the_board_and_stays_unchanged() {
    let board = [2, 4, 8, 0, 4, 0, 0, 0, 2, 0, 0, 0, 0, 0, 0, 0];
    let out = move_board(&board, Direction::Left);
    assert!(!out.changed);
    assert_eq!(out.board, board);
    let again = move_board(&out.board, Direction::Left);
    assert!(!again.changed);
    assert_eq!(again.board, board);
}

#[test]
fn merged_tile_does_not_merge_again() {
    let board = [2, 2, 4, 0, 0, 0, 0, 0, 0, 0, 0, 0, 0, 0, 0, 0];
    let out = move_board(&board, Direction::Left);
    assert_eq!(&out.board[0..4], &[4, 4, 0, 0]);
    assert_eq!(out.score, 4);
    let four = [2, 2, 2, 2, 0, 0, 0, 0, 0, 0, 0, 0, 0, 0, 0, 0];
    let out = move_board(&four, Direction::Left);
    assert_eq!(&out.board[0..4], &[4, 4, 0, 0]);
    assert_eq!(out.score, 8);
    assert_eq!(sorted(&out.merged_indices), vec![0, 1]);
    let three = [4, 4, 4, 0, 0, 0, 0, 0, 0, 0, 0, 0, 0, 0, 0, 0];
    let out = move_board(&three, Direction::Right);
    assert_eq!(&out.board[0..4], &[0, 0, 4, 8]);
    assert_eq!(out.score, 8);
    assert_eq!(sorted(&out.merged_indices), vec![3]);
}

#[test]
fn back_and_forth_at_most_quadruples() {
    let board = [2, 2, 4, 0, 0, 0, 0, 0, 0, 0, 0, 0, 0, 0, 0, 0];
    let there = move_board(&board, Direction::Left);
    let back = move_board(&there.board, opposite(Direction::Left));
    assert_eq!(&back.board[0..4], &[0, 0, 0, 8]);
    let boards = [
        [2, 2, 4, 4, 2, 0, 2, 0, 8, 8, 8, 8, 0, 4, 4, 2],
        [2, 0, 0, 2, 4, 4, 0, 0, 2, 4, 2, 4, 16, 16, 32, 32],
    ];
    for board in boards {
        for direction in ALL {
            let there = move_board(&board, direction);
            let back = move_board(&there.board, opposite(direction));
            let before: Vec<i32> = board.iter().copied().filter(|v| *v != 0).collect();
            for v in back.board {
                assert!(
                    v == 0 || before.iter().any(|t| v == *t || v == 2 * *t || v == 4 * *t)
                );
            }
            let tiles = |b: &[i32; 16]| b.iter().filter(|v| **v != 0).count();
            assert!(tiles(&there.board) <= tiles(&board));
            assert!(tiles(&back.board) <= tiles(&there.board));
            let sum = |b: &[i32; 16]| b.iter().sum::<i32>();
            assert_eq!(sum(&back.board), sum(&board));
        }
    }
}

#[test]
fn can_move_matches_some_direction_changing() {
    let boards = [
        STUCK,
        [2, 0, 0, 0, 0, 0, 0, 0, 0, 0, 0, 0, 0, 0, 0, 0],
        [2, 4, 2, 4, 4, 2, 4, 2, 2, 4, 2, 4, 4, 2, 4, 4],
        [2, 4, 2, 4, 4, 2, 4, 2, 2, 4, 2, 4, 4, 2, 4, 0],
        [2, 4, 8, 16, 32, 64, 128, 256, 2, 4, 8, 16, 32, 64, 128, 256],
        [0, 0, 0, 0, 0, 0, 0, 0, 0, 0, 0, 0, 0, 0, 0, 2],
    ];
    for board in boards {
        let any = ALL.iter().any(|d| move_board(&board, *d).changed);
        assert_eq!(can_move(&board), any);
    }
}

#[test]
fn empty_board_can_move_but_no_direction_changes_it() {
    let board = [0; 16];
    assert!(can_move(&board));
    for direction in ALL {
        let out = move_board(&board, direction);
        assert!(!out.changed);
        assert!(out.movements.is_empty());
    }
}

#[test]
fn score_is_the_sum_of_the_merged_tiles() {
    let board = [2, 2, 4, 4, 8, 0, 8, 0, 2, 4, 2, 4, 16, 16, 16, 0];
    let out = move_board(&board, Direction::Left);
    assert_eq!(out.board, [4, 8, 0, 0, 16, 0, 0, 0, 2, 4, 2, 4, 32, 16, 0, 0]);
    assert_eq!(out.score, 4 + 8 + 16 + 32);
    assert_eq!(sorted(&out.merged_indices), vec![0, 1, 4, 12]);
    let total: i32 = out.merged_indices.iter().map(|i| out.board[*i]).sum();
    assert_eq!(out.score, total);
}

#[test]
fn each_direction_moves_towards_its_edge() {
    let board = [0, 0, 0, 0, 0, 2, 0, 0, 0, 0, 0, 0, 0, 0, 0, 0];
    let up = move_board(&board, Direction::Up);
    assert_eq!(up.board[1], 2);
    assert_eq!(up.movements, vec![Movement { from: 5, to: 1, value: 2, is_merge: false }]);
    let down = move_board(&board, Direction::Down);
    assert_eq!(down.board[13], 2);
    assert_eq!(down.movements, vec![Movement { from: 5, to: 13, value: 2, is_merge: false }]);
    let left = move_board(&board, Direction::Left);
    assert_eq!(left.board[4], 2);
    let right = move_board(&board, Direction::Right);
    assert_eq!(right.board[7], 2);
    assert_eq!(right.movements, vec![Movement { from: 5, to: 7, value: 2, is_merge: false }]);
}

#[test]
fn movements_come_line_by_line_in_traversal_order() {
    let board = [2, 0, 2, 4, 0, 0, 0, 0, 0, 0, 0, 0, 8, 0, 0, 8];
    let out = move_board(&board, Direction::Right);
    assert_eq!(out.board, [0, 0, 4, 4, 0, 0, 0, 0, 0, 0, 0, 0, 0, 0, 0, 16]);
    assert_eq!(
        out.movements,
        vec![
            Movement { from: 3, to: 3, value: 4, is_merge: false },
            Movement { from: 2, to: 2, value: 2, is_merge: true },
            Movement { from: 0, to: 2, value: 2, is_merge: true },
            Movement { from: 15, to: 15, value: 8, is_merge: true },
            Movement { from: 12, to: 15, value: 8, is_merge: true },
        ]
    );
    assert_eq!(out.score, 20);
}

#[test]
fn line_indices_read_each_line_from_its_leading_edge() {
    assert_eq!(line_indices(Direction::Left, 1), vec![4, 5, 6, 7]);
    assert_eq!(line_indices(Direction::Right, 1), vec![7, 6, 5, 4]);
    assert_eq!(line_indices(Direction::Up, 2), vec![2, 6, 10, 14]);
    assert_eq!(line_indices(Direction::Down, 2), vec![14, 10, 6, 2]);
    assert_eq!(line_indices(Direction::Left, 0), vec![0, 1, 2, 3]);
    assert_eq!(line_indices(Direction::Down, 3), vec![15, 11, 7, 3]);
}

#[test]
fn slide_and_merge_reports_line_score_positions_and_moves() {
    let (line, score, positions, moves) = slide_and_merge(&[0, 2, 2, 4], &[3, 7, 11, 15]);
    assert_eq!(line, vec![4, 4, 0, 0]);
    assert_eq!(score, 4);
    assert_eq!(positions, vec![0]);
    assert_eq!(
        moves,
        vec![
            Movement { from: 7, to: 3, value: 2, is_merge: true },
            Movement { from: 11, to: 3, value: 2, is_merge: true },
            Movement { from: 15, to: 7, value: 4, is_merge: false },
        ]
    );
    let (line, score, positions, moves) = slide_and_merge(&[0, 0, 0, 0], &[0, 1, 2, 3]);
    assert_eq!(line, vec![0, 0, 0, 0]);
    assert_eq!(score, 0);
    assert!(positions.is_empty());
    assert!(moves.is_empty());
    let (line, score, positions, _) = slide_and_merge(&[8, 8, 8, 8], &[0, 1, 2, 3]);
    assert_eq!(line, vec![16, 16, 0, 0]);
    assert_eq!(score, 32);
    assert_eq!(positions, vec![0, 1]);
}

#[test]
fn slide_and_merge_pads_short_lines_and_keeps_long_ones() {
    let (line, score, _, _) = slide_and_merge(&[2], &[0]);
    assert_eq!(line, vec![2, 0, 0, 0]);
    assert_eq!(score, 0);
    let (line, _, _, _) = slide_and_merge(&[2, 4, 2, 4, 2], &[0, 1, 2, 3, 4]);
    assert_eq!(line, vec![2, 4, 2, 4, 2]);
}

#[test]
fn empty_indices_come_in_scan_order() {
    let board = [2, 0, 4, 0, 0, 2, 2, 2, 2, 2, 2, 2, 2, 2, 2, 0];
    assert_eq!(empty_indices(&board), vec![1, 3, 4, 15]);
    assert_eq!(empty_indices(&STUCK), Vec::<usize>::new());
    assert_eq!(empty_indices(&[0; 16]).len(), 16);
}

#[test]
fn can_move_sees_gaps_and_equal_neighbours() {
    assert!(!can_move(&STUCK));
    let mut gap = STUCK;
    gap[5] = 0;
    assert!(can_move(&gap));
    let mut right = STUCK;
    right[14] = 2;
    assert!(can_move(&right));
    let mut below = STUCK;
    below[3] = 2;
    assert!(can_move(&below));
    let mut wrapped = [2, 4, 2, 8, 8, 2, 4, 2, 2, 4, 2, 4, 4, 2, 4, 2];
    assert!(!can_move(&wrapped));
    wrapped[4] = 2;
    assert!(can_move(&wrapped));
}

#[test]
fn to_array_pads_and_truncates() {
    assert_eq!(to_array(&vec![2, 4]), [2, 4, 0, 0, 0, 0, 0, 0, 0, 0, 0, 0, 0, 0, 0, 0]);
    let long: Vec<i32> = (1..=20).collect();
    assert_eq!(to_array(&long), [1, 2, 3, 4, 5, 6, 7, 8, 9, 10, 11, 12, 13, 14, 15, 16]);
    assert_eq!(to_array(&Vec::new()), [0; 16]);
}
