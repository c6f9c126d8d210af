use engine::board::Direction;
use engine::heuristic::{corner_max_score, max_tile, smoothness, stability_penalty};
use engine::search::{board_hash, cache_is_full, fans_out, is_leaf, legal_moves, spawn_boards};
use engine::tiles::{is_valid_board, tile_exponent, tile_total};

const STUCK: [i32; 16] = [2, 4, 2, 4, 4, 2, 4, 2, 2, 4, 2, 4, 4, 2, 4, 2];

#[test]
fn tile_exponent_is_the_logarithm_of_tiles_only() {
    assert_eq!(tile_exponent(2), Some(1));
    assert_eq!(tile_exponent(4), Some(2));
    assert_eq!(tile_exponent(2048), Some(11));
    assert_eq!(tile_exponent(1 << 30), Some(30));
    assert_eq!(tile_exponent(0), None);
    assert_eq!(tile_exponent(1), None);
    assert_eq!(tile_exponent(3), None);
    assert_eq!(tile_exponent(6), None);
    assert_eq!(tile_exponent(-4), None);
    assert_eq!(tile_exponent(i32::MAX), None);
    assert_eq!(tile_exponent((1 << 30) + 1), None);
    assert_eq!(tile_exponent(i32::MIN), None);
}

#[test]
fn valid_boards_hold_tiles_only() {
    assert!(is_valid_board(&STUCK));
    assert!(is_valid_board(&[0; 16]));
    let mut odd = STUCK;
    odd[7] = 3;
    assert!(!is_valid_board(&odd));
    let mut one = [0; 16];
    one[0] = 1;
    assert!(!is_valid_board(&one));
    let mut negative = [0; 16];
    negative[15] = -2;
    assert!(!is_valid_board(&negative));
}

#[test]
fn tile_total_adds_all_cells() {
    assert_eq!(tile_total(&STUCK), 48);
    assert_eq!(tile_total(&[0; 16]), 0);
    assert_eq!(tile_total(&[i32::MAX; 16]), 16 * (i32::MAX as i64));
    assert_eq!(tile_total(&[i32::MIN; 16]), 16 * (i32::MIN as i64));
}

#[test]
fn smoothness_counts_log_distances_of_adjacent_tiles() {
    assert_eq!(smoothness(&[0; 16]), 0);
    assert_eq!(stability_penalty(&[0; 16]), 0);
    assert_eq!(smoothness(&STUCK), -24);
    assert_eq!(stability_penalty(&STUCK), 24);
    let board = [2, 8, 0, 0, 32, 0, 0, 0, 0, 0, 0, 0, 0, 0, 0, 0];
    assert_eq!(smoothness(&board), -(2 + 4));
    assert_eq!(stability_penalty(&board), 6);
    let gap = [2, 0, 2048, 0, 0, 0, 4, 0, 0, 0, 0, 0, 0, 0, 0, 0];
    assert_eq!(smoothness(&gap), -9);
    let flat = [4; 16];
    assert_eq!(smoothness(&flat), 0);
}

#[test]
fn smoothness_is_the_opposite_of_the_stability_penalty() {
    let boards = [
        STUCK,
        [2, 8, 0, 0, 32, 0, 0, 0, 0, 0, 0, 0, 0, 0, 0, 0],
        [1024, 2, 4, 8, 16, 32, 64, 128, 256, 512, 2, 4, 1 << 30, 2, 0, 2],
    ];
    for board in boards {
        assert_eq!(smoothness(&board), -stability_penalty(&board));
        assert_eq!(smoothness(&board), smoothness(&board));
    }
}

#[test]
fn corner_term_follows_the_largest_tile() {
    assert_eq!(corner_max_score(&[0; 16]), 0);
    let mut board = [0; 16];
    board[5] = 8;
    assert_eq!(corner_max_score(&board), -1);
    for corner in [0, 3, 12, 15] {
        let mut board = [2; 16];
        board[corner] = 64;
        assert_eq!(corner_max_score(&board), 1);
        assert_eq!(max_tile(&board), 64);
    }
    let mut tie = [0; 16];
    tie[6] = 16;
    tie[12] = 16;
    assert_eq!(corner_max_score(&tie), 1);
    assert_eq!(max_tile(&STUCK), 4);
    assert_eq!(max_tile(&[0; 16]), 0);
    assert_eq!(max_tile(&[-3; 16]), -3);
    assert_eq!(corner_max_score(&[-3; 16]), 0);
}

#[test]
fn board_hash_has_its_exact_values() {
    assert_eq!(board_hash(&STUCK, 3, true), 2125078247325424558);
    assert_eq!(board_hash(&STUCK, 3, false), 14554640730158836070);
    assert_eq!(board_hash(&[0; 16], 0, true), 14497863266560672119);
    assert_eq!(board_hash(&[0; 16], -1, false), 11951768065714907970);
    let mut board = [0; 16];
    board[0] = 2;
    assert_eq!(board_hash(&board, 1, true), 13589677021312933038);
}

#[test]
fn board_hash_tells_layers_depths_and_boards_apart() {
    let mut other = STUCK;
    other[15] = 4;
    assert_ne!(board_hash(&STUCK, 3, true), board_hash(&STUCK, 3, false));
    assert_ne!(board_hash(&STUCK, 3, true), board_hash(&STUCK, 2, true));
    assert_ne!(board_hash(&STUCK, 3, true), board_hash(&other, 3, true));
    assert_eq!(board_hash(&STUCK, 3, true), board_hash(&STUCK, 3, true));
}

#[test]
fn legal_moves_keep_the_search_order_and_drop_no_ops() {
    let board = [2, 0, 0, 0, 0, 0, 0, 0, 0, 0, 0, 0, 0, 0, 0, 0];
    let moves = legal_moves(&board);
    let directions: Vec<Direction> = moves.iter().map(|m| m.0).collect();
    assert_eq!(directions, vec![Direction::Down, Direction::Right]);
    assert_eq!(moves[0].1.board[12], 2);
    assert_eq!(moves[1].1.board[3], 2);
    assert!(moves.iter().all(|m| m.1.changed));

    let middle = [0, 0, 0, 0, 0, 2, 2, 0, 0, 0, 0, 0, 0, 0, 0, 0];
    let moves = legal_moves(&middle);
    let directions: Vec<Direction> = moves.iter().map(|m| m.0).collect();
    assert_eq!(
        directions,
        vec![Direction::Up, Direction::Down, Direction::Left, Direction::Right]
    );
    assert_eq!(moves[2].1.score, 4);
    assert_eq!(moves[0].1.score, 0);

    assert!(legal_moves(&STUCK).is_empty());
    assert!(legal_moves(&[0; 16]).is_empty());
}

#[test]
fn spawn_boards_put_a_two_and_a_four_on_every_empty_cell() {
    let mut board = STUCK;
    board[3] = 0;
    board[9] = 0;
    let children = spawn_boards(&board);
    assert_eq!(children.len(), 2);
    let mut with_two = board;
    with_two[3] = 2;
    let mut with_four = board;
    with_four[3] = 4;
    assert_eq!(children[0], (3, with_two, with_four));
    assert_eq!(children[1].0, 9);
    assert_eq!(children[1].1[9], 2);
    assert_eq!(children[1].2[9], 4);
    assert_eq!(children[1].1[3], 0);
    assert!(spawn_boards(&STUCK).is_empty());
    assert_eq!(spawn_boards(&[0; 16]).len(), 16);
}

#[test]
fn leaves_are_positions_without_depth_or_without_moves() {
    let open = [2, 0, 0, 0, 0, 0, 0, 0, 0, 0, 0, 0, 0, 0, 0, 0];
    assert!(is_leaf(&open, 0));
    assert!(!is_leaf(&open, 1));
    assert!(!is_leaf(&open, -1));
    assert!(is_leaf(&STUCK, 5));
    assert!(is_leaf(&STUCK, 0));
}

#[test]
fn fan_out_needs_depth_and_empty_cells() {
    assert!(fans_out(2, 6));
    assert!(fans_out(7, 16));
    assert!(!fans_out(1, 6));
    assert!(!fans_out(2, 5));
    assert!(!fans_out(0, 16));
    assert!(!fans_out(-3, 16));
}

#[test]
fn cache_is_full_above_its_limit_only() {
    assert!(!cache_is_full(0));
    assert!(!cache_is_full(200_000));
    assert!(cache_is_full(200_001));
}
