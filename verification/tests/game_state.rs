use engine::board::{can_move, Direction};
use engine::game::{add_random_tile, place_tile, Engine};
use engine::moves::move_board;

fn tiles(board: &[i32; 16]) -> Vec<(usize, i32)> {
    board.iter().copied().enumerate().filter(|(_, v)| *v != 0).collect()
}

#[test]
fn new_game_has_two_small_tiles_and_no_score() {
    for _ in 0..50 {
        let engine = Engine::new();
        let found = tiles(&engine.board);
        assert_eq!(found.len(), 2);
        assert!(found.iter().all(|(_, v)| *v == 2 || *v == 4));
        assert_eq!(engine.score, 0);
        assert_eq!(engine.best_score, 0);
        assert!(!engine.is_game_over());
    }
}

#[test]
fn reset_clears_board_and_score_and_keeps_the_best_score() {
    for _ in 0..50 {
        let mut engine = Engine { board: [8; 16], score: 120, best_score: 4000 };
        engine.reset();
        let found = tiles(&engine.board);
        assert_eq!(found.len(), 2);
        assert!(found.iter().all(|(_, v)| *v == 2 || *v == 4));
        assert_eq!(engine.score, 0);
        assert_eq!(engine.best_score, 4000);
    }
}

#[test]
fn place_tile_writes_the_drawn_value_on_the_drawn_cell() {
    let mut board = [0; 16];
    assert_eq!(place_tile(&mut board, Some(5), true), Some(5));
    assert_eq!(board[5], 2);
    assert_eq!(place_tile(&mut board, Some(9), false), Some(9));
    assert_eq!(board[9], 4);
    assert_eq!(tiles(&board), vec![(5, 2), (9, 4)]);
    let before = board;
    assert_eq!(place_tile(&mut board, None, true), None);
    assert_eq!(board, before);
}

#[test]
fn random_tile_lands_on_an_empty_cell() {
    for _ in 0..200 {
        let mut board = [2, 0, 4, 8, 0, 16, 32, 64, 2, 4, 0, 8, 16, 32, 64, 128];
        let before = board;
        let idx = add_random_tile(&mut board).unwrap();
        assert!(idx == 1 || idx == 4 || idx == 10);
        assert!(board[idx] == 2 || board[idx] == 4);
        for i in 0..16 {
            if i != idx {
                assert_eq!(board[i], before[i]);
            }
        }
    }
}

#[test]
fn random_tile_takes_the_only_empty_cell() {
    let mut board = [2, 4, 2, 4, 4, 2, 4, 2, 2, 4, 2, 4, 4, 2, 4, 0];
    assert_eq!(add_random_tile(&mut board), Some(15));
    assert!(board[15] == 2 || board[15] == 4);
}

#[test]
fn random_tile_leaves_a_full_board_alone() {
    let mut board = [2, 4, 2, 4, 4, 2, 4, 2, 2, 4, 2, 4, 4, 2, 4, 2];
    let before = board;
    assert_eq!(add_random_tile(&mut board), None);
    assert_eq!(board, before);
}

#[test]
fn random_tiles_are_twos_far_more_often_than_fours() {
    let mut twos = 0;
    let mut fours = 0;
    for _ in 0..2000 {
        let mut board = [0; 16];
        let idx = add_random_tile(&mut board).unwrap();
        if board[idx] == 2 {
            twos += 1;
        } else {
            fours += 1;
        }
    }
    assert!(twos > 1600);
    assert!(fours > 50);
}

#[test]
fn random_tiles_reach_more_than_one_cell() {
    let mut seen = std::collections::HashSet::new();
    for _ in 0..400 {
        let mut board = [0; 16];
        seen.insert(add_random_tile(&mut board).unwrap());
    }
    assert!(seen.len() > 8);
}

#[test]
fn illegal_move_changes_nothing() {
    let board = [2, 4, 8, 0, 4, 0, 0, 0, 2, 0, 0, 0, 0, 0, 0, 0];
    let mut engine = Engine { board, score: 12, best_score: 40 };
    assert!(engine.apply_move(Direction::Left).is_none());
    assert_eq!(engine.board, board);
    assert_eq!(engine.score, 12);
    assert_eq!(engine.best_score, 40);
}

#[test]
fn legal_move_scores_spawns_and_reports() {
    for _ in 0..50 {
        let board = [2, 2, 4, 4, 0, 0, 0, 0, 0, 0, 0, 0, 0, 0, 0, 8];
        let mut engine = Engine { board, score: 10, best_score: 16 };
        let moved = move_board(&board, Direction::Left);
        let t = engine.apply_move(Direction::Left).unwrap();
        assert_eq!(t.previous_board, board);
        assert_eq!(t.final_board, engine.board);
        assert_eq!(t.movements, moved.movements);
        assert_eq!(t.merged_indices, moved.merged_indices);
        assert_eq!(t.score, 22);
        assert_eq!(engine.score, 22);
        assert_eq!(t.best_score, 22);
        assert_eq!(engine.best_score, 22);
        let idx = t.spawned_index.unwrap();
        assert_eq!(moved.board[idx], 0);
        assert!(engine.board[idx] == 2 || engine.board[idx] == 4);
        for i in 0..16 {
            if i != idx {
                assert_eq!(engine.board[i], moved.board[i]);
            }
        }
        assert_eq!(t.is_game_over, !can_move(&engine.board));
        assert!(!t.is_game_over);
    }
}

#[test]
fn best_score_only_follows_a_higher_score() {
    let board = [2, 2, 0, 0, 0, 0, 0, 0, 0, 0, 0, 0, 0, 0, 0, 0];
    let mut engine = Engine { board, score: 0, best_score: 100 };
    let t = engine.apply_move(Direction::Right).unwrap();
    assert_eq!(t.score, 4);
    assert_eq!(t.best_score, 100);
    assert_eq!(engine.best_score, 100);
}

#[test]
fn last_move_can_end_the_game() {
    let mut ended = false;
    for _ in 0..200 {
        let board = [4, 2, 4, 2, 2, 4, 2, 4, 4, 2, 4, 2, 8, 16, 32, 0];
        let mut engine = Engine { board, score: 0, best_score: 0 };
        let t = engine.apply_move(Direction::Right).unwrap();
        assert_eq!(t.spawned_index, Some(12));
        assert_eq!(&engine.board[13..16], &[8, 16, 32]);
        let snapshot = engine.snapshot();
        assert_eq!(snapshot.board, engine.board);
        assert_eq!(snapshot.is_game_over, t.is_game_over);
        assert_eq!(t.is_game_over, engine.board[12] == 2);
        assert_eq!(engine.is_game_over(), t.is_game_over);
        ended = ended || t.is_game_over;
    }
    assert!(ended);
}

#[test]
fn snapshot_shows_the_state() {
    let board = [2, 4, 2, 4, 4, 2, 4, 2, 2, 4, 2, 4, 4, 2, 4, 2];
    let engine = Engine { board, score: 77, best_score: 99 };
    let snapshot = engine.snapshot();
    assert_eq!(snapshot.board, board);
    assert_eq!(snapshot.score, 77);
    assert_eq!(snapshot.best_score, 99);
    assert!(snapshot.is_game_over);
}
