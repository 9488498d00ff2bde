use roundtrip::board::{initialize_board, BoardError};
use roundtrip::metrics::{count_up, Metrics};
use roundtrip::search::{check_board, SearchState};
use roundtrip::validate::{judge_board_size, validate_board_size, SizeVerdict};

#[test]
fn fresh_metrics_are_zero() {
    let metrics = Metrics::new();
    assert_eq!(metrics.check_counter, 0);
    assert_eq!(metrics.fail_counter_1, 0);
    assert_eq!(metrics.fail_counter_2, 0);
    assert_eq!(metrics.fail_counter_3, 0);
    assert_eq!(metrics.exception_counter, 0);
    assert_eq!(metrics.solutions_counter, 0);
    assert!(metrics.run_duration.elapsed().is_ok());
}

#[test]
fn counters_stop_at_the_top() {
    assert_eq!(count_up(0), 1);
    assert_eq!(count_up(41), 42);
    assert_eq!(count_up(-3), -2);
    assert_eq!(count_up(i64::MAX - 1), i64::MAX);
    assert_eq!(count_up(i64::MAX), i64::MAX);
}

#[test]
fn rim_of_three_by_four() {
    let board = initialize_board(3, 4).unwrap();
    assert_eq!(board.n, 3);
    assert_eq!(board.m, 4);
    assert_eq!(board.rim_vertices, vec![0, 1, 2, 5, 8, 11, 10, 9, 6, 3]);
    assert_eq!(board.rim_vertices.len(), 2 * 3 + 2 * 4 - 4);
    for v in 0..12 {
        assert_eq!(board.is_rim(v), v != 4 && v != 7);
    }
}

#[test]
fn rim_of_two_by_two() {
    let board = initialize_board(2, 2).unwrap();
    assert_eq!(board.rim_vertices, vec![0, 1, 3, 2]);
    assert_eq!(board.size(), 4);
}

#[test]
fn rim_of_four_by_five() {
    let board = initialize_board(4, 5).unwrap();
    assert_eq!(
        board.rim_vertices,
        vec![0, 1, 2, 3, 7, 11, 15, 19, 18, 17, 16, 12, 8, 4]
    );
}

#[test]
fn edges_of_three_by_four() {
    let board = initialize_board(3, 4).unwrap();
    let mut edges = Vec::new();
    for a in 0..12 {
        assert_eq!(board.adjacency[a].len(), 12);
        for b in 0..12 {
            if board.adjacency[a][b] {
                edges.push((a, b));
            }
        }
    }
    assert_eq!(
        edges,
        vec![
            (0, 1),
            (1, 2),
            (1, 4),
            (2, 5),
            (3, 0),
            (3, 4),
            (4, 7),
            (5, 4),
            (5, 8),
            (6, 3),
            (6, 7),
            (7, 4),
            (8, 7),
            (8, 11),
            (9, 6),
            (10, 7),
            (10, 9),
            (11, 10),
        ]
    );
}

#[test]
fn edges_of_two_by_three_follow_the_boundary() {
    let board = initialize_board(2, 3).unwrap();
    let mut edges = Vec::new();
    for a in 0..6 {
        for b in 0..6 {
            if board.adjacency[a][b] {
                edges.push((a, b));
            }
        }
    }
    assert_eq!(edges, vec![(0, 1), (1, 3), (2, 0), (3, 5), (4, 2), (5, 4)]);
}

#[test]
fn no_edge_leads_from_the_inside_onto_the_boundary() {
    let board = initialize_board(5, 6).unwrap();
    for a in 0..30 {
        for b in 0..30 {
            if board.adjacency[a][b] && board.is_rim(b) {
                assert!(board.is_rim(a));
            }
            assert!(!(board.adjacency[a][b] && a == b));
        }
    }
}

#[test]
fn boards_are_refused() {
    assert_eq!(initialize_board(0, 0).err(), Some(BoardError::TooFewColumns));
    assert_eq!(initialize_board(1, 4).err(), Some(BoardError::TooFewColumns));
    assert_eq!(initialize_board(4, 3).err(), Some(BoardError::WiderThanTall));
    assert_eq!(initialize_board(3, 5).err(), Some(BoardError::OddVertexCount));
    assert_eq!(initialize_board(21, 21).err(), Some(BoardError::OddVertexCount));
    assert_eq!(initialize_board(20, 22).err(), Some(BoardError::TooLarge));
    assert_eq!(initialize_board(2, 201).err(), Some(BoardError::TooLarge));
    assert!(initialize_board(2, 200).is_ok());
    assert!(initialize_board(20, 20).is_ok());
}

#[test]
fn session_bounds() {
    assert_eq!(judge_board_size(21, 21), SizeVerdict::ExceedsMaximum);
    assert_eq!(judge_board_size(5, 21), SizeVerdict::ExceedsMaximum);
    assert_eq!(judge_board_size(21, 5), SizeVerdict::ExceedsMaximum);
    assert_eq!(judge_board_size(6, 4), SizeVerdict::WiderThanTall);
    assert_eq!(judge_board_size(2, 4), SizeVerdict::TooSmall);
    assert_eq!(judge_board_size(2, 2), SizeVerdict::TooSmall);
    assert_eq!(judge_board_size(10, 14), SizeVerdict::TooBig);
    assert_eq!(judge_board_size(3, 43), SizeVerdict::ExceedsMaximum);
    assert_eq!(judge_board_size(3, 5), SizeVerdict::Odd);
    assert_eq!(judge_board_size(3, 4), SizeVerdict::Accepted);
    assert_eq!(judge_board_size(2, 6), SizeVerdict::Accepted);
    assert_eq!(judge_board_size(8, 16), SizeVerdict::Accepted);
    assert_eq!(judge_board_size(1, 12), SizeVerdict::Accepted);
    assert!(validate_board_size(3, 4));
    assert!(validate_board_size(8, 16));
    assert!(!validate_board_size(4, 3));
    assert!(!validate_board_size(3, 5));
    assert!(!validate_board_size(2, 5));
    assert!(!validate_board_size(11, 12));
    assert!(!validate_board_size(21, 22));
}

#[test]
fn check_board_leaves_the_state_as_it_found_it() {
    let board = initialize_board(4, 4).unwrap();
    let mut state = SearchState::new(&board, true);
    let mut metrics = Metrics::new();
    check_board(&board, &mut state, 0, &mut metrics);
    assert_eq!(metrics.solutions_counter, 6);
    assert_eq!(state.tours.len(), 6);
    assert!(state.solution_path.is_empty());
    assert!(state.visited.iter().all(|&v| !v));
    assert_eq!(state.visited.len(), 16);
    assert_eq!(state.visited_rim_vertices, 0);
    assert_eq!(state.return_edge, None);
    check_board(&board, &mut state, 0, &mut metrics);
    assert_eq!(metrics.solutions_counter, 12);
    assert_eq!(metrics.check_counter, 166);
    assert_eq!(state.tours.len(), 12);
}

#[test]
fn tours_are_kept_only_on_request() {
    let board = initialize_board(3, 4).unwrap();
    let mut state = SearchState::new(&board, false);
    let mut metrics = Metrics::new();
    check_board(&board, &mut state, 0, &mut metrics);
    assert_eq!(metrics.solutions_counter, 2);
    assert!(state.tours.is_empty());
}
