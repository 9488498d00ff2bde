use roundtrip::board::BoardError;
use roundtrip::search::{count_tours, enumerate_tours, search};

fn neighbours(n: usize, m: usize, v: usize) -> Vec<usize> {
    let mut out = Vec::new();
    let (row, col) = (v / n, v % n);
    if row > 0 {
        out.push(v - n);
    }
    if col > 0 {
        out.push(v - 1);
    }
    if col + 1 < n {
        out.push(v + 1);
    }
    if row + 1 < m {
        out.push(v + n);
    }
    out
}

fn walk(n: usize, m: usize, v: usize, visited: &mut Vec<bool>, left: usize, found: &mut u64) {
    if left == 0 {
        if neighbours(n, m, v).contains(&0) {
            *found += 1;
        }
        return;
    }
    for w in neighbours(n, m, v) {
        if !visited[w] {
            visited[w] = true;
            walk(n, m, w, visited, left - 1, found);
            visited[w] = false;
        }
    }
}

/// Closed tours of the grid counted by trying every path, each tour once
/// whatever its direction.
fn count_by_exhaustion(n: usize, m: usize) -> u64 {
    let size = n * m;
    let mut visited = vec![false; size];
    visited[0] = true;
    let mut found = 0;
    walk(n, m, 0, &mut visited, size - 1, &mut found);
    found / 2
}

fn assert_closed_tour(n: usize, m: usize, tour: &[usize]) {
    let size = n * m;
    assert_eq!(tour.len(), size);
    let mut times = vec![0usize; size];
    for &v in tour {
        assert!(v < size);
        times[v] += 1;
    }
    assert!(times.iter().all(|&t| t == 1));
    let mut into = vec![0usize; size];
    let mut out_of = vec![0usize; size];
    for k in 0..size {
        let a = tour[k];
        let b = tour[(k + 1) % size];
        assert!(neighbours(n, m, a).contains(&b), "{} and {} are not neighbours", a, b);
        out_of[a] += 1;
        into[b] += 1;
    }
    assert!(into.iter().all(|&d| d == 1));
    assert!(out_of.iter().all(|&d| d == 1));
}

#[test]
fn two_by_two_has_one_tour() {
    assert_eq!(count_tours(2, 2), Some(1));
    assert_eq!(enumerate_tours(2, 2).unwrap(), vec![vec![0, 1, 3, 2]]);
}

#[test]
fn two_by_six_has_the_boundary_as_its_only_tour() {
    assert_eq!(count_by_exhaustion(2, 6), 1);
    assert_eq!(count_tours(2, 6), Some(1));
    let metrics = search(2, 6).unwrap();
    assert_eq!(metrics.solutions_counter, 1);
    assert_eq!(metrics.check_counter, 12);
    assert_eq!(metrics.fail_counter_2, 0);
    assert_eq!(metrics.fail_counter_3, 11);
    assert_eq!(
        enumerate_tours(2, 6).unwrap(),
        vec![vec![0, 1, 3, 5, 7, 9, 11, 10, 8, 6, 4, 2]]
    );
}

#[test]
fn four_by_four_has_tours() {
    let metrics = search(4, 4).unwrap();
    assert!(metrics.solutions_counter > 0);
    assert_eq!(metrics.solutions_counter, 6);
    assert_eq!(count_tours(4, 4), Some(6));
}

#[test]
fn four_by_four_counters() {
    let metrics = search(4, 4).unwrap();
    assert_eq!(metrics.check_counter, 83);
    assert_eq!(metrics.fail_counter_1, 0);
    assert_eq!(metrics.fail_counter_2, 4);
    assert_eq!(metrics.fail_counter_3, 73);
    assert_eq!(metrics.exception_counter, 0);
    assert_eq!(metrics.solutions_counter, 6);
}

#[test]
fn three_by_four_counters_and_tours() {
    let metrics = search(3, 4).unwrap();
    assert_eq!(metrics.check_counter, 21);
    assert_eq!(metrics.fail_counter_2, 1);
    assert_eq!(metrics.fail_counter_3, 18);
    assert_eq!(metrics.solutions_counter, 2);
    assert_eq!(
        enumerate_tours(3, 4).unwrap(),
        vec![
            vec![0, 1, 2, 5, 4, 7, 8, 11, 10, 9, 6, 3],
            vec![0, 1, 2, 5, 8, 11, 10, 9, 6, 7, 4, 3],
        ]
    );
}

#[test]
fn four_by_four_tours_in_order() {
    assert_eq!(
        enumerate_tours(4, 4).unwrap(),
        vec![
            vec![0, 1, 2, 3, 7, 6, 5, 9, 10, 11, 15, 14, 13, 12, 8, 4],
            vec![0, 1, 2, 3, 7, 6, 10, 11, 15, 14, 13, 12, 8, 9, 5, 4],
            vec![0, 1, 2, 3, 7, 11, 15, 14, 10, 6, 5, 9, 13, 12, 8, 4],
            vec![0, 1, 2, 3, 7, 11, 15, 14, 13, 12, 8, 9, 10, 6, 5, 4],
            vec![0, 1, 5, 6, 2, 3, 7, 11, 15, 14, 10, 9, 13, 12, 8, 4],
            vec![0, 1, 5, 9, 10, 6, 2, 3, 7, 11, 15, 14, 13, 12, 8, 4],
        ]
    );
}

#[test]
fn every_entry_ends_in_one_of_three_ways() {
    for (n, m) in [(2, 2), (2, 6), (3, 4), (4, 4), (4, 6), (5, 6)] {
        let metrics = search(n, m).unwrap();
        assert_eq!(
            metrics.check_counter,
            metrics.solutions_counter + metrics.fail_counter_2 + metrics.fail_counter_3
        );
    }
}

#[test]
fn accepted_tours_are_closed_tours() {
    for (n, m) in [(2, 2), (2, 6), (3, 4), (4, 4), (4, 5), (4, 6), (5, 6), (6, 6)] {
        let tours = enumerate_tours(n, m).unwrap();
        for tour in &tours {
            assert_closed_tour(n, m, tour);
            assert_eq!(tour[0], 0);
            assert_eq!(tour[1], 1);
            assert_eq!(tour[n * m - 1], n);
        }
    }
}

#[test]
fn accepted_tours_are_distinct() {
    let tours = enumerate_tours(5, 6).unwrap();
    assert_eq!(tours.len(), 154);
    for a in 0..tours.len() {
        for b in a + 1..tours.len() {
            assert_ne!(tours[a], tours[b]);
            assert!(tours[a] < tours[b]);
        }
    }
}

#[test]
fn corners_use_both_their_edges() {
    for (n, m) in [(2, 2), (3, 4), (4, 4), (4, 6), (5, 6)] {
        let size = n * m;
        let corners = [
            (0, [1, n]),
            (n - 1, [n - 2, 2 * n - 1]),
            (size - n, [size - 2 * n, size - n + 1]),
            (size - 1, [size - n - 1, size - 2]),
        ];
        for tour in enumerate_tours(n, m).unwrap() {
            for (corner, expected) in corners {
                let at = tour.iter().position(|&v| v == corner).unwrap();
                let before = tour[(at + size - 1) % size];
                let after = tour[(at + 1) % size];
                let mut used = [before, after];
                used.sort();
                let mut wanted = expected;
                wanted.sort();
                assert_eq!(used, wanted);
            }
        }
    }
}

#[test]
fn searching_twice_gives_the_same_counters() {
    for (n, m) in [(2, 6), (4, 4), (4, 6), (5, 6)] {
        let first = search(n, m).unwrap();
        let second = search(n, m).unwrap();
        assert_eq!(first.check_counter, second.check_counter);
        assert_eq!(first.fail_counter_1, second.fail_counter_1);
        assert_eq!(first.fail_counter_2, second.fail_counter_2);
        assert_eq!(first.fail_counter_3, second.fail_counter_3);
        assert_eq!(first.exception_counter, second.exception_counter);
        assert_eq!(first.solutions_counter, second.solutions_counter);
        assert_eq!(count_tours(n, m), count_tours(n, m));
        assert_eq!(enumerate_tours(n, m), enumerate_tours(n, m));
    }
}

#[test]
fn count_does_not_depend_on_the_order_of_the_dimensions() {
    assert_eq!(count_tours(4, 6), Some(37));
    assert_eq!(count_tours(6, 4), Some(37));
    assert_eq!(count_tours(2, 6), count_tours(6, 2));
    assert_eq!(count_tours(5, 6), count_tours(6, 5));
    assert_eq!(count_tours(3, 5), count_tours(5, 3));
    assert_eq!(count_tours(1, 8), count_tours(8, 1));
    assert_eq!(count_tours(20, 22), count_tours(22, 20));
}

#[test]
fn odd_grids_have_no_tour() {
    assert_eq!(count_tours(3, 5), Some(0));
    assert_eq!(count_tours(5, 3), Some(0));
    assert_eq!(count_tours(3, 3), Some(0));
    assert_eq!(count_tours(21, 21), Some(0));
    assert_eq!(count_tours(1, 1), Some(0));
    assert_eq!(search(3, 5).err(), Some(BoardError::OddVertexCount));
    assert_eq!(enumerate_tours(3, 5).err(), Some(BoardError::OddVertexCount));
}

#[test]
fn single_rows_and_columns_have_no_tour() {
    assert_eq!(count_tours(1, 2), Some(0));
    assert_eq!(count_tours(1, 12), Some(0));
    assert_eq!(count_tours(12, 1), Some(0));
    assert_eq!(count_tours(0, 4), Some(0));
    assert_eq!(search(1, 12).err(), Some(BoardError::TooFewColumns));
}

#[test]
fn oversized_grids_are_not_counted() {
    assert_eq!(count_tours(20, 22), None);
    assert_eq!(count_tours(2, 201), None);
    assert_eq!(search(20, 22).err(), Some(BoardError::TooLarge));
    assert_eq!(search(usize::MAX - 1, usize::MAX - 1).err(), Some(BoardError::TooLarge));
}

#[test]
fn wide_grids_are_refused_by_the_search() {
    assert_eq!(search(6, 4).err(), Some(BoardError::WiderThanTall));
    assert_eq!(enumerate_tours(6, 4).err(), Some(BoardError::WiderThanTall));
}

#[test]
fn counts_agree_with_exhaustive_enumeration() {
    for (n, m) in [(2, 2), (2, 3), (2, 5), (3, 4), (3, 6), (4, 4), (4, 5), (4, 6), (5, 6)] {
        assert_eq!(count_tours(n, m), Some(count_by_exhaustion(n, m) as i64), "{} by {}", n, m);
    }
}

#[test]
fn known_counts() {
    assert_eq!(count_tours(3, 6), Some(4));
    assert_eq!(count_tours(3, 8), Some(8));
    assert_eq!(count_tours(4, 5), Some(14));
    assert_eq!(count_tours(4, 7), Some(92));
    assert_eq!(count_tours(4, 8), Some(236));
    assert_eq!(count_tours(5, 6), Some(154));
    assert_eq!(count_tours(6, 6), Some(1072));
}

#[test]
fn boundary_vertices_are_visited_in_clockwise_order() {
    for (n, m) in [(2, 4), (3, 4), (4, 4), (4, 6), (5, 6)] {
        let board = roundtrip::board::initialize_board(n, m).unwrap();
        for tour in enumerate_tours(n, m).unwrap() {
            let on_boundary: Vec<usize> =
                tour.iter().copied().filter(|&v| board.is_rim(v)).collect();
            assert_eq!(on_boundary, board.rim_vertices);
        }
    }
}

#[test]
fn two_column_grids_have_the_boundary_as_their_only_tour() {
    for m in 2..=12 {
        let board = roundtrip::board::initialize_board(2, m).unwrap();
        assert_eq!(count_tours(2, m), Some(1));
        assert_eq!(count_tours(m, 2), Some(1));
        assert_eq!(enumerate_tours(2, m).unwrap(), vec![board.rim_vertices.clone()]);
        let metrics = search(2, m).unwrap();
        assert_eq!(metrics.check_counter, 2 * m as i64);
        assert_eq!(metrics.fail_counter_2, 0);
        assert_eq!(metrics.fail_counter_3, 2 * m as i64 - 1);
    }
    assert_eq!(count_tours(2, 200), Some(1));
}

#[test]
fn tours_come_in_ascending_order() {
    for (n, m) in [(3, 4), (4, 4), (4, 6), (6, 6)] {
        let tours = enumerate_tours(n, m).unwrap();
        for pair in tours.windows(2) {
            assert!(pair[0] < pair[1]);
        }
    }
}

#[test]
fn the_count_is_the_length_of_the_list() {
    for (n, m) in [(2, 2), (3, 4), (4, 4), (4, 5), (5, 6)] {
        let tours = enumerate_tours(n, m).unwrap();
        assert_eq!(count_tours(n, m), Some(tours.len() as i64));
        assert_eq!(search(n, m).unwrap().solutions_counter, tours.len() as i64);
    }
}

#[test]
fn counts_are_the_numbers_of_closed_tours_in_either_orientation() {
    for (n, m) in [(2, 4), (4, 2), (3, 4), (4, 3), (4, 5), (5, 4), (6, 4), (4, 6), (6, 5)] {
        assert_eq!(count_tours(n, m), Some(count_by_exhaustion(n, m) as i64), "{} by {}", n, m);
    }
}

#[test]
fn the_list_holds_every_closed_tour() {
    // Every closed tour of the four by four grid, found by trying every path
    // that sets out from vertex 0 to vertex 1.
    fn extend(path: &mut Vec<usize>, visited: &mut Vec<bool>, all: &mut Vec<Vec<usize>>) {
        let v = *path.last().unwrap();
        if path.len() == 16 {
            if neighbours(4, 4, v).contains(&0) {
                all.push(path.clone());
            }
            return;
        }
        for w in neighbours(4, 4, v) {
            if !visited[w] {
                visited[w] = true;
                path.push(w);
                extend(path, visited, all);
                path.pop();
                visited[w] = false;
            }
        }
    }
    let mut visited = vec![false; 16];
    visited[0] = true;
    visited[1] = true;
    let mut all = Vec::new();
    extend(&mut vec![0, 1], &mut visited, &mut all);
    all.sort();
    assert_eq!(enumerate_tours(4, 4).unwrap(), all);
}

#[test]
fn every_board_has_a_tour() {
    for n in 2..=6 {
        for m in n..=7 {
            if n * m % 2 == 0 && n * m <= 36 {
                let count = count_tours(n, m).unwrap();
                assert!(count >= 1, "{} by {}", n, m);
                assert!(search(n, m).unwrap().solutions_counter >= 1);
            }
        }
    }
}
