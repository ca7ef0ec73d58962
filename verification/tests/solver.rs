use fifteen_solver::board::Board;
use fifteen_solver::errors::SearchError;
use fifteen_solver::search::search_report;
use fifteen_solver::search::solve;
use fifteen_solver::state::State;

fn board(cells: &[u8]) -> Board {
    Board::new(cells.to_vec())
}

const GOAL: [u8; 16] = [1, 2, 3, 4, 5, 6, 7, 8, 9, 10, 11, 12, 13, 14, 15, 0];

/// Plays one move label on an arrangement, by the move table: the label
/// says where the blank slides, exchanging it with the neighbour there.
fn play(mut cells: [u8; 16], label: char) -> [u8; 16] {
    let blank = cells.iter().position(|&t| t == 0).unwrap();
    let target = match label {
        'l' => blank - 1,
        'r' => blank + 1,
        'u' => blank - 4,
        'd' => blank + 4,
        _ => panic!("unknown move label"),
    };
    cells.swap(blank, target);
    cells
}

/// Breadth-first search of the true shortest distances to the goal, out to
/// the given depth: the reference that the heuristic and the solver are
/// held against.
fn true_distances(depth: usize) -> Vec<([u8; 16], usize)> {
    let mut known: Vec<([u8; 16], usize)> = vec![(GOAL, 0)];
    let mut frontier: Vec<[u8; 16]> = vec![GOAL];
    for d in 1..=depth {
        let mut next: Vec<[u8; 16]> = Vec::new();
        for cells in &frontier {
            let blank = cells.iter().position(|&t| t == 0).unwrap();
            let mut labels: Vec<char> = Vec::new();
            if blank % 4 > 0 {
                labels.push('l');
            }
            if blank % 4 < 3 {
                labels.push('r');
            }
            if blank / 4 > 0 {
                labels.push('u');
            }
            if blank / 4 < 3 {
                labels.push('d');
            }
            for label in labels {
                let child = play(*cells, label);
                if !known.iter().any(|(s, _)| *s == child) {
                    known.push((child, d));
                    next.push(child);
                }
            }
        }
        frontier = next;
    }
    known
}

#[test]
fn solves_the_goal_in_zero_moves() {
    let sol = solve(&board(&GOAL), 1000).unwrap();
    assert_eq!(sol.length, 0);
    assert!(sol.moves.is_empty());
}

#[test]
fn rejects_a_duplicate_tile() {
    let mut cells = GOAL;
    cells[0] = 2;
    let r = solve(&board(&cells), 1000);
    assert_eq!(r.unwrap_err(), SearchError::InvalidStartState);
}

#[test]
fn rejects_an_out_of_range_tile() {
    let mut cells = GOAL;
    cells[3] = 16;
    assert_eq!(
        board(&cells).validate().unwrap_err(),
        SearchError::InvalidStartState
    );
}

#[test]
fn rejects_a_short_board() {
    let r = board(&[1, 2, 3, 0]).validate();
    assert_eq!(r.unwrap_err(), SearchError::InvalidStartState);
}

#[test]
fn blank_position_finds_the_unique_blank() {
    assert_eq!(board(&GOAL).blank_position().unwrap(), 15);
}

#[test]
fn blank_position_reports_a_corrupt_board() {
    let mut two_blanks = GOAL;
    two_blanks[0] = 0;
    assert_eq!(
        board(&two_blanks).blank_position().unwrap_err(),
        SearchError::CorruptState
    );
    let no_blank = [1u8, 2, 3, 4, 5, 6, 7, 8, 9, 10, 11, 12, 13, 14, 15, 15];
    assert_eq!(
        board(&no_blank).blank_position().unwrap_err(),
        SearchError::CorruptState
    );
}

#[test]
fn goal_test_matches_the_solved_arrangement() {
    assert!(board(&GOAL).is_goal());
    let one_off = play(GOAL, 'l');
    assert!(!board(&one_off).is_goal());
}

#[test]
fn heuristic_is_zero_only_at_the_goal_nearby() {
    assert_eq!(State::calc_g(&board(&GOAL)), 0);
    assert_eq!(State::calc_g(&board(&play(GOAL, 'l'))), 1);
    assert_eq!(State::calc_g(&board(&play(GOAL, 'u'))), 1);
}

#[test]
fn heuristic_exact_value_on_a_shifted_tail() {
    // 14 and 15 each one column from home.
    let cells = [1u8, 2, 3, 4, 5, 6, 7, 8, 9, 10, 11, 12, 13, 0, 14, 15];
    assert_eq!(State::calc_g(&board(&cells)), 2);
}

#[test]
fn heuristic_never_overestimates_small_cases() {
    for (cells, dist) in true_distances(4) {
        let h = State::calc_g(&board(&cells)) as usize;
        assert!(h <= dist);
    }
}

#[test]
fn solver_is_optimal_on_small_cases() {
    for (cells, dist) in true_distances(4) {
        let sol = solve(&board(&cells), 100000).unwrap();
        assert_eq!(sol.length, dist);
    }
}

#[test]
fn every_generated_arrangement_is_a_permutation() {
    for (cells, _) in true_distances(3) {
        let b = board(&cells);
        let node = State::init(&b);
        for child in node.children() {
            assert!(child.order.validate().is_ok());
            assert_eq!(child.g, node.g + 1);
            assert_eq!(child.f, child.g + child.h);
        }
    }
}

#[test]
fn no_arrangement_is_ever_reopened() {
    for (cells, _) in true_distances(5) {
        let sol = solve(&board(&cells), 100000).unwrap();
        assert_eq!(sol.reopened, 0);
    }
}

#[test]
fn returned_moves_replay_to_the_goal() {
    let mut start = GOAL;
    for label in ['u', 'u', 'l', 'l', 'd', 'r', 'u', 'l'] {
        start = play(start, label);
    }
    let sol = solve(&board(&start), 1000000).unwrap();
    let mut cells = start;
    for &label in &sol.moves {
        cells = play(cells, label);
    }
    assert_eq!(cells, GOAL);
    assert_eq!(sol.length, sol.moves.len());
}

#[test]
fn repeated_runs_return_identical_paths() {
    let mut start = GOAL;
    for label in ['l', 'u', 'r', 'u', 'l', 'l'] {
        start = play(start, label);
    }
    let first = solve(&board(&start), 1000000).unwrap();
    let second = solve(&board(&start), 1000000).unwrap();
    assert_eq!(first.moves, second.moves);
    assert_eq!(first.length, second.length);
}

#[test]
fn odd_parity_start_is_unsolvable() {
    // The classic unsolvable variant: 14 and 15 exchanged.
    let cells = [1u8, 2, 3, 4, 5, 6, 7, 8, 9, 10, 11, 12, 13, 15, 14, 0];
    assert_eq!(
        solve(&board(&cells), 1000000).unwrap_err(),
        SearchError::Unsolvable
    );
    // A single adjacent exchange of two tiles is odd as well.
    let swapped = [2u8, 1, 3, 4, 5, 6, 7, 8, 9, 10, 11, 12, 13, 14, 15, 0];
    assert_eq!(
        solve(&board(&swapped), 1000000).unwrap_err(),
        SearchError::Unsolvable
    );
}

#[test]
fn step_budget_is_honoured() {
    let start = play(play(GOAL, 'l'), 'u');
    assert_eq!(
        solve(&board(&start), 0).unwrap_err(),
        SearchError::StepLimitExceeded
    );
}

#[test]
fn budget_error_comes_with_a_full_expansion_count() {
    let start = play(play(GOAL, 'l'), 'u');
    let (expansions, r) = search_report(&board(&start), 0);
    assert_eq!(expansions, 0);
    assert_eq!(r.unwrap_err(), SearchError::StepLimitExceeded);
    let (worked, solved) = search_report(&board(&start), 100000);
    assert!(solved.is_ok());
    assert!(worked >= 1);
    assert!(worked <= 100000);
}

#[test]
fn shifted_tail_scenario() {
    // Blank two slides from home, 14 and 15 each one cell left of theirs:
    // the blank walks right twice.
    let start = [1u8, 2, 3, 4, 5, 6, 7, 8, 9, 10, 11, 12, 13, 0, 14, 15];
    let sol = solve(&board(&start), 100000).unwrap();
    assert_eq!(sol.length, 2);
    assert_eq!(sol.moves, vec!['r', 'r']);
    let mut cells = start;
    for &label in &sol.moves {
        cells = play(cells, label);
    }
    assert_eq!(cells, GOAL);
}

#[test]
fn rotated_arrangement_scenario() {
    // Every tile one cell behind its place: a sixteen-cycle, which is an
    // odd permutation while the blank's travel is even, so no move
    // sequence can solve it.
    let start = [0u8, 1, 2, 3, 4, 5, 6, 7, 8, 9, 10, 11, 12, 13, 14, 15];
    assert_eq!(
        solve(&board(&start), 1000000).unwrap_err(),
        SearchError::Unsolvable
    );
}

#[test]
fn find_index_locates_first_occurrence() {
    assert_eq!(State::find_index(&board(&GOAL), 0), 15);
    assert_eq!(State::find_index(&board(&GOAL), 1), 0);
    assert_eq!(State::find_index(&board(&GOAL), 7), 6);
}

#[test]
fn moves_swap_the_expected_cells() {
    let b = board(&[1u8, 2, 3, 4, 5, 6, 7, 8, 9, 10, 0, 12, 13, 14, 11, 15]);
    let (left, ll) = State::left(10, &b);
    assert_eq!(ll, 'l');
    assert_eq!(left.tiles[9], 0);
    assert_eq!(left.tiles[10], 10);
    let (right, rl) = State::right(10, &b);
    assert_eq!(rl, 'r');
    assert_eq!(right.tiles[11], 0);
    let (up, ul) = State::up(10, &b);
    assert_eq!(ul, 'u');
    assert_eq!(up.tiles[6], 0);
    let (down, dl) = State::down(10, &b);
    assert_eq!(dl, 'd');
    assert_eq!(down.tiles[14], 0);
    // The source board is untouched: successors are fresh copies.
    assert_eq!(b.tiles[10], 0);
}

#[test]
fn make_move_extends_the_path() {
    let b = board(&play(GOAL, 'u'));
    let node = State::init(&b);
    let child = node.make_move('d');
    assert_eq!(child.moves, vec!['d']);
    assert_eq!(child.g, 1);
    assert_eq!(child.h, 0);
    assert!(child.order.is_goal());
}

#[test]
fn children_come_in_fixed_order() {
    // Blank in the middle: all four moves, in the order l, r, u, d.
    let b = board(&[1u8, 2, 3, 4, 5, 0, 6, 8, 9, 10, 7, 11, 13, 14, 15, 12]);
    let labels: Vec<char> = State::init(&b)
        .children()
        .iter()
        .map(|c| *c.moves.last().unwrap())
        .collect();
    assert_eq!(labels, vec!['l', 'r', 'u', 'd']);
    // Blank in a corner: only two moves remain.
    let corner = board(&[0u8, 2, 3, 4, 5, 1, 6, 8, 9, 10, 7, 11, 13, 14, 15, 12]);
    let corner_labels: Vec<char> = State::init(&corner)
        .children()
        .iter()
        .map(|c| *c.moves.last().unwrap())
        .collect();
    assert_eq!(corner_labels, vec!['r', 'd']);
}

#[test]
fn duplicate_copies_the_arrangement() {
    let b = board(&GOAL);
    let copy = b.duplicate();
    assert_eq!(b.tiles, copy.tiles);
}

#[test]
fn canonical_key_packs_base_sixteen_digits() {
    // Sixteen tile values as nibbles, first cell most significant.
    assert_eq!(board(&GOAL).canonical_key(), 0x123456789ABCDEF0);
}

#[test]
fn inversion_count_exact_values() {
    assert_eq!(board(&GOAL).count_inversions(), 0);
    let one = [2u8, 1, 3, 4, 5, 6, 7, 8, 9, 10, 11, 12, 13, 14, 15, 0];
    assert_eq!(board(&one).count_inversions(), 1);
    let swapped_tail = [1u8, 2, 3, 4, 5, 6, 7, 8, 9, 10, 11, 12, 13, 15, 14, 0];
    assert_eq!(board(&swapped_tail).count_inversions(), 1);
}

#[test]
fn solvability_check_matches_parity() {
    assert!(board(&GOAL).check_solvable());
    assert!(board(&play(GOAL, 'l')).check_solvable());
    let swapped_tail = [1u8, 2, 3, 4, 5, 6, 7, 8, 9, 10, 11, 12, 13, 15, 14, 0];
    assert!(!board(&swapped_tail).check_solvable());
}

#[test]
fn canonical_key_depends_on_the_arrangement_alone() {
    let a = board(&GOAL);
    let b = board(&GOAL);
    assert_eq!(a.canonical_key(), b.canonical_key());
    let moved = board(&play(GOAL, 'l'));
    assert_ne!(a.canonical_key(), moved.canonical_key());
}
