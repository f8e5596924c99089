use cube_solver::cube::Cube;
use cube_solver::heuristic_table::parse_table_number;
use cube_solver::heuristic_table::HeuristicTable;
use cube_solver::heuristic_table::Table;
use cube_solver::solver::Solver;

#[test]
fn orientation_index_base_two() {
    assert_eq!(Solver::orientations_to_index(&vec![0; 12], 2), 0);
    assert_eq!(Solver::orientations_to_index(&vec![1, 0, 1], 2), 5);
    assert_eq!(
        Solver::orientations_to_index(&vec![1, 1, 1, 1, 1, 1, 1, 1, 1, 1, 1, 1], 2),
        4095
    );
}

#[test]
fn orientation_index_base_three() {
    assert_eq!(Solver::orientations_to_index(&vec![1, 2, 0], 3), 15);
    assert_eq!(Solver::orientations_to_index(&vec![2, 2, 2, 2, 2, 2, 2, 2], 3), 6560);
}

#[test]
fn orientation_index_distinguishes_arrays() {
    // Injectivity on a couple of near-identical arrays.
    let a = Solver::orientations_to_index(&vec![0, 1, 0, 0], 2);
    let b = Solver::orientations_to_index(&vec![0, 0, 1, 0], 2);
    assert_ne!(a, b);
    let c = Solver::orientations_to_index(&vec![1, 0, 2], 3);
    let d = Solver::orientations_to_index(&vec![1, 2, 0], 3);
    assert_ne!(c, d);
}

#[test]
fn combination_index_sorts_then_encodes() {
    assert_eq!(Solver::combinations_to_index(&vec![10, 2, 0, 8]), 10080200);
    assert_eq!(Solver::combinations_to_index(&vec![4, 5, 6, 7]), 7060504);
    assert_eq!(Solver::combinations_to_index(&vec![7, 6, 5, 4]), 7060504);
    assert_eq!(Solver::combinations_to_index(&vec![]), 0);
}

#[test]
fn g1_index_of_solved_cube() {
    let c = Cube::new();
    assert_eq!(Solver::get_g1_index(&c), 10080200 * 2187);
    assert!(Solver::is_solved_g1(&c));
}

#[test]
fn g1_index_changes_under_a_twisting_move() {
    let c = Cube::new().apply_sequence("r");
    assert!(!Solver::is_solved_g1(&c));
}

#[test]
fn solve_g0_on_solved_cube_is_empty() {
    let sol = Solver::solve_g0(Cube::new());
    assert!(sol.is_empty());
}

#[test]
fn solve_g0_after_one_front_turn() {
    let c = Cube::new().apply_sequence("f");
    let sol = Solver::solve_g0(c.clone());
    assert_eq!(sol.len(), 1);
    let mut fixed = c;
    for mv in &sol {
        fixed = fixed.apply_sequence(mv);
    }
    assert_eq!(fixed.edge_orientations, vec![0; 12]);
}

#[test]
fn solve_g0_returns_a_shortest_answer() {
    // Front and back turns flip disjoint edge rings, so one front and
    // one back turn leave eight flipped edges; a single move flips at
    // most four, hence no one-move answer exists and the search must
    // return exactly two moves.
    let c = Cube::new().apply_sequence("fb");
    let sol = Solver::solve_g0(c.clone());
    assert_eq!(sol.len(), 2);
    let mut fixed = c;
    for mv in &sol {
        fixed = fixed.apply_sequence(mv);
    }
    assert_eq!(fixed.edge_orientations, vec![0; 12]);
}

#[test]
fn solve_g0_restores_edge_orientation() {
    let scrambled = Cube::new().apply_sequence("dbfur'l'd");
    let sol = Solver::solve_g0(scrambled.clone());
    let mut fixed = scrambled;
    for mv in &sol {
        fixed = fixed.apply_sequence(mv);
    }
    assert_eq!(fixed.edge_orientations, vec![0; 12]);
}

#[test]
fn solve_g0_twice_returns_empty() {
    let scrambled = Cube::new().apply_sequence("dbfur'l'd");
    let sol = Solver::solve_g0(scrambled.clone());
    let mut fixed = scrambled;
    for mv in &sol {
        fixed = fixed.apply_sequence(mv);
    }
    let again = Solver::solve_g0(fixed);
    assert!(again.is_empty());
}

#[test]
fn solve_g0_uses_only_phase_zero_moves() {
    let scrambled = Cube::new().apply_sequence("fbr");
    let sol = Solver::solve_g0(scrambled);
    let allowed = ["u", "u'", "d", "d'", "l", "l'", "r", "r'", "f", "f'", "b", "b'"];
    for mv in &sol {
        assert!(allowed.contains(&mv.as_str()), "unexpected token {}", mv);
    }
}

#[test]
fn solve_g1_on_solved_cube_is_empty() {
    let sol = Solver::solve_g1(Cube::new());
    assert!(sol.is_empty());
}

#[test]
fn solve_g1_restores_phase_one() {
    let scrambled = Cube::new().apply_sequence("r l'");
    assert_eq!(scrambled.edge_orientations, vec![0; 12]);
    let sol = Solver::solve_g1(scrambled.clone());
    assert!(!sol.is_empty());
    let allowed = ["u", "u'", "d", "d'", "l", "l'", "r", "r'", "f2", "b2"];
    let mut fixed = scrambled;
    for mv in &sol {
        assert!(allowed.contains(&mv.as_str()), "unexpected token {}", mv);
        fixed = fixed.apply_sequence(mv);
    }
    assert!(Solver::is_solved_g1(&fixed));
    // The restricted move set never re-breaks the phase-0 goal.
    assert_eq!(fixed.edge_orientations, vec![0; 12]);
}

#[test]
fn solve_g1_places_displaced_slice_edges() {
    // An up quarter-turn pushes equatorial edges out of their slots
    // (slots 0 and 2 sit on the up ring) without flipping anything, so
    // phase 1 must move edges back through the equatorial slots.
    let scrambled = Cube::new().apply_sequence("u r");
    assert_eq!(scrambled.edge_orientations, vec![0; 12]);
    assert!(!Solver::is_solved_g1(&scrambled));
    let sol = Solver::solve_g1(scrambled.clone());
    assert!(!sol.is_empty());
    // Undoing the scramble takes two phase-1 tokens, so the optimal
    // answer has at most two moves.
    assert!(sol.len() <= 2);
    let mut fixed = scrambled;
    for mv in &sol {
        fixed = fixed.apply_sequence(mv);
    }
    assert!(Solver::is_solved_g1(&fixed));
    assert_eq!(fixed.edge_orientations, vec![0; 12]);
    // The four equatorial labels are back in the equatorial slots.
    let mut slice: Vec<u8> = vec![
        fixed.edge_permutations[0],
        fixed.edge_permutations[2],
        fixed.edge_permutations[8],
        fixed.edge_permutations[10],
    ];
    slice.sort();
    assert_eq!(slice, vec![0, 2, 8, 10]);
}

#[test]
fn solve_g0_reports_exhaustion_on_unsolvable_state() {
    // A single flipped edge cannot be fixed by legal moves: every move
    // flips an even number of edges, so the flip parity is invariant.
    // The search exhausts its coordinate space and reports no solution
    // as an empty move list.
    let mut c = Cube::new();
    c.edge_orientations = vec![1, 0, 0, 0, 0, 0, 0, 0, 0, 0, 0, 0];
    assert!(c.is_well_formed());
    let sol = Solver::solve_g0(c);
    assert!(sol.is_empty());
}

#[test]
fn table_set_and_get() {
    let mut t = Table::new_empty();
    assert_eq!(t.get(7), None);
    t.set(7, 3);
    t.set(9, 1);
    assert_eq!(t.get(7), Some(3));
    assert_eq!(t.get(9), Some(1));
    t.set(7, 4);
    assert_eq!(t.get(7), Some(4));
}

#[test]
fn table_to_pairs_lists_each_entry_once() {
    let mut t = Table::new_empty();
    t.set(5, 2);
    t.set(6, 1);
    t.set(5, 3);
    let mut pairs = t.to_pairs();
    pairs.sort();
    assert_eq!(pairs, vec![(5, 3), (6, 1)]);
}

#[test]
fn table_number_parsing() {
    assert_eq!(parse_table_number("0"), Some(0));
    assert_eq!(parse_table_number("123"), Some(123));
    assert_eq!(parse_table_number("0042"), Some(42));
    assert_eq!(parse_table_number("4294967295"), Some(u32::MAX));
    assert_eq!(parse_table_number("4294967296"), None);
    assert_eq!(parse_table_number(""), None);
    assert_eq!(parse_table_number("12x"), None);
    assert_eq!(parse_table_number("-3"), None);
    assert_eq!(parse_table_number("1 2"), None);
}

#[test]
fn build_g1_heuristics_records_goal_and_first_layer() {
    let table = HeuristicTable::build_g1_heuristics();
    assert_eq!(table.get(0), Some(0));
    // A coordinate outside the corner-orientation range is never recorded.
    assert_eq!(table.get(6561), None);
    // A single quarter-turn of the right face twists corners: its
    // coordinate sits in the first breadth-first layer.
    let c = Cube::new().apply_sequence("r");
    let k = Solver::orientations_to_index(&c.corner_orientations, 3);
    assert_ne!(k, 0);
    assert_eq!(table.get(k), Some(1));
}
