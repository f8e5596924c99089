use cube_solver::cube::Cube;
use std::collections::HashSet;

fn scrambled() -> Cube {
    Cube::new().apply_sequence("dbfur'l'd")
}

#[test]
fn new_cube_is_solved() {
    let c = Cube::new();
    assert_eq!(c.corner_orientations, vec![0; 8]);
    assert_eq!(c.corner_permutations, vec![0, 1, 2, 3, 4, 5, 6, 7]);
    assert_eq!(c.edge_orientations, vec![0; 12]);
    assert_eq!(c.edge_permutations, vec![0, 1, 2, 3, 4, 5, 6, 7, 8, 9, 10, 11]);
}

#[test]
fn four_quarter_turns_restore_solved() {
    for face in ["u", "d", "l", "r", "f", "b"] {
        let seq = face.repeat(4);
        let c = Cube::new().apply_sequence(&seq);
        assert_eq!(c, Cube::new(), "four {} turns must restore the cube", face);
    }
}

#[test]
fn four_quarter_turns_restore_any_cube() {
    for face in ["u", "d", "l", "r", "f", "b"] {
        let seq = face.repeat(4);
        let c = scrambled().apply_sequence(&seq);
        assert_eq!(c, scrambled(), "four {} turns must restore the cube", face);
    }
}

#[test]
fn quarter_turn_then_inverse_restores() {
    for mv in ["u", "d", "l", "r", "f", "b"] {
        let there_and_back = format!("{}{}'", mv, mv);
        let c = scrambled().apply_sequence(&there_and_back);
        assert_eq!(c, scrambled(), "{} then its inverse must restore the cube", mv);
    }
}

#[test]
fn half_turn_then_inverse_restores() {
    for mv in ["u2", "d2", "l2", "r2", "f2", "b2"] {
        let c = scrambled().apply_sequence(mv).apply_sequence(mv);
        assert_eq!(c, scrambled(), "{} twice must restore the cube", mv);
    }
}

#[test]
fn prime_half_turn_equals_half_turn() {
    // The inverse of a half-turn is the same half-turn.
    let a = scrambled().apply_sequence("u2");
    let b = scrambled().apply_sequence("u'2");
    assert_eq!(a, b);
}

#[test]
fn half_turn_is_two_quarter_turns() {
    let a = scrambled().apply_sequence("f2");
    let b = scrambled().apply_sequence("ff");
    assert_eq!(a, b);
}

#[test]
fn permutations_stay_bijections() {
    let mut c = Cube::new();
    assert!(c.is_well_formed());
    for mv in ["u", "d'", "l", "r'", "f", "b'", "u2", "f2", "b", "l'"] {
        c = c.apply_sequence(mv);
        assert!(c.is_well_formed(), "invariant broken after {}", mv);
        let mut corner_seen = [false; 8];
        for &p in &c.corner_permutations {
            assert!(!corner_seen[p as usize], "corner label repeated");
            corner_seen[p as usize] = true;
        }
        let mut edge_seen = [false; 12];
        for &p in &c.edge_permutations {
            assert!(!edge_seen[p as usize], "edge label repeated");
            edge_seen[p as usize] = true;
        }
    }
}

#[test]
fn is_well_formed_rejects_broken_state() {
    let mut c = Cube::new();
    c.corner_permutations = vec![0, 0, 2, 3, 4, 5, 6, 7];
    assert!(!c.is_well_formed());
    let mut c = Cube::new();
    c.edge_orientations = vec![2, 0, 0, 0, 0, 0, 0, 0, 0, 0, 0, 0];
    assert!(!c.is_well_formed());
    let mut c = Cube::new();
    c.corner_orientations = vec![0; 7];
    assert!(!c.is_well_formed());
}

#[test]
fn front_turn_flips_touched_edges() {
    let c = Cube::new().apply_sequence("f");
    // The front ring holds the edge slots UF (0), FR (4), FL (5), DF (8):
    // exactly those four flip.
    assert_eq!(c.edge_orientations, vec![1, 0, 0, 0, 1, 1, 0, 0, 1, 0, 0, 0]);
    // The touched corners twist by the alternating 1/2 pattern.
    assert_eq!(c.corner_orientations, vec![1, 2, 0, 0, 2, 1, 0, 0]);
}

#[test]
fn back_turn_flips_touched_edges() {
    let c = Cube::new().apply_sequence("b");
    // The back ring holds the edge slots UB (2), BL (6), BR (7), DB (10).
    assert_eq!(c.edge_orientations, vec![0, 0, 1, 0, 0, 0, 1, 1, 0, 0, 1, 0]);
}

#[test]
fn up_and_down_turns_keep_edge_orientation() {
    for mv in ["u", "u'", "d", "d'", "l", "l'", "r", "r'"] {
        let c = Cube::new().apply_sequence(mv);
        assert_eq!(c.edge_orientations, vec![0; 12], "{} must not flip edges", mv);
    }
}

#[test]
fn up_and_down_turns_add_no_corner_twist() {
    // Only the four side faces twist corners; an up or down turn leaves
    // every corner orientation value zero on the solved cube.
    for mv in ["u", "u'", "d", "d'", "u2", "d2"] {
        let c = Cube::new().apply_sequence(mv);
        assert_eq!(c.corner_orientations, vec![0; 8], "{} must not twist corners", mv);
    }
}

#[test]
fn orientation_values_ride_along_the_ring() {
    // A twist parked at a ring slot travels with its cubie: the down
    // ring is 7,6,5,4, so a clockwise turn carries slot 7 to slot 6.
    let mut c = Cube::new();
    c.corner_orientations = vec![0, 0, 0, 0, 0, 0, 0, 1];
    let c = c.apply_sequence("d");
    assert_eq!(c.corner_orientations, vec![0, 0, 0, 0, 0, 0, 1, 0]);
    // The up edge ring is 0,1,2,3: a clockwise turn carries slot 0 to
    // slot 1 without toggling the flip.
    let mut c = Cube::new();
    c.edge_orientations = vec![1, 0, 0, 0, 0, 0, 0, 0, 0, 0, 0, 0];
    let c = c.apply_sequence("u");
    assert_eq!(c.edge_orientations, vec![0, 1, 0, 0, 0, 0, 0, 0, 0, 0, 0, 0]);
}

#[test]
fn parser_skips_spaces_and_unknown_characters() {
    let plain = Cube::new().apply_sequence("f");
    assert_eq!(Cube::new().apply_sequence("  f "), plain);
    assert_eq!(Cube::new().apply_sequence("x!f,"), plain);
    let prime = Cube::new().apply_sequence("f'");
    assert_eq!(Cube::new().apply_sequence("f  '"), prime);
}

#[test]
fn parser_accepts_upper_case() {
    assert_eq!(Cube::new().apply_sequence("F"), Cube::new().apply_sequence("f"));
    assert_eq!(Cube::new().apply_sequence("R'U2"), Cube::new().apply_sequence("r'u2"));
}

#[test]
fn cube_equality_and_hashing() {
    let a = scrambled();
    let b = scrambled();
    assert_eq!(a, b);
    assert_ne!(a, Cube::new());
    let mut seen: HashSet<Cube> = HashSet::new();
    assert!(seen.insert(a));
    assert!(!seen.insert(b));
    assert!(seen.insert(Cube::new()));
}
