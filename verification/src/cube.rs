//! Cube state model and move engine.
//!
//! A cube is an immutable aggregate of four arrays: corner orientations
//! (8 values in {0,1,2}), corner permutation (a bijection on the 8 corner
//! slots), edge orientations (12 values in {0,1}) and edge permutation
//! (a bijection on the 12 edge slots).
//!
//! Corner slots: 0 URF, 1 UFL, 2 ULB, 3 UBR, 4 DRF, 5 DFL, 6 DLB, 7 DBR.
//! Edge slots: 0 UF, 1 UL, 2 UB, 3 UR, 4 FR, 5 FL, 6 BL, 7 BR,
//! 8 DF, 9 DL, 10 DB, 11 DR.
//!
//! Every move produces a new value; nothing is mutated in place.

use vstd::prelude::*;
use vstd::string::StrSliceExecFns;

verus! {

/// Mathematical model of a cube state: the four arrays as sequences.
#[verifier::ext_equal]
pub struct CubeView {
    pub corner_orientations: Seq<u8>,
    pub corner_permutations: Seq<u8>,
    pub edge_orientations: Seq<u8>,
    pub edge_permutations: Seq<u8>,
}

/// `s` is a permutation of the slot labels `0 .. n`: every entry is a
/// label below `n` and no label repeats, hence none is missing either.
pub open spec fn is_permutation(s: Seq<u8>, n: nat) -> bool {
    &&& s.len() == n
    &&& forall|i: int| 0 <= i < s.len() ==> s[i] < n
    &&& forall|i: int, j: int| 0 <= i < j < s.len() ==> s[i] != s[j]
}

/// `s` holds `n` orientation digits, each below `modulus`.
pub open spec fn all_below(s: Seq<u8>, n: nat, modulus: u8) -> bool {
    &&& s.len() == n
    &&& forall|i: int| 0 <= i < s.len() ==> s[i] < modulus
}

impl CubeView {
    /// The algebraic invariant of a cube state: both permutation arrays are
    /// bijections on their slot labels, and every orientation value is
    /// within its modulus.
    pub open spec fn wf(self) -> bool {
        &&& all_below(self.corner_orientations, 8, 3)
        &&& is_permutation(self.corner_permutations, 8)
        &&& all_below(self.edge_orientations, 12, 2)
        &&& is_permutation(self.edge_permutations, 12)
    }

    /// The solved state: identity permutations, zero orientations.
    pub open spec fn solved() -> CubeView {
        CubeView {
            corner_orientations: Seq::new(8, |i: int| 0u8),
            corner_permutations: Seq::new(8, |i: int| i as u8),
            edge_orientations: Seq::new(12, |i: int| 0u8),
            edge_permutations: Seq::new(12, |i: int| i as u8),
        }
    }
}

/// One quarter-turn of the ring `a, b, c, d` (listed in clockwise order):
/// each ring slot receives the entry of its clockwise predecessor, and a
/// counter-clockwise turn receives from the successor instead.
pub open spec fn permute4(s: Seq<u8>, a: int, b: int, c: int, d: int, clockwise: bool) -> Seq<u8> {
    if clockwise {
        s.update(a, s[d]).update(b, s[a]).update(c, s[b]).update(d, s[c])
    } else {
        s.update(a, s[b]).update(b, s[c]).update(c, s[d]).update(d, s[a])
    }
}

/// An orientation digit incremented by `k`, modulo 3.
pub open spec fn inc3(x: u8, k: u8) -> u8 {
    (((x + k) % 3) as u8)
}

/// The corner twist of a side-face turn (left, right, front or back):
/// around the turning ring `a, b, c, d`, the first and third slots gain
/// 1 (mod 3) and the second and fourth gain 2 (mod 3), so a full ring
/// gains 6 == 0 (mod 3) in total.  Up and down turns apply no twist.
pub open spec fn twist4(s: Seq<u8>, a: int, b: int, c: int, d: int) -> Seq<u8> {
    s.update(a, inc3(s[a], 1)).update(b, inc3(s[b], 2)).update(c, inc3(s[c], 1)).update(
        d,
        inc3(s[d], 2),
    )
}

/// The edge flip of a front or back turn: every edge on the ring toggles
/// its orientation (mod 2).
pub open spec fn flip4(s: Seq<u8>, a: int, b: int, c: int, d: int) -> Seq<u8> {
    s.update(a, (((s[a] + 1) % 2) as u8)).update(b, (((s[b] + 1) % 2) as u8)).update(
        c,
        (((s[c] + 1) % 2) as u8),
    ).update(d, (((s[d] + 1) % 2) as u8))
}

/// A fresh copy of a byte vector, equal to the original element by element.
pub(crate) fn copy_values(v: &Vec<u8>) -> (r: Vec<u8>)
    ensures
        r@ == v@,
{
    let mut r: Vec<u8> = Vec::new();
    let mut i: usize = 0;
    while i < v.len()
        invariant
            i <= v.len(),
            r@ == v@.subrange(0, i as int),
        decreases v.len() - i,
    {
        r.push(v[i]);
        i = i + 1;
    }
    proof {
        assert(v@.subrange(0, v@.len() as int) =~= v@);
    }
    r
}

/// Rotates the four entries at `a, b, c, d` (a ring listed in clockwise
/// order) one step clockwise or counter-clockwise; all other entries are
/// unchanged.
pub fn _permute(permutation: &Vec<u8>, a: usize, b: usize, c: usize, d: usize, clockwise: bool) -> (r: Vec<u8>)
    requires
        a < permutation.len(),
        b < permutation.len(),
        c < permutation.len(),
        d < permutation.len(),
    ensures
        r@ == permute4(permutation@, a as int, b as int, c as int, d as int, clockwise),
{
    let mut r = copy_values(permutation);
    if clockwise {
        r.set(a, permutation[d]);
        r.set(b, permutation[a]);
        r.set(c, permutation[b]);
        r.set(d, permutation[c]);
    } else {
        r.set(a, permutation[b]);
        r.set(b, permutation[c]);
        r.set(c, permutation[d]);
        r.set(d, permutation[a]);
    }
    r
}

/// Applies the corner twist of a turning ring: the slots `a` and `c` gain
/// 1 (mod 3), the slots `b` and `d` gain 2 (mod 3).
pub fn _orient_corners(corner_orientations: &Vec<u8>, a: usize, b: usize, c: usize, d: usize) -> (r: Vec<u8>)
    requires
        a < corner_orientations.len(),
        b < corner_orientations.len(),
        c < corner_orientations.len(),
        d < corner_orientations.len(),
        forall|i: int| 0 <= i < corner_orientations@.len() ==> corner_orientations@[i] < 3,
    ensures
        r@ == twist4(corner_orientations@, a as int, b as int, c as int, d as int),
{
    let mut r = copy_values(corner_orientations);
    r.set(a, (corner_orientations[a] + 1) % 3);
    r.set(b, (corner_orientations[b] + 2) % 3);
    r.set(c, (corner_orientations[c] + 1) % 3);
    r.set(d, (corner_orientations[d] + 2) % 3);
    r
}

/// A quarter-turn of a ring keeps a permutation a permutation: the four
/// ring slots exchange their labels and every other slot keeps its own.
pub proof fn lemma_permute4_is_permutation(
    s: Seq<u8>,
    a: int,
    b: int,
    c: int,
    d: int,
    clockwise: bool,
    n: nat,
)
    requires
        is_permutation(s, n),
        0 <= a < n,
        0 <= b < n,
        0 <= c < n,
        0 <= d < n,
        a != b,
        a != c,
        a != d,
        b != c,
        b != d,
        c != d,
    ensures
        is_permutation(permute4(s, a, b, c, d, clockwise), n),
{
    let p = permute4(s, a, b, c, d, clockwise);
    assert forall|i: int| 0 <= i < p.len() implies p[i] < n by {}
    assert forall|i: int, j: int| 0 <= i < j < p.len() implies p[i] != p[j] by {}
}

/// A quarter-turn of a ring only moves values around, so an array whose
/// values all lie below a bound keeps that property.
pub proof fn lemma_permute4_below(
    s: Seq<u8>,
    a: int,
    b: int,
    c: int,
    d: int,
    clockwise: bool,
    n: nat,
    modulus: u8,
)
    requires
        all_below(s, n, modulus),
        0 <= a < n,
        0 <= b < n,
        0 <= c < n,
        0 <= d < n,
    ensures
        all_below(permute4(s, a, b, c, d, clockwise), n, modulus),
{
}

/// The corner twist keeps every orientation value below 3.
pub proof fn lemma_twist4_below(s: Seq<u8>, a: int, b: int, c: int, d: int, n: nat)
    requires
        all_below(s, n, 3),
        0 <= a < n,
        0 <= b < n,
        0 <= c < n,
        0 <= d < n,
    ensures
        all_below(twist4(s, a, b, c, d), n, 3),
{
}

/// The edge flip keeps every orientation value below 2.
pub proof fn lemma_flip4_below(s: Seq<u8>, a: int, b: int, c: int, d: int, n: nat)
    requires
        all_below(s, n, 2),
        0 <= a < n,
        0 <= b < n,
        0 <= c < n,
        0 <= d < n,
    ensures
        all_below(flip4(s, a, b, c, d), n, 2),
{
}

/// Toggles the edge orientation (mod 2) of the four edges on a turning
/// ring.
pub fn _flip_edges(edge_orientations: &Vec<u8>, a: usize, b: usize, c: usize, d: usize) -> (r: Vec<u8>)
    requires
        a < edge_orientations.len(),
        b < edge_orientations.len(),
        c < edge_orientations.len(),
        d < edge_orientations.len(),
        forall|i: int| 0 <= i < edge_orientations@.len() ==> edge_orientations@[i] < 2,
    ensures
        r@ == flip4(edge_orientations@, a as int, b as int, c as int, d as int),
{
    let mut r = copy_values(edge_orientations);
    r.set(a, (edge_orientations[a] + 1) % 2);
    r.set(b, (edge_orientations[b] + 1) % 2);
    r.set(c, (edge_orientations[c] + 1) % 2);
    r.set(d, (edge_orientations[d] + 1) % 2);
    r
}

/// An up-face quarter-turn: corner ring 0,1,2,3 and edge ring 0,1,2,3.
/// Up and down turns never change an orientation value: each value only
/// rides along with its cubie around the ring.
pub open spec fn spec_u(v: CubeView, clockwise: bool) -> CubeView {
    CubeView {
        corner_orientations: permute4(v.corner_orientations, 0, 1, 2, 3, clockwise),
        corner_permutations: permute4(v.corner_permutations, 0, 1, 2, 3, clockwise),
        edge_orientations: permute4(v.edge_orientations, 0, 1, 2, 3, clockwise),
        edge_permutations: permute4(v.edge_permutations, 0, 1, 2, 3, clockwise),
    }
}

/// A down-face quarter-turn: corner ring 7,6,5,4 and edge ring 11,10,9,8.
/// As with the up face, orientation values ride along unchanged.
pub open spec fn spec_d(v: CubeView, clockwise: bool) -> CubeView {
    CubeView {
        corner_orientations: permute4(v.corner_orientations, 7, 6, 5, 4, clockwise),
        corner_permutations: permute4(v.corner_permutations, 7, 6, 5, 4, clockwise),
        edge_orientations: permute4(v.edge_orientations, 11, 10, 9, 8, clockwise),
        edge_permutations: permute4(v.edge_permutations, 11, 10, 9, 8, clockwise),
    }
}

/// A left-face quarter-turn: corner ring 2,1,5,6 and edge ring 1,5,9,6;
/// the side faces twist their ring corners, edge flips ride along.
pub open spec fn spec_l(v: CubeView, clockwise: bool) -> CubeView {
    CubeView {
        corner_orientations: permute4(twist4(v.corner_orientations, 2, 1, 5, 6), 2, 1, 5, 6, clockwise),
        corner_permutations: permute4(v.corner_permutations, 2, 1, 5, 6, clockwise),
        edge_orientations: permute4(v.edge_orientations, 1, 5, 9, 6, clockwise),
        edge_permutations: permute4(v.edge_permutations, 1, 5, 9, 6, clockwise),
    }
}

/// A right-face quarter-turn: corner ring 0,3,7,4 and edge ring 3,7,11,4;
/// the side faces twist their ring corners, edge flips ride along.
pub open spec fn spec_r(v: CubeView, clockwise: bool) -> CubeView {
    CubeView {
        corner_orientations: permute4(twist4(v.corner_orientations, 0, 3, 7, 4), 0, 3, 7, 4, clockwise),
        corner_permutations: permute4(v.corner_permutations, 0, 3, 7, 4, clockwise),
        edge_orientations: permute4(v.edge_orientations, 3, 7, 11, 4, clockwise),
        edge_permutations: permute4(v.edge_permutations, 3, 7, 11, 4, clockwise),
    }
}

/// A front-face quarter-turn: corner ring 1,0,4,5 and edge ring 0,4,8,5;
/// the four ring edges toggle their orientation.
pub open spec fn spec_f(v: CubeView, clockwise: bool) -> CubeView {
    CubeView {
        corner_orientations: permute4(twist4(v.corner_orientations, 1, 0, 4, 5), 1, 0, 4, 5, clockwise),
        corner_permutations: permute4(v.corner_permutations, 1, 0, 4, 5, clockwise),
        edge_orientations: permute4(flip4(v.edge_orientations, 0, 4, 8, 5), 0, 4, 8, 5, clockwise),
        edge_permutations: permute4(v.edge_permutations, 0, 4, 8, 5, clockwise),
    }
}

/// A back-face quarter-turn: corner ring 3,2,6,7 and edge ring 2,6,10,7;
/// the four ring edges toggle their orientation.
pub open spec fn spec_b(v: CubeView, clockwise: bool) -> CubeView {
    CubeView {
        corner_orientations: permute4(twist4(v.corner_orientations, 3, 2, 6, 7), 3, 2, 6, 7, clockwise),
        corner_permutations: permute4(v.corner_permutations, 3, 2, 6, 7, clockwise),
        edge_orientations: permute4(flip4(v.edge_orientations, 2, 6, 10, 7), 2, 6, 10, 7, clockwise),
        edge_permutations: permute4(v.edge_permutations, 2, 6, 10, 7, clockwise),
    }
}

/// The twelve letters (upper or lower case) that name a face in move
/// notation.
pub open spec fn is_face_char(face: char) -> bool {
    ||| face == 'u'
    ||| face == 'U'
    ||| face == 'd'
    ||| face == 'D'
    ||| face == 'l'
    ||| face == 'L'
    ||| face == 'r'
    ||| face == 'R'
    ||| face == 'f'
    ||| face == 'F'
    ||| face == 'b'
    ||| face == 'B'
}

/// One quarter-turn of the named face; a letter that names no face leaves
/// the cube unchanged.
pub open spec fn spec_quarter(v: CubeView, face: char, clockwise: bool) -> CubeView {
    if face == 'u' || face == 'U' {
        spec_u(v, clockwise)
    } else if face == 'd' || face == 'D' {
        spec_d(v, clockwise)
    } else if face == 'l' || face == 'L' {
        spec_l(v, clockwise)
    } else if face == 'r' || face == 'R' {
        spec_r(v, clockwise)
    } else if face == 'f' || face == 'F' {
        spec_f(v, clockwise)
    } else if face == 'b' || face == 'B' {
        spec_b(v, clockwise)
    } else {
        v
    }
}

/// A move: a quarter-turn of the face (counter-clockwise when `prime`),
/// and a half-turn is that same quarter-turn applied twice, never a
/// separate primitive.
pub open spec fn spec_apply_move(v: CubeView, face: char, prime: bool, half_turn: bool) -> CubeView {
    let turned = spec_quarter(v, face, !prime);
    if half_turn {
        spec_quarter(turned, face, !prime)
    } else {
        turned
    }
}

/// Every quarter-turn preserves the cube invariant: the permutations stay
/// bijections and the orientations stay within their moduli.
pub proof fn lemma_quarter_wf(v: CubeView, face: char, clockwise: bool)
    requires
        v.wf(),
    ensures
        spec_quarter(v, face, clockwise).wf(),
{
    if face == 'u' || face == 'U' {
        lemma_permute4_below(v.corner_orientations, 0, 1, 2, 3, clockwise, 8, 3);
        lemma_permute4_is_permutation(v.corner_permutations, 0, 1, 2, 3, clockwise, 8);
        lemma_permute4_below(v.edge_orientations, 0, 1, 2, 3, clockwise, 12, 2);
        lemma_permute4_is_permutation(v.edge_permutations, 0, 1, 2, 3, clockwise, 12);
    } else if face == 'd' || face == 'D' {
        lemma_permute4_below(v.corner_orientations, 7, 6, 5, 4, clockwise, 8, 3);
        lemma_permute4_is_permutation(v.corner_permutations, 7, 6, 5, 4, clockwise, 8);
        lemma_permute4_below(v.edge_orientations, 11, 10, 9, 8, clockwise, 12, 2);
        lemma_permute4_is_permutation(v.edge_permutations, 11, 10, 9, 8, clockwise, 12);
    } else if face == 'l' || face == 'L' {
        lemma_twist4_below(v.corner_orientations, 2, 1, 5, 6, 8);
        lemma_permute4_below(twist4(v.corner_orientations, 2, 1, 5, 6), 2, 1, 5, 6, clockwise, 8, 3);
        lemma_permute4_is_permutation(v.corner_permutations, 2, 1, 5, 6, clockwise, 8);
        lemma_permute4_below(v.edge_orientations, 1, 5, 9, 6, clockwise, 12, 2);
        lemma_permute4_is_permutation(v.edge_permutations, 1, 5, 9, 6, clockwise, 12);
    } else if face == 'r' || face == 'R' {
        lemma_twist4_below(v.corner_orientations, 0, 3, 7, 4, 8);
        lemma_permute4_below(twist4(v.corner_orientations, 0, 3, 7, 4), 0, 3, 7, 4, clockwise, 8, 3);
        lemma_permute4_is_permutation(v.corner_permutations, 0, 3, 7, 4, clockwise, 8);
        lemma_permute4_below(v.edge_orientations, 3, 7, 11, 4, clockwise, 12, 2);
        lemma_permute4_is_permutation(v.edge_permutations, 3, 7, 11, 4, clockwise, 12);
    } else if face == 'f' || face == 'F' {
        lemma_twist4_below(v.corner_orientations, 1, 0, 4, 5, 8);
        lemma_permute4_below(twist4(v.corner_orientations, 1, 0, 4, 5), 1, 0, 4, 5, clockwise, 8, 3);
        lemma_permute4_is_permutation(v.corner_permutations, 1, 0, 4, 5, clockwise, 8);
        lemma_flip4_below(v.edge_orientations, 0, 4, 8, 5, 12);
        lemma_permute4_below(flip4(v.edge_orientations, 0, 4, 8, 5), 0, 4, 8, 5, clockwise, 12, 2);
        lemma_permute4_is_permutation(v.edge_permutations, 0, 4, 8, 5, clockwise, 12);
    } else if face == 'b' || face == 'B' {
        lemma_twist4_below(v.corner_orientations, 3, 2, 6, 7, 8);
        lemma_permute4_below(twist4(v.corner_orientations, 3, 2, 6, 7), 3, 2, 6, 7, clockwise, 8, 3);
        lemma_permute4_is_permutation(v.corner_permutations, 3, 2, 6, 7, clockwise, 8);
        lemma_flip4_below(v.edge_orientations, 2, 6, 10, 7, 12);
        lemma_permute4_below(flip4(v.edge_orientations, 2, 6, 10, 7), 2, 6, 10, 7, clockwise, 12, 2);
        lemma_permute4_is_permutation(v.edge_permutations, 2, 6, 10, 7, clockwise, 12);
    }
}

/// Every move preserves the cube invariant.
pub proof fn lemma_apply_move_wf(v: CubeView, face: char, prime: bool, half_turn: bool)
    requires
        v.wf(),
    ensures
        spec_apply_move(v, face, prime, half_turn).wf(),
{
    lemma_quarter_wf(v, face, !prime);
    if half_turn {
        lemma_quarter_wf(spec_quarter(v, face, !prime), face, !prime);
    }
}

/// The cube state: four fixed-length arrays, kept as byte vectors whose
/// well-formedness is stated by `CubeView::wf`.
#[derive(Debug, Eq, Hash)]
pub struct Cube {
    pub corner_orientations: Vec<u8>,
    pub corner_permutations: Vec<u8>,
    pub edge_orientations: Vec<u8>,
    pub edge_permutations: Vec<u8>,
}

impl View for Cube {
    type V = CubeView;

    open spec fn view(&self) -> CubeView {
        CubeView {
            corner_orientations: self.corner_orientations@,
            corner_permutations: self.corner_permutations@,
            edge_orientations: self.edge_orientations@,
            edge_permutations: self.edge_permutations@,
        }
    }
}

impl Clone for Cube {
    /// A clone carries exactly the same state.
    fn clone(&self) -> (r: Cube)
        ensures
            r@ == self@,
    {
        Cube {
            corner_orientations: copy_values(&self.corner_orientations),
            corner_permutations: copy_values(&self.corner_permutations),
            edge_orientations: copy_values(&self.edge_orientations),
            edge_permutations: copy_values(&self.edge_permutations),
        }
    }
}

impl Cube {
    /// The solved cube: identity permutations, zero orientations.
    pub fn new() -> (r: Cube)
        ensures
            r@ == CubeView::solved(),
            r@.wf(),
    {
        let r = Cube {
            corner_orientations: vec![0, 0, 0, 0, 0, 0, 0, 0],
            corner_permutations: vec![0, 1, 2, 3, 4, 5, 6, 7],
            edge_orientations: vec![0, 0, 0, 0, 0, 0, 0, 0, 0, 0, 0, 0],
            edge_permutations: vec![0, 1, 2, 3, 4, 5, 6, 7, 8, 9, 10, 11],
        };
        proof {
            assert(r@.corner_orientations =~= CubeView::solved().corner_orientations);
            assert(r@.corner_permutations =~= CubeView::solved().corner_permutations);
            assert(r@.edge_orientations =~= CubeView::solved().edge_orientations);
            assert(r@.edge_permutations =~= CubeView::solved().edge_permutations);
        }
        r
    }

    /// An up-face quarter-turn.
    pub fn u(self, clockwise: bool) -> (r: Cube)
        requires
            self@.wf(),
        ensures
            r@ == spec_u(self@, clockwise),
            r@.wf(),
    {
        proof {
            lemma_quarter_wf(self@, 'u', clockwise);
        }
        Cube {
            corner_orientations: _permute(&self.corner_orientations, 0, 1, 2, 3, clockwise),
            corner_permutations: _permute(&self.corner_permutations, 0, 1, 2, 3, clockwise),
            edge_orientations: _permute(&self.edge_orientations, 0, 1, 2, 3, clockwise),
            edge_permutations: _permute(&self.edge_permutations, 0, 1, 2, 3, clockwise),
        }
    }

    /// A down-face quarter-turn.
    pub fn d(self, clockwise: bool) -> (r: Cube)
        requires
            self@.wf(),
        ensures
            r@ == spec_d(self@, clockwise),
            r@.wf(),
    {
        proof {
            lemma_quarter_wf(self@, 'd', clockwise);
        }
        Cube {
            corner_orientations: _permute(&self.corner_orientations, 7, 6, 5, 4, clockwise),
            corner_permutations: _permute(&self.corner_permutations, 7, 6, 5, 4, clockwise),
            edge_orientations: _permute(&self.edge_orientations, 11, 10, 9, 8, clockwise),
            edge_permutations: _permute(&self.edge_permutations, 11, 10, 9, 8, clockwise),
        }
    }

    /// A left-face quarter-turn.
    pub fn l(self, clockwise: bool) -> (r: Cube)
        requires
            self@.wf(),
        ensures
            r@ == spec_l(self@, clockwise),
            r@.wf(),
    {
        proof {
            lemma_quarter_wf(self@, 'l', clockwise);
        }
        Cube {
            corner_orientations: _permute(
                &_orient_corners(&self.corner_orientations, 2, 1, 5, 6),
                2,
                1,
                5,
                6,
                clockwise,
            ),
            corner_permutations: _permute(&self.corner_permutations, 2, 1, 5, 6, clockwise),
            edge_orientations: _permute(&self.edge_orientations, 1, 5, 9, 6, clockwise),
            edge_permutations: _permute(&self.edge_permutations, 1, 5, 9, 6, clockwise),
        }
    }

    /// A right-face quarter-turn.
    pub fn r(self, clockwise: bool) -> (r: Cube)
        requires
            self@.wf(),
        ensures
            r@ == spec_r(self@, clockwise),
            r@.wf(),
    {
        proof {
            lemma_quarter_wf(self@, 'r', clockwise);
        }
        Cube {
            corner_orientations: _permute(
                &_orient_corners(&self.corner_orientations, 0, 3, 7, 4),
                0,
                3,
                7,
                4,
                clockwise,
            ),
            corner_permutations: _permute(&self.corner_permutations, 0, 3, 7, 4, clockwise),
            edge_orientations: _permute(&self.edge_orientations, 3, 7, 11, 4, clockwise),
            edge_permutations: _permute(&self.edge_permutations, 3, 7, 11, 4, clockwise),
        }
    }

    /// A front-face quarter-turn.
    pub fn f(self, clockwise: bool) -> (r: Cube)
        requires
            self@.wf(),
        ensures
            r@ == spec_f(self@, clockwise),
            r@.wf(),
    {
        proof {
            lemma_quarter_wf(self@, 'f', clockwise);
        }
        Cube {
            corner_orientations: _permute(
                &_orient_corners(&self.corner_orientations, 1, 0, 4, 5),
                1,
                0,
                4,
                5,
                clockwise,
            ),
            corner_permutations: _permute(&self.corner_permutations, 1, 0, 4, 5, clockwise),
            edge_orientations: _permute(
                &_flip_edges(&self.edge_orientations, 0, 4, 8, 5),
                0,
                4,
                8,
                5,
                clockwise,
            ),
            edge_permutations: _permute(&self.edge_permutations, 0, 4, 8, 5, clockwise),
        }
    }

    /// A back-face quarter-turn.
    pub fn b(self, clockwise: bool) -> (r: Cube)
        requires
            self@.wf(),
        ensures
            r@ == spec_b(self@, clockwise),
            r@.wf(),
    {
        proof {
            lemma_quarter_wf(self@, 'b', clockwise);
        }
        Cube {
            corner_orientations: _permute(
                &_orient_corners(&self.corner_orientations, 3, 2, 6, 7),
                3,
                2,
                6,
                7,
                clockwise,
            ),
            corner_permutations: _permute(&self.corner_permutations, 3, 2, 6, 7, clockwise),
            edge_orientations: _permute(
                &_flip_edges(&self.edge_orientations, 2, 6, 10, 7),
                2,
                6,
                10,
                7,
                clockwise,
            ),
            edge_permutations: _permute(&self.edge_permutations, 2, 6, 10, 7, clockwise),
        }
    }

    /// One quarter-turn of the named face (upper or lower case); any other
    /// character leaves the cube unchanged.
    fn quarter_turn(self, face: char, clockwise: bool) -> (r: Cube)
        requires
            self@.wf(),
        ensures
            r@ == spec_quarter(self@, face, clockwise),
            r@.wf(),
    {
        if face == 'u' || face == 'U' {
            self.u(clockwise)
        } else if face == 'd' || face == 'D' {
            self.d(clockwise)
        } else if face == 'l' || face == 'L' {
            self.l(clockwise)
        } else if face == 'r' || face == 'R' {
            self.r(clockwise)
        } else if face == 'f' || face == 'F' {
            self.f(clockwise)
        } else if face == 'b' || face == 'B' {
            self.b(clockwise)
        } else {
            self
        }
    }

    /// Applies one move: a quarter-turn of the face, counter-clockwise when
    /// `prime`; a half-turn is the same quarter-turn applied twice.
    pub fn apply_move(self, face: char, prime: bool, half_turn: bool) -> (r: Cube)
        requires
            self@.wf(),
        ensures
            r@ == spec_apply_move(self@, face, prime, half_turn),
            r@.wf(),
    {
        let clockwise = !prime;
        let turned = self.quarter_turn(face, clockwise);
        if half_turn {
            turned.quarter_turn(face, clockwise)
        } else {
            turned
        }
    }

    /// Applies a whole move-sequence text, left to right.  A token is a
    /// face letter (either case) with an optional `'` and an optional `2`;
    /// spaces anywhere and unrecognized characters are skipped.
    pub fn apply_sequence(self, s: &str) -> (r: Cube)
        requires
            self@.wf(),
        ensures
            r@ == spec_apply_sequence(self@, s@),
            r@.wf(),
    {
        let ghost orig = self@;
        let n = s.unicode_len();
        let mut toks: Vec<char> = Vec::new();
        let mut i: usize = 0;
        while i < n
            invariant
                i <= n,
                n == s@.len(),
                toks@ == despace(s@.subrange(0, i as int)),
            decreases n - i,
        {
            let ch = s.get_char(i);
            proof {
                assert(s@.subrange(0, i + 1).drop_last() =~= s@.subrange(0, i as int));
                assert(s@.subrange(0, i + 1).last() == s@[i as int]);
            }
            if ch != ' ' {
                toks.push(ch);
            }
            i = i + 1;
        }
        proof {
            assert(s@.subrange(0, n as int) =~= s@);
        }
        let mut cube = self;
        let mut j: usize = 0;
        proof {
            assert(toks@.skip(0) =~= toks@);
        }
        while j < toks.len()
            invariant
                j <= toks@.len(),
                cube@.wf(),
                toks@ == despace(s@),
                spec_parse_apply(orig, toks@) == spec_parse_apply(cube@, toks@.skip(j as int)),
            decreases toks@.len() - j,
        {
            let ghost before = cube@;
            let ghost t = toks@.skip(j as int);
            let ch = toks[j];
            assert(t[0] == ch);
            if ch == 'u' || ch == 'U' || ch == 'd' || ch == 'D' || ch == 'l' || ch == 'L' || ch
                == 'r' || ch == 'R' || ch == 'f' || ch == 'F' || ch == 'b' || ch == 'B' {
                let mut k = j + 1;
                let prime = k < toks.len() && toks[k] == '\'';
                if prime {
                    k = k + 1;
                }
                let half_turn = k < toks.len() && toks[k] == '2';
                if half_turn {
                    k = k + 1;
                }
                cube = cube.apply_move(ch, prime, half_turn);
                proof {
                    assert(prime == (t.len() > 1 && t[1] == '\''));
                    let after_prime = if prime {
                        t.skip(2)
                    } else {
                        t.skip(1)
                    };
                    if prime {
                        assert(t.skip(2) =~= toks@.skip(j + 2));
                    } else {
                        assert(t.skip(1) =~= toks@.skip(j + 1));
                    }
                    assert(half_turn == (after_prime.len() > 0 && after_prime[0] == '2'));
                    if half_turn {
                        assert(after_prime.skip(1) =~= toks@.skip(k as int));
                    } else {
                        assert(after_prime =~= toks@.skip(k as int));
                    }
                    assert(spec_parse_apply(before, t) == spec_parse_apply(
                        cube@,
                        toks@.skip(k as int),
                    ));
                }
                j = k;
            } else {
                proof {
                    assert(!is_face_char(ch));
                    assert(t.skip(1) =~= toks@.skip(j + 1));
                }
                j = j + 1;
            }
        }
        proof {
            assert(toks@.skip(toks@.len() as int) =~= Seq::<char>::empty());
        }
        cube
    }
}

/// Compares two byte vectors element by element.
fn byte_rows_equal(a: &Vec<u8>, b: &Vec<u8>) -> (r: bool)
    ensures
        r == (a@ == b@),
{
    if a.len() != b.len() {
        return false;
    }
    let mut i: usize = 0;
    while i < a.len()
        invariant
            i <= a@.len(),
            a@.len() == b@.len(),
            forall|k: int| 0 <= k < i ==> a@[k] == b@[k],
        decreases a@.len() - i,
    {
        if a[i] != b[i] {
            proof {
                assert(a@[i as int] != b@[i as int]);
            }
            return false;
        }
        i = i + 1;
    }
    proof {
        assert(a@ =~= b@);
    }
    true
}

/// Checks that every value of the vector lies below the bound.
fn values_below(v: &Vec<u8>, bound: u8) -> (r: bool)
    ensures
        r == (forall|i: int| 0 <= i < v@.len() ==> v@[i] < bound),
{
    let mut i: usize = 0;
    while i < v.len()
        invariant
            i <= v@.len(),
            forall|k: int| 0 <= k < i ==> v@[k] < bound,
        decreases v@.len() - i,
    {
        if v[i] >= bound {
            proof {
                assert(!(v@[i as int] < bound));
            }
            return false;
        }
        i = i + 1;
    }
    true
}

/// Checks that the vector is a permutation of the labels `0 .. len`.
fn rows_permutation(v: &Vec<u8>) -> (r: bool)
    requires
        v@.len() <= 255,
    ensures
        r == is_permutation(v@, v@.len() as nat),
{
    if !values_below(v, v.len() as u8) {
        return false;
    }
    let mut i: usize = 0;
    while i < v.len()
        invariant
            i <= v@.len(),
            forall|k: int| 0 <= k < v@.len() ==> v@[k] < v@.len(),
            forall|k: int, l: int| 0 <= k < l < v@.len() && k < i ==> v@[k] != v@[l],
        decreases v@.len() - i,
    {
        let mut j: usize = i + 1;
        while j < v.len()
            invariant
                i < j,
                j <= v@.len(),
                i < v@.len(),
                forall|k: int| 0 <= k < v@.len() ==> v@[k] < v@.len(),
                forall|k: int, l: int| 0 <= k < l < v@.len() && k < i ==> v@[k] != v@[l],
                forall|l: int| i < l < j ==> v@[i as int] != v@[l],
            decreases v@.len() - j,
        {
            if v[i] == v[j] {
                proof {
                    assert(v@[i as int] == v@[j as int]);
                }
                return false;
            }
            j = j + 1;
        }
        i = i + 1;
    }
    true
}

impl PartialEq for Cube {
    /// Structural value equality over the four arrays.
    fn eq(&self, other: &Cube) -> (r: bool) {
        byte_rows_equal(&self.corner_orientations, &other.corner_orientations)
            && byte_rows_equal(&self.corner_permutations, &other.corner_permutations)
            && byte_rows_equal(&self.edge_orientations, &other.edge_orientations)
            && byte_rows_equal(&self.edge_permutations, &other.edge_permutations)
    }
}

impl vstd::std_specs::cmp::PartialEqSpecImpl for Cube {
    open spec fn obeys_eq_spec() -> bool {
        true
    }

    open spec fn eq_spec(&self, other: &Cube) -> bool {
        self@ == other@
    }
}

impl Cube {
    /// Checks the algebraic invariant at run time: the lengths of the
    /// four arrays, the orientation moduli, and that both permutation
    /// arrays are bijections.  Useful as a self-check after a move
    /// application, since a violation indicates a move-table bug.
    pub fn is_well_formed(&self) -> (r: bool)
        ensures
            r == self@.wf(),
    {
        if self.corner_orientations.len() != 8 || self.corner_permutations.len() != 8
            || self.edge_orientations.len() != 12 || self.edge_permutations.len() != 12 {
            return false;
        }
        values_below(&self.corner_orientations, 3) && rows_permutation(&self.corner_permutations)
            && values_below(&self.edge_orientations, 2) && rows_permutation(
            &self.edge_permutations,
        )
    }
}

/// Move text with every space removed: the parser treats spaces anywhere,
/// including between a face letter and its modifiers, as absent.
pub open spec fn despace(s: Seq<char>) -> Seq<char>
    decreases s.len(),
{
    if s.len() == 0 {
        Seq::empty()
    } else if s.last() == ' ' {
        despace(s.drop_last())
    } else {
        despace(s.drop_last()).push(s.last())
    }
}

/// Folds the moves of despaced move text over the cube, left to right.
/// A face letter starts a token, an immediately following `'` marks it
/// counter-clockwise and an immediately following `2` makes it a
/// half-turn; any other character is skipped.
pub open spec fn spec_parse_apply(v: CubeView, s: Seq<char>) -> CubeView
    decreases s.len(),
{
    if s.len() == 0 {
        v
    } else if !is_face_char(s[0]) {
        spec_parse_apply(v, s.skip(1))
    } else {
        let prime = s.len() > 1 && s[1] == '\'';
        let after_prime = if prime {
            s.skip(2)
        } else {
            s.skip(1)
        };
        let half_turn = after_prime.len() > 0 && after_prime[0] == '2';
        let rest = if half_turn {
            after_prime.skip(1)
        } else {
            after_prime
        };
        spec_parse_apply(spec_apply_move(v, s[0], prime, half_turn), rest)
    }
}

/// What `apply_sequence` computes: the moves of the text, spaces removed,
/// folded over the cube from left to right.
pub open spec fn spec_apply_sequence(v: CubeView, s: Seq<char>) -> CubeView {
    spec_parse_apply(v, despace(s))
}

/// Parsing and applying despaced move text preserves the cube invariant.
pub proof fn lemma_parse_apply_wf(v: CubeView, s: Seq<char>)
    requires
        v.wf(),
    ensures
        spec_parse_apply(v, s).wf(),
    decreases s.len(),
{
    if s.len() == 0 {
    } else if !is_face_char(s[0]) {
        lemma_parse_apply_wf(v, s.skip(1));
    } else {
        let prime = s.len() > 1 && s[1] == '\'';
        let after_prime = if prime {
            s.skip(2)
        } else {
            s.skip(1)
        };
        let half_turn = after_prime.len() > 0 && after_prime[0] == '2';
        let rest = if half_turn {
            after_prime.skip(1)
        } else {
            after_prime
        };
        lemma_apply_move_wf(v, s[0], prime, half_turn);
        lemma_parse_apply_wf(spec_apply_move(v, s[0], prime, half_turn), rest);
    }
}

/// Rotating a ring four times in the same direction restores the array.
#[verifier::rlimit(80)]
proof fn lemma_permute4_cycle4(s: Seq<u8>, a: int, b: int, c: int, d: int, clockwise: bool)
    requires
        0 <= a < s.len(),
        0 <= b < s.len(),
        0 <= c < s.len(),
        0 <= d < s.len(),
        a != b,
        a != c,
        a != d,
        b != c,
        b != d,
        c != d,
    ensures
        permute4(
            permute4(
                permute4(permute4(s, a, b, c, d, clockwise), a, b, c, d, clockwise),
                a,
                b,
                c,
                d,
                clockwise,
            ),
            a,
            b,
            c,
            d,
            clockwise,
        ) == s,
{
    assert(permute4(
        permute4(
            permute4(permute4(s, a, b, c, d, clockwise), a, b, c, d, clockwise),
            a,
            b,
            c,
            d,
            clockwise,
        ),
        a,
        b,
        c,
        d,
        clockwise,
    ) =~= s);
}

/// Rotating a ring one step and then one step the other way restores the
/// array.
proof fn lemma_permute4_inverse(s: Seq<u8>, a: int, b: int, c: int, d: int, clockwise: bool)
    requires
        0 <= a < s.len(),
        0 <= b < s.len(),
        0 <= c < s.len(),
        0 <= d < s.len(),
        a != b,
        a != c,
        a != d,
        b != c,
        b != d,
        c != d,
    ensures
        permute4(permute4(s, a, b, c, d, clockwise), a, b, c, d, !clockwise) == s,
{
    assert(permute4(permute4(s, a, b, c, d, clockwise), a, b, c, d, !clockwise) =~= s);
}

/// One corner layer of a turn: the ring twist followed by the ring
/// rotation.  Kept opaque so that proofs about repeated layers go
/// through the pointwise characterization below.
#[verifier::opaque]
spec fn corner_layer(s: Seq<u8>, a: int, b: int, c: int, d: int, clockwise: bool) -> Seq<u8> {
    permute4(twist4(s, a, b, c, d), a, b, c, d, clockwise)
}

/// What one corner layer does slot by slot: every ring slot receives its
/// neighbour's twisted value and every other slot is unchanged.
proof fn lemma_corner_layer_values(s: Seq<u8>, a: int, b: int, c: int, d: int, clockwise: bool)
    requires
        0 <= a < s.len(),
        0 <= b < s.len(),
        0 <= c < s.len(),
        0 <= d < s.len(),
        a != b,
        a != c,
        a != d,
        b != c,
        b != d,
        c != d,
    ensures
        corner_layer(s, a, b, c, d, clockwise).len() == s.len(),
        forall|i: int|
            0 <= i < s.len() && i != a && i != b && i != c && i != d ==> corner_layer(
                s,
                a,
                b,
                c,
                d,
                clockwise,
            )[i] == s[i],
        clockwise ==> corner_layer(s, a, b, c, d, clockwise)[a] == inc3(s[d], 2),
        clockwise ==> corner_layer(s, a, b, c, d, clockwise)[b] == inc3(s[a], 1),
        clockwise ==> corner_layer(s, a, b, c, d, clockwise)[c] == inc3(s[b], 2),
        clockwise ==> corner_layer(s, a, b, c, d, clockwise)[d] == inc3(s[c], 1),
        !clockwise ==> corner_layer(s, a, b, c, d, clockwise)[a] == inc3(s[b], 2),
        !clockwise ==> corner_layer(s, a, b, c, d, clockwise)[b] == inc3(s[c], 1),
        !clockwise ==> corner_layer(s, a, b, c, d, clockwise)[c] == inc3(s[d], 2),
        !clockwise ==> corner_layer(s, a, b, c, d, clockwise)[d] == inc3(s[a], 1),
{
    reveal(corner_layer);
}

/// Two identical corner layers exchange the opposite ring slots and the
/// twists cancel: the slots `a` and `c` each gain 1 + 2 == 0 (mod 3), the
/// slots `b` and `d` each gain 2 + 1 == 0 (mod 3).
#[verifier::rlimit(100)]
proof fn lemma_corner_layer_double(s: Seq<u8>, a: int, b: int, c: int, d: int, clockwise: bool)
    requires
        0 <= a < s.len(),
        0 <= b < s.len(),
        0 <= c < s.len(),
        0 <= d < s.len(),
        a != b,
        a != c,
        a != d,
        b != c,
        b != d,
        c != d,
        s[a] < 3,
        s[b] < 3,
        s[c] < 3,
        s[d] < 3,
    ensures
        corner_layer(corner_layer(s, a, b, c, d, clockwise), a, b, c, d, clockwise) == s.update(
            a,
            s[c],
        ).update(b, s[d]).update(c, s[a]).update(d, s[b]),
{
    let l1 = corner_layer(s, a, b, c, d, clockwise);
    let l2 = corner_layer(l1, a, b, c, d, clockwise);
    let swapped = s.update(a, s[c]).update(b, s[d]).update(c, s[a]).update(d, s[b]);
    lemma_corner_layer_values(s, a, b, c, d, clockwise);
    lemma_corner_layer_values(l1, a, b, c, d, clockwise);
    assert forall|i: int| 0 <= i < s.len() implies l2[i] == swapped[i] by {}
    assert(l2 =~= swapped);
}

/// Four identical corner layers restore the array: the ring returns to
/// its place and each slot has gained 1 + 2 + 1 + 2 == 6 == 0 (mod 3).
proof fn lemma_corner_layer_cycle4(s: Seq<u8>, a: int, b: int, c: int, d: int, clockwise: bool)
    requires
        0 <= a < s.len(),
        0 <= b < s.len(),
        0 <= c < s.len(),
        0 <= d < s.len(),
        a != b,
        a != c,
        a != d,
        b != c,
        b != d,
        c != d,
        s[a] < 3,
        s[b] < 3,
        s[c] < 3,
        s[d] < 3,
    ensures
        corner_layer(
            corner_layer(
                corner_layer(corner_layer(s, a, b, c, d, clockwise), a, b, c, d, clockwise),
                a,
                b,
                c,
                d,
                clockwise,
            ),
            a,
            b,
            c,
            d,
            clockwise,
        ) == s,
{
    let half = s.update(a, s[c]).update(b, s[d]).update(c, s[a]).update(d, s[b]);
    lemma_corner_layer_double(s, a, b, c, d, clockwise);
    lemma_corner_layer_double(half, a, b, c, d, clockwise);
    assert(half.update(a, half[c]).update(b, half[d]).update(c, half[a]).update(d, half[b]) =~= s);
}

/// A corner layer one way and then the other restores the array: the ring
/// returns and opposite ring slots carry twists 1 and 2, which cancel
/// modulo 3.
#[verifier::rlimit(100)]
proof fn lemma_corner_layer_inverse(s: Seq<u8>, a: int, b: int, c: int, d: int, clockwise: bool)
    requires
        0 <= a < s.len(),
        0 <= b < s.len(),
        0 <= c < s.len(),
        0 <= d < s.len(),
        a != b,
        a != c,
        a != d,
        b != c,
        b != d,
        c != d,
        s[a] < 3,
        s[b] < 3,
        s[c] < 3,
        s[d] < 3,
    ensures
        corner_layer(corner_layer(s, a, b, c, d, clockwise), a, b, c, d, !clockwise) == s,
{
    let l1 = corner_layer(s, a, b, c, d, clockwise);
    let l2 = corner_layer(l1, a, b, c, d, !clockwise);
    lemma_corner_layer_values(s, a, b, c, d, clockwise);
    lemma_corner_layer_values(l1, a, b, c, d, !clockwise);
    assert forall|i: int| 0 <= i < s.len() implies l2[i] == s[i] by {}
    assert(l2 =~= s);
}

/// One edge-orientation layer of a front or back turn: the ring flip
/// followed by the ring rotation.  Kept opaque like the corner layer.
#[verifier::opaque]
spec fn edge_layer(s: Seq<u8>, a: int, b: int, c: int, d: int, clockwise: bool) -> Seq<u8> {
    permute4(flip4(s, a, b, c, d), a, b, c, d, clockwise)
}

/// What one edge layer does slot by slot: every ring slot receives its
/// neighbour's toggled value and every other slot is unchanged.
proof fn lemma_edge_layer_values(s: Seq<u8>, a: int, b: int, c: int, d: int, clockwise: bool)
    requires
        0 <= a < s.len(),
        0 <= b < s.len(),
        0 <= c < s.len(),
        0 <= d < s.len(),
        a != b,
        a != c,
        a != d,
        b != c,
        b != d,
        c != d,
    ensures
        edge_layer(s, a, b, c, d, clockwise).len() == s.len(),
        forall|i: int|
            0 <= i < s.len() && i != a && i != b && i != c && i != d ==> edge_layer(
                s,
                a,
                b,
                c,
                d,
                clockwise,
            )[i] == s[i],
        clockwise ==> edge_layer(s, a, b, c, d, clockwise)[a] == (((s[d] + 1) % 2) as u8),
        clockwise ==> edge_layer(s, a, b, c, d, clockwise)[b] == (((s[a] + 1) % 2) as u8),
        clockwise ==> edge_layer(s, a, b, c, d, clockwise)[c] == (((s[b] + 1) % 2) as u8),
        clockwise ==> edge_layer(s, a, b, c, d, clockwise)[d] == (((s[c] + 1) % 2) as u8),
        !clockwise ==> edge_layer(s, a, b, c, d, clockwise)[a] == (((s[b] + 1) % 2) as u8),
        !clockwise ==> edge_layer(s, a, b, c, d, clockwise)[b] == (((s[c] + 1) % 2) as u8),
        !clockwise ==> edge_layer(s, a, b, c, d, clockwise)[c] == (((s[d] + 1) % 2) as u8),
        !clockwise ==> edge_layer(s, a, b, c, d, clockwise)[d] == (((s[a] + 1) % 2) as u8),
{
    reveal(edge_layer);
}

/// Two identical edge layers exchange the opposite ring slots and the
/// flips cancel: every ring slot has been toggled twice.
#[verifier::rlimit(100)]
proof fn lemma_edge_layer_double(s: Seq<u8>, a: int, b: int, c: int, d: int, clockwise: bool)
    requires
        0 <= a < s.len(),
        0 <= b < s.len(),
        0 <= c < s.len(),
        0 <= d < s.len(),
        a != b,
        a != c,
        a != d,
        b != c,
        b != d,
        c != d,
        s[a] < 2,
        s[b] < 2,
        s[c] < 2,
        s[d] < 2,
    ensures
        edge_layer(edge_layer(s, a, b, c, d, clockwise), a, b, c, d, clockwise) == s.update(
            a,
            s[c],
        ).update(b, s[d]).update(c, s[a]).update(d, s[b]),
{
    let l1 = edge_layer(s, a, b, c, d, clockwise);
    let l2 = edge_layer(l1, a, b, c, d, clockwise);
    let swapped = s.update(a, s[c]).update(b, s[d]).update(c, s[a]).update(d, s[b]);
    lemma_edge_layer_values(s, a, b, c, d, clockwise);
    lemma_edge_layer_values(l1, a, b, c, d, clockwise);
    assert forall|i: int| 0 <= i < s.len() implies l2[i] == swapped[i] by {}
    assert(l2 =~= swapped);
}

/// Four identical edge layers restore the array: each slot flips four
/// times, and four is even.
proof fn lemma_edge_layer_cycle4(s: Seq<u8>, a: int, b: int, c: int, d: int, clockwise: bool)
    requires
        0 <= a < s.len(),
        0 <= b < s.len(),
        0 <= c < s.len(),
        0 <= d < s.len(),
        a != b,
        a != c,
        a != d,
        b != c,
        b != d,
        c != d,
        s[a] < 2,
        s[b] < 2,
        s[c] < 2,
        s[d] < 2,
    ensures
        edge_layer(
            edge_layer(
                edge_layer(edge_layer(s, a, b, c, d, clockwise), a, b, c, d, clockwise),
                a,
                b,
                c,
                d,
                clockwise,
            ),
            a,
            b,
            c,
            d,
            clockwise,
        ) == s,
{
    let half = s.update(a, s[c]).update(b, s[d]).update(c, s[a]).update(d, s[b]);
    lemma_edge_layer_double(s, a, b, c, d, clockwise);
    lemma_edge_layer_double(half, a, b, c, d, clockwise);
    assert(half.update(a, half[c]).update(b, half[d]).update(c, half[a]).update(d, half[b]) =~= s);
}

/// An edge layer one way and then the other restores the array: every
/// ring slot flips twice.
#[verifier::rlimit(100)]
proof fn lemma_edge_layer_inverse(s: Seq<u8>, a: int, b: int, c: int, d: int, clockwise: bool)
    requires
        0 <= a < s.len(),
        0 <= b < s.len(),
        0 <= c < s.len(),
        0 <= d < s.len(),
        a != b,
        a != c,
        a != d,
        b != c,
        b != d,
        c != d,
        s[a] < 2,
        s[b] < 2,
        s[c] < 2,
        s[d] < 2,
    ensures
        edge_layer(edge_layer(s, a, b, c, d, clockwise), a, b, c, d, !clockwise) == s,
{
    let l1 = edge_layer(s, a, b, c, d, clockwise);
    let l2 = edge_layer(l1, a, b, c, d, !clockwise);
    lemma_edge_layer_values(s, a, b, c, d, clockwise);
    lemma_edge_layer_values(l1, a, b, c, d, !clockwise);
    assert forall|i: int| 0 <= i < s.len() implies l2[i] == s[i] by {}
    assert(l2 =~= s);
}


/// Two successive quarter-turn edge layers of the same front or back
/// ring leave an all-zero edge-orientation array all zero: the ring
/// returns two steps on and every ring slot has been flipped twice.
pub proof fn lemma_double_edge_flip_keeps_zero(
    s: Seq<u8>,
    a: int,
    b: int,
    c: int,
    d: int,
    clockwise: bool,
)
    requires
        0 <= a < s.len(),
        0 <= b < s.len(),
        0 <= c < s.len(),
        0 <= d < s.len(),
        a != b,
        a != c,
        a != d,
        b != c,
        b != d,
        c != d,
        forall|i: int| 0 <= i < s.len() ==> s[i] == 0,
    ensures
        forall|i: int|
            0 <= i < s.len() ==> permute4(
                flip4(permute4(flip4(s, a, b, c, d), a, b, c, d, clockwise), a, b, c, d),
                a,
                b,
                c,
                d,
                clockwise,
            )[i] == 0,
{
    reveal(edge_layer);
    lemma_edge_layer_double(s, a, b, c, d, clockwise);
    assert(edge_layer(edge_layer(s, a, b, c, d, clockwise), a, b, c, d, clockwise) == permute4(
        flip4(permute4(flip4(s, a, b, c, d), a, b, c, d, clockwise), a, b, c, d),
        a,
        b,
        c,
        d,
        clockwise,
    ));
}

/// Four identical quarter-turns of any single face restore the cube:
/// each face generator has order four, and the edge flips of a front or
/// back turn cancel because four is even.
pub proof fn lemma_four_quarter_turns(v: CubeView, face: char, clockwise: bool)
    requires
        v.wf(),
    ensures
        spec_quarter(
            spec_quarter(spec_quarter(spec_quarter(v, face, clockwise), face, clockwise), face, clockwise),
            face,
            clockwise,
        ) == v,
{
    reveal(corner_layer);
    reveal(edge_layer);
    let q4 = spec_quarter(
        spec_quarter(spec_quarter(spec_quarter(v, face, clockwise), face, clockwise), face, clockwise),
        face,
        clockwise,
    );
    if face == 'u' || face == 'U' {
        lemma_permute4_cycle4(v.corner_orientations, 0, 1, 2, 3, clockwise);
        lemma_permute4_cycle4(v.corner_permutations, 0, 1, 2, 3, clockwise);
        lemma_permute4_cycle4(v.edge_orientations, 0, 1, 2, 3, clockwise);
        lemma_permute4_cycle4(v.edge_permutations, 0, 1, 2, 3, clockwise);
        assert(q4 =~= v);
    } else if face == 'd' || face == 'D' {
        lemma_permute4_cycle4(v.corner_orientations, 7, 6, 5, 4, clockwise);
        lemma_permute4_cycle4(v.corner_permutations, 7, 6, 5, 4, clockwise);
        lemma_permute4_cycle4(v.edge_orientations, 11, 10, 9, 8, clockwise);
        lemma_permute4_cycle4(v.edge_permutations, 11, 10, 9, 8, clockwise);
        assert(q4 =~= v);
    } else if face == 'l' || face == 'L' {
        lemma_corner_layer_cycle4(v.corner_orientations, 2, 1, 5, 6, clockwise);
        lemma_permute4_cycle4(v.corner_permutations, 2, 1, 5, 6, clockwise);
        lemma_permute4_cycle4(v.edge_orientations, 1, 5, 9, 6, clockwise);
        lemma_permute4_cycle4(v.edge_permutations, 1, 5, 9, 6, clockwise);
        assert(q4 =~= v);
    } else if face == 'r' || face == 'R' {
        lemma_corner_layer_cycle4(v.corner_orientations, 0, 3, 7, 4, clockwise);
        lemma_permute4_cycle4(v.corner_permutations, 0, 3, 7, 4, clockwise);
        lemma_permute4_cycle4(v.edge_orientations, 3, 7, 11, 4, clockwise);
        lemma_permute4_cycle4(v.edge_permutations, 3, 7, 11, 4, clockwise);
        assert(q4 =~= v);
    } else if face == 'f' || face == 'F' {
        lemma_corner_layer_cycle4(v.corner_orientations, 1, 0, 4, 5, clockwise);
        lemma_permute4_cycle4(v.corner_permutations, 1, 0, 4, 5, clockwise);
        lemma_edge_layer_cycle4(v.edge_orientations, 0, 4, 8, 5, clockwise);
        lemma_permute4_cycle4(v.edge_permutations, 0, 4, 8, 5, clockwise);
        assert(q4 =~= v);
    } else if face == 'b' || face == 'B' {
        lemma_corner_layer_cycle4(v.corner_orientations, 3, 2, 6, 7, clockwise);
        lemma_permute4_cycle4(v.corner_permutations, 3, 2, 6, 7, clockwise);
        lemma_edge_layer_cycle4(v.edge_orientations, 2, 6, 10, 7, clockwise);
        lemma_permute4_cycle4(v.edge_permutations, 2, 6, 10, 7, clockwise);
        assert(q4 =~= v);
    } else {
        assert(q4 =~= v);
    }
}

/// A quarter-turn and then the opposite quarter-turn of the same face
/// restore the cube.
pub proof fn lemma_quarter_inverse(v: CubeView, face: char, clockwise: bool)
    requires
        v.wf(),
    ensures
        spec_quarter(spec_quarter(v, face, clockwise), face, !clockwise) == v,
{
    reveal(corner_layer);
    reveal(edge_layer);
    let q2 = spec_quarter(spec_quarter(v, face, clockwise), face, !clockwise);
    if face == 'u' || face == 'U' {
        lemma_permute4_inverse(v.corner_orientations, 0, 1, 2, 3, clockwise);
        lemma_permute4_inverse(v.corner_permutations, 0, 1, 2, 3, clockwise);
        lemma_permute4_inverse(v.edge_orientations, 0, 1, 2, 3, clockwise);
        lemma_permute4_inverse(v.edge_permutations, 0, 1, 2, 3, clockwise);
        assert(q2 =~= v);
    } else if face == 'd' || face == 'D' {
        lemma_permute4_inverse(v.corner_orientations, 7, 6, 5, 4, clockwise);
        lemma_permute4_inverse(v.corner_permutations, 7, 6, 5, 4, clockwise);
        lemma_permute4_inverse(v.edge_orientations, 11, 10, 9, 8, clockwise);
        lemma_permute4_inverse(v.edge_permutations, 11, 10, 9, 8, clockwise);
        assert(q2 =~= v);
    } else if face == 'l' || face == 'L' {
        lemma_corner_layer_inverse(v.corner_orientations, 2, 1, 5, 6, clockwise);
        lemma_permute4_inverse(v.corner_permutations, 2, 1, 5, 6, clockwise);
        lemma_permute4_inverse(v.edge_orientations, 1, 5, 9, 6, clockwise);
        lemma_permute4_inverse(v.edge_permutations, 1, 5, 9, 6, clockwise);
        assert(q2 =~= v);
    } else if face == 'r' || face == 'R' {
        lemma_corner_layer_inverse(v.corner_orientations, 0, 3, 7, 4, clockwise);
        lemma_permute4_inverse(v.corner_permutations, 0, 3, 7, 4, clockwise);
        lemma_permute4_inverse(v.edge_orientations, 3, 7, 11, 4, clockwise);
        lemma_permute4_inverse(v.edge_permutations, 3, 7, 11, 4, clockwise);
        assert(q2 =~= v);
    } else if face == 'f' || face == 'F' {
        lemma_corner_layer_inverse(v.corner_orientations, 1, 0, 4, 5, clockwise);
        lemma_permute4_inverse(v.corner_permutations, 1, 0, 4, 5, clockwise);
        lemma_edge_layer_inverse(v.edge_orientations, 0, 4, 8, 5, clockwise);
        lemma_permute4_inverse(v.edge_permutations, 0, 4, 8, 5, clockwise);
        assert(q2 =~= v);
    } else if face == 'b' || face == 'B' {
        lemma_corner_layer_inverse(v.corner_orientations, 3, 2, 6, 7, clockwise);
        lemma_permute4_inverse(v.corner_permutations, 3, 2, 6, 7, clockwise);
        lemma_edge_layer_inverse(v.edge_orientations, 2, 6, 10, 7, clockwise);
        lemma_permute4_inverse(v.edge_permutations, 2, 6, 10, 7, clockwise);
        assert(q2 =~= v);
    } else {
        assert(q2 =~= v);
    }
}

/// A move followed by its inverse — same face, opposite prime flag, same
/// half-turn flag — restores the cube, whatever the cube was.
pub proof fn lemma_move_inverse(v: CubeView, face: char, prime: bool, half_turn: bool)
    requires
        v.wf(),
    ensures
        spec_apply_move(spec_apply_move(v, face, prime, half_turn), face, !prime, half_turn) == v,
{
    let cw = !prime;
    if half_turn {
        let v1 = spec_quarter(v, face, cw);
        lemma_quarter_wf(v, face, cw);
        let v2 = spec_quarter(v1, face, cw);
        lemma_quarter_wf(v1, face, cw);
        lemma_quarter_inverse(v1, face, cw);
        lemma_quarter_wf(v2, face, !cw);
        lemma_quarter_inverse(v, face, cw);
    } else {
        lemma_quarter_inverse(v, face, !prime);
    }
}

/// No sequence of moves breaks the cube invariant: in particular the
/// corner and edge permutations remain bijections on their slot labels
/// after any move-sequence text is applied.
pub proof fn lemma_sequence_preserves_wf(v: CubeView, s: Seq<char>)
    requires
        v.wf(),
    ensures
        spec_apply_sequence(v, s).wf(),
{
    lemma_parse_apply_wf(v, despace(s));
}

} // verus!
