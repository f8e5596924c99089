//! Coordinate encodings and the two breadth-first phase solvers.
//!
//! A coordinate is a small integer computed from a slice of cube state;
//! two different cubes may share a coordinate.  Coordinates are the keys
//! of the visited sets that prune each phase's search.

use vstd::prelude::*;
use vstd::relations::total_ordering;
use vstd::seq_lib::lemma_sorted_unique;
use vstd::relations::sorted_by;

use vstd::multiset::Multiset;
use vstd::set_lib::lemma_len_subset;
use std::collections::HashSet;
use std::collections::VecDeque;

use crate::cube::copy_values;
use crate::cube::spec_apply_sequence;
use crate::cube::Cube;
use crate::cube::CubeView;

verus! {

broadcast use vstd::std_specs::hash::group_hash_axioms;

/// Phase 0 is solved when every edge orientation is zero.
pub open spec fn edges_oriented(v: CubeView) -> bool {
    forall|i: int| 0 <= i < v.edge_orientations.len() ==> v.edge_orientations[i] == 0
}

/// The twelve quarter-turn move tokens of phase 0: both directions of
/// every face.
pub open spec fn is_g0_token(t: Seq<char>) -> bool {
    ||| t == "u"@
    ||| t == "u'"@
    ||| t == "d"@
    ||| t == "d'"@
    ||| t == "l"@
    ||| t == "l'"@
    ||| t == "r"@
    ||| t == "r'"@
    ||| t == "f"@
    ||| t == "f'"@
    ||| t == "b"@
    ||| t == "b'"@
}

/// The ten move tokens of phase 1: the front and back faces are
/// restricted to half-turns, the other four faces keep both quarter-turn
/// directions.  Every token of this set preserves the phase-0 goal —
/// up, down, left and right turns never toggle an edge flip, and a
/// front or back half-turn flips each ring edge twice — while the up
/// and down quarter-turns still move edges through the equatorial
/// slots, so the phase-1 goal stays reachable.
pub open spec fn is_g1_token(t: Seq<char>) -> bool {
    ||| t == "u"@
    ||| t == "u'"@
    ||| t == "d"@
    ||| t == "d'"@
    ||| t == "l"@
    ||| t == "l'"@
    ||| t == "r"@
    ||| t == "r'"@
    ||| t == "f2"@
    ||| t == "b2"@
}

/// Every token of the list belongs to the phase-0 move set.
pub open spec fn all_g0_tokens(toks: Seq<Seq<char>>) -> bool {
    forall|i: int| 0 <= i < toks.len() ==> is_g0_token(toks[i])
}

/// Every token of the list belongs to the phase-1 move set.
pub open spec fn all_g1_tokens(toks: Seq<Seq<char>>) -> bool {
    forall|i: int| 0 <= i < toks.len() ==> is_g1_token(toks[i])
}

/// Applies a list of move-sequence tokens to the cube, left to right.
pub open spec fn spec_apply_tokens(v: CubeView, toks: Seq<Seq<char>>) -> CubeView
    decreases toks.len(),
{
    if toks.len() == 0 {
        v
    } else {
        spec_apply_tokens(spec_apply_sequence(v, toks[0]), toks.drop_first())
    }
}

/// A well-formed edge-orientation array: twelve values, each 0 or 1.
pub open spec fn wf_eo(eo: Seq<u8>) -> bool {
    crate::cube::all_below(eo, 12, 2)
}

/// The edge-orientation coordinate of an edge-orientation array, as the
/// visited-set key used by the phase-0 search.
pub open spec fn eo_coord(eo: Seq<u8>) -> u32 {
    spec_orientation_index(eo, 2) as u32
}

/// What one phase-0 token does to the edge-orientation array: every
/// turn carries the flip values along its edge ring, and a front or
/// back turn additionally toggles the four ring flips.  The edge
/// orientations after a token are a function of the edge orientations
/// before it alone, which is what makes the phase-0 coordinate sound as
/// a visited key.
pub open spec fn g0_token_eo(eo: Seq<u8>, t: Seq<char>) -> Seq<u8> {
    if t == "u"@ {
        crate::cube::permute4(eo, 0, 1, 2, 3, true)
    } else if t == "u'"@ {
        crate::cube::permute4(eo, 0, 1, 2, 3, false)
    } else if t == "d"@ {
        crate::cube::permute4(eo, 11, 10, 9, 8, true)
    } else if t == "d'"@ {
        crate::cube::permute4(eo, 11, 10, 9, 8, false)
    } else if t == "l"@ {
        crate::cube::permute4(eo, 1, 5, 9, 6, true)
    } else if t == "l'"@ {
        crate::cube::permute4(eo, 1, 5, 9, 6, false)
    } else if t == "r"@ {
        crate::cube::permute4(eo, 3, 7, 11, 4, true)
    } else if t == "r'"@ {
        crate::cube::permute4(eo, 3, 7, 11, 4, false)
    } else if t == "f"@ {
        crate::cube::permute4(crate::cube::flip4(eo, 0, 4, 8, 5), 0, 4, 8, 5, true)
    } else if t == "f'"@ {
        crate::cube::permute4(crate::cube::flip4(eo, 0, 4, 8, 5), 0, 4, 8, 5, false)
    } else if t == "b"@ {
        crate::cube::permute4(crate::cube::flip4(eo, 2, 6, 10, 7), 2, 6, 10, 7, true)
    } else if t == "b'"@ {
        crate::cube::permute4(crate::cube::flip4(eo, 2, 6, 10, 7), 2, 6, 10, 7, false)
    } else {
        eo
    }
}

/// Parsing a single face letter applies one clockwise quarter-turn.
proof fn lemma_parse_single(v: CubeView, c: char)
    requires
        crate::cube::is_face_char(c),
    ensures
        spec_apply_sequence(v, seq![c]) == crate::cube::spec_quarter(v, c, true),
{
    let s = seq![c];
    assert(s.last() == c && c != ' ');
    assert(s.drop_last() =~= Seq::<char>::empty());
    assert(crate::cube::despace(Seq::<char>::empty()) == Seq::<char>::empty());
    assert(crate::cube::despace(s) == crate::cube::despace(s.drop_last()).push(c));
    assert(crate::cube::despace(s) =~= s);
    assert(s.skip(1) =~= Seq::<char>::empty());
    let moved = crate::cube::spec_apply_move(v, c, false, false);
    assert(crate::cube::spec_parse_apply(moved, Seq::<char>::empty()) == moved);
    assert(crate::cube::spec_parse_apply(v, s) == moved);
}

/// Parsing a face letter followed by a prime applies one
/// counter-clockwise quarter-turn.
proof fn lemma_parse_prime(v: CubeView, c: char)
    requires
        crate::cube::is_face_char(c),
    ensures
        spec_apply_sequence(v, seq![c, '\'']) == crate::cube::spec_quarter(v, c, false),
{
    let s = seq![c, '\''];
    assert(s.last() == '\'' && s.last() != ' ');
    assert(s.drop_last() =~= seq![c]);
    assert(seq![c].last() == c && c != ' ');
    assert(seq![c].drop_last() =~= Seq::<char>::empty());
    assert(crate::cube::despace(Seq::<char>::empty()) == Seq::<char>::empty());
    assert(crate::cube::despace(seq![c]) == crate::cube::despace(
        seq![c].drop_last(),
    ).push(c));
    assert(crate::cube::despace(s) == crate::cube::despace(s.drop_last()).push('\''));
    assert(crate::cube::despace(s) =~= s);
    assert(s[0] == c && s[1] == '\'' && s.len() == 2);
    assert(s.skip(2) =~= Seq::<char>::empty());
    let moved = crate::cube::spec_apply_move(v, c, true, false);
    assert(crate::cube::spec_parse_apply(moved, Seq::<char>::empty()) == moved);
    assert(crate::cube::spec_parse_apply(v, s) == moved);
}

/// Applying one phase-0 token transforms the edge-orientation array
/// exactly as `g0_token_eo` says.
pub proof fn lemma_g0_token_eo(v: CubeView, t: Seq<char>)
    requires
        is_g0_token(t),
    ensures
        spec_apply_sequence(v, t).edge_orientations == g0_token_eo(v.edge_orientations, t),
{
    reveal_strlit("u");
    reveal_strlit("u'");
    reveal_strlit("d");
    reveal_strlit("d'");
    reveal_strlit("l");
    reveal_strlit("l'");
    reveal_strlit("r");
    reveal_strlit("r'");
    reveal_strlit("f");
    reveal_strlit("f'");
    reveal_strlit("b");
    reveal_strlit("b'");
    if t == "u"@ {
        assert(t =~= seq!['u']);
        lemma_parse_single(v, 'u');
    } else if t == "u'"@ {
        assert(t =~= seq!['u', '\'']);
        lemma_parse_prime(v, 'u');
    } else if t == "d"@ {
        assert(t =~= seq!['d']);
        lemma_parse_single(v, 'd');
    } else if t == "d'"@ {
        assert(t =~= seq!['d', '\'']);
        lemma_parse_prime(v, 'd');
    } else if t == "l"@ {
        assert(t =~= seq!['l']);
        lemma_parse_single(v, 'l');
    } else if t == "l'"@ {
        assert(t =~= seq!['l', '\'']);
        lemma_parse_prime(v, 'l');
    } else if t == "r"@ {
        assert(t =~= seq!['r']);
        lemma_parse_single(v, 'r');
    } else if t == "r'"@ {
        assert(t =~= seq!['r', '\'']);
        lemma_parse_prime(v, 'r');
    } else if t == "f"@ {
        assert(t =~= seq!['f']);
        lemma_parse_single(v, 'f');
    } else if t == "f'"@ {
        assert(t =~= seq!['f', '\'']);
        lemma_parse_prime(v, 'f');
    } else if t == "b"@ {
        assert(t =~= seq!['b']);
        lemma_parse_single(v, 'b');
    } else {
        assert(t == "b'"@);
        assert(t =~= seq!['b', '\'']);
        lemma_parse_prime(v, 'b');
    }
}

/// An array of digits below the modulus encodes to a coordinate below
/// `modulus` to the power of its length.
pub proof fn lemma_orientation_index_bound(s: Seq<u8>, modulus: u8)
    requires
        forall|i: int| 0 <= i < s.len() ==> s[i] < modulus,
    ensures
        spec_orientation_index(s, modulus) < pow_int(modulus as int, s.len()),
    decreases s.len(),
{
    if s.len() == 0 {
    } else {
        let pre = s.drop_last();
        lemma_orientation_index_bound(pre, modulus);
        lemma_orientation_index_nonneg(pre, modulus);
        let v = spec_orientation_index(pre, modulus);
        let p = pow_int(modulus as int, pre.len());
        assert(pow_int(modulus as int, s.len()) == (modulus as int) * p);
        assert(spec_orientation_index(s, modulus) == v * (modulus as int) + s.last());
        assert(v * (modulus as int) + s.last() < p * (modulus as int)) by (nonlinear_arith)
            requires
                0 <= v,
                v < p,
                0 <= s.last() < (modulus as int),
        ;
        assert(p * (modulus as int) == (modulus as int) * p) by (nonlinear_arith);
    }
}

/// A well-formed edge-orientation array has a coordinate below 4096,
/// so the 32-bit coordinate value carries the encoding faithfully.
pub proof fn lemma_eo_coord_value(eo: Seq<u8>)
    requires
        wf_eo(eo),
    ensures
        eo_coord(eo) == spec_orientation_index(eo, 2),
        eo_coord(eo) < 4096,
{
    lemma_orientation_index_nonneg(eo, 2);
    lemma_orientation_index_bound(eo, 2);
    assert(pow_int(2, 12) == 4096) by {
        reveal_with_fuel(pow_int, 13);
    }
}

/// The edge-orientation coordinate is injective on well-formed arrays.
pub proof fn lemma_eo_coord_injective(a: Seq<u8>, b: Seq<u8>)
    requires
        wf_eo(a),
        wf_eo(b),
        eo_coord(a) == eo_coord(b),
    ensures
        a == b,
{
    lemma_eo_coord_value(a);
    lemma_eo_coord_value(b);
    lemma_orientation_index_injective(a, b, 2);
}

/// A well-formed edge-orientation array has coordinate zero exactly when
/// every orientation value is zero.
pub proof fn lemma_eo_coord_zero(eo: Seq<u8>)
    requires
        wf_eo(eo),
    ensures
        (eo_coord(eo) == 0) <==> (forall|i: int| 0 <= i < eo.len() ==> eo[i] == 0),
{
    lemma_eo_coord_value(eo);
    if eo_coord(eo) == 0 {
        let zeros = Seq::new(12, |i: int| 0u8);
        lemma_orientation_index_zeros(zeros, 2);
        lemma_orientation_index_injective(eo, zeros, 2);
    }
    if forall|i: int| 0 <= i < eo.len() ==> eo[i] == 0 {
        lemma_orientation_index_zeros(eo, 2);
    }
}

/// One phase-0 token keeps the edge-orientation array well formed.
pub proof fn lemma_g0_token_eo_wf(eo: Seq<u8>, t: Seq<char>)
    requires
        wf_eo(eo),
    ensures
        wf_eo(g0_token_eo(eo, t)),
{
    if t == "u"@ || t == "u'"@ {
        crate::cube::lemma_permute4_below(eo, 0, 1, 2, 3, t == "u"@, 12, 2);
    } else if t == "d"@ || t == "d'"@ {
        crate::cube::lemma_permute4_below(eo, 11, 10, 9, 8, t == "d"@, 12, 2);
    } else if t == "l"@ || t == "l'"@ {
        crate::cube::lemma_permute4_below(eo, 1, 5, 9, 6, t == "l"@, 12, 2);
    } else if t == "r"@ || t == "r'"@ {
        crate::cube::lemma_permute4_below(eo, 3, 7, 11, 4, t == "r"@, 12, 2);
    } else if t == "f"@ || t == "f'"@ {
        crate::cube::lemma_flip4_below(eo, 0, 4, 8, 5, 12);
        crate::cube::lemma_permute4_below(
            crate::cube::flip4(eo, 0, 4, 8, 5),
            0,
            4,
            8,
            5,
            t == "f"@,
            12,
            2,
        );
    } else if t == "b"@ || t == "b'"@ {
        crate::cube::lemma_flip4_below(eo, 2, 6, 10, 7, 12);
        crate::cube::lemma_permute4_below(
            crate::cube::flip4(eo, 2, 6, 10, 7),
            2,
            6,
            10,
            7,
            t == "b"@,
            12,
            2,
        );
    }
}

/// Every successor, under the phase-0 move set, of an edge-orientation
/// array whose coordinate is in `done` has its coordinate in `seen`.
pub open spec fn g0_closed(done: Set<u32>, seen: Set<u32>) -> bool {
    forall|eo: Seq<u8>, t: Seq<char>|
        wf_eo(eo) && done.contains(eo_coord(eo)) && is_g0_token(t) ==> seen.contains(
            #[trigger] eo_coord(g0_token_eo(eo, t)),
        )
}

/// When the phase-0 search has seen a coordinate set that contains the
/// start, is closed under every phase-0 move and holds no solved
/// coordinate, no phase-0 token list can solve the start cube: the
/// search space is exhausted.
proof fn lemma_g0_exhausted(done: Set<u32>, v: CubeView, toks: Seq<Seq<char>>)
    requires
        v.wf(),
        done.contains(eo_coord(v.edge_orientations)),
        g0_closed(done, done),
        !done.contains(0u32),
        all_g0_tokens(toks),
    ensures
        !edges_oriented(spec_apply_tokens(v, toks)),
    decreases toks.len(),
{
    if toks.len() == 0 {
        if edges_oriented(v) {
            lemma_eo_coord_zero(v.edge_orientations);
        }
    } else {
        let t = toks[0];
        let v1 = spec_apply_sequence(v, t);
        lemma_g0_token_eo(v, t);
        crate::cube::lemma_sequence_preserves_wf(v, t);
        assert(done.contains(eo_coord(g0_token_eo(v.edge_orientations, t))));
        assert(all_g0_tokens(toks.drop_first())) by {
            assert(forall|i: int|
                0 <= i < toks.drop_first().len() ==> toks.drop_first()[i] == toks[i + 1]);
        }
        lemma_g0_exhausted(done, v1, toks.drop_first());
    }
}

/// A well-formed corner-orientation array: eight values, each below 3.
pub open spec fn wf_co(co: Seq<u8>) -> bool {
    crate::cube::all_below(co, 8, 3)
}

/// The corner-orientation coordinate of a corner-orientation array, as
/// the visited-set key used when building the phase-1 distance table.
pub open spec fn co_coord(co: Seq<u8>) -> u32 {
    spec_orientation_index(co, 3) as u32
}

/// A well-formed corner-orientation array has a coordinate below 3^8,
/// so the 32-bit coordinate value carries the encoding faithfully.
pub proof fn lemma_co_coord_value(co: Seq<u8>)
    requires
        wf_co(co),
    ensures
        co_coord(co) == spec_orientation_index(co, 3),
        co_coord(co) < 6561,
{
    lemma_orientation_index_nonneg(co, 3);
    lemma_orientation_index_bound(co, 3);
    assert(pow_int(3, 8) == 6561) by {
        reveal_with_fuel(pow_int, 9);
    }
}

/// The corner-orientation coordinate is injective on well-formed arrays.
pub proof fn lemma_co_coord_injective(a: Seq<u8>, b: Seq<u8>)
    requires
        wf_co(a),
        wf_co(b),
        co_coord(a) == co_coord(b),
    ensures
        a == b,
{
    lemma_co_coord_value(a);
    lemma_co_coord_value(b);
    lemma_orientation_index_injective(a, b, 3);
}

/// One clockwise corner layer of the ring `a, b, c, d`: the twist
/// followed by the rotation, as every twisting turn applies it.
pub open spec fn co_layer(co: Seq<u8>, a: int, b: int, c: int, d: int, clockwise: bool) -> Seq<
    u8,
> {
    crate::cube::permute4(
        crate::cube::twist4(co, a, b, c, d),
        a,
        b,
        c,
        d,
        clockwise,
    )
}

/// What one phase-1 token does to the corner-orientation array: the
/// left and right quarter-turns apply one twisting corner layer, a
/// front or back half-turn applies its layer twice (the twists cancel),
/// and an up or down quarter-turn only carries the values one ring step
/// on.  The corner orientations after a token are a function of the
/// corner orientations before it alone.
pub open spec fn g1_token_co(co: Seq<u8>, t: Seq<char>) -> Seq<u8> {
    if t == "u"@ {
        crate::cube::permute4(co, 0, 1, 2, 3, true)
    } else if t == "u'"@ {
        crate::cube::permute4(co, 0, 1, 2, 3, false)
    } else if t == "d"@ {
        crate::cube::permute4(co, 7, 6, 5, 4, true)
    } else if t == "d'"@ {
        crate::cube::permute4(co, 7, 6, 5, 4, false)
    } else if t == "l"@ {
        co_layer(co, 2, 1, 5, 6, true)
    } else if t == "l'"@ {
        co_layer(co, 2, 1, 5, 6, false)
    } else if t == "r"@ {
        co_layer(co, 0, 3, 7, 4, true)
    } else if t == "r'"@ {
        co_layer(co, 0, 3, 7, 4, false)
    } else if t == "f2"@ {
        co_layer(co_layer(co, 1, 0, 4, 5, true), 1, 0, 4, 5, true)
    } else if t == "b2"@ {
        co_layer(co_layer(co, 3, 2, 6, 7, true), 3, 2, 6, 7, true)
    } else {
        co
    }
}

/// Parsing a face letter followed by a `2` applies the clockwise
/// quarter-turn of that face twice.
proof fn lemma_parse_half(v: CubeView, c: char)
    requires
        crate::cube::is_face_char(c),
    ensures
        spec_apply_sequence(v, seq![c, '2']) == crate::cube::spec_quarter(
            crate::cube::spec_quarter(v, c, true),
            c,
            true,
        ),
{
    let s = seq![c, '2'];
    assert(s.last() == '2' && s.last() != ' ');
    assert(s.drop_last() =~= seq![c]);
    assert(seq![c].last() == c && c != ' ');
    assert(seq![c].drop_last() =~= Seq::<char>::empty());
    assert(crate::cube::despace(Seq::<char>::empty()) == Seq::<char>::empty());
    assert(crate::cube::despace(seq![c]) == crate::cube::despace(
        seq![c].drop_last(),
    ).push(c));
    assert(crate::cube::despace(s) == crate::cube::despace(s.drop_last()).push('2'));
    assert(crate::cube::despace(s) =~= s);
    assert(s[0] == c && s[1] == '2' && s.len() == 2);
    assert(s.skip(1) =~= seq!['2']);
    assert(seq!['2'].skip(1) =~= Seq::<char>::empty());
    let moved = crate::cube::spec_apply_move(v, c, false, true);
    assert(crate::cube::spec_parse_apply(moved, Seq::<char>::empty()) == moved);
    assert(crate::cube::spec_parse_apply(v, s) == moved);
}

/// Applying one phase-1 token transforms the corner-orientation array
/// exactly as `g1_token_co` says.
pub proof fn lemma_g1_token_co(v: CubeView, t: Seq<char>)
    requires
        is_g1_token(t),
    ensures
        spec_apply_sequence(v, t).corner_orientations == g1_token_co(v.corner_orientations, t),
{
    reveal_strlit("u");
    reveal_strlit("u'");
    reveal_strlit("d");
    reveal_strlit("d'");
    reveal_strlit("l");
    reveal_strlit("l'");
    reveal_strlit("r");
    reveal_strlit("r'");
    reveal_strlit("f2");
    reveal_strlit("b2");
    if t == "u"@ {
        assert(t =~= seq!['u']);
        lemma_parse_single(v, 'u');
    } else if t == "u'"@ {
        assert(t =~= seq!['u', '\'']);
        lemma_parse_prime(v, 'u');
    } else if t == "d"@ {
        assert(t =~= seq!['d']);
        lemma_parse_single(v, 'd');
    } else if t == "d'"@ {
        assert(t =~= seq!['d', '\'']);
        lemma_parse_prime(v, 'd');
    } else if t == "l"@ {
        assert(t =~= seq!['l']);
        lemma_parse_single(v, 'l');
    } else if t == "l'"@ {
        assert(t =~= seq!['l', '\'']);
        lemma_parse_prime(v, 'l');
    } else if t == "r"@ {
        assert(t =~= seq!['r']);
        lemma_parse_single(v, 'r');
    } else if t == "r'"@ {
        assert(t =~= seq!['r', '\'']);
        lemma_parse_prime(v, 'r');
    } else if t == "f2"@ {
        assert(t =~= seq!['f', '2']);
        lemma_parse_half(v, 'f');
    } else {
        assert(t == "b2"@);
        assert(t =~= seq!['b', '2']);
        lemma_parse_half(v, 'b');
    }
}

/// One phase-1 token keeps the corner-orientation array well formed.
pub proof fn lemma_g1_token_co_wf(co: Seq<u8>, t: Seq<char>)
    requires
        wf_co(co),
    ensures
        wf_co(g1_token_co(co, t)),
{
    if t == "u"@ || t == "u'"@ {
        crate::cube::lemma_permute4_below(co, 0, 1, 2, 3, t == "u"@, 8, 3);
    } else if t == "d"@ || t == "d'"@ {
        crate::cube::lemma_permute4_below(co, 7, 6, 5, 4, t == "d"@, 8, 3);
    } else if t == "l"@ || t == "l'"@ {
        crate::cube::lemma_twist4_below(co, 2, 1, 5, 6, 8);
        crate::cube::lemma_permute4_below(
            crate::cube::twist4(co, 2, 1, 5, 6),
            2,
            1,
            5,
            6,
            t == "l"@,
            8,
            3,
        );
    } else if t == "r"@ || t == "r'"@ {
        crate::cube::lemma_twist4_below(co, 0, 3, 7, 4, 8);
        crate::cube::lemma_permute4_below(
            crate::cube::twist4(co, 0, 3, 7, 4),
            0,
            3,
            7,
            4,
            t == "r"@,
            8,
            3,
        );
    } else if t == "f2"@ {
        crate::cube::lemma_twist4_below(co, 1, 0, 4, 5, 8);
        crate::cube::lemma_permute4_below(
            crate::cube::twist4(co, 1, 0, 4, 5),
            1,
            0,
            4,
            5,
            true,
            8,
            3,
        );
        let co1 = co_layer(co, 1, 0, 4, 5, true);
        crate::cube::lemma_twist4_below(co1, 1, 0, 4, 5, 8);
        crate::cube::lemma_permute4_below(
            crate::cube::twist4(co1, 1, 0, 4, 5),
            1,
            0,
            4,
            5,
            true,
            8,
            3,
        );
    } else if t == "b2"@ {
        crate::cube::lemma_twist4_below(co, 3, 2, 6, 7, 8);
        crate::cube::lemma_permute4_below(
            crate::cube::twist4(co, 3, 2, 6, 7),
            3,
            2,
            6,
            7,
            true,
            8,
            3,
        );
        let co1 = co_layer(co, 3, 2, 6, 7, true);
        crate::cube::lemma_twist4_below(co1, 3, 2, 6, 7, 8);
        crate::cube::lemma_permute4_below(
            crate::cube::twist4(co1, 3, 2, 6, 7),
            3,
            2,
            6,
            7,
            true,
            8,
            3,
        );
    }
}

/// One phase-1 token keeps a cube that meets the phase-0 goal at the
/// phase-0 goal: up, down, left and right turns only carry edge flips
/// along their rings, and a front or back half-turn flips each of its
/// ring edges twice.
#[verifier::rlimit(100)]
pub proof fn lemma_g1_token_keeps_oriented(v: CubeView, t: Seq<char>)
    requires
        v.wf(),
        edges_oriented(v),
        is_g1_token(t),
    ensures
        edges_oriented(spec_apply_sequence(v, t)),
{
    reveal_strlit("u");
    reveal_strlit("u'");
    reveal_strlit("d");
    reveal_strlit("d'");
    reveal_strlit("l");
    reveal_strlit("l'");
    reveal_strlit("r");
    reveal_strlit("r'");
    reveal_strlit("f2");
    reveal_strlit("b2");
    let eo = v.edge_orientations;
    if t == "u"@ {
        assert(t =~= seq!['u']);
        lemma_parse_single(v, 'u');
    } else if t == "u'"@ {
        assert(t =~= seq!['u', '\'']);
        lemma_parse_prime(v, 'u');
    } else if t == "d"@ {
        assert(t =~= seq!['d']);
        lemma_parse_single(v, 'd');
    } else if t == "d'"@ {
        assert(t =~= seq!['d', '\'']);
        lemma_parse_prime(v, 'd');
    } else if t == "l"@ {
        assert(t =~= seq!['l']);
        lemma_parse_single(v, 'l');
    } else if t == "l'"@ {
        assert(t =~= seq!['l', '\'']);
        lemma_parse_prime(v, 'l');
    } else if t == "r"@ {
        assert(t =~= seq!['r']);
        lemma_parse_single(v, 'r');
    } else if t == "r'"@ {
        assert(t =~= seq!['r', '\'']);
        lemma_parse_prime(v, 'r');
    } else if t == "f2"@ {
        assert(t =~= seq!['f', '2']);
        lemma_parse_half(v, 'f');
        crate::cube::lemma_double_edge_flip_keeps_zero(eo, 0, 4, 8, 5, true);
    } else {
        assert(t == "b2"@);
        assert(t =~= seq!['b', '2']);
        lemma_parse_half(v, 'b');
        crate::cube::lemma_double_edge_flip_keeps_zero(eo, 2, 6, 10, 7, true);
    }
}

/// A whole phase-1 token list keeps a cube that meets the phase-0 goal
/// at the phase-0 goal: the restricted move set never re-breaks solved
/// edge orientations.
pub proof fn lemma_g1_tokens_keep_oriented(v: CubeView, toks: Seq<Seq<char>>)
    requires
        v.wf(),
        edges_oriented(v),
        all_g1_tokens(toks),
    ensures
        edges_oriented(spec_apply_tokens(v, toks)),
    decreases toks.len(),
{
    if toks.len() > 0 {
        let v1 = spec_apply_sequence(v, toks[0]);
        lemma_g1_token_keeps_oriented(v, toks[0]);
        crate::cube::lemma_sequence_preserves_wf(v, toks[0]);
        assert(all_g1_tokens(toks.drop_first())) by {
            assert(forall|i: int|
                0 <= i < toks.drop_first().len() ==> toks.drop_first()[i] == toks[i + 1]);
        }
        lemma_g1_tokens_keep_oriented(v1, toks.drop_first());
    }
}

/// Every successor, under the phase-1 move set, of a corner-orientation
/// array whose coordinate is in `done` has its coordinate in `seen`.
pub open spec fn g1_co_closed(done: Set<u32>, seen: Set<u32>) -> bool {
    forall|co: Seq<u8>, t: Seq<char>|
        wf_co(co) && done.contains(co_coord(co)) && is_g1_token(t) ==> seen.contains(
            #[trigger] co_coord(g1_token_co(co, t)),
        )
}

/// The corner-orientation array after a whole list of phase-1 tokens,
/// applied left to right.
pub open spec fn g1_tokens_co(co: Seq<u8>, toks: Seq<Seq<char>>) -> Seq<u8>
    decreases toks.len(),
{
    if toks.len() == 0 {
        co
    } else {
        g1_token_co(g1_tokens_co(co, toks.drop_last()), toks.last())
    }
}

/// Applying a phase-1 token list to a cube moves its corner orientations
/// exactly as the token-by-token fold says, and keeps the array well
/// formed.
pub proof fn lemma_g1_tokens_co_apply(v: CubeView, toks: Seq<Seq<char>>)
    requires
        v.wf(),
        all_g1_tokens(toks),
    ensures
        spec_apply_tokens(v, toks).corner_orientations == g1_tokens_co(
            v.corner_orientations,
            toks,
        ),
        wf_co(g1_tokens_co(v.corner_orientations, toks)),
    decreases toks.len(),
{
    if toks.len() > 0 {
        let pre = toks.drop_last();
        let t = toks.last();
        assert(all_g1_tokens(pre)) by {
            assert(forall|i: int| 0 <= i < pre.len() ==> pre[i] == toks[i]);
        }
        lemma_g1_tokens_co_apply(v, pre);
        lemma_apply_tokens_wf(v, pre);
        assert(pre.push(t) =~= toks);
        lemma_apply_tokens_push(v, pre, t);
        lemma_g1_token_co(spec_apply_tokens(v, pre), t);
        lemma_g1_token_co_wf(g1_tokens_co(v.corner_orientations, pre), t);
    }
}

/// A well-formed corner-orientation array stays well formed under any
/// phase-1 token list.
pub(crate) proof fn lemma_g1_tokens_co_wf_chain(co: Seq<u8>, toks: Seq<Seq<char>>)
    requires
        wf_co(co),
        all_g1_tokens(toks),
    ensures
        wf_co(g1_tokens_co(co, toks)),
    decreases toks.len(),
{
    if toks.len() > 0 {
        let pre = toks.drop_last();
        assert(all_g1_tokens(pre)) by {
            assert(forall|i: int| 0 <= i < pre.len() ==> pre[i] == toks[i]);
        }
        lemma_g1_tokens_co_wf_chain(co, pre);
        lemma_g1_token_co_wf(g1_tokens_co(co, pre), toks.last());
    }
}

/// The depth-aware closure of the table build: every successor of a
/// processed corner-orientation coordinate is recorded, at most one
/// layer deeper.
pub open spec fn g1_co_depth_closed(done: Set<u32>, depth_of: Map<u32, int>) -> bool {
    forall|co: Seq<u8>, t: Seq<char>|
        wf_co(co) && done.contains(co_coord(co)) && is_g1_token(t) ==> {
            &&& depth_of.contains_key(#[trigger] co_coord(g1_token_co(co, t)))
            &&& depth_of[co_coord(g1_token_co(co, t))] <= depth_of[co_coord(co)] + 1
        }
}

/// The layer numbers of the table build are lower bounds on the length
/// of any phase-1 token list: while every coordinate recorded below the
/// frontier depth has been expanded, any token list no longer than that
/// depth ends on a recorded coordinate whose layer number does not
/// exceed the list's length.
pub proof fn lemma_g1_ball_covered(
    done: Set<u32>,
    depth_of: Map<u32, int>,
    sco: Seq<u8>,
    toks: Seq<Seq<char>>,
    frontier: int,
)
    requires
        wf_co(sco),
        depth_of.contains_key(co_coord(sco)),
        depth_of[co_coord(sco)] == 0,
        all_g1_tokens(toks),
        g1_co_depth_closed(done, depth_of),
        forall|k: u32|
            #[trigger] depth_of.contains_key(k) && depth_of[k] < frontier ==> done.contains(k),
        toks.len() <= frontier,
    ensures
        depth_of.contains_key(co_coord(g1_tokens_co(sco, toks))),
        depth_of[co_coord(g1_tokens_co(sco, toks))] <= toks.len(),
    decreases toks.len(),
{
    if toks.len() > 0 {
        let pre = toks.drop_last();
        let t = toks.last();
        assert(all_g1_tokens(pre)) by {
            assert(forall|i: int| 0 <= i < pre.len() ==> pre[i] == toks[i]);
        }
        lemma_g1_ball_covered(done, depth_of, sco, pre, frontier);
        let mid = g1_tokens_co(sco, pre);
        assert(wf_co(mid)) by {
            lemma_g1_tokens_co_wf_chain(sco, pre);
        }
        assert(depth_of[co_coord(mid)] < frontier);
        assert(done.contains(co_coord(mid)));
    }
}

/// What one phase-1 token does to the edge-permutation array: each
/// token rotates its edge ring once, a front or back half-turn twice.
/// The edge permutation after a token is a function of the edge
/// permutation before it alone.
pub open spec fn g1_token_ep(ep: Seq<u8>, t: Seq<char>) -> Seq<u8> {
    if t == "u"@ {
        crate::cube::permute4(ep, 0, 1, 2, 3, true)
    } else if t == "u'"@ {
        crate::cube::permute4(ep, 0, 1, 2, 3, false)
    } else if t == "d"@ {
        crate::cube::permute4(ep, 11, 10, 9, 8, true)
    } else if t == "d'"@ {
        crate::cube::permute4(ep, 11, 10, 9, 8, false)
    } else if t == "l"@ {
        crate::cube::permute4(ep, 1, 5, 9, 6, true)
    } else if t == "l'"@ {
        crate::cube::permute4(ep, 1, 5, 9, 6, false)
    } else if t == "r"@ {
        crate::cube::permute4(ep, 3, 7, 11, 4, true)
    } else if t == "r'"@ {
        crate::cube::permute4(ep, 3, 7, 11, 4, false)
    } else if t == "f2"@ {
        crate::cube::permute4(crate::cube::permute4(ep, 0, 4, 8, 5, true), 0, 4, 8, 5, true)
    } else if t == "b2"@ {
        crate::cube::permute4(crate::cube::permute4(ep, 2, 6, 10, 7, true), 2, 6, 10, 7, true)
    } else {
        ep
    }
}

/// Applying one phase-1 token transforms the edge-permutation array
/// exactly as `g1_token_ep` says.
pub proof fn lemma_g1_token_ep(v: CubeView, t: Seq<char>)
    requires
        is_g1_token(t),
    ensures
        spec_apply_sequence(v, t).edge_permutations == g1_token_ep(v.edge_permutations, t),
{
    reveal_strlit("u");
    reveal_strlit("u'");
    reveal_strlit("d");
    reveal_strlit("d'");
    reveal_strlit("l");
    reveal_strlit("l'");
    reveal_strlit("r");
    reveal_strlit("r'");
    reveal_strlit("f2");
    reveal_strlit("b2");
    if t == "u"@ {
        assert(t =~= seq!['u']);
        lemma_parse_single(v, 'u');
    } else if t == "u'"@ {
        assert(t =~= seq!['u', '\'']);
        lemma_parse_prime(v, 'u');
    } else if t == "d"@ {
        assert(t =~= seq!['d']);
        lemma_parse_single(v, 'd');
    } else if t == "d'"@ {
        assert(t =~= seq!['d', '\'']);
        lemma_parse_prime(v, 'd');
    } else if t == "l"@ {
        assert(t =~= seq!['l']);
        lemma_parse_single(v, 'l');
    } else if t == "l'"@ {
        assert(t =~= seq!['l', '\'']);
        lemma_parse_prime(v, 'l');
    } else if t == "r"@ {
        assert(t =~= seq!['r']);
        lemma_parse_single(v, 'r');
    } else if t == "r'"@ {
        assert(t =~= seq!['r', '\'']);
        lemma_parse_prime(v, 'r');
    } else if t == "f2"@ {
        assert(t =~= seq!['f', '2']);
        lemma_parse_half(v, 'f');
    } else {
        assert(t == "b2"@);
        assert(t =~= seq!['b', '2']);
        lemma_parse_half(v, 'b');
    }
}

/// One phase-1 token keeps the edge-permutation array a bijection.
pub proof fn lemma_g1_token_ep_wf(ep: Seq<u8>, t: Seq<char>)
    requires
        crate::cube::is_permutation(ep, 12),
    ensures
        crate::cube::is_permutation(g1_token_ep(ep, t), 12),
{
    if t == "u"@ || t == "u'"@ {
        crate::cube::lemma_permute4_is_permutation(ep, 0, 1, 2, 3, t == "u"@, 12);
    } else if t == "d"@ || t == "d'"@ {
        crate::cube::lemma_permute4_is_permutation(ep, 11, 10, 9, 8, t == "d"@, 12);
    } else if t == "l"@ || t == "l'"@ {
        crate::cube::lemma_permute4_is_permutation(ep, 1, 5, 9, 6, t == "l"@, 12);
    } else if t == "r"@ || t == "r'"@ {
        crate::cube::lemma_permute4_is_permutation(ep, 3, 7, 11, 4, t == "r"@, 12);
    } else if t == "f2"@ {
        crate::cube::lemma_permute4_is_permutation(ep, 0, 4, 8, 5, true, 12);
        crate::cube::lemma_permute4_is_permutation(
            crate::cube::permute4(ep, 0, 4, 8, 5, true),
            0,
            4,
            8,
            5,
            true,
            12,
        );
    } else if t == "b2"@ {
        crate::cube::lemma_permute4_is_permutation(ep, 2, 6, 10, 7, true, 12);
        crate::cube::lemma_permute4_is_permutation(
            crate::cube::permute4(ep, 2, 6, 10, 7, true),
            2,
            6,
            10,
            7,
            true,
            12,
        );
    }
}

/// The edge-permutation array after a whole list of phase-1 tokens.
pub open spec fn g1_tokens_ep(ep: Seq<u8>, toks: Seq<Seq<char>>) -> Seq<u8>
    decreases toks.len(),
{
    if toks.len() == 0 {
        ep
    } else {
        g1_token_ep(g1_tokens_ep(ep, toks.drop_last()), toks.last())
    }
}

/// Applying a phase-1 token list moves the edge permutation exactly as
/// the token-by-token fold says, and keeps it a bijection.
pub proof fn lemma_g1_tokens_ep_apply(v: CubeView, toks: Seq<Seq<char>>)
    requires
        v.wf(),
        all_g1_tokens(toks),
    ensures
        spec_apply_tokens(v, toks).edge_permutations == g1_tokens_ep(v.edge_permutations, toks),
        crate::cube::is_permutation(g1_tokens_ep(v.edge_permutations, toks), 12),
    decreases toks.len(),
{
    if toks.len() > 0 {
        let pre = toks.drop_last();
        let t = toks.last();
        assert(all_g1_tokens(pre)) by {
            assert(forall|i: int| 0 <= i < pre.len() ==> pre[i] == toks[i]);
        }
        lemma_g1_tokens_ep_apply(v, pre);
        lemma_apply_tokens_wf(v, pre);
        assert(pre.push(t) =~= toks);
        lemma_apply_tokens_push(v, pre, t);
        lemma_g1_token_ep(spec_apply_tokens(v, pre), t);
        lemma_g1_token_ep_wf(g1_tokens_ep(v.edge_permutations, pre), t);
    }
}

/// The lossless phase-1 search key: the edge permutation read as twelve
/// base-12 digits, scaled past the corner-orientation range, plus the
/// corner-orientation coordinate.  Phase-1 moves change nothing the
/// phase-1 goal reads except these two arrays, and each transforms as a
/// function of itself, so a visited set over this key prunes no state
/// the search would still need.
pub open spec fn g1_state_key(ep: Seq<u8>, co: Seq<u8>) -> u64 {
    (spec_orientation_index(ep, 12) * 6561 + spec_orientation_index(co, 3)) as u64
}

/// The phase-1 goal read off the two arrays the key carries.
pub open spec fn g1_pair_solved(ep: Seq<u8>, co: Seq<u8>) -> bool {
    spec_combination_index(spec_sorted_ascending(seq![ep[0], ep[2], ep[8], ep[10]])) * pow_int(
        3,
        7,
    ) + spec_orientation_index(co, 3) == 10080200 * pow_int(3, 7)
}

/// The state key of a well-formed pair fits its 64-bit carrier.
pub proof fn lemma_g1_state_key_value(ep: Seq<u8>, co: Seq<u8>)
    requires
        crate::cube::is_permutation(ep, 12),
        wf_co(co),
    ensures
        g1_state_key(ep, co) == spec_orientation_index(ep, 12) * 6561 + spec_orientation_index(
            co,
            3,
        ),
        g1_state_key(ep, co) < 0x1000000000000000,
{
    lemma_orientation_index_nonneg(ep, 12);
    lemma_orientation_index_bound(ep, 12);
    lemma_orientation_index_nonneg(co, 3);
    lemma_orientation_index_bound(co, 3);
    assert(pow_int(12, 12) == 8916100448256) by {
        reveal_with_fuel(pow_int, 13);
    }
    assert(pow_int(3, 8) == 6561) by {
        reveal_with_fuel(pow_int, 9);
    }
    let a = spec_orientation_index(ep, 12);
    assert(0 <= a * 6561 <= 8916100448255 * 6561) by (nonlinear_arith)
        requires
            0 <= a <= 8916100448255,
    ;
}

/// The state key is injective on well-formed pairs.
pub proof fn lemma_g1_state_key_injective(ep1: Seq<u8>, co1: Seq<u8>, ep2: Seq<u8>, co2: Seq<u8>)
    requires
        crate::cube::is_permutation(ep1, 12),
        wf_co(co1),
        crate::cube::is_permutation(ep2, 12),
        wf_co(co2),
        g1_state_key(ep1, co1) == g1_state_key(ep2, co2),
    ensures
        ep1 == ep2,
        co1 == co2,
{
    lemma_g1_state_key_value(ep1, co1);
    lemma_g1_state_key_value(ep2, co2);
    lemma_orientation_index_nonneg(co1, 3);
    lemma_orientation_index_bound(co1, 3);
    lemma_orientation_index_nonneg(co2, 3);
    lemma_orientation_index_bound(co2, 3);
    assert(pow_int(3, 8) == 6561) by {
        reveal_with_fuel(pow_int, 9);
    }
    let a1 = spec_orientation_index(ep1, 12);
    let b1 = spec_orientation_index(co1, 3);
    let a2 = spec_orientation_index(ep2, 12);
    let b2 = spec_orientation_index(co2, 3);
    assert(a1 == a2 && b1 == b2) by (nonlinear_arith)
        requires
            a1 * 6561 + b1 == a2 * 6561 + b2,
            0 <= b1 < 6561,
            0 <= b2 < 6561,
    ;
    lemma_orientation_index_injective(ep1, ep2, 12);
    lemma_orientation_index_injective(co1, co2, 3);
}

/// Every phase-1 successor of a pair whose key is in `done` has its key
/// in `seen`.
pub open spec fn g1_key_closed(done: Set<u64>, seen: Set<u64>) -> bool {
    forall|ep: Seq<u8>, co: Seq<u8>, t: Seq<char>|
        crate::cube::is_permutation(ep, 12) && wf_co(co) && done.contains(g1_state_key(ep, co))
            && is_g1_token(t) ==> seen.contains(
            #[trigger] g1_state_key(g1_token_ep(ep, t), g1_token_co(co, t)),
        )
}

/// When the phase-1 search has seen a key set that contains the start,
/// is closed under every phase-1 move and holds no goal pair, no
/// phase-1 token list can reach the phase-1 goal from the start.
proof fn lemma_g1_exhausted(done: Set<u64>, v: CubeView, toks: Seq<Seq<char>>)
    requires
        v.wf(),
        done.contains(g1_state_key(v.edge_permutations, v.corner_orientations)),
        g1_key_closed(done, done),
        forall|ep: Seq<u8>, co: Seq<u8>|
            crate::cube::is_permutation(ep, 12) && wf_co(co) && done.contains(
                #[trigger] g1_state_key(ep, co),
            ) ==> !g1_pair_solved(ep, co),
        all_g1_tokens(toks),
    ensures
        !g1_solved(spec_apply_tokens(v, toks)),
    decreases toks.len(),
{
    if toks.len() == 0 {
        assert(!g1_pair_solved(v.edge_permutations, v.corner_orientations));
        assert(spec_slice_edges(v) =~= seq![
            v.edge_permutations[0],
            v.edge_permutations[2],
            v.edge_permutations[8],
            v.edge_permutations[10],
        ]);
    } else {
        let t = toks[0];
        let v1 = spec_apply_sequence(v, t);
        lemma_g1_token_ep(v, t);
        lemma_g1_token_co(v, t);
        crate::cube::lemma_sequence_preserves_wf(v, t);
        assert(done.contains(g1_state_key(
            g1_token_ep(v.edge_permutations, t),
            g1_token_co(v.corner_orientations, t),
        )));
        assert(all_g1_tokens(toks.drop_first())) by {
            assert(forall|i: int|
                0 <= i < toks.drop_first().len() ==> toks.drop_first()[i] == toks[i + 1]);
        }
        lemma_g1_exhausted(done, v1, toks.drop_first());
    }
}

/// The depth-aware closure of the phase-1 search: every successor of a
/// processed pair is recorded, at most one layer deeper.
pub open spec fn g1_key_depth_closed(done: Set<u64>, depth_of: Map<u64, int>) -> bool {
    forall|ep: Seq<u8>, co: Seq<u8>, t: Seq<char>|
        crate::cube::is_permutation(ep, 12) && wf_co(co) && done.contains(g1_state_key(ep, co))
            && is_g1_token(t) ==> {
            &&& depth_of.contains_key(
                #[trigger] g1_state_key(g1_token_ep(ep, t), g1_token_co(co, t)),
            )
            &&& depth_of[g1_state_key(g1_token_ep(ep, t), g1_token_co(co, t))] <= depth_of[
                g1_state_key(ep, co)
            ] + 1
        }
}

/// The layer numbers of the phase-1 search are lower bounds on the
/// length of any phase-1 token list, while every pair recorded below
/// the frontier depth has been expanded.
proof fn lemma_g1_key_ball_covered(
    done: Set<u64>,
    depth_of: Map<u64, int>,
    v: CubeView,
    toks: Seq<Seq<char>>,
    frontier: int,
)
    requires
        v.wf(),
        depth_of.contains_key(g1_state_key(v.edge_permutations, v.corner_orientations)),
        depth_of[g1_state_key(v.edge_permutations, v.corner_orientations)] == 0,
        all_g1_tokens(toks),
        g1_key_depth_closed(done, depth_of),
        forall|k: u64|
            #[trigger] depth_of.contains_key(k) && depth_of[k] < frontier ==> done.contains(k),
        toks.len() <= frontier,
    ensures
        depth_of.contains_key(
            g1_state_key(
                g1_tokens_ep(v.edge_permutations, toks),
                g1_tokens_co(v.corner_orientations, toks),
            ),
        ),
        depth_of[g1_state_key(
            g1_tokens_ep(v.edge_permutations, toks),
            g1_tokens_co(v.corner_orientations, toks),
        )] <= toks.len(),
    decreases toks.len(),
{
    if toks.len() > 0 {
        let pre = toks.drop_last();
        let t = toks.last();
        assert(all_g1_tokens(pre)) by {
            assert(forall|i: int| 0 <= i < pre.len() ==> pre[i] == toks[i]);
        }
        lemma_g1_key_ball_covered(done, depth_of, v, pre, frontier);
        let mep = g1_tokens_ep(v.edge_permutations, pre);
        let mco = g1_tokens_co(v.corner_orientations, pre);
        assert(crate::cube::is_permutation(mep, 12)) by {
            lemma_g1_tokens_ep_apply(v, pre);
        }
        assert(wf_co(mco)) by {
            lemma_g1_tokens_co_wf_chain(v.corner_orientations, pre);
        }
        assert(depth_of[g1_state_key(mep, mco)] < frontier);
        assert(done.contains(g1_state_key(mep, mco)));
    }
}

/// A coordinate set that contains a cube's corner-orientation coordinate
/// and is closed under every phase-1 move covers the coordinate of every
/// cube reachable from it by phase-1 tokens.
pub proof fn lemma_g1_co_cover(done: Set<u32>, v: CubeView, toks: Seq<Seq<char>>)
    requires
        v.wf(),
        done.contains(co_coord(v.corner_orientations)),
        g1_co_closed(done, done),
        all_g1_tokens(toks),
    ensures
        done.contains(co_coord(spec_apply_tokens(v, toks).corner_orientations)),
    decreases toks.len(),
{
    if toks.len() > 0 {
        let t = toks[0];
        let v1 = spec_apply_sequence(v, t);
        lemma_g1_token_co(v, t);
        crate::cube::lemma_sequence_preserves_wf(v, t);
        assert(done.contains(co_coord(g1_token_co(v.corner_orientations, t))));
        assert(all_g1_tokens(toks.drop_first())) by {
            assert(forall|i: int|
                0 <= i < toks.drop_first().len() ==> toks.drop_first()[i] == toks[i + 1]);
        }
        lemma_g1_co_cover(done, v1, toks.drop_first());
    }
}

/// Applying a token list with one more token at its end is applying the
/// list and then the extra token.
pub proof fn lemma_apply_tokens_push(v: CubeView, toks: Seq<Seq<char>>, t: Seq<char>)
    ensures
        spec_apply_tokens(v, toks.push(t)) == spec_apply_sequence(spec_apply_tokens(v, toks), t),
    decreases toks.len(),
{
    let p = toks.push(t);
    assert(p.len() == toks.len() + 1);
    assert(spec_apply_tokens(v, p) == spec_apply_tokens(spec_apply_sequence(v, p[0]), p.drop_first()));
    if toks.len() == 0 {
        assert(p[0] == t);
        assert(p.drop_first() =~= Seq::<Seq<char>>::empty());
        assert(spec_apply_tokens(spec_apply_sequence(v, t), Seq::<Seq<char>>::empty())
            == spec_apply_sequence(v, t));
        assert(spec_apply_tokens(v, toks) == v);
    } else {
        assert(p[0] == toks[0]);
        assert(p.drop_first() =~= toks.drop_first().push(t));
        lemma_apply_tokens_push(spec_apply_sequence(v, toks[0]), toks.drop_first(), t);
        assert(spec_apply_tokens(v, toks) == spec_apply_tokens(
            spec_apply_sequence(v, toks[0]),
            toks.drop_first(),
        ));
    }
}

/// Applying any token list preserves the cube invariant.
pub proof fn lemma_apply_tokens_wf(v: CubeView, toks: Seq<Seq<char>>)
    requires
        v.wf(),
    ensures
        spec_apply_tokens(v, toks).wf(),
    decreases toks.len(),
{
    if toks.len() > 0 {
        crate::cube::lemma_sequence_preserves_wf(v, toks[0]);
        lemma_apply_tokens_wf(spec_apply_sequence(v, toks[0]), toks.drop_first());
    }
}

/// The edge-orientation array after a whole list of phase-0 tokens,
/// applied left to right.
pub open spec fn g0_tokens_eo(eo: Seq<u8>, toks: Seq<Seq<char>>) -> Seq<u8>
    decreases toks.len(),
{
    if toks.len() == 0 {
        eo
    } else {
        g0_token_eo(g0_tokens_eo(eo, toks.drop_last()), toks.last())
    }
}

/// Applying a phase-0 token list to a cube moves its edge orientations
/// exactly as the token-by-token fold says, and keeps the array well
/// formed.
pub proof fn lemma_g0_tokens_eo_apply(v: CubeView, toks: Seq<Seq<char>>)
    requires
        v.wf(),
        all_g0_tokens(toks),
    ensures
        spec_apply_tokens(v, toks).edge_orientations == g0_tokens_eo(v.edge_orientations, toks),
        wf_eo(g0_tokens_eo(v.edge_orientations, toks)),
    decreases toks.len(),
{
    if toks.len() == 0 {
    } else {
        let pre = toks.drop_last();
        let t = toks.last();
        assert(all_g0_tokens(pre)) by {
            assert(forall|i: int| 0 <= i < pre.len() ==> pre[i] == toks[i]);
        }
        lemma_g0_tokens_eo_apply(v, pre);
        lemma_apply_tokens_wf(v, pre);
        assert(pre.push(t) =~= toks);
        lemma_apply_tokens_push(v, pre, t);
        lemma_g0_token_eo(spec_apply_tokens(v, pre), t);
        lemma_g0_token_eo_wf(g0_tokens_eo(v.edge_orientations, pre), t);
    }
}

/// The depth-aware closure of the phase-0 search: every successor of a
/// processed coordinate is recorded, at most one layer deeper.
pub open spec fn g0_depth_closed(done: Set<u32>, depth_of: Map<u32, int>) -> bool {
    forall|eo: Seq<u8>, t: Seq<char>|
        wf_eo(eo) && done.contains(eo_coord(eo)) && is_g0_token(t) ==> {
            &&& depth_of.contains_key(#[trigger] eo_coord(g0_token_eo(eo, t)))
            &&& depth_of[eo_coord(g0_token_eo(eo, t))] <= depth_of[eo_coord(eo)] + 1
        }
}

/// The layer numbers of a breadth-first search are lower bounds on the
/// length of any token list: while every coordinate recorded below the
/// current frontier depth has already been expanded, any token list no
/// longer than that depth ends on a recorded coordinate whose layer
/// number does not exceed the list's length.
proof fn lemma_g0_ball_covered(
    done: Set<u32>,
    depth_of: Map<u32, int>,
    seo: Seq<u8>,
    toks: Seq<Seq<char>>,
    frontier: int,
)
    requires
        wf_eo(seo),
        depth_of.contains_key(eo_coord(seo)),
        depth_of[eo_coord(seo)] == 0,
        all_g0_tokens(toks),
        g0_depth_closed(done, depth_of),
        forall|k: u32|
            #[trigger] depth_of.contains_key(k) && depth_of[k] < frontier ==> done.contains(k),
        toks.len() <= frontier,
    ensures
        depth_of.contains_key(eo_coord(g0_tokens_eo(seo, toks))),
        depth_of[eo_coord(g0_tokens_eo(seo, toks))] <= toks.len(),
    decreases toks.len(),
{
    if toks.len() > 0 {
        let pre = toks.drop_last();
        let t = toks.last();
        assert(all_g0_tokens(pre)) by {
            assert(forall|i: int| 0 <= i < pre.len() ==> pre[i] == toks[i]);
        }
        lemma_g0_ball_covered(done, depth_of, seo, pre, frontier);
        let mid = g0_tokens_eo(seo, pre);
        assert(wf_eo(mid)) by {
            lemma_g0_tokens_eo_wf_chain(seo, pre);
        }
        assert(depth_of[eo_coord(mid)] < frontier);
        assert(done.contains(eo_coord(mid)));
    }
}

/// A well-formed edge-orientation array stays well formed under any
/// phase-0 token list.
proof fn lemma_g0_tokens_eo_wf_chain(eo: Seq<u8>, toks: Seq<Seq<char>>)
    requires
        wf_eo(eo),
        all_g0_tokens(toks),
    ensures
        wf_eo(g0_tokens_eo(eo, toks)),
    decreases toks.len(),
{
    if toks.len() > 0 {
        let pre = toks.drop_last();
        assert(all_g0_tokens(pre)) by {
            assert(forall|i: int| 0 <= i < pre.len() ==> pre[i] == toks[i]);
        }
        lemma_g0_tokens_eo_wf_chain(eo, pre);
        lemma_g0_token_eo_wf(g0_tokens_eo(eo, pre), toks.last());
    }
}

/// The set of 32-bit values below `n` is finite, with at most `n`
/// members.
pub(crate) proof fn lemma_u32_range_finite(n: u32)
    ensures
        Set::new(|x: u32| x < n).finite(),
        Set::new(|x: u32| x < n).len() <= n,
    decreases n,
{
    if n == 0 {
        assert(Set::new(|x: u32| x < n) =~= Set::<u32>::empty());
    } else {
        lemma_u32_range_finite((n - 1) as u32);
        assert(Set::new(|x: u32| x < n) =~= Set::new(|x: u32| x < (n - 1) as u32).insert(
            (n - 1) as u32,
        ));
    }
}

/// The set of 64-bit values below `n` is finite, with at most `n`
/// members.
proof fn lemma_u64_range_finite(n: u64)
    ensures
        Set::new(|x: u64| x < n).finite(),
        Set::new(|x: u64| x < n).len() <= n,
    decreases n,
{
    if n == 0 {
        assert(Set::new(|x: u64| x < n) =~= Set::<u64>::empty());
    } else {
        lemma_u64_range_finite((n - 1) as u64);
        assert(Set::new(|x: u64| x < n) =~= Set::new(|x: u64| x < (n - 1) as u64).insert(
            (n - 1) as u64,
        ));
    }
}

/// A fresh copy of a token list carrying the same move text.
fn copy_tokens(v: &Vec<String>) -> (r: Vec<String>)
    ensures
        r.deep_view() == v.deep_view(),
        r@.len() == v@.len(),
{
    let mut r: Vec<String> = Vec::new();
    let mut i: usize = 0;
    while i < v.len()
        invariant
            i <= v@.len(),
            r@.len() == i,
            forall|k: int| 0 <= k < i ==> r@[k]@ == v@[k]@,
        decreases v@.len() - i,
    {
        r.push(v[i].clone());
        i = i + 1;
    }
    proof {
        assert(r.deep_view() =~= v.deep_view());
    }
    r
}

/// `base` raised to the power `e`.
pub open spec fn pow_int(base: int, e: nat) -> int
    decreases e,
{
    if e == 0 {
        1
    } else {
        base * pow_int(base, (e - 1) as nat)
    }
}

/// A power of a base of at least 1 is at least 1.
pub proof fn lemma_pow_int_pos(base: int, e: nat)
    requires
        1 <= base,
    ensures
        1 <= pow_int(base, e),
    decreases e,
{
    if e > 0 {
        lemma_pow_int_pos(base, (e - 1) as nat);
        assert(base * pow_int(base, (e - 1) as nat) >= pow_int(base, (e - 1) as nat))
            by (nonlinear_arith)
            requires
                1 <= base,
                1 <= pow_int(base, (e - 1) as nat),
        ;
    }
}

/// Powers of a base of at least 1 grow with the exponent.
pub proof fn lemma_pow_int_mono(base: int, e1: nat, e2: nat)
    requires
        1 <= base,
        e1 <= e2,
    ensures
        pow_int(base, e1) <= pow_int(base, e2),
    decreases e2,
{
    if e1 < e2 {
        lemma_pow_int_mono(base, e1, (e2 - 1) as nat);
        lemma_pow_int_pos(base, (e2 - 1) as nat);
        assert(base * pow_int(base, (e2 - 1) as nat) >= pow_int(base, (e2 - 1) as nat))
            by (nonlinear_arith)
            requires
                1 <= base,
                1 <= pow_int(base, (e2 - 1) as nat),
        ;
    }
}

/// The orientation coordinate: the digits of `s`, most significant
/// first, read as a number in base `modulus`.
pub open spec fn spec_orientation_index(s: Seq<u8>, modulus: u8) -> int
    decreases s.len(),
{
    if s.len() == 0 {
        0
    } else {
        spec_orientation_index(s.drop_last(), modulus) * modulus + s.last()
    }
}

/// An all-zero orientation array encodes to coordinate zero.
pub proof fn lemma_orientation_index_zeros(s: Seq<u8>, modulus: u8)
    requires
        forall|i: int| 0 <= i < s.len() ==> s[i] == 0,
    ensures
        spec_orientation_index(s, modulus) == 0,
    decreases s.len(),
{
    if s.len() > 0 {
        lemma_orientation_index_zeros(s.drop_last(), modulus);
    }
}

/// An orientation coordinate is never negative.
pub proof fn lemma_orientation_index_nonneg(s: Seq<u8>, modulus: u8)
    ensures
        0 <= spec_orientation_index(s, modulus),
    decreases s.len(),
{
    if s.len() > 0 {
        lemma_orientation_index_nonneg(s.drop_last(), modulus);
        let v = spec_orientation_index(s.drop_last(), modulus);
        assert(v * modulus >= 0) by (nonlinear_arith)
            requires
                0 <= v,
                0 <= modulus,
        ;
    }
}

/// Decodes an orientation coordinate back into `n` digits below the
/// modulus, most significant first, by repeated division and remainder.
pub open spec fn spec_orientation_digits(index: int, modulus: u8, n: nat) -> Seq<u8>
    decreases n,
{
    if n == 0 {
        Seq::empty()
    } else {
        spec_orientation_digits(index / (modulus as int), modulus, (n - 1) as nat).push(
            (index % (modulus as int)) as u8,
        )
    }
}

/// Decoding inverts encoding: for any digit array within its modulus,
/// decoding the orientation coordinate by repeated division and
/// remainder reconstructs the exact original array.
pub proof fn lemma_orientation_index_roundtrip(s: Seq<u8>, modulus: u8)
    requires
        1 <= modulus,
        forall|i: int| 0 <= i < s.len() ==> s[i] < modulus,
    ensures
        spec_orientation_digits(spec_orientation_index(s, modulus), modulus, s.len()) == s,
    decreases s.len(),
{
    if s.len() > 0 {
        let pre = s.drop_last();
        let v = spec_orientation_index(pre, modulus);
        let m = modulus as int;
        let w = spec_orientation_index(s, modulus);
        lemma_orientation_index_roundtrip(pre, modulus);
        lemma_orientation_index_nonneg(pre, modulus);
        assert((v * m + s.last()) / m == v && (v * m + s.last()) % m == s.last())
            by (nonlinear_arith)
            requires
                0 <= v,
                0 <= s.last() < m,
        ;
        assert(spec_orientation_digits(w, modulus, s.len()) == spec_orientation_digits(
            v,
            modulus,
            pre.len(),
        ).push(s.last()));
        assert(pre.push(s.last()) =~= s);
    }
}

/// The orientation-index encoding is injective over its declared domain:
/// two digit arrays of the same length, with every digit within the
/// modulus, that encode to the same coordinate are the same array.
pub proof fn lemma_orientation_index_injective(s1: Seq<u8>, s2: Seq<u8>, modulus: u8)
    requires
        1 <= modulus,
        s1.len() == s2.len(),
        forall|i: int| 0 <= i < s1.len() ==> s1[i] < modulus,
        forall|i: int| 0 <= i < s2.len() ==> s2[i] < modulus,
        spec_orientation_index(s1, modulus) == spec_orientation_index(s2, modulus),
    ensures
        s1 == s2,
{
    lemma_orientation_index_roundtrip(s1, modulus);
    lemma_orientation_index_roundtrip(s2, modulus);
}

/// The ascending order on bytes, used to sort a combination before
/// encoding it.
pub open spec fn byte_leq() -> spec_fn(u8, u8) -> bool {
    |x: u8, y: u8| x <= y
}

/// The values of `s` sorted ascending.
pub open spec fn spec_sorted_ascending(s: Seq<u8>) -> Seq<u8> {
    s.sort_by(byte_leq())
}

/// The ascending order on bytes is a total ordering.
proof fn lemma_byte_leq_total()
    ensures
        total_ordering(byte_leq()),
{
}

/// The combination coordinate of an already-sorted combination: the
/// value at position `i` contributes `value * 100^i`, least significant
/// position first.
pub open spec fn spec_combination_index(s: Seq<u8>) -> int
    decreases s.len(),
{
    if s.len() == 0 {
        0
    } else {
        spec_combination_index(s.drop_last()) + s.last() * pow_int(100, (s.len() - 1) as nat)
    }
}

/// Bounds on the combination coordinate of at most four byte values.
pub proof fn lemma_combination_index_le(s: Seq<u8>)
    requires
        s.len() <= 4,
    ensures
        0 <= spec_combination_index(s),
        s.len() <= 1 ==> spec_combination_index(s) <= 255,
        s.len() <= 2 ==> spec_combination_index(s) <= 25755,
        s.len() <= 3 ==> spec_combination_index(s) <= 2575755,
        spec_combination_index(s) <= 257575755,
    decreases s.len(),
{
    reveal_with_fuel(pow_int, 5);
    if s.len() > 0 {
        lemma_combination_index_le(s.drop_last());
        lemma_pow_int_pos(100, (s.len() - 1) as nat);
        assert(s.drop_last().len() == s.len() - 1);
        assert(0 <= s.last() <= 255);
        let last_term = s.last() * pow_int(100, (s.len() - 1) as nat);
        if s.len() == 1 {
            assert(pow_int(100, 0) == 1);
            assert(last_term <= 255) by (nonlinear_arith)
                requires
                    last_term == s.last() * pow_int(100, (s.len() - 1) as nat),
                    pow_int(100, (s.len() - 1) as nat) == 1,
                    0 <= s.last() <= 255,
            ;
        } else if s.len() == 2 {
            assert(pow_int(100, 1) == 100);
            assert(last_term <= 25500) by (nonlinear_arith)
                requires
                    last_term == s.last() * pow_int(100, (s.len() - 1) as nat),
                    pow_int(100, (s.len() - 1) as nat) == 100,
                    0 <= s.last() <= 255,
            ;
        } else if s.len() == 3 {
            assert(pow_int(100, 2) == 10000);
            assert(last_term <= 2550000) by (nonlinear_arith)
                requires
                    last_term == s.last() * pow_int(100, (s.len() - 1) as nat),
                    pow_int(100, (s.len() - 1) as nat) == 10000,
                    0 <= s.last() <= 255,
            ;
        } else {
            assert(pow_int(100, 3) == 1000000);
            assert(last_term <= 255000000) by (nonlinear_arith)
                requires
                    last_term == s.last() * pow_int(100, (s.len() - 1) as nat),
                    pow_int(100, (s.len() - 1) as nat) == 1000000,
                    0 <= s.last() <= 255,
            ;
        }
        assert(last_term >= 0) by (nonlinear_arith)
            requires
                last_term == s.last() * pow_int(100, (s.len() - 1) as nat),
                pow_int(100, (s.len() - 1) as nat) >= 1,
                0 <= s.last(),
        ;
    }
}

/// Prepending a value to a combination multiplies the coordinate of the
/// rest by 100 and adds the value.
proof fn lemma_combination_index_cons(a: u8, s: Seq<u8>)
    ensures
        spec_combination_index(seq![a] + s) == a + 100 * spec_combination_index(s),
    decreases s.len(),
{
    reveal_with_fuel(spec_combination_index, 3);
    if s.len() == 0 {
        assert((seq![a] + s) =~= seq![a]);
        assert(seq![a].drop_last() =~= Seq::<u8>::empty());
        assert(spec_combination_index(Seq::<u8>::empty()) == 0);
        assert(seq![a].last() == a);
        assert(pow_int(100, 0) == 1);
        assert(seq![a].len() == 1);
        assert(spec_combination_index(seq![a]) == spec_combination_index(seq![a].drop_last())
            + seq![a].last() * pow_int(100, (seq![a].len() - 1) as nat));
        assert(spec_combination_index(seq![a].drop_last()) == 0);
        assert((seq![a].len() - 1) as nat == 0);
        assert(seq![a].last() * pow_int(100, 0) == a) by (nonlinear_arith)
            requires
                seq![a].last() == a,
                pow_int(100, 0) == 1,
        ;
        assert(spec_combination_index(seq![a]) == a);
    } else {
        let t = seq![a] + s;
        assert(t.drop_last() =~= seq![a] + s.drop_last());
        lemma_combination_index_cons(a, s.drop_last());
        assert(t.last() == s.last());
        let p = pow_int(100, (s.len() - 1) as nat);
        assert(pow_int(100, s.len()) == 100 * p);
        assert(a + 100 * spec_combination_index(s.drop_last()) + s.last() * (100 * p) == a + 100
            * (spec_combination_index(s.drop_last()) + s.last() * p)) by (nonlinear_arith);
    }
}

/// Sorts byte values ascending by repeatedly extracting a minimum.
fn sort_ascending(values: &Vec<u8>) -> (r: Vec<u8>)
    ensures
        r@ == spec_sorted_ascending(values@),
        r@.len() == values@.len(),
        r@.to_multiset() == values@.to_multiset(),
{
    let mut rest = copy_values(values);
    let mut out: Vec<u8> = Vec::new();
    proof {
        broadcast use vstd::seq_lib::group_to_multiset_ensures;
        broadcast use vstd::multiset::group_multiset_axioms;
        broadcast use vstd::multiset::lemma_multiset_empty_len;

        assert(out@.to_multiset().len() == 0);
        assert(out@.to_multiset() =~= Multiset::<u8>::empty());
        assert(out@.to_multiset().add(rest@.to_multiset()) =~= rest@.to_multiset());
    }
    while rest.len() > 0
        invariant
            out@.to_multiset().add(rest@.to_multiset()) == values@.to_multiset(),
            sorted_by(out@, byte_leq()),
            forall|i: int, j: int|
                0 <= i < out@.len() && 0 <= j < rest@.len() ==> out@[i] <= rest@[j],
        decreases rest@.len(),
    {
        let mut mi: usize = 0;
        let mut k: usize = 1;
        while k < rest.len()
            invariant
                rest@.len() > 0,
                mi < k,
                k <= rest@.len(),
                forall|t: int| 0 <= t < k ==> rest@[mi as int] <= rest@[t],
            decreases rest@.len() - k,
        {
            if rest[k] < rest[mi] {
                mi = k;
            }
            k = k + 1;
        }
        let ghost old_out = out@;
        let ghost old_rest = rest@;
        let x = rest.remove(mi);
        out.push(x);
        proof {
            broadcast use vstd::seq_lib::group_to_multiset_ensures;
            broadcast use vstd::multiset::group_multiset_axioms;

            assert(old_rest[mi as int] == x);
            assert(old_rest.contains(x));
            assert(old_rest.to_multiset().count(x) > 0);
            assert(out@ == old_out.push(x));
            assert(old_out.push(x).to_multiset() =~= old_out.to_multiset().insert(x));
            assert(rest@ == old_rest.remove(mi as int));
            assert(old_rest.remove(mi as int).to_multiset() == old_rest.to_multiset().remove(x));
            assert(out@.to_multiset().add(rest@.to_multiset()) =~= old_out.to_multiset().add(
                old_rest.to_multiset(),
            ));
            assert(sorted_by(out@, byte_leq())) by {
                assert(forall|i: int, j: int|
                    0 <= i < j < out@.len() ==> (byte_leq())(out@[i], out@[j]));
            }
        }
    }
    proof {
        broadcast use vstd::seq_lib::group_to_multiset_ensures;
        broadcast use vstd::multiset::group_multiset_axioms;
        broadcast use vstd::multiset::lemma_multiset_empty_len;

        assert(rest@.to_multiset().len() == 0);
        assert(out@.to_multiset() =~= values@.to_multiset());
        lemma_byte_leq_total();
        values@.lemma_sort_by_ensures(byte_leq());
        lemma_sorted_unique(out@, spec_sorted_ascending(values@), byte_leq());
        assert(out@.len() == out@.to_multiset().len());
    }
    out
}

/// The two-phase solver: coordinate encodings and the breadth-first
/// search engine for each phase.
pub struct Solver;

impl Solver {
    /// Reads the orientation array as the digits, most significant first,
    /// of a number in base `modulus`: the orientation coordinate.
    pub fn orientations_to_index(orientations: &Vec<u8>, modulus: u8) -> (r: u32)
        requires
            forall|i: int| 0 <= i < orientations@.len() ==> orientations@[i] < modulus,
            pow_int(modulus as int, orientations@.len() as nat) <= 0x1_0000_0000,
        ensures
            r == spec_orientation_index(orientations@, modulus),
            r < pow_int(modulus as int, orientations@.len() as nat),
    {
        let ghost whole = orientations@;
        let mut index: u32 = 0;
        let mut i: usize = 0;
        while i < orientations.len()
            invariant
                i <= whole.len(),
                whole == orientations@,
                forall|k: int| 0 <= k < whole.len() ==> whole[k] < modulus,
                pow_int(modulus as int, whole.len() as nat) <= 0x1_0000_0000,
                index == spec_orientation_index(whole.subrange(0, i as int), modulus),
                index < pow_int(modulus as int, i as nat),
            decreases whole.len() - i,
        {
            let o = orientations[i];
            proof {
                let m = modulus as int;
                assert(pow_int(m, (i + 1) as nat) == m * pow_int(m, i as nat));
                assert(index * m + o < pow_int(m, (i + 1) as nat)) by (nonlinear_arith)
                    requires
                        0 <= index,
                        index < pow_int(m, i as nat),
                        0 <= o < m,
                        pow_int(m, (i + 1) as nat) == m * pow_int(m, i as nat),
                ;
                lemma_pow_int_mono(m, (i + 1) as nat, whole.len() as nat);
                assert(whole.subrange(0, i + 1).drop_last() =~= whole.subrange(0, i as int));
                assert(whole.subrange(0, i + 1).last() == whole[i as int]);
            }
            index = index * (modulus as u32) + (o as u32);
            i = i + 1;
        }
        proof {
            assert(whole.subrange(0, whole.len() as int) =~= whole);
        }
        index
    }

    /// The combination coordinate of an unordered choice of at most four
    /// slot labels: the labels sorted ascending, then read positionally
    /// in base 100, least significant position first.
    pub fn combinations_to_index(combinations: &Vec<u8>) -> (r: u32)
        requires
            combinations@.len() <= 4,
        ensures
            r == spec_combination_index(spec_sorted_ascending(combinations@)),
            r <= 257575755,
    {
        let sorted = sort_ascending(combinations);
        let ghost ss = sorted@;
        let mut index: u32 = 0;
        let mut j: usize = sorted.len();
        proof {
            assert(ss.skip(ss.len() as int) =~= Seq::<u8>::empty());
        }
        while j > 0
            invariant
                j <= ss.len(),
                ss.len() <= 4,
                ss == sorted@,
                index == spec_combination_index(ss.skip(j as int)),
            decreases j,
        {
            let c = sorted[j - 1];
            proof {
                assert(ss.skip(j - 1) =~= seq![ss[j - 1]] + ss.skip(j as int));
                lemma_combination_index_cons(ss[j - 1], ss.skip(j as int));
                lemma_combination_index_le(ss.skip(j as int));
                lemma_combination_index_le(ss.skip(j - 1));
            }
            index = index * 100 + (c as u32);
            j = j - 1;
        }
        proof {
            assert(ss.skip(0) =~= ss);
            lemma_combination_index_le(ss);
        }
        index
    }

    /// Phase 0 is solved exactly when every edge orientation is zero.
    pub fn is_solved_g0(cube: &Cube) -> (r: bool)
        ensures
            r == edges_oriented(cube@),
    {
        let mut i: usize = 0;
        while i < cube.edge_orientations.len()
            invariant
                i <= cube.edge_orientations@.len(),
                forall|k: int| 0 <= k < i ==> cube.edge_orientations@[k] == 0,
            decreases cube.edge_orientations@.len() - i,
        {
            if cube.edge_orientations[i] != 0 {
                proof {
                    assert(cube@.edge_orientations[i as int] != 0);
                }
                return false;
            }
            i = i + 1;
        }
        true
    }

    /// Solves phase 0 by breadth-first search over the full quarter-turn
    /// move set, pruning on the edge-orientation coordinate.
    ///
    /// An already-solved cube yields the empty move list.  A non-empty
    /// result, applied token by token to the input cube, always yields a
    /// cube whose edge orientations are all zero, and the result is
    /// move-count optimal: no strictly shorter phase-0 token list
    /// restores the edge orientations.  And an empty result for an
    /// unsolved cube is a proof of exhaustion: no list of phase-0
    /// tokens whatsoever can restore that cube's edge orientations, which
    /// cannot happen for a cube reachable by legal moves.
    #[verifier::loop_isolation(false)]
    pub fn solve_g0(cube: Cube) -> (r: Vec<String>)
        requires
            cube@.wf(),
        ensures
            all_g0_tokens(r.deep_view()),
            edges_oriented(cube@) ==> r@.len() == 0,
            r@.len() > 0 || edges_oriented(cube@) ==> edges_oriented(
                spec_apply_tokens(cube@, r.deep_view()),
            ),
            r@.len() == 0 && !edges_oriented(cube@) ==> (forall|toks: Seq<Seq<char>>|
                all_g0_tokens(toks) ==> !edges_oriented(
                    #[trigger] spec_apply_tokens(cube@, toks),
                )),
            forall|toks: Seq<Seq<char>>|
                all_g0_tokens(toks) && toks.len() < r@.len() ==> !edges_oriented(
                    #[trigger] spec_apply_tokens(cube@, toks),
                ),
    {
        let ghost start = cube@;
        if Self::is_solved_g0(&cube) {
            let r: Vec<String> = Vec::new();
            proof {
                assert(r.deep_view() =~= Seq::<Seq<char>>::empty());
            }
            return r;
        }
        let moves: Vec<&str> = vec![
            "u",
            "u'",
            "d",
            "d'",
            "l",
            "l'",
            "r",
            "r'",
            "f",
            "f'",
            "b",
            "b'",
        ];
        let mut queue: VecDeque<(Cube, Vec<String>)> = VecDeque::new();
        let mut visited: HashSet<u32> = HashSet::new();
        proof {
            reveal_with_fuel(pow_int, 13);
            assert(pow_int(2, 12) == 4096);
        }
        let seed = Self::orientations_to_index(&cube.edge_orientations, 2);
        visited.insert(seed);
        let ghost mut processed: Set<u32> = Set::empty();
        let ghost mut depth_of: Map<u32, int> = Map::<u32, int>::empty().insert(seed, 0);
        let empty_moves: Vec<String> = Vec::new();
        queue.push_back((cube, empty_moves));
        proof {
            let e = queue@[0];
            assert(e.1.deep_view() =~= Seq::<Seq<char>>::empty());
            assert(spec_apply_tokens(start, e.1.deep_view()) == start);
            lemma_u32_range_finite(4096);
            lemma_eo_coord_value(start.edge_orientations);
            assert(eo_coord(start.edge_orientations) == seed);
            assert(queue@[0].0@ == start);
            assert forall|k: u32| #[trigger] visited@.contains(k) implies processed.contains(k)
                || (exists|j: int|
                0 <= j < queue@.len() && #[trigger] eo_coord(queue@[j].0@.edge_orientations)
                    == k) by {
                assert(k == seed);
                assert(0 <= 0 < queue@.len() && eo_coord(queue@[0].0@.edge_orientations) == k);
            }
            assert(queue@[0].1@.len() == 0);
            assert forall|k: u32| #[trigger] visited@.contains(k) <==> depth_of.contains_key(
                k,
            ) by {}
        }
        loop
            invariant
                forall|k: int|
                    0 <= k < queue@.len() ==> {
                        let e = #[trigger] queue@[k];
                        &&& e.0@.wf()
                        &&& e.0@ == spec_apply_tokens(start, e.1.deep_view())
                        &&& all_g0_tokens(e.1.deep_view())
                        &&& (e.1@.len() == 0 ==> e.0@ == start)
                        &&& visited@.contains(eo_coord(e.0@.edge_orientations))
                        &&& depth_of.contains_key(eo_coord(e.0@.edge_orientations))
                        &&& depth_of[eo_coord(e.0@.edge_orientations)] == e.1@.len()
                    },
                forall|x: u32| visited@.contains(x) ==> x < 4096,
                visited@.finite(),
                visited@.len() <= 4096,
                visited@.contains(eo_coord(start.edge_orientations)),
                processed.subset_of(visited@),
                !processed.contains(0u32),
                g0_closed(processed, visited@),
                forall|k: u32|
                    #[trigger] visited@.contains(k) ==> processed.contains(k) || (exists|j: int|
                        0 <= j < queue@.len() && #[trigger] eo_coord(
                            queue@[j].0@.edge_orientations,
                        ) == k),
                depth_of.contains_key(eo_coord(start.edge_orientations)),
                depth_of[eo_coord(start.edge_orientations)] == 0,
                forall|k: u32| #[trigger] visited@.contains(k) <==> depth_of.contains_key(k),
                forall|k: u32| #[trigger] depth_of.contains_key(k) ==> 0 <= depth_of[k],
                g0_depth_closed(processed, depth_of),
                queue@.len() > 0 ==> (forall|k: u32|
                    #[trigger] depth_of.contains_key(k) ==> depth_of[k] <= queue@[0].1@.len()
                        + 1),
                forall|i: int, j: int|
                    0 <= i <= j < queue@.len() ==> #[trigger] queue@[i].1@.len()
                        <= #[trigger] queue@[j].1@.len(),
            decreases 4096 - visited@.len(), queue@.len(),
        {
            let ghost vis0 = visited@;
            let ghost q0 = queue@;
            let popped = queue.pop_front();
            match popped {
                None => {
                    let r: Vec<String> = Vec::new();
                    proof {
                        assert(r.deep_view() =~= Seq::<Seq<char>>::empty());
                        assert forall|k: u32| #[trigger] visited@.contains(k) implies processed.contains(
                            k,
                        ) by {}
                        assert(!visited@.contains(0u32));
                        assert(g0_closed(visited@, visited@)) by {
                            assert forall|eo: Seq<u8>, t: Seq<char>|
                                wf_eo(eo) && visited@.contains(eo_coord(eo)) && is_g0_token(
                                    t,
                                ) implies visited@.contains(
                                #[trigger] eo_coord(g0_token_eo(eo, t)),
                            ) by {
                                assert(processed.contains(eo_coord(eo)));
                            }
                        }
                        assert forall|toks: Seq<Seq<char>>| all_g0_tokens(toks) implies !edges_oriented(
                            #[trigger] spec_apply_tokens(start, toks),
                        ) by {
                            lemma_g0_exhausted(visited@, start, toks);
                        }
                    }
                    return r;
                },
                Some((current_cube, current_moves)) => {
                    let ghost cur_eo = current_cube@.edge_orientations;
                    let ghost cur_coord = eo_coord(cur_eo);
                    let ghost cur_depth = current_moves@.len() as int;
                    proof {
                        assert(q0[0].0 == current_cube && q0[0].1 == current_moves);
                        assert(visited@.contains(cur_coord));
                        assert(depth_of[cur_coord] == cur_depth);
                        assert forall|k: u32| #[trigger] visited@.contains(k) implies processed.contains(
                            k,
                        ) || k == cur_coord || (exists|j: int|
                            0 <= j < queue@.len() && #[trigger] eo_coord(
                                queue@[j].0@.edge_orientations,
                            ) == k) by {
                            if !processed.contains(k) && k != cur_coord {
                                let j0 = choose|j: int|
                                    0 <= j < q0.len() && #[trigger] eo_coord(
                                        q0[j].0@.edge_orientations,
                                    ) == k;
                                assert(j0 != 0);
                                assert(queue@[j0 - 1] == q0[j0]);
                                assert(eo_coord(queue@[j0 - 1].0@.edge_orientations) == k);
                            }
                        }
                        assert forall|i: int| 0 <= i < queue@.len() implies cur_depth
                            <= #[trigger] queue@[i].1@.len() <= cur_depth + 1 by {
                            assert(queue@[i] == q0[i + 1]);
                            assert(q0[0].1@.len() <= q0[i + 1].1@.len());
                        }
                    }
                    if Self::is_solved_g0(&current_cube) {
                        proof {
                            lemma_eo_coord_zero(cur_eo);
                            assert(cur_coord == 0);
                            assert forall|k2: u32|
                                #[trigger] depth_of.contains_key(k2) && depth_of[k2]
                                    < cur_depth implies processed.contains(k2) by {
                                assert(visited@.contains(k2));
                                if !processed.contains(k2) && k2 != cur_coord {
                                    let j0 = choose|j: int|
                                        0 <= j < queue@.len() && #[trigger] eo_coord(
                                            queue@[j].0@.edge_orientations,
                                        ) == k2;
                                    assert(queue@[j0] == q0[j0 + 1]);
                                    assert(depth_of[k2] == queue@[j0].1@.len());
                                    assert(queue@[j0].1@.len() >= cur_depth);
                                }
                            }
                            assert forall|toks: Seq<Seq<char>>|
                                all_g0_tokens(toks) && toks.len()
                                    < current_moves@.len() implies !edges_oriented(
                                #[trigger] spec_apply_tokens(start, toks),
                            ) by {
                                if edges_oriented(spec_apply_tokens(start, toks)) {
                                    lemma_g0_tokens_eo_apply(start, toks);
                                    let reo = g0_tokens_eo(start.edge_orientations, toks);
                                    lemma_eo_coord_zero(reo);
                                    assert(eo_coord(reo) == 0);
                                    lemma_g0_ball_covered(
                                        processed,
                                        depth_of,
                                        start.edge_orientations,
                                        toks,
                                        cur_depth,
                                    );
                                    assert(depth_of[0u32] <= toks.len());
                                }
                            }
                        }
                        return current_moves;
                    }
                    proof {
                        lemma_eo_coord_zero(cur_eo);
                        assert(cur_coord != 0);
                    }
                    let mut m: usize = 0;
                    while m < moves.len()
                        invariant
                            m <= 12,
                            current_cube@.wf(),
                            current_cube@ == spec_apply_tokens(start, current_moves.deep_view()),
                            all_g0_tokens(current_moves.deep_view()),
                            cur_depth == current_moves@.len(),
                            forall|k: int|
                                0 <= k < queue@.len() ==> {
                                    let e = #[trigger] queue@[k];
                                    &&& e.0@.wf()
                                    &&& e.0@ == spec_apply_tokens(start, e.1.deep_view())
                                    &&& all_g0_tokens(e.1.deep_view())
                                    &&& (e.1@.len() == 0 ==> e.0@ == start)
                                    &&& visited@.contains(eo_coord(e.0@.edge_orientations))
                                    &&& depth_of.contains_key(eo_coord(e.0@.edge_orientations))
                                    &&& depth_of[eo_coord(e.0@.edge_orientations)] == e.1@.len()
                                },
                            forall|x: u32| visited@.contains(x) ==> x < 4096,
                            visited@.finite(),
                            visited@.len() <= 4096,
                            vis0.len() <= visited@.len(),
                            queue@.len() + vis0.len() == q0.len() - 1 + visited@.len(),
                            visited@.contains(eo_coord(start.edge_orientations)),
                            visited@.contains(cur_coord),
                            processed.subset_of(visited@),
                            g0_closed(processed, visited@),
                            forall|k: int|
                                0 <= k < m ==> visited@.contains(
                                    #[trigger] eo_coord(g0_token_eo(cur_eo, moves@[k]@)),
                                ),
                            forall|k: u32|
                                #[trigger] visited@.contains(k) ==> processed.contains(k) || k
                                    == cur_coord || (exists|j: int|
                                    0 <= j < queue@.len() && #[trigger] eo_coord(
                                        queue@[j].0@.edge_orientations,
                                    ) == k),
                            depth_of.contains_key(eo_coord(start.edge_orientations)),
                            depth_of[eo_coord(start.edge_orientations)] == 0,
                            forall|k: u32|
                                #[trigger] visited@.contains(k) <==> depth_of.contains_key(k),
                            forall|k: u32| #[trigger] depth_of.contains_key(k) ==> 0 <= depth_of[k],
                            forall|k: u32|
                                #[trigger] depth_of.contains_key(k) ==> depth_of[k] <= cur_depth
                                    + 1,
                            depth_of.contains_key(cur_coord),
                            depth_of[cur_coord] == cur_depth,
                            g0_depth_closed(processed, depth_of),
                            forall|k: int|
                                0 <= k < m ==> depth_of.contains_key(
                                    #[trigger] eo_coord(g0_token_eo(cur_eo, moves@[k]@)),
                                ) && depth_of[eo_coord(g0_token_eo(cur_eo, moves@[k]@))]
                                    <= cur_depth + 1,
                            forall|i: int|
                                0 <= i < queue@.len() ==> cur_depth <= #[trigger] queue@[i].1@.len()
                                    <= cur_depth + 1,
                            forall|i: int, j: int|
                                0 <= i <= j < queue@.len() ==> #[trigger] queue@[i].1@.len()
                                    <= #[trigger] queue@[j].1@.len(),
                        decreases 12 - m,
                    {
                        let mv: &str = moves[m];
                        let new_cube = current_cube.clone().apply_sequence(mv);
                        proof {
                            reveal_with_fuel(pow_int, 13);
                            assert(pow_int(2, 12) == 4096);
                            lemma_g0_token_eo(current_cube@, mv@);
                            lemma_g0_token_eo_wf(cur_eo, mv@);
                            lemma_eo_coord_value(new_cube@.edge_orientations);
                        }
                        let idx = Self::orientations_to_index(&new_cube.edge_orientations, 2);
                        proof {
                            assert(new_cube@.edge_orientations == g0_token_eo(cur_eo, mv@));
                            assert(idx == eo_coord(g0_token_eo(cur_eo, mv@)));
                        }
                        if !visited.contains(&idx) {
                            let ghost vb = visited@;
                            let ghost db = depth_of;
                            visited.insert(idx);
                            let mut new_moves = copy_tokens(&current_moves);
                            new_moves.push(mv.to_owned());
                            proof {
                                depth_of = depth_of.insert(idx, cur_depth + 1);
                                lemma_apply_tokens_push(start, current_moves.deep_view(), mv@);
                                assert(new_moves.deep_view() =~= current_moves.deep_view().push(
                                    mv@,
                                ));
                                lemma_u32_range_finite(4096);
                                lemma_len_subset(visited@, Set::new(|x: u32| x < 4096));
                                assert(g0_closed(processed, visited@)) by {
                                    assert forall|eo2: Seq<u8>, t2: Seq<char>|
                                        wf_eo(eo2) && processed.contains(eo_coord(eo2))
                                            && is_g0_token(t2) implies visited@.contains(
                                        #[trigger] eo_coord(g0_token_eo(eo2, t2)),
                                    ) by {
                                        assert(vb.contains(eo_coord(g0_token_eo(eo2, t2))));
                                    }
                                }
                                assert forall|k2: u32| #[trigger] visited@.contains(k2)
                                    <==> depth_of.contains_key(k2) by {
                                    if k2 != idx {
                                        assert(visited@.contains(k2) <==> vb.contains(k2));
                                        assert(depth_of.contains_key(k2) <==> db.contains_key(
                                            k2,
                                        ));
                                    }
                                }
                                assert(g0_depth_closed(processed, depth_of)) by {
                                    assert forall|eo2: Seq<u8>, t2: Seq<char>|
                                        wf_eo(eo2) && processed.contains(eo_coord(eo2))
                                            && is_g0_token(t2) implies depth_of.contains_key(
                                        #[trigger] eo_coord(g0_token_eo(eo2, t2)),
                                    ) && depth_of[eo_coord(g0_token_eo(eo2, t2))]
                                        <= depth_of[eo_coord(eo2)] + 1 by {
                                        assert(db.contains_key(eo_coord(g0_token_eo(eo2, t2))));
                                        assert(eo_coord(g0_token_eo(eo2, t2)) != idx);
                                        assert(db.contains_key(eo_coord(eo2)));
                                        assert(eo_coord(eo2) != idx);
                                    }
                                }
                            }
                            let ghost qb = queue@;
                            queue.push_back((new_cube, new_moves));
                            proof {
                                let ghost last = queue@.len() - 1;
                                assert(queue@[last].0 == new_cube);
                                assert(eo_coord(queue@[last].0@.edge_orientations) == idx);
                                assert forall|k: u32| #[trigger] visited@.contains(
                                    k,
                                ) implies processed.contains(k) || k == cur_coord || (exists|j: int|
                                    0 <= j < queue@.len() && #[trigger] eo_coord(
                                        queue@[j].0@.edge_orientations,
                                    ) == k) by {
                                    if k == idx {
                                        assert(0 <= last < queue@.len() && eo_coord(
                                            queue@[last].0@.edge_orientations,
                                        ) == k);
                                    } else {
                                        assert(vb.contains(k));
                                        if !processed.contains(k) && k != cur_coord {
                                            let j0 = choose|j: int|
                                                0 <= j < qb.len() && #[trigger] eo_coord(
                                                    qb[j].0@.edge_orientations,
                                                ) == k;
                                            assert(queue@[j0] == qb[j0]);
                                            assert(0 <= j0 < queue@.len() && eo_coord(
                                                queue@[j0].0@.edge_orientations,
                                            ) == k);
                                        }
                                    }
                                }
                            }
                        }
                        m = m + 1;
                    }
                    proof {
                        let proc1 = processed.insert(cur_coord);
                        assert forall|eo2: Seq<u8>, t2: Seq<char>|
                            wf_eo(eo2) && proc1.contains(eo_coord(eo2)) && is_g0_token(
                                t2,
                            ) implies visited@.contains(
                            #[trigger] eo_coord(g0_token_eo(eo2, t2)),
                        ) && depth_of.contains_key(eo_coord(g0_token_eo(eo2, t2)))
                            && depth_of[eo_coord(g0_token_eo(eo2, t2))]
                            <= depth_of[eo_coord(eo2)] + 1 by {
                            if !processed.contains(eo_coord(eo2)) {
                                assert(eo_coord(eo2) == cur_coord);
                                lemma_eo_coord_injective(eo2, cur_eo);
                                if t2 == "u"@ {
                                    assert(moves@[0]@ == t2);
                                } else if t2 == "u'"@ {
                                    assert(moves@[1]@ == t2);
                                } else if t2 == "d"@ {
                                    assert(moves@[2]@ == t2);
                                } else if t2 == "d'"@ {
                                    assert(moves@[3]@ == t2);
                                } else if t2 == "l"@ {
                                    assert(moves@[4]@ == t2);
                                } else if t2 == "l'"@ {
                                    assert(moves@[5]@ == t2);
                                } else if t2 == "r"@ {
                                    assert(moves@[6]@ == t2);
                                } else if t2 == "r'"@ {
                                    assert(moves@[7]@ == t2);
                                } else if t2 == "f"@ {
                                    assert(moves@[8]@ == t2);
                                } else if t2 == "f'"@ {
                                    assert(moves@[9]@ == t2);
                                } else if t2 == "b"@ {
                                    assert(moves@[10]@ == t2);
                                } else {
                                    assert(moves@[11]@ == t2);
                                }
                            }
                        }
                        processed = proc1;
                        assert forall|k: u32| #[trigger] visited@.contains(k) implies processed.contains(
                            k,
                        ) || (exists|j: int|
                            0 <= j < queue@.len() && #[trigger] eo_coord(
                                queue@[j].0@.edge_orientations,
                            ) == k) by {}
                    }
                },
            }
        }
    }

    /// Composes the phase-1 coordinate of the cube: the combination
    /// coordinate of which cubies occupy the four equatorial edge slots,
    /// alongside the corner-orientation coordinate.
    pub fn get_g1_index(cube: &Cube) -> (r: u64)
        requires
            cube@.wf(),
        ensures
            r == spec_g1_index(cube@),
            r < 0x8400000000,
    {
        proof {
            reveal_with_fuel(pow_int, 9);
            assert(pow_int(3, 8) == 6561);
            assert(pow_int(3, 7) == 2187);
        }
        let corner_orientation_index = Self::orientations_to_index(&cube.corner_orientations, 3);
        let mut lr_mid_slice_permutation: Vec<u8> = Vec::new();
        lr_mid_slice_permutation.push(cube.edge_permutations[0]);
        lr_mid_slice_permutation.push(cube.edge_permutations[2]);
        lr_mid_slice_permutation.push(cube.edge_permutations[8]);
        lr_mid_slice_permutation.push(cube.edge_permutations[10]);
        proof {
            assert(lr_mid_slice_permutation@ =~= spec_slice_edges(cube@));
        }
        let lr_mid_slice_combination_index = Self::combinations_to_index(&lr_mid_slice_permutation);
        (lr_mid_slice_combination_index as u64) * 2187 + (corner_orientation_index as u64)
    }

    /// Phase 1 is solved exactly when the phase-1 coordinate equals the
    /// solved cube's coordinate: the four equatorial edges sit in the
    /// four equatorial slots and every corner orientation is zero.  It
    /// assumes phase 0 has been solved already.
    pub fn is_solved_g1(cube: &Cube) -> (r: bool)
        requires
            cube@.wf(),
        ensures
            r == g1_solved(cube@),
    {
        let g1_index = Self::get_g1_index(cube);
        proof {
            reveal_with_fuel(pow_int, 8);
            assert(pow_int(3, 7) == 2187);
        }
        g1_index == 22045397400
    }

    /// The lossless phase-1 visited key of a cube: its edge permutation
    /// read as twelve base-12 digits alongside its corner-orientation
    /// coordinate, packed into one 64-bit value.
    #[verifier::loop_isolation(false)]
    fn g1_search_key(cube: &Cube) -> (r: u64)
        requires
            cube@.wf(),
        ensures
            r == g1_state_key(cube@.edge_permutations, cube@.corner_orientations),
    {
        proof {
            reveal_with_fuel(pow_int, 13);
            assert(pow_int(12, 12) == 8916100448256);
            assert(pow_int(3, 8) == 6561);
        }
        let ghost whole = cube@.edge_permutations;
        let mut idx: u64 = 0;
        let mut i: usize = 0;
        while i < cube.edge_permutations.len()
            invariant
                i <= whole.len(),
                idx == spec_orientation_index(whole.subrange(0, i as int), 12),
                idx < pow_int(12, i as nat),
            decreases whole.len() - i,
        {
            let d = cube.edge_permutations[i];
            proof {
                assert(pow_int(12, (i + 1) as nat) == 12 * pow_int(12, i as nat));
                assert(idx * 12 + d < pow_int(12, (i + 1) as nat)) by (nonlinear_arith)
                    requires
                        0 <= idx,
                        idx < pow_int(12, i as nat),
                        0 <= d < 12,
                        pow_int(12, (i + 1) as nat) == 12 * pow_int(12, i as nat),
                ;
                lemma_pow_int_mono(12, (i + 1) as nat, whole.len() as nat);
                assert(whole.subrange(0, i + 1).drop_last() =~= whole.subrange(0, i as int));
                assert(whole.subrange(0, i + 1).last() == whole[i as int]);
            }
            idx = idx * 12 + (d as u64);
            i = i + 1;
        }
        proof {
            assert(whole.subrange(0, whole.len() as int) =~= whole);
        }
        let coi = Self::orientations_to_index(&cube.corner_orientations, 3);
        proof {
            lemma_g1_state_key_value(cube@.edge_permutations, cube@.corner_orientations);
        }
        idx * 6561 + (coi as u64)
    }

    /// Solves phase 1 by breadth-first search over the restricted move
    /// set — front and back faces half-turn only — deduplicating on a
    /// lossless key of the edge permutation and corner orientations,
    /// the two arrays the phase-1 goal reads.
    ///
    /// An already-solved cube yields the empty move list.  A non-empty
    /// result, applied token by token to the input cube, always yields a
    /// cube whose phase-1 coordinate is the solved one, never re-breaks
    /// the phase-0 goal, and is move-count optimal: no strictly shorter
    /// phase-1 token list reaches the goal.  An empty result for an
    /// unsolved cube is a proof of exhaustion: no phase-1 token list
    /// whatsoever reaches the goal from that cube.
    #[verifier::loop_isolation(false)]
    #[verifier::rlimit(100)]
    pub fn solve_g1(cube: Cube) -> (r: Vec<String>)
        requires
            cube@.wf(),
        ensures
            all_g1_tokens(r.deep_view()),
            g1_solved(cube@) ==> r@.len() == 0,
            r@.len() > 0 || g1_solved(cube@) ==> g1_solved(spec_apply_tokens(cube@, r.deep_view())),
            edges_oriented(cube@) ==> edges_oriented(spec_apply_tokens(cube@, r.deep_view())),
            r@.len() == 0 && !g1_solved(cube@) ==> (forall|toks: Seq<Seq<char>>|
                all_g1_tokens(toks) ==> !g1_solved(#[trigger] spec_apply_tokens(cube@, toks))),
            forall|toks: Seq<Seq<char>>|
                all_g1_tokens(toks) && toks.len() < r@.len() ==> !g1_solved(
                    #[trigger] spec_apply_tokens(cube@, toks),
                ),
    {
        let ghost start = cube@;
        if Self::is_solved_g1(&cube) {
            let r: Vec<String> = Vec::new();
            proof {
                assert(r.deep_view() =~= Seq::<Seq<char>>::empty());
            }
            return r;
        }
        let moves: Vec<&str> = vec!["u", "u'", "d", "d'", "l", "l'", "r", "r'", "f2", "b2"];
        let mut queue: VecDeque<(Cube, Vec<String>)> = VecDeque::new();
        let mut visited: HashSet<u64> = HashSet::new();
        let seed = Self::g1_search_key(&cube);
        visited.insert(seed);
        let ghost mut processed: Set<u64> = Set::empty();
        let ghost mut depth_of: Map<u64, int> = Map::<u64, int>::empty().insert(seed, 0);
        let empty_moves: Vec<String> = Vec::new();
        queue.push_back((cube, empty_moves));
        proof {
            let e = queue@[0];
            assert(e.1.deep_view() =~= Seq::<Seq<char>>::empty());
            assert(spec_apply_tokens(start, e.1.deep_view()) == start);
            lemma_u64_range_finite(0x1000000000000000);
            lemma_g1_state_key_value(start.edge_permutations, start.corner_orientations);
            assert(queue@[0].0@ == start);
            assert forall|k: u64| #[trigger] visited@.contains(k) implies processed.contains(k)
                || (exists|j: int|
                0 <= j < queue@.len() && #[trigger] g1_state_key(
                    queue@[j].0@.edge_permutations,
                    queue@[j].0@.corner_orientations,
                ) == k) by {
                assert(k == seed);
                assert(0 <= 0 < queue@.len() && g1_state_key(
                    queue@[0].0@.edge_permutations,
                    queue@[0].0@.corner_orientations,
                ) == k);
            }
            assert(queue@[0].1@.len() == 0);
            assert forall|k: u64| #[trigger] visited@.contains(k) <==> depth_of.contains_key(
                k,
            ) by {}
        }
        loop
            invariant
                !g1_solved(start),
                forall|k: int|
                    0 <= k < queue@.len() ==> {
                        let e = #[trigger] queue@[k];
                        &&& e.0@.wf()
                        &&& e.0@ == spec_apply_tokens(start, e.1.deep_view())
                        &&& all_g1_tokens(e.1.deep_view())
                        &&& (e.1@.len() == 0 ==> e.0@ == start)
                        &&& visited@.contains(
                            g1_state_key(e.0@.edge_permutations, e.0@.corner_orientations),
                        )
                        &&& depth_of.contains_key(
                            g1_state_key(e.0@.edge_permutations, e.0@.corner_orientations),
                        )
                        &&& depth_of[g1_state_key(
                            e.0@.edge_permutations,
                            e.0@.corner_orientations,
                        )] == e.1@.len()
                    },
                forall|x: u64| visited@.contains(x) ==> x < 0x1000000000000000,
                visited@.finite(),
                visited@.len() <= 0x1000000000000000,
                visited@.contains(
                    g1_state_key(start.edge_permutations, start.corner_orientations),
                ),
                processed.subset_of(visited@),
                forall|ep: Seq<u8>, co: Seq<u8>|
                    crate::cube::is_permutation(ep, 12) && wf_co(co) && processed.contains(
                        #[trigger] g1_state_key(ep, co),
                    ) ==> !g1_pair_solved(ep, co),
                g1_key_closed(processed, visited@),
                forall|k: u64|
                    #[trigger] visited@.contains(k) ==> processed.contains(k) || (exists|j: int|
                        0 <= j < queue@.len() && #[trigger] g1_state_key(
                            queue@[j].0@.edge_permutations,
                            queue@[j].0@.corner_orientations,
                        ) == k),
                depth_of.contains_key(
                    g1_state_key(start.edge_permutations, start.corner_orientations),
                ),
                depth_of[g1_state_key(start.edge_permutations, start.corner_orientations)] == 0,
                forall|k: u64| #[trigger] visited@.contains(k) <==> depth_of.contains_key(k),
                forall|k: u64| #[trigger] depth_of.contains_key(k) ==> 0 <= depth_of[k],
                g1_key_depth_closed(processed, depth_of),
                queue@.len() > 0 ==> (forall|k: u64|
                    #[trigger] depth_of.contains_key(k) ==> depth_of[k] <= queue@[0].1@.len()
                        + 1),
                forall|i: int, j: int|
                    0 <= i <= j < queue@.len() ==> #[trigger] queue@[i].1@.len()
                        <= #[trigger] queue@[j].1@.len(),
            decreases 0x1000000000000000 - visited@.len(), queue@.len(),
        {
            let ghost vis0 = visited@;
            let ghost q0 = queue@;
            let popped = queue.pop_front();
            match popped {
                None => {
                    let r: Vec<String> = Vec::new();
                    proof {
                        assert(r.deep_view() =~= Seq::<Seq<char>>::empty());
                        assert forall|k: u64| #[trigger] visited@.contains(k) implies processed.contains(
                            k,
                        ) by {}
                        assert(g1_key_closed(visited@, visited@)) by {
                            assert forall|ep: Seq<u8>, co: Seq<u8>, t: Seq<char>|
                                crate::cube::is_permutation(ep, 12) && wf_co(co)
                                    && visited@.contains(g1_state_key(ep, co)) && is_g1_token(
                                    t,
                                ) implies visited@.contains(
                                #[trigger] g1_state_key(g1_token_ep(ep, t), g1_token_co(co, t)),
                            ) by {
                                assert(processed.contains(g1_state_key(ep, co)));
                            }
                        }
                        assert forall|toks: Seq<Seq<char>>| all_g1_tokens(toks) implies !g1_solved(
                            #[trigger] spec_apply_tokens(start, toks),
                        ) by {
                            lemma_g1_exhausted(visited@, start, toks);
                        }
                    }
                    return r;
                },
                Some((current_cube, current_moves)) => {
                    let ghost cur_ep = current_cube@.edge_permutations;
                    let ghost cur_co = current_cube@.corner_orientations;
                    let ghost cur_key = g1_state_key(cur_ep, cur_co);
                    let ghost cur_depth = current_moves@.len() as int;
                    proof {
                        assert(q0[0].0 == current_cube && q0[0].1 == current_moves);
                        assert(visited@.contains(cur_key));
                        assert(depth_of[cur_key] == cur_depth);
                        assert forall|k: u64| #[trigger] visited@.contains(k) implies processed.contains(
                            k,
                        ) || k == cur_key || (exists|j: int|
                            0 <= j < queue@.len() && #[trigger] g1_state_key(
                                queue@[j].0@.edge_permutations,
                                queue@[j].0@.corner_orientations,
                            ) == k) by {
                            if !processed.contains(k) && k != cur_key {
                                let j0 = choose|j: int|
                                    0 <= j < q0.len() && #[trigger] g1_state_key(
                                        q0[j].0@.edge_permutations,
                                        q0[j].0@.corner_orientations,
                                    ) == k;
                                assert(j0 != 0);
                                assert(queue@[j0 - 1] == q0[j0]);
                                assert(g1_state_key(
                                    queue@[j0 - 1].0@.edge_permutations,
                                    queue@[j0 - 1].0@.corner_orientations,
                                ) == k);
                            }
                        }
                        assert forall|i: int| 0 <= i < queue@.len() implies cur_depth
                            <= #[trigger] queue@[i].1@.len() <= cur_depth + 1 by {
                            assert(queue@[i] == q0[i + 1]);
                            assert(q0[0].1@.len() <= q0[i + 1].1@.len());
                        }
                    }
                    if Self::is_solved_g1(&current_cube) {
                        proof {
                            if edges_oriented(start) {
                                lemma_g1_tokens_keep_oriented(start, current_moves.deep_view());
                            }
                            assert forall|k2: u64|
                                #[trigger] depth_of.contains_key(k2) && depth_of[k2]
                                    < cur_depth implies processed.contains(k2) by {
                                assert(visited@.contains(k2));
                                if !processed.contains(k2) && k2 != cur_key {
                                    let j0 = choose|j: int|
                                        0 <= j < queue@.len() && #[trigger] g1_state_key(
                                            queue@[j].0@.edge_permutations,
                                            queue@[j].0@.corner_orientations,
                                        ) == k2;
                                    assert(queue@[j0] == q0[j0 + 1]);
                                    assert(depth_of[k2] == queue@[j0].1@.len());
                                    assert(queue@[j0].1@.len() >= cur_depth);
                                }
                            }
                            assert forall|toks: Seq<Seq<char>>|
                                all_g1_tokens(toks) && toks.len()
                                    < current_moves@.len() implies !g1_solved(
                                #[trigger] spec_apply_tokens(start, toks),
                            ) by {
                                if g1_solved(spec_apply_tokens(start, toks)) {
                                    lemma_g1_tokens_ep_apply(start, toks);
                                    lemma_g1_tokens_co_apply(start, toks);
                                    let rep = g1_tokens_ep(start.edge_permutations, toks);
                                    let rco = g1_tokens_co(start.corner_orientations, toks);
                                    lemma_g1_key_ball_covered(
                                        processed,
                                        depth_of,
                                        start,
                                        toks,
                                        cur_depth,
                                    );
                                    assert(processed.contains(g1_state_key(rep, rco)));
                                    assert(!g1_pair_solved(rep, rco));
                                    let res = spec_apply_tokens(start, toks);
                                    assert(spec_slice_edges(res) =~= seq![
                                        res.edge_permutations[0],
                                        res.edge_permutations[2],
                                        res.edge_permutations[8],
                                        res.edge_permutations[10],
                                    ]);
                                }
                            }
                        }
                        return current_moves;
                    }
                    proof {
                        let res = current_cube@;
                        assert(spec_slice_edges(res) =~= seq![
                            res.edge_permutations[0],
                            res.edge_permutations[2],
                            res.edge_permutations[8],
                            res.edge_permutations[10],
                        ]);
                        assert(!g1_pair_solved(cur_ep, cur_co));
                    }
                    let mut m: usize = 0;
                    while m < moves.len()
                        invariant
                            m <= 10,
                            current_cube@.wf(),
                            current_cube@ == spec_apply_tokens(start, current_moves.deep_view()),
                            all_g1_tokens(current_moves.deep_view()),
                            cur_depth == current_moves@.len(),
                            !g1_pair_solved(cur_ep, cur_co),
                            forall|k: int|
                                0 <= k < queue@.len() ==> {
                                    let e = #[trigger] queue@[k];
                                    &&& e.0@.wf()
                                    &&& e.0@ == spec_apply_tokens(start, e.1.deep_view())
                                    &&& all_g1_tokens(e.1.deep_view())
                                    &&& (e.1@.len() == 0 ==> e.0@ == start)
                                    &&& visited@.contains(
                                        g1_state_key(
                                            e.0@.edge_permutations,
                                            e.0@.corner_orientations,
                                        ),
                                    )
                                    &&& depth_of.contains_key(
                                        g1_state_key(
                                            e.0@.edge_permutations,
                                            e.0@.corner_orientations,
                                        ),
                                    )
                                    &&& depth_of[g1_state_key(
                                        e.0@.edge_permutations,
                                        e.0@.corner_orientations,
                                    )] == e.1@.len()
                                },
                            forall|x: u64| visited@.contains(x) ==> x < 0x1000000000000000,
                            visited@.finite(),
                            visited@.len() <= 0x1000000000000000,
                            vis0.len() <= visited@.len(),
                            queue@.len() + vis0.len() == q0.len() - 1 + visited@.len(),
                            visited@.contains(
                                g1_state_key(start.edge_permutations, start.corner_orientations),
                            ),
                            visited@.contains(cur_key),
                            processed.subset_of(visited@),
                            forall|ep: Seq<u8>, co: Seq<u8>|
                                crate::cube::is_permutation(ep, 12) && wf_co(co)
                                    && processed.contains(
                                    #[trigger] g1_state_key(ep, co),
                                ) ==> !g1_pair_solved(ep, co),
                            g1_key_closed(processed, visited@),
                            forall|k: int|
                                0 <= k < m ==> visited@.contains(
                                    #[trigger] g1_state_key(
                                        g1_token_ep(cur_ep, moves@[k]@),
                                        g1_token_co(cur_co, moves@[k]@),
                                    ),
                                ),
                            forall|k: u64|
                                #[trigger] visited@.contains(k) ==> processed.contains(k) || k
                                    == cur_key || (exists|j: int|
                                    0 <= j < queue@.len() && #[trigger] g1_state_key(
                                        queue@[j].0@.edge_permutations,
                                        queue@[j].0@.corner_orientations,
                                    ) == k),
                            depth_of.contains_key(
                                g1_state_key(start.edge_permutations, start.corner_orientations),
                            ),
                            depth_of[g1_state_key(
                                start.edge_permutations,
                                start.corner_orientations,
                            )] == 0,
                            forall|k: u64|
                                #[trigger] visited@.contains(k) <==> depth_of.contains_key(k),
                            forall|k: u64| #[trigger] depth_of.contains_key(k) ==> 0 <= depth_of[k],
                            forall|k: u64|
                                #[trigger] depth_of.contains_key(k) ==> depth_of[k] <= cur_depth
                                    + 1,
                            depth_of.contains_key(cur_key),
                            depth_of[cur_key] == cur_depth,
                            g1_key_depth_closed(processed, depth_of),
                            forall|k: int|
                                0 <= k < m ==> depth_of.contains_key(
                                    #[trigger] g1_state_key(
                                        g1_token_ep(cur_ep, moves@[k]@),
                                        g1_token_co(cur_co, moves@[k]@),
                                    ),
                                ) && depth_of[g1_state_key(
                                    g1_token_ep(cur_ep, moves@[k]@),
                                    g1_token_co(cur_co, moves@[k]@),
                                )] <= cur_depth + 1,
                            forall|i: int|
                                0 <= i < queue@.len() ==> cur_depth <= #[trigger] queue@[i].1@.len()
                                    <= cur_depth + 1,
                            forall|i: int, j: int|
                                0 <= i <= j < queue@.len() ==> #[trigger] queue@[i].1@.len()
                                    <= #[trigger] queue@[j].1@.len(),
                        decreases 10 - m,
                    {
                        let mv: &str = moves[m];
                        let new_cube = current_cube.clone().apply_sequence(mv);
                        proof {
                            lemma_g1_token_ep(current_cube@, mv@);
                            lemma_g1_token_co(current_cube@, mv@);
                            lemma_g1_token_ep_wf(cur_ep, mv@);
                            lemma_g1_token_co_wf(cur_co, mv@);
                        }
                        let idx = Self::g1_search_key(&new_cube);
                        proof {
                            assert(new_cube@.edge_permutations == g1_token_ep(cur_ep, mv@));
                            assert(new_cube@.corner_orientations == g1_token_co(cur_co, mv@));
                            assert(idx == g1_state_key(
                                g1_token_ep(cur_ep, mv@),
                                g1_token_co(cur_co, mv@),
                            ));
                            lemma_g1_state_key_value(
                                new_cube@.edge_permutations,
                                new_cube@.corner_orientations,
                            );
                        }
                        if !visited.contains(&idx) {
                            let ghost vb = visited@;
                            let ghost db = depth_of;
                            visited.insert(idx);
                            let mut new_moves = copy_tokens(&current_moves);
                            new_moves.push(mv.to_owned());
                            proof {
                                depth_of = depth_of.insert(idx, cur_depth + 1);
                                lemma_apply_tokens_push(start, current_moves.deep_view(), mv@);
                                assert(new_moves.deep_view() =~= current_moves.deep_view().push(
                                    mv@,
                                ));
                                lemma_u64_range_finite(0x1000000000000000);
                                lemma_len_subset(
                                    visited@,
                                    Set::new(|x: u64| x < 0x1000000000000000),
                                );
                                assert(g1_key_closed(processed, visited@)) by {
                                    assert forall|ep2: Seq<u8>, co2: Seq<u8>, t2: Seq<char>|
                                        crate::cube::is_permutation(ep2, 12) && wf_co(co2)
                                            && processed.contains(g1_state_key(ep2, co2))
                                            && is_g1_token(t2) implies visited@.contains(
                                        #[trigger] g1_state_key(
                                            g1_token_ep(ep2, t2),
                                            g1_token_co(co2, t2),
                                        ),
                                    ) by {
                                        assert(vb.contains(g1_state_key(
                                            g1_token_ep(ep2, t2),
                                            g1_token_co(co2, t2),
                                        )));
                                    }
                                }
                                assert forall|k2: u64| #[trigger] visited@.contains(k2)
                                    <==> depth_of.contains_key(k2) by {
                                    if k2 != idx {
                                        assert(visited@.contains(k2) <==> vb.contains(k2));
                                        assert(depth_of.contains_key(k2) <==> db.contains_key(
                                            k2,
                                        ));
                                    }
                                }
                                assert(g1_key_depth_closed(processed, depth_of)) by {
                                    assert forall|ep2: Seq<u8>, co2: Seq<u8>, t2: Seq<char>|
                                        crate::cube::is_permutation(ep2, 12) && wf_co(co2)
                                            && processed.contains(g1_state_key(ep2, co2))
                                            && is_g1_token(t2) implies depth_of.contains_key(
                                        #[trigger] g1_state_key(
                                            g1_token_ep(ep2, t2),
                                            g1_token_co(co2, t2),
                                        ),
                                    ) && depth_of[g1_state_key(
                                        g1_token_ep(ep2, t2),
                                        g1_token_co(co2, t2),
                                    )] <= depth_of[g1_state_key(ep2, co2)] + 1 by {
                                        assert(db.contains_key(g1_state_key(
                                            g1_token_ep(ep2, t2),
                                            g1_token_co(co2, t2),
                                        )));
                                        assert(g1_state_key(
                                            g1_token_ep(ep2, t2),
                                            g1_token_co(co2, t2),
                                        ) != idx);
                                        assert(db.contains_key(g1_state_key(ep2, co2)));
                                        assert(g1_state_key(ep2, co2) != idx);
                                    }
                                }
                            }
                            let ghost qb = queue@;
                            queue.push_back((new_cube, new_moves));
                            proof {
                                let ghost last = queue@.len() - 1;
                                assert(queue@[last].0 == new_cube);
                                assert(g1_state_key(
                                    queue@[last].0@.edge_permutations,
                                    queue@[last].0@.corner_orientations,
                                ) == idx);
                                assert forall|k: u64| #[trigger] visited@.contains(
                                    k,
                                ) implies processed.contains(k) || k == cur_key || (exists|j: int|
                                    0 <= j < queue@.len() && #[trigger] g1_state_key(
                                        queue@[j].0@.edge_permutations,
                                        queue@[j].0@.corner_orientations,
                                    ) == k) by {
                                    if k == idx {
                                        assert(0 <= last < queue@.len() && g1_state_key(
                                            queue@[last].0@.edge_permutations,
                                            queue@[last].0@.corner_orientations,
                                        ) == k);
                                    } else {
                                        assert(vb.contains(k));
                                        if !processed.contains(k) && k != cur_key {
                                            let j0 = choose|j: int|
                                                0 <= j < qb.len() && #[trigger] g1_state_key(
                                                    qb[j].0@.edge_permutations,
                                                    qb[j].0@.corner_orientations,
                                                ) == k;
                                            assert(queue@[j0] == qb[j0]);
                                            assert(0 <= j0 < queue@.len() && g1_state_key(
                                                queue@[j0].0@.edge_permutations,
                                                queue@[j0].0@.corner_orientations,
                                            ) == k);
                                        }
                                    }
                                }
                            }
                        }
                        m = m + 1;
                    }
                    proof {
                        let proc1 = processed.insert(cur_key);
                        assert forall|ep2: Seq<u8>, co2: Seq<u8>, t2: Seq<char>|
                            crate::cube::is_permutation(ep2, 12) && wf_co(co2) && proc1.contains(
                                g1_state_key(ep2, co2),
                            ) && is_g1_token(t2) implies visited@.contains(
                            #[trigger] g1_state_key(g1_token_ep(ep2, t2), g1_token_co(co2, t2)),
                        ) && depth_of.contains_key(
                            g1_state_key(g1_token_ep(ep2, t2), g1_token_co(co2, t2)),
                        ) && depth_of[g1_state_key(g1_token_ep(ep2, t2), g1_token_co(co2, t2))]
                            <= depth_of[g1_state_key(ep2, co2)] + 1 by {
                            if !processed.contains(g1_state_key(ep2, co2)) {
                                assert(g1_state_key(ep2, co2) == cur_key);
                                lemma_g1_state_key_injective(ep2, co2, cur_ep, cur_co);
                                if t2 == "u"@ {
                                    assert(moves@[0]@ == t2);
                                } else if t2 == "u'"@ {
                                    assert(moves@[1]@ == t2);
                                } else if t2 == "d"@ {
                                    assert(moves@[2]@ == t2);
                                } else if t2 == "d'"@ {
                                    assert(moves@[3]@ == t2);
                                } else if t2 == "l"@ {
                                    assert(moves@[4]@ == t2);
                                } else if t2 == "l'"@ {
                                    assert(moves@[5]@ == t2);
                                } else if t2 == "r"@ {
                                    assert(moves@[6]@ == t2);
                                } else if t2 == "r'"@ {
                                    assert(moves@[7]@ == t2);
                                } else if t2 == "f2"@ {
                                    assert(moves@[8]@ == t2);
                                } else {
                                    assert(moves@[9]@ == t2);
                                }
                            }
                        }
                        assert forall|ep2: Seq<u8>, co2: Seq<u8>|
                            crate::cube::is_permutation(ep2, 12) && wf_co(co2) && proc1.contains(
                                #[trigger] g1_state_key(ep2, co2),
                            ) implies !g1_pair_solved(ep2, co2) by {
                            if !processed.contains(g1_state_key(ep2, co2)) {
                                assert(g1_state_key(ep2, co2) == cur_key);
                                lemma_g1_state_key_injective(ep2, co2, cur_ep, cur_co);
                            }
                        }
                        processed = proc1;
                        assert forall|k: u64| #[trigger] visited@.contains(k) implies processed.contains(
                            k,
                        ) || (exists|j: int|
                            0 <= j < queue@.len() && #[trigger] g1_state_key(
                                queue@[j].0@.edge_permutations,
                                queue@[j].0@.corner_orientations,
                            ) == k) by {}
                    }
                },
            }
        }
    }
}

/// The cubies currently occupying the four equatorial edge slots, the
/// slice between the left and right faces: UF, UB, DF and DB.
pub open spec fn spec_slice_edges(v: CubeView) -> Seq<u8> {
    seq![
        v.edge_permutations[0],
        v.edge_permutations[2],
        v.edge_permutations[8],
        v.edge_permutations[10],
    ]
}

/// The composite phase-1 coordinate: the combination coordinate of the
/// four equatorial edge slots, scaled past the corner-orientation range,
/// plus the corner-orientation coordinate.
pub open spec fn spec_g1_index(v: CubeView) -> int {
    spec_combination_index(spec_sorted_ascending(spec_slice_edges(v))) * pow_int(3, 7)
        + spec_orientation_index(v.corner_orientations, 3)
}

/// Phase 1 is solved when the phase-1 coordinate equals the solved
/// cube's: the sorted equatorial occupants are exactly the labels 0, 2,
/// 8 and 10 (combination coordinate 10080200) and the corner-orientation
/// coordinate is zero.
pub open spec fn g1_solved(v: CubeView) -> bool {
    spec_g1_index(v) == 10080200 * pow_int(3, 7)
}

/// The solved cube meets both phase goals: every edge orientation is
/// zero, and its phase-1 coordinate is exactly the phase-1 target, so
/// the goal tests of the two solvers accept the solved cube.
pub proof fn lemma_solved_cube_goals()
    ensures
        edges_oriented(CubeView::solved()),
        g1_solved(CubeView::solved()),
{
    let v = CubeView::solved();
    lemma_orientation_index_zeros(v.corner_orientations, 3);
    let slice = spec_slice_edges(v);
    assert(slice =~= seq![0u8, 2u8, 8u8, 10u8]);
    lemma_byte_leq_total();
    slice.lemma_sort_by_ensures(byte_leq());
    assert(sorted_by(slice, byte_leq()));
    lemma_sorted_unique(spec_sorted_ascending(slice), slice, byte_leq());
    assert(spec_sorted_ascending(slice) == slice);
    let s4 = seq![0u8, 2u8, 8u8, 10u8];
    let s3 = seq![0u8, 2u8, 8u8];
    let s2 = seq![0u8, 2u8];
    let s1 = seq![0u8];
    assert(pow_int(100, 0) == 1);
    assert(pow_int(100, 1) == 100);
    assert(pow_int(100, 2) == 10000);
    assert(pow_int(100, 3) == 1000000);
    assert(s4.drop_last() =~= s3);
    assert(s3.drop_last() =~= s2);
    assert(s2.drop_last() =~= s1);
    assert(s1.drop_last() =~= Seq::<u8>::empty());
    assert(spec_combination_index(Seq::<u8>::empty()) == 0);
    assert(spec_combination_index(s1) == spec_combination_index(s1.drop_last()) + s1.last()
        * pow_int(100, 0));
    assert(spec_combination_index(s2) == spec_combination_index(s2.drop_last()) + s2.last()
        * pow_int(100, 1));
    assert(spec_combination_index(s3) == spec_combination_index(s3.drop_last()) + s3.last()
        * pow_int(100, 2));
    assert(spec_combination_index(s4) == spec_combination_index(s4.drop_last()) + s4.last()
        * pow_int(100, 3));
    assert(spec_combination_index(s4) == 10080200);
}

} // verus!
