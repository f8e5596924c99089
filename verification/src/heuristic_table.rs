//! Pruning-table support: a coordinate-to-distance mapping, and the
//! offline builder that fills it by a reverse breadth-first search from
//! the solved state.

use vstd::prelude::*;
use vstd::set_lib::lemma_len_subset;
use vstd::string::StrSliceExecFns;
use std::collections::HashMap;
use std::collections::HashSet;
use std::collections::VecDeque;

use crate::cube::Cube;
use crate::cube::CubeView;
use crate::solver::all_g1_tokens;
use crate::solver::co_coord;
use crate::solver::g1_co_closed;
use crate::solver::g1_co_depth_closed;
use crate::solver::g1_token_co;
use crate::solver::g1_tokens_co;
use crate::solver::lemma_g1_ball_covered;
use crate::solver::lemma_g1_tokens_co_apply;
use crate::solver::lemma_g1_tokens_co_wf_chain;
use crate::solver::lemma_co_coord_injective;
use crate::solver::lemma_co_coord_value;
use crate::solver::lemma_g1_co_cover;
use crate::solver::lemma_g1_token_co;
use crate::solver::lemma_g1_token_co_wf;
use crate::solver::lemma_orientation_index_zeros;
use crate::solver::lemma_u32_range_finite;
use crate::solver::pow_int;
use crate::solver::spec_apply_tokens;
use crate::solver::wf_co;
use crate::solver::Solver;

verus! {

broadcast use vstd::std_specs::hash::group_hash_axioms;

/// A coordinate-to-distance table: for a coordinate it may record a
/// lower bound on the number of moves needed to reach the goal; a
/// missing entry means unknown and is treated as zero.
pub struct Table {
    entries: HashMap<u32, u32>,
}

impl View for Table {
    type V = Map<u32, u32>;

    closed spec fn view(&self) -> Map<u32, u32> {
        self.entries@
    }
}

impl Table {
    /// A table with no entries.
    pub fn new_empty() -> (r: Table)
        ensures
            r@ == Map::<u32, u32>::empty(),
    {
        Table { entries: HashMap::new() }
    }

    /// Looks a coordinate up: the recorded distance, or `None` when the
    /// coordinate has no entry.
    pub fn get(&self, key: u32) -> (r: Option<u32>)
        ensures
            match r {
                Some(v) => self@.contains_key(key) && self@[key] == v,
                None => !self@.contains_key(key),
            },
    {
        match self.entries.get(&key) {
            Some(v) => Some(*v),
            None => None,
        }
    }

    /// Records, or overwrites, the distance for a coordinate.
    pub fn set(&mut self, key: u32, value: u32)
        ensures
            final(self)@ == old(self)@.insert(key, value),
    {
        self.entries.insert(key, value);
    }

    /// All entries as key-value pairs: every pair is an entry of the
    /// table, no key appears twice, and there are as many pairs as
    /// entries.
    pub fn to_pairs(&self) -> (r: Vec<(u32, u32)>)
        ensures
            r@.len() == self@.dom().len(),
            forall|i: int|
                0 <= i < r@.len() ==> #[trigger] self@.contains_key(r@[i].0) && self@[r@[i].0]
                    == r@[i].1,
            forall|i: int, j: int| 0 <= i < j < r@.len() ==> r@[i].0 != r@[j].0,
    {
        let mut r: Vec<(u32, u32)> = Vec::new();
        for kv in it: self.entries.iter()
            invariant
                r@.len() == it.index(),
                it.seq().no_duplicates(),
                it.seq().len() == self@.dom().len(),
                forall|i: int|
                    0 <= i < it.seq().len() ==> #[trigger] self@.contains_key(*it.seq()[i].0)
                        && self@[*it.seq()[i].0] == *it.seq()[i].1,
                forall|i: int| 0 <= i < r@.len() ==> r@[i] == (*it.seq()[i].0, *it.seq()[i].1),
                forall|i: int, j: int| 0 <= i < j < r@.len() ==> r@[i].0 != r@[j].0,
        {
            let (k, v) = kv;
            proof {
                let n = it.index() as int;
                assert(0 <= n < it.seq().len());
                assert forall|i: int| 0 <= i < r@.len() implies r@[i].0 != *it.seq()[n].0 by {
                    if *it.seq()[i].0 == *it.seq()[n].0 {
                        assert(self@.contains_key(*it.seq()[i].0));
                        assert(self@.contains_key(*it.seq()[n].0));
                        assert(self@[*it.seq()[i].0] == *it.seq()[i].1);
                        assert(self@[*it.seq()[n].0] == *it.seq()[n].1);
                        assert(*it.seq()[i].1 == *it.seq()[n].1);
                        assert(it.seq()[i] == it.seq()[n]);
                    }
                }
            }
            r.push((*k, *v));
        }
        r
    }
}

/// A decimal digit.
pub open spec fn is_decimal_digit(c: char) -> bool {
    48 <= c as u32 <= 57
}

/// The numeric value of decimal digit text, most significant digit
/// first.
pub open spec fn spec_decimal_value(s: Seq<char>) -> int
    decreases s.len(),
{
    if s.len() == 0 {
        0
    } else {
        spec_decimal_value(s.drop_last()) * 10 + (s.last() as u32 - 48)
    }
}

/// The value of digit text is never negative.
proof fn lemma_decimal_value_nonneg(s: Seq<char>)
    requires
        forall|i: int| 0 <= i < s.len() ==> is_decimal_digit(s[i]),
    ensures
        0 <= spec_decimal_value(s),
    decreases s.len(),
{
    if s.len() > 0 {
        lemma_decimal_value_nonneg(s.drop_last());
        let v = spec_decimal_value(s.drop_last());
        assert(v * 10 >= 0) by (nonlinear_arith)
            requires
                0 <= v,
        ;
    }
}

/// Extending digit text never shrinks its value.
proof fn lemma_decimal_value_monotone(s: Seq<char>, j: int)
    requires
        forall|i: int| 0 <= i < s.len() ==> is_decimal_digit(s[i]),
        0 <= j <= s.len(),
    ensures
        spec_decimal_value(s.subrange(0, j)) <= spec_decimal_value(s),
    decreases s.len() - j,
{
    if j == s.len() {
        assert(s.subrange(0, j) =~= s);
    } else {
        lemma_decimal_value_monotone(s, j + 1);
        assert(s.subrange(0, j + 1).drop_last() =~= s.subrange(0, j));
        let v = spec_decimal_value(s.subrange(0, j));
        lemma_decimal_value_nonneg(s.subrange(0, j));
        assert(forall|i: int| 0 <= i < s.len() ==> 0 <= (s[i] as u32 - 48));
        assert(v <= v * 10) by (nonlinear_arith)
            requires
                0 <= v,
        ;
    }
}

/// Parses one number of the table's text format: `Some` exactly when
/// the text is one or more decimal digits whose value fits 32 bits.
pub fn parse_table_number(s: &str) -> (r: Option<u32>)
    ensures
        ({
            let ok = s@.len() > 0 && (forall|i: int|
                0 <= i < s@.len() ==> is_decimal_digit(s@[i])) && spec_decimal_value(s@)
                <= u32::MAX;
            match r {
                Some(n) => ok && n == spec_decimal_value(s@),
                None => !ok,
            }
        }),
{
    let n = s.unicode_len();
    if n == 0 {
        return None;
    }
    let mut value: u32 = 0;
    let mut i: usize = 0;
    while i < n
        invariant
            0 < n == s@.len(),
            i <= n,
            forall|k: int| 0 <= k < i ==> is_decimal_digit(s@[k]),
            value == spec_decimal_value(s@.subrange(0, i as int)),
        decreases n - i,
    {
        let c = s.get_char(i);
        let code = c as u32;
        if code < 48 || code > 57 {
            proof {
                assert(!is_decimal_digit(s@[i as int]));
            }
            return None;
        }
        let d = code - 48;
        proof {
            assert(s@.subrange(0, i + 1).drop_last() =~= s@.subrange(0, i as int));
            assert(s@.subrange(0, i + 1).last() == s@[i as int]);
        }
        if value > (u32::MAX - d) / 10 {
            proof {
                let here = spec_decimal_value(s@.subrange(0, i + 1));
                assert(here > u32::MAX) by (nonlinear_arith)
                    requires
                        here == value * 10 + d,
                        value > (0xffff_ffff - d) / 10,
                        0 <= d <= 9,
                        0 <= value,
                ;
                if forall|k: int| 0 <= k < s@.len() ==> is_decimal_digit(s@[k]) {
                    lemma_decimal_value_monotone(s@, i + 1);
                }
            }
            return None;
        }
        value = value * 10 + d;
        i = i + 1;
    }
    proof {
        assert(s@.subrange(0, n as int) =~= s@);
    }
    Some(value)
}

/// Builders of coordinate-to-distance tables.
pub struct HeuristicTable;

impl HeuristicTable {
    /// Builds the phase-1 corner-orientation distance table by a
    /// breadth-first search from the solved cube through the phase-1
    /// move set.  That move set contains the inverse of each of its
    /// moves, so the layer at which a coordinate is first reached is its
    /// distance from the solved coordinate in the quotient graph, an
    /// admissible lower bound for phase 1.
    ///
    /// The solved coordinate 0 is recorded with distance 0, every
    /// recorded key is a corner-orientation coordinate below 3^8, and
    /// the table is complete: it holds an entry for the coordinate of
    /// every cube reachable from solved by phase-1 tokens.  Recorded
    /// values are the exact breadth-first distances in the coordinate
    /// space: the entry for a coordinate never exceeds the length of any
    /// phase-1 token list that reaches it from solved, and some token
    /// list of exactly that length does reach it.  Since the move set
    /// contains the inverse of each of its moves, each entry is an
    /// admissible lower bound on the moves needed to reach the goal.
    #[verifier::loop_isolation(false)]
    pub fn build_g1_heuristics() -> (r: Table)
        ensures
            r@.contains_key(0),
            r@[0] == 0,
            forall|k: u32| r@.contains_key(k) ==> k < 6561,
            forall|toks: Seq<Seq<char>>|
                all_g1_tokens(toks) ==> r@.contains_key(
                    #[trigger] co_coord(
                        spec_apply_tokens(CubeView::solved(), toks).corner_orientations,
                    ),
                ) && r@[co_coord(spec_apply_tokens(CubeView::solved(), toks).corner_orientations)]
                    <= toks.len(),
            forall|k: u32|
                #[trigger] r@.contains_key(k) ==> (exists|toks: Seq<Seq<char>>|
                    all_g1_tokens(toks) && toks.len() == r@[k] && co_coord(
                        #[trigger] spec_apply_tokens(CubeView::solved(), toks).corner_orientations,
                    ) == k),
    {
        let mut table = Table::new_empty();
        let cube = Cube::new();
        let ghost solved = cube@;
        let moves: Vec<&str> = vec!["u", "u'", "d", "d'", "l", "l'", "r", "r'", "f2", "b2"];
        proof {
            assert(forall|k: int|
                0 <= k < moves@.len() ==> crate::solver::is_g1_token(#[trigger] moves@[k]@));
            reveal_with_fuel(pow_int, 9);
            assert(pow_int(3, 8) == 6561);
            lemma_orientation_index_zeros(cube@.corner_orientations, 3);
            lemma_co_coord_value(cube@.corner_orientations);
        }
        let seed = Solver::orientations_to_index(&cube.corner_orientations, 3);
        let mut queue: VecDeque<(Cube, u32)> = VecDeque::new();
        let mut visited_corner_orientations: HashSet<u32> = HashSet::new();
        visited_corner_orientations.insert(seed);
        let ghost mut processed: Set<u32> = Set::empty();
        let ghost mut depth_of: Map<u32, int> = Map::<u32, int>::empty().insert(seed, 0);
        table.set(seed, 0);
        queue.push_back((cube, 0));
        proof {
            lemma_u32_range_finite(6561);
            assert(queue@[0].0@ == solved);
            assert(co_coord(solved.corner_orientations) == seed);
            assert forall|k: u32| #[trigger] visited_corner_orientations@.contains(
                k,
            ) implies processed.contains(k) || (exists|j: int|
                0 <= j < queue@.len() && #[trigger] co_coord(queue@[j].0@.corner_orientations)
                    == k) by {
                assert(k == seed);
                assert(0 <= 0 < queue@.len() && co_coord(queue@[0].0@.corner_orientations) == k);
            }
            assert forall|k: u32| #[trigger] visited_corner_orientations@.contains(k)
                <==> depth_of.contains_key(k) by {}
            assert(g1_tokens_co(solved.corner_orientations, Seq::<Seq<char>>::empty())
                == solved.corner_orientations);
            assert(all_g1_tokens(Seq::<Seq<char>>::empty()) && Seq::<Seq<char>>::empty().len()
                == 0 && co_coord(
                g1_tokens_co(solved.corner_orientations, Seq::<Seq<char>>::empty()),
            ) == seed);
        }
        loop
            invariant
                table@.contains_key(0),
                table@[0] == 0,
                forall|k: u32| table@.contains_key(k) <==> visited_corner_orientations@.contains(k),
                forall|x: u32| visited_corner_orientations@.contains(x) ==> x < 6561,
                visited_corner_orientations@.finite(),
                visited_corner_orientations@.len() <= 6561,
                visited_corner_orientations@.contains(co_coord(solved.corner_orientations)),
                processed.subset_of(visited_corner_orientations@),
                g1_co_closed(processed, visited_corner_orientations@),
                forall|k: int|
                    0 <= k < queue@.len() ==> {
                        let e = #[trigger] queue@[k];
                        &&& e.0@.wf()
                        &&& e.1 <= visited_corner_orientations@.len()
                        &&& visited_corner_orientations@.contains(
                            co_coord(e.0@.corner_orientations),
                        )
                        &&& depth_of.contains_key(co_coord(e.0@.corner_orientations))
                        &&& depth_of[co_coord(e.0@.corner_orientations)] == e.1
                        &&& (exists|toks: Seq<Seq<char>>|
                            all_g1_tokens(toks) && toks.len() == e.1 && co_coord(
                                #[trigger] g1_tokens_co(solved.corner_orientations, toks),
                            ) == co_coord(e.0@.corner_orientations))
                    },
                forall|k: u32|
                    #[trigger] visited_corner_orientations@.contains(k) ==> processed.contains(k)
                        || (exists|j: int|
                        0 <= j < queue@.len() && #[trigger] co_coord(
                            queue@[j].0@.corner_orientations,
                        ) == k),
                depth_of.contains_key(co_coord(solved.corner_orientations)),
                depth_of[co_coord(solved.corner_orientations)] == 0,
                forall|k: u32|
                    #[trigger] visited_corner_orientations@.contains(k) <==> depth_of.contains_key(
                        k,
                    ),
                forall|k: u32| #[trigger] depth_of.contains_key(k) ==> 0 <= depth_of[k],
                forall|k: u32|
                    #[trigger] table@.contains_key(k) ==> table@[k] == depth_of[k],
                forall|k: u32|
                    #[trigger] table@.contains_key(k) ==> (exists|toks: Seq<Seq<char>>|
                        all_g1_tokens(toks) && toks.len() == table@[k] && co_coord(
                            #[trigger] g1_tokens_co(solved.corner_orientations, toks),
                        ) == k),
                g1_co_depth_closed(processed, depth_of),
                queue@.len() > 0 ==> (forall|k: u32|
                    #[trigger] depth_of.contains_key(k) ==> depth_of[k] <= queue@[0].1 + 1),
                forall|i: int, j: int|
                    0 <= i <= j < queue@.len() ==> #[trigger] queue@[i].1 <= #[trigger] queue@[j].1,
            decreases 6561 - visited_corner_orientations@.len(), queue@.len(),
        {
            let ghost vis0 = visited_corner_orientations@;
            let ghost q0 = queue@;
            let popped = queue.pop_front();
            match popped {
                None => {
                    proof {
                        assert forall|k: u32| #[trigger] table@.contains_key(k) implies k
                            < 6561 by {
                            assert(visited_corner_orientations@.contains(k));
                        }
                        assert forall|k: u32| #[trigger] visited_corner_orientations@.contains(
                            k,
                        ) implies processed.contains(k) by {}
                        assert(g1_co_closed(
                            visited_corner_orientations@,
                            visited_corner_orientations@,
                        )) by {
                            assert forall|co: Seq<u8>, t: Seq<char>|
                                wf_co(co) && visited_corner_orientations@.contains(co_coord(co))
                                    && crate::solver::is_g1_token(
                                    t,
                                ) implies visited_corner_orientations@.contains(
                                #[trigger] co_coord(g1_token_co(co, t)),
                            ) by {
                                assert(processed.contains(co_coord(co)));
                            }
                        }
                        assert forall|toks: Seq<Seq<char>>| all_g1_tokens(
                            toks,
                        ) implies table@.contains_key(
                            #[trigger] co_coord(
                                spec_apply_tokens(CubeView::solved(), toks).corner_orientations,
                            ),
                        ) && table@[co_coord(
                            spec_apply_tokens(CubeView::solved(), toks).corner_orientations,
                        )] <= toks.len() by {
                            lemma_g1_co_cover(visited_corner_orientations@, solved, toks);
                            lemma_g1_tokens_co_apply(solved, toks);
                            assert forall|k2: u32|
                                #[trigger] depth_of.contains_key(k2) && depth_of[k2]
                                    < toks.len() implies processed.contains(k2) by {
                                assert(visited_corner_orientations@.contains(k2));
                            }
                            lemma_g1_ball_covered(
                                processed,
                                depth_of,
                                solved.corner_orientations,
                                toks,
                                toks.len() as int,
                            );
                        }
                        assert forall|k: u32| #[trigger] table@.contains_key(k) implies (exists|
                            toks: Seq<Seq<char>>,
                        |
                            all_g1_tokens(toks) && toks.len() == table@[k] && co_coord(
                                #[trigger] spec_apply_tokens(
                                    CubeView::solved(),
                                    toks,
                                ).corner_orientations,
                            ) == k) by {
                            let tw = choose|toks: Seq<Seq<char>>|
                                all_g1_tokens(toks) && toks.len() == table@[k] && co_coord(
                                    #[trigger] g1_tokens_co(solved.corner_orientations, toks),
                                ) == k;
                            lemma_g1_tokens_co_apply(solved, tw);
                            assert(all_g1_tokens(tw) && tw.len() == table@[k] && co_coord(
                                spec_apply_tokens(CubeView::solved(), tw).corner_orientations,
                            ) == k);
                        }
                    }
                    return table;
                },
                Some((current_cube, depth)) => {
                    let ghost cur_co = current_cube@.corner_orientations;
                    let ghost cur_coord = co_coord(cur_co);
                    let ghost cur_depth = depth as int;
                    proof {
                        assert(q0[0].0 == current_cube && q0[0].1 == depth);
                        assert(visited_corner_orientations@.contains(cur_coord));
                        assert(depth_of[cur_coord] == cur_depth);
                        assert forall|i: int| 0 <= i < queue@.len() implies cur_depth
                            <= #[trigger] queue@[i].1 <= cur_depth + 1 by {
                            assert(queue@[i] == q0[i + 1]);
                            assert(q0[0].1 <= q0[i + 1].1);
                        }
                        assert forall|k: u32| #[trigger] visited_corner_orientations@.contains(
                            k,
                        ) implies processed.contains(k) || k == cur_coord || (exists|j: int|
                            0 <= j < queue@.len() && #[trigger] co_coord(
                                queue@[j].0@.corner_orientations,
                            ) == k) by {
                            if !processed.contains(k) && k != cur_coord {
                                let j0 = choose|j: int|
                                    0 <= j < q0.len() && #[trigger] co_coord(
                                        q0[j].0@.corner_orientations,
                                    ) == k;
                                assert(j0 != 0);
                                assert(queue@[j0 - 1] == q0[j0]);
                                assert(co_coord(queue@[j0 - 1].0@.corner_orientations) == k);
                            }
                        }
                    }
                    let mut m: usize = 0;
                    while m < moves.len()
                        invariant
                            m <= 10,
                            current_cube@.wf(),
                            depth <= vis0.len(),
                            cur_depth == depth,
                            depth_of.contains_key(co_coord(solved.corner_orientations)),
                            depth_of[co_coord(solved.corner_orientations)] == 0,
                            forall|k: u32|
                                #[trigger] visited_corner_orientations@.contains(k)
                                    <==> depth_of.contains_key(k),
                            forall|k: u32|
                                #[trigger] depth_of.contains_key(k) ==> 0 <= depth_of[k],
                            forall|k: u32|
                                #[trigger] depth_of.contains_key(k) ==> depth_of[k] <= cur_depth
                                    + 1,
                            depth_of.contains_key(cur_coord),
                            depth_of[cur_coord] == cur_depth,
                            forall|k: u32|
                                #[trigger] table@.contains_key(k) ==> table@[k] == depth_of[k],
                            forall|k: u32|
                                #[trigger] table@.contains_key(k) ==> (exists|
                                    toks: Seq<Seq<char>>,
                                |
                                    all_g1_tokens(toks) && toks.len() == table@[k] && co_coord(
                                        #[trigger] g1_tokens_co(solved.corner_orientations, toks),
                                    ) == k),
                            g1_co_depth_closed(processed, depth_of),
                            forall|k: int|
                                0 <= k < m ==> depth_of.contains_key(
                                    #[trigger] co_coord(g1_token_co(cur_co, moves@[k]@)),
                                ) && depth_of[co_coord(g1_token_co(cur_co, moves@[k]@))]
                                    <= cur_depth + 1,
                            forall|i: int|
                                0 <= i < queue@.len() ==> cur_depth <= #[trigger] queue@[i].1
                                    <= cur_depth + 1,
                            forall|i: int, j: int|
                                0 <= i <= j < queue@.len() ==> #[trigger] queue@[i].1
                                    <= #[trigger] queue@[j].1,
                            table@.contains_key(0),
                            table@[0] == 0,
                            forall|k: u32|
                                table@.contains_key(k) <==> visited_corner_orientations@.contains(
                                    k,
                                ),
                            forall|x: u32|
                                visited_corner_orientations@.contains(x) ==> x < 6561,
                            visited_corner_orientations@.finite(),
                            visited_corner_orientations@.len() <= 6561,
                            vis0.len() <= visited_corner_orientations@.len(),
                            queue@.len() + vis0.len() == q0.len() - 1
                                + visited_corner_orientations@.len(),
                            visited_corner_orientations@.contains(
                                co_coord(solved.corner_orientations),
                            ),
                            visited_corner_orientations@.contains(cur_coord),
                            processed.subset_of(visited_corner_orientations@),
                            g1_co_closed(processed, visited_corner_orientations@),
                            forall|k: int|
                                0 <= k < m ==> visited_corner_orientations@.contains(
                                    #[trigger] co_coord(g1_token_co(cur_co, moves@[k]@)),
                                ),
                            forall|k: int|
                                0 <= k < queue@.len() ==> {
                                    let e = #[trigger] queue@[k];
                                    &&& e.0@.wf()
                                    &&& e.1 <= visited_corner_orientations@.len()
                                    &&& visited_corner_orientations@.contains(
                                        co_coord(e.0@.corner_orientations),
                                    )
                                    &&& depth_of.contains_key(co_coord(e.0@.corner_orientations))
                                    &&& depth_of[co_coord(e.0@.corner_orientations)] == e.1
                                    &&& (exists|toks: Seq<Seq<char>>|
                                        all_g1_tokens(toks) && toks.len() == e.1 && co_coord(
                                            #[trigger] g1_tokens_co(
                                                solved.corner_orientations,
                                                toks,
                                            ),
                                        ) == co_coord(e.0@.corner_orientations))
                                },
                            forall|k: u32|
                                #[trigger] visited_corner_orientations@.contains(k)
                                    ==> processed.contains(k) || k == cur_coord || (exists|j: int|
                                    0 <= j < queue@.len() && #[trigger] co_coord(
                                        queue@[j].0@.corner_orientations,
                                    ) == k),
                        decreases 10 - m,
                    {
                        let mv: &str = moves[m];
                        let new_cube = current_cube.clone().apply_sequence(mv);
                        proof {
                            reveal_with_fuel(pow_int, 9);
                            assert(pow_int(3, 8) == 6561);
                            lemma_g1_token_co(current_cube@, mv@);
                            lemma_g1_token_co_wf(cur_co, mv@);
                            lemma_co_coord_value(new_cube@.corner_orientations);
                        }
                        let idx = Solver::orientations_to_index(&new_cube.corner_orientations, 3);
                        proof {
                            assert(new_cube@.corner_orientations == g1_token_co(cur_co, mv@));
                            assert(idx == co_coord(g1_token_co(cur_co, mv@)));
                        }
                        if !visited_corner_orientations.contains(&idx) {
                            let ghost vb = visited_corner_orientations@;
                            let ghost db = depth_of;
                            let ghost tb = table@;
                            visited_corner_orientations.insert(idx);
                            table.set(idx, depth + 1);
                            proof {
                                depth_of = depth_of.insert(idx, cur_depth + 1);
                                lemma_u32_range_finite(6561);
                                lemma_len_subset(
                                    visited_corner_orientations@,
                                    Set::new(|x: u32| x < 6561),
                                );
                                assert(g1_co_closed(processed, visited_corner_orientations@)) by {
                                    assert forall|co2: Seq<u8>, t2: Seq<char>|
                                        wf_co(co2) && processed.contains(co_coord(co2))
                                            && crate::solver::is_g1_token(
                                            t2,
                                        ) implies visited_corner_orientations@.contains(
                                        #[trigger] co_coord(g1_token_co(co2, t2)),
                                    ) by {
                                        assert(vb.contains(co_coord(g1_token_co(co2, t2))));
                                    }
                                }
                                assert forall|k2: u32|
                                    #[trigger] visited_corner_orientations@.contains(k2)
                                    <==> depth_of.contains_key(k2) by {
                                    if k2 != idx {
                                        assert(visited_corner_orientations@.contains(k2)
                                            <==> vb.contains(k2));
                                        assert(depth_of.contains_key(k2) <==> db.contains_key(
                                            k2,
                                        ));
                                    }
                                }
                                assert forall|k2: u32| #[trigger] table@.contains_key(
                                    k2,
                                ) implies table@[k2] == depth_of[k2] by {
                                    if k2 != idx {
                                        assert(tb.contains_key(k2) && table@[k2] == tb[k2]);
                                    }
                                }
                                assert(g1_co_depth_closed(processed, depth_of)) by {
                                    assert forall|co2: Seq<u8>, t2: Seq<char>|
                                        wf_co(co2) && processed.contains(co_coord(co2))
                                            && crate::solver::is_g1_token(
                                            t2,
                                        ) implies depth_of.contains_key(
                                        #[trigger] co_coord(g1_token_co(co2, t2)),
                                    ) && depth_of[co_coord(g1_token_co(co2, t2))]
                                        <= depth_of[co_coord(co2)] + 1 by {
                                        assert(db.contains_key(co_coord(g1_token_co(co2, t2))));
                                        assert(co_coord(g1_token_co(co2, t2)) != idx);
                                        assert(db.contains_key(co_coord(co2)));
                                        assert(co_coord(co2) != idx);
                                    }
                                }
                                let toks0 = choose|toks: Seq<Seq<char>>|
                                    all_g1_tokens(toks) && toks.len() == cur_depth && co_coord(
                                        #[trigger] g1_tokens_co(solved.corner_orientations, toks),
                                    ) == cur_coord;
                                lemma_g1_tokens_co_wf_chain(solved.corner_orientations, toks0);
                                let mid = g1_tokens_co(solved.corner_orientations, toks0);
                                lemma_co_coord_injective(mid, cur_co);
                                let toks1 = toks0.push(mv@);
                                assert(all_g1_tokens(toks1)) by {
                                    assert(forall|i: int|
                                        0 <= i < toks0.len() ==> toks1[i] == toks0[i]);
                                    assert(toks1[toks1.len() - 1] == mv@);
                                    assert(crate::solver::is_g1_token(mv@));
                                }
                                assert(toks1.drop_last() =~= toks0);
                                assert(toks1.last() == mv@);
                                assert(g1_tokens_co(solved.corner_orientations, toks1)
                                    == g1_token_co(cur_co, mv@));
                                assert(all_g1_tokens(toks1) && toks1.len() == cur_depth + 1
                                    && co_coord(g1_tokens_co(solved.corner_orientations, toks1))
                                    == idx);
                                assert forall|k2: u32| #[trigger] table@.contains_key(
                                    k2,
                                ) implies (exists|toks: Seq<Seq<char>>|
                                    all_g1_tokens(toks) && toks.len() == table@[k2] && co_coord(
                                        #[trigger] g1_tokens_co(solved.corner_orientations, toks),
                                    ) == k2) by {
                                    if k2 != idx {
                                        assert(tb.contains_key(k2) && table@[k2] == tb[k2]);
                                    }
                                }
                            }
                            let ghost qb = queue@;
                            queue.push_back((new_cube, depth + 1));
                            proof {
                                let ghost last = queue@.len() - 1;
                                assert(queue@[last].0 == new_cube);
                                assert(co_coord(queue@[last].0@.corner_orientations) == idx);
                                assert forall|k: u32|
                                    #[trigger] visited_corner_orientations@.contains(
                                    k,
                                ) implies processed.contains(k) || k == cur_coord || (exists|j: int|
                                    0 <= j < queue@.len() && #[trigger] co_coord(
                                        queue@[j].0@.corner_orientations,
                                    ) == k) by {
                                    if k == idx {
                                        assert(0 <= last < queue@.len() && co_coord(
                                            queue@[last].0@.corner_orientations,
                                        ) == k);
                                    } else {
                                        assert(vb.contains(k));
                                        if !processed.contains(k) && k != cur_coord {
                                            let j0 = choose|j: int|
                                                0 <= j < qb.len() && #[trigger] co_coord(
                                                    qb[j].0@.corner_orientations,
                                                ) == k;
                                            assert(queue@[j0] == qb[j0]);
                                            assert(0 <= j0 < queue@.len() && co_coord(
                                                queue@[j0].0@.corner_orientations,
                                            ) == k);
                                        }
                                    }
                                }
                            }
                        }
                        m = m + 1;
                    }
                    proof {
                        let proc1 = processed.insert(cur_coord);
                        assert forall|co2: Seq<u8>, t2: Seq<char>|
                            wf_co(co2) && proc1.contains(co_coord(co2))
                                && crate::solver::is_g1_token(
                                t2,
                            ) implies visited_corner_orientations@.contains(
                            #[trigger] co_coord(g1_token_co(co2, t2)),
                        ) && depth_of.contains_key(co_coord(g1_token_co(co2, t2)))
                            && depth_of[co_coord(g1_token_co(co2, t2))]
                            <= depth_of[co_coord(co2)] + 1 by {
                            if !processed.contains(co_coord(co2)) {
                                assert(co_coord(co2) == cur_coord);
                                lemma_co_coord_injective(co2, cur_co);
                                if t2 == "u"@ {
                                    assert(moves@[0]@ == t2);
                                } else if t2 == "u'"@ {
                                    assert(moves@[1]@ == t2);
                                } else if t2 == "d"@ {
                                    assert(moves@[2]@ == t2);
                                } else if t2 == "d'"@ {
                                    assert(moves@[3]@ == t2);
                                } else if t2 == "l"@ {
                                    assert(moves@[4]@ == t2);
                                } else if t2 == "l'"@ {
                                    assert(moves@[5]@ == t2);
                                } else if t2 == "r"@ {
                                    assert(moves@[6]@ == t2);
                                } else if t2 == "r'"@ {
                                    assert(moves@[7]@ == t2);
                                } else if t2 == "f2"@ {
                                    assert(moves@[8]@ == t2);
                                } else {
                                    assert(moves@[9]@ == t2);
                                }
                            }
                        }
                        processed = proc1;
                        assert forall|k: u32| #[trigger] visited_corner_orientations@.contains(
                            k,
                        ) implies processed.contains(k) || (exists|j: int|
                            0 <= j < queue@.len() && #[trigger] co_coord(
                                queue@[j].0@.corner_orientations,
                            ) == k) by {}
                    }
                },
            }
        }
    }
}

} // verus!
