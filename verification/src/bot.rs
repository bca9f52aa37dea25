//! The search engine: depth-limited minimax with alpha-beta pruning over the
//! state generator's output, selecting a move under a pluggable evaluation.
//!
//! The pruned search is proved to return the same value as an unpruned
//! minimax fold over the full game tree whenever it is run with the full
//! window, and to return a sound bound otherwise.

use vstd::prelude::*;

use rand::seq::SliceRandom;

use crate::bits::pop;
use crate::board::board_ok;
use crate::moves::maps_wf;
use crate::moves::states_for_turn;
use crate::moves::successors;
use crate::moves::MoveMaps;

verus! {

/// The sentinel bounds of the search window; they dominate every evaluation,
/// which is confined to (-10000, 10000).
pub const SCORE_FLOOR: i64 = -10000;

pub const SCORE_CEILING: i64 = 10000;

/// A position evaluation strategy.  Scores are integers, higher favouring
/// white, and must stay strictly inside the search window's sentinels.
pub trait Evaluator: Sized {
    /// The score this evaluator assigns to a board.
    spec fn spec_eval(&self, b: Seq<u64>) -> int;

    /// Scores stay strictly inside the sentinel bounds.
    proof fn eval_bounded(&self, b: Seq<u64>)
        ensures
            -9999 <= self.spec_eval(b) <= 9999,
    ;

    /// Compute the score of a board.
    fn evaluate(&self, board: &[u64; 13]) -> (s: i64)
        ensures
            s == self.spec_eval(board@),
    ;
}

/// Material worth of the piece kind stored in the given slice: positive for
/// white, negative for black.
pub open spec fn piece_points(s: int) -> int {
    if s == 0 {
        5
    } else if s == 1 {
        3
    } else if s == 2 {
        8
    } else if s == 3 {
        1
    } else if s == 4 {
        3
    } else if s == 5 {
        50
    } else if s == 6 {
        -5
    } else if s == 7 {
        -3
    } else if s == 8 {
        -8
    } else if s == 9 {
        -1
    } else if s == 10 {
        -3
    } else if s == 11 {
        -50
    } else {
        0
    }
}

/// Material score of the first `n` slices.
pub open spec fn material(b: Seq<u64>, n: int) -> int
    decreases n,
{
    if n <= 0 {
        0
    } else {
        material(b, n - 1) + piece_points(n - 1) * pop(b[n - 1])
    }
}

/// Material score of a board: piece worth times piece count, summed over all
/// twelve slices.
pub open spec fn material_score(b: Seq<u64>) -> int {
    material(b, 12)
}

/// Absolute worth of the piece kind in the given slice.
pub open spec fn abs_points(s: int) -> int {
    if piece_points(s) >= 0 {
        piece_points(s)
    } else {
        -piece_points(s)
    }
}

/// Sum of the absolute worths of the first `n` slices.
pub open spec fn abs_points_sum(n: int) -> int
    decreases n,
{
    if n <= 0 {
        0
    } else {
        abs_points_sum(n - 1) + abs_points(n - 1)
    }
}

proof fn lemma_material_bounds(b: Seq<u64>, n: int)
    requires
        0 <= n <= 12,
    ensures
        -64 * abs_points_sum(n) <= material(b, n) <= 64 * abs_points_sum(n),
    decreases n,
{
    if n > 0 {
        lemma_material_bounds(b, n - 1);
        crate::bits::lemma_pop_below_bound(b[n - 1], 64);
        assert(-64 * abs_points(n - 1) <= piece_points(n - 1) * pop(b[n - 1]) <= 64 * abs_points(
            n - 1,
        )) by (nonlinear_arith)
            requires
                -abs_points(n - 1) <= piece_points(n - 1) <= abs_points(n - 1),
                0 <= pop(b[n - 1]) <= 64,
        ;
    }
}

proof fn lemma_material_in_window(b: Seq<u64>)
    ensures
        -9999 <= material_score(b) <= 9999,
{
    lemma_material_bounds(b, 12);
    reveal_with_fuel(abs_points_sum, 13);
    assert(abs_points_sum(12) == 140);
}

fn piece_points_of(s: usize) -> (r: i64)
    ensures
        r == piece_points(s as int),
{
    if s == 0 {
        5
    } else if s == 1 {
        3
    } else if s == 2 {
        8
    } else if s == 3 {
        1
    } else if s == 4 {
        3
    } else if s == 5 {
        50
    } else if s == 6 {
        -5
    } else if s == 7 {
        -3
    } else if s == 8 {
        -8
    } else if s == 9 {
        -1
    } else if s == 10 {
        -3
    } else if s == 11 {
        -50
    } else {
        0
    }
}

/// Material score of a board, as executable code.
pub fn basic_eval(state: [u64; 13]) -> (s: i64)
    ensures
        s == material_score(state@),
        -9999 <= s <= 9999,
{
    let mut score: i64 = 0;
    let mut s: usize = 0;
    while s < 12
        invariant
            s <= 12,
            score == material(state@, s as int),
            -3200 * s <= score <= 3200 * s,
        decreases 12 - s,
    {
        let points: i64 = piece_points_of(s);
        let count: u32 = crate::utility::number_of_bits(state[s]);
        proof {
            crate::bits::lemma_pop_below_bound(state@[s as int], 64);
            assert(-3200 <= piece_points(s as int) * pop(state@[s as int]) <= 3200)
                by (nonlinear_arith)
                requires
                    -50 <= piece_points(s as int) <= 50,
                    0 <= pop(state@[s as int]) <= 64,
            ;
            lemma_material_bounds(state@, s as int);
        }
        score = score + points * (count as i64);
        proof {
            assert(score == material(state@, s as int + 1));
        }
        s = s + 1;
    }
    proof {
        lemma_material_in_window(state@);
    }
    score
}

/// The greater of two values.
pub open spec fn max_int(a: int, b: int) -> int {
    if a >= b {
        a
    } else {
        b
    }
}

/// The lesser of two values.
pub open spec fn min_int(a: int, b: int) -> int {
    if a <= b {
        a
    } else {
        b
    }
}

/// Unpruned minimax value of a position: at depth 0 the evaluation itself;
/// otherwise the best successor value for the side to move, maximizing for
/// white and minimizing for black, folded from the matching sentinel.
pub open spec fn minimax_value<E: Evaluator>(e: E, b: Seq<u64>, white: bool, depth: nat) -> int
    decreases depth, 0int, 0int,
{
    if depth == 0 {
        e.spec_eval(b)
    } else {
        let succ = successors(
            b,
            if white {
                crate::constants::WHITE_TEAM
            } else {
                crate::constants::BLACK_TEAM
            },
        );
        if white {
            max_over(e, succ, (depth - 1) as nat, succ.len() as int)
        } else {
            min_over(e, succ, (depth - 1) as nat, succ.len() as int)
        }
    }
}

/// Greatest value of the first `k` successors at a white node, folded from
/// the sentinel floor; the successors are evaluated as black nodes one ply
/// deeper.
pub open spec fn max_over<E: Evaluator>(e: E, succ: Seq<Seq<u64>>, depth_next: nat, k: int) -> int
    decreases depth_next, k, 1int,
{
    if k <= 0 {
        -10000
    } else {
        max_int(
            max_over(e, succ, depth_next, k - 1),
            minimax_value(e, succ[k - 1], false, depth_next),
        )
    }
}

/// Least value of the first `k` successors at a black node, folded from the
/// sentinel ceiling.
pub open spec fn min_over<E: Evaluator>(e: E, succ: Seq<Seq<u64>>, depth_next: nat, k: int) -> int
    decreases depth_next, k, 1int,
{
    if k <= 0 {
        10000
    } else {
        min_int(
            min_over(e, succ, depth_next, k - 1),
            minimax_value(e, succ[k - 1], true, depth_next),
        )
    }
}

/// Minimax values never leave the sentinel window.
pub proof fn lemma_minimax_bounds<E: Evaluator>(e: E, b: Seq<u64>, white: bool, depth: nat)
    ensures
        -10000 <= minimax_value(e, b, white, depth) <= 10000,
    decreases depth, 0int, 0int,
{
    if depth == 0 {
        e.eval_bounded(b);
    } else {
        let succ = successors(
            b,
            if white {
                crate::constants::WHITE_TEAM
            } else {
                crate::constants::BLACK_TEAM
            },
        );
        if white {
            lemma_max_over_bounds(e, succ, (depth - 1) as nat, succ.len() as int);
        } else {
            lemma_min_over_bounds(e, succ, (depth - 1) as nat, succ.len() as int);
        }
    }
}

proof fn lemma_max_over_bounds<E: Evaluator>(e: E, succ: Seq<Seq<u64>>, depth_next: nat, k: int)
    ensures
        -10000 <= max_over(e, succ, depth_next, k) <= 10000,
    decreases depth_next, k, 1int,
{
    if k > 0 {
        lemma_max_over_bounds(e, succ, depth_next, k - 1);
        if 0 <= k - 1 < succ.len() {
            lemma_minimax_bounds(e, succ[k - 1], false, depth_next);
        } else {
            lemma_minimax_bounds(e, succ[k - 1], false, depth_next);
        }
    }
}

proof fn lemma_min_over_bounds<E: Evaluator>(e: E, succ: Seq<Seq<u64>>, depth_next: nat, k: int)
    ensures
        -10000 <= min_over(e, succ, depth_next, k) <= 10000,
    decreases depth_next, k, 1int,
{
    if k > 0 {
        lemma_min_over_bounds(e, succ, depth_next, k - 1);
        lemma_minimax_bounds(e, succ[k - 1], true, depth_next);
    }
}

/// The fold over a longer prefix never shrinks, and dominates every element
/// it covers.
proof fn lemma_max_over_element<E: Evaluator>(
    e: E,
    succ: Seq<Seq<u64>>,
    depth_next: nat,
    k: int,
    m: int,
)
    requires
        0 <= m < k,
    ensures
        minimax_value(e, succ[m], false, depth_next) <= max_over(e, succ, depth_next, k),
    decreases k,
{
    if m < k - 1 {
        lemma_max_over_element(e, succ, depth_next, k - 1, m);
    }
}

proof fn lemma_min_over_element<E: Evaluator>(
    e: E,
    succ: Seq<Seq<u64>>,
    depth_next: nat,
    k: int,
    m: int,
)
    requires
        0 <= m < k,
    ensures
        min_over(e, succ, depth_next, k) <= minimax_value(e, succ[m], true, depth_next),
    decreases k,
{
    if m < k - 1 {
        lemma_min_over_element(e, succ, depth_next, k - 1, m);
    }
}

/// The material-count evaluation strategy.
pub struct BasicEval {}

impl Evaluator for BasicEval {
    open spec fn spec_eval(&self, b: Seq<u64>) -> int {
        material_score(b)
    }

    proof fn eval_bounded(&self, b: Seq<u64>) {
        lemma_material_in_window(b);
    }

    fn evaluate(&self, board: &[u64; 13]) -> (s: i64) {
        basic_eval(*board)
    }
}

/// The board state with no pieces at all, returned when a side has no
/// successor state to choose from.
pub open spec fn empty_board() -> Seq<u64> {
    Seq::new(13, |s: int| 0u64)
}

/// After a permutation, each state of the permuted vector is, as a view, one
/// of the specification boards the original vector matched.
proof fn lemma_view_in(
    orig: Seq<[u64; 13]>,
    shuf: Seq<[u64; 13]>,
    succ: Seq<Seq<u64>>,
    n: int,
)
    requires
        shuf.to_multiset() == orig.to_multiset(),
        crate::split_state::matches_states(orig, succ),
        0 <= n < shuf.len(),
    ensures
        exists|m: int| 0 <= m < succ.len() && #[trigger] succ[m] == shuf[n]@,
{
    broadcast use vstd::seq_lib::group_to_multiset_ensures;

    assert(shuf.contains(shuf[n]));
    assert(shuf.to_multiset().count(shuf[n]) > 0);
    assert(orig.contains(shuf[n]));
    let m: int = choose|m: int| 0 <= m < orig.len() && orig[m] == shuf[n];
    assert(orig[m]@ == succ[m]);
    assert(0 <= m < succ.len() && succ[m] == shuf[n]@);
}

/// After a permutation, each specification board is still the view of some
/// state of the permuted vector.
proof fn lemma_board_present(
    orig: Seq<[u64; 13]>,
    shuf: Seq<[u64; 13]>,
    succ: Seq<Seq<u64>>,
    m: int,
)
    requires
        shuf.to_multiset() == orig.to_multiset(),
        crate::split_state::matches_states(orig, succ),
        0 <= m < succ.len(),
    ensures
        exists|n: int| 0 <= n < shuf.len() && #[trigger] shuf[n]@ == succ[m],
{
    broadcast use vstd::seq_lib::group_to_multiset_ensures;

    assert(orig.contains(orig[m]));
    assert(orig.to_multiset().count(orig[m]) > 0);
    assert(shuf.contains(orig[m]));
    let n: int = choose|n: int| 0 <= n < shuf.len() && shuf[n] == orig[m];
    assert(orig[m]@ == succ[m]);
    assert(0 <= n < shuf.len() && shuf[n]@ == succ[m]);
}

/// What a correct white move choice looks like: when some successor beats
/// the sentinel floor, the choice is a successor whose deep value no other
/// successor exceeds; otherwise it is the empty board.
pub open spec fn white_choice_ok<E: Evaluator>(
    e: E,
    succ: Seq<Seq<u64>>,
    d: nat,
    r: Seq<u64>,
) -> bool {
    if exists|m: int|
        0 <= m < succ.len() && minimax_value(e, #[trigger] succ[m], false, d) > -10000 {
        (exists|m: int| 0 <= m < succ.len() && r == #[trigger] succ[m]) && (forall|n: int|
            0 <= n < succ.len() ==> minimax_value(e, #[trigger] succ[n], false, d)
                <= minimax_value(e, r, false, d))
    } else {
        r == empty_board()
    }
}

/// What a correct black move choice looks like, symmetrically minimizing.
pub open spec fn black_choice_ok<E: Evaluator>(
    e: E,
    succ: Seq<Seq<u64>>,
    d: nat,
    r: Seq<u64>,
) -> bool {
    if exists|m: int| 0 <= m < succ.len() && minimax_value(e, #[trigger] succ[m], true, d) < 10000 {
        (exists|m: int| 0 <= m < succ.len() && r == #[trigger] succ[m]) && (forall|n: int|
            0 <= n < succ.len() ==> minimax_value(e, r, true, d) <= minimax_value(
                e,
                #[trigger] succ[n],
                true,
                d,
            ))
    } else {
        r == empty_board()
    }
}

/// Relies on rand::seq::SliceRandom::shuffle, which permutes the slice in
/// place by swaps: the multiset of states is unchanged, only their order.
#[verifier::external_body]
fn shuffle_states(states: &mut Vec<[u64; 13]>)
    ensures
        final(states)@.to_multiset() == old(states)@.to_multiset(),
        final(states)@.len() == old(states)@.len(),
{
    states.shuffle(&mut rand::thread_rng());
}

/// The automated player: a pluggable evaluation plus a search depth.
pub struct Bot<E: Evaluator> {
    eval_fn: E,
    depth: u8,
}

/// Build a bot from an evaluation strategy and a search depth; depth 0 means
/// evaluating successors immediately with no lookahead.
pub fn make_bot<E: Evaluator>(eval_function: E, d: u8) -> (b: Bot<E>)
    ensures
        b.spec_eval_fn() == eval_function,
        b.spec_depth() == d,
{
    Bot { eval_fn: eval_function, depth: d }
}

impl<E: Evaluator> Bot<E> {
    /// The bot's evaluation strategy.
    pub closed spec fn spec_eval_fn(&self) -> E {
        self.eval_fn
    }

    /// The bot's search depth.
    pub closed spec fn spec_depth(&self) -> u8 {
        self.depth
    }

    /// Depth-limited minimax with alpha-beta pruning.  The result is a sound
    /// fail-soft approximation of the unpruned minimax value `v`: a result
    /// inside the window equals `v` exactly, a result at or below `alpha` is
    /// an upper bound on `v`, a result at or above `beta` is a lower bound,
    /// and with the full sentinel window the result is `v` itself — the
    /// pruning never changes the answer there.
    #[verifier::rlimit(100)]
    fn minimax(
        &self,
        state: [u64; 13],
        turn_number: u8,
        depth_gone: u8,
        alpha: i64,
        beta: i64,
        maps: &mut MoveMaps,
    ) -> (r: i64)
        requires
            board_ok(state@),
            maps_wf(old(maps)),
            depth_gone <= self.spec_depth(),
            -10000 <= alpha < beta <= 10000,
        ensures
            maps_wf(final(maps)),
            -10000 <= r <= 10000,
            ({
                let v = minimax_value(
                    self.spec_eval_fn(),
                    state@,
                    turn_number % 2 == 1,
                    (self.spec_depth() - depth_gone) as nat,
                );
                &&& (r <= alpha ==> v <= r)
                &&& (r >= beta ==> v >= r)
                &&& (alpha < r < beta ==> r == v)
                &&& ((alpha == -10000 && beta == 10000) ==> r == v)
            }),
        decreases self.spec_depth() - depth_gone,
    {
        let ghost e = self.spec_eval_fn();
        let ghost white = turn_number % 2 == 1;
        let ghost depth_left = (self.spec_depth() - depth_gone) as nat;
        if depth_gone == self.depth {
            let s: i64 = self.eval_fn.evaluate(&state);
            proof {
                self.eval_fn.eval_bounded(state@);
            }
            return s;
        }
        let ghost depth_next = (depth_left - 1) as nat;
        let possible_states: Vec<[u64; 13]> = states_for_turn(state, turn_number, maps);
        let ghost succ = successors(state@, turn_number);
        proof {
            crate::moves::lemma_successors_ok(state@, turn_number);
            if white {
                assert(succ == successors(state@, crate::constants::WHITE_TEAM));
            } else {
                assert(succ == successors(state@, crate::constants::BLACK_TEAM));
            }
            lemma_minimax_bounds(e, state@, white, depth_left);
        }
        let next_turn: u8 = if turn_number == 255 {
            0
        } else {
            turn_number + 1
        };
        if turn_number % 2 == 1 {
            let mut best: i64 = -10000;
            let mut al: i64 = alpha;
            let mut k: usize = 0;
            while k < possible_states.len()
                invariant
                    board_ok(state@),
                    maps_wf(maps),
                    self.spec_depth() - depth_gone >= 1,
                    depth_left == (self.spec_depth() - depth_gone) as nat,
                    depth_next == (depth_left - 1) as nat,
                    e == self.spec_eval_fn(),
                    white == (turn_number % 2 == 1),
                    white,
                    next_turn % 2 != turn_number % 2,
                    succ == successors(state@, turn_number),
                    crate::split_state::matches_states(possible_states@, succ),
                    forall|m: int| 0 <= m < succ.len() ==> board_ok(#[trigger] succ[m]),
                    k <= possible_states@.len(),
                    -10000 <= alpha < beta <= 10000,
                    -10000 <= best <= 10000,
                    al == max_int(alpha as int, best as int),
                    al < beta,
                    max_over(e, succ, depth_next, k as int) <= best,
                    best <= max_int(alpha as int, max_over(e, succ, depth_next, k as int)),
                decreases possible_states@.len() - k,
            {
                let current_value: i64 = self.minimax(
                    possible_states[k],
                    next_turn,
                    depth_gone + 1,
                    al,
                    beta,
                    maps,
                );
                let ghost vk = minimax_value(e, succ[k as int], false, depth_next);
                proof {
                    lemma_minimax_bounds(e, succ[k as int], false, depth_next);
                }
                if current_value > best {
                    best = current_value;
                }
                if best > al {
                    al = best;
                }
                if al >= beta {
                    proof {
                        lemma_minimax_bounds(e, state@, white, depth_left);
                        assert(current_value >= beta);
                        assert(vk >= current_value);
                        lemma_max_over_element(e, succ, depth_next, succ.len() as int, k as int);
                        assert(minimax_value(e, state@, white, depth_left) >= best);
                    }
                    return best;
                }
                proof {
                    assert(max_over(e, succ, depth_next, k as int + 1) == max_int(
                        max_over(e, succ, depth_next, k as int),
                        vk,
                    ));
                }
                k = k + 1;
            }
            proof {
                assert(max_over(e, succ, depth_next, succ.len() as int) <= best);
                assert(minimax_value(e, state@, white, depth_left) == max_over(
                    e,
                    succ,
                    depth_next,
                    succ.len() as int,
                ));
            }
            best
        } else {
            let mut best: i64 = 10000;
            let mut be: i64 = beta;
            let mut k: usize = 0;
            while k < possible_states.len()
                invariant
                    board_ok(state@),
                    maps_wf(maps),
                    self.spec_depth() - depth_gone >= 1,
                    depth_left == (self.spec_depth() - depth_gone) as nat,
                    depth_next == (depth_left - 1) as nat,
                    e == self.spec_eval_fn(),
                    white == (turn_number % 2 == 1),
                    !white,
                    next_turn % 2 != turn_number % 2,
                    succ == successors(state@, turn_number),
                    crate::split_state::matches_states(possible_states@, succ),
                    forall|m: int| 0 <= m < succ.len() ==> board_ok(#[trigger] succ[m]),
                    k <= possible_states@.len(),
                    -10000 <= alpha < beta <= 10000,
                    -10000 <= best <= 10000,
                    be == min_int(beta as int, best as int),
                    alpha < be,
                    best <= min_over(e, succ, depth_next, k as int),
                    min_int(beta as int, min_over(e, succ, depth_next, k as int)) <= best,
                decreases possible_states@.len() - k,
            {
                let current_value: i64 = self.minimax(
                    possible_states[k],
                    next_turn,
                    depth_gone + 1,
                    alpha,
                    be,
                    maps,
                );
                let ghost vk = minimax_value(e, succ[k as int], true, depth_next);
                proof {
                    lemma_minimax_bounds(e, succ[k as int], true, depth_next);
                }
                if current_value < best {
                    best = current_value;
                }
                if best < be {
                    be = best;
                }
                if alpha >= be {
                    proof {
                        lemma_minimax_bounds(e, state@, white, depth_left);
                        assert(current_value <= alpha);
                        assert(vk <= current_value);
                        lemma_min_over_element(e, succ, depth_next, succ.len() as int, k as int);
                        assert(minimax_value(e, state@, white, depth_left) <= best);
                    }
                    return best;
                }
                proof {
                    assert(min_over(e, succ, depth_next, k as int + 1) == min_int(
                        min_over(e, succ, depth_next, k as int),
                        vk,
                    ));
                }
                k = k + 1;
            }
            proof {
                assert(best <= min_over(e, succ, depth_next, succ.len() as int));
                assert(minimax_value(e, state@, white, depth_left) == min_over(
                    e,
                    succ,
                    depth_next,
                    succ.len() as int,
                ));
            }
            best
        }
    }

    /// Choose a successor for white: generate, shuffle to randomize among
    /// equal candidates, then keep the strictly best state under a
    /// full-window one-ply-deeper search.
    #[verifier::rlimit(100)]
    fn get_state_white(&self, state: [u64; 13], maps: &mut MoveMaps) -> (r: [u64; 13])
        requires
            board_ok(state@),
            maps_wf(old(maps)),
        ensures
            maps_wf(final(maps)),
            white_choice_ok(
                self.spec_eval_fn(),
                successors(state@, crate::constants::WHITE_TEAM),
                self.spec_depth() as nat,
                r@,
            ),
    {
        let ghost e = self.spec_eval_fn();
        let ghost d = self.spec_depth() as nat;
        let mut possible_states: Vec<[u64; 13]> = states_for_turn(state, 1, maps);
        let ghost succ = successors(state@, crate::constants::WHITE_TEAM);
        let ghost orig = possible_states@;
        shuffle_states(&mut possible_states);
        let ghost shuf = possible_states@;
        proof {
            crate::moves::lemma_successors_ok(state@, crate::constants::WHITE_TEAM);
        }
        let mut candidate_state: [u64; 13] = [0, 0, 0, 0, 0, 0, 0, 0, 0, 0, 0, 0, 0];
        proof {
            assert(candidate_state@ =~= empty_board());
        }
        let mut best_eval: i64 = -10000;
        let mut k: usize = 0;
        while k < possible_states.len()
            invariant
                board_ok(state@),
                maps_wf(maps),
                e == self.spec_eval_fn(),
                d == self.spec_depth() as nat,
                possible_states@ == shuf,
                succ == successors(state@, crate::constants::WHITE_TEAM),
                shuf.to_multiset() == orig.to_multiset(),
                crate::split_state::matches_states(orig, succ),
                forall|m: int| 0 <= m < succ.len() ==> board_ok(#[trigger] succ[m]),
                k <= shuf.len(),
                -10000 <= best_eval <= 10000,
                forall|n: int|
                    0 <= n < k ==> minimax_value(e, #[trigger] shuf[n]@, false, d) <= best_eval,
                best_eval == -10000 ==> candidate_state@ == empty_board(),
                best_eval > -10000 ==> (exists|m: int|
                    0 <= m < succ.len() && candidate_state@ == #[trigger] succ[m]) && minimax_value(
                    e,
                    candidate_state@,
                    false,
                    d,
                ) == best_eval,
            decreases shuf.len() - k,
        {
            proof {
                lemma_view_in(orig, shuf, succ, k as int);
                let m: int = choose|m: int|
                    0 <= m < succ.len() && #[trigger] succ[m] == shuf[k as int]@;
            }
            let evaluation: i64 = self.minimax(possible_states[k], 2, 0, -10000, 10000, maps);
            if evaluation > best_eval {
                candidate_state = possible_states[k];
                best_eval = evaluation;
                proof {
                    let m: int = choose|m: int|
                        0 <= m < succ.len() && #[trigger] succ[m] == shuf[k as int]@;
                    assert(0 <= m < succ.len() && candidate_state@ == succ[m]);
                }
            }
            k = k + 1;
        }
        proof {
            if exists|m: int|
                0 <= m < succ.len() && minimax_value(e, #[trigger] succ[m], false, d) > -10000 {
                let m: int = choose|m: int|
                    0 <= m < succ.len() && minimax_value(e, #[trigger] succ[m], false, d) > -10000;
                lemma_board_present(orig, shuf, succ, m);
                let n: int = choose|n: int|
                    0 <= n < shuf.len() && #[trigger] shuf[n]@ == succ[m];
                assert(minimax_value(e, shuf[n]@, false, d) <= best_eval);
                assert(best_eval > -10000);
                assert forall|n2: int| 0 <= n2 < succ.len() implies minimax_value(
                    e,
                    #[trigger] succ[n2],
                    false,
                    d,
                ) <= minimax_value(e, candidate_state@, false, d) by {
                    lemma_board_present(orig, shuf, succ, n2);
                    let n3: int = choose|n3: int|
                        0 <= n3 < shuf.len() && #[trigger] shuf[n3]@ == succ[n2];
                    assert(minimax_value(e, shuf[n3]@, false, d) <= best_eval);
                }
            }
        }
        candidate_state
    }

    /// Choose a successor for black, symmetrically minimizing.
    #[verifier::rlimit(100)]
    fn get_state_black(&self, state: [u64; 13], maps: &mut MoveMaps) -> (r: [u64; 13])
        requires
            board_ok(state@),
            maps_wf(old(maps)),
        ensures
            maps_wf(final(maps)),
            black_choice_ok(
                self.spec_eval_fn(),
                successors(state@, crate::constants::BLACK_TEAM),
                self.spec_depth() as nat,
                r@,
            ),
    {
        let ghost e = self.spec_eval_fn();
        let ghost d = self.spec_depth() as nat;
        let mut possible_states: Vec<[u64; 13]> = states_for_turn(state, 0, maps);
        let ghost succ = successors(state@, crate::constants::BLACK_TEAM);
        let ghost orig = possible_states@;
        shuffle_states(&mut possible_states);
        let ghost shuf = possible_states@;
        proof {
            crate::moves::lemma_successors_ok(state@, crate::constants::BLACK_TEAM);
        }
        let mut candidate_state: [u64; 13] = [0, 0, 0, 0, 0, 0, 0, 0, 0, 0, 0, 0, 0];
        proof {
            assert(candidate_state@ =~= empty_board());
        }
        let mut best_eval: i64 = 10000;
        let mut k: usize = 0;
        while k < possible_states.len()
            invariant
                board_ok(state@),
                maps_wf(maps),
                e == self.spec_eval_fn(),
                d == self.spec_depth() as nat,
                possible_states@ == shuf,
                succ == successors(state@, crate::constants::BLACK_TEAM),
                shuf.to_multiset() == orig.to_multiset(),
                crate::split_state::matches_states(orig, succ),
                forall|m: int| 0 <= m < succ.len() ==> board_ok(#[trigger] succ[m]),
                k <= shuf.len(),
                -10000 <= best_eval <= 10000,
                forall|n: int|
                    0 <= n < k ==> best_eval <= minimax_value(e, #[trigger] shuf[n]@, true, d),
                best_eval == 10000 ==> candidate_state@ == empty_board(),
                best_eval < 10000 ==> (exists|m: int|
                    0 <= m < succ.len() && candidate_state@ == #[trigger] succ[m]) && minimax_value(
                    e,
                    candidate_state@,
                    true,
                    d,
                ) == best_eval,
            decreases shuf.len() - k,
        {
            proof {
                lemma_view_in(orig, shuf, succ, k as int);
                let m: int = choose|m: int|
                    0 <= m < succ.len() && #[trigger] succ[m] == shuf[k as int]@;
            }
            let evaluation: i64 = self.minimax(possible_states[k], 1, 0, -10000, 10000, maps);
            if evaluation < best_eval {
                candidate_state = possible_states[k];
                best_eval = evaluation;
                proof {
                    let m: int = choose|m: int|
                        0 <= m < succ.len() && #[trigger] succ[m] == shuf[k as int]@;
                    assert(0 <= m < succ.len() && candidate_state@ == succ[m]);
                }
            }
            k = k + 1;
        }
        proof {
            if exists|m: int|
                0 <= m < succ.len() && minimax_value(e, #[trigger] succ[m], true, d) < 10000 {
                let m: int = choose|m: int|
                    0 <= m < succ.len() && minimax_value(e, #[trigger] succ[m], true, d) < 10000;
                lemma_board_present(orig, shuf, succ, m);
                let n: int = choose|n: int|
                    0 <= n < shuf.len() && #[trigger] shuf[n]@ == succ[m];
                assert(best_eval <= minimax_value(e, shuf[n]@, true, d));
                assert(best_eval < 10000);
                assert forall|n2: int| 0 <= n2 < succ.len() implies minimax_value(
                    e,
                    candidate_state@,
                    true,
                    d,
                ) <= minimax_value(e, #[trigger] succ[n2], true, d) by {
                    lemma_board_present(orig, shuf, succ, n2);
                    let n3: int = choose|n3: int|
                        0 <= n3 < shuf.len() && #[trigger] shuf[n3]@ == succ[n2];
                    assert(best_eval <= minimax_value(e, shuf[n3]@, true, d));
                }
            }
        }
        candidate_state
    }

    /// Choose a successor state for the side whose turn it is.  When any
    /// successor improves on the sentinel, the returned state is a successor
    /// whose one-ply-deeper full-window search value is best for the moving
    /// side; otherwise the empty board is returned.
    pub fn get_state_quiet(&self, state: [u64; 13], turn_number: u8, maps: &mut MoveMaps) -> (r:
        [u64; 13])
        requires
            board_ok(state@),
            maps_wf(old(maps)),
        ensures
            maps_wf(final(maps)),
            turn_number % 2 == 1 ==> white_choice_ok(
                self.spec_eval_fn(),
                successors(state@, turn_number),
                self.spec_depth() as nat,
                r@,
            ),
            turn_number % 2 == 0 ==> black_choice_ok(
                self.spec_eval_fn(),
                successors(state@, turn_number),
                self.spec_depth() as nat,
                r@,
            ),
    {
        if turn_number % 2 == 0 {
            let r: [u64; 13] = self.get_state_black(state, maps);
            proof {
                assert(successors(state@, turn_number) == successors(
                    state@,
                    crate::constants::BLACK_TEAM,
                ));
            }
            r
        } else {
            let r: [u64; 13] = self.get_state_white(state, maps);
            proof {
                assert(successors(state@, turn_number) == successors(
                    state@,
                    crate::constants::WHITE_TEAM,
                ));
            }
            r
        }
    }
}

} // verus!
