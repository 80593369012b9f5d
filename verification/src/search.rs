//! The search engine: iterative-deepening principal-variation search
//! with alpha-beta pruning, a direct-mapped move-ordering hint table,
//! killer moves, evaluation jitter, and a cooperative stop flag.

use vstd::prelude::*;
use std::sync::Arc;
use std::sync::atomic::AtomicBool;
use std::sync::atomic::Ordering;
use crate::bits::count_bits;
use crate::rng::Rng;
use crate::rules::{Color, Move, State};
use crate::rules::{lemma_move_list_can_apply, lemma_move_list_pass};

verus! {

pub const VERY_NEGATIVE_EVAL: i32 = -1000000000;

pub const VERY_POSITIVE_EVAL: i32 = 1000000000;

/// Nudge a decisive score one unit toward zero, so a win found in fewer
/// plies outranks the same win found later.
pub open spec fn spec_damp(score: int) -> int {
    if score > 100000 {
        score - 1
    } else if score < -100000 {
        score + 1
    } else {
        score
    }
}

fn make_terminal_score_slightly_less_extreme(score: i32) -> (r: i32)
    ensures
        r as int == spec_damp(score as int),
{
    if score > 100000 {
        score - 1
    } else if score < -100000 {
        score + 1
    } else {
        score
    }
}

/// The static evaluation, from the side to move: 100 per stone of
/// material difference, pushed by a million toward the leader when the
/// game is over.
pub open spec fn spec_evaluate(s: State) -> int {
    let diff = 100 * (count_bits(s.black_stones) - count_bits(s.white_stones));
    let base = if s.spec_terminal() && diff > 0 {
        diff + 1000000
    } else if s.spec_terminal() && diff < 0 {
        diff - 1000000
    } else {
        diff
    };
    if s.to_move == Color::Black {
        base
    } else {
        -base
    }
}

/// Returns an evaluation for the current player.
pub fn evaluate(state: &State) -> (r: i32)
    ensures
        r as int == spec_evaluate(*state),
        -1006400 <= r <= 1006400,
{
    proof {
        crate::bits::lemma_count_bits_le_64(state.black_stones);
        crate::bits::lemma_count_bits_le_64(state.white_stones);
    }
    let mut score: i32 = 100 * (crate::bits::popcount(state.black_stones) as i32
        - crate::bits::popcount(state.white_stones) as i32);
    if state.game_is_over() {
        if score > 0 {
            score = score + 1000000;
        } else if score < 0 {
            score = score - 1000000;
        }
    }
    match state.to_move {
        Color::Black => score,
        Color::White => -score,
    }
}

/// A direct-mapped table of `(key, move)` hint slots: a new write
/// unconditionally overwrites the slot its key maps to, and a lookup
/// answers only when the stored key matches. Collisions silently replace
/// an unrelated hint, which is safe because a hint only orders moves.
pub struct FixedHashTable {
    table: Vec<(u64, Move)>,
}

impl FixedHashTable {
    spec fn wf(self) -> bool {
        self.table@.len() == 1048576
    }

    fn new() -> (r: FixedHashTable)
        ensures
            r.wf(),
    {
        let mut table: Vec<(u64, Move)> = Vec::new();
        let mut i: usize = 0;
        while i < 1048576
            invariant
                table@.len() == i,
                i <= 1048576,
            decreases 1048576 - i,
        {
            table.push((0, Move::pass()));
            i = i + 1;
        }
        FixedHashTable { table }
    }

    fn get(&self, key: u64) -> (r: Option<Move>)
        requires
            self.wf(),
        ensures
            r == (if self.table@[(key % 1048576) as int].0 == key {
                Some(self.table@[(key % 1048576) as int].1)
            } else {
                None::<Move>
            }),
    {
        let index = (key % 1048576) as usize;
        if self.table[index].0 == key {
            Some(self.table[index].1)
        } else {
            None
        }
    }

    fn set(&mut self, key: u64, value: Move)
        requires
            old(self).wf(),
        ensures
            final(self).wf(),
            final(self).table@ == old(self).table@.update(
                (key % 1048576) as int,
                (key, value),
            ),
    {
        let index = (key % 1048576) as usize;
        self.table[index] = (key, value);
    }
}

/// Reorder candidate moves so that the hint-table match comes first and
/// killer-move matches come before the rest, both groups otherwise kept
/// in order; the result holds exactly the moves handed in.
fn order_moves(moves: Vec<Move>, hint: Option<Move>, killer: Option<Move>) -> (r: Vec<Move>)
    ensures
        r@.len() == moves@.len(),
        forall|x: Move| #[trigger] r@.contains(x) <==> moves@.contains(x),
        match hint {
            Some(h) => moves@.contains(h) ==> (r@.len() > 0 && r@[0] == h),
            None => true,
        },
        match killer {
            Some(k) => ((match hint {
                Some(h) => !moves@.contains(h) && k != h,
                None => true,
            }) && moves@.contains(k)) ==> (r@.len() > 0 && r@[0] == k),
            None => true,
        },
{
    broadcast use vstd::seq_lib::lemma_seq_contains_after_push;
    broadcast use vstd::seq_lib::lemma_seq_concat_contains_all_elements;

    let mut hints: Vec<Move> = Vec::new();
    let mut killers: Vec<Move> = Vec::new();
    let mut rest: Vec<Move> = Vec::new();
    let mut i: usize = 0;
    while i < moves.len()
        invariant
            i <= moves@.len(),
            hints@.len() + killers@.len() + rest@.len() == i,
            forall|x: Move|
                (hints@.contains(x) || killers@.contains(x) || rest@.contains(x)) <==> #[trigger] moves@.take(i as int).contains(x),
            forall|k: int| 0 <= k < hints@.len() ==> hints@[k] == hint.unwrap(),
            hints@.len() > 0 ==> hint.is_some(),
            forall|k: int| 0 <= k < killers@.len() ==> killers@[k] == killer.unwrap(),
            killers@.len() > 0 ==> killer.is_some(),
            (match hint {
                Some(h) => moves@.take(i as int).contains(h) ==> hints@.len() > 0,
                None => true,
            }),
            (match killer {
                Some(k) => (moves@.take(i as int).contains(k) && (match hint {
                    Some(h) => k != h,
                    None => true,
                })) ==> killers@.len() > 0,
                None => true,
            }),
        decreases moves@.len() - i,
    {
        let m = moves[i];
        proof {
            assert(moves@.take(i as int + 1).drop_last() =~= moves@.take(i as int));
            assert(moves@.take(i as int + 1).last() == moves@[i as int]);
            assert(forall|x: Move|
                #[trigger] moves@.take(i as int + 1).contains(x) <==> (moves@.take(
                    i as int,
                ).contains(x) || x == moves@[i as int])) by {
                assert(moves@.take(i as int + 1) =~= moves@.take(i as int).push(
                    moves@[i as int],
                ));
            }
        }
        let is_hint = match hint {
            Some(h) => h == m,
            None => false,
        };
        let is_killer = match killer {
            Some(k) => k == m,
            None => false,
        };
        let ghost h0 = hints@;
        let ghost k0 = killers@;
        let ghost r0 = rest@;
        if is_hint {
            hints.push(m);
        } else if is_killer {
            killers.push(m);
        } else {
            rest.push(m);
        }
        proof {
            assert forall|x: Move|
                (hints@.contains(x) || killers@.contains(x) || rest@.contains(x))
                    <==> #[trigger] moves@.take(i as int + 1).contains(x) by {
                vstd::seq_lib::lemma_seq_contains_after_push(h0, m, x);
                vstd::seq_lib::lemma_seq_contains_after_push(k0, m, x);
                vstd::seq_lib::lemma_seq_contains_after_push(r0, m, x);
            }
        }
        i = i + 1;
    }
    proof {
        assert(moves@.take(moves@.len() as int) =~= moves@);
    }
    let mut r = hints;
    r.append(&mut killers);
    r.append(&mut rest);
    r
}

/// The search engine and its per-search heuristic state.
pub struct Engine {
    pub rng: Rng,
    pub state: State,
    pub move_order_table: FixedHashTable,
    pub killer_moves: Vec<Option<Move>>,
    pub do_stop: Arc<AtomicBool>,
    pub nodes: u64,
    pub jitter: u32,
}

impl Engine {
    pub closed spec fn wf(self) -> bool {
        &&& self.move_order_table.wf()
        &&& self.killer_moves@.len() == 64
        &&& self.jitter <= 15
    }

    pub fn new(seed: u64) -> (r: Engine)
        ensures
            r.wf(),
            r.state == (State {
                black_stones: 0,
                white_stones: 0,
                gaps: 0,
                to_move: Color::Black,
            }),
            r.state.wf(),
    {
        let mut killer_moves: Vec<Option<Move>> = Vec::new();
        let mut i: usize = 0;
        while i < 64
            invariant
                killer_moves@.len() == i,
                i <= 64,
            decreases 64 - i,
        {
            killer_moves.push(None);
            i = i + 1;
        }
        Engine {
            nodes: 0,
            rng: Rng::new(seed),
            state: State::new(),
            move_order_table: FixedHashTable::new(),
            killer_moves,
            do_stop: Arc::new(AtomicBool::new(false)),
            jitter: 15,
        }
    }

    /// Turn off the random leaf jitter, so that a fixed-seed search is
    /// exactly reproducible and comparable with the plain minimax.
    pub fn disable_jitter(&mut self)
        requires
            old(self).wf(),
        ensures
            final(self).wf(),
            final(self).state == old(self).state,
            final(self).jitter == 0,
    {
        self.jitter = 0;
    }

    pub fn make_move(&mut self, m: Move) -> (r: Result<(), &'static str>)
        requires
            old(self).wf(),
            old(self).state.wf(),
            old(self).state.can_apply(m),
        ensures
            r.is_ok(),
            final(self).wf(),
            final(self).state == old(self).state.spec_apply(m),
            final(self).state.wf(),
    {
        self.state.make_move(m)
    }

    pub fn set_position(&mut self, state: State)
        requires
            old(self).wf(),
        ensures
            final(self).wf(),
            final(self).state == state,
    {
        self.state = state;
    }

    /// Whether the cooperative stop flag has been observed set; the
    /// value depends on a concurrent timer, so nothing more is promised.
    pub fn should_stop(&self) -> bool {
        self.do_stop.load(Ordering::Relaxed)
    }

    /// Raise the cooperative stop flag: the search will wind down after
    /// at most one more node per recursion level.
    pub fn request_stop(&self) {
        self.do_stop.store(true, Ordering::Relaxed);
    }

    /// Lower the stop flag before starting a fresh timed search.
    pub fn clear_stop(&self) {
        self.do_stop.store(false, Ordering::Relaxed);
    }

    /// A handle on the stop flag for a timer to set from another thread.
    pub fn stop_handle(&self) -> Arc<AtomicBool> {
        self.do_stop.clone()
    }

    /// The core recursive search: negamax alpha-beta in
    /// principal-variation form. The first candidate is searched with the
    /// full window, every later one with a null window first and a
    /// re-search when the probe lands inside the window. The returned
    /// move, when there is one, is always taken from the legal move list.
    #[verifier::loop_isolation(false)]
    pub fn pvs(&mut self, depth: u16, state: &State, alpha: i32, beta: i32) -> (r: (
        i32,
        Option<Move>,
    ))
        requires
            old(self).wf(),
            state.wf(),
            depth < 64,
            VERY_NEGATIVE_EVAL <= alpha,
            alpha < beta,
            beta <= VERY_POSITIVE_EVAL,
        ensures
            final(self).wf(),
            final(self).state == old(self).state,
            VERY_NEGATIVE_EVAL < r.0 < VERY_POSITIVE_EVAL,
            match r.1 {
                Some(m) => state.spec_move_list().contains(m),
                None => true,
            },
            (!state.spec_terminal() && depth > 0) ==> r.1.is_some(),
        decreases depth,
    {
        if self.nodes < u64::MAX {
            self.nodes = self.nodes + 1;
        }
        if state.game_is_over() || depth == 0 {
            let e = evaluate(state);
            let j: i32 = if self.jitter > 0 {
                self.rng.generate_range(self.jitter) as i32
            } else {
                0
            };
            return (e + j, None);
        }
        let mut moves: Vec<Move> = Vec::new();
        state.move_gen(&mut moves);
        proof {
            lemma_move_list_pass(*state);
            lemma_move_list_can_apply(*state);
        }
        if moves.len() == 0 {
            // The forced pass means this cannot occur; kept as the
            // documented fallback to a leaf evaluation.
            let e = evaluate(state);
            let j: i32 = if self.jitter > 0 {
                self.rng.generate_range(self.jitter) as i32
            } else {
                0
            };
            return (e + j, None);
        }
        let state_hash = state.get_hash();
        let mot_move = self.move_order_table.get(state_hash);
        let killer_move = self.killer_moves[depth as usize];
        let ordered = order_moves(moves, mot_move, killer_move);
        let mut alpha = alpha;
        let mut best_score: i32 = VERY_NEGATIVE_EVAL;
        let mut best_move: Option<Move> = None;
        let mut first: bool = true;
        let mut cut: bool = false;
        let mut i: usize = 0;
        while i < ordered.len() && !cut
            invariant
                self.wf(),
                self.state == old(self).state,
                i <= ordered@.len(),
                VERY_NEGATIVE_EVAL <= alpha < VERY_POSITIVE_EVAL,
                !cut ==> alpha < beta,
                VERY_NEGATIVE_EVAL <= best_score < VERY_POSITIVE_EVAL,
                best_move.is_none() ==> best_score == VERY_NEGATIVE_EVAL,
                i > 0 ==> best_move.is_some(),
                first == (i == 0),
                cut ==> i > 0,
                match best_move {
                    Some(m) => state.spec_move_list().contains(m),
                    None => true,
                },
            decreases ordered@.len() - i,
        {
            let m = ordered[i];
            proof {
                assert(ordered@[i as int] == m);
                assert(ordered@.contains(m));
            }
            let mut new_state = *state;
            let _applied = new_state.make_move(m);
            let mut score: i32;
            if first {
                score = -self.pvs(depth - 1, &new_state, -beta, -alpha).0;
            } else {
                score = -self.pvs(depth - 1, &new_state, -alpha - 1, -alpha).0;
                if alpha < score && score < beta {
                    score = -self.pvs(depth - 1, &new_state, -beta, -score).0;
                }
            }
            if score > best_score {
                best_score = score;
                best_move = Some(m);
            }
            if score > alpha {
                alpha = score;
                self.move_order_table.set(state_hash, m);
            }
            if alpha >= beta {
                self.killer_moves[depth as usize] = Some(m);
                cut = true;
            } else if self.should_stop() {
                // Out of time: stop trying further siblings at this node.
                cut = true;
            }
            first = false;
            i = i + 1;
        }
        (make_terminal_score_slightly_less_extreme(alpha), best_move)
    }

    /// Iterative deepening to a fixed depth: the answer of the deepest
    /// completed iteration is kept.
    #[verifier::loop_isolation(false)]
    pub fn run_depth(&mut self, max_depth: u16) -> (r: (i32, Option<Move>))
        requires
            old(self).wf(),
            old(self).state.wf(),
            max_depth < 64,
        ensures
            final(self).wf(),
            final(self).state == old(self).state,
            max_depth == 0 ==> r == (0i32, None::<Move>),
            max_depth > 0 ==> VERY_NEGATIVE_EVAL < r.0 < VERY_POSITIVE_EVAL,
            match r.1 {
                Some(m) => old(self).state.spec_move_list().contains(m),
                None => true,
            },
            (max_depth > 0 && !old(self).state.spec_terminal()) ==> r.1.is_some(),
    {
        self.nodes = 0;
        let mut p: (i32, Option<Move>) = (0, None);
        let state = self.state;
        let mut d: u16 = 1;
        while d <= max_depth
            invariant
                self.wf(),
                self.state == old(self).state,
                1 <= d <= max_depth + 1,
                d > 1 ==> VERY_NEGATIVE_EVAL < p.0 < VERY_POSITIVE_EVAL,
                d == 1 ==> p == (0i32, None::<Move>),
                match p.1 {
                    Some(m) => state.spec_move_list().contains(m),
                    None => true,
                },
                (d > 1 && !state.spec_terminal()) ==> p.1.is_some(),
            decreases max_depth + 1 - d,
    {
            p = self.pvs(d, &state, VERY_NEGATIVE_EVAL, VERY_POSITIVE_EVAL);
            d = d + 1;
        }
        p
    }

    /// One full-window search from the current position, the building
    /// block an unbounded, time-budgeted deepening loop drives.
    pub fn search_root(&mut self, depth: u16) -> (r: (i32, Option<Move>))
        requires
            old(self).wf(),
            old(self).state.wf(),
            0 < depth < 64,
        ensures
            final(self).wf(),
            final(self).state == old(self).state,
            VERY_NEGATIVE_EVAL < r.0 < VERY_POSITIVE_EVAL,
            match r.1 {
                Some(m) => old(self).state.spec_move_list().contains(m),
                None => true,
            },
            !old(self).state.spec_terminal() ==> r.1.is_some(),
    {
        let state = self.state;
        self.pvs(depth, &state, VERY_NEGATIVE_EVAL, VERY_POSITIVE_EVAL)
    }

    /// The per-move time budget under a clock-and-increment policy:
    /// estimate the remaining plies as one more than twice the empty
    /// cells, spread the remaining time over them, and never spend more
    /// than half the clock on one move.
    pub fn compute_time_budget(&self, ms_on_clock: i32, ms_increment: i32) -> (r: i32)
        requires
            self.state.wf(),
            0 <= ms_on_clock,
            0 <= ms_increment,
            ms_on_clock + ms_increment * 99 <= i32::MAX,
        ensures
            ({
                let moves_left = 1 + 2 * (49 - count_bits(self.state.occupied()));
                let time_left = ms_on_clock + ms_increment * moves_left;
                let per_move = time_left / moves_left;
                r == (if per_move <= ms_on_clock / 2 {
                    per_move
                } else {
                    ms_on_clock / 2
                })
            }),
    {
        proof {
            crate::rules::lemma_occupied_count(self.state);
        }
        let filled = crate::bits::popcount(
            self.state.black_stones | self.state.white_stones | self.state.gaps,
        );
        let moves_left: i32 = 1 + 2 * (49 - filled as i32);
        proof {
            assert(0 <= ms_increment * moves_left <= ms_increment * 99) by (nonlinear_arith)
                requires
                    0 <= ms_increment,
                    1 <= moves_left <= 99,
            ;
        }
        let time_left: i32 = ms_on_clock + ms_increment * moves_left;
        let time_per_move: i32 = time_left / moves_left;
        let half_clock: i32 = ms_on_clock / 2;
        if time_per_move <= half_clock {
            time_per_move
        } else {
            half_clock
        }
    }
}

/// Exhaustive, pruning-free negamax over the same tree, with the same
/// leaf evaluation (no jitter) and the same terminal-score damping: the
/// reference that the pruning search is checked against.
#[verifier::loop_isolation(false)]
pub fn minimax(depth: u16, state: &State) -> (r: (i32, Option<Move>))
    requires
        state.wf(),
    ensures
        -1006400 <= r.0 <= 1006400,
        match r.1 {
            Some(m) => state.spec_move_list().contains(m),
            None => true,
        },
        (!state.spec_terminal() && depth > 0) ==> r.1.is_some(),
    decreases depth,
{
    if state.game_is_over() || depth == 0 {
        return (evaluate(state), None);
    }
    let mut moves: Vec<Move> = Vec::new();
    state.move_gen(&mut moves);
    proof {
        lemma_move_list_pass(*state);
        lemma_move_list_can_apply(*state);
    }
    let mut best_score: i32 = VERY_NEGATIVE_EVAL;
    let mut best_move: Option<Move> = None;
    let mut i: usize = 0;
    while i < moves.len()
        invariant
            i <= moves@.len(),
            i > 0 ==> best_move.is_some(),
            best_move.is_none() ==> best_score == VERY_NEGATIVE_EVAL,
            best_move.is_some() ==> -1006400 <= best_score <= 1006400,
            match best_move {
                Some(m) => state.spec_move_list().contains(m),
                None => true,
            },
        decreases moves@.len() - i,
    {
        let m = moves[i];
        proof {
            assert(moves@[i as int] == m);
            assert(moves@.contains(m));
        }
        let mut new_state = *state;
        let _applied = new_state.make_move(m);
        let sub = minimax(depth - 1, &new_state);
        let score: i32 = -sub.0;
        if score > best_score {
            best_score = score;
            best_move = Some(m);
        }
        i = i + 1;
    }
    (make_terminal_score_slightly_less_extreme(best_score), best_move)
}

} // verus!
