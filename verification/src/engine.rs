//! The search: history of good moves, move ordering, and an alpha-beta search
//! with a transposition cache, null-move pruning and late-move reductions.
use crate::board::{
    playable, sound, spec_after_move, spec_legal_moves, spec_piece_on, spec_status, GameStatus, Move,
    Position,
    Snapshot,
};
use crate::eval::{lemma_update_bounds, scorable_move, update_eval, update_steps, EvalTracker};
use crate::pst::{fits_i32, get_piece_value, has_square, piece_value, PieceKind};
use std::collections::HashMap;
use vstd::prelude::*;

verus! {

broadcast use vstd::std_specs::hash::group_hash_axioms;

/// How much the depth is reduced for the null-move search.
pub const NULL_MOVE_REDUCTION: i32 = 3;

/// How much the depth is reduced for moves searched late.
pub const LATE_MOVE_REDUCTION: i32 = 2;

/// How many moves are searched at full depth before reductions start.
pub const LATE_MOVE_THRESHOLD: usize = 4;

/// Number of history counters: two colours, 64 source and 64 destination squares.
pub const HISTORY_SIZE: usize = 8192;

/// Index of the history counter of a move for one colour.
pub open spec fn history_index(white: bool, source: int, dest: int) -> int {
    (if white {
        0int
    } else {
        1int
    }) * 4096 + source * 64 + dest
}

/// What the search keeps from one call to the next: the history counters,
/// the transposition cache and the number of positions searched.
pub struct SearchState {
    pub history: Seq<i32>,
    pub cache: Map<u64, (i32, i32)>,
    pub nodes: i32,
}

/// The engine's state between searches.
pub struct Engine {
    history: Vec<i32>,
    cache: HashMap<u64, (i32, i32)>,
    counter: i32,
}

/// What a capturing move is worth in the ordering before its history is
/// added: captures by more valuable pieces first, and among captures by the
/// same kind of piece, those of less valuable pieces first.
pub open spec fn capture_rank(attacker: PieceKind, victim: PieceKind) -> int {
    (10 * piece_value(attacker) - piece_value(victim)) * 10000
}

/// Ordering rank of a move: the history counter, plus the capture rank when
/// the destination holds a piece (and so does the source).  The sum wraps
/// around in `i32`.
pub open spec fn move_rank(history: Seq<i32>, s: Snapshot, m: Move) -> i32 {
    let h = history[history_index(s.white_to_move, m.source as int, m.dest as int)];
    match (spec_piece_on(s, m.dest as int), spec_piece_on(s, m.source as int)) {
        (Some(victim), Some(attacker)) => (capture_rank(attacker, victim) as i32).wrapping_add(h),
        _ => h,
    }
}

impl Engine {
    /// The history counters.
    pub closed spec fn history(&self) -> Seq<i32> {
        self.history@
    }

    /// The transposition cache: hash of a position to (depth, score).
    pub closed spec fn cache(&self) -> Map<u64, (i32, i32)> {
        self.cache@
    }

    /// The number of positions searched.
    pub closed spec fn nodes(&self) -> i32 {
        self.counter
    }

    /// History, cache and node count together.
    pub open spec fn state(&self) -> SearchState {
        SearchState { history: self.history(), cache: self.cache(), nodes: self.nodes() }
    }

    /// The engine's state is well formed: a full table of history counters,
    /// and cached scores within the search's bounds.
    pub open spec fn wf(&self) -> bool {
        &&& self.history().len() == HISTORY_SIZE
        &&& forall|k: u64| #[trigger] self.cache().contains_key(k) ==> score_ok(self.cache()[k].1 as int)
    }

    /// An engine with no history, an empty cache and no nodes counted.
    pub fn new() -> (r: Engine)
        ensures
            r.wf(),
            forall|i: int| 0 <= i < HISTORY_SIZE ==> #[trigger] r.history()[i] == 0,
            r.cache() == Map::<u64, (i32, i32)>::empty(),
            r.nodes() == 0,
    {
        let mut history: Vec<i32> = Vec::new();
        while history.len() < HISTORY_SIZE
            invariant
                history.len() <= HISTORY_SIZE,
                forall|i: int| 0 <= i < history.len() ==> #[trigger] history@[i] == 0,
            decreases HISTORY_SIZE - history.len(),
        {
            history.push(0);
        }
        Engine { history, cache: HashMap::new(), counter: 0 }
    }

    /// The number of positions searched so far.
    pub fn counter(&self) -> (r: i32)
        ensures
            r == self.nodes(),
    {
        self.counter
    }

    /// Credits a move with `depth * depth` in the history of the colour that
    /// played it; the counter wraps around in `i32`.
    pub fn update_history(&mut self, cm: Move, white: bool, depth: i32)
        requires
            old(self).wf(),
            cm.source < 64,
            cm.dest < 64,
            fits_i32(depth * depth),
        ensures
            final(self).wf(),
            final(self).history() == old(self).history().update(
                history_index(white, cm.source as int, cm.dest as int),
                old(self).history()[history_index(white, cm.source as int, cm.dest as int)].wrapping_add(
                    (depth * depth) as i32,
                ),
            ),
            final(self).cache() == old(self).cache(),
            final(self).nodes() == old(self).nodes(),
    {
        let idx = (if white {
            0
        } else {
            1
        }) * 4096 + (cm.source as usize) * 64 + (cm.dest as usize);
        let bonus = depth * depth;
        let updated = self.history[idx].wrapping_add(bonus);
        self.history.set(idx, updated);
        assert(self.history().len() == HISTORY_SIZE);
        assert(self.cache() == old(self).cache());
    }

    /// The history counter of a move for a colour.
    pub fn get_history(&self, cm: &Move, white: bool) -> (r: i32)
        requires
            self.wf(),
            cm.source < 64,
            cm.dest < 64,
        ensures
            r == self.history()[history_index(white, cm.source as int, cm.dest as int)],
    {
        let idx = (if white {
            0
        } else {
            1
        }) * 4096 + (cm.source as usize) * 64 + (cm.dest as usize);
        self.history[idx]
    }

    /// The rank by which moves are ordered for searching.
    pub fn get_move_ranking(&self, board: &Position, c_move: &Move) -> (r: i32)
        requires
            self.wf(),
            c_move.source < 64,
            c_move.dest < 64,
        ensures
            r == move_rank(self.history(), board@, *c_move),
            spec_piece_on(board@, c_move.source as int) is Some && spec_piece_on(
                board@,
                c_move.dest as int,
            ) is Some ==> r == (((10 * piece_value(spec_piece_on(board@, c_move.source as int)->Some_0)
                - piece_value(spec_piece_on(board@, c_move.dest as int)->Some_0)) * 10000) as i32).wrapping_add(
                self.history()[history_index(board@.white_to_move, c_move.source as int, c_move.dest as int)],
            ),
    {
        let victim = board.piece_on(c_move.dest);
        let attacker = board.piece_on(c_move.source);
        let history = self.get_history(c_move, board.white_to_move());
        if let Some(vic) = victim {
            if let Some(att) = attacker {
                let base = (10 * get_piece_value(att) - get_piece_value(vic)) * 10000;
                return base.wrapping_add(history);
            }
        }
        history
    }
}

/// The moves are sorted by rank, highest first.
pub open spec fn sorted_by_rank(history: Seq<i32>, s: Snapshot, ms: Seq<Move>) -> bool {
    forall|i: int, j: int|
        0 <= i < j < ms.len() ==> move_rank(history, s, ms[i]) >= move_rank(history, s, ms[j])
}

/// A move inserted among moves ordered by rank: after every move ranked at
/// least as high, before the first ranked lower.
pub open spec fn insert_ranked(history: Seq<i32>, s: Snapshot, q: Seq<Move>, m: Move) -> Seq<Move>
    decreases q.len(),
{
    if q.len() == 0 {
        seq![m]
    } else if move_rank(history, s, q[0]) >= move_rank(history, s, m) {
        seq![q[0]] + insert_ranked(history, s, q.drop_first(), m)
    } else {
        seq![m] + q
    }
}

/// The moves in the order the search tries them: inserted one by one, each
/// after the moves ranked at least as high, so that moves of equal rank keep
/// their order.
pub open spec fn order_spec(history: Seq<i32>, s: Snapshot, ms: Seq<Move>) -> Seq<Move>
    decreases ms.len(),
{
    if ms.len() == 0 {
        Seq::empty()
    } else {
        insert_ranked(history, s, order_spec(history, s, ms.drop_last()), ms.last())
    }
}

proof fn lemma_insert_ranked(history: Seq<i32>, s: Snapshot, q: Seq<Move>, m: Move, j: int)
    requires
        0 <= j <= q.len(),
        forall|i: int| 0 <= i < j ==> move_rank(history, s, #[trigger] q[i]) >= move_rank(history, s, m),
        j < q.len() ==> move_rank(history, s, q[j]) < move_rank(history, s, m),
    ensures
        insert_ranked(history, s, q, m) == q.insert(j, m),
    decreases q.len(),
{
    if q.len() == 0 {
        assert(q.insert(j, m) =~= seq![m]);
    } else if j == 0 {
        assert(q.insert(0, m) =~= seq![m] + q);
    } else {
        let rest = q.drop_first();
        assert forall|i: int| 0 <= i < j - 1 implies move_rank(history, s, #[trigger] rest[i])
            >= move_rank(history, s, m) by {
            assert(rest[i] == q[i + 1]);
        }
        if j < q.len() {
            assert(rest[j - 1] == q[j]);
        }
        assert(q[0] == q[0]);
        assert(move_rank(history, s, q[0]) >= move_rank(history, s, m));
        lemma_insert_ranked(history, s, rest, m, j - 1);
        assert(q.insert(j, m) =~= seq![q[0]] + rest.insert(j - 1, m));
    }
}

/// A move whose squares are on the board.
pub open spec fn on_board(m: Move) -> bool {
    m.source < 64 && m.dest < 64
}

impl Engine {
    /// Orders moves for searching: the same moves, highest rank first
    /// (moves of equal rank keep their order).
    pub fn order_moves(&self, board: &Position, moves: Vec<Move>) -> (r: Vec<Move>)
        requires
            self.wf(),
            forall|i: int| 0 <= i < moves@.len() ==> on_board(#[trigger] moves@[i]),
        ensures
            r@ == order_spec(self.history(), board@, moves@),
            r@.to_multiset() == moves@.to_multiset(),
            sorted_by_rank(self.history(), board@, r@),
            forall|i: int| 0 <= i < r@.len() ==> moves@.contains(#[trigger] r@[i]),
    {
        broadcast use vstd::seq_lib::group_to_multiset_ensures;

        let ghost hist = self.history();
        let mut keys: Vec<i32> = Vec::new();
        let mut sorted: Vec<Move> = Vec::new();
        let mut k: usize = 0;
        while k < moves.len()
            invariant
                self.wf(),
                hist == self.history(),
                forall|i: int| 0 <= i < moves@.len() ==> on_board(#[trigger] moves@[i]),
                k <= moves.len(),
                keys@.len() == sorted@.len(),
                forall|i: int|
                    0 <= i < keys@.len() ==> #[trigger] keys@[i] == move_rank(hist, board@, sorted@[i]),
                forall|i: int, j: int| 0 <= i < j < keys@.len() ==> keys@[i] >= keys@[j],
                sorted@.to_multiset() == moves@.take(k as int).to_multiset(),
                sorted@ == order_spec(hist, board@, moves@.take(k as int)),
            decreases moves.len() - k,
        {
            let m = moves[k];
            let key = self.get_move_ranking(board, &m);
            let mut j: usize = 0;
            while j < keys.len() && keys[j] >= key
                invariant
                    j <= keys@.len(),
                    forall|i: int| 0 <= i < j ==> keys@[i] >= key,
                decreases keys.len() - j,
            {
                j += 1;
            }
            proof {
                assert forall|i: int| 0 <= i < j implies move_rank(hist, board@, #[trigger] sorted@[i])
                    >= move_rank(hist, board@, m) by {
                    assert(keys@[i] == move_rank(hist, board@, sorted@[i]));
                }
                if j < sorted@.len() {
                    assert(keys@[j as int] == move_rank(hist, board@, sorted@[j as int]));
                }
                lemma_insert_ranked(hist, board@, sorted@, m, j as int);
                assert(moves@.take(k + 1).drop_last() == moves@.take(k as int));
                assert(moves@.take(k + 1).last() == m);
            }
            let ghost old_keys = keys@;
            let ghost old_sorted = sorted@;
            keys.insert(j, key);
            sorted.insert(j, m);
            proof {
                old_keys.insert_ensures(j as int, key);
                old_sorted.insert_ensures(j as int, m);
                assert forall|a: int, b: int| 0 <= a < b < keys@.len() implies keys@[a] >= keys@[b] by {
                    if b < j {
                    } else if b == j {
                    } else if a < j {
                        assert(keys@[b] == old_keys[b - 1]);
                        if j < old_keys.len() {
                            assert(old_keys[j as int] < key);
                            assert(old_keys[j as int] >= old_keys[b - 1]);
                        }
                    } else if a == j {
                        assert(keys@[b] == old_keys[b - 1]);
                        assert(old_keys[j as int] < key);
                        assert(old_keys[j as int] >= old_keys[b - 1]);
                    } else {
                        assert(keys@[a] == old_keys[a - 1]);
                        assert(keys@[b] == old_keys[b - 1]);
                    }
                }
                assert forall|i: int| 0 <= i < keys@.len() implies #[trigger] keys@[i] == move_rank(
                    hist,
                    board@,
                    sorted@[i],
                ) by {
                    if i < j {
                    } else if i == j {
                    } else {
                        assert(keys@[i] == old_keys[i - 1]);
                        assert(sorted@[i] == old_sorted[i - 1]);
                    }
                }
                assert(moves@.take(k + 1) == moves@.take(k as int).push(m));
                vstd::seq_lib::to_multiset_insert(old_sorted, j as int, m);
                vstd::seq_lib::to_multiset_build(moves@.take(k as int), m);
            }
            k += 1;
        }
        proof {
            assert(moves@.take(moves@.len() as int) == moves@);
            assert forall|a: int, b: int| 0 <= a < b < sorted@.len() implies move_rank(
                hist,
                board@,
                sorted@[a],
            ) >= move_rank(hist, board@, sorted@[b]) by {
                assert(keys@[a] == move_rank(hist, board@, sorted@[a]));
                assert(keys@[b] == move_rank(hist, board@, sorted@[b]));
            }
            assert forall|i: int| 0 <= i < sorted@.len() implies moves@.contains(#[trigger] sorted@[i]) by {
                assert(sorted@.to_multiset().count(sorted@[i]) > 0);
            }
        }
        sorted
    }

    /// The legal moves of a position, ordered for searching.
    pub fn get_ordered_moves(&self, board: &Position) -> (r: Vec<Move>)
        requires
            self.wf(),
            sound(board@),
        ensures
            r@ == order_spec(self.history(), board@, spec_legal_moves(board@)),
            r@.to_multiset() == spec_legal_moves(board@).to_multiset(),
            sorted_by_rank(self.history(), board@, r@),
            forall|i: int|
                0 <= i < r@.len() ==> #[trigger] on_board(r@[i]) && has_square(
                    board@.combined,
                    r@[i].source as int,
                ),
    {
        let moves = board.legal_moves();
        let r = self.order_moves(board, moves);
        proof {
            assert forall|i: int| 0 <= i < r@.len() implies #[trigger] on_board(r@[i]) && has_square(
                board@.combined,
                r@[i].source as int,
            ) by {
                assert(moves@.contains(r@[i]));
                let k = choose|k: int| 0 <= k < moves@.len() && moves@[k] == r@[i];
                assert(on_board(moves@[k]));
            }
        }
        r
    }
}

/// A score the search can negate: above `i32::MIN`.
pub open spec fn score_ok(x: int) -> bool {
    i32::MIN < x <= i32::MAX
}

/// An evaluation that stays within `i32` through `depth` plies of updates
/// (each moves it by at most 1050) and negations.
pub open spec fn eval_ok(eval: int, depth: int) -> bool {
    i32::MIN + 1 + 1050 * depth <= eval <= i32::MAX - 1050 * depth
}

/// A window the search can negate at every ply below, and shift by one for
/// the null-move search when that is allowed.  At depth 0 it is not used.
pub open spec fn window_ok(depth: int, alpha: int, beta: int, nmp: bool) -> bool {
    depth == 0 || (i32::MIN < alpha && i32::MIN < beta && (nmp ==> i32::MIN + 1 < beta && alpha
        < i32::MAX))
}

/// Inputs on which no value the search computes leaves `i32`.
pub open spec fn search_inputs_ok(eval: int, depth: int, alpha: int, beta: int, nmp: bool) -> bool {
    &&& 0 <= depth <= 46340
    &&& eval_ok(eval, depth)
    &&& window_ok(depth, alpha, beta, nmp)
}

/// The cache holds a score for the hash searched at least as deep.
pub open spec fn cache_hit(cache: Map<u64, (i32, i32)>, hash: u64, depth: int) -> bool {
    cache.contains_key(hash) && cache[hash].0 >= depth
}

/// The search may try a null move: it is allowed to, the side to move is
/// not in check, the depth exceeds the reduction, and there are at least
/// ten legal moves.
pub open spec fn null_cut_allowed(s: Snapshot, depth: int, nmp: bool) -> bool {
    &&& nmp
    &&& s.checkers == 0
    &&& depth > NULL_MOVE_REDUCTION
    &&& spec_legal_moves(s).len() >= 10
}

/// The score of a position that the search settles without trying moves:
/// checkmate, stalemate, or the evaluation (negated) at depth 0.
pub open spec fn leaf_score(s: Snapshot, eval: int, depth: int) -> Option<int> {
    match spec_status(s) {
        GameStatus::Checkmate => Some(-99999),
        GameStatus::Stalemate => Some(-150),
        GameStatus::Ongoing => if depth == 0 {
            Some(-eval)
        } else {
            None
        },
    }
}

/// One more position counted.
pub open spec fn counted(st: SearchState) -> SearchState {
    SearchState { history: st.history, cache: st.cache, nodes: st.nodes.wrapping_add(1) }
}

/// A score remembered in the cache for a hash and depth.
pub open spec fn remember(st: SearchState, hash: u64, depth: int, score: int) -> SearchState {
    SearchState {
        history: st.history,
        cache: st.cache.insert(hash, (depth as i32, score as i32)),
        nodes: st.nodes,
    }
}

/// A move credited with `depth * depth` in the history of the colour that
/// played it, the counter wrapping around in `i32`.
pub open spec fn credit(st: SearchState, white: bool, m: Move, depth: int) -> SearchState {
    let i = history_index(white, m.source as int, m.dest as int);
    SearchState {
        history: st.history.update(i, st.history[i].wrapping_add((depth * depth) as i32)),
        cache: st.cache,
        nodes: st.nodes,
    }
}

/// The depth at which the `i`-th move of a position searched `depth` deep
/// is searched: one less for the first few, two less after them.
pub open spec fn child_depth(i: int, depth: int) -> int {
    if i < LATE_MOVE_THRESHOLD || depth < LATE_MOVE_REDUCTION {
        depth - 1
    } else {
        depth - LATE_MOVE_REDUCTION
    }
}

/// The move can be searched: the crate can play it, both sides keep a king,
/// and the side then to move has few enough pieces for the crate's move
/// generator.
pub open spec fn searchable(s: Snapshot, m: Move) -> bool {
    playable(s, m) && sound(spec_after_move(s, m))
}

/// The alpha-beta search: its score for the side to move of `s`, with the
/// state it leaves.  A cached score of a search at least as deep answers
/// at once.  Else the position is counted; checkmate scores -99999,
/// stalemate -150, depth 0 the negated evaluation.  Deeper, a null-move
/// probe reduced by three plies may cut off at `beta` when allowed: the
/// turn is not passed, the probe searches the same position with the same
/// side to move (window `-beta .. -beta+1`, its score not negated); else the
/// moves are tried in order
/// (`scan`) and their best score, at least -10000, is the result.  Every
/// result but a null-move cut-off is cached for the position.
pub open spec fn search(
    st: SearchState,
    s: Snapshot,
    eval: int,
    depth: int,
    alpha: int,
    beta: int,
    nmp: bool,
) -> (int, SearchState)
    decreases depth, 1int, 0int,
{
    if cache_hit(st.cache, s.hash, depth) {
        (st.cache[s.hash].1 as int, st)
    } else {
        let st1 = counted(st);
        match leaf_score(s, eval, depth) {
            Some(v) => (v, remember(st1, s.hash, depth, v)),
            None => if depth <= 0 {
                (0, st1)
            } else {
                let null = if null_cut_allowed(s, depth, nmp) {
                    search(st1, s, eval, depth - NULL_MOVE_REDUCTION, -beta, -beta + 1, false)
                } else {
                    (0, st1)
                };
                if null_cut_allowed(s, depth, nmp) && null.0 >= beta {
                    (beta, null.1)
                } else {
                    let st2 = null.1;
                    let ordered = order_spec(st2.history, s, spec_legal_moves(s));
                    let res = scan(st2, s, -eval, depth, alpha, beta, nmp, ordered, 0, -10000);
                    (res.0, remember(res.1, s.hash, depth, res.0))
                }
            },
        }
    }
}

/// The moves of `s` from the `i`-th on, tried in turn at `depth`, the best
/// score so far being `best`: a move that cannot be searched is passed
/// over; else its score is the negated search of the position after it
/// (with the updated evaluation and the window `-beta .. -alpha`).  A score
/// that reaches `beta` ends the scan and credits the move in the history.
pub open spec fn scan(
    st: SearchState,
    s: Snapshot,
    flipped: int,
    depth: int,
    alpha: int,
    beta: int,
    nmp: bool,
    ms: Seq<Move>,
    i: int,
    best: int,
) -> (int, SearchState)
    decreases depth, 0int, ms.len() - i,
{
    if i < 0 || i >= ms.len() || depth <= 0 {
        (best, st)
    } else if !searchable(s, ms[i]) {
        scan(st, s, flipped, depth, alpha, beta, nmp, ms, i + 1, best)
    } else {
        let m = ms[i];
        let child = search(
            st,
            spec_after_move(s, m),
            update_eval(flipped, s, m),
            child_depth(i, depth),
            -beta,
            -alpha,
            nmp,
        );
        let c = -child.0;
        let best2 = if c > best {
            c
        } else {
            best
        };
        if c >= beta {
            (best2, credit(child.1, s.white_to_move, m, depth))
        } else {
            scan(child.1, s, flipped, depth, alpha, beta, nmp, ms, i + 1, best2)
        }
    }
}

proof fn lemma_child_inputs(eval: int, depth: int, alpha: int, beta: int, nmp: bool, s: Snapshot, m: Move, i: int)
    requires
        search_inputs_ok(eval, depth, alpha, beta, nmp),
        depth > 0,
        i >= 0,
        alpha <= i32::MAX,
        beta <= i32::MAX,
        scorable_move(s, m),
    ensures
        search_inputs_ok(update_eval(-eval, s, m), child_depth(i, depth), -beta, -alpha, nmp),
        forall|k: int|
            0 <= k < update_steps(-eval, s, m).len() ==> fits_i32(#[trigger] update_steps(-eval, s, m)[k]),
        eval != i32::MIN,
{
    lemma_update_bounds(-eval, s, m);
    let e2 = update_eval(-eval, s, m);
    let d2 = child_depth(i, depth);
    assert(i32::MIN + 1 + 1050 * depth <= -eval <= i32::MAX - 1050 * depth);
    assert(i32::MIN + 1 + 1050 * (depth - 1) <= e2 <= i32::MAX - 1050 * (depth - 1));
    assert(0 <= d2 <= depth - 1);
    assert(1050 * d2 <= 1050 * (depth - 1));
    assert(eval_ok(e2, d2));
    assert(window_ok(d2, -beta, -alpha, nmp));
}

impl Engine {
    /// Scores `board` for the side to move, searching `depth` plies with the
    /// window `alpha .. beta`, as `search` says.  The bounds on the
    /// evaluation and the window are asked for on every call, also where the
    /// search settles the position without using them (a cache hit,
    /// checkmate, stalemate): whether it will is known only from the cache
    /// and the crate's answers.
    pub fn calculate(
        &mut self,
        board: Position,
        eval_tracker: EvalTracker,
        depth: i32,
        alpha: i32,
        beta: i32,
        nmp: bool,
    ) -> (r: i32)
        requires
            old(self).wf(),
            sound(board@),
            search_inputs_ok(eval_tracker.eval as int, depth as int, alpha as int, beta as int, nmp),
        ensures
            final(self).wf(),
            score_ok(r as int),
            (r as int, final(self).state()) == search(
                old(self).state(),
                board@,
                eval_tracker.eval as int,
                depth as int,
                alpha as int,
                beta as int,
                nmp,
            ),
            !cache_hit(old(self).cache(), board@.hash, depth as int) ==> {
                &&& spec_status(board@) == GameStatus::Stalemate ==> r == -150
                &&& spec_status(board@) == GameStatus::Checkmate ==> r == -99999
            },
        decreases depth,
    {
        let ghost st0 = self.state();
        proof {
            if !cache_hit(st0.cache, board@.hash, depth as int) {
                lemma_ended_games_score(
                    st0,
                    board@,
                    eval_tracker.eval as int,
                    depth as int,
                    alpha as int,
                    beta as int,
                    nmp,
                );
            }
        }
        let ghost s = board@;
        let hash = board.hash();
        match self.cache.get(&hash) {
            Some(data) => {
                if data.0 >= depth {
                    assert(self.cache().contains_key(hash) && self.cache()[hash] == *data);
                    return data.1;
                }
            },
            None => {},
        }
        assert(!cache_hit(st0.cache, s.hash, depth as int));
        self.counter = self.counter.wrapping_add(1);
        assert(self.state() == counted(st0));
        assert(self.history() == old(self).history());
        assert(self.cache() == old(self).cache());
        assert(self.wf());
        let result: i32 = match board.status() {
            GameStatus::Checkmate => -99999,
            GameStatus::Stalemate => -150,
            GameStatus::Ongoing => {
                if depth == 0 {
                    -eval_tracker.eval
                } else {
                    let moves = board.legal_moves();
                    let player = board.white_to_move();
                    // null move heuristic: pass and search reduced; if the
                    // opponent still cannot get below beta, prune
                    if nmp && board.null_move_exists() && depth > NULL_MOVE_REDUCTION
                        && moves.len() >= 10 {
                        let v = self.calculate(
                            board,
                            eval_tracker,
                            depth - NULL_MOVE_REDUCTION,
                            -beta,
                            -beta + 1,
                            false,
                        );
                        if v >= beta {
                            return beta;
                        }
                    }
                    let ghost st2 = self.state();
                    let flipped = eval_tracker.flip();
                    let ordered = self.order_moves(&board, moves);
                    proof {
                        assert forall|i: int| 0 <= i < ordered@.len() implies #[trigger] on_board(
                            ordered@[i],
                        ) && has_square(board@.combined, ordered@[i].source as int) by {
                            assert(moves@.contains(ordered@[i]));
                            let k = choose|k: int| 0 <= k < moves@.len() && moves@[k] == ordered@[i];
                            assert(on_board(moves@[k]));
                        }
                    }
                    let ghost target = scan(
                        st2,
                        s,
                        flipped.eval as int,
                        depth as int,
                        alpha as int,
                        beta as int,
                        nmp,
                        ordered@,
                        0,
                        -10000,
                    );
                    let mut best_score: i32 = -10000;
                    let mut i: usize = 0;
                    let mut cut = false;
                    while i < ordered.len() && !cut
                        invariant
                            self.wf(),
                            s == board@,
                            sound(board@),
                            i <= ordered.len(),
                            score_ok(best_score as int),
                            forall|k: int|
                                0 <= k < ordered@.len() ==> #[trigger] on_board(ordered@[k])
                                    && has_square(board@.combined, ordered@[k].source as int),
                            search_inputs_ok(
                                eval_tracker.eval as int,
                                depth as int,
                                alpha as int,
                                beta as int,
                                nmp,
                            ),
                            depth > 0,
                            player == board@.white_to_move,
                            flipped.eval == -eval_tracker.eval,
                            !cut ==> scan(
                                self.state(),
                                s,
                                flipped.eval as int,
                                depth as int,
                                alpha as int,
                                beta as int,
                                nmp,
                                ordered@,
                                i as int,
                                best_score as int,
                            ) == target,
                            cut ==> (best_score as int, self.state()) == target,
                        decreases ordered.len() - i,
                    {
                        let next_move = ordered[i];
                        assert(on_board(ordered@[i as int]));
                        // the crate does not return on a move that takes the
                        // last king of the side not moving, and cannot go on
                        // from a board where a side has no king: such moves
                        // are not searched
                        if board.is_playable(next_move) {
                            let child = board.make_move(next_move);
                            if child.is_sound() {
                                proof {
                                    lemma_child_inputs(
                                        eval_tracker.eval as int,
                                        depth as int,
                                        alpha as int,
                                        beta as int,
                                        nmp,
                                        board@,
                                        next_move,
                                        i as int,
                                    );
                                }
                                let child_eval = flipped.update(&board, &next_move);
                                // after the first few moves, the rest are unlikely
                                // to matter thanks to the ordering: search them
                                // shallower
                                let child_depth = if i < LATE_MOVE_THRESHOLD || depth
                                    < LATE_MOVE_REDUCTION {
                                    depth - 1
                                } else {
                                    depth - LATE_MOVE_REDUCTION
                                };
                                let v = self.calculate(child, child_eval, child_depth, -beta, -alpha, nmp);
                                let c_score = -v;
                                if c_score > best_score {
                                    best_score = c_score;
                                }
                                if c_score >= beta {
                                    assert(0 <= depth * depth <= 46340 * 46340) by (nonlinear_arith)
                                        requires
                                            0 <= depth <= 46340,
                                    ;
                                    self.update_history(next_move, player, depth);
                                    cut = true;
                                }
                            }
                        }
                        i += 1;
                    }
                    best_score
                }
            },
        };
        let ghost before = self.state();
        let ghost before_cache = self.cache();
        assert(score_ok(result as int));
        assert(forall|k: u64| #[trigger] before_cache.contains_key(k) ==> score_ok(before_cache[k].1 as int));
        self.cache.insert(hash, (depth, result));
        proof {
            assert(self.state() == remember(before, hash, depth as int, result as int));
            assert(self.cache() == before_cache.insert(hash, (depth, result)));
            assert forall|k: u64| #[trigger] self.cache().contains_key(k) implies score_ok(
                self.cache()[k].1 as int,
            ) by {
                if k != hash {
                    assert(before_cache.contains_key(k));
                }
            }
        }
        result
    }
}

/// The best move of a root search with its score, as a plain option.
pub open spec fn found(r: Option<(Move, i32)>) -> Option<(Move, int)> {
    match r {
        Some((m, score)) => Some((m, score as int)),
        None => None,
    }
}

/// The root moves from the `i`-th on, each searched `max_depth` plies deep
/// (the reply with the window -999 .. 999, null moves allowed): a move
/// whose score beats `alpha` becomes the best one, `alpha` becomes its
/// score, and it is credited with `max_depth * max_depth` in the history.
pub open spec fn root_scan(
    st: SearchState,
    s: Snapshot,
    flipped: int,
    max_depth: int,
    ms: Seq<Move>,
    i: int,
    alpha: int,
    best: Option<Move>,
) -> (Option<(Move, int)>, SearchState)
    decreases ms.len() - i,
{
    if i < 0 || i >= ms.len() {
        (
            match best {
                Some(m) => Some((m, alpha)),
                None => None,
            },
            st,
        )
    } else if !searchable(s, ms[i]) {
        root_scan(st, s, flipped, max_depth, ms, i + 1, alpha, best)
    } else {
        let m = ms[i];
        let child = search(
            st,
            spec_after_move(s, m),
            update_eval(flipped, s, m),
            max_depth - 1,
            -999,
            999,
            true,
        );
        let c = -child.0;
        if c > alpha {
            root_scan(
                credit(child.1, s.white_to_move, m, max_depth),
                s,
                flipped,
                max_depth,
                ms,
                i + 1,
                c,
                Some(m),
            )
        } else {
            root_scan(child.1, s, flipped, max_depth, ms, i + 1, alpha, best)
        }
    }
}

/// The root search: the legal moves in search order, starting from the
/// score -99999 with no move.
pub open spec fn root_search(st: SearchState, s: Snapshot, eval: int, max_depth: int) -> (Option<
    (Move, int),
>, SearchState) {
    root_scan(st, s, -eval, max_depth, order_spec(st.history, s, spec_legal_moves(s)), 0, -99999, None)
}

impl Engine {
    /// Searches every legal move `max_depth` plies deep, best-ranked first,
    /// and returns the first move whose score beats every earlier one and
    /// -99999, with that score, as `root_search` says; each such move is
    /// credited in the history.  `None` when no move scores above -99999,
    /// in particular when there is no legal move.
    pub fn try_find_best(&mut self, board: Position, eval_tracker: EvalTracker, max_depth: i32) -> (r:
        Option<(Move, i32)>)
        requires
            old(self).wf(),
            sound(board@),
            1 <= max_depth <= 46340,
            eval_ok(eval_tracker.eval as int, max_depth as int),
        ensures
            final(self).wf(),
            (found(r), final(self).state()) == root_search(
                old(self).state(),
                board@,
                eval_tracker.eval as int,
                max_depth as int,
            ),
            r matches Some((m, score)) ==> spec_legal_moves(board@).contains(m) && score > -99999
                && searchable(board@, m),
            ({
                let ms = order_spec(old(self).history(), board@, spec_legal_moves(board@));
                ms.len() > 0 && searchable(board@, ms[0]) && -search(
                    old(self).state(),
                    spec_after_move(board@, ms[0]),
                    update_eval(-eval_tracker.eval, board@, ms[0]),
                    max_depth - 1,
                    -999,
                    999,
                    true,
                ).0 > -99999 ==> r is Some
            }),
    {
        let ghost s = board@;
        proof {
            lemma_root_search_finds_first_move(
                self.state(),
                board@,
                eval_tracker.eval as int,
                max_depth as int,
            );
        }
        let player = board.white_to_move();
        let mut alpha: i32 = -99999;
        let mut best_move: Option<Move> = None;
        let flipped = eval_tracker.flip();
        let ordered = self.get_ordered_moves(&board);
        let ghost target = root_scan(
            self.state(),
            s,
            flipped.eval as int,
            max_depth as int,
            ordered@,
            0,
            -99999,
            None,
        );
        let mut i: usize = 0;
        while i < ordered.len()
            invariant
                self.wf(),
                s == board@,
                sound(board@),
                i <= ordered.len(),
                1 <= max_depth <= 46340,
                eval_ok(eval_tracker.eval as int, max_depth as int),
                player == board@.white_to_move,
                flipped.eval == -eval_tracker.eval,
                ordered@.to_multiset() == spec_legal_moves(board@).to_multiset(),
                forall|k: int|
                    0 <= k < ordered@.len() ==> #[trigger] on_board(ordered@[k]) && has_square(
                        board@.combined,
                        ordered@[k].source as int,
                    ),
                best_move is None ==> alpha == -99999,
                best_move matches Some(m) ==> ordered@.contains(m) && alpha > -99999 && searchable(
                    board@,
                    m,
                ),
                root_scan(
                    self.state(),
                    s,
                    flipped.eval as int,
                    max_depth as int,
                    ordered@,
                    i as int,
                    alpha as int,
                    best_move,
                ) == target,
            decreases ordered.len() - i,
        {
            let next_move = ordered[i];
            assert(on_board(ordered@[i as int]));
            // the crate does not return on a move that takes the last king of
            // the side not moving, and cannot go on from a board where a side
            // has no king: such moves are not searched
            if board.is_playable(next_move) {
                let child = board.make_move(next_move);
                if child.is_sound() {
                    proof {
                        lemma_child_inputs(
                            eval_tracker.eval as int,
                            max_depth as int,
                            -999,
                            999,
                            true,
                            board@,
                            next_move,
                            0,
                        );
                    }
                    let child_eval = flipped.update(&board, &next_move);
                    let v = self.calculate(child, child_eval, max_depth - 1, -999, 999, true);
                    let c_score = -v;
                    if c_score > alpha {
                        alpha = c_score;
                        best_move = Some(next_move);
                        assert(0 <= max_depth * max_depth <= 46340 * 46340) by (nonlinear_arith)
                            requires
                                1 <= max_depth <= 46340,
                        ;
                        self.update_history(next_move, player, max_depth);
                    }
                }
            }
            i += 1;
        }
        match best_move {
            Some(m) => {
                proof {
                    vstd::seq_lib::to_multiset_contains(ordered@, m);
                    vstd::seq_lib::to_multiset_contains(spec_legal_moves(board@), m);
                }
                Some((m, alpha))
            },
            None => None,
        }
    }
}

impl Engine {
    /// The best move and its score, on a search that finds a move scoring
    /// above -99999 (the engine stops otherwise): as `try_find_best`.
    pub fn find_best(&mut self, board: Position, eval_tracker: EvalTracker, max_depth: i32) -> (r: (
        Move,
        i32,
    ))
        requires
            old(self).wf(),
            sound(board@),
            1 <= max_depth <= 46340,
            eval_ok(eval_tracker.eval as int, max_depth as int),
            root_search(old(self).state(), board@, eval_tracker.eval as int, max_depth as int).0 is Some,
        ensures
            final(self).wf(),
            (Some((r.0, r.1 as int)), final(self).state()) == root_search(
                old(self).state(),
                board@,
                eval_tracker.eval as int,
                max_depth as int,
            ),
            spec_legal_moves(board@).contains(r.0),
            r.1 > -99999,
            searchable(board@, r.0),
    {
        match self.try_find_best(board, eval_tracker, max_depth) {
            Some(best) => best,
            None => {
                assert(false);
                (Move { source: 0, dest: 0, promotion: None }, -99999)
            },
        }
    }
}

/// Crediting a move touches its own counter only: the counters of every
/// other move, and of the same move for the other colour, keep their values.
pub proof fn lemma_credit_is_local(
    history: Seq<i32>,
    white: bool,
    m: Move,
    bonus: i32,
    other_white: bool,
    other: Move,
)
    requires
        history.len() == HISTORY_SIZE,
        on_board(m),
        on_board(other),
        other_white != white || other.source != m.source || other.dest != m.dest,
    ensures
        ({
            let i = history_index(white, m.source as int, m.dest as int);
            let j = history_index(other_white, other.source as int, other.dest as int);
            &&& 0 <= i < HISTORY_SIZE
            &&& 0 <= j < HISTORY_SIZE
            &&& history.update(i, history[i].wrapping_add(bonus))[j] == history[j]
        }),
{
    let i = history_index(white, m.source as int, m.dest as int);
    let j = history_index(other_white, other.source as int, other.dest as int);
    assert(i != j) by (nonlinear_arith)
        requires
            i == (if white {
                0int
            } else {
                1int
            }) * 4096 + m.source * 64 + m.dest,
            j == (if other_white {
                0int
            } else {
                1int
            }) * 4096 + other.source * 64 + other.dest,
            m.source < 64,
            m.dest < 64,
            other.source < 64,
            other.dest < 64,
            other_white != white || other.source != m.source || other.dest != m.dest,
    ;
}

/// A score cached for a position answers every search of that position at
/// that depth or less: the search returns it and leaves its state as it was.
pub proof fn lemma_cached_score_answers(
    st: SearchState,
    s: Snapshot,
    eval: int,
    depth: int,
    alpha: int,
    beta: int,
    nmp: bool,
)
    requires
        st.cache.contains_key(s.hash),
        depth <= st.cache[s.hash].0,
    ensures
        search(st, s, eval, depth, alpha, beta, nmp) == (st.cache[s.hash].1 as int, st),
{
}

/// The null-move search of a position cut the search off.
pub open spec fn null_cut(st: SearchState, s: Snapshot, eval: int, depth: int, beta: int, nmp: bool) -> bool {
    null_cut_allowed(s, depth, nmp) && search(
        counted(st),
        s,
        eval,
        depth - NULL_MOVE_REDUCTION,
        -beta,
        -beta + 1,
        false,
    ).0 >= beta
}

/// A search that does not hit the cache counts the position, and unless a
/// null move cut it off, leaves its score in the cache for the position at
/// its depth, so that searching the position again to that depth gives the
/// same score at once.
pub proof fn lemma_search_is_remembered(
    st: SearchState,
    s: Snapshot,
    eval: int,
    depth: int,
    alpha: int,
    beta: int,
    nmp: bool,
)
    requires
        !cache_hit(st.cache, s.hash, depth),
        depth >= 0,
        !null_cut(st, s, eval, depth, beta, nmp),
    ensures
        ({
            let res = search(st, s, eval, depth, alpha, beta, nmp);
            &&& res.1.cache.contains_key(s.hash)
            &&& res.1.cache[s.hash] == (depth as i32, res.0 as i32)
        }),
{
}

/// Every position a cache held is still held, searched at least as deep.
pub open spec fn cache_kept(before: Map<u64, (i32, i32)>, after: Map<u64, (i32, i32)>) -> bool {
    forall|k: u64| #[trigger] before.contains_key(k) ==> after.contains_key(k) && after[k].0 >= before[k].0
}

/// A search never forgets: every position cached before it is still cached
/// after it, at a depth at least as great.
pub proof fn lemma_search_keeps_cache(
    st: SearchState,
    s: Snapshot,
    eval: int,
    depth: int,
    alpha: int,
    beta: int,
    nmp: bool,
)
    requires
        0 <= depth <= i32::MAX,
    ensures
        cache_kept(st.cache, search(st, s, eval, depth, alpha, beta, nmp).1.cache),
    decreases depth, 1int, 0int,
{
    if !cache_hit(st.cache, s.hash, depth) {
        let st1 = counted(st);
        match leaf_score(s, eval, depth) {
            Some(v) => {},
            None => if depth > 0 {
                if null_cut_allowed(s, depth, nmp) {
                    lemma_search_keeps_cache(
                        st1,
                        s,
                        eval,
                        depth - NULL_MOVE_REDUCTION,
                        -beta,
                        -beta + 1,
                        false,
                    );
                }
                let null = if null_cut_allowed(s, depth, nmp) {
                    search(st1, s, eval, depth - NULL_MOVE_REDUCTION, -beta, -beta + 1, false)
                } else {
                    (0, st1)
                };
                let ordered = order_spec(null.1.history, s, spec_legal_moves(s));
                lemma_scan_keeps_cache(null.1, s, -eval, depth, alpha, beta, nmp, ordered, 0, -10000);
            },
        }
    }
}

/// A scan of moves never forgets what the cache held.
pub proof fn lemma_scan_keeps_cache(
    st: SearchState,
    s: Snapshot,
    flipped: int,
    depth: int,
    alpha: int,
    beta: int,
    nmp: bool,
    ms: Seq<Move>,
    i: int,
    best: int,
)
    requires
        0 <= depth <= i32::MAX,
    ensures
        cache_kept(st.cache, scan(st, s, flipped, depth, alpha, beta, nmp, ms, i, best).1.cache),
    decreases depth, 0int, ms.len() - i,
{
    if !(i < 0 || i >= ms.len() || depth <= 0) {
        if !searchable(s, ms[i]) {
            lemma_scan_keeps_cache(st, s, flipped, depth, alpha, beta, nmp, ms, i + 1, best);
        } else {
            let m = ms[i];
            let d = child_depth(i, depth);
            let child = search(st, spec_after_move(s, m), update_eval(flipped, s, m), d, -beta, -alpha, nmp);
            lemma_search_keeps_cache(st, spec_after_move(s, m), update_eval(flipped, s, m), d, -beta, -alpha, nmp);
            let c = -child.0;
            let best2 = if c > best {
                c
            } else {
                best
            };
            if c < beta {
                lemma_scan_keeps_cache(child.1, s, flipped, depth, alpha, beta, nmp, ms, i + 1, best2);
            }
        }
    }
}

/// How many positions a search counts: none when the cache answers; else
/// the position itself, what its null-move search counts, and, unless that
/// search cuts off, what its moves count.
pub open spec fn visits(
    st: SearchState,
    s: Snapshot,
    eval: int,
    depth: int,
    alpha: int,
    beta: int,
    nmp: bool,
) -> nat
    decreases depth, 1int, 0int,
{
    if cache_hit(st.cache, s.hash, depth) {
        0
    } else {
        let st1 = counted(st);
        match leaf_score(s, eval, depth) {
            Some(v) => 1,
            None => if depth <= 0 {
                1
            } else {
                let null_visits = if null_cut_allowed(s, depth, nmp) {
                    visits(st1, s, eval, depth - NULL_MOVE_REDUCTION, -beta, -beta + 1, false)
                } else {
                    0
                };
                let null = if null_cut_allowed(s, depth, nmp) {
                    search(st1, s, eval, depth - NULL_MOVE_REDUCTION, -beta, -beta + 1, false)
                } else {
                    (0, st1)
                };
                if null_cut_allowed(s, depth, nmp) && null.0 >= beta {
                    1 + null_visits
                } else {
                    let ordered = order_spec(null.1.history, s, spec_legal_moves(s));
                    1 + null_visits + scan_visits(
                        null.1,
                        s,
                        -eval,
                        depth,
                        alpha,
                        beta,
                        nmp,
                        ordered,
                        0,
                        -10000,
                    )
                }
            },
        }
    }
}

/// How many positions a scan of moves counts, move by move as `scan` goes.
pub open spec fn scan_visits(
    st: SearchState,
    s: Snapshot,
    flipped: int,
    depth: int,
    alpha: int,
    beta: int,
    nmp: bool,
    ms: Seq<Move>,
    i: int,
    best: int,
) -> nat
    decreases depth, 0int, ms.len() - i,
{
    if i < 0 || i >= ms.len() || depth <= 0 {
        0
    } else if !searchable(s, ms[i]) {
        scan_visits(st, s, flipped, depth, alpha, beta, nmp, ms, i + 1, best)
    } else {
        let m = ms[i];
        let child_s = spec_after_move(s, m);
        let child_eval = update_eval(flipped, s, m);
        let d = child_depth(i, depth);
        let n = visits(st, child_s, child_eval, d, -beta, -alpha, nmp);
        let child = search(st, child_s, child_eval, d, -beta, -alpha, nmp);
        let c = -child.0;
        let best2 = if c > best {
            c
        } else {
            best
        };
        if c >= beta {
            n
        } else {
            n + scan_visits(child.1, s, flipped, depth, alpha, beta, nmp, ms, i + 1, best2)
        }
    }
}

/// A counter advanced `n` times by one, wrapping around in `i32`.
pub open spec fn advance(x: i32, n: nat) -> i32
    decreases n,
{
    if n == 0 {
        x
    } else {
        advance(x, (n - 1) as nat).wrapping_add(1)
    }
}

proof fn lemma_advance_adds(x: i32, a: nat, b: nat)
    ensures
        advance(advance(x, a), b) == advance(x, a + b),
    decreases b,
{
    if b > 0 {
        lemma_advance_adds(x, a, (b - 1) as nat);
    }
}

proof fn lemma_advance_exact(x: i32, n: nat)
    requires
        x + n <= i32::MAX,
    ensures
        advance(x, n) == x + n,
    decreases n,
{
    if n > 0 {
        lemma_advance_exact(x, (n - 1) as nat);
    }
}

proof fn lemma_search_counts(
    st: SearchState,
    s: Snapshot,
    eval: int,
    depth: int,
    alpha: int,
    beta: int,
    nmp: bool,
)
    ensures
        search(st, s, eval, depth, alpha, beta, nmp).1.nodes == advance(
            st.nodes,
            visits(st, s, eval, depth, alpha, beta, nmp),
        ),
    decreases depth, 1int, 0int,
{
    if !cache_hit(st.cache, s.hash, depth) {
        let st1 = counted(st);
        assert(advance(st.nodes, 0) == st.nodes);
        assert(st1.nodes == advance(st.nodes, 1));
        match leaf_score(s, eval, depth) {
            Some(v) => {},
            None => if depth > 0 {
                let null_visits = if null_cut_allowed(s, depth, nmp) {
                    visits(st1, s, eval, depth - NULL_MOVE_REDUCTION, -beta, -beta + 1, false)
                } else {
                    0
                };
                let null = if null_cut_allowed(s, depth, nmp) {
                    search(st1, s, eval, depth - NULL_MOVE_REDUCTION, -beta, -beta + 1, false)
                } else {
                    (0, st1)
                };
                if null_cut_allowed(s, depth, nmp) {
                    lemma_search_counts(st1, s, eval, depth - NULL_MOVE_REDUCTION, -beta, -beta + 1, false);
                }
                assert(null.1.nodes == advance(st1.nodes, null_visits));
                lemma_advance_adds(st.nodes, 1, null_visits);
                if !(null_cut_allowed(s, depth, nmp) && null.0 >= beta) {
                    let ordered = order_spec(null.1.history, s, spec_legal_moves(s));
                    lemma_scan_counts(null.1, s, -eval, depth, alpha, beta, nmp, ordered, 0, -10000);
                    lemma_advance_adds(
                        st.nodes,
                        1 + null_visits,
                        scan_visits(null.1, s, -eval, depth, alpha, beta, nmp, ordered, 0, -10000),
                    );
                }
            },
        }
    }
}

proof fn lemma_scan_counts(
    st: SearchState,
    s: Snapshot,
    flipped: int,
    depth: int,
    alpha: int,
    beta: int,
    nmp: bool,
    ms: Seq<Move>,
    i: int,
    best: int,
)
    ensures
        scan(st, s, flipped, depth, alpha, beta, nmp, ms, i, best).1.nodes == advance(
            st.nodes,
            scan_visits(st, s, flipped, depth, alpha, beta, nmp, ms, i, best),
        ),
    decreases depth, 0int, ms.len() - i,
{
    if !(i < 0 || i >= ms.len() || depth <= 0) {
        if !searchable(s, ms[i]) {
            lemma_scan_counts(st, s, flipped, depth, alpha, beta, nmp, ms, i + 1, best);
        } else {
            let m = ms[i];
            let child_s = spec_after_move(s, m);
            let child_eval = update_eval(flipped, s, m);
            let d = child_depth(i, depth);
            let n = visits(st, child_s, child_eval, d, -beta, -alpha, nmp);
            let child = search(st, child_s, child_eval, d, -beta, -alpha, nmp);
            lemma_search_counts(st, child_s, child_eval, d, -beta, -alpha, nmp);
            let c = -child.0;
            let best2 = if c > best {
                c
            } else {
                best
            };
            if c < beta {
                lemma_scan_counts(child.1, s, flipped, depth, alpha, beta, nmp, ms, i + 1, best2);
                lemma_advance_adds(
                    st.nodes,
                    n,
                    scan_visits(child.1, s, flipped, depth, alpha, beta, nmp, ms, i + 1, best2),
                );
            }
        }
    }
}

/// The search counts every position it visits: its node counter ends
/// advanced by exactly `visits` (wrapping around in `i32`), which is at
/// least one when the cache does not answer; so, when the count does not
/// overflow, a search that misses the cache ends with a greater count.
pub proof fn lemma_search_counts_positions(
    st: SearchState,
    s: Snapshot,
    eval: int,
    depth: int,
    alpha: int,
    beta: int,
    nmp: bool,
)
    ensures
        ({
            let n = visits(st, s, eval, depth, alpha, beta, nmp);
            let after = search(st, s, eval, depth, alpha, beta, nmp).1.nodes;
            &&& after == advance(st.nodes, n)
            &&& !cache_hit(st.cache, s.hash, depth) ==> n >= 1
            &&& st.nodes + n <= i32::MAX ==> after == st.nodes + n
        }),
{
    lemma_search_counts(st, s, eval, depth, alpha, beta, nmp);
    let n = visits(st, s, eval, depth, alpha, beta, nmp);
    if st.nodes + n <= i32::MAX {
        lemma_advance_exact(st.nodes, n);
    }
}

/// A history credit: the colour that played, the move, and the depth whose
/// square it adds.
pub type Credit = (bool, Move, int);

/// The history counters after the credits, in turn.
pub open spec fn apply_credits(history: Seq<i32>, cs: Seq<Credit>) -> Seq<i32>
    decreases cs.len(),
{
    if cs.len() == 0 {
        history
    } else {
        let prev = apply_credits(history, cs.drop_last());
        let c = cs.last();
        let i = history_index(c.0, c.1.source as int, c.1.dest as int);
        prev.update(i, prev[i].wrapping_add((c.2 * c.2) as i32))
    }
}

/// No credit wraps a counter around: each lands on a counter and adds a
/// square that fits, without passing `i32::MAX`.
pub open spec fn credits_fit(history: Seq<i32>, cs: Seq<Credit>) -> bool
    decreases cs.len(),
{
    if cs.len() == 0 {
        true
    } else {
        let prev = apply_credits(history, cs.drop_last());
        let c = cs.last();
        let i = history_index(c.0, c.1.source as int, c.1.dest as int);
        &&& credits_fit(history, cs.drop_last())
        &&& 0 <= i < history.len()
        &&& c.2 * c.2 <= i32::MAX
        &&& prev[i] + c.2 * c.2 <= i32::MAX
    }
}

/// The credits a search makes, in order: those of its null-move search,
/// then those of its moves.
pub open spec fn credits_of(
    st: SearchState,
    s: Snapshot,
    eval: int,
    depth: int,
    alpha: int,
    beta: int,
    nmp: bool,
) -> Seq<Credit>
    decreases depth, 1int, 0int,
{
    if cache_hit(st.cache, s.hash, depth) {
        Seq::empty()
    } else {
        let st1 = counted(st);
        match leaf_score(s, eval, depth) {
            Some(v) => Seq::empty(),
            None => if depth <= 0 {
                Seq::empty()
            } else {
                let null_credits = if null_cut_allowed(s, depth, nmp) {
                    credits_of(st1, s, eval, depth - NULL_MOVE_REDUCTION, -beta, -beta + 1, false)
                } else {
                    Seq::empty()
                };
                let null = if null_cut_allowed(s, depth, nmp) {
                    search(st1, s, eval, depth - NULL_MOVE_REDUCTION, -beta, -beta + 1, false)
                } else {
                    (0, st1)
                };
                if null_cut_allowed(s, depth, nmp) && null.0 >= beta {
                    null_credits
                } else {
                    let ordered = order_spec(null.1.history, s, spec_legal_moves(s));
                    null_credits + scan_credits(
                        null.1,
                        s,
                        -eval,
                        depth,
                        alpha,
                        beta,
                        nmp,
                        ordered,
                        0,
                        -10000,
                    )
                }
            },
        }
    }
}

/// The credits a scan of moves makes, move by move as `scan` goes; a move
/// that reaches `beta` is credited last.
pub open spec fn scan_credits(
    st: SearchState,
    s: Snapshot,
    flipped: int,
    depth: int,
    alpha: int,
    beta: int,
    nmp: bool,
    ms: Seq<Move>,
    i: int,
    best: int,
) -> Seq<Credit>
    decreases depth, 0int, ms.len() - i,
{
    if i < 0 || i >= ms.len() || depth <= 0 {
        Seq::empty()
    } else if !searchable(s, ms[i]) {
        scan_credits(st, s, flipped, depth, alpha, beta, nmp, ms, i + 1, best)
    } else {
        let m = ms[i];
        let child_s = spec_after_move(s, m);
        let child_eval = update_eval(flipped, s, m);
        let d = child_depth(i, depth);
        let cs = credits_of(st, child_s, child_eval, d, -beta, -alpha, nmp);
        let child = search(st, child_s, child_eval, d, -beta, -alpha, nmp);
        let c = -child.0;
        let best2 = if c > best {
            c
        } else {
            best
        };
        if c >= beta {
            cs.push((s.white_to_move, m, depth))
        } else {
            cs + scan_credits(child.1, s, flipped, depth, alpha, beta, nmp, ms, i + 1, best2)
        }
    }
}

proof fn lemma_apply_credits_append(history: Seq<i32>, a: Seq<Credit>, b: Seq<Credit>)
    ensures
        apply_credits(apply_credits(history, a), b) == apply_credits(history, a + b),
    decreases b.len(),
{
    if b.len() == 0 {
        assert(a + b =~= a);
    } else {
        lemma_apply_credits_append(history, a, b.drop_last());
        assert((a + b).drop_last() =~= a + b.drop_last());
        assert((a + b).last() == b.last());
    }
}

proof fn lemma_search_credits(
    st: SearchState,
    s: Snapshot,
    eval: int,
    depth: int,
    alpha: int,
    beta: int,
    nmp: bool,
)
    ensures
        search(st, s, eval, depth, alpha, beta, nmp).1.history == apply_credits(
            st.history,
            credits_of(st, s, eval, depth, alpha, beta, nmp),
        ),
    decreases depth, 1int, 0int,
{
    if !cache_hit(st.cache, s.hash, depth) {
        let st1 = counted(st);
        match leaf_score(s, eval, depth) {
            Some(v) => {},
            None => if depth > 0 {
                let null_credits = if null_cut_allowed(s, depth, nmp) {
                    credits_of(st1, s, eval, depth - NULL_MOVE_REDUCTION, -beta, -beta + 1, false)
                } else {
                    Seq::empty()
                };
                let null = if null_cut_allowed(s, depth, nmp) {
                    search(st1, s, eval, depth - NULL_MOVE_REDUCTION, -beta, -beta + 1, false)
                } else {
                    (0, st1)
                };
                if null_cut_allowed(s, depth, nmp) {
                    lemma_search_credits(st1, s, eval, depth - NULL_MOVE_REDUCTION, -beta, -beta + 1, false);
                }
                assert(null.1.history == apply_credits(st.history, null_credits));
                if !(null_cut_allowed(s, depth, nmp) && null.0 >= beta) {
                    let ordered = order_spec(null.1.history, s, spec_legal_moves(s));
                    let rest = scan_credits(null.1, s, -eval, depth, alpha, beta, nmp, ordered, 0, -10000);
                    lemma_scan_credits(null.1, s, -eval, depth, alpha, beta, nmp, ordered, 0, -10000);
                    lemma_apply_credits_append(st.history, null_credits, rest);
                }
            },
        }
    }
}

proof fn lemma_scan_credits(
    st: SearchState,
    s: Snapshot,
    flipped: int,
    depth: int,
    alpha: int,
    beta: int,
    nmp: bool,
    ms: Seq<Move>,
    i: int,
    best: int,
)
    ensures
        scan(st, s, flipped, depth, alpha, beta, nmp, ms, i, best).1.history == apply_credits(
            st.history,
            scan_credits(st, s, flipped, depth, alpha, beta, nmp, ms, i, best),
        ),
    decreases depth, 0int, ms.len() - i,
{
    if !(i < 0 || i >= ms.len() || depth <= 0) {
        if !searchable(s, ms[i]) {
            lemma_scan_credits(st, s, flipped, depth, alpha, beta, nmp, ms, i + 1, best);
        } else {
            let m = ms[i];
            let child_s = spec_after_move(s, m);
            let child_eval = update_eval(flipped, s, m);
            let d = child_depth(i, depth);
            let cs = credits_of(st, child_s, child_eval, d, -beta, -alpha, nmp);
            let child = search(st, child_s, child_eval, d, -beta, -alpha, nmp);
            lemma_search_credits(st, child_s, child_eval, d, -beta, -alpha, nmp);
            let c = -child.0;
            let best2 = if c > best {
                c
            } else {
                best
            };
            if c >= beta {
                let last: Credit = (s.white_to_move, m, depth);
                assert(cs.push(last).drop_last() =~= cs);
                assert(cs.push(last).last() == last);
                assert(child.1.history == apply_credits(st.history, cs));
            } else {
                let rest = scan_credits(child.1, s, flipped, depth, alpha, beta, nmp, ms, i + 1, best2);
                lemma_scan_credits(child.1, s, flipped, depth, alpha, beta, nmp, ms, i + 1, best2);
                lemma_apply_credits_append(st.history, cs, rest);
            }
        }
    }
}

proof fn lemma_credits_grow(history: Seq<i32>, cs: Seq<Credit>)
    requires
        credits_fit(history, cs),
    ensures
        apply_credits(history, cs).len() == history.len(),
        forall|j: int| 0 <= j < history.len() ==> #[trigger] apply_credits(history, cs)[j] >= history[j],
    decreases cs.len(),
{
    if cs.len() > 0 {
        lemma_credits_grow(history, cs.drop_last());
        let c = cs.last();
        assert(0 <= c.2 * c.2) by (nonlinear_arith);
    }
}

/// The history counters change only by the search's credits: they end as
/// `credits_of` applied in turn, each adding the square of a depth to the
/// counter of a move that reached `beta`.  When no credit wraps a counter
/// around, no counter shrinks.
pub proof fn lemma_search_credits_history(
    st: SearchState,
    s: Snapshot,
    eval: int,
    depth: int,
    alpha: int,
    beta: int,
    nmp: bool,
)
    ensures
        ({
            let cs = credits_of(st, s, eval, depth, alpha, beta, nmp);
            let after = search(st, s, eval, depth, alpha, beta, nmp).1.history;
            &&& after == apply_credits(st.history, cs)
            &&& credits_fit(st.history, cs) ==> forall|j: int|
                0 <= j < st.history.len() ==> #[trigger] after[j] >= st.history[j]
        }),
{
    lemma_search_credits(st, s, eval, depth, alpha, beta, nmp);
    let cs = credits_of(st, s, eval, depth, alpha, beta, nmp);
    if credits_fit(st.history, cs) {
        lemma_credits_grow(st.history, cs);
    }
}

/// The credits a root search makes from the `i`-th move on: those of each
/// reply's search, and after it the move's own credit when it becomes the
/// best one.
pub open spec fn root_credits(
    st: SearchState,
    s: Snapshot,
    flipped: int,
    max_depth: int,
    ms: Seq<Move>,
    i: int,
    alpha: int,
    best: Option<Move>,
) -> Seq<Credit>
    decreases ms.len() - i,
{
    if i < 0 || i >= ms.len() {
        Seq::empty()
    } else if !searchable(s, ms[i]) {
        root_credits(st, s, flipped, max_depth, ms, i + 1, alpha, best)
    } else {
        let m = ms[i];
        let child_s = spec_after_move(s, m);
        let child_eval = update_eval(flipped, s, m);
        let cs = credits_of(st, child_s, child_eval, max_depth - 1, -999, 999, true);
        let child = search(st, child_s, child_eval, max_depth - 1, -999, 999, true);
        let c = -child.0;
        if c > alpha {
            cs.push((s.white_to_move, m, max_depth)) + root_credits(
                credit(child.1, s.white_to_move, m, max_depth),
                s,
                flipped,
                max_depth,
                ms,
                i + 1,
                c,
                Some(m),
            )
        } else {
            cs + root_credits(child.1, s, flipped, max_depth, ms, i + 1, alpha, best)
        }
    }
}

proof fn lemma_root_credits(
    st: SearchState,
    s: Snapshot,
    flipped: int,
    max_depth: int,
    ms: Seq<Move>,
    i: int,
    alpha: int,
    best: Option<Move>,
)
    ensures
        root_scan(st, s, flipped, max_depth, ms, i, alpha, best).1.history == apply_credits(
            st.history,
            root_credits(st, s, flipped, max_depth, ms, i, alpha, best),
        ),
    decreases ms.len() - i,
{
    if !(i < 0 || i >= ms.len()) {
        if !searchable(s, ms[i]) {
            lemma_root_credits(st, s, flipped, max_depth, ms, i + 1, alpha, best);
        } else {
            let m = ms[i];
            let child_s = spec_after_move(s, m);
            let child_eval = update_eval(flipped, s, m);
            let cs = credits_of(st, child_s, child_eval, max_depth - 1, -999, 999, true);
            let child = search(st, child_s, child_eval, max_depth - 1, -999, 999, true);
            lemma_search_credits(st, child_s, child_eval, max_depth - 1, -999, 999, true);
            let c = -child.0;
            if c > alpha {
                let last: Credit = (s.white_to_move, m, max_depth);
                let st2 = credit(child.1, s.white_to_move, m, max_depth);
                assert(cs.push(last).drop_last() =~= cs);
                assert(cs.push(last).last() == last);
                assert(st2.history == apply_credits(st.history, cs.push(last)));
                let rest = root_credits(st2, s, flipped, max_depth, ms, i + 1, c, Some(m));
                lemma_root_credits(st2, s, flipped, max_depth, ms, i + 1, c, Some(m));
                lemma_apply_credits_append(st.history, cs.push(last), rest);
            } else {
                let rest = root_credits(child.1, s, flipped, max_depth, ms, i + 1, alpha, best);
                lemma_root_credits(child.1, s, flipped, max_depth, ms, i + 1, alpha, best);
                lemma_apply_credits_append(st.history, cs, rest);
            }
        }
    }
}

/// The root search changes the history counters only by its credits: those
/// of the replies' searches and, for each move that becomes the best one,
/// `max_depth * max_depth` on its counter.  When no credit wraps a counter
/// around, no counter shrinks.
pub proof fn lemma_root_search_credits_history(st: SearchState, s: Snapshot, eval: int, max_depth: int)
    ensures
        ({
            let ms = order_spec(st.history, s, spec_legal_moves(s));
            let cs = root_credits(st, s, -eval, max_depth, ms, 0, -99999, None);
            let after = root_search(st, s, eval, max_depth).1.history;
            &&& after == apply_credits(st.history, cs)
            &&& credits_fit(st.history, cs) ==> forall|j: int|
                0 <= j < st.history.len() ==> #[trigger] after[j] >= st.history[j]
        }),
{
    let ms = order_spec(st.history, s, spec_legal_moves(s));
    lemma_root_credits(st, s, -eval, max_depth, ms, 0, -99999, None);
    let cs = root_credits(st, s, -eval, max_depth, ms, 0, -99999, None);
    if credits_fit(st.history, cs) {
        lemma_credits_grow(st.history, cs);
    }
}

proof fn lemma_credit_lands(history: Seq<i32>, cs: Seq<Credit>, k: int)
    requires
        credits_fit(history, cs),
        0 <= k < cs.len(),
    ensures
        ({
            let c = cs[k];
            let idx = history_index(c.0, c.1.source as int, c.1.dest as int);
            &&& 0 <= idx < history.len()
            &&& apply_credits(history, cs)[idx] >= history[idx] + c.2 * c.2
        }),
    decreases cs.len(),
{
    let c = cs[k];
    let idx = history_index(c.0, c.1.source as int, c.1.dest as int);
    let last = cs.last();
    let j = history_index(last.0, last.1.source as int, last.1.dest as int);
    let prev = apply_credits(history, cs.drop_last());
    let sq = last.2 * last.2;
    assert(0 <= sq) by (nonlinear_arith)
        requires
            sq == last.2 * last.2,
    ;
    lemma_credits_grow(history, cs.drop_last());
    assert(sq as i32 == sq);
    assert(prev[j].wrapping_add(sq as i32) == prev[j] + sq);
    assert(apply_credits(history, cs) == prev.update(j, prev[j].wrapping_add(sq as i32)));
    if k == cs.len() - 1 {
        assert(c == last);
        assert(apply_credits(history, cs)[idx] == prev[idx] + sq);
    } else {
        assert(cs.drop_last()[k] == c);
        lemma_credit_lands(history, cs.drop_last(), k);
        assert(apply_credits(history, cs)[idx] >= prev[idx]);
    }
}

proof fn lemma_root_best_credited(
    st: SearchState,
    s: Snapshot,
    flipped: int,
    max_depth: int,
    ms: Seq<Move>,
    i: int,
    alpha: int,
    best: Option<Move>,
)
    ensures
        root_scan(st, s, flipped, max_depth, ms, i, alpha, best).0 matches Some((m, score)) ==> best
            == Some(m) || root_credits(st, s, flipped, max_depth, ms, i, alpha, best).contains(
            (s.white_to_move, m, max_depth),
        ),
    decreases ms.len() - i,
{
    if !(i < 0 || i >= ms.len()) {
        if !searchable(s, ms[i]) {
            lemma_root_best_credited(st, s, flipped, max_depth, ms, i + 1, alpha, best);
        } else {
            let m = ms[i];
            let child_s = spec_after_move(s, m);
            let child_eval = update_eval(flipped, s, m);
            let cs = credits_of(st, child_s, child_eval, max_depth - 1, -999, 999, true);
            let child = search(st, child_s, child_eval, max_depth - 1, -999, 999, true);
            let c = -child.0;
            if c > alpha {
                let last: Credit = (s.white_to_move, m, max_depth);
                let st2 = credit(child.1, s.white_to_move, m, max_depth);
                let rest = root_credits(st2, s, flipped, max_depth, ms, i + 1, c, Some(m));
                lemma_root_best_credited(st2, s, flipped, max_depth, ms, i + 1, c, Some(m));
                let all = cs.push(last) + rest;
                assert(all[cs.len() as int] == last);
                assert forall|x: Credit| rest.contains(x) implies all.contains(x) by {
                    let k = choose|k: int| 0 <= k < rest.len() && rest[k] == x;
                    assert(all[cs.len() + 1 + k] == x);
                }
            } else {
                let rest = root_credits(child.1, s, flipped, max_depth, ms, i + 1, alpha, best);
                lemma_root_best_credited(child.1, s, flipped, max_depth, ms, i + 1, alpha, best);
                let all = cs + rest;
                assert forall|x: Credit| rest.contains(x) implies all.contains(x) by {
                    let k = choose|k: int| 0 <= k < rest.len() && rest[k] == x;
                    assert(all[cs.len() + k] == x);
                }
            }
        }
    }
}

/// The move the root search returns was credited with `max_depth *
/// max_depth` in the history of the side to move: its counter gains at
/// least that much when no credit wraps a counter around.
pub proof fn lemma_root_best_is_credited(st: SearchState, s: Snapshot, eval: int, max_depth: int)
    ensures
        ({
            let ms = order_spec(st.history, s, spec_legal_moves(s));
            let cs = root_credits(st, s, -eval, max_depth, ms, 0, -99999, None);
            let res = root_search(st, s, eval, max_depth);
            res.0 matches Some((m, score)) ==> {
                let idx = history_index(s.white_to_move, m.source as int, m.dest as int);
                &&& cs.contains((s.white_to_move, m, max_depth))
                &&& credits_fit(st.history, cs) ==> res.1.history[idx] >= st.history[idx]
                    + max_depth * max_depth
            }
        }),
{
    let ms = order_spec(st.history, s, spec_legal_moves(s));
    let cs = root_credits(st, s, -eval, max_depth, ms, 0, -99999, None);
    let res = root_search(st, s, eval, max_depth);
    lemma_root_best_credited(st, s, -eval, max_depth, ms, 0, -99999, None);
    lemma_root_credits(st, s, -eval, max_depth, ms, 0, -99999, None);
    if let Some((m, score)) = res.0 {
        if credits_fit(st.history, cs) {
            let k = choose|k: int| 0 <= k < cs.len() && cs[k] == (s.white_to_move, m, max_depth);
            lemma_credit_lands(st.history, cs, k);
        }
    }
}

/// A scan never lowers the best score it started from.
pub proof fn lemma_scan_keeps_best(
    st: SearchState,
    s: Snapshot,
    flipped: int,
    depth: int,
    alpha: int,
    beta: int,
    nmp: bool,
    ms: Seq<Move>,
    i: int,
    best: int,
)
    ensures
        scan(st, s, flipped, depth, alpha, beta, nmp, ms, i, best).0 >= best,
    decreases ms.len() - i,
{
    if !(i < 0 || i >= ms.len() || depth <= 0) {
        if !searchable(s, ms[i]) {
            lemma_scan_keeps_best(st, s, flipped, depth, alpha, beta, nmp, ms, i + 1, best);
        } else {
            let m = ms[i];
            let child = search(
                st,
                spec_after_move(s, m),
                update_eval(flipped, s, m),
                child_depth(i, depth),
                -beta,
                -alpha,
                nmp,
            );
            let c = -child.0;
            let best2 = if c > best {
                c
            } else {
                best
            };
            if c < beta {
                lemma_scan_keeps_best(child.1, s, flipped, depth, alpha, beta, nmp, ms, i + 1, best2);
            }
        }
    }
}

/// Every move a scan searches bounds the position's score from below: a
/// move whose reply scores `v` gives the position at least `-v`.  In
/// particular a move that reaches `beta` and cuts the scan off gives at
/// least its own score, and the scan's result is at least `beta`.
pub proof fn lemma_scan_at_least_each_move(
    st: SearchState,
    s: Snapshot,
    flipped: int,
    depth: int,
    alpha: int,
    beta: int,
    nmp: bool,
    ms: Seq<Move>,
    i: int,
    best: int,
)
    requires
        0 <= i < ms.len(),
        depth > 0,
        searchable(s, ms[i]),
    ensures
        ({
            let v = search(
                st,
                spec_after_move(s, ms[i]),
                update_eval(flipped, s, ms[i]),
                child_depth(i, depth),
                -beta,
                -alpha,
                nmp,
            ).0;
            let r = scan(st, s, flipped, depth, alpha, beta, nmp, ms, i, best).0;
            &&& r >= -v
            &&& r >= best
            &&& -v >= beta ==> r >= beta
        }),
{
    lemma_scan_keeps_best(st, s, flipped, depth, alpha, beta, nmp, ms, i, best);
    let m = ms[i];
    let child = search(
        st,
        spec_after_move(s, m),
        update_eval(flipped, s, m),
        child_depth(i, depth),
        -beta,
        -alpha,
        nmp,
    );
    let c = -child.0;
    let best2 = if c > best {
        c
    } else {
        best
    };
    if c < beta {
        lemma_scan_keeps_best(child.1, s, flipped, depth, alpha, beta, nmp, ms, i + 1, best2);
    }
}

/// A position the search goes into (no cache hit, the game goes on, depth
/// above 0, no null-move cut-off) scores at least -10000, and at least the
/// negated score of the first move it tries when that move can be searched.
pub proof fn lemma_searched_position_floor(
    st: SearchState,
    s: Snapshot,
    eval: int,
    depth: int,
    alpha: int,
    beta: int,
    nmp: bool,
)
    requires
        !cache_hit(st.cache, s.hash, depth),
        spec_status(s) == GameStatus::Ongoing,
        depth > 0,
        !null_cut(st, s, eval, depth, beta, nmp),
    ensures
        ({
            let st1 = counted(st);
            let st2 = if null_cut_allowed(s, depth, nmp) {
                search(st1, s, eval, depth - NULL_MOVE_REDUCTION, -beta, -beta + 1, false).1
            } else {
                st1
            };
            let ms = order_spec(st2.history, s, spec_legal_moves(s));
            let r = search(st, s, eval, depth, alpha, beta, nmp).0;
            &&& r >= -10000
            &&& ms.len() > 0 && searchable(s, ms[0]) ==> r >= -search(
                st2,
                spec_after_move(s, ms[0]),
                update_eval(-eval, s, ms[0]),
                depth - 1,
                -beta,
                -alpha,
                nmp,
            ).0
        }),
{
    let st1 = counted(st);
    let null = if null_cut_allowed(s, depth, nmp) {
        search(st1, s, eval, depth - NULL_MOVE_REDUCTION, -beta, -beta + 1, false)
    } else {
        (0, st1)
    };
    let ms = order_spec(null.1.history, s, spec_legal_moves(s));
    lemma_scan_keeps_best(null.1, s, -eval, depth, alpha, beta, nmp, ms, 0, -10000);
    if ms.len() > 0 && searchable(s, ms[0]) {
        lemma_scan_at_least_each_move(null.1, s, -eval, depth, alpha, beta, nmp, ms, 0, -10000);
    }
}

/// A game that has ended is scored by how it ended, at every depth and
/// whatever the evaluation: checkmate -99999, stalemate -150; a game that
/// goes on is scored at depth 0 by its evaluation, negated (unless the cache
/// answers first).
pub proof fn lemma_ended_games_score(
    st: SearchState,
    s: Snapshot,
    eval: int,
    depth: int,
    alpha: int,
    beta: int,
    nmp: bool,
)
    requires
        !cache_hit(st.cache, s.hash, depth),
    ensures
        spec_status(s) == GameStatus::Stalemate ==> search(st, s, eval, depth, alpha, beta, nmp).0
            == -150,
        spec_status(s) == GameStatus::Checkmate ==> search(st, s, eval, depth, alpha, beta, nmp).0
            == -99999,
        spec_status(s) == GameStatus::Ongoing && depth == 0 ==> search(
            st,
            s,
            eval,
            depth,
            alpha,
            beta,
            nmp,
        ).0 == -eval,
{
}

/// A root scan never loses a move it has found, nor lowers its score.
pub proof fn lemma_root_scan_keeps_best(
    st: SearchState,
    s: Snapshot,
    flipped: int,
    max_depth: int,
    ms: Seq<Move>,
    i: int,
    alpha: int,
    best: Option<Move>,
)
    ensures
        root_scan(st, s, flipped, max_depth, ms, i, alpha, best).0 matches Some((m, score)) ==> score
            >= alpha,
        best is Some ==> root_scan(st, s, flipped, max_depth, ms, i, alpha, best).0 is Some,
    decreases ms.len() - i,
{
    if !(i < 0 || i >= ms.len()) {
        if !searchable(s, ms[i]) {
            lemma_root_scan_keeps_best(st, s, flipped, max_depth, ms, i + 1, alpha, best);
        } else {
            let m = ms[i];
            let child = search(
                st,
                spec_after_move(s, m),
                update_eval(flipped, s, m),
                max_depth - 1,
                -999,
                999,
                true,
            );
            let c = -child.0;
            if c > alpha {
                lemma_root_scan_keeps_best(
                    credit(child.1, s.white_to_move, m, max_depth),
                    s,
                    flipped,
                    max_depth,
                    ms,
                    i + 1,
                    c,
                    Some(m),
                );
            } else {
                lemma_root_scan_keeps_best(child.1, s, flipped, max_depth, ms, i + 1, alpha, best);
            }
        }
    }
}

/// The root search considers every move it can search: a move whose reply
/// scores `v` with `-v` above the best score so far makes the root search
/// return a move, with a score at least `-v`.
pub proof fn lemma_root_scan_at_least_each_move(
    st: SearchState,
    s: Snapshot,
    flipped: int,
    max_depth: int,
    ms: Seq<Move>,
    i: int,
    alpha: int,
    best: Option<Move>,
)
    requires
        0 <= i < ms.len(),
        searchable(s, ms[i]),
    ensures
        ({
            let v = search(
                st,
                spec_after_move(s, ms[i]),
                update_eval(flipped, s, ms[i]),
                max_depth - 1,
                -999,
                999,
                true,
            ).0;
            -v > alpha ==> (root_scan(st, s, flipped, max_depth, ms, i, alpha, best).0 matches Some(
                (m, score),
            ) && score >= -v)
        }),
{
    let m = ms[i];
    let child = search(
        st,
        spec_after_move(s, m),
        update_eval(flipped, s, m),
        max_depth - 1,
        -999,
        999,
        true,
    );
    let c = -child.0;
    if c > alpha {
        lemma_root_scan_keeps_best(
            credit(child.1, s.white_to_move, m, max_depth),
            s,
            flipped,
            max_depth,
            ms,
            i + 1,
            c,
            Some(m),
        );
    }
}

/// The root search returns a move whenever the first move it tries can be
/// searched and scores above -99999; in particular with a single legal move
/// that can be searched and scores above -99999, that move is returned.
pub proof fn lemma_root_search_finds_first_move(st: SearchState, s: Snapshot, eval: int, max_depth: int)
    ensures
        ({
            let ms = order_spec(st.history, s, spec_legal_moves(s));
            ms.len() > 0 && searchable(s, ms[0]) && -search(
                st,
                spec_after_move(s, ms[0]),
                update_eval(-eval, s, ms[0]),
                max_depth - 1,
                -999,
                999,
                true,
            ).0 > -99999 ==> root_search(st, s, eval, max_depth).0 is Some
        }),
{
    let ms = order_spec(st.history, s, spec_legal_moves(s));
    if ms.len() > 0 && searchable(s, ms[0]) {
        lemma_root_scan_at_least_each_move(st, s, -eval, max_depth, ms, 0, -99999, None);
    }
}

/// A capture is ranked by ten times the value of the piece on the move's
/// source, less the value of the piece on its destination, times 10000,
/// plus the move's history counter (wrapping around in `i32`): by the
/// capturing piece first, most valuable first, then by the captured piece,
/// least valuable first.
pub proof fn lemma_capture_rank(history: Seq<i32>, s: Snapshot, m: Move, attacker: PieceKind, victim: PieceKind)
    requires
        spec_piece_on(s, m.source as int) == Some(attacker),
        spec_piece_on(s, m.dest as int) == Some(victim),
    ensures
        move_rank(history, s, m) == (((10 * piece_value(attacker) - piece_value(victim)) * 10000) as i32).wrapping_add(
            history[history_index(s.white_to_move, m.source as int, m.dest as int)],
        ),
{
}

proof fn lemma_piece_value_range(k: PieceKind)
    ensures
        0 <= piece_value(k) <= 900,
{
    match k {
        PieceKind::Pawn => {},
        PieceKind::Knight => {},
        PieceKind::Bishop => {},
        PieceKind::Rook => {},
        PieceKind::Queen => {},
        PieceKind::King => {},
    }
}

/// A capture with a history counter `h` not near the ends of `i32` ranks
/// exactly its capture rank plus `h`, with no wrapping.
proof fn lemma_capture_rank_exact(history: Seq<i32>, s: Snapshot, m: Move, attacker: PieceKind, victim: PieceKind)
    requires
        spec_piece_on(s, m.source as int) == Some(attacker),
        spec_piece_on(s, m.dest as int) == Some(victim),
        -1_000_000_000 <= history[history_index(s.white_to_move, m.source as int, m.dest as int)]
            <= 1_000_000_000,
    ensures
        move_rank(history, s, m) as int == (10 * piece_value(attacker) - piece_value(victim)) * 10000
            + history[history_index(s.white_to_move, m.source as int, m.dest as int)],
{
    lemma_piece_value_range(attacker);
    lemma_piece_value_range(victim);
    let c = (10 * piece_value(attacker) - piece_value(victim)) * 10000;
    let h = history[history_index(s.white_to_move, m.source as int, m.dest as int)];
    assert(-9_000_000 <= c <= 90_000_000);
    assert(c as i32 == c);
    assert((c as i32).wrapping_add(h) == c + h);
}

/// Of two captures of the same kind of piece with equal history counters
/// (not near the ends of `i32`), the one made by the more valuable piece
/// ranks higher.
pub proof fn lemma_stronger_attacker_first(
    history: Seq<i32>,
    s: Snapshot,
    m1: Move,
    m2: Move,
    a1: PieceKind,
    a2: PieceKind,
    victim: PieceKind,
)
    requires
        spec_piece_on(s, m1.source as int) == Some(a1),
        spec_piece_on(s, m2.source as int) == Some(a2),
        spec_piece_on(s, m1.dest as int) == Some(victim),
        spec_piece_on(s, m2.dest as int) == Some(victim),
        piece_value(a1) > piece_value(a2),
        history[history_index(s.white_to_move, m1.source as int, m1.dest as int)] == history[history_index(
            s.white_to_move,
            m2.source as int,
            m2.dest as int,
        )],
        -1_000_000_000 <= history[history_index(s.white_to_move, m1.source as int, m1.dest as int)]
            <= 1_000_000_000,
    ensures
        move_rank(history, s, m1) > move_rank(history, s, m2),
{
    lemma_capture_rank_exact(history, s, m1, a1, victim);
    lemma_capture_rank_exact(history, s, m2, a2, victim);
}

/// Of two captures by the same kind of piece with equal history counters
/// (not near the ends of `i32`), the one taking the less valuable piece
/// ranks higher.
pub proof fn lemma_cheaper_victim_first(
    history: Seq<i32>,
    s: Snapshot,
    m1: Move,
    m2: Move,
    attacker: PieceKind,
    v1: PieceKind,
    v2: PieceKind,
)
    requires
        spec_piece_on(s, m1.source as int) == Some(attacker),
        spec_piece_on(s, m2.source as int) == Some(attacker),
        spec_piece_on(s, m1.dest as int) == Some(v1),
        spec_piece_on(s, m2.dest as int) == Some(v2),
        piece_value(v1) < piece_value(v2),
        history[history_index(s.white_to_move, m1.source as int, m1.dest as int)] == history[history_index(
            s.white_to_move,
            m2.source as int,
            m2.dest as int,
        )],
        -1_000_000_000 <= history[history_index(s.white_to_move, m1.source as int, m1.dest as int)]
            <= 1_000_000_000,
    ensures
        move_rank(history, s, m1) > move_rank(history, s, m2),
{
    lemma_capture_rank_exact(history, s, m1, attacker, v1);
    lemma_capture_rank_exact(history, s, m2, attacker, v2);
}

/// A move that captures nothing ranks by its history counter alone.
pub proof fn lemma_quiet_move_rank(history: Seq<i32>, s: Snapshot, m: Move)
    requires
        spec_piece_on(s, m.dest as int) is None,
    ensures
        move_rank(history, s, m) == history[history_index(s.white_to_move, m.source as int, m.dest as int)],
{
}

} // verus!
