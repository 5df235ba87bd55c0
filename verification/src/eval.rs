//! The evaluation tracker: a material and piece-square score that is computed
//! once for a position and then updated move by move.
use crate::board::{side_bb, spec_piece_on, Move, Position, Snapshot};
use crate::pst::{
    fits_i32, get_piece_value, has_square, lemma_table_query_fits, piece_value, pst_sum, pst_term,
    query_pst, query_pst_single, table_entry, table_of, PieceKind, BISHOP_PST, KING_PST,
    KNIGHT_PST, PAWN_PST, QUEEN_PST, ROOK_PST,
};
use vstd::prelude::*;

verus! {

/// A running evaluation in centipawns.
#[derive(Clone, Copy, Debug)]
pub struct EvalTracker {
    pub eval: i32,
}

/// Score of one kind of piece: what the side to move has of it, counted on
/// its own table, less what the other squares hold of it, counted on the
/// table mirrored for the other side.
pub open spec fn kind_score(s: Snapshot, k: PieceKind) -> int {
    let cur = side_bb(s);
    let bb = s.pieces[k.spec_index()];
    pst_sum(cur & bb, piece_value(k), table_of(k), s.white_to_move, 64) - pst_sum(
        !cur & bb,
        piece_value(k),
        table_of(k),
        !s.white_to_move,
        64,
    )
}

/// The evaluation of a position from the side to move's point of view.
pub open spec fn init_eval(s: Snapshot) -> int {
    kind_score(s, PieceKind::Pawn) + kind_score(s, PieceKind::Knight) + kind_score(
        s,
        PieceKind::Bishop,
    ) + kind_score(s, PieceKind::Rook) + kind_score(s, PieceKind::Queen) + kind_score(
        s,
        PieceKind::King,
    )
}

/// Table entry of a piece on a square for one side.
pub open spec fn entry(piece: PieceKind, sq: int, white: bool) -> int {
    table_entry(table_of(piece), sq, white)
}

/// The partial sums through which `update` computes its result, in the
/// order it adds them.
pub open spec fn update_steps(e: int, s: Snapshot, m: Move) -> Seq<int> {
    let white = s.white_to_move;
    let piece = spec_piece_on(s, m.source as int)->0;
    match spec_piece_on(s, m.dest as int) {
        Some(captured) => {
            let a = e + piece_value(captured);
            let b = a + entry(captured, m.dest as int, !white);
            let c = b + entry(piece, m.dest as int, white);
            seq![a, b, c, c - entry(piece, m.source as int, white)]
        },
        None => {
            let a = e + entry(piece, m.dest as int, white);
            seq![a, a - entry(piece, m.source as int, white)]
        },
    }
}

/// The evaluation after a move: the captured piece's value and its table
/// entry for the side not moving, plus the mover's table gain.
pub open spec fn update_eval(e: int, s: Snapshot, m: Move) -> int {
    update_steps(e, s, m).last()
}

/// A move that `update` can score: its squares are on the board and its
/// source holds a piece.
pub open spec fn scorable_move(s: Snapshot, m: Move) -> bool {
    &&& m.source < 64
    &&& m.dest < 64
    &&& spec_piece_on(s, m.source as int) is Some
}

impl EvalTracker {
    /// Evaluates a position from scratch.
    pub fn init(board: &Position) -> (r: EvalTracker)
        ensures
            r.eval == init_eval(board@),
    {
        let snap = board.snapshot();
        let white = snap.white_to_move;
        let cur_bb = if white {
            snap.colors[0]
        } else {
            snap.colors[1]
        };
        let opp_bb = !cur_bb;
        let pawn = snap.pieces[0];
        let knight = snap.pieces[1];
        let bishop = snap.pieces[2];
        let rook = snap.pieces[3];
        let queen = snap.pieces[4];
        let king = snap.pieces[5];
        proof {
            lemma_table_query_fits(cur_bb & pawn, PieceKind::Pawn, 100, white);
            lemma_table_query_fits(opp_bb & pawn, PieceKind::Pawn, 100, !white);
            lemma_table_query_fits(cur_bb & knight, PieceKind::Knight, 300, white);
            lemma_table_query_fits(opp_bb & knight, PieceKind::Knight, 300, !white);
            lemma_table_query_fits(cur_bb & bishop, PieceKind::Bishop, 325, white);
            lemma_table_query_fits(opp_bb & bishop, PieceKind::Bishop, 325, !white);
            lemma_table_query_fits(cur_bb & rook, PieceKind::Rook, 500, white);
            lemma_table_query_fits(opp_bb & rook, PieceKind::Rook, 500, !white);
            lemma_table_query_fits(cur_bb & queen, PieceKind::Queen, 900, white);
            lemma_table_query_fits(opp_bb & queen, PieceKind::Queen, 900, !white);
            lemma_table_query_fits(cur_bb & king, PieceKind::King, 0, white);
            lemma_table_query_fits(opp_bb & king, PieceKind::King, 0, !white);
        }
        let p1 = query_pst(cur_bb & pawn, 100, PAWN_PST, white);
        let p2 = query_pst(opp_bb & pawn, 100, PAWN_PST, !white);
        let n1 = query_pst(cur_bb & knight, 300, KNIGHT_PST, white);
        let n2 = query_pst(opp_bb & knight, 300, KNIGHT_PST, !white);
        let b1 = query_pst(cur_bb & bishop, 325, BISHOP_PST, white);
        let b2 = query_pst(opp_bb & bishop, 325, BISHOP_PST, !white);
        let r1 = query_pst(cur_bb & rook, 500, ROOK_PST, white);
        let r2 = query_pst(opp_bb & rook, 500, ROOK_PST, !white);
        let q1 = query_pst(cur_bb & queen, 900, QUEEN_PST, white);
        let q2 = query_pst(opp_bb & queen, 900, QUEEN_PST, !white);
        let k1 = query_pst(cur_bb & king, 0, KING_PST, white);
        let k2 = query_pst(opp_bb & king, 0, KING_PST, !white);
        EvalTracker { eval: p1 - p2 + n1 - n2 + b1 - b2 + r1 - r2 + q1 - q2 + k1 - k2 }
    }

    /// The evaluation after `c_move` is played on `board`.
    pub fn update(&self, board: &Position, c_move: &Move) -> (r: EvalTracker)
        requires
            scorable_move(board@, *c_move),
            forall|i: int|
                0 <= i < update_steps(self.eval as int, board@, *c_move).len() ==> fits_i32(
                    #[trigger] update_steps(self.eval as int, board@, *c_move)[i],
                ),
        ensures
            r.eval == update_eval(self.eval as int, board@, *c_move),
    {
        let white = board.white_to_move();
        let source = c_move.source;
        let dest = c_move.dest;
        let piece = board.piece_on(source).unwrap();
        let steps = Ghost(update_steps(self.eval as int, board@, *c_move));
        if let Some(dest_piece) = board.piece_on(dest) {
            assert(fits_i32(steps@[0]) && fits_i32(steps@[1]) && fits_i32(steps@[2]) && fits_i32(
                steps@[3],
            ));
            return EvalTracker {
                eval: self.eval + get_piece_value(dest_piece) + query_pst_single(
                    dest_piece,
                    dest as usize,
                    !white,
                ) + query_pst_single(piece, dest as usize, white) - query_pst_single(
                    piece,
                    source as usize,
                    white,
                ),
            };
        }
        assert(fits_i32(steps@[0]) && fits_i32(steps@[1]));
        EvalTracker {
            eval: self.eval + query_pst_single(piece, dest as usize, white) - query_pst_single(
                piece,
                source as usize,
                white,
            ),
        }
    }

    /// The evaluation seen from the other side.
    pub fn flip(&self) -> (r: EvalTracker)
        requires
            self.eval != i32::MIN,
        ensures
            r.eval == -self.eval,
    {
        EvalTracker { eval: -self.eval }
    }
}

/// Every table entry lies in `-50 ..= 50`, so an update moves the
/// evaluation by at most 1050.
pub proof fn lemma_update_bounds(e: int, s: Snapshot, m: Move)
    requires
        scorable_move(s, m),
    ensures
        forall|i: int|
            0 <= i < update_steps(e, s, m).len() ==> e - 1050 <= #[trigger] update_steps(e, s, m)[i]
                <= e + 1050,
        e - 1050 <= update_eval(e, s, m) <= e + 1050,
{
    crate::pst::lemma_tables_bounded(PieceKind::Pawn);
    crate::pst::lemma_tables_bounded(PieceKind::Knight);
    crate::pst::lemma_tables_bounded(PieceKind::Bishop);
    crate::pst::lemma_tables_bounded(PieceKind::Rook);
    crate::pst::lemma_tables_bounded(PieceKind::Queen);
    crate::pst::lemma_tables_bounded(PieceKind::King);
    let white = s.white_to_move;
    let piece = spec_piece_on(s, m.source as int)->0;
    let src = m.source as int;
    let dst = m.dest as int;
    assert(-50 <= table_of(piece)[src] <= 50 && -50 <= table_of(piece)[63 - src] <= 50);
    assert(-50 <= table_of(piece)[dst] <= 50 && -50 <= table_of(piece)[63 - dst] <= 50);
    if let Some(captured) = spec_piece_on(s, dst) {
        assert(-50 <= table_of(captured)[dst] <= 50 && -50 <= table_of(captured)[63 - dst] <= 50);
    }
}

/// The same board with the other side to move.
pub open spec fn other_side_to_move(s: Snapshot) -> Snapshot {
    Snapshot {
        pieces: s.pieces,
        colors: s.colors,
        combined: s.combined,
        white_to_move: !s.white_to_move,
        castle: s.castle,
        en_passant: s.en_passant,
        checkers: s.checkers,
        pinned: s.pinned,
        hash: s.hash,
    }
}

/// The two colours do not overlap and every piece has one of them.
pub open spec fn colors_partition(s: Snapshot) -> bool {
    &&& s.colors[0] & s.colors[1] == 0
    &&& forall|i: int| 0 <= i < 6 ==> #[trigger] s.pieces[i] & !(s.colors[0] | s.colors[1]) == 0
}

proof fn lemma_complement_is_other_color(w: u64, b: u64, p: u64)
    by (bit_vector)
    requires
        w & b == 0,
        p & !(w | b) == 0,
    ensures
        !w & p == b & p,
        !b & p == w & p,
{
}

/// On a board whose pieces all have one of two disjoint colours, the
/// evaluation for the side to move is the negated evaluation for the other
/// side: the evaluation is zero-sum.
pub proof fn lemma_eval_is_zero_sum(s: Snapshot)
    requires
        colors_partition(s),
    ensures
        init_eval(other_side_to_move(s)) == -init_eval(s),
{
    let t = other_side_to_move(s);
    assert forall|k: PieceKind| #[trigger] kind_score(t, k) == -kind_score(s, k) by {
        let i = k.spec_index();
        let p = s.pieces[i];
        assert(p & !(s.colors[0] | s.colors[1]) == 0);
        lemma_complement_is_other_color(s.colors[0], s.colors[1], p);
    }
}

/// Passing the turn negates the evaluation: a board with the same pieces
/// and colours and the other side to move (as the crate's null move leaves
/// it, see `Position::null_move`) scores the negation, when the colours
/// split the pieces.
pub proof fn lemma_null_move_negates_eval(s: Snapshot, t: Snapshot)
    requires
        colors_partition(s),
        t.pieces == s.pieces,
        t.colors == s.colors,
        t.white_to_move == !s.white_to_move,
    ensures
        init_eval(t) == -init_eval(s),
{
    lemma_eval_is_zero_sum(s);
    let u = other_side_to_move(s);
    assert(side_bb(t) == side_bb(u));
}

/// What square `sq` adds to the evaluation: the twelve table queries of
/// `init_eval` restricted to that square.
pub open spec fn square_score(s: Snapshot, sq: int) -> int {
    square_kind_score(s, PieceKind::Pawn, sq) + square_kind_score(s, PieceKind::Knight, sq)
        + square_kind_score(s, PieceKind::Bishop, sq) + square_kind_score(s, PieceKind::Rook, sq)
        + square_kind_score(s, PieceKind::Queen, sq) + square_kind_score(s, PieceKind::King, sq)
}

/// What square `sq` adds to the score of one kind of piece.
pub open spec fn square_kind_score(s: Snapshot, k: PieceKind, sq: int) -> int {
    let cur = side_bb(s);
    let bb = s.pieces[k.spec_index()];
    pst_term(cur & bb, piece_value(k), table_of(k), s.white_to_move, sq) - pst_term(
        !cur & bb,
        piece_value(k),
        table_of(k),
        !s.white_to_move,
        sq,
    )
}

/// Sum of `square_score` over squares `0 .. n`.
pub open spec fn squares_total(s: Snapshot, n: int) -> int
    decreases n,
{
    if n <= 0 {
        0
    } else {
        squares_total(s, n - 1) + square_score(s, n - 1)
    }
}

/// The evaluation is the sum, over the squares, of what each adds.
proof fn lemma_eval_by_squares(s: Snapshot, n: int)
    requires
        0 <= n <= 64,
    ensures
        squares_total(s, n) == kind_partial(s, PieceKind::Pawn, n) + kind_partial(
            s,
            PieceKind::Knight,
            n,
        ) + kind_partial(s, PieceKind::Bishop, n) + kind_partial(s, PieceKind::Rook, n)
            + kind_partial(s, PieceKind::Queen, n) + kind_partial(s, PieceKind::King, n),
    decreases n,
{
    if n > 0 {
        lemma_eval_by_squares(s, n - 1);
    }
}

/// `kind_score` over the squares `0 .. n`.
pub open spec fn kind_partial(s: Snapshot, k: PieceKind, n: int) -> int {
    let cur = side_bb(s);
    let bb = s.pieces[k.spec_index()];
    pst_sum(cur & bb, piece_value(k), table_of(k), s.white_to_move, n) - pst_sum(
        !cur & bb,
        piece_value(k),
        table_of(k),
        !s.white_to_move,
        n,
    )
}

proof fn lemma_init_eval_by_squares(s: Snapshot)
    ensures
        init_eval(s) == squares_total(s, 64),
{
    lemma_eval_by_squares(s, 64);
}

/// The kind of piece on a square: the first piece bitboard holding it.
pub open spec fn kind_on(s: Snapshot, sq: int) -> Option<PieceKind> {
    if has_square(s.pieces[0], sq) {
        Some(PieceKind::Pawn)
    } else if has_square(s.pieces[1], sq) {
        Some(PieceKind::Knight)
    } else if has_square(s.pieces[2], sq) {
        Some(PieceKind::Bishop)
    } else if has_square(s.pieces[3], sq) {
        Some(PieceKind::Rook)
    } else if has_square(s.pieces[4], sq) {
        Some(PieceKind::Queen)
    } else if has_square(s.pieces[5], sq) {
        Some(PieceKind::King)
    } else {
        None
    }
}

/// What a square adds by what stands on it: a piece of the side to move its
/// value and table entry, a piece of the other side minus its value and its
/// entry read for that side, an empty square nothing.
pub open spec fn occupant_score(s: Snapshot, sq: int) -> int {
    match kind_on(s, sq) {
        Some(k) => if has_square(side_bb(s), sq) {
            piece_value(k) + entry(k, sq, s.white_to_move)
        } else {
            -(piece_value(k) + entry(k, sq, !s.white_to_move))
        },
        None => 0,
    }
}

proof fn lemma_and_bits(a: u64, b: u64, sq: u64)
    by (bit_vector)
    requires
        sq < 64,
    ensures
        ((a & b) & (1u64 << sq) != 0) == ((a & (1u64 << sq) != 0) && (b & (1u64 << sq) != 0)),
        ((!a & b) & (1u64 << sq) != 0) == (!(a & (1u64 << sq) != 0) && (b & (1u64 << sq) != 0)),
{
}

/// At most one piece bitboard holds the square.
pub open spec fn one_kind_at(s: Snapshot, sq: int) -> bool {
    forall|i: int, j: int|
        0 <= i < j < 6 ==> !(has_square(#[trigger] s.pieces[i], sq) && has_square(
            #[trigger] s.pieces[j],
            sq,
        ))
}

proof fn lemma_no_two_kinds(s: Snapshot, sq: int)
    requires
        crate::board::pieces_disjoint(s),
        0 <= sq < 64,
    ensures
        one_kind_at(s, sq),
{
    assert forall|i: int, j: int| 0 <= i < j < 6 implies !(has_square(
        #[trigger] s.pieces[i],
        sq,
    ) && has_square(#[trigger] s.pieces[j], sq)) by {
        assert(s.pieces[i] & s.pieces[j] == 0);
        crate::board::lemma_disjoint_bit(s.pieces[i], s.pieces[j], sq as u64);
    }
}

/// On a board whose piece bitboards are disjoint, what a square adds to the
/// evaluation is what stands on it.
proof fn lemma_square_score_by_occupant(s: Snapshot, sq: int)
    requires
        one_kind_at(s, sq),
        0 <= sq < 64,
    ensures
        square_score(s, sq) == occupant_score(s, sq),
{
    let cur = side_bb(s);
    assert forall|k: PieceKind| #[trigger] square_kind_score(s, k, sq) == (if has_square(
        s.pieces[k.spec_index()],
        sq,
    ) {
        if has_square(cur, sq) {
            piece_value(k) + entry(k, sq, s.white_to_move)
        } else {
            -(piece_value(k) + entry(k, sq, !s.white_to_move))
        }
    } else {
        0
    }) by {
        lemma_and_bits(cur, s.pieces[k.spec_index()], sq as u64);
    }
}

/// The bitboard of one square.
pub open spec fn square_bit(sq: int) -> u64 {
    1u64 << (sq as u64)
}

/// Index of the colour of the side to move.
pub open spec fn mover_index(s: Snapshot) -> int {
    if s.white_to_move {
        0
    } else {
        1
    }
}

/// `t` is `s` after the piece on the move's source goes to its destination,
/// whatever stood there is removed, and the turn passes; nothing else moves
/// (no castling rook, no promotion, no pawn taken en passant).
pub open spec fn plain_move_result(s: Snapshot, m: Move, t: Snapshot) -> bool {
    let src = square_bit(m.source as int);
    let dst = square_bit(m.dest as int);
    let k = kind_on(s, m.source as int)->0.spec_index();
    let mover = mover_index(s);
    &&& t.white_to_move == !s.white_to_move
    &&& forall|i: int|
        0 <= i < 6 ==> #[trigger] t.pieces[i] == if i == k {
            (s.pieces[i] & !src & !dst) | dst
        } else {
            s.pieces[i] & !dst
        }
    &&& t.colors[mover] == (s.colors[mover] & !src) | dst
    &&& t.colors[1 - mover] == s.colors[1 - mover] & !dst
}

proof fn lemma_move_bits(a: u64, src: u64, dst: u64, q: u64)
    by (bit_vector)
    requires
        src < 64,
        dst < 64,
        q < 64,
        src != dst,
    ensures
        (((a & !(1u64 << src) & !(1u64 << dst)) | (1u64 << dst)) & (1u64 << q) != 0) == (q == dst
            || (q != src && (a & (1u64 << q)) != 0)),
        (((a & !(1u64 << src)) | (1u64 << dst)) & (1u64 << q) != 0) == (q == dst || (q != src && (a
            & (1u64 << q)) != 0)),
        ((a & !(1u64 << dst)) & (1u64 << q) != 0) == (q != dst && (a & (1u64 << q)) != 0),
{
}

proof fn lemma_partition_bit(w: u64, b: u64, p: u64, q: u64)
    by (bit_vector)
    requires
        q < 64,
        w & b == 0,
        p & !(w | b) == 0,
        p & (1u64 << q) != 0,
    ensures
        (w & (1u64 << q) != 0) != (b & (1u64 << q) != 0),
{
}

/// What the plain move changes about one square of the board.
proof fn lemma_plain_move_square(s: Snapshot, m: Move, t: Snapshot, q: int)
    requires
        crate::board::pieces_disjoint(s),
        colors_partition(s),
        m.source < 64,
        m.dest < 64,
        m.source != m.dest,
        kind_on(s, m.source as int) is Some,
        plain_move_result(s, m, t),
        0 <= q < 64,
    ensures
        one_kind_at(t, q),
        q != m.source && q != m.dest ==> kind_on(t, q) == kind_on(s, q),
        q == m.source ==> kind_on(t, q) is None,
        q == m.dest ==> kind_on(t, q) == kind_on(s, m.source as int),
        q != m.source && q != m.dest && kind_on(s, q) is Some ==> has_square(side_bb(t), q)
            == !has_square(side_bb(s), q),
        q == m.dest ==> !has_square(side_bb(t), q),
{
    let src = m.source as u64;
    let dst = m.dest as u64;
    let k = kind_on(s, m.source as int)->0.spec_index();
    lemma_no_two_kinds(s, q);
    lemma_no_two_kinds(s, m.source as int);
    assert forall|i: int| 0 <= i < 6 implies #[trigger] has_square(t.pieces[i], q) == if i == k {
        q == m.dest || (q != m.source && has_square(s.pieces[i], q))
    } else {
        q != m.dest && has_square(s.pieces[i], q)
    } by {
        lemma_move_bits(s.pieces[i], src, dst, q as u64);
    }
    assert(has_square(s.pieces[k], m.source as int));
    assert forall|i: int| 0 <= i < 6 && i != k implies !has_square(#[trigger] s.pieces[i], m.source as int) by {
        if i < k {
            assert(!(has_square(s.pieces[i], m.source as int) && has_square(s.pieces[k], m.source as int)));
        } else {
            assert(!(has_square(s.pieces[k], m.source as int) && has_square(s.pieces[i], m.source as int)));
        }
    }
    let mover = mover_index(s);
    lemma_move_bits(s.colors[mover], src, dst, q as u64);
    lemma_move_bits(s.colors[1 - mover], src, dst, q as u64);
    if q != m.source && q != m.dest && kind_on(s, q) is Some {
        let kq = kind_on(s, q)->0.spec_index();
        assert(has_square(s.pieces[kq], q));
        assert(s.pieces[kq] & !(s.colors[0] | s.colors[1]) == 0);
        lemma_partition_bit(s.colors[0], s.colors[1], s.pieces[kq], q as u64);
    }
}

/// What the plain move does to what one square adds to the evaluation.
proof fn lemma_plain_move_square_score(s: Snapshot, m: Move, t: Snapshot, q: int)
    requires
        crate::board::pieces_disjoint(s),
        colors_partition(s),
        m.source < 64,
        m.dest < 64,
        m.source != m.dest,
        kind_on(s, m.source as int) is Some,
        plain_move_result(s, m, t),
        0 <= q < 64,
    ensures
        square_score(t, q) == if q == m.source {
            0
        } else if q == m.dest {
            -(piece_value(kind_on(s, m.source as int)->0) + entry(
                kind_on(s, m.source as int)->0,
                q,
                s.white_to_move,
            ))
        } else {
            -square_score(s, q)
        },
{
    lemma_plain_move_square(s, m, t, q);
    lemma_no_two_kinds(s, q);
    lemma_square_score_by_occupant(s, q);
    lemma_square_score_by_occupant(t, q);
}

/// Totals of two boards that differ, square by square, only in sign
/// outside two squares.
proof fn lemma_totals_mirror(s: Snapshot, t: Snapshot, a: int, b: int, n: int)
    requires
        0 <= a < 64,
        0 <= b < 64,
        a != b,
        0 <= n <= 64,
        forall|q: int|
            0 <= q < 64 && q != a && q != b ==> #[trigger] square_score(t, q) == -square_score(s, q),
    ensures
        squares_total(t, n) == -squares_total(s, n) + (if a < n {
            square_score(t, a) + square_score(s, a)
        } else {
            0
        }) + (if b < n {
            square_score(t, b) + square_score(s, b)
        } else {
            0
        }),
    decreases n,
{
    if n > 0 {
        lemma_totals_mirror(s, t, a, b, n - 1);
    }
}

/// The evaluation after a plain move, square by square: every square but
/// the two the move touches adds the negation of what it added before.
proof fn lemma_plain_move_totals(s: Snapshot, m: Move, t: Snapshot)
    requires
        crate::board::pieces_disjoint(s),
        colors_partition(s),
        m.source < 64,
        m.dest < 64,
        m.source != m.dest,
        kind_on(s, m.source as int) is Some,
        plain_move_result(s, m, t),
    ensures
        init_eval(t) == -init_eval(s) + square_score(s, m.source as int) + square_score(
            s,
            m.dest as int,
        ) - (piece_value(kind_on(s, m.source as int)->0) + entry(
            kind_on(s, m.source as int)->0,
            m.dest as int,
            s.white_to_move,
        )),
{
    let src = m.source as int;
    let dst = m.dest as int;
    lemma_init_eval_by_squares(s);
    lemma_init_eval_by_squares(t);
    assert forall|q: int|
        0 <= q < 64 && q != src && q != dst implies #[trigger] square_score(t, q) == -square_score(
        s,
        q,
    ) by {
        lemma_plain_move_square_score(s, m, t, q);
    }
    lemma_plain_move_square_score(s, m, t, src);
    lemma_plain_move_square_score(s, m, t, dst);
    lemma_totals_mirror(s, t, src, dst, 64);
}

/// What the squares a move touches add, by what stands on them: the
/// mover's piece on the source, and on the destination the piece `update`
/// counts as captured, if any.
proof fn lemma_touched_squares(s: Snapshot, m: Move)
    requires
        crate::board::pieces_disjoint(s),
        crate::board::combined_is_union(s),
        m.source < 64,
        m.dest < 64,
        kind_on(s, m.source as int) is Some,
        has_square(side_bb(s), m.source as int),
        !has_square(side_bb(s), m.dest as int),
    ensures
        spec_piece_on(s, m.source as int) == kind_on(s, m.source as int),
        square_score(s, m.source as int) == piece_value(kind_on(s, m.source as int)->0) + entry(
            kind_on(s, m.source as int)->0,
            m.source as int,
            s.white_to_move,
        ),
        square_score(s, m.dest as int) == match spec_piece_on(s, m.dest as int) {
            Some(c) => -(piece_value(c) + entry(c, m.dest as int, !s.white_to_move)),
            None => 0,
        },
{
    let src = m.source as int;
    let dst = m.dest as int;
    lemma_no_two_kinds(s, src);
    lemma_no_two_kinds(s, dst);
    lemma_square_score_by_occupant(s, src);
    lemma_square_score_by_occupant(s, dst);
    crate::board::lemma_piece_on_finds_the_piece(s, src);
    crate::board::lemma_piece_on_finds_the_piece(s, dst);
    let k = kind_on(s, src)->0;
    assert(has_square(s.pieces[k.spec_index()], src));
    match kind_on(s, dst) {
        Some(c) => {
            assert(has_square(s.pieces[c.spec_index()], dst));
        },
        None => {
            assert(forall|i: int| 0 <= i < 6 ==> !has_square(#[trigger] s.pieces[i], dst));
        },
    }
}

/// A plain move, one that moves a single piece of the side to move to a
/// square not held by that side and takes whatever stands there, changes the
/// evaluation exactly as `update` says: the board after the move, evaluated
/// for the side then to move, scores the negation of what `update` gives
/// for the mover.  The tracker follows the evaluation move by move.
pub proof fn lemma_update_tracks_plain_moves(s: Snapshot, m: Move, t: Snapshot)
    requires
        crate::board::pieces_disjoint(s),
        crate::board::combined_is_union(s),
        colors_partition(s),
        m.source < 64,
        m.dest < 64,
        m.source != m.dest,
        kind_on(s, m.source as int) is Some,
        has_square(side_bb(s), m.source as int),
        !has_square(side_bb(s), m.dest as int),
        plain_move_result(s, m, t),
    ensures
        init_eval(t) == -update_eval(init_eval(s), s, m),
{
    lemma_plain_move_totals(s, m, t);
    lemma_touched_squares(s, m);
}

proof fn lemma_toggle_bits(p: u64, a: u64, b: u64)
    by (bit_vector)
    requires
        a < 64,
        b < 64,
        a != b,
    ensures
        p & (1u64 << a) != 0 && p & (1u64 << b) != 0 ==> p ^ (1u64 << a) ^ (1u64 << b) ^ (1u64
            << b) == (p & !(1u64 << a) & !(1u64 << b)) | (1u64 << b),
        p & (1u64 << a) != 0 && p & (1u64 << b) == 0 ==> p ^ (1u64 << a) ^ (1u64 << b) == (p & !(
        1u64 << a) & !(1u64 << b)) | (1u64 << b),
        p & (1u64 << a) != 0 && p & (1u64 << b) == 0 ==> p ^ (1u64 << a) ^ (1u64 << b) == (p & !(
        1u64 << a)) | (1u64 << b),
        p & (1u64 << b) != 0 ==> p ^ (1u64 << b) == p & !(1u64 << b),
        p & (1u64 << b) == 0 ==> p == p & !(1u64 << b),
{
}

proof fn lemma_union_bit(c0: u64, c1: u64, b: u64)
    by (bit_vector)
    requires
        b < 64,
    ensures
        ((c0 | c1) & (1u64 << b) != 0) == ((c0 & (1u64 << b) != 0) || (c1 & (1u64 << b) != 0)),
{
}

/// Every square of either colour holds a piece.
pub open spec fn colors_cover(s: Snapshot) -> bool {
    s.colors[0] | s.colors[1] == s.combined
}

/// The incremental update follows the crate's moves.  A simple move (one
/// the crate plays by moving one piece and taking what stands on the
/// destination, see `simple_move`) of a piece of the side to move to a
/// square that side does not hold, on a board whose piece bitboards are
/// disjoint and make up the board and whose colours split it: the board the
/// crate leaves, with the pieces and colours that `Position::make_move`
/// ensures for such a move, scores for the side then to move the negation
/// of what `update` gives for the mover.
pub proof fn lemma_update_tracks_simple_moves(s: Snapshot, m: Move, t: Snapshot)
    requires
        crate::board::pieces_disjoint(s),
        crate::board::combined_is_union(s),
        colors_partition(s),
        colors_cover(s),
        m.source < 64,
        m.dest < 64,
        m.source != m.dest,
        has_square(side_bb(s), m.source as int),
        !has_square(side_bb(s), m.dest as int),
        crate::board::simple_move_result(s, m, t),
    ensures
        init_eval(t) == -update_eval(init_eval(s), s, m),
{
    let src = m.source as int;
    let dst = m.dest as int;
    let me = mover_index(s);
    crate::board::lemma_piece_on_finds_the_piece(s, src);
    crate::board::lemma_piece_on_finds_the_piece(s, dst);
    lemma_union_bit(s.colors[0], s.colors[1], m.source as u64);
    lemma_union_bit(s.colors[0], s.colors[1], m.dest as u64);
    assert(has_square(s.combined, src));
    let moved = spec_piece_on(s, src)->Some_0;
    let k = moved.spec_index();
    assert(has_square(s.pieces[k], src));
    assert(kind_on(s, src) == Some(moved)) by {
        assert forall|i: int| 0 <= i < k implies !has_square(#[trigger] s.pieces[i], src) by {
            assert(s.pieces[i] & s.pieces[k] == 0);
            crate::board::lemma_disjoint_bit(s.pieces[i], s.pieces[k], m.source as u64);
        }
    }
    assert forall|i: int| 0 <= i < 6 implies #[trigger] t.pieces[i] == if i == k {
        (s.pieces[i] & !square_bit(src) & !square_bit(dst)) | square_bit(dst)
    } else {
        s.pieces[i] & !square_bit(dst)
    } by {
        lemma_toggle_bits(s.pieces[i], m.source as u64, m.dest as u64);
        let cap = spec_piece_on(s, dst);
        assert((cap matches Some(c) && i == c.spec_index()) == has_square(s.pieces[i], dst)) by {
            if has_square(s.pieces[i], dst) {
                let c = PieceKind::from_index(i);
                assert(c.spec_index() == i);
            }
        }
        if i != k {
            assert(!has_square(s.pieces[i], src)) by {
                if i < k {
                    assert(s.pieces[i] & s.pieces[k] == 0);
                    crate::board::lemma_disjoint_bit(s.pieces[i], s.pieces[k], m.source as u64);
                } else {
                    assert(s.pieces[k] & s.pieces[i] == 0);
                    crate::board::lemma_disjoint_bit(s.pieces[k], s.pieces[i], m.source as u64);
                }
            }
        }
    }
    lemma_toggle_bits(s.colors[me], m.source as u64, m.dest as u64);
    lemma_toggle_bits(s.colors[1 - me], m.source as u64, m.dest as u64);
    assert(s.colors[0] & s.colors[1] == 0);
    crate::board::lemma_disjoint_bit(s.colors[0], s.colors[1], m.dest as u64);
    assert(plain_move_result(s, m, t));
    lemma_update_tracks_plain_moves(s, m, t);
}

} // verus!
