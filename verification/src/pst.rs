use vstd::prelude::*;

verus! {

/// The six kinds of chess pieces, in the order the `chess` crate indexes them.
#[derive(Clone, Copy, Debug, PartialEq, Eq, Structural)]
pub enum PieceKind {
    Pawn,
    Knight,
    Bishop,
    Rook,
    Queen,
    King,
}

impl PieceKind {
    /// Index of the kind, 0 for pawns up to 5 for kings.
    pub open spec fn spec_index(self) -> int {
        match self {
            PieceKind::Pawn => 0,
            PieceKind::Knight => 1,
            PieceKind::Bishop => 2,
            PieceKind::Rook => 3,
            PieceKind::Queen => 4,
            PieceKind::King => 5,
        }
    }

    /// The kind with a given index.
    pub open spec fn from_index(i: int) -> PieceKind {
        if i == 0 {
            PieceKind::Pawn
        } else if i == 1 {
            PieceKind::Knight
        } else if i == 2 {
            PieceKind::Bishop
        } else if i == 3 {
            PieceKind::Rook
        } else if i == 4 {
            PieceKind::Queen
        } else {
            PieceKind::King
        }
    }

    pub fn index(&self) -> (r: usize)
        ensures
            r == self.spec_index(),
            r < 6,
    {
        match self {
            PieceKind::Pawn => 0,
            PieceKind::Knight => 1,
            PieceKind::Bishop => 2,
            PieceKind::Rook => 3,
            PieceKind::Queen => 4,
            PieceKind::King => 5,
        }
    }
}

/// Material value of a piece kind in centipawns; the king counts for nothing.
pub open spec fn piece_value(piece: PieceKind) -> int {
    match piece {
        PieceKind::Pawn => 100,
        PieceKind::Knight => 300,
        PieceKind::Bishop => 325,
        PieceKind::Rook => 500,
        PieceKind::Queen => 900,
        PieceKind::King => 0,
    }
}

/// Material value of a piece kind.
pub fn get_piece_value(piece: PieceKind) -> (r: i32)
    ensures
        r == piece_value(piece),
{
    match piece {
        PieceKind::Pawn => 100,
        PieceKind::Knight => 300,
        PieceKind::Bishop => 325,
        PieceKind::Rook => 500,
        PieceKind::Queen => 900,
        _ => 0,
    }
}

/// Piece-square bonus for pawns, indexed from the point of view of the side
/// whose pieces are read (index 0 is square h8 as seen from white).
pub const PAWN_PST: [i32; 64] = [
     0,  0,  0,  0,  0,  0,  0,  0,
    50, 50, 50, 50, 50, 50, 50, 50,
    10, 10, 20, 30, 30, 20, 10, 10,
     5,  5, 10, 25, 25, 10,  5,  5,
     0,  0,  0, 20, 20,  0,  0,  0,
     5, -5,-10,  0,  0,-10, -5,  5,
     5, 10, 10,-20,-20, 10, 10,  5,
     0,  0,  0,  0,  0,  0,  0,  0,
];

/// Piece-square bonus for knights.
pub const KNIGHT_PST: [i32; 64] = [
    -50,-40,-30,-30,-30,-30,-40,-50,
    -40,-20,  0,  0,  0,  0,-20,-40,
    -30,  0, 10, 15, 15, 10,  0,-30,
    -30,  5, 15, 20, 20, 15,  5,-30,
    -30,  0, 15, 20, 20, 15,  0,-30,
    -30,  5, 10, 15, 15, 10,  5,-30,
    -40,-20,  0,  5,  5,  0,-20,-40,
    -50,-40,-30,-30,-30,-30,-40,-50,
];

/// Piece-square bonus for bishops.
pub const BISHOP_PST: [i32; 64] = [
    -20,-10,-10,-10,-10,-10,-10,-20,
    -10,  0,  0,  0,  0,  0,  0,-10,
    -10,  0,  5, 10, 10,  5,  0,-10,
    -10,  5,  5, 10, 10,  5,  5,-10,
    -10,  0, 10, 10, 10, 10,  0,-10,
    -10, 10, 10, 10, 10, 10, 10,-10,
    -10,  5,  0,  0,  0,  0,  5,-10,
    -20,-10,-10,-10,-10,-10,-10,-20,
];

/// Piece-square bonus for rooks.
pub const ROOK_PST: [i32; 64] = [
      0,  0,  0,  0,  0,  0,  0,  0,
      5, 10, 10, 10, 10, 10, 10,  5,
     -5,  0,  0,  0,  0,  0,  0, -5,
     -5,  0,  0,  0,  0,  0,  0, -5,
     -5,  0,  0,  0,  0,  0,  0, -5,
     -5,  0,  0,  0,  0,  0,  0, -5,
     -5,  0,  0,  0,  0,  0,  0, -5,
      0,  0,  0,  5,  5,  0,  0,  0,
];

/// Piece-square bonus for queens.
pub const QUEEN_PST: [i32; 64] = [
    -20,-10,-10, -5, -5,-10,-10,-20,
    -10,  0,  0,  0,  0,  0,  0,-10,
    -10,  0,  5,  5,  5,  5,  0,-10,
     -5,  0,  5,  5,  5,  5,  0, -5,
      0,  0,  5,  5,  5,  5,  0, -5,
    -10,  5,  5,  5,  5,  5,  0,-10,
    -10,  0,  5,  0,  0,  0,  0,-10,
    -20,-10,-10, -5, -5,-10,-10,-20,
];

/// Piece-square bonus for kings.
pub const KING_PST: [i32; 64] = [
    -30,-40,-40,-50,-50,-40,-40,-30,
    -30,-40,-40,-50,-50,-40,-40,-30,
    -30,-40,-40,-50,-50,-40,-40,-30,
    -30,-40,-40,-50,-50,-40,-40,-30,
    -20,-30,-30,-40,-40,-30,-30,-20,
    -10,-20,-20,-20,-20,-20,-20,-10,
     20, 20,  0,  0,  0,  0, 20, 20,
     20, 30, 10,  0,  0, 10, 30, 20,
];

/// The piece-square table of a piece kind.
pub open spec fn table_of(piece: PieceKind) -> Seq<i32> {
    match piece {
        PieceKind::Pawn => PAWN_PST@,
        PieceKind::Knight => KNIGHT_PST@,
        PieceKind::Bishop => BISHOP_PST@,
        PieceKind::Rook => ROOK_PST@,
        PieceKind::Queen => QUEEN_PST@,
        PieceKind::King => KING_PST@,
    }
}

/// Entry of a table for a square: tables are written for white, so white
/// reads them mirrored (`63 - square`) and black reads them as they stand.
pub open spec fn table_entry(pst: Seq<i32>, square: int, white: bool) -> int {
    if white {
        pst[63 - square] as int
    } else {
        pst[square] as int
    }
}

/// Whether square `sq` (0 = a1 ... 63 = h8) is set in bitboard `bb`.
pub open spec fn has_square(bb: u64, sq: int) -> bool {
    bb & (1u64 << (sq as u64)) != 0
}

/// What one square contributes to a table query: the default value plus the
/// table entry when the square is set, nothing otherwise.
pub open spec fn pst_term(bb: u64, default_val: int, pst: Seq<i32>, white: bool, sq: int) -> int {
    if has_square(bb, sq) {
        default_val + table_entry(pst, sq, white)
    } else {
        0
    }
}

/// Sum of the contributions of squares `0 .. n`.
pub open spec fn pst_sum(bb: u64, default_val: int, pst: Seq<i32>, white: bool, n: int) -> int
    decreases n,
{
    if n <= 0 {
        0
    } else {
        pst_sum(bb, default_val, pst, white, n - 1) + pst_term(bb, default_val, pst, white, n - 1)
    }
}

pub open spec fn fits_i32(x: int) -> bool {
    i32::MIN <= x <= i32::MAX
}

/// The query of a table over a bitboard can be computed in `i32`: every
/// partial sum, and the contribution of every square set, fits.
pub open spec fn pst_sum_fits(bb: u64, default_val: int, pst: Seq<i32>, white: bool) -> bool {
    &&& forall|n: int| 0 <= n <= 64 ==> fits_i32(#[trigger] pst_sum(bb, default_val, pst, white, n))
    &&& forall|sq: int|
        0 <= sq < 64 && has_square(bb, sq) ==> fits_i32(
            default_val + #[trigger] table_entry(pst, sq, white),
        )
}

proof fn lemma_query_mirrors_prefix(bb: u64, mirrored: u64, default_val: int, pst: Seq<i32>, n: int)
    requires
        0 <= n <= 64,
        forall|sq: int| 0 <= sq < 64 ==> #[trigger] has_square(mirrored, sq) == has_square(bb, 63 - sq),
    ensures
        pst_sum(bb, default_val, pst, true, n) + pst_sum(mirrored, default_val, pst, false, 64 - n)
            == pst_sum(mirrored, default_val, pst, false, 64),
    decreases n,
{
    if n > 0 {
        lemma_query_mirrors_prefix(bb, mirrored, default_val, pst, n - 1);
        assert(has_square(mirrored, 64 - n) == has_square(bb, n - 1));
        assert(pst_term(bb, default_val, pst, true, n - 1) == pst_term(
            mirrored,
            default_val,
            pst,
            false,
            64 - n,
        ));
    }
}

/// White reads a table on the board turned around: a query for white over a
/// bitboard equals the query for black over the bitboard with every square
/// `sq` moved to `63 - sq` (the bits reversed).
pub proof fn lemma_query_mirrors(bb: u64, mirrored: u64, default_val: int, pst: Seq<i32>)
    requires
        forall|sq: int| 0 <= sq < 64 ==> #[trigger] has_square(mirrored, sq) == has_square(bb, 63 - sq),
    ensures
        pst_sum(bb, default_val, pst, true, 64) == pst_sum(mirrored, default_val, pst, false, 64),
{
    lemma_query_mirrors_prefix(bb, mirrored, default_val, pst, 64);
}

/// Sums, over the squares set in `bitboard`, `default_val` plus the table entry
/// of that square, read mirrored for white.
pub fn query_pst(bitboard: u64, default_val: i32, pst: [i32; 64], white: bool) -> (r: i32)
    requires
        pst_sum_fits(bitboard, default_val as int, pst@, white),
    ensures
        r == pst_sum(bitboard, default_val as int, pst@, white, 64),
{
    let mut val: i32 = 0;
    let mut index: u64 = 0;
    while index < 64
        invariant
            index <= 64,
            val == pst_sum(bitboard, default_val as int, pst@, white, index as int),
            pst_sum_fits(bitboard, default_val as int, pst@, white),
        decreases 64 - index,
    {
        proof {
            assert(fits_i32(pst_sum(bitboard, default_val as int, pst@, white, index + 1)));
        }
        if (bitboard & (1u64 << index)) != 0 {
            assert(fits_i32(default_val + table_entry(pst@, index as int, white)));
            let entry = if white {
                pst[63 - index as usize]
            } else {
                pst[index as usize]
            };
            val += default_val + entry;
        }
        index += 1;
    }
    val
}

/// Table entry of `piece` on `square`, mirrored for white.
pub fn query_pst_single(piece: PieceKind, square: usize, white: bool) -> (r: i32)
    requires
        square < 64,
    ensures
        r == table_entry(table_of(piece), square as int, white),
{
    let index = if white {
        63 - square
    } else {
        square
    };
    let table = match piece {
        PieceKind::Pawn => PAWN_PST,
        PieceKind::Knight => KNIGHT_PST,
        PieceKind::Bishop => BISHOP_PST,
        PieceKind::Rook => ROOK_PST,
        PieceKind::Queen => QUEEN_PST,
        PieceKind::King => KING_PST,
    };
    table[index]
}

/// Every entry of every piece-square table lies in `-50 ..= 50`.
pub proof fn lemma_tables_bounded(piece: PieceKind)
    ensures
        forall|i: int| 0 <= i < 64 ==> -50 <= #[trigger] table_of(piece)[i] <= 50,
        table_of(piece).len() == 64,
{
}

/// Sums of a bounded table over any bitboard stay within `-50 n ..= 1050 n`.
pub proof fn lemma_pst_sum_bounds(bb: u64, default_val: int, pst: Seq<i32>, white: bool, n: int)
    requires
        0 <= default_val <= 1000,
        pst.len() == 64,
        forall|i: int| 0 <= i < 64 ==> -50 <= #[trigger] pst[i] <= 50,
        0 <= n <= 64,
    ensures
        -50 * n <= pst_sum(bb, default_val, pst, white, n) <= 1050 * n,
    decreases n,
{
    if n > 0 {
        lemma_pst_sum_bounds(bb, default_val, pst, white, n - 1);
        let sq = n - 1;
        if white {
            assert(-50 <= pst[63 - sq] <= 50);
        } else {
            assert(-50 <= pst[sq] <= 50);
        }
    }
}

/// Querying a piece's own table with a default of at most 1000 never
/// overflows, whatever the bitboard; the result lies in `-3200 ..= 67200`.
pub proof fn lemma_table_query_fits(bb: u64, piece: PieceKind, default_val: int, white: bool)
    requires
        0 <= default_val <= 1000,
    ensures
        pst_sum_fits(bb, default_val, table_of(piece), white),
        -3200 <= pst_sum(bb, default_val, table_of(piece), white, 64) <= 67200,
{
    lemma_tables_bounded(piece);
    let pst = table_of(piece);
    assert forall|n: int| 0 <= n <= 64 implies fits_i32(
        #[trigger] pst_sum(bb, default_val, pst, white, n),
    ) by {
        lemma_pst_sum_bounds(bb, default_val, pst, white, n);
    }
    assert forall|sq: int| 0 <= sq < 64 implies fits_i32(
        default_val + #[trigger] table_entry(pst, sq, white),
    ) by {
        if white {
            assert(-50 <= pst[63 - sq] <= 50);
        } else {
            assert(-50 <= pst[sq] <= 50);
        }
    }
    lemma_pst_sum_bounds(bb, default_val, pst, white, 64);
}

} // verus!
