//! Where the `chess` crate's FEN reader does not return.  The crate first
//! reads a record into a `BoardBuilder` (the piece on each square and the
//! side to move) and then builds the board.  Building it looks up the square
//! of the king of the side to move without checking that there is one: a
//! record that places no such king makes it read past its tables.  This
//! module reads the record with the crate's `BoardBuilder::from_str` and
//! tells such records apart.
use crate::board::piece_kind_of;
use crate::pst::PieceKind;
use chess::{BoardBuilder, Color, ALL_SQUARES};
use std::str::FromStr;
use vstd::prelude::*;

verus! {

#[verifier::external_type_specification]
#[verifier::external_body]
pub struct ExBoardBuilder(chess::BoardBuilder);

/// What the crate's `BoardBuilder::from_str` reads from a FEN record: for
/// each square from a1 to h8 the piece on it and whether it is white, and
/// whether white is to move; `None` where it refuses the record.
pub uninterp spec fn spec_fen_placement(fen: Seq<char>) -> Option<(Seq<Option<(PieceKind, bool)>>, bool)>;

/// `BoardBuilder::from_str`: reads a FEN record into the piece on each
/// square (64 of them) and the side to move, or refuses it.
#[verifier::external_body]
fn read_placement(fen: &str) -> (r: Option<(Vec<Option<(PieceKind, bool)>>, bool)>)
    ensures
        r is Some <==> spec_fen_placement(fen@) is Some,
        r matches Some((squares, white)) ==> spec_fen_placement(fen@) == Some((squares@, white))
            && squares@.len() == 64,
{
    let builder = BoardBuilder::from_str(fen).ok()?;
    let squares = ALL_SQUARES.iter().map(|sq| builder[*sq].map(|(p, c)| (piece_kind_of(p), c == Color::White))).collect();
    Some((squares, builder.get_side_to_move() == Color::White))
}

/// No square holds the king of the side to move.
pub open spec fn no_king_to_move(squares: Seq<Option<(PieceKind, bool)>>, white: bool) -> bool {
    forall|sq: int| 0 <= sq < squares.len() ==> #[trigger] squares[sq] != Some((PieceKind::King, white))
}

/// The crate reads the record up to building the board, and the board has
/// no king of the side to move.
pub open spec fn lacks_king_to_move(fen: Seq<char>) -> bool {
    spec_fen_placement(fen) matches Some((squares, white)) && no_king_to_move(squares, white)
}

/// Whether the crate's FEN reader would build a board with no king of the
/// side to move, the records on which it does not return.
pub fn fen_lacks_king_to_move(fen: &str) -> (r: bool)
    ensures
        r == lacks_king_to_move(fen@),
{
    match read_placement(fen) {
        None => false,
        Some((squares, white)) => {
            let mut sq: usize = 0;
            while sq < squares.len()
                invariant
                    sq <= squares@.len(),
                    spec_fen_placement(fen@) == Some((squares@, white)),
                    forall|j: int| 0 <= j < sq ==> squares@[j] != Some((PieceKind::King, white)),
                decreases squares@.len() - sq,
            {
                let found = match squares[sq] {
                    Some((kind, w)) => kind == PieceKind::King && w == white,
                    None => false,
                };
                if found {
                    assert(squares@[sq as int] == Some((PieceKind::King, white)));
                    assert(!no_king_to_move(squares@, white));
                    assert(spec_fen_placement(fen@) == Some((squares@, white)));
                    return false;
                }
                sq += 1;
            }
            true
        },
    }
}

} // verus!
