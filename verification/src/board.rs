//! Positions, moves and the calls into the `chess` crate that generate and
//! play moves.
//!
//! A `Position` carries the crate's `Board` together with a snapshot of every
//! field of it as plain values: piece and colour bitboards, side to move,
//! castling rights, en-passant square, the checking and pinned pieces, and the
//! hash.  The snapshot is read from the board when the position is made and
//! never changes afterwards.  Since it holds every field, what the crate
//! computes from a board is a function of the snapshot, and the contracts
//! below name it that way.
use crate::fen::{fen_lacks_king_to_move, lacks_king_to_move};
use crate::pst::{has_square, PieceKind};
use chess::{Board, BoardStatus, ChessMove, Color, MoveGen, Piece, ALL_PIECES, ALL_SQUARES};
use std::str::FromStr;
use vstd::prelude::*;

verus! {

#[verifier::external_type_specification]
#[verifier::external_body]
pub struct ExBoard(chess::Board);

#[verifier::external_type_specification]
#[verifier::external_body]
pub struct ExChessMove(chess::ChessMove);

#[verifier::external_type_specification]
#[verifier::external_body]
pub struct ExPiece(chess::Piece);

#[verifier::external_type_specification]
#[verifier::external_body]
pub struct ExChessError(chess::Error);

/// A move in plain values: squares are numbered 0 (a1) to 63 (h8).
#[derive(Clone, Copy, Debug, PartialEq, Eq, Structural)]
pub struct Move {
    pub source: u8,
    pub dest: u8,
    pub promotion: Option<PieceKind>,
}

/// Whether a game goes on, or has ended in stalemate or checkmate.
#[derive(Clone, Copy, Debug, PartialEq, Eq, Structural)]
pub enum GameStatus {
    Ongoing,
    Stalemate,
    Checkmate,
}

/// Why a `position` command cannot be set up.
#[derive(Clone, Copy, Debug, PartialEq, Eq, Structural)]
pub enum SetupError {
    /// The crate refuses the FEN record.
    InvalidFen,
    /// The crate refuses a move text.
    InvalidMove,
    /// A move starts on an empty square.
    NoPieceOnSource,
    /// The crate cannot play the move: it would take the last king of the
    /// side not moving, or leave a side without a king.
    KingLost,
    /// The side to move has more pieces than the crate's move generator
    /// can list.
    TooManyPieces,
}

/// The plain values of a board: every field of the crate's `Board`.
#[derive(Clone, Copy, Debug)]
pub struct Snapshot {
    /// Bitboards of pawns, knights, bishops, rooks, queens and kings.
    pub pieces: [u64; 6],
    /// Bitboards of the white and of the black pieces.
    pub colors: [u64; 2],
    /// Bitboard of every piece.
    pub combined: u64,
    pub white_to_move: bool,
    /// Castling rights of white and black: 0 none, 1 king side, 2 queen side, 3 both.
    pub castle: [u8; 2],
    pub en_passant: Option<u8>,
    /// Bitboard of the pieces giving check to the side to move.
    pub checkers: u64,
    /// Bitboard of the pieces of the side to move pinned to its king.
    pub pinned: u64,
    pub hash: u64,
}

/// A board of the `chess` crate with the snapshot read from it.
#[derive(Clone, Copy)]
pub struct Position {
    board: Board,
    snap: Snapshot,
}

impl View for Position {
    type V = Snapshot;

    closed spec fn view(&self) -> Snapshot {
        self.snap
    }
}

/// Bitboard of the pieces of the side to move.
pub open spec fn side_bb(s: Snapshot) -> u64 {
    if s.white_to_move {
        s.colors[0]
    } else {
        s.colors[1]
    }
}

/// A snapshot's plain values are in range.
pub open spec fn snapshot_wf(s: Snapshot) -> bool {
    &&& s.castle[0] < 4
    &&& s.castle[1] < 4
    &&& (s.en_passant matches Some(sq) ==> sq < 64)
}

/// The side of the given colour has a king on the board.
pub open spec fn has_king(s: Snapshot, white: bool) -> bool {
    s.pieces[5] & (if white {
        s.colors[0]
    } else {
        s.colors[1]
    }) != 0
}

/// Both sides have a king: the crate looks up the king of either side
/// without checking that there is one.
pub open spec fn kings_present(s: Snapshot) -> bool {
    has_king(s, true) && has_king(s, false)
}

/// The number of squares among `0 .. n` set in a bitboard.
pub open spec fn bit_count(bb: u64, n: int) -> nat
    decreases n,
{
    if n <= 0 {
        0
    } else {
        bit_count(bb, n - 1) + if has_square(bb, n - 1) {
            1nat
        } else {
            0nat
        }
    }
}

/// How many pieces the side to move has, counted kind by kind.
pub open spec fn side_piece_count(s: Snapshot) -> nat {
    bit_count(s.pieces[0] & side_bb(s), 64) + bit_count(s.pieces[1] & side_bb(s), 64) + bit_count(
        s.pieces[2] & side_bb(s),
        64,
    ) + bit_count(s.pieces[3] & side_bb(s), 64) + bit_count(s.pieces[4] & side_bb(s), 64)
        + bit_count(s.pieces[5] & side_bb(s), 64)
}

/// The crate's move generator keeps, in a list of 18 entries that it does
/// not check, one entry for each piece of the side to move (kind by kind)
/// that has a move, and up to two more for captures en passant: the side to
/// move has at most 16 pieces.
pub open spec fn fits_move_list(s: Snapshot) -> bool {
    side_piece_count(s) <= 16
}

/// The crate can work on the board: both sides have a king, and the side to
/// move has few enough pieces for the move generator.
pub open spec fn sound(s: Snapshot) -> bool {
    kings_present(s) && fits_move_list(s)
}

/// The legal moves of the position the snapshot describes, in the order the
/// crate's move generator yields them.
pub uninterp spec fn spec_legal_moves(s: Snapshot) -> Seq<Move>;

/// The board the crate's `make_move_new` makes of a board and a move.
pub uninterp spec fn spec_after_move(s: Snapshot, m: Move) -> Snapshot;

/// The board the crate's `null_move` makes of a board: the other side to
/// move, no en-passant square, and the checks and pins worked out anew.
pub uninterp spec fn spec_null_move(s: Snapshot) -> Snapshot;

/// The board the crate's `Board::from_str` builds from a FEN record, or
/// `None` where it refuses the record.
pub uninterp spec fn spec_fen_board(fen: Seq<char>) -> Option<Snapshot>;

/// The FEN record of the initial position.
pub open spec fn start_fen() -> Seq<char> {
    "rnbqkbnr/pppppppp/8/8/8/8/PPPPPPPP/RNBQKBNR w KQkq - 0 1"@
}

/// Status of a position from the number of legal moves and whether the side
/// to move is in check.
pub open spec fn status_of(num_moves: nat, in_check: bool) -> GameStatus {
    if num_moves == 0 {
        if in_check {
            GameStatus::Checkmate
        } else {
            GameStatus::Stalemate
        }
    } else {
        GameStatus::Ongoing
    }
}

/// Status of the position a snapshot describes.
pub open spec fn spec_status(s: Snapshot) -> GameStatus {
    status_of(spec_legal_moves(s).len(), s.checkers != 0)
}

/// What the crate's `Board::piece_on` answers for a square: nothing on an
/// empty square, else the kind found by its two-step bitboard test.
pub open spec fn spec_piece_on(s: Snapshot, sq: int) -> Option<PieceKind> {
    if !has_square(s.combined, sq) {
        None
    } else if has_square(s.pieces[0] ^ s.pieces[1] ^ s.pieces[2], sq) {
        if has_square(s.pieces[0], sq) {
            Some(PieceKind::Pawn)
        } else if has_square(s.pieces[1], sq) {
            Some(PieceKind::Knight)
        } else {
            Some(PieceKind::Bishop)
        }
    } else {
        if has_square(s.pieces[3], sq) {
            Some(PieceKind::Rook)
        } else if has_square(s.pieces[4], sq) {
            Some(PieceKind::Queen)
        } else {
            Some(PieceKind::King)
        }
    }
}

/// Converts a piece kind to the crate's piece.
#[verifier::external_body]
fn chess_piece_of(kind: PieceKind) -> Piece {
    match kind {
        PieceKind::Pawn => Piece::Pawn,
        PieceKind::Knight => Piece::Knight,
        PieceKind::Bishop => Piece::Bishop,
        PieceKind::Rook => Piece::Rook,
        PieceKind::Queen => Piece::Queen,
        PieceKind::King => Piece::King,
    }
}

/// Converts the crate's piece to a piece kind.
#[verifier::external_body]
pub(crate) fn piece_kind_of(piece: Piece) -> PieceKind {
    match piece {
        Piece::Pawn => PieceKind::Pawn,
        Piece::Knight => PieceKind::Knight,
        Piece::Bishop => PieceKind::Bishop,
        Piece::Rook => PieceKind::Rook,
        Piece::Queen => PieceKind::Queen,
        Piece::King => PieceKind::King,
    }
}

/// Converts the crate's `ChessMove` into a `Move` through `get_source`,
/// `get_dest` and `get_promotion`; the crate's squares are always below 64.
#[verifier::external_body]
fn move_of(m: ChessMove) -> (r: Move)
    ensures
        r.source < 64,
        r.dest < 64,
{
    Move {
        source: m.get_source().to_int(),
        dest: m.get_dest().to_int(),
        promotion: m.get_promotion().map(piece_kind_of),
    }
}

/// Reads every field of a board through the crate's accessors `pieces`,
/// `color_combined`, `combined`, `side_to_move`, `castle_rights` (by its
/// index, below 4), `en_passant` (a square, below 64), `checkers`, `pinned`
/// and `get_hash`.
#[verifier::external_body]
fn snapshot_of(board: &Board) -> (r: Snapshot)
    ensures
        snapshot_wf(r),
{
    let mut pieces = [0u64; 6];
    for (i, p) in ALL_PIECES.iter().enumerate() {
        pieces[i] = board.pieces(*p).0;
    }
    Snapshot {
        pieces,
        colors: [board.color_combined(Color::White).0, board.color_combined(Color::Black).0],
        combined: board.combined().0,
        white_to_move: board.side_to_move() == Color::White,
        castle: [board.castle_rights(Color::White).to_index() as u8, board.castle_rights(Color::Black).to_index() as u8],
        en_passant: board.en_passant().map(|sq| sq.to_int()),
        checkers: board.checkers().0,
        pinned: board.pinned().0,
        hash: board.get_hash(),
    }
}

/// The piece and colour bitboards of the initial position.
pub open spec fn initial_bitboards(s: Snapshot) -> bool {
    &&& s.pieces[0] == 0x00ff_0000_0000_ff00u64
    &&& s.pieces[1] == 0x4200_0000_0000_0042u64
    &&& s.pieces[2] == 0x2400_0000_0000_0024u64
    &&& s.pieces[3] == 0x8100_0000_0000_0081u64
    &&& s.pieces[4] == 0x0800_0000_0000_0008u64
    &&& s.pieces[5] == 0x1000_0000_0000_0010u64
    &&& s.colors[0] == 0x0000_0000_0000_ffffu64
    &&& s.colors[1] == 0xffff_0000_0000_0000u64
    &&& s.combined == 0xffff_0000_0000_ffffu64
}

proof fn lemma_initial_kings(kings: u64, white: u64, black: u64)
    by (bit_vector)
    requires
        kings == 0x1000_0000_0000_0010u64,
        white == 0x0000_0000_0000_ffffu64,
        black == 0xffff_0000_0000_0000u64,
    ensures
        kings & white != 0,
        kings & black != 0,
{
}

/// `Board::default`, the initial position: the crate builds it with
/// `Board::from_str` from the initial FEN record, which it accepts.  Its
/// pieces, colours and rights are those of the initial position, white to
/// move, nobody in check or pinned.
#[verifier::external_body]
fn initial_position() -> (r: Position)
    ensures
        spec_fen_board(start_fen()) == Some(r@),
        snapshot_wf(r@),
        initial_bitboards(r@),
        r@.white_to_move,
        r@.castle == [3u8, 3u8],
        r@.en_passant is None,
        r@.checkers == 0,
        r@.pinned == 0,
{
    let board = Board::default();
    Position { board, snap: snapshot_of(&board) }
}

/// `Board::from_str`: parses a FEN record.  On a record that places no king
/// of the side to move the crate reads past its tables while building the
/// board, so such records are left out.  A board it returns passed its
/// sanity check, which asks for one king of each side.
#[verifier::external_body]
fn board_from_fen(fen: &str) -> (r: Result<Position, chess::Error>)
    requires
        !lacks_king_to_move(fen@),
    ensures
        r is Ok <==> spec_fen_board(fen@) is Some,
        r matches Ok(p) ==> spec_fen_board(fen@) == Some(p@) && snapshot_wf(p@) && kings_present(
            p@,
        ),
{
    let board = Board::from_str(fen)?;
    Ok(Position { board, snap: snapshot_of(&board) })
}

/// A file letter `a` to `h`.
pub open spec fn is_file(c: char) -> bool {
    'a' <= c <= 'h'
}

/// A rank digit `1` to `8`.
pub open spec fn is_rank(c: char) -> bool {
    '1' <= c <= '8'
}

/// The square a file letter and a rank digit name.
pub open spec fn square_of(file: char, rank: char) -> int {
    (rank as int - '1' as int) * 8 + (file as int - 'a' as int)
}

/// The promotion a fifth character names.
pub open spec fn promotion_of(c: char) -> Option<PieceKind> {
    if c == 'q' {
        Some(PieceKind::Queen)
    } else if c == 'r' {
        Some(PieceKind::Rook)
    } else if c == 'n' {
        Some(PieceKind::Knight)
    } else if c == 'b' {
        Some(PieceKind::Bishop)
    } else {
        None
    }
}

/// The move a text in UCI notation ("e2e4", "e7e8q") denotes, as the crate's
/// `ChessMove::from_str` reads it: two squares, then a promotion to queen,
/// rook, knight or bishop exactly when the text is five bytes long (its fifth
/// character is then ASCII); other characters after the squares are
/// ignored.  `None` where the crate refuses the text.
pub open spec fn spec_uci_move(t: Seq<char>) -> Option<Move> {
    if t.len() >= 4 && is_file(t[0]) && is_rank(t[1]) && is_file(t[2]) && is_rank(t[3]) {
        let source = square_of(t[0], t[1]) as u8;
        let dest = square_of(t[2], t[3]) as u8;
        if t.len() == 5 && (t[4] as u32) < 128 {
            match promotion_of(t[4]) {
                Some(p) => Some(Move { source, dest, promotion: Some(p) }),
                None => None,
            }
        } else {
            Some(Move { source, dest, promotion: None })
        }
    } else {
        None
    }
}

/// `ChessMove::from_str`: parses a move in UCI notation, as `spec_uci_move`
/// says.
#[verifier::external_body]
fn chess_move_from_str(text: &str) -> (r: Result<Move, chess::Error>)
    ensures
        r is Ok <==> spec_uci_move(text@) is Some,
        r matches Ok(m) ==> spec_uci_move(text@) == Some(m),
{
    ChessMove::from_str(text).map(move_of)
}

/// `MoveGen::new_legal`: the legal moves of the position, in the order the
/// generator yields them.  The generator looks up the king of the side to
/// move.  Every move starts on a square that holds a piece.
#[verifier::external_body]
fn generate_legal_moves(pos: &Position) -> (r: Vec<Move>)
    requires
        sound(pos@),
    ensures
        r@ == spec_legal_moves(pos@),
        forall|i: int|
            0 <= i < r@.len() ==> #[trigger] r@[i].source < 64 && r@[i].dest < 64
                && has_square(pos@.combined, r@[i].source as int),
{
    MoveGen::new_legal(&pos.board).map(move_of).collect()
}

/// `Board::null_move`: `None` when the side to move is in check, else the
/// board with the other side to move, the same pieces and colours.  Working
/// out the new pins looks up the king of the side that was not moving.
#[verifier::external_body]
fn board_null_move(pos: &Position) -> (r: Option<Position>)
    requires
        kings_present(pos@),
    ensures
        r is Some <==> pos@.checkers == 0,
        r matches Some(p) ==> {
            &&& p@ == spec_null_move(pos@)
            &&& snapshot_wf(p@)
            &&& p@.pieces == pos@.pieces
            &&& p@.colors == pos@.colors
            &&& p@.combined == pos@.combined
            &&& p@.white_to_move == !pos@.white_to_move
        },
{
    let board = pos.board.null_move()?;
    Some(Position { board, snap: snapshot_of(&board) })
}

/// `Board::status`: checkmate or stalemate when there is no legal move (by
/// whether the side to move is in check), else ongoing.
#[verifier::external_body]
fn board_status(pos: &Position) -> (r: GameStatus)
    requires
        sound(pos@),
    ensures
        r == spec_status(pos@),
{
    match pos.board.status() {
        BoardStatus::Ongoing => GameStatus::Ongoing,
        BoardStatus::Stalemate => GameStatus::Stalemate,
        BoardStatus::Checkmate => GameStatus::Checkmate,
    }
}

/// The king bitboard and the bitboard of the side not moving, as the
/// crate's `make_move` leaves them once it has moved the piece and taken
/// what stood on the destination; it then looks up the king of the side not
/// moving there.
pub open spec fn kings_and_opponent_after(s: Snapshot, m: Move) -> (u64, u64) {
    let src = 1u64 << (m.source as u64);
    let dst = 1u64 << (m.dest as u64);
    let opp: int = if s.white_to_move {
        1
    } else {
        0
    };
    let moved = spec_piece_on(s, m.source as int)->Some_0;
    let kings = if moved == PieceKind::King {
        s.pieces[5] ^ src ^ dst
    } else {
        s.pieces[5]
    };
    match spec_piece_on(s, m.dest as int) {
        Some(captured) => (
            if captured == PieceKind::King {
                kings ^ dst
            } else {
                kings
            },
            s.colors[opp] ^ dst,
        ),
        None => (kings, s.colors[opp]),
    }
}

/// The crate can play the move: its source holds a piece, and once the
/// piece is moved and what stood on the destination is taken, the side not
/// moving still has a king.
pub open spec fn playable(s: Snapshot, m: Move) -> bool {
    &&& m.source < 64
    &&& m.dest < 64
    &&& has_square(s.combined, m.source as int)
    &&& kings_and_opponent_after(s, m).0 & kings_and_opponent_after(s, m).1 != 0
}

/// Square behind `sq` from the mover's side (the crate's `ubackward`):
/// one rank down for white, one rank up for black, ranks wrapping around.
pub open spec fn square_behind(sq: int, white: bool) -> int {
    if white {
        ((sq / 8 + 7) % 8) * 8 + sq % 8
    } else {
        ((sq / 8 + 1) % 8) * 8 + sq % 8
    }
}

/// A move from the second or seventh rank to the fourth or fifth.
pub open spec fn double_step(m: Move) -> bool {
    (m.source / 8 == 1 || m.source / 8 == 6) && (m.dest / 8 == 3 || m.dest / 8 == 4)
}

/// Both squares of the move lie among c1, e1, g1, c8, e8 and g8, the
/// squares the crate takes for a king's castling move.
pub open spec fn castle_move(m: Move) -> bool {
    let mb = (1u64 << (m.source as u64)) ^ (1u64 << (m.dest as u64));
    mb & 0x5400_0000_0000_0054u64 == mb
}

/// A move the crate plays by moving one piece and taking what stands on the
/// destination, nothing else: not a king's castling move, and not a pawn's
/// promotion or capture en passant.
pub open spec fn simple_move(s: Snapshot, m: Move) -> bool {
    let moved = spec_piece_on(s, m.source as int)->Some_0;
    let en_passant = !double_step(m) && s.en_passant == Some(
        square_behind(m.dest as int, s.white_to_move) as u8,
    );
    &&& !(moved == PieceKind::King && castle_move(m))
    &&& !(moved == PieceKind::Pawn && (m.promotion is Some || en_passant))
}

/// The bitboard with a square flipped when `flip` holds.
pub open spec fn toggle(bb: u64, sq: int, flip: bool) -> u64 {
    if flip {
        bb ^ (1u64 << (sq as u64))
    } else {
        bb
    }
}

/// The pieces and colours after a simple move, as the crate's `make_move`
/// leaves them: the moved piece's bitboard and the mover's colour lose the
/// source and gain the destination, and the captured piece's bitboard and
/// the other colour lose the destination; the other side is to move.
pub open spec fn simple_move_result(s: Snapshot, m: Move, t: Snapshot) -> bool {
    let moved = spec_piece_on(s, m.source as int)->Some_0.spec_index();
    let captured = spec_piece_on(s, m.dest as int);
    let me: int = if s.white_to_move {
        0
    } else {
        1
    };
    &&& t.white_to_move == !s.white_to_move
    &&& forall|i: int|
        0 <= i < 6 ==> #[trigger] t.pieces[i] == toggle(
            toggle(toggle(s.pieces[i], m.source as int, i == moved), m.dest as int, i == moved),
            m.dest as int,
            captured matches Some(c) && i == c.spec_index(),
        )
    &&& t.colors[me] == toggle(toggle(s.colors[me], m.source as int, true), m.dest as int, true)
    &&& t.colors[1 - me] == toggle(s.colors[1 - me], m.dest as int, captured is Some)
}

/// `Board::make_move_new`: the board after a move.  The crate unwraps the
/// piece on the source square and looks up the king of the side not moving,
/// so the move must be playable.
#[verifier::external_body]
fn position_after_move(pos: &Position, mv: Move) -> (r: Position)
    requires
        playable(pos@, mv),
    ensures
        r@ == spec_after_move(pos@, mv),
        snapshot_wf(r@),
        simple_move(pos@, mv) ==> simple_move_result(pos@, mv, r@),
{
    let m = ChessMove::new(ALL_SQUARES[mv.source as usize], ALL_SQUARES[mv.dest as usize], mv.promotion.map(chess_piece_of));
    let board = pos.board.make_move_new(m);
    Position { board, snap: snapshot_of(&board) }
}

/// The outcome of playing one move text on a board in `Position::setup`.
pub open spec fn setup_step(s: Snapshot, text: Seq<char>) -> Result<Snapshot, SetupError> {
    match spec_uci_move(text) {
        None => Err(SetupError::InvalidMove),
        Some(m) => if !has_square(s.combined, m.source as int) {
            Err(SetupError::NoPieceOnSource)
        } else if !playable(s, m) || !kings_present(spec_after_move(s, m)) {
            Err(SetupError::KingLost)
        } else if !fits_move_list(spec_after_move(s, m)) {
            Err(SetupError::TooManyPieces)
        } else {
            Ok(spec_after_move(s, m))
        },
    }
}

/// The outcome of playing move texts in turn from a board: the first error,
/// or the board after the last move.
pub open spec fn play_texts(s: Snapshot, texts: Seq<Seq<char>>) -> Result<Snapshot, SetupError>
    decreases texts.len(),
{
    if texts.len() == 0 {
        Ok(s)
    } else {
        match play_texts(s, texts.drop_last()) {
            Ok(t) => setup_step(t, texts.last()),
            Err(e) => Err(e),
        }
    }
}

/// The board a FEN record sets up: the crate's; `InvalidFen` where the
/// crate refuses the record or the record places no king of the side to
/// move, `TooManyPieces` where the side to move has too many pieces for the
/// move generator.
pub open spec fn fen_start(fen: Seq<char>) -> Result<Snapshot, SetupError> {
    if lacks_king_to_move(fen) {
        Err(SetupError::InvalidFen)
    } else {
        match spec_fen_board(fen) {
            None => Err(SetupError::InvalidFen),
            Some(b) => if fits_move_list(b) {
                Ok(b)
            } else {
                Err(SetupError::TooManyPieces)
            },
        }
    }
}

/// The outcome of a `position` command: the FEN record's board, or the
/// initial one, with the move texts played in turn.
pub open spec fn setup_outcome(fen: Option<Seq<char>>, texts: Seq<Seq<char>>) -> Result<Snapshot, SetupError> {
    let start = match fen {
        Some(f) => fen_start(f),
        None => match spec_fen_board(start_fen()) {
            Some(b) => Ok(b),
            None => Err(SetupError::InvalidFen),
        },
    };
    match start {
        Ok(s) => play_texts(s, texts),
        Err(e) => Err(e),
    }
}

/// The texts of a list of strings.
pub open spec fn string_texts(v: Seq<String>) -> Seq<Seq<char>> {
    Seq::new(v.len(), |i: int| v[i]@)
}

proof fn lemma_initial_masks(p0: u64, p1: u64, p2: u64, p3: u64, p4: u64, p5: u64, w: u64)
    by (bit_vector)
    requires
        p0 == 0x00ff_0000_0000_ff00u64,
        p1 == 0x4200_0000_0000_0042u64,
        p2 == 0x2400_0000_0000_0024u64,
        p3 == 0x8100_0000_0000_0081u64,
        p4 == 0x0800_0000_0000_0008u64,
        p5 == 0x1000_0000_0000_0010u64,
        w == 0x0000_0000_0000_ffffu64,
    ensures
        p0 & w == 0xff00u64,
        p1 & w == 0x42u64,
        p2 & w == 0x24u64,
        p3 & w == 0x81u64,
        p4 & w == 0x08u64,
        p5 & w == 0x10u64,
{
}

proof fn lemma_count_range(bb: u64, lo: int, hi: int, n: int)
    requires
        0 <= lo <= hi <= 64,
        0 <= n <= 64,
        forall|q: int| 0 <= q < 64 ==> #[trigger] has_square(bb, q) == (lo <= q < hi),
    ensures
        bit_count(bb, n) == if n <= lo {
            0
        } else if n <= hi {
            n - lo
        } else {
            hi - lo
        },
    decreases n,
{
    if n > 0 {
        lemma_count_range(bb, lo, hi, n - 1);
        assert(has_square(bb, n - 1) == (lo <= n - 1 < hi));
    }
}

proof fn lemma_count_pair(bb: u64, a: int, b: int, n: int)
    requires
        0 <= a < b < 64,
        0 <= n <= 64,
        forall|q: int| 0 <= q < 64 ==> #[trigger] has_square(bb, q) == (q == a || q == b),
    ensures
        bit_count(bb, n) == (if n > a {
            1int
        } else {
            0int
        }) + (if n > b {
            1int
        } else {
            0int
        }),
    decreases n,
{
    if n > 0 {
        lemma_count_pair(bb, a, b, n - 1);
        assert(has_square(bb, n - 1) == (n - 1 == a || n - 1 == b));
    }
}

proof fn lemma_initial_bits()
    by (bit_vector)
    ensures
        forall|q: u64| q < 64 ==> (#[trigger] (0xff00u64 & (1u64 << q)) != 0) == (8 <= q && q < 16),
        forall|q: u64| q < 64 ==> (#[trigger] (0x42u64 & (1u64 << q)) != 0) == (q == 1 || q == 6),
        forall|q: u64| q < 64 ==> (#[trigger] (0x24u64 & (1u64 << q)) != 0) == (q == 2 || q == 5),
        forall|q: u64| q < 64 ==> (#[trigger] (0x81u64 & (1u64 << q)) != 0) == (q == 0 || q == 7),
        forall|q: u64| q < 64 ==> (#[trigger] (0x08u64 & (1u64 << q)) != 0) == (q == 3),
        forall|q: u64| q < 64 ==> (#[trigger] (0x10u64 & (1u64 << q)) != 0) == (q == 4),
{
}

/// White has 16 pieces in the initial position.
proof fn lemma_initial_count(s: Snapshot)
    requires
        initial_bitboards(s),
        s.white_to_move,
    ensures
        side_piece_count(s) == 16,
{
    lemma_initial_masks(s.pieces[0], s.pieces[1], s.pieces[2], s.pieces[3], s.pieces[4], s.pieces[5], s.colors[0]);
    lemma_initial_bits();
    assert forall|q: int| 0 <= q < 64 implies #[trigger] has_square(0xff00u64, q) == (8 <= q < 16) by {
        assert((0xff00u64 & (1u64 << (q as u64))) != 0 == (8 <= (q as u64) && (q as u64) < 16));
    }
    assert forall|q: int| 0 <= q < 64 implies #[trigger] has_square(0x08u64, q) == (3 <= q < 4) by {
        assert((0x08u64 & (1u64 << (q as u64))) != 0 == ((q as u64) == 3));
    }
    assert forall|q: int| 0 <= q < 64 implies #[trigger] has_square(0x10u64, q) == (4 <= q < 5) by {
        assert((0x10u64 & (1u64 << (q as u64))) != 0 == ((q as u64) == 4));
    }
    assert forall|q: int| 0 <= q < 64 implies #[trigger] has_square(0x42u64, q) == (q == 1 || q == 6) by {
        assert((0x42u64 & (1u64 << (q as u64))) != 0 == ((q as u64) == 1 || (q as u64) == 6));
    }
    assert forall|q: int| 0 <= q < 64 implies #[trigger] has_square(0x24u64, q) == (q == 2 || q == 5) by {
        assert((0x24u64 & (1u64 << (q as u64))) != 0 == ((q as u64) == 2 || (q as u64) == 5));
    }
    assert forall|q: int| 0 <= q < 64 implies #[trigger] has_square(0x81u64, q) == (q == 0 || q == 7) by {
        assert((0x81u64 & (1u64 << (q as u64))) != 0 == ((q as u64) == 0 || (q as u64) == 7));
    }
    lemma_count_range(0xff00u64, 8, 16, 64);
    lemma_count_range(0x08u64, 3, 4, 64);
    lemma_count_range(0x10u64, 4, 5, 64);
    lemma_count_pair(0x42u64, 1, 6, 64);
    lemma_count_pair(0x24u64, 2, 5, 64);
    lemma_count_pair(0x81u64, 0, 7, 64);
}

/// The number of squares set in a bitboard.
fn count_squares(bb: u64) -> (r: u32)
    ensures
        r == bit_count(bb, 64),
        r <= 64,
{
    let mut n: u32 = 0;
    let mut sq: u64 = 0;
    while sq < 64
        invariant
            sq <= 64,
            n == bit_count(bb, sq as int),
            n <= sq,
        decreases 64 - sq,
    {
        if bb & (1u64 << sq) != 0 {
            n += 1;
        }
        sq += 1;
    }
    n
}

impl Position {
    /// The initial position of a game.
    pub fn initial() -> (r: Position)
        ensures
            spec_fen_board(start_fen()) == Some(r@),
            snapshot_wf(r@),
            sound(r@),
            initial_bitboards(r@),
            r@.white_to_move,
            r@.castle == [3u8, 3u8],
            r@.en_passant is None,
            r@.checkers == 0,
            r@.pinned == 0,
    {
        let p = initial_position();
        proof {
            lemma_initial_kings(p@.pieces[5], p@.colors[0], p@.colors[1]);
            lemma_initial_count(p@);
        }
        p
    }

    /// The position a FEN record describes.  `InvalidFen` where the crate
    /// refuses the record, and where it places no king of the side to move
    /// (the crate does not return on such a record, so it is not handed on);
    /// `TooManyPieces` where the side to move has more pieces than the
    /// crate's move generator can list.
    pub fn from_fen(fen: &str) -> (r: Result<Position, SetupError>)
        ensures
            match r {
                Ok(p) => fen_start(fen@) == Ok::<Snapshot, SetupError>(p@),
                Err(e) => fen_start(fen@) == Err::<Snapshot, SetupError>(e),
            },
            r matches Ok(p) ==> snapshot_wf(p@) && sound(p@),
    {
        if fen_lacks_king_to_move(fen) {
            return Err(SetupError::InvalidFen);
        }
        match board_from_fen(fen) {
            Ok(p) => {
                if p.fits_move_list() {
                    Ok(p)
                } else {
                    Err(SetupError::TooManyPieces)
                }
            },
            Err(_) => Err(SetupError::InvalidFen),
        }
    }

    /// The position a `position` command sets up: the FEN record's, or the
    /// initial one, with the moves played in turn.  Fails where the record
    /// is refused or places no king of the side to move, a move text is
    /// refused, a move starts on an empty square, or the
    /// crate cannot play a move (it would take the last king of the side not
    /// moving, or leave a side without a king).
    pub fn setup(fen: &Option<String>, moves: &Vec<String>) -> (r: Result<Position, SetupError>)
        ensures
            ({
                let f = match fen {
                    Some(t) => Some(t@),
                    None => None,
                };
                match r {
                    Ok(p) => setup_outcome(f, string_texts(moves@)) == Ok::<Snapshot, SetupError>(p@),
                    Err(e) => setup_outcome(f, string_texts(moves@)) == Err::<Snapshot, SetupError>(e),
                }
            }),
            r matches Ok(p) ==> snapshot_wf(p@) && sound(p@),
    {
        let ghost f = match fen {
            Some(t) => Some(t@),
            None => None,
        };
        let ghost texts = string_texts(moves@);
        let mut pos = match fen {
            Some(text) => match Position::from_fen(text.as_str()) {
                Ok(p) => p,
                Err(e) => return Err(e),
            },
            None => Position::initial(),
        };
        let ghost start = pos@;
        let mut k: usize = 0;
        while k < moves.len()
            invariant
                k <= moves@.len(),
                texts == string_texts(moves@),
                f == (match fen {
                    Some(t) => Some(t@),
                    None => None::<Seq<char>>,
                }),
                setup_outcome(f, texts) == play_texts(start, texts),
                play_texts(start, texts.take(k as int)) == Ok::<Snapshot, SetupError>(pos@),
                snapshot_wf(pos@),
                sound(pos@),
            decreases moves.len() - k,
        {
            proof {
                assert(texts.take(k + 1).drop_last() == texts.take(k as int));
                assert(texts.take(k + 1).last() == moves@[k as int]@);
            }
            let mv = match chess_move_from_str(moves[k].as_str()) {
                Ok(m) => m,
                Err(_) => {
                    proof {
                        lemma_play_texts_err_stays(start, texts, (k + 1) as int);
                    }
                    return Err(SetupError::InvalidMove);
                },
            };
            assert(mv.source < 64 && mv.dest < 64);
            if pos.snap.combined & (1u64 << mv.source) == 0 {
                proof {
                    lemma_play_texts_err_stays(start, texts, (k + 1) as int);
                }
                return Err(SetupError::NoPieceOnSource);
            }
            if !pos.is_playable(mv) {
                proof {
                    lemma_play_texts_err_stays(start, texts, (k + 1) as int);
                }
                return Err(SetupError::KingLost);
            }
            let next = pos.make_move(mv);
            if !next.has_kings() {
                proof {
                    lemma_play_texts_err_stays(start, texts, (k + 1) as int);
                }
                return Err(SetupError::KingLost);
            }
            if !next.fits_move_list() {
                proof {
                    lemma_play_texts_err_stays(start, texts, (k + 1) as int);
                }
                return Err(SetupError::TooManyPieces);
            }
            pos = next;
            k += 1;
        }
        proof {
            assert(texts.take(moves@.len() as int) == texts);
        }
        Ok(pos)
    }

    /// The snapshot of plain values read from the board.
    pub fn snapshot(&self) -> (r: Snapshot)
        ensures
            r == self@,
    {
        self.snap
    }

    /// Whether white is to move.
    pub fn white_to_move(&self) -> (r: bool)
        ensures
            r == self@.white_to_move,
    {
        self.snap.white_to_move
    }

    /// The board's hash.
    pub fn hash(&self) -> (r: u64)
        ensures
            r == self@.hash,
    {
        self.snap.hash
    }

    /// Whether both sides have a king.
    pub fn has_kings(&self) -> (r: bool)
        ensures
            r == kings_present(self@),
    {
        self.snap.pieces[5] & self.snap.colors[0] != 0 && self.snap.pieces[5] & self.snap.colors[1] != 0
    }

    /// Whether the side to move has few enough pieces for the crate's move
    /// generator.
    pub fn fits_move_list(&self) -> (r: bool)
        ensures
            r == fits_move_list(self@),
    {
        let side = if self.snap.white_to_move {
            self.snap.colors[0]
        } else {
            self.snap.colors[1]
        };
        let p = &self.snap.pieces;
        let n = count_squares(p[0] & side) + count_squares(p[1] & side) + count_squares(p[2] & side)
            + count_squares(p[3] & side) + count_squares(p[4] & side) + count_squares(p[5] & side);
        n <= 16
    }

    /// Whether the crate can work on the board: both sides have a king, and
    /// the side to move has few enough pieces for its move generator.
    pub fn is_sound(&self) -> (r: bool)
        ensures
            r == sound(self@),
    {
        self.has_kings() && self.fits_move_list()
    }

    /// The legal moves, in the order the crate yields them.
    pub fn legal_moves(&self) -> (r: Vec<Move>)
        requires
            sound(self@),
        ensures
            r@ == spec_legal_moves(self@),
            forall|i: int|
                0 <= i < r@.len() ==> #[trigger] r@[i].source < 64 && r@[i].dest < 64
                    && has_square(self@.combined, r@[i].source as int),
    {
        generate_legal_moves(self)
    }

    /// Whether the game goes on or has ended.
    pub fn status(&self) -> (r: GameStatus)
        requires
            sound(self@),
        ensures
            r == spec_status(self@),
    {
        board_status(self)
    }

    /// The position with the other side to move, unless the side to move is
    /// in check.
    pub fn null_move(&self) -> (r: Option<Position>)
        requires
            kings_present(self@),
        ensures
            r is Some <==> self@.checkers == 0,
            r matches Some(p) ==> {
                &&& p@ == spec_null_move(self@)
                &&& snapshot_wf(p@)
                &&& p@.pieces == self@.pieces
                &&& p@.colors == self@.colors
                &&& p@.combined == self@.combined
                &&& p@.white_to_move == !self@.white_to_move
            },
    {
        board_null_move(self)
    }

    /// Whether the side to move may pass: it may when it is not in check.
    pub fn null_move_exists(&self) -> (r: bool)
        requires
            kings_present(self@),
        ensures
            r == (self@.checkers == 0),
    {
        board_null_move(self).is_some()
    }

    /// The position after a playable move.
    pub fn make_move(&self, mv: Move) -> (r: Position)
        requires
            playable(self@, mv),
        ensures
            r@ == spec_after_move(self@, mv),
            snapshot_wf(r@),
            simple_move(self@, mv) ==> simple_move_result(self@, mv, r@),
    {
        position_after_move(self, mv)
    }

    /// Whether the crate can play a move here.
    pub fn is_playable(&self, mv: Move) -> (r: bool)
        ensures
            r == playable(self@, mv),
    {
        if mv.source >= 64 || mv.dest >= 64 {
            return false;
        }
        if self.snap.combined & (1u64 << mv.source) == 0 {
            return false;
        }
        let src: u64 = 1u64 << mv.source;
        let dst: u64 = 1u64 << mv.dest;
        let opp: usize = if self.snap.white_to_move {
            1
        } else {
            0
        };
        let moved = self.piece_on(mv.source).unwrap();
        let kings = if moved == PieceKind::King {
            self.snap.pieces[5] ^ src ^ dst
        } else {
            self.snap.pieces[5]
        };
        let (k, c) = match self.piece_on(mv.dest) {
            Some(captured) => (
                if captured == PieceKind::King {
                    kings ^ dst
                } else {
                    kings
                },
                self.snap.colors[opp] ^ dst,
            ),
            None => (kings, self.snap.colors[opp]),
        };
        k & c != 0
    }

    /// What stands on a square, as the crate's `Board::piece_on` answers.
    pub fn piece_on(&self, sq: u8) -> (r: Option<PieceKind>)
        requires
            sq < 64,
        ensures
            r == spec_piece_on(self@, sq as int),
    {
        let bit: u64 = 1u64 << sq;
        let p = &self.snap.pieces;
        if self.snap.combined & bit == 0 {
            None
        } else if (p[0] ^ p[1] ^ p[2]) & bit != 0 {
            if p[0] & bit != 0 {
                Some(PieceKind::Pawn)
            } else if p[1] & bit != 0 {
                Some(PieceKind::Knight)
            } else {
                Some(PieceKind::Bishop)
            }
        } else {
            if p[3] & bit != 0 {
                Some(PieceKind::Rook)
            } else if p[4] & bit != 0 {
                Some(PieceKind::Queen)
            } else {
                Some(PieceKind::King)
            }
        }
    }
}

/// Once playing the texts fails, playing more of them fails the same way.
proof fn lemma_play_texts_err_stays(s: Snapshot, texts: Seq<Seq<char>>, k: int)
    requires
        0 <= k <= texts.len(),
        play_texts(s, texts.take(k)) is Err,
    ensures
        play_texts(s, texts) == play_texts(s, texts.take(k)),
    decreases texts.len() - k,
{
    if k < texts.len() {
        assert(texts.take(k + 1).drop_last() == texts.take(k));
        lemma_play_texts_err_stays(s, texts, k + 1);
    } else {
        assert(texts.take(k) == texts);
    }
}

/// The piece bitboards of a snapshot do not overlap.
pub open spec fn pieces_disjoint(s: Snapshot) -> bool {
    forall|i: int, j: int|
        0 <= i < j < 6 ==> #[trigger] s.pieces[i] & #[trigger] s.pieces[j] == 0
}

/// The bitboard of every piece is the union of the piece bitboards.
pub open spec fn combined_is_union(s: Snapshot) -> bool {
    s.combined == s.pieces[0] | s.pieces[1] | s.pieces[2] | s.pieces[3] | s.pieces[4]
        | s.pieces[5]
}

proof fn lemma_bits(a: u64, b: u64, c: u64, d: u64, e: u64, f: u64, sq: u64)
    by (bit_vector)
    requires
        sq < 64,
    ensures
        ((a | b | c | d | e | f) & (1u64 << sq) != 0) == ((a & (1u64 << sq) != 0) || (b & (1u64
            << sq) != 0) || (c & (1u64 << sq) != 0) || (d & (1u64 << sq) != 0) || (e & (1u64 << sq)
            != 0) || (f & (1u64 << sq) != 0)),
        ((a ^ b ^ c) & (1u64 << sq) != 0) == (((a & (1u64 << sq) != 0) != (b & (1u64 << sq) != 0))
            != (c & (1u64 << sq) != 0)),
{
}

pub proof fn lemma_disjoint_bit(a: u64, b: u64, sq: u64)
    by (bit_vector)
    requires
        sq < 64,
        a & b == 0,
    ensures
        !((a & (1u64 << sq) != 0) && (b & (1u64 << sq) != 0)),
{
}

/// On a board whose piece bitboards are disjoint and make up the bitboard of
/// every piece, `piece_on` finds exactly the kind whose bitboard holds the
/// square, and nothing on a square that none holds.
pub proof fn lemma_piece_on_finds_the_piece(s: Snapshot, sq: int)
    requires
        pieces_disjoint(s),
        combined_is_union(s),
        0 <= sq < 64,
    ensures
        forall|k: PieceKind| #[trigger]
            spec_piece_on(s, sq) == Some(k) <==> has_square(s.pieces[k.spec_index()], sq),
        spec_piece_on(s, sq) is None <==> forall|i: int|
            0 <= i < 6 ==> !has_square(#[trigger] s.pieces[i], sq),
{
    let p = s.pieces;
    lemma_bits(p[0], p[1], p[2], p[3], p[4], p[5], sq as u64);
    assert forall|i: int, j: int| 0 <= i < j < 6 implies !(has_square(p[i], sq) && has_square(
        p[j],
        sq,
    )) by {
        assert(p[i] & p[j] == 0);
        lemma_disjoint_bit(p[i], p[j], sq as u64);
    }
}

/// Each move text of a `position` command is played as the crate parses
/// it, promotion included: when the commands with one more text set up a
/// board, the commands without it set up a board too, the text parses to a
/// move that starts on an occupied square and that the crate can play, and
/// the new board is the crate's board after that move, on which the crate
/// can go on.  A text that does not parse is refused, and a refused setup
/// stays refused with more texts.
pub proof fn lemma_setup_plays_parsed_moves(fen: Option<Seq<char>>, texts: Seq<Seq<char>>, t: Seq<char>)
    ensures
        setup_outcome(fen, texts.push(t)) matches Ok(b) ==> {
            let p = setup_outcome(fen, texts)->Ok_0;
            let m = spec_uci_move(t)->Some_0;
            &&& setup_outcome(fen, texts) is Ok
            &&& spec_uci_move(t) is Some
            &&& has_square(p.combined, m.source as int)
            &&& playable(p, m)
            &&& b == spec_after_move(p, m)
            &&& sound(b)
        },
        setup_outcome(fen, texts) is Ok && spec_uci_move(t) is None ==> setup_outcome(
            fen,
            texts.push(t),
        ) == Err::<Snapshot, SetupError>(SetupError::InvalidMove),
        setup_outcome(fen, texts) is Err ==> setup_outcome(fen, texts.push(t)) == setup_outcome(
            fen,
            texts,
        ),
{
    assert(texts.push(t).drop_last() == texts);
    assert(texts.push(t).last() == t);
}

/// A five-character move text that parses names its promotion: `e7e8q`
/// parses to the move from e7 to e8 promoting to a queen, never to the move
/// without promotion.
pub proof fn lemma_promotion_is_kept(t: Seq<char>)
    requires
        t.len() == 5,
        (t[4] as u32) < 128,
        spec_uci_move(t) is Some,
    ensures
        spec_uci_move(t)->Some_0.promotion == promotion_of(t[4]),
        spec_uci_move(t)->Some_0.promotion is Some,
{
}

} // verus!
