use oxide_engine::board::{GameStatus, Move, Position, SetupError};
use oxide_engine::engine::Engine;
use oxide_engine::eval::EvalTracker;
use oxide_engine::fen::fen_lacks_king_to_move;
use oxide_engine::pst::{
    get_piece_value, query_pst, query_pst_single, PieceKind, KING_PST, KNIGHT_PST, PAWN_PST,
};
use oxide_engine::uci::{
    join_range, parse_i32, parse_uci, same_text, split_words, try_parse_uci, UCIToken, UciError,
    DEFAULT_SEARCH_DEPTH,
};

const START_FEN: &str = "rnbqkbnr/pppppppp/8/8/8/8/PPPPPPPP/RNBQKBNR w KQkq - 0 1";

fn mv(source: u8, dest: u8) -> Move {
    Move { source, dest, promotion: None }
}

fn setup(fen: Option<&str>, moves: &[&str]) -> Result<Position, SetupError> {
    let fen = fen.map(|f| f.to_string());
    let moves: Vec<String> = moves.iter().map(|m| m.to_string()).collect();
    Position::setup(&fen, &moves)
}

#[test]
fn piece_values() {
    assert_eq!(get_piece_value(PieceKind::Pawn), 100);
    assert_eq!(get_piece_value(PieceKind::Knight), 300);
    assert_eq!(get_piece_value(PieceKind::Bishop), 325);
    assert_eq!(get_piece_value(PieceKind::Rook), 500);
    assert_eq!(get_piece_value(PieceKind::Queen), 900);
    assert_eq!(get_piece_value(PieceKind::King), 0);
}

#[test]
fn query_pst_sums_set_squares() {
    assert_eq!(query_pst(0, 100, PAWN_PST, true), 0);
    // a2 and b2 read mirrored for white: entries 55 and 54
    assert_eq!(query_pst((1u64 << 8) | (1u64 << 9), 100, PAWN_PST, true), 215);
    // the same squares read as they stand for black: entries 8 and 9
    assert_eq!(query_pst((1u64 << 8) | (1u64 << 9), 100, PAWN_PST, false), 300);
    // a king on g1 for white: entry 57 of the king table
    assert_eq!(query_pst(1u64 << 6, 0, KING_PST, true), 30);
    // every square of the knight table with no default
    let all: i32 = KNIGHT_PST.iter().sum();
    assert_eq!(query_pst(u64::MAX, 0, KNIGHT_PST, false), all);
}

#[test]
fn query_pst_single_mirrors_for_white() {
    assert_eq!(query_pst_single(PieceKind::Pawn, 28, true), 20);
    assert_eq!(query_pst_single(PieceKind::Pawn, 12, true), -20);
    assert_eq!(query_pst_single(PieceKind::Pawn, 12, false), 50);
    assert_eq!(query_pst_single(PieceKind::Knight, 0, false), -50);
    assert_eq!(query_pst_single(PieceKind::King, 1, true), 30);
}

#[test]
fn initial_position_reads_the_board() {
    let pos = Position::initial();
    let snap = pos.snapshot();
    assert!(pos.white_to_move());
    assert_eq!(snap.colors[0], 0xFFFF);
    assert_eq!(snap.colors[1], 0xFFFF_0000_0000_0000);
    assert_eq!(snap.pieces[0], 0x00FF_0000_0000_FF00);
    assert_eq!(snap.combined, 0xFFFF_0000_0000_FFFF);
    assert_eq!(snap.castle, [3, 3]);
    assert_eq!(snap.en_passant, None);
    assert_eq!(pos.piece_on(0), Some(PieceKind::Rook));
    assert_eq!(pos.piece_on(4), Some(PieceKind::King));
    assert_eq!(pos.piece_on(59), Some(PieceKind::Queen));
    assert_eq!(pos.piece_on(28), None);
}

#[test]
fn legal_moves_and_status() {
    let pos = Position::initial();
    assert_eq!(pos.legal_moves().len(), 20);
    assert_eq!(pos.status(), GameStatus::Ongoing);
    assert!(pos.null_move_exists());
    let from_fen = Position::from_fen(START_FEN).ok().unwrap();
    assert_eq!(from_fen.hash(), pos.hash());
}

#[test]
fn checkmate_and_stalemate_status() {
    let mated = setup(None, &["f2f3", "e7e5", "g2g4", "d8h4"]).ok().unwrap();
    assert_eq!(mated.status(), GameStatus::Checkmate);
    assert!(!mated.null_move_exists());
    assert_eq!(mated.legal_moves().len(), 0);
    let stalemate = Position::from_fen("7k/5Q2/6K1/8/8/8/8/8 b - - 0 1").ok().unwrap();
    assert_eq!(stalemate.status(), GameStatus::Stalemate);
    assert!(stalemate.null_move_exists());
}

#[test]
fn setup_plays_moves() {
    let pos = setup(None, &["e2e4"]).ok().unwrap();
    assert!(!pos.white_to_move());
    assert_eq!(pos.piece_on(28), Some(PieceKind::Pawn));
    assert_eq!(pos.piece_on(12), None);
    assert_eq!(pos.snapshot().en_passant, None);
    let same = setup(Some("rnbqkbnr/pppppppp/8/8/4P3/8/PPPP1PPP/RNBQKBNR b KQkq - 0 1"), &[])
        .ok()
        .unwrap();
    assert_eq!(same.hash(), pos.hash());
}

#[test]
fn setup_errors() {
    assert_eq!(setup(Some("not a fen"), &[]).err(), Some(SetupError::InvalidFen));
    assert_eq!(setup(None, &["e2e4", "zz"]).err(), Some(SetupError::InvalidMove));
    assert_eq!(setup(None, &["e3e4"]).err(), Some(SetupError::NoPieceOnSource));
    assert_eq!(setup(None, &["e3e4", "zz"]).err(), Some(SetupError::NoPieceOnSource));
}

#[test]
fn make_move_changes_side() {
    let pos = Position::initial();
    let next = pos.make_move(mv(12, 28));
    assert!(!next.white_to_move());
    assert_ne!(next.hash(), pos.hash());
    assert_eq!(next.piece_on(28), Some(PieceKind::Pawn));
}

#[test]
fn eval_of_initial_position_is_zero() {
    let pos = Position::initial();
    assert_eq!(EvalTracker::init(&pos).eval, 0);
}

#[test]
fn eval_after_e4_for_black() {
    let pos = setup(None, &["e2e4"]).ok().unwrap();
    assert_eq!(EvalTracker::init(&pos).eval, -40);
}

#[test]
fn eval_is_zero_sum_between_sides() {
    let white = Position::from_fen("4k3/8/8/8/8/8/4P3/4K3 w - - 0 1").ok().unwrap();
    let black = Position::from_fen("4k3/8/8/8/8/8/4P3/4K3 b - - 0 1").ok().unwrap();
    let w = EvalTracker::init(&white).eval;
    let b = EvalTracker::init(&black).eval;
    assert_eq!(w, -b);
    // a pawn on e2 (80) plus kings on e1 (0) and e8 (0)
    assert_eq!(w, 80);
}

#[test]
fn update_adds_the_movers_gain() {
    let pos = Position::initial();
    let tracker = EvalTracker { eval: 0 };
    assert_eq!(tracker.update(&pos, &mv(12, 28)).eval, 40);
    let tracker = EvalTracker { eval: 7 };
    // knight b1 to c3: table entries 42 and 62
    assert_eq!(tracker.update(&pos, &mv(1, 18)).eval, 7 + 10 - (-40));
}

#[test]
fn update_counts_a_capture() {
    // white pawn e4 takes d5
    let pos = setup(None, &["e2e4", "d7d5"]).ok().unwrap();
    let tracker = EvalTracker { eval: 0 };
    let captured = 100 + 20; // black pawn on d5 read for black: entry 35
    let moved = 25 - 20; // white pawn from e4 (entry 35) to d5 (entry 27)
    assert_eq!(tracker.update(&pos, &mv(28, 35)).eval, captured + moved);
}

#[test]
fn flip_negates() {
    let t = EvalTracker { eval: 123 };
    assert_eq!(t.flip().eval, -123);
    assert_eq!(t.flip().flip().eval, 123);
}

#[test]
fn history_is_credited() {
    let mut engine = Engine::new();
    let m = mv(12, 28);
    assert_eq!(engine.get_history(&m, true), 0);
    engine.update_history(m, true, 3);
    assert_eq!(engine.get_history(&m, true), 9);
    assert_eq!(engine.get_history(&m, false), 0);
    assert_eq!(engine.get_history(&mv(12, 20), true), 0);
    engine.update_history(m, true, 2);
    assert_eq!(engine.get_history(&m, true), 13);
    assert_eq!(engine.counter(), 0);
}

#[test]
fn history_counter_wraps() {
    let mut engine = Engine::new();
    let m = mv(0, 1);
    for _ in 0..2 {
        engine.update_history(m, false, 46340);
    }
    assert_eq!(engine.get_history(&m, false), (46340i32 * 46340).wrapping_add(46340 * 46340));
}

#[test]
fn ranking_prefers_captures() {
    let pos = setup(None, &["e2e4", "d7d5"]).ok().unwrap();
    let mut engine = Engine::new();
    // pawn takes pawn: (10 * 100 - 100) * 10000
    assert_eq!(engine.get_move_ranking(&pos, &mv(28, 35)), 9_000_000);
    assert_eq!(engine.get_move_ranking(&pos, &mv(28, 36)), 0);
    engine.update_history(mv(28, 36), true, 4);
    assert_eq!(engine.get_move_ranking(&pos, &mv(28, 36)), 16);
    engine.update_history(mv(28, 35), true, 1);
    assert_eq!(engine.get_move_ranking(&pos, &mv(28, 35)), 9_000_001);
}

#[test]
fn ordered_moves_put_captures_first() {
    let pos = setup(None, &["e2e4", "d7d5"]).ok().unwrap();
    let engine = Engine::new();
    let ordered = engine.get_ordered_moves(&pos);
    assert_eq!(ordered.len(), pos.legal_moves().len());
    assert_eq!(ordered[0], mv(28, 35));
    let mut a: Vec<(u8, u8)> = ordered.iter().map(|m| (m.source, m.dest)).collect();
    let mut b: Vec<(u8, u8)> = pos.legal_moves().iter().map(|m| (m.source, m.dest)).collect();
    a.sort();
    b.sort();
    assert_eq!(a, b);
}

#[test]
fn order_moves_sorts_by_history() {
    let pos = Position::initial();
    let mut engine = Engine::new();
    engine.update_history(mv(6, 21), true, 2);
    engine.update_history(mv(12, 28), true, 5);
    let moves = vec![mv(11, 27), mv(6, 21), mv(1, 18), mv(12, 28)];
    let ordered = engine.order_moves(&pos, moves);
    assert_eq!(ordered, vec![mv(12, 28), mv(6, 21), mv(11, 27), mv(1, 18)]);
}

#[test]
fn search_scores_checkmate() {
    let mated = setup(None, &["f2f3", "e7e5", "g2g4", "d8h4"]).ok().unwrap();
    let mut engine = Engine::new();
    let score = engine.calculate(mated, EvalTracker { eval: 0 }, 3, -999, 999, true);
    assert_eq!(score, -99999);
    assert_eq!(engine.counter(), 1);
    // a second search is answered from the cache
    let again = engine.calculate(mated, EvalTracker { eval: 5 }, 2, -999, 999, true);
    assert_eq!(again, -99999);
    assert_eq!(engine.counter(), 1);
}

#[test]
fn search_scores_stalemate() {
    let pos = Position::from_fen("7k/5Q2/6K1/8/8/8/8/8 b - - 0 1").ok().unwrap();
    let mut engine = Engine::new();
    assert_eq!(engine.calculate(pos, EvalTracker { eval: 0 }, 2, -999, 999, true), -150);
}

#[test]
fn search_at_depth_zero_negates_the_evaluation() {
    let pos = Position::initial();
    let mut engine = Engine::new();
    assert_eq!(engine.calculate(pos, EvalTracker { eval: 37 }, 0, -999, 999, true), -37);
    assert_eq!(engine.counter(), 1);
    // cached at depth 0: a deeper search is not answered from the cache
    let deeper = engine.calculate(pos, EvalTracker { eval: 37 }, 1, -999, 999, true);
    assert!(deeper >= -10000);
    assert_eq!(engine.counter(), 22);
}

#[test]
fn search_finds_mate_in_one() {
    let pos = Position::from_fen("6k1/5ppp/8/8/8/8/8/R5K1 w - - 0 1").ok().unwrap();
    let mut engine = Engine::new();
    let eval = EvalTracker::init(&pos);
    let best = engine.try_find_best(pos, eval, 1);
    assert_eq!(best, Some((mv(0, 56), 99999)));
    let best3 = Engine::new().try_find_best(pos, eval, 3);
    assert_eq!(best3.map(|b| b.1), Some(99999));
}

#[test]
fn search_takes_a_hanging_queen() {
    let pos = Position::from_fen("4k3/8/8/3q4/8/8/3R4/4K3 w - - 0 1").ok().unwrap();
    let mut engine = Engine::new();
    let eval = EvalTracker::init(&pos);
    let best = engine.try_find_best(pos, eval, 2).unwrap();
    assert_eq!(best.0, mv(11, 35));
}

#[test]
fn find_best_with_no_moves_is_none() {
    let mated = setup(None, &["f2f3", "e7e5", "g2g4", "d8h4"]).ok().unwrap();
    let mut engine = Engine::new();
    let eval = EvalTracker::init(&mated);
    assert_eq!(engine.try_find_best(mated, eval, 2), None);
}

#[test]
fn parse_simple_commands() {
    assert_eq!(parse_uci("uci"), UCIToken::Uci);
    assert_eq!(parse_uci("isready\n"), UCIToken::IsReady);
    assert_eq!(parse_uci("  ucinewgame  "), UCIToken::UciNewGame);
    assert_eq!(parse_uci("reset"), UCIToken::Reset);
    assert_eq!(parse_uci("stop"), UCIToken::Stop);
    assert_eq!(parse_uci("quit"), UCIToken::Unknown);
    assert_eq!(parse_uci("UCI"), UCIToken::Unknown);
    assert_eq!(try_parse_uci(""), Err(UciError::EmptyLine));
    assert_eq!(try_parse_uci(" \t \n"), Err(UciError::EmptyLine));
}

#[test]
fn parse_position_commands() {
    assert_eq!(
        parse_uci("position startpos"), UCIToken::Position(None, vec![])
    );
    assert_eq!(
        parse_uci("position startpos moves e2e4 e7e5"), UCIToken::Position(None, vec!["e2e4".to_string(), "e7e5".to_string()])
    );
    assert_eq!(
        parse_uci(&format!("position fen {} moves e2e4", START_FEN)), UCIToken::Position(Some(START_FEN.to_string()), vec!["e2e4".to_string()])
    );
    assert_eq!(
        parse_uci("position   fen  8/8/8/8/8/8/8/8   w - -"), UCIToken::Position(Some("8/8/8/8/8/8/8/8 w - -".to_string()), vec![])
    );
    assert_eq!(try_parse_uci("position"), Err(UciError::MissingPositionSetup));
    assert_eq!(try_parse_uci("position kiwipete"), Err(UciError::MissingPositionSetup));
    assert_eq!(
        try_parse_uci("position startpos e2e4"), Err(UciError::IncorrectPositionArgument)
    );
    assert_eq!(
        try_parse_uci(&format!("position fen {} e2e4", START_FEN)), Err(UciError::IncorrectPositionArgument)
    );
}

#[test]
fn parse_go_commands() {
    assert_eq!(parse_uci("go depth 5"), UCIToken::Go(5));
    assert_eq!(parse_uci("go depth -3 extra"), UCIToken::Go(-3));
    assert_eq!(parse_uci("go"), UCIToken::Go(DEFAULT_SEARCH_DEPTH));
    assert_eq!(parse_uci("go infinite"), UCIToken::Go(8));
    assert_eq!(try_parse_uci("go depth"), Err(UciError::MissingDepth));
    assert_eq!(try_parse_uci("go depth five"), Err(UciError::InvalidDepth));
    assert_eq!(try_parse_uci("go depth 99999999999"), Err(UciError::InvalidDepth));
}

#[test]
fn parse_i32_like_std() {
    for text in [
        "0", "7", "+7", "-7", "007", "2147483647", "-2147483648", "2147483648", "-2147483649",
        "", "+", "-", "1a", "a1", " 1", "--1", "+-1", "99999999999999999999", "١",
    ] {
        assert_eq!(parse_i32(text), text.parse::<i32>().ok(), "{:?}", text);
    }
}

#[test]
fn split_words_on_unicode_white_space() {
    let words = split_words(" a\tbc\u{3000}d  \u{a0}e\r\n");
    assert_eq!(words, vec!["a", "bc", "d", "e"]);
    let std_words: Vec<String> =
        " a\tbc\u{3000}d  \u{a0}e\r\n".split_whitespace().map(|w| w.to_string()).collect();
    assert_eq!(words, std_words);
    assert!(split_words("").is_empty());
}

#[test]
fn join_and_compare_text() {
    let w: Vec<String> = vec!["a".into(), "b".into(), "c".into(), "d".into()];
    assert_eq!(join_range(&w, 1, 3), "b c");
    assert_eq!(join_range(&w, 2, 2), "");
    assert!(same_text("fen", "fen"));
    assert!(!same_text("fen", "feN"));
    assert!(!same_text("fen", "fe"));
}

#[test]
fn update_follows_init_across_a_move() {
    for (before, played) in [
        (vec![], "e2e4"),
        (vec!["e2e4", "d7d5"], "e4d5"),
        (vec!["g1f3", "b8c6"], "f3g5"),
        (vec!["e2e4", "d7d5", "d1g4"], "c8g4"),
    ] {
        let parent = setup(None, &before).ok().unwrap();
        let child = setup(None, &[before.clone(), vec![played]].concat()).ok().unwrap();
        let m = parent
            .legal_moves()
            .into_iter()
            .find(|m| {
                let s = m.source as usize;
                let d = m.dest as usize;
                let name = |sq: usize| format!("{}{}", (b'a' + (sq % 8) as u8) as char, sq / 8 + 1);
                format!("{}{}", name(s), name(d)) == played
            })
            .unwrap();
        let tracker = EvalTracker::init(&parent);
        assert_eq!(EvalTracker::init(&child).eval, -tracker.update(&parent, &m).eval, "{}", played);
    }
}

#[test]
fn one_ply_search_owes_a_move() {
    let pos = Position::initial();
    let mut engine = Engine::new();
    let eval = EvalTracker::init(&pos);
    let best = engine.try_find_best(pos, eval, 1).unwrap();
    assert!(pos.legal_moves().contains(&best.0));
    assert!(best.1 > -99999);
}

#[test]
fn from_fen_accepts_and_refuses() {
    assert!(Position::from_fen(START_FEN).is_ok());
    // no black king: refused by the crate's sanity checks
    assert!(Position::from_fen("4K3/8/8/8/8/8/8/8 w - - 0 1").is_err());
    assert!(Position::from_fen("rnbqkbnr/pppppppp/8 w").is_err());
    assert!(Position::from_fen("4k3/8/8/8/8/8/8/4K3 x - - 0 1").is_err());
}

#[test]
fn records_without_a_king_to_move() {
    assert!(fen_lacks_king_to_move("8/8/8/8/8/8/8/8 w - - 0 1"));
    assert!(fen_lacks_king_to_move("4k3/8/8/8/8/8/8/8 w - - 0 1"));
    assert!(!fen_lacks_king_to_move("4K3/8/8/8/8/8/8/8 w - - 0 1"));
    assert!(fen_lacks_king_to_move("4K3/8/8/8/8/8/8/8 b - -"));
    // the king is overwritten when the rank wraps around
    assert!(fen_lacks_king_to_move("K7q/8/8/8/8/8/8/8 w - -"));
    assert!(!fen_lacks_king_to_move(START_FEN));
    // refused before the board is built
    assert!(!fen_lacks_king_to_move("8/8/8/8/8/8/8/8 w -"));
    assert!(!fen_lacks_king_to_move("8/8/8/8/8/8/8/8x w - -"));
    assert!(!fen_lacks_king_to_move("8/8/8/8/8/8/8/8 white - -"));
    // such records are refused rather than handed to the crate
    assert_eq!(
        Position::from_fen("4k3/8/8/8/8/8/8/8 w - - 0 1").err(),
        Some(SetupError::InvalidFen)
    );
    assert_eq!(setup(Some("4K3/8/8/8/8/8/8/8 b - -"), &[]).err(), Some(SetupError::InvalidFen));
}

#[test]
fn moves_that_take_a_king_are_not_playable() {
    let pos = Position::initial();
    assert!(pos.is_playable(mv(12, 28)));
    assert!(!pos.is_playable(mv(28, 36)));
    // moving the opponent's king away leaves it without one
    assert!(!pos.is_playable(mv(60, 44)));
    // an illegal move the crate still plays
    assert!(pos.is_playable(mv(1, 35)));
    let kings_touch = Position::from_fen("8/8/8/8/8/8/8/3kK3 w - - 0 1");
    assert!(kings_touch.is_err());
    let rook = Some("4k3/8/8/8/8/8/R7/4K3 w - - 0 1");
    assert_eq!(setup(rook, &["a2a3", "zz"]).err(), Some(SetupError::InvalidMove));
    assert_eq!(setup(rook, &["a2e8"]).err(), Some(SetupError::KingLost));
    assert!(setup(rook, &["a2a7"]).is_ok());
}

#[test]
fn a_king_taken_by_its_own_side_stops_the_setup() {
    // white moves the black pawn a7-a6, then the black king takes its own
    // queen: black is left without a king
    assert!(setup(None, &["a7a6"]).is_ok());
    assert_eq!(setup(None, &["a7a6", "e8d8"]).err(), Some(SetupError::KingLost));
    let pos = setup(None, &["a7a6"]).ok().unwrap();
    assert!(pos.is_sound());
    let next = pos.make_move(mv(60, 59));
    assert!(!next.is_sound());
}

#[test]
fn snapshots_keep_checks_and_pins() {
    // the crate works out checks only from the moved piece: the knight on
    // f3 checks the king on e5 without the board saying so
    let played = setup(None, &["g1f3", "e8e5", "a2a3"]).ok().unwrap();
    let read = Position::from_fen("rnbq1bnr/pppppppp/8/4k3/8/P4N2/1PPPPPPP/RNBQKB1R b KQ - 0 2")
        .ok()
        .unwrap();
    let (a, b) = (played.snapshot(), read.snapshot());
    assert_eq!(a.pieces, b.pieces);
    assert_eq!(a.colors, b.colors);
    assert_eq!(a.white_to_move, b.white_to_move);
    assert_eq!(a.checkers, 0);
    assert_eq!(b.checkers, 1u64 << 21);
    assert!(played.null_move_exists());
    assert!(!read.null_move_exists());
}

#[test]
fn move_texts_as_the_crate_reads_them() {
    assert!(setup(None, &["e2e4"]).is_ok());
    // five bytes: the fifth names a promotion or the text is refused
    assert_eq!(setup(None, &["e2e4x"]).err(), Some(SetupError::InvalidMove));
    assert!(setup(None, &["e2e4q"]).is_ok());
    // six bytes or more: what follows the squares is ignored
    assert!(setup(None, &["e2e4xy"]).is_ok());
    assert!(setup(None, &["e2e4\u{e9}"]).is_ok());
    assert_eq!(setup(None, &["e2e"]).err(), Some(SetupError::InvalidMove));
    assert_eq!(setup(None, &["i2e4"]).err(), Some(SetupError::InvalidMove));
    assert_eq!(setup(None, &["e9e4"]).err(), Some(SetupError::InvalidMove));
}

#[test]
fn root_search_credits_the_mating_move() {
    let pos = Position::from_fen("rnbqkbnr/pppp1ppp/8/4p3/6P1/5P2/PPPPP2P/RNBQKBNR b KQkq - 0 2")
        .ok()
        .unwrap();
    let mut engine = Engine::new();
    let eval = EvalTracker::init(&pos);
    assert_eq!(engine.try_find_best(pos, eval, 1), Some((mv(59, 31), 99999)));
    assert_eq!(engine.get_history(&mv(59, 31), false), 1);
    let mut fresh = Engine::new();
    assert_eq!(fresh.find_best(pos, eval, 1), (mv(59, 31), 99999));
}

#[test]
fn passing_the_turn_negates_the_evaluation() {
    let pos = setup(None, &["e2e4", "d7d5", "g1f3"]).ok().unwrap();
    let passed = pos.null_move().unwrap();
    assert_ne!(passed.white_to_move(), pos.white_to_move());
    assert_eq!(EvalTracker::init(&passed).eval, -EvalTracker::init(&pos).eval);
    let checked = setup(None, &["e2e4", "f7f6", "d1h5"]).ok().unwrap();
    assert!(checked.null_move().is_none());
}

#[test]
fn search_counts_and_remembers() {
    let pos = Position::initial();
    let mut engine = Engine::new();
    let first = engine.calculate(pos, EvalTracker { eval: 0 }, 2, -999, 999, true);
    let nodes = engine.counter();
    assert!(nodes > 1);
    let again = engine.calculate(pos, EvalTracker { eval: 0 }, 2, -999, 999, true);
    assert_eq!(again, first);
    assert_eq!(engine.counter(), nodes);
}

#[test]
fn white_reads_tables_on_the_board_turned_around() {
    for bb in [0u64, 1, 0x00FF_0000_0000_FF00, 0x1234_5678_9ABC_DEF0, u64::MAX] {
        for pst in [PAWN_PST, KNIGHT_PST, KING_PST] {
            assert_eq!(query_pst(bb, 100, pst, true), query_pst(bb.reverse_bits(), 100, pst, false));
        }
    }
}

#[test]
fn initial_position_has_no_checks_or_pins() {
    let snap = Position::initial().snapshot();
    assert_eq!(snap.checkers, 0);
    assert_eq!(snap.pinned, 0);
    assert_eq!(snap.pieces[5], 0x1000_0000_0000_0010);
    assert_eq!(snap.pieces[1], 0x4200_0000_0000_0042);
}

#[test]
fn too_many_pieces_for_the_move_generator() {
    let crowded = "7k/8/8/8/NNNNNNNN/NNNNNNNN/NNNNNNNN/K7 w - - 0 1";
    assert_eq!(Position::from_fen(crowded).err(), Some(SetupError::TooManyPieces));
    assert_eq!(setup(Some(crowded), &[]).err(), Some(SetupError::TooManyPieces));
    // black to move has two pieces; once black has moved, white has too many
    let black_first = "7k/8/8/8/NNNNNNNN/NNNNNNNN/NNNNNNNN/K7 b - - 0 1";
    let pos = Position::from_fen(black_first).ok().unwrap();
    assert!(pos.fits_move_list());
    assert!(pos.has_kings());
    assert_eq!(setup(Some(black_first), &["h8g8"]).err(), Some(SetupError::TooManyPieces));
    assert!(Position::initial().fits_move_list());
    // sixteen pieces are fine
    assert!(Position::from_fen("7k/8/8/8/8/8/NNNNNNNN/NNNNNNNK w - - 0 1").is_ok());
}
