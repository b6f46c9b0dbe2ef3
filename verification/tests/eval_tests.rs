use redline::board::board::Board;
use redline::board::piece::{Color, PieceType};
use redline::engine::eval::{evaluate, init_eval, EvalScore, PawnEntry, PawnTable};

#[test]
fn test_initial_eval() {
    init_eval();
    let board = Board::startpos();
    assert_eq!(evaluate(&board, None), 12);
}

#[test]
fn test_material_advantage() {
    init_eval();
    let mut board = Board::startpos();
    board.remove_piece(52, PieceType::Pawn, Color::Black);
    let score = evaluate(&board, None);
    assert!(score > 12);
}

#[test]
fn test_from_fen_vs_startpos_pst() {
    init_eval();
    redline::movegen::init_all();
    let startpos = Board::startpos();
    let from_fen = Board::from_fen("rnbqkbnr/pppppppp/8/8/8/8/PPPPPPPP/RNBQKBNR w KQkq - 0 1").unwrap();
    assert_eq!(startpos.mg_pst, from_fen.mg_pst);
    assert_eq!(startpos.eg_pst, from_fen.eg_pst);
    assert_eq!(evaluate(&startpos, None), evaluate(&from_fen, None));
}

#[test]
fn test_tempo_bonus() {
    init_eval();
    let mut board = Board::startpos();
    let score_white = evaluate(&board, None);
    board.side_to_move = Color::Black;
    let score_black = evaluate(&board, None);
    assert_eq!(score_white + score_black, 24);
}

#[test]
fn eval_test_eval_symmetry() {
    init_eval();
    redline::movegen::init_all();
    let fen = "r3k2r/p1ppqpb1/bn2pnp1/3PN3/1p2P3/2N2Q1p/PPPBBPPP/R3K2R w KQkq - 0 1";
    let board = Board::from_fen(fen).unwrap();
    let eval_w = evaluate(&board, None);
    let fen_b = "r3k2r/pppbbppp/2n2q1P/1P2p3/3pn3/BN2PNP1/P1PPQPB1/R3K2R b KQkq - 0 1";
    let board_b = Board::from_fen(fen_b).unwrap();
    let eval_b = evaluate(&board_b, None);
    assert_eq!(eval_w, eval_b, "Eval is not symmetric!");
}

#[test]
fn test_pawn_table_store_then_probe() {
    let mut t = PawnTable::new(16);
    assert_eq!(t.table.len(), 16);
    let key: u64 = 0xDEAD_BEEF_0000_0013;
    assert!(t.probe(key).is_none());
    let e = PawnEntry { key, score: EvalScore { mg: 12, eg: -7 }, passed_pawns: [1, 2], pawn_attacks: [3, 4] };
    t.store(key, e);
    let got = t.probe(key).expect("stored entry");
    assert_eq!(got.key, key);
    assert_eq!(got.score.mg, 12);
    assert_eq!(got.score.eg, -7);
    assert_eq!(got.passed_pawns, [1, 2]);
    assert_eq!(got.pawn_attacks, [3, 4]);
    // Another key in the same slot is not mistaken for it.
    assert!(t.probe(key + 16).is_none());
}
