use redline::board::bitboard::{bit, count_bits, pop_lsb};
use redline::board::board::Board;
use redline::board::moves::{flags, Move};
use redline::board::piece::{Color, PieceType};

#[test]
fn test_bit() {
    assert_eq!(bit(0), 1);
    assert_eq!(bit(1), 2);
    assert_eq!(bit(7), 128);
}

#[test]
fn test_pop_lsb() {
    let mut bb = 0b101000;
    let sq = pop_lsb(&mut bb);
    assert_eq!(sq, 3);
    assert_eq!(bb, 0b100000);
}

#[test]
fn test_count_bits() {
    assert_eq!(count_bits(0b1111), 4);
    assert_eq!(count_bits(0), 0);
}

#[test]
fn test_startpos_piece_count() {
    let b = Board::startpos();
    assert_eq!(b.piece_count(), 32);
}

#[test]
fn test_white_pawns_position() {
    let b = Board::startpos();
    assert_eq!(b.pawns[0], 0x000000000000FF00);
}

#[test]
fn test_black_pawns_position() {
    let b = Board::startpos();
    assert_eq!(b.pawns[1], 0x00FF000000000000);
}

#[test]
fn test_make_move() {
    let mut b = Board::startpos();
    // e2 = 12, e4 = 28
    let m = Move::new(12, 28, flags::DOUBLE_PAWN);
    let _state = b.make_move(m);

    assert_eq!(b.pieces[12], PieceType::Empty);
    assert_eq!(b.pieces[28], PieceType::Pawn);
    assert_eq!(b.en_passant_square, Some(20));
    assert_eq!(b.side_to_move, Color::Black);
}

#[test]
fn test_occupancy_updates() {
    let mut b = Board::startpos();
    b.remove_piece(8, PieceType::Pawn, Color::White);
    b.update_occupancy();
    assert_eq!(b.piece_count(), 31);
}

#[test]
fn test_fen_conversion() {
    let b = Board::startpos();
    let fen = b.to_fen();
    assert_eq!(fen, "rnbqkbnr/pppppppp/8/8/8/8/PPPPPPPP/RNBQKBNR w KQkq - 0 1");
}

#[test]
fn test_fen_parsing() {
    let fen = "rnbqkbnr/pp1ppppp/8/2p5/4P3/8/PPPP1PPP/RNBQKBNR w KQkq c6 0 2";
    let b = Board::from_fen(fen).unwrap();
    assert_eq!(b.to_fen(), fen);
    assert_eq!(b.en_passant_square, Some(42));
}

#[test]
fn test_parse_move() {
    let b = Board::startpos();
    let m = b.parse_move("e2e4").unwrap();
    assert_eq!(m.from(), 12);
    assert_eq!(m.to(), 28);
    assert_eq!(m.flags(), flags::DOUBLE_PAWN);
}

#[test]
fn test_draw_by_repetition() {
    redline::movegen::init_all();
    redline::engine::eval::init_eval();
    let mut board = Board::from_fen("8/8/8/8/8/2k5/8/R1K5 w - - 0 1").unwrap();
    let m1 = board.parse_move("a1b1").unwrap();
    board.make_move(m1);
    let m2 = board.parse_move("c3d3").unwrap();
    board.make_move(m2);
    let m3 = board.parse_move("b1a1").unwrap();
    board.make_move(m3);
    let m4 = board.parse_move("d3c3").unwrap();
    board.make_move(m4);
    assert!(board.is_repetition(), "Should detect repetition after 4 half-moves returning to start");
}

#[test]
fn test_diagram_lines_of_start_position() {
    redline::movegen::init_all();
    let b = Board::startpos();
    let lines = b.diagram_lines();
    assert_eq!(lines.len(), 12);
    assert_eq!(lines[0], "  +-----------------+");
    assert_eq!(lines[1], "8 | r n b q k b n r |");
    assert_eq!(lines[2], "7 | p p p p p p p p |");
    assert_eq!(lines[3], "6 | . . . . . . . . |");
    assert_eq!(lines[7], "2 | P P P P P P P P |");
    assert_eq!(lines[8], "1 | R N B Q K B N R |");
    assert_eq!(lines[9], "  +-----------------+");
    assert_eq!(lines[10], "    a b c d e f g h");
    assert_eq!(lines[11], "FEN: rnbqkbnr/pppppppp/8/8/8/8/PPPPPPPP/RNBQKBNR w KQkq - 0 1");
}
