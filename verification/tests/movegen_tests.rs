use redline::board::board::Board;
use redline::board::moves::{flags, Move};
use redline::board::piece::{Color, PieceType};
use redline::board::zobrist::Zobrist;
use redline::movegen::knight::{generate_knight_moves, get_knight_attacks, init_knight_attacks};
use redline::movegen::move_list::MoveList;
use redline::movegen::pawn::generate_pawn_moves;
use redline::movegen::{generate_legal_moves, get_game_state, init_all, GameState, GenType};

fn perft(board: &Board, depth: u32) -> u64 {
    if depth == 0 {
        return 1;
    }
    let mut nodes = 0;
    let moves = generate_legal_moves(board);
    for i in 0..moves.len() {
        let m = moves.get(i);
        let mut temp = board.clone();
        temp.make_move(m);
        nodes += perft(&temp, depth - 1);
    }
    nodes
}

#[test]
fn test_perft_startpos() {
    init_all();
    let b = Board::startpos();
    assert_eq!(perft(&b, 1), 20);
    assert_eq!(perft(&b, 2), 400);
    assert_eq!(perft(&b, 3), 8902);
}

#[test]
fn test_checkmate() {
    init_all();
    let mut b = Board::startpos();
    // Fool's mate: 1. f3 e5 2. g4 Qh4#
    b.make_move(Move::new(13, 21, flags::QUIET));
    b.make_move(Move::new(52, 36, flags::DOUBLE_PAWN));
    b.make_move(Move::new(14, 30, flags::DOUBLE_PAWN));
    b.make_move(Move::new(59, 31, flags::QUIET));
    assert_eq!(get_game_state(&b), GameState::Checkmate);
}

#[test]
fn test_stalemate() {
    init_all();
    let mut b = Board {
        pawns: [0; 2],
        knights: [0; 2],
        bishops: [0; 2],
        rooks: [0; 2],
        queens: [0; 2],
        kings: [0; 2],
        occupancy: [0; 2],
        all_occupancy: 0,
        side_to_move: Color::Black,
        castling_rights: 0,
        en_passant_square: None,
        halfmove_clock: 0,
        fullmove_number: 1,
        last_move: None,
        history: Vec::new(),
        pieces: [PieceType::Empty; 64],
        colors: [Color::NoColor; 64],
        hash: 0,
        mg_pst: 0,
        eg_pst: 0,
        pawn_hash: 0,
        keys: Zobrist::new(),
    };
    // White: Kh1, Qc7; Black: Ka8
    b.put_piece(7, PieceType::King, Color::White);
    b.put_piece(50, PieceType::Queen, Color::White);
    b.put_piece(56, PieceType::King, Color::Black);
    b.update_occupancy();
    assert_eq!(get_game_state(&b), GameState::Stalemate);
}

#[test]
fn test_en_passant_generation() {
    init_all();
    let board = Board::from_fen("rnbqkbnr/ppp1pppp/8/3pP3/8/8/PPPP1PPP/RNBQKBNR w KQkq d6 0 2").unwrap();
    let moves = generate_legal_moves(&board);
    let mut found_ep = false;
    for i in 0..moves.len() {
        let m = moves.get(i);
        if m.flags() == flags::EN_PASSANT {
            found_ep = true;
            assert_eq!(m.from(), 36);
            assert_eq!(m.to(), 43);
        }
    }
    assert!(found_ep, "En Passant move should be generated and legal");
}

#[test]
fn test_white_pawn_moves_startpos() {
    let board = Board::startpos();
    let mut moves = MoveList::new();
    generate_pawn_moves(&board, &mut moves, GenType::All);
    assert_eq!(moves.len(), 16);
}

#[test]
fn test_black_pawn_moves_startpos() {
    let mut board = Board::startpos();
    board.side_to_move = Color::Black;
    let mut moves = MoveList::new();
    generate_pawn_moves(&board, &mut moves, GenType::All);
    assert_eq!(moves.len(), 16);
}

#[test]
fn test_knight_attacks_center() {
    init_knight_attacks();
    let attacks = get_knight_attacks(27);
    assert_eq!(attacks.count_ones(), 8);
}

#[test]
fn test_knight_moves_startpos() {
    init_knight_attacks();
    let board = Board::startpos();
    let mut moves = MoveList::new();
    generate_knight_moves(&board, &mut moves, GenType::All);
    assert_eq!(moves.len(), 4);
}

#[test]
fn test_perft_regression_startpos() {
    init_all();
    let board = Board::startpos();
    assert_eq!(perft(&board, 1), 20);
    assert_eq!(perft(&board, 2), 400);
    assert_eq!(perft(&board, 3), 8902);
    assert_eq!(perft(&board, 4), 197_281);
}

#[test]
fn test_perft_regression_kiwipete() {
    init_all();
    let board = Board::from_fen("r3k2r/p1ppqpb1/bn2pnp1/3PN3/1p2P3/2N2Q1p/PPPBBPPP/R3K2R w KQkq - 0 1").unwrap();
    assert_eq!(perft(&board, 1), 48);
    assert_eq!(perft(&board, 2), 2039);
    assert_eq!(perft(&board, 3), 97862);
}
