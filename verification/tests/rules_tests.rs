use redline::board::board::Board;
use redline::board::fen::fen_in_range;
use redline::board::moves::{flags, Move};
use redline::engine::eval::{init_eval, PawnTable};
use redline::engine::movepicker::MovePicker;
use redline::engine::search::{first_legal_move, time_up, window_step, Searcher, WindowStep, MATE_VALUE};
use redline::engine::tt::{replacement, NodeType, TTEntry, TranspositionTable};
use redline::movegen::{generate_captures, generate_legal_moves, generate_pseudo_legal_moves, generate_quiets, init_all};
use redline::movegen::move_list::MoveList;
use std::sync::Arc;

fn list(moves: &MoveList) -> Vec<Move> {
    (0..moves.len()).map(|i| moves.get(i)).collect()
}

fn assert_distinct(moves: &MoveList) {
    let v = list(moves);
    for i in 0..v.len() {
        for j in (i + 1)..v.len() {
            assert!(v[i] != v[j], "move listed twice: {}", v[i].to_uci_string());
        }
    }
}

#[test]
fn pinned_blocker_cannot_block_check() {
    init_all();
    let b = Board::from_fen("4r1k1/8/8/8/1b6/8/4R3/4K3 w - - 0 1").unwrap();
    // Re2-d2 blocks the bishop's check but opens the e-file to the rook on e8.
    assert!(!b.is_legal(Move::new(12, 11, flags::QUIET)));
    let legal = list(&generate_legal_moves(&b));
    assert!(!legal.contains(&Move::new(12, 11, flags::QUIET)));
    // The king may still step aside.
    assert!(legal.contains(&Move::new(4, 5, flags::QUIET)));
}

#[test]
fn generated_lists_hold_each_move_once() {
    init_all();
    let fens = [
        "rnbqkbnr/pppppppp/8/8/8/8/PPPPPPPP/RNBQKBNR w KQkq - 0 1",
        "r3k2r/p1ppqpb1/bn2pnp1/3PN3/1p2P3/2N2Q1p/PPPBBPPP/R3K2R w KQkq - 0 1",
        "8/2P5/8/8/8/8/5p2/K6k w - - 0 1",
        "rnbqkbnr/ppp1p1pp/8/3pPp2/8/8/PPPP1PPP/RNBQKBNR w KQkq f6 0 3",
    ];
    for fen in fens.iter() {
        let b = Board::from_fen(fen).unwrap();
        assert_distinct(&generate_pseudo_legal_moves(&b));
        assert_distinct(&generate_captures(&b));
        assert_distinct(&generate_quiets(&b));
        assert_distinct(&generate_legal_moves(&b));
    }
}

#[test]
fn promotion_moves_listed_once_each() {
    init_all();
    let b = Board::from_fen("8/2P5/8/8/8/8/5p2/K6k w - - 0 1").unwrap();
    let moves = list(&generate_pseudo_legal_moves(&b));
    let promos = moves.iter().filter(|m| m.from() == 50 && m.to() == 58).count();
    assert_eq!(promos, 4);
}

#[test]
fn first_legal_move_finds_a_legal_move() {
    init_all();
    let b = Board::startpos();
    let m = first_legal_move(&b).unwrap();
    assert!(list(&generate_legal_moves(&b)).contains(&m));
    // Fool's mate: White has no legal move.
    let mated = Board::from_fen("rnb1kbnr/pppp1ppp/8/4p3/6Pq/5P2/PPPPP2P/RNBQKBNR w KQkq - 1 3").unwrap();
    assert_eq!(first_legal_move(&mated), None);
}

#[test]
fn table_cutoff_follows_the_bound() {
    let s = Searcher::new(Arc::new(TranspositionTable::new(1)));
    let entry = |score: i32, depth: u8, node_type: NodeType| TTEntry { key: 7, depth, score, node_type, best_move: None, age: 0 };
    assert_eq!(s.tt_node_cut(Some(entry(30, 4, NodeType::Exact)), 4, -100, 100, 2, true), Some(30));
    assert_eq!(s.tt_node_cut(Some(entry(30, 3, NodeType::Exact)), 4, -100, 100, 2, true), None);
    assert_eq!(s.tt_node_cut(Some(entry(30, 4, NodeType::Exact)), 4, -100, 100, 2, false), None);
    assert_eq!(s.tt_node_cut(Some(entry(-150, 5, NodeType::Alpha)), 4, -100, 100, 2, true), Some(-150));
    assert_eq!(s.tt_node_cut(Some(entry(-50, 5, NodeType::Alpha)), 4, -100, 100, 2, true), None);
    assert_eq!(s.tt_node_cut(Some(entry(150, 5, NodeType::Beta)), 4, -100, 100, 2, true), Some(150));
    assert_eq!(s.tt_node_cut(Some(entry(50, 5, NodeType::Beta)), 4, -100, 100, 2, true), None);
    // A mate score stored at the node is read back relative to the root.
    assert_eq!(s.tt_node_cut(Some(entry(MATE_VALUE - 3, 5, NodeType::Exact)), 4, -100, 100, 2, true), Some(MATE_VALUE - 5));
    assert_eq!(s.tt_node_cut(None, 4, -100, 100, 2, true), None);
}

#[test]
fn no_move_scores() {
    let s = Searcher::new(Arc::new(TranspositionTable::new(1)));
    assert_eq!(s.no_move_score(true, 3), -99997);
    assert_eq!(s.no_move_score(false, 3), 0);
}

#[test]
fn table_values_round_trip_at_any_ply() {
    let s = Searcher::new(Arc::new(TranspositionTable::new(1)));
    for &v in [150, MATE_VALUE - 3, -MATE_VALUE + 7].iter() {
        for &ply in [0u32, 5, 1000, 1_000_000].iter() {
            assert_eq!(s.value_from_tt(s.value_to_tt(v, ply), ply), v);
        }
    }
    assert_eq!(s.value_to_tt(MATE_VALUE - 3, 1000), MATE_VALUE + 997);
}

#[test]
fn pawn_table_size_is_next_power_of_two() {
    assert_eq!(PawnTable::new(0).table.len(), 1);
    assert_eq!(PawnTable::new(1).table.len(), 1);
    assert_eq!(PawnTable::new(5).table.len(), 8);
    assert_eq!(PawnTable::new(1024).table.len(), 1024);
    assert_eq!(PawnTable::new(1025).table.len(), 2048);
}

#[test]
fn boards_with_shared_keys_hash_alike() {
    let a = Board::startpos();
    let fen = "rnbqkbnr/pppppppp/8/8/8/8/PPPPPPPP/RNBQKBNR w KQkq - 0 1";
    let b = Board::from_fen_keyed(fen, a.keys).unwrap();
    assert_eq!(a.hash, b.hash);
    let c = Board::startpos_keyed(a.keys);
    assert_eq!(a.hash, c.hash);
}

#[test]
fn picker_hands_out_table_move_first_and_every_move() {
    init_all();
    init_eval();
    let s = Searcher::new(Arc::new(TranspositionTable::new(1)));
    let b = Board::startpos();
    let tt = Move::new(12, 28, flags::DOUBLE_PAWN);
    let mut p = MovePicker::new(Some(tt), false, false, [None, None], None);
    let first = p.next(&s, &b, 0);
    assert_eq!(first, Some(tt));
    let mut rest = Vec::new();
    while let Some(m) = p.next(&s, &b, 0) {
        assert!(m != tt, "table move handed out twice");
        rest.push(m);
    }
    let all = list(&generate_pseudo_legal_moves(&b));
    for m in all.iter() {
        assert!(*m == tt || rest.contains(m), "move {} not handed out", m.to_uci_string());
    }
}

#[test]
fn picker_skips_the_excluded_move() {
    init_all();
    init_eval();
    let s = Searcher::new(Arc::new(TranspositionTable::new(1)));
    let b = Board::from_fen("r3k2r/p1ppqpb1/bn2pnp1/3PN3/1p2P3/2N2Q1p/PPPBBPPP/R3K2R w KQkq - 0 1").unwrap();
    let excluded = Move::new(35, 44, flags::CAPTURE);
    let mut p = MovePicker::with_excluded(None, Some(excluded), false);
    let mut seen = Vec::new();
    while let Some(m) = p.next(&s, &b, 0) {
        assert!(m != excluded);
        seen.push(m);
    }
    for m in list(&generate_pseudo_legal_moves(&b)).iter() {
        assert!(*m == excluded || seen.contains(m), "move {} not handed out", m.to_uci_string());
    }
}

#[test]
fn en_passant_field_is_read_by_bytes() {
    // Three bytes: not a position.
    assert!(fen_in_range("4k3/8/8/8/8/8/8/4K3 w - \u{e9}1 0 1"));
    assert!(Board::from_fen("4k3/8/8/8/8/8/8/4K3 w - \u{e9}1 0 1").is_none());
    // One character of two bytes cannot be read as a square.
    assert!(!fen_in_range("4k3/8/8/8/8/8/8/4K3 w - \u{e9} 0 1"));
    // Two ASCII bytes naming a square.
    let b = Board::from_fen("4k3/8/8/3pP3/8/8/8/4K3 w - d6 0 1").unwrap();
    assert_eq!(b.en_passant_square, Some(43));
}

#[test]
fn aspiration_window_steps() {
    let inf = 1_000_000;
    let st = |alpha: i32, beta: i32, delta: i32, settled: bool, keep_move: bool| WindowStep { alpha, beta, delta, settled, keep_move };
    assert!(window_step(10, -50, 50, 50) == st(-50, 50, 50, true, true));
    assert!(window_step(-60, -50, 50, 50) == st(-100, 50, 100, false, true));
    assert!(window_step(60, -50, 50, 50) == st(-50, 100, 100, false, true));
    // Near a mate score the failing side opens fully.
    assert!(window_step(-99_000, -98_950, -98_850, 100) == st(-inf, -98_850, 200, false, true));
    assert!(window_step(99_000, 98_850, 98_950, 100) == st(98_850, inf, 200, false, true));
    // A margin of 10000 or more opens the window fully.
    assert!(window_step(-200, -100, 100, 6_000) == st(-inf, inf, 12_000, false, true));
    // A margin of 2^29 settles a failed search without its move.
    assert!(window_step(-200, -100, 100, 0x2000_0000) == st(-inf, 100, 0x2000_0000, true, false));
    assert_eq!(MATE_VALUE, 100_000);
}

#[test]
fn picker_hands_out_each_move_once() {
    init_all();
    init_eval();
    let s = Searcher::new(Arc::new(TranspositionTable::new(1)));
    let b = Board::from_fen("r3k2r/p1ppqpb1/bn2pnp1/3PN3/1p2P3/2N2Q1p/PPPBBPPP/R3K2R w KQkq - 0 1").unwrap();
    // Quiet killers and counter move: nothing may come twice.
    let killers = [Some(Move::new(0, 1, flags::QUIET)), Some(Move::new(4, 3, flags::QUIET))];
    let cm = Some(Move::new(4, 5, flags::QUIET));
    let mut p = MovePicker::new(None, false, false, killers, cm);
    let mut seen: Vec<Move> = Vec::new();
    while let Some(m) = p.next(&s, &b, 0) {
        assert!(!seen.contains(&m), "move {} handed out twice", m.to_uci_string());
        seen.push(m);
    }
    let all = list(&generate_pseudo_legal_moves(&b));
    assert_eq!(seen.len(), all.len());
}

#[test]
fn time_limits_stop_the_search() {
    assert!(!time_up(500, None, None));
    assert!(!time_up(999, Some(1000), None));
    assert!(time_up(1000, Some(1000), None));
    // The hard limit, when there is one, decides.
    assert!(!time_up(1500, Some(1000), Some(2000)));
    assert!(time_up(2000, Some(1000), Some(2000)));
    assert!(time_up(2000, None, Some(2000)));
}

#[test]
fn table_replacement_slots() {
    // The slot already holding the key, the first checked first.
    assert_eq!(replacement(7, 7, 9, 3, 10), (true, false));
    assert_eq!(replacement(7, 7, 7, 3, 10), (true, false));
    assert_eq!(replacement(7, 9, 7, 3, 10), (false, true));
    // Otherwise the first slot, and the second when at least as deep.
    assert_eq!(replacement(7, 8, 9, 3, 10), (true, false));
    assert_eq!(replacement(7, 8, 9, 10, 10), (true, true));
    assert_eq!(replacement(7, 8, 9, 12, 10), (true, true));
}

#[test]
fn table_keeps_a_stored_result() {
    let tt = TranspositionTable::new(1);
    tt.store(12345, 6, 77, NodeType::Exact, Some(Move::new(12, 28, flags::DOUBLE_PAWN)), 1);
    let e = tt.probe(12345).unwrap();
    assert_eq!(e.depth, 6);
    assert_eq!(e.score, 77);
    assert_eq!(e.best_move, Some(Move::new(12, 28, flags::DOUBLE_PAWN)));
    assert!(tt.probe(54321).is_none());
}

#[test]
fn start_position_and_its_fen_hash_alike() {
    let s = Board::startpos();
    let f = Board::from_fen("rnbqkbnr/pppppppp/8/8/8/8/PPPPPPPP/RNBQKBNR w KQkq - 0 1").unwrap();
    assert_eq!(s.hash, f.hash);
    assert_eq!(s.pawn_hash, f.pawn_hash);
    assert_eq!(s.hash, f.compute_hash());
    // The side to move changes the hash by the side key only.
    let g = Board::from_fen("rnbqkbnr/pppppppp/8/8/8/8/PPPPPPPP/RNBQKBNR b KQkq - 7 9").unwrap();
    assert_eq!(s.hash ^ g.hash, s.keys.hash_side());
}

#[test]
fn legal_moves_are_those_that_leave_no_check() {
    init_all();
    let fens = [
        "rnbqkbnr/pppppppp/8/8/8/8/PPPPPPPP/RNBQKBNR w KQkq - 0 1",
        "4r1k1/8/8/8/1b6/8/4R3/4K3 w - - 0 1",
        "r3k2r/p1ppqpb1/bn2pnp1/3PN3/1p2P3/2N2Q1p/PPPBBPPP/R3K2R w KQkq - 0 1",
        "8/2p5/3p4/KP5r/1R3p1k/8/4P1P1/8 w - - 0 1",
        "8/8/8/K2pP2q/8/8/8/7k w - d6 0 1",
        "r3k2r/8/8/8/8/8/8/R3K1r1 w KQkq - 0 1",
        "4k3/8/8/8/8/8/3n4/R3K2R w KQ - 0 1",
    ];
    for fen in fens {
        let b = Board::from_fen(fen).unwrap();
        let pseudo = list(&generate_pseudo_legal_moves(&b));
        for m in pseudo {
            let mut after = b.clone();
            after.make_move(m);
            let safe = !after.is_in_check(b.side_to_move);
            assert_eq!(b.is_legal(m), safe, "{} {}", fen, m.to_uci_string());
        }
    }
}

#[test]
fn legal_moves_in_check_are_evasions() {
    init_all();
    let fens = [
        "4r1k1/8/8/8/1b6/8/4R3/4K3 w - - 0 1",
        "r3k2r/8/8/8/8/8/8/R3K1r1 w KQkq - 0 1",
        "4k3/8/8/8/8/5n2/8/R3K2R w KQ - 0 1",
    ];
    for fen in fens {
        let b = Board::from_fen(fen).unwrap();
        assert!(b.is_in_check(b.side_to_move));
        let evasions = list(&redline::movegen::generate_evasions(&b));
        for m in list(&generate_legal_moves(&b)) {
            assert!(evasions.contains(&m), "{} {}", fen, m.to_uci_string());
        }
    }
}
