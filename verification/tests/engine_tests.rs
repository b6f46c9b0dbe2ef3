use redline::board::board::Board;
use redline::board::moves::{flags, Move};
use redline::engine::movepicker::MovePicker;
use redline::engine::search::{build_lmr_table, SearchSettings, Searcher, MATE_VALUE};
use redline::engine::syzygy::{
    can_probe, pick_best_dtz_move, probe_wdl_score, wdl_rank, wdl_to_score, DtzMove, DtzProbeResult, DtzValue, TbPiece,
    Wdl, TB_VALUE,
};
use redline::engine::tt::{NodeType, TranspositionTable};
use redline::movegen::generate_legal_moves;
use redline::paths::{syzygy_path_string, with_forward_slashes};
use std::path::Path;
use std::sync::Arc;

fn init() {
    redline::movegen::init_all();
    redline::engine::eval::init_eval();
}

fn searcher() -> Searcher {
    let tt = Arc::new(TranspositionTable::new(1));
    Searcher::new(tt)
}

fn flags_of(s: &SearchSettings) -> [bool; 12] {
    [
        s.aspiration_windows,
        s.mate_distance_pruning,
        s.iir,
        s.rfp,
        s.nmp,
        s.singular_extensions,
        s.fp,
        s.history_pruning,
        s.see_pruning,
        s.lmp,
        s.lmr,
        s.delta_pruning,
    ]
}

#[test]
fn test_format_score_exact_text() {
    let s = searcher();
    assert_eq!(s.format_score(MATE_VALUE - 1), "mate 1");
    assert_eq!(s.format_score(MATE_VALUE - 4), "mate 2");
    assert_eq!(s.format_score(-MATE_VALUE + 4), "mate -2");
    assert_eq!(s.format_score(-5), "cp -5");
    assert_eq!(s.format_score(0), "cp 0");
}

#[test]
fn test_tt_value_roundtrip_many_plies() {
    let s = searcher();
    for ply in [0u32, 1, 7, 40, 127] {
        for v in [0, 1, -1, 999, -2500, MATE_VALUE - 3, -MATE_VALUE + 9, 29000, -29000] {
            let stored = s.value_to_tt(v, ply);
            assert_eq!(s.value_from_tt(stored, ply), v);
        }
    }
    // Mate scores are stored relative to the node, other scores as they are.
    assert_eq!(s.value_to_tt(MATE_VALUE - 10, 4), MATE_VALUE - 6);
    assert_eq!(s.value_to_tt(-MATE_VALUE + 10, 4), -MATE_VALUE + 6);
    assert_eq!(s.value_to_tt(123, 4), 123);
}

#[test]
fn test_tt_store_then_probe_gives_entry_back() {
    let tt = TranspositionTable::new(1);
    let key: u64 = 0x1234_5678_9ABC_DEF0;
    let m = Move::new(12, 28, flags::DOUBLE_PAWN);
    tt.store(key, 7, -1234, NodeType::Beta, Some(m), 3);
    let e = tt.probe(key).expect("stored entry");
    assert_eq!(e.key, key);
    assert_eq!(e.depth, 7);
    assert_eq!(e.score, -1234);
    assert!(e.node_type == NodeType::Beta);
    assert_eq!(e.best_move, Some(m));
    assert_eq!(e.age, 3);
    assert!(tt.probe(key ^ 1).is_none());
}

#[test]
fn test_search_settings_from_string() {
    let all_off = [false; 12];
    assert_eq!(flags_of(&SearchSettings::from_string("none")), all_off);
    assert_eq!(flags_of(&SearchSettings::from_string("")), all_off);
    assert_eq!(flags_of(&SearchSettings::from_string("all")), flags_of(&SearchSettings::default()));
    assert_eq!(flags_of(&SearchSettings::from_string("baseline")), flags_of(&SearchSettings::baseline()));
    let mut lmr_see = all_off;
    lmr_see[8] = true;
    lmr_see[10] = true;
    assert_eq!(flags_of(&SearchSettings::from_string(" LMR , see")), lmr_see);
    assert_eq!(flags_of(&SearchSettings::from_string("lmr,none,see")), all_off);
    assert_eq!(flags_of(&SearchSettings::from_string("nmp,all")), flags_of(&SearchSettings::default()));
    let mut aw = all_off;
    aw[0] = true;
    assert_eq!(flags_of(&SearchSettings::from_string("AW,unknown")), aw);
    let d = flags_of(&SearchSettings::default());
    assert_eq!(d, [true, true, true, true, true, false, true, true, true, true, true, true]);
    let b = flags_of(&SearchSettings::baseline());
    assert_eq!(b, [true, true, false, true, true, false, false, false, true, false, true, false]);
}

#[test]
fn test_lmr_table_matches_logarithms() {
    let t = build_lmr_table();
    assert_eq!(t.len(), 256);
    assert_eq!(t[0], 0);
    for i in 1..256usize {
        let expected = (21.4609375 * (i as f64).ln()) as i32;
        assert_eq!(t[i], expected, "factor {}", i);
    }
}

#[test]
fn test_wdl_scores() {
    assert_eq!(wdl_to_score(Wdl::Win, 3), TB_VALUE - 3);
    assert_eq!(wdl_to_score(Wdl::Loss, 3), -TB_VALUE + 3);
    assert_eq!(wdl_to_score(Wdl::CursedWin, 3), TB_VALUE - 5);
    assert_eq!(wdl_to_score(Wdl::BlessedLoss, 3), -TB_VALUE + 5);
    assert_eq!(wdl_to_score(Wdl::Draw, 3), 0);
    assert_eq!(probe_wdl_score(Some(Wdl::Win), 0), Some(TB_VALUE));
    assert_eq!(probe_wdl_score(None, 4), None);
    assert!(wdl_rank(Wdl::Loss) < wdl_rank(Wdl::BlessedLoss));
    assert!(wdl_rank(Wdl::BlessedLoss) < wdl_rank(Wdl::Draw));
    assert!(wdl_rank(Wdl::Draw) < wdl_rank(Wdl::CursedWin));
    assert!(wdl_rank(Wdl::CursedWin) < wdl_rank(Wdl::Win));
}

#[test]
fn test_can_probe_needs_tables_few_pieces_and_no_castling() {
    init();
    let start = Board::startpos();
    assert!(!can_probe(&start, Some(32)));
    let kpk = Board::from_fen("4k3/8/8/8/8/8/4P3/4K3 w - - 0 1").unwrap();
    assert!(can_probe(&kpk, Some(3)));
    assert!(can_probe(&kpk, Some(7)));
    assert!(!can_probe(&kpk, Some(2)));
    assert!(!can_probe(&kpk, None));
}

fn result(wdl: Wdl, from: u8, to: u8, dtz: u16) -> DtzValue {
    DtzValue::Result(DtzMove { wdl, from_square: from, to_square: to, promotion: TbPiece::Pawn, ep: false, dtz })
}

#[test]
fn test_pick_best_dtz_move_prefers_quickest_win() {
    init();
    let board = Board::from_fen("4k3/8/8/8/8/8/4P3/4K3 w - - 0 1").unwrap();
    let mut moves = vec![DtzValue::Failed; 256];
    moves[0] = result(Wdl::Win, 4, 3, 9);
    moves[1] = result(Wdl::Win, 12, 20, 1);
    moves[2] = result(Wdl::Draw, 4, 5, 0);
    moves[3] = result(Wdl::Win, 12, 36, 1);
    let probe = DtzProbeResult { root: result(Wdl::Win, 12, 28, 5), moves, num_moves: 4 };
    let (m, score) = pick_best_dtz_move(&board, &probe).expect("a move");
    assert_eq!(m.from(), 12);
    assert_eq!(m.to(), 20);
    assert_eq!(score, TB_VALUE);
}

#[test]
fn test_pick_best_dtz_move_root_outcomes() {
    init();
    let board = Board::from_fen("4k3/8/8/8/8/8/4P3/4K3 w - - 0 1").unwrap();
    let stalemate = DtzProbeResult { root: DtzValue::Stalemate, moves: vec![DtzValue::Failed; 256], num_moves: 0 };
    assert_eq!(pick_best_dtz_move(&board, &stalemate), Some((Move::from_raw(0), 0)));
    let mate = DtzProbeResult { root: DtzValue::Checkmate, moves: vec![DtzValue::Failed; 256], num_moves: 0 };
    assert_eq!(pick_best_dtz_move(&board, &mate), Some((Move::from_raw(0), -TB_VALUE)));
    let failed = DtzProbeResult { root: DtzValue::Failed, moves: vec![DtzValue::Failed; 256], num_moves: 0 };
    assert_eq!(pick_best_dtz_move(&board, &failed), None);
    let illegal = DtzProbeResult { root: result(Wdl::Win, 12, 44, 3), moves: vec![DtzValue::Failed; 256], num_moves: 0 };
    assert_eq!(pick_best_dtz_move(&board, &illegal), None);
}

#[test]
fn test_syzygy_path_uses_forward_slashes() {
    assert_eq!(syzygy_path_string(Path::new("C:\\tb\\syzygy")), "C:/tb/syzygy");
    assert_eq!(syzygy_path_string(Path::new("/opt/tb")), "/opt/tb");
    assert_eq!(with_forward_slashes("a\\b/c"), "a/b/c");
}

#[test]
fn test_legal_moves_make_unmake_restore_position() {
    init();
    for fen in [
        "rnbqkbnr/pppppppp/8/8/8/8/PPPPPPPP/RNBQKBNR w KQkq - 0 1",
        "r3k2r/p1ppqpb1/bn2pnp1/3PN3/1p2P3/2N2Q1p/PPPBBPPP/R3K2R w KQkq - 0 1",
        "rnbqkbnr/pp1ppppp/8/2pP4/8/8/PPP1PPPP/RNBQKBNR w KQkq c6 0 2",
        "8/P6k/8/8/8/8/6Kp/8 b - - 0 1",
    ] {
        let mut board = Board::from_fen(fen).unwrap();
        let before_hash = board.hash;
        let moves = generate_legal_moves(&board);
        assert!(moves.len() > 0);
        for i in 0..moves.len() {
            let m = moves.get(i);
            let st = board.make_move(m);
            assert_ne!(board.to_fen(), fen);
            board.unmake_move(m, st);
            assert_eq!(board.to_fen(), fen);
            assert_eq!(board.hash, before_hash);
        }
        let st = board.make_null_move();
        board.unmake_null_move(st);
        assert_eq!(board.to_fen(), fen);
        assert_eq!(board.hash, before_hash);
    }
}

#[test]
fn test_fen_export_then_import_gives_same_text() {
    init();
    for fen in [
        "rnbqkbnr/pppppppp/8/8/8/8/PPPPPPPP/RNBQKBNR w KQkq - 0 1",
        "r3k2r/p1ppqpb1/bn2pnp1/3PN3/1p2P3/2N2Q1p/PPPBBPPP/R3K2R w Kq - 12 40",
        "8/8/8/8/8/8/8/K6k b - - 99 300",
        "4k3/8/8/3pP3/8/8/8/4K3 w - d6 0 7",
    ] {
        let b = Board::from_fen(fen).unwrap();
        let text = b.to_fen();
        assert_eq!(text, fen);
        let again = Board::from_fen(&text).unwrap();
        assert_eq!(again.to_fen(), fen);
    }
}

#[test]
fn test_hash_after_moves_matches_hash_from_scratch() {
    init();
    let mut board = Board::from_fen("r3k2r/p1ppqpb1/bn2pnp1/3PN3/1p2P3/2N2Q1p/PPPBBPPP/R3K2R w KQkq - 0 1").unwrap();
    assert_eq!(board.hash, board.compute_hash());
    for _ in 0..6 {
        let moves = generate_legal_moves(&board);
        for i in 0..moves.len() {
            let m = moves.get(i);
            let st = board.make_move(m);
            assert_eq!(board.hash, board.compute_hash());
            board.unmake_move(m, st);
        }
        let m = moves.get(moves.len() / 2);
        board.make_move(m);
        assert_eq!(board.hash, board.compute_hash());
        let st = board.make_null_move();
        assert_eq!(board.hash, board.compute_hash());
        board.unmake_null_move(st);
    }
}

#[test]
fn test_dtz_to_move_finds_the_named_legal_move() {
    init();
    let board = Board::from_fen("4k3/8/8/8/8/8/4P3/4K3 w - - 0 1").unwrap();
    let m = redline::engine::syzygy::dtz_to_move(&board, 12, 28, TbPiece::Pawn, false).expect("e2e4");
    assert_eq!(m.from(), 12);
    assert_eq!(m.to(), 28);
    assert_eq!(m.flags(), flags::DOUBLE_PAWN);
    assert!(redline::engine::syzygy::dtz_to_move(&board, 12, 36, TbPiece::Pawn, false).is_none());
    let promo = Board::from_fen("8/4P3/8/8/8/8/k7/4K3 w - - 0 1").unwrap();
    let q = redline::engine::syzygy::dtz_to_move(&promo, 52, 60, TbPiece::Queen, false).expect("e7e8q");
    assert_eq!(q.flags(), flags::PROMOTE_QUEEN);
    let n = redline::engine::syzygy::dtz_to_move(&promo, 52, 60, TbPiece::Knight, false).expect("e7e8n");
    assert_eq!(n.flags(), flags::PROMOTE_KNIGHT);
}

#[test]
fn test_move_list_iteration_and_slices() {
    init();
    let board = Board::startpos();
    let mut moves = generate_legal_moves(&board);
    let n = moves.len();
    assert_eq!(n, 20);
    let first = moves.get(0);
    let last = moves.get(n - 1);
    moves.as_mut_slice().swap(0, n - 1);
    assert_eq!(moves.get(0), last);
    assert_eq!(moves.get(n - 1), first);
    let collected: Vec<Move> = moves.as_slice().to_vec();
    let mut it = moves.into_iter();
    let mut seen = Vec::new();
    while let Some(m) = it.next() {
        seen.push(m);
    }
    assert_eq!(seen, collected);
}

#[test]
fn test_quiescence_picker_hands_out_captures_only() {
    init();
    let board = Board::from_fen("r3k2r/p1ppqpb1/bn2pnp1/3PN3/1p2P3/2N2Q1p/PPPBBPPP/R3K2R w KQkq - 0 1").unwrap();
    let s = searcher();
    let mut picker = MovePicker::new(None, true, false, [None, None], None);
    let mut count = 0;
    while let Some(m) = picker.next(&s, &board, 0) {
        assert!(m.flags() & flags::CAPTURE != 0, "quiet move {:?} in quiescence", m);
        count += 1;
    }
    assert!(count > 0);

    let mut full = MovePicker::new(None, false, false, [None, None], None);
    let mut all = Vec::new();
    while let Some(m) = full.next(&s, &board, 0) {
        all.push(m);
    }
    let legal = generate_legal_moves(&board);
    for i in 0..legal.len() {
        assert!(all.contains(&legal.get(i)), "legal move not handed out");
    }
}
