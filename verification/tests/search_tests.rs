use redline::board::board::Board;
use redline::board::moves::flags;
use redline::engine::search::{SearchResult, SearchSettings, Searcher, MATE_VALUE};
use redline::engine::tt::TranspositionTable;
use std::sync::Arc;

fn init() {
    redline::movegen::init_all();
    redline::engine::eval::init_eval();
}

fn make_searcher() -> Searcher {
    let tt = Arc::new(TranspositionTable::new(4));
    let mut s = Searcher::new(tt);
    s.is_main_thread = false;
    s
}

fn search_position(fen: &str, depth: u32) -> SearchResult {
    init();
    let mut board = Board::from_fen(fen).unwrap();
    let mut searcher = make_searcher();
    searcher.search(&mut board, depth, None, None, 1)
}

fn search_position_with_settings(fen: &str, depth: u32, settings: SearchSettings) -> SearchResult {
    init();
    let mut board = Board::from_fen(fen).unwrap();
    let mut searcher = make_searcher();
    searcher.settings = settings;
    searcher.search(&mut board, depth, None, None, 1)
}

#[test]
fn test_lmr_history_correct_side() {
    init();
    let mut board = Board::from_fen("r1bqkb1r/pppp1ppp/2n2n2/4p2Q/2B1P3/8/PPPP1PPP/RNB1K1NR w KQkq - 4 4").unwrap();
    let mut searcher = make_searcher();
    let result = searcher.search(&mut board, 4, None, None, 1);
    let best = result.best_move.unwrap();
    assert_eq!(best.to(), 53, "Should find Qxf7# (capture on f7)");
    assert!(result.score > MATE_VALUE - 100, "Should detect mate, got score {}", result.score);
}

#[test]
fn test_history_table_updated_for_correct_side() {
    init();
    let mut board = Board::startpos();
    let mut searcher = make_searcher();
    searcher.search(&mut board, 6, None, None, 1);
    let mut has_nonzero = false;
    for from in 0..64 {
        for to in 0..64 {
            if searcher.history[from * 64 + to] != 0 {
                has_nonzero = true;
            }
        }
    }
    assert!(has_nonzero, "White history table should have non-zero entries after depth 6 search");
}

#[test]
fn test_lmr_at_pv_nodes_reduces_node_count() {
    init();
    let mut board = Board::startpos();
    let tt1 = Arc::new(TranspositionTable::new(4));
    let mut searcher_lmr = Searcher::new(tt1);
    searcher_lmr.search(&mut board, 5, None, None, 1);
    let nodes_with_lmr = searcher_lmr.node_count();

    let tt2 = Arc::new(TranspositionTable::new(4));
    let mut searcher_no_lmr = Searcher::new(tt2);
    searcher_no_lmr.settings.lmr = false;
    searcher_no_lmr.search(&mut board, 5, None, None, 1);
    let nodes_without_lmr = searcher_no_lmr.node_count();

    assert!(
        nodes_with_lmr < nodes_without_lmr,
        "LMR should reduce node count: {} with vs {} without",
        nodes_with_lmr,
        nodes_without_lmr
    );
}

#[test]
fn test_search_finds_move_at_all_depths() {
    init();
    for depth in 1..=5 {
        let mut board = Board::startpos();
        let mut searcher = make_searcher();
        let result = searcher.search(&mut board, depth, None, None, 1);
        assert!(result.best_move.is_some(), "Should find a move at depth {}", depth);
    }
}

#[test]
fn test_queen_promotion_found() {
    init();
    let mut board = Board::from_fen("7k/4P3/8/8/8/8/8/4K3 w - - 0 1").unwrap();
    let mut searcher = make_searcher();
    let result = searcher.search(&mut board, 6, None, None, 1);
    let best = result.best_move.unwrap();
    assert!((best.flags() & 0x8) != 0, "Best move should be a promotion, got flags=0x{:x}", best.flags());
    assert!(
        best.flags() == flags::PROMOTE_QUEEN || best.flags() == flags::PROMOTE_QUEEN_CAPTURE,
        "Should promote to queen, got flags=0x{:x}",
        best.flags()
    );
}

#[test]
fn test_queen_promotion_not_classified_as_quiet() {
    let promo_flags = flags::PROMOTE_QUEEN;
    let is_promotion = (promo_flags & 0x8) != 0;
    let is_quiet = (promo_flags & flags::CAPTURE) == 0 && !is_promotion;
    assert!(!is_quiet, "Queen promotion should NOT be classified as quiet");

    let quiet_flags = flags::QUIET;
    let is_promotion_q = (quiet_flags & 0x8) != 0;
    let is_quiet_q = (quiet_flags & flags::CAPTURE) == 0 && !is_promotion_q;
    assert!(is_quiet_q, "Normal quiet move should be classified as quiet");

    let cap_flags = flags::CAPTURE;
    let is_promotion_c = (cap_flags & 0x8) != 0;
    let is_quiet_c = (cap_flags & flags::CAPTURE) == 0 && !is_promotion_c;
    assert!(!is_quiet_c, "Capture should NOT be classified as quiet");
}

#[test]
fn search_test_eval_symmetry() {
    init();
    let board_w = Board::from_fen("r1bqkbnr/pppppppp/2n5/8/4P3/8/PPPP1PPP/RNBQKBNR w KQkq - 1 2").unwrap();
    let score_w = redline::engine::eval::evaluate(&board_w, None);
    let board_b = Board::from_fen("rnbqkbnr/pppp1ppp/8/4p3/8/2N5/PPPPPPPP/R1BQKBNR b KQkq - 1 2").unwrap();
    let score_b = redline::engine::eval::evaluate(&board_b, None);
    assert!(
        (score_w - score_b).abs() <= 5,
        "Eval should be symmetric: white_to_move={} vs mirrored_black_to_move={}",
        score_w,
        score_b
    );
}

#[test]
fn test_tactic_back_rank_mate() {
    let result = search_position("6k1/5ppp/8/8/8/8/8/4Q1K1 w - - 0 1", 4);
    let best = result.best_move.unwrap();
    assert_eq!(best.to(), 60, "Should find Qe8# (to=60)");
    assert!(result.score > MATE_VALUE - 10, "Should detect mate");
}

#[test]
fn test_tactic_avoid_stalemate() {
    let result = search_position("8/8/8/8/8/1k6/8/KQ6 w - - 0 1", 5);
    assert!(result.best_move.is_some(), "Should find a move");
}

#[test]
fn test_mate_in_one_found() {
    let fen = "rnbqkbnr/pppp1ppp/8/4p3/6P1/5P2/PPPPP2P/RNBQKBNR b KQkq - 0 1";
    let result = search_position(fen, 4);
    let best = result.best_move.unwrap();
    assert_eq!(best.from(), 59);
    assert_eq!(best.to(), 31);
    assert!(result.score > MATE_VALUE - 10, "Should detect mate in 1");
}

#[test]
fn test_mate_in_two_found() {
    let result = search_position("r1bq2r1/b4pk1/p1pp1p2/1p2pP2/1P2P1PQ/3P4/1PPB2P1/R3K2R w KQ - 0 1", 5);
    assert!(result.score > MATE_VALUE - 20, "Should find mate in 2, got score {}", result.score);
}

#[test]
fn test_value_to_from_tt_roundtrip() {
    init();
    let searcher = make_searcher();
    let score = 150;
    let tt_val = searcher.value_to_tt(score, 5);
    let restored = searcher.value_from_tt(tt_val, 5);
    assert_eq!(restored, score, "Normal score should roundtrip through TT");

    let mate_score = MATE_VALUE - 3;
    let tt_val = searcher.value_to_tt(mate_score, 5);
    let restored = searcher.value_from_tt(tt_val, 5);
    assert_eq!(restored, mate_score, "Mate score should roundtrip through TT");

    let mated_score = -MATE_VALUE + 7;
    let tt_val = searcher.value_to_tt(mated_score, 5);
    let restored = searcher.value_from_tt(tt_val, 5);
    assert_eq!(restored, mated_score, "Mated score should roundtrip through TT");
}

#[test]
fn test_format_score_mate() {
    let searcher = make_searcher();
    let s = searcher.format_score(MATE_VALUE - 2);
    assert!(s.starts_with("mate"), "Should format as mate: {}", s);
    let s2 = searcher.format_score(-MATE_VALUE + 5);
    assert!(s2.starts_with("mate -"), "Should format as negative mate: {}", s2);
    let s3 = searcher.format_score(100);
    assert_eq!(s3, "cp 100");
}

#[test]
fn test_all_features_vs_none_finds_better_move() {
    init();
    let fen = "r1bqk2r/pppp1ppp/2n2n2/2b1p3/2B1P3/5N2/PPPP1PPP/RNBQK2R w KQkq - 4 4";
    let result_full = search_position_with_settings(fen, 5, SearchSettings::default());
    let result_none = search_position_with_settings(fen, 5, SearchSettings::none());
    assert!(result_full.best_move.is_some());
    assert!(result_none.best_move.is_some());
}

#[test]
fn test_nmp_does_not_crash() {
    let result = search_position_with_settings(
        "rnbqkbnr/pppppppp/8/8/8/8/PPPPPPPP/RNBQKBNR w KQkq - 0 1",
        6,
        SearchSettings { nmp: true, ..SearchSettings::none() },
    );
    assert!(result.best_move.is_some());
}

#[test]
fn test_rfp_does_not_crash() {
    let result = search_position_with_settings(
        "rnbqkbnr/pppppppp/8/8/4P3/8/PPPP1PPP/RNBQKBNR b KQkq - 0 1",
        6,
        SearchSettings { rfp: true, ..SearchSettings::none() },
    );
    assert!(result.best_move.is_some());
}

#[test]
fn test_aspiration_windows_do_not_crash() {
    let result = search_position_with_settings(
        "rnbqkbnr/pppppppp/8/8/8/8/PPPPPPPP/RNBQKBNR w KQkq - 0 1",
        5,
        SearchSettings { aspiration_windows: true, ..SearchSettings::none() },
    );
    assert!(result.best_move.is_some());
}

#[test]
fn test_reduction_increases_with_depth_and_movecount() {
    let searcher = make_searcher();
    let r1 = searcher.reduction(true, 4, 3, 100, 400);
    let r2 = searcher.reduction(true, 8, 3, 100, 400);
    assert!(r2 > r1, "Higher depth should give higher reduction: d4={} d8={}", r1, r2);
    let r3 = searcher.reduction(true, 6, 2, 100, 400);
    let r4 = searcher.reduction(true, 6, 10, 100, 400);
    assert!(r4 > r3, "Higher move count should give higher reduction: mc2={} mc10={}", r3, r4);
}

#[test]
fn test_reduction_lower_when_improving() {
    let searcher = make_searcher();
    let r_improving = searcher.reduction(true, 6, 5, 100, 400);
    let r_not_improving = searcher.reduction(false, 6, 5, 100, 400);
    assert!(
        r_not_improving > r_improving,
        "Not improving should give higher reduction: improving={} not_improving={}",
        r_improving,
        r_not_improving
    );
}

#[test]
fn test_reduction_never_negative_depth() {
    let searcher = make_searcher();
    let r = searcher.reduction(false, 3, 100, 50, 400);
    let d = 1i32.max(std::cmp::min(3 - 1 - r / 1024, 3 - 1));
    assert!(d >= 1, "Reduced depth should be at least 1, got {}", d);
}

#[test]
fn test_search_en_passant() {
    init();
    let mut board = Board::from_fen("rnbqkbnr/ppp1pppp/8/3pP3/8/8/PPPP1PPP/RNBQKBNR w KQkq d6 0 2").unwrap();
    let tt = Arc::new(TranspositionTable::new(1));
    let mut searcher = Searcher::new(tt);
    let result = searcher.search(&mut board, 5, None, None, 1);
    assert!(result.best_move.is_some(), "Search should return a move for en passant position");
}

#[test]
fn test_search_to_depth_zero_completes_nothing() {
    let result = search_position("rnbqkbnr/pppppppp/8/8/8/8/PPPPPPPP/RNBQKBNR w KQkq - 0 1", 0);
    assert!(result.best_move.is_none());
    assert_eq!(result.score, -redline::engine::search::INFINITY);
    assert_eq!(result.depth, 0);
}
