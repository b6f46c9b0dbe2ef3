use redline::board::board::Board;
use redline::board::piece::Color;
use redline::text::split_whitespace;
use redline::uci::{
    adjudicate_result, allocate_time, apply_position, command_kind, go_plan, go_plan_fits, identity_lines, parse_go,
    parse_setoption, position_args_readable, ready_line, GameResult, OptionChange, UciCommand,
};

fn words(s: &str) -> Vec<Vec<char>> {
    split_whitespace(s)
}

fn chars(s: &str) -> Vec<char> {
    s.chars().collect()
}

fn init() {
    redline::movegen::init_all();
}

#[test]
fn test_command_kind_names_each_command() {
    assert_eq!(command_kind(&chars("uci")), UciCommand::Uci);
    assert_eq!(command_kind(&chars("isready")), UciCommand::IsReady);
    assert_eq!(command_kind(&chars("ucinewgame")), UciCommand::UciNewGame);
    assert_eq!(command_kind(&chars("position")), UciCommand::Position);
    assert_eq!(command_kind(&chars("setoption")), UciCommand::SetOption);
    assert_eq!(command_kind(&chars("go")), UciCommand::Go);
    assert_eq!(command_kind(&chars("stop")), UciCommand::Stop);
    assert_eq!(command_kind(&chars("quit")), UciCommand::Quit);
    assert_eq!(command_kind(&chars("Quit")), UciCommand::Unknown);
    assert_eq!(command_kind(&chars("")), UciCommand::Unknown);
}

#[test]
fn test_identity_and_ready_lines() {
    let lines = identity_lines();
    assert_eq!(lines.len(), 3);
    assert_eq!(lines[0], "id name Redline");
    assert_eq!(lines[1], "id author Fabian Merkl");
    assert_eq!(lines[2], "uciok");
    assert_eq!(ready_line(), "readyok");
}

#[test]
fn test_parse_setoption_threads_and_hash() {
    assert_eq!(parse_setoption(&words("name Threads value 4")), OptionChange::Threads(4));
    assert_eq!(parse_setoption(&words("name Hash value 256")), OptionChange::Hash(256));
    assert_eq!(parse_setoption(&words("name Hash value big")), OptionChange::Nothing);
    assert_eq!(parse_setoption(&words("name Ponder value true")), OptionChange::Nothing);
    assert_eq!(parse_setoption(&words("name Threads")), OptionChange::Nothing);
}

#[test]
fn test_parse_go_reads_each_keyword() {
    let p = parse_go(&words("wtime 60000 btime 50000 winc 100 binc 200 movestogo 20 depth 9 nodes 5000 movetime 300"));
    assert_eq!(p.wtime, Some(60000));
    assert_eq!(p.btime, Some(50000));
    assert_eq!(p.winc, 100);
    assert_eq!(p.binc, 200);
    assert_eq!(p.movestogo, Some(20));
    assert_eq!(p.depth, Some(9));
    assert_eq!(p.nodes, Some(5000));
    assert_eq!(p.movetime, Some(300));
    assert!(!p.infinite);

    let q = parse_go(&words("infinite"));
    assert!(q.infinite);
    assert_eq!(q.depth, None);
    assert_eq!(q.wtime, None);
}

#[test]
fn test_parse_go_defaults_for_unreadable_numbers() {
    let p = parse_go(&words("depth deep movestogo x wtime -5"));
    assert_eq!(p.depth, Some(64));
    assert_eq!(p.movestogo, Some(30));
    assert_eq!(p.wtime, Some(0));
    let q = parse_go(&words("depth"));
    assert_eq!(q.depth, None);
}

#[test]
fn test_allocate_time_values() {
    let p = parse_go(&words("wtime 60000 btime 30000"));
    // 60000 / 30 = 2000, a fifth more with 32 pieces, less the margin.
    assert_eq!(allocate_time(true, 32, &p), Some(2350));
    // 30000 / 30 = 1000 as it is with 15 pieces.
    assert_eq!(allocate_time(false, 15, &p), Some(950));
    // A fifth less with 5 pieces.
    assert_eq!(allocate_time(true, 5, &p), Some(1550));

    let inc = parse_go(&words("wtime 1000 winc 400 movestogo 1"));
    // 1000 + 300 is capped at 800.
    assert_eq!(allocate_time(true, 15, &inc), Some(750));

    let short = parse_go(&words("wtime 90"));
    assert_eq!(allocate_time(true, 15, &short), Some(3));
    let shortish = parse_go(&words("wtime 400"));
    assert_eq!(allocate_time(true, 15, &shortish), Some(10));

    let none = parse_go(&words("btime 1000"));
    assert_eq!(allocate_time(true, 15, &none), None);
}

#[test]
fn test_go_plan_limits_and_depths() {
    init();
    let board = Board::startpos();
    let plan = |s: &str| {
        let p = parse_go(&words(s));
        assert!(go_plan_fits(&p, &board));
        go_plan(&p, &board)
    };
    assert_eq!(plan("movetime 1000"), (Some(980), 100));
    assert_eq!(plan("movetime 10"), (Some(0), 100));
    assert_eq!(plan("infinite"), (None, 100));
    assert_eq!(plan(""), (None, 6));
    assert_eq!(plan("depth 3"), (None, 3));
    assert_eq!(plan("nodes 100"), (None, 100));
    assert_eq!(plan("wtime 60000"), (Some(2350), 100));
    assert_eq!(plan("btime 60000"), (None, 6));
}

#[test]
fn test_go_plan_fits_rejects_zero_moves_to_go() {
    let board = Board::startpos();
    let p = parse_go(&words("wtime 1000 movestogo 0"));
    assert!(!go_plan_fits(&p, &board));
    let q = parse_go(&words("wtime 1000 movestogo 0 movetime 50"));
    assert!(go_plan_fits(&q, &board));
}

fn position_after(args: &str) -> String {
    init();
    let a = words(args);
    assert!(position_args_readable(&a));
    let mut board = Board::startpos();
    apply_position(&mut board, &a);
    board.to_fen()
}

#[test]
fn test_apply_position_startpos_and_moves() {
    assert_eq!(
        position_after("startpos moves e2e4 e7e5 g1f3"),
        "rnbqkbnr/pppp1ppp/8/4p3/4P3/5N2/PPPP1PPP/RNBQKB1R b KQkq - 1 2"
    );
    assert_eq!(position_after("startpos"), "rnbqkbnr/pppppppp/8/8/8/8/PPPPPPPP/RNBQKBNR w KQkq - 0 1");
}

#[test]
fn test_apply_position_skips_illegal_moves() {
    assert_eq!(
        position_after("startpos moves e2e5 d2d4"),
        "rnbqkbnr/pppppppp/8/8/3P4/8/PPP1PPPP/RNBQKBNR b KQkq d3 0 1"
    );
}

#[test]
fn test_apply_position_fen_and_moves() {
    assert_eq!(
        position_after("fen 4k3/8/8/8/8/8/4P3/4K3 w - - 0 1 moves e2e4 e8d7"),
        "8/3k4/8/8/4P3/8/8/4K3 w - - 1 2"
    );
}

#[test]
fn test_apply_position_unreadable_fen_keeps_board() {
    init();
    let a = words("fen 4k3/8/8/8/8/8/4P3/4K3 x");
    assert!(position_args_readable(&a));
    let mut board = Board::from_fen("8/8/8/8/8/8/8/K6k w - - 0 1").unwrap();
    apply_position(&mut board, &a);
    assert_eq!(board.to_fen(), "8/8/8/8/8/8/8/K6k w - - 0 1");
}

#[test]
fn test_position_args_readable_refuses_out_of_range_move() {
    assert!(!position_args_readable(&words("startpos moves e2e4 Z1a1")));
    assert!(position_args_readable(&words("startpos moves e2e4")));
}

#[test]
fn test_adjudicate_results() {
    init();
    let mated = Board::from_fen("rnb1kbnr/pppp1ppp/8/4p3/6Pq/5P2/PPPPP2P/RNBQKBNR w KQkq - 1 3").unwrap();
    assert_eq!(adjudicate_result(&mated), GameResult::BlackWins);
    let mated_black = Board::from_fen("R5k1/5ppp/8/8/8/8/8/6K1 b - - 0 1").unwrap();
    assert_eq!(adjudicate_result(&mated_black), GameResult::WhiteWins);
    let stalemate = Board::from_fen("7k/5Q2/6K1/8/8/8/8/8 b - - 0 1").unwrap();
    assert_eq!(adjudicate_result(&stalemate), GameResult::Draw);
    let start = Board::startpos();
    assert_eq!(start.side_to_move, Color::White);
    assert_eq!(adjudicate_result(&start), GameResult::Draw);
}
