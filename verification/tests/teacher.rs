//! The dialogue with a UCI engine, on recorded output.

use std::time::Duration;

use chesszero::records::uci_text;
use chesszero::rules::Position;
use chesszero::teacher::{
    analysis_commands, datagen_options, engine_name, expected_lines, go_command, is_answer, option_command, parse_info, Collector,
    Limit, Step, TeacherError, UciScore,
};

fn parse(fen: &str) -> Position {
    Position::from_fen(fen).unwrap()
}

#[test]
fn a_finished_game_is_reported_as_such() {
    let mated = parse("3R2k1/5ppp/8/8/8/8/5PPP/6K1 b - - 0 1");
    assert!(mated.is_checkmate(), "test position should be checkmate");
    assert!(matches!(analysis_commands(&mated, Limit::Depth(8)), Err(TeacherError::NoLegalMoves)));

    let stalemate = parse("7k/5Q2/6K1/8/8/8/8/8 b - - 0 1");
    assert!(stalemate.is_stalemate(), "test position should be stalemate");
    assert!(matches!(analysis_commands(&stalemate, Limit::Depth(8)), Err(TeacherError::NoLegalMoves)));
}

#[test]
fn scores_become_one_number() {
    assert_eq!(UciScore::Cp(-35).to_cp(), -35);
    assert_eq!(UciScore::Mate(1).to_cp(), 29_900);
    assert_eq!(UciScore::Mate(3).to_cp(), 29_700);
    assert_eq!(UciScore::Mate(-1).to_cp(), -29_900);
    assert_eq!(UciScore::Mate(0).to_cp(), -30_000);
    assert_eq!(UciScore::Mate(199).to_cp(), 10_100);
    for far in [200, 300, 301, 30_000_000, i32::MAX] {
        assert_eq!(UciScore::Mate(far).to_cp(), 10_100);
        assert_eq!(UciScore::Mate(-far).to_cp(), -10_100);
    }
    assert_eq!(UciScore::Mate(i32::MIN).to_cp(), -10_100);
    assert!(UciScore::Mate(2).is_mate() && !UciScore::Cp(2).is_mate());
}

#[test]
fn limits_become_commands() {
    assert_eq!(Limit::Depth(12).to_go(), "go depth 12");
    assert_eq!(Limit::Nodes(10_000).to_go(), "go nodes 10000");
    assert_eq!(Limit::MoveTime(Duration::from_millis(300)).to_go(), "go movetime 300");
    assert_eq!(Limit::MoveTime(Duration::from_micros(1999)).to_go(), "go movetime 1");
    assert_eq!(Limit::MoveTime(Duration::MAX).to_go(), "go movetime 18446744073709551615999");
    assert_eq!(go_command("movetime", 300), "go movetime 300");
    let pos = parse("rnbqkbnr/pppppppp/8/8/4P3/8/PPPP1PPP/RNBQKBNR b KQkq e3 0 1");
    let (position, go) = analysis_commands(&pos, Limit::Nodes(5)).unwrap();
    assert_eq!(position, "position fen rnbqkbnr/pppppppp/8/8/4P3/8/PPPP1PPP/RNBQKBNR b KQkq - 0 1");
    assert_eq!(go, "go nodes 5");
}

#[test]
fn info_lines_are_read() {
    let start = Position::start();
    let line = "info depth 12 seldepth 20 multipv 2 score cp -31 nodes 12345 nps 1000 time 5 pv e2e4 e7e5 g1f3\n";
    let (depth, index, found, nodes) = parse_info(line, &start).unwrap().unwrap();
    assert_eq!((depth, index, nodes), (12, 2, 12345));
    assert_eq!(found.score, UciScore::Cp(-31));
    assert_eq!(uci_text(&found.mv), "e2e4");
    assert_eq!(found.pv.iter().map(uci_text).collect::<Vec<_>>(), vec!["e2e4", "e7e5", "g1f3"]);

    // the variation ends at the first word that is no legal move
    let (_, index, found, nodes) = parse_info("info depth 3 score mate -2 pv d2d4 d2d4", &start).unwrap().unwrap();
    assert_eq!((index, nodes, found.pv.len()), (1, 0, 1));
    assert_eq!(found.score, UciScore::Mate(-2));
}

#[test]
fn info_lines_without_a_verdict_are_passed_over() {
    let start = Position::start();
    for line in [
        "info currmove e2e4 currmovenumber 1",
        "info string hello",
        "info depth 5 score cp 12",
        "info depth 5 pv e2e4",
        "info depth 5 score cp 12 lowerbound pv e2e4",
        "info depth 5 score cp 12 upperbound pv e2e4",
        "info depth x score cp 12 pv e2e4",
        "info depth 5 score cp x pv e2e4",
        "info depth 5 score cp 12 pv",
    ] {
        assert!(matches!(parse_info(line, &start), Ok(None)), "{line}");
    }
    match parse_info(" info depth 5 score cp 12 pv e2e5 \n", &start) {
        Err(TeacherError::Protocol(m)) => {
            assert_eq!(m, "principal variation did not start with a legal move: info depth 5 score cp 12 pv e2e5")
        }
        other => panic!("{other:?}"),
    }
}

fn collect(multipv: usize, lines: &[&str]) -> Collector {
    let start = Position::start();
    let mut collector = Collector::new(multipv);
    for line in lines {
        let step = collector.feed(line, &start);
        assert_eq!(step == Step::Done, line.starts_with("bestmove"), "{line}");
    }
    collector
}

#[test]
fn the_deepest_complete_iteration_is_reported() {
    let collector = collect(
        2,
        &[
            "info string ready",
            "info depth 1 multipv 1 score cp 10 nodes 20 pv a2a3",
            "info depth 1 multipv 2 score cp 5 nodes 30 pv a2a4",
            "info depth 2 multipv 1 score cp 30 nodes 40 pv e2e4 e7e5",
            "info depth 2 multipv 2 score cp 20 nodes 60 pv d2d4",
            "info depth 3 multipv 1 score cp 35 nodes 100 pv e2e4",
            "bestmove e2e4 ponder e7e5",
        ],
    );
    let analysis = collector.finish(Duration::from_secs(1)).unwrap();
    assert_eq!((analysis.depth, analysis.nodes), (2, 100));
    let lines: Vec<(String, i32)> = analysis.lines.iter().map(|l| (uci_text(&l.mv), l.score.to_cp())).collect();
    assert_eq!(lines, vec![("e2e4".to_string(), 30), ("d2d4".to_string(), 20)]);
    assert_eq!(analysis.elapsed, Duration::from_secs(1));
    assert_eq!(uci_text(&analysis.best().unwrap().mv), "e2e4");
}

#[test]
fn a_cut_off_search_still_reports_what_it_has() {
    let collector = collect(4, &["info depth 1 score mate 3 nodes 7 pv e2e4", "bestmove e2e4"]);
    let analysis = collector.finish(Duration::ZERO).unwrap();
    assert_eq!((analysis.depth, analysis.lines.len()), (1, 1));
    assert_eq!(analysis.lines[0].score, UciScore::Mate(3));
    // a later line beyond the expected ones is kept too
    let collector = collect(
        1,
        &["info depth 1 score cp 3 pv e2e4", "info depth 1 multipv 3 score cp 1 pv d2d4", "bestmove e2e4"],
    );
    assert_eq!(collector.finish(Duration::ZERO).unwrap().lines.len(), 2);
}

#[test]
fn broken_output_is_an_error() {
    let collector = collect(1, &["bestmove (none)"]);
    match collector.finish(Duration::ZERO) {
        Err(TeacherError::Protocol(m)) => assert_eq!(m, "no usable info lines"),
        other => panic!("{other:?}"),
    }
    let collector =
        collect(1, &["info depth 1 score cp 3 pv e2e4", "info depth 2 score cp 3 pv e7e5", "bestmove e2e4"]);
    let error = collector.finish(Duration::ZERO).unwrap_err();
    assert_eq!(
        error.message(),
        "unexpected engine output: principal variation did not start with a legal move: info depth 2 score cp 3 pv e7e5"
    );
    let mut collector = Collector::new(1);
    assert_eq!(collector.feed("info depth 1 multipv 0 score cp 3 pv e2e4", &Position::start()), Step::BadIndex);
}

#[test]
fn the_handshake_names_the_engine() {
    assert_eq!(engine_name("id name Reckless 0.9 \n").as_deref(), Some("Reckless 0.9"));
    assert_eq!(engine_name("id author someone"), None);
    assert!(is_answer(" uciok\r\n", "uciok"));
    assert!(!is_answer("uciok!", "uciok"));
}

#[test]
fn options_are_set_for_reproducible_labels() {
    assert_eq!(option_command("Hash", "64"), "setoption name Hash value 64");
    assert_eq!(expected_lines(1, "MultiPV", "4"), 4);
    assert_eq!(expected_lines(3, "multipv", "many"), 1);
    assert_eq!(expected_lines(3, "Threads", "1"), 3);
    let options = datagen_options(4, 64);
    let want = [("Threads", "1"), ("Hash", "64"), ("MultiPV", "4")];
    assert_eq!(options.len(), 3);
    for ((name, value), (n, v)) in options.iter().zip(want) {
        assert_eq!((name.as_str(), value.as_str()), (n, v));
    }
}

#[test]
fn errors_say_what_happened() {
    assert_eq!(TeacherError::Spawn("no file".to_string()).message(), "could not start the engine: no file");
    assert_eq!(TeacherError::Io("broken pipe".to_string()).message(), "engine io failed: broken pipe");
    assert_eq!(TeacherError::EngineGone.message(), "the engine exited unexpectedly");
    assert_eq!(TeacherError::Timeout("uciok".to_string()).message(), "the engine never sent uciok");
    assert_eq!(
        TeacherError::NoLegalMoves.message(),
        "the position is over; there is nothing to analyse"
    );
}

#[test]
fn handshake_reports_a_name() {
    let mut name = String::new();
    for line in ["id name Reckless\n", "id author someone\n", "option name Hash type spin\n", "uciok\n"] {
        if let Some(given) = engine_name(line) {
            name = given;
        }
    }
    assert!(!name.is_empty(), "engine did not identify itself");
}

#[test]
fn analysis_returns_legal_moves_best_first() {
    let pos = Position::start();
    let mut collector = Collector::new(4);
    for line in [
        "info depth 12 multipv 1 score cp 31 nodes 9000 pv e2e4 e7e5",
        "info depth 12 multipv 2 score cp 28 nodes 9100 pv d2d4 d7d5",
        "info depth 12 multipv 3 score cp 20 nodes 9200 pv g1f3 d7d5",
        "info depth 12 multipv 4 score cp 17 nodes 9300 pv c2c4 e7e5",
    ] {
        assert_eq!(collector.feed(line, &pos), Step::More);
    }
    let analysis = collector.finish(Duration::ZERO).unwrap();
    assert!(analysis.depth >= 12, "depth {} below request", analysis.depth);
    assert_eq!(analysis.lines.len(), 4, "MultiPV 4 should give four lines");
    let legal = pos.legal_moves();
    for line in &analysis.lines {
        assert!(legal.contains(&line.mv), "{:?} is not legal here", line.mv);
        assert!(!line.pv.is_empty(), "line has no principal variation");
        assert_eq!(line.pv[0], line.mv, "pv must start with the move it scores");
    }
    let scores: Vec<i32> = analysis.lines.iter().map(|l| l.score.to_cp()).collect();
    let mut sorted = scores.clone();
    sorted.sort_by(|a, b| b.cmp(a));
    assert_eq!(scores, sorted, "lines are not ordered best first: {scores:?}");
}

#[test]
fn forced_mate_is_reported_as_mate_not_centipawns() {
    let pos = parse("6k1/5ppp/8/8/8/8/5PPP/3R2K1 w - - 0 1");
    let mut collector = Collector::new(4);
    collector.feed("info depth 10 multipv 1 score mate 1 nodes 40 pv d1d8", &pos);
    collector.feed("info depth 10 multipv 2 score cp 480 nodes 90 pv g1f1 g8f8", &pos);
    let analysis = collector.finish(Duration::ZERO).unwrap();
    let best = analysis.best().expect("no lines");
    assert_eq!(best.score, UciScore::Mate(1), "expected mate in one, got {:?}", best.score);
    assert_eq!(uci_text(&best.mv), "d1d8", "expected Rd8#, got {:?}", best.mv);
}

#[test]
fn extra_lines_do_not_outweigh_depth() {
    // one line was asked for, so every iteration with a line is complete
    let collector = collect(
        1,
        &[
            "info depth 1 multipv 1 score cp 3 pv e2e4",
            "info depth 1 multipv 2 score cp 1 pv d2d4",
            "info depth 2 multipv 1 score cp 5 pv d2d4",
            "bestmove d2d4",
        ],
    );
    let analysis = collector.finish(Duration::ZERO).unwrap();
    assert_eq!((analysis.depth, analysis.lines.len()), (2, 1));
}
