//! Alpha-beta search.

use std::time::Duration;

use chesszero::alphabeta::{perspective, score_string, Bound, Limits, Searcher, MATE, MATE_THRESHOLD};
use chesszero::chess::Color;
use chesszero::ordering::sort_moves;
use chesszero::records::uci_text;
use chesszero::rules::Position;

fn parse(fen: &str) -> Position {
    Position::from_fen(fen).unwrap()
}

#[test]
fn limits_have_their_defaults() {
    let limits = Limits::default();
    assert_eq!((limits.depth, limits.nodes, limits.time), (6, u64::MAX, None));
    assert_eq!(Limits::depth(3).depth, 3);
    assert_ne!(Bound::Lower, Bound::Upper);
}

#[test]
fn a_mate_in_one_is_found() {
    let pos = parse("6k1/5ppp/8/8/8/8/5PPP/3R2K1 w - - 0 1");
    let mut searcher = Searcher::new(1000);
    let result = searcher.search(&pos, &Limits::depth(4));
    assert_eq!(uci_text(&result.best.unwrap()), "d1d8");
    assert_eq!(result.score, MATE - 1);
    assert_eq!(score_string(result.score), "mate 1");
    assert_eq!(result.depth, 2, "a forced mate ends the search");
    assert_eq!(result.pv.len(), 1);
    assert_eq!(result.nodes, searcher.nodes());
}

#[test]
fn finished_positions_have_no_best_move() {
    let mated = parse("3R2k1/5ppp/8/8/8/8/5PPP/6K1 b - - 0 1");
    let result = Searcher::new(16).search(&mated, &Limits::depth(3));
    assert_eq!(result.best, None);
    assert_eq!(result.score, -MATE);
    let stale = parse("7k/5Q2/6K1/8/8/8/8/8 b - - 0 1");
    let result = Searcher::new(16).search(&stale, &Limits::depth(2));
    assert_eq!((result.best, result.score), (None, 0));
    assert!(Searcher::new(16).root_move_scores(&stale, &Limits::depth(2)).is_empty());
}

#[test]
fn a_hanging_queen_is_taken() {
    let pos = parse("4k3/8/8/3q4/4P3/8/8/4K3 w - - 0 1");
    let result = Searcher::new(1 << 12).search(&pos, &Limits::depth(3));
    assert_eq!(uci_text(&result.best.unwrap()), "e4d5");
    assert!(result.score > 0);
}

#[test]
fn the_line_is_legal() {
    let pos = parse("r1bq1rk1/pp2ppbp/2np1np1/8/2BNP3/2N1B3/PPP2PPP/R2Q1RK1 w - - 0 9");
    let result = Searcher::new(1 << 14).search(&pos, &Limits::depth(2));
    assert_eq!(result.pv.first().copied(), result.best);
    let mut current = pos;
    for m in &result.pv {
        assert!(current.legal_moves().contains(m));
        current = current.play_move(*m);
    }
}

#[test]
fn the_search_is_deterministic() {
    let pos = Position::start();
    let a = Searcher::new(1 << 12).search(&pos, &Limits::depth(3));
    let b = Searcher::new(1 << 12).search(&pos, &Limits::depth(3));
    assert_eq!((a.best, a.score, a.nodes, a.pv), (b.best, b.score, b.nodes, b.pv));
}

#[test]
fn limits_stop_the_search() {
    let pos = Position::start();
    let mut searcher = Searcher::new(1 << 12);
    let result = searcher.search(&pos, &Limits { depth: 30, nodes: 500, time: None });
    assert!(result.depth < 30 && result.nodes >= 500 && result.nodes < 2000);
    assert!(pos.legal_moves().contains(&result.best.unwrap()));
    let hurried = Limits { depth: 30, nodes: u64::MAX, time: Some(Duration::from_millis(200)) };
    let result = searcher.search(&pos, &hurried);
    assert!(result.depth < 30);
    assert!(pos.legal_moves().contains(&result.best.unwrap()));
}

#[test]
fn repetitions_score_as_draws() {
    // White is a queen up, but every reply has been seen twice already.
    let pos = parse("7k/8/8/8/8/8/8/1Q5K w - - 0 1");
    let mut history = Vec::new();
    for i in 0..pos.legal_moves().len() {
        let key = pos.play(i).zobrist_hash();
        history.push(key);
        history.push(key);
    }
    let mut fresh = Searcher::new(1 << 10);
    assert!(fresh.search(&pos, &Limits::depth(1)).score > 500);
    let mut weary = Searcher::new(1 << 10);
    weary.set_history(history);
    assert_eq!(weary.search(&pos, &Limits::depth(1)).score, 0);
}

#[test]
fn every_root_move_is_scored_best_first() {
    let pos = parse("6k1/5ppp/8/8/8/8/5PPP/3R2K1 w - - 0 1");
    let scored = Searcher::new(1 << 12).root_move_scores(&pos, &Limits::depth(2));
    let legal = pos.legal_moves();
    assert_eq!(scored.len(), legal.len());
    for m in &legal {
        assert!(scored.iter().any(|(n, _)| n == m));
    }
    assert!(scored.windows(2).all(|w| w[0].1 >= w[1].1));
    assert_eq!(uci_text(&scored[0].0), "d1d8");
    assert_eq!(scored[0].1, MATE - 1);
}

#[test]
fn scores_read_the_way_uci_writes_them() {
    assert_eq!(score_string(125), "cp 125");
    assert_eq!(score_string(-7), "cp -7");
    assert_eq!(score_string(0), "cp 0");
    assert_eq!(score_string(MATE - 1), "mate 1");
    assert_eq!(score_string(MATE - 5), "mate 3");
    assert_eq!(score_string(-(MATE - 2)), "mate -1");
    assert_eq!(score_string(MATE_THRESHOLD), "mate 500");
    assert_eq!(score_string(MATE_THRESHOLD - 1), "cp 30999");
}

#[test]
fn perspective_is_the_side_to_move() {
    assert_eq!(perspective(&Position::start()), Color::White);
}

#[test]
fn a_time_limit_acts_as_a_node_limit() {
    // The clock is first read at node 2048, when no time at all is long over.
    let pos = Position::start();
    let mut hurried = Searcher::new(1 << 12);
    let a = hurried.search(&pos, &Limits { depth: 30, nodes: u64::MAX, time: Some(Duration::ZERO) });
    let mut counted = Searcher::new(1 << 12);
    let b = counted.search(&pos, &Limits { depth: 30, nodes: 2048, time: None });
    assert_eq!((a.best, a.score, a.depth, a.nodes, a.pv), (b.best, b.score, b.depth, b.nodes, b.pv));
    // a node limit that comes first is the one that counts
    let c = hurried.search(&pos, &Limits { depth: 1, nodes: 3, time: Some(Duration::ZERO) });
    let d = counted.search(&pos, &Limits { depth: 1, nodes: 3, time: None });
    assert_eq!((c.best, c.score, c.nodes), (d.best, d.score, d.nodes));
}

#[test]
fn a_fresh_searcher_has_seen_nothing() {
    let mated = parse("3R2k1/5ppp/8/8/8/8/5PPP/6K1 b - - 0 1");
    for mut searcher in [Searcher::new(16), Searcher::default()] {
        assert_eq!(searcher.nodes(), 0);
        let result = searcher.search(&mated, &Limits::depth(1));
        assert_eq!((result.score, result.nodes), (-MATE, 1));
    }
}

#[test]
fn the_longest_defence_is_preferred() {
    // Two rooks mate in two: the count of plies to the mate is in the score.
    let pos = parse("7k/8/8/8/8/8/R7/1R5K w - - 0 1");
    let result = Searcher::new(1 << 12).search(&pos, &Limits::depth(4));
    assert_eq!(result.score, MATE - 3);
    assert_eq!(score_string(result.score), "mate 2");
    assert_eq!(result.pv.len(), 3);
}

#[test]
fn a_deeper_entry_survives_a_shallow_search() {
    let pos = parse("r1bqkbnr/pppp1ppp/2n5/4p3/4P3/5N2/PPPP1PPP/RNBQKB1R w KQkq - 2 3");
    let mut searcher = Searcher::new(1 << 16);
    let deep = searcher.search(&pos, &Limits::depth(4));
    let shallow = searcher.search(&pos, &Limits::depth(1));
    assert_eq!(shallow.best, deep.best);
    assert_eq!(shallow.score, deep.score);
    assert!(shallow.nodes < deep.nodes);
}

#[test]
fn sorting_keeps_the_order_of_equal_keys() {
    let moves = Position::start().legal_moves();
    let keys = [3, -1, 3, 0, -1];
    let items: Vec<_> = (0..5).map(|i| (keys[i], moves[i])).collect();
    let expected: Vec<_> = [1, 4, 3, 0, 2].iter().map(|&i| items[i]).collect();
    assert_eq!(sort_moves(&items), expected);
    assert_eq!(sort_moves(&Vec::new()), Vec::new());
}
