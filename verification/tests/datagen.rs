//! Configuration, seeds, records and the worker that plays games.

use chesszero::datagen::{game_result, human, play_opening, usage, Action, Config, Taken, Worker};
use chesszero::records::{game_of_line, Record, Resumed, ShardScan, Shards};
use chesszero::rules::Position;
use chesszero::seeds::{game_seed, splitmix64, Rng};
use chesszero::teacher::{Line, UciScore};
use chesszero::text::{chars_of, push_decimal, push_signed, read_signed, read_unsigned, split_words, text_of, trim_chars};

fn args(words: &[&str]) -> Vec<String> {
    words.iter().map(|w| w.to_string()).collect()
}

#[test]
fn flags_are_read() {
    let cfg = Config::parse(&args(&["--engine", "/bin/engine"])).unwrap();
    assert_eq!((cfg.engine.as_str(), cfg.out.as_str()), ("/bin/engine", "data"));
    assert_eq!((cfg.positions, cfg.workers, cfg.nodes, cfg.multipv), (1_000_000, 2, 10_000, 4));
    assert_eq!((cfg.hash_mb, cfg.random_plies, cfg.max_plies), (64, 8, 240));
    assert_eq!((cfg.shard_size, cfg.seed), (50_000, 24301));

    let cfg = Config::parse(&args(&[
        "--engine", "e", "--out", "o", "--positions", "12_500_000", "--workers", "3", "--nodes", "+7", "--multipv",
        "5", "--hash", "16", "--random-plies", "1", "--max-plies", "9", "--shard-size", "100", "--seed", "1",
    ]))
    .unwrap();
    assert_eq!((cfg.positions, cfg.workers, cfg.nodes, cfg.multipv), (12_500_000, 3, 7, 5));
    assert_eq!((cfg.hash_mb, cfg.random_plies, cfg.max_plies), (16, 1, 9));
    assert_eq!((cfg.shard_size, cfg.seed, cfg.out.as_str()), (100, 1, "o"));
}

#[test]
fn wrong_flags_are_refused() {
    let error = |words: &[&str]| Config::parse(&args(words)).unwrap_err();
    assert_eq!(error(&["--engine"]), "flag is missing its value");
    assert_eq!(error(&["--engine", "e", "--nodes", "many"]), "expected a number");
    assert_eq!(error(&["--nodes", "18446744073709551616"]), "expected a number");
    assert_eq!(error(&["--help"]), usage());
    assert_eq!(error(&["-h"]), usage());
    assert_eq!(error(&["--depth", "3"]), format!("unknown flag --depth\n\n{}", usage()));
    assert_eq!(error(&[]), format!("--engine is required\n\n{}", usage()));
    assert_eq!(error(&["--engine", "e", "--workers", "0"]), "--workers must be at least 1");
    assert!(usage().contains("\n  --shard-size N       records per output file (default: 50_000)\n"));
}

#[test]
fn seeds_do_not_collide() {
    assert_eq!(splitmix64(0), 0xE220_A839_7B1D_CDAF);
    let mut seen = std::collections::HashSet::new();
    for worker in 0..8 {
        for game in 0..500 {
            assert!(seen.insert(game_seed(24301, worker, game)));
        }
    }
    assert_eq!(game_seed(1, 2, 3), game_seed(1, 2, 3));
}

#[test]
fn the_generator_is_xorshift() {
    let mut rng = Rng(1);
    assert_eq!(rng.next(), 1_082_269_761);
    assert_eq!(rng.below(0), 0);
    let mut rng = Rng(1);
    assert_eq!(rng.below(10), 1);
    for _ in 0..100 {
        assert!(rng.below(7) < 7);
        assert_ne!(rng.0, 0);
    }
}

#[test]
fn openings_repeat_from_their_seed() {
    let start = Position::start();
    let a = play_opening(&start, game_seed(24301, 0, 5), 8);
    let b = play_opening(&start, game_seed(24301, 0, 5), 8);
    assert_eq!(a.fen(), b.fen());
    let played = |pos: &Position| (pos.setup().fullmoves - 1) * 2 + (pos.turn() != start.turn()) as u32;
    let mut counts = std::collections::HashSet::new();
    for game in 0..20 {
        let n = played(&play_opening(&start, game_seed(24301, 0, game), 8));
        assert!(n == 8 || n == 9, "{n}");
        counts.insert(n);
    }
    assert_eq!(counts.len(), 2, "the engine takes over with either side to move");
}

#[test]
fn results_are_whites() {
    let result = |fen: &str| game_result(&Position::from_fen(fen).unwrap());
    assert_eq!(result("3R2k1/5ppp/8/8/8/8/5PPP/6K1 b - - 0 1"), Some("1-0"));
    assert_eq!(result("6k1/5ppp/8/8/8/8/5PPP/3r2K1 w - - 0 1"), Some("0-1"));
    assert_eq!(result("7k/5Q2/6K1/8/8/8/8/8 b - - 0 1"), Some("1/2-1/2"));
    assert_eq!(result("4k3/8/8/8/8/8/8/4K3 w - - 0 1"), Some("1/2-1/2"));
    assert_eq!(result("4k3/8/8/8/8/8/8/R3K3 w - - 100 90"), Some("1/2-1/2"));
    assert_eq!(result("4k3/8/8/8/8/8/8/R3K3 w - - 99 90"), None);
}

#[test]
fn spans_read_like_a_person_says_them() {
    assert_eq!(human(59), "59s");
    assert_eq!(human(61), "1m01s");
    assert_eq!(human(3661), "1h01m");
    assert_eq!(human(90_000), "1d01h");
}

#[test]
fn records_are_lines_of_json() {
    let record = Record {
        fen: "a \"b\" \\ c".to_string(),
        game: 7,
        ply: 3,
        depth: 9,
        lines: vec![("e2e4".to_string(), UciScore::Cp(-12)), ("a7a8q".to_string(), UciScore::Mate(2))],
    };
    let text = record.write("1-0", 10_000);
    assert_eq!(
        text,
        "{\"fen\":\"a \\\"b\\\" \\\\ c\",\"game\":7,\"ply\":3,\"depth\":9,\"nodes\":10000,\"result\":\"1-0\",\
         \"lines\":[{\"m\":\"e2e4\",\"cp\":-12},{\"m\":\"a7a8q\",\"mate\":2}]}"
    );
    assert_eq!(game_of_line(&text), Some(7));
    let odd = Record { fen: "\"game\":5,".to_string(), game: 900, ply: 0, depth: 0, lines: vec![] };
    assert_eq!(game_of_line(&odd.write("*", 1)), Some(900));
    assert_eq!(game_of_line("{\"fen\":\"x\"}"), None);
    assert_eq!(game_of_line("{\"game\": 12 }"), Some(12));
    assert_eq!(game_of_line("{\"game\":x,1}"), None);
}

#[test]
fn resuming_counts_records_and_skips_games() {
    let mut scan = ShardScan::new();
    scan.add_line("{\"game\":4,");
    scan.add_line("{\"game\":9,");
    scan.add_line("torn");
    assert_eq!((scan.count, scan.max_game), (3, Some(9)));

    let mut shards = Shards::new(1, 3);
    let mut so_far = Resumed::new();
    assert_eq!(so_far.next_game(), Some(0));
    assert_eq!(shards.file_name(), "w01-00000.jsonl");
    assert!(shards.resume_step(scan, &mut so_far), "a full file is skipped");
    assert_eq!(shards.file_name(), "w01-00001.jsonl");
    assert!(!shards.resume_step(ShardScan { count: 1, max_game: Some(7) }, &mut so_far));
    assert_eq!((so_far.existing, so_far.next_game()), (4, Some(10)));
    assert_eq!(Resumed { existing: 1, max_game: Some(u64::MAX) }.next_game(), None);

    // two more records fit into the file, the third opens the next one
    assert!(shards.next_record());
    assert!(!shards.next_record());
    assert_eq!(shards.file_name(), "w01-00001.jsonl");
    assert!(shards.next_record());
    assert_eq!((shards.file_name().as_str(), shards.written), ("w01-00002.jsonl", 1));
    assert_eq!(Shards::new(123, 1).file_name(), "w123-00000.jsonl");
}

fn lines(pos: &Position, words: &[&str]) -> Vec<Line> {
    words
        .iter()
        .enumerate()
        .map(|(i, w)| {
            let mv = pos.uci_move(w).unwrap();
            Line { mv, score: UciScore::Cp(10 - i as i32), pv: vec![mv] }
        })
        .collect()
}

#[test]
fn a_worker_plays_and_labels_games() {
    let cfg = Config::parse(&args(&["--engine", "e", "--random-plies", "0", "--max-plies", "3", "--seed", "7"])).unwrap();
    let mut worker = Worker::new(0, &cfg, 5);
    assert_eq!(worker.poll(false, 0), Action::NewGame);
    assert_eq!(worker.poll(false, 0), Action::Analyse);
    let first = worker.position().unwrap().legal_fen();
    let best: Vec<String> =
        worker.position().unwrap().legal_moves().iter().take(2).map(chesszero::records::uci_text).collect();
    let two = lines(worker.position().unwrap(), &[&best[0], &best[1]]);
    assert_eq!(worker.analysed(&two, 4), Taken::Recorded);
    assert_eq!(worker.poll(false, 0), Action::Analyse);
    // the same lines again: the best move is not legal any more
    assert_eq!(worker.analysed(&two, 4), Taken::Illegal);
    let one: String = chesszero::records::uci_text(&worker.position().unwrap().legal_moves()[0]);
    let one = lines(worker.position().unwrap(), &[&one]);
    assert_eq!(worker.analysed(&one, 4), Taken::Skipped);
    assert_eq!(worker.skipped(), 1);
    assert_eq!(worker.poll(true, 0), Action::Write, "a run that stops ends its game");
    let text = worker.finish_game(10_000);
    assert_eq!(text.len(), 1);
    assert_eq!(
        text[0],
        format!(
            "{{\"fen\":\"{first}\",\"game\":5,\"ply\":0,\"depth\":4,\"nodes\":10000,\"result\":\"*\",\"lines\":[{{\"m\":\"{}\",\"cp\":10}},{{\"m\":\"{}\",\"cp\":9}}]}}",
            best[0], best[1]
        )
    );
    assert!(worker.position().is_none());
    assert_eq!(worker.poll(true, 0), Action::Quit);
    assert_eq!(worker.poll(false, 1_000_000), Action::Quit);
    assert_eq!(worker.poll(false, 999_999), Action::NewGame);
    assert_eq!(worker.analysed(&vec![], 1), Taken::Ended);
    assert_eq!(worker.poll(false, 0), Action::Write);
    assert!(worker.finish_game(1).is_empty());
}

#[test]
fn games_end_after_their_plies() {
    let cfg = Config::parse(&args(&["--engine", "e", "--max-plies", "0"])).unwrap();
    let mut worker = Worker::new(1, &cfg, 0);
    assert_eq!(worker.poll(false, 0), Action::NewGame);
    assert_eq!(worker.poll(false, 0), Action::Write);
    worker.finish_game(1);
    assert_eq!(worker.poll(false, 0), Action::NewGame);
    worker.no_legal_moves();
    assert_eq!(worker.poll(false, 0), Action::Write);
}

#[test]
fn games_open_the_same_way_after_an_interruption() {
    let cfg = Config::parse(&args(&["--engine", "e", "--seed", "11", "--max-plies", "0"])).unwrap();
    let mut straight = Worker::new(3, &cfg, 0);
    for _ in 0..4 {
        straight.poll(false, 0);
        straight.poll(false, 0);
        straight.finish_game(1);
    }
    straight.poll(false, 0);
    let mut resumed = Worker::new(3, &cfg, 4);
    resumed.poll(false, 0);
    assert_eq!(straight.position().unwrap().fen(), resumed.position().unwrap().fen());
}

#[test]
fn numbers_are_read_back() {
    for n in [0, 7, 10, 4096, u64::MAX] {
        let mut text = String::new();
        push_decimal(&mut text, n);
        assert_eq!(text, n.to_string());
        assert_eq!(read_unsigned(&chars_of(&text), u64::MAX), Some(n));
    }
    let mut text = String::from("cp ");
    push_signed(&mut text, -35);
    assert_eq!(text, "cp -35");
    for word in ["", "+", "-", "--1", "1a", "2147483648", "-2147483649", "+7", "-0", "007", "2147483647", "-2147483648"] {
        assert_eq!(read_signed(&chars_of(word)), word.parse::<i32>().ok(), "{word}");
        assert_eq!(read_unsigned(&chars_of(word), u64::MAX), word.parse::<u64>().ok(), "{word}");
    }
}

#[test]
fn words_are_split_at_white_space() {
    for line in ["", "  ", "a", " info  depth 3\t\u{3000}pv e2e4\r\n", "\u{85}x\u{a0}y"] {
        let chars = chars_of(line);
        let words: Vec<String> = split_words(&chars).iter().map(text_of).collect();
        assert_eq!(words, line.split_whitespace().map(String::from).collect::<Vec<_>>());
        assert_eq!(text_of(&trim_chars(&chars)), line.trim());
    }
}
