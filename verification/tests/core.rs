//! Encoding, vocabulary, features, motifs and traces.

use chesszero::chess::{Bitboard, Board, Color, Piece, Role, Square};
use chesszero::encoding::{
    canonical, canonical_square, encode_prefix, encode_through_fen, index_to_move, legal_move_indices, move_squares,
    move_to_index, N_MOVES, N_PLANES,
};
use chesszero::features;
use chesszero::motifs;
use chesszero::rules::{Move, Position};
use chesszero::trace::annotate;
use chesszero::vocab;

fn parse(fen: &str) -> Position {
    Position::from_fen(fen).unwrap()
}

fn sq(name: &str) -> Square {
    let bytes = name.as_bytes();
    Square((bytes[1] - b'1') * 8 + (bytes[0] - b'a'))
}

fn random_positions(n: usize, seed: u64) -> Vec<Position> {
    let mut state = seed | 1;
    let mut next = move || {
        state ^= state << 13;
        state ^= state >> 7;
        state ^= state << 17;
        state
    };
    let mut out = Vec::new();
    while out.len() < n {
        let mut pos = Position::start();
        let plies = (next() % 80) as usize;
        for _ in 0..plies {
            let moves = pos.legal_moves();
            if moves.is_empty() {
                break;
            }
            pos = pos.play((next() as usize) % moves.len());
        }
        if !pos.legal_moves().is_empty() {
            out.push(pos);
        }
    }
    out
}

const SHARP: [&str; 6] = [
    "r3k2r/p1ppqpb1/bn2pnp1/3PN3/1p2P3/2N2Q1p/PPPBBPPP/R3K2R w KQkq - 0 1",
    "r3k2r/p1ppqpb1/bn2pnp1/3PN3/1p2P3/2N2Q1p/PPPBBPPP/R3K2R b KQkq - 0 1",
    "rnbqkbnr/pp1ppppp/8/8/2pPP3/8/PPP2PPP/RNBQKBNR b KQkq d3 0 3",
    "4k3/P6p/8/8/8/8/p6P/4K3 w - - 99 60",
    "1n2k3/P7/8/8/8/8/p7/1N2K3 b - - 3 60",
    "8/2p5/3p4/KP5r/1R3p1k/8/4P1P1/8 w - - 0 1",
];

#[test]
fn perft_confirms_the_move_generator() {
    fn perft(pos: &Position, depth: u32) -> u64 {
        if depth == 0 {
            return 1;
        }
        let moves = pos.legal_moves();
        if depth == 1 {
            return moves.len() as u64;
        }
        (0..moves.len()).map(|i| perft(&pos.play(i), depth - 1)).sum()
    }
    let start = Position::start();
    assert_eq!(perft(&start, 4), 197_281);
    // Kiwipete: the standard position for castling, en passant and pin bugs
    let kiwipete = parse("r3k2r/p1ppqpb1/bn2pnp1/3PN3/1p2P3/2N2Q1p/PPPBBPPP/R3K2R w KQkq - 0 1");
    assert_eq!(perft(&kiwipete, 3), 97_862);
}

#[test]
fn castling_uses_the_kings_destination_not_the_rook() {
    let pos = parse("r3k2r/8/8/8/8/8/8/R3K2R w KQ - 0 1");
    let castles: Vec<(Square, Square)> = pos
        .legal_moves()
        .iter()
        .filter(|m| matches!(m, Move::Castle { .. }))
        .map(|m| {
            let (from, to, _) = move_squares(m);
            (from, to)
        })
        .collect();
    assert!(castles.contains(&(sq("e1"), sq("g1"))), "{castles:?}");
    assert!(castles.contains(&(sq("e1"), sq("c1"))), "{castles:?}");
    assert_eq!(move_to_index(sq("e1"), sq("g1"), None), move_to_index(sq("e1"), sq("g1"), None));
}

#[test]
fn policy_indices_round_trip() {
    let mut positions = random_positions(120, 0x5EED);
    positions.extend(SHARP.iter().map(|fen| parse(fen)));
    for pos in &positions {
        let (canon, _) = canonical(pos);
        for (m, index) in legal_move_indices(&canon) {
            let (from, to, promo) = move_squares(&m);
            let back = index_to_move(index, &canon).expect("index must land on the board");
            assert_eq!(back, (from, to, promo), "index {index} did not decode back to its move");
        }
    }
}

#[test]
fn every_position_encodes_identically() {
    let start = Position::start();
    let (canon, flipped) = canonical(&start);
    assert!(!flipped);
    let mut want: Vec<u16> = vec![1, 8, 6, 7, 9, 10, 7, 6, 8];
    want.extend([5u16; 8]);
    want.extend([4u16; 32]);
    want.extend([11u16; 8]);
    want.extend([14u16, 12, 13, 15, 16, 13, 12, 14]);
    want.extend([32u16, 33, 42, 50, 2]);
    assert_eq!(encode_prefix(&canon, 0), want);

    for pos in random_positions(60, 0xABCD) {
        let (canon, flipped) = canonical(&pos);
        assert_eq!(pos.turn() == Color::Black, flipped, "{}", pos.fen());
        assert_eq!(canon.turn(), Color::White, "canonical is white to move");
        assert_eq!(encode_prefix(&canon, 1).len(), vocab::PREFIX_LEN);
    }
}

#[test]
fn every_legal_move_indexes_identically() {
    assert_eq!(move_to_index(sq("e2"), sq("e4"), None), 12 * N_PLANES + 1);
    assert_eq!(move_to_index(sq("g1"), sq("f3"), None), 6 * N_PLANES + 63);
    assert_eq!(move_to_index(sq("e1"), sq("g1"), None), 4 * N_PLANES + 15);
    assert_eq!(move_to_index(sq("a7"), sq("a8"), Some(Role::Knight)), 48 * N_PLANES + 65);
    assert_eq!(move_to_index(sq("a7"), sq("b8"), Some(Role::Rook)), 48 * N_PLANES + 72);
    assert_eq!(move_to_index(sq("a7"), sq("a8"), Some(Role::Queen)), 48 * N_PLANES);
    assert_eq!(move_to_index(sq("h8"), sq("a1"), None), 63 * N_PLANES + 5 * 7 + 6);
    assert_eq!(N_MOVES, 4672);
    let pos = parse("4k3/P6p/8/8/8/8/p6P/4K3 w - - 99 60");
    let mut indices: Vec<usize> = legal_move_indices(&pos).iter().map(|(_, i)| *i).collect();
    let n = indices.len();
    indices.sort();
    indices.dedup();
    assert_eq!(indices.len(), n, "two moves share an index");
    assert!(indices.iter().all(|i| *i < N_MOVES));
}

#[test]
fn indices_off_the_board_decode_to_nothing() {
    let start = Position::start();
    // a1 straight west
    assert_eq!(index_to_move(6 * 7, &start), None);
    // a white pawn's push to the last rank reads as a queen promotion
    let pos = parse("4k3/P7/8/8/8/8/8/4K3 w - - 0 1");
    let index = move_to_index(sq("a7"), sq("a8"), Some(Role::Queen));
    assert_eq!(index_to_move(index, &pos), Some((sq("a7"), sq("a8"), Some(Role::Queen))));
    // the same step of a king is no promotion
    let pos = parse("8/K3k3/8/8/8/8/8/8 w - - 0 1");
    assert_eq!(index_to_move(index, &pos), Some((sq("a7"), sq("a8"), None)));
}

#[test]
fn whatever_an_index_decodes_to_has_that_index() {
    for pos in [Position::start(), parse("4k3/P6P/8/8/8/8/8/4K3 w - - 0 1")] {
        let mut decoded = 0;
        for index in 0..N_MOVES {
            if let Some((from, to, promotion)) = index_to_move(index, &pos) {
                assert_eq!(move_to_index(from, to, promotion), index);
                decoded += 1;
            }
        }
        // 1792 steps of queens and knights, and 9 planes for 7 ranks short of the edges
        assert_eq!(decoded, 1792 + 3 * (56 + 49 + 49));
    }
}

#[test]
fn canonical_mirrors_the_whole_position() {
    let pos = parse("rnbqkbnr/pp1ppppp/8/8/2pPP3/8/PPP2PPP/RNBQKBNR b KQkq d3 0 3");
    let (canon, flipped) = canonical(&pos);
    assert!(flipped);
    let setup = canon.setup();
    assert_eq!(setup.ep_square, Some(sq("d6")));
    assert_eq!(setup.board.piece_at(sq("c5")), Some(Piece { color: Color::White, role: Role::Pawn }));
    assert_eq!(setup.board.piece_at(sq("d5")), Some(Piece { color: Color::Black, role: Role::Pawn }));
    assert_eq!(canonical_square(sq("c4"), true), sq("c5"));
    assert_eq!(canonical_square(sq("c4"), false), sq("c4"));
    // the capture is legal, so the file is part of the encoding
    assert_eq!(encode_prefix(&canon, 7)[66], vocab::tid("ep:d"));
    assert_eq!(encode_prefix(&canon, 7)[68], vocab::tid("rep:2"));
    // mirroring again changes nothing once white is to move
    let (again, mirrored) = canonical(&canon);
    assert!(!mirrored);
    assert_eq!(again.fen(), canon.fen());
}

#[test]
fn an_en_passant_square_nobody_can_take_on_is_left_out() {
    let pos = parse("rnbqkbnr/pppp1ppp/8/8/4pP2/8/PPPPP1PP/RNBQKBNR b KQkq f3 0 2");
    let (canon, _) = canonical(&pos);
    assert_eq!(encode_prefix(&canon, 0)[66], vocab::tid("ep:f"));
    let pos = parse("rnbqkbnr/pppppppp/8/8/4P3/8/PPPP1PPP/RNBQKBNR b KQkq e3 0 1");
    let (canon, _) = canonical(&pos);
    assert_eq!(canon.setup().ep_square, Some(sq("e6")));
    assert_eq!(encode_prefix(&canon, 0)[66], vocab::tid("ep:-"));
    assert!(pos.legal_fen().contains(" - 0 1"), "{}", pos.legal_fen());
}

#[test]
fn vocabulary_has_its_sections_in_order() {
    let words = vocab::vocab();
    assert_eq!(words.len(), 196);
    assert_eq!(vocab::vocab_size(), 196);
    for (i, word) in words.iter().enumerate() {
        assert_eq!(vocab::tid(word) as usize, i, "{word}");
        assert_eq!(&vocab::token(i as u16), word);
    }
    let want = [
        (0, "<pad>"),
        (4, "sq:."),
        (5, "sq:P"),
        (16, "sq:k"),
        (17, "cas:0"),
        (32, "cas:15"),
        (33, "ep:-"),
        (41, "ep:h"),
        (49, "r50:7"),
        (52, "rep:2"),
        (53, "@a1"),
        (116, "@h8"),
        (121, "pr:q"),
        (130, "f:EVAL"),
        (139, "mat:8"),
        (142, "ph:end"),
        (146, "ks:exposed"),
        (150, "thr:3"),
        (174, "mo:space"),
        (184, "plan:hold"),
        (195, "ev:10"),
    ];
    for (i, word) in want {
        assert_eq!(words[i], word);
    }
    assert_eq!(vocab::READOUT_FAST, vocab::PREFIX_LEN - 1);
    assert_eq!(vocab::READOUT_REASONED, vocab::SEQ_LEN - 1);
    assert_eq!(vocab::SEQ_LEN, vocab::PREFIX_LEN + vocab::TRACE_LEN);
}

#[test]
fn trace_grammar_has_one_set_for_each_slot() {
    let slots = vocab::trace_slots();
    assert_eq!(slots.len(), vocab::TRACE_LEN);
    assert_eq!(slots[0], vec![vocab::tid("f:MAT")]);
    assert_eq!(slots[vocab::SLOT_MAT].len(), 9);
    assert_eq!(slots[vocab::SLOT_MOTIF[2]].len(), 24);
    assert_eq!(slots[vocab::SLOT_PLAN][9], vocab::tid("plan:hold"));
    assert_eq!(slots[vocab::SLOT_CAND[1]].len(), 64);
    assert_eq!(slots[vocab::SLOT_BEST + 2], vec![117, 118, 119, 120, 121]);
    assert_eq!(slots[vocab::SLOT_EVAL].len(), 11);
    assert_eq!(slots[31], vec![vocab::tid("<eos>")]);
}

#[test]
fn a_trace_of_the_starting_position() {
    let trace = annotate(&Position::start(), None, &vec![], 5);
    assert_eq!(
        trace,
        vec![
            122, 135, 123, 140, 124, 143, 143, 125, 147, 126, 152, 151, 151, 127, 175, 128, 53, 53, 117, 53, 53, 117,
            53, 53, 117, 129, 53, 53, 117, 130, 190, 3
        ]
    );
}

#[test]
fn the_best_move_leads_the_candidates() {
    let start = Position::start();
    let best = (sq("e2"), sq("e4"), None);
    let other = (sq("d2"), sq("d4"), None);
    let third = (sq("g1"), sq("f3"), None);
    let trace = annotate(&start, Some(best), &vec![other, third, (sq("b1"), sq("c3"), None)], 10);
    let at = |s: &str| 53 + sq(s).0 as u16;
    assert_eq!(trace[16..25], [at("e2"), at("e4"), 117, at("d2"), at("d4"), 117, at("g1"), at("f3"), 117]);
    assert_eq!(trace[26..29], [at("e2"), at("e4"), 117]);
    assert_eq!(trace[30], 195);
    // a best move that is a candidate already keeps its place
    let trace = annotate(&start, Some(best), &vec![other, best], 0);
    assert_eq!(trace[16..25], [at("d2"), at("d4"), 117, at("e2"), at("e4"), 117, 53, 53, 117]);
}

#[test]
fn traces_obey_the_grammar() {
    let slots = vocab::trace_slots();
    for pos in random_positions(40, 0xFACE) {
        let (canon, _) = canonical(&pos);
        let (m, _) = legal_move_indices(&canon)[0];
        let trace = annotate(&canon, Some(move_squares(&m)), &vec![], 3);
        for (slot, id) in slots.iter().zip(&trace) {
            assert!(slot.contains(id));
        }
    }
}

#[test]
fn material_and_phase() {
    let start = Position::start().board();
    assert_eq!(features::material_balance(&start), 0);
    assert_eq!(features::material_bucket(0), 4);
    assert_eq!(features::material_bucket(-21), 0);
    assert_eq!(features::material_bucket(-2), 4);
    assert_eq!(features::material_bucket(20), 8);
    assert_eq!(features::phase(&start), "ph:opening");
    let rook_up = parse("4k3/8/8/8/8/8/8/R3K3 w - - 0 1").board();
    assert_eq!(features::material_balance(&rook_up), 20);
    assert_eq!(features::phase(&rook_up), "ph:end");
    assert_eq!(features::tactical_value(Role::King), 400);
    assert_eq!(features::piece_value(Role::Bishop), 13);
}

#[test]
fn kings_and_plans() {
    let start = Position::start();
    assert_eq!(features::king_safety(&start.board(), Color::White), "ks:safe");
    assert_eq!(features::plan(&start, 0, "ph:opening", 0), "plan:develop");
    assert_eq!(features::plan(&start, 0, "ph:opening", 2), "plan:defend");
    assert_eq!(features::plan(&start, 8, "ph:end", 0), "plan:convert");
    assert_eq!(features::plan(&start, 7, "ph:end", 0), "plan:push");
    let bare = parse("4k3/8/8/8/8/8/8/4K3 w - - 0 1");
    assert_eq!(features::plan(&bare, 0, "ph:end", 0), "plan:hold");
    let exposed = parse("4k3/8/8/3qq3/8/8/8/4K3 w - - 0 1");
    assert_eq!(features::plan(&exposed, 0, "ph:end", 0), "plan:defend");
    let rooks = parse("4k3/pppppppp/8/8/8/8/PPPP1PPP/R3K2R w - - 0 1");
    assert_eq!(features::king_safety(&rooks.board(), Color::Black), "ks:safe");
    assert_eq!(features::plan(&rooks, 6, "ph:middle", 0), "plan:trade");
    assert_eq!(features::plan(&rooks, 0, "ph:middle", 0), "plan:rooks");
    assert_eq!(Board { white: 0, black: 0, kings: 0, ..rooks.board() }.king_of(Color::White), None);
}

#[test]
fn attacks_and_pins() {
    let pos = parse("4k3/4n3/8/8/8/8/8/4RK2 w - - 0 1");
    let board = pos.board();
    assert!(features::is_pinned(&board, Color::Black, sq("e7")));
    assert!(!features::is_pinned(&board, Color::Black, sq("e8")));
    assert!(features::is_attacked_by(&board, Color::White, sq("e7")));
    assert!(!features::is_attacked_by(&board, Color::White, sq("e8")));
    // rook e1: the a- to d-file squares of its rank, f1, and the e-file up to the knight
    let seen = features::attacks_from(&board, sq("e1"));
    assert!(seen.contains(sq("e7")) && seen.contains(sq("f1")) && seen.contains(sq("a1")));
    assert!(!seen.contains(sq("e8")) && !seen.contains(sq("g1")));
    assert_eq!(features::attacks_from(&board, sq("a8")), Bitboard(0));
    assert_eq!(features::attackers(&board, Color::Black, sq("c8")), Bitboard(1 << 52));
    assert_eq!(features::mobility(&board, Color::White, sq("e1")), 10);
}

#[test]
fn hanging_pieces_weigh_the_cheapest_attacker() {
    // the queen is defended, but a pawn attacks it
    let board = parse("4k3/4p3/3q4/4P3/8/8/8/4K3 w - - 0 1").board();
    assert_eq!(features::hanging_pieces(&board, Color::Black), vec![sq("d6")]);
    // a defended knight beside the enemy king does not hang
    let board = parse("8/8/8/3k4/8/2n5/1p6/1K6 w - - 0 1").board();
    assert_eq!(features::hanging_pieces(&board, Color::Black), vec![sq("b2")]);
    let board = parse("8/8/8/8/1k6/2n5/1K6/8 w - - 0 1").board();
    assert!(features::hanging_pieces(&board, Color::Black).is_empty());
}

#[test]
fn motifs_fire_where_they_should() {
    let start = Position::start();
    assert!(motifs::detect_motifs(&start).is_empty());
    assert_eq!(motifs::motif_tags(&start), vec!["mo:quiet", "mo:none", "mo:none"]);
    let cases = [
        ("mo:mate1", "6k1/5ppp/8/8/8/8/8/R5K1 w - - 0 1"),
        ("mo:backrank", "6k1/5ppp/8/8/8/8/8/R5K1 w - - 0 1"),
        ("mo:check", "4k3/8/8/8/8/8/8/R3K3 w - - 0 1"),
        ("mo:capture", "4k3/8/8/8/8/8/p7/R3K3 w - - 0 1"),
        ("mo:hanging", "4k3/8/8/8/8/8/p7/R3K3 w - - 0 1"),
        ("mo:fork", "r3k3/8/8/1N6/8/8/8/4K3 w - - 0 1"),
        ("mo:pin", "4k3/4n3/8/8/8/8/8/4RK2 w - - 0 1"),
        ("mo:skewer", "4r1k1/8/8/4q3/8/8/8/4RK2 w - - 0 1"),
        ("mo:discovery", "4k3/8/8/8/8/8/4N3/4RK2 w - - 0 1"),
        ("mo:promotion", "4k3/P7/8/8/8/8/8/4K3 w - - 0 1"),
        ("mo:overload", "7k/8/8/p3r3/8/8/4p3/R3R1K1 w - - 0 1"),
        ("mo:trapped", "n3k3/8/3P4/P7/8/8/8/4K2B w - - 0 1"),
        ("mo:passer", "4k3/8/8/8/8/8/P7/4K3 w - - 0 1"),
        ("mo:outpost", "4k3/8/8/3N4/2P5/8/8/4K3 w - - 0 1"),
        ("mo:rook7th", "4k3/R7/8/8/8/8/8/4K3 w - - 0 1"),
        ("mo:openfile", "4k3/8/8/8/8/8/8/R3K3 w - - 0 1"),
        ("mo:battery", "4k3/8/8/8/8/R7/R7/4K3 w - - 0 1"),
        ("mo:kingattack", "6k1/R7/8/8/8/8/8/5R1K w - - 0 1"),
        ("mo:badbishop", "4k3/8/8/8/8/P1P1P3/1P1P4/2B1K3 w - - 0 1"),
        ("mo:doubled", "4k3/8/8/8/8/P7/P7/4K3 w - - 0 1"),
        ("mo:isolated", "4k3/8/8/8/8/8/P7/4K3 w - - 0 1"),
        ("mo:space", "4k3/8/8/8/PP6/8/8/4K3 w - - 0 1"),
    ];
    for (motif, fen) in cases {
        let pos = parse(fen);
        assert!(pos.turn() == Color::White);
        assert!(motifs::detect(motif, &pos), "{motif} did not fire at {fen}");
        assert!(motifs::detect_motifs(&pos).contains(&motif));
        assert!(!motifs::detect(motif, &start), "{motif} fired at the start");
    }
}

#[test]
fn a_ruy_lopez_is_no_skewer() {
    let pos = parse("r1bqkbnr/pppp1ppp/2n5/1B2p3/4P3/5N2/PPPP1PPP/RNBQK2R w KQkq - 2 3");
    assert!(!motifs::has_skewer(&pos));
    assert!(!motifs::has_backrank(&pos));
}

#[test]
fn motifs_are_listed_by_priority() {
    let pos = parse("6k1/5ppp/8/8/8/8/8/R5K1 w - - 0 1");
    let found = motifs::detect_motifs(&pos);
    assert_eq!(found, vec!["mo:mate1", "mo:backrank", "mo:openfile", "mo:check"]);
    assert_eq!(motifs::motif_tags(&pos), vec!["mo:mate1", "mo:backrank", "mo:openfile"]);
    for pos in random_positions(25, 0xB0B) {
        let (canon, _) = canonical(&pos);
        let found = motifs::detect_motifs(&canon);
        let expected: Vec<&str> =
            motifs::MOTIF_PRIORITY.iter().copied().filter(|m| motifs::detect(m, &canon)).collect();
        assert_eq!(found, expected);
    }
}

#[test]
fn positions_know_when_they_are_over() {
    assert!(Position::from_fen("not a position").is_none());
    assert!(Position::from_fen("4k3/8/8/8/8/8/8/8 w - - 0 1").is_none(), "white has no king");
    assert!(parse("3R2k1/5ppp/8/8/8/8/5PPP/6K1 b - - 0 1").is_checkmate());
    assert!(parse("7k/5Q2/6K1/8/8/8/8/8 b - - 0 1").is_stalemate());
    assert!(parse("4k3/8/8/8/8/8/8/4K3 w - - 0 1").is_insufficient_material());
    assert!(!Position::start().is_insufficient_material());
    for (fen, dead) in [
        ("8/5k2/8/8/8/8/3K4/8 w - - 0 1", true),
        ("8/3k4/8/8/2N5/8/3K4/8 b - - 0 1", true),
        ("8/4rk2/8/8/8/8/3K4/8 w - - 0 1", false),
        ("8/3k4/8/8/2N5/2N5/3K4/8 b - - 0 1", false),
        ("8/4bk2/8/8/2N5/8/3K4/8 w - - 0 1", false),
        ("8/4bk2/8/8/8/8/3KB3/8 w - - 0 1", false),
        ("8/5k2/8/8/8/4B3/3K1B2/8 w - - 0 1", true),
        ("5K2/8/8/1B6/8/k7/6b1/8 w - - 0 39", true),
        ("8/8/8/4k3/5b2/3K4/8/2B5 w - - 0 33", true),
        ("3b4/8/8/6b1/8/8/R7/K1k5 w - - 0 1", false),
    ] {
        assert_eq!(parse(fen).is_insufficient_material(), dead, "{fen}");
    }
    assert!(parse("4k3/8/8/8/8/8/4R3/4K3 b - - 0 1").is_check());
    let e4 = Position::start().uci_move("e2e4").unwrap();
    assert_eq!(e4, Move::Normal { role: Role::Pawn, from: sq("e2"), capture: None, to: sq("e4"), promotion: None });
    assert_eq!(Position::start().uci_move("e2e5"), None);
    assert_eq!(Position::start().uci_move("nonsense"), None);
    let after = Position::start().play_move(e4);
    assert_eq!(after.fen(), "rnbqkbnr/pppppppp/8/8/4P3/8/PPPP1PPP/RNBQKBNR b KQkq e3 0 1");
    assert_ne!(after.zobrist_hash(), Position::start().zobrist_hash());
    // the hash does not see an en passant square that cannot be used
    let plain = parse("rnbqkbnr/pppppppp/8/8/4P3/8/PPPP1PPP/RNBQKBNR b KQkq - 0 1");
    assert_eq!(after.zobrist_hash(), plain.zobrist_hash());
    assert_eq!(after.setup().halfmoves, 0);
    assert_eq!(after.setup().fullmoves, 1);
    let fused = parse("r3k2r/8/8/8/8/8/8/R3K2R b KQkq - 0 1");
    assert_eq!(fused.uci_move("e8g8"), Some(Move::Castle { king: sq("e8"), rook: sq("h8") }));
}

#[test]
fn positions_encode_as_themselves_after_a_fen_round_trip() {
    let mut positions = random_positions(60, 0x1234);
    positions.extend(SHARP.iter().map(|fen| parse(fen)));
    positions.push(parse("rnbqkbnr/pppppppp/8/8/4P3/8/PPPP1PPP/RNBQKBNR b KQkq e3 0 1"));
    // a capture that is legal, one that would uncover the king, and both mirrored
    let usable = parse("4k3/8/8/8/3pP3/8/8/4K3 b - e3 0 1");
    let pinned = parse("8/8/8/8/k2pP2R/8/8/4K3 b - e3 0 1");
    assert_eq!(usable.legal_ep_square(), Some(sq("e3")));
    assert_eq!(usable.mirrored().legal_ep_square(), Some(sq("e6")));
    assert_eq!(pinned.legal_ep_square(), None);
    assert_eq!(pinned.mirrored().legal_ep_square(), None);
    positions.extend([usable.mirrored(), usable, pinned.mirrored(), pinned]);
    for pos in &positions {
        let (direct, through) = encode_through_fen(pos, 1);
        assert_eq!(direct, through);
        assert_eq!(direct, encode_prefix(&canonical(pos).0, 1));
        let back = parse(&pos.legal_fen());
        let (a, b) = (canonical(pos).0, canonical(&back).0);
        assert_eq!(encode_prefix(&a, 0), encode_prefix(&b, 0), "{}", pos.fen());
        assert_eq!(back.legal_ep_square(), pos.legal_ep_square());
    }
    assert_eq!(Position::start().fen(), chesszero::rules::START_FEN);
}

#[test]
fn every_motif_has_a_detector() {
    let start = Position::start();
    for motif in &vocab::MOTIF_TOKENS[2..] {
        assert!(motifs::MOTIF_PRIORITY.contains(motif), "{motif}");
        assert!(!motifs::detect(motif, &start), "{motif}");
    }
}
