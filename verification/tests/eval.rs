//! Evaluation: symmetry, decomposition and exact values.

use chesszero::eval::{evaluate, evaluate_detailed, phase};
use chesszero::features::{doubled_pawns, isolated_pawns, outposts, passed_pawns};
use chesszero::chess::{Bitboard, Color};
use chesszero::rules::Position;
use chesszero::score::{Score, MAX_PHASE};

fn parse(fen: &str) -> Position {
    Position::from_fen(fen).unwrap()
}

fn random_positions(n: usize, seed: u64) -> Vec<Position> {
    // xorshift; a dependency for this would be silly
    let mut state = seed | 1;
    let mut next = move || {
        state ^= state << 13;
        state ^= state >> 7;
        state ^= state << 17;
        state
    };
    let mut out = Vec::new();
    while out.len() < n {
        let mut pos = Position::start();
        let plies = (next() % 80) as usize;
        for _ in 0..plies {
            let moves = pos.legal_moves();
            if moves.is_empty() {
                break;
            }
            pos = pos.play((next() as usize) % moves.len());
        }
        if !pos.legal_moves().is_empty() {
            out.push(pos);
        }
    }
    out
}

#[test]
fn evaluation_is_colour_symmetric() {
    for pos in random_positions(400, 0xC0FFEE) {
        let ours = evaluate(&pos);
        let theirs = evaluate(&pos.mirrored());
        assert_eq!(ours, theirs, "asymmetric evaluation at {}: {ours} vs {theirs} mirrored", pos.fen());
    }
}

#[test]
fn every_term_is_colour_symmetric() {
    // Narrows a symmetry failure to the term that caused it.
    for pos in random_positions(200, 0xBEEF) {
        let a = evaluate_detailed(&pos);
        let b = evaluate_detailed(&pos.mirrored());
        let fen = pos.fen();
        assert_eq!(a.material, b.material, "material asymmetric at {fen}");
        assert_eq!(a.placement, b.placement, "placement asymmetric at {fen}");
        assert_eq!(a.mobility, b.mobility, "mobility asymmetric at {fen}");
        assert_eq!(a.pawn_structure, b.pawn_structure, "pawn structure asymmetric at {fen}");
        assert_eq!(a.piece_quality, b.piece_quality, "piece quality asymmetric at {fen}");
        assert_eq!(a.king_safety, b.king_safety, "king safety asymmetric at {fen}");
    }
}

#[test]
fn starting_position_is_level_apart_from_tempo() {
    let start = evaluate_detailed(&Position::start());
    assert_eq!(start.material, 0);
    assert_eq!(start.placement, 0);
    assert_eq!(start.mobility, 0);
    assert_eq!(start.pawn_structure, 0);
    assert_eq!(start.piece_quality, 0);
    assert_eq!(start.king_safety, 0);
    assert_eq!(start.total, start.tempo, "only tempo should break the tie");
    assert!(start.tempo > 0 && start.tempo < 30, "tempo is {}", start.tempo);
}

#[test]
fn breakdown_sums_to_total() {
    for pos in random_positions(200, 0xD00D) {
        let b = evaluate_detailed(&pos);
        let sum = b.material
            + b.placement
            + b.mobility
            + b.pawn_structure
            + b.piece_quality
            + b.king_safety
            + b.tempo;
        assert_eq!(sum, b.total, "breakdown does not sum to the total it reports");
    }
}

#[test]
fn material_dominates() {
    // A queen up is worth more than any positional term can plausibly offset.
    let up_a_queen = parse("rnb1kbnr/pppppppp/8/8/8/8/PPPPPPPP/RNBQKBNR w KQkq - 0 1");
    assert!(evaluate(&up_a_queen) > 700, "{}", evaluate(&up_a_queen));
    let down_a_queen = parse("rnbqkbnr/pppppppp/8/8/8/8/PPPPPPPP/RNB1KBNR w KQkq - 0 1");
    assert!(evaluate(&down_a_queen) < -700, "{}", evaluate(&down_a_queen));
}

#[test]
fn phase_falls_as_material_comes_off() {
    assert_eq!(phase(&Position::start().board()), MAX_PHASE);
    let no_queens = parse("rnb1kbnr/pppppppp/8/8/8/8/PPPPPPPP/RNB1KBNR w KQkq - 0 1");
    assert_eq!(phase(&no_queens.board()), MAX_PHASE - 8);
    let bare = parse("4k3/8/8/8/8/8/8/4K3 w - - 0 1");
    assert_eq!(phase(&bare.board()), 0);
}

#[test]
fn tapering_has_no_cliff() {
    // Interpolation must be continuous in the phase.
    let s = Score::new(100, -100);
    let mut previous = s.taper(0);
    for phase in 1..=MAX_PHASE {
        let current = s.taper(phase);
        assert!(
            (current - previous).abs() <= 200 / MAX_PHASE + 1,
            "phase {phase} jumped from {previous} to {current}"
        );
        previous = current;
    }
    assert_eq!(s.taper(MAX_PHASE), 100);
    assert_eq!(s.taper(0), -100);
}

#[test]
fn passed_pawn_is_worth_more_in_an_endgame() {
    // Same passer, queens on versus queens off.
    let middlegame = parse("r2q1rk1/1p3ppp/8/2P5/8/8/1P3PPP/R2Q1RK1 w - - 0 1");
    let endgame = parse("r4rk1/1p3ppp/8/2P5/8/8/1P3PPP/R4RK1 w - - 0 1");
    let mg = evaluate_detailed(&middlegame).pawn_structure;
    let eg = evaluate_detailed(&endgame).pawn_structure;
    assert!(eg > mg, "passer worth {mg} with queens on, {eg} with them off");
}

#[test]
fn a_lone_pawn_is_itemised_exactly() {
    let b = evaluate_detailed(&parse("4k3/8/8/8/8/8/4P3/4K3 w - - 0 1"));
    assert_eq!(b.phase, 0);
    assert_eq!(b.material, 120);
    assert_eq!(b.placement, 5);
    assert_eq!(b.mobility, 0);
    assert_eq!(b.pawn_structure, -10);
    assert_eq!(b.piece_quality, 0);
    assert_eq!(b.king_safety, 0);
    assert_eq!(b.tempo, 4);
    assert_eq!(b.total, 119);
    // the same position for the other side
    let b = evaluate_detailed(&parse("4k3/8/8/8/8/8/4P3/4K3 b - - 0 1"));
    assert_eq!(b.total, -111);
}

#[test]
fn pieces_are_judged_by_their_files_ranks_and_posts() {
    // an open file, phase 2
    let b = evaluate_detailed(&parse("4k3/8/8/8/8/8/8/R3K3 w - - 0 1"));
    assert_eq!(b.phase, 2);
    assert_eq!(b.piece_quality, (26 * 2 + 14 * 22) / 24);
    // the seventh rank on top
    let b = evaluate_detailed(&parse("4k3/R7/8/8/8/8/8/4K3 w - - 0 1"));
    assert_eq!(b.piece_quality, ((26 + 20) * 2 + (14 + 32) * 22) / 24);
    // the bishop pair
    let b = evaluate_detailed(&parse("4k3/8/8/8/8/8/8/2B1KB2 w - - 0 1"));
    assert_eq!(b.piece_quality, (30 * 2 + 50 * 22) / 24);
}

#[test]
fn structure_sets() {
    let board = parse("4k3/6p1/8/3N4/P1P5/8/P6P/4K3 w - - 0 1").board();
    let at = |squares: &[u32]| Bitboard(squares.iter().map(|s| 1u64 << s).sum());
    // a2 and a4 are doubled; all are isolated; the g-pawn stops h2
    assert_eq!(doubled_pawns(&board, Color::White), at(&[8, 24]));
    assert_eq!(isolated_pawns(&board, Color::White), at(&[8, 24, 26, 15]));
    assert_eq!(passed_pawns(&board, Color::White), at(&[8, 24, 26]));
    assert_eq!(outposts(&board, Color::White), at(&[35]));
    assert_eq!(isolated_pawns(&board, Color::Black), at(&[54]));
}

#[test]
fn scores_add_and_scale() {
    let a = Score::new(10, -4);
    let b = Score::flat(3);
    assert_eq!(a + b, Score::new(13, -1));
    assert_eq!(a - b, Score::new(7, -7));
    assert_eq!(-a, Score::new(-10, 4));
    assert_eq!(a * 3, Score::new(30, -12));
    assert_eq!(Score::default(), Score::zero());
    assert_eq!(Score::new(7, 0).taper(12), 3);
    assert_eq!(Score::new(-7, 0).taper(12), -3);
    assert_eq!(Score::new(5, 9).taper(100), 5);
    assert_eq!(Score::new(5, 9).taper(-3), 9);
}
