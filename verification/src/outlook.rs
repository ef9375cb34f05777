//! What a trace says of a position, said of the board and the words themselves.

use vstd::prelude::*;

use crate::chess::{abs, bit, lemma_king_square, on_board, spec_file, spec_rank, Board, Color, Piece, Role};
use crate::features::{
    balance_of, edges_reached, endangers, hanging, hits, king_danger, non_pawn_value, phase_index, plan_index,
    rooks_connected, shields, signed_value, undeveloped,
};
use crate::judgement::{lemma_sum_change, puts};
use crate::motifs::{fires, firing, law_motifs_are_those_that_fire, lemma_firing, PRIORITY_PLACES};
use crate::oracle::{law_what_hangs, lemma_count_two, lemma_count_zero, much_cheaper};
use crate::rules::{state, Setup};
use crate::sums::{count_squares, lemma_count_ext, sum_squares};
use crate::text::decimal;
use crate::trace::{trace_word, TraceMove};
use crate::vocab::{square_name, MAT_EDGES, MOTIF_TOKENS, PLAN_TOKENS};

verus! {

/// What a piece adds to the material balance, in quarter pawns: White's positive, Black's
/// negative, and the king's nothing.
pub proof fn law_the_balance_counts_every_piece(a: Board, b: Board, s: int, color: Color, role: Role)
    requires
        puts(a, b, s, color, role),
    ensures
        ({
            let worth: int = match role {
                Role::Pawn => 4,
                Role::Knight => 12,
                Role::Bishop => 13,
                Role::Rook => 20,
                Role::Queen => 36,
                Role::King => 0,
            };
            balance_of(b) - balance_of(a) == (if color == Color::White { worth } else { -worth })
        }),
{
    let (f, g) = (|t: int| signed_value(a, t), |t: int| signed_value(b, t));
    assert forall|t: int| 0 <= t < 64 && t != s implies #[trigger] f(t) == g(t) by {
        assert(a.piece(t) == b.piece(t));
    }
    lemma_sum_change(f, g, s, 64);
}

/// The material token: its number rises at balances of five, three, two and half a pawn,
/// below and above zero.
pub proof fn law_material_tokens(fen: Seq<char>, best: Option<TraceMove>, candidates: Seq<TraceMove>, bucket: int)
    ensures
        ({
            let b = balance_of(state(fen).board);
            let n: int = if b < -20 {
                0
            } else if b < -12 {
                1
            } else if b < -8 {
                2
            } else if b < -2 {
                3
            } else if b < 2 {
                4
            } else if b < 8 {
                5
            } else if b < 12 {
                6
            } else if b < 20 {
                7
            } else {
                8
            };
            trace_word(fen, best, candidates, bucket, 1) == "mat:"@ + decimal(n as nat)
        }),
{
    let b = balance_of(state(fen).board);
    reveal_with_fuel(edges_reached, 9);
    assert(MAT_EDGES[0] == -20 && MAT_EDGES[1] == -12 && MAT_EDGES[2] == -8 && MAT_EDGES[3] == -2 && MAT_EDGES[4] == 2
        && MAT_EDGES[5] == 8 && MAT_EDGES[6] == 12 && MAT_EDGES[7] == 20);
}

/// What a piece adds to the material that tells the phase: officers their value, pawns and
/// kings nothing.
pub open spec fn officer_material(board: Board) -> int {
    sum_squares(|s: int| non_pawn_value(board, s))
}

pub proof fn law_officers_tell_the_phase(a: Board, b: Board, s: int, color: Color, role: Role)
    requires
        puts(a, b, s, color, role),
    ensures
        ({
            let worth: int = match role {
                Role::Knight => 12,
                Role::Bishop => 13,
                Role::Rook => 20,
                Role::Queen => 36,
                _ => 0,
            };
            officer_material(b) - officer_material(a) == worth
        }),
        phase_index(b) <= phase_index(a),
{
    let (f, g) = (|t: int| non_pawn_value(a, t), |t: int| non_pawn_value(b, t));
    assert forall|t: int| 0 <= t < 64 && t != s implies #[trigger] f(t) == g(t) by {
        assert(a.piece(t) == b.piece(t));
    }
    lemma_sum_change(f, g, s, 64);
}

/// The phase token: the opening from fifty-five pawns of officers on, the middle game from
/// twenty-two on, the end game below.
pub proof fn law_phase_tokens(fen: Seq<char>, best: Option<TraceMove>, candidates: Seq<TraceMove>, bucket: int)
    ensures
        ({
            let total = officer_material(state(fen).board);
            trace_word(fen, best, candidates, bucket, 3) == (if total >= 220 {
                "ph:opening"@
            } else if total >= 88 {
                "ph:middle"@
            } else {
                "ph:end"@
            })
        }),
{
}

/// How unsafe a king is: the squares within two steps of it that the enemy attacks, less
/// three for each own pawn right before it, on its file or beside, plus three if no own
/// pawn is on its file.
pub open spec fn exposure(board: Board, color: Color, k: int) -> int {
    let step: int = if color == Color::White {
        1
    } else {
        -1
    };
    count_squares(
        |s: int|
            abs(spec_file(s) - spec_file(k)) <= 2 && abs(spec_rank(s) - spec_rank(k)) <= 2 && board.attacked(
                s,
                color.opponent(),
            ),
    ) - 3 * count_squares(
        |s: int|
            board.piece(s) == Some(Piece { color, role: Role::Pawn }) && spec_rank(s) - spec_rank(k) == step && abs(
                spec_file(s) - spec_file(k),
            ) <= 1,
    ) + (if exists|s: int|
        on_board(s) && spec_file(s) == spec_file(k) && #[trigger] board.piece(s) == Some(
            Piece { color, role: Role::Pawn },
        ) {
        0int
    } else {
        3
    })
}

proof fn lemma_exposure(board: Board, color: Color, k: int)
    ensures
        king_danger(board, color, k) == exposure(board, color, k),
{
    let step: int = if color == Color::White {
        1
    } else {
        -1
    };
    let p = |s: int| endangers(board, color, k, s);
    let q = |s: int|
        abs(spec_file(s) - spec_file(k)) <= 2 && abs(spec_rank(s) - spec_rank(k)) <= 2 && board.attacked(
            s,
            color.opponent(),
        );
    assert forall|s: int| 0 <= s < 64 implies #[trigger] p(s) == q(s) by {
    }
    lemma_count_ext(p, q, 64);
    let p = |s: int| shields(board, color, k, s);
    let q = |s: int|
        board.piece(s) == Some(Piece { color, role: Role::Pawn }) && spec_rank(s) - spec_rank(k) == step && abs(
            spec_file(s) - spec_file(k),
        ) <= 1;
    assert forall|s: int| 0 <= s < 64 implies #[trigger] p(s) == q(s) by {
    }
    lemma_count_ext(p, q, 64);
    if exists|s: int|
        on_board(s) && spec_file(s) == spec_file(k) && #[trigger] board.piece(s) == Some(
            Piece { color, role: Role::Pawn },
        ) {
        let s = choose|s: int|
            on_board(s) && spec_file(s) == spec_file(k) && #[trigger] board.piece(s) == Some(
                Piece { color, role: Role::Pawn },
            );
        assert(board.holds(s, color, Role::Pawn));
    } else {
        assert forall|s: int| on_board(s) && spec_file(s) == spec_file(k) implies !#[trigger] board.holds(
            s,
            color,
            Role::Pawn,
        ) by {
            let _ = board.piece(s);
        }
    }
}

/// The level of a king's safety by its exposure.
pub open spec fn safety_word(danger: int) -> Seq<char> {
    if danger <= 0 {
        "ks:safe"@
    } else if danger <= 5 {
        "ks:ok"@
    } else if danger <= 10 {
        "ks:loose"@
    } else {
        "ks:exposed"@
    }
}

/// The two king safety tokens: the mover's king first, White's, then Black's.
pub proof fn law_king_safety_tokens(
    fen: Seq<char>,
    best: Option<TraceMove>,
    candidates: Seq<TraceMove>,
    bucket: int,
    white: int,
    black: int,
)
    requires
        state(fen).board.king_on(Color::White, white),
        state(fen).board.king_on(Color::Black, black),
    ensures
        trace_word(fen, best, candidates, bucket, 5) == safety_word(exposure(state(fen).board, Color::White, white)),
        trace_word(fen, best, candidates, bucket, 6) == safety_word(exposure(state(fen).board, Color::Black, black)),
{
    let board = state(fen).board;
    lemma_king_square(board, Color::White, white);
    lemma_king_square(board, Color::Black, black);
    lemma_exposure(board, Color::White, white);
    lemma_exposure(board, Color::Black, black);
}

/// The mover's piece on the square, no king, is attacked and either not defended or
/// attacked by something much cheaper.
pub open spec fn in_danger(board: Board, s: int) -> bool {
    &&& board.piece(s) is Some && board.piece(s)->0.color == Color::White
    &&& board.piece(s)->0.role != Role::King
    &&& board.attacked(s, Color::Black)
    &&& !board.attacked(s, Color::White) || exists|a: int|
        on_board(a) && #[trigger] board.attacks(a, Color::Black, s) && much_cheaper(
            board.piece(a)->0.role,
            board.piece(s)->0.role,
        )
}

proof fn lemma_threats(fen: Seq<char>)
    ensures
        count_squares(|s: int| hanging(state(fen).board, Color::White, s)) == count_squares(
            |s: int| in_danger(state(fen).board, s),
        ),
{
    let board = state(fen).board;
    let (p, q) = (|s: int| hanging(board, Color::White, s), |s: int| in_danger(board, s));
    assert forall|s: int| 0 <= s < 64 implies #[trigger] p(s) == q(s) by {
        law_what_hangs(board, Color::White, s);
    }
    lemma_count_ext(p, q, 64);
}

/// The threat token counts the mover's own pieces in danger, up to three.
pub proof fn law_threat_tokens(fen: Seq<char>, best: Option<TraceMove>, candidates: Seq<TraceMove>, bucket: int)
    ensures
        ({
            let n = count_squares(|s: int| in_danger(state(fen).board, s));
            trace_word(fen, best, candidates, bucket, 8) == "thr:"@ + decimal((if n > 3 { 3 } else { n }) as nat)
        }),
        (forall|s: int|
            on_board(s) && (#[trigger] state(fen).board.piece(s)) is Some && state(fen).board.piece(s)->0.color
                == Color::White ==> !state(fen).board.attacked(s, Color::Black)) ==> trace_word(
            fen,
            best,
            candidates,
            bucket,
            8,
        ) == "thr:"@ + decimal(0),
{
    let board = state(fen).board;
    lemma_threats(fen);
    let q = |s: int| in_danger(board, s);
    lemma_count_zero(q, 64);
    if forall|s: int|
        on_board(s) && (#[trigger] board.piece(s)) is Some && board.piece(s)->0.color == Color::White
            ==> !board.attacked(s, Color::Black) {
        assert forall|s: int| 0 <= s < 64 implies !#[trigger] q(s) by {
            let _ = board.piece(s);
        }
    }
}

/// Two of the mover's pieces that are attacked and defended by nobody are two threats at
/// least, and the plan is to defend.
pub proof fn law_two_loose_pieces_mean_defence(
    fen: Seq<char>,
    best: Option<TraceMove>,
    candidates: Seq<TraceMove>,
    bucket: int,
    s: int,
    t: int,
)
    requires
        0 <= s < t < 64,
        forall|q: int| #![trigger state(fen).board.piece(q)] q == s || q == t ==> {
            let board = state(fen).board;
            &&& board.piece(q) is Some && board.piece(q)->0.color == Color::White && board.piece(q)->0.role
                != Role::King
            &&& board.attacked(q, Color::Black) && !board.attacked(q, Color::White)
        },
    ensures
        trace_word(fen, best, candidates, bucket, 8) == "thr:"@ + decimal(2) || trace_word(
            fen,
            best,
            candidates,
            bucket,
            8,
        ) == "thr:"@ + decimal(3),
        trace_word(fen, best, candidates, bucket, 14) == "plan:defend"@,
{
    let board = state(fen).board;
    lemma_threats(fen);
    let q = |s: int| in_danger(board, s);
    assert(board.piece(s) is Some && board.piece(t) is Some);
    assert(q(s) && q(t));
    lemma_count_two(q, 64);
}

/// Two white rooks, one of which attacks the other.
pub open spec fn rooks_together(board: Board, a: int, b: int) -> bool {
    &&& board.piece(a) == Some(Piece { color: Color::White, role: Role::Rook })
    &&& board.piece(b) == Some(Piece { color: Color::White, role: Role::Rook })
    &&& board.attacks(a, Color::White, b)
}

/// A white knight or bishop that has not left its home on b1, c1, f1 or g1.
pub open spec fn at_home(board: Board, s: int) -> bool {
    &&& s == 1 || s == 2 || s == 5 || s == 6
    &&& board.piece(s) == Some(Piece { color: Color::White, role: Role::Knight }) || board.piece(s) == Some(
        Piece { color: Color::White, role: Role::Bishop },
    )
}

/// The plan: to defend in check or with two threats; in the end game to convert two pawns
/// more, else to push a pawn, else to hold; before it to castle an unsafe king that still
/// may, to develop in the opening, to attack an unsafe king, to trade when a pawn and a
/// half up, to connect two rooks, to hold when as much down, and else to take the centre.
pub proof fn law_plans(s: Setup, balance: int, phase: Seq<char>, threats: int, white: int, black: int)
    requires
        s.board.king_on(Color::White, white),
        s.board.king_on(Color::Black, black),
    ensures
        ({
            let b = s.board;
            let word = PLAN_TOKENS[plan_index(s, balance, phase, threats)]@;
            let pawns = exists|q: int|
                on_board(q) && #[trigger] b.piece(q) == Some(Piece { color: Color::White, role: Role::Pawn });
            let rights = bit(s.castling, 0) || bit(s.castling, 7);
            let minors = exists|p: int, q: int| 0 <= p < q < 64 && #[trigger] at_home(b, p) && #[trigger] at_home(b, q);
            let rooks = exists|p: int, q: int|
                0 <= p < q < 64 && #[trigger] b.holds(p, Color::White, Role::Rook) && #[trigger] b.holds(
                    q,
                    Color::White,
                    Role::Rook,
                );
            let joined = exists|p: int, q: int| on_board(p) && on_board(q) && #[trigger] rooks_together(b, p, q);
            word == (if s.in_check() || threats >= 2 {
                "plan:defend"@
            } else if phase == "ph:end"@ {
                if balance >= 8 {
                    "plan:convert"@
                } else if pawns {
                    "plan:push"@
                } else {
                    "plan:hold"@
                }
            } else if rights && exposure(b, Color::White, white) > 0 {
                "plan:castle"@
            } else if phase == "ph:opening"@ && minors {
                "plan:develop"@
            } else if exposure(b, Color::Black, black) > 5 {
                "plan:attack"@
            } else if balance >= 6 {
                "plan:trade"@
            } else if rooks && !joined {
                "plan:rooks"@
            } else if balance <= -6 {
                "plan:hold"@
            } else {
                "plan:center"@
            })
        }),
{
    let b = s.board;
    lemma_king_square(b, Color::White, white);
    lemma_king_square(b, Color::Black, black);
    lemma_exposure(b, Color::White, white);
    lemma_exposure(b, Color::Black, black);
    let pawns = exists|q: int|
        on_board(q) && #[trigger] b.piece(q) == Some(Piece { color: Color::White, role: Role::Pawn });
    if pawns {
        let q = choose|q: int|
            on_board(q) && #[trigger] b.piece(q) == Some(Piece { color: Color::White, role: Role::Pawn });
        assert(b.holds(q, Color::White, Role::Pawn));
    }
    if exists|q: int| on_board(q) && #[trigger] b.holds(q, Color::White, Role::Pawn) {
        let q = choose|q: int| on_board(q) && #[trigger] b.holds(q, Color::White, Role::Pawn);
        assert(b.piece(q) == Some(Piece { color: Color::White, role: Role::Pawn }));
        assert(pawns);
    }
    let (u, h) = (|q: int| undeveloped(b, q), |q: int| at_home(b, q));
    assert forall|q: int| 0 <= q < 64 implies #[trigger] u(q) == h(q) by {
    }
    lemma_count_ext(u, h, 64);
    lemma_count_two(h, 64);
    let minors = exists|p: int, q: int| 0 <= p < q < 64 && #[trigger] at_home(b, p) && #[trigger] at_home(b, q);
    if minors {
        let (p, q) = choose|p: int, q: int| 0 <= p < q < 64 && #[trigger] at_home(b, p) && #[trigger] at_home(b, q);
        assert(h(p) && h(q));
    }
    if exists|p: int, q: int| 0 <= p < q < 64 && #[trigger] h(p) && #[trigger] h(q) {
        let (p, q) = choose|p: int, q: int| 0 <= p < q < 64 && #[trigger] h(p) && #[trigger] h(q);
        assert(at_home(b, p) && at_home(b, q));
    }
    let r = |q: int| b.holds(q, Color::White, Role::Rook);
    lemma_count_two(r, 64);
    let rooks = exists|p: int, q: int|
        0 <= p < q < 64 && #[trigger] b.holds(p, Color::White, Role::Rook) && #[trigger] b.holds(
            q,
            Color::White,
            Role::Rook,
        );
    if rooks {
        let (p, q) = choose|p: int, q: int|
            0 <= p < q < 64 && #[trigger] b.holds(p, Color::White, Role::Rook) && #[trigger] b.holds(
                q,
                Color::White,
                Role::Rook,
            );
        assert(r(p) && r(q));
    }
    if exists|p: int, q: int| 0 <= p < q < 64 && #[trigger] r(p) && #[trigger] r(q) {
        let (p, q) = choose|p: int, q: int| 0 <= p < q < 64 && #[trigger] r(p) && #[trigger] r(q);
        assert(b.holds(p, Color::White, Role::Rook) && b.holds(q, Color::White, Role::Rook));
    }
    if rooks_connected(b) {
        let (p, q) = choose|p: int, q: int|
            on_board(p) && on_board(q) && b.holds(p, Color::White, Role::Rook) && b.holds(q, Color::White, Role::Rook)
                && #[trigger] hits(b, p, q);
        assert(rooks_together(b, p, q));
    }
    if exists|p: int, q: int| on_board(p) && on_board(q) && #[trigger] rooks_together(b, p, q) {
        let (p, q) = choose|p: int, q: int| on_board(p) && on_board(q) && #[trigger] rooks_together(b, p, q);
        assert(hits(b, p, q));
        assert(rooks_connected(b));
    }
}

/// The plan token of a trace is the plan for the position, with its own balance, phase and
/// threats.
pub proof fn law_plan_tokens(fen: Seq<char>, best: Option<TraceMove>, candidates: Seq<TraceMove>, bucket: int)
    ensures
        ({
            let n = count_squares(|s: int| in_danger(state(fen).board, s));
            trace_word(fen, best, candidates, bucket, 14) == PLAN_TOKENS[plan_index(
                state(fen),
                balance_of(state(fen).board),
                trace_word(fen, best, candidates, bucket, 3),
                if n > 3 {
                    3
                } else {
                    n
                },
            )]@
        }),
{
    lemma_threats(fen);
}

/// The order in which motifs are worth naming: tactics that win at once first, then what is
/// attacked, then what stands well, then what can be done, then weaknesses.
pub open spec fn naming_order(m: int) -> int {
    if m == 2 {
        0
    } else
    if m == 6 {
        1
    } else
    if m == 8 {
        2
    } else
    if m == 9 {
        3
    } else
    if m == 10 {
        4
    } else
    if m == 13 {
        5
    } else
    if m == 12 {
        6
    } else
    if m == 7 {
        7
    } else
    if m == 5 {
        8
    } else
    if m == 11 {
        9
    } else
    if m == 14 {
        10
    } else
    if m == 16 {
        11
    } else
    if m == 15 {
        12
    } else
    if m == 18 {
        13
    } else
    if m == 19 {
        14
    } else
    if m == 17 {
        15
    } else
    if m == 3 {
        16
    } else
    if m == 4 {
        17
    } else
    if m == 20 {
        18
    } else
    if m == 22 {
        19
    } else
    if m == 21 {
        20
    } else {
        21
    }
}

proof fn lemma_firing_order(fen: Seq<char>, n: int)
    requires
        0 <= n <= 22,
    ensures
        forall|i: int| 0 <= i < firing(fen, n).len() ==> 0 <= naming_order(#[trigger] firing(fen, n)[i]) < n,
        forall|i: int, j: int|
            0 <= i < j < firing(fen, n).len() ==> naming_order(#[trigger] firing(fen, n)[i]) < naming_order(
                #[trigger] firing(fen, n)[j],
            ),
    decreases n,
{
    if n > 0 {
        lemma_firing_order(fen, n - 1);
        assert(naming_order(PRIORITY_PLACES[n - 1] as int) == n - 1) by {
            assert(PRIORITY_PLACES[0] == 2 && PRIORITY_PLACES[1] == 6 && PRIORITY_PLACES[2] == 8 && PRIORITY_PLACES[3] == 9 && PRIORITY_PLACES[4] == 10 && PRIORITY_PLACES[5] == 13 && PRIORITY_PLACES[6] == 12 && PRIORITY_PLACES[7] == 7 && PRIORITY_PLACES[8] == 5 && PRIORITY_PLACES[9] == 11 && PRIORITY_PLACES[10] == 14 && PRIORITY_PLACES[11] == 16 && PRIORITY_PLACES[12] == 15 && PRIORITY_PLACES[13] == 18 && PRIORITY_PLACES[14] == 19 && PRIORITY_PLACES[15] == 17 && PRIORITY_PLACES[16] == 3 && PRIORITY_PLACES[17] == 4 && PRIORITY_PLACES[18] == 20 && PRIORITY_PLACES[19] == 22 && PRIORITY_PLACES[20] == 21 && PRIORITY_PLACES[21] == 23);
            assert(n == 1 || n == 2 || n == 3 || n == 4 || n == 5 || n == 6 || n == 7 || n == 8 || n == 9 || n == 10 || n == 11 || n == 12 || n == 13 || n == 14 || n == 15 || n == 16 || n == 17 || n == 18 || n == 19 || n == 20 || n == 21 || n == 22);
        }
        let (shorter, whole) = (firing(fen, n - 1), firing(fen, n));
        assert forall|i: int| 0 <= i < whole.len() implies 0 <= naming_order(#[trigger] whole[i]) < n && (i
            < shorter.len() ==> whole[i] == shorter[i]) && (i >= shorter.len() ==> naming_order(whole[i]) == n - 1) by {
            if i < shorter.len() {
                assert(whole[i] == shorter[i]);
                assert(naming_order(shorter[i]) < n - 1);
            }
        }
        assert forall|i: int, j: int| 0 <= i < j < whole.len() implies naming_order(#[trigger] whole[i]) < naming_order(
            #[trigger] whole[j],
        ) by {
            assert(whole[i] == shorter[i]);
            if j < shorter.len() {
                assert(naming_order(shorter[i]) < naming_order(shorter[j]));
            } else {
                assert(naming_order(shorter[i]) < n - 1);
            }
        }
    }
}

/// The motif tokens name the motifs that fire, those most worth naming first: each named
/// one fires, one that fires and is not named comes after all that are, and where nothing
/// fires the position is quiet.
pub proof fn law_motif_tokens(
    fen: Seq<char>,
    best: Option<TraceMove>,
    candidates: Seq<TraceMove>,
    bucket: int,
    k: int,
)
    requires
        0 <= k < 3,
    ensures
        ({
            let word = trace_word(fen, best, candidates, bucket, 10 + k);
            let found = firing(fen, 22);
            &&& k < found.len() ==> word == MOTIF_TOKENS[found[k]]@ && fires(found[k], fen) && 2 <= found[k] < 24
            &&& k > 0 && k < found.len() ==> naming_order(found[k - 1]) < naming_order(found[k])
            &&& forall|m: int|
                2 <= m < 24 && #[trigger] fires(m, fen) ==> k < found.len() && (naming_order(m) > naming_order(found[k])
                    || exists|j: int| 0 <= j <= k && found[j] == m) || (k >= found.len() && exists|j: int|
                    0 <= j < k && found[j] == m)
            &&& k >= found.len() ==> word == (if k == 0 {
                "mo:quiet"@
            } else {
                "mo:none"@
            })
            &&& found.len() == 0 <==> forall|m: int| 2 <= m < 24 ==> !#[trigger] fires(m, fen)
        }),
{
    let found = firing(fen, 22);
    lemma_firing(fen, 22);
    lemma_firing_order(fen, 22);
    assert forall|m: int| 2 <= m < 24 && #[trigger] fires(m, fen) implies k < found.len() && (naming_order(m)
        > naming_order(found[k]) || exists|j: int| 0 <= j <= k && found[j] == m) || (k >= found.len() && exists|j: int|
        0 <= j < k && found[j] == m) by {
        law_motifs_are_those_that_fire(fen, m);
        let j = found.index_of(m);
        assert(found[j] == m);
    }
    if found.len() > 0 {
        assert(fires(found[0], fen));
    }
}

/// The names of the motifs, by their places.
pub proof fn law_motif_names()
    ensures
        MOTIF_TOKENS[2]@ == "mo:mate1"@,
        MOTIF_TOKENS[3]@ == "mo:check"@,
        MOTIF_TOKENS[4]@ == "mo:capture"@,
        MOTIF_TOKENS[5]@ == "mo:hanging"@,
        MOTIF_TOKENS[6]@ == "mo:fork"@,
        MOTIF_TOKENS[7]@ == "mo:pin"@,
        MOTIF_TOKENS[8]@ == "mo:skewer"@,
        MOTIF_TOKENS[9]@ == "mo:discovery"@,
        MOTIF_TOKENS[10]@ == "mo:backrank"@,
        MOTIF_TOKENS[11]@ == "mo:promotion"@,
        MOTIF_TOKENS[12]@ == "mo:overload"@,
        MOTIF_TOKENS[13]@ == "mo:trapped"@,
        MOTIF_TOKENS[14]@ == "mo:passer"@,
        MOTIF_TOKENS[15]@ == "mo:outpost"@,
        MOTIF_TOKENS[16]@ == "mo:rook7th"@,
        MOTIF_TOKENS[17]@ == "mo:openfile"@,
        MOTIF_TOKENS[18]@ == "mo:battery"@,
        MOTIF_TOKENS[19]@ == "mo:kingattack"@,
        MOTIF_TOKENS[20]@ == "mo:badbishop"@,
        MOTIF_TOKENS[21]@ == "mo:doubled"@,
        MOTIF_TOKENS[22]@ == "mo:isolated"@,
        MOTIF_TOKENS[23]@ == "mo:space"@,
{
}

/// The tokens of the best move: its squares and its promotion.
pub proof fn law_best_move_tokens(fen: Seq<char>, m: TraceMove, candidates: Seq<TraceMove>, bucket: int)
    ensures
        trace_word(fen, Some(m), candidates, bucket, 26) == "@"@ + square_name(m.0.0 as int),
        trace_word(fen, Some(m), candidates, bucket, 27) == "@"@ + square_name(m.1.0 as int),
        m.2 is None ==> trace_word(fen, Some(m), candidates, bucket, 28) == "pr:-"@,
        m.2 == Some(Role::Knight) ==> trace_word(fen, Some(m), candidates, bucket, 28) == "pr:n"@,
        m.2 == Some(Role::Bishop) ==> trace_word(fen, Some(m), candidates, bucket, 28) == "pr:b"@,
        m.2 == Some(Role::Rook) ==> trace_word(fen, Some(m), candidates, bucket, 28) == "pr:r"@,
        m.2 == Some(Role::Queen) ==> trace_word(fen, Some(m), candidates, bucket, 28) == "pr:q"@,
{
}

/// The candidates are written like best moves, three tokens each and in their order; a best
/// move that is not among them comes first, and a place without a candidate is written as
/// the step from a1 to a1.
pub proof fn law_candidate_tokens(
    fen: Seq<char>,
    best: Option<TraceMove>,
    candidates: Seq<TraceMove>,
    bucket: int,
    i: int,
    j: int,
)
    requires
        0 <= i < 3,
        0 <= j < 3,
    ensures
        ({
            let added: int = if best is Some && !candidates.contains(best->0) {
                1
            } else {
                0
            };
            let word = trace_word(fen, best, candidates, bucket, 16 + 3 * i + j);
            &&& i < added ==> word == trace_word(fen, best, candidates, bucket, 26 + j)
            &&& added <= i < candidates.len() + added ==> word == trace_word(
                fen,
                Some(candidates[i - added]),
                candidates,
                bucket,
                26 + j,
            )
            &&& i >= candidates.len() + added ==> word == (if j < 2 {
                "@a1"@
            } else {
                "pr:-"@
            })
        }),
{
    assert((3 * i + j) / 3 == i && (3 * i + j) % 3 == j);
}

/// Without a best move its place is written as the step from a1 to a1, and the last token
/// before the end tells the value bucket.
pub proof fn law_remaining_tokens(fen: Seq<char>, best: Option<TraceMove>, candidates: Seq<TraceMove>, bucket: int)
    ensures
        best is None ==> trace_word(fen, best, candidates, bucket, 26) == "@a1"@,
        best is None ==> trace_word(fen, best, candidates, bucket, 27) == "@a1"@,
        best is None ==> trace_word(fen, best, candidates, bucket, 28) == "pr:-"@,
        trace_word(fen, best, candidates, bucket, 30) == "ev:"@ + decimal(bucket as nat),
        trace_word(fen, best, candidates, bucket, 31) == "<eos>"@,
        trace_word(fen, best, candidates, bucket, 0) == "f:MAT"@,
        trace_word(fen, best, candidates, bucket, 2) == "f:PHASE"@,
        trace_word(fen, best, candidates, bucket, 4) == "f:KSAFE"@,
        trace_word(fen, best, candidates, bucket, 7) == "f:THR"@,
        trace_word(fen, best, candidates, bucket, 9) == "f:TAC"@,
        trace_word(fen, best, candidates, bucket, 13) == "f:PLAN"@,
        trace_word(fen, best, candidates, bucket, 15) == "f:CAND"@,
        trace_word(fen, best, candidates, bucket, 25) == "f:BEST"@,
        trace_word(fen, best, candidates, bucket, 29) == "f:EVAL"@,
{
}

} // verus!
