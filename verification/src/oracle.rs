//! What the motif detectors and the features detect, said of the board itself.

use vstd::prelude::*;

use crate::chess::{
    abs, bit, clear_between, lemma_king_square, lemma_occupied, line_square, on_board, on_diagonal, on_rank_or_file,
    reaches, sign, spec_file, spec_rank, steps_apart, Board, Color, Piece, Role,
};
use crate::encoding::squares_of;
use crate::features::{
    ahead, cheaply_attacked, doubled, file_open, hanging, hits, isolated, outpost, passed, pawn_defended, pinned,
    role_value, tactical,
};
use crate::motifs::{
    advanced_black, advanced_white, bad_bishop_at, battery_at, board_of, boxed_in, discovers, escapes_to, fires,
    fork_target, is_forking, near_and_attacked, on_seventh, pawn_on_shade, pinned_piece, ray_clear, ray_piece,
    reaches_back_rank, skewered_at, skewers, slides, sole_duty, trapped_at, DIRS,
};
use crate::rules::{fen_after, moves_of, state};
use crate::sums::{count_squares, count_upto, lemma_count_ext};

verus! {

/// The pieces in the order of their value; the king outranks everything.
pub open spec fn value_order(role: Role) -> int {
    match role {
        Role::Pawn => 1,
        Role::Knight => 2,
        Role::Bishop => 3,
        Role::Rook => 4,
        Role::Queen => 5,
        Role::King => 6,
    }
}

/// The square holds a piece of the side.
pub open spec fn is_side(board: Board, s: int, color: Color) -> bool {
    board.piece(s) is Some && board.piece(s)->0.color == color
}

/// The square holds a knight, bishop, rook or queen of the side.
pub open spec fn is_officer(board: Board, s: int, color: Color) -> bool {
    is_side(board, s, color) && board.piece(s)->0.role != Role::Pawn && board.piece(s)->0.role != Role::King
}

pub proof fn lemma_count_zero(p: spec_fn(int) -> bool, n: int)
    ensures
        0 <= count_upto(p, n),
        count_upto(p, n) == 0 <==> forall|s: int| 0 <= s < n ==> !#[trigger] p(s),
    decreases n,
{
    if n > 0 {
        lemma_count_zero(p, n - 1);
        if count_upto(p, n) == 0 {
            assert(!p(n - 1));
            assert forall|s: int| 0 <= s < n implies !#[trigger] p(s) by {
            }
        }
        if forall|s: int| 0 <= s < n ==> !#[trigger] p(s) {
            assert(!p(n - 1));
            assert forall|s: int| 0 <= s < n - 1 implies !#[trigger] p(s) by {
            }
        }
    }
}

/// Two or more squares satisfy a predicate just if two different ones do.
pub proof fn lemma_count_two(p: spec_fn(int) -> bool, n: int)
    ensures
        count_upto(p, n) >= 2 <==> exists|s: int, t: int| 0 <= s < t < n && #[trigger] p(s) && #[trigger] p(t),
    decreases n,
{
    if n > 0 {
        lemma_count_two(p, n - 1);
        lemma_count_zero(p, n - 1);
        if count_upto(p, n) >= 2 {
            if count_upto(p, n - 1) >= 2 {
                let (s, t) = choose|s: int, t: int| 0 <= s < t < n - 1 && #[trigger] p(s) && #[trigger] p(t);
                assert(p(s) && p(t));
            } else {
                assert(p(n - 1));
                let s = choose|s: int| 0 <= s < n - 1 && #[trigger] p(s);
                assert(p(s) && p(n - 1));
            }
        }
        if exists|s: int, t: int| 0 <= s < t < n && #[trigger] p(s) && #[trigger] p(t) {
            let (s, t) = choose|s: int, t: int| 0 <= s < t < n && #[trigger] p(s) && #[trigger] p(t);
            if t == n - 1 {
                assert(count_upto(p, n - 1) >= 1);
                assert(p(n - 1));
            } else {
                assert(p(s) && p(t));
            }
        }
    }
}

/// An attacker that a defended piece has to run from: a pawn from any officer, a knight or
/// bishop from a rook or queen, a rook from a queen. The king is no such attacker.
pub open spec fn much_cheaper(attacker: Role, piece: Role) -> bool {
    match attacker {
        Role::Pawn => piece == Role::Knight || piece == Role::Bishop || piece == Role::Rook || piece == Role::Queen,
        Role::Knight => piece == Role::Rook || piece == Role::Queen,
        Role::Bishop => piece == Role::Rook || piece == Role::Queen,
        Role::Rook => piece == Role::Queen,
        Role::Queen => false,
        Role::King => false,
    }
}

/// A piece hangs if the other side attacks it and nothing of its own defends it, or if
/// something much cheaper attacks it. Kings do not hang, and a king that attacks a
/// defended piece does not make it hang.
pub proof fn law_what_hangs(board: Board, color: Color, s: int)
    ensures
        hanging(board, color, s) <==> {
            &&& is_side(board, s, color)
            &&& board.piece(s)->0.role != Role::King
            &&& board.attacked(s, color.opponent())
            &&& !board.attacked(s, color) || exists|a: int|
                on_board(a) && #[trigger] board.attacks(a, color.opponent(), s) && much_cheaper(
                    board.piece(a)->0.role,
                    board.piece(s)->0.role,
                )
        },
{
    if is_side(board, s, color) && board.piece(s)->0.role != Role::King {
        assert forall|a: int| #[trigger] board.attacks(a, color.opponent(), s) implies much_cheaper(
            board.piece(a)->0.role,
            board.piece(s)->0.role,
        ) == (tactical(board.piece(a)->0.role) + 2 < role_value(board.piece(s)->0.role)) by {
        }
        if cheaply_attacked(board, color, s) {
            let a = choose|a: int|
                on_board(a) && #[trigger] board.attacks(a, color.opponent(), s) && tactical(board.piece(a)->0.role) + 2
                    < role_value(board.piece(s)->0.role);
            assert(much_cheaper(board.piece(a)->0.role, board.piece(s)->0.role));
        }
    }
}

/// Mate in one: some legal move leaves the other side in check and without a move.
pub proof fn law_mate_in_one(fen: Seq<char>)
    ensures
        fires(2, fen) <==> exists|i: int|
            0 <= i < moves_of(fen).len() && state(#[trigger] fen_after(fen, i)).in_check() && moves_of(
                fen_after(fen, i),
            ).len() == 0,
{
}

/// Check and capture: some legal move gives check, or captures.
pub proof fn law_checks_and_captures(fen: Seq<char>)
    ensures
        fires(3, fen) <==> exists|i: int|
            0 <= i < moves_of(fen).len() && state(#[trigger] fen_after(fen, i)).in_check(),
        fires(4, fen) <==> exists|i: int| 0 <= i < moves_of(fen).len() && (#[trigger] moves_of(fen)[i]).takes() is Some,
{
}

/// The black piece on the square is attacked and not defended, or attacked by something
/// much cheaper.
pub open spec fn easy_prey(board: Board, s: int) -> bool {
    &&& board.piece(s) is Some && board.piece(s)->0.color == Color::Black
    &&& board.piece(s)->0.role != Role::King
    &&& board.attacked(s, Color::White)
    &&& !board.attacked(s, Color::Black) || exists|a: int|
        on_board(a) && #[trigger] board.attacks(a, Color::White, s) && much_cheaper(
            board.piece(a)->0.role,
            board.piece(s)->0.role,
        )
}

/// Hanging: some black piece hangs.
pub proof fn law_something_hangs(fen: Seq<char>)
    ensures
        fires(5, fen) <==> exists|s: int| on_board(s) && #[trigger] easy_prey(state(fen).board, s),
{
    let board = state(fen).board;
    assert forall|s: int| on_board(s) implies easy_prey(board, s) == hanging(board, Color::Black, s) by {
        law_what_hangs(board, Color::Black, s);
    }
    if fires(5, fen) {
        let s = choose|s: int| on_board(s) && #[trigger] hanging(board, Color::Black, s);
        assert(easy_prey(board, s));
    }
    if exists|s: int| on_board(s) && #[trigger] easy_prey(board, s) {
        let s = choose|s: int| on_board(s) && #[trigger] easy_prey(board, s);
        assert(hanging(board, Color::Black, s));
    }
}

/// The piece on `to` attacks a black piece on `s` of higher value than `role`.
pub open spec fn threatens_more(board: Board, to: int, role: Role, s: int) -> bool {
    &&& board.piece(to) is Some && reaches(board.piece(to)->0, to, s, board.occupied_bits())
    &&& board.piece(s) is Some && board.piece(s)->0.color == Color::Black
    &&& value_order(board.piece(s)->0.role) > value_order(role)
}

/// The move of a piece other than the king attacks the black pieces on two squares, both
/// worth more than it, from a square that Black does not attack or White defends.
pub open spec fn double_attack(fen: Seq<char>, i: int, s: int, t: int) -> bool {
    let (before, after) = (state(fen).board, state(fen_after(fen, i)).board);
    let (from, to) = (squares_of(moves_of(fen)[i]).0.0 as int, squares_of(moves_of(fen)[i]).1.0 as int);
    &&& before.piece(from) is Some && before.piece(from)->0.role != Role::King
    &&& !after.attacked(to, Color::Black) || after.attacked(to, Color::White)
    &&& 0 <= s < t < 64
    &&& threatens_more(after, to, before.piece(from)->0.role, s)
    &&& threatens_more(after, to, before.piece(from)->0.role, t)
}

/// Fork: some legal move is a double attack. A move that simply hangs the forking piece is
/// none.
pub proof fn law_what_a_fork_is(fen: Seq<char>)
    ensures
        fires(6, fen) <==> exists|i: int, s: int, t: int|
            0 <= i < moves_of(fen).len() && #[trigger] double_attack(fen, i, s, t),
{
    let before = state(fen).board;
    if fires(6, fen) {
        let i = choose|i: int|
            0 <= i < moves_of(fen).len() && is_forking(
                board_of(fen),
                moves_of(fen)[i],
                board_of(#[trigger] fen_after(fen, i)),
            );
        let after = state(fen_after(fen, i)).board;
        let (from, to) = (squares_of(moves_of(fen)[i]).0.0 as int, squares_of(moves_of(fen)[i]).1.0 as int);
        let role = before.piece(from)->0.role;
        let p = |s: int| fork_target(after, to, tactical(role), s);
        lemma_count_two(p, 64);
        let (s, t) = choose|s: int, t: int| 0 <= s < t < 64 && #[trigger] p(s) && #[trigger] p(t);
        assert(threatens_more(after, to, role, s) && threatens_more(after, to, role, t));
        assert(double_attack(fen, i, s, t));
    }
    if exists|i: int, s: int, t: int| 0 <= i < moves_of(fen).len() && #[trigger] double_attack(fen, i, s, t) {
        let (i, s, t) = choose|i: int, s: int, t: int|
            0 <= i < moves_of(fen).len() && #[trigger] double_attack(fen, i, s, t);
        let after = state(fen_after(fen, i)).board;
        let (from, to) = (squares_of(moves_of(fen)[i]).0.0 as int, squares_of(moves_of(fen)[i]).1.0 as int);
        let role = before.piece(from)->0.role;
        let p = |s: int| fork_target(after, to, tactical(role), s);
        assert(p(s) && p(t));
        lemma_count_two(p, 64);
        assert(is_forking(board_of(fen), moves_of(fen)[i], board_of(fen_after(fen, i))));
    }
}

/// Discovery: after a legal move some white piece other than the moved one attacks the
/// black king or queen, which it did not before, and the move did not go there.
pub open spec fn uncovers(fen: Seq<char>, i: int, target: int, from: int) -> bool {
    let (before, after) = (state(fen).board, state(fen_after(fen, i)).board);
    let to = squares_of(moves_of(fen)[i]).1.0 as int;
    &&& before.piece(target) is Some && before.piece(target)->0.color == Color::Black
    &&& before.piece(target)->0.role == Role::King || before.piece(target)->0.role == Role::Queen
    &&& target != to && from != to
    &&& after.attacks(from, Color::White, target)
    &&& !before.attacks(from, Color::White, target)
}

pub proof fn law_what_a_discovery_is(fen: Seq<char>)
    ensures
        fires(9, fen) <==> exists|i: int, target: int, from: int|
            0 <= i < moves_of(fen).len() && on_board(target) && on_board(from) && #[trigger] uncovers(
                fen,
                i,
                target,
                from,
            ),
{
    if fires(9, fen) {
        let (i, target) = choose|i: int, target: int|
            0 <= i < moves_of(fen).len() && on_board(target) && #[trigger] discovers(fen, i, target);
        let (before, after) = (state(fen).board, state(fen_after(fen, i)).board);
        let to = squares_of(moves_of(fen)[i]).1.0 as int;
        let from = choose|from: int|
            on_board(from) && from != to && #[trigger] after.attacks(from, Color::White, target) && !before.attacks(
                from,
                Color::White,
                target,
            );
        assert(uncovers(fen, i, target, from));
    }
    if exists|i: int, target: int, from: int|
        0 <= i < moves_of(fen).len() && on_board(target) && on_board(from) && #[trigger] uncovers(fen, i, target, from) {
        let (i, target, from) = choose|i: int, target: int, from: int|
            0 <= i < moves_of(fen).len() && on_board(target) && on_board(from) && #[trigger] uncovers(
                fen,
                i,
                target,
                from,
            );
        let after = state(fen_after(fen, i)).board;
        assert(after.attacks(from, Color::White, target));
        assert(discovers(fen, i, target));
    }
}

/// Black's king stands on its back rank, black pieces fill the squares before it, and the
/// white rook or queen on `s` attacks the square `t` of that rank.
pub open spec fn back_rank_threat(board: Board, k: int, s: int, t: int) -> bool {
    &&& board.king_on(Color::Black, k) && spec_rank(k) == 7
    &&& forall|q: int| on_board(q) && spec_rank(q) == 6 && abs(spec_file(q) - spec_file(k)) <= 1 ==> (
    #[trigger] board.piece(q)) is Some && board.piece(q)->0.color == Color::Black
    &&& board.piece(s) == Some(Piece { color: Color::White, role: Role::Rook }) || board.piece(s) == Some(
        Piece { color: Color::White, role: Role::Queen },
    )
    &&& spec_rank(t) == 7
    &&& board.attacks(s, Color::White, t)
}

pub proof fn law_what_a_weak_back_rank_is(fen: Seq<char>)
    ensures
        fires(10, fen) <==> exists|k: int, s: int, t: int|
            on_board(s) && on_board(t) && #[trigger] back_rank_threat(state(fen).board, k, s, t),
{
    let board = state(fen).board;
    if fires(10, fen) {
        let k = board.king_square(Color::Black)->0;
        assert(board.king_on(Color::Black, k));
        let s = choose|s: int| on_board(s) && #[trigger] reaches_back_rank(board, s);
        let t = choose|t: int| on_board(t) && spec_rank(t) == 7 && #[trigger] hits(board, s, t);
        assert forall|q: int| on_board(q) && spec_rank(q) == 6 && abs(spec_file(q) - spec_file(k)) <= 1 implies (
        #[trigger] board.piece(q)) is Some && board.piece(q)->0.color == Color::Black by {
            assert(board.has_color(q, Color::Black));
        }
        assert(back_rank_threat(board, k, s, t));
    }
    if exists|k: int, s: int, t: int|
        on_board(s) && on_board(t) && #[trigger] back_rank_threat(board, k, s, t) {
        let (k, s, t) = choose|k: int, s: int, t: int|
            on_board(s) && on_board(t) && #[trigger] back_rank_threat(board, k, s, t);
        lemma_king_square(board, Color::Black, k);
        assert(hits(board, s, t));
        assert(reaches_back_rank(board, s));
        assert forall|q: int| on_board(q) && spec_rank(q) == 6 && abs(spec_file(q) - spec_file(k)) <= 1 implies
            #[trigger] board.has_color(q, Color::Black) by {
            let _ = board.piece(q);
        }
        assert(boxed_in(board, k));
    }
}

/// A pawn about to promote, and a rook on the seventh: White has one on its seventh rank.
pub proof fn law_what_stands_on_the_seventh(fen: Seq<char>)
    ensures
        fires(11, fen) <==> exists|s: int|
            48 <= s < 56 && #[trigger] state(fen).board.piece(s) == Some(
                Piece { color: Color::White, role: Role::Pawn },
            ),
        fires(16, fen) <==> exists|s: int|
            48 <= s < 56 && #[trigger] state(fen).board.piece(s) == Some(
                Piece { color: Color::White, role: Role::Rook },
            ),
{
    let board = state(fen).board;
    lemma_on_seventh(board, Role::Pawn);
    lemma_on_seventh(board, Role::Rook);
}

proof fn lemma_on_seventh(board: Board, role: Role)
    ensures
        on_seventh(board, role) <==> exists|s: int|
            48 <= s < 56 && #[trigger] board.piece(s) == Some(Piece { color: Color::White, role }),
{
    if on_seventh(board, role) {
        let s = choose|s: int| on_board(s) && spec_rank(s) == 6 && #[trigger] board.holds(s, Color::White, role);
        assert(board.piece(s) == Some(Piece { color: Color::White, role }));
    }
    if exists|s: int| 48 <= s < 56 && #[trigger] board.piece(s) == Some(Piece { color: Color::White, role }) {
        let s = choose|s: int| 48 <= s < 56 && #[trigger] board.piece(s) == Some(Piece { color: Color::White, role });
        assert(board.holds(s, Color::White, role));
    }
}

/// The piece on `d` is all that defends the attacked black unit on `s`.
pub open spec fn only_defender(board: Board, d: int, s: int) -> bool {
    &&& board.piece(s) is Some && board.piece(s)->0.color == Color::Black
    &&& board.attacked(s, Color::White)
    &&& board.attacks(d, Color::Black, s)
    &&& forall|e: int| on_board(e) && e != d ==> !#[trigger] board.attacks(e, Color::Black, s)
}

/// Overload: one black piece is all that defends two attacked black units.
pub proof fn law_what_an_overloaded_piece_is(fen: Seq<char>)
    ensures
        fires(12, fen) <==> exists|d: int, s: int, t: int|
            on_board(d) && 0 <= s < t < 64 && #[trigger] only_defender(state(fen).board, d, s)
                && #[trigger] only_defender(state(fen).board, d, t),
{
    let board = state(fen).board;
    assert forall|d: int, s: int| on_board(d) implies only_defender(board, d, s) == #[trigger] sole_duty(board, s, d) by {
    }
    if fires(12, fen) {
        let (s, t, d) = choose|s: int, t: int, d: int|
            0 <= s < t < 64 && #[trigger] sole_duty(board, s, d) && #[trigger] sole_duty(board, t, d);
        assert(only_defender(board, d, s) && only_defender(board, d, t));
    }
    if exists|d: int, s: int, t: int|
        on_board(d) && 0 <= s < t < 64 && #[trigger] only_defender(board, d, s) && #[trigger] only_defender(
            board,
            d,
            t,
        ) {
        let (d, s, t) = choose|d: int, s: int, t: int|
            on_board(d) && 0 <= s < t < 64 && #[trigger] only_defender(board, d, s) && #[trigger] only_defender(
                board,
                d,
                t,
            );
        assert(sole_duty(board, s, d) && sole_duty(board, t, d));
    }
}

/// A black officer that White attacks and that attacks no square, free of its own pieces,
/// that White does not attack too.
pub open spec fn cornered(board: Board, s: int) -> bool {
    &&& is_officer(board, s, Color::Black)
    &&& board.attacked(s, Color::White)
    &&& forall|t: int| on_board(t) && #[trigger] board.attacks(s, Color::Black, t) && !is_side(board, t, Color::Black)
        ==> board.attacked(t, Color::White)
}

/// Trapped: a black officer is attacked and has nowhere safe to go.
pub proof fn law_what_a_trapped_piece_is(fen: Seq<char>)
    ensures
        fires(13, fen) <==> exists|s: int| on_board(s) && #[trigger] cornered(state(fen).board, s),
{
    let board = state(fen).board;
    assert forall|s: int| on_board(s) implies cornered(board, s) == #[trigger] trapped_at(board, s) by {
        if trapped_at(board, s) {
            assert forall|t: int|
                on_board(t) && #[trigger] board.attacks(s, Color::Black, t) && !is_side(
                    board,
                    t,
                    Color::Black,
                ) implies board.attacked(t, Color::White) by {
                assert(!escapes_to(board, s, t));
            }
        }
        if cornered(board, s) {
            assert forall|t: int| on_board(t) implies !#[trigger] escapes_to(board, s, t) by {
                let _ = board.attacks(s, Color::Black, t);
            }
        }
    }
    if fires(13, fen) {
        let s = choose|s: int| on_board(s) && #[trigger] trapped_at(board, s);
        assert(cornered(board, s));
    }
    if exists|s: int| on_board(s) && #[trigger] cornered(board, s) {
        let s = choose|s: int| on_board(s) && #[trigger] cornered(board, s);
        assert(trapped_at(board, s));
    }
}

/// The square `t` lies nearer to the far side of the board, seen from the side, than `s`.
pub open spec fn further_on(color: Color, s: int, t: int) -> bool {
    if color == Color::White {
        spec_rank(t) > spec_rank(s)
    } else {
        spec_rank(t) < spec_rank(s)
    }
}

/// A passed pawn has no enemy pawn before it, on its own file or one beside it.
pub proof fn law_what_a_passed_pawn_is(board: Board, color: Color, s: int)
    ensures
        passed(board, color, s) <==> {
            &&& board.piece(s) == Some(Piece { color, role: Role::Pawn })
            &&& forall|t: int|
                on_board(t) && abs(spec_file(t) - spec_file(s)) <= 1 && further_on(color, s, t) ==> #[trigger] board.piece(
                    t,
                ) != Some(Piece { color: color.opponent(), role: Role::Pawn })
        },
{
    if passed(board, color, s) {
        assert forall|t: int|
            on_board(t) && abs(spec_file(t) - spec_file(s)) <= 1 && further_on(color, s, t) implies #[trigger] board.piece(
            t,
        ) != Some(Piece { color: color.opponent(), role: Role::Pawn }) by {
            let _ = board.holds(t, color.opponent(), Role::Pawn);
        }
    }
    if forall|t: int|
        on_board(t) && abs(spec_file(t) - spec_file(s)) <= 1 && further_on(color, s, t) ==> #[trigger] board.piece(t)
            != Some(Piece { color: color.opponent(), role: Role::Pawn }) {
        assert forall|t: int| on_board(t) && #[trigger] board.holds(t, color.opponent(), Role::Pawn) implies !(abs(
            spec_file(t) - spec_file(s),
        ) <= 1 && ahead(color, s, t)) by {
            let _ = board.piece(t);
        }
    }
}

/// An outpost is a knight on its fourth to sixth rank that an own pawn defends and that no
/// enemy pawn on a file beside it can still come to attack.
pub proof fn law_what_an_outpost_is(board: Board, color: Color, s: int)
    requires
        on_board(s),
    ensures
        outpost(board, color, s) <==> {
            &&& board.piece(s) == Some(Piece { color, role: Role::Knight })
            &&& if color == Color::White {
                3 <= spec_rank(s) <= 5
            } else {
                2 <= spec_rank(s) <= 4
            }
            &&& exists|t: int|
                on_board(t) && #[trigger] board.piece(t) == Some(Piece { color, role: Role::Pawn }) && abs(
                    spec_file(t) - spec_file(s),
                ) == 1 && spec_rank(s) - spec_rank(t) == (if color == Color::White {
                    1int
                } else {
                    -1
                })
            &&& forall|t: int|
                on_board(t) && abs(spec_file(t) - spec_file(s)) == 1 && further_on(color, s, t) ==> #[trigger] board.piece(
                    t,
                ) != Some(Piece { color: color.opponent(), role: Role::Pawn })
        },
{
    let one: int = if color == Color::White {
        1
    } else {
        -1
    };
    if pawn_defended(board, color, s) {
        let t = choose|t: int|
            on_board(t) && #[trigger] board.attacks(t, color, s) && board.piece(t)->0.role == Role::Pawn;
        assert(board.piece(t) == Some(Piece { color, role: Role::Pawn }));
    }
    if exists|t: int|
        on_board(t) && #[trigger] board.piece(t) == Some(Piece { color, role: Role::Pawn }) && abs(
            spec_file(t) - spec_file(s),
        ) == 1 && spec_rank(s) - spec_rank(t) == one {
        let t = choose|t: int|
            on_board(t) && #[trigger] board.piece(t) == Some(Piece { color, role: Role::Pawn }) && abs(
                spec_file(t) - spec_file(s),
            ) == 1 && spec_rank(s) - spec_rank(t) == one;
        assert(board.attacks(t, color, s));
        assert(pawn_defended(board, color, s));
    }
    if outpost(board, color, s) {
        assert forall|t: int|
            on_board(t) && abs(spec_file(t) - spec_file(s)) == 1 && further_on(color, s, t) implies #[trigger] board.piece(
            t,
        ) != Some(Piece { color: color.opponent(), role: Role::Pawn }) by {
            let _ = board.holds(t, color.opponent(), Role::Pawn);
        }
    }
    if forall|t: int|
        on_board(t) && abs(spec_file(t) - spec_file(s)) == 1 && further_on(color, s, t) ==> #[trigger] board.piece(t)
            != Some(Piece { color: color.opponent(), role: Role::Pawn }) {
        assert forall|t: int| on_board(t) && #[trigger] board.holds(t, color.opponent(), Role::Pawn) implies !(abs(
            spec_file(t) - spec_file(s),
        ) == 1 && ahead(color, s, t)) by {
            let _ = board.piece(t);
        }
    }
}

/// Doubled and isolated pawns: a pawn with another of its side on its file, and one with
/// none on the files beside it.
pub proof fn law_what_weak_pawns_are(board: Board, color: Color, s: int)
    ensures
        doubled(board, color, s) <==> board.piece(s) == Some(Piece { color, role: Role::Pawn }) && exists|t: int|
            on_board(t) && t != s && spec_file(t) == spec_file(s) && #[trigger] board.piece(t) == Some(
                Piece { color, role: Role::Pawn },
            ),
        isolated(board, color, s) <==> board.piece(s) == Some(Piece { color, role: Role::Pawn }) && forall|t: int|
            on_board(t) && abs(spec_file(t) - spec_file(s)) == 1 ==> #[trigger] board.piece(t) != Some(
                Piece { color, role: Role::Pawn },
            ),
{
    if doubled(board, color, s) {
        let t = choose|t: int|
            on_board(t) && #[trigger] board.holds(t, color, Role::Pawn) && t != s && spec_file(t) == spec_file(s);
        assert(board.piece(t) == Some(Piece { color, role: Role::Pawn }));
    }
    if exists|t: int|
        on_board(t) && t != s && spec_file(t) == spec_file(s) && #[trigger] board.piece(t) == Some(
            Piece { color, role: Role::Pawn },
        ) {
        let t = choose|t: int|
            on_board(t) && t != s && spec_file(t) == spec_file(s) && #[trigger] board.piece(t) == Some(
                Piece { color, role: Role::Pawn },
            );
        assert(board.holds(t, color, Role::Pawn));
    }
    if isolated(board, color, s) {
        assert forall|t: int| on_board(t) && abs(spec_file(t) - spec_file(s)) == 1 implies #[trigger] board.piece(t)
            != Some(Piece { color, role: Role::Pawn }) by {
            let _ = board.holds(t, color, Role::Pawn);
        }
    }
    if forall|t: int|
        on_board(t) && abs(spec_file(t) - spec_file(s)) == 1 ==> #[trigger] board.piece(t) != Some(
            Piece { color, role: Role::Pawn },
        ) {
        assert forall|t: int| on_board(t) && #[trigger] board.holds(t, color, Role::Pawn) implies abs(
            spec_file(t) - spec_file(s),
        ) != 1 by {
            let _ = board.piece(t);
        }
    }
}

/// The structural motifs are White's: a passed pawn, an outpost, a doubled and an isolated
/// pawn.
pub proof fn law_structural_motifs_are_whites(fen: Seq<char>)
    ensures
        fires(14, fen) <==> exists|s: int| on_board(s) && #[trigger] passed(state(fen).board, Color::White, s),
        fires(15, fen) <==> exists|s: int| on_board(s) && #[trigger] outpost(state(fen).board, Color::White, s),
        fires(21, fen) <==> exists|s: int| on_board(s) && #[trigger] doubled(state(fen).board, Color::White, s),
        fires(22, fen) <==> exists|s: int| on_board(s) && #[trigger] isolated(state(fen).board, Color::White, s),
{
}

/// A white rook stands on the square, and no pawn of either side on its file.
pub open spec fn rook_sees_open_file(board: Board, s: int) -> bool {
    &&& board.piece(s) == Some(Piece { color: Color::White, role: Role::Rook })
    &&& forall|t: int| on_board(t) && spec_file(t) == spec_file(s) && (#[trigger] board.piece(t)) is Some
        ==> board.piece(t)->0.role != Role::Pawn
}

/// Open file: a white rook stands on a file without pawns.
pub proof fn law_what_an_open_file_is(fen: Seq<char>)
    ensures
        fires(17, fen) <==> exists|s: int| on_board(s) && #[trigger] rook_sees_open_file(state(fen).board, s),
{
    let board = state(fen).board;
    if fires(17, fen) {
        let s = choose|s: int|
            on_board(s) && #[trigger] board.holds(s, Color::White, Role::Rook) && file_open(board, spec_file(s));
        assert forall|t: int| on_board(t) && spec_file(t) == spec_file(s) && (#[trigger] board.piece(t)) is Some implies board.piece(
            t,
        )->0.role != Role::Pawn by {
            assert(!board.holds(t, Color::White, Role::Pawn) && !board.holds(t, Color::Black, Role::Pawn));
        }
        assert(rook_sees_open_file(board, s));
    }
    if exists|s: int| on_board(s) && #[trigger] rook_sees_open_file(board, s) {
        let s = choose|s: int| on_board(s) && #[trigger] rook_sees_open_file(board, s);
        assert(board.holds(s, Color::White, Role::Rook));
        assert forall|t: int| on_board(t) && spec_file(t) == spec_file(s) implies !#[trigger] board.holds(
            t,
            Color::White,
            Role::Pawn,
        ) by {
            let _ = board.piece(t);
        }
        assert forall|t: int| on_board(t) && spec_file(t) == spec_file(s) implies !#[trigger] board.holds(
            t,
            Color::Black,
            Role::Pawn,
        ) by {
            let _ = board.piece(t);
        }
        assert(file_open(board, spec_file(s)));
    }
}

/// Two white pieces on a rank or file that both move along it, or on a diagonal that both
/// move along, with nothing between them.
pub open spec fn stacked(board: Board, a: int, b: int) -> bool {
    let straight = |r: Role| r == Role::Rook || r == Role::Queen;
    let slanted = |r: Role| r == Role::Bishop || r == Role::Queen;
    &&& a != b
    &&& is_side(board, a, Color::White) && is_side(board, b, Color::White)
    &&& clear_between(a, b, board.occupied_bits())
    &&& {
        ||| straight(board.piece(a)->0.role) && straight(board.piece(b)->0.role) && (spec_file(a) == spec_file(b)
            || spec_rank(a) == spec_rank(b))
        ||| slanted(board.piece(a)->0.role) && slanted(board.piece(b)->0.role) && abs(spec_file(a) - spec_file(b))
            == abs(spec_rank(a) - spec_rank(b))
    }
}

/// Battery: two white pieces are stacked on one line.
pub proof fn law_what_a_battery_is(fen: Seq<char>)
    ensures
        fires(18, fen) <==> exists|a: int, b: int| 0 <= a < b < 64 && #[trigger] stacked(state(fen).board, a, b),
{
    let board = state(fen).board;
    assert forall|a: int, b: int| 0 <= a < b < 64 implies stacked(board, a, b) == #[trigger] battery_at(board, a, b) by {
    }
    if fires(18, fen) {
        let (a, b) = choose|a: int, b: int| 0 <= a < b < 64 && #[trigger] battery_at(board, a, b);
        assert(stacked(board, a, b));
    }
    if exists|a: int, b: int| 0 <= a < b < 64 && #[trigger] stacked(board, a, b) {
        let (a, b) = choose|a: int, b: int| 0 <= a < b < 64 && #[trigger] stacked(board, a, b);
        assert(battery_at(board, a, b));
    }
}

/// King attack: White attacks four or more of the squares that Black's king stands on or
/// beside.
pub proof fn law_what_a_king_attack_is(fen: Seq<char>, k: int)
    requires
        state(fen).board.king_on(Color::Black, k),
    ensures
        fires(19, fen) <==> count_squares(
            |s: int|
                abs(spec_file(s) - spec_file(k)) <= 1 && abs(spec_rank(s) - spec_rank(k)) <= 1
                    && state(fen).board.attacked(s, Color::White),
        ) >= 4,
{
    let board = state(fen).board;
    lemma_king_square(board, Color::Black, k);
    let p = |s: int| near_and_attacked(board, k, s);
    let q = |s: int|
        abs(spec_file(s) - spec_file(k)) <= 1 && abs(spec_rank(s) - spec_rank(k)) <= 1 && state(fen).board.attacked(
            s,
            Color::White,
        );
    assert forall|s: int| 0 <= s < 64 implies #[trigger] p(s) == q(s) by {
    }
    lemma_count_ext(p, q, 64);
}

/// A white bishop that shares the colour of its square with five or more white pawns.
pub open spec fn hemmed_bishop(board: Board, b: int) -> bool {
    &&& board.piece(b) == Some(Piece { color: Color::White, role: Role::Bishop })
    &&& count_squares(
        |s: int|
            board.piece(s) == Some(Piece { color: Color::White, role: Role::Pawn }) && (spec_file(s) + spec_rank(s)
                - spec_file(b) - spec_rank(b)) % 2 == 0,
    ) >= 5
}

/// Bad bishop: five or more white pawns stand on the bishop's colour.
pub proof fn law_what_a_bad_bishop_is(fen: Seq<char>)
    ensures
        fires(20, fen) <==> exists|b: int| on_board(b) && #[trigger] hemmed_bishop(state(fen).board, b),
{
    let board = state(fen).board;
    assert forall|b: int| on_board(b) implies hemmed_bishop(board, b) == #[trigger] bad_bishop_at(board, b) by {
        let p = |s: int| pawn_on_shade(board, b, s);
        let q = |s: int|
            board.piece(s) == Some(Piece { color: Color::White, role: Role::Pawn }) && (spec_file(s) + spec_rank(s)
                - spec_file(b) - spec_rank(b)) % 2 == 0;
        assert forall|s: int| 0 <= s < 64 implies #[trigger] p(s) == q(s) by {
        }
        lemma_count_ext(p, q, 64);
    }
    if fires(20, fen) {
        let b = choose|b: int| on_board(b) && #[trigger] bad_bishop_at(board, b);
        assert(hemmed_bishop(board, b));
    }
    if exists|b: int| on_board(b) && #[trigger] hemmed_bishop(board, b) {
        let b = choose|b: int| on_board(b) && #[trigger] hemmed_bishop(board, b);
        assert(bad_bishop_at(board, b));
    }
}

/// Space: White has two or more pawns more beyond the middle, or next to it, than Black.
pub proof fn law_what_space_is(fen: Seq<char>)
    ensures
        fires(23, fen) <==> count_squares(
            |s: int|
                s >= 24 && state(fen).board.piece(s) == Some(Piece { color: Color::White, role: Role::Pawn }),
        ) >= 2 + count_squares(
            |s: int| s < 40 && state(fen).board.piece(s) == Some(Piece { color: Color::Black, role: Role::Pawn }),
        ),
{
    let board = state(fen).board;
    let (p, q) = (
        |s: int| advanced_white(board, s),
        |s: int| s >= 24 && state(fen).board.piece(s) == Some(Piece { color: Color::White, role: Role::Pawn }),
    );
    assert forall|s: int| 0 <= s < 64 implies #[trigger] p(s) == q(s) by {
    }
    lemma_count_ext(p, q, 64);
    let (p, q) = (
        |s: int| advanced_black(board, s),
        |s: int| s < 40 && state(fen).board.piece(s) == Some(Piece { color: Color::Black, role: Role::Pawn }),
    );
    assert forall|s: int| 0 <= s < 64 implies #[trigger] p(s) == q(s) by {
    }
    lemma_count_ext(p, q, 64);
}

/// The piece `k` steps from a square in a direction, if that is on the board.
pub open spec fn piece_along(board: Board, origin: int, dx: int, dy: int, k: int) -> Option<Piece> {
    let (f, r) = (spec_file(origin) + k * dx, spec_rank(origin) + k * dy);
    if 0 <= f < 8 && 0 <= r < 8 {
        board.piece(r * 8 + f)
    } else {
        None
    }
}

/// A bishop moves along this direction, a rook does, or a queen.
pub open spec fn moves_along(role: Role, dx: int, dy: int) -> bool {
    let (slant, straight) = (abs(dx) == 1 && abs(dy) == 1, abs(dx) + abs(dy) == 1);
    ||| role == Role::Bishop && slant
    ||| role == Role::Rook && straight
    ||| role == Role::Queen && (slant || straight)
}

/// A white slider looks at a black rook, queen or king, and behind it, with nothing
/// between, stands a black officer of less value.
pub open spec fn looks_through(board: Board, origin: int, dx: int, dy: int, i: int, j: int) -> bool {
    let (front, back) = (piece_along(board, origin, dx, dy, i), piece_along(board, origin, dx, dy, j));
    &&& is_side(board, origin, Color::White) && moves_along(board.piece(origin)->0.role, dx, dy)
    &&& 1 <= i < j < 8
    &&& forall|k: int| 0 < k < j && k != i ==> #[trigger] piece_along(board, origin, dx, dy, k) is None
    &&& front is Some && front->0.color == Color::Black
    &&& back is Some && back->0.color == Color::Black
    &&& front->0.role == Role::Rook || front->0.role == Role::Queen || front->0.role == Role::King
    &&& back->0.role != Role::Pawn
    &&& value_order(front->0.role) > value_order(back->0.role)
}

proof fn lemma_looks_through(board: Board, origin: int, d: int, i: int, j: int)
    requires
        0 <= d < 8,
    ensures
        looks_through(board, origin, DIRS[d].0 as int, DIRS[d].1 as int, i, j) <==> board.has_color(
            origin,
            Color::White,
        ) && slides(board.piece(origin)->0.role, d) && skewered_at(board, origin, d, i, j),
{
    let (dx, dy) = (DIRS[d].0 as int, DIRS[d].1 as int);
    assert forall|k: int| #[trigger] ray_piece(board, origin, d, k) == piece_along(board, origin, dx, dy, k) by {
    }
    assert(slides(board.piece(origin)->0.role, d) == moves_along(board.piece(origin)->0.role, dx, dy));
    if looks_through(board, origin, dx, dy, i, j) {
        assert forall|k: int| 0 < k < i implies #[trigger] ray_piece(board, origin, d, k) is None by {
            assert(piece_along(board, origin, dx, dy, k) is None);
        }
        assert forall|k: int| i < k < j implies #[trigger] ray_piece(board, origin, d, k) is None by {
            assert(piece_along(board, origin, dx, dy, k) is None);
        }
        assert(ray_clear(board, origin, d, 0, i) && ray_clear(board, origin, d, i, j));
        assert(skewered_at(board, origin, d, i, j));
    }
    if skewered_at(board, origin, d, i, j) {
        assert forall|k: int| 0 < k < j && k != i implies #[trigger] piece_along(board, origin, dx, dy, k) is None by {
            assert(ray_piece(board, origin, d, k) is None);
        }
    }
}

/// Skewer: a white slider looks through a valuable black piece at a lesser one.
pub proof fn law_what_a_skewer_is(fen: Seq<char>)
    ensures
        fires(8, fen) <==> exists|origin: int, dx: int, dy: int, i: int, j: int|
            on_board(origin) && #[trigger] looks_through(state(fen).board, origin, dx, dy, i, j),
{
    let board = state(fen).board;
    if fires(8, fen) {
        let (origin, d) = choose|origin: int, d: int|
            on_board(origin) && 0 <= d < 8 && #[trigger] skewers(board, origin, d);
        let (i, j) = choose|i: int, j: int| #[trigger] skewered_at(board, origin, d, i, j);
        lemma_looks_through(board, origin, d, i, j);
    }
    if exists|origin: int, dx: int, dy: int, i: int, j: int|
        on_board(origin) && #[trigger] looks_through(board, origin, dx, dy, i, j) {
        let (origin, dx, dy, i, j) = choose|origin: int, dx: int, dy: int, i: int, j: int|
            on_board(origin) && #[trigger] looks_through(board, origin, dx, dy, i, j);
        let d: int = if dx == 1 && dy == 1 {
            0
        } else if dx == 1 && dy == -1 {
            1
        } else if dx == -1 && dy == 1 {
            2
        } else if dx == -1 && dy == -1 {
            3
        } else if dx == 0 && dy == 1 {
            4
        } else if dx == 0 && dy == -1 {
            5
        } else if dx == 1 {
            6
        } else {
            7
        };
        assert(DIRS[d].0 == dx && DIRS[d].1 == dy);
        lemma_looks_through(board, origin, d, i, j);
        assert(skewered_at(board, origin, d, i, j));
        assert(skewers(board, origin, d));
    }
}

/// The slider of the other side on `from` looks along a line at the king on `k`, and the
/// piece on `s` is the only thing between them.
pub open spec fn shields_from(board: Board, color: Color, k: int, s: int, from: int) -> bool {
    &&& is_side(board, from, color.opponent())
    &&& match board.piece(from)->0.role {
        Role::Bishop => on_diagonal(from, k),
        Role::Rook => on_rank_or_file(from, k),
        Role::Queen => on_diagonal(from, k) || on_rank_or_file(from, k),
        _ => false,
    }
    &&& exists|i: int| 1 <= i < steps_apart(from, k) && #[trigger] line_square(from, k, i) == s
    &&& forall|i: int| 1 <= i < steps_apart(from, k) && #[trigger] line_square(from, k, i) != s ==> board.piece(
        line_square(from, k, i),
    ) is None
}

proof fn lemma_line_square(a: int, b: int, i: int)
    requires
        on_board(a),
        on_board(b),
        on_diagonal(a, b) || on_rank_or_file(a, b),
        1 <= i < steps_apart(a, b),
    ensures
        on_board(line_square(a, b, i)),
{
    let (sf, sr) = (sign(spec_file(b) - spec_file(a)), sign(spec_rank(b) - spec_rank(a)));
    assert(i * sf == (if sf == 1 { i } else if sf == 0 { 0 } else { -i })) by (nonlinear_arith)
        requires sf == 1 || sf == 0 || sf == -1;
    assert(i * sr == (if sr == 1 { i } else if sr == 0 { 0 } else { -i })) by (nonlinear_arith)
        requires sr == 1 || sr == 0 || sr == -1;
}

proof fn lemma_lifted(occ: u64, s: int, t: int)
    requires
        on_board(s),
        on_board(t),
    ensures
        bit(occ & !(1u64 << (s as u64)), t) == (bit(occ, t) && t != s),
{
    let (a, b) = (s as u64, t as u64);
    assert(((occ & !(1u64 << a)) >> b) & 1 == 1 <==> ((occ >> b) & 1 == 1 && a != b)) by (bit_vector)
        requires a < 64, b < 64;
}

proof fn lemma_pinned_from(board: Board, color: Color, k: int, s: int, from: int)
    requires
        board.wf(),
        on_board(k),
        on_board(s),
        on_board(from),
        board.piece(s) is Some,
    ensures
        ({
            let lifted = board.occupied_bits() & !(1u64 << (s as u64));
            shields_from(board, color, k, s, from) <==> board.attacks_with(from, color.opponent(), k, lifted)
                && !board.attacks(from, color.opponent(), k)
        }),
{
    let occ = board.occupied_bits();
    let lifted = occ & !(1u64 << (s as u64));
    if on_diagonal(from, k) || on_rank_or_file(from, k) {
        assert forall|i: int| 1 <= i < steps_apart(from, k) implies on_board(#[trigger] line_square(from, k, i)) && bit(
            occ,
            line_square(from, k, i),
        ) == (board.piece(line_square(from, k, i)) is Some) && bit(lifted, line_square(from, k, i)) == (board.piece(
            line_square(from, k, i),
        ) is Some && line_square(from, k, i) != s) by {
            lemma_line_square(from, k, i);
            lemma_occupied(board, line_square(from, k, i));
            lemma_lifted(occ, s, line_square(from, k, i));
        }
    }
}

/// A pinned piece is the only thing between its king and a slider of the other side that
/// looks along the line at the king.
pub proof fn law_what_a_pin_is(board: Board, color: Color, k: int, s: int)
    requires
        board.wf(),
        board.king_on(color, k),
        on_board(s),
        board.piece(s) is Some,
        s != k,
    ensures
        pinned(board, color, s) <==> exists|from: int|
            on_board(from) && #[trigger] shields_from(board, color, k, s, from),
{
    lemma_king_square(board, color, k);
    let lifted = board.occupied_bits() & !(1u64 << (s as u64));
    if pinned(board, color, s) {
        let from = choose|from: int|
            on_board(from) && #[trigger] board.attacks_with(from, color.opponent(), k, lifted) && !board.attacks(
                from,
                color.opponent(),
                k,
            );
        lemma_pinned_from(board, color, k, s, from);
        assert(shields_from(board, color, k, s, from));
    }
    if exists|from: int| on_board(from) && #[trigger] shields_from(board, color, k, s, from) {
        let from = choose|from: int| on_board(from) && #[trigger] shields_from(board, color, k, s, from);
        lemma_pinned_from(board, color, k, s, from);
        assert(board.attacks_with(from, color.opponent(), k, lifted));
    }
}

/// Pin: a black officer is pinned to its king.
pub proof fn law_pins_are_of_officers(fen: Seq<char>)
    ensures
        fires(7, fen) <==> exists|s: int|
            on_board(s) && #[trigger] is_officer(state(fen).board, s, Color::Black) && pinned(
                state(fen).board,
                Color::Black,
                s,
            ),
{
    let board = state(fen).board;
    if fires(7, fen) {
        let s = choose|s: int| on_board(s) && #[trigger] pinned_piece(board, s);
        assert(is_officer(board, s, Color::Black));
    }
    if exists|s: int| on_board(s) && #[trigger] is_officer(board, s, Color::Black) && pinned(board, Color::Black, s) {
        let s = choose|s: int|
            on_board(s) && #[trigger] is_officer(board, s, Color::Black) && pinned(board, Color::Black, s);
        assert(pinned_piece(board, s));
    }
}

} // verus!
