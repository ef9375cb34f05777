//! What the evaluation says of a position: which features are worth something, to whom,
//! and how one of them more or less changes each term.

use vstd::prelude::*;

use crate::chess::{abs, lemma_king_square, on_board, spec_file, spec_rank, steps_apart, Board, Color, Piece, Role};
use crate::eval::{
    both, evaluation, material_at, material_pair, material_term, mobility_at, mobility_of, mobility_pair, mobility_term,
    passed_at, pawns_pair, pawns_term, phase_at, phase_of, placement_at, placement_pair, placement_term, quality_pair,
    quality_term, rook_at, safety_pair, safety_term, table_entry, table_index, tempo_term, term,
};
use crate::features::{
    can_go, doubled, file_open, file_without, hits, isolated, outpost, passed, pressure, zone_weight,
};
use crate::rules::Setup;
use crate::score::{clamp_phase, law_taper_ends, tapered};
use crate::sums::{count_squares, count_upto, lemma_count_ext, lemma_sum_ext, one_if, sum_squares, sum_upto};

verus! {

/// The two boards hold the same, but on one square.
pub open spec fn same_but(a: Board, b: Board, s: int) -> bool {
    forall|t: int| on_board(t) && t != s ==> #[trigger] a.piece(t) == b.piece(t)
}

/// What a side gains from one white-positive pair to another.
pub open spec fn gain(before: (int, int), after: (int, int), color: Color) -> (int, int) {
    if color == Color::White {
        (after.0 - before.0, after.1 - before.1)
    } else {
        (before.0 - after.0, before.1 - after.1)
    }
}

/// A sum changes by as much as its only changed term.
pub proof fn lemma_sum_change(f: spec_fn(int) -> int, g: spec_fn(int) -> int, s: int, n: int)
    requires
        0 <= s,
        forall|t: int| 0 <= t < n && t != s ==> #[trigger] f(t) == g(t),
    ensures
        s < n ==> sum_upto(g, n) - sum_upto(f, n) == g(s) - f(s),
        n <= s ==> sum_upto(g, n) == sum_upto(f, n),
    decreases n,
{
    if n > 0 {
        lemma_sum_change(f, g, s, n - 1);
        if n - 1 != s {
            assert(f(n - 1) == g(n - 1));
        }
    }
}

/// What a piece adds to the material of its side, in middlegame and endgame.
pub proof fn law_material_counts_every_piece(a: Board, b: Board, s: int, color: Color, role: Role)
    requires
        on_board(s),
        same_but(a, b, s),
        a.piece(s) is None,
        b.piece(s) == Some(Piece { color, role }),
    ensures
        ({
            let (mg, eg) = gain(material_pair(a), material_pair(b), color);
            match role {
                Role::Pawn => mg == 100 && eg == 120,
                Role::Knight => mg == 320 && eg == 320,
                Role::Bishop => mg == 330 && eg == 350,
                Role::Rook => mg == 500 && eg == 530,
                Role::Queen => mg == 900 && eg == 950,
                Role::King => mg == 0 && eg == 0,
            }
        }),
{
    let (f, g) = (|t: int| material_at(a, t).0, |t: int| material_at(b, t).0);
    let (h, k) = (|t: int| material_at(a, t).1, |t: int| material_at(b, t).1);
    assert forall|t: int| 0 <= t < 64 && t != s implies #[trigger] f(t) == g(t) && h(t) == k(t) by {
        assert(a.piece(t) == b.piece(t));
    }
    assert forall|t: int| 0 <= t < 64 && t != s implies #[trigger] h(t) == k(t) by {
        assert(a.piece(t) == b.piece(t));
    }
    lemma_sum_change(f, g, s, 64);
    lemma_sum_change(h, k, s, 64);
}

/// The phase falls as pieces come off: a knight or bishop is one unit, a rook two, a queen
/// four, and pawns and kings are none; more than twenty-four units count as twenty-four.
pub proof fn law_phase_falls_as_pieces_come_off(a: Board, b: Board, s: int, color: Color, role: Role)
    requires
        on_board(s),
        same_but(a, b, s),
        a.piece(s) is None,
        b.piece(s) == Some(Piece { color, role }),
    ensures
        ({
            let units: int = match role {
                Role::Knight => 1,
                Role::Bishop => 1,
                Role::Rook => 2,
                Role::Queen => 4,
                _ => 0,
            };
            &&& phase_of(b) == (if phase_of(a) + units > 24 { 24 } else { phase_of(a) + units })
            &&& phase_of(a) <= phase_of(b) <= 24
        }),
{
    let (f, g) = (|t: int| phase_at(a, t), |t: int| phase_at(b, t));
    assert forall|t: int| 0 <= t < 64 && t != s implies #[trigger] f(t) == g(t) by {
        assert(a.piece(t) == b.piece(t));
    }
    lemma_sum_change(f, g, s, 64);
}

/// A board without pieces has no phase.
pub proof fn law_an_empty_board_has_no_phase(board: Board)
    requires
        forall|s: int| on_board(s) ==> (#[trigger] board.piece(s)) is None,
    ensures
        phase_of(board) == 0,
        material_pair(board) == (0int, 0int),
        placement_pair(board) == (0int, 0int),
{
    let zero = |s: int| 0int;
    lemma_zero_sum(64);
    let (p, m, n) = (|s: int| phase_at(board, s), |s: int| material_at(board, s).0, |s: int| material_at(board, s).1);
    let (x, y) = (|s: int| placement_at(board, s).0, |s: int| placement_at(board, s).1);
    assert forall|s: int| 0 <= s < 64 implies #[trigger] p(s) == zero(s) by {
        assert(board.piece(s) is None);
    }
    assert forall|s: int| 0 <= s < 64 implies #[trigger] m(s) == zero(s) by {
        assert(board.piece(s) is None);
    }
    assert forall|s: int| 0 <= s < 64 implies #[trigger] n(s) == zero(s) by {
        assert(board.piece(s) is None);
    }
    assert forall|s: int| 0 <= s < 64 implies #[trigger] x(s) == zero(s) by {
        assert(board.piece(s) is None);
    }
    assert forall|s: int| 0 <= s < 64 implies #[trigger] y(s) == zero(s) by {
        assert(board.piece(s) is None);
    }
    lemma_sum_ext(p, zero, 64);
    lemma_sum_ext(m, zero, 64);
    lemma_sum_ext(n, zero, 64);
    lemma_sum_ext(x, zero, 64);
    lemma_sum_ext(y, zero, 64);
}

proof fn lemma_zero_sum(n: int)
    ensures
        sum_upto(|s: int| 0int, n) == 0,
    decreases n,
{
    if n > 0 {
        lemma_zero_sum(n - 1);
    }
}

/// What a piece's place is worth to its side: the change it makes to the placement.
pub open spec fn placing(a: Board, b: Board, color: Color) -> (int, int) {
    gain(placement_pair(a), placement_pair(b), color)
}

/// One piece was put on an empty square.
pub open spec fn puts(a: Board, b: Board, s: int, color: Color, role: Role) -> bool {
    on_board(s) && same_but(a, b, s) && a.piece(s) is None && b.piece(s) == Some(Piece { color, role })
}

proof fn lemma_placing(a: Board, b: Board, s: int, color: Color, role: Role)
    requires
        puts(a, b, s, color, role),
    ensures
        placing(a, b, color) == table_entry(role, 8 * (7 - own_rank(color, s)) + spec_file(s)),
        0 <= 8 * (7 - own_rank(color, s)) + spec_file(s) < 64,
{
    let (f, g) = (|t: int| placement_at(a, t).0, |t: int| placement_at(b, t).0);
    let (h, k) = (|t: int| placement_at(a, t).1, |t: int| placement_at(b, t).1);
    assert forall|t: int| 0 <= t < 64 && t != s implies #[trigger] f(t) == g(t) by {
        assert(a.piece(t) == b.piece(t));
    }
    assert forall|t: int| 0 <= t < 64 && t != s implies #[trigger] h(t) == k(t) by {
        assert(a.piece(t) == b.piece(t));
    }
    lemma_sum_change(f, g, s, 64);
    lemma_sum_change(h, k, s, 64);
    let i = table_index(color, s);
    assert(i == 8 * (7 - own_rank(color, s)) + spec_file(s));
    let (x, y) = table_entry(role, i);
    match color {
        Color::White => {
            assert(1 * x == x && 1 * y == y);
        },
        Color::Black => {
            assert(-1 * x == -x && -1 * y == -y);
        },
    }
}

/// A square's rank counted from a side's own first rank.
pub open spec fn own_rank(color: Color, s: int) -> int {
    if color == Color::White {
        spec_rank(s)
    } else {
        7 - spec_rank(s)
    }
}

/// How far a square is from the nearest edge of the board.
pub open spec fn depth_in(s: int) -> int {
    let (f, r) = (spec_file(s), spec_rank(s));
    let across = if f < 4 {
        f
    } else {
        7 - f
    };
    let along = if r < 4 {
        r
    } else {
        7 - r
    };
    if across < along {
        across
    } else {
        along
    }
}

/// Knights belong in the centre: the rim costs them thirty or more, the corner most, and
/// the centre gains them ten or more. Their place is judged alike in every phase.
pub proof fn law_knights_belong_in_the_centre(a: Board, b: Board, s: int, color: Color)
    requires
        puts(a, b, s, color, Role::Knight),
    ensures
        depth_in(s) == 0 ==> -50 <= placing(a, b, color).0 <= -30,
        s == 0 || s == 7 || s == 56 || s == 63 ==> placing(a, b, color).0 == -50,
        depth_in(s) >= 2 ==> 10 <= placing(a, b, color).0 <= 20,
        depth_in(s) == 3 ==> placing(a, b, color).0 == 20,
        depth_in(s) == 1 ==> -20 <= placing(a, b, color).0 <= 5,
        placing(a, b, color).0 == placing(a, b, color).1,
{
    lemma_placing(a, b, s, color, Role::Knight);
}

/// Bishops and queens lose by standing on the rim and gain a little inside.
pub proof fn law_bishops_and_queens_avoid_the_rim(a: Board, b: Board, s: int, color: Color, role: Role)
    requires
        puts(a, b, s, color, role),
        role == Role::Bishop || role == Role::Queen,
    ensures
        depth_in(s) == 0 ==> -20 <= placing(a, b, color).0 <= 0,
        role == Role::Bishop && depth_in(s) == 0 ==> placing(a, b, color).0 <= -10,
        s == 0 || s == 7 || s == 56 || s == 63 ==> placing(a, b, color).0 == -20,
        depth_in(s) >= 1 ==> 0 <= placing(a, b, color).0 <= 10,
        role == Role::Bishop && depth_in(s) == 3 ==> placing(a, b, color).0 == 10,
        role == Role::Queen && depth_in(s) >= 2 ==> placing(a, b, color).0 == 5,
        placing(a, b, color).0 == placing(a, b, color).1,
{
    lemma_placing(a, b, s, color, role);
}

/// A rook gains on its seventh rank and loses on the edge files between its own first and
/// seventh.
pub proof fn law_rooks_like_the_seventh_rank(a: Board, b: Board, s: int, color: Color)
    requires
        puts(a, b, s, color, Role::Rook),
    ensures
        own_rank(color, s) == 6 ==> placing(a, b, color).0 == (if spec_file(s) == 0 || spec_file(s) == 7 {
            5int
        } else {
            10
        }),
        1 <= own_rank(color, s) <= 5 ==> placing(a, b, color).0 == (if spec_file(s) == 0 || spec_file(s) == 7 {
            -5int
        } else {
            0
        }),
        own_rank(color, s) == 7 ==> placing(a, b, color).0 == 0,
        own_rank(color, s) == 0 ==> placing(a, b, color).0 == (if spec_file(s) == 3 || spec_file(s) == 4 {
            5int
        } else {
            0
        }),
        placing(a, b, color).0 == placing(a, b, color).1,
{
    lemma_placing(a, b, s, color, Role::Rook);
}

/// In the endgame a pawn is worth the more the further it has come, whatever its file.
pub proof fn law_pawns_gain_by_advancing(
    a: Board,
    b: Board,
    s: int,
    c: Board,
    d: Board,
    t: int,
    color: Color,
)
    requires
        puts(a, b, s, color, Role::Pawn),
        puts(c, d, t, color, Role::Pawn),
        1 <= own_rank(color, s) <= 6,
        1 <= own_rank(color, t) <= 6,
    ensures
        own_rank(color, s) < own_rank(color, t) ==> placing(a, b, color).1 < placing(c, d, color).1,
        own_rank(color, s) == own_rank(color, t) ==> placing(a, b, color).1 == placing(c, d, color).1,
        own_rank(color, s) == 1 ==> placing(a, b, color).1 == 5,
        own_rank(color, s) == 6 ==> placing(a, b, color) == (50int, 90int),
        own_rank(color, s) == 1 && (spec_file(s) == 3 || spec_file(s) == 4) ==> placing(a, b, color).0 == -20,
        own_rank(color, s) == 3 && (spec_file(s) == 3 || spec_file(s) == 4) ==> placing(a, b, color).0 == 20,
{
    lemma_placing(a, b, s, color, Role::Pawn);
    lemma_placing(c, d, t, color, Role::Pawn);
}

/// A king hides in the middlegame and comes out in the endgame.
pub proof fn law_kings_hide_first_and_come_out_later(a: Board, b: Board, s: int, color: Color)
    requires
        puts(a, b, s, color, Role::King),
    ensures
        own_rank(color, s) <= 1 ==> placing(a, b, color).0 >= 0,
        own_rank(color, s) >= 2 ==> placing(a, b, color).0 <= -10,
        own_rank(color, s) == 0 && (spec_file(s) == 1 || spec_file(s) == 6) ==> placing(a, b, color).0 == 30,
        depth_in(s) == 3 ==> placing(a, b, color).1 == 40,
        depth_in(s) == 0 ==> placing(a, b, color).1 <= -20,
        s == 0 || s == 7 || s == 56 || s == 63 ==> placing(a, b, color).1 == -50,
{
    lemma_placing(a, b, s, color, Role::King);
}

/// For pawns, knights, bishops, rooks and kings the two wings are worth the same.
pub proof fn law_the_wings_are_worth_the_same(
    a: Board,
    b: Board,
    s: int,
    c: Board,
    d: Board,
    t: int,
    color: Color,
    role: Role,
)
    requires
        role != Role::Queen,
        puts(a, b, s, color, role),
        puts(c, d, t, color, role),
        spec_rank(s) == spec_rank(t),
        spec_file(s) == 7 - spec_file(t),
    ensures
        placing(a, b, color) == placing(c, d, color),
{
    lemma_placing(a, b, s, color, role);
    lemma_placing(c, d, t, color, role);
}

/// How many pawns of a side share their file with another of its pawns.
pub open spec fn doubled_count(board: Board, color: Color) -> int {
    count_squares(
        |s: int|
            board.piece(s) == Some(Piece { color, role: Role::Pawn }) && exists|t: int|
                on_board(t) && t != s && spec_file(t) == spec_file(s) && #[trigger] board.piece(t) == Some(
                    Piece { color, role: Role::Pawn },
                ),
    )
}

/// How many pawns of a side have none of its pawns on a file beside them.
pub open spec fn isolated_count(board: Board, color: Color) -> int {
    count_squares(
        |s: int|
            board.piece(s) == Some(Piece { color, role: Role::Pawn }) && forall|t: int|
                on_board(t) && abs(spec_file(t) - spec_file(s)) == 1 ==> #[trigger] board.piece(t) != Some(
                    Piece { color, role: Role::Pawn },
                ),
    )
}

proof fn lemma_pawn_counts(board: Board, color: Color)
    ensures
        count_squares(|s: int| doubled(board, color, s)) == doubled_count(board, color),
        count_squares(|s: int| isolated(board, color, s)) == isolated_count(board, color),
{
    let p = |s: int| doubled(board, color, s);
    let q = |s: int|
        board.piece(s) == Some(Piece { color, role: Role::Pawn }) && exists|t: int|
            on_board(t) && t != s && spec_file(t) == spec_file(s) && #[trigger] board.piece(t) == Some(
                Piece { color, role: Role::Pawn },
            );
    assert forall|s: int| 0 <= s < 64 implies #[trigger] p(s) == q(s) by {
        if p(s) {
            let t = choose|t: int| on_board(t) && #[trigger] board.holds(t, color, Role::Pawn) && t != s && spec_file(
                t,
            ) == spec_file(s);
            assert(board.piece(t) == Some(Piece { color, role: Role::Pawn }));
        }
        if q(s) {
            let t = choose|t: int| on_board(t) && t != s && spec_file(t) == spec_file(s) && #[trigger] board.piece(t)
                == Some(Piece { color, role: Role::Pawn });
            assert(board.holds(t, color, Role::Pawn));
        }
    }
    lemma_count_ext(p, q, 64);
    let p = |s: int| isolated(board, color, s);
    let q = |s: int|
        board.piece(s) == Some(Piece { color, role: Role::Pawn }) && forall|t: int|
            on_board(t) && abs(spec_file(t) - spec_file(s)) == 1 ==> #[trigger] board.piece(t) != Some(
                Piece { color, role: Role::Pawn },
            );
    assert forall|s: int| 0 <= s < 64 implies #[trigger] p(s) == q(s) by {
        if p(s) {
            assert forall|t: int| on_board(t) && abs(spec_file(t) - spec_file(s)) == 1 implies #[trigger] board.piece(t)
                != Some(Piece { color, role: Role::Pawn }) by {
                assert(!board.holds(t, color, Role::Pawn));
            }
        }
        if q(s) {
            assert forall|t: int| on_board(t) && #[trigger] board.holds(t, color, Role::Pawn) implies abs(
                spec_file(t) - spec_file(s),
            ) != 1 by {
                assert(board.piece(t) == Some(Piece { color, role: Role::Pawn }));
            }
        }
    }
    lemma_count_ext(p, q, 64);
}

/// The two boards have the same passed pawns of a side: its pawns before which, on their
/// file and beside it, no enemy pawn stands.
pub open spec fn same_passed(a: Board, b: Board, color: Color) -> bool {
    forall|s: int| on_board(s) ==> #[trigger] passed(a, color, s) == passed(b, color, s)
}

proof fn lemma_same_passed(a: Board, b: Board, color: Color)
    requires
        same_passed(a, b, color),
    ensures
        sum_squares(|s: int| passed_at(a, color, s).0) == sum_squares(|s: int| passed_at(b, color, s).0),
        sum_squares(|s: int| passed_at(a, color, s).1) == sum_squares(|s: int| passed_at(b, color, s).1),
{
    let (f, g) = (|s: int| passed_at(a, color, s).0, |s: int| passed_at(b, color, s).0);
    let (h, k) = (|s: int| passed_at(a, color, s).1, |s: int| passed_at(b, color, s).1);
    assert forall|s: int| 0 <= s < 64 implies #[trigger] f(s) == g(s) by {
        assert(passed(a, color, s) == passed(b, color, s));
    }
    assert forall|s: int| 0 <= s < 64 implies #[trigger] h(s) == k(s) by {
        assert(passed(a, color, s) == passed(b, color, s));
    }
    lemma_sum_ext(f, g, 64);
    lemma_sum_ext(h, k, 64);
}

/// Doubled and isolated pawns are weaknesses: of two boards with the same passed pawns of
/// a side, each doubled pawn more costs ten in the middlegame and twenty-two in the
/// endgame, and each isolated pawn more fourteen and twenty.
pub proof fn law_pawn_weaknesses_cost(a: Board, b: Board, color: Color)
    requires
        same_passed(a, b, color),
    ensures
        pawns_pair(a, color).0 - pawns_pair(b, color).0 == 10 * (doubled_count(b, color) - doubled_count(a, color)) + 14
            * (isolated_count(b, color) - isolated_count(a, color)),
        pawns_pair(a, color).1 - pawns_pair(b, color).1 == 22 * (doubled_count(b, color) - doubled_count(a, color)) + 20
            * (isolated_count(b, color) - isolated_count(a, color)),
        isolated_count(a, color) == isolated_count(b, color) && doubled_count(a, color) > doubled_count(b, color)
            ==> pawns_pair(a, color).0 < pawns_pair(b, color).0 && pawns_pair(a, color).1 < pawns_pair(b, color).1,
        doubled_count(a, color) == doubled_count(b, color) && isolated_count(a, color) > isolated_count(b, color)
            ==> pawns_pair(a, color).0 < pawns_pair(b, color).0 && pawns_pair(a, color).1 < pawns_pair(b, color).1,
{
    lemma_pawn_counts(a, color);
    lemma_pawn_counts(b, color);
    lemma_same_passed(a, b, color);
}

proof fn lemma_count_nonnegative(p: spec_fn(int) -> bool, n: int)
    ensures
        count_upto(p, n) >= 0,
    decreases n,
{
    if n > 0 {
        lemma_count_nonnegative(p, n - 1);
    }
}

/// A side's pawn structure is never worth more than its passed pawns, and without a
/// passed pawn it is worth nothing at best.
pub proof fn law_only_passed_pawns_are_an_asset(board: Board, color: Color)
    ensures
        pawns_pair(board, color).0 <= sum_squares(|s: int| passed_at(board, color, s).0),
        pawns_pair(board, color).1 <= sum_squares(|s: int| passed_at(board, color, s).1),
        (forall|s: int| on_board(s) ==> !#[trigger] passed(board, color, s)) ==> pawns_pair(board, color).0 <= 0
            && pawns_pair(board, color).1 <= 0,
{
    lemma_pawn_counts(board, color);
    lemma_count_nonnegative(|s: int| doubled(board, color, s), 64);
    lemma_count_nonnegative(|s: int| isolated(board, color, s), 64);
    if forall|s: int| on_board(s) ==> !#[trigger] passed(board, color, s) {
        let (f, h, zero) = (|s: int| passed_at(board, color, s).0, |s: int| passed_at(board, color, s).1, |s: int| 0int);
        assert forall|s: int| 0 <= s < 64 implies #[trigger] f(s) == zero(s) by {
            assert(!passed(board, color, s));
        }
        assert forall|s: int| 0 <= s < 64 implies #[trigger] h(s) == zero(s) by {
            assert(!passed(board, color, s));
        }
        lemma_zero_sum(64);
        lemma_sum_ext(f, zero, 64);
        lemma_sum_ext(h, zero, 64);
    }
}

/// A passed pawn is worth the more the further it has come, and in the endgame at least
/// twice as much.
pub proof fn law_passed_pawns_gain_by_advancing(a: Board, s: int, b: Board, t: int, color: Color)
    requires
        on_board(s),
        on_board(t),
        passed(a, color, s),
        passed(b, color, t),
        1 <= own_rank(color, s) < own_rank(color, t) <= 6,
    ensures
        0 < passed_at(a, color, s).0 < passed_at(b, color, t).0,
        0 < passed_at(a, color, s).1 < passed_at(b, color, t).1,
        passed_at(a, color, s).1 >= 2 * passed_at(a, color, s).0,
        passed_at(b, color, t).1 >= 2 * passed_at(b, color, t).0,
        own_rank(color, s) == 1 ==> passed_at(a, color, s) == (5int, 10int),
        own_rank(color, s) == 2 ==> passed_at(a, color, s) == (10int, 25int),
        own_rank(color, s) == 3 ==> passed_at(a, color, s) == (20int, 45int),
        own_rank(color, s) == 4 ==> passed_at(a, color, s) == (35int, 80int),
        own_rank(color, t) == 5 ==> passed_at(b, color, t) == (60int, 130int),
        own_rank(color, t) == 6 ==> passed_at(b, color, t) == (100int, 200int),
{
}

/// A piece is worth the more the more squares it can go to: so much for each square more,
/// and less than nothing below a count that its kind can expect. Pawns and kings are not
/// judged by it.
pub proof fn law_mobility_counts_squares(a: Board, b: Board, s: int, t: int, color: Color, role: Role)
    requires
        a.piece(s) == Some(Piece { color, role }),
        b.piece(t) == Some(Piece { color, role }),
    ensures
        ({
            let n = count_squares(|q: int| hits(a, s, q) && !a.has_color(q, color));
            let k = count_squares(|q: int| hits(b, t, q) && !b.has_color(q, color));
            let (x, y) = (mobility_at(a, color, s), mobility_at(b, color, t));
            match role {
                Role::Knight => x.0 - y.0 == 4 * (n - k) && x.1 - y.1 == 4 * (n - k) && (n == 4 ==> x == (0int, 0int)),
                Role::Bishop => x.0 - y.0 == 5 * (n - k) && x.1 - y.1 == 5 * (n - k) && (n == 6 ==> x == (0int, 0int)),
                Role::Rook => x.0 - y.0 == 2 * (n - k) && x.1 - y.1 == 4 * (n - k) && (n == 7 ==> x == (0int, 0int)),
                Role::Queen => x.0 - y.0 == n - k && x.1 - y.1 == 2 * (n - k) && (n == 13 ==> x == (0int, 0int)),
                _ => x == (0int, 0int),
            }
        }),
{
    lemma_mobility(a, color, s, role);
    lemma_mobility(b, color, t, role);
}

#[verifier::spinoff_prover]
proof fn lemma_mobility(board: Board, color: Color, s: int, role: Role)
    requires
        board.piece(s) == Some(Piece { color, role }),
    ensures
        ({
            let n = count_squares(|q: int| hits(board, s, q) && !board.has_color(q, color));
            mobility_at(board, color, s) == (match role {
                Role::Knight => (4 * (n - 4), 4 * (n - 4)),
                Role::Bishop => (5 * (n - 6), 5 * (n - 6)),
                Role::Rook => (2 * (n - 7), 4 * (n - 7)),
                Role::Queen => (n - 13, 2 * (n - 13)),
                _ => (0int, 0int),
            })
        }),
{
    let p = |t: int| can_go(board, color, s, t);
    let q = |q: int| hits(board, s, q) && !board.has_color(q, color);
    assert forall|i: int| 0 <= i < 64 implies #[trigger] p(i) == q(i) by {
    }
    lemma_count_ext(p, q, 64);
    let n = count_squares(q);
    assert(count_squares(|t: int| can_go(board, color, s, t)) == n);
    let ((mg, eg), baseline) = mobility_of(role);
    let got = mobility_at(board, color, s);
    let x = n - baseline;
    assert(got.0 == mg * x);
    assert(got.1 == eg * x);
    lemma_weigh(mg, x);
    lemma_weigh(eg, x);
}

proof fn lemma_weigh(weight: int, n: int)
    ensures
        weight == 0 ==> weight * n == 0,
        weight == 1 ==> weight * n == n,
        weight == 2 ==> weight * n == 2 * n,
        weight == 4 ==> weight * n == 4 * n,
        weight == 5 ==> weight * n == 5 * n,
{
    assert(0 * n == 0 && 1 * n == n) by (nonlinear_arith);
}

/// The mobility of a side is that of its pieces together; the other side's pieces and
/// empty squares add nothing.
pub proof fn law_mobility_is_that_of_the_pieces(a: Board, b: Board, color: Color, s: int)
    requires
        on_board(s),
        forall|t: int| on_board(t) && t != s ==> #[trigger] mobility_at(a, color, t) == mobility_at(b, color, t),
    ensures
        mobility_pair(b, color).0 - mobility_pair(a, color).0 == mobility_at(b, color, s).0 - mobility_at(a, color, s).0,
        mobility_pair(b, color).1 - mobility_pair(a, color).1 == mobility_at(b, color, s).1 - mobility_at(a, color, s).1,
        !a.has_color(s, color) ==> mobility_at(a, color, s) == (0int, 0int),
{
    let (f, g) = (|t: int| mobility_at(a, color, t).0, |t: int| mobility_at(b, color, t).0);
    let (h, k) = (|t: int| mobility_at(a, color, t).1, |t: int| mobility_at(b, color, t).1);
    assert forall|t: int| 0 <= t < 64 && t != s implies #[trigger] f(t) == g(t) by {
        assert(mobility_at(a, color, t) == mobility_at(b, color, t));
    }
    assert forall|t: int| 0 <= t < 64 && t != s implies #[trigger] h(t) == k(t) by {
        assert(mobility_at(a, color, t) == mobility_at(b, color, t));
    }
    lemma_sum_change(f, g, s, 64);
    lemma_sum_change(h, k, s, 64);
}

/// No pawn of either side stands on the file of the square.
pub open spec fn on_open_file(board: Board, s: int) -> bool {
    forall|t: int| on_board(t) && spec_file(t) == spec_file(s) && (#[trigger] board.piece(t)) is Some ==> board.piece(
        t,
    )->0.role != Role::Pawn
}

/// No pawn of the side stands on the file of the square, but one of the other side does.
pub open spec fn on_half_open_file(board: Board, color: Color, s: int) -> bool {
    !on_open_file(board, s) && forall|t: int| on_board(t) && spec_file(t) == spec_file(s) ==> #[trigger] board.piece(t)
        != Some(Piece { color, role: Role::Pawn })
}

proof fn lemma_rook_at(board: Board, color: Color, s: int)
    ensures
        rook_at(board, color, s).0 == 26 * one_if(
            board.holds(s, color, Role::Rook) && on_open_file(board, s),
        ) + 12 * one_if(board.holds(s, color, Role::Rook) && on_half_open_file(board, color, s)) + 20 * one_if(
            board.holds(s, color, Role::Rook) && own_rank(color, s) == 6,
        ),
        rook_at(board, color, s).1 == 14 * one_if(
            board.holds(s, color, Role::Rook) && on_open_file(board, s),
        ) + 8 * one_if(board.holds(s, color, Role::Rook) && on_half_open_file(board, color, s)) + 32 * one_if(
            board.holds(s, color, Role::Rook) && own_rank(color, s) == 6,
        ),
{
    let file = spec_file(s);
    assert(file_open(board, file) == on_open_file(board, s)) by {
        if file_open(board, file) {
            assert forall|t: int| on_board(t) && spec_file(t) == file && (#[trigger] board.piece(t)) is Some implies board.piece(
                t,
            )->0.role != Role::Pawn by {
                assert(!board.holds(t, Color::White, Role::Pawn) && !board.holds(t, Color::Black, Role::Pawn));
            }
        }
        if on_open_file(board, s) {
            assert forall|t: int| on_board(t) && spec_file(t) == file implies !#[trigger] board.holds(
                t,
                Color::White,
                Role::Pawn,
            ) by {
                let _ = board.piece(t);
            }
            assert forall|t: int| on_board(t) && spec_file(t) == file implies !#[trigger] board.holds(
                t,
                Color::Black,
                Role::Pawn,
            ) by {
                let _ = board.piece(t);
            }
        }
    }
    let without = forall|t: int| on_board(t) && spec_file(t) == spec_file(s) ==> #[trigger] board.piece(t) != Some(
        Piece { color, role: Role::Pawn },
    );
    assert(file_without(board, color, file) == without) by {
        if without {
            assert forall|t: int| on_board(t) && spec_file(t) == file implies !#[trigger] board.holds(
                t,
                color,
                Role::Pawn,
            ) by {
                let _ = board.piece(t);
            }
        }
        if file_without(board, color, file) {
            assert forall|t: int| on_board(t) && spec_file(t) == spec_file(s) implies #[trigger] board.piece(t) != Some(
                Piece { color, role: Role::Pawn },
            ) by {
                assert(!board.holds(t, color, Role::Pawn));
            }
        }
    }
}

proof fn lemma_rook_sums(board: Board, color: Color, n: int)
    ensures
        sum_upto(|s: int| rook_at(board, color, s).0, n) == 26 * count_upto(
            |s: int| board.holds(s, color, Role::Rook) && on_open_file(board, s),
            n,
        ) + 12 * count_upto(|s: int| board.holds(s, color, Role::Rook) && on_half_open_file(board, color, s), n) + 20
            * count_upto(|s: int| board.holds(s, color, Role::Rook) && own_rank(color, s) == 6, n),
        sum_upto(|s: int| rook_at(board, color, s).1, n) == 14 * count_upto(
            |s: int| board.holds(s, color, Role::Rook) && on_open_file(board, s),
            n,
        ) + 8 * count_upto(|s: int| board.holds(s, color, Role::Rook) && on_half_open_file(board, color, s), n) + 32
            * count_upto(|s: int| board.holds(s, color, Role::Rook) && own_rank(color, s) == 6, n),
    decreases n,
{
    if n > 0 {
        lemma_rook_sums(board, color, n - 1);
        lemma_rook_at(board, color, n - 1);
    }
}

/// What good pieces are worth: the pair of bishops, each rook on an open file, on a
/// half-open one and on the seventh rank, and each knight on an outpost.
pub proof fn law_piece_quality(board: Board, color: Color)
    ensures
        ({
            let pair = count_squares(|s: int| board.holds(s, color, Role::Bishop)) >= 2;
            let open = count_squares(|s: int| board.holds(s, color, Role::Rook) && on_open_file(board, s));
            let half = count_squares(|s: int| board.holds(s, color, Role::Rook) && on_half_open_file(board, color, s));
            let seventh = count_squares(|s: int| board.holds(s, color, Role::Rook) && own_rank(color, s) == 6);
            let posts = count_squares(|s: int| outpost(board, color, s));
            &&& quality_pair(board, color).0 == 30 * one_if(pair) + 26 * open + 12 * half + 20 * seventh + 26 * posts
            &&& quality_pair(board, color).1 == 50 * one_if(pair) + 14 * open + 8 * half + 32 * seventh + 14 * posts
        }),
{
    lemma_rook_sums(board, color, 64);
}

/// A lone attacker is no attack; from two on, the pressure on the enemy king grows with
/// the square of the attacks on its surroundings, a twelfth of it, up to four hundred. In
/// the endgame a sixth of it is left.
pub proof fn law_king_pressure(board: Board, color: Color)
    ensures
        ({
            let (attackers, weight) = pressure(board, color);
            let (mg, eg) = safety_pair(board, color);
            &&& attackers < 2 ==> mg == 0 && eg == 0
            &&& attackers >= 2 && weight * weight >= 4_800 ==> mg == 400
            &&& attackers >= 2 && weight * weight < 4_800 ==> 12 * mg <= weight * weight < 12 * (mg + 1)
            &&& 6 * eg <= mg < 6 * (eg + 1)
        }),
{
}

/// The pieces that bear on the king: knights, bishops, rooks and queens that attack its
/// square or one beside it, each as often as there are such squares.
pub proof fn law_king_pressure_comes_from_pieces(board: Board, color: Color, k: int, s: int)
    ensures
        board.piece(s) is None ==> zone_weight(board, color, k, s) == 0,
        board.piece(s) is Some && board.piece(s)->0.color != color ==> zone_weight(board, color, k, s) == 0,
        board.piece(s) is Some && (board.piece(s)->0.role == Role::Pawn || board.piece(s)->0.role == Role::King)
            ==> zone_weight(board, color, k, s) == 0,
        board.piece(s) is Some && board.piece(s)->0.color == color && board.piece(s)->0.role != Role::Pawn
            && board.piece(s)->0.role != Role::King ==> zone_weight(board, color, k, s) == count_squares(
            |t: int|
                abs(spec_file(t) - spec_file(k)) <= 1 && abs(spec_rank(t) - spec_rank(k)) <= 1 && hits(board, s, t),
        ),
{
    let p = |t: int| steps_apart(k, t) <= 1 && hits(board, s, t);
    let q = |t: int|
        abs(spec_file(t) - spec_file(k)) <= 1 && abs(spec_rank(t) - spec_rank(k)) <= 1 && hits(board, s, t);
    assert forall|t: int| 0 <= t < 64 implies #[trigger] p(t) == q(t) by {
    }
    lemma_count_ext(p, q, 64);
}

/// The evaluation takes sides: seen from the other side to move, everything but the right
/// to move turns round, and that is worth twelve in the middlegame and four in the
/// endgame.
pub proof fn law_the_evaluation_takes_sides(s: Setup, t: Setup)
    requires
        s.board == t.board,
        s.turn != t.turn,
    ensures
        evaluation(s) + evaluation(t) == 2 * tempo_term(s),
        phase_of(s.board) == 24 ==> tempo_term(s) == 12,
        phase_of(s.board) == 0 ==> tempo_term(s) == 4,
        4 <= tempo_term(s) <= 12,
{
    lemma_turned(s, t);
    let p = phase_of(s.board);
    assert(tapered(12, 4, p) == (12 * clamp_phase(p) + 4 * (24 - clamp_phase(p))) / 24);
}

proof fn lemma_turned(s: Setup, t: Setup)
    requires
        s.board == t.board,
        s.turn != t.turn,
    ensures
        forall|pair: (int, int)| #[trigger] term(s, pair) == -term(t, pair),
{
    assert forall|pair: (int, int)| #[trigger] term(s, pair) == -term(t, pair) by {
        let v = tapered(pair.0, pair.1, phase_of(s.board));
        assert(v * 1 == v && v * -1 == -v);
    }
}

/// The pressure of a side is that on the other side's king: how many of its pieces bear
/// on the king's surroundings, and how many attacks they make on them in all.
pub proof fn law_king_pressure_is_on_the_enemy_king(board: Board, color: Color, k: int)
    requires
        board.king_on(color.opponent(), k),
    ensures
        pressure(board, color).0 == count_squares(|s: int| zone_weight(board, color, k, s) >= 1),
        pressure(board, color).1 == sum_squares(|s: int| zone_weight(board, color, k, s)),
{
    lemma_king_square(board, color.opponent(), k);
    assert(pressure(board, color).0 == count_squares(|from: int| zone_weight(board, color, k, from) >= 1));
}

/// Every term is told from the mover's point of view: White's share less Black's if White
/// is to move, the other way round if Black is, with the middlegame values while
/// everything is on the board and the endgame values once nothing is left.
pub proof fn law_terms_are_the_movers(s: Setup)
    ensures
        ({
            let b = s.board;
            let turn = |x: int| if s.turn == Color::White {
                x
            } else {
                -x
            };
            let (w, k) = (Color::White, Color::Black);
            &&& phase_of(b) == 24 ==> {
                &&& material_term(s) == turn(material_pair(b).0)
                &&& placement_term(s) == turn(placement_pair(b).0)
                &&& mobility_term(s) == turn(mobility_pair(b, w).0 - mobility_pair(b, k).0)
                &&& pawns_term(s) == turn(pawns_pair(b, w).0 - pawns_pair(b, k).0)
                &&& quality_term(s) == turn(quality_pair(b, w).0 - quality_pair(b, k).0)
                &&& safety_term(s) == turn(safety_pair(b, w).0 - safety_pair(b, k).0)
            }
            &&& phase_of(b) == 0 ==> {
                &&& material_term(s) == turn(material_pair(b).1)
                &&& placement_term(s) == turn(placement_pair(b).1)
                &&& mobility_term(s) == turn(mobility_pair(b, w).1 - mobility_pair(b, k).1)
                &&& pawns_term(s) == turn(pawns_pair(b, w).1 - pawns_pair(b, k).1)
                &&& quality_term(s) == turn(quality_pair(b, w).1 - quality_pair(b, k).1)
                &&& safety_term(s) == turn(safety_pair(b, w).1 - safety_pair(b, k).1)
            }
            &&& evaluation(s) == material_term(s) + placement_term(s) + mobility_term(s) + pawns_term(s) + quality_term(
                s,
            ) + safety_term(s) + tempo_term(s)
        }),
{
    lemma_term_ends(s, material_pair(s.board));
    lemma_term_ends(s, placement_pair(s.board));
    lemma_term_ends(s, both(mobility_pair(s.board, Color::White), mobility_pair(s.board, Color::Black)));
    lemma_term_ends(s, both(pawns_pair(s.board, Color::White), pawns_pair(s.board, Color::Black)));
    lemma_term_ends(s, both(quality_pair(s.board, Color::White), quality_pair(s.board, Color::Black)));
    lemma_term_ends(s, both(safety_pair(s.board, Color::White), safety_pair(s.board, Color::Black)));
}

proof fn lemma_term_ends(s: Setup, pair: (int, int))
    ensures
        phase_of(s.board) == 24 ==> term(s, pair) == (if s.turn == Color::White { pair.0 } else { -pair.0 }),
        phase_of(s.board) == 0 ==> term(s, pair) == (if s.turn == Color::White { pair.1 } else { -pair.1 }),
{
    law_taper_ends(pair.0, pair.1);
    let v = tapered(pair.0, pair.1, phase_of(s.board));
    assert(v * 1 == v && v * -1 == -v);
}

} // verus!
