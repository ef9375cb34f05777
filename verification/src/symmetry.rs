//! Colour symmetry: what mirroring a position does to what is read off it.
//!
//! Mirroring reverses the ranks, exchanges the colours and hands the move to the
//! other side. Every feature of a side then belongs to the other side, and an
//! evaluation from the mover's point of view stays what it was.

use vstd::prelude::*;

use crate::chess::{
    abs, bit, clear_between, flip, in_grid, lemma_king_square, lemma_occupied, line_square, on_board, on_diagonal,
    on_rank_or_file, reaches, sign, spec_file, spec_rank, square_at, steps_apart, Board, Color, Piece, Role,
};
use crate::eval::{
    both, evaluation, material_at, material_pair, material_term, mobility_at, mobility_pair, mobility_term, passed_at,
    pawns_pair, pawns_term, phase_at, phase_of, placement_at, placement_pair, placement_term, quality_pair,
    quality_term, rook_at, safety_pair, safety_term, side, tempo_term, term,
};
use crate::features::{
    ahead, can_go, doubled, file_without, hits, isolated, outpost, passed, pawn_defended, pressure, rank_for,
    zone_weight,
};
use crate::rules::{boards_mirror, swap_piece, Setup};
use crate::score::law_taper_negates;
use crate::sums::{count_squares, lemma_count_flip, lemma_sum_flip, lemma_sum_neg};

verus! {

pub proof fn lemma_flip(s: int)
    requires
        on_board(s),
    ensures
        on_board(flip(s)),
        flip(flip(s)) == s,
        spec_file(flip(s)) == spec_file(s),
        spec_rank(flip(s)) == 7 - spec_rank(s),
{
}

/// Mirroring is mutual.
pub proof fn lemma_mirror_back(a: Board, b: Board)
    requires
        boards_mirror(a, b),
    ensures
        boards_mirror(b, a),
{
    assert forall|s: int| on_board(s) implies a.piece(flip(s)) == swap_piece(#[trigger] b.piece(s)) by {
        lemma_flip(s);
        assert(b.piece(flip(flip(s))) == swap_piece(a.piece(flip(s))));
    }
}

pub proof fn lemma_pieces(a: Board, b: Board, s: int)
    requires
        boards_mirror(a, b),
        on_board(s),
    ensures
        b.piece(flip(s)) == swap_piece(a.piece(s)),
        forall|c: Color, r: Role| #[trigger] a.holds(s, c, r) == b.holds(flip(s), c.opponent(), r),
        forall|c: Color| #[trigger] a.has_color(s, c) == b.has_color(flip(s), c.opponent()),
{
    assert(b.piece(flip(s)) == swap_piece(a.piece(s)));
}

proof fn lemma_occupancy(a: Board, b: Board, s: int)
    requires
        a.wf(),
        b.wf(),
        boards_mirror(a, b),
        on_board(s),
    ensures
        bit(a.occupied_bits(), s) == bit(b.occupied_bits(), flip(s)),
{
    lemma_flip(s);
    lemma_pieces(a, b, s);
    lemma_occupied(a, s);
    lemma_occupied(b, flip(s));
}

/// Between two squares on a line the steps stay on the board, and the reflected
/// line runs through the reflected squares.
proof fn lemma_line(from: int, to: int, k: int)
    requires
        on_board(from),
        on_board(to),
        on_diagonal(from, to) || on_rank_or_file(from, to),
        1 <= k < steps_apart(from, to),
    ensures
        on_board(line_square(from, to, k)),
        line_square(flip(from), flip(to), k) == flip(line_square(from, to, k)),
        steps_apart(flip(from), flip(to)) == steps_apart(from, to),
{
    lemma_flip(from);
    lemma_flip(to);
    let df = spec_file(to) - spec_file(from);
    let dr = spec_rank(to) - spec_rank(from);
    lemma_coordinate(spec_file(from), df, k);
    lemma_coordinate(spec_rank(from), dr, k);
    lemma_coordinate(7 - spec_rank(from), -dr, k);
    lemma_flip_at(spec_file(from) + k * sign(df), spec_rank(from) + k * sign(dr));
}

/// A coordinate stays in its range while it steps towards a target.
proof fn lemma_coordinate(c: int, d: int, k: int)
    requires
        0 <= c < 8,
        0 <= c + d < 8,
        1 <= k,
        d == 0 || k < abs(d),
    ensures
        0 <= c + k * sign(d) < 8,
        k * sign(-d) == -(k * sign(d)),
{
    if d > 0 {
        assert(k * sign(d) == k);
    } else if d < 0 {
        assert(k * sign(d) == -k);
    } else {
        assert(k * sign(d) == 0);
    }
}

proof fn lemma_flip_at(f: int, r: int)
    requires
        in_grid(f, r),
    ensures
        on_board(square_at(f, r)),
        flip(square_at(f, r)) == square_at(f, 7 - r),
{
}

proof fn lemma_clear(from: int, to: int, occ: u64, other: u64)
    requires
        on_board(from),
        on_board(to),
        on_diagonal(from, to) || on_rank_or_file(from, to),
        forall|s: int| #![trigger bit(occ, s)] on_board(s) ==> bit(occ, s) == bit(other, flip(s)),
        clear_between(from, to, occ),
    ensures
        clear_between(flip(from), flip(to), other),
{
    lemma_flip(from);
    lemma_flip(to);
    assert forall|k: int| 1 <= k < steps_apart(flip(from), flip(to)) implies !bit(
        other,
        #[trigger] line_square(flip(from), flip(to), k),
    ) by {
        lemma_line(from, to, k);
        assert(!bit(occ, line_square(from, to, k)));
    }
}

pub open spec fn swapped(p: Piece) -> Piece {
    Piece { color: p.color.opponent(), role: p.role }
}

/// A piece reaches a square exactly when its mirror image reaches the mirrored
/// square.
proof fn lemma_reaches(p: Piece, from: int, to: int, occ: u64, other: u64)
    requires
        on_board(from),
        on_board(to),
        forall|s: int| #![trigger bit(occ, s)] on_board(s) ==> bit(occ, s) == bit(other, flip(s)),
    ensures
        reaches(p, from, to, occ) == reaches(swapped(p), flip(from), flip(to), other),
{
    lemma_flip(from);
    lemma_flip(to);
    if on_diagonal(from, to) || on_rank_or_file(from, to) {
        if clear_between(from, to, occ) {
            lemma_clear(from, to, occ, other);
        }
        if clear_between(flip(from), flip(to), other) {
            assert forall|s: int| #![trigger bit(other, s)] on_board(s) implies bit(other, s) == bit(occ, flip(s)) by {
                lemma_flip(s);
                assert(bit(occ, flip(s)) == bit(other, flip(flip(s))));
            }
            lemma_clear(flip(from), flip(to), other, occ);
        }
    }
}

/// Attacks mirror.
pub proof fn lemma_hits(a: Board, b: Board, from: int, to: int)
    requires
        a.wf(),
        b.wf(),
        boards_mirror(a, b),
        on_board(from),
        on_board(to),
    ensures
        hits(a, from, to) == hits(b, flip(from), flip(to)),
        forall|c: Color| #[trigger] a.attacks(from, c, to) == b.attacks(flip(from), c.opponent(), flip(to)),
{
    lemma_flip(from);
    lemma_flip(to);
    lemma_pieces(a, b, from);
    assert forall|s: int| #![trigger bit(a.occupied_bits(), s)] on_board(s) implies bit(a.occupied_bits(), s) == bit(
        b.occupied_bits(),
        flip(s),
    ) by {
        lemma_occupancy(a, b, s);
    }
    if a.piece(from) is Some {
        lemma_reaches(a.piece(from)->0, from, to, a.occupied_bits(), b.occupied_bits());
        assert(b.piece(flip(from)) == Some(swapped(a.piece(from)->0)));
    }
}

/// The king of a side stands where its mirror image puts it.
pub proof fn lemma_kings(a: Board, b: Board, color: Color)
    requires
        boards_mirror(a, b),
    ensures
        b.king_square(color.opponent()) == (match a.king_square(color) {
            Some(k) => Some(flip(k)),
            None => None,
        }),
        a.king_square(color) is Some ==> on_board(a.king_square(color)->0),
{
    lemma_mirror_back(a, b);
    if a.king_square(color) is Some {
        let k = a.king_square(color)->0;
        lemma_king_flips(a, b, color, k);
        lemma_king_square(b, color.opponent(), flip(k));
    } else if b.king_square(color.opponent()) is Some {
        let k = b.king_square(color.opponent())->0;
        lemma_king_flips(b, a, color.opponent(), k);
        assert(a.king_on(color, flip(k)));
    }
}

proof fn lemma_king_flips(a: Board, b: Board, color: Color, k: int)
    requires
        boards_mirror(a, b),
        a.king_on(color, k),
    ensures
        b.king_on(color.opponent(), flip(k)),
{
    lemma_flip(k);
    lemma_pieces(a, b, k);
    assert(a.holds(k, color, Role::King));
    assert forall|t: int| #![trigger b.holds(t, color.opponent(), Role::King)]
        on_board(t) && b.holds(t, color.opponent(), Role::King) implies t == flip(k) by {
        lemma_flip(t);
        lemma_pieces(a, b, flip(t));
        assert(a.holds(flip(t), color, Role::King));
    }
}

/// Ranks counted from a side's own edge do not change under mirroring.
proof fn lemma_rank_for(color: Color, s: int)
    requires
        on_board(s),
    ensures
        rank_for(color.opponent(), flip(s)) == rank_for(color, s),
{
    lemma_flip(s);
}

/// The pawn features of a side mirror into those of the other side.
proof fn lemma_pawn_features(a: Board, b: Board, color: Color, s: int)
    requires
        boards_mirror(a, b),
        on_board(s),
    ensures
        passed(a, color, s) == passed(b, color.opponent(), flip(s)),
        doubled(a, color, s) == doubled(b, color.opponent(), flip(s)),
        isolated(a, color, s) == isolated(b, color.opponent(), flip(s)),
{
    lemma_mirror_back(a, b);
    lemma_flip(s);
    lemma_half_passed(a, b, color, s);
    lemma_half_passed(b, a, color.opponent(), flip(s));
    lemma_half_doubled(a, b, color, s);
    lemma_half_doubled(b, a, color.opponent(), flip(s));
    lemma_half_isolated(a, b, color, s);
    lemma_half_isolated(b, a, color.opponent(), flip(s));
}

proof fn lemma_half_passed(a: Board, b: Board, color: Color, s: int)
    requires
        boards_mirror(a, b),
        on_board(s),
    ensures
        passed(a, color, s) ==> passed(b, color.opponent(), flip(s)),
{
    lemma_flip(s);
    lemma_pieces(a, b, s);
    if passed(a, color, s) {
        assert(a.holds(s, color, Role::Pawn));
        assert forall|t: int| on_board(t) && #[trigger] b.holds(t, color, Role::Pawn) implies !(abs(
            spec_file(t) - spec_file(flip(s)),
        ) <= 1 && ahead(color.opponent(), flip(s), t)) by {
            lemma_flip(t);
            lemma_pieces(a, b, flip(t));
            assert(a.holds(flip(t), color.opponent(), Role::Pawn));
            lemma_rank_for(color, s);
            lemma_rank_for(color, flip(t));
        }
        assert(color.opponent().opponent() == color);
    }
}

proof fn lemma_half_doubled(a: Board, b: Board, color: Color, s: int)
    requires
        boards_mirror(a, b),
        on_board(s),
    ensures
        doubled(a, color, s) ==> doubled(b, color.opponent(), flip(s)),
{
    lemma_flip(s);
    lemma_pieces(a, b, s);
    if doubled(a, color, s) {
        assert(a.holds(s, color, Role::Pawn));
        let t = choose|t: int| on_board(t) && #[trigger] a.holds(t, color, Role::Pawn) && t != s && spec_file(t)
            == spec_file(s);
        lemma_flip(t);
        lemma_pieces(a, b, t);
        assert(b.holds(flip(t), color.opponent(), Role::Pawn));
    }
}

proof fn lemma_half_isolated(a: Board, b: Board, color: Color, s: int)
    requires
        boards_mirror(a, b),
        on_board(s),
    ensures
        isolated(a, color, s) ==> isolated(b, color.opponent(), flip(s)),
{
    lemma_flip(s);
    lemma_pieces(a, b, s);
    if isolated(a, color, s) {
        assert(a.holds(s, color, Role::Pawn));
        assert forall|t: int| on_board(t) && #[trigger] b.holds(t, color.opponent(), Role::Pawn) implies abs(
            spec_file(t) - spec_file(flip(s)),
        ) != 1 by {
            lemma_flip(t);
            lemma_pieces(a, b, flip(t));
            assert(a.holds(flip(t), color, Role::Pawn));
        }
    }
}

/// Files without pawns of a side mirror into files without pawns of the other.
proof fn lemma_files(a: Board, b: Board, color: Color, file: int)
    requires
        boards_mirror(a, b),
    ensures
        file_without(a, color, file) == file_without(b, color.opponent(), file),
{
    lemma_mirror_back(a, b);
    lemma_half_file(a, b, color, file);
    lemma_half_file(b, a, color.opponent(), file);
}

proof fn lemma_half_file(a: Board, b: Board, color: Color, file: int)
    requires
        boards_mirror(a, b),
    ensures
        file_without(a, color, file) ==> file_without(b, color.opponent(), file),
{
    if file_without(a, color, file) {
        assert forall|t: int| on_board(t) && spec_file(t) == file implies !#[trigger] b.holds(
            t,
            color.opponent(),
            Role::Pawn,
        ) by {
            lemma_flip(t);
            lemma_pieces(a, b, flip(t));
            assert(!a.holds(flip(t), color, Role::Pawn));
        }
    }
}

/// Outposts of a side mirror into those of the other side.
proof fn lemma_outposts(a: Board, b: Board, color: Color, s: int)
    requires
        a.wf(),
        b.wf(),
        boards_mirror(a, b),
        on_board(s),
    ensures
        outpost(a, color, s) == outpost(b, color.opponent(), flip(s)),
{
    lemma_mirror_back(a, b);
    lemma_flip(s);
    lemma_half_outpost(a, b, color, s);
    lemma_half_outpost(b, a, color.opponent(), flip(s));
}

proof fn lemma_half_outpost(a: Board, b: Board, color: Color, s: int)
    requires
        a.wf(),
        b.wf(),
        boards_mirror(a, b),
        on_board(s),
    ensures
        outpost(a, color, s) ==> outpost(b, color.opponent(), flip(s)),
{
    lemma_flip(s);
    lemma_pieces(a, b, s);
    lemma_rank_for(color, s);
    if outpost(a, color, s) {
        assert(a.holds(s, color, Role::Knight));
        let d = choose|t: int| on_board(t) && #[trigger] a.attacks(t, color, s) && a.piece(t)->0.role == Role::Pawn;
        lemma_flip(d);
        lemma_hits(a, b, d, s);
        lemma_pieces(a, b, d);
        assert(b.attacks(flip(d), color.opponent(), flip(s)));
        assert(pawn_defended(b, color.opponent(), flip(s)));
        assert forall|t: int| on_board(t) && #[trigger] b.holds(t, color, Role::Pawn) implies !(abs(
            spec_file(t) - spec_file(flip(s)),
        ) == 1 && ahead(color.opponent(), flip(s), t)) by {
            lemma_flip(t);
            lemma_pieces(a, b, flip(t));
            assert(a.holds(flip(t), color.opponent(), Role::Pawn));
            lemma_rank_for(color, flip(t));
        }
        assert(color.opponent().opponent() == color);
    }
}

/// The count of squares a piece can go to does not change under mirroring.
proof fn lemma_mobility(a: Board, b: Board, color: Color, s: int)
    requires
        a.wf(),
        b.wf(),
        boards_mirror(a, b),
        on_board(s),
    ensures
        count_squares(|t: int| can_go(a, color, s, t)) == count_squares(
            |t: int| can_go(b, color.opponent(), flip(s), t),
        ),
{
    let p = |t: int| can_go(a, color, s, t);
    let q = |t: int| can_go(b, color.opponent(), flip(s), t);
    assert forall|t: int| on_board(t) implies #[trigger] p(t) == q(flip(t)) by {
        lemma_hits(a, b, s, t);
        lemma_pieces(a, b, t);
        assert(a.has_color(t, color) == b.has_color(flip(t), color.opponent()));
    }
    lemma_count_flip(p, q);
}

/// The pressure of a side on the enemy king does not change under mirroring.
proof fn lemma_pressure(a: Board, b: Board, color: Color)
    requires
        a.wf(),
        b.wf(),
        boards_mirror(a, b),
    ensures
        pressure(a, color) == pressure(b, color.opponent()),
{
    lemma_kings(a, b, color.opponent());
    assert(color.opponent().opponent() == color);
    if a.king_square(color.opponent()) is Some {
        let k = a.king_square(color.opponent())->0;
        assert forall|s: int| on_board(s) implies zone_weight(a, color, k, s) == #[trigger] zone_weight(
            b,
            color.opponent(),
            flip(k),
            flip(s),
        ) by {
            lemma_zone(a, b, color, k, s);
        }
        let p = |s: int| zone_weight(a, color, k, s) >= 1;
        let q = |s: int| zone_weight(b, color.opponent(), flip(k), s) >= 1;
        assert forall|s: int| on_board(s) implies #[trigger] p(s) == q(flip(s)) by {
            assert(zone_weight(a, color, k, s) == zone_weight(b, color.opponent(), flip(k), flip(s)));
        }
        lemma_count_flip(p, q);
        let f = |s: int| zone_weight(a, color, k, s);
        let g = |s: int| zone_weight(b, color.opponent(), flip(k), s);
        assert forall|s: int| on_board(s) implies #[trigger] f(s) == g(flip(s)) by {
            assert(zone_weight(a, color, k, s) == zone_weight(b, color.opponent(), flip(k), flip(s)));
        }
        lemma_sum_flip(f, g);
    }
}

proof fn lemma_zone(a: Board, b: Board, color: Color, k: int, s: int)
    requires
        a.wf(),
        b.wf(),
        boards_mirror(a, b),
        on_board(k),
        on_board(s),
    ensures
        zone_weight(a, color, k, s) == zone_weight(b, color.opponent(), flip(k), flip(s)),
{
    lemma_flip(k);
    lemma_flip(s);
    lemma_pieces(a, b, s);
    assert(a.has_color(s, color) == b.has_color(flip(s), color.opponent()));
    let p = |t: int| steps_apart(k, t) <= 1 && hits(a, s, t);
    let q = |t: int| steps_apart(flip(k), t) <= 1 && hits(b, flip(s), t);
    assert forall|t: int| on_board(t) implies #[trigger] p(t) == q(flip(t)) by {
        lemma_flip(t);
        lemma_hits(a, b, s, t);
    }
    lemma_count_flip(p, q);
}

/// A term of one side, summed over the board, mirrors into the other side's.
proof fn lemma_color_pairs(a: Board, b: Board, color: Color)
    requires
        a.wf(),
        b.wf(),
        boards_mirror(a, b),
    ensures
        mobility_pair(a, color) == mobility_pair(b, color.opponent()),
        pawns_pair(a, color) == pawns_pair(b, color.opponent()),
        quality_pair(a, color) == quality_pair(b, color.opponent()),
        safety_pair(a, color) == safety_pair(b, color.opponent()),
{
    let c = color.opponent();
    assert forall|s: int| on_board(s) implies #[trigger] mobility_at(a, color, s) == mobility_at(b, c, flip(s)) by {
        lemma_pieces(a, b, s);
        assert(a.has_color(s, color) == b.has_color(flip(s), c));
        lemma_mobility(a, b, color, s);
    }
    lemma_sum_flip(|s: int| mobility_at(a, color, s).0, |s: int| mobility_at(b, c, s).0);
    lemma_sum_flip(|s: int| mobility_at(a, color, s).1, |s: int| mobility_at(b, c, s).1);
    lemma_pawn_pairs(a, b, color);
    lemma_quality_pairs(a, b, color);
    lemma_pressure(a, b, color);
}

proof fn lemma_pawn_pairs(a: Board, b: Board, color: Color)
    requires
        boards_mirror(a, b),
    ensures
        pawns_pair(a, color) == pawns_pair(b, color.opponent()),
{
    let c = color.opponent();
    assert forall|s: int| on_board(s) implies #[trigger] passed_at(a, color, s) == passed_at(b, c, flip(s)) by {
        lemma_pawn_features(a, b, color, s);
        lemma_rank_for(color, s);
    }
    lemma_sum_flip(|s: int| passed_at(a, color, s).0, |s: int| passed_at(b, c, s).0);
    lemma_sum_flip(|s: int| passed_at(a, color, s).1, |s: int| passed_at(b, c, s).1);
    let (d0, d1) = (|s: int| doubled(a, color, s), |s: int| doubled(b, c, s));
    let (i0, i1) = (|s: int| isolated(a, color, s), |s: int| isolated(b, c, s));
    assert forall|s: int| on_board(s) implies #[trigger] d0(s) == d1(flip(s)) by {
        lemma_pawn_features(a, b, color, s);
    }
    assert forall|s: int| on_board(s) implies #[trigger] i0(s) == i1(flip(s)) by {
        lemma_pawn_features(a, b, color, s);
    }
    lemma_count_flip(d0, d1);
    lemma_count_flip(i0, i1);
}

proof fn lemma_quality_pairs(a: Board, b: Board, color: Color)
    requires
        a.wf(),
        b.wf(),
        boards_mirror(a, b),
    ensures
        quality_pair(a, color) == quality_pair(b, color.opponent()),
{
    let c = color.opponent();
    let (b0, b1) = (|s: int| a.holds(s, color, Role::Bishop), |s: int| b.holds(s, c, Role::Bishop));
    assert forall|s: int| on_board(s) implies #[trigger] b0(s) == b1(flip(s)) by {
        lemma_pieces(a, b, s);
        assert(a.holds(s, color, Role::Bishop) == b.holds(flip(s), c, Role::Bishop));
    }
    lemma_count_flip(b0, b1);
    let (o0, o1) = (|s: int| outpost(a, color, s), |s: int| outpost(b, c, s));
    assert forall|s: int| on_board(s) implies #[trigger] o0(s) == o1(flip(s)) by {
        lemma_outposts(a, b, color, s);
    }
    lemma_count_flip(o0, o1);
    assert forall|s: int| on_board(s) implies #[trigger] rook_at(a, color, s) == rook_at(b, c, flip(s)) by {
        lemma_flip(s);
        lemma_pieces(a, b, s);
        assert(a.holds(s, color, Role::Rook) == b.holds(flip(s), c, Role::Rook));
        lemma_files(a, b, Color::White, spec_file(s));
        lemma_files(a, b, Color::Black, spec_file(s));
        lemma_rank_for(color, s);
    }
    lemma_sum_flip(|s: int| rook_at(a, color, s).0, |s: int| rook_at(b, c, s).0);
    lemma_sum_flip(|s: int| rook_at(a, color, s).1, |s: int| rook_at(b, c, s).1);
}

/// Material and placement change their sign under mirroring, the phase does not
/// change.
proof fn lemma_plain_pairs(a: Board, b: Board)
    requires
        boards_mirror(a, b),
    ensures
        material_pair(b) == (-material_pair(a).0, -material_pair(a).1),
        placement_pair(b) == (-placement_pair(a).0, -placement_pair(a).1),
        phase_of(b) == phase_of(a),
{
    assert forall|s: int| on_board(s) implies #[trigger] material_at(a, s) == negated(material_at(b, flip(s))) by {
        lemma_pieces(a, b, s);
        lemma_sides();
    }
    assert forall|s: int| on_board(s) implies #[trigger] placement_at(a, s) == negated(placement_at(b, flip(s))) by {
        lemma_pieces(a, b, s);
        lemma_flip(s);
        lemma_sides();
    }
    lemma_sum_flip(|s: int| material_at(a, s).0, |s: int| negated(material_at(b, s)).0);
    lemma_sum_flip(|s: int| material_at(a, s).1, |s: int| negated(material_at(b, s)).1);
    lemma_sum_flip(|s: int| placement_at(a, s).0, |s: int| negated(placement_at(b, s)).0);
    lemma_sum_flip(|s: int| placement_at(a, s).1, |s: int| negated(placement_at(b, s)).1);
    lemma_sum_neg(|s: int| material_at(b, s).0, |s: int| negated(material_at(b, s)).0, 64);
    lemma_sum_neg(|s: int| material_at(b, s).1, |s: int| negated(material_at(b, s)).1, 64);
    lemma_sum_neg(|s: int| placement_at(b, s).0, |s: int| negated(placement_at(b, s)).0, 64);
    lemma_sum_neg(|s: int| placement_at(b, s).1, |s: int| negated(placement_at(b, s)).1, 64);
    let (p, q) = (|s: int| phase_at(a, s), |s: int| phase_at(b, s));
    assert forall|s: int| on_board(s) implies #[trigger] p(s) == q(flip(s)) by {
        lemma_pieces(a, b, s);
    }
    lemma_sum_flip(p, q);
}

pub open spec fn negated(pair: (int, int)) -> (int, int) {
    (-pair.0, -pair.1)
}

/// Multiplying by a side's sign keeps a number or negates it.
proof fn lemma_sides()
    ensures
        forall|x: int| #![trigger side(Color::White) * x] side(Color::White) * x == x,
        forall|x: int| #![trigger side(Color::Black) * x] side(Color::Black) * x == -x,
{
}

/// A white-positive pair that changes its sign under mirroring is worth the same
/// to the side to move.
proof fn lemma_term(s: Setup, m: Setup, pair: (int, int))
    requires
        m.turn == s.turn.opponent(),
        phase_of(m.board) == phase_of(s.board),
    ensures
        term(m, negated(pair)) == term(s, pair),
{
    law_taper_negates(pair.0, pair.1, phase_of(s.board));
}

/// The evaluation is colour symmetric, term by term: mirroring a position leaves
/// every term, and so the total, what it was to the side to move.
pub proof fn law_evaluation_is_colour_symmetric(s: Setup, m: Setup)
    requires
        s.valid(),
        m.valid(),
        s.mirrors(m),
    ensures
        material_term(m) == material_term(s),
        placement_term(m) == placement_term(s),
        mobility_term(m) == mobility_term(s),
        pawns_term(m) == pawns_term(s),
        quality_term(m) == quality_term(s),
        safety_term(m) == safety_term(s),
        tempo_term(m) == tempo_term(s),
        evaluation(m) == evaluation(s),
{
    let (a, b) = (s.board, m.board);
    lemma_plain_pairs(a, b);
    lemma_term(s, m, material_pair(a));
    lemma_term(s, m, placement_pair(a));
    lemma_color_pairs(a, b, Color::White);
    lemma_color_pairs(a, b, Color::Black);
    lemma_term(s, m, both(mobility_pair(a, Color::White), mobility_pair(a, Color::Black)));
    lemma_term(s, m, both(pawns_pair(a, Color::White), pawns_pair(a, Color::Black)));
    lemma_term(s, m, both(quality_pair(a, Color::White), quality_pair(a, Color::Black)));
    lemma_term(s, m, both(safety_pair(a, Color::White), safety_pair(a, Color::Black)));
}

} // verus!
