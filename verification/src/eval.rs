//! Hand-crafted evaluation: material, placement, mobility, pawn structure,
//! piece quality and king safety, each tapered between middlegame and endgame.
//!
//! A hand-crafted evaluation decomposes, and a neural value head does not: for a
//! tool whose purpose is teaching a person, the [`Breakdown`] is the more useful
//! output of the two.
//!
//! Structural features come from [`crate::features`], which the motif detectors
//! read too, so that both speak of the same passed pawn and the same open file.

use vstd::prelude::*;

use crate::chess::{bit, flip, on_board, spec_file, Bitboard, Board, Color, Role, Square};
use crate::features::{
    can_go, doubled, doubled_pawns, file_open, file_without, is_open_file, is_semi_open_file, isolated, isolated_pawns,
    king_attack_pressure, mobility, outpost, outposts, passed, passed_pawns, pieces, pressure, rank_for, relative_rank,
};
use crate::rules::{state, Position, Setup};
use crate::score::{tapered, Score, MAX_PHASE};
use crate::sums::{count_bits, count_squares, lemma_count_ext, sum_squares, sum_upto};

verus! {

/// Material in middlegame and endgame. Pawns and rooks gain in the endgame,
/// bishops slightly so.
pub const MATERIAL: [(Role, (i32, i32)); 5] = [
    (Role::Pawn, (100, 120)),
    (Role::Knight, (320, 320)),
    (Role::Bishop, (330, 350)),
    (Role::Rook, (500, 530)),
    (Role::Queen, (900, 950)),
];

/// What a piece is worth in middlegame and endgame.
pub open spec fn material_of(role: Role) -> (int, int) {
    match role {
        Role::Pawn => (100, 120),
        Role::Knight => (320, 320),
        Role::Bishop => (330, 350),
        Role::Rook => (500, 530),
        Role::Queen => (900, 950),
        Role::King => (0, 0),
    }
}

pub open spec fn flat_value(role: Role) -> int {
    material_of(role).0
}

/// Flat centipawn values, for move ordering and comparisons where a phase-aware
/// score would be more precision than the caller can use.
pub fn piece_value(role: Role) -> (r: i32)
    ensures
        r == flat_value(role),
        0 <= r <= 900,
{
    match role {
        Role::Pawn => 100,
        Role::Knight => 320,
        Role::Bishop => 330,
        Role::Rook => 500,
        Role::Queen => 900,
        Role::King => 0,
    }
}

fn material_score(role: Role) -> (r: Score)
    ensures
        (r.mg as int, r.eg as int) == material_of(role),
        0 <= r.mg <= 950,
        0 <= r.eg <= 950,
{
    let mut i: usize = 0;
    while i < 5
        invariant
            i <= 5,
            forall|j: int| 0 <= j < i ==> (#[trigger] MATERIAL[j]).0 != role,
        decreases 5 - i,
    {
        let (listed, (mg, eg)) = MATERIAL[i];
        if listed == role {
            return Score::new(mg, eg);
        }
        i = i + 1;
    }
    proof {
        assert(MATERIAL[0].0 != role && MATERIAL[1].0 != role && MATERIAL[2].0 != role && MATERIAL[3].0 != role
            && MATERIAL[4].0 != role);
    }
    Score::zero()
}

/// Passed-pawn bonus by relative rank, in the middlegame.
pub const PASSED_PAWN_MG: [i32; 8] = [0, 5, 10, 20, 35, 60, 100, 0];

/// Passed-pawn bonus by relative rank, in the endgame. Worth far more there,
/// where there is nothing left to stop it.
pub const PASSED_PAWN_EG: [i32; 8] = [0, 10, 25, 45, 80, 130, 200, 0];

// Tables are written the way a board is drawn: rank 8 first, a-file on the left.
// Indexing flips them, which is far easier to get right than writing them upside
// down would be.

pub const PAWN_PST: [i32; 64] = [
     0,  0,  0,  0,  0,  0,  0,  0,
    50, 50, 50, 50, 50, 50, 50, 50,
    10, 10, 20, 30, 30, 20, 10, 10,
     5,  5, 10, 25, 25, 10,  5,  5,
     0,  0,  0, 20, 20,  0,  0,  0,
     5, -5,-10,  0,  0,-10, -5,  5,
     5, 10, 10,-20,-20, 10, 10,  5,
     0,  0,  0,  0,  0,  0,  0,  0,
];

pub const KNIGHT_PST: [i32; 64] = [
    -50,-40,-30,-30,-30,-30,-40,-50,
    -40,-20,  0,  0,  0,  0,-20,-40,
    -30,  0, 10, 15, 15, 10,  0,-30,
    -30,  5, 15, 20, 20, 15,  5,-30,
    -30,  0, 15, 20, 20, 15,  0,-30,
    -30,  5, 10, 15, 15, 10,  5,-30,
    -40,-20,  0,  5,  5,  0,-20,-40,
    -50,-40,-30,-30,-30,-30,-40,-50,
];

pub const BISHOP_PST: [i32; 64] = [
    -20,-10,-10,-10,-10,-10,-10,-20,
    -10,  0,  0,  0,  0,  0,  0,-10,
    -10,  0,  5, 10, 10,  5,  0,-10,
    -10,  5,  5, 10, 10,  5,  5,-10,
    -10,  0, 10, 10, 10, 10,  0,-10,
    -10, 10, 10, 10, 10, 10, 10,-10,
    -10,  5,  0,  0,  0,  0,  5,-10,
    -20,-10,-10,-10,-10,-10,-10,-20,
];

pub const ROOK_PST: [i32; 64] = [
     0,  0,  0,  0,  0,  0,  0,  0,
     5, 10, 10, 10, 10, 10, 10,  5,
    -5,  0,  0,  0,  0,  0,  0, -5,
    -5,  0,  0,  0,  0,  0,  0, -5,
    -5,  0,  0,  0,  0,  0,  0, -5,
    -5,  0,  0,  0,  0,  0,  0, -5,
    -5,  0,  0,  0,  0,  0,  0, -5,
     0,  0,  0,  5,  5,  0,  0,  0,
];

pub const QUEEN_PST: [i32; 64] = [
    -20,-10,-10, -5, -5,-10,-10,-20,
    -10,  0,  0,  0,  0,  0,  0,-10,
    -10,  0,  5,  5,  5,  5,  0,-10,
     -5,  0,  5,  5,  5,  5,  0, -5,
      0,  0,  5,  5,  5,  5,  0, -5,
    -10,  5,  5,  5,  5,  5,  0,-10,
    -10,  0,  5,  0,  0,  0,  0,-10,
    -20,-10,-10, -5, -5,-10,-10,-20,
];

pub const KING_MIDDLEGAME_PST: [i32; 64] = [
    -30,-40,-40,-50,-50,-40,-40,-30,
    -30,-40,-40,-50,-50,-40,-40,-30,
    -30,-40,-40,-50,-50,-40,-40,-30,
    -30,-40,-40,-50,-50,-40,-40,-30,
    -20,-30,-30,-40,-40,-30,-30,-20,
    -10,-20,-20,-20,-20,-20,-20,-10,
     20, 20,  0,  0,  0,  0, 20, 20,
     20, 30, 10,  0,  0, 10, 30, 20,
];

pub const KING_ENDGAME_PST: [i32; 64] = [
    -50,-40,-30,-20,-20,-30,-40,-50,
    -30,-20,-10,  0,  0,-10,-20,-30,
    -30,-10, 20, 30, 30, 20,-10,-30,
    -30,-10, 30, 40, 40, 30,-10,-30,
    -30,-10, 30, 40, 40, 30,-10,-30,
    -30,-10, 20, 30, 30, 20,-10,-30,
    -30,-30,  0,  0,  0,  0,-30,-30,
    -50,-30,-30,-30,-30,-30,-30,-50,
];

pub const PAWN_PST_EG: [i32; 64] = [
     0,  0,  0,  0,  0,  0,  0,  0,
    90, 90, 90, 90, 90, 90, 90, 90,
    55, 55, 55, 55, 55, 55, 55, 55,
    30, 30, 30, 30, 30, 30, 30, 30,
    18, 18, 18, 18, 18, 18, 18, 18,
     8,  8,  8,  8,  8,  8,  8,  8,
     5,  5,  5,  5,  5,  5,  5,  5,
     0,  0,  0,  0,  0,  0,  0,  0,
];

/// The entry of a drawn-board table that belongs to a piece of `color` on `s`.
pub open spec fn table_index(color: Color, s: int) -> int {
    match color {
        Color::White => flip(s),
        Color::Black => s,
    }
}

/// The placement tables' middlegame and endgame entries for a role.
pub open spec fn table_entry(role: Role, i: int) -> (int, int) {
    match role {
        Role::Pawn => (PAWN_PST[i] as int, PAWN_PST_EG[i] as int),
        Role::Knight => (KNIGHT_PST[i] as int, KNIGHT_PST[i] as int),
        Role::Bishop => (BISHOP_PST[i] as int, BISHOP_PST[i] as int),
        Role::Rook => (ROOK_PST[i] as int, ROOK_PST[i] as int),
        Role::Queen => (QUEEN_PST[i] as int, QUEEN_PST[i] as int),
        Role::King => (KING_MIDDLEGAME_PST[i] as int, KING_ENDGAME_PST[i] as int),
    }
}

/// Read a drawn-board table for a piece of `color` standing on `sq`.
fn pst(table: &[i32; 64], sq: Square, color: Color) -> (r: i32)
    requires
        sq.valid(),
    ensures
        r == table[table_index(color, sq.0 as int)],
{
    let row: usize = if color == Color::White {
        7 - sq.rank() as usize
    } else {
        sq.rank() as usize
    };
    table[row * 8 + sq.file() as usize]
}

fn placement_score(role: Role, sq: Square, color: Color) -> (r: Score)
    requires
        sq.valid(),
    ensures
        (r.mg as int, r.eg as int) == table_entry(role, table_index(color, sq.0 as int)),
        -90 <= r.mg <= 90,
        -90 <= r.eg <= 90,
{
    match role {
        Role::Pawn => Score::new(pst(&PAWN_PST, sq, color), pst(&PAWN_PST_EG, sq, color)),
        Role::Knight => Score::new(pst(&KNIGHT_PST, sq, color), pst(&KNIGHT_PST, sq, color)),
        Role::Bishop => Score::new(pst(&BISHOP_PST, sq, color), pst(&BISHOP_PST, sq, color)),
        Role::Rook => Score::new(pst(&ROOK_PST, sq, color), pst(&ROOK_PST, sq, color)),
        Role::Queen => Score::new(pst(&QUEEN_PST, sq, color), pst(&QUEEN_PST, sq, color)),
        Role::King => Score::new(pst(&KING_MIDDLEGAME_PST, sq, color), pst(&KING_ENDGAME_PST, sq, color)),
    }
}

/// Plus one for White, minus one for Black.
pub open spec fn side(color: Color) -> int {
    match color {
        Color::White => 1,
        Color::Black => -1,
    }
}

/// What the piece on a square is worth, white positive.
pub open spec fn material_at(board: Board, s: int) -> (int, int) {
    match board.piece(s) {
        Some(p) => (side(p.color) * material_of(p.role).0, side(p.color) * material_of(p.role).1),
        None => (0, 0),
    }
}

/// What the place of the piece on a square is worth, white positive.
pub open spec fn placement_at(board: Board, s: int) -> (int, int) {
    match board.piece(s) {
        Some(p) => (
            side(p.color) * table_entry(p.role, table_index(p.color, s)).0,
            side(p.color) * table_entry(p.role, table_index(p.color, s)).1,
        ),
        None => (0, 0),
    }
}

pub open spec fn material_pair(board: Board) -> (int, int) {
    (sum_squares(|s: int| material_at(board, s).0), sum_squares(|s: int| material_at(board, s).1))
}

pub open spec fn placement_pair(board: Board) -> (int, int) {
    (sum_squares(|s: int| placement_at(board, s).0), sum_squares(|s: int| placement_at(board, s).1))
}

fn material_and_placement(board: &Board) -> (r: (Score, Score))
    ensures
        (r.0.mg as int, r.0.eg as int) == material_pair(*board),
        (r.1.mg as int, r.1.eg as int) == placement_pair(*board),
        -60800 <= r.0.mg <= 60800,
        -60800 <= r.0.eg <= 60800,
        -5760 <= r.1.mg <= 5760,
        -5760 <= r.1.eg <= 5760,
{
    let ghost mm = |s: int| material_at(*board, s).0;
    let ghost me = |s: int| material_at(*board, s).1;
    let ghost pm = |s: int| placement_at(*board, s).0;
    let ghost pe = |s: int| placement_at(*board, s).1;
    let mut material = Score::zero();
    let mut placement = Score::zero();
    let mut i: u8 = 0;
    while i < 64
        invariant
            i <= 64,
            mm == (|s: int| material_at(*board, s).0),
            me == (|s: int| material_at(*board, s).1),
            pm == (|s: int| placement_at(*board, s).0),
            pe == (|s: int| placement_at(*board, s).1),
            material.mg == sum_upto(mm, i as int),
            material.eg == sum_upto(me, i as int),
            placement.mg == sum_upto(pm, i as int),
            placement.eg == sum_upto(pe, i as int),
            -950 * i <= material.mg <= 950 * i,
            -950 * i <= material.eg <= 950 * i,
            -90 * i <= placement.mg <= 90 * i,
            -90 * i <= placement.eg <= 90 * i,
        decreases 64 - i,
    {
        let sq = Square(i);
        assert(mm(i as int) == material_at(*board, i as int).0);
        assert(me(i as int) == material_at(*board, i as int).1);
        assert(pm(i as int) == placement_at(*board, i as int).0);
        assert(pe(i as int) == placement_at(*board, i as int).1);
        if let Some(piece) = board.piece_at(sq) {
            let value = material_score(piece.role);
            let place = placement_score(piece.role, sq, piece.color);
            if piece.color == Color::White {
                material = material + value;
                placement = placement + place;
            } else {
                material = material - value;
                placement = placement - place;
            }
        }
        i = i + 1;
    }
    (material, placement)
}

/// The phase units of a role.
pub open spec fn phase_units(role: Role) -> int {
    match role {
        Role::Knight => 1,
        Role::Bishop => 1,
        Role::Rook => 2,
        Role::Queen => 4,
        _ => 0,
    }
}

pub open spec fn phase_at(board: Board, s: int) -> int {
    match board.piece(s) {
        Some(p) => phase_units(p.role),
        None => 0,
    }
}

/// The phase units on the board, at most [`MAX_PHASE`].
pub open spec fn phase_of(board: Board) -> int {
    let total = sum_squares(|s: int| phase_at(board, s));
    if total > 24 {
        24
    } else {
        total
    }
}

/// How far into the game we are: [`MAX_PHASE`] with everything on, 0 with none
/// of it left. Promotions can overshoot, so it is clamped.
pub fn phase(board: &Board) -> (r: i32)
    ensures
        r == phase_of(*board),
        0 <= r <= 24,
{
    let ghost f = |s: int| phase_at(*board, s);
    let mut total: i32 = 0;
    let mut i: u8 = 0;
    while i < 64
        invariant
            i <= 64,
            f == (|s: int| phase_at(*board, s)),
            total == sum_upto(f, i as int),
            0 <= total <= 4 * i,
        decreases 64 - i,
    {
        assert(f(i as int) == phase_at(*board, i as int));
        let units: i32 = match board.role_at(Square(i)) {
            Some(Role::Knight) => 1,
            Some(Role::Bishop) => 1,
            Some(Role::Rook) => 2,
            Some(Role::Queen) => 4,
            _ => 0,
        };
        total = total + units;
        i = i + 1;
    }
    if total > MAX_PHASE {
        MAX_PHASE
    } else {
        total
    }
}

/// Where an evaluation came from, for explaining it to a person.
///
/// Every field is centipawns from the side to move's point of view, so a
/// negative `king_safety` means the mover's own king is the one in trouble.
#[derive(Clone, Copy, PartialEq, Eq, Structural, Debug)]
pub struct Breakdown {
    pub material: i32,
    pub placement: i32,
    pub mobility: i32,
    pub pawn_structure: i32,
    pub piece_quality: i32,
    pub king_safety: i32,
    pub tempo: i32,
    pub total: i32,
    pub phase: i32,
}

impl Default for Breakdown {
    fn default() -> (r: Breakdown)
        ensures
            r == (Breakdown {
                material: 0,
                placement: 0,
                mobility: 0,
                pawn_structure: 0,
                piece_quality: 0,
                king_safety: 0,
                tempo: 0,
                total: 0,
                phase: 0,
            }),
    {
        Breakdown {
            material: 0,
            placement: 0,
            mobility: 0,
            pawn_structure: 0,
            piece_quality: 0,
            king_safety: 0,
            tempo: 0,
            total: 0,
            phase: 0,
        }
    }
}

/// The weight of a role's mobility, in middlegame and endgame, and the count it
/// is centred on, so that a piece with nowhere to go is penalised rather than
/// merely unrewarded.
pub open spec fn mobility_of(role: Role) -> ((int, int), int) {
    match role {
        Role::Knight => ((4, 4), 4),
        Role::Bishop => ((5, 5), 6),
        Role::Rook => ((2, 4), 7),
        Role::Queen => ((1, 2), 13),
        _ => ((0, 0), 0),
    }
}

fn mobility_weight(role: Role) -> (r: (Score, i32))
    ensures
        ((r.0.mg as int, r.0.eg as int), r.1 as int) == mobility_of(role),
        0 <= r.0.mg <= 5,
        0 <= r.0.eg <= 5,
        0 <= r.1 <= 13,
{
    match role {
        Role::Knight => (Score::new(4, 4), 4),
        Role::Bishop => (Score::new(5, 5), 6),
        Role::Rook => (Score::new(2, 4), 7),
        Role::Queen => (Score::new(1, 2), 13),
        _ => (Score::zero(), 0),
    }
}

/// What the mobility of the piece of `color` on a square is worth.
pub open spec fn mobility_at(board: Board, color: Color, s: int) -> (int, int) {
    if board.has_color(s, color) {
        let ((mg, eg), baseline) = mobility_of(board.piece(s)->0.role);
        let surplus = count_squares(|t: int| can_go(board, color, s, t)) - baseline;
        (mg * surplus, eg * surplus)
    } else {
        (0, 0)
    }
}

pub open spec fn mobility_pair(board: Board, color: Color) -> (int, int) {
    (sum_squares(|s: int| mobility_at(board, color, s).0), sum_squares(|s: int| mobility_at(board, color, s).1))
}

fn mobility_score(board: &Board, color: Color) -> (r: Score)
    ensures
        (r.mg as int, r.eg as int) == mobility_pair(*board, color),
        -20480 <= r.mg <= 20480,
        -20480 <= r.eg <= 20480,
{
    let ghost fm = |s: int| mobility_at(*board, color, s).0;
    let ghost fe = |s: int| mobility_at(*board, color, s).1;
    let mut total = Score::zero();
    let mut i: u8 = 0;
    while i < 64
        invariant
            i <= 64,
            fm == (|s: int| mobility_at(*board, color, s).0),
            fe == (|s: int| mobility_at(*board, color, s).1),
            total.mg == sum_upto(fm, i as int),
            total.eg == sum_upto(fe, i as int),
            -320 * i <= total.mg <= 320 * i,
            -320 * i <= total.eg <= 320 * i,
        decreases 64 - i,
    {
        assert(fm(i as int) == mobility_at(*board, color, i as int).0);
        assert(fe(i as int) == mobility_at(*board, color, i as int).1);
        if let Some(piece) = board.piece_at(Square(i)) {
            if piece.color == color {
                let (weight, baseline) = mobility_weight(piece.role);
                if weight != Score::zero() {
                    let surplus: i32 = mobility(board, color, Square(i)) as i32 - baseline;
                    proof {
                        lemma_small_product(weight.mg as int, surplus as int);
                        lemma_small_product(weight.eg as int, surplus as int);
                    }
                    total = total + weight * surplus;
                } else {
                    proof {
                        let surplus = count_squares(|t: int| can_go(*board, color, i as int, t)) - baseline;
                        assert(0 * surplus == 0) by (nonlinear_arith);
                    }
                }
            }
        }
        i = i + 1;
    }
    total
}

proof fn lemma_small_product(a: int, b: int)
    requires
        0 <= a <= 5,
        -13 <= b <= 64,
    ensures
        -320 <= a * b <= 320,
{
    assert(-320 <= a * b <= 320) by (nonlinear_arith)
        requires 0 <= a <= 5, -13 <= b <= 64;
}

/// The bonus for a passed pawn of `color` on a square.
pub open spec fn passed_at(board: Board, color: Color, s: int) -> (int, int) {
    if passed(board, color, s) {
        (PASSED_PAWN_MG[rank_for(color, s)] as int, PASSED_PAWN_EG[rank_for(color, s)] as int)
    } else {
        (0, 0)
    }
}

/// Passed pawns by their rank, less a penalty for each doubled and each isolated
/// pawn.
pub open spec fn pawns_pair(board: Board, color: Color) -> (int, int) {
    let twos = count_squares(|s: int| doubled(board, color, s));
    let lone = count_squares(|s: int| isolated(board, color, s));
    (
        sum_squares(|s: int| passed_at(board, color, s).0) - 10 * twos - 14 * lone,
        sum_squares(|s: int| passed_at(board, color, s).1) - 22 * twos - 20 * lone,
    )
}

/// The count of a set whose members are the squares that satisfy `p`.
fn count_set(b: Bitboard, Ghost(p): Ghost<spec_fn(int) -> bool>) -> (r: u32)
    requires
        forall|s: int| #![trigger bit(b.0, s)] on_board(s) ==> bit(b.0, s) == p(s),
    ensures
        r == count_squares(p),
        r <= 64,
{
    proof {
        let q = |s: int| bit(b.0, s);
        assert forall|s: int| 0 <= s < 64 implies #[trigger] q(s) == p(s) by {
            assert(bit(b.0, s) == p(s));
        }
        lemma_count_ext(q, p, 64);
    }
    count_bits(b)
}

fn pawn_structure(board: &Board, color: Color) -> (r: Score)
    requires
        board.wf(),
    ensures
        (r.mg as int, r.eg as int) == pawns_pair(*board, color),
        -16000 <= r.mg <= 16000,
        -16000 <= r.eg <= 16000,
{
    let ghost fm = |s: int| passed_at(*board, color, s).0;
    let ghost fe = |s: int| passed_at(*board, color, s).1;
    let passers = passed_pawns(board, color);
    let mut total = Score::zero();
    let mut i: u8 = 0;
    while i < 64
        invariant
            i <= 64,
            forall|s: int| #![trigger bit(passers.0, s)] on_board(s) ==> bit(passers.0, s) == passed(*board, color, s),
            fm == (|s: int| passed_at(*board, color, s).0),
            fe == (|s: int| passed_at(*board, color, s).1),
            total.mg == sum_upto(fm, i as int),
            total.eg == sum_upto(fe, i as int),
            0 <= total.mg <= 200 * i,
            0 <= total.eg <= 200 * i,
        decreases 64 - i,
    {
        assert(fm(i as int) == passed_at(*board, color, i as int).0);
        assert(fe(i as int) == passed_at(*board, color, i as int).1);
        if passers.contains(Square(i)) {
            let rank: usize = relative_rank(color, Square(i)) as usize;
            total = total + Score::new(PASSED_PAWN_MG[rank], PASSED_PAWN_EG[rank]);
        }
        i = i + 1;
    }
    let twos: u32 = count_set(doubled_pawns(board, color), Ghost(|s: int| doubled(*board, color, s)));
    let lone: u32 = count_set(isolated_pawns(board, color), Ghost(|s: int| isolated(*board, color, s)));
    let (per_two, per_lone) = (Score::new(-10, -22), Score::new(-14, -20));
    let (n2, n1): (i32, i32) = (twos as i32, lone as i32);
    assert(per_two.mg * n2 == -10 * n2 && per_two.eg * n2 == -22 * n2);
    assert(per_lone.mg * n1 == -14 * n1 && per_lone.eg * n1 == -20 * n1);
    total + per_two * n2 + per_lone * n1
}

/// The bonus for a rook of `color` on a square: an open or half-open file, and
/// the seventh rank.
pub open spec fn rook_at(board: Board, color: Color, s: int) -> (int, int) {
    if board.holds(s, color, Role::Rook) {
        let file: (int, int) = if file_open(board, spec_file(s)) {
            (26, 14)
        } else if file_without(board, color, spec_file(s)) {
            (12, 8)
        } else {
            (0, 0)
        };
        let seventh: (int, int) = if rank_for(color, s) == 6 {
            (20, 32)
        } else {
            (0, 0)
        };
        (file.0 + seventh.0, file.1 + seventh.1)
    } else {
        (0, 0)
    }
}

/// The bishop pair, the rooks' files and ranks, and the knights' outposts.
pub open spec fn quality_pair(board: Board, color: Color) -> (int, int) {
    let bishops: (int, int) = if count_squares(|s: int| board.holds(s, color, Role::Bishop)) >= 2 {
        (30, 50)
    } else {
        (0, 0)
    };
    let posts = count_squares(|s: int| outpost(board, color, s));
    (
        bishops.0 + sum_squares(|s: int| rook_at(board, color, s).0) + 26 * posts,
        bishops.1 + sum_squares(|s: int| rook_at(board, color, s).1) + 14 * posts,
    )
}

fn piece_quality(board: &Board, color: Color) -> (r: Score)
    requires
        board.wf(),
    ensures
        (r.mg as int, r.eg as int) == quality_pair(*board, color),
        0 <= r.mg <= 6000,
        0 <= r.eg <= 6000,
{
    let ghost fm = |s: int| rook_at(*board, color, s).0;
    let ghost fe = |s: int| rook_at(*board, color, s).1;
    let bishops: u32 = count_set(
        pieces(board, Role::Bishop, color),
        Ghost(|s: int| board.holds(s, color, Role::Bishop)),
    );
    let pair = if bishops >= 2 {
        Score::new(30, 50)
    } else {
        Score::zero()
    };
    let mut rooks = Score::zero();
    let mut i: u8 = 0;
    while i < 64
        invariant
            i <= 64,
            fm == (|s: int| rook_at(*board, color, s).0),
            fe == (|s: int| rook_at(*board, color, s).1),
            rooks.mg == sum_upto(fm, i as int),
            rooks.eg == sum_upto(fe, i as int),
            0 <= rooks.mg <= 60 * i,
            0 <= rooks.eg <= 60 * i,
        decreases 64 - i,
    {
        let sq = Square(i);
        assert(fm(i as int) == rook_at(*board, color, i as int).0);
        assert(fe(i as int) == rook_at(*board, color, i as int).1);
        if board.is_piece(sq, color, Role::Rook) {
            if is_open_file(board, sq.file()) {
                rooks = rooks + Score::new(26, 14);
            } else if is_semi_open_file(board, color, sq.file()) {
                rooks = rooks + Score::new(12, 8);
            }
            if relative_rank(color, sq) == 6 {
                rooks = rooks + Score::new(20, 32);
            }
        }
        i = i + 1;
    }
    let posts: u32 = count_set(outposts(board, color), Ghost(|s: int| outpost(*board, color, s)));
    let per_post = Score::new(26, 14);
    let n: i32 = posts as i32;
    assert(per_post.mg * n == 26 * n && per_post.eg * n == 14 * n);
    pair + rooks + per_post * n
}

/// The pressure on the enemy king in centipawns: nothing until two pieces bear
/// on its zone, and growing faster than linearly past that.
pub open spec fn pressure_value(board: Board, color: Color) -> int {
    let (attackers, weight) = pressure(board, color);
    if attackers < 2 {
        0
    } else if weight * weight / 12 > 400 {
        400
    } else {
        weight * weight / 12
    }
}

/// Almost entirely a middlegame concern: with the queens off, a king in the open
/// is an asset rather than a liability.
pub open spec fn safety_pair(board: Board, color: Color) -> (int, int) {
    (pressure_value(board, color), pressure_value(board, color) / 6)
}

fn king_safety(board: &Board, color: Color) -> (r: Score)
    ensures
        (r.mg as int, r.eg as int) == safety_pair(*board, color),
        0 <= r.mg <= 400,
        0 <= r.eg <= 400,
{
    let (attackers, weight) = king_attack_pressure(board, color);
    if attackers < 2 {
        return Score::zero();
    }
    assert(weight * weight <= 16777216) by (nonlinear_arith)
        requires 0 <= weight <= 4096;
    let squared: u32 = weight * weight / 12;
    let value: i32 = if squared > 400 {
        400
    } else {
        squared as i32
    };
    Score::new(value, value / 6)
}

/// White's share less Black's.
pub open spec fn both(white: (int, int), black: (int, int)) -> (int, int) {
    (white.0 - black.0, white.1 - black.1)
}

/// A white-positive term from the side to move's point of view.
pub open spec fn term(s: Setup, pair: (int, int)) -> int {
    tapered(pair.0, pair.1, phase_of(s.board)) * side(s.turn)
}

pub open spec fn material_term(s: Setup) -> int {
    term(s, material_pair(s.board))
}

pub open spec fn placement_term(s: Setup) -> int {
    term(s, placement_pair(s.board))
}

pub open spec fn mobility_term(s: Setup) -> int {
    term(s, both(mobility_pair(s.board, Color::White), mobility_pair(s.board, Color::Black)))
}

pub open spec fn pawns_term(s: Setup) -> int {
    term(s, both(pawns_pair(s.board, Color::White), pawns_pair(s.board, Color::Black)))
}

pub open spec fn quality_term(s: Setup) -> int {
    term(s, both(quality_pair(s.board, Color::White), quality_pair(s.board, Color::Black)))
}

pub open spec fn safety_term(s: Setup) -> int {
    term(s, both(safety_pair(s.board, Color::White), safety_pair(s.board, Color::Black)))
}

pub open spec fn tempo_term(s: Setup) -> int {
    tapered(12, 4, phase_of(s.board))
}

/// The evaluation in centipawns from the side to move's point of view: the sum
/// of all its terms.
pub open spec fn evaluation(s: Setup) -> int {
    material_term(s) + placement_term(s) + mobility_term(s) + pawns_term(s) + quality_term(s) + safety_term(s)
        + tempo_term(s)
}

/// No evaluation is larger than this, whatever stands on the board.
pub const EVAL_LIMIT: i32 = 200_000;

/// Centipawns from the side to move's point of view.
pub fn evaluate(pos: &Position) -> (r: i32)
    ensures
        r == evaluation(state(pos@)),
        -EVAL_LIMIT <= r <= EVAL_LIMIT,
{
    evaluate_detailed(pos).total
}

/// Collapse a term and turn it to the mover's point of view.
fn mover_term(score: Score, phase: i32, turn: Color) -> (r: i32)
    requires
        0 <= phase <= 24,
        -70000 <= score.mg <= 70000,
        -70000 <= score.eg <= 70000,
    ensures
        r == tapered(score.mg as int, score.eg as int, phase as int) * side(turn),
        forall|m: int| within(score.mg as int, m) && within(score.eg as int, m) ==> #[trigger] within(r as int, m),
{
    proof {
        lemma_taper_within(score.mg as int, score.eg as int, phase as int, 70000);
    }
    let value: i32 = score.taper(phase);
    let r: i32 = match turn {
        Color::White => value,
        Color::Black => -value,
    };
    assert forall|m: int| within(score.mg as int, m) && within(score.eg as int, m) implies #[trigger] within(
        r as int,
        m,
    ) by {
        lemma_taper_within(score.mg as int, score.eg as int, phase as int, m);
    }
    r
}

spec fn within(x: int, m: int) -> bool {
    -m <= x <= m
}

/// A tapered value lies between the bounds of the pair.
proof fn lemma_taper_within(mg: int, eg: int, phase: int, m: int)
    requires
        0 <= phase <= 24,
        -m <= mg <= m,
        -m <= eg <= m,
    ensures
        -24 * m <= mg * phase <= 24 * m,
        -24 * m <= eg * (24 - phase) <= 24 * m,
        -24 * m <= mg * phase + eg * (24 - phase) <= 24 * m,
        -m <= tapered(mg, eg, phase) <= m,
{
    assert(-m * phase <= mg * phase <= m * phase) by (nonlinear_arith)
        requires 0 <= phase, -m <= mg <= m;
    assert(-m * (24 - phase) <= eg * (24 - phase) <= m * (24 - phase)) by (nonlinear_arith)
        requires phase <= 24, -m <= eg <= m;
    assert(m * phase + m * (24 - phase) == 24 * m) by (nonlinear_arith);
    assert(-m * phase == -(m * phase) && -m * (24 - phase) == -(m * (24 - phase))) by (nonlinear_arith);
    assert(0 <= m * phase && 0 <= m * (24 - phase)) by (nonlinear_arith)
        requires 0 <= m, 0 <= phase <= 24;
}

/// The same evaluation, itemised.
pub fn evaluate_detailed(pos: &Position) -> (r: Breakdown)
    ensures
        r.material == material_term(state(pos@)),
        r.placement == placement_term(state(pos@)),
        r.mobility == mobility_term(state(pos@)),
        r.pawn_structure == pawns_term(state(pos@)),
        r.piece_quality == quality_term(state(pos@)),
        r.king_safety == safety_term(state(pos@)),
        r.tempo == tempo_term(state(pos@)),
        r.phase == phase_of(state(pos@).board),
        r.total == r.material + r.placement + r.mobility + r.pawn_structure + r.piece_quality + r.king_safety
            + r.tempo,
        r.total == evaluation(state(pos@)),
        -EVAL_LIMIT <= r.total <= EVAL_LIMIT,
{
    let setup = pos.setup();
    let board = setup.board;
    let phase: i32 = phase(&board);
    let (material_score, placement_score) = material_and_placement(&board);
    let mobility_balance = mobility_score(&board, Color::White) - mobility_score(&board, Color::Black);
    let pawns_balance = pawn_structure(&board, Color::White) - pawn_structure(&board, Color::Black);
    let quality_balance = piece_quality(&board, Color::White) - piece_quality(&board, Color::Black);
    let safety_balance = king_safety(&board, Color::White) - king_safety(&board, Color::Black);

    // Everything above is white-positive; it is turned to the mover's side here.
    let material: i32 = mover_term(material_score, phase, setup.turn);
    let placement: i32 = mover_term(placement_score, phase, setup.turn);
    let mobility: i32 = mover_term(mobility_balance, phase, setup.turn);
    let pawn_structure: i32 = mover_term(pawns_balance, phase, setup.turn);
    let piece_quality: i32 = mover_term(quality_balance, phase, setup.turn);
    let king_safety: i32 = mover_term(safety_balance, phase, setup.turn);
    let tempo: i32 = mover_term(Score::new(12, 4), phase, Color::White);
    assert(within(material as int, 60800));
    assert(within(placement as int, 5760));
    assert(within(mobility as int, 40960));
    assert(within(pawn_structure as int, 32000));
    assert(within(piece_quality as int, 6000));
    assert(within(king_safety as int, 400));
    assert(within(tempo as int, 12));
    let total: i32 = material + placement + mobility + pawn_structure + piece_quality + king_safety + tempo;
    Breakdown { material, placement, mobility, pawn_structure, piece_quality, king_safety, tempo, total, phase }
}

} // verus!
