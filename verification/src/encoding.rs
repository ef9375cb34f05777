//! Canonical orientation and the 4672-slot policy index.
//!
//! **Canonical orientation.** Every position is shown to the network from the
//! side to move's point of view: if black is to move the position is mirrored
//! (flipped vertically *and* colour-swapped), so the network only ever sees
//! white to play.
//!
//! **Policy indexing.** An 8x8x73 layout: 56 queen planes (8 directions x 7
//! distances), 8 knight planes, 9 underpromotion planes (3 files x
//! knight/bishop/rook). Queen promotions ride along on the plain queen move.

use vstd::prelude::*;

use crate::chess::{
    abs, bit, flip, in_grid, on_board, on_diagonal, on_rank_or_file, sign, spec_file, spec_rank, square_at,
    steps_apart, Bitboard, Board, Color, Piece, Role, Square,
};
use crate::rules::{
    accepted, legal_ep_of, legal_fen_of, mirror_of, move_fits, moves_of, reflected, state, tells, Move, Position, Setup,
};
use crate::vocab::{
    file_letter, law_tokens_are_distinct, lettered, numbered, vocab_word, BOS, PIECE_CHARS, PREFIX_LEN, SEP,
};

verus! {

pub const N_PLANES: usize = 73;

pub const N_MOVES: usize = 4672;

/// (file delta, rank delta) for N, NE, E, SE, S, SW, W, NW.
pub const QUEEN_DIRS: [(i32, i32); 8] = [(0, 1), (1, 1), (1, 0), (1, -1), (0, -1), (-1, -1), (-1, 0), (-1, 1)];

pub const KNIGHT_DIRS: [(i32, i32); 8] = [(1, 2), (2, 1), (2, -1), (1, -2), (-1, -2), (-2, -1), (-2, 1), (-1, 2)];

/// The roles of the underpromotion planes.
pub const UNDERPROMO_ROLES: [Role; 3] = [Role::Knight, Role::Bishop, Role::Rook];

/// A move as the policy sees it: from, to, and an optional promotion.
pub type MoveSquares = (Square, Square, Option<Role>);

/// Mirror a square vertically (a1 <-> a8) if the position was mirrored.
pub fn canonical_square(sq: Square, flipped: bool) -> (r: Square)
    requires
        sq.valid(),
    ensures
        r.valid(),
        r.0 == (if flipped {
            flip(sq.0 as int)
        } else {
            sq.0 as int
        }),
{
    if flipped {
        sq.flip_vertical()
    } else {
        sq
    }
}

/// The FEN of a position as the side to move sees it.
pub open spec fn canonical_fen(fen: Seq<char>) -> Seq<char> {
    if state(fen).turn == Color::White {
        fen
    } else {
        mirror_of(fen)
    }
}

/// `canon` is the position of `fen` as the side to move sees it: the same, or its
/// mirror, in which the same capture en passant is legal.
pub open spec fn seen_by_mover(fen: Seq<char>, canon: Seq<char>) -> bool {
    if state(fen).turn == Color::White {
        canon == fen
    } else {
        state(fen).mirrors(state(canon)) && legal_ep_of(canon) == reflected(legal_ep_of(fen))
    }
}

/// The position as the side to move sees it, plus whether it was mirrored.
///
/// The en passant square survives the mirror whether or not a capture on it is
/// legal, so that the canonical position can decide that. A canonical position is
/// its own canonical form.
pub fn canonical(pos: &Position) -> (r: (Position, bool))
    ensures
        r.0@ == canonical_fen(pos@),
        r.1 == (state(pos@).turn == Color::Black),
        state(r.0@).turn == Color::White,
        seen_by_mover(pos@, r.0@),
        canonical_fen(r.0@) == r.0@,
{
    if pos.turn() == Color::White {
        (pos.duplicate(), false)
    } else {
        (pos.mirrored(), true)
    }
}

/// A move's from-square, to-square and promotion. Castling is the king's own
/// step of two files.
pub open spec fn squares_of(m: Move) -> MoveSquares {
    match m {
        Move::Normal { from, to, promotion, .. } => (from, to, promotion),
        Move::EnPassant { from, to } => (from, to, None),
        Move::Castle { king, rook } => {
            let file: int = if spec_file(rook.0 as int) > spec_file(king.0 as int) {
                6
            } else {
                2
            };
            (king, Square(square_at(file, spec_rank(king.0 as int)) as u8), None)
        },
    }
}

/// From-square, to-square and promotion of a move.
///
/// The castling case matters: a castling move names the rook's square, while the
/// policy uses the king's destination (e1g1 / e1c1).
pub fn move_squares(m: &Move) -> (r: MoveSquares)
    ensures
        r == squares_of(*m),
{
    match *m {
        Move::Normal { from, to, promotion, .. } => (from, to, promotion),
        Move::EnPassant { from, to } => (from, to, None),
        Move::Castle { king, rook } => {
            let to_file: u8 = if rook.file() > king.file() {
                6
            } else {
                2
            };
            (king, Square(king.rank() * 8 + to_file), None)
        },
    }
}

/// The place of a direction among [`QUEEN_DIRS`].
pub open spec fn queen_dir(sf: int, sr: int) -> int {
    if sf == 0 {
        if sr > 0 {
            0
        } else {
            4
        }
    } else if sf > 0 {
        if sr > 0 {
            1
        } else if sr == 0 {
            2
        } else {
            3
        }
    } else {
        if sr > 0 {
            7
        } else if sr == 0 {
            6
        } else {
            5
        }
    }
}

/// The step is a knight's hop.
pub open spec fn knight_step(df: int, dr: int) -> bool {
    (abs(df) == 1 && abs(dr) == 2) || (abs(df) == 2 && abs(dr) == 1)
}

/// The place of a knight's hop among [`KNIGHT_DIRS`].
pub open spec fn knight_dir(df: int, dr: int) -> int {
    if df == 1 {
        if dr == 2 {
            0
        } else {
            3
        }
    } else if df == 2 {
        if dr == 1 {
            1
        } else {
            2
        }
    } else if df == -1 {
        if dr == 2 {
            7
        } else {
            4
        }
    } else {
        if dr == 1 {
            6
        } else {
            5
        }
    }
}

/// The place of a role among the underpromotions: knight, bishop, rook.
pub open spec fn underpromotion(role: Role) -> int {
    match role {
        Role::Knight => 0,
        Role::Bishop => 1,
        _ => 2,
    }
}

/// The policy plane of a move.
pub open spec fn plane_of(from: int, to: int, promotion: Option<Role>) -> int {
    let df = spec_file(to) - spec_file(from);
    let dr = spec_rank(to) - spec_rank(from);
    if promotion is Some && promotion->0 != Role::Queen {
        64 + underpromotion(promotion->0) * 3 + df + 1
    } else if knight_step(df, dr) {
        56 + knight_dir(df, dr)
    } else {
        queen_dir(sign(df), sign(dr)) * 7 + steps_apart(from, to) - 1
    }
}

/// The policy index of a move.
pub open spec fn policy_index(from: int, to: int, promotion: Option<Role>) -> int {
    from * 73 + plane_of(from, to, promotion)
}

/// The squares and the promotion have an index: the squares differ, and an
/// underpromotion is to a knight, bishop or rook and steps one rank forward.
pub open spec fn indexable(from: int, to: int, promotion: Option<Role>) -> bool {
    &&& on_board(from)
    &&& on_board(to)
    &&& from != to
    &&& promotion is Some && promotion->0 != Role::Queen ==> {
        &&& promotion->0 != Role::Pawn && promotion->0 != Role::King
        &&& spec_rank(to) - spec_rank(from) == 1
        &&& abs(spec_file(to) - spec_file(from)) <= 1
    }
}

fn signum(x: i32) -> (r: i32)
    ensures
        r == sign(x as int),
{
    if x > 0 {
        1
    } else if x < 0 {
        -1
    } else {
        0
    }
}

/// The place of a pair in a table of eight.
fn position_of(table: &[(i32, i32); 8], dir: (i32, i32)) -> (r: Option<usize>)
    ensures
        match r {
            Some(k) => k < 8 && table[k as int] == dir && forall|j: int| 0 <= j < k ==> table[j] != dir,
            None => forall|j: int| 0 <= j < 8 ==> table[j] != dir,
        },
{
    let mut k: usize = 0;
    while k < 8
        invariant
            k <= 8,
            forall|j: int| 0 <= j < k ==> table[j] != dir,
        decreases 8 - k,
    {
        if table[k].0 == dir.0 && table[k].1 == dir.1 {
            return Some(k);
        }
        k = k + 1;
    }
    None
}

/// Policy index of a move already in canonical orientation.
pub fn move_to_index(from: Square, to: Square, promotion: Option<Role>) -> (r: usize)
    requires
        indexable(from.0 as int, to.0 as int, promotion),
    ensures
        r == policy_index(from.0 as int, to.0 as int, promotion),
        r < N_MOVES,
{
    let df: i32 = to.file() as i32 - from.file() as i32;
    let dr: i32 = to.rank() as i32 - from.rank() as i32;
    let plane: usize = match promotion {
        Some(Role::Knight) => 64 + (df + 1) as usize,
        Some(Role::Bishop) => 67 + (df + 1) as usize,
        Some(Role::Rook) => 70 + (df + 1) as usize,
        _ => match position_of(&KNIGHT_DIRS, (df, dr)) {
            Some(k) => {
                assert(KNIGHT_DIRS[k as int] == (df, dr));
                assert(knight_step(df as int, dr as int) && k == knight_dir(df as int, dr as int));
                56 + k
            },
            None => {
                assert(KNIGHT_DIRS[0] == (1i32, 2i32) && KNIGHT_DIRS[1] == (2i32, 1i32) && KNIGHT_DIRS[2] == (2i32, -1i32)
                    && KNIGHT_DIRS[3] == (1i32, -2i32) && KNIGHT_DIRS[4] == (-1i32, -2i32) && KNIGHT_DIRS[5]
                    == (-2i32, -1i32) && KNIGHT_DIRS[6] == (-2i32, 1i32) && KNIGHT_DIRS[7] == (-1i32, 2i32));
                assert(!knight_step(df as int, dr as int));
                let dir = (signum(df), signum(dr));
                assert(QUEEN_DIRS[queen_dir(dir.0 as int, dir.1 as int)] == dir);
                let idx: usize = match position_of(&QUEEN_DIRS, dir) {
                    Some(k) => k,
                    None => 0,
                };
                assert(idx == queen_dir(dir.0 as int, dir.1 as int));
                let (files, ranks): (i32, i32) = (if df < 0 { -df } else { df }, if dr < 0 { -dr } else { dr });
                let distance: i32 = if files > ranks {
                    files
                } else {
                    ranks
                };
                idx * 7 + (distance - 1) as usize
            },
        },
    };
    from.0 as usize * N_PLANES + plane
}

/// The step that a plane stands for.
pub open spec fn plane_step(plane: int) -> (int, int) {
    if plane < 56 {
        let dist = plane % 7 + 1;
        (QUEEN_DIRS[plane / 7].0 * dist, QUEEN_DIRS[plane / 7].1 * dist)
    } else if plane < 64 {
        (KNIGHT_DIRS[plane - 56].0 as int, KNIGHT_DIRS[plane - 56].1 as int)
    } else {
        ((plane - 64) % 3 - 1, 1)
    }
}

/// The move that an index stands for on a board: `None` where the step leaves
/// the board. A white pawn that reaches the last rank becomes a queen unless the
/// plane says otherwise.
pub open spec fn index_move(index: int, board: Board) -> Option<(int, int, Option<Role>)> {
    let from = index / 73;
    let plane = index % 73;
    let (df, dr) = plane_step(plane);
    let (file, rank) = (spec_file(from) + df, spec_rank(from) + dr);
    if !in_grid(file, rank) {
        None
    } else if plane >= 64 {
        Some((from, square_at(file, rank), Some(UNDERPROMO_ROLES[(plane - 64) / 3])))
    } else if rank == 7 && board.holds(from, Color::White, Role::Pawn) {
        Some((from, square_at(file, rank), Some(Role::Queen)))
    } else {
        Some((from, square_at(file, rank), None))
    }
}

/// Inverse of [`move_to_index`]. The position disambiguates a queen promotion
/// from a plain push to the last rank; `None` means the index is off the board.
pub fn index_to_move(index: usize, pos: &Position) -> (r: Option<MoveSquares>)
    requires
        index < N_MOVES,
    ensures
        index_move(index as int, state(pos@).board) == (match r {
            Some((from, to, promotion)) => Some((from.0 as int, to.0 as int, promotion)),
            None => None,
        }),
        r is Some ==> (r->0).0.valid() && (r->0).1.valid(),
{
    let from = Square((index / N_PLANES) as u8);
    let plane: usize = index % N_PLANES;
    let (df, dr): (i32, i32) = if plane < 56 {
        let dist: i32 = (plane % 7) as i32 + 1;
        let (df, dr): (i32, i32) = QUEEN_DIRS[plane / 7];
        assert(-1 <= df <= 1 && -1 <= dr <= 1);
        assert(-7 <= df * dist <= 7 && -7 <= dr * dist <= 7) by (nonlinear_arith)
            requires -1 <= df <= 1, -1 <= dr <= 1, 1 <= dist <= 7;
        (df * dist, dr * dist)
    } else if plane < 64 {
        KNIGHT_DIRS[plane - 56]
    } else {
        ((plane - 64) as i32 % 3 - 1, 1)
    };
    assert(-7 <= df <= 7 && -7 <= dr <= 7);
    let (tf, tr): (i32, i32) = (from.file() as i32 + df, from.rank() as i32 + dr);
    if tf < 0 || tf > 7 || tr < 0 || tr > 7 {
        return None;
    }
    let to = Square::from_coords(tf as u8, tr as u8);
    let promotion = if plane >= 64 {
        Some(UNDERPROMO_ROLES[(plane - 64) / 3])
    } else if tr == 7 && pos.board().is_piece(from, Color::White, Role::Pawn) {
        Some(Role::Queen)
    } else {
        None
    };
    Some((from, to, promotion))
}

/// A legal move of the side to move has a policy index when that side is White.
pub proof fn lemma_legal_indexable(s: Setup, m: Move)
    requires
        s.turn == Color::White,
        move_fits(s, m),
    ensures
        indexable(squares_of(m).0.0 as int, squares_of(m).1.0 as int, squares_of(m).2),
{
}

/// A step along a ray decodes back to itself.
proof fn lemma_ray_plane(from: int, to: int)
    requires
        on_board(from),
        on_board(to),
        on_diagonal(from, to) || on_rank_or_file(from, to),
    ensures
        ({
            let df = spec_file(to) - spec_file(from);
            let dr = spec_rank(to) - spec_rank(from);
            let plane = queen_dir(sign(df), sign(dr)) * 7 + steps_apart(from, to) - 1;
            0 <= plane < 56 && plane_step(plane) == (df, dr)
        }),
{
    let df = spec_file(to) - spec_file(from);
    let dr = spec_rank(to) - spec_rank(from);
    let d = queen_dir(sign(df), sign(dr));
    let n = steps_apart(from, to);
    let plane = d * 7 + n - 1;
    assert(1 <= n <= 7);
    assert(plane / 7 == d && plane % 7 == n - 1);
    assert(QUEEN_DIRS[d].0 == sign(df) && QUEEN_DIRS[d].1 == sign(dr));
    assert(sign(df) * n == df) by (nonlinear_arith)
        requires (sign(df) == 1 && n == df) || (sign(df) == -1 && n == -df) || (sign(df) == 0 && df == 0);
    assert(sign(dr) * n == dr) by (nonlinear_arith)
        requires (sign(dr) == 1 && n == dr) || (sign(dr) == -1 && n == -dr) || (sign(dr) == 0 && dr == 0);
}

proof fn lemma_knight_plane(df: int, dr: int)
    requires
        knight_step(df, dr),
    ensures
        0 <= knight_dir(df, dr) < 8,
        plane_step(56 + knight_dir(df, dr)) == (df, dr),
{
}

/// An underpromotion's plane tells its step and its role.
proof fn lemma_underpromotion_plane(df: int, role: Role)
    requires
        -1 <= df <= 1,
        role == Role::Knight || role == Role::Bishop || role == Role::Rook,
    ensures
        ({
            let plane = 64 + underpromotion(role) * 3 + df + 1;
            64 <= plane < 73 && plane_step(plane) == (df, 1int) && UNDERPROMO_ROLES[(plane - 64) / 3] == role
        }),
{
    let plane = 64 + underpromotion(role) * 3 + df + 1;
    assert((plane - 64) % 3 == df + 1 && (plane - 64) / 3 == underpromotion(role));
}

/// The move that an index stands for, told by its square and the step of its plane.
proof fn lemma_decoded(from: int, to: int, plane: int, board: Board)
    requires
        on_board(from),
        on_board(to),
        0 <= plane < 73,
        plane_step(plane) == (spec_file(to) - spec_file(from), spec_rank(to) - spec_rank(from)),
    ensures
        index_move(from * 73 + plane, board) == Some(
            (
                from,
                to,
                if plane >= 64 {
                    Some(UNDERPROMO_ROLES[(plane - 64) / 3])
                } else if spec_rank(to) == 7 && board.holds(from, Color::White, Role::Pawn) {
                    Some(Role::Queen)
                } else {
                    None
                },
            ),
        ),
{
    lemma_index_parts(from, plane);
    assert(square_at(spec_file(to), spec_rank(to)) == to);
}

/// An index is its square and its plane.
proof fn lemma_index_parts(from: int, plane: int)
    requires
        on_board(from),
        0 <= plane < 73,
    ensures
        (from * 73 + plane) / 73 == from,
        (from * 73 + plane) % 73 == plane,
        0 <= from * 73 + plane < 4672,
{
}

/// Squares on a ray or a knight's hop apart decode back from their index.
proof fn lemma_round_trip_squares(from: int, to: int, promotion: Option<Role>, board: Board)
    requires
        indexable(from, to, promotion),
        promotion is Some && promotion->0 != Role::Queen || on_diagonal(from, to) || on_rank_or_file(from, to)
            || knight_step(spec_file(to) - spec_file(from), spec_rank(to) - spec_rank(from)),
        promotion is Some && promotion->0 == Role::Queen <==> (spec_rank(to) == 7 && board.holds(
            from,
            Color::White,
            Role::Pawn,
        ) && !(promotion is Some && promotion->0 != Role::Queen)),
    ensures
        0 <= policy_index(from, to, promotion) < 4672,
        index_move(policy_index(from, to, promotion), board) == Some((from, to, promotion)),
{
    let df = spec_file(to) - spec_file(from);
    let dr = spec_rank(to) - spec_rank(from);
    let plane = plane_of(from, to, promotion);
    if promotion is Some && promotion->0 != Role::Queen {
        lemma_underpromotion_plane(df, promotion->0);
    } else if knight_step(df, dr) {
        lemma_knight_plane(df, dr);
    } else {
        lemma_ray_plane(from, to);
    }
    lemma_index_parts(from, plane);
    lemma_decoded(from, to, plane, board);
}

/// The policy index of a legal move of a canonical position lies below 4672 and
/// decodes back to the move's squares and promotion.
pub proof fn law_policy_indices_round_trip(s: Setup, m: Move)
    requires
        s.valid(),
        s.turn == Color::White,
        move_fits(s, m),
    ensures
        ({
            let (from, to, promotion) = squares_of(m);
            let index = policy_index(from.0 as int, to.0 as int, promotion);
            0 <= index < 4672 && index_move(index, s.board) == Some((from.0 as int, to.0 as int, promotion))
        }),
{
    lemma_legal_indexable(s, m);
    let (from, to, promotion) = squares_of(m);
    lemma_round_trip_squares(from.0 as int, to.0 as int, promotion, s.board);
}

/// Two legal moves of a position differ in their squares or their promotion.
proof fn lemma_squares_tell_moves_apart(s: Setup, m: Move, n: Move)
    requires
        move_fits(s, m),
        move_fits(s, n),
        squares_of(m) == squares_of(n),
    ensures
        m == n,
{
}

/// Different legal moves of a canonical position have different policy indices.
pub proof fn law_policy_indices_are_distinct(s: Setup, m: Move, n: Move)
    requires
        s.valid(),
        s.turn == Color::White,
        move_fits(s, m),
        move_fits(s, n),
        m != n,
    ensures
        policy_index(squares_of(m).0.0 as int, squares_of(m).1.0 as int, squares_of(m).2) != policy_index(
            squares_of(n).0.0 as int,
            squares_of(n).1.0 as int,
            squares_of(n).2,
        ),
{
    law_policy_indices_round_trip(s, m);
    law_policy_indices_round_trip(s, n);
    if squares_of(m) == squares_of(n) {
        lemma_squares_tell_moves_apart(s, m, n);
    }
}

/// The step of a queen plane leads along its ray.
proof fn lemma_plane_ray(from: int, plane: int)
    requires
        on_board(from),
        0 <= plane < 56,
        in_grid(spec_file(from) + plane_step(plane).0, spec_rank(from) + plane_step(plane).1),
    ensures
        ({
            let to = square_at(spec_file(from) + plane_step(plane).0, spec_rank(from) + plane_step(plane).1);
            from != to && plane_of(from, to, None) == plane
        }),
{
    let (d, n) = (plane / 7, plane % 7 + 1);
    let (df, dr) = plane_step(plane);
    let to = square_at(spec_file(from) + df, spec_rank(from) + dr);
    assert(0 <= d < 8 && 1 <= n <= 7);
    assert(spec_file(to) - spec_file(from) == df && spec_rank(to) - spec_rank(from) == dr);
    let (sf, sr) = (QUEEN_DIRS[d].0 as int, QUEEN_DIRS[d].1 as int);
    assert(-1 <= sf <= 1 && -1 <= sr <= 1 && queen_dir(sf, sr) == d && !(sf == 0 && sr == 0));
    assert(sf * n == (if sf == 1 { n } else if sf == 0 { 0 } else { -n })) by (nonlinear_arith)
        requires -1 <= sf <= 1;
    assert(sr * n == (if sr == 1 { n } else if sr == 0 { 0 } else { -n })) by (nonlinear_arith)
        requires -1 <= sr <= 1;
    assert(sign(df) == sf && sign(dr) == sr);
    assert(!knight_step(df, dr));
    assert(steps_apart(from, to) == n);
}

/// What an index decodes to has that index: decoding and indexing undo each other.
pub proof fn law_decoded_moves_have_their_index(index: int, board: Board)
    requires
        0 <= index < 4672,
        index_move(index, board) is Some,
    ensures
        ({
            let (from, to, promotion) = index_move(index, board)->0;
            indexable(from, to, promotion) && policy_index(from, to, promotion) == index
        }),
{
    let (from, plane) = (index / 73, index % 73);
    let (df, dr) = plane_step(plane);
    let (file, rank) = (spec_file(from) + df, spec_rank(from) + dr);
    let to = square_at(file, rank);
    assert(spec_file(to) == file && spec_rank(to) == rank);
    assert(from * 73 + plane == index);
    if plane < 56 {
        lemma_plane_ray(from, plane);
    } else if plane < 64 {
        let k = plane - 56;
        assert(knight_step(df, dr) && knight_dir(df, dr) == k);
    } else {
        let u = (plane - 64) / 3;
        assert(0 <= u < 3 && underpromotion(UNDERPROMO_ROLES[u]) == u);
    }
}

/// The moves with their policy indices.
pub open spec fn indexed_moves(moves: Seq<Move>) -> Seq<(Move, int)> {
    moves.map_values(
        |m: Move| (m, policy_index(squares_of(m).0.0 as int, squares_of(m).1.0 as int, squares_of(m).2)),
    )
}

/// Legal moves of a canonical position with their policy indices.
pub fn legal_move_indices(canon: &Position) -> (r: Vec<(Move, usize)>)
    requires
        state(canon@).turn == Color::White,
    ensures
        r@.map_values(|p: (Move, usize)| (p.0, p.1 as int)) == indexed_moves(moves_of(canon@)),
        forall|i: int| 0 <= i < r@.len() ==> (#[trigger] r@[i]).1 < N_MOVES,
        forall|i: int, j: int| 0 <= i < j < r@.len() ==> (#[trigger] r@[i]).1 != (#[trigger] r@[j]).1,
{
    let moves = canon.legal_moves();
    let mut out: Vec<(Move, usize)> = Vec::new();
    let mut i: usize = 0;
    while i < moves.len()
        invariant
            i <= moves.len(),
            state(canon@).turn == Color::White,
            moves@ == moves_of(canon@),
            forall|j: int| 0 <= j < moves@.len() ==> move_fits(state(canon@), #[trigger] moves@[j]),
            out@.len() == i,
            forall|j: int| 0 <= j < i ==> (#[trigger] out@[j]).0 == moves@[j] && out@[j].1 == indexed_moves(moves@)[j].1
                && out@[j].1 < N_MOVES,
        decreases moves.len() - i,
    {
        let m = moves[i];
        proof {
            assert(move_fits(state(canon@), moves@[i as int]));
            lemma_legal_indexable(state(canon@), m);
        }
        let (from, to, promotion) = move_squares(&m);
        out.push((m, move_to_index(from, to, promotion)));
        i = i + 1;
    }
    assert(out@.map_values(|p: (Move, usize)| (p.0, p.1 as int)) =~= indexed_moves(moves_of(canon@)));
    let setup = canon.setup();
    assert forall|i: int, j: int| 0 <= i < j < out@.len() implies (#[trigger] out@[i]).1 != (#[trigger] out@[j]).1 by {
        assert(moves@[i] != moves@[j]);
        law_policy_indices_are_distinct(setup, moves@[i], moves@[j]);
    }
    out
}

/// The castling rights as a number from 0 to 15: one for h1, two for a1, four for
/// h8, eight for a8.
pub open spec fn castling_number(rights: u64) -> int {
    (if bit(rights, 7) { 1int } else { 0 }) + (if bit(rights, 0) { 2int } else { 0 }) + (if bit(rights, 63) {
        4int
    } else {
        0
    }) + (if bit(rights, 56) { 8int } else { 0 })
}

fn castle_code(rights: Bitboard) -> (r: u16)
    ensures
        r == castling_number(rights.0),
        r < 16,
{
    let mut code: u16 = 0;
    if rights.contains(Square(7)) {
        code = code + 1;
    }
    if rights.contains(Square(0)) {
        code = code + 2;
    }
    if rights.contains(Square(63)) {
        code = code + 4;
    }
    if rights.contains(Square(56)) {
        code = code + 8;
    }
    code
}

/// The bucket of the fifty-move counter: thirteen half moves each, eight in all.
pub open spec fn r50_number(halfmoves: int) -> int {
    if halfmoves / 13 > 7 {
        7
    } else {
        halfmoves / 13
    }
}

fn r50_bucket(halfmoves: u32) -> (r: u16)
    ensures
        r == r50_number(halfmoves as int),
        r < 8,
{
    let bucket: u32 = halfmoves / 13;
    if bucket > 7 {
        7
    } else {
        bucket as u16
    }
}

/// The place of a piece's letter in the list of letters: white pieces first.
pub open spec fn letter_place(p: Piece) -> int {
    (match p.role {
        Role::Pawn => 0int,
        Role::Knight => 1,
        Role::Bishop => 2,
        Role::Rook => 3,
        Role::Queen => 4,
        Role::King => 5,
    }) + (if p.color == Color::White { 0int } else { 6 })
}

/// The token of a square: the letter of its piece, or a dot.
pub open spec fn square_token(board: Board, s: int) -> Seq<char> {
    match board.piece(s) {
        Some(p) => lettered("sq:"@, PIECE_CHARS@[letter_place(p)]),
        None => "sq:."@,
    }
}

/// The token of an en passant square: the letter of its file, or a dash.
pub open spec fn ep_token(ep: Option<Square>) -> Seq<char> {
    match ep {
        Some(q) => lettered("ep:"@, file_letter(spec_file(q.0 as int))),
        None => "ep:-"@,
    }
}

/// The tokens of a position: the start mark, the 64 squares, castling rights,
/// en passant file, fifty-move bucket, repetitions, the end mark.
pub open spec fn prefix_word(s: Setup, ep: Option<Square>, repetitions: int, k: int) -> Seq<char> {
    if k == 0 {
        BOS@
    } else if k <= 64 {
        square_token(s.board, k - 1)
    } else if k == 65 {
        numbered("cas:"@, castling_number(s.castling))
    } else if k == 66 {
        ep_token(ep)
    } else if k == 67 {
        numbered("r50:"@, r50_number(s.halfmoves as int))
    } else if k == 68 {
        numbered("rep:"@, if repetitions > 2 { 2 } else { repetitions })
    } else {
        SEP@
    }
}

/// These are the ids of the tokens of a position.
pub open spec fn is_prefix(fen: Seq<char>, repetitions: int, ids: Seq<u16>) -> bool {
    &&& ids.len() == PREFIX_LEN
    &&& forall|k: int| 0 <= k < PREFIX_LEN ==> #[trigger] ids[k] < 196 && vocab_word(ids[k] as int) == prefix_word(
        state(fen),
        legal_ep_of(fen),
        repetitions,
        k,
    )
}

/// A position's prefix survives a FEN round trip. Here `back` is the FEN that tells
/// the position of `fen`, without an en passant square nobody can take on; `canon` and
/// `canon_back` are the two as their side to move sees them, and `ids` and `ids_back`
/// their tokens.
pub proof fn law_a_prefix_survives_a_fen_round_trip(
    fen: Seq<char>,
    back: Seq<char>,
    canon: Seq<char>,
    canon_back: Seq<char>,
    repetitions: int,
    ids: Seq<u16>,
    ids_back: Seq<u16>,
)
    requires
        tells(fen, back),
        seen_by_mover(fen, canon),
        seen_by_mover(back, canon_back),
        is_prefix(canon, repetitions, ids),
        is_prefix(canon_back, repetitions, ids_back),
    ensures
        ids == ids_back,
{
    let (a, b) = (state(canon), state(canon_back));
    assert forall|s: int| on_board(s) implies #[trigger] a.board.piece(s) == b.board.piece(s) by {
        assert(flip(flip(s)) == s && on_board(flip(s)));
        let _ = state(fen).board.piece(flip(s));
    }
    assert forall|s: int| on_board(s) implies #[trigger] bit(a.castling, s) == bit(b.castling, s) by {
        assert(flip(flip(s)) == s && on_board(flip(s)));
        let _ = bit(state(fen).castling, flip(s));
    }
    assert forall|k: int| 0 <= k < PREFIX_LEN implies #[trigger] ids[k] == ids_back[k] by {
        assert(ids_back[k] < 196);
        assert(prefix_word(a, legal_ep_of(canon), repetitions, k) == prefix_word(
            b,
            legal_ep_of(canon_back),
            repetitions,
            k,
        ));
        law_tokens_are_distinct(ids[k] as int, ids_back[k] as int);
    }
    assert(ids =~= ids_back);
}

fn square_id(board: &Board, sq: Square) -> (r: u16)
    requires
        sq.valid(),
    ensures
        r < 196,
        vocab_word(r as int) == square_token(*board, sq.0 as int),
{
    match board.piece_at(sq) {
        None => 4,
        Some(piece) => {
            let role: u16 = match piece.role {
                Role::Pawn => 5,
                Role::Knight => 6,
                Role::Bishop => 7,
                Role::Rook => 8,
                Role::Queen => 9,
                Role::King => 10,
            };
            if piece.color == Color::White {
                role
            } else {
                role + 6
            }
        },
    }
}

/// Token ids for the position part of the sequence, ending with `<sep>`.
///
/// `repetitions` cannot be derived from the position: a FEN carries no history,
/// so the caller supplies it from the game it is actually playing. Only an en
/// passant square that can actually be captured on is part of the position.
pub fn encode_prefix(canon: &Position, repetitions: u8) -> (r: Vec<u16>)
    ensures
        is_prefix(canon@, repetitions as int, r@),
{
    let setup = canon.setup();
    let ghost ep = legal_ep_of(canon@);
    let mut out: Vec<u16> = Vec::new();
    out.push(1);
    let mut i: u8 = 0;
    while i < 64
        invariant
            i <= 64,
            setup == state(canon@),
            out@.len() == i + 1,
            forall|k: int| 0 <= k <= i ==> #[trigger] out@[k] < 196 && vocab_word(out@[k] as int) == prefix_word(
                setup,
                ep,
                repetitions as int,
                k,
            ),
        decreases 64 - i,
    {
        out.push(square_id(&setup.board, Square(i)));
        i = i + 1;
    }
    out.push(17 + castle_code(Bitboard(setup.castling)));
    match canon.legal_ep_square() {
        None => out.push(33),
        Some(sq) => out.push(34 + sq.file() as u16),
    }
    out.push(42 + r50_bucket(setup.halfmoves));
    out.push(50 + if repetitions > 2 { 2 } else { repetitions as u16 });
    out.push(2);
    out
}

/// The prefix of a position as its side to move sees it, and the prefix of the
/// position that is read back from its FEN. An engine only ever sees FENs, so the two
/// have to be the same, whichever side is to move.
pub fn encode_through_fen(pos: &Position, repetitions: u8) -> (r: (Vec<u16>, Vec<u16>))
    ensures
        is_prefix(canonical_fen(pos@), repetitions as int, r.0@),
        is_prefix(canonical_fen(legal_fen_of(pos@)), repetitions as int, r.1@),
        r.0@ == r.1@,
{
    let fen = pos.legal_fen();
    let back = match Position::from_fen(fen.as_str()) {
        Some(back) => back,
        None => {
            assert(!accepted(fen@));
            vstd::pervasive::unreached()
        },
    };
    let (canon, _) = canonical(pos);
    let (canon_back, _) = canonical(&back);
    let ids = encode_prefix(&canon, repetitions);
    let ids_back = encode_prefix(&canon_back, repetitions);
    proof {
        law_a_prefix_survives_a_fen_round_trip(
            pos@,
            back@,
            canon@,
            canon_back@,
            repetitions as int,
            ids@,
            ids_back@,
        );
    }
    (ids, ids_back)
}

} // verus!
