//! The motif detectors, and the oracle the teaching layer validates against.
//!
//! These answer one question each about a canonical position (white is always the
//! side to move) using nothing but the board. The annotator calls them to write
//! teacher traces, and the teaching layer calls them to decide whether a motif
//! the *model* claimed is really there: a motif the model asserts and no detector
//! confirms gets dropped rather than shown.
//!
//! They are deliberately conservative. A false negative costs a motif we could
//! have taught; a false positive tells a beginner something untrue.

use vstd::prelude::*;

use crate::chess::{
    abs, bit, in_grid, on_board, on_diagonal, on_rank_or_file, spec_file, spec_rank, square_at, steps_apart, Bitboard,
    Board, Color, Piece, Role, Square,
};
use crate::encoding::{move_squares, squares_of};
use crate::features::{
    attackers, attacks_from, distance, doubled, doubled_pawns, file_open, hanging, hanging_pieces, hits,
    is_attacked_by, is_open_file, is_pinned, isolated, isolated_pawns, outpost, outposts, passed, passed_pawns,
    pinned, tactical, tactical_value,
};
use crate::rules::{checkmate, fen_after, move_fits, moves_of, state, Move, Position};
use crate::sums::{count_squares, count_upto, lemma_list_members};
use crate::text::same_text;
use crate::vocab::{law_tokens_are_distinct, MOTIF_TOKENS, N_MOTIF_SLOTS};

verus! {

/// Motifs in the order they are worth naming when several fire at once.
pub const MOTIF_PRIORITY: [&'static str; 22] = [
    "mo:mate1",
    "mo:fork",
    "mo:skewer",
    "mo:discovery",
    "mo:backrank",
    "mo:trapped",
    "mo:overload",
    "mo:pin",
    "mo:hanging",
    "mo:promotion",
    "mo:passer",
    "mo:rook7th",
    "mo:outpost",
    "mo:battery",
    "mo:kingattack",
    "mo:openfile",
    "mo:check",
    "mo:capture",
    "mo:badbishop",
    "mo:isolated",
    "mo:doubled",
    "mo:space",
];

pub open spec fn board_of(fen: Seq<char>) -> Board {
    state(fen).board
}

/// Some legal move mates.
pub open spec fn mate_in_1(fen: Seq<char>) -> bool {
    exists|i: int| 0 <= i < moves_of(fen).len() && checkmate(#[trigger] fen_after(fen, i))
}

/// Some legal move gives check.
pub open spec fn check_possible(fen: Seq<char>) -> bool {
    exists|i: int| 0 <= i < moves_of(fen).len() && state(#[trigger] fen_after(fen, i)).in_check()
}

/// Some legal move captures.
pub open spec fn capture_possible(fen: Seq<char>) -> bool {
    exists|i: int| 0 <= i < moves_of(fen).len() && (#[trigger] moves_of(fen)[i]).takes() is Some
}

/// Is there a legal move that mates?
pub fn has_mate_in_1(pos: &Position) -> (r: bool)
    ensures
        r == mate_in_1(pos@),
{
    let moves = pos.legal_moves();
    let mut i: usize = 0;
    while i < moves.len()
        invariant
            i <= moves.len(),
            moves@ == moves_of(pos@),
            forall|j: int| 0 <= j < i ==> !checkmate(#[trigger] fen_after(pos@, j)),
        decreases moves.len() - i,
    {
        if pos.play(i).is_checkmate() {
            return true;
        }
        i = i + 1;
    }
    false
}

/// Is there a legal move that gives check?
pub fn has_check(pos: &Position) -> (r: bool)
    ensures
        r == check_possible(pos@),
{
    let moves = pos.legal_moves();
    let mut i: usize = 0;
    while i < moves.len()
        invariant
            i <= moves.len(),
            moves@ == moves_of(pos@),
            forall|j: int| 0 <= j < i ==> !state(#[trigger] fen_after(pos@, j)).in_check(),
        decreases moves.len() - i,
    {
        if pos.play(i).is_check() {
            return true;
        }
        i = i + 1;
    }
    false
}

/// Is there a legal move that captures?
pub fn has_capture(pos: &Position) -> (r: bool)
    ensures
        r == capture_possible(pos@),
{
    let moves = pos.legal_moves();
    let mut i: usize = 0;
    while i < moves.len()
        invariant
            i <= moves.len(),
            moves@ == moves_of(pos@),
            forall|j: int| 0 <= j < i ==> (#[trigger] moves@[j]).takes() is None,
        decreases moves.len() - i,
    {
        if moves[i].is_capture() {
            return true;
        }
        i = i + 1;
    }
    false
}

/// Some black piece hangs.
pub open spec fn something_hangs(board: Board) -> bool {
    exists|s: int| on_board(s) && #[trigger] hanging(board, Color::Black, s)
}

/// Does some black piece hang?
pub fn has_hanging(pos: &Position) -> (r: bool)
    ensures
        r == something_hangs(board_of(pos@)),
{
    let board = pos.board();
    let found = hanging_pieces(&board, Color::Black);
    proof {
        let p = |s: int| hanging(board, Color::Black, s);
        lemma_list_members(p, 64);
        if found@.len() > 0 {
            assert(p(found@[0].0 as int));
        }
        if something_hangs(board) {
            let s = choose|s: int| on_board(s) && #[trigger] hanging(board, Color::Black, s);
            assert(p(s));
        }
    }
    found.len() > 0
}

/// The piece on `to` attacks a black piece on `s` that is worth more than
/// `value`.
pub open spec fn fork_target(board: Board, to: int, value: int, s: int) -> bool {
    hits(board, to, s) && board.has_color(s, Color::Black) && tactical(board.piece(s)->0.role) > value
}

/// The move attacks two or more things the mover outvalues, without simply
/// hanging the forking piece. Kings do not fork.
pub open spec fn is_forking(before: Board, m: Move, after: Board) -> bool {
    let (from, to) = (squares_of(m).0.0 as int, squares_of(m).1.0 as int);
    &&& before.piece(from) is Some
    &&& before.piece(from)->0.role != Role::King
    &&& !after.attacked(to, Color::Black) || after.attacked(to, Color::White)
    &&& count_squares(|s: int| fork_target(after, to, tactical(before.piece(from)->0.role), s)) >= 2
}

/// Some legal move forks.
pub open spec fn fork_possible(fen: Seq<char>) -> bool {
    exists|i: int| 0 <= i < moves_of(fen).len() && is_forking(
        board_of(fen),
        moves_of(fen)[i],
        board_of(#[trigger] fen_after(fen, i)),
    )
}

fn count_fork_targets(board: &Board, to: Square, value: i32) -> (r: u32)
    requires
        to.valid(),
    ensures
        r == count_squares(|s: int| fork_target(*board, to.0 as int, value as int, s)),
{
    let ghost p = |s: int| fork_target(*board, to.0 as int, value as int, s);
    let seen = attacks_from(board, to);
    let mut n: u32 = 0;
    let mut i: u8 = 0;
    while i < 64
        invariant
            i <= 64,
            n <= i,
            p == (|s: int| fork_target(*board, to.0 as int, value as int, s)),
            forall|t: int| #![trigger bit(seen.0, t)] on_board(t) ==> bit(seen.0, t) == hits(*board, to.0 as int, t),
            n == count_upto(p, i as int),
        decreases 64 - i,
    {
        if seen.contains(Square(i)) {
            if let Some(piece) = board.piece_at(Square(i)) {
                if piece.color == Color::Black && tactical_value(piece.role) > value {
                    n = n + 1;
                }
            }
        }
        i = i + 1;
    }
    n
}

/// Does this move attack two or more things the mover outvalues?
fn is_fork(pos: &Position, index: usize, m: &Move) -> (r: bool)
    requires
        index < moves_of(pos@).len(),
        squares_of(*m).0.valid(),
        squares_of(*m).1.valid(),
    ensures
        r == is_forking(board_of(pos@), *m, board_of(fen_after(pos@, index as int))),
{
    let (from, to, _) = move_squares(m);
    let role = match pos.board().role_at(from) {
        Some(role) => role,
        None => return false,
    };
    if role == Role::King {
        return false;
    }
    let board = pos.play(index).board();
    if is_attacked_by(&board, Color::Black, to) && !is_attacked_by(&board, Color::White, to) {
        return false;
    }
    count_fork_targets(&board, to, tactical_value(role)) >= 2
}

/// Is there a legal move that forks?
pub fn has_fork(pos: &Position) -> (r: bool)
    ensures
        r == fork_possible(pos@),
{
    let moves = pos.legal_moves();
    let mut i: usize = 0;
    while i < moves.len()
        invariant
            i <= moves.len(),
            moves@ == moves_of(pos@),
            forall|j: int| 0 <= j < moves@.len() ==> move_fits(state(pos@), #[trigger] moves@[j]),
            forall|j: int| 0 <= j < i ==> !is_forking(
                board_of(pos@),
                moves@[j],
                board_of(#[trigger] fen_after(pos@, j)),
            ),
        decreases moves.len() - i,
    {
        assert(move_fits(state(pos@), moves@[i as int]));
        if is_fork(pos, i, &moves[i]) {
            return true;
        }
        i = i + 1;
    }
    false
}

/// A black piece, neither pawn nor king, is pinned.
pub open spec fn pinned_piece(board: Board, s: int) -> bool {
    &&& board.has_color(s, Color::Black)
    &&& board.piece(s)->0.role != Role::Pawn
    &&& board.piece(s)->0.role != Role::King
    &&& pinned(board, Color::Black, s)
}

pub open spec fn pin_present(board: Board) -> bool {
    exists|s: int| on_board(s) && #[trigger] pinned_piece(board, s)
}

/// Is some black piece, neither pawn nor king, pinned?
pub fn has_pin(pos: &Position) -> (r: bool)
    ensures
        r == pin_present(board_of(pos@)),
{
    let board = pos.board();
    let mut i: u8 = 0;
    while i < 64
        invariant
            i <= 64,
            board.wf(),
            board == board_of(pos@),
            forall|s: int| 0 <= s < i ==> !#[trigger] pinned_piece(board, s),
        decreases 64 - i,
    {
        if let Some(piece) = board.piece_at(Square(i)) {
            if piece.color == Color::Black && piece.role != Role::Pawn && piece.role != Role::King && is_pinned(
                &board,
                Color::Black,
                Square(i),
            ) {
                assert(pinned_piece(board, i as int));
                return true;
            }
        }
        i = i + 1;
    }
    false
}

/// The eight directions, diagonals first.
pub const DIRS: [(i32, i32); 8] = [(1, 1), (1, -1), (-1, 1), (-1, -1), (0, 1), (0, -1), (1, 0), (-1, 0)];

/// A slider of this role moves in this direction.
pub open spec fn slides(role: Role, d: int) -> bool {
    match role {
        Role::Bishop => 0 <= d < 4,
        Role::Rook => 4 <= d < 8,
        Role::Queen => 0 <= d < 8,
        _ => false,
    }
}

/// The file and rank `k` steps from a square in a direction.
pub open spec fn ray_coords(origin: int, d: int, k: int) -> (int, int) {
    (spec_file(origin) + k * DIRS[d].0, spec_rank(origin) + k * DIRS[d].1)
}

/// The square `k` steps from a square in a direction, if it is on the board.
pub open spec fn ray_piece(board: Board, origin: int, d: int, k: int) -> Option<Piece> {
    let (f, r) = ray_coords(origin, d, k);
    if in_grid(f, r) {
        board.piece(square_at(f, r))
    } else {
        None
    }
}

/// Nothing stands strictly between two places on a ray.
pub open spec fn ray_clear(board: Board, origin: int, d: int, a: int, b: int) -> bool {
    forall|k: int| a < k < b ==> #[trigger] ray_piece(board, origin, d, k) is None
}

/// Two black pieces stand one behind the other on the ray, the front one more
/// valuable and worth at least a rook, the back one worth at least a knight.
pub open spec fn skewered_at(board: Board, origin: int, d: int, i: int, j: int) -> bool {
    let (front, back) = (ray_piece(board, origin, d, i), ray_piece(board, origin, d, j));
    &&& 1 <= i < j < 8
    &&& ray_clear(board, origin, d, 0, i)
    &&& ray_clear(board, origin, d, i, j)
    &&& front is Some && front->0.color == Color::Black
    &&& back is Some && back->0.color == Color::Black
    &&& tactical(front->0.role) > tactical(back->0.role)
    &&& tactical(back->0.role) >= 12
    &&& tactical(front->0.role) >= 20
}

/// A white slider skewers two black pieces.
pub open spec fn skewers(board: Board, origin: int, d: int) -> bool {
    &&& board.has_color(origin, Color::White)
    &&& slides(board.piece(origin)->0.role, d)
    &&& exists|i: int, j: int| #[trigger] skewered_at(board, origin, d, i, j)
}

pub open spec fn skewer_present(board: Board) -> bool {
    exists|origin: int, d: int| on_board(origin) && 0 <= d < 8 && #[trigger] skewers(board, origin, d)
}

/// Walk a ray from a white slider.
#[verifier::loop_isolation(false)]
fn ray_skewers(board: &Board, origin: Square, d: usize) -> (r: bool)
    requires
        origin.valid(),
        d < 8,
    ensures
        r == (exists|i: int, j: int| #[trigger] skewered_at(*board, origin.0 as int, d as int, i, j)),
{
    let ghost o = origin.0 as int;
    let (df, dr): (i32, i32) = DIRS[d];
    assert(-1 <= df <= 1 && -1 <= dr <= 1);
    let mut front: Option<Role> = None;
    let ghost mut at: int = 0;
    let mut k: i32 = 1;
    let mut f: i32 = origin.file() as i32 + df;
    let mut r: i32 = origin.rank() as i32 + dr;
    while k < 8
        invariant
            1 <= k <= 8,
            (f as int, r as int) == ray_coords(o, d as int, k as int),
            -8 <= f <= 16,
            -8 <= r <= 16,
            f == spec_file(o) + k * df,
            r == spec_rank(o) + k * dr,
            match front {
                None => ray_clear(*board, o, d as int, 0, k as int),
                Some(role) => 1 <= at < k && ray_clear(*board, o, d as int, 0, at) && ray_clear(
                    *board,
                    o,
                    d as int,
                    at,
                    k as int,
                ) && ray_piece(*board, o, d as int, at) == Some(
                    Piece { color: Color::Black, role },
                ),
            },
        decreases 8 - k,
    {
        let ghost here = ray_piece(*board, o, d as int, k as int);
        if 0 <= f && f < 8 && 0 <= r && r < 8 {
            let sq = Square::from_coords(f as u8, r as u8);
            if let Some(piece) = board.piece_at(sq) {
                assert(here == Some(piece));
                let seen = front;
                let bad = match seen {
                    None => piece.color == Color::White,
                    Some(front_role) => {
                        let front_value: i32 = tactical_value(front_role);
                        let back_value: i32 = tactical_value(piece.role);
                        if piece.color == Color::Black && front_value > back_value && back_value >= 12 && front_value
                            >= 20 {
                            assert(skewered_at(*board, o, d as int, at, k as int));
                            return true;
                        }
                        true
                    },
                };
                if bad {
                    proof {
                        lemma_no_skewer(*board, o, d as int, at, k as int, seen is Some);
                    }
                    return false;
                }
                front = Some(piece.role);
                proof {
                    at = k as int;
                }
            }
        }
        assert(-8 <= k * df <= 8 && -8 <= k * dr <= 8) by (nonlinear_arith)
            requires 1 <= k <= 8, -1 <= df <= 1, -1 <= dr <= 1;
        assert((k + 1) * df == k * df + df && (k + 1) * dr == k * dr + dr) by (nonlinear_arith);
        assert(-8 <= k * df + df <= 8 && -8 <= k * dr + dr <= 8) by (nonlinear_arith)
            requires 1 <= k < 8, -1 <= df <= 1, -1 <= dr <= 1;
        f = f + df;
        r = r + dr;
        k = k + 1;
    }
    proof {
        if exists|i: int, j: int| #[trigger] skewered_at(*board, o, d as int, i, j) {
            let (i, j) = choose|i: int, j: int| #[trigger] skewered_at(*board, o, d as int, i, j);
            assert(ray_piece(*board, o, d as int, i) is Some && ray_piece(*board, o, d as int, j) is Some);
        }
    }
    false
}

/// The first two pieces on a ray decide whether it skewers: a white first piece,
/// or a second piece that does not complete the pattern, rules it out.
proof fn lemma_no_skewer(board: Board, o: int, d: int, at: int, k: int, second: bool)
    requires
        1 <= k,
        ray_piece(board, o, d, k) is Some,
        !second ==> ray_clear(board, o, d, 0, k) && ray_piece(board, o, d, k)->0.color == Color::White,
        second ==> {
            &&& 1 <= at < k
            &&& ray_clear(board, o, d, 0, at)
            &&& ray_clear(board, o, d, at, k)
            &&& ray_piece(board, o, d, at) is Some
            &&& !skewered_at(board, o, d, at, k)
        },
    ensures
        !(exists|i: int, j: int| #[trigger] skewered_at(board, o, d, i, j)),
{
    assert forall|i: int, j: int| !#[trigger] skewered_at(board, o, d, i, j) by {
        if skewered_at(board, o, d, i, j) {
            assert(ray_piece(board, o, d, i) is Some && ray_piece(board, o, d, j) is Some);
            if second {
                if i < at {
                    assert(ray_piece(board, o, d, i) is None);
                } else if i > at {
                    assert(ray_piece(board, o, d, at) is None);
                } else if j < k {
                    assert(ray_piece(board, o, d, j) is None);
                } else if j > k {
                    assert(ray_piece(board, o, d, k) is None);
                }
            } else {
                if i < k {
                    assert(ray_piece(board, o, d, i) is None);
                } else if i > k {
                    assert(ray_piece(board, o, d, k) is None);
                }
            }
        }
    }
}

/// A white slider hitting a valuable black piece with a lesser one behind it.
#[verifier::loop_isolation(false)]
pub fn has_skewer(pos: &Position) -> (r: bool)
    ensures
        r == skewer_present(board_of(pos@)),
{
    let board = pos.board();
    let mut i: u8 = 0;
    while i < 64
        invariant
            i <= 64,
            forall|o: int, d: int| 0 <= o < i && 0 <= d < 8 ==> !#[trigger] skewers(board, o, d),
        decreases 64 - i,
    {
        if let Some(piece) = board.piece_at(Square(i)) {
            if piece.color == Color::White {
                let mut d: usize = 0;
                while d < 8
                    invariant
                        d <= 8,
                        forall|e: int| 0 <= e < d ==> !#[trigger] skewers(board, i as int, e),
                    decreases 8 - d,
                {
                    let can_slide = match piece.role {
                        Role::Bishop => d < 4,
                        Role::Rook => d >= 4,
                        Role::Queen => true,
                        _ => false,
                    };
                    if can_slide && ray_skewers(&board, Square(i), d) {
                        assert(skewers(board, i as int, d as int));
                        return true;
                    }
                    d = d + 1;
                }
            }
        }
        i = i + 1;
    }
    false
}

/// A black king or queen stands on the square.
pub open spec fn royal(board: Board, s: int) -> bool {
    board.holds(s, Color::Black, Role::King) || board.holds(s, Color::Black, Role::Queen)
}

/// After a move to `to`, a white piece elsewhere attacks the king or queen on
/// `target` that did not attack it before.
pub open spec fn reveals(before: Board, to: int, after: Board, target: int) -> bool {
    &&& royal(before, target)
    &&& target != to
    &&& exists|from: int| on_board(from) && from != to && #[trigger] after.attacks(from, Color::White, target)
        && !before.attacks(from, Color::White, target)
}

/// The legal move with this index discovers an attack on `target`.
pub open spec fn discovers(fen: Seq<char>, i: int, target: int) -> bool {
    reveals(board_of(fen), squares_of(moves_of(fen)[i]).1.0 as int, board_of(fen_after(fen, i)), target)
}

pub open spec fn discovery_possible(fen: Seq<char>) -> bool {
    exists|i: int, target: int| 0 <= i < moves_of(fen).len() && on_board(target) && #[trigger] discovers(
        fen,
        i,
        target,
    )
}

fn is_revealed(before: &Board, to: Square, after: &Board, target: Square) -> (r: bool)
    requires
        before.wf(),
        after.wf(),
        to.valid(),
        target.valid(),
    ensures
        r == reveals(*before, to.0 as int, *after, target.0 as int),
{
    let is_royal = before.is_piece(target, Color::Black, Role::King) || before.is_piece(
        target,
        Color::Black,
        Role::Queen,
    );
    if !is_royal || target == to {
        return false;
    }
    let old_attackers = attackers(before, Color::White, target);
    let new_attackers = attackers(after, Color::White, target);
    let revealed = new_attackers.without(Bitboard::from_square(to)).without(old_attackers);
    proof {
        if reveals(*before, to.0 as int, *after, target.0 as int) {
            let from = choose|from: int| on_board(from) && from != to.0 as int && #[trigger] after.attacks(
                from,
                Color::White,
                target.0 as int,
            ) && !before.attacks(from, Color::White, target.0 as int);
            assert(bit(revealed.0, from));
        }
    }
    let found = !revealed.is_empty();
    proof {
        if found {
            let from = choose|from: int| on_board(from) && #[trigger] bit(revealed.0, from);
            assert(after.attacks(from, Color::White, target.0 as int));
        }
    }
    found
}

/// Is there a move that unmasks a *different* white piece onto king or queen?
#[verifier::loop_isolation(false)]
pub fn has_discovery(pos: &Position) -> (r: bool)
    ensures
        r == discovery_possible(pos@),
{
    let before = pos.board();
    let moves = pos.legal_moves();
    let mut i: usize = 0;
    while i < moves.len()
        invariant
            i <= moves.len(),
            forall|j: int, t: int| 0 <= j < i && on_board(t) ==> !#[trigger] discovers(pos@, j, t),
        decreases moves.len() - i,
    {
        assert(move_fits(state(pos@), moves@[i as int]));
        let (_, to, _) = move_squares(&moves[i]);
        let after = pos.play(i).board();
        let mut t: u8 = 0;
        while t < 64
            invariant
                t <= 64,
                forall|u: int| 0 <= u < t ==> !#[trigger] discovers(pos@, i as int, u),
            decreases 64 - t,
        {
            if is_revealed(&before, to, &after, Square(t)) {
                assert(discovers(pos@, i as int, t as int));
                return true;
            }
            t = t + 1;
        }
        i = i + 1;
    }
    false
}

/// Black's own pieces fill the squares in front of the king on `k`, which stands
/// on its back rank.
pub open spec fn boxed_in(board: Board, k: int) -> bool {
    &&& spec_rank(k) == 7
    &&& forall|s: int| on_board(s) && spec_rank(s) == 6 && abs(spec_file(s) - spec_file(k)) <= 1
        ==> #[trigger] board.has_color(s, Color::Black)
}

/// A white rook or queen attacks a square of Black's back rank.
pub open spec fn reaches_back_rank(board: Board, s: int) -> bool {
    &&& board.holds(s, Color::White, Role::Rook) || board.holds(s, Color::White, Role::Queen)
    &&& exists|t: int| on_board(t) && spec_rank(t) == 7 && #[trigger] hits(board, s, t)
}

/// Black's king is boxed in on its back rank and White can get there.
pub open spec fn backrank_weak(board: Board) -> bool {
    match board.king_square(Color::Black) {
        Some(k) => boxed_in(board, k) && exists|s: int| on_board(s) && #[trigger] reaches_back_rank(board, s),
        None => false,
    }
}

#[verifier::loop_isolation(false)]
fn is_boxed_in(board: &Board, king: Square) -> (r: bool)
    requires
        king.valid(),
    ensures
        r == boxed_in(*board, king.0 as int),
{
    if king.rank() != 7 {
        return false;
    }
    let mut i: u8 = 0;
    while i < 64
        invariant
            i <= 64,
            forall|s: int| 0 <= s < i && spec_rank(s) == 6 && abs(spec_file(s) - spec_file(king.0 as int)) <= 1
                ==> #[trigger] board.has_color(s, Color::Black),
        decreases 64 - i,
    {
        let sq = Square(i);
        if sq.rank() == 6 && distance(king, sq) <= 1 && !board.is_color(sq, Color::Black) {
            assert(!board.has_color(i as int, Color::Black));
            return false;
        }
        i = i + 1;
    }
    true
}

#[verifier::loop_isolation(false)]
fn can_reach_back_rank(board: &Board, sq: Square) -> (r: bool)
    requires
        sq.valid(),
    ensures
        r == reaches_back_rank(*board, sq.0 as int),
{
    if !board.is_piece(sq, Color::White, Role::Rook) && !board.is_piece(sq, Color::White, Role::Queen) {
        return false;
    }
    let seen = attacks_from(board, sq);
    let mut t: u8 = 56;
    while t < 64
        invariant
            56 <= t <= 64,
            forall|u: int| 56 <= u < t ==> !#[trigger] hits(*board, sq.0 as int, u),
        decreases 64 - t,
    {
        if seen.contains(Square(t)) {
            assert(hits(*board, sq.0 as int, t as int));
            return true;
        }
        assert(!bit(seen.0, t as int));
        t = t + 1;
    }
    false
}

/// Is Black's king boxed in on a back rank that White can reach?
///
/// A boxed-in king is only a motif if we can actually get to the back rank,
/// otherwise every starting position would "have" a back-rank weakness.
#[verifier::loop_isolation(false)]
pub fn has_backrank(pos: &Position) -> (r: bool)
    ensures
        r == backrank_weak(board_of(pos@)),
{
    let board = pos.board();
    let king = match board.king_of(Color::Black) {
        Some(k) => k,
        None => return false,
    };
    if !is_boxed_in(&board, king) {
        return false;
    }
    let mut i: u8 = 0;
    while i < 64
        invariant
            i <= 64,
            forall|s: int| 0 <= s < i ==> !#[trigger] reaches_back_rank(board, s),
        decreases 64 - i,
    {
        if can_reach_back_rank(&board, Square(i)) {
            assert(reaches_back_rank(board, i as int));
            return true;
        }
        i = i + 1;
    }
    false
}

/// A white piece of this role stands on its seventh rank.
pub open spec fn on_seventh(board: Board, role: Role) -> bool {
    exists|s: int| on_board(s) && spec_rank(s) == 6 && #[trigger] board.holds(s, Color::White, role)
}

fn any_on_seventh(board: &Board, role: Role) -> (r: bool)
    ensures
        r == on_seventh(*board, role),
{
    let mut i: u8 = 48;
    while i < 56
        invariant
            48 <= i <= 56,
            forall|s: int| 48 <= s < i ==> !#[trigger] board.holds(s, Color::White, role),
        decreases 56 - i,
    {
        if board.is_piece(Square(i), Color::White, role) {
            assert(board.holds(i as int, Color::White, role));
            return true;
        }
        i = i + 1;
    }
    false
}

/// Does a white pawn stand one step from promotion?
pub fn has_promotion(pos: &Position) -> (r: bool)
    ensures
        r == on_seventh(board_of(pos@), Role::Pawn),
{
    any_on_seventh(&pos.board(), Role::Pawn)
}

/// Does a white rook stand on the seventh rank?
pub fn has_rook7th(pos: &Position) -> (r: bool)
    ensures
        r == on_seventh(board_of(pos@), Role::Rook),
{
    any_on_seventh(&pos.board(), Role::Rook)
}

/// The piece on `d` is the only black defender of the attacked black unit on
/// `s`.
pub open spec fn sole_duty(board: Board, s: int, d: int) -> bool {
    &&& board.has_color(s, Color::Black)
    &&& board.attacked(s, Color::White)
    &&& on_board(d) && board.attacks(d, Color::Black, s)
    &&& forall|e: int| on_board(e) && #[trigger] board.attacks(e, Color::Black, s) ==> e == d
}

/// One black piece is the sole defender of two attacked black units.
pub open spec fn overloaded(board: Board) -> bool {
    exists|s: int, t: int, d: int| 0 <= s < t < 64 && #[trigger] sole_duty(board, s, d) && #[trigger] sole_duty(
        board,
        t,
        d,
    )
}

/// The duty of a square: its sole defender, if it has one to be overloaded with.
pub open spec fn duty_is(board: Board, s: int, duty: Option<Square>) -> bool {
    match duty {
        Some(d) => d.valid() && sole_duty(board, s, d.0 as int),
        None => forall|d: int| !#[trigger] sole_duty(board, s, d),
    }
}

/// The sole defender of a square, if it has one to be overloaded with.
#[verifier::loop_isolation(false)]
fn sole_defender(board: &Board, sq: Square) -> (r: Option<Square>)
    requires
        board.wf(),
        sq.valid(),
    ensures
        duty_is(*board, sq.0 as int, r),
{
    if !board.is_color(sq, Color::Black) || !is_attacked_by(board, Color::White, sq) {
        return None;
    }
    let defenders = attackers(board, Color::Black, sq);
    let mut found: Option<Square> = None;
    let mut i: u8 = 0;
    while i < 64
        invariant
            i <= 64,
            match found {
                Some(d) => d.0 < i && board.attacks(d.0 as int, Color::Black, sq.0 as int) && forall|e: int|
                    0 <= e < i && #[trigger] board.attacks(e, Color::Black, sq.0 as int) ==> e == d.0,
                None => forall|e: int| 0 <= e < i ==> !#[trigger] board.attacks(e, Color::Black, sq.0 as int),
            },
        decreases 64 - i,
    {
        if defenders.contains(Square(i)) {
            match found {
                None => {
                    found = Some(Square(i));
                },
                Some(d) => {
                    assert(board.attacks(d.0 as int, Color::Black, sq.0 as int) && board.attacks(
                        i as int,
                        Color::Black,
                        sq.0 as int,
                    ));
                    return None;
                },
            }
        } else {
            assert(!bit(defenders.0, i as int));
        }
        i = i + 1;
    }
    found
}

/// A black piece that is the sole defender of two attacked black units.
#[verifier::loop_isolation(false)]
pub fn has_overload(pos: &Position) -> (r: bool)
    ensures
        r == overloaded(board_of(pos@)),
{
    let board = pos.board();
    let mut duties: Vec<Option<Square>> = Vec::new();
    let mut t: u8 = 0;
    while t < 64
        invariant
            t <= 64,
            duties@.len() == t,
            forall|s: int| 0 <= s < t ==> duty_is(board, s, #[trigger] duties@[s]),
            forall|a: int, b: int, d: int| 0 <= a < b < t && #[trigger] sole_duty(board, a, d) ==> !#[trigger] sole_duty(
                board,
                b,
                d,
            ),
        decreases 64 - t,
    {
        let duty = sole_defender(&board, Square(t));
        if let Some(d) = duty {
            let mut s: usize = 0;
            while s < duties.len()
                invariant
                    s <= duties.len(),
                    forall|a: int| 0 <= a < s ==> !#[trigger] sole_duty(board, a, d.0 as int),
                decreases duties.len() - s,
            {
                if let Some(e) = duties[s] {
                    if e == d {
                        assert(sole_duty(board, s as int, d.0 as int) && sole_duty(board, t as int, d.0 as int));
                        return true;
                    }
                    assert forall|x: int| sole_duty(board, s as int, x) implies x == e.0 by {
                        assert(board.attacks(e.0 as int, Color::Black, s as int));
                    }
                }
                s = s + 1;
            }
        }
        assert forall|a: int, b: int, d: int| 0 <= a < b < t + 1 && #[trigger] sole_duty(board, a, d) implies !(
        #[trigger] sole_duty(board, b, d)) by {
            if b == t && sole_duty(board, b, d) {
                assert(duty is Some);
                assert(board.attacks(d, Color::Black, b));
                assert(d == (duty->0).0);
            }
        }
        duties.push(duty);
        t = t + 1;
    }
    false
}

/// The black piece on `s` can go to `t` without being attacked there.
pub open spec fn escapes_to(board: Board, s: int, t: int) -> bool {
    hits(board, s, t) && !board.has_color(t, Color::Black) && !board.attacked(t, Color::White)
}

/// An attacked black piece, neither pawn nor king, has no safe square to run to.
pub open spec fn trapped_at(board: Board, s: int) -> bool {
    &&& board.has_color(s, Color::Black)
    &&& board.piece(s)->0.role != Role::Pawn
    &&& board.piece(s)->0.role != Role::King
    &&& board.attacked(s, Color::White)
    &&& forall|t: int| on_board(t) ==> !#[trigger] escapes_to(board, s, t)
}

pub open spec fn trap_present(board: Board) -> bool {
    exists|s: int| on_board(s) && #[trigger] trapped_at(board, s)
}

#[verifier::loop_isolation(false)]
fn is_trapped(board: &Board, sq: Square) -> (r: bool)
    requires
        board.wf(),
        sq.valid(),
    ensures
        r == trapped_at(*board, sq.0 as int),
{
    let piece = match board.piece_at(sq) {
        Some(p) => p,
        None => return false,
    };
    if piece.color != Color::Black || piece.role == Role::Pawn || piece.role == Role::King || !is_attacked_by(
        board,
        Color::White,
        sq,
    ) {
        return false;
    }
    let seen = attacks_from(board, sq);
    let mut t: u8 = 0;
    while t < 64
        invariant
            t <= 64,
            forall|u: int| 0 <= u < t ==> !#[trigger] escapes_to(*board, sq.0 as int, u),
        decreases 64 - t,
    {
        if seen.contains(Square(t)) && !board.is_color(Square(t), Color::Black) && !is_attacked_by(
            board,
            Color::White,
            Square(t),
        ) {
            assert(escapes_to(*board, sq.0 as int, t as int));
            return false;
        }
        t = t + 1;
    }
    true
}

/// An attacked black piece with no safe square to run to.
pub fn has_trapped(pos: &Position) -> (r: bool)
    ensures
        r == trap_present(board_of(pos@)),
{
    let board = pos.board();
    let mut i: u8 = 0;
    while i < 64
        invariant
            i <= 64,
            board.wf(),
            board == board_of(pos@),
            forall|s: int| 0 <= s < i ==> !#[trigger] trapped_at(board, s),
        decreases 64 - i,
    {
        if is_trapped(&board, Square(i)) {
            assert(trapped_at(board, i as int));
            return true;
        }
        i = i + 1;
    }
    false
}

/// White has a passed pawn.
pub open spec fn passer_present(board: Board) -> bool {
    exists|s: int| on_board(s) && #[trigger] passed(board, Color::White, s)
}

/// Does White have a passed pawn?
pub fn has_passer(pos: &Position) -> (r: bool)
    ensures
        r == passer_present(board_of(pos@)),
{
    let board = pos.board();
    let set = passed_pawns(&board, Color::White);
    let found = !set.is_empty();
    proof {
        if passer_present(board) {
            let s = choose|s: int| on_board(s) && #[trigger] passed(board, Color::White, s);
            assert(bit(set.0, s));
        }
    }
    found
}

/// White has a knight on an outpost.
pub open spec fn outpost_present(board: Board) -> bool {
    exists|s: int| on_board(s) && #[trigger] outpost(board, Color::White, s)
}

/// Does White have a knight on an outpost?
pub fn has_outpost(pos: &Position) -> (r: bool)
    ensures
        r == outpost_present(board_of(pos@)),
{
    let board = pos.board();
    let set = outposts(&board, Color::White);
    let found = !set.is_empty();
    proof {
        if outpost_present(board) {
            let s = choose|s: int| on_board(s) && #[trigger] outpost(board, Color::White, s);
            assert(bit(set.0, s));
        }
    }
    found
}

/// A white rook stands on a file without pawns.
pub open spec fn rook_on_open_file(board: Board) -> bool {
    exists|s: int| on_board(s) && #[trigger] board.holds(s, Color::White, Role::Rook) && file_open(board, spec_file(s))
}

/// Does a white rook stand on an open file?
pub fn has_openfile(pos: &Position) -> (r: bool)
    ensures
        r == rook_on_open_file(board_of(pos@)),
{
    let board = pos.board();
    let mut i: u8 = 0;
    while i < 64
        invariant
            i <= 64,
            board == board_of(pos@),
            forall|s: int| 0 <= s < i && #[trigger] board.holds(s, Color::White, Role::Rook) ==> !file_open(
                board,
                spec_file(s),
            ),
        decreases 64 - i,
    {
        if board.is_piece(Square(i), Color::White, Role::Rook) && is_open_file(&board, Square(i).file()) {
            assert(board.holds(i as int, Color::White, Role::Rook));
            return true;
        }
        i = i + 1;
    }
    false
}

/// The white pieces on two squares both slide along the line between them.
pub open spec fn same_line(board: Board, a: int, b: int) -> bool {
    let straight = |s: int| board.holds(s, Color::White, Role::Rook) || board.holds(s, Color::White, Role::Queen);
    let slanted = |s: int| board.holds(s, Color::White, Role::Bishop) || board.holds(s, Color::White, Role::Queen);
    ||| straight(a) && straight(b) && on_rank_or_file(a, b)
    ||| slanted(a) && slanted(b) && on_diagonal(a, b)
}

/// Two white sliders are stacked on one line, the first defending the second.
pub open spec fn battery_at(board: Board, a: int, b: int) -> bool {
    same_line(board, a, b) && board.attacks(a, Color::White, b)
}

pub open spec fn battery_present(board: Board) -> bool {
    exists|a: int, b: int| 0 <= a < b < 64 && #[trigger] battery_at(board, a, b)
}

fn is_battery(board: &Board, a: Square, b: Square) -> (r: bool)
    requires
        board.wf(),
        a.valid(),
        b.valid(),
        a != b,
    ensures
        r == battery_at(*board, a.0 as int, b.0 as int),
{
    let queen_a = board.is_piece(a, Color::White, Role::Queen);
    let queen_b = board.is_piece(b, Color::White, Role::Queen);
    let straight = (queen_a || board.is_piece(a, Color::White, Role::Rook)) && (queen_b || board.is_piece(
        b,
        Color::White,
        Role::Rook,
    ));
    let slanted = (queen_a || board.is_piece(a, Color::White, Role::Bishop)) && (queen_b || board.is_piece(
        b,
        Color::White,
        Role::Bishop,
    ));
    let lined = straight && (a.file() == b.file() || a.rank() == b.rank());
    let df: i32 = a.file() as i32 - b.file() as i32;
    let dr: i32 = a.rank() as i32 - b.rank() as i32;
    let crossed = slanted && (df == dr || df == -dr);
    (lined || crossed) && attackers(board, Color::White, b).contains(a)
}

/// Two white sliders stacked on the same line.
#[verifier::loop_isolation(false)]
pub fn has_battery(pos: &Position) -> (r: bool)
    ensures
        r == battery_present(board_of(pos@)),
{
    let board = pos.board();
    let mut a: u8 = 0;
    while a < 64
        invariant
            a <= 64,
            forall|x: int, y: int| 0 <= x < a && x < y < 64 ==> !#[trigger] battery_at(board, x, y),
        decreases 64 - a,
    {
        let mut b: u8 = a + 1;
        while b < 64
            invariant
                a < b <= 64,
                forall|y: int| a < y < b ==> !#[trigger] battery_at(board, a as int, y),
            decreases 64 - b,
        {
            if is_battery(&board, Square(a), Square(b)) {
                assert(battery_at(board, a as int, b as int));
                return true;
            }
            b = b + 1;
        }
        a = a + 1;
    }
    false
}

/// White attacks the square and it is the king's own or next to it.
pub open spec fn near_and_attacked(board: Board, k: int, s: int) -> bool {
    steps_apart(k, s) <= 1 && board.attacked(s, Color::White)
}

/// White attacks at least four squares of the zone of Black's king.
pub open spec fn king_under_attack(board: Board) -> bool {
    match board.king_square(Color::Black) {
        Some(k) => count_squares(|s: int| near_and_attacked(board, k, s)) >= 4,
        None => false,
    }
}

/// Does White attack at least four squares around Black's king?
pub fn has_kingattack(pos: &Position) -> (r: bool)
    ensures
        r == king_under_attack(board_of(pos@)),
{
    let board = pos.board();
    let king = match board.king_of(Color::Black) {
        Some(k) => k,
        None => return false,
    };
    let ghost p = |s: int| near_and_attacked(board, king.0 as int, s);
    let mut n: u32 = 0;
    let mut i: u8 = 0;
    while i < 64
        invariant
            i <= 64,
            n <= i,
            board.wf(),
            king.valid(),
            p == (|s: int| near_and_attacked(board, king.0 as int, s)),
            n == count_upto(p, i as int),
        decreases 64 - i,
    {
        if distance(king, Square(i)) <= 1 && is_attacked_by(&board, Color::White, Square(i)) {
            n = n + 1;
        }
        i = i + 1;
    }
    n >= 4
}

/// The square is a light one.
pub open spec fn is_light(s: int) -> bool {
    (spec_file(s) + spec_rank(s)) % 2 == 1
}

/// A white pawn stands on a square of the same colour as `b`.
pub open spec fn pawn_on_shade(board: Board, b: int, s: int) -> bool {
    board.holds(s, Color::White, Role::Pawn) && is_light(s) == is_light(b)
}

/// A white bishop shares its square colour with at least five white pawns.
pub open spec fn bad_bishop_at(board: Board, b: int) -> bool {
    board.holds(b, Color::White, Role::Bishop) && count_squares(|s: int| pawn_on_shade(board, b, s)) >= 5
}

pub open spec fn bad_bishop_present(board: Board) -> bool {
    exists|b: int| on_board(b) && #[trigger] bad_bishop_at(board, b)
}

fn light(sq: Square) -> (r: bool)
    ensures
        r == is_light(sq.0 as int),
{
    (sq.file() as u32 + sq.rank() as u32) % 2 == 1
}

fn is_bad_bishop(board: &Board, bishop: Square) -> (r: bool)
    requires
        bishop.valid(),
    ensures
        r == bad_bishop_at(*board, bishop.0 as int),
{
    if !board.is_piece(bishop, Color::White, Role::Bishop) {
        return false;
    }
    let ghost p = |s: int| pawn_on_shade(*board, bishop.0 as int, s);
    let mut n: u32 = 0;
    let mut i: u8 = 0;
    while i < 64
        invariant
            i <= 64,
            n <= i,
            p == (|s: int| pawn_on_shade(*board, bishop.0 as int, s)),
            n == count_upto(p, i as int),
        decreases 64 - i,
    {
        if board.is_piece(Square(i), Color::White, Role::Pawn) && light(Square(i)) == light(bishop) {
            n = n + 1;
        }
        i = i + 1;
    }
    n >= 5
}

/// Does White have a bishop hemmed in by its own pawns?
pub fn has_badbishop(pos: &Position) -> (r: bool)
    ensures
        r == bad_bishop_present(board_of(pos@)),
{
    let board = pos.board();
    let mut i: u8 = 0;
    while i < 64
        invariant
            i <= 64,
            board == board_of(pos@),
            forall|b: int| 0 <= b < i ==> !#[trigger] bad_bishop_at(board, b),
        decreases 64 - i,
    {
        if is_bad_bishop(&board, Square(i)) {
            assert(bad_bishop_at(board, i as int));
            return true;
        }
        i = i + 1;
    }
    false
}

/// Some file holds two white pawns.
pub open spec fn doubled_present(board: Board) -> bool {
    exists|s: int| on_board(s) && #[trigger] doubled(board, Color::White, s)
}

/// Does some file hold two white pawns?
pub fn has_doubled(pos: &Position) -> (r: bool)
    ensures
        r == doubled_present(board_of(pos@)),
{
    let board = pos.board();
    let set = doubled_pawns(&board, Color::White);
    let found = !set.is_empty();
    proof {
        if doubled_present(board) {
            let s = choose|s: int| on_board(s) && #[trigger] doubled(board, Color::White, s);
            assert(bit(set.0, s));
        }
    }
    found
}

/// White has an isolated pawn.
pub open spec fn isolated_present(board: Board) -> bool {
    exists|s: int| on_board(s) && #[trigger] isolated(board, Color::White, s)
}

/// Does White have an isolated pawn?
pub fn has_isolated(pos: &Position) -> (r: bool)
    ensures
        r == isolated_present(board_of(pos@)),
{
    let board = pos.board();
    let set = isolated_pawns(&board, Color::White);
    let found = !set.is_empty();
    proof {
        if isolated_present(board) {
            let s = choose|s: int| on_board(s) && #[trigger] isolated(board, Color::White, s);
            assert(bit(set.0, s));
        }
    }
    found
}

/// A white pawn stands on the fourth rank or beyond.
pub open spec fn advanced_white(board: Board, s: int) -> bool {
    board.holds(s, Color::White, Role::Pawn) && spec_rank(s) >= 3
}

/// A black pawn stands on the fifth rank or below.
pub open spec fn advanced_black(board: Board, s: int) -> bool {
    board.holds(s, Color::Black, Role::Pawn) && spec_rank(s) <= 4
}

/// White has at least two advanced pawns more than Black.
pub open spec fn space_advantage(board: Board) -> bool {
    count_squares(|s: int| advanced_white(board, s)) >= count_squares(|s: int| advanced_black(board, s)) + 2
}

/// Does White have at least two advanced pawns more than Black?
pub fn has_space(pos: &Position) -> (r: bool)
    ensures
        r == space_advantage(board_of(pos@)),
{
    let board = pos.board();
    let ghost p = |s: int| advanced_white(board, s);
    let ghost q = |s: int| advanced_black(board, s);
    let mut ours: u32 = 0;
    let mut theirs: u32 = 0;
    let mut i: u8 = 0;
    while i < 64
        invariant
            i <= 64,
            ours <= i,
            theirs <= i,
            p == (|s: int| advanced_white(board, s)),
            q == (|s: int| advanced_black(board, s)),
            ours == count_upto(p, i as int),
            theirs == count_upto(q, i as int),
        decreases 64 - i,
    {
        if board.is_piece(Square(i), Color::White, Role::Pawn) && Square(i).rank() >= 3 {
            ours = ours + 1;
        }
        if board.is_piece(Square(i), Color::Black, Role::Pawn) && Square(i).rank() <= 4 {
            theirs = theirs + 1;
        }
        i = i + 1;
    }
    ours >= theirs + 2
}

/// Does the motif with this place among the motif tokens fire? The first two
/// tokens stand for no motif and for quiet, and have no detector.
pub open spec fn fires(m: int, fen: Seq<char>) -> bool {
    let board = board_of(fen);
    if m == 2 {
        mate_in_1(fen)
    } else if m == 3 {
        check_possible(fen)
    } else if m == 4 {
        capture_possible(fen)
    } else if m == 5 {
        something_hangs(board)
    } else if m == 6 {
        fork_possible(fen)
    } else if m == 7 {
        pin_present(board)
    } else if m == 8 {
        skewer_present(board)
    } else if m == 9 {
        discovery_possible(fen)
    } else if m == 10 {
        backrank_weak(board)
    } else if m == 11 {
        on_seventh(board, Role::Pawn)
    } else if m == 12 {
        overloaded(board)
    } else if m == 13 {
        trap_present(board)
    } else if m == 14 {
        passer_present(board)
    } else if m == 15 {
        outpost_present(board)
    } else if m == 16 {
        on_seventh(board, Role::Rook)
    } else if m == 17 {
        rook_on_open_file(board)
    } else if m == 18 {
        battery_present(board)
    } else if m == 19 {
        king_under_attack(board)
    } else if m == 20 {
        bad_bishop_present(board)
    } else if m == 21 {
        doubled_present(board)
    } else if m == 22 {
        isolated_present(board)
    } else {
        space_advantage(board)
    }
}

/// The motif token with this place has a detector.
pub open spec fn has_detector(m: int) -> bool {
    2 <= m < 24
}

fn detect_at(m: usize, pos: &Position) -> (r: bool)
    requires
        has_detector(m as int),
    ensures
        r == fires(m as int, pos@),
{
    match m {
        2 => has_mate_in_1(pos),
        3 => has_check(pos),
        4 => has_capture(pos),
        5 => has_hanging(pos),
        6 => has_fork(pos),
        7 => has_pin(pos),
        8 => has_skewer(pos),
        9 => has_discovery(pos),
        10 => has_backrank(pos),
        11 => has_promotion(pos),
        12 => has_overload(pos),
        13 => has_trapped(pos),
        14 => has_passer(pos),
        15 => has_outpost(pos),
        16 => has_rook7th(pos),
        17 => has_openfile(pos),
        18 => has_battery(pos),
        19 => has_kingattack(pos),
        20 => has_badbishop(pos),
        21 => has_doubled(pos),
        22 => has_isolated(pos),
        _ => has_space(pos),
    }
}

/// Run one detector by name. This mapping *is* the validation oracle. A word
/// without a detector is left out.
pub fn detect(motif: &str, pos: &Position) -> (r: bool)
    requires
        exists|m: int| has_detector(m) && #[trigger] MOTIF_TOKENS[m]@ == motif@,
    ensures
        forall|m: int| has_detector(m) && #[trigger] MOTIF_TOKENS[m]@ == motif@ ==> r == fires(m, pos@),
{
    let mut m: usize = 2;
    loop
        invariant
            2 <= m < 24,
            exists|m: int| has_detector(m) && #[trigger] MOTIF_TOKENS[m]@ == motif@,
            forall|j: int| 2 <= j < m ==> #[trigger] MOTIF_TOKENS[j]@ != motif@,
        decreases 24 - m,
    {
        if same_text(MOTIF_TOKENS[m], motif) {
            assert forall|j: int| has_detector(j) && #[trigger] MOTIF_TOKENS[j]@ == motif@ implies j == m by {
                law_tokens_are_distinct(151 + j, 151 + m as int);
            }
            return detect_at(m, pos);
        }
        assert(m < 23) by {
            let k = choose|k: int| has_detector(k) && #[trigger] MOTIF_TOKENS[k]@ == motif@;
            assert(k != m);
        }
        m = m + 1;
    }
}

/// The places of the motif tokens in the order they are worth naming.
pub const PRIORITY_PLACES: [usize; 22] = [
    2, 6, 8, 9, 10, 13, 12, 7, 5, 11, 14, 16, 15, 18, 19, 17, 3, 4, 20, 22, 21, 23,
];

/// The two tables of priorities name the same motifs.
proof fn lemma_priority(k: int)
    requires
        0 <= k < 22,
    ensures
        has_detector(PRIORITY_PLACES[k] as int),
        MOTIF_PRIORITY[k]@ == MOTIF_TOKENS[PRIORITY_PLACES[k] as int]@,
{
}

/// The places of the motifs that fire among the first `n` in priority order.
pub open spec fn firing(fen: Seq<char>, n: int) -> Seq<int>
    decreases n,
{
    if n <= 0 {
        Seq::empty()
    } else if fires(PRIORITY_PLACES[n - 1] as int, fen) {
        firing(fen, n - 1).push(PRIORITY_PLACES[n - 1] as int)
    } else {
        firing(fen, n - 1)
    }
}

/// Every motif that can be named has a detector that is run: it has a place in the
/// order of priority.
pub proof fn law_every_motif_has_a_detector(m: int)
    requires
        has_detector(m),
    ensures
        exists|k: int| 0 <= k < 22 && #[trigger] PRIORITY_PLACES[k] == m && MOTIF_PRIORITY[k]@ == MOTIF_TOKENS[m]@,
{
    assert(PRIORITY_PLACES[0] == 2 && PRIORITY_PLACES[1] == 6 && PRIORITY_PLACES[2] == 8 && PRIORITY_PLACES[3] == 9
        && PRIORITY_PLACES[4] == 10 && PRIORITY_PLACES[5] == 13 && PRIORITY_PLACES[6] == 12 && PRIORITY_PLACES[7]
        == 7 && PRIORITY_PLACES[8] == 5 && PRIORITY_PLACES[9] == 11 && PRIORITY_PLACES[10] == 14
        && PRIORITY_PLACES[11] == 16 && PRIORITY_PLACES[12] == 15 && PRIORITY_PLACES[13] == 18
        && PRIORITY_PLACES[14] == 19 && PRIORITY_PLACES[15] == 17 && PRIORITY_PLACES[16] == 3
        && PRIORITY_PLACES[17] == 4 && PRIORITY_PLACES[18] == 20 && PRIORITY_PLACES[19] == 22
        && PRIORITY_PLACES[20] == 21 && PRIORITY_PLACES[21] == 23);
    let k = choose|k: int| 0 <= k < 22 && #[trigger] PRIORITY_PLACES[k] == m;
    lemma_priority(k);
}

/// Every motif that fires is listed, and no other.
pub proof fn law_motifs_are_those_that_fire(fen: Seq<char>, m: int)
    requires
        has_detector(m),
    ensures
        firing(fen, 22).contains(m) <==> fires(m, fen),
{
    lemma_firing(fen, 22);
    law_every_motif_has_a_detector(m);
}

pub proof fn lemma_firing(fen: Seq<char>, n: int)
    requires
        n <= 22,
    ensures
        forall|i: int| 0 <= i < firing(fen, n).len() ==> has_detector(#[trigger] firing(fen, n)[i]) && fires(
            firing(fen, n)[i],
            fen,
        ),
        forall|k: int| 0 <= k < n && fires(#[trigger] PRIORITY_PLACES[k] as int, fen) ==> firing(fen, n).contains(
            PRIORITY_PLACES[k] as int,
        ),
    decreases n,
{
    if n > 0 {
        lemma_firing(fen, n - 1);
        lemma_priority(n - 1);
        let (shorter, whole) = (firing(fen, n - 1), firing(fen, n));
        assert forall|k: int| 0 <= k < n && fires(#[trigger] PRIORITY_PLACES[k] as int, fen) implies whole.contains(
            PRIORITY_PLACES[k] as int,
        ) by {
            if k == n - 1 {
                assert(whole[whole.len() - 1] == PRIORITY_PLACES[k]);
            } else {
                let i = shorter.index_of(PRIORITY_PLACES[k] as int);
                assert(whole[i] == PRIORITY_PLACES[k]);
            }
        }
    }
}

/// The words are the motif tokens with these places.
pub open spec fn names_motifs(words: Seq<&'static str>, places: Seq<int>) -> bool {
    words.len() == places.len() && forall|i: int| 0 <= i < words.len() ==> (#[trigger] words[i])@
        == MOTIF_TOKENS[places[i]]@
}

/// Every motif that fires, in priority order.
pub fn detect_motifs(pos: &Position) -> (r: Vec<&'static str>)
    ensures
        names_motifs(r@, firing(pos@, 22)),
{
    let mut out: Vec<&'static str> = Vec::new();
    let mut k: usize = 0;
    while k < 22
        invariant
            k <= 22,
            names_motifs(out@, firing(pos@, k as int)),
        decreases 22 - k,
    {
        proof {
            lemma_priority(k as int);
        }
        if detect(MOTIF_PRIORITY[k], pos) {
            out.push(MOTIF_PRIORITY[k]);
        }
        k = k + 1;
    }
    out
}

/// The places of the three motif tokens that a trace names: the first that fire,
/// or quiet if none does, padded with none.
pub open spec fn tag_place(found: Seq<int>, i: int) -> int {
    if i < found.len() {
        found[i]
    } else if i == 0 {
        1
    } else {
        0
    }
}

/// The motifs a trace names, padded with `mo:none`.
pub fn motif_tags(pos: &Position) -> (r: Vec<&'static str>)
    ensures
        r@.len() == N_MOTIF_SLOTS,
        forall|i: int| 0 <= i < N_MOTIF_SLOTS ==> (#[trigger] r@[i])@ == MOTIF_TOKENS[tag_place(
            firing(pos@, 22),
            i,
        )]@,
{
    let found = detect_motifs(pos);
    let mut out: Vec<&'static str> = Vec::new();
    let mut i: usize = 0;
    while i < N_MOTIF_SLOTS
        invariant
            i <= N_MOTIF_SLOTS,
            names_motifs(found@, firing(pos@, 22)),
            out@.len() == i,
            forall|j: int| 0 <= j < i ==> (#[trigger] out@[j])@ == MOTIF_TOKENS[tag_place(firing(pos@, 22), j)]@,
        decreases N_MOTIF_SLOTS - i,
    {
        if i < found.len() {
            out.push(found[i]);
        } else if i == 0 {
            out.push("mo:quiet");
        } else {
            out.push("mo:none");
        }
        i = i + 1;
    }
    out
}

} // verus!
