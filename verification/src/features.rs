//! Position features: attacks, material, king safety, pawn structure, plans.
//!
//! Material is counted in quarter pawns, in which every piece value and every
//! threshold is a whole number.

use vstd::prelude::*;

use crate::chess::{
    abs, bit, on_board, reaches, spec_file, spec_rank, steps_apart, Bitboard, Board, Color, Role, Square,
};
use crate::rules::{attacks_from_bits, attacks_to_bits, state, Position, Setup};
use crate::sums::{
    count_bits, count_squares, count_upto, lemma_count_ext, list_upto, one_if, squares_where, sum_squares, sum_upto,
};
use crate::text::same_text;
use crate::vocab::{KSAFE_TOKENS, MAT_EDGES, PHASE_TOKENS, PLAN_TOKENS};

verus! {

pub open spec fn role_value(role: Role) -> int {
    match role {
        Role::Pawn => 4,
        Role::Knight => 12,
        Role::Bishop => 13,
        Role::Rook => 20,
        Role::Queen => 36,
        Role::King => 0,
    }
}

/// Values for tactical comparisons, where the king outranks everything.
pub open spec fn tactical(role: Role) -> int {
    if role == Role::King {
        400
    } else {
        role_value(role)
    }
}

/// Material values in quarter pawns. The king is priced at zero so it does not
/// distort a material count.
pub fn piece_value(role: Role) -> (r: i32)
    ensures
        r == role_value(role),
{
    match role {
        Role::Pawn => 4,
        Role::Knight => 12,
        Role::Bishop => 13,
        Role::Rook => 20,
        Role::Queen => 36,
        Role::King => 0,
    }
}

/// Values for tactical comparisons in quarter pawns. The king must outrank
/// everything: a defended piece attacked only by the enemy king is not hanging.
pub fn tactical_value(role: Role) -> (r: i32)
    ensures
        r == tactical(role),
{
    match role {
        Role::King => 400,
        _ => piece_value(role),
    }
}

/// The pieces of `color` that attack a square.
pub fn attackers(board: &Board, color: Color, sq: Square) -> (r: Bitboard)
    requires
        board.wf(),
        sq.valid(),
    ensures
        forall|i: int| #![trigger bit(r.0, i)] on_board(i) ==> bit(r.0, i) == board.attacks(i, color, sq.0 as int),
{
    Bitboard(attacks_to_bits(board, sq.0, color, board.occupied().0))
}

/// Does any piece of `color` attack a square?
pub fn is_attacked_by(board: &Board, color: Color, sq: Square) -> (r: bool)
    requires
        board.wf(),
        sq.valid(),
    ensures
        r == board.attacked(sq.0 as int, color),
{
    let set = attackers(board, color, sq);
    proof {
        if board.attacked(sq.0 as int, color) {
            let from = choose|from: int| on_board(from) && #[trigger] board.attacks(from, color, sq.0 as int);
            assert(bit(set.0, from));
        }
    }
    !set.is_empty()
}

/// The squares with a piece of this role and colour.
pub fn pieces(board: &Board, role: Role, color: Color) -> (r: Bitboard)
    requires
        board.wf(),
    ensures
        forall|i: int| #![trigger bit(r.0, i)] on_board(i) ==> bit(r.0, i) == board.holds(i, color, role),
{
    board.by_piece(color, role)
}

/// Does the piece on `from`, whatever it is, attack `to`?
pub open spec fn hits(board: Board, from: int, to: int) -> bool {
    board.piece(from) is Some && reaches(board.piece(from)->0, from, to, board.occupied_bits())
}

/// Attacks of whatever piece stands on `sq`, empty if the square is empty.
pub fn attacks_from(board: &Board, sq: Square) -> (r: Bitboard)
    requires
        sq.valid(),
    ensures
        forall|i: int| #![trigger bit(r.0, i)] on_board(i) ==> bit(r.0, i) == hits(*board, sq.0 as int, i),
{
    match board.piece_at(sq) {
        Some(piece) => Bitboard(attacks_from_bits(piece, sq.0, board.occupied().0)),
        None => Bitboard::empty(),
    }
}

/// Lifting the piece on `s` off the board lets an enemy piece through to the
/// king of `color`.
pub open spec fn pinned(board: Board, color: Color, s: int) -> bool {
    let lifted = board.occupied_bits() & !(1u64 << (s as u64));
    match board.king_square(color) {
        Some(king) => king != s && exists|from: int| on_board(from)
            && #[trigger] board.attacks_with(from, color.opponent(), king, lifted)
            && !board.attacks(from, color.opponent(), king),
        None => false,
    }
}

/// Is the piece on `sq` pinned against its own king?
///
/// A reveal test: lift the piece and see whether a new enemy attacker of the
/// king appears. Only a sole blocker on the ray can do that.
pub fn is_pinned(board: &Board, color: Color, sq: Square) -> (r: bool)
    requires
        board.wf(),
        sq.valid(),
    ensures
        r == pinned(*board, color, sq.0 as int),
{
    let king = match board.king_of(color) {
        Some(k) => k,
        None => return false,
    };
    if king == sq {
        return false;
    }
    let occupied = board.occupied();
    let lifted = occupied.0 & !(1u64 << (sq.0 as u64));
    let before = Bitboard(attacks_to_bits(board, king.0, color.other(), occupied.0));
    let after = Bitboard(attacks_to_bits(board, king.0, color.other(), lifted));
    let fresh = after.without(before);
    proof {
        let k = king.0 as int;
        if exists|from: int| on_board(from) && #[trigger] board.attacks_with(from, color.opponent(), k, lifted)
            && !board.attacks(from, color.opponent(), k) {
            let from = choose|from: int| on_board(from)
                && #[trigger] board.attacks_with(from, color.opponent(), k, lifted)
                && !board.attacks(from, color.opponent(), k);
            assert(bit(fresh.0, from));
        }
    }
    !fresh.is_empty()
}

/// What the piece on a square adds to White's material.
pub open spec fn signed_value(board: Board, s: int) -> int {
    match board.piece(s) {
        Some(p) => if p.color == Color::White {
            role_value(p.role)
        } else {
            -role_value(p.role)
        },
        None => 0,
    }
}

/// White's material less Black's, in quarter pawns.
pub open spec fn balance_of(board: Board) -> int {
    sum_squares(|s: int| signed_value(board, s))
}

/// Material in quarter pawns, positive when White is ahead.
pub fn material_balance(board: &Board) -> (r: i32)
    ensures
        r == balance_of(*board),
        -2304 <= r <= 2304,
{
    let ghost f = |s: int| signed_value(*board, s);
    let mut total: i32 = 0;
    let mut i: u8 = 0;
    while i < 64
        invariant
            i <= 64,
            f == (|s: int| signed_value(*board, s)),
            total == sum_upto(f, i as int),
            -36 * i <= total <= 36 * i,
        decreases 64 - i,
    {
        assert(f(i as int) == signed_value(*board, i as int));
        if let Some(piece) = board.piece_at(Square(i)) {
            let value: i32 = piece_value(piece.role);
            total = if piece.color == Color::White {
                total + value
            } else {
                total - value
            };
        }
        i = i + 1;
    }
    total
}

/// How many of the first `n` bucket edges a balance has reached.
pub open spec fn edges_reached(balance: int, n: int) -> int
    decreases n,
{
    if n <= 0 {
        0
    } else {
        edges_reached(balance, n - 1) + one_if(balance >= MAT_EDGES[n - 1])
    }
}

/// The material bucket of a balance in quarter pawns: how many edges it has
/// reached.
pub fn material_bucket(balance: i32) -> (r: usize)
    ensures
        r == edges_reached(balance as int, 8),
        r <= 8,
{
    let mut n: usize = 0;
    let mut i: usize = 0;
    while i < 8
        invariant
            i <= 8,
            n <= i,
            n == edges_reached(balance as int, i as int),
        decreases 8 - i,
    {
        if balance >= MAT_EDGES[i] {
            n = n + 1;
        }
        i = i + 1;
    }
    n
}

/// What the piece on a square adds to the material that is neither pawn nor king.
pub open spec fn non_pawn_value(board: Board, s: int) -> int {
    match board.piece(s) {
        Some(p) => if p.role == Role::Pawn || p.role == Role::King {
            0
        } else {
            role_value(p.role)
        },
        None => 0,
    }
}

/// The phase of the game: 0 for the opening, 1 for the middle game, 2 for the
/// end game.
pub open spec fn phase_index(board: Board) -> int {
    let total = sum_squares(|s: int| non_pawn_value(board, s));
    if total >= 220 {
        0
    } else if total >= 88 {
        1
    } else {
        2
    }
}

/// The token for the phase of the game.
pub fn phase(board: &Board) -> (r: &'static str)
    ensures
        0 <= phase_index(*board) < 3,
        r@ == PHASE_TOKENS[phase_index(*board)]@,
{
    let ghost f = |s: int| non_pawn_value(*board, s);
    let mut total: i32 = 0;
    let mut i: u8 = 0;
    while i < 64
        invariant
            i <= 64,
            f == (|s: int| non_pawn_value(*board, s)),
            total == sum_upto(f, i as int),
            0 <= total <= 36 * i,
        decreases 64 - i,
    {
        assert(f(i as int) == non_pawn_value(*board, i as int));
        if let Some(piece) = board.piece_at(Square(i)) {
            if piece.role != Role::Pawn && piece.role != Role::King {
                total = total + piece_value(piece.role);
            }
        }
        i = i + 1;
    }
    if total >= 220 {
        PHASE_TOKENS[0]
    } else if total >= 88 {
        PHASE_TOKENS[1]
    } else {
        PHASE_TOKENS[2]
    }
}

/// A pawn of `color` stands in front of the king on `k`, on its file or beside.
pub open spec fn shields(board: Board, color: Color, k: int, s: int) -> bool {
    &&& board.holds(s, color, Role::Pawn)
    &&& spec_rank(s) == spec_rank(k) + color.forward()
    &&& abs(spec_file(s) - spec_file(k)) <= 1
}

/// The square lies within two steps of the king on `k` and the enemy attacks it.
pub open spec fn endangers(board: Board, color: Color, k: int, s: int) -> bool {
    steps_apart(k, s) <= 2 && board.attacked(s, color.opponent())
}

/// No pawn of `color` stands on a file.
pub open spec fn file_without(board: Board, color: Color, file: int) -> bool {
    forall|s: int| on_board(s) && spec_file(s) == file ==> !#[trigger] board.holds(s, color, Role::Pawn)
}

/// How unsafe the king on `k` is: the attacked squares around it, less three for
/// each shielding pawn, plus three if no own pawn is on its file.
pub open spec fn king_danger(board: Board, color: Color, k: int) -> int {
    count_squares(|s: int| endangers(board, color, k, s)) - 3 * count_squares(
        |s: int| shields(board, color, k, s),
    ) + (if file_without(board, color, spec_file(k)) {
        3int
    } else {
        0
    })
}

/// The king safety level: 0 is safe, 3 is exposed.
pub open spec fn safety_index(board: Board, color: Color) -> int {
    match board.king_square(color) {
        Some(k) => {
            let danger = king_danger(board, color, k);
            if danger <= 0 {
                0
            } else if danger <= 5 {
                1
            } else if danger <= 10 {
                2
            } else {
                3
            }
        },
        None => 3,
    }
}

fn file_distance(a: Square, b: Square) -> (r: u8)
    ensures
        r == abs(spec_file(a.0 as int) - spec_file(b.0 as int)),
        r < 8,
{
    if a.file() > b.file() {
        a.file() - b.file()
    } else {
        b.file() - a.file()
    }
}

fn rank_distance(a: Square, b: Square) -> (r: u8)
    requires
        a.valid(),
        b.valid(),
    ensures
        r == abs(spec_rank(a.0 as int) - spec_rank(b.0 as int)),
        r < 8,
{
    if a.rank() > b.rank() {
        a.rank() - b.rank()
    } else {
        b.rank() - a.rank()
    }
}

/// How many king steps apart two squares are.
pub fn distance(a: Square, b: Square) -> (r: u8)
    requires
        a.valid(),
        b.valid(),
    ensures
        r == steps_apart(a.0 as int, b.0 as int),
        r < 8,
{
    let (df, dr) = (file_distance(a, b), rank_distance(a, b));
    if df > dr {
        df
    } else {
        dr
    }
}

/// The safety level of a side's king: 0 is safe, 3 is exposed.
pub fn safety_level(board: &Board, color: Color) -> (r: usize)
    requires
        board.wf(),
    ensures
        r == safety_index(*board, color),
        r < 4,
{
    let king = match board.king_of(color) {
        Some(k) => k,
        None => return 3,
    };
    let ghost k = king.0 as int;
    let ghost danger_at = |s: int| endangers(*board, color, k, s);
    let ghost shield_at = |s: int| shields(*board, color, k, s);
    let forward: i32 = match color {
        Color::White => 1,
        Color::Black => -1,
    };
    let mut danger: i32 = 0;
    let mut shield: i32 = 0;
    let mut open_file = true;
    let mut i: u8 = 0;
    while i < 64
        invariant
            i <= 64,
            board.wf(),
            king.valid(),
            k == king.0,
            forward == color.forward(),
            danger_at == (|s: int| endangers(*board, color, k, s)),
            shield_at == (|s: int| shields(*board, color, k, s)),
            danger == count_upto(danger_at, i as int),
            shield == count_upto(shield_at, i as int),
            0 <= danger <= i,
            0 <= shield <= i,
            open_file == (forall|s: int| 0 <= s < i && spec_file(s) == spec_file(k)
                ==> !#[trigger] board.holds(s, color, Role::Pawn)),
        decreases 64 - i,
    {
        let sq = Square(i);
        if distance(king, sq) <= 2 && is_attacked_by(board, color.other(), sq) {
            danger = danger + 1;
        }
        if board.is_piece(sq, color, Role::Pawn) {
            if sq.rank() as i32 == king.rank() as i32 + forward && file_distance(sq, king) <= 1 {
                shield = shield + 1;
            }
            if sq.file() == king.file() {
                open_file = false;
            }
        }
        i = i + 1;
    }
    let score: i32 = danger - 3 * shield + if open_file {
        3
    } else {
        0
    };
    if score <= 0 {
        0
    } else if score <= 5 {
        1
    } else if score <= 10 {
        2
    } else {
        3
    }
}

/// The token for the safety of a side's king.
pub fn king_safety(board: &Board, color: Color) -> (r: &'static str)
    requires
        board.wf(),
    ensures
        0 <= safety_index(*board, color) < 4,
        r@ == KSAFE_TOKENS[safety_index(*board, color)]@,
{
    KSAFE_TOKENS[safety_level(board, color)]
}

/// Some attacker of the square is worth less, by more than half a pawn, than the
/// piece on it.
pub open spec fn cheaply_attacked(board: Board, color: Color, s: int) -> bool {
    exists|a: int| on_board(a) && #[trigger] board.attacks(a, color.opponent(), s)
        && tactical(board.piece(a)->0.role) + 2 < role_value(board.piece(s)->0.role)
}

/// The piece of `color` on `s` is attacked and not adequately defended: nothing
/// defends it, or something much cheaper attacks it.
pub open spec fn hanging(board: Board, color: Color, s: int) -> bool {
    &&& board.has_color(s, color)
    &&& board.piece(s)->0.role != Role::King
    &&& board.attacked(s, color.opponent())
    &&& !board.attacked(s, color) || cheaply_attacked(board, color, s)
}

#[verifier::loop_isolation(false)]
fn is_hanging(board: &Board, color: Color, sq: Square) -> (r: bool)
    requires
        board.wf(),
        sq.valid(),
    ensures
        r == hanging(*board, color, sq.0 as int),
{
    let piece = match board.piece_at(sq) {
        Some(p) => p,
        None => return false,
    };
    if piece.color != color || piece.role == Role::King || !is_attacked_by(board, color.other(), sq) {
        return false;
    }
    if !is_attacked_by(board, color, sq) {
        return true;
    }
    let attacking = attackers(board, color.other(), sq);
    let mut a: u8 = 0;
    while a < 64
        invariant
            a <= 64,
            sq.valid(),
            board.piece(sq.0 as int) == Some(piece),
            forall|i: int| #![trigger bit(attacking.0, i)]
                on_board(i) ==> bit(attacking.0, i) == board.attacks(i, color.opponent(), sq.0 as int),
            forall|i: int| 0 <= i < a && #[trigger] board.attacks(i, color.opponent(), sq.0 as int)
                ==> tactical(board.piece(i)->0.role) + 2 >= role_value(piece.role),
        decreases 64 - a,
    {
        if attacking.contains(Square(a)) {
            if let Some(attacker) = board.piece_at(Square(a)) {
                if tactical_value(attacker.role) + 2 < piece_value(piece.role) {
                    assert(board.attacks(a as int, color.opponent(), sq.0 as int));
                    return true;
                }
            }
        }
        a = a + 1;
    }
    false
}

/// Squares holding pieces of `color` that are attacked and not adequately
/// defended, in ascending order.
pub fn hanging_pieces(board: &Board, color: Color) -> (r: Vec<Square>)
    requires
        board.wf(),
    ensures
        r@ == squares_where(|s: int| hanging(*board, color, s)),
{
    let ghost p = |s: int| hanging(*board, color, s);
    let mut out: Vec<Square> = Vec::new();
    let mut i: u8 = 0;
    while i < 64
        invariant
            i <= 64,
            board.wf(),
            p == (|s: int| hanging(*board, color, s)),
            out@ == list_upto(p, i as int),
        decreases 64 - i,
    {
        if is_hanging(board, color, Square(i)) {
            out.push(Square(i));
        }
        i = i + 1;
    }
    out
}

/// A white knight or bishop stands on one of the squares b1, c1, f1, g1.
pub open spec fn undeveloped(board: Board, s: int) -> bool {
    (s == 1 || s == 2 || s == 5 || s == 6) && (board.holds(s, Color::White, Role::Knight) || board.holds(
        s,
        Color::White,
        Role::Bishop,
    ))
}

/// Two white rooks protect each other.
pub open spec fn rooks_connected(board: Board) -> bool {
    exists|a: int, b: int| on_board(a) && on_board(b) && board.holds(a, Color::White, Role::Rook)
        && board.holds(b, Color::White, Role::Rook) && #[trigger] hits(board, a, b)
}

/// Which of the plans fits a position with White to move, as an index into the
/// plan tokens.
pub open spec fn plan_index(s: Setup, balance: int, phase_token: Seq<char>, threats: int) -> int {
    let board = s.board;
    if s.in_check() || threats >= 2 {
        7
    } else if phase_token == PHASE_TOKENS[2]@ {
        if balance >= 8 {
            8
        } else if exists|q: int| on_board(q) && #[trigger] board.holds(q, Color::White, Role::Pawn) {
            5
        } else {
            9
        }
    } else if (bit(s.castling, 7) || bit(s.castling, 0)) && safety_index(board, Color::White) != 0 {
        1
    } else if phase_token == PHASE_TOKENS[0]@ && count_squares(|q: int| undeveloped(board, q)) >= 2 {
        0
    } else if safety_index(board, Color::Black) >= 2 {
        3
    } else if balance >= 6 {
        4
    } else if count_squares(|q: int| board.holds(q, Color::White, Role::Rook)) >= 2 && !rooks_connected(board) {
        6
    } else if balance <= -6 {
        9
    } else {
        2
    }
}

fn undeveloped_minors(board: &Board) -> (r: u32)
    requires
        board.wf(),
    ensures
        r == count_squares(|q: int| undeveloped(*board, q)),
{
    let ghost p = |q: int| undeveloped(*board, q);
    let mut n: u32 = 0;
    let mut i: u8 = 0;
    while i < 64
        invariant
            i <= 64,
            n <= i,
            p == (|q: int| undeveloped(*board, q)),
            n == count_upto(p, i as int),
        decreases 64 - i,
    {
        let sq = Square(i);
        if (i == 1 || i == 2 || i == 5 || i == 6) && (board.is_piece(sq, Color::White, Role::Knight)
            || board.is_piece(sq, Color::White, Role::Bishop)) {
            n = n + 1;
        }
        i = i + 1;
    }
    n
}

#[verifier::loop_isolation(false)]
fn are_rooks_connected(board: &Board) -> (r: bool)
    requires
        board.wf(),
    ensures
        r == rooks_connected(*board),
{
    let rooks = pieces(board, Role::Rook, Color::White);
    let mut i: u8 = 0;
    while i < 64
        invariant
            i <= 64,
            forall|a: int, b: int| 0 <= a < i && on_board(b) && board.holds(a, Color::White, Role::Rook)
                && board.holds(b, Color::White, Role::Rook) ==> !#[trigger] hits(*board, a, b),
        decreases 64 - i,
    {
        if rooks.contains(Square(i)) {
            let seen = attacks_from(board, Square(i)).intersect(rooks);
            if !seen.is_empty() {
                proof {
                    let b = choose|b: int| on_board(b) && #[trigger] bit(seen.0, b);
                    assert(bit(rooks.0, b) && bit(rooks.0, i as int));
                    assert(hits(*board, i as int, b));
                }
                return true;
            }
            assert forall|b: int| on_board(b) && board.holds(b, Color::White, Role::Rook) implies !#[trigger] hits(
                *board,
                i as int,
                b,
            ) by {
                assert(!bit(seen.0, b));
                assert(bit(rooks.0, b));
            }
        } else {
            assert(!bit(rooks.0, i as int));
        }
        i = i + 1;
    }
    false
}

/// The plan that fits a position with White to move.
pub fn plan(pos: &Position, balance: i32, phase_token: &str, threats: usize) -> (r: &'static str)
    ensures
        0 <= plan_index(state(pos@), balance as int, phase_token@, threats as int) < 10,
        r@ == PLAN_TOKENS[plan_index(state(pos@), balance as int, phase_token@, threats as int)]@,
{
    let setup = pos.setup();
    let board = setup.board;
    if pos.is_check() || threats >= 2 {
        return PLAN_TOKENS[7];
    }
    if same_text(phase_token, PHASE_TOKENS[2]) {
        if balance >= 8 {
            return PLAN_TOKENS[8];
        }
        let pawns = pieces(&board, Role::Pawn, Color::White);
        let any = !pawns.is_empty();
        proof {
            if exists|q: int| on_board(q) && #[trigger] board.holds(q, Color::White, Role::Pawn) {
                let q = choose|q: int| on_board(q) && #[trigger] board.holds(q, Color::White, Role::Pawn);
                assert(bit(pawns.0, q));
            }
        }
        if any {
            return PLAN_TOKENS[5];
        }
        return PLAN_TOKENS[9];
    }
    let rights = Bitboard(setup.castling);
    let can_castle = rights.contains(Square(7)) || rights.contains(Square(0));
    if can_castle && safety_level(&board, Color::White) != 0 {
        return PLAN_TOKENS[1];
    }
    if same_text(phase_token, PHASE_TOKENS[0]) && undeveloped_minors(&board) >= 2 {
        return PLAN_TOKENS[0];
    }
    if safety_level(&board, Color::Black) >= 2 {
        return PLAN_TOKENS[3];
    }
    if balance >= 6 {
        return PLAN_TOKENS[4];
    }
    let rooks = pieces(&board, Role::Rook, Color::White);
    let rook_count: u32 = count_bits(rooks);
    proof {
        lemma_count_ext(
            |s: int| bit(rooks.0, s),
            |q: int| board.holds(q, Color::White, Role::Rook),
            64,
        );
    }
    if rook_count >= 2 && !are_rooks_connected(&board) {
        return PLAN_TOKENS[6];
    }
    if balance <= -6 {
        return PLAN_TOKENS[9];
    }
    PLAN_TOKENS[2]
}

/// The rank of a square counted from a side's own first rank.
pub open spec fn rank_for(color: Color, s: int) -> int {
    match color {
        Color::White => spec_rank(s),
        Color::Black => 7 - spec_rank(s),
    }
}

/// The rank of a square counted from a side's own first rank.
pub fn relative_rank(color: Color, sq: Square) -> (r: u8)
    requires
        sq.valid(),
    ensures
        r == rank_for(color, sq.0 as int),
        r < 8,
{
    match color {
        Color::White => sq.rank(),
        Color::Black => 7 - sq.rank(),
    }
}

/// The piece on `from` attacks `to`, which no piece of `color` occupies.
pub open spec fn can_go(board: Board, color: Color, from: int, to: int) -> bool {
    hits(board, from, to) && !board.has_color(to, color)
}

/// How many squares the piece on a square attacks that its own side does not
/// occupy.
pub fn mobility(board: &Board, color: Color, sq: Square) -> (r: u32)
    requires
        sq.valid(),
    ensures
        r == count_squares(|t: int| can_go(*board, color, sq.0 as int, t)),
        r <= 64,
{
    let ghost p = |t: int| can_go(*board, color, sq.0 as int, t);
    let seen = attacks_from(board, sq);
    let mut n: u32 = 0;
    let mut i: u8 = 0;
    while i < 64
        invariant
            i <= 64,
            n <= i,
            p == (|t: int| can_go(*board, color, sq.0 as int, t)),
            forall|t: int| #![trigger bit(seen.0, t)]
                on_board(t) ==> bit(seen.0, t) == hits(*board, sq.0 as int, t),
            n == count_upto(p, i as int),
        decreases 64 - i,
    {
        if seen.contains(Square(i)) && !board.is_color(Square(i), color) {
            n = n + 1;
        }
        i = i + 1;
    }
    n
}

/// The square `t` lies on a rank that a pawn of `color` on `s` still has before
/// it.
pub open spec fn ahead(color: Color, s: int, t: int) -> bool {
    rank_for(color, t) > rank_for(color, s)
}

fn is_ahead(color: Color, s: Square, t: Square) -> (r: bool)
    requires
        s.valid(),
        t.valid(),
    ensures
        r == ahead(color, s.0 as int, t.0 as int),
{
    relative_rank(color, t) > relative_rank(color, s)
}

/// A pawn with no enemy pawn before it, on its own file or beside it.
pub open spec fn passed(board: Board, color: Color, s: int) -> bool {
    board.holds(s, color, Role::Pawn) && forall|t: int| on_board(t) && #[trigger] board.holds(
        t,
        color.opponent(),
        Role::Pawn,
    ) ==> !(abs(spec_file(t) - spec_file(s)) <= 1 && ahead(color, s, t))
}

/// A pawn that shares its file with another pawn of its side.
pub open spec fn doubled(board: Board, color: Color, s: int) -> bool {
    board.holds(s, color, Role::Pawn) && exists|t: int| on_board(t) && #[trigger] board.holds(t, color, Role::Pawn)
        && t != s && spec_file(t) == spec_file(s)
}

/// A pawn with no pawn of its side on a file beside it.
pub open spec fn isolated(board: Board, color: Color, s: int) -> bool {
    board.holds(s, color, Role::Pawn) && forall|t: int| on_board(t) && #[trigger] board.holds(t, color, Role::Pawn)
        ==> abs(spec_file(t) - spec_file(s)) != 1
}

/// A pawn of the same side defends the square.
pub open spec fn pawn_defended(board: Board, color: Color, s: int) -> bool {
    exists|t: int| on_board(t) && #[trigger] board.attacks(t, color, s) && board.piece(t)->0.role == Role::Pawn
}

/// A knight on the fourth to sixth rank, seen from its side, that a pawn defends
/// and no enemy pawn can drive away.
pub open spec fn outpost(board: Board, color: Color, s: int) -> bool {
    &&& board.holds(s, color, Role::Knight)
    &&& 3 <= rank_for(color, s) <= 5
    &&& pawn_defended(board, color, s)
    &&& forall|t: int| on_board(t) && #[trigger] board.holds(t, color.opponent(), Role::Pawn) ==> !(abs(
        spec_file(t) - spec_file(s),
    ) == 1 && ahead(color, s, t))
}

#[verifier::loop_isolation(false)]
fn is_passed(board: &Board, color: Color, sq: Square) -> (r: bool)
    requires
        sq.valid(),
    ensures
        r == passed(*board, color, sq.0 as int),
{
    if !board.is_piece(sq, color, Role::Pawn) {
        return false;
    }
    let mut i: u8 = 0;
    while i < 64
        invariant
            i <= 64,
            forall|t: int| 0 <= t < i && #[trigger] board.holds(t, color.opponent(), Role::Pawn) ==> !(abs(
                spec_file(t) - spec_file(sq.0 as int),
            ) <= 1 && ahead(color, sq.0 as int, t)),
        decreases 64 - i,
    {
        let t = Square(i);
        if board.is_piece(t, color.other(), Role::Pawn) && file_distance(t, sq) <= 1 && is_ahead(color, sq, t) {
            return false;
        }
        i = i + 1;
    }
    true
}

#[verifier::loop_isolation(false)]
fn is_doubled(board: &Board, color: Color, sq: Square) -> (r: bool)
    requires
        sq.valid(),
    ensures
        r == doubled(*board, color, sq.0 as int),
{
    if !board.is_piece(sq, color, Role::Pawn) {
        return false;
    }
    let mut i: u8 = 0;
    while i < 64
        invariant
            i <= 64,
            forall|t: int| 0 <= t < i && #[trigger] board.holds(t, color, Role::Pawn) && t != sq.0 ==> spec_file(t)
                != spec_file(sq.0 as int),
        decreases 64 - i,
    {
        if board.is_piece(Square(i), color, Role::Pawn) && i != sq.0 && Square(i).file() == sq.file() {
            assert(board.holds(i as int, color, Role::Pawn));
            return true;
        }
        i = i + 1;
    }
    false
}

#[verifier::loop_isolation(false)]
fn is_isolated(board: &Board, color: Color, sq: Square) -> (r: bool)
    requires
        sq.valid(),
    ensures
        r == isolated(*board, color, sq.0 as int),
{
    if !board.is_piece(sq, color, Role::Pawn) {
        return false;
    }
    let mut i: u8 = 0;
    while i < 64
        invariant
            i <= 64,
            forall|t: int| 0 <= t < i && #[trigger] board.holds(t, color, Role::Pawn) ==> abs(
                spec_file(t) - spec_file(sq.0 as int),
            ) != 1,
        decreases 64 - i,
    {
        if board.is_piece(Square(i), color, Role::Pawn) && file_distance(Square(i), sq) == 1 {
            assert(board.holds(i as int, color, Role::Pawn));
            return false;
        }
        i = i + 1;
    }
    true
}

#[verifier::loop_isolation(false)]
fn is_pawn_defended(board: &Board, color: Color, sq: Square) -> (r: bool)
    requires
        board.wf(),
        sq.valid(),
    ensures
        r == pawn_defended(*board, color, sq.0 as int),
{
    let defenders = attackers(board, color, sq);
    let mut i: u8 = 0;
    while i < 64
        invariant
            i <= 64,
            forall|t: int| 0 <= t < i && #[trigger] board.attacks(t, color, sq.0 as int) ==> board.piece(t)->0.role
                != Role::Pawn,
        decreases 64 - i,
    {
        if defenders.contains(Square(i)) && board.is_piece(Square(i), color, Role::Pawn) {
            assert(board.attacks(i as int, color, sq.0 as int));
            return true;
        }
        i = i + 1;
    }
    false
}

#[verifier::loop_isolation(false)]
fn is_outpost(board: &Board, color: Color, sq: Square) -> (r: bool)
    requires
        board.wf(),
        sq.valid(),
    ensures
        r == outpost(*board, color, sq.0 as int),
{
    let rank: u8 = relative_rank(color, sq);
    if !board.is_piece(sq, color, Role::Knight) || rank < 3 || rank > 5 || !is_pawn_defended(board, color, sq) {
        return false;
    }
    let mut i: u8 = 0;
    while i < 64
        invariant
            i <= 64,
            forall|t: int| 0 <= t < i && #[trigger] board.holds(t, color.opponent(), Role::Pawn) ==> !(abs(
                spec_file(t) - spec_file(sq.0 as int),
            ) == 1 && ahead(color, sq.0 as int, t)),
        decreases 64 - i,
    {
        let t = Square(i);
        if board.is_piece(t, color.other(), Role::Pawn) && file_distance(t, sq) == 1 && is_ahead(color, sq, t) {
            return false;
        }
        i = i + 1;
    }
    true
}

/// The passed pawns of a side.
pub fn passed_pawns(board: &Board, color: Color) -> (r: Bitboard)
    requires
        board.wf(),
    ensures
        forall|i: int| #![trigger bit(r.0, i)] on_board(i) ==> bit(r.0, i) == passed(*board, color, i),
{
    let mut set = Bitboard::empty();
    let mut i: u8 = 0;
    while i < 64
        invariant
            i <= 64,
            board.wf(),
            forall|j: int| #![trigger bit(set.0, j)]
                on_board(j) ==> bit(set.0, j) == (j < i && passed(*board, color, j)),
        decreases 64 - i,
    {
        if is_passed(board, color, Square(i)) {
            set = set.union(Bitboard::from_square(Square(i)));
        }
        i = i + 1;
    }
    set
}

/// The doubled pawns of a side.
pub fn doubled_pawns(board: &Board, color: Color) -> (r: Bitboard)
    requires
        board.wf(),
    ensures
        forall|i: int| #![trigger bit(r.0, i)] on_board(i) ==> bit(r.0, i) == doubled(*board, color, i),
{
    let mut set = Bitboard::empty();
    let mut i: u8 = 0;
    while i < 64
        invariant
            i <= 64,
            board.wf(),
            forall|j: int| #![trigger bit(set.0, j)]
                on_board(j) ==> bit(set.0, j) == (j < i && doubled(*board, color, j)),
        decreases 64 - i,
    {
        if is_doubled(board, color, Square(i)) {
            set = set.union(Bitboard::from_square(Square(i)));
        }
        i = i + 1;
    }
    set
}

/// The isolated pawns of a side.
pub fn isolated_pawns(board: &Board, color: Color) -> (r: Bitboard)
    requires
        board.wf(),
    ensures
        forall|i: int| #![trigger bit(r.0, i)] on_board(i) ==> bit(r.0, i) == isolated(*board, color, i),
{
    let mut set = Bitboard::empty();
    let mut i: u8 = 0;
    while i < 64
        invariant
            i <= 64,
            board.wf(),
            forall|j: int| #![trigger bit(set.0, j)]
                on_board(j) ==> bit(set.0, j) == (j < i && isolated(*board, color, j)),
        decreases 64 - i,
    {
        if is_isolated(board, color, Square(i)) {
            set = set.union(Bitboard::from_square(Square(i)));
        }
        i = i + 1;
    }
    set
}

/// The knights of a side that stand on an outpost.
pub fn outposts(board: &Board, color: Color) -> (r: Bitboard)
    requires
        board.wf(),
    ensures
        forall|i: int| #![trigger bit(r.0, i)] on_board(i) ==> bit(r.0, i) == outpost(*board, color, i),
{
    let mut set = Bitboard::empty();
    let mut i: u8 = 0;
    while i < 64
        invariant
            i <= 64,
            board.wf(),
            forall|j: int| #![trigger bit(set.0, j)]
                on_board(j) ==> bit(set.0, j) == (j < i && outpost(*board, color, j)),
        decreases 64 - i,
    {
        if is_outpost(board, color, Square(i)) {
            set = set.union(Bitboard::from_square(Square(i)));
        }
        i = i + 1;
    }
    set
}

/// Does no pawn of `color` stand on a file?
pub fn is_semi_open_file(board: &Board, color: Color, file: u8) -> (r: bool)
    ensures
        r == file_without(*board, color, file as int),
{
    let mut i: u8 = 0;
    while i < 64
        invariant
            i <= 64,
            forall|s: int| 0 <= s < i && spec_file(s) == file ==> !#[trigger] board.holds(s, color, Role::Pawn),
        decreases 64 - i,
    {
        if Square(i).file() == file && board.is_piece(Square(i), color, Role::Pawn) {
            assert(board.holds(i as int, color, Role::Pawn));
            return false;
        }
        i = i + 1;
    }
    true
}

/// No pawn stands on a file.
pub open spec fn file_open(board: Board, file: int) -> bool {
    file_without(board, Color::White, file) && file_without(board, Color::Black, file)
}

/// Does no pawn stand on a file?
pub fn is_open_file(board: &Board, file: u8) -> (r: bool)
    ensures
        r == file_open(*board, file as int),
{
    is_semi_open_file(board, Color::White, file) && is_semi_open_file(board, Color::Black, file)
}

/// A knight, bishop, rook or queen of `color` stands on the square.
pub open spec fn is_attacker(board: Board, color: Color, s: int) -> bool {
    board.has_color(s, color) && board.piece(s)->0.role != Role::Pawn && board.piece(s)->0.role != Role::King
}

/// How many squares in the zone of the king on `k`, its own square and those
/// next to it, the piece on a square attacks.
pub open spec fn zone_hits(board: Board, k: int, from: int) -> int {
    count_squares(|s: int| steps_apart(k, s) <= 1 && hits(board, from, s))
}

/// How many zone squares the piece on a square attacks if it is an attacker.
pub open spec fn zone_weight(board: Board, color: Color, k: int, from: int) -> int {
    if is_attacker(board, color, from) {
        zone_hits(board, k, from)
    } else {
        0
    }
}

/// How many pieces of `color` bear on the zone of the enemy king, and how many
/// attacks on its squares they make in all.
pub open spec fn pressure(board: Board, color: Color) -> (int, int) {
    match board.king_square(color.opponent()) {
        Some(k) => (
            count_squares(|from: int| zone_weight(board, color, k, from) >= 1),
            sum_squares(|from: int| zone_weight(board, color, k, from)),
        ),
        None => (0, 0),
    }
}

fn count_zone_hits(board: &Board, king: Square, from: Square) -> (r: u32)
    requires
        king.valid(),
        from.valid(),
    ensures
        r == zone_hits(*board, king.0 as int, from.0 as int),
        r <= 64,
{
    let ghost p = |s: int| steps_apart(king.0 as int, s) <= 1 && hits(*board, from.0 as int, s);
    let seen = attacks_from(board, from);
    let mut n: u32 = 0;
    let mut i: u8 = 0;
    while i < 64
        invariant
            i <= 64,
            n <= i,
            king.valid(),
            p == (|s: int| steps_apart(king.0 as int, s) <= 1 && hits(*board, from.0 as int, s)),
            forall|t: int| #![trigger bit(seen.0, t)]
                on_board(t) ==> bit(seen.0, t) == hits(*board, from.0 as int, t),
            n == count_upto(p, i as int),
        decreases 64 - i,
    {
        if distance(king, Square(i)) <= 1 && seen.contains(Square(i)) {
            n = n + 1;
        }
        i = i + 1;
    }
    n
}

/// How many pieces of `color` bear on the zone of the enemy king, and how many
/// attacks on its squares they make in all.
pub fn king_attack_pressure(board: &Board, color: Color) -> (r: (u32, u32))
    ensures
        r.0 == pressure(*board, color).0,
        r.1 == pressure(*board, color).1,
        r.0 <= 64,
        r.1 <= 4096,
{
    let king = match board.king_of(color.other()) {
        Some(k) => k,
        None => return (0, 0),
    };
    let ghost k = king.0 as int;
    let ghost p = |from: int| zone_weight(*board, color, k, from) >= 1;
    let ghost f = |from: int| zone_weight(*board, color, k, from);
    let mut count: u32 = 0;
    let mut weight: u32 = 0;
    let mut i: u8 = 0;
    while i < 64
        invariant
            i <= 64,
            king.valid(),
            k == king.0,
            p == (|from: int| zone_weight(*board, color, k, from) >= 1),
            f == (|from: int| zone_weight(*board, color, k, from)),
            count <= i,
            weight <= 64 * i,
            count == count_upto(p, i as int),
            weight == sum_upto(f, i as int),
        decreases 64 - i,
    {
        assert(f(i as int) == zone_weight(*board, color, k, i as int));
        if let Some(piece) = board.piece_at(Square(i)) {
            if piece.color == color && piece.role != Role::Pawn && piece.role != Role::King {
                let seen: u32 = count_zone_hits(board, king, Square(i));
                if seen >= 1 {
                    count = count + 1;
                    weight = weight + seen;
                }
            }
        }
        i = i + 1;
    }
    (count, weight)
}

} // verus!
