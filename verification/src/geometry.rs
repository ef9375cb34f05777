//! How the pieces move and what the board says: laws on squares, attacks, moves and
//! material.

use vstd::prelude::*;

use crate::chess::{
    bit, clear_between, flip, in_grid, lemma_or_bits, line_square, on_board, on_diagonal, on_rank_or_file, reaches, sign,
    spec_file, spec_rank, square_at, steps_apart, Board, Color, Piece, Role, Square,
};
use crate::judgement::lemma_sum_change;
use crate::oracle::lemma_count_two;
use crate::rules::{
    cannot_mate, checkmate, decode_move, fen_after, fen_play, first_place, has_piece, legal_ep_of, moves_of, stalemate,
    state, Move, RawMove,
};
use crate::sums::{count_squares, lemma_sum_ext, one_if};

verus! {

/// A pawn attacks the two squares diagonally before it: White's towards the eighth
/// rank, Black's towards the first.
pub proof fn law_pawns_attack_diagonally_forward(from: int, to: int, occupied: u64)
    requires
        on_board(from),
        on_board(to),
    ensures
        reaches(Piece { color: Color::White, role: Role::Pawn }, from, to, occupied) <==> (from % 8 > 0 && to == from
            + 7) || (from % 8 < 7 && to == from + 9),
        reaches(Piece { color: Color::Black, role: Role::Pawn }, from, to, occupied) <==> (from % 8 < 7 && to == from
            - 7) || (from % 8 > 0 && to == from - 9),
{
}

/// A knight goes two squares one way and one the other, whatever stands between.
pub proof fn law_knights_jump(color: Color, from: int, to: int, occupied: u64)
    requires
        on_board(from),
        on_board(to),
    ensures
        reaches(Piece { color, role: Role::Knight }, from, to, occupied) <==> {
            ||| from % 8 >= 1 && (to == from + 15 || to == from - 17)
            ||| from % 8 <= 6 && (to == from + 17 || to == from - 15)
            ||| from % 8 >= 2 && (to == from + 6 || to == from - 10)
            ||| from % 8 <= 5 && (to == from + 10 || to == from - 6)
        },
{
}

/// A king attacks the squares next to it.
pub proof fn law_kings_step(color: Color, from: int, to: int, occupied: u64)
    requires
        on_board(from),
        on_board(to),
    ensures
        reaches(Piece { color, role: Role::King }, from, to, occupied) <==> {
            ||| to == from + 8 || to == from - 8
            ||| from % 8 >= 1 && (to == from - 1 || to == from + 7 || to == from - 9)
            ||| from % 8 <= 6 && (to == from + 1 || to == from + 9 || to == from - 7)
        },
{
}

/// The square so many steps away in a direction.
pub open spec fn along(from: int, df: int, dr: int, n: int) -> int {
    square_at(from % 8 + n * df, from / 8 + n * dr)
}

/// The steps lead to a square of the board.
pub open spec fn stays(from: int, df: int, dr: int, n: int) -> bool {
    in_grid(from % 8 + n * df, from / 8 + n * dr)
}

/// One of the eight directions.
pub open spec fn is_direction(df: int, dr: int) -> bool {
    -1 <= df <= 1 && -1 <= dr <= 1 && (df != 0 || dr != 0)
}

proof fn lemma_product(n: int, d: int)
    requires
        -1 <= d <= 1,
    ensures
        d == 1 ==> n * d == n,
        d == 0 ==> n * d == 0,
        d == -1 ==> n * d == -n,
{
    assert(n * 1 == n && n * 0 == 0 && n * (-1) == -n) by (nonlinear_arith);
}

proof fn lemma_along(from: int, df: int, dr: int, n: int)
    requires
        on_board(from),
        is_direction(df, dr),
        n >= 1,
        stays(from, df, dr, n),
    ensures
        ({
            let to = along(from, df, dr, n);
            &&& on_board(to)
            &&& to != from
            &&& steps_apart(from, to) == n
            &&& sign(spec_file(to) - spec_file(from)) == df
            &&& sign(spec_rank(to) - spec_rank(from)) == dr
            &&& on_diagonal(from, to) <==> df != 0 && dr != 0
            &&& on_rank_or_file(from, to) <==> df == 0 || dr == 0
            &&& forall|k: int| #[trigger] line_square(from, to, k) == along(from, df, dr, k)
        }),
{
    lemma_product(n, df);
    lemma_product(n, dr);
    let to = along(from, df, dr, n);
    assert(spec_file(to) == from % 8 + n * df);
    assert(spec_rank(to) == from / 8 + n * dr);
    assert(sign(spec_file(to) - spec_file(from)) == df);
    assert(sign(spec_rank(to) - spec_rank(from)) == dr);
}

proof fn lemma_clear_along(from: int, df: int, dr: int, n: int, occupied: u64)
    requires
        on_board(from),
        is_direction(df, dr),
        n >= 1,
        stays(from, df, dr, n),
    ensures
        clear_between(from, along(from, df, dr, n), occupied) <==> forall|k: int|
            1 <= k < n ==> !bit(occupied, #[trigger] along(from, df, dr, k)),
{
    lemma_along(from, df, dr, n);
    let to = along(from, df, dr, n);
    if clear_between(from, to, occupied) {
        assert forall|k: int| 1 <= k < n implies !bit(occupied, #[trigger] along(from, df, dr, k)) by {
            assert(!bit(occupied, line_square(from, to, k)));
        }
    }
    if forall|k: int| 1 <= k < n ==> !bit(occupied, #[trigger] along(from, df, dr, k)) {
        assert forall|k: int| 1 <= k < steps_apart(from, to) implies !bit(
            occupied,
            #[trigger] line_square(from, to, k),
        ) by {
            assert(!bit(occupied, along(from, df, dr, k)));
        }
    }
}

/// A rook, a bishop and a queen attack along their directions until something stands
/// in the way: the next square always, and the square after one if they attack that
/// one and it is empty. Rooks go along ranks and files, bishops along diagonals,
/// queens along both.
pub proof fn law_sliders_go_until_something_stands_in_the_way(
    color: Color,
    role: Role,
    from: int,
    df: int,
    dr: int,
    n: int,
    occupied: u64,
)
    requires
        on_board(from),
        is_direction(df, dr),
        n >= 1,
        stays(from, df, dr, n),
        role == Role::Rook || role == Role::Bishop || role == Role::Queen,
    ensures
        ({
            let p = Piece { color, role };
            let goes = role == Role::Queen || (role == Role::Rook && (df == 0 || dr == 0)) || (role == Role::Bishop
                && df != 0 && dr != 0);
            reaches(p, from, along(from, df, dr, n), occupied) <==> goes && (n == 1 || (reaches(
                p,
                from,
                along(from, df, dr, n - 1),
                occupied,
            ) && !bit(occupied, along(from, df, dr, n - 1))))
        }),
{
    lemma_along(from, df, dr, n);
    lemma_clear_along(from, df, dr, n, occupied);
    if n > 1 {
        lemma_product(n, df);
        lemma_product(n, dr);
        lemma_product(n - 1, df);
        lemma_product(n - 1, dr);
        lemma_along(from, df, dr, n - 1);
        lemma_clear_along(from, df, dr, n - 1, occupied);
        let last = along(from, df, dr, n - 1);
        if forall|k: int| 1 <= k < n ==> !bit(occupied, #[trigger] along(from, df, dr, k)) {
            assert(!bit(occupied, along(from, df, dr, n - 1)));
        }
    }
}

/// What is attacked attacks back: a piece other than a pawn attacks from one square
/// to another if and only if it attacks the other way round, and a pawn if and only if
/// a pawn of the other side does.
pub proof fn law_attacks_go_both_ways(p: Piece, from: int, to: int, occupied: u64)
    requires
        on_board(from),
        on_board(to),
    ensures
        p.role != Role::Pawn ==> reaches(p, from, to, occupied) == reaches(p, to, from, occupied),
        p.role == Role::Pawn ==> reaches(p, from, to, occupied) == reaches(
            Piece { color: p.color.opponent(), role: Role::Pawn },
            to,
            from,
            occupied,
        ),
{
    if from != to && (on_diagonal(from, to) || on_rank_or_file(from, to)) {
        if clear_between(from, to, occupied) {
            lemma_clear_back(from, to, occupied);
        }
        if clear_between(to, from, occupied) {
            lemma_clear_back(to, from, occupied);
        }
    }
}

proof fn lemma_clear_back(from: int, to: int, occupied: u64)
    requires
        on_board(from),
        on_board(to),
        on_diagonal(from, to) || on_rank_or_file(from, to),
        clear_between(from, to, occupied),
    ensures
        clear_between(to, from, occupied),
{
    let n = steps_apart(from, to);
    let df = sign(spec_file(to) - spec_file(from));
    let dr = sign(spec_rank(to) - spec_rank(from));
    assert(steps_apart(to, from) == n);
    assert forall|k: int| 1 <= k < steps_apart(to, from) implies !bit(occupied, #[trigger] line_square(to, from, k)) by {
        lemma_product(k, -df);
        lemma_product(k, -dr);
        lemma_product(n - k, df);
        lemma_product(n - k, dr);
        assert(line_square(to, from, k) == line_square(from, to, n - k));
        assert(!bit(occupied, line_square(from, to, n - k)));
    }
}

/// A side attacks a square if one of its pieces reaches it, with every piece of either
/// side in the way.
pub proof fn law_what_is_attacked(board: Board, to: int, color: Color)
    requires
        board.wf(),
    ensures
        board.attacked(to, color) <==> exists|from: int|
            on_board(from) && #[trigger] board.piece(from) is Some && board.piece(from)->0.color == color && reaches(
                board.piece(from)->0,
                from,
                to,
                board.white | board.black,
            ),
        forall|s: int|
            on_board(s) ==> (#[trigger] bit(board.white | board.black, s) <==> board.piece(s) is Some),
{
    lemma_or_bits(board.white, board.black);
    assert forall|s: int| on_board(s) implies (#[trigger] bit(board.white | board.black, s) <==> board.piece(s) is Some) by {
        assert(board.piece(s) is Some || board.piece(s) is None);
        assert(board.consistent_at(s));
        assert(bit(board.color_set(Color::White), s) == bit(board.white, s));
        assert(bit(board.color_set(Color::Black), s) == bit(board.black, s));
    }
    if board.attacked(to, color) {
        let from = choose|from: int| on_board(from) && #[trigger] board.attacks(from, color, to);
        assert(board.piece(from) is Some);
    }
    if exists|from: int|
        on_board(from) && #[trigger] board.piece(from) is Some && board.piece(from)->0.color == color && reaches(
            board.piece(from)->0,
            from,
            to,
            board.white | board.black,
        ) {
        let from = choose|from: int|
            on_board(from) && #[trigger] board.piece(from) is Some && board.piece(from)->0.color == color && reaches(
                board.piece(from)->0,
                from,
                to,
                board.white | board.black,
            );
        assert(board.attacks(from, color, to));
    }
}

/// A piece stands where the sets of its colour and its role meet.
pub proof fn law_pieces_stand_where_their_sets_meet(board: Board, s: int)
    requires
        board.wf(),
        on_board(s),
    ensures
        board.piece(s) == Some(Piece { color: Color::White, role: Role::Pawn }) <==> bit(board.white, s) && bit(
            board.pawns,
            s,
        ),
        board.piece(s) == Some(Piece { color: Color::Black, role: Role::Knight }) <==> bit(board.black, s) && bit(
            board.knights,
            s,
        ),
        board.piece(s) == Some(Piece { color: Color::White, role: Role::Bishop }) <==> bit(board.white, s) && bit(
            board.bishops,
            s,
        ),
        board.piece(s) == Some(Piece { color: Color::Black, role: Role::Rook }) <==> bit(board.black, s) && bit(
            board.rooks,
            s,
        ),
        board.piece(s) == Some(Piece { color: Color::White, role: Role::Queen }) <==> bit(board.white, s) && bit(
            board.queens,
            s,
        ),
        board.piece(s) == Some(Piece { color: Color::Black, role: Role::King }) <==> bit(board.black, s) && bit(
            board.kings,
            s,
        ),
        board.piece(s) is None <==> !bit(board.white, s) && !bit(board.black, s),
{
    assert(board.piece(s) is Some || board.piece(s) is None);
    assert(board.consistent_at(s));
    assert(bit(board.role_set(Role::Pawn), s) == bit(board.pawns, s));
    assert(bit(board.role_set(Role::Knight), s) == bit(board.knights, s));
    assert(bit(board.role_set(Role::Bishop), s) == bit(board.bishops, s));
    assert(bit(board.role_set(Role::Rook), s) == bit(board.rooks, s));
    assert(bit(board.role_set(Role::Queen), s) == bit(board.queens, s));
    assert(bit(board.role_set(Role::King), s) == bit(board.kings, s));
    assert(bit(board.color_set(Color::White), s) == bit(board.white, s));
    assert(bit(board.color_set(Color::Black), s) == bit(board.black, s));
}

/// The side to move is in check if the other side attacks its king. Without a move
/// that is mate, and without check it is stalemate.
pub proof fn law_what_check_is(fen: Seq<char>, k: int)
    requires
        on_board(k),
        state(fen).board.piece(k) == Some(Piece { color: state(fen).turn, role: Role::King }),
        forall|t: int| #![trigger state(fen).board.piece(t)]
            on_board(t) && state(fen).board.piece(t) == Some(Piece { color: state(fen).turn, role: Role::King })
                ==> t == k,
    ensures
        ({
            let board = state(fen).board;
            let check = if state(fen).turn == Color::White {
                board.attacked(k, Color::Black)
            } else {
                board.attacked(k, Color::White)
            };
            &&& state(fen).in_check() == check
            &&& checkmate(fen) == (check && moves_of(fen).len() == 0)
            &&& stalemate(fen) == (!check && moves_of(fen).len() == 0)
        }),
{
    let s = state(fen);
    assert forall|t: int| #![trigger s.board.holds(t, s.turn, Role::King)]
        on_board(t) && s.board.holds(t, s.turn, Role::King) implies t == k by {
        assert(s.board.piece(t) == Some(Piece { color: s.turn, role: Role::King }));
    }
    assert(s.board.holds(k, s.turn, Role::King));
    assert(s.board.king_on(s.turn, k));
    if s.in_check() {
        let j = choose|j: int|
            #[trigger] s.board.king_on(s.turn, j) && s.board.attacked(j, s.turn.opponent());
        assert(s.board.piece(j) == Some(Piece { color: s.turn, role: Role::King }));
        assert(j == k);
    }
}

/// Turning the board round exchanges the first and the last rank, the second and the
/// seventh, and so on, and leaves the files; turned twice it is as it was.
pub proof fn law_turning_the_board(s: int)
    requires
        on_board(s),
    ensures
        flip(flip(s)) == s,
        flip(s) % 8 == s % 8,
        flip(s) / 8 + s / 8 == 7,
        on_board(flip(s)),
{
}

/// A capture takes the piece that stands on its square, an en passant capture a pawn,
/// castling nothing; castling is a king's move and en passant a pawn's, and neither
/// promotes.
pub proof fn law_what_moves_take(m: Move)
    ensures
        match m {
            Move::Normal { role, capture, promotion, .. } => m.takes() == capture && m.mover() == role
                && m.promotes_to() == promotion,
            Move::EnPassant { .. } => m.takes() == Some(Role::Pawn) && m.mover() == Role::Pawn
                && m.promotes_to() is None,
            Move::Castle { .. } => m.takes() is None && m.mover() == Role::King && m.promotes_to() is None,
        },
{
}

/// Moves in plain numbers count the roles from one in the order pawn, knight, bishop,
/// rook, queen, king.
pub proof fn law_moves_in_numbers(raw: RawMove)
    requires
        1 <= raw.role <= 6,
    ensures
        ({
            let m = decode_move(raw);
            &&& raw.castle ==> m == (Move::Castle { king: Square(raw.from), rook: Square(raw.to) })
            &&& !raw.castle && raw.en_passant ==> m == (Move::EnPassant {
                from: Square(raw.from),
                to: Square(raw.to),
            })
            &&& !raw.castle && !raw.en_passant ==> {
                &&& m is Normal
                &&& m->Normal_from == Square(raw.from)
                &&& m->Normal_to == Square(raw.to)
                &&& raw.role == numeral(m.mover())
                &&& raw.capture is None <==> m.takes() is None
                &&& raw.capture is Some && 1 <= raw.capture->0 <= 6 ==> raw.capture->0 == numeral(m.takes()->0)
                &&& raw.promotion is None <==> m.promotes_to() is None
                &&& raw.promotion is Some && 1 <= raw.promotion->0 <= 6 ==> raw.promotion->0 == numeral(
                    m.promotes_to()->0,
                )
            }
        }),
{
}

/// The number of a role.
pub open spec fn numeral(role: Role) -> int {
    match role {
        Role::Pawn => 1,
        Role::Knight => 2,
        Role::Bishop => 3,
        Role::Rook => 4,
        Role::Queen => 5,
        Role::King => 6,
    }
}

proof fn lemma_first_place(moves: Seq<Move>, m: Move, start: int, i: int)
    requires
        0 <= start <= i < moves.len(),
        moves[i] == m,
    ensures
        start <= first_place(moves, m, start) <= i,
        moves[first_place(moves, m, start)] == m,
    decreases i - start,
{
    if moves[start] != m {
        lemma_first_place(moves, m, start + 1, i);
    }
}

/// Playing a move of a position plays one of its legal moves: that move.
pub proof fn law_moves_are_played(fen: Seq<char>, i: int)
    requires
        0 <= i < moves_of(fen).len(),
    ensures
        exists|j: int|
            0 <= j <= i && #[trigger] moves_of(fen)[j] == moves_of(fen)[i] && fen_play(fen, moves_of(fen)[i])
                == fen_after(fen, j),
{
    lemma_first_place(moves_of(fen), moves_of(fen)[i], 0, i);
    let j = first_place(moves_of(fen), moves_of(fen)[i], 0);
    assert(moves_of(fen)[j] == moves_of(fen)[i]);
}

/// The en passant square counts just where an en passant capture is legal.
pub proof fn law_when_en_passant_counts(fen: Seq<char>)
    ensures
        (exists|i: int| 0 <= i < moves_of(fen).len() && #[trigger] moves_of(fen)[i] is EnPassant) ==> legal_ep_of(fen)
            == state(fen).ep_square,
        (forall|i: int| 0 <= i < moves_of(fen).len() ==> !(#[trigger] moves_of(fen)[i] is EnPassant)) ==> legal_ep_of(
            fen,
        ) is None,
{
}

/// A side has nothing but its king.
pub open spec fn bare(board: Board, color: Color) -> bool {
    forall|s: int| on_board(s) && board.has_color(s, color) ==> (#[trigger] board.piece(s))->0.role == Role::King
}

/// A bare king never mates. A pawn, a rook or a queen can always mate.
pub proof fn law_heavy_pieces_and_pawns_can_mate(board: Board, color: Color, s: int, role: Role)
    ensures
        bare(board, color) ==> cannot_mate(board, color),
        on_board(s) && board.holds(s, color, role) && (role == Role::Pawn || role == Role::Rook || role == Role::Queen)
            ==> !cannot_mate(board, color),
{
    if bare(board, color) {
        assert forall|t: int, r: Role| on_board(t) && #[trigger] board.holds(t, color, r) implies r == Role::King by {
            assert(board.has_color(t, color));
            assert(board.piece(t)->0.role == Role::King);
        }
    }
    if on_board(s) && board.holds(s, color, role) && (role == Role::Pawn || role == Role::Rook || role
        == Role::Queen) {
        assert(has_piece(board, color, role));
    }
}

/// Two knights, or a knight with a bishop, can mate, and so can a knight against a
/// side with a piece other than king and queens; a knight alone cannot mate a bare
/// king.
pub proof fn law_when_knights_can_mate(board: Board, color: Color, s: int, t: int, k: int)
    requires
        on_board(s),
        on_board(k),
        board.holds(s, color, Role::Knight),
        board.holds(k, color, Role::King),
    ensures
        on_board(t) && t != s && t != k && board.has_color(t, color) ==> !cannot_mate(board, color),
        on_board(t) && board.has_color(t, color.opponent()) && board.piece(t)->0.role != Role::King && board.piece(
            t,
        )->0.role != Role::Queen ==> !cannot_mate(board, color),
        bare(board, color.opponent()) && (forall|u: int|
            on_board(u) && u != s && u != k ==> !#[trigger] board.has_color(u, color)) ==> cannot_mate(board, color),
{
    assert(has_piece(board, color, Role::Knight));
    let own = |u: int| board.has_color(u, color);
    let other = color.opponent();
    if on_board(t) && t != s && t != k && board.has_color(t, color) {
        lemma_three(own, s, t, k);
        assert(count_squares(|u: int| board.has_color(u, color)) == count_squares(own));
    }
    if on_board(t) && board.has_color(t, other) && board.piece(t)->0.role != Role::King && board.piece(t)->0.role
        != Role::Queen {
        assert(board.holds(t, other, board.piece(t)->0.role));
        assert(has_piece(board, other, board.piece(t)->0.role));
    }
    if bare(board, other) && (forall|u: int|
        on_board(u) && u != s && u != k ==> !#[trigger] board.has_color(u, color)) {
        assert forall|u: int, r: Role| on_board(u) && #[trigger] board.holds(u, other, r) implies r == Role::King by {
            assert(board.has_color(u, other));
            assert(board.piece(u)->0.role == Role::King);
        }
        assert forall|u: int, r: Role| on_board(u) && #[trigger] board.holds(u, color, r) implies r == Role::King || r
            == Role::Knight by {
            assert(board.has_color(u, color));
            assert(u == s || u == k);
        }
        lemma_at_most_two(own, s, k);
        assert(count_squares(|u: int| board.has_color(u, color)) == count_squares(own));
    }
}

/// Bishops cannot mate if all on the board stand on squares of one shade and the other
/// side has neither knight nor pawn; with bishops on both shades, or such a piece of
/// the other side, they can.
pub proof fn law_when_bishops_can_mate(board: Board, color: Color, s: int, t: int)
    requires
        on_board(s),
        board.holds(s, color, Role::Bishop),
        forall|u: int|
            on_board(u) && board.has_color(u, color) ==> (#[trigger] board.piece(u))->0.role == Role::Bishop
                || board.piece(u)->0.role == Role::King,
    ensures
        on_board(t) && board.piece(t) is Some && board.piece(t)->0.role == Role::Bishop && (s % 8 + s / 8) % 2 != (t
            % 8 + t / 8) % 2 ==> !cannot_mate(board, color),
        on_board(t) && (board.holds(t, color.opponent(), Role::Knight) || board.holds(
            t,
            color.opponent(),
            Role::Pawn,
        )) ==> !cannot_mate(board, color),
        (forall|u: int|
            on_board(u) && (#[trigger] board.piece(u)) is Some && board.piece(u)->0.role == Role::Bishop ==> (u % 8 + u
                / 8) % 2 == (s % 8 + s / 8) % 2) && (forall|u: int|
            on_board(u) && board.has_color(u, color.opponent()) ==> (#[trigger] board.piece(u))->0.role != Role::Knight
                && board.piece(u)->0.role != Role::Pawn) ==> cannot_mate(board, color),
{
    let other = color.opponent();
    assert(has_piece(board, color, Role::Bishop));
    assert forall|u: int, r: Role| on_board(u) && #[trigger] board.holds(u, color, r) implies r == Role::King || r
        == Role::Bishop by {
        assert(board.has_color(u, color));
        assert(board.piece(u)->0.role == r);
    }
    if on_board(t) && (board.holds(t, other, Role::Knight) || board.holds(t, other, Role::Pawn)) {
        assert(has_piece(board, other, Role::Knight) || has_piece(board, other, Role::Pawn));
    }
    if forall|u: int|
        on_board(u) && board.has_color(u, other) ==> (#[trigger] board.piece(u))->0.role != Role::Knight && board.piece(
            u,
        )->0.role != Role::Pawn {
        assert forall|u: int, r: Role| on_board(u) && #[trigger] board.holds(u, other, r) implies r != Role::Knight && r
            != Role::Pawn by {
            assert(board.has_color(u, other));
            assert(board.piece(u)->0.role == r);
        }
    }
}

/// Leaving a square out of what is counted takes its share off the count.
proof fn lemma_without(p: spec_fn(int) -> bool, q: spec_fn(int) -> bool, a: int)
    requires
        on_board(a),
        !q(a),
        forall|s: int| on_board(s) && s != a ==> #[trigger] q(s) == p(s),
    ensures
        count_squares(p) == count_squares(q) + one_if(p(a)),
{
    let f = |s: int| one_if(q(s));
    let g = |s: int| one_if(p(s));
    assert forall|t: int| 0 <= t < 64 && t != a implies #[trigger] f(t) == g(t) by {
        assert(q(t) == p(t));
    }
    lemma_sum_change(f, g, a, 64);
    lemma_sum_ext(f, |s: int| one_if(q(s)), 64);
    lemma_sum_ext(g, |s: int| one_if(p(s)), 64);
}

proof fn lemma_three(p: spec_fn(int) -> bool, a: int, b: int, c: int)
    requires
        on_board(a),
        on_board(b),
        on_board(c),
        a != b,
        b != c,
        a != c,
        p(a),
        p(b),
        p(c),
    ensures
        count_squares(p) >= 3,
{
    let q = |s: int| p(s) && s != a;
    assert(q(b) && q(c));
    lemma_without(p, q, a);
    lemma_count_two(q, 64);
    if b < c {
        assert(q(b) && q(c));
    } else {
        assert(q(c) && q(b));
    }
}

proof fn lemma_at_most_two(p: spec_fn(int) -> bool, a: int, b: int)
    requires
        on_board(a),
        on_board(b),
        forall|s: int| on_board(s) && s != a && s != b ==> !#[trigger] p(s),
    ensures
        count_squares(p) <= 2,
{
    let q = |s: int| p(s) && s != a;
    lemma_without(p, q, a);
    lemma_count_two(q, 64);
    if count_squares(q) >= 2 {
        let (s, t) = choose|s: int, t: int| 0 <= s < t < 64 && #[trigger] q(s) && #[trigger] q(t);
        assert(p(s) && p(t));
    }
}

} // verus!
