//! What the tokens of a position and the policy indices of its moves tell, read back.

use vstd::prelude::*;

use crate::chess::{bit, on_board, spec_file, spec_rank, Board, Color, Role, Square};
use crate::encoding::{
    canonical_fen, castling_number, letter_place, policy_index, prefix_word, r50_number, square_token, squares_of,
};
use crate::rules::{mirror_of, state, Move, Setup};
use crate::text::decimal;
use crate::vocab::{law_tokens_are_distinct, numbered, vocab_word, PIECE_CHARS};

verus! {

/// Each castling right adds its own bit to the castling number: White's king side one,
/// White's queen side two, Black's king side four, Black's queen side eight.
pub proof fn law_each_castling_right_has_its_bit(a: u64, b: u64, s: int)
    requires
        s == 0 || s == 7 || s == 56 || s == 63,
        bit(a, s),
        !bit(b, s),
        forall|t: int| #![trigger bit(a, t)] (t == 0 || t == 7 || t == 56 || t == 63) && t != s ==> bit(a, t) == bit(b, t),
    ensures
        s == 7 ==> castling_number(a) == castling_number(b) + 1,
        s == 0 ==> castling_number(a) == castling_number(b) + 2,
        s == 63 ==> castling_number(a) == castling_number(b) + 4,
        s == 56 ==> castling_number(a) == castling_number(b) + 8,
{
    assert(bit(a, 0) == bit(a, 0) && bit(a, 7) == bit(a, 7) && bit(a, 56) == bit(a, 56) && bit(a, 63) == bit(a, 63));
}

/// Without any right the castling number is zero, and it is never above fifteen.
pub proof fn law_castling_numbers_start_at_zero(rights: u64)
    ensures
        !bit(rights, 0) && !bit(rights, 7) && !bit(rights, 56) && !bit(rights, 63) ==> castling_number(rights) == 0,
        0 <= castling_number(rights) <= 15,
{
}

/// The prefix tells castling rights apart: two positions with the same castling token have
/// the same rights on each of a1, h1, a8 and h8.
pub proof fn law_prefixes_tell_castling_rights_apart(
    s: Setup,
    t: Setup,
    ep: Option<Square>,
    other_ep: Option<Square>,
    repetitions: int,
    other_repetitions: int,
)
    requires
        prefix_word(s, ep, repetitions, 65) == prefix_word(t, other_ep, other_repetitions, 65),
    ensures
        bit(s.castling, 0) == bit(t.castling, 0),
        bit(s.castling, 7) == bit(t.castling, 7),
        bit(s.castling, 56) == bit(t.castling, 56),
        bit(s.castling, 63) == bit(t.castling, 63),
{
    let (a, b) = (castling_number(s.castling), castling_number(t.castling));
    assert(vocab_word(17 + a) == numbered("cas:"@, a) && vocab_word(17 + b) == numbered("cas:"@, b));
    law_tokens_are_distinct(17 + a, 17 + b);
}

/// The token of each piece: capital letters for the mover's, small ones for the opponent's,
/// a dot for an empty square.
pub proof fn law_piece_tokens(board: Board, s: int)
    ensures
        board.piece(s) is None ==> square_token(board, s) == "sq:."@,
        forall|color: Color, role: Role| #[trigger] board.holds(s, color, role) ==> square_token(board, s) == "sq:"@.push(
            match (color, role) {
                (Color::White, Role::Pawn) => 'P',
                (Color::White, Role::Knight) => 'N',
                (Color::White, Role::Bishop) => 'B',
                (Color::White, Role::Rook) => 'R',
                (Color::White, Role::Queen) => 'Q',
                (Color::White, Role::King) => 'K',
                (Color::Black, Role::Pawn) => 'p',
                (Color::Black, Role::Knight) => 'n',
                (Color::Black, Role::Bishop) => 'b',
                (Color::Black, Role::Rook) => 'r',
                (Color::Black, Role::Queen) => 'q',
                (Color::Black, Role::King) => 'k',
            },
        ),
{
    reveal_strlit("PNBRQKpnbrqk");
}

/// The token of square `s` stands behind the start mark, in the order a1, b1 to h8.
pub proof fn law_squares_are_told_in_order(s: Setup, ep: Option<Square>, repetitions: int, q: int)
    requires
        on_board(q),
    ensures
        prefix_word(s, ep, repetitions, 1 + q) == square_token(s.board, q),
        prefix_word(s, ep, repetitions, 0) == "<bos>"@,
        prefix_word(s, ep, repetitions, 69) == "<sep>"@,
{
}

/// The prefix tells boards apart: two positions whose square tokens agree have the same
/// piece on every square.
pub proof fn law_prefixes_tell_boards_apart(a: Board, b: Board, s: int)
    requires
        square_token(a, s) == square_token(b, s),
    ensures
        a.piece(s) == b.piece(s),
{
    reveal_strlit("PNBRQKpnbrqk");
    reveal_strlit("sq:.");
    reveal_strlit("sq:");
    let (x, y) = (square_token(a, s), square_token(b, s));
    assert(x.last() == y.last());
    if a.piece(s) is Some {
        assert(x.last() == PIECE_CHARS@[letter_place(a.piece(s)->0)]);
    } else {
        assert(x.last() == '.');
    }
    if b.piece(s) is Some {
        assert(y.last() == PIECE_CHARS@[letter_place(b.piece(s)->0)]);
    } else {
        assert(y.last() == '.');
    }
}

/// The en passant token names the file of the square, or none.
pub proof fn law_en_passant_tokens(s: Setup, ep: Option<Square>, repetitions: int)
    ensures
        ep is None ==> prefix_word(s, ep, repetitions, 66) == "ep:-"@,
        ep is Some && ep->0.valid() ==> prefix_word(s, ep, repetitions, 66) == "ep:"@.push(
            (97 + (ep->0).0 as int % 8) as char,
        ),
{
}

/// The fifty-move token: thirteen half moves to a step, seven steps at most.
pub proof fn law_fifty_move_tokens(s: Setup, ep: Option<Square>, repetitions: int)
    ensures
        ({
            let n = r50_number(s.halfmoves as int);
            &&& prefix_word(s, ep, repetitions, 67) == "r50:"@ + decimal(n as nat)
            &&& 0 <= n <= 7
            &&& 13 * n <= s.halfmoves
            &&& s.halfmoves < 13 * (n + 1) || n == 7
        }),
{
}

/// The repetition token counts up to two.
pub proof fn law_repetition_tokens(s: Setup, ep: Option<Square>, repetitions: int)
    requires
        repetitions >= 0,
    ensures
        repetitions <= 2 ==> prefix_word(s, ep, repetitions, 68) == "rep:"@ + decimal(repetitions as nat),
        repetitions > 2 ==> prefix_word(s, ep, repetitions, 68) == "rep:"@ + decimal(2),
{
}

/// The planes of a policy index: seven steps north, then north-east and so on clockwise;
/// then the knight's hops clockwise from the first to the right of north; then the
/// underpromotions to knight, bishop and rook, each to the left, straight on and to the
/// right. A queen promotion is the plain step.
pub proof fn law_policy_planes(from: int, to: int, promotion: Option<Role>)
    requires
        on_board(from),
        on_board(to),
        from != to,
    ensures
        ({
            let (df, dr) = (spec_file(to) - spec_file(from), spec_rank(to) - spec_rank(from));
            let plane = policy_index(from, to, promotion) - 73 * from;
            let plain = promotion is None || promotion == Some(Role::Queen);
            &&& plain && df == 0 && dr > 0 ==> plane == dr - 1
            &&& plain && df > 0 && dr == df ==> plane == 7 + df - 1
            &&& plain && df > 0 && dr == 0 ==> plane == 14 + df - 1
            &&& plain && df > 0 && dr == -df ==> plane == 21 + df - 1
            &&& plain && df == 0 && dr < 0 ==> plane == 28 - dr - 1
            &&& plain && df < 0 && dr == df ==> plane == 35 - df - 1
            &&& plain && df < 0 && dr == 0 ==> plane == 42 - df - 1
            &&& plain && df < 0 && dr == -df ==> plane == 49 - df - 1
            &&& plain && df == 1 && dr == 2 ==> plane == 56
            &&& plain && df == 2 && dr == 1 ==> plane == 57
            &&& plain && df == 2 && dr == -1 ==> plane == 58
            &&& plain && df == 1 && dr == -2 ==> plane == 59
            &&& plain && df == -1 && dr == -2 ==> plane == 60
            &&& plain && df == -2 && dr == -1 ==> plane == 61
            &&& plain && df == -2 && dr == 1 ==> plane == 62
            &&& plain && df == -1 && dr == 2 ==> plane == 63
            &&& promotion == Some(Role::Knight) ==> plane == 65 + df
            &&& promotion == Some(Role::Bishop) ==> plane == 68 + df
            &&& promotion == Some(Role::Rook) ==> plane == 71 + df
        }),
{
}

/// Castling is the king's own step: two files towards the rook it castles with, on its own
/// rank. Every other move is told by the squares it goes from and to.
pub proof fn law_moves_are_told_by_their_squares(m: Move)
    ensures
        match m {
            Move::Normal { from, to, promotion, .. } => squares_of(m) == (from, to, promotion),
            Move::EnPassant { from, to } => squares_of(m) == (from, to, None::<Role>),
            Move::Castle { king, rook } => {
                &&& squares_of(m).0 == king
                &&& squares_of(m).2 is None
                &&& king == Square(4) && rook == Square(7) ==> squares_of(m).1 == Square(6)
                &&& king == Square(4) && rook == Square(0) ==> squares_of(m).1 == Square(2)
                &&& king == Square(60) && rook == Square(63) ==> squares_of(m).1 == Square(62)
                &&& king == Square(60) && rook == Square(56) ==> squares_of(m).1 == Square(58)
            },
        },
{
}

/// White sees the board as it is; to Black it is turned round, so that the side to
/// move always plays up the board.
pub proof fn law_the_board_is_seen_by_the_mover(fen: Seq<char>)
    ensures
        state(fen).turn == Color::White ==> canonical_fen(fen) == fen,
        state(fen).turn == Color::Black ==> canonical_fen(fen) == mirror_of(fen),
{
}

} // verus!
