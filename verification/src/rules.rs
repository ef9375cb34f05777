//! The rules of chess, as the `shakmaty` crate implements them.
//!
//! A position travels between this library and `shakmaty` as FEN text, and what
//! the library's own logic reads of it is the plain [`Setup`] decoded from that
//! text. Each call into `shakmaty` stands in one small trusted function here.

use std::str::FromStr;

use shakmaty::fen::Fen;
use shakmaty::uci::UciMove;
use shakmaty::zobrist::Zobrist64;
use shakmaty::{CastlingMode, Chess, Color as Side, EnPassantMode, Position as _};
use vstd::prelude::*;

use crate::chess::{
    abs, bit, flip, on_board, reaches, spec_file, spec_rank, Bitboard, Board, Color, Piece, Role,
    Square,
};
use crate::sums::count_squares;

verus! {

/// What a position holds beside its history: pieces, side to move, castling
/// rights (the squares of the rooks concerned), the square passed over by a
/// pawn's double step just made, and the two move counters.
#[derive(Clone, Copy, PartialEq, Eq, Structural, Debug)]
pub struct Setup {
    pub board: Board,
    pub turn: Color,
    pub castling: u64,
    pub ep_square: Option<Square>,
    pub halfmoves: u32,
    pub fullmoves: u32,
}

impl Setup {
    /// No pawn stands on the first or the last rank.
    pub open spec fn pawns_inside(self) -> bool {
        forall|s: int| #![trigger self.board.piece(s)]
            on_board(s) && self.board.piece(s) is Some && self.board.piece(s)->0.role == Role::Pawn
                ==> 0 < spec_rank(s) < 7
    }

    /// What holds of every position that the rules accept.
    pub open spec fn valid(self) -> bool {
        &&& self.board.wf()
        &&& self.pawns_inside()
        &&& exists|k: int| self.board.king_on(Color::White, k)
        &&& exists|k: int| self.board.king_on(Color::Black, k)
        &&& self.ep_square is Some ==> self.ep_square->0.valid()
    }

    /// Is the side to move in check?
    pub open spec fn in_check(self) -> bool {
        exists|k: int| #[trigger] self.board.king_on(self.turn, k) && self.board.attacked(k, self.turn.opponent())
    }

    /// `other` is this setup seen from the other side of the board: the ranks
    /// are reversed, the colours exchanged, and the other side is to move.
    pub open spec fn mirrors(self, other: Setup) -> bool {
        &&& boards_mirror(self.board, other.board)
        &&& other.turn == self.turn.opponent()
        &&& forall|s: int| #![trigger bit(self.castling, s)] #![trigger bit(other.castling, flip(s))]
            on_board(s) ==> bit(other.castling, flip(s)) == bit(self.castling, s)
        &&& other.ep_square == reflected(self.ep_square)
        &&& other.halfmoves == self.halfmoves
        &&& other.fullmoves == self.fullmoves
    }
}

/// A square seen from the other side of the board.
pub open spec fn reflected(sq: Option<Square>) -> Option<Square> {
    match sq {
        Some(q) => Some(Square(flip(q.0 as int) as u8)),
        None => None,
    }
}

/// The same piece with the colour exchanged.
pub open spec fn swap_piece(p: Option<Piece>) -> Option<Piece> {
    match p {
        Some(p) => Some(Piece { color: p.color.opponent(), role: p.role }),
        None => None,
    }
}

/// Every piece of `a` stands in `b` on the vertically reflected square, with the
/// colour exchanged.
pub open spec fn boards_mirror(a: Board, b: Board) -> bool {
    forall|s: int| #![trigger a.piece(s)] #![trigger b.piece(flip(s))]
        on_board(s) ==> b.piece(flip(s)) == swap_piece(a.piece(s))
}

/// A move. Castling is written as the king's square and the square of the rook
/// it castles with.
#[derive(Clone, Copy, PartialEq, Eq, Structural, Debug)]
pub enum Move {
    Normal { role: Role, from: Square, capture: Option<Role>, to: Square, promotion: Option<Role> },
    EnPassant { from: Square, to: Square },
    Castle { king: Square, rook: Square },
}

/// A move in plain numbers: roles count from 1 (pawn) to 6 (king), and castling
/// goes from the king's square to the rook's.
#[derive(Clone, Copy, PartialEq, Eq, Structural, Debug)]
pub struct RawMove {
    pub castle: bool,
    pub en_passant: bool,
    pub role: u8,
    pub from: u8,
    pub capture: Option<u8>,
    pub to: u8,
    pub promotion: Option<u8>,
}

/// The role that a code from 1 to 6 stands for.
pub open spec fn role_of(code: u8) -> Role {
    if code == 1 {
        Role::Pawn
    } else if code == 2 {
        Role::Knight
    } else if code == 3 {
        Role::Bishop
    } else if code == 4 {
        Role::Rook
    } else if code == 5 {
        Role::Queen
    } else {
        Role::King
    }
}

pub open spec fn optional_role(code: Option<u8>) -> Option<Role> {
    match code {
        Some(c) => Some(role_of(c)),
        None => None,
    }
}

/// The move that a raw move stands for.
pub open spec fn decode_move(raw: RawMove) -> Move {
    if raw.castle {
        Move::Castle { king: Square(raw.from), rook: Square(raw.to) }
    } else if raw.en_passant {
        Move::EnPassant { from: Square(raw.from), to: Square(raw.to) }
    } else {
        Move::Normal {
            role: role_of(raw.role),
            from: Square(raw.from),
            capture: optional_role(raw.capture),
            to: Square(raw.to),
            promotion: optional_role(raw.promotion),
        }
    }
}

/// How a legal move of each kind lies on the board it is played on.
pub open spec fn move_fits(s: Setup, m: Move) -> bool {
    match m {
        Move::Normal { role, from, capture, to, promotion } => {
            let (a, b) = (from.0 as int, to.0 as int);
            let df = spec_file(b) - spec_file(a);
            let dr = spec_rank(b) - spec_rank(a);
            let step = s.turn.forward();
            let second: int = if s.turn == Color::White { 1 } else { 6 };
            &&& on_board(a)
            &&& on_board(b)
            &&& s.board.holds(a, s.turn, role)
            &&& capture == (match s.board.piece(b) {
                Some(p) => Some(p.role),
                None => None,
            })
            &&& if role == Role::Pawn {
                &&& (abs(df) <= 1 && dr == step) || (df == 0 && dr == 2 * step && spec_rank(a) == second)
                &&& df != 0 <==> capture is Some
                &&& promotion is Some <==> spec_rank(b) == 0 || spec_rank(b) == 7
                &&& promotion is Some ==> promotion->0 != Role::Pawn && promotion->0 != Role::King
            } else {
                &&& reaches(Piece { color: s.turn, role }, a, b, s.board.occupied_bits())
                &&& promotion is None
            }
        },
        Move::EnPassant { from, to } => {
            let (a, b) = (from.0 as int, to.0 as int);
            &&& on_board(a)
            &&& on_board(b)
            &&& s.board.holds(a, s.turn, Role::Pawn)
            &&& abs(spec_file(b) - spec_file(a)) == 1
            &&& spec_rank(b) - spec_rank(a) == s.turn.forward()
            &&& 0 < spec_rank(b) < 7
            &&& s.ep_square == Some(to)
            &&& s.board.piece(b) is None
        },
        Move::Castle { king, rook } => {
            let home: int = if s.turn == Color::White { 0 } else { 56 };
            &&& king.0 == home + 4
            &&& rook.0 == home || rook.0 == home + 7
            &&& s.board.holds(king.0 as int, s.turn, Role::King)
            &&& s.board.holds(rook.0 as int, s.turn, Role::Rook)
        },
    }
}

/// The position that a FEN describes, `None` where the text is no FEN or the
/// position is refused.
pub uninterp spec fn setup_of(fen: Seq<char>) -> Option<Setup>;

/// The legal moves of a FEN's position, in the order in which they are generated.
pub uninterp spec fn raw_moves_of(fen: Seq<char>) -> Seq<RawMove>;

/// The FEN of a position seen from the other side of the board.
pub uninterp spec fn mirror_of(fen: Seq<char>) -> Seq<char>;

/// The FEN of the position after the legal move with this index.
pub uninterp spec fn fen_after(fen: Seq<char>, index: int) -> Seq<char>;

/// The Zobrist hash of a FEN's position.
pub uninterp spec fn zobrist_of(fen: Seq<char>) -> u64;

/// The FEN with the en passant square left out unless a capture on it is legal.
pub uninterp spec fn legal_fen_of(fen: Seq<char>) -> Seq<char>;

/// The legal move that a UCI word denotes, in plain numbers.
pub uninterp spec fn uci_move_of(fen: Seq<char>, word: Seq<char>) -> Option<RawMove>;

pub open spec fn accepted(fen: Seq<char>) -> bool {
    setup_of(fen) is Some
}

pub open spec fn state(fen: Seq<char>) -> Setup {
    setup_of(fen)->0
}

/// The legal moves of a position.
pub open spec fn moves_of(fen: Seq<char>) -> Seq<Move> {
    raw_moves_of(fen).map_values(|raw: RawMove| decode_move(raw))
}

/// The en passant square, if some legal move captures on it.
pub open spec fn legal_ep_of(fen: Seq<char>) -> Option<Square> {
    if exists|i: int| 0 <= i < moves_of(fen).len() && #[trigger] moves_of(fen)[i] is EnPassant {
        state(fen).ep_square
    } else {
        None
    }
}

/// The legal move that a UCI word denotes, if it denotes one.
pub open spec fn legal_uci(fen: Seq<char>, word: Seq<char>) -> Option<Move> {
    match uci_move_of(fen, word) {
        Some(raw) => Some(decode_move(raw)),
        None => None,
    }
}

/// Some piece of this colour and role is on the board.
pub open spec fn has_piece(board: Board, color: Color, role: Role) -> bool {
    exists|s: int| on_board(s) && #[trigger] board.holds(s, color, role)
}

/// All bishops on the board stand on squares of one colour.
pub open spec fn bishops_alike(board: Board) -> bool {
    forall|s: int, t: int| #![trigger board.piece(s), board.piece(t)]
        on_board(s) && on_board(t) && board.piece(s) is Some && board.piece(t) is Some && board.piece(s)->0.role
            == Role::Bishop && board.piece(t)->0.role == Role::Bishop ==> (spec_file(s) + spec_rank(s)) % 2 == (
        spec_file(t) + spec_rank(t)) % 2
}

/// What a side has can never mate. Pawns, rooks and queens always can. A knight can
/// unless it is all the side has beside the king and the other side has nothing beside
/// king and queens that could block its king in. Bishops can unless all bishops of
/// both sides stand on one colour and there is neither a knight nor a pawn.
pub open spec fn cannot_mate(board: Board, color: Color) -> bool {
    let other = color.opponent();
    if has_piece(board, color, Role::Pawn) || has_piece(board, color, Role::Rook) || has_piece(
        board,
        color,
        Role::Queen,
    ) {
        false
    } else if has_piece(board, color, Role::Knight) {
        &&& count_squares(|s: int| board.has_color(s, color)) <= 2
        &&& !has_piece(board, other, Role::Pawn)
        &&& !has_piece(board, other, Role::Knight)
        &&& !has_piece(board, other, Role::Bishop)
        &&& !has_piece(board, other, Role::Rook)
    } else if has_piece(board, color, Role::Bishop) {
        &&& bishops_alike(board)
        &&& !has_piece(board, other, Role::Knight)
        &&& !has_piece(board, other, Role::Pawn)
    } else {
        true
    }
}

/// Neither side has the material to mate.
pub open spec fn insufficient_of(fen: Seq<char>) -> bool {
    cannot_mate(state(fen).board, Color::White) && cannot_mate(state(fen).board, Color::Black)
}

/// `back` tells the position of `fen`, with its en passant square only if a capture on
/// it is legal, which it then still is.
pub open spec fn tells(fen: Seq<char>, back: Seq<char>) -> bool {
    &&& accepted(back)
    &&& state(back) == (Setup { ep_square: legal_ep_of(fen), ..state(fen) })
    &&& legal_ep_of(back) == legal_ep_of(fen)
}

/// The side to move is in check and has no move.
pub open spec fn checkmate(fen: Seq<char>) -> bool {
    state(fen).in_check() && moves_of(fen).len() == 0
}

/// The side to move is not in check and has no move.
pub open spec fn stalemate(fen: Seq<char>) -> bool {
    !state(fen).in_check() && moves_of(fen).len() == 0
}

/// Decode a FEN with `Fen::from_str` and `Fen::into_position` under standard
/// castling, and read the accessors of the resulting `Chess`. `Chess` accepts
/// only boards with one king to a side and no pawn on an outer rank.
#[verifier::external_body]
fn read_setup(fen: &str) -> (r: Option<Setup>)
    ensures
        r == setup_of(fen@),
        r is Some ==> r->0.valid(),
{
    let pos: Chess = Fen::from_str(fen).ok()?.into_position(CastlingMode::Standard).ok()?;
    let (r, c) = pos.board().clone().into_bitboards();
    Some(Setup {
        board: Board {
            pawns: r.pawn.0, knights: r.knight.0, bishops: r.bishop.0, rooks: r.rook.0,
            queens: r.queen.0, kings: r.king.0, white: c.white.0, black: c.black.0,
        },
        turn: pos.turn().fold_wb(Color::White, Color::Black),
        castling: pos.castles().castling_rights().0,
        ep_square: pos.maybe_ep_square().map(|sq| Square(sq as u8)),
        halfmoves: pos.halfmoves(),
        fullmoves: pos.fullmoves().get(),
    })
}

/// `Position::legal_moves`. No move is listed twice. Every move is made for a piece
/// of the side to move and follows that piece's way of moving; a pawn steps twice from
/// its second rank only, leaves its file exactly when it captures, and promotes exactly
/// when it reaches an outer rank. An en passant capture goes to the en passant square,
/// which is empty.
#[verifier::external_body]
fn raw_legal_moves(fen: &str) -> (r: Vec<RawMove>)
    requires
        accepted(fen@),
    ensures
        r@ == raw_moves_of(fen@),
        forall|i: int| 0 <= i < r@.len() ==> move_fits(state(fen@), decode_move(#[trigger] r@[i])),
        forall|i: int, j: int| 0 <= i < j < r@.len() ==> decode_move(#[trigger] r@[i]) != decode_move(
            #[trigger] r@[j],
        ),
{
    let pos: Chess = Fen::from_str(fen).unwrap().into_position(CastlingMode::Standard).unwrap();
    let plain = |m: &shakmaty::Move| RawMove {
        castle: m.is_castle(),
        en_passant: m.is_en_passant(),
        role: m.role() as u8,
        from: m.from().unwrap() as u8,
        capture: m.capture().map(|r| r as u8),
        to: m.to() as u8,
        promotion: m.promotion().map(|r| r as u8),
    };
    pos.legal_moves().iter().map(plain).collect()
}

/// `Position::play_unchecked` on the legal move with this index, written with
/// `Fen::from_position` under `EnPassantMode::Always`. The resulting position is
/// accepted again, and the other side is to move.
#[verifier::external_body]
fn play_index(fen: &str, index: usize) -> (r: String)
    requires
        accepted(fen@),
        index < raw_moves_of(fen@).len(),
    ensures
        r@ == fen_after(fen@, index as int),
        accepted(r@),
        state(r@).turn == state(fen@).turn.opponent(),
{
    let mut pos: Chess = Fen::from_str(fen).unwrap().into_position(CastlingMode::Standard).unwrap();
    let m = pos.legal_moves()[index];
    pos.play_unchecked(m);
    Fen::from_position(&pos, EnPassantMode::Always).to_string()
}

/// `Setup::into_mirrored` on `Position::to_setup` under `EnPassantMode::Always`.
/// The mirror of an accepted position is accepted. Moves are generated alike for both
/// sides, so a capture on the en passant square is legal in the mirror exactly if it
/// is legal in the position.
#[verifier::external_body]
fn mirrored_fen(fen: &str) -> (r: String)
    requires
        accepted(fen@),
    ensures
        r@ == mirror_of(fen@),
        accepted(r@),
        state(fen@).mirrors(state(r@)),
        legal_ep_of(r@) == reflected(legal_ep_of(fen@)),
{
    let pos: Chess = Fen::from_str(fen).unwrap().into_position(CastlingMode::Standard).unwrap();
    let setup = pos.to_setup(EnPassantMode::Always).into_mirrored();
    Fen::try_from_setup(setup).unwrap().to_string()
}

/// The FEN of the initial position of a game.
pub const START_FEN: &'static str = "rnbqkbnr/pppppppp/8/8/8/8/PPPPPPPP/RNBQKBNR w KQkq - 0 1";

/// `Fen::from_position` of `Chess::default()`, the initial position of a game: the
/// text and the setup that it decodes to.
#[verifier::external_body]
fn initial_fen() -> (r: String)
    ensures
        r@ == START_FEN@,
        setup_of(r@) == Some(initial_setup()),
{
    Fen::from_position(&Chess::default(), EnPassantMode::Always).to_string()
}

/// `Position::zobrist_hash` with `Zobrist64` under `EnPassantMode::Legal`.
#[verifier::external_body]
fn zobrist(fen: &str) -> (r: u64)
    requires
        accepted(fen@),
    ensures
        r == zobrist_of(fen@),
{
    let pos: Chess = Fen::from_str(fen).unwrap().into_position(CastlingMode::Standard).unwrap();
    let hash: Zobrist64 = pos.zobrist_hash(EnPassantMode::Legal);
    hash.0
}

/// `Position::is_insufficient_material`, which asks `Chess::has_insufficient_material`
/// of both sides: whether what is on the board rules out every mate.
#[verifier::external_body]
fn insufficient_material(fen: &str) -> (r: bool)
    requires
        accepted(fen@),
    ensures
        r == insufficient_of(fen@),
{
    let pos: Chess = Fen::from_str(fen).unwrap().into_position(CastlingMode::Standard).unwrap();
    pos.is_insufficient_material()
}

/// `Position::ep_square` under `EnPassantMode::Legal`: the en passant square if
/// one of the legal moves is an en passant capture.
#[verifier::external_body]
fn legal_ep_square(fen: &str) -> (r: Option<Square>)
    requires
        accepted(fen@),
    ensures
        r == legal_ep_of(fen@),
        r is Some ==> r->0.valid(),
{
    let pos: Chess = Fen::from_str(fen).unwrap().into_position(CastlingMode::Standard).unwrap();
    pos.ep_square(EnPassantMode::Legal).map(|sq| Square(sq as u8))
}

/// `Position::is_check`: a piece of the other side attacks the king of the side
/// to move.
#[verifier::external_body]
fn in_check(fen: &str) -> (r: bool)
    requires
        accepted(fen@),
    ensures
        r == state(fen@).in_check(),
{
    let pos: Chess = Fen::from_str(fen).unwrap().into_position(CastlingMode::Standard).unwrap();
    pos.is_check()
}

/// `Fen::from_position` under `EnPassantMode::Legal`. The text describes the same
/// position, with the en passant square only if a capture on it is legal, which it
/// then still is.
#[verifier::external_body]
fn legal_fen(fen: &str) -> (r: String)
    requires
        accepted(fen@),
    ensures
        r@ == legal_fen_of(fen@),
        tells(fen@, r@),
{
    let pos: Chess = Fen::from_str(fen).unwrap().into_position(CastlingMode::Standard).unwrap();
    Fen::from_position(&pos, EnPassantMode::Legal).to_string()
}

/// `UciMove::from_str` and `UciMove::to_move`, which hands out legal moves only.
#[verifier::external_body]
fn raw_uci_move(fen: &str, word: &str) -> (r: Option<RawMove>)
    requires
        accepted(fen@),
    ensures
        r == uci_move_of(fen@, word@),
        r is Some ==> raw_moves_of(fen@).contains(r->0),
{
    let pos: Chess = Fen::from_str(fen).unwrap().into_position(CastlingMode::Standard).unwrap();
    let m = UciMove::from_str(word).ok()?.to_move(&pos).ok()?;
    Some(RawMove {
        castle: m.is_castle(),
        en_passant: m.is_en_passant(),
        role: m.role() as u8,
        from: m.from().unwrap() as u8,
        capture: m.capture().map(|r| r as u8),
        to: m.to() as u8,
        promotion: m.promotion().map(|r| r as u8),
    })
}

/// `Board::attacks_to`: the pieces of one colour that attack a square when the
/// squares in `occupied` block their lines.
#[verifier::external_body]
pub(crate) fn attacks_to_bits(board: &Board, sq: u8, color: Color, occupied: u64) -> (r: u64)
    requires
        board.wf(),
        sq < 64,
    ensures
        forall|i: int| #![trigger bit(r, i)]
            on_board(i) ==> bit(r, i) == board.attacks_with(i, color, sq as int, occupied),
{
    let set = shakmaty::Bitboard;
    let (pawn, knight, bishop) = (set(board.pawns), set(board.knights), set(board.bishops));
    let (rook, queen, king) = (set(board.rooks), set(board.queens), set(board.kings));
    let roles = shakmaty::ByRole { pawn, knight, bishop, rook, queen, king };
    let colors = shakmaty::ByColor { black: set(board.black), white: set(board.white) };
    let outside = shakmaty::Board::try_from_bitboards(roles, colors).unwrap();
    let attacker = match color { Color::White => Side::White, Color::Black => Side::Black };
    outside.attacks_to(shakmaty::Square::new(sq as u32), attacker, set(occupied)).0
}

/// `attacks::attacks`: the squares that a piece attacks from a square when the
/// squares in `occupied` block its lines.
#[verifier::external_body]
pub(crate) fn attacks_from_bits(piece: Piece, sq: u8, occupied: u64) -> (r: u64)
    requires
        sq < 64,
    ensures
        forall|i: int| #![trigger bit(r, i)]
            on_board(i) ==> bit(r, i) == reaches(piece, sq as int, i, occupied),
{
    let color = match piece.color { Color::White => Side::White, Color::Black => Side::Black };
    let role = match piece.role {
        Role::Pawn => shakmaty::Role::Pawn,
        Role::Knight => shakmaty::Role::Knight,
        Role::Bishop => shakmaty::Role::Bishop,
        Role::Rook => shakmaty::Role::Rook,
        Role::Queen => shakmaty::Role::Queen,
        Role::King => shakmaty::Role::King,
    };
    let outside = shakmaty::Piece { color, role };
    shakmaty::attacks::attacks(shakmaty::Square::new(sq as u32), outside, shakmaty::Bitboard(occupied)).0
}

/// The setup every game starts from.
pub open spec fn initial_setup() -> Setup {
    Setup {
        board: Board {
            pawns: 0x00ff_0000_0000_ff00,
            knights: 0x4200_0000_0000_0042,
            bishops: 0x2400_0000_0000_0024,
            rooks: 0x8100_0000_0000_0081,
            queens: 0x0800_0000_0000_0008,
            kings: 0x1000_0000_0000_0010,
            white: 0xffff,
            black: 0xffff_0000_0000_0000,
        },
        turn: Color::White,
        castling: 0x8100_0000_0000_0081,
        ep_square: None,
        halfmoves: 0,
        fullmoves: 1,
    }
}

fn role_from_code(code: u8) -> (r: Role)
    ensures
        r == role_of(code),
{
    match code {
        1 => Role::Pawn,
        2 => Role::Knight,
        3 => Role::Bishop,
        4 => Role::Rook,
        5 => Role::Queen,
        _ => Role::King,
    }
}

fn optional_role_from(code: Option<u8>) -> (r: Option<Role>)
    ensures
        r == optional_role(code),
{
    match code {
        Some(c) => Some(role_from_code(c)),
        None => None,
    }
}

fn decode_raw(raw: &RawMove) -> (r: Move)
    ensures
        r == decode_move(*raw),
{
    if raw.castle {
        Move::Castle { king: Square(raw.from), rook: Square(raw.to) }
    } else if raw.en_passant {
        Move::EnPassant { from: Square(raw.from), to: Square(raw.to) }
    } else {
        Move::Normal {
            role: role_from_code(raw.role),
            from: Square(raw.from),
            capture: optional_role_from(raw.capture),
            to: Square(raw.to),
            promotion: optional_role_from(raw.promotion),
        }
    }
}

impl Move {
    pub open spec fn takes(self) -> Option<Role> {
        match self {
            Move::Normal { capture, .. } => capture,
            Move::EnPassant { .. } => Some(Role::Pawn),
            Move::Castle { .. } => None,
        }
    }

    pub open spec fn mover(self) -> Role {
        match self {
            Move::Normal { role, .. } => role,
            Move::EnPassant { .. } => Role::Pawn,
            Move::Castle { .. } => Role::King,
        }
    }

    pub open spec fn promotes_to(self) -> Option<Role> {
        match self {
            Move::Normal { promotion, .. } => promotion,
            _ => None,
        }
    }

    /// The role of the piece that this move captures.
    pub fn capture(&self) -> (r: Option<Role>)
        ensures
            r == self.takes(),
    {
        match *self {
            Move::Normal { capture, .. } => capture,
            Move::EnPassant { .. } => Some(Role::Pawn),
            Move::Castle { .. } => None,
        }
    }

    pub fn is_capture(&self) -> (r: bool)
        ensures
            r == (self.takes() is Some),
    {
        self.capture().is_some()
    }

    /// The role of the moving piece.
    pub fn role(&self) -> (r: Role)
        ensures
            r == self.mover(),
    {
        match *self {
            Move::Normal { role, .. } => role,
            Move::EnPassant { .. } => Role::Pawn,
            Move::Castle { .. } => Role::King,
        }
    }

    pub fn promotion(&self) -> (r: Option<Role>)
        ensures
            r == self.promotes_to(),
    {
        match *self {
            Move::Normal { promotion, .. } => promotion,
            Move::EnPassant { .. } => None,
            Move::Castle { .. } => None,
        }
    }
}

/// The first place at which `m` stands in a list, counting from `start`; the
/// length of the list if it does not occur.
pub open spec fn first_place(moves: Seq<Move>, m: Move, start: int) -> int
    decreases moves.len() - start,
{
    if start < 0 || start >= moves.len() || moves[start] == m {
        start
    } else {
        first_place(moves, m, start + 1)
    }
}

/// The FEN after a legal move.
pub open spec fn fen_play(fen: Seq<char>, m: Move) -> Seq<char> {
    fen_after(fen, first_place(moves_of(fen), m, 0))
}

/// Each move of the line is legal where it is played.
pub open spec fn legal_line(fen: Seq<char>, line: Seq<Move>) -> bool
    decreases line.len(),
{
    line.len() == 0 || (moves_of(fen).contains(line[0]) && legal_line(fen_play(fen, line[0]), line.skip(1)))
}

/// The FEN after a line of moves.
pub open spec fn line_end(fen: Seq<char>, line: Seq<Move>) -> Seq<char>
    decreases line.len(),
{
    if line.len() == 0 {
        fen
    } else {
        line_end(fen_play(fen, line[0]), line.skip(1))
    }
}

/// A legal line with a legal move at its end is a legal line.
pub proof fn lemma_line_grows(fen: Seq<char>, line: Seq<Move>, m: Move)
    requires
        legal_line(fen, line),
        moves_of(line_end(fen, line)).contains(m),
    ensures
        legal_line(fen, line.push(m)),
        line_end(fen, line.push(m)) == fen_play(line_end(fen, line), m),
    decreases line.len(),
{
    if line.len() == 0 {
        assert(line.push(m).skip(1) =~= Seq::empty());
        assert(legal_line(fen_play(fen, m), Seq::empty()));
        assert(line_end(fen_play(fen, m), Seq::empty()) == fen_play(fen, m));
    } else {
        lemma_line_grows(fen_play(fen, line[0]), line.skip(1), m);
        assert(line.push(m).skip(1) =~= line.skip(1).push(m));
    }
}

/// An accepted position, held as its FEN and the setup decoded from it.
#[derive(Debug)]
pub struct Position {
    fen: String,
    setup: Setup,
}

impl View for Position {
    type V = Seq<char>;

    /// The position's FEN.
    closed spec fn view(&self) -> Seq<char> {
        self.fen@
    }
}

impl Position {
    #[verifier::type_invariant]
    spec fn decoded(self) -> bool {
        setup_of(self.fen@) == Some(self.setup) && self.setup.valid()
    }

    /// Read a FEN; `None` where the rules refuse it.
    pub fn from_fen(fen: &str) -> (r: Option<Position>)
        ensures
            match r {
                Some(p) => accepted(fen@) && p@ == fen@,
                None => !accepted(fen@),
            },
    {
        match read_setup(fen) {
            Some(setup) => Some(Position { fen: fen.to_owned(), setup }),
            None => None,
        }
    }

    /// The initial position of a game.
    pub fn start() -> (r: Position)
        ensures
            r@ == START_FEN@,
            accepted(r@),
            state(r@) == initial_setup(),
    {
        Position::decode(initial_fen())
    }

    fn decode(fen: String) -> (r: Position)
        requires
            accepted(fen@),
        ensures
            r@ == fen@,
    {
        match read_setup(fen.as_str()) {
            Some(setup) => Position { fen, setup },
            None => vstd::pervasive::unreached(),
        }
    }

    /// The position's FEN.
    pub fn fen(&self) -> (r: &str)
        ensures
            r@ == self@,
    {
        self.fen.as_str()
    }

    pub fn setup(&self) -> (r: Setup)
        ensures
            accepted(self@),
            r == state(self@),
            r.valid(),
    {
        proof {
            use_type_invariant(self);
        }
        self.setup
    }

    pub fn board(&self) -> (r: Board)
        ensures
            r == state(self@).board,
            r.wf(),
    {
        self.setup().board
    }

    pub fn turn(&self) -> (r: Color)
        ensures
            r == state(self@).turn,
    {
        self.setup().turn
    }

    pub fn halfmoves(&self) -> (r: u32)
        ensures
            r == state(self@).halfmoves,
    {
        self.setup().halfmoves
    }

    /// An independent copy.
    pub fn duplicate(&self) -> (r: Position)
        ensures
            r@ == self@,
    {
        proof {
            use_type_invariant(self);
        }
        Position { fen: self.fen.clone(), setup: self.setup }
    }

    /// The legal moves, in generation order.
    pub fn legal_moves(&self) -> (r: Vec<Move>)
        ensures
            r@ == moves_of(self@),
            r@.no_duplicates(),
            forall|i: int| 0 <= i < r@.len() ==> move_fits(state(self@), #[trigger] r@[i]),
    {
        proof {
            use_type_invariant(self);
        }
        let raw = raw_legal_moves(self.fen.as_str());
        let mut out: Vec<Move> = Vec::new();
        let mut i: usize = 0;
        while i < raw.len()
            invariant
                i <= raw.len(),
                raw@ == raw_moves_of(self@),
                forall|j: int| 0 <= j < raw@.len() ==> move_fits(state(self@), decode_move(#[trigger] raw@[j])),
                out@ == moves_of(self@).take(i as int),
                forall|j: int| 0 <= j < i ==> move_fits(state(self@), #[trigger] out@[j]),
            decreases raw.len() - i,
        {
            out.push(decode_raw(&raw[i]));
            i = i + 1;
            assert(out@ =~= moves_of(self@).take(i as int));
        }
        assert(moves_of(self@).take(raw.len() as int) =~= moves_of(self@));
        assert forall|i: int, j: int| 0 <= i < j < out@.len() implies out@[i] != out@[j] by {
            assert(out@[i] == decode_move(raw@[i]) && out@[j] == decode_move(raw@[j]));
        }
        out
    }

    /// The position after the legal move with this index.
    pub fn play(&self, index: usize) -> (r: Position)
        requires
            index < moves_of(self@).len(),
        ensures
            r@ == fen_after(self@, index as int),
            state(r@).turn == state(self@).turn.opponent(),
    {
        proof {
            use_type_invariant(self);
        }
        Position::decode(play_index(self.fen.as_str(), index))
    }

    /// The position after a legal move.
    pub fn play_move(&self, m: Move) -> (r: Position)
        requires
            moves_of(self@).contains(m),
        ensures
            r@ == fen_play(self@, m),
            state(r@).turn == state(self@).turn.opponent(),
    {
        let moves = self.legal_moves();
        let mut i: usize = 0;
        while moves[i] != m
            invariant
                moves@ == moves_of(self@),
                moves@.contains(m),
                i < moves.len(),
                forall|j: int| 0 <= j < i ==> moves@[j] != m,
                first_place(moves@, m, i as int) == first_place(moves@, m, 0),
            decreases moves.len() - i,
        {
            proof {
                let k = moves@.index_of(m);
                assert(moves@[k] == m);
            }
            i = i + 1;
        }
        self.play(i)
    }

    /// The position seen from the other side of the board.
    pub fn mirrored(&self) -> (r: Position)
        ensures
            r@ == mirror_of(self@),
            state(self@).mirrors(state(r@)),
            legal_ep_of(r@) == reflected(legal_ep_of(self@)),
    {
        proof {
            use_type_invariant(self);
        }
        Position::decode(mirrored_fen(self.fen.as_str()))
    }

    /// Is the side to move in check?
    pub fn is_check(&self) -> (r: bool)
        ensures
            r == state(self@).in_check(),
    {
        proof {
            use_type_invariant(self);
        }
        in_check(self.fen.as_str())
    }

    pub fn is_checkmate(&self) -> (r: bool)
        ensures
            r == checkmate(self@),
    {
        self.is_check() && self.legal_moves().len() == 0
    }

    pub fn is_stalemate(&self) -> (r: bool)
        ensures
            r == stalemate(self@),
    {
        !self.is_check() && self.legal_moves().len() == 0
    }

    /// Can neither side mate with what it has?
    pub fn is_insufficient_material(&self) -> (r: bool)
        ensures
            r == insufficient_of(self@),
    {
        proof {
            use_type_invariant(self);
        }
        insufficient_material(self.fen.as_str())
    }

    /// The position's Zobrist hash.
    pub fn zobrist_hash(&self) -> (r: u64)
        ensures
            r == zobrist_of(self@),
    {
        proof {
            use_type_invariant(self);
        }
        zobrist(self.fen.as_str())
    }

    /// The en passant square, if a capture on it is legal.
    pub fn legal_ep_square(&self) -> (r: Option<Square>)
        ensures
            r == legal_ep_of(self@),
            r is Some ==> r->0.valid(),
    {
        proof {
            use_type_invariant(self);
        }
        legal_ep_square(self.fen.as_str())
    }

    /// The FEN that names an en passant square only if a capture on it is legal.
    pub fn legal_fen(&self) -> (r: String)
        ensures
            r@ == legal_fen_of(self@),
            tells(self@, r@),
    {
        proof {
            use_type_invariant(self);
        }
        legal_fen(self.fen.as_str())
    }

    /// The legal move that a UCI word denotes.
    pub fn uci_move(&self, word: &str) -> (r: Option<Move>)
        ensures
            r == legal_uci(self@, word@),
            r is Some ==> moves_of(self@).contains(r->0),
    {
        proof {
            use_type_invariant(self);
        }
        match raw_uci_move(self.fen.as_str(), word) {
            Some(raw) => {
                proof {
                    let i = raw_moves_of(self@).index_of(raw);
                    assert(moves_of(self@)[i] == decode_move(raw));
                }
                Some(decode_raw(&raw))
            },
            None => None,
        }
    }
}

} // verus!
