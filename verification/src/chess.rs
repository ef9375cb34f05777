//! The plain chess vocabulary: colours, pieces, squares, bit sets and boards.
//!
//! Squares are numbered 0 (a1) to 63 (h8), rank by rank. Specifications speak of
//! squares as mathematical integers; executable code carries them as [`Square`].

use vstd::prelude::*;

verus! {

#[derive(Clone, Copy, PartialEq, Eq, Structural, Debug)]
pub enum Color {
    White,
    Black,
}

impl Color {
    pub open spec fn opponent(self) -> Color {
        match self {
            Color::White => Color::Black,
            Color::Black => Color::White,
        }
    }

    /// The rank step of this side's pawns.
    pub open spec fn forward(self) -> int {
        match self {
            Color::White => 1,
            Color::Black => -1,
        }
    }

    /// The other side.
    pub fn other(self) -> (r: Color)
        ensures
            r == self.opponent(),
    {
        match self {
            Color::White => Color::Black,
            Color::Black => Color::White,
        }
    }
}

#[derive(Clone, Copy, PartialEq, Eq, Structural, Debug)]
pub enum Role {
    Pawn,
    Knight,
    Bishop,
    Rook,
    Queen,
    King,
}

#[derive(Clone, Copy, PartialEq, Eq, Structural, Debug)]
pub struct Piece {
    pub color: Color,
    pub role: Role,
}

/// A square, a1 = 0 to h8 = 63.
#[derive(Clone, Copy, PartialEq, Eq, Structural, Debug)]
pub struct Square(pub u8);

/// A square lies on the board.
pub open spec fn on_board(s: int) -> bool {
    0 <= s < 64
}

pub open spec fn spec_file(s: int) -> int {
    s % 8
}

pub open spec fn spec_rank(s: int) -> int {
    s / 8
}

/// The square on a file and a rank, both counted from zero.
pub open spec fn square_at(file: int, rank: int) -> int {
    rank * 8 + file
}

/// File and rank both lie between 0 and 7.
pub open spec fn in_grid(file: int, rank: int) -> bool {
    0 <= file < 8 && 0 <= rank < 8
}

/// A square reflected in the horizontal middle line of the board (a1 to a8).
pub open spec fn flip(s: int) -> int {
    square_at(spec_file(s), 7 - spec_rank(s))
}

pub open spec fn abs(x: int) -> int {
    if x < 0 {
        -x
    } else {
        x
    }
}

pub open spec fn sign(x: int) -> int {
    if x < 0 {
        -1
    } else if x > 0 {
        1
    } else {
        0
    }
}

impl Square {
    pub open spec fn valid(self) -> bool {
        self.0 < 64
    }

    /// File, a = 0 to h = 7.
    pub fn file(self) -> (r: u8)
        ensures
            r == spec_file(self.0 as int),
            r < 8,
    {
        self.0 % 8
    }

    /// Rank, counted from zero.
    pub fn rank(self) -> (r: u8)
        ensures
            r == spec_rank(self.0 as int),
            self.valid() ==> r < 8,
    {
        self.0 / 8
    }

    /// The square where a file and a rank cross.
    pub fn from_coords(file: u8, rank: u8) -> (r: Square)
        requires
            file < 8,
            rank < 8,
        ensures
            r.valid(),
            r.0 == square_at(file as int, rank as int),
            spec_file(r.0 as int) == file,
            spec_rank(r.0 as int) == rank,
    {
        Square(rank * 8 + file)
    }

    /// The square reflected vertically.
    pub fn flip_vertical(self) -> (r: Square)
        requires
            self.valid(),
        ensures
            r.valid(),
            r.0 == flip(self.0 as int),
    {
        Square((7 - self.0 / 8) * 8 + self.0 % 8)
    }
}

/// Is square `i` a member of the bit set `b`?
pub open spec fn bit(b: u64, i: int) -> bool {
    (b >> (i as u64)) & 1 == 1
}

/// A set of squares, one bit for each.
#[derive(Clone, Copy, PartialEq, Eq, Structural, Debug)]
pub struct Bitboard(pub u64);

impl Bitboard {
    #[verifier::inline]
    pub open spec fn has(self, i: int) -> bool {
        bit(self.0, i)
    }

    pub fn contains(self, sq: Square) -> (r: bool)
        requires
            sq.valid(),
        ensures
            r == self.has(sq.0 as int),
    {
        bit_at(self.0, sq.0)
    }

    /// No square is in the set.
    pub fn is_empty(self) -> (r: bool)
        ensures
            r == (forall|i: int| #![trigger bit(self.0, i)] on_board(i) ==> !self.has(i)),
    {
        proof {
            if self.0 == 0 {
                lemma_zero_bits();
            } else {
                lemma_some_bit(self.0);
            }
        }
        self.0 == 0
    }

    /// The set of no square.
    pub fn empty() -> (r: Bitboard)
        ensures
            forall|i: int| #![trigger bit(r.0, i)] on_board(i) ==> !r.has(i),
    {
        proof {
            lemma_zero_bits();
        }
        Bitboard(0)
    }

    /// The squares in both sets.
    pub fn intersect(self, other: Bitboard) -> (r: Bitboard)
        ensures
            forall|i: int| #![trigger bit(r.0, i)] on_board(i) ==> r.has(i) == (self.has(i) && other.has(i)),
    {
        proof {
            lemma_and_bits(self.0, other.0);
        }
        Bitboard(self.0 & other.0)
    }

    /// The squares in either set.
    pub fn union(self, other: Bitboard) -> (r: Bitboard)
        ensures
            forall|i: int| #![trigger bit(r.0, i)] on_board(i) ==> r.has(i) == (self.has(i) || other.has(i)),
    {
        proof {
            lemma_or_bits(self.0, other.0);
        }
        Bitboard(self.0 | other.0)
    }

    /// The squares of this set that are not in the other.
    pub fn without(self, other: Bitboard) -> (r: Bitboard)
        ensures
            forall|i: int| #![trigger bit(r.0, i)] on_board(i) ==> r.has(i) == (self.has(i) && !other.has(i)),
    {
        proof {
            lemma_minus_bits(self.0, other.0);
        }
        Bitboard(self.0 & !other.0)
    }

    /// The set of one square.
    pub fn from_square(sq: Square) -> (r: Bitboard)
        requires
            sq.valid(),
        ensures
            forall|i: int| #![trigger bit(r.0, i)] on_board(i) ==> r.has(i) == (i == sq.0),
    {
        proof {
            lemma_single_bit(sq.0);
        }
        Bitboard(1u64 << (sq.0 as u64))
    }
}

/// Test one bit of a set.
pub fn bit_at(b: u64, i: u8) -> (r: bool)
    requires
        i < 64,
    ensures
        r == bit(b, i as int),
{
    (b >> (i as u64)) & 1 == 1
}

proof fn lemma_zero_bits()
    ensures
        forall|i: int| #![trigger bit(0u64, i)] on_board(i) ==> !bit(0u64, i),
{
    assert forall|i: int| #![trigger bit(0u64, i)] on_board(i) implies !bit(0u64, i) by {
        let k = i as u64;
        assert((0u64 >> k) & 1 == 0) by (bit_vector);
    }
}

proof fn lemma_and_bits(a: u64, b: u64)
    ensures
        forall|i: int| #![trigger bit(a & b, i)] on_board(i) ==> bit(a & b, i) == (bit(a, i) && bit(b, i)),
{
    assert forall|i: int| #![trigger bit(a & b, i)] on_board(i) implies bit(a & b, i) == (bit(a, i) && bit(b, i)) by {
        let k = i as u64;
        assert((((a & b) >> k) & 1 == 1) == ((a >> k) & 1 == 1 && (b >> k) & 1 == 1)) by (bit_vector);
    }
}

pub proof fn lemma_or_bits(a: u64, b: u64)
    ensures
        forall|i: int| #![trigger bit(a | b, i)] on_board(i) ==> bit(a | b, i) == (bit(a, i) || bit(b, i)),
{
    assert forall|i: int| #![trigger bit(a | b, i)] on_board(i) implies bit(a | b, i) == (bit(a, i) || bit(b, i)) by {
        let k = i as u64;
        assert((((a | b) >> k) & 1 == 1) == ((a >> k) & 1 == 1 || (b >> k) & 1 == 1)) by (bit_vector);
    }
}

proof fn lemma_minus_bits(a: u64, b: u64)
    ensures
        forall|i: int| #![trigger bit(a & !b, i)] on_board(i) ==> bit(a & !b, i) == (bit(a, i) && !bit(b, i)),
{
    assert forall|i: int| #![trigger bit(a & !b, i)] on_board(i) implies bit(a & !b, i) == (bit(a, i) && !bit(b, i)) by {
        let k = i as u64;
        assert((((a & !b) >> k) & 1 == 1) == ((a >> k) & 1 == 1 && !((b >> k) & 1 == 1))) by (bit_vector)
            requires k < 64u64;
    }
}

proof fn lemma_single_bit(s: u8)
    requires
        s < 64,
    ensures
        forall|i: int| #![trigger bit(1u64 << (s as u64), i)] on_board(i) ==> bit(1u64 << (s as u64), i) == (i == s),
{
    assert forall|i: int| #![trigger bit(1u64 << (s as u64), i)] on_board(i) implies bit(1u64 << (s as u64), i) == (i == s) by {
        let k = i as u64;
        let t = s as u64;
        assert((((1u64 << t) >> k) & 1 == 1) == (k == t)) by (bit_vector)
            requires k < 64u64, t < 64u64;
    }
}

/// A word whose bits from `n` on are all clear is zero once shifted by `n`.
proof fn lemma_clear_above(b: u64, n: u64)
    requires
        n < 64,
        forall|i: int| #![trigger bit(b, i)] n <= i < 64 ==> !bit(b, i),
    ensures
        b >> n == 0,
    decreases 64 - n,
{
    assert(!bit(b, n as int));
    if n == 63 {
        assert(b >> 63u64 == 0) by (bit_vector)
            requires (b >> 63u64) & 1 != 1;
    } else {
        let m = (n + 1) as u64;
        lemma_clear_above(b, m);
        assert(b >> n == 0) by (bit_vector)
            requires (b >> n) & 1 != 1, b >> m == 0, m == n + 1, n < 63;
    }
}

/// A non-zero word has a bit set.
proof fn lemma_some_bit(b: u64)
    requires
        b != 0,
    ensures
        exists|i: int| #![trigger bit(b, i)] on_board(i) && bit(b, i),
{
    if forall|i: int| #![trigger bit(b, i)] on_board(i) ==> !bit(b, i) {
        lemma_clear_above(b, 0);
        assert(b >> 0u64 == b) by (bit_vector);
    }
}

/// The square `k` steps along the line that leads from one square to another.
pub open spec fn line_square(from: int, to: int, k: int) -> int {
    square_at(
        spec_file(from) + k * sign(spec_file(to) - spec_file(from)),
        spec_rank(from) + k * sign(spec_rank(to) - spec_rank(from)),
    )
}

/// How many king steps apart two squares are.
pub open spec fn steps_apart(from: int, to: int) -> int {
    let df = abs(spec_file(to) - spec_file(from));
    let dr = abs(spec_rank(to) - spec_rank(from));
    if df > dr {
        df
    } else {
        dr
    }
}

/// Do the squares strictly between two squares on a common line lie outside
/// `occupied`?
pub open spec fn clear_between(from: int, to: int, occupied: u64) -> bool {
    forall|k: int| 1 <= k < steps_apart(from, to) ==> !bit(occupied, #[trigger] line_square(from, to, k))
}

pub open spec fn on_diagonal(from: int, to: int) -> bool {
    from != to && abs(spec_file(to) - spec_file(from)) == abs(spec_rank(to) - spec_rank(from))
}

pub open spec fn on_rank_or_file(from: int, to: int) -> bool {
    from != to && (spec_file(to) == spec_file(from) || spec_rank(to) == spec_rank(from))
}

/// Does `piece`, standing on `from`, attack the square `to` when the squares
/// in `occupied` block its lines? The first blocker on a line is attacked.
pub open spec fn reaches(piece: Piece, from: int, to: int, occupied: u64) -> bool {
    let df = spec_file(to) - spec_file(from);
    let dr = spec_rank(to) - spec_rank(from);
    match piece.role {
        Role::Pawn => abs(df) == 1 && dr == piece.color.forward(),
        Role::Knight => (abs(df) == 1 && abs(dr) == 2) || (abs(df) == 2 && abs(dr) == 1),
        Role::Bishop => on_diagonal(from, to) && clear_between(from, to, occupied),
        Role::Rook => on_rank_or_file(from, to) && clear_between(from, to, occupied),
        Role::Queen => (on_diagonal(from, to) || on_rank_or_file(from, to))
            && clear_between(from, to, occupied),
        Role::King => from != to && abs(df) <= 1 && abs(dr) <= 1,
    }
}

/// Where the pieces stand: one bit set for each role and for each colour.
#[derive(Clone, Copy, PartialEq, Eq, Structural, Debug)]
pub struct Board {
    pub pawns: u64,
    pub knights: u64,
    pub bishops: u64,
    pub rooks: u64,
    pub queens: u64,
    pub kings: u64,
    pub white: u64,
    pub black: u64,
}

impl Board {
    pub open spec fn role_set(self, role: Role) -> u64 {
        match role {
            Role::Pawn => self.pawns,
            Role::Knight => self.knights,
            Role::Bishop => self.bishops,
            Role::Rook => self.rooks,
            Role::Queen => self.queens,
            Role::King => self.kings,
        }
    }

    pub open spec fn color_set(self, color: Color) -> u64 {
        match color {
            Color::White => self.white,
            Color::Black => self.black,
        }
    }

    /// The piece on a square.
    pub open spec fn piece(self, s: int) -> Option<Piece> {
        let role = if bit(self.pawns, s) {
            Role::Pawn
        } else if bit(self.knights, s) {
            Role::Knight
        } else if bit(self.bishops, s) {
            Role::Bishop
        } else if bit(self.rooks, s) {
            Role::Rook
        } else if bit(self.queens, s) {
            Role::Queen
        } else {
            Role::King
        };
        if bit(self.white, s) {
            Some(Piece { color: Color::White, role })
        } else if bit(self.black, s) {
            Some(Piece { color: Color::Black, role })
        } else {
            None
        }
    }

    /// The bit sets agree on square `s`: it is empty in all of them, or it is in
    /// exactly one colour's set and exactly one role's set.
    pub open spec fn consistent_at(self, s: int) -> bool {
        &&& forall|role: Role| #[trigger] bit(self.role_set(role), s)
            <==> (self.piece(s) is Some && self.piece(s)->0.role == role)
        &&& forall|color: Color| #[trigger] bit(self.color_set(color), s)
            <==> (self.piece(s) is Some && self.piece(s)->0.color == color)
    }

    /// The bit sets agree on every square.
    pub open spec fn wf(self) -> bool {
        forall|s: int| #![trigger self.piece(s)] on_board(s) ==> self.consistent_at(s)
    }

    pub open spec fn holds(self, s: int, color: Color, role: Role) -> bool {
        self.piece(s) == Some(Piece { color, role })
    }

    pub open spec fn has_color(self, s: int, color: Color) -> bool {
        self.piece(s) is Some && self.piece(s)->0.color == color
    }

    /// Every occupied square, as one bit set.
    pub open spec fn occupied_bits(self) -> u64 {
        self.white | self.black
    }

    /// Does a piece of `color` on `from` attack `to` when `occupied` blocks the
    /// lines?
    pub open spec fn attacks_with(self, from: int, color: Color, to: int, occupied: u64) -> bool {
        self.has_color(from, color) && reaches(self.piece(from)->0, from, to, occupied)
    }

    /// Does a piece of `color` on `from` attack `to`?
    pub open spec fn attacks(self, from: int, color: Color, to: int) -> bool {
        self.attacks_with(from, color, to, self.occupied_bits())
    }

    /// Does any piece of `color` attack `to`?
    pub open spec fn attacked(self, to: int, color: Color) -> bool {
        exists|from: int| on_board(from) && #[trigger] self.attacks(from, color, to)
    }

    /// The only square with a king of `color` is `s`.
    pub open spec fn king_on(self, color: Color, s: int) -> bool {
        &&& on_board(s)
        &&& self.holds(s, color, Role::King)
        &&& forall|t: int| #![trigger self.holds(t, color, Role::King)]
            on_board(t) && self.holds(t, color, Role::King) ==> t == s
    }

    /// The king's square, when the side has exactly one king.
    pub open spec fn king_square(self, color: Color) -> Option<int> {
        if exists|s: int| self.king_on(color, s) {
            Some(choose|s: int| self.king_on(color, s))
        } else {
            None
        }
    }

    /// The squares occupied by either side.
    pub fn occupied(&self) -> (r: Bitboard)
        ensures
            r.0 == self.occupied_bits(),
            self.wf() ==> forall|i: int| #![trigger bit(r.0, i)] on_board(i) ==> bit(r.0, i) == (self.piece(i) is Some),
    {
        proof {
            lemma_or_bits(self.white, self.black);
        }
        Bitboard(self.white | self.black)
    }

    /// The piece on a square.
    pub fn piece_at(&self, sq: Square) -> (r: Option<Piece>)
        requires
            sq.valid(),
        ensures
            r == self.piece(sq.0 as int),
    {
        let role = if bit_at(self.pawns, sq.0) {
            Role::Pawn
        } else if bit_at(self.knights, sq.0) {
            Role::Knight
        } else if bit_at(self.bishops, sq.0) {
            Role::Bishop
        } else if bit_at(self.rooks, sq.0) {
            Role::Rook
        } else if bit_at(self.queens, sq.0) {
            Role::Queen
        } else {
            Role::King
        };
        if bit_at(self.white, sq.0) {
            Some(Piece { color: Color::White, role })
        } else if bit_at(self.black, sq.0) {
            Some(Piece { color: Color::Black, role })
        } else {
            None
        }
    }

    /// The role of the piece on a square.
    pub fn role_at(&self, sq: Square) -> (r: Option<Role>)
        requires
            sq.valid(),
        ensures
            r == (match self.piece(sq.0 as int) {
                Some(p) => Some(p.role),
                None => None,
            }),
    {
        match self.piece_at(sq) {
            Some(p) => Some(p.role),
            None => None,
        }
    }

    /// Does a piece of `color` and `role` stand on `sq`?
    pub fn is_piece(&self, sq: Square, color: Color, role: Role) -> (r: bool)
        requires
            sq.valid(),
        ensures
            r == self.holds(sq.0 as int, color, role),
    {
        match self.piece_at(sq) {
            Some(p) => p.color == color && p.role == role,
            None => false,
        }
    }

    /// Does any piece of `color` stand on `sq`?
    pub fn is_color(&self, sq: Square, color: Color) -> (r: bool)
        requires
            sq.valid(),
        ensures
            r == self.has_color(sq.0 as int, color),
    {
        match self.piece_at(sq) {
            Some(p) => p.color == color,
            None => false,
        }
    }

    /// The squares with a piece of this role and colour.
    pub fn by_piece(&self, color: Color, role: Role) -> (r: Bitboard)
        requires
            self.wf(),
        ensures
            forall|i: int| #![trigger bit(r.0, i)] on_board(i) ==> bit(r.0, i) == self.holds(i, color, role),
    {
        let by_role = Bitboard(match role {
            Role::Pawn => self.pawns,
            Role::Knight => self.knights,
            Role::Bishop => self.bishops,
            Role::Rook => self.rooks,
            Role::Queen => self.queens,
            Role::King => self.kings,
        });
        let by_color = Bitboard(match color {
            Color::White => self.white,
            Color::Black => self.black,
        });
        let r = by_role.intersect(by_color);
        assert forall|i: int| #![trigger bit(r.0, i)] on_board(i) implies bit(r.0, i) == self.holds(i, color, role) by {
            assert(self.consistent_at(i));
            assert(bit(self.role_set(role), i) == bit(by_role.0, i));
            assert(bit(self.color_set(color), i) == bit(by_color.0, i));
        }
        r
    }

    /// The king's square, when the side has exactly one king.
    pub fn king_of(&self, color: Color) -> (r: Option<Square>)
        ensures
            self.king_square(color) == (match r {
                Some(k) => Some(k.0 as int),
                None => None,
            }),
            r is Some ==> r->0.valid() && self.king_on(color, (r->0).0 as int),
    {
        let mut found: Option<Square> = None;
        let mut several = false;
        let mut i: u8 = 0;
        while i < 64
            invariant
                i <= 64,
                match found {
                    Some(k) => k.0 < i && self.holds(k.0 as int, color, Role::King) && (!several
                        ==> forall|t: int| #![trigger self.holds(t, color, Role::King)]
                        0 <= t < i && self.holds(t, color, Role::King) ==> t == k.0),
                    None => !several && forall|t: int| #![trigger self.holds(t, color, Role::King)]
                        0 <= t < i ==> !self.holds(t, color, Role::King),
                },
                several ==> exists|a: int, b: int| 0 <= a < b < i
                    && #[trigger] self.holds(a, color, Role::King)
                    && #[trigger] self.holds(b, color, Role::King),
            decreases 64 - i,
        {
            if self.is_piece(Square(i), color, Role::King) {
                match found {
                    None => {
                        found = Some(Square(i));
                    },
                    Some(k) => {
                        assert(0 <= k.0 < i < i + 1 && self.holds(k.0 as int, color, Role::King)
                            && self.holds(i as int, color, Role::King));
                        several = true;
                    },
                }
            }
            i = i + 1;
        }
        proof {
            if !several && found is Some {
                lemma_king_square(*self, color, (found->0).0 as int);
            }
        }
        if several {
            None
        } else {
            found
        }
    }
}

/// On a well-formed board the occupied squares are those that hold a piece.
pub proof fn lemma_occupied(board: Board, s: int)
    requires
        board.wf(),
        on_board(s),
    ensures
        bit(board.occupied_bits(), s) == (board.piece(s) is Some),
{
    lemma_or_bits(board.white, board.black);
}

/// The square that holds the only king of a side is that side's king square.
pub proof fn lemma_king_square(board: Board, color: Color, k: int)
    requires
        board.king_on(color, k),
    ensures
        board.king_square(color) == Some(k),
{
    let c = choose|s: int| board.king_on(color, s);
    assert(board.king_on(color, c));
    assert(board.holds(c, color, Role::King));
}

} // verus!
