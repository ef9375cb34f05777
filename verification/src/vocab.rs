//! The token vocabulary.
//!
//! Order is not cosmetic: a token's index is its embedding row, so a vocabulary
//! that differs by a single entry corrupts every lookup.

use vstd::prelude::*;

use crate::chess::{spec_file, spec_rank, Square};
use crate::text::{decimal, digit, push_decimal, push_text, same_text};

verus! {

pub const PAD: &'static str = "<pad>";

pub const BOS: &'static str = "<bos>";

pub const SEP: &'static str = "<sep>";

pub const EOS: &'static str = "<eos>";

/// `<bos>` + 64 squares + castling + ep + rule50 + repetitions + `<sep>`
pub const PREFIX_LEN: usize = 70;

pub const TRACE_LEN: usize = 32;

pub const SEQ_LEN: usize = 102;

pub const N_MOTIF_SLOTS: usize = 3;

/// hidden state read by the position-only heads (over `<sep>`)
pub const READOUT_FAST: usize = 69;

/// hidden state read by the reasoned heads (over the trace's `<eos>`)
pub const READOUT_REASONED: usize = 101;

pub const PIECE_CHARS: &'static str = "PNBRQKpnbrqk";

pub const PHASE_TOKENS: [&'static str; 3] = ["ph:opening", "ph:middle", "ph:end"];

pub const KSAFE_TOKENS: [&'static str; 4] = ["ks:safe", "ks:ok", "ks:loose", "ks:exposed"];

pub const FIELD_TOKENS: [&'static str; 9] = [
    "f:MAT",
    "f:PHASE",
    "f:KSAFE",
    "f:THR",
    "f:TAC",
    "f:PLAN",
    "f:CAND",
    "f:BEST",
    "f:EVAL",
];

pub const PROMO_TOKENS: [&'static str; 5] = ["pr:-", "pr:n", "pr:b", "pr:r", "pr:q"];

/// Material balance bucket edges, in quarter pawns, from the mover's point of
/// view.
pub const MAT_EDGES: [i32; 8] = [-20, -12, -8, -2, 2, 8, 12, 20];

pub const MOTIF_TOKENS: [&'static str; 24] = [
    "mo:none",
    "mo:quiet",
    "mo:mate1",
    "mo:check",
    "mo:capture",
    "mo:hanging",
    "mo:fork",
    "mo:pin",
    "mo:skewer",
    "mo:discovery",
    "mo:backrank",
    "mo:promotion",
    "mo:overload",
    "mo:trapped",
    "mo:passer",
    "mo:outpost",
    "mo:rook7th",
    "mo:openfile",
    "mo:battery",
    "mo:kingattack",
    "mo:badbishop",
    "mo:doubled",
    "mo:isolated",
    "mo:space",
];

pub const PLAN_TOKENS: [&'static str; 10] = [
    "plan:develop",
    "plan:castle",
    "plan:center",
    "plan:attack",
    "plan:trade",
    "plan:push",
    "plan:rooks",
    "plan:defend",
    "plan:convert",
    "plan:hold",
];

// Slot indices of each field inside a trace.
pub const SLOT_MAT: usize = 1;

pub const SLOT_PHASE: usize = 3;

pub const SLOT_KSAFE_US: usize = 5;

pub const SLOT_KSAFE_THEM: usize = 6;

pub const SLOT_THR: usize = 8;

pub const SLOT_MOTIF: [usize; 3] = [10, 11, 12];

pub const SLOT_PLAN: usize = 14;

pub const SLOT_CAND: [usize; 3] = [16, 19, 22];

pub const SLOT_BEST: usize = 26;

pub const SLOT_EVAL: usize = 30;

/// A tag followed by a number.
pub open spec fn numbered(tag: Seq<char>, n: int) -> Seq<char> {
    tag + decimal(n as nat)
}

/// A tag followed by a letter.
pub open spec fn lettered(tag: Seq<char>, c: char) -> Seq<char> {
    tag.push(c)
}

/// The letter of a file.
pub open spec fn file_letter(file: int) -> char {
    (file + 97) as char
}

/// The name of a square: the letter of its file, then its rank counted from one.
pub open spec fn square_name(s: int) -> Seq<char> {
    seq![file_letter(spec_file(s)), digit(spec_rank(s) + 1)]
}

/// The token at each place of the vocabulary.
pub open spec fn vocab_word(i: int) -> Seq<char> {
    if i == 0 {
        PAD@
    } else if i == 1 {
        BOS@
    } else if i == 2 {
        SEP@
    } else if i == 3 {
        EOS@
    } else if i == 4 {
        "sq:."@
    } else if i < 17 {
        lettered("sq:"@, PIECE_CHARS@[i - 5])
    } else if i < 33 {
        numbered("cas:"@, i - 17)
    } else if i == 33 {
        "ep:-"@
    } else if i < 42 {
        lettered("ep:"@, file_letter(i - 34))
    } else if i < 50 {
        numbered("r50:"@, i - 42)
    } else if i < 53 {
        numbered("rep:"@, i - 50)
    } else if i < 117 {
        "@"@ + square_name(i - 53)
    } else if i < 122 {
        PROMO_TOKENS[i - 117]@
    } else if i < 131 {
        FIELD_TOKENS[i - 122]@
    } else if i < 140 {
        numbered("mat:"@, i - 131)
    } else if i < 143 {
        PHASE_TOKENS[i - 140]@
    } else if i < 147 {
        KSAFE_TOKENS[i - 143]@
    } else if i < 151 {
        numbered("thr:"@, i - 147)
    } else if i < 175 {
        MOTIF_TOKENS[i - 151]@
    } else if i < 185 {
        PLAN_TOKENS[i - 175]@
    } else {
        numbered("ev:"@, i - 185)
    }
}

pub open spec fn is_token(i: int) -> bool {
    0 <= i < 196
}

/// The word is in the vocabulary.
pub open spec fn in_vocab(word: Seq<char>) -> bool {
    exists|i: int| is_token(i) && #[trigger] vocab_word(i) == word
}

fn numbered_word(tag: &str, n: u16) -> (r: String)
    ensures
        r@ == numbered(tag@, n as int),
{
    let mut out = tag.to_owned();
    push_decimal(&mut out, n as u64);
    out
}

fn lettered_word(tag: &str, c: char) -> (r: String)
    ensures
        r@ == lettered(tag@, c),
{
    let mut out = tag.to_owned();
    out.push(c);
    out
}

/// The letter of a file.
pub fn file_char(file: u8) -> (r: char)
    requires
        file < 8,
    ensures
        r == file_letter(file as int),
{
    (97u8 + file) as char
}

/// The name of a square, such as `e4`.
pub fn square_text(sq: Square) -> (r: String)
    ensures
        r@ == square_name(sq.0 as int),
{
    let mut out = String::new();
    out.push(file_char(sq.file()));
    out.push((49u8 + sq.rank()) as char);
    assert(out@ =~= square_name(sq.0 as int));
    out
}

/// The token with this id.
pub fn token(id: u16) -> (r: String)
    requires
        id < 196,
    ensures
        r@ == vocab_word(id as int),
{
    if id == 0 {
        PAD.to_owned()
    } else if id == 1 {
        BOS.to_owned()
    } else if id == 2 {
        SEP.to_owned()
    } else if id == 3 {
        EOS.to_owned()
    } else if id == 4 {
        "sq:.".to_owned()
    } else if id < 17 {
        let letters = crate::text::chars_of(PIECE_CHARS);
        proof {
            reveal_strlit("PNBRQKpnbrqk");
        }
        lettered_word("sq:", letters[id as usize - 5])
    } else if id < 33 {
        numbered_word("cas:", id - 17)
    } else if id == 33 {
        "ep:-".to_owned()
    } else if id < 42 {
        lettered_word("ep:", file_char((id - 34) as u8))
    } else if id < 50 {
        numbered_word("r50:", id - 42)
    } else if id < 53 {
        numbered_word("rep:", id - 50)
    } else if id < 117 {
        let mut out = "@".to_owned();
        push_text(&mut out, square_text(Square((id - 53) as u8)).as_str());
        out
    } else if id < 122 {
        PROMO_TOKENS[id as usize - 117].to_owned()
    } else if id < 131 {
        FIELD_TOKENS[id as usize - 122].to_owned()
    } else if id < 140 {
        numbered_word("mat:", id - 131)
    } else if id < 143 {
        PHASE_TOKENS[id as usize - 140].to_owned()
    } else if id < 147 {
        KSAFE_TOKENS[id as usize - 143].to_owned()
    } else if id < 151 {
        numbered_word("thr:", id - 147)
    } else if id < 175 {
        MOTIF_TOKENS[id as usize - 151].to_owned()
    } else if id < 185 {
        PLAN_TOKENS[id as usize - 175].to_owned()
    } else {
        numbered_word("ev:", id - 185)
    }
}

/// All tokens, in the order of their ids.
pub fn vocab() -> (r: Vec<String>)
    ensures
        r@.len() == 196,
        forall|i: int| 0 <= i < 196 ==> (#[trigger] r@[i])@ == vocab_word(i),
{
    let mut out: Vec<String> = Vec::new();
    let mut i: u16 = 0;
    while i < 196
        invariant
            i <= 196,
            out@.len() == i,
            forall|j: int| 0 <= j < i ==> (#[trigger] out@[j])@ == vocab_word(j),
        decreases 196 - i,
    {
        out.push(token(i));
        i = i + 1;
    }
    out
}

/// How many tokens there are.
pub fn vocab_size() -> (r: usize)
    ensures
        r == 196,
{
    196
}

/// Token string to id. Every caller builds tokens from the constants above, so
/// an unknown one is left out.
pub fn tid(token: &str) -> (r: u16)
    requires
        in_vocab(token@),
    ensures
        r < 196,
        vocab_word(r as int) == token@,
{
    let mut i: u16 = 0;
    loop
        invariant
            i < 196,
            in_vocab(token@),
            forall|j: int| 0 <= j < i ==> #[trigger] vocab_word(j) != token@,
        decreases 196 - i,
    {
        if same_text(self::token(i).as_str(), token) {
            return i;
        }
        assert(i < 195) by {
            let k = choose|k: int| is_token(k) && #[trigger] vocab_word(k) == token@;
            assert(k != i);
        }
        i = i + 1;
    }
}

/// The value of the digits of a word from place `a` on, one or two of them.
pub open spec fn tail_number(w: Seq<char>, a: int) -> int {
    if w.len() == a + 1 {
        w[a] as int - 48
    } else {
        (w[a] as int - 48) * 10 + (w[a + 1] as int - 48)
    }
}

/// The place of a motif token, told by the letters after its tag.
spec fn motif_place(w: Seq<char>) -> int {
    if w[3] == 'n' && w[4] == 'o' {
        151
    } else if w[3] == 'q' && w[4] == 'u' {
        152
    } else if w[3] == 'm' && w[4] == 'a' {
        153
    } else if w[3] == 'c' && w[4] == 'h' {
        154
    } else if w[3] == 'c' && w[4] == 'a' {
        155
    } else if w[3] == 'h' && w[4] == 'a' {
        156
    } else if w[3] == 'f' && w[4] == 'o' {
        157
    } else if w[3] == 'p' && w[4] == 'i' {
        158
    } else if w[3] == 's' && w[4] == 'k' {
        159
    } else if w[3] == 'd' && w[4] == 'i' {
        160
    } else if w[3] == 'b' && w[4] == 'a' && w[5] == 'c' {
        161
    } else if w[3] == 'p' && w[4] == 'r' {
        162
    } else if w[3] == 'o' && w[4] == 'v' {
        163
    } else if w[3] == 't' && w[4] == 'r' {
        164
    } else if w[3] == 'p' && w[4] == 'a' {
        165
    } else if w[3] == 'o' && w[4] == 'u' {
        166
    } else if w[3] == 'r' && w[4] == 'o' {
        167
    } else if w[3] == 'o' && w[4] == 'p' {
        168
    } else if w[3] == 'b' && w[4] == 'a' && w[5] == 't' {
        169
    } else if w[3] == 'k' && w[4] == 'i' {
        170
    } else if w[3] == 'b' && w[4] == 'a' && w[5] == 'd' {
        171
    } else if w[3] == 'd' && w[4] == 'o' {
        172
    } else if w[3] == 'i' && w[4] == 's' {
        173
    } else if w[3] == 's' && w[4] == 'p' {
        174
    } else {
        -1
    }
}

/// The place of a plan token.
spec fn plan_place(w: Seq<char>) -> int {
    if w[5] == 'd' && w[6] == 'e' && w[7] == 'v' {
        175
    } else if w[5] == 'c' && w[6] == 'a' {
        176
    } else if w[5] == 'c' && w[6] == 'e' {
        177
    } else if w[5] == 'a' && w[6] == 't' {
        178
    } else if w[5] == 't' && w[6] == 'r' {
        179
    } else if w[5] == 'p' && w[6] == 'u' {
        180
    } else if w[5] == 'r' && w[6] == 'o' {
        181
    } else if w[5] == 'd' && w[6] == 'e' && w[7] == 'f' {
        182
    } else if w[5] == 'c' && w[6] == 'o' {
        183
    } else if w[5] == 'h' && w[6] == 'o' {
        184
    } else {
        -1
    }
}

/// The place of a field token.
spec fn field_place(w: Seq<char>) -> int {
    if w[2] == 'M' && w[3] == 'A' {
        122
    } else if w[2] == 'P' && w[3] == 'H' {
        123
    } else if w[2] == 'K' && w[3] == 'S' {
        124
    } else if w[2] == 'T' && w[3] == 'H' {
        125
    } else if w[2] == 'T' && w[3] == 'A' {
        126
    } else if w[2] == 'P' && w[3] == 'L' {
        127
    } else if w[2] == 'C' && w[3] == 'A' {
        128
    } else if w[2] == 'B' && w[3] == 'E' {
        129
    } else if w[2] == 'E' && w[3] == 'V' {
        130
    } else {
        -1
    }
}

/// The place of a piece token.
spec fn piece_place(c: char) -> int {
    if c == '.' {
        4
    } else if c == 'P' {
        5
    } else if c == 'N' {
        6
    } else if c == 'B' {
        7
    } else if c == 'R' {
        8
    } else if c == 'Q' {
        9
    } else if c == 'K' {
        10
    } else if c == 'p' {
        11
    } else if c == 'n' {
        12
    } else if c == 'b' {
        13
    } else if c == 'r' {
        14
    } else if c == 'q' {
        15
    } else {
        16
    }
}

/// The place of a token in the vocabulary, told by its letters.
spec fn place(w: Seq<char>) -> int {
    if w[0] == '<' {
        if w[1] == 'p' {
            0
        } else if w[1] == 'b' {
            1
        } else if w[1] == 's' {
            2
        } else {
            3
        }
    } else if w[0] == 's' {
        piece_place(w[3])
    } else if w[0] == 'c' {
        17 + tail_number(w, 4)
    } else if w[0] == 'e' {
        if w[1] == 'p' {
            if w[3] == '-' {
                33
            } else {
                34 + (w[3] as int - 97)
            }
        } else {
            185 + tail_number(w, 3)
        }
    } else if w[0] == 'r' {
        if w[1] == '5' {
            42 + tail_number(w, 4)
        } else {
            50 + tail_number(w, 4)
        }
    } else if w[0] == '@' {
        53 + (w[2] as int - 49) * 8 + (w[1] as int - 97)
    } else if w[0] == 'p' {
        if w[1] == 'r' {
            if w[3] == '-' {
                117
            } else if w[3] == 'n' {
                118
            } else if w[3] == 'b' {
                119
            } else if w[3] == 'r' {
                120
            } else {
                121
            }
        } else if w[1] == 'h' {
            if w[3] == 'o' {
                140
            } else if w[3] == 'm' {
                141
            } else {
                142
            }
        } else {
            plan_place(w)
        }
    } else if w[0] == 'f' {
        field_place(w)
    } else if w[0] == 'm' {
        if w[1] == 'a' {
            131 + tail_number(w, 4)
        } else {
            motif_place(w)
        }
    } else if w[0] == 'k' {
        if w[3] == 's' {
            143
        } else if w[3] == 'o' {
            144
        } else if w[3] == 'l' {
            145
        } else {
            146
        }
    } else {
        147 + tail_number(w, 4)
    }
}

proof fn lemma_numbered(tag: Seq<char>, n: int)
    requires
        0 <= n < 20,
    ensures
        n < 10 ==> numbered(tag, n) == tag.push(digit(n)),
        n >= 10 ==> numbered(tag, n) == tag.push('1').push(digit(n - 10)),
{
    if n < 10 {
        assert(numbered(tag, n) =~= tag.push(digit(n)));
    } else {
        assert(n as nat / 10 == 1);
        assert(decimal(1) == seq![digit(1)]);
        assert(decimal(n as nat) =~= seq!['1', digit(n - 10)]);
        assert(numbered(tag, n) =~= tag.push('1').push(digit(n - 10)));
    }
}

proof fn lemma_place_early(i: int)
    requires
        0 <= i < 53,
    ensures
        place(vocab_word(i)) == i,
{
    reveal_strlit("<pad>");
    reveal_strlit("<bos>");
    reveal_strlit("<sep>");
    reveal_strlit("<eos>");
    reveal_strlit("sq:.");
    reveal_strlit("sq:");
    reveal_strlit("PNBRQKpnbrqk");
    reveal_strlit("cas:");
    reveal_strlit("ep:-");
    reveal_strlit("ep:");
    reveal_strlit("r50:");
    reveal_strlit("rep:");
    if 17 <= i < 33 {
        lemma_numbered("cas:"@, i - 17);
    } else if 42 <= i < 50 {
        lemma_numbered("r50:"@, i - 42);
    } else if 50 <= i < 53 {
        lemma_numbered("rep:"@, i - 50);
    }
}

proof fn lemma_place_squares(i: int)
    requires
        53 <= i < 117,
    ensures
        place(vocab_word(i)) == i,
{
    reveal_strlit("@");
    let w = vocab_word(i);
    assert(w =~= seq!['@', file_letter(spec_file(i - 53)), digit(spec_rank(i - 53) + 1)]);
}

proof fn lemma_place_fields(i: int)
    requires
        117 <= i < 151,
    ensures
        place(vocab_word(i)) == i,
{
    reveal_strlit("pr:-");
    reveal_strlit("pr:n");
    reveal_strlit("pr:b");
    reveal_strlit("pr:r");
    reveal_strlit("pr:q");
    reveal_strlit("f:MAT");
    reveal_strlit("f:PHASE");
    reveal_strlit("f:KSAFE");
    reveal_strlit("f:THR");
    reveal_strlit("f:TAC");
    reveal_strlit("f:PLAN");
    reveal_strlit("f:CAND");
    reveal_strlit("f:BEST");
    reveal_strlit("f:EVAL");
    reveal_strlit("mat:");
    reveal_strlit("ph:opening");
    reveal_strlit("ph:middle");
    reveal_strlit("ph:end");
    reveal_strlit("ks:safe");
    reveal_strlit("ks:ok");
    reveal_strlit("ks:loose");
    reveal_strlit("ks:exposed");
    reveal_strlit("thr:");
    if 131 <= i < 140 {
        lemma_numbered("mat:"@, i - 131);
    } else if 147 <= i < 151 {
        lemma_numbered("thr:"@, i - 147);
    }
}

proof fn lemma_place_motifs(i: int)
    requires
        151 <= i < 175,
    ensures
        place(vocab_word(i)) == i,
{
    reveal_strlit("mo:none");
    reveal_strlit("mo:quiet");
    reveal_strlit("mo:mate1");
    reveal_strlit("mo:check");
    reveal_strlit("mo:capture");
    reveal_strlit("mo:hanging");
    reveal_strlit("mo:fork");
    reveal_strlit("mo:pin");
    reveal_strlit("mo:skewer");
    reveal_strlit("mo:discovery");
    reveal_strlit("mo:backrank");
    reveal_strlit("mo:promotion");
    reveal_strlit("mo:overload");
    reveal_strlit("mo:trapped");
    reveal_strlit("mo:passer");
    reveal_strlit("mo:outpost");
    reveal_strlit("mo:rook7th");
    reveal_strlit("mo:openfile");
    reveal_strlit("mo:battery");
    reveal_strlit("mo:kingattack");
    reveal_strlit("mo:badbishop");
    reveal_strlit("mo:doubled");
    reveal_strlit("mo:isolated");
    reveal_strlit("mo:space");
}

proof fn lemma_place_plans(i: int)
    requires
        175 <= i < 196,
    ensures
        place(vocab_word(i)) == i,
{
    reveal_strlit("plan:develop");
    reveal_strlit("plan:castle");
    reveal_strlit("plan:center");
    reveal_strlit("plan:attack");
    reveal_strlit("plan:trade");
    reveal_strlit("plan:push");
    reveal_strlit("plan:rooks");
    reveal_strlit("plan:defend");
    reveal_strlit("plan:convert");
    reveal_strlit("plan:hold");
    reveal_strlit("ev:");
    if i >= 185 {
        lemma_numbered("ev:"@, i - 185);
    }
}

proof fn lemma_place(i: int)
    requires
        is_token(i),
    ensures
        place(vocab_word(i)) == i,
{
    if i < 53 {
        lemma_place_early(i);
    } else if i < 117 {
        lemma_place_squares(i);
    } else if i < 151 {
        lemma_place_fields(i);
    } else if i < 175 {
        lemma_place_motifs(i);
    } else {
        lemma_place_plans(i);
    }
}

/// No two tokens of the vocabulary are the same word, so an id and its token
/// determine each other.
pub proof fn law_tokens_are_distinct(i: int, j: int)
    requires
        is_token(i),
        is_token(j),
        vocab_word(i) == vocab_word(j),
    ensures
        i == j,
{
    lemma_place(i);
    lemma_place(j);
}

/// The first token that may stand in a trace slot.
pub open spec fn slot_start(k: int) -> int {
    if k == 0 {
        122
    } else if k == 1 {
        131
    } else if k == 2 {
        123
    } else if k == 3 {
        140
    } else if k == 4 {
        124
    } else if k == 5 || k == 6 {
        143
    } else if k == 7 {
        125
    } else if k == 8 {
        147
    } else if k == 9 {
        126
    } else if 10 <= k <= 12 {
        151
    } else if k == 13 {
        127
    } else if k == 14 {
        175
    } else if k == 15 {
        128
    } else if k == 25 {
        129
    } else if k == 29 {
        130
    } else if k == 30 {
        185
    } else if k == 31 {
        3
    } else if k == 18 || k == 21 || k == 24 || k == 28 {
        117
    } else {
        53
    }
}

/// How many tokens may stand in a trace slot: those of one section of the
/// vocabulary, or one literal.
pub open spec fn slot_count(k: int) -> int {
    if k == 1 {
        9
    } else if k == 3 {
        3
    } else if k == 5 || k == 6 || k == 8 {
        4
    } else if 10 <= k <= 12 {
        24
    } else if k == 14 {
        10
    } else if k == 30 {
        11
    } else if k == 18 || k == 21 || k == 24 || k == 28 {
        5
    } else if 16 <= k <= 28 && k != 25 {
        64
    } else {
        1
    }
}

/// The grammar: the token may stand in the slot.
pub open spec fn slot_allows(k: int, id: int) -> bool {
    slot_start(k) <= id < slot_start(k) + slot_count(k)
}

fn id_range(start: u16, count: u16) -> (r: Vec<u16>)
    requires
        start + count <= 196,
    ensures
        r@ == Seq::new(count as nat, |j: int| (start + j) as u16),
{
    let mut out: Vec<u16> = Vec::new();
    let mut j: u16 = 0;
    while j < count
        invariant
            j <= count,
            start + count <= 196,
            out@ == Seq::new(j as nat, |j: int| (start + j) as u16),
        decreases count - j,
    {
        out.push(start + j);
        j = j + 1;
        assert(out@ =~= Seq::new(j as nat, |j: int| (start + j) as u16));
    }
    out
}

/// Which tokens may appear in each of the 32 trace slots, in ascending order.
///
/// Generation is masked to these sets, which is why the model cannot emit an
/// ungrammatical trace even with random weights.
pub fn trace_slots() -> (r: Vec<Vec<u16>>)
    ensures
        r@.len() == 32,
        forall|k: int| 0 <= k < 32 ==> (#[trigger] r@[k])@ == Seq::new(
            slot_count(k) as nat,
            |j: int| (slot_start(k) + j) as u16,
        ),
{
    let starts: [u16; 32] = [
        122, 131, 123, 140, 124, 143, 143, 125, 147, 126, 151, 151, 151, 127, 175, 128, 53, 53, 117, 53, 53, 117, 53, 53,
        117, 129, 53, 53, 117, 130, 185, 3,
    ];
    let counts: [u16; 32] = [
        1, 9, 1, 3, 1, 4, 4, 1, 4, 1, 24, 24, 24, 1, 10, 1, 64, 64, 5, 64, 64, 5, 64, 64, 5, 1, 64, 64, 5, 1, 11, 1,
    ];
    assert forall|k: int| 0 <= k < 32 implies starts[k] == slot_start(k) && #[trigger] counts[k] == slot_count(k)
        && starts[k] + counts[k] <= 196 by {
    }
    let mut out: Vec<Vec<u16>> = Vec::new();
    let mut k: usize = 0;
    while k < 32
        invariant
            k <= 32,
            forall|k: int| 0 <= k < 32 ==> starts[k] == slot_start(k) && #[trigger] counts[k] == slot_count(k)
                && starts[k] + counts[k] <= 196,
            out@.len() == k,
            forall|i: int| 0 <= i < k ==> (#[trigger] out@[i])@ == Seq::new(
                slot_count(i) as nat,
                |j: int| (slot_start(i) + j) as u16,
            ),
        decreases 32 - k,
    {
        assert(counts[k as int] == slot_count(k as int));
        let ids = id_range(starts[k], counts[k]);
        assert(ids@ =~= Seq::new(slot_count(k as int) as nat, |j: int| (slot_start(k as int) + j) as u16));
        out.push(ids);
        k = k + 1;
    }
    out
}

/// The literals of a trace: each field begins with its own mark, and the trace ends
/// with the mark for its end.
pub proof fn law_fields_begin_with_their_mark(id: int)
    requires
        is_token(id),
    ensures
        slot_allows(0, id) <==> vocab_word(id) == "f:MAT"@,
        slot_allows(2, id) <==> vocab_word(id) == "f:PHASE"@,
        slot_allows(4, id) <==> vocab_word(id) == "f:KSAFE"@,
        slot_allows(7, id) <==> vocab_word(id) == "f:THR"@,
        slot_allows(9, id) <==> vocab_word(id) == "f:TAC"@,
        slot_allows(13, id) <==> vocab_word(id) == "f:PLAN"@,
        slot_allows(15, id) <==> vocab_word(id) == "f:CAND"@,
        slot_allows(25, id) <==> vocab_word(id) == "f:BEST"@,
        slot_allows(29, id) <==> vocab_word(id) == "f:EVAL"@,
        slot_allows(31, id) <==> vocab_word(id) == "<eos>"@,
{
    assert(vocab_word(122) == "f:MAT"@);
    assert(vocab_word(123) == "f:PHASE"@);
    assert(vocab_word(124) == "f:KSAFE"@);
    assert(vocab_word(125) == "f:THR"@);
    assert(vocab_word(126) == "f:TAC"@);
    assert(vocab_word(127) == "f:PLAN"@);
    assert(vocab_word(128) == "f:CAND"@);
    assert(vocab_word(129) == "f:BEST"@);
    assert(vocab_word(130) == "f:EVAL"@);
    assert(vocab_word(3) == "<eos>"@);
    lemma_only(id, 122);
    lemma_only(id, 123);
    lemma_only(id, 124);
    lemma_only(id, 125);
    lemma_only(id, 126);
    lemma_only(id, 127);
    lemma_only(id, 128);
    lemma_only(id, 129);
    lemma_only(id, 130);
    lemma_only(id, 3);
}

/// A word stands at one place only.
proof fn lemma_only(id: int, place: int)
    requires
        is_token(id),
        is_token(place),
    ensures
        vocab_word(id) == vocab_word(place) <==> id == place,
{
    if vocab_word(id) == vocab_word(place) {
        law_tokens_are_distinct(id, place);
    }
}

/// The values of a trace: after its mark each field takes the words of its own kind,
/// all of them and no others. A move is two squares and a promotion, and there are
/// three candidates and one best move.
pub proof fn law_fields_take_their_own_words(k: int, n: int)
    requires
        n >= 0,
    ensures
        n <= 8 ==> says(1, 131 + n, numbered("mat:"@, n)),
        n <= 3 ==> says(8, 147 + n, numbered("thr:"@, n)),
        n <= 10 ==> says(30, 185 + n, numbered("ev:"@, n)),
        n < 3 ==> says(3, 140 + n, PHASE_TOKENS[n]@),
        n < 4 ==> says(5, 143 + n, KSAFE_TOKENS[n]@) && says(6, 143 + n, KSAFE_TOKENS[n]@),
        n < 24 && 10 <= k <= 12 ==> says(k, 151 + n, MOTIF_TOKENS[n]@),
        n < 10 ==> says(14, 175 + n, PLAN_TOKENS[n]@),
        n < 64 && (k == 16 || k == 17 || k == 19 || k == 20 || k == 22 || k == 23 || k == 26 || k == 27) ==> says(
            k,
            53 + n,
            "@"@ + square_name(n),
        ),
        n < 5 && (k == 18 || k == 21 || k == 24 || k == 28) ==> says(k, 117 + n, PROMO_TOKENS[n]@),
{
}

/// The token is this word, and may stand in the slot.
pub open spec fn says(k: int, id: int, word: Seq<char>) -> bool {
    is_token(id) && vocab_word(id) == word && slot_allows(k, id)
}

/// No field takes a word of another kind.
pub proof fn law_fields_take_no_other_words(k: int, id: int)
    requires
        slot_allows(k, id),
    ensures
        k == 1 ==> 131 <= id <= 139 && vocab_word(id) == numbered("mat:"@, id - 131),
        k == 3 ==> 140 <= id <= 142 && vocab_word(id) == PHASE_TOKENS[id - 140]@,
        k == 5 || k == 6 ==> 143 <= id <= 146 && vocab_word(id) == KSAFE_TOKENS[id - 143]@,
        k == 8 ==> 147 <= id <= 150 && vocab_word(id) == numbered("thr:"@, id - 147),
        10 <= k <= 12 ==> 151 <= id <= 174 && vocab_word(id) == MOTIF_TOKENS[id - 151]@,
        k == 14 ==> 175 <= id <= 184 && vocab_word(id) == PLAN_TOKENS[id - 175]@,
        k == 30 ==> 185 <= id <= 195 && vocab_word(id) == numbered("ev:"@, id - 185),
        k == 16 || k == 17 || k == 19 || k == 20 || k == 22 || k == 23 || k == 26 || k == 27 ==> 53 <= id <= 116
            && vocab_word(id) == "@"@ + square_name(id - 53),
        k == 18 || k == 21 || k == 24 || k == 28 ==> 117 <= id <= 121 && vocab_word(id) == PROMO_TOKENS[id - 117]@,
{
}

} // verus!
