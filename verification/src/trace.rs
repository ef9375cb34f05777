//! Writing a teacher trace: the 32-token controlled language the model speaks.
//!
//! A trace always has the same shape, which is what lets generation be masked to
//! the grammar and batching stay trivial:
//!
//! ```text
//! MAT <bucket> PHASE <p> KSAFE <us> <them> THR <n> TAC <m> <m> <m>
//! PLAN <plan> CAND <move> <move> <move> BEST <move> EVAL <bucket> <eos>
//! ```
//!
//! The positional fields come from the detectors in [`crate::motifs`] and
//! [`crate::features`]. The best move, the candidates and the value bucket are
//! *inputs*: at training time they come from whatever search produced the sample,
//! at play time from the tree. The model never invents them.

use vstd::prelude::*;

use crate::chess::{Color, Role, Square};
use crate::features::{
    balance_of, edges_reached, hanging, hanging_pieces, king_safety, material_balance, material_bucket, phase,
    phase_index, plan, plan_index, safety_index,
};
use crate::motifs::{firing, lemma_firing, motif_tags, tag_place};
use crate::rules::{state, Position};
use crate::sums::{count_squares, lemma_list_len};
use crate::vocab::{
    is_token, law_tokens_are_distinct, numbered, slot_allows, square_name, tid, vocab_word, EOS,
    FIELD_TOKENS, KSAFE_TOKENS, MOTIF_TOKENS, PHASE_TOKENS, PLAN_TOKENS, PROMO_TOKENS, TRACE_LEN,
};

verus! {

/// A move as the trace sees it: from, to, and an optional promotion.
pub type TraceMove = (Square, Square, Option<Role>);

/// The squares are on the board, and nothing promotes to a pawn or a king.
pub open spec fn move_ok(m: TraceMove) -> bool {
    m.0.valid() && m.1.valid() && m.2 != Some(Role::Pawn) && m.2 != Some(Role::King)
}

/// The place of a promotion's token among the promotion tokens.
pub open spec fn promo_place(role: Option<Role>) -> int {
    match role {
        Some(Role::Knight) => 1,
        Some(Role::Bishop) => 2,
        Some(Role::Rook) => 3,
        Some(Role::Queen) => 4,
        _ => 0,
    }
}

/// The three tokens of a move: its squares and its promotion. An absent move is
/// written as a1 to a1.
pub open spec fn move_word(m: Option<TraceMove>, j: int) -> Seq<char> {
    match m {
        Some((from, to, promotion)) => if j == 0 {
            "@"@ + square_name(from.0 as int)
        } else if j == 1 {
            "@"@ + square_name(to.0 as int)
        } else {
            PROMO_TOKENS[promo_place(promotion)]@
        },
        None => if j <= 1 {
            "@a1"@
        } else {
            PROMO_TOKENS[0]@
        },
    }
}

/// The candidates as the trace lists them: the best move is put in front unless
/// it is among them.
pub open spec fn listed(best: Option<TraceMove>, candidates: Seq<TraceMove>) -> Seq<TraceMove> {
    match best {
        Some(b) => if candidates.contains(b) {
            candidates
        } else {
            seq![b] + candidates
        },
        None => candidates,
    }
}

/// The candidate in one of the three places, if there are that many.
pub open spec fn candidate(best: Option<TraceMove>, candidates: Seq<TraceMove>, i: int) -> Option<TraceMove> {
    if i < listed(best, candidates).len() {
        Some(listed(best, candidates)[i])
    } else {
        None
    }
}

/// The moves that the trace writes can be written: the best one and the first three
/// candidates.
pub open spec fn writable(best: Option<TraceMove>, candidates: Seq<TraceMove>) -> bool {
    &&& best is Some ==> move_ok(best->0)
    &&& forall|i: int| 0 <= i < 3 && (#[trigger] candidate(best, candidates, i)) is Some ==> move_ok(
        candidate(best, candidates, i)->0,
    )
}

/// How many white pieces hang, counted up to three.
pub open spec fn threat_count(fen: Seq<char>) -> int {
    let n = count_squares(|s: int| hanging(state(fen).board, Color::White, s));
    if n > 3 {
        3
    } else {
        n
    }
}

/// The plan of the position, as an index into the plan tokens.
pub open spec fn trace_plan(fen: Seq<char>) -> int {
    let board = state(fen).board;
    plan_index(state(fen), balance_of(board), PHASE_TOKENS[phase_index(board)]@, threat_count(fen))
}

/// The token in each slot of a trace.
pub open spec fn trace_word(
    fen: Seq<char>,
    best: Option<TraceMove>,
    candidates: Seq<TraceMove>,
    bucket: int,
    k: int,
) -> Seq<char> {
    let board = state(fen).board;
    if k == 0 {
        FIELD_TOKENS[0]@
    } else if k == 1 {
        numbered("mat:"@, edges_reached(balance_of(board), 8))
    } else if k == 2 {
        FIELD_TOKENS[1]@
    } else if k == 3 {
        PHASE_TOKENS[phase_index(board)]@
    } else if k == 4 {
        FIELD_TOKENS[2]@
    } else if k == 5 {
        KSAFE_TOKENS[safety_index(board, Color::White)]@
    } else if k == 6 {
        KSAFE_TOKENS[safety_index(board, Color::Black)]@
    } else if k == 7 {
        FIELD_TOKENS[3]@
    } else if k == 8 {
        numbered("thr:"@, threat_count(fen))
    } else if k == 9 {
        FIELD_TOKENS[4]@
    } else if k <= 12 {
        MOTIF_TOKENS[tag_place(firing(fen, 22), k - 10)]@
    } else if k == 13 {
        FIELD_TOKENS[5]@
    } else if k == 14 {
        PLAN_TOKENS[trace_plan(fen)]@
    } else if k == 15 {
        FIELD_TOKENS[6]@
    } else if k <= 24 {
        move_word(candidate(best, candidates, (k - 16) / 3), (k - 16) % 3)
    } else if k == 25 {
        FIELD_TOKENS[7]@
    } else if k <= 28 {
        move_word(best, k - 26)
    } else if k == 29 {
        FIELD_TOKENS[8]@
    } else if k == 30 {
        numbered("ev:"@, bucket)
    } else {
        EOS@
    }
}

/// The ids written so far are those of the words, and the grammar allows each in
/// its slot.
pub open spec fn written(ids: Seq<u16>, words: spec_fn(int) -> Seq<char>) -> bool {
    forall|k: int| 0 <= k < ids.len() ==> {
        &&& #[trigger] ids[k] < 196
        &&& vocab_word(ids[k] as int) == words(k)
        &&& slot_allows(k, ids[k] as int)
    }
}

fn put(out: &mut Vec<u16>, id: u16, Ghost(words): Ghost<spec_fn(int) -> Seq<char>>)
    requires
        written(old(out)@, words),
        id < 196,
        vocab_word(id as int) == words(old(out)@.len() as int),
        slot_allows(old(out)@.len() as int, id as int),
    ensures
        written(final(out)@, words),
        final(out)@.len() == old(out)@.len() + 1,
{
    out.push(id);
}

/// The id of the word that stands at a known place of the vocabulary.
fn known(word: &str, Ghost(place): Ghost<int>) -> (r: u16)
    requires
        is_token(place),
        vocab_word(place) == word@,
    ensures
        r == place,
{
    let id: u16 = tid(word);
    proof {
        law_tokens_are_distinct(id as int, place);
    }
    id
}

fn promo_id(role: Option<Role>) -> (r: u16)
    requires
        role != Some(Role::Pawn),
        role != Some(Role::King),
    ensures
        r == 117 + promo_place(role),
        vocab_word(r as int) == PROMO_TOKENS[promo_place(role)]@,
{
    match role {
        Some(Role::Knight) => 118,
        Some(Role::Bishop) => 119,
        Some(Role::Rook) => 120,
        Some(Role::Queen) => 121,
        _ => 117,
    }
}

/// Write the three tokens of a move.
fn push_move(out: &mut Vec<u16>, m: Option<TraceMove>, Ghost(words): Ghost<spec_fn(int) -> Seq<char>>)
    requires
        written(old(out)@, words),
        m is Some ==> move_ok(m->0),
        old(out)@.len() == 16 || old(out)@.len() == 19 || old(out)@.len() == 22 || old(out)@.len() == 26,
        forall|j: int| 0 <= j < 3 ==> #[trigger] words(old(out)@.len() + j) == move_word(m, j),
    ensures
        written(final(out)@, words),
        final(out)@.len() == old(out)@.len() + 3,
{
    let (from, to, promotion): (u16, u16, u16) = match m {
        None => (53, 53, 117),
        Some((from, to, promotion)) => (53 + from.0 as u16, 53 + to.0 as u16, promo_id(promotion)),
    };
    proof {
        reveal_strlit("@a1");
        reveal_strlit("@");
        assert("@a1"@ =~= "@"@ + square_name(0));
        let n = out@.len() as int;
        assert(words(n + 0) == move_word(m, 0));
        assert(words(n + 1) == move_word(m, 1));
        assert(words(n + 2) == move_word(m, 2));
    }
    put(out, from, Ghost(words));
    put(out, to, Ghost(words));
    put(out, promotion, Ghost(words));
}

/// Is this move among the first `moves`?
fn contains_move(moves: &Vec<TraceMove>, m: TraceMove) -> (r: bool)
    ensures
        r == moves@.contains(m),
{
    let mut i: usize = 0;
    while i < moves.len()
        invariant
            i <= moves.len(),
            forall|j: int| 0 <= j < i ==> moves@[j] != m,
        decreases moves.len() - i,
    {
        let (from, to, promotion) = moves[i];
        if from == m.0 && to == m.1 && promotion == m.2 {
            assert(moves@[i as int] == m);
            return true;
        }
        i = i + 1;
    }
    false
}

/// The candidate in one of the three places.
fn pick(best: Option<TraceMove>, candidates: &Vec<TraceMove>, i: usize) -> (r: Option<TraceMove>)
    requires
        i < 3,
        writable(best, candidates@),
    ensures
        r == candidate(best, candidates@, i as int),
        r is Some ==> move_ok(r->0),
{
    if let Some(b) = best {
        if !contains_move(candidates, b) {
            assert(listed(best, candidates@) == seq![b] + candidates@);
            return if i == 0 {
                Some(b)
            } else if i - 1 < candidates.len() {
                Some(candidates[i - 1])
            } else {
                None
            };
        }
    }
    if i < candidates.len() {
        Some(candidates[i])
    } else {
        None
    }
}

/// Write the trace for a canonical position.
///
/// `bucket` is the search's value estimate from the mover's point of view, from
/// 0 (lost) to 10 (won).
pub fn annotate(
    canon: &Position,
    best: Option<TraceMove>,
    candidates: &Vec<TraceMove>,
    bucket: usize,
) -> (r: Vec<u16>)
    requires
        writable(best, candidates@),
        bucket <= 10,
    ensures
        r@.len() == TRACE_LEN,
        forall|k: int| 0 <= k < TRACE_LEN ==> {
            &&& #[trigger] r@[k] < 196
            &&& vocab_word(r@[k] as int) == trace_word(canon@, best, candidates@, bucket as int, k)
            &&& slot_allows(k, r@[k] as int)
        },
{
    let board = canon.board();
    let ghost words = |k: int| trace_word(canon@, best, candidates@, bucket as int, k);
    let balance: i32 = material_balance(&board);
    let phase_token = phase(&board);
    let hung = hanging_pieces(&board, Color::White);
    let threats: usize = if hung.len() > 3 {
        3
    } else {
        hung.len()
    };
    proof {
        lemma_list_len(|s: int| hanging(board, Color::White, s), 64);
        assert(threats == threat_count(canon@));
    }
    let plan_token = plan(canon, balance, phase_token, threats);
    let tags = motif_tags(canon);

    let mut out: Vec<u16> = Vec::new();
    put(&mut out, 122, Ghost(words));
    put(&mut out, 131 + material_bucket(balance) as u16, Ghost(words));
    put(&mut out, 123, Ghost(words));
    put(&mut out, known(phase_token, Ghost(140 + phase_index(board))), Ghost(words));
    put(&mut out, 124, Ghost(words));
    put(
        &mut out,
        known(king_safety(&board, Color::White), Ghost(143 + safety_index(board, Color::White))),
        Ghost(words),
    );
    put(
        &mut out,
        known(king_safety(&board, Color::Black), Ghost(143 + safety_index(board, Color::Black))),
        Ghost(words),
    );
    put(&mut out, 125, Ghost(words));
    put(&mut out, 147 + threats as u16, Ghost(words));
    put(&mut out, 126, Ghost(words));
    let mut i: usize = 0;
    while i < 3
        invariant
            i <= 3,
            tags@.len() == 3,
            words == (|k: int| trace_word(canon@, best, candidates@, bucket as int, k)),
            forall|i: int| 0 <= i < 3 ==> (#[trigger] tags@[i])@ == MOTIF_TOKENS[tag_place(firing(canon@, 22), i)]@,
            written(out@, words),
            out@.len() == 10 + i,
        decreases 3 - i,
    {
        let ghost m = tag_place(firing(canon@, 22), i as int);
        proof {
            lemma_tag_is_motif(canon@, i as int);
        }
        put(&mut out, known(tags[i], Ghost(151 + m)), Ghost(words));
        i = i + 1;
    }
    put(&mut out, 127, Ghost(words));
    put(&mut out, known(plan_token, Ghost(175 + trace_plan(canon@))), Ghost(words));
    put(&mut out, 128, Ghost(words));
    push_move(&mut out, pick(best, candidates, 0), Ghost(words));
    push_move(&mut out, pick(best, candidates, 1), Ghost(words));
    push_move(&mut out, pick(best, candidates, 2), Ghost(words));
    put(&mut out, 129, Ghost(words));
    push_move(&mut out, best, Ghost(words));
    put(&mut out, 130, Ghost(words));
    put(&mut out, 185 + bucket as u16, Ghost(words));
    put(&mut out, 3, Ghost(words));
    out
}

/// Each of the three tags of a trace is a motif token.
proof fn lemma_tag_is_motif(fen: Seq<char>, i: int)
    requires
        0 <= i < 3,
    ensures
        0 <= tag_place(firing(fen, 22), i) < 24,
{
    lemma_firing(fen, 22);
}

} // verus!
