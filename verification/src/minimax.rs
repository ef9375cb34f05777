//! What the search is worth: the scores of quiescence and of the alpha-beta search
//! against those of the positions that the moves lead to.

use vstd::prelude::*;

use crate::alphabeta::{
    answers, begun, bound_of, deepened, doubled_to, drawn, entered, fresh, is_noisy, keyed, killers_at, larger,
    law_the_table_keeps_the_deeper_search, lemma_ordered_members, occurrences, order_key, ordered, probed, quiesced,
    quiesced_moves, remaining, repeated, replies, score_text, searched, searched_moves, signed_depth, stored, unsearched,
    variation, with_killer, Bound, Killers, Outcome, QuietAcc, SearchAcc, Snap, TtEntry,
};
use crate::chess::Role;
use crate::eval::evaluation;
use crate::ordering::{law_sorted_is_an_ascending_rearrangement, sorted};
use crate::rules::{fen_play, insufficient_of, moves_of, state, zobrist_of, Move};
use crate::text::{decimal, signed_decimal};

verus! {

/// The minimax value over standing pat and all captures and promotions.
spec fn calm(fen: Seq<char>, ply: int) -> int
    decreases (if ply < 128 { 128 - ply } else { 0 }), 1int, 0int,
{
    if ply >= 127 {
        evaluation(state(fen))
    } else {
        calm_upto(fen, ply, moves_of(fen).len() as int)
    }
}

/// The same over the first `n` moves.
spec fn calm_upto(fen: Seq<char>, ply: int, n: int) -> int
    decreases (if ply < 128 { 128 - ply } else { 0 }), 0int, n,
{
    if n <= 0 || ply >= 127 {
        evaluation(state(fen))
    } else {
        let m = moves_of(fen)[n - 1];
        let rest = calm_upto(fen, ply, n - 1);
        if m.takes() is Some || m.promotes_to() is Some {
            larger(rest, -calm(fen_play(fen, m), ply + 1))
        } else {
            rest
        }
    }
}

spec fn loud(m: Move) -> bool {
    m.takes() is Some || m.promotes_to() is Some
}

/// The value is at least that of standing pat and of each capture and promotion, and
/// is one of them.
proof fn lemma_calm_upto(fen: Seq<char>, ply: int, n: int)
    requires
        0 <= n <= moves_of(fen).len(),
        ply < 127,
    ensures
        calm_upto(fen, ply, n) >= evaluation(state(fen)),
        forall|i: int| 0 <= i < n && loud(#[trigger] moves_of(fen)[i]) ==> calm_upto(fen, ply, n) >= -calm(
            fen_play(fen, moves_of(fen)[i]),
            ply + 1,
        ),
        calm_upto(fen, ply, n) == evaluation(state(fen)) || exists|i: int|
            0 <= i < n && loud(#[trigger] moves_of(fen)[i]) && calm_upto(fen, ply, n) == -calm(
                fen_play(fen, moves_of(fen)[i]),
                ply + 1,
            ),
    decreases n,
{
    if n > 0 {
        lemma_calm_upto(fen, ply, n - 1);
        let m = moves_of(fen)[n - 1];
        assert(calm_upto(fen, ply, n) == if loud(m) {
            larger(calm_upto(fen, ply, n - 1), -calm(fen_play(fen, m), ply + 1))
        } else {
            calm_upto(fen, ply, n - 1)
        });
    }
}

/// Every move comes up in search order.
proof fn lemma_ordered_covers(moves: Seq<Move>, tt_move: Option<Move>, killers: Killers, m: Move) -> (k: int)
    requires
        moves.contains(m),
    ensures
        0 <= k < ordered(moves, tt_move, killers).len(),
        ordered(moves, tt_move, killers)[k] == m,
{
    let pairs = keyed(moves, tt_move, killers);
    let result = sorted(pairs);
    law_sorted_is_an_ascending_rearrangement(pairs);
    let i = moves.index_of(m);
    assert(pairs[i].1 == m);
    assert(pairs.contains(pairs[i]));
    vstd::seq_lib::to_multiset_contains(pairs, pairs[i]);
    vstd::seq_lib::to_multiset_contains(result, pairs[i]);
    let k = result.index_of(pairs[i]);
    assert(ordered(moves, tt_move, killers)[k] == m);
    k
}

/// The moves that quiescence searches are the captures and promotions.
proof fn lemma_noisy_moves(fen: Seq<char>, killers: Killers)
    ensures
        ({
            let list = ordered(moves_of(fen).filter(|m: Move| is_noisy(m)), None, killers);
            &&& list.len() == moves_of(fen).filter(|m: Move| is_noisy(m)).len()
            &&& forall|j: int| 0 <= j < list.len() ==> moves_of(fen).contains(#[trigger] list[j]) && loud(list[j])
            &&& forall|m: Move| moves_of(fen).contains(m) && #[trigger] loud(m) ==> exists|j: int|
                0 <= j < list.len() && #[trigger] list[j] == m
        }),
{
    let all = moves_of(fen);
    let noisy = all.filter(|m: Move| is_noisy(m));
    let list = ordered(noisy, None, killers);
    lemma_ordered_members(noisy, None, killers);
    assert forall|j: int| 0 <= j < list.len() implies all.contains(#[trigger] list[j]) && loud(list[j]) by {
        assert(noisy.contains(list[j]));
        let k = noisy.index_of(list[j]);
        all.lemma_filter_pred(|m: Move| is_noisy(m), k);
        all.lemma_filter_contains_rev(|m: Move| is_noisy(m), list[j]);
    }
    assert forall|m: Move| all.contains(m) && #[trigger] loud(m) implies exists|j: int|
        0 <= j < list.len() && #[trigger] list[j] == m by {
        let i = all.index_of(m);
        all.lemma_filter_contains(|m: Move| is_noisy(m), i);
        let k = lemma_ordered_covers(noisy, None, killers, m);
        assert(list[k] == m);
    }
}

/// An aborted quiescence search stays aborted.
proof fn lemma_quiet_abort(acc: QuietAcc, fen: Seq<char>, moves: Seq<Move>, i: int, beta: int, ply: int)
    requires
        acc.st.aborted,
    ensures
        quiesced_moves(acc, fen, moves, i, beta, ply).st.aborted,
    decreases moves.len() - i,
{
    if 0 <= i < moves.len() && ply < 127 {
        let (st, reply) = quiesced(acc.st, fen_play(fen, moves[i]), -beta, -acc.alpha, ply + 1);
        assert(st.aborted);
        let next = QuietAcc { st, alpha: larger(acc.alpha, -reply), best: larger(acc.best, -reply) };
        lemma_quiet_abort(next, fen, moves, i + 1, beta, ply);
    }
}

/// Within its window the score of quiescence is the minimax value; outside, it bounds
/// it.
proof fn lemma_quiet(st: Snap, fen: Seq<char>, alpha: int, beta: int, ply: int)
    requires
        alpha < beta,
        !quiesced(st, fen, alpha, beta, ply).0.aborted,
    ensures
        quiesced(st, fen, alpha, beta, ply).1 >= evaluation(state(fen)),
        quiesced(st, fen, alpha, beta, ply).1 < beta ==> calm(fen, ply) <= quiesced(st, fen, alpha, beta, ply).1,
        quiesced(st, fen, alpha, beta, ply).1 > alpha ==> calm(fen, ply) >= quiesced(st, fen, alpha, beta, ply).1,
    decreases (if ply < 128 { 128 - ply } else { 0 }), 1int, 0int,
{
    let begun = entered(st);
    let stand_pat = evaluation(state(fen));
    if ply < 127 {
        lemma_calm_upto(fen, ply, moves_of(fen).len() as int);
        let value = calm(fen, ply);
        if !begun.aborted && stand_pat < beta {
            let killers = killers_at(begun.killers, ply);
            let noisy = moves_of(fen).filter(|m: Move| is_noisy(m));
            let list = ordered(noisy, None, killers);
            lemma_noisy_moves(fen, killers);
            if noisy.len() == 0 {
                assert forall|i: int| 0 <= i < moves_of(fen).len() implies !loud(#[trigger] moves_of(fen)[i]) by {
                    assert(moves_of(fen).contains(moves_of(fen)[i]));
                }
                assert(value == stand_pat);
            } else {
                let acc = QuietAcc { st: begun, alpha: larger(alpha, stand_pat), best: stand_pat };
                lemma_quiet_moves(acc, fen, list, 0, beta, ply, alpha);
                let out = quiesced_moves(acc, fen, list, 0, beta, ply);
                if out.best < beta && value != stand_pat {
                    let i = choose|i: int|
                        0 <= i < moves_of(fen).len() && loud(#[trigger] moves_of(fen)[i]) && value == -calm(
                            fen_play(fen, moves_of(fen)[i]),
                            ply + 1,
                        );
                    assert(moves_of(fen).contains(moves_of(fen)[i]));
                    let j = choose|j: int| 0 <= j < list.len() && #[trigger] list[j] == moves_of(fen)[i];
                    assert(list[j] == moves_of(fen)[i]);
                }
                if out.best > alpha && out.best != stand_pat {
                    let j = choose|j: int|
                        0 <= j < list.len() && out.best <= -calm(fen_play(fen, #[trigger] list[j]), ply + 1);
                    let i = moves_of(fen).index_of(list[j]);
                    assert(moves_of(fen)[i] == list[j]);
                }
            }
        }
    }
}

proof fn lemma_quiet_moves(
    acc: QuietAcc,
    fen: Seq<char>,
    moves: Seq<Move>,
    i: int,
    beta: int,
    ply: int,
    alpha: int,
)
    requires
        0 <= i <= moves.len(),
        ply < 127,
        acc.alpha == larger(alpha, acc.best),
        acc.alpha < beta,
        !quiesced_moves(acc, fen, moves, i, beta, ply).st.aborted,
    ensures
        ({
            let out = quiesced_moves(acc, fen, moves, i, beta, ply);
            &&& out.best >= acc.best
            &&& out.best < beta ==> forall|j: int| i <= j < moves.len() ==> -calm(
                fen_play(fen, #[trigger] moves[j]),
                ply + 1,
            ) <= out.best
            &&& out.best > alpha ==> out.best == acc.best || exists|j: int|
                i <= j < moves.len() && out.best <= -calm(fen_play(fen, #[trigger] moves[j]), ply + 1)
        }),
    decreases (if ply < 128 { 128 - ply } else { 0 }), 0int, moves.len() - i,
{
    if i < moves.len() {
        let child = fen_play(fen, moves[i]);
        let (st, reply) = quiesced(acc.st, child, -beta, -acc.alpha, ply + 1);
        let next = QuietAcc { st, alpha: larger(acc.alpha, -reply), best: larger(acc.best, -reply) };
        let out = quiesced_moves(acc, fen, moves, i, beta, ply);
        if next.alpha >= beta {
            assert(out == next);
            lemma_quiet(acc.st, child, -beta, -acc.alpha, ply + 1);
            if out.best > alpha && out.best != acc.best {
                assert(out.best <= -calm(fen_play(fen, moves[i]), ply + 1));
            }
        } else {
            assert(out == quiesced_moves(next, fen, moves, i + 1, beta, ply));
            if st.aborted {
                lemma_quiet_abort(next, fen, moves, i + 1, beta, ply);
            }
            lemma_quiet(acc.st, child, -beta, -acc.alpha, ply + 1);
            lemma_quiet_moves(next, fen, moves, i + 1, beta, ply, alpha);
            if out.best > alpha && out.best != acc.best {
                if out.best == next.best {
                    assert(out.best <= -calm(fen_play(fen, moves[i]), ply + 1));
                } else {
                    let j = choose|j: int|
                        i + 1 <= j < moves.len() && out.best <= -calm(fen_play(fen, #[trigger] moves[j]), ply + 1);
                    assert(out.best <= -calm(fen_play(fen, moves[j]), ply + 1));
                }
            }
        }
    }
}

/// Quiescence never reads the evaluation in the middle of an exchange: it tries every
/// legal capture and every promotion. Where its score stays below beta, it is at least
/// what such a move leads to, whatever the windows and the states of the two searches.
pub proof fn law_quiescence_tries_every_capture(
    a: Snap,
    b: Snap,
    fen: Seq<char>,
    m: Move,
    alpha: int,
    beta: int,
    child_alpha: int,
    child_beta: int,
    ply: int,
)
    requires
        moves_of(fen).contains(m),
        m.takes() is Some || m.promotes_to() is Some,
        ply < 127,
        alpha < beta,
        child_alpha < child_beta,
        !quiesced(a, fen, alpha, beta, ply).0.aborted,
        !quiesced(b, fen_play(fen, m), child_alpha, child_beta, ply + 1).0.aborted,
        quiesced(a, fen, alpha, beta, ply).1 < beta,
        quiesced(b, fen_play(fen, m), child_alpha, child_beta, ply + 1).1 < child_beta,
    ensures
        quiesced(a, fen, alpha, beta, ply).1 >= -quiesced(
            b,
            fen_play(fen, m),
            child_alpha,
            child_beta,
            ply + 1,
        ).1,
{
    lemma_quiet(a, fen, alpha, beta, ply);
    lemma_quiet(b, fen_play(fen, m), child_alpha, child_beta, ply + 1);
    lemma_calm_upto(fen, ply, moves_of(fen).len() as int);
    let i = moves_of(fen).index_of(m);
    assert(loud(moves_of(fen)[i]));
}

/// Nobody is forced to capture: the score of quiescence is never below that of
/// standing pat.
pub proof fn law_quiescence_may_stand_pat(st: Snap, fen: Seq<char>, alpha: int, beta: int, ply: int)
    requires
        alpha < beta,
        !quiesced(st, fen, alpha, beta, ply).0.aborted,
    ensures
        quiesced(st, fen, alpha, beta, ply).1 >= evaluation(state(fen)),
{
    lemma_quiet(st, fen, alpha, beta, ply);
}

/// Quiescence looks at nothing but captures and promotions: a score above alpha is the
/// evaluation, or is reached by such a move, whose position no search scores so high
/// for the opponent that the score would not be had.
pub proof fn law_quiescence_scores_are_reached(st: Snap, fen: Seq<char>, alpha: int, beta: int, ply: int)
    requires
        alpha < beta,
        !quiesced(st, fen, alpha, beta, ply).0.aborted,
        quiesced(st, fen, alpha, beta, ply).1 > alpha,
    ensures
        quiesced(st, fen, alpha, beta, ply).1 == evaluation(state(fen)) || (ply < 127 && exists|m: Move|
            {
                &&& #[trigger] moves_of(fen).contains(m)
                &&& m.takes() is Some || m.promotes_to() is Some
                &&& forall|b: Snap, x: int, y: int|
                    x < y && !(#[trigger] quiesced(b, fen_play(fen, m), x, y, ply + 1)).0.aborted && quiesced(
                        b,
                        fen_play(fen, m),
                        x,
                        y,
                        ply + 1,
                    ).1 > x ==> quiesced(st, fen, alpha, beta, ply).1 <= -quiesced(b, fen_play(fen, m), x, y, ply + 1).1
            }),
{
    let score = quiesced(st, fen, alpha, beta, ply).1;
    lemma_quiet(st, fen, alpha, beta, ply);
    if score != evaluation(state(fen)) && ply < 127 {
        lemma_calm_upto(fen, ply, moves_of(fen).len() as int);
        let i = choose|i: int|
            0 <= i < moves_of(fen).len() && loud(#[trigger] moves_of(fen)[i]) && calm(fen, ply) == -calm(
                fen_play(fen, moves_of(fen)[i]),
                ply + 1,
            );
        let m = moves_of(fen)[i];
        assert(moves_of(fen).contains(m));
        assert forall|b: Snap, x: int, y: int|
            x < y && !(#[trigger] quiesced(b, fen_play(fen, m), x, y, ply + 1)).0.aborted && quiesced(
                b,
                fen_play(fen, m),
                x,
                y,
                ply + 1,
            ).1 > x implies score <= -quiesced(b, fen_play(fen, m), x, y, ply + 1).1 by {
            lemma_quiet(b, fen_play(fen, m), x, y, ply + 1);
        }
    }
}

/// Quiescence leaves the history of the game and the table as they are.
proof fn lemma_quiet_history(st: Snap, fen: Seq<char>, alpha: int, beta: int, ply: int)
    ensures
        quiesced(st, fen, alpha, beta, ply).0.history == st.history,
        quiesced(st, fen, alpha, beta, ply).0.table == st.table,
    decreases (if ply < 128 { 128 - ply } else { 0 }), 1int, 0int,
{
    let begun = entered(st);
    let stand_pat = evaluation(state(fen));
    if !begun.aborted && stand_pat < beta && ply < 127 {
        let noisy = moves_of(fen).filter(|m: Move| is_noisy(m));
        let list = ordered(noisy, None, killers_at(begun.killers, ply));
        let acc = QuietAcc { st: begun, alpha: larger(alpha, stand_pat), best: stand_pat };
        lemma_quiet_moves_history(acc, fen, list, 0, beta, ply);
    }
}

proof fn lemma_quiet_moves_history(acc: QuietAcc, fen: Seq<char>, moves: Seq<Move>, i: int, beta: int, ply: int)
    ensures
        quiesced_moves(acc, fen, moves, i, beta, ply).st.history == acc.st.history,
        quiesced_moves(acc, fen, moves, i, beta, ply).st.table == acc.st.table,
    decreases (if ply < 128 { 128 - ply } else { 0 }), 0int, moves.len() - i,
{
    if 0 <= i < moves.len() && ply < 127 {
        let child = fen_play(fen, moves[i]);
        lemma_quiet_history(acc.st, child, -beta, -acc.alpha, ply + 1);
        let (st, reply) = quiesced(acc.st, child, -beta, -acc.alpha, ply + 1);
        let next = QuietAcc { st, alpha: larger(acc.alpha, -reply), best: larger(acc.best, -reply) };
        lemma_quiet_moves_history(next, fen, moves, i + 1, beta, ply);
    }
}

/// A search leaves the history of the game as it is, and the table as large as it is.
pub proof fn law_the_search_keeps_history_and_table_size(st: Snap, fen: Seq<char>, depth: int, alpha: int, beta: int, ply: int)
    ensures
        searched(st, fen, depth, alpha, beta, ply).0.history == st.history,
        st.table.len() > 0 ==> searched(st, fen, depth, alpha, beta, ply).0.table.len() == st.table.len(),
    decreases remaining(depth), 1int, 0int,
{
    let begun = entered(st);
    let entry = probed(begun.table, zobrist_of(fen));
    if depth <= 0 {
        lemma_quiet_history(begun, fen, alpha, beta, ply);
    } else {
        let tt_move = match entry {
            Some(e) => e.best,
            None => None,
        };
        let moves = ordered(moves_of(fen), tt_move, killers_at(begun.killers, ply));
        let acc = SearchAcc { st: begun, alpha, best_score: -32_001, best_move: None };
        lemma_search_moves_history(acc, fen, moves, 0, depth, beta, ply);
    }
}

proof fn lemma_search_moves_history(
    acc: SearchAcc,
    fen: Seq<char>,
    moves: Seq<Move>,
    i: int,
    depth: int,
    beta: int,
    ply: int,
)
    ensures
        searched_moves(acc, fen, moves, i, depth, beta, ply).st.history == acc.st.history,
        acc.st.table.len() > 0 ==> searched_moves(acc, fen, moves, i, depth, beta, ply).st.table.len()
            == acc.st.table.len(),
    decreases remaining(depth), 0int, moves.len() - i,
{
    if 0 <= i < moves.len() && depth > 0 {
        let (next, _, _) = after_move(acc, fen, moves[i], depth, beta, ply);
        let child = fen_play(fen, moves[i]);
        let deeper = Snap { history: acc.st.history.push(zobrist_of(child)), ..acc.st };
        law_the_search_keeps_history_and_table_size(deeper, child, depth - 1, -beta, -acc.alpha, ply + 1);
        assert(deeper.history.drop_last() =~= acc.st.history);
        lemma_search_moves_history(next, fen, moves, i + 1, depth, beta, ply);
    }
}

/// What is gathered once a move has been searched, and the search that was made.
spec fn after_move(acc: SearchAcc, fen: Seq<char>, m: Move, depth: int, beta: int, ply: int) -> (SearchAcc, Snap, int) {
    let child = fen_play(fen, m);
    let deeper = Snap { history: acc.st.history.push(zobrist_of(child)), ..acc.st };
    let (st, reply) = searched(deeper, child, depth - 1, -beta, -acc.alpha, ply + 1);
    let st = Snap { history: st.history.drop_last(), ..st };
    (
        SearchAcc {
            st,
            alpha: larger(acc.alpha, -reply),
            best_score: larger(acc.best_score, -reply),
            best_move: if -reply > acc.best_score {
                Some(m)
            } else {
                acc.best_move
            },
        },
        deeper,
        reply,
    )
}

proof fn lemma_search_abort(
    acc: SearchAcc,
    fen: Seq<char>,
    moves: Seq<Move>,
    i: int,
    depth: int,
    beta: int,
    ply: int,
)
    requires
        acc.st.aborted,
    ensures
        searched_moves(acc, fen, moves, i, depth, beta, ply).st.aborted,
    decreases moves.len() - i,
{
    if 0 <= i < moves.len() && depth > 0 {
        let (next, deeper, _) = after_move(acc, fen, moves[i], depth, beta, ply);
        assert(entered(deeper).aborted);
        assert(next.st.aborted);
        lemma_search_abort(next, fen, moves, i + 1, depth, beta, ply);
    }
}

/// The opponent's reply to a move, searched one ply deeper with the move's position
/// added to the history, within a window that ends where the search had got to.
pub open spec fn reply_to(b: Snap, fen: Seq<char>, m: Move, depth: int, best: int, beta: int, ply: int) -> (Snap, int) {
    searched(b, fen_play(fen, m), depth - 1, -beta, -best, ply + 1)
}

/// The score is at least what a search of the move leads to, made with the move's
/// position added to the history.
pub open spec fn matches_move(
    score: int,
    history: Seq<u64>,
    fen: Seq<char>,
    m: Move,
    depth: int,
    alpha: int,
    beta: int,
    ply: int,
) -> bool {
    exists|b: Snap, best: int|
        {
            &&& best >= alpha
            &&& b.history == history.push(zobrist_of(fen_play(fen, m)))
            &&& !(#[trigger] reply_to(b, fen, m, depth, best, beta, ply)).0.aborted
            &&& score >= -reply_to(b, fen, m, depth, best, beta, ply).1
        }
}

/// The score is just what a search of the move leads to.
pub open spec fn reached_by(
    score: int,
    history: Seq<u64>,
    fen: Seq<char>,
    m: Move,
    depth: int,
    alpha: int,
    beta: int,
    ply: int,
) -> bool {
    exists|b: Snap, best: int|
        {
            &&& best >= alpha
            &&& b.history == history.push(zobrist_of(fen_play(fen, m)))
            &&& !(#[trigger] reply_to(b, fen, m, depth, best, beta, ply)).0.aborted
            &&& score == -reply_to(b, fen, m, depth, best, beta, ply).1
        }
}

proof fn lemma_wider(
    score: int,
    history: Seq<u64>,
    fen: Seq<char>,
    m: Move,
    depth: int,
    a: int,
    alpha: int,
    beta: int,
    ply: int,
)
    requires
        a >= alpha,
    ensures
        matches_move(score, history, fen, m, depth, a, beta, ply) ==> matches_move(
            score,
            history,
            fen,
            m,
            depth,
            alpha,
            beta,
            ply,
        ),
        reached_by(score, history, fen, m, depth, a, beta, ply) ==> reached_by(
            score,
            history,
            fen,
            m,
            depth,
            alpha,
            beta,
            ply,
        ),
{
}

proof fn lemma_search_moves(
    acc: SearchAcc,
    fen: Seq<char>,
    moves: Seq<Move>,
    i: int,
    depth: int,
    beta: int,
    ply: int,
)
    requires
        0 <= i <= moves.len(),
        depth > 0,
        acc.alpha < beta,
        !searched_moves(acc, fen, moves, i, depth, beta, ply).st.aborted,
    ensures
        ({
            let out = searched_moves(acc, fen, moves, i, depth, beta, ply);
            let h = acc.st.history;
            &&& out.best_score >= acc.best_score
            &&& out.best_score < beta ==> forall|j: int| i <= j < moves.len() ==> matches_move(
                out.best_score,
                h,
                fen,
                #[trigger] moves[j],
                depth,
                acc.alpha,
                beta,
                ply,
            )
            &&& out.best_score > acc.best_score ==> exists|j: int|
                i <= j < moves.len() && out.best_move == Some(#[trigger] moves[j]) && reached_by(
                    out.best_score,
                    h,
                    fen,
                    moves[j],
                    depth,
                    acc.alpha,
                    beta,
                    ply,
                )
            &&& out.best_score == acc.best_score ==> out.best_move == acc.best_move
        }),
    decreases moves.len() - i,
{
    let out = searched_moves(acc, fen, moves, i, depth, beta, ply);
    let h = acc.st.history;
    if i < moves.len() {
        let m = moves[i];
        let (next, deeper, reply) = after_move(acc, fen, m, depth, beta, ply);
        assert(deeper.history == h.push(zobrist_of(fen_play(fen, m))));
        let made = reply_to(deeper, fen, m, depth, acc.alpha, beta, ply);
        assert(made.1 == reply);
        law_the_search_keeps_history_and_table_size(deeper, fen_play(fen, m), depth - 1, -beta, -acc.alpha, ply + 1);
        assert(deeper.history.drop_last() =~= h);
        assert(next.st.history == h);
        if next.alpha >= beta {
            assert(out.best_score == next.best_score && out.best_move == next.best_move);
            assert(!made.0.aborted);
            assert(out.best_score >= beta);
            if out.best_score > acc.best_score {
                assert(reached_by(out.best_score, h, fen, moves[i], depth, acc.alpha, beta, ply));
            }
        } else {
            assert(out == searched_moves(next, fen, moves, i + 1, depth, beta, ply));
            if next.st.aborted {
                lemma_search_abort(next, fen, moves, i + 1, depth, beta, ply);
            }
            assert(!made.0.aborted);
            lemma_search_moves(next, fen, moves, i + 1, depth, beta, ply);
            if out.best_score < beta {
                assert forall|j: int| i <= j < moves.len() implies matches_move(
                    out.best_score,
                    h,
                    fen,
                    #[trigger] moves[j],
                    depth,
                    acc.alpha,
                    beta,
                    ply,
                ) by {
                    if j > i {
                        lemma_wider(out.best_score, h, fen, moves[j], depth, next.alpha, acc.alpha, beta, ply);
                    }
                }
            }
            if out.best_score > acc.best_score {
                if out.best_score == next.best_score {
                    assert(reached_by(out.best_score, h, fen, moves[i], depth, acc.alpha, beta, ply));
                } else {
                    let j = choose|j: int|
                        i + 1 <= j < moves.len() && out.best_move == Some(#[trigger] moves[j]) && reached_by(
                            out.best_score,
                            h,
                            fen,
                            moves[j],
                            depth,
                            next.alpha,
                            beta,
                            ply,
                        );
                    lemma_wider(out.best_score, h, fen, moves[j], depth, next.alpha, acc.alpha, beta, ply);
                    assert(out.best_move == Some(moves[j]));
                }
            }
        }
    }
}

/// The node has to be searched: it is no draw, and the table does not answer for it.
pub open spec fn unanswered(st: Snap, fen: Seq<char>, depth: int, alpha: int, beta: int, ply: int) -> bool {
    ply > 0 ==> {
        &&& !drawn(st.history, fen)
        &&& probed(st.table, zobrist_of(fen)) is Some ==> !answers(
            probed(st.table, zobrist_of(fen))->0,
            depth,
            alpha,
            beta,
        )
    }
}

/// The search overlooks no move: where its score stays below beta, it is at least what
/// any legal move leads to, searched one ply less deep from the other side.
pub proof fn law_the_search_tries_every_move(
    st: Snap,
    fen: Seq<char>,
    depth: int,
    alpha: int,
    beta: int,
    ply: int,
    m: Move,
)
    requires
        depth > 0,
        alpha < beta,
        moves_of(fen).contains(m),
        unanswered(st, fen, depth, alpha, beta, ply),
        !searched(st, fen, depth, alpha, beta, ply).0.aborted,
        searched(st, fen, depth, alpha, beta, ply).1 < beta,
    ensures
        matches_move(searched(st, fen, depth, alpha, beta, ply).1, st.history, fen, m, depth, alpha, beta, ply),
{
    let begun = entered(st);
    let tt_move = match probed(begun.table, zobrist_of(fen)) {
        Some(e) => e.best,
        None => None,
    };
    let killers = killers_at(begun.killers, ply);
    let moves = ordered(moves_of(fen), tt_move, killers);
    let acc = SearchAcc { st: begun, alpha, best_score: -32_001, best_move: None };
    let k = lemma_ordered_covers(moves_of(fen), tt_move, killers, m);
    lemma_search_moves(acc, fen, moves, 0, depth, beta, ply);
    assert(moves[k] == m);
}

/// A score is reached by a legal move, the one that the table then remembers for the
/// position unless it holds a deeper search of it.
pub proof fn law_the_search_score_is_reached(
    st: Snap,
    fen: Seq<char>,
    depth: int,
    alpha: int,
    beta: int,
    ply: int,
)
    requires
        0 < depth <= i32::MAX,
        alpha < beta,
        moves_of(fen).len() > 0,
        unanswered(st, fen, depth, alpha, beta, ply),
        !searched(st, fen, depth, alpha, beta, ply).0.aborted,
        searched(st, fen, depth, alpha, beta, ply).1 > -32_001,
        st.table.len() > 0,
    ensures
        exists|m: Move|
            {
                let (after, score) = searched(st, fen, depth, alpha, beta, ply);
                let kept = probed(after.table, zobrist_of(fen));
                &&& #[trigger] moves_of(fen).contains(m)
                &&& reached_by(score, st.history, fen, m, depth, alpha, beta, ply)
                &&& kept is Some && (kept->0.best == Some(m) || kept->0.depth > depth)
            },
{
    let begun = entered(st);
    let key = zobrist_of(fen);
    let tt_move = match probed(begun.table, key) {
        Some(e) => e.best,
        None => None,
    };
    let killers = killers_at(begun.killers, ply);
    let moves = ordered(moves_of(fen), tt_move, killers);
    let acc = SearchAcc { st: begun, alpha, best_score: -32_001, best_move: None };
    lemma_ordered_members(moves_of(fen), tt_move, killers);
    lemma_search_moves(acc, fen, moves, 0, depth, beta, ply);
    lemma_search_moves_history(acc, fen, moves, 0, depth, beta, ply);
    let out = searched_moves(acc, fen, moves, 0, depth, beta, ply);
    let (after, score) = searched(st, fen, depth, alpha, beta, ply);
    assert(score == out.best_score);
    let j = choose|j: int|
        0 <= j < moves.len() && out.best_move == Some(#[trigger] moves[j]) && reached_by(
            score,
            st.history,
            fen,
            moves[j],
            depth,
            alpha,
            beta,
            ply,
        );
    let m = moves[j];
    assert(moves_of(fen).contains(m));
    let entry = TtEntry {
        key,
        depth: depth as i32,
        score: out.best_score as i32,
        bound: bound_of(out.best_score, alpha, beta),
        best: out.best_move,
    };
    assert(after.table == stored(out.st.table, entry));
    law_the_table_keeps_the_deeper_search(out.st.table, entry);
}

/// Each root move is scored by a search of the position behind it, from the opponent's
/// side and over a full window.
pub open spec fn scored_by_search(reply: i32, history: Seq<u64>, fen: Seq<char>, m: Move, depth: int) -> bool {
    exists|b: Snap|
        {
            &&& b.history == history.push(zobrist_of(fen_play(fen, m)))
            &&& reply == (#[trigger] searched(b, fen_play(fen, m), depth, -32_001, 32_001, 1)).1 as i32
        }
}

/// The root moves are scored one for one, in their order, each by a search of the
/// position behind it.
pub proof fn law_root_moves_are_searched(st: Snap, fen: Seq<char>, depth: int, i: int, found: Seq<(i32, Move)>)
    requires
        found.len() == i <= moves_of(fen).len(),
        forall|k: int| 0 <= k < i ==> (#[trigger] found[k]).1 == moves_of(fen)[k] && scored_by_search(
            found[k].0,
            st.history,
            fen,
            found[k].1,
            depth,
        ),
    ensures
        ({
            let (end, all) = replies(st, fen, depth, i, found);
            &&& all.len() == moves_of(fen).len()
            &&& end.history == st.history
            &&& forall|k: int| 0 <= k < all.len() ==> (#[trigger] all[k]).1 == moves_of(fen)[k] && scored_by_search(
                all[k].0,
                st.history,
                fen,
                all[k].1,
                depth,
            )
        }),
    decreases moves_of(fen).len() - i,
{
    if i < moves_of(fen).len() {
        let m = moves_of(fen)[i];
        let child = fen_play(fen, m);
        let deeper = Snap { history: st.history.push(zobrist_of(child)), ..st };
        let (after, reply) = searched(deeper, child, depth, -32_001, 32_001, 1);
        law_the_search_keeps_history_and_table_size(deeper, child, depth, -32_001, 32_001, 1);
        let next = Snap { history: after.history.drop_last(), ..after };
        assert(next.history =~= st.history);
        let more = found.push((reply as i32, m));
        assert(scored_by_search(more[i].0, st.history, fen, m, depth));
        assert forall|k: int| 0 <= k < i + 1 implies (#[trigger] more[k]).1 == moves_of(fen)[k] && scored_by_search(
            more[k].0,
            next.history,
            fen,
            more[k].1,
            depth,
        ) by {
            if k < i {
                assert(more[k] == found[k]);
            }
        }
        law_root_moves_are_searched(next, fen, depth, i + 1, more);
    }
}

/// What the pieces are worth against each other, in the order of their rank.
pub open spec fn standing(role: Role) -> int {
    match role {
        Role::King => 0,
        Role::Pawn => 1,
        Role::Knight => 2,
        Role::Bishop => 3,
        Role::Rook => 4,
        Role::Queen => 5,
    }
}

/// The order in which moves are searched: the remembered move first, then captures, then
/// promotions, then the first and the second killer, then the rest. Among captures of
/// one kind of piece the cheaper attacker comes first, with the king as the cheapest, and
/// among captures by one kind of piece the more valuable victim.
pub proof fn law_moves_are_searched_in_order(
    moves: Seq<Move>,
    tt_move: Option<Move>,
    killers: Killers,
    i: int,
    j: int,
)
    requires
        0 <= i < j < ordered(moves, tt_move, killers).len(),
    ensures
        ({
            let (a, b) = (ordered(moves, tt_move, killers)[i], ordered(moves, tt_move, killers)[j]);
            let first = tt_move == Some(a);
            &&& tt_move == Some(b) ==> first
            &&& b.takes() is Some ==> first || a.takes() is Some
            &&& b.promotes_to() is Some ==> first || a.takes() is Some || a.promotes_to() is Some
            &&& killers.0 == Some(b) ==> first || a.takes() is Some || a.promotes_to() is Some || killers.0 == Some(a)
            &&& killers.1 == Some(b) ==> first || a.takes() is Some || a.promotes_to() is Some || killers.0 == Some(a)
                || killers.1 == Some(a)
            &&& !first && a.takes() is Some && a.takes() == b.takes() ==> standing(a.mover()) <= standing(b.mover())
            &&& !first && a.takes() is Some && b.takes() is Some && a.takes() != Some(Role::King) && b.takes() != Some(
                Role::King,
            ) && a.mover() == b.mover() ==> standing(a.takes()->0) >= standing(b.takes()->0)
        }),
{
    let pairs = keyed(moves, tt_move, killers);
    let result = sorted(pairs);
    law_sorted_is_an_ascending_rearrangement(pairs);
    lemma_keys(moves, tt_move, killers, i);
    lemma_keys(moves, tt_move, killers, j);
    assert(result[i].0 <= result[j].0);
}

/// The key with which a move was sorted is its own.
proof fn lemma_keys(moves: Seq<Move>, tt_move: Option<Move>, killers: Killers, j: int)
    requires
        0 <= j < ordered(moves, tt_move, killers).len(),
    ensures
        sorted(keyed(moves, tt_move, killers))[j].0 == order_key(
            ordered(moves, tt_move, killers)[j],
            tt_move,
            killers,
        ),
{
    let pairs = keyed(moves, tt_move, killers);
    let result = sorted(pairs);
    law_sorted_is_an_ascending_rearrangement(pairs);
    vstd::seq_lib::to_multiset_contains(result, result[j]);
    vstd::seq_lib::to_multiset_contains(pairs, result[j]);
    assert(result.contains(result[j]));
    let k = pairs.index_of(result[j]);
    assert(pairs[k] == result[j]);
}

/// A draw is a draw: below the root a position scores nothing after a hundred half moves
/// without progress, with too little material to mate, or at its third occurrence.
pub proof fn law_draws_score_nothing(
    st: Snap,
    fen: Seq<char>,
    depth: int,
    alpha: int,
    beta: int,
    ply: int,
    i: int,
    j: int,
)
    requires
        ply > 0,
        state(fen).halfmoves >= 100 || insufficient_of(fen) || (0 <= i < j < st.history.len() && st.history[i]
            == zobrist_of(fen) && st.history[j] == zobrist_of(fen)),
    ensures
        searched(st, fen, depth, alpha, beta, ply).1 == 0,
{
    if 0 <= i < j < st.history.len() && st.history[i] == zobrist_of(fen) && st.history[j] == zobrist_of(fen) {
        lemma_occurs(st.history, zobrist_of(fen), i, j, st.history.len() as int);
    }
}

proof fn lemma_occurs(history: Seq<u64>, key: u64, i: int, j: int, n: int)
    requires
        0 <= i < j < n <= history.len() || 0 <= i < n <= history.len(),
        history[i] == key,
        i < j ==> j < history.len() && history[j] == key,
    ensures
        occurrences(history, key, n) >= 1,
        i < j < n ==> occurrences(history, key, n) >= 2,
    decreases n,
{
    lemma_occurrences_count(history, key, n - 1);
    if n > 0 {
        if i < n - 1 {
            lemma_occurs(history, key, i, j, n - 1);
        }
    }
}

proof fn lemma_occurrences_count(history: Seq<u64>, key: u64, n: int)
    ensures
        occurrences(history, key, n) >= 0,
    decreases n,
{
    if n > 0 {
        lemma_occurrences_count(history, key, n - 1);
    }
}

/// One earlier occurrence is no repetition.
pub proof fn law_one_occurrence_is_no_repetition(history: Seq<u64>, key: u64, i: int)
    requires
        forall|j: int| 0 <= j < history.len() && j != i ==> history[j] != key,
    ensures
        !repeated(history, key),
{
    lemma_at_most_once(history, key, i, history.len() as int);
}

proof fn lemma_at_most_once(history: Seq<u64>, key: u64, i: int, n: int)
    requires
        n <= history.len(),
        forall|j: int| 0 <= j < history.len() && j != i ==> history[j] != key,
    ensures
        occurrences(history, key, n) <= 1,
        n <= i ==> occurrences(history, key, n) <= 0,
    decreases n,
{
    if n > 0 {
        lemma_at_most_once(history, key, i, n - 1);
    }
}

/// The table is only asked below the root, and only believed as far as it goes: a search
/// as deep as the one wanted, and a bound only where it lies outside the window.
pub proof fn law_remembered_scores(e: TtEntry, depth: int, alpha: int, beta: int)
    ensures
        answers(e, depth, alpha, beta) ==> e.depth >= depth,
        e.depth >= depth && e.bound == Bound::Exact ==> answers(e, depth, alpha, beta),
        answers(e, depth, alpha, beta) && e.bound == Bound::Lower ==> e.score >= beta,
        answers(e, depth, alpha, beta) && e.bound == Bound::Upper ==> e.score <= alpha,
        e.depth >= depth && e.bound == Bound::Lower && e.score >= beta ==> answers(e, depth, alpha, beta),
        e.depth >= depth && e.bound == Bound::Upper && e.score <= alpha ==> answers(e, depth, alpha, beta),
{
}

/// The bound with which a score is remembered: a score above alpha and below beta is
/// exact, one that reached beta may be higher, one that stayed at alpha may be lower.
pub proof fn law_bounds_fit_their_window(score: int, alpha: int, beta: int)
    requires
        alpha < beta,
    ensures
        bound_of(score, alpha, beta) == Bound::Exact <==> alpha < score < beta,
        bound_of(score, alpha, beta) == Bound::Lower <==> beta <= score,
        bound_of(score, alpha, beta) == Bound::Upper <==> score <= alpha,
{
}

/// What iterative deepening reports comes from one of its searches: of the depth that is
/// reported, from the root, over the full window, with the line that the table then
/// holds. It goes on to the last depth unless it was stopped or found a forced mate.
pub proof fn law_deepening_reports_its_last_search(
    st: Snap,
    fen: Seq<char>,
    limit: int,
    depth: int,
    res: Outcome,
)
    requires
        1 <= depth <= limit + 1,
    ensures
        ({
            let (end, out) = deepened(st, fen, limit, depth, res);
            &&& out == res || (depth <= out.depth <= limit && exists|b: Snap|
                {
                    let (after, score) = #[trigger] searched(
                        b,
                        fen,
                        signed_depth(out.depth),
                        -32_001,
                        32_001,
                        0,
                    );
                    &&& out.score == score
                    &&& out.pv == variation(after.table, fen, Seq::empty(), out.depth)
                    &&& out.pv.len() > 0 ==> out.best == Some(out.pv[0])
                    &&& !after.aborted || out.depth == 1
                })
            &&& depth == 1 && limit >= 1 ==> out.depth >= 1
            &&& !end.aborted && depth <= limit ==> out.depth == limit || out.score >= 31_000 || out.score <= -31_000
        }),
    decreases limit - depth + 1,
{
    if depth <= limit {
        let (after, score) = searched(st, fen, signed_depth(depth), -32_001, 32_001, 0);
        if after.aborted && depth > 1 {
        } else {
            let pv = variation(after.table, fen, Seq::empty(), depth);
            let best = if pv.len() > 0 {
                Some(pv[0])
            } else {
                res.best
            };
            let found = Outcome { best, score, pv, depth };
            if !(score >= 31_000 || score <= -31_000) {
                law_deepening_reports_its_last_search(after, fen, limit, depth + 1, found);
            }
            let (end, out) = deepened(st, fen, limit, depth, res);
            if out == found {
                assert(searched(st, fen, signed_depth(out.depth), -32_001, 32_001, 0) == (after, score));
            }
        }
    }
}

/// A mate is told in moves, not in plies: mating with the `k`-th move from here, at ply
/// `2k - 1`, and being mated by the opponent's `k`-th move, at ply `2k`.
pub proof fn law_mates_are_told_in_moves(k: int)
    requires
        1 <= k <= 500,
    ensures
        score_text(32_000 - (2 * k - 1)) == "mate "@ + decimal(k as nat),
        score_text(-(32_000 - 2 * k)) == "mate "@ + seq!['-'] + decimal(k as nat),
{
    assert(signed_decimal(-k) == seq!['-'] + decimal(k as nat));
    assert("mate "@ + (seq!['-'] + decimal(k as nat)) =~= "mate "@ + seq!['-'] + decimal(k as nat));
}

/// Any other score is told in centipawns, with its sign.
pub proof fn law_other_scores_are_told_in_centipawns(score: int)
    requires
        -31_000 < score < 31_000,
    ensures
        score >= 0 ==> score_text(score) == "cp "@ + decimal(score as nat),
        score < 0 ==> score_text(score) == "cp "@ + seq!['-'] + decimal((-score) as nat),
{
    if score < 0 {
        assert("cp "@ + (seq!['-'] + decimal((-score) as nat)) =~= "cp "@ + seq!['-'] + decimal((-score) as nat));
    }
}

/// A quiet move that caused a cutoff becomes the first killer of its ply and the first
/// becomes the second; captures are no killers, and other plies keep theirs.
pub proof fn law_killers_are_the_last_quiet_cutoffs(killers: Seq<Killers>, ply: int, m: Move, other: int)
    requires
        killers.len() == 128,
        0 <= ply < 128,
        0 <= other < 128,
    ensures
        m.takes() is None ==> killers_at(with_killer(killers, ply, m), ply).0 == Some(m),
        m.takes() is None ==> killers_at(with_killer(killers, ply, m), ply).1 == killers_at(killers, ply).0,
        m.takes() is Some || other != ply ==> killers_at(with_killer(killers, ply, m), other) == killers_at(
            killers,
            other,
        ),
{
}

/// The size is one doubled so many times.
pub open spec fn doubles(size: int, times: nat) -> bool
    decreases times,
{
    if times == 0 {
        size == 1
    } else {
        size % 2 == 0 && doubles(size / 2, (times - 1) as nat)
    }
}

proof fn lemma_doubled(p: int, n: int, times: nat)
    requires
        p > 0,
        doubles(p, times),
    ensures
        doubled_to(p, n) >= n,
        doubled_to(p, n) >= p,
        doubled_to(p, n) == p || doubled_to(p, n) < 2 * n,
        exists|t: nat| #[trigger] doubles(doubled_to(p, n), t),
    decreases larger(n - p, 0),
{
    if p < n {
        assert((2 * p) / 2 == p);
        assert(doubles(2 * p, times + 1));
        lemma_doubled(2 * p, n, times + 1);
    } else {
        assert(doubles(doubled_to(p, n), times));
    }
}

/// A new table has room for as many positions as were asked for and less than twice as
/// many, its size is a power of two, and it knows no position. A new searcher has
/// counted no nodes, has no limit, and remembers neither killers nor positions.
pub proof fn law_new_searchers_know_nothing(n: int, key: u64, ply: int)
    requires
        n >= 1,
        0 <= ply < 128,
    ensures
        ({
            let st = fresh(n);
            &&& n <= st.table.len() < 2 * n
            &&& exists|t: nat| #[trigger] doubles(st.table.len() as int, t)
            &&& probed(st.table, key) is None
            &&& killers_at(st.killers, ply) == (None::<Move>, None::<Move>)
            &&& st.history.len() == 0
            &&& st.nodes == 0
            &&& st.limit == u64::MAX
            &&& !st.aborted
        }),
{
    assert(doubles(1, 0));
    lemma_doubled(1, n, 0);
    let st = fresh(n);
    let size = doubled_to(1, n);
    assert(st.table.len() == size);
    assert(0 <= key as int % size < size) by (nonlinear_arith)
        requires size > 0;
    assert(st.table[key as int % size] is None);
}

/// A node counts once, and the search is given up when the count reaches the limit.
pub proof fn law_nodes_are_counted(st: Snap)
    ensures
        st.nodes < u64::MAX ==> entered(st).nodes == st.nodes + 1,
        entered(st).aborted <==> st.aborted || entered(st).nodes >= st.limit,
        entered(st).table == st.table && entered(st).killers == st.killers && entered(st).history == st.history
            && entered(st).limit == st.limit,
{
}

/// A principal variation follows the table: it begins with the move that the table
/// holds for the position, if that is legal and the position did not occur before on
/// the line, and goes on from there; otherwise it ends.
pub proof fn law_variations_follow_the_table(
    table: Seq<Option<TtEntry>>,
    fen: Seq<char>,
    seen: Seq<u64>,
    n: int,
    entry: TtEntry,
    m: Move,
)
    requires
        n >= 1,
        probed(table, zobrist_of(fen)) == Some(entry),
        entry.best == Some(m),
    ensures
        moves_of(fen).contains(m) && !seen.contains(zobrist_of(fen)) ==> {
            &&& variation(table, fen, seen, n).len() > 0
            &&& variation(table, fen, seen, n)[0] == m
            &&& variation(table, fen, seen, n).skip(1) == variation(
                table,
                fen_play(fen, m),
                seen.push(zobrist_of(fen)),
                n - 1,
            )
        },
        seen.contains(zobrist_of(fen)) || !moves_of(fen).contains(m) ==> variation(table, fen, seen, n).len() == 0,
{
    let rest = variation(table, fen_play(fen, m), seen.push(zobrist_of(fen)), n - 1);
    assert((seq![m] + rest).skip(1) =~= rest);
}

/// What is stored is found again, unless a deeper search of the same position was
/// there, which then is; what was stored in another slot is still found.
pub proof fn law_stored_positions_are_found(table: Seq<Option<TtEntry>>, entry: TtEntry, key: u64)
    requires
        table.len() > 0,
    ensures
        probed(stored(table, entry), entry.key) is Some,
        probed(table, entry.key) is None ==> probed(stored(table, entry), entry.key) == Some(entry),
        probed(table, entry.key) is Some && probed(table, entry.key)->0.depth <= entry.depth ==> probed(
            stored(table, entry),
            entry.key,
        ) == Some(entry),
        probed(table, entry.key) is Some && probed(table, entry.key)->0.depth > entry.depth ==> stored(table, entry)
            == table,
        key as int % table.len() as int != entry.key as int % table.len() as int ==> probed(stored(table, entry), key)
            == probed(table, key),
        probed(table, key) is Some ==> probed(table, key)->0.key == key,
{
    let n = table.len() as int;
    assert(0 <= entry.key as int % n < n) by (nonlinear_arith)
        requires n > 0;
    assert(0 <= key as int % n < n) by (nonlinear_arith)
        requires n > 0;
}

/// A search starts afresh but for the table and the positions of the game: it has
/// counted no nodes, is not given up, has no killers and the limit it was given.
pub proof fn law_searches_start_afresh(st: Snap, nodes: u64, ply: int)
    requires
        0 <= ply < 128,
    ensures
        begun(st, nodes).nodes == 0,
        !begun(st, nodes).aborted,
        begun(st, nodes).limit == nodes,
        begun(st, nodes).table == st.table,
        begun(st, nodes).history == st.history,
        killers_at(begun(st, nodes).killers, ply) == (None::<Move>, None::<Move>),
{
}

/// Before a position is searched its first legal move is the best known; a position
/// without moves has none.
pub proof fn law_some_move_is_known_from_the_start(fen: Seq<char>)
    ensures
        moves_of(fen).len() > 0 ==> unsearched(fen).best == Some(moves_of(fen)[0]),
        moves_of(fen).len() == 0 ==> unsearched(fen).best is None,
        unsearched(fen).depth == 0,
        unsearched(fen).pv.len() == 0,
{
}

} // verus!
