//! What is said between the library and an engine: laws on how an engine is asked, and
//! how its reports are read and gathered.

use vstd::prelude::*;

use crate::rules::{fen_play, legal_uci, line_end, Move};
use crate::teacher::{
    chosen, cp_of, fed, fields_from, fields_of, go_text, info_of, iteration_at,
    law_the_deepest_complete_iteration_is_reported, lines_expected, lower, name_in, option_text, replayed, reported,
    starts_with, supersedes, usable, with_line, CollectorView, Fields, IterationView, Limit, LineView, Step, UciScore,
};
use crate::text::{
    decimal, is_digit, is_space, law_words_are_parted_by_white_space, lemma_decimal, signed_number, trimmed,
    unsigned_number, words_of,
};

verus! {

/// A word that says nothing of itself in an `info` line.
pub open spec fn is_idle(word: Seq<char>) -> bool {
    word != "depth"@ && word != "multipv"@ && word != "nodes"@ && word != "score"@ && word != "pv"@
}

proof fn lemma_keywords_differ()
    ensures
        is_idle("info"@),
        "depth"@ != "multipv"@,
        "depth"@ != "nodes"@,
        "depth"@ != "score"@,
        "depth"@ != "pv"@,
        "multipv"@ != "nodes"@,
        "multipv"@ != "score"@,
        "multipv"@ != "pv"@,
        "nodes"@ != "score"@,
        "nodes"@ != "pv"@,
        "score"@ != "pv"@,
        "cp"@ != "mate"@,
{
    reveal_strlit("info");
    reveal_strlit("depth");
    reveal_strlit("multipv");
    reveal_strlit("nodes");
    reveal_strlit("score");
    reveal_strlit("pv");
    reveal_strlit("cp");
    reveal_strlit("mate");
    assert("info"@.len() == 4 && "depth"@.len() == 5 && "multipv"@.len() == 7 && "nodes"@.len() == 5);
    assert("score"@.len() == 5 && "pv"@.len() == 2);
    assert("depth"@[0] == 'd' && "nodes"@[0] == 'n' && "score"@[0] == 's');
    assert("cp"@.len() == 2 && "mate"@.len() == 4);
}

/// Idle words are passed over.
proof fn lemma_idle(words: Seq<Seq<char>>, i: int, n: int, f: Fields)
    requires
        0 <= i <= n <= words.len(),
        forall|k: int| i <= k < n ==> is_idle(#[trigger] words[k]),
    ensures
        fields_from(words, i, f) == fields_from(words, n, f),
    decreases n - i,
{
    if i < n {
        assert(is_idle(words[i]));
        lemma_idle(words, i + 1, n, f);
    }
}

/// An `info` line as engines write it: some idle words, the depth, the place among
/// the lines, the score, the nodes and the variation.
pub open spec fn info_words(
    idle: Seq<Seq<char>>,
    depth: Seq<char>,
    place: Seq<char>,
    kind: Seq<char>,
    value: Seq<char>,
    nodes: Seq<char>,
    pv: Seq<Seq<char>>,
) -> Seq<Seq<char>> {
    seq!["info"@] + idle + seq![
        "depth"@,
        depth,
        "multipv"@,
        place,
        "score"@,
        kind,
        value,
        "nodes"@,
        nodes,
        "pv"@,
    ] + pv
}

proof fn lemma_info_fields(
    idle: Seq<Seq<char>>,
    depth: Seq<char>,
    place: Seq<char>,
    kind: Seq<char>,
    value: Seq<char>,
    nodes: Seq<char>,
    pv: Seq<Seq<char>>,
)
    requires
        forall|i: int| 0 <= i < idle.len() ==> is_idle(#[trigger] idle[i]),
        kind == "cp"@ || kind == "mate"@,
        unsigned_number(depth, 0xffff_ffff) is Some,
        unsigned_number(place, usize::MAX as nat) is Some,
        unsigned_number(nodes, u64::MAX as nat) is Some,
        signed_number(value) is Some,
    ensures
        ({
            let words = info_words(idle, depth, place, kind, value, nodes, pv);
            fields_of(words) == (Fields {
                depth: unsigned_number(depth, 0xffff_ffff),
                multipv: unsigned_number(place, usize::MAX as nat)->0,
                score: Some(
                    if kind == "cp"@ {
                        UciScore::Cp(signed_number(value)->0 as i32)
                    } else {
                        UciScore::Mate(signed_number(value)->0 as i32)
                    },
                ),
                nodes: unsigned_number(nodes, u64::MAX as nat)->0,
                pv_start: Some((idle.len() + 11) as int),
            })
        }),
{
    lemma_keywords_differ();
    let words = info_words(idle, depth, place, kind, value, nodes, pv);
    let n = (idle.len() + 1) as int;
    assert(words.len() == idle.len() + 11 + pv.len());
    assert forall|k: int| 0 <= k < n implies is_idle(#[trigger] words[k]) by {
        if k == 0 {
            assert(words[0] == "info"@);
        } else {
            assert(words[k] == idle[k - 1]);
        }
    }
    assert(words[n] == "depth"@);
    assert(words[n + 1] == depth);
    assert(words[n + 2] == "multipv"@);
    assert(words[n + 3] == place);
    assert(words[n + 4] == "score"@);
    assert(words[n + 5] == kind);
    assert(words[n + 6] == value);
    assert(words[n + 7] == "nodes"@);
    assert(words[n + 8] == nodes);
    assert(words[n + 9] == "pv"@);
    let f = Fields { depth: None, multipv: 1, score: None, nodes: 0, pv_start: None };
    lemma_idle(words, 0, n, f);
    reveal_with_fuel(fields_from, 6);
}

/// A whole `info` line is read as what it says: the depth is the number after
/// `depth`, the place the one after `multipv`, the nodes the one after `nodes`, and
/// the score is in centipawns after `cp` and in moves to mate after `mate`. The line
/// is the variation as far as it can be played, and its move the variation's first.
pub proof fn law_info_lines_are_read_as_written(
    fen: Seq<char>,
    idle: Seq<Seq<char>>,
    depth: Seq<char>,
    place: Seq<char>,
    kind: Seq<char>,
    value: Seq<char>,
    nodes: Seq<char>,
    pv: Seq<Seq<char>>,
)
    requires
        forall|i: int| 0 <= i < idle.len() ==> is_idle(#[trigger] idle[i]),
        kind == "cp"@ || kind == "mate"@,
        unsigned_number(depth, 0xffff_ffff) is Some,
        unsigned_number(place, usize::MAX as nat) is Some,
        unsigned_number(nodes, u64::MAX as nat) is Some,
        signed_number(value) is Some,
    ensures
        ({
            let words = info_words(idle, depth, place, kind, value, nodes, pv);
            let found = info_of(fen, words);
            if pv.len() == 0 || words.contains("lowerbound"@) || words.contains("upperbound"@) {
                found is Nothing
            } else if legal_uci(fen, pv[0]) is None {
                found is Illegal
            } else {
                &&& found is Found
                &&& found->depth == unsigned_number(depth, 0xffff_ffff)->0
                &&& found->index == unsigned_number(place, usize::MAX as nat)->0
                &&& found->nodes == unsigned_number(nodes, u64::MAX as nat)->0
                &&& kind == "cp"@ ==> found->line.score == UciScore::Cp(signed_number(value)->0 as i32)
                &&& kind == "mate"@ ==> found->line.score == UciScore::Mate(signed_number(value)->0 as i32)
                &&& Some(found->line.mv) == legal_uci(fen, pv[0])
                &&& found->line.pv.len() > 0
                &&& found->line.pv[0] == found->line.mv
                &&& follows(fen, pv, found->line.pv)
            }
        }),
{
    lemma_keywords_differ();
    lemma_info_fields(idle, depth, place, kind, value, nodes, pv);
    let words = info_words(idle, depth, place, kind, value, nodes, pv);
    let n = (idle.len() + 11) as int;
    assert(words.len() == idle.len() + 11 + pv.len());
    if pv.len() > 0 {
        assert(words[n] == pv[0]);
        lemma_replayed(fen, words, n);
        let line = replayed(fen, words, n);
        assert(words.skip(n) =~= pv);
    }
}

/// The moves are those that the words denote, one after the other, and they stop
/// only where the words do or where a word denotes no legal move.
pub open spec fn follows(fen: Seq<char>, words: Seq<Seq<char>>, line: Seq<Move>) -> bool {
    &&& line.len() <= words.len()
    &&& forall|k: int|
        0 <= k < line.len() ==> legal_uci(line_end(fen, line.take(k)), words[k]) == Some(#[trigger] line[k])
    &&& line.len() < words.len() ==> legal_uci(line_end(fen, line), words[line.len() as int]) is None
}

proof fn lemma_replayed(fen: Seq<char>, words: Seq<Seq<char>>, i: int)
    requires
        0 <= i <= words.len(),
    ensures
        follows(fen, words.skip(i), replayed(fen, words, i)),
    decreases words.len() - i,
{
    let line = replayed(fen, words, i);
    let rest = words.skip(i);
    if i < words.len() && legal_uci(fen, words[i]) is Some {
        let m = legal_uci(fen, words[i])->0;
        let next = fen_play(fen, m);
        let tail = replayed(next, words, i + 1);
        lemma_replayed(next, words, i + 1);
        assert(line =~= seq![m] + tail);
        assert forall|k: int| 0 <= k < line.len() implies legal_uci(line_end(fen, line.take(k)), rest[k]) == Some(
            #[trigger] line[k],
        ) by {
            if k == 0 {
                assert(line.take(0) =~= Seq::empty());
            } else {
                assert(line[k] == tail[k - 1]);
                assert(line.take(k).skip(1) =~= tail.take(k - 1));
                assert(line.take(k)[0] == m);
                assert(words.skip(i + 1)[k - 1] == rest[k]);
            }
        }
        assert(line.skip(1) =~= tail);
        if line.len() < rest.len() {
            assert(words.skip(i + 1)[tail.len() as int] == rest[line.len() as int]);
        }
    }
}

/// What an `info` line does not say: without a place it is the first line, without a
/// count no nodes were counted, and without a depth, a score or a variation it is
/// no line at all.
pub proof fn law_info_lines_may_say_less(
    fen: Seq<char>,
    depth: Seq<char>,
    kind: Seq<char>,
    value: Seq<char>,
    pv: Seq<Seq<char>>,
)
    requires
        kind == "cp"@ || kind == "mate"@,
        unsigned_number(depth, 0xffff_ffff) is Some,
        signed_number(value) is Some,
        pv.len() > 0,
        legal_uci(fen, pv[0]) is Some,
    ensures
        ({
            let words = seq!["info"@, "depth"@, depth, "score"@, kind, value, "pv"@] + pv;
            !words.contains("lowerbound"@) && !words.contains("upperbound"@) ==> info_of(fen, words) is Found
                && info_of(fen, words)->index == 1 && info_of(fen, words)->nodes == 0
        }),
        info_of(fen, seq!["info"@, "score"@, kind, value, "pv"@] + pv) is Nothing,
        info_of(fen, seq!["info"@, "depth"@, depth, "pv"@] + pv) is Nothing,
        info_of(fen, seq!["info"@, "depth"@, depth, "score"@, kind, value]) is Nothing,
{
    lemma_short_line(depth, kind, value, pv);
    lemma_no_depth(kind, value, pv);
    lemma_no_score(depth, pv);
    lemma_no_variation(depth, kind, value);
    let a = seq!["info"@, "depth"@, depth, "score"@, kind, value, "pv"@] + pv;
    assert(a.len() == 7 + pv.len());
    assert(a[7] == pv[0]);
}

proof fn lemma_short_line(depth: Seq<char>, kind: Seq<char>, value: Seq<char>, pv: Seq<Seq<char>>)
    requires
        kind == "cp"@ || kind == "mate"@,
        unsigned_number(depth, 0xffff_ffff) is Some,
        signed_number(value) is Some,
    ensures
        ({
            let f = fields_of(seq!["info"@, "depth"@, depth, "score"@, kind, value, "pv"@] + pv);
            f.depth is Some && f.score is Some && f.multipv == 1 && f.nodes == 0 && f.pv_start == Some(7int)
        }),
{
    lemma_keywords_differ();
    reveal_with_fuel(fields_from, 5);
    let a = seq!["info"@, "depth"@, depth, "score"@, kind, value, "pv"@] + pv;
    assert(a.len() == 7 + pv.len());
    assert(a[0] == "info"@ && a[1] == "depth"@ && a[2] == depth && a[3] == "score"@ && a[4] == kind && a[5] == value);
    assert(a[6] == "pv"@);
}

proof fn lemma_no_depth(kind: Seq<char>, value: Seq<char>, pv: Seq<Seq<char>>)
    ensures
        fields_of(seq!["info"@, "score"@, kind, value, "pv"@] + pv).depth is None,
{
    lemma_keywords_differ();
    reveal_with_fuel(fields_from, 4);
    let b = seq!["info"@, "score"@, kind, value, "pv"@] + pv;
    assert(b.len() == 5 + pv.len());
    assert(b[0] == "info"@ && b[1] == "score"@ && b[2] == kind && b[3] == value && b[4] == "pv"@);
}

proof fn lemma_no_score(depth: Seq<char>, pv: Seq<Seq<char>>)
    ensures
        fields_of(seq!["info"@, "depth"@, depth, "pv"@] + pv).score is None,
{
    lemma_keywords_differ();
    reveal_with_fuel(fields_from, 4);
    let c = seq!["info"@, "depth"@, depth, "pv"@] + pv;
    assert(c.len() == 4 + pv.len());
    assert(c[0] == "info"@ && c[1] == "depth"@ && c[2] == depth && c[3] == "pv"@);
}

proof fn lemma_no_variation(depth: Seq<char>, kind: Seq<char>, value: Seq<char>)
    ensures
        fields_of(seq!["info"@, "depth"@, depth, "score"@, kind, value]).pv_start is None,
{
    lemma_keywords_differ();
    reveal_with_fuel(fields_from, 5);
    let d = seq!["info"@, "depth"@, depth, "score"@, kind, value];
    assert(d.len() == 6);
    assert(d[0] == "info"@ && d[1] == "depth"@ && d[2] == depth && d[3] == "score"@ && d[4] == kind && d[5] == value);
}

/// A line stands at its place in the iteration of its depth.
pub open spec fn stands_at(its: Seq<IterationView>, k: int, depth: u32, index: nat, line: LineView) -> bool {
    0 <= k < its.len() && its[k].0 == depth && index <= its[k].1.len() && its[k].1[index - 1] == Some(line)
}

proof fn lemma_iteration_found(its: Seq<IterationView>, depth: u32, i: int)
    requires
        0 <= i <= its.len(),
    ensures
        i <= iteration_at(its, depth, i) <= its.len(),
        iteration_at(its, depth, i) < its.len() ==> its[iteration_at(its, depth, i)].0 == depth,
        iteration_at(its, depth, i) == its.len() ==> forall|k: int|
            i <= k < its.len() ==> (#[trigger] its[k]).0 != depth,
    decreases its.len() - i,
{
    if i < its.len() && its[i].0 != depth {
        lemma_iteration_found(its, depth, i + 1);
    }
}

/// A reported line takes its place in the iteration of its depth; what was reported
/// at other places and depths stays, and an iteration is begun only for a depth that
/// was not reported on before.
pub proof fn law_reports_take_their_place(
    its: Seq<IterationView>,
    multipv: nat,
    depth: u32,
    index: nat,
    line: LineView,
)
    requires
        index >= 1,
    ensures
        ({
            let after = with_line(its, multipv, depth, index, line);
            &&& exists|k: int| #[trigger] stands_at(after, k, depth, index, line)
            &&& after.len() >= its.len()
            &&& forall|k: int| 0 <= k < its.len() ==> (#[trigger] after[k]).0 == its[k].0
            &&& forall|k: int| 0 <= k < its.len() && its[k].0 != depth ==> #[trigger] after[k] == its[k]
            &&& forall|k: int, j: int|
                0 <= k < its.len() && 0 <= j < its[k].1.len() && j != index - 1 ==> j < after[k].1.len()
                    && #[trigger] after[k].1[j] == its[k].1[j]
            &&& after.len() == (if exists|k: int| 0 <= k < its.len() && (#[trigger] its[k]).0 == depth {
                its.len()
            } else {
                its.len() + 1
            })
        }),
{
    lemma_iteration_found(its, depth, 0);
    let after = with_line(its, multipv, depth, index, line);
    let at = iteration_at(its, depth, 0);
    assert(stands_at(after, at, depth, index, line));
    if at < its.len() {
        assert(its[at].0 == depth);
    }
}

/// Where every place of an iteration was reported, its lines are those places, in
/// their order; a place that was not reported adds none.
pub proof fn law_lines_keep_their_places(slots: Seq<Option<LineView>>)
    ensures
        reported(slots).len() <= slots.len(),
        (forall|j: int| 0 <= j < slots.len() ==> (#[trigger] slots[j]) is Some) ==> reported(slots).len()
            == slots.len() && forall|j: int| 0 <= j < slots.len() ==> Some(#[trigger] reported(slots)[j]) == slots[j],
        forall|j: int| 0 <= j < slots.len() && (#[trigger] slots[j]) is Some ==> reported(slots).contains(slots[j]->0),
        (exists|j: int| 0 <= j < slots.len() && (#[trigger] slots[j]) is None) ==> reported(slots).len()
            < slots.len(),
    decreases slots.len(),
{
    if slots.len() > 0 {
        let short = slots.drop_last();
        law_lines_keep_their_places(short);
        assert forall|j: int| 0 <= j < slots.len() && (#[trigger] slots[j]) is Some implies reported(slots).contains(
            slots[j]->0,
        ) by {
            if j < short.len() {
                assert(short[j] == slots[j]);
                let k = choose|k: int| 0 <= k < reported(short).len() && reported(short)[k] == slots[j]->0;
                assert(reported(slots)[k] == slots[j]->0);
            } else {
                assert(reported(slots)[reported(short).len() as int] == slots[j]->0);
            }
        }
        if forall|j: int| 0 <= j < slots.len() ==> (#[trigger] slots[j]) is Some {
            assert forall|j: int| 0 <= j < short.len() implies (#[trigger] short[j]) is Some by {
                assert(slots[j] is Some);
            }
            assert(slots[slots.len() - 1] is Some);
            assert forall|j: int| 0 <= j < slots.len() implies Some(#[trigger] reported(slots)[j]) == slots[j] by {
                if j < short.len() {
                    assert(Some(reported(short)[j]) == short[j]);
                }
            }
        }
        if exists|j: int| 0 <= j < slots.len() && (#[trigger] slots[j]) is None {
            let j = choose|j: int| 0 <= j < slots.len() && (#[trigger] slots[j]) is None;
            if j < short.len() {
                assert(short[j] is None);
            }
        }
    }
}

/// Of the iterations that have their best line, one that is complete is reported if
/// there is one, and none that is complete is deeper. An iteration without its best
/// line is never reported.
pub proof fn law_complete_iterations_win(its: Seq<IterationView>, multipv: nat, i: int)
    requires
        0 <= i < its.len(),
        its[i].1.len() > 0,
        its[i].1[0] is Some,
    ensures
        chosen(its, multipv, its.len() as int) is Some,
        ({
            let it = its[chosen(its, multipv, its.len() as int)->0];
            &&& 0 <= chosen(its, multipv, its.len() as int)->0 < its.len()
            &&& it.1.len() > 0 && it.1[0] is Some
            &&& reported(its[i].1).len() >= multipv ==> reported(it.1).len() >= multipv && it.0 >= its[i].0
            &&& reported(it.1).len() < multipv ==> reported(it.1).len() >= reported(its[i].1).len()
            &&& reported(it.1).len() == reported(its[i].1).len() ==> it.0 >= its[i].0
        }),
{
    law_the_deepest_complete_iteration_is_reported(its, multipv, its.len() as int);
    assert(usable(its[i]));
    let k = chosen(its, multipv, its.len() as int)->0;
    assert(supersedes(its[k], its[i], multipv));
}

/// A line that starts with `bestmove` ends the analysis and changes nothing; one that
/// starts with neither that nor `info ` changes nothing and the analysis goes on.
pub proof fn law_other_output_is_passed_over(c: CollectorView, fen: Seq<char>, rest: Seq<char>, text: Seq<char>)
    ensures
        fed(c, fen, "bestmove"@ + rest) == (c, Step::Done),
        text.len() > 0 && text[0] != 'i' && text[0] != 'b' ==> fed(c, fen, text) == (c, Step::More),
{
    reveal_strlit("bestmove");
    reveal_strlit("info ");
    assert(("bestmove"@ + rest).take("bestmove"@.len() as int) =~= "bestmove"@);
    if text.len() > 0 && text[0] != 'i' && text[0] != 'b' {
        if starts_with(text, "bestmove"@) {
            assert(text.take("bestmove"@.len() as int)[0] == text[0]);
            assert(false);
        }
        if starts_with(text, "info "@) {
            assert(text.take("info "@.len() as int)[0] == text[0]);
            assert(false);
        }
    }
}

/// Of an `info` line, a legal one at a place from one on is gathered, with its nodes
/// if it counted any; one at place zero is refused, an illegal one is kept as an
/// error, and one that says nothing changes nothing. The number of lines asked for
/// never changes.
pub proof fn law_info_lines_are_gathered(c: CollectorView, fen: Seq<char>, text: Seq<char>)
    requires
        text.len() > 4,
        text.take(5) == seq!['i', 'n', 'f', 'o', ' '],
    ensures
        ({
            let after = fed(c, fen, text).0;
            let step = fed(c, fen, text).1;
            let info = info_of(fen, words_of(text));
            &&& after.multipv == c.multipv
            &&& step != Step::Done
            &&& info is Nothing ==> after == c && step == Step::More
            &&& info is Illegal ==> after.error is Some && after.iterations == c.iterations && after.nodes == c.nodes
                && step == Step::More
            &&& info is Found && info->index == 0 ==> after == c && step == Step::BadIndex
            &&& info is Found && info->index > 0 ==> {
                &&& step == Step::More
                &&& after.error == c.error
                &&& exists|k: int|
                    #[trigger] stands_at(after.iterations, k, info->depth as u32, info->index, info->line)
                &&& after.nodes == (if info->nodes as u64 == 0 {
                    c.nodes
                } else {
                    info->nodes as u64
                })
            }
        }),
{
    reveal_strlit("bestmove");
    reveal_strlit("info ");
    assert("info "@ =~= seq!['i', 'n', 'f', 'o', ' ']);
    if starts_with(text, "bestmove"@) {
        assert(text.take(5)[0] == text[0]);
        assert(text.take("bestmove"@.len() as int)[0] == text[0]);
        assert(false);
    }
    assert(starts_with(text, "info "@));
    let info = info_of(fen, words_of(text));
    if info is Found && info->index > 0 {
        let after = fed(c, fen, text).0;
        assert(after.iterations == with_line(
            c.iterations,
            c.multipv,
            info->depth as u32,
            info->index,
            info->line,
        ));
        law_reports_take_their_place(c.iterations, c.multipv, info->depth as u32, info->index, info->line);
    }
}

/// The name that an engine gives itself is what follows `id name `, without the white
/// space round it; no other line gives a name.
pub proof fn law_engine_names(rest: Seq<char>, text: Seq<char>)
    ensures
        name_in("id name "@ + rest) == Some(trimmed(rest)),
        text.len() > 0 && text[0] != 'i' ==> name_in(text) is None,
{
    reveal_strlit("id name ");
    assert(("id name "@ + rest).take("id name "@.len() as int) =~= "id name "@);
    assert(("id name "@ + rest).skip(8) =~= rest);
    if text.len() > 0 && text[0] != 'i' && starts_with(text, "id name "@) {
        assert(text.take("id name "@.len() as int)[0] == text[0]);
    }
}

/// Setting `MultiPV`, in either spelling, sets the number of lines to expect; an
/// option whose name is not of seven letters leaves it.
pub proof fn law_lines_to_expect(before: nat, name: Seq<char>, value: Seq<char>)
    ensures
        unsigned_number(value, usize::MAX as nat) is Some ==> {
            &&& lines_expected(before, "MultiPV"@, value) == unsigned_number(value, usize::MAX as nat)->0
            &&& lines_expected(before, "multipv"@, value) == unsigned_number(value, usize::MAX as nat)->0
        },
        unsigned_number(value, usize::MAX as nat) is None ==> lines_expected(before, "MultiPV"@, value) == 1,
        name.len() != 7 || (name[0] != 'm' && name[0] != 'M') ==> lines_expected(before, name, value) == before,
{
    reveal_strlit("MultiPV");
    reveal_strlit("multipv");
    assert("MultiPV"@.map_values(|c: char| lower(c)) =~= "multipv"@);
    assert("multipv"@.map_values(|c: char| lower(c)) =~= "multipv"@);
    let low = name.map_values(|c: char| lower(c));
    assert("multipv"@.len() == 7 && "multipv"@[0] == 'm');
    if name.len() == 7 {
        assert(low[0] == lower(name[0]));
    }
}

/// Centipawns are taken as they are. A mate is worth more the nearer it is, a hundred
/// a move, and the side that is mated counts the same against itself; the side that
/// is mated already has lost all.
pub proof fn law_scores_in_centipawns(cp: i32, n: i32)
    ensures
        cp_of(UciScore::Cp(cp)) == cp,
        0 < n < 199 ==> cp_of(UciScore::Mate(n)) == cp_of(UciScore::Mate((n + 1) as i32)) + 100,
        0 < n ==> cp_of(UciScore::Mate((-n) as i32)) == -cp_of(UciScore::Mate(n)),
        0 < n ==> cp_of(UciScore::Mate(n)) > 0,
        cp_of(UciScore::Mate(0)) == -30_000,
        cp_of(UciScore::Mate(1)) == 29_900,
{
}

/// `MultiPV` is known in any mixture of small and large letters, and by nothing else.
pub proof fn law_multipv_is_known_in_any_case(before: nat, name: Seq<char>, value: Seq<char>)
    requires
        unsigned_number(value, usize::MAX as nat) is Some,
        unsigned_number(value, usize::MAX as nat)->0 != before,
    ensures
        lines_expected(before, name, value) == unsigned_number(value, usize::MAX as nat)->0 <==> {
            &&& name.len() == 7
            &&& name[0] == 'm' || name[0] == 'M'
            &&& name[1] == 'u' || name[1] == 'U'
            &&& name[2] == 'l' || name[2] == 'L'
            &&& name[3] == 't' || name[3] == 'T'
            &&& name[4] == 'i' || name[4] == 'I'
            &&& name[5] == 'p' || name[5] == 'P'
            &&& name[6] == 'v' || name[6] == 'V'
        },
{
    reveal_strlit("multipv");
    let low = name.map_values(|c: char| lower(c));
    let word = "multipv"@;
    assert(word.len() == 7);
    assert(word[0] == 'm' && word[1] == 'u' && word[2] == 'l' && word[3] == 't' && word[4] == 'i' && word[5] == 'p'
        && word[6] == 'v');
    if name.len() == 7 {
        assert(low[0] == lower(name[0]) && low[1] == lower(name[1]) && low[2] == lower(name[2]) && low[3] == lower(
            name[3],
        ) && low[4] == lower(name[4]) && low[5] == lower(name[5]) && low[6] == lower(name[6]));
        if low[0] == 'm' && low[1] == 'u' && low[2] == 'l' && low[3] == 't' && low[4] == 'i' && low[5] == 'p' && low[6]
            == 'v' {
            assert(low =~= word);
        }
    }
}

/// A word without white space.
pub open spec fn is_word(s: Seq<char>) -> bool {
    s.len() > 0 && forall|k: int| 0 <= k < s.len() ==> !is_space(#[trigger] s[k])
}

proof fn lemma_decimal_is_word(n: nat)
    ensures
        is_word(decimal(n)),
{
    lemma_decimal(n);
    assert forall|k: int| 0 <= k < decimal(n).len() implies !is_space(#[trigger] decimal(n)[k]) by {
        assert(is_digit(decimal(n)[k]));
    }
}

/// A search is asked for by `go`, the kind of its limit and the limit's number.
pub proof fn law_search_commands(d: u32, n: u64, what: Seq<char>, k: nat)
    requires
        is_word(what),
    ensures
        words_of(go_text(what, k)) == seq!["go"@, what, decimal(k)],
        Limit::Depth(d).command() == go_text("depth"@, d as nat),
        Limit::Nodes(n).command() == go_text("nodes"@, n as nat),
{
    reveal_strlit("go ");
    reveal_strlit("go");
    reveal_strlit(" ");
    lemma_decimal_is_word(k);
    let number = decimal(k);
    law_words_are_parted_by_white_space(number, ' ', Seq::empty());
    law_words_are_parted_by_white_space(what, ' ', number);
    law_words_are_parted_by_white_space("go"@, ' ', what + seq![' '] + number);
    assert(go_text(what, k) =~= "go"@ + seq![' '] + (what + seq![' '] + number));
    assert(seq!["go"@] + (seq![what] + seq![number]) =~= seq!["go"@, what, number]);
}

/// An option is set by naming it and its value.
pub proof fn law_option_commands(name: Seq<char>, value: Seq<char>)
    requires
        is_word(name),
        is_word(value),
    ensures
        words_of(option_text(name, value)) == seq!["setoption"@, "name"@, name, "value"@, value],
{
    reveal_strlit("setoption name ");
    reveal_strlit("setoption");
    reveal_strlit("name");
    reveal_strlit(" value ");
    reveal_strlit("value");
    let a = "value"@ + seq![' '] + value;
    let b = name + seq![' '] + a;
    let c = "name"@ + seq![' '] + b;
    let d = "setoption"@ + seq![' '] + c;
    law_words_are_parted_by_white_space(value, ' ', Seq::empty());
    law_words_are_parted_by_white_space("value"@, ' ', value);
    law_words_are_parted_by_white_space(name, ' ', a);
    law_words_are_parted_by_white_space("name"@, ' ', b);
    law_words_are_parted_by_white_space("setoption"@, ' ', c);
    assert(option_text(name, value) =~= d);
    assert(words_of(d) =~= seq!["setoption"@, "name"@, name, "value"@, value]);
}

} // verus!
