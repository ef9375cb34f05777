//! Negamax alpha-beta with quiescence, a transposition table and MVV/LVA ordering.
//!
//! Its job is data generation: it labels positions fast and deterministically so
//! the network has something real to learn from long before self-play could
//! produce anything useful.
//!
//! The search is specified as a function from the searcher's state to its next
//! state and the score. The clock enters it as a limit on the nodes: a search that
//! runs out of time ends as it would under a smaller node limit, and the state it
//! leaves says which.

use std::time::{Duration, Instant};

use vstd::prelude::*;

use crate::chess::{abs, Color};
use crate::eval::{evaluate, evaluation, flat_value, piece_value};
use crate::ordering::{law_sorted_is_an_ascending_rearrangement, sort_moves, sorted};
use crate::rules::{
    fen_play, insufficient_of, legal_line, moves_of, state, zobrist_of, Move, Position,
};
use crate::score::trunc_div;
use crate::text::{push_signed, signed_decimal};

verus! {

pub const MATE: i32 = 32_000;

/// Anything beyond this is a forced mate rather than an evaluation.
pub const MATE_THRESHOLD: i32 = 31_000;

const INFINITY: i32 = 32_001;

const MAX_PLY: usize = 128;

/// `std::time::Instant`, a reading of the clock.
#[verifier::external_type_specification]
#[verifier::external_body]
pub struct ExInstant(std::time::Instant);

/// `Instant::now`. Nothing is claimed of the clock.
#[verifier::external_body]
fn start_clock() -> (r: Instant) {
    Instant::now()
}

/// `Instant::elapsed`. Nothing is claimed of the clock.
#[verifier::external_body]
fn time_since(started: &Instant) -> (r: Duration) {
    started.elapsed()
}

/// `PartialOrd::ge` of `Duration`. Nothing is claimed of it: one of the two spans
/// was read off the clock.
#[verifier::external_body]
fn reaches_span(span: &Duration, limit: &Duration) -> (r: bool) {
    span.ge(limit)
}

#[derive(Clone, Copy, PartialEq, Eq, Structural, Debug)]
pub enum Bound {
    Exact,
    Lower,
    Upper,
}

/// What the transposition table remembers of a position.
#[derive(Clone, Copy, PartialEq, Eq, Structural, Debug)]
pub struct TtEntry {
    pub key: u64,
    pub depth: i32,
    pub score: i32,
    pub bound: Bound,
    pub best: Option<Move>,
}

#[derive(Clone, Copy, Debug)]
pub struct Limits {
    pub depth: u32,
    pub nodes: u64,
    pub time: Option<Duration>,
}

impl Default for Limits {
    fn default() -> (r: Limits)
        ensures
            r.depth == 6,
            r.nodes == u64::MAX,
            r.time is None,
    {
        Limits { depth: 6, nodes: u64::MAX, time: None }
    }
}

impl Limits {
    /// A limit on the depth alone.
    pub fn depth(depth: u32) -> (r: Limits)
        ensures
            r.depth == depth,
            r.nodes == u64::MAX,
            r.time is None,
    {
        Limits { depth, nodes: u64::MAX, time: None }
    }
}

#[derive(Debug)]
pub struct SearchResult {
    pub best: Option<Move>,
    pub score: i32,
    pub pv: Vec<Move>,
    pub nodes: u64,
    pub depth: u32,
}

/// Two killer moves: the quiet moves that last caused a cutoff at a ply.
pub type Killers = (Option<Move>, Option<Move>);

/// The state of a search.
pub struct Snap {
    pub table: Seq<Option<TtEntry>>,
    pub killers: Seq<Killers>,
    pub history: Seq<u64>,
    pub nodes: u64,
    pub limit: u64,
    pub aborted: bool,
}

/// One node more; the search is aborted once the node limit is reached.
pub open spec fn entered(st: Snap) -> Snap {
    let nodes = if st.nodes == u64::MAX {
        u64::MAX
    } else {
        (st.nodes + 1) as u64
    };
    Snap { nodes, aborted: st.aborted || nodes >= st.limit, ..st }
}

/// The same state under another node limit.
pub open spec fn capped(st: Snap, limit: u64) -> Snap {
    Snap { limit, ..st }
}

/// A search that has come to this state would have come to it under this limit too:
/// it is the state's own, or the search is still running and below it.
pub open spec fn allows(st: Snap, limit: u64) -> bool {
    limit == st.limit || (!st.aborted && st.nodes < limit)
}

/// The entry that the table holds for a key.
pub open spec fn probed(table: Seq<Option<TtEntry>>, key: u64) -> Option<TtEntry> {
    match table[key as int % table.len() as int] {
        Some(e) => if e.key == key {
            Some(e)
        } else {
            None
        },
        None => None,
    }
}

/// The table after an entry was offered: a shallower search of the same position
/// does not replace a deeper one.
pub open spec fn stored(table: Seq<Option<TtEntry>>, entry: TtEntry) -> Seq<Option<TtEntry>> {
    let slot = entry.key as int % table.len() as int;
    match table[slot] {
        Some(e) => if e.key != entry.key || entry.depth >= e.depth {
            table.update(slot, Some(entry))
        } else {
            table
        },
        None => table.update(slot, Some(entry)),
    }
}

/// How often a key occurs among the first `n` of the history.
pub open spec fn occurrences(history: Seq<u64>, key: u64, n: int) -> int
    decreases n,
{
    if n <= 0 {
        0
    } else {
        occurrences(history, key, n - 1) + if history[n - 1] == key {
            1int
        } else {
            0
        }
    }
}

/// The position has occurred twice already.
pub open spec fn repeated(history: Seq<u64>, key: u64) -> bool {
    occurrences(history, key, history.len() as int) >= 2
}

/// The position counts as a draw below the root.
pub open spec fn drawn(history: Seq<u64>, fen: Seq<char>) -> bool {
    state(fen).halfmoves >= 100 || insufficient_of(fen) || repeated(history, zobrist_of(fen))
}

/// A remembered score answers the question that is asked.
pub open spec fn answers(e: TtEntry, depth: int, alpha: int, beta: int) -> bool {
    e.depth >= depth && match e.bound {
        Bound::Exact => true,
        Bound::Lower => e.score >= beta,
        Bound::Upper => e.score <= alpha,
    }
}

/// The sort key of a move: the transposition-table move first, then captures by
/// most valuable victim and least valuable attacker, then promotions, then
/// killers, then the rest.
pub open spec fn order_key(m: Move, tt_move: Option<Move>, killers: Killers) -> int {
    if tt_move == Some(m) {
        -1_000_000
    } else if m.takes() is Some {
        -100_000 - (flat_value(m.takes()->0) * 16 - flat_value(m.mover()))
    } else if m.promotes_to() is Some {
        -90_000
    } else if killers.0 == Some(m) {
        -80_000
    } else if killers.1 == Some(m) {
        -79_000
    } else {
        0
    }
}

pub open spec fn keyed(moves: Seq<Move>, tt_move: Option<Move>, killers: Killers) -> Seq<(i32, Move)> {
    moves.map_values(|m: Move| (order_key(m, tt_move, killers) as i32, m))
}

/// The moves in the order in which they are searched.
pub open spec fn ordered(moves: Seq<Move>, tt_move: Option<Move>, killers: Killers) -> Seq<Move> {
    sorted(keyed(moves, tt_move, killers)).map_values(|p: (i32, Move)| p.1)
}

pub open spec fn killers_at(killers: Seq<Killers>, ply: int) -> Killers {
    if ply < 128 {
        killers[ply]
    } else {
        (None, None)
    }
}

/// A move that quiescence looks at: a capture or a promotion.
pub open spec fn is_noisy(m: Move) -> bool {
    m.takes() is Some || m.promotes_to() is Some
}

pub open spec fn larger(a: int, b: int) -> int {
    if a > b {
        a
    } else {
        b
    }
}

/// What a quiescence search has gathered part way through its moves.
pub struct QuietAcc {
    pub st: Snap,
    pub alpha: int,
    pub best: int,
}

/// Search only captures until the position is quiet.
pub open spec fn quiesced(st: Snap, fen: Seq<char>, alpha: int, beta: int, ply: int) -> (Snap, int)
    decreases (if ply < 128 { 128 - ply } else { 0 }), 1int, 0int,
{
    let st = entered(st);
    let stand_pat = evaluation(state(fen));
    let alpha = larger(alpha, stand_pat);
    if st.aborted {
        (st, 0)
    } else if stand_pat >= beta || ply >= 127 {
        (st, stand_pat)
    } else {
        let noisy = moves_of(fen).filter(|m: Move| is_noisy(m));
        if noisy.len() == 0 {
            (st, alpha)
        } else {
            let moves = ordered(noisy, None, killers_at(st.killers, ply));
            let acc = quiesced_moves(QuietAcc { st, alpha, best: stand_pat }, fen, moves, 0, beta, ply);
            (acc.st, acc.best)
        }
    }
}

/// The quiescence search of the moves from the `i`-th on.
pub open spec fn quiesced_moves(
    acc: QuietAcc,
    fen: Seq<char>,
    moves: Seq<Move>,
    i: int,
    beta: int,
    ply: int,
) -> QuietAcc
    decreases (if ply < 128 { 128 - ply } else { 0 }), 0int, moves.len() - i,
{
    if i < 0 || i >= moves.len() || ply >= 127 {
        acc
    } else {
        let (st, reply) = quiesced(acc.st, fen_play(fen, moves[i]), -beta, -acc.alpha, ply + 1);
        let next = QuietAcc { st, alpha: larger(acc.alpha, -reply), best: larger(acc.best, -reply) };
        if next.alpha >= beta {
            next
        } else {
            quiesced_moves(next, fen, moves, i + 1, beta, ply)
        }
    }
}

/// What a search has gathered part way through its moves.
pub struct SearchAcc {
    pub st: Snap,
    pub alpha: int,
    pub best_score: int,
    pub best_move: Option<Move>,
}

/// The bound that a score gives within the window it was searched with.
pub open spec fn bound_of(score: int, alpha: int, beta: int) -> Bound {
    if score <= alpha {
        Bound::Upper
    } else if score >= beta {
        Bound::Lower
    } else {
        Bound::Exact
    }
}

/// The killers after a quiet move caused a cutoff at a ply.
pub open spec fn with_killer(killers: Seq<Killers>, ply: int, m: Move) -> Seq<Killers> {
    if m.takes() is None && ply < 128 {
        killers.update(ply, (Some(m), killers[ply].0))
    } else {
        killers
    }
}

/// The depth that still counts down.
pub open spec fn remaining(depth: int) -> int {
    if depth > 0 {
        depth
    } else {
        0
    }
}

/// The alpha-beta search of a position.
pub open spec fn searched(st: Snap, fen: Seq<char>, depth: int, alpha: int, beta: int, ply: int) -> (Snap, int)
    decreases remaining(depth), 1int, 0int,
{
    let st = entered(st);
    let key = zobrist_of(fen);
    let entry = probed(st.table, key);
    if st.aborted {
        (st, 0)
    } else if ply > 0 && drawn(st.history, fen) {
        (st, 0)
    } else if ply > 0 && entry is Some && answers(entry->0, depth, alpha, beta) {
        (st, entry->0.score as int)
    } else if depth <= 0 {
        quiesced(st, fen, alpha, beta, ply)
    } else if moves_of(fen).len() == 0 {
        (st, if state(fen).in_check() { -32_000 + ply } else { 0 })
    } else {
        let tt_move = match entry {
            Some(e) => e.best,
            None => None,
        };
        let moves = ordered(moves_of(fen), tt_move, killers_at(st.killers, ply));
        let acc = searched_moves(
            SearchAcc { st, alpha, best_score: -32_001, best_move: None },
            fen,
            moves,
            0,
            depth,
            beta,
            ply,
        );
        let entry = TtEntry {
            key,
            depth: depth as i32,
            score: acc.best_score as i32,
            bound: bound_of(acc.best_score, alpha, beta),
            best: acc.best_move,
        };
        (Snap { table: stored(acc.st.table, entry), ..acc.st }, acc.best_score)
    }
}

/// The alpha-beta search of the moves from the `i`-th on.
pub open spec fn searched_moves(
    acc: SearchAcc,
    fen: Seq<char>,
    moves: Seq<Move>,
    i: int,
    depth: int,
    beta: int,
    ply: int,
) -> SearchAcc
    decreases remaining(depth), 0int, moves.len() - i,
{
    if i < 0 || i >= moves.len() || depth <= 0 {
        acc
    } else {
        let m = moves[i];
        let child = fen_play(fen, m);
        let deeper = Snap { history: acc.st.history.push(zobrist_of(child)), ..acc.st };
        let (st, reply) = searched(deeper, child, depth - 1, -beta, -acc.alpha, ply + 1);
        let st = Snap { history: st.history.drop_last(), ..st };
        let next = SearchAcc {
            st,
            alpha: larger(acc.alpha, -reply),
            best_score: larger(acc.best_score, -reply),
            best_move: if -reply > acc.best_score {
                Some(m)
            } else {
                acc.best_move
            },
        };
        if next.alpha >= beta {
            SearchAcc { st: Snap { killers: with_killer(st.killers, ply, m), ..st }, ..next }
        } else {
            searched_moves(next, fen, moves, i + 1, depth, beta, ply)
        }
    }
}

/// The principal variation that the table holds, at most `n` moves long: it ends
/// where the table knows no legal move or a position comes round again.
pub open spec fn variation(table: Seq<Option<TtEntry>>, fen: Seq<char>, seen: Seq<u64>, n: int) -> Seq<Move>
    decreases n,
{
    let key = zobrist_of(fen);
    let entry = probed(table, key);
    if n <= 0 || seen.contains(key) || entry is None || entry->0.best is None || !moves_of(fen).contains(
        entry->0.best->0,
    ) {
        Seq::empty()
    } else {
        seq![entry->0.best->0] + variation(table, fen_play(fen, entry->0.best->0), seen.push(key), n - 1)
    }
}

/// A principal variation is a line of legal moves.
pub proof fn law_variation_is_legal(table: Seq<Option<TtEntry>>, fen: Seq<char>, seen: Seq<u64>, n: int)
    ensures
        legal_line(fen, variation(table, fen, seen, n)),
        variation(table, fen, seen, n).len() <= larger(n, 0),
    decreases n,
{
    let line = variation(table, fen, seen, n);
    if line.len() > 0 {
        let next = fen_play(fen, line[0]);
        law_variation_is_legal(table, next, seen.push(zobrist_of(fen)), n - 1);
        assert(line.skip(1) =~= variation(table, next, seen.push(zobrist_of(fen)), n - 1));
    }
}

/// A running clock and how long it may run.
#[derive(Debug)]
struct Timer {
    started: Instant,
    limit: Duration,
}

pub struct Searcher {
    table: Vec<Option<TtEntry>>,
    killers: Vec<Killers>,
    history: Vec<u64>,
    nodes: u64,
    limit_nodes: u64,
    deadline: Option<Timer>,
    aborted: bool,
}

/// No remembered score is the smallest integer, which has no negation.
pub open spec fn negatable(table: Seq<Option<TtEntry>>) -> bool {
    forall|i: int| 0 <= i < table.len() && (#[trigger] table[i]) is Some ==> table[i]->0.score > i32::MIN
}

/// The smallest doubling of `p` that reaches `n`.
pub open spec fn doubled_to(p: int, n: int) -> int
    decreases larger(n - p, 0),
{
    if p <= 0 || p >= n {
        p
    } else {
        doubled_to(2 * p, n)
    }
}

/// The state of a searcher that has searched nothing yet: an empty table with room
/// for at least so many positions, no killers, no history, no nodes and no limit.
pub open spec fn fresh(tt_entries: int) -> Snap {
    Snap {
        table: Seq::new(doubled_to(1, tt_entries) as nat, |i: int| None),
        killers: killer_free(),
        history: Seq::empty(),
        nodes: 0,
        limit: u64::MAX,
        aborted: false,
    }
}

/// The searched moves are moves of the position.
pub proof fn lemma_ordered_members(moves: Seq<Move>, tt_move: Option<Move>, killers: Killers)
    ensures
        ordered(moves, tt_move, killers).len() == moves.len(),
        forall|j: int| 0 <= j < ordered(moves, tt_move, killers).len() ==> moves.contains(
            #[trigger] ordered(moves, tt_move, killers)[j],
        ),
{
    let pairs = keyed(moves, tt_move, killers);
    let result = sorted(pairs);
    law_sorted_is_an_ascending_rearrangement(pairs);
    assert forall|j: int| 0 <= j < result.len() implies moves.contains(
        #[trigger] ordered(moves, tt_move, killers)[j],
    ) by {
        vstd::seq_lib::to_multiset_contains(result, result[j]);
        vstd::seq_lib::to_multiset_contains(pairs, result[j]);
        assert(result.contains(result[j]));
        assert(pairs.contains(result[j]));
        let k = pairs.index_of(result[j]);
        assert(moves[k] == result[j].1);
    }
}

fn move_key(m: &Move, tt_move: Option<Move>, killers: Killers) -> (r: i32)
    ensures
        r == order_key(*m, tt_move, killers),
{
    if tt_move == Some(*m) {
        return -1_000_000;
    }
    if let Some(victim) = m.capture() {
        return -100_000 - (piece_value(victim) * 16 - piece_value(m.role()));
    }
    if m.promotion().is_some() {
        return -90_000;
    }
    if killers.0 == Some(*m) {
        return -80_000;
    }
    if killers.1 == Some(*m) {
        return -79_000;
    }
    0
}

/// Transposition-table move first, then winning captures by MVV/LVA, then
/// killers, then the rest.
fn order(moves: &Vec<Move>, tt_move: Option<Move>, killers: Killers) -> (r: Vec<Move>)
    ensures
        r@ == ordered(moves@, tt_move, killers),
        r@.len() == moves@.len(),
        forall|j: int| 0 <= j < r@.len() ==> moves@.contains(#[trigger] r@[j]),
{
    let mut pairs: Vec<(i32, Move)> = Vec::new();
    let mut i: usize = 0;
    while i < moves.len()
        invariant
            i <= moves.len(),
            pairs@ == keyed(moves@, tt_move, killers).take(i as int),
        decreases moves.len() - i,
    {
        pairs.push((move_key(&moves[i], tt_move, killers), moves[i]));
        i = i + 1;
        assert(pairs@ =~= keyed(moves@, tt_move, killers).take(i as int));
    }
    assert(pairs@ =~= keyed(moves@, tt_move, killers));
    let result = sort_moves(&pairs);
    let mut out: Vec<Move> = Vec::new();
    let mut j: usize = 0;
    while j < result.len()
        invariant
            j <= result.len(),
            result@ == sorted(keyed(moves@, tt_move, killers)),
            out@ == ordered(moves@, tt_move, killers).take(j as int),
        decreases result.len() - j,
    {
        out.push(result[j].1);
        j = j + 1;
        assert(out@ =~= ordered(moves@, tt_move, killers).take(j as int));
    }
    assert(out@ =~= ordered(moves@, tt_move, killers));
    proof {
        lemma_ordered_members(moves@, tt_move, killers);
    }
    out
}

/// The captures and promotions among some moves.
fn noisy_moves(moves: &Vec<Move>) -> (r: Vec<Move>)
    ensures
        r@ == moves@.filter(|m: Move| is_noisy(m)),
        forall|j: int| 0 <= j < r@.len() ==> moves@.contains(#[trigger] r@[j]),
{
    let ghost pred = |m: Move| is_noisy(m);
    let mut out: Vec<Move> = Vec::new();
    let mut i: usize = 0;
    proof {
        reveal(Seq::filter);
        assert(moves@.take(0).filter(pred) =~= Seq::empty());
    }
    while i < moves.len()
        invariant
            i <= moves.len(),
            pred == (|m: Move| is_noisy(m)),
            out@ == moves@.take(i as int).filter(pred),
            forall|j: int| 0 <= j < out@.len() ==> moves@.contains(#[trigger] out@[j]),
        decreases moves.len() - i,
    {
        let m = moves[i];
        proof {
            reveal(Seq::filter);
            assert(moves@.take(i + 1).drop_last() =~= moves@.take(i as int));
            assert(moves@.contains(moves@[i as int]));
        }
        if m.is_capture() || m.promotion().is_some() {
            out.push(m);
        }
        i = i + 1;
    }
    assert(moves@.take(moves@.len() as int) =~= moves@);
    out
}

impl Searcher {
    /// The state that the search depends on.
    pub closed spec fn snap(&self) -> Snap {
        Snap {
            table: self.table@,
            killers: self.killers@,
            history: self.history@,
            nodes: self.nodes,
            limit: self.limit_nodes,
            aborted: self.aborted,
        }
    }

    /// The table has a slot, there are killers for every ply, and every score in
    /// the table has a negation.
    pub closed spec fn wf(&self) -> bool {
        self.table@.len() > 0 && self.killers@.len() == 128 && negatable(self.table@)
    }

    /// The clock can stop the search.
    spec fn timed(&self) -> bool {
        self.deadline is Some
    }

    /// A later state of the same search: the history is as it was, nodes are only
    /// added, an aborted search stays aborted, and only the clock lowers the limit,
    /// to the node at which it aborts the search.
    spec fn continues(&self, earlier: &Searcher) -> bool {
        &&& self.history@ == earlier.history@
        &&& self.table@.len() == earlier.table@.len()
        &&& self.deadline == earlier.deadline
        &&& self.nodes >= earlier.nodes
        &&& earlier.aborted ==> self.aborted
        &&& self.limit_nodes == earlier.limit_nodes || {
            &&& self.timed() && self.aborted && !earlier.aborted
            &&& earlier.nodes < self.limit_nodes < earlier.limit_nodes
            &&& self.limit_nodes % 2048 == 0
        }
    }

    /// A searcher whose table has room for at least so many positions.
    pub fn new(tt_entries: usize) -> (r: Searcher)
        requires
            tt_entries <= usize::MAX / 2 + 1,
        ensures
            r.wf(),
            r.snap() == fresh(tt_entries as int),
    {
        let mut size: usize = 1;
        while size < tt_entries
            invariant
                1 <= size,
                tt_entries <= usize::MAX / 2 + 1,
                doubled_to(size as int, tt_entries as int) == doubled_to(1, tt_entries as int),
            decreases larger(tt_entries - size, 0),
        {
            size = size * 2;
        }
        let mut table: Vec<Option<TtEntry>> = Vec::new();
        let mut i: usize = 0;
        while i < size
            invariant
                i <= size,
                table@.len() == i,
                forall|j: int| 0 <= j < i ==> (#[trigger] table@[j]) is None,
            decreases size - i,
        {
            table.push(None);
            i = i + 1;
        }
        assert(table@ =~= fresh(tt_entries as int).table);
        let history: Vec<u64> = Vec::new();
        assert(history@ =~= Seq::empty());
        Searcher {
            table,
            killers: no_killers(),
            history,
            nodes: 0,
            limit_nodes: u64::MAX,
            deadline: None,
            aborted: false,
        }
    }

    /// Positions already seen in the game, so repetitions score as draws.
    pub fn set_history(&mut self, history: Vec<u64>)
        requires
            old(self).wf(),
        ensures
            final(self).wf(),
            final(self).snap() == (Snap { history: history@, ..old(self).snap() }),
    {
        self.history = history;
    }

    /// How many nodes the last search visited.
    pub fn nodes(&self) -> (r: u64)
        ensures
            r == self.snap().nodes,
    {
        self.nodes
    }

    /// Count a node and see whether the search has to stop.
    fn enter(&mut self) -> (r: bool)
        requires
            old(self).wf(),
        ensures
            final(self).wf(),
            final(self).continues(old(self)),
            final(self).table@ == old(self).table@,
            final(self).killers@ == old(self).killers@,
            r == final(self).aborted,
            forall|n: u64| #[trigger] allows(final(self).snap(), n) ==> entered(capped(old(self).snap(), n)) == capped(
                final(self).snap(),
                n,
            ),
    {
        self.nodes = self.nodes.saturating_add(1);
        if self.aborted {
            return true;
        }
        if self.nodes >= self.limit_nodes {
            self.aborted = true;
            return true;
        }
        // checking the clock every node is itself measurable
        if self.nodes % 2048 == 0 {
            if let Some(timer) = &self.deadline {
                if reaches_span(&time_since(&timer.started), &timer.limit) {
                    self.limit_nodes = self.nodes;
                    self.aborted = true;
                    return true;
                }
            }
        }
        false
    }

    fn slot(&self, key: u64) -> (r: usize)
        requires
            self.wf(),
        ensures
            r == key as int % self.table@.len() as int,
            r < self.table@.len(),
    {
        (key % (self.table.len() as u64)) as usize
    }

    fn probe(&self, key: u64) -> (r: Option<TtEntry>)
        requires
            self.wf(),
        ensures
            r == probed(self.table@, key),
            r is Some ==> r->0.score > i32::MIN,
    {
        match self.table[self.slot(key)] {
            Some(entry) => if entry.key == key {
                Some(entry)
            } else {
                None
            },
            None => None,
        }
    }

    fn store(&mut self, entry: TtEntry)
        requires
            old(self).wf(),
            entry.score > i32::MIN,
        ensures
            final(self).wf(),
            final(self).continues(old(self)),
            final(self).snap() == (Snap { table: stored(old(self).table@, entry), ..old(self).snap() }),
    {
        let slot: usize = self.slot(entry.key);
        let replace = match self.table[slot] {
            Some(existing) => existing.key != entry.key || entry.depth >= existing.depth,
            None => true,
        };
        if replace {
            self.table.set(slot, Some(entry));
        }
    }

    fn is_repetition(&self, key: u64) -> (r: bool)
        ensures
            r == repeated(self.history@, key),
    {
        let mut n: usize = 0;
        let mut i: usize = 0;
        while i < self.history.len()
            invariant
                i <= self.history@.len(),
                n <= i,
                n == occurrences(self.history@, key, i as int),
            decreases self.history@.len() - i,
        {
            if self.history[i] == key {
                n = n + 1;
            }
            i = i + 1;
        }
        n >= 2
    }

    fn killers_for(&self, ply: usize) -> (r: Killers)
        requires
            self.wf(),
        ensures
            r == killers_at(self.killers@, ply as int),
    {
        if ply < MAX_PLY {
            self.killers[ply]
        } else {
            (None, None)
        }
    }

    fn add_killer(&mut self, ply: usize, m: &Move)
        requires
            old(self).wf(),
        ensures
            final(self).wf(),
            final(self).continues(old(self)),
            final(self).snap() == (Snap {
                killers: with_killer(old(self).killers@, ply as int, *m),
                ..old(self).snap()
            }),
    {
        // a quiet move that causes a cutoff is worth trying first next time
        if !m.is_capture() && ply < MAX_PLY {
            let first = self.killers[ply].0;
            self.killers.set(ply, (Some(*m), first));
        }
    }

    /// Search only captures until the position is quiet, so the evaluation is
    /// never read in the middle of an exchange.
    fn quiesce(&mut self, pos: &Position, alpha: i32, beta: i32, ply: usize) -> (r: i32)
        requires
            old(self).wf(),
            alpha > i32::MIN,
            beta > i32::MIN,
            ply <= 0x7fff_ffff,
        ensures
            final(self).wf(),
            final(self).continues(old(self)),
            r > i32::MIN,
            forall|n: u64| #[trigger] allows(final(self).snap(), n) ==> quiesced(
                capped(old(self).snap(), n),
                pos@,
                alpha as int,
                beta as int,
                ply as int,
            ) == (capped(final(self).snap(), n), r as int),
        decreases 128 - ply,
    {
        if self.enter() {
            return 0;
        }
        let ghost window = alpha as int;
        let stand_pat: i32 = evaluate(pos);
        if stand_pat >= beta {
            return stand_pat;
        }
        let mut alpha: i32 = if stand_pat > alpha {
            stand_pat
        } else {
            alpha
        };
        if ply >= MAX_PLY - 1 {
            return stand_pat;
        }
        let legal = pos.legal_moves();
        let noisy = noisy_moves(&legal);
        if noisy.len() == 0 {
            return alpha;
        }
        let moves = order(&noisy, None, self.killers_for(ply));
        let mut best: i32 = stand_pat;
        let ghost begin = *self;
        let ghost first = QuietAcc { st: self.snap(), alpha: alpha as int, best: best as int };
        let mut i: usize = 0;
        let mut cut = false;
        while i < moves.len() && !cut
            invariant
                i <= moves.len(),
                ply < 127,
                self.wf(),
                self.continues(&begin),
                alpha > i32::MIN,
                beta > i32::MIN,
                best > i32::MIN,
                legal@ == moves_of(pos@),
                forall|j: int| 0 <= j < noisy@.len() ==> legal@.contains(#[trigger] noisy@[j]),
                forall|j: int| 0 <= j < moves@.len() ==> noisy@.contains(#[trigger] moves@[j]),
                forall|n: u64| #[trigger] allows(self.snap(), n) ==> quiesced_moves(
                    QuietAcc { st: capped(begin.snap(), n), ..first },
                    pos@,
                    moves@,
                    0,
                    beta as int,
                    ply as int,
                ) == ({
                    let acc = QuietAcc { st: capped(self.snap(), n), alpha: alpha as int, best: best as int };
                    if cut {
                        acc
                    } else {
                        quiesced_moves(acc, pos@, moves@, i as int, beta as int, ply as int)
                    }
                }),
            decreases moves.len() - i,
        {
            proof {
                assert(noisy@.contains(moves@[i as int]));
                let k = noisy@.index_of(moves@[i as int]);
                assert(legal@.contains(noisy@[k]));
            }
            let ghost before = *self;
            let child = pos.play_move(moves[i]);
            let score: i32 = -self.quiesce(&child, -beta, -alpha, ply + 1);
            proof {
                lemma_continues(&begin, &before, self);
            }
            if score > best {
                best = score;
            }
            if score > alpha {
                alpha = score;
            }
            if alpha >= beta {
                cut = true;
            }
            i = i + 1;
        }
        proof {
            lemma_continues(&begin, &begin, self);
            assert forall|n: u64| #[trigger] allows(self.snap(), n) implies quiesced(
                capped(old(self).snap(), n),
                pos@,
                window,
                beta as int,
                ply as int,
            ) == (capped(self.snap(), n), best as int) by {
                assert(allows(begin.snap(), n));
            }
        }
        best
    }

    /// The alpha-beta search of a position to a depth, within a window.
    fn alphabeta(&mut self, pos: &Position, depth: i32, alpha: i32, beta: i32, ply: usize) -> (r: i32)
        requires
            old(self).wf(),
            alpha > i32::MIN,
            beta > i32::MIN,
            ply + remaining(depth as int) <= 0x7fff_ffff,
        ensures
            final(self).wf(),
            final(self).continues(old(self)),
            r > i32::MIN,
            forall|n: u64| #[trigger] allows(final(self).snap(), n) ==> searched(
                capped(old(self).snap(), n),
                pos@,
                depth as int,
                alpha as int,
                beta as int,
                ply as int,
            ) == (capped(final(self).snap(), n), r as int),
        decreases remaining(depth as int),
    {
        if self.enter() {
            return 0;
        }
        let ghost begin = *self;
        let key: u64 = pos.zobrist_hash();
        if ply > 0 {
            if pos.halfmoves() >= 100 || pos.is_insufficient_material() || self.is_repetition(key) {
                return 0;
            }
        }
        let mut tt_move: Option<Move> = None;
        if let Some(entry) = self.probe(key) {
            tt_move = entry.best;
            if ply > 0 && entry.depth >= depth {
                let settled = match entry.bound {
                    Bound::Exact => true,
                    Bound::Lower => entry.score >= beta,
                    Bound::Upper => entry.score <= alpha,
                };
                if settled {
                    return entry.score;
                }
            }
        }
        if depth <= 0 {
            let quiet: i32 = self.quiesce(pos, alpha, beta, ply);
            proof {
                lemma_continues(&begin, &begin, self);
            }
            return quiet;
        }
        let legal = pos.legal_moves();
        if legal.len() == 0 {
            return if pos.is_check() {
                -MATE + ply as i32
            } else {
                0
            };
        }
        let moves = order(&legal, tt_move, self.killers_for(ply));
        let original_alpha: i32 = alpha;
        let mut alpha: i32 = alpha;
        let mut best_score: i32 = -INFINITY;
        let mut best_move: Option<Move> = None;
        let ghost first = SearchAcc { st: self.snap(), alpha: alpha as int, best_score: best_score as int, best_move };
        let mut i: usize = 0;
        let mut cut = false;
        while i < moves.len() && !cut
            invariant
                i <= moves.len(),
                depth > 0,
                ply + remaining(depth as int) <= 0x7fff_ffff,
                self.wf(),
                self.continues(&begin),
                alpha > i32::MIN,
                beta > i32::MIN,
                best_score > i32::MIN,
                legal@ == moves_of(pos@),
                forall|j: int| 0 <= j < moves@.len() ==> legal@.contains(#[trigger] moves@[j]),
                forall|n: u64| #[trigger] allows(self.snap(), n) ==> searched_moves(
                    SearchAcc { st: capped(begin.snap(), n), ..first },
                    pos@,
                    moves@,
                    0,
                    depth as int,
                    beta as int,
                    ply as int,
                ) == ({
                    let acc = SearchAcc {
                        st: capped(self.snap(), n),
                        alpha: alpha as int,
                        best_score: best_score as int,
                        best_move,
                    };
                    if cut {
                        acc
                    } else {
                        searched_moves(acc, pos@, moves@, i as int, depth as int, beta as int, ply as int)
                    }
                }),
            decreases moves.len() - i,
        {
            let m = moves[i];
            let ghost before = *self;
            assert(legal@.contains(moves@[i as int]));
            let child = pos.play_move(m);
            self.history.push(child.zobrist_hash());
            let ghost deeper = *self;
            let ghost window = alpha as int;
            let ghost (best_so_far, best_known) = (best_score as int, best_move);
            let score: i32 = -self.alphabeta(&child, depth - 1, -beta, -alpha, ply + 1);
            let ghost after = *self;
            assert(self.history@ == deeper.history@);
            self.history.pop();
            assert(self.history@ =~= before.history@);
            let ghost popped = *self;
            proof {
                lemma_continues(&begin, &before, self);
            }
            if score > best_score {
                best_score = score;
                best_move = Some(m);
            }
            if score > alpha {
                alpha = score;
            }
            if alpha >= beta {
                self.add_killer(ply, &m);
                cut = true;
            }
            proof {
                assert forall|n: u64| #[trigger] allows(self.snap(), n) implies searched_moves(
                    SearchAcc { st: capped(before.snap(), n), alpha: window, best_score: best_so_far, best_move: best_known },
                    pos@,
                    moves@,
                    i as int,
                    depth as int,
                    beta as int,
                    ply as int,
                ) == ({
                    let acc = SearchAcc {
                        st: capped(self.snap(), n),
                        alpha: alpha as int,
                        best_score: best_score as int,
                        best_move,
                    };
                    if cut {
                        acc
                    } else {
                        searched_moves(acc, pos@, moves@, i + 1, depth as int, beta as int, ply as int)
                    }
                }) && allows(before.snap(), n) by {
                    assert(allows(after.snap(), n));
                    assert(allows(popped.snap(), n));
                    assert(capped(deeper.snap(), n) == (Snap {
                        history: before.history@.push(zobrist_of(child@)),
                        ..capped(before.snap(), n)
                    }));
                    assert(capped(popped.snap(), n) == (Snap {
                        history: after.history@.drop_last(),
                        ..capped(after.snap(), n)
                    }));
                }
            }
            i = i + 1;
        }
        proof {
            lemma_continues(&begin, &begin, self);
        }
        let ghost end = *self;
        let bound = if best_score <= original_alpha {
            Bound::Upper
        } else if best_score >= beta {
            Bound::Lower
        } else {
            Bound::Exact
        };
        self.store(TtEntry { key, depth, score: best_score, bound, best: best_move });
        proof {
            assert forall|n: u64| #[trigger] allows(self.snap(), n) implies searched(
                capped(old(self).snap(), n),
                pos@,
                depth as int,
                original_alpha as int,
                beta as int,
                ply as int,
            ) == (capped(self.snap(), n), best_score as int) by {
                assert(allows(end.snap(), n));
                assert(allows(begin.snap(), n));
            }
        }
        best_score
    }
}

/// No killer at any ply.
pub open spec fn killer_free() -> Seq<Killers> {
    Seq::new(128, |i: int| (None, None))
}

fn no_killers() -> (r: Vec<Killers>)
    ensures
        r@ == killer_free(),
{
    let mut out: Vec<Killers> = Vec::new();
    let mut i: usize = 0;
    while i < MAX_PLY
        invariant
            i <= MAX_PLY,
            out@ == killer_free().take(i as int),
        decreases MAX_PLY - i,
    {
        out.push((None, None));
        i = i + 1;
        assert(out@ =~= killer_free().take(i as int));
    }
    assert(killer_free().take(128) =~= killer_free());
    out
}

/// What a search reports, beside the count of nodes.
pub struct Outcome {
    pub best: Option<Move>,
    pub score: int,
    pub pv: Seq<Move>,
    pub depth: int,
}

/// An unsigned depth as the signed depth that the search counts down: from half
/// the range on it is negative.
pub open spec fn signed_depth(depth: int) -> int {
    if depth <= 0x7fff_ffff {
        depth
    } else {
        depth - 0x1_0000_0000
    }
}

/// Iterative deepening from `depth` on. An interrupted iteration beyond the
/// first is not trusted, and a forced mate ends the search.
pub open spec fn deepened(st: Snap, fen: Seq<char>, limit: int, depth: int, res: Outcome) -> (Snap, Outcome)
    decreases limit - depth + 1,
{
    if depth > limit {
        (st, res)
    } else {
        let (st, score) = searched(st, fen, signed_depth(depth), -32_001, 32_001, 0);
        if st.aborted && depth > 1 {
            (st, res)
        } else {
            let pv = variation(st.table, fen, Seq::empty(), depth);
            let best = if pv.len() > 0 {
                Some(pv[0])
            } else {
                res.best
            };
            let res = Outcome { best, score, pv, depth };
            if abs(score) >= 31_000 {
                (st, res)
            } else {
                deepened(st, fen, limit, depth + 1, res)
            }
        }
    }
}

/// The number of nodes to which limits bring a search down: without a time limit
/// just the node limit, with one perhaps less, at a node where the clock was read.
pub open spec fn limited(nodes: u64, limits: Limits) -> bool {
    nodes == limits.nodes || (limits.time is Some && nodes < limits.nodes && nodes % 2048 == 0)
}

/// The state in which a search begins.
pub open spec fn begun(st: Snap, nodes: u64) -> Snap {
    Snap { nodes: 0, aborted: false, limit: nodes, killers: killer_free(), ..st }
}

/// What is known of a position before it is searched: its first legal move.
pub open spec fn unsearched(fen: Seq<char>) -> Outcome {
    let best = if moves_of(fen).len() > 0 {
        Some(moves_of(fen)[0])
    } else {
        None
    };
    Outcome { best, score: 0, pv: Seq::empty(), depth: 0 }
}

/// The search of the root moves from the `i`-th on: each move with the opponent's
/// score for the position after it.
pub open spec fn replies(st: Snap, fen: Seq<char>, depth: int, i: int, found: Seq<(i32, Move)>) -> (
    Snap,
    Seq<(i32, Move)>,
)
    decreases moves_of(fen).len() - i,
{
    if i < 0 || i >= moves_of(fen).len() {
        (st, found)
    } else {
        let m = moves_of(fen)[i];
        let child = fen_play(fen, m);
        let deeper = Snap { history: st.history.push(zobrist_of(child)), ..st };
        let (st, reply) = searched(deeper, child, depth, -32_001, 32_001, 1);
        replies(
            Snap { history: st.history.drop_last(), ..st },
            fen,
            depth,
            i + 1,
            found.push((reply as i32, m)),
        )
    }
}

/// Moves with their scores, made of moves with the opponent's scores: best first,
/// equal ones in their first order.
pub open spec fn best_first(found: Seq<(i32, Move)>) -> Seq<(Move, i32)> {
    sorted(found).map_values(|p: (i32, Move)| (p.1, (-p.0) as i32))
}

/// The scores descend.
pub open spec fn descending(scored: Seq<(Move, i32)>) -> bool {
    forall|i: int, j: int| 0 <= i <= j < scored.len() ==> (#[trigger] scored[i]).1 >= (#[trigger] scored[j]).1
}

/// Just the moves of the position are scored.
pub open spec fn covers(scored: Seq<(Move, i32)>, moves: Seq<Move>) -> bool {
    &&& scored.len() == moves.len()
    &&& forall|i: int| 0 <= i < scored.len() ==> moves.contains((#[trigger] scored[i]).0)
    &&& forall|k: int| 0 <= k < moves.len() ==> exists|i: int|
        0 <= i < scored.len() && (#[trigger] scored[i]).0 == #[trigger] moves[k]
}

/// Where an item of the sorted list stands in the list it was sorted from.
proof fn lemma_sorted_from(found: Seq<(i32, Move)>, i: int) -> (k: int)
    requires
        0 <= i < sorted(found).len(),
    ensures
        0 <= k < found.len(),
        found[k] == sorted(found)[i],
{
    law_sorted_is_an_ascending_rearrangement(found);
    vstd::seq_lib::to_multiset_contains(sorted(found), sorted(found)[i]);
    vstd::seq_lib::to_multiset_contains(found, sorted(found)[i]);
    found.index_of(sorted(found)[i])
}

/// Where an item goes when the list is sorted.
proof fn lemma_sorted_to(found: Seq<(i32, Move)>, k: int) -> (i: int)
    requires
        0 <= k < found.len(),
    ensures
        0 <= i < sorted(found).len(),
        sorted(found)[i] == found[k],
{
    law_sorted_is_an_ascending_rearrangement(found);
    vstd::seq_lib::to_multiset_contains(found, found[k]);
    vstd::seq_lib::to_multiset_contains(sorted(found), found[k]);
    sorted(found).index_of(found[k])
}

#[verifier::spinoff_prover]
proof fn lemma_best_first_covers(found: Seq<(i32, Move)>, moves: Seq<Move>)
    requires
        found.len() == moves.len(),
        forall|i: int| 0 <= i < found.len() ==> (#[trigger] found[i]).1 == moves[i],
    ensures
        covers(best_first(found), moves),
{
    let scored = best_first(found);
    law_sorted_is_an_ascending_rearrangement(found);
    assert forall|i: int| 0 <= i < scored.len() implies moves.contains((#[trigger] scored[i]).0) by {
        let k = lemma_sorted_from(found, i);
        assert(moves[k] == scored[i].0);
    }
    assert forall|k: int| 0 <= k < moves.len() implies exists|i: int|
        0 <= i < scored.len() && (#[trigger] scored[i]).0 == #[trigger] moves[k] by {
        let i = lemma_sorted_to(found, k);
        assert(scored[i].0 == moves[k]);
    }
}

#[verifier::spinoff_prover]
proof fn lemma_best_first_descends(found: Seq<(i32, Move)>)
    requires
        forall|i: int| 0 <= i < found.len() ==> (#[trigger] found[i]).0 > i32::MIN,
    ensures
        descending(best_first(found)),
{
    let scored = best_first(found);
    law_sorted_is_an_ascending_rearrangement(found);
    assert forall|i: int, j: int| 0 <= i <= j < scored.len() implies (#[trigger] scored[i]).1 >= (
    #[trigger] scored[j]).1 by {
        let (a, b) = (lemma_sorted_from(found, i), lemma_sorted_from(found, j));
        assert(found[a].0 <= found[b].0);
        assert(scored[i].1 == -found[a].0 && scored[j].1 == -found[b].0);
    }
}

proof fn lemma_best_first(found: Seq<(i32, Move)>, moves: Seq<Move>)
    requires
        found.len() == moves.len(),
        forall|i: int| 0 <= i < found.len() ==> (#[trigger] found[i]).1 == moves[i] && found[i].0 > i32::MIN,
    ensures
        covers(best_first(found), moves),
        descending(best_first(found)),
{
    lemma_best_first_covers(found, moves);
    lemma_best_first_descends(found);
}

fn as_signed(depth: u32) -> (r: i32)
    ensures
        r == signed_depth(depth as int),
{
    if depth <= 0x7fff_ffff {
        depth as i32
    } else {
        (depth as i64 - 0x1_0000_0000) as i32
    }
}

/// What continues a continuation continues the search, and a limit that the later
/// state allows the earlier one does.
proof fn lemma_continues(a: &Searcher, b: &Searcher, c: &Searcher)
    requires
        b.continues(a),
        c.continues(b),
    ensures
        c.continues(a),
        forall|n: u64| #[trigger] allows(c.snap(), n) ==> allows(b.snap(), n),
{
}

impl SearchResult {
    /// What the result reports, beside the count of nodes.
    pub open spec fn outcome(&self) -> Outcome {
        Outcome { best: self.best, score: self.score as int, pv: self.pv@, depth: self.depth as int }
    }
}

impl Searcher {
    fn set_limits(&mut self, limits: &Limits)
        requires
            old(self).wf(),
        ensures
            final(self).wf(),
            final(self).timed() == (limits.time is Some),
            final(self).snap() == (Snap { nodes: 0, aborted: false, limit: limits.nodes, ..old(self).snap() }),
    {
        self.nodes = 0;
        self.aborted = false;
        self.limit_nodes = limits.nodes;
        self.deadline = match limits.time {
            Some(limit) => Some(Timer { started: start_clock(), limit }),
            None => None,
        };
    }

    fn principal_variation(&self, pos: &Position, max_len: usize) -> (r: Vec<Move>)
        requires
            self.wf(),
        ensures
            r@ == variation(self.table@, pos@, Seq::empty(), max_len as int),
    {
        let mut pv: Vec<Move> = Vec::new();
        let mut current = pos.duplicate();
        let mut seen: Vec<u64> = Vec::new();
        let mut n: usize = 0;
        let ghost goal = variation(self.table@, pos@, Seq::empty(), max_len as int);
        assert(pv@ + goal =~= goal);
        while n < max_len
            invariant
                n <= max_len,
                self.wf(),
                goal == variation(self.table@, pos@, Seq::empty(), max_len as int),
                goal == pv@ + variation(self.table@, current@, seen@, max_len - n),
            decreases max_len - n,
        {
            let key: u64 = current.zobrist_hash();
            let mut looped = false;
            let mut i: usize = 0;
            while i < seen.len()
                invariant
                    i <= seen.len(),
                    looped == (exists|j: int| 0 <= j < i && seen@[j] == key),
                decreases seen.len() - i,
            {
                if seen[i] == key {
                    looped = true;
                }
                i = i + 1;
            }
            assert(looped == seen@.contains(key));
            let best = match self.probe(key) {
                Some(entry) => entry.best,
                None => None,
            };
            // a key collision can hand us a move from another position
            let legal = match best {
                Some(m) => is_among(&current.legal_moves(), &m),
                None => false,
            };
            if looped || !legal {
                assert(variation(self.table@, current@, seen@, max_len - n) =~= Seq::empty());
                assert(pv@ =~= goal);
                return pv;
            }
            if let Some(m) = best {
                let ghost shorter = pv@;
                let ghost rest = variation(self.table@, fen_play(current@, m), seen@.push(key), max_len - n - 1);
                pv.push(m);
                seen.push(key);
                current = current.play_move(m);
                assert(shorter + (seq![m] + rest) =~= pv@ + rest);
            }
            n = n + 1;
        }
        assert(pv@ =~= goal);
        pv
    }

    /// Iterative deepening. Shallow results order the next iteration's moves,
    /// which is what makes deepening cheaper than searching the full depth flat.
    pub fn search(&mut self, pos: &Position, limits: &Limits) -> (r: SearchResult)
        requires
            old(self).wf(),
        ensures
            final(self).wf(),
            final(self).snap().history == old(self).snap().history,
            final(self).snap().table.len() == old(self).snap().table.len(),
            r.nodes == final(self).snap().nodes,
            r.depth <= limits.depth,
            r.best is None <==> moves_of(pos@).len() == 0,
            r.best is Some ==> moves_of(pos@).contains(r.best->0),
            legal_line(pos@, r.pv@),
            r.pv@.len() > 0 ==> r.best == Some(r.pv@[0]),
            r.pv@.len() <= r.depth,
            limited(final(self).snap().limit, *limits),
            (final(self).snap(), r.outcome()) == deepened(
                begun(old(self).snap(), final(self).snap().limit),
                pos@,
                limits.depth as int,
                1,
                unsearched(pos@),
            ),
    {
        self.set_limits(limits);
        self.killers = no_killers();
        let legal = pos.legal_moves();
        let mut best: Option<Move> = if legal.len() > 0 {
            Some(legal[0])
        } else {
            None
        };
        let mut score: i32 = 0;
        let mut pv: Vec<Move> = Vec::new();
        let mut reached: u32 = 0;
        let ghost start = *self;
        let mut depth: u32 = 0;
        let mut done = false;
        proof {
            assert(pv@ =~= unsearched(pos@).pv);
            if legal.len() > 0 {
                assert(moves_of(pos@).contains(legal@[0]));
            }
        }
        while depth < limits.depth && !done
            invariant
                depth <= limits.depth,
                reached <= depth,
                self.wf(),
                self.continues(&start),
                start.timed() == (limits.time is Some),
                legal@ == moves_of(pos@),
                best is None <==> legal@.len() == 0,
                best is Some ==> legal@.contains(best->0),
                legal_line(pos@, pv@),
                pv@.len() > 0 ==> best == Some(pv@[0]),
                pv@.len() <= reached,
                forall|n: u64| #[trigger] allows(self.snap(), n) ==> deepened(
                    capped(start.snap(), n),
                    pos@,
                    limits.depth as int,
                    1,
                    unsearched(pos@),
                ) == ({
                    let res = Outcome { best, score: score as int, pv: pv@, depth: reached as int };
                    if done {
                        (capped(self.snap(), n), res)
                    } else {
                        deepened(capped(self.snap(), n), pos@, limits.depth as int, depth + 1, res)
                    }
                }),
            decreases limits.depth - depth + (if done {
                0int
            } else {
                1
            }),
        {
            depth = depth + 1;
            let ghost before = *self;
            let value: i32 = self.alphabeta(pos, as_signed(depth), -INFINITY, INFINITY, 0);
            proof {
                lemma_continues(&start, &before, self);
            }
            if self.aborted && depth > 1 {
                done = true;
            } else {
                let line = self.principal_variation(pos, depth as usize);
                proof {
                    law_variation_is_legal(self.table@, pos@, Seq::empty(), depth as int);
                }
                if line.len() > 0 {
                    best = Some(line[0]);
                }
                score = value;
                pv = line;
                reached = depth;
                if value >= MATE_THRESHOLD || value <= -MATE_THRESHOLD {
                    done = true;
                }
            }
        }
        proof {
            let limit = self.snap().limit;
            assert(allows(self.snap(), limit));
            assert(capped(self.snap(), limit) == self.snap());
            assert(capped(start.snap(), limit) == begun(old(self).snap(), limit));
        }
        SearchResult { best, score, pv, nodes: self.nodes, depth: reached }
    }

    /// Score every root move, for turning a search into a policy target.
    pub fn root_move_scores(&mut self, pos: &Position, limits: &Limits) -> (r: Vec<(Move, i32)>)
        requires
            old(self).wf(),
            limits.depth != 0x8000_0000,
        ensures
            final(self).wf(),
            final(self).snap().history == old(self).snap().history,
            final(self).snap().table.len() == old(self).snap().table.len(),
            covers(r@, moves_of(pos@)),
            descending(r@),
            limited(final(self).snap().limit, *limits),
            ({
                let begin = Snap { nodes: 0, aborted: false, limit: final(self).snap().limit, ..old(self).snap() };
                let (end, found) = replies(
                    begin,
                    pos@,
                    signed_depth(limits.depth as int) - 1,
                    0,
                    Seq::empty(),
                );
                final(self).snap() == end && r@ == best_first(found)
            }),
    {
        self.set_limits(limits);
        let depth: i32 = as_signed(limits.depth) - 1;
        let legal = pos.legal_moves();
        let mut found: Vec<(i32, Move)> = Vec::new();
        let ghost start = *self;
        assert(found@ =~= Seq::empty());
        let mut i: usize = 0;
        while i < legal.len()
            invariant
                i <= legal.len(),
                self.wf(),
                self.continues(&start),
                1 + remaining(depth as int) <= 0x7fff_ffff,
                legal@ == moves_of(pos@),
                found@.len() == i,
                forall|j: int| 0 <= j < i ==> (#[trigger] found@[j]).1 == legal@[j] && found@[j].0 > i32::MIN,
                forall|n: u64| #[trigger] allows(self.snap(), n) ==> replies(
                    capped(start.snap(), n),
                    pos@,
                    depth as int,
                    0,
                    Seq::empty(),
                ) == replies(capped(self.snap(), n), pos@, depth as int, i as int, found@),
            decreases legal.len() - i,
        {
            let m = legal[i];
            let ghost before = *self;
            assert(legal@.contains(legal@[i as int]));
            let child = pos.play_move(m);
            self.history.push(child.zobrist_hash());
            let ghost deeper = *self;
            let ghost known = found@;
            let reply: i32 = self.alphabeta(&child, depth, -INFINITY, INFINITY, 1);
            let ghost after = *self;
            assert(self.history@ == deeper.history@);
            self.history.pop();
            assert(self.history@ =~= before.history@);
            proof {
                lemma_continues(&start, &before, self);
            }
            found.push((reply, m));
            proof {
                assert forall|n: u64| #[trigger] allows(self.snap(), n) implies replies(
                    capped(before.snap(), n),
                    pos@,
                    depth as int,
                    i as int,
                    known,
                ) == replies(capped(self.snap(), n), pos@, depth as int, i + 1, found@) && allows(before.snap(), n) by {
                    assert(allows(after.snap(), n));
                    assert(capped(deeper.snap(), n) == (Snap {
                        history: before.history@.push(zobrist_of(child@)),
                        ..capped(before.snap(), n)
                    }));
                    assert(capped(self.snap(), n) == (Snap {
                        history: after.history@.drop_last(),
                        ..capped(after.snap(), n)
                    }));
                }
            }
            i = i + 1;
        }
        proof {
            let limit = self.snap().limit;
            assert(allows(self.snap(), limit));
            assert(capped(self.snap(), limit) == self.snap());
            lemma_best_first(found@, legal@);
        }
        let result = sort_moves(&found);
        let mut scored: Vec<(Move, i32)> = Vec::new();
        let mut j: usize = 0;
        while j < result.len()
            invariant
                j <= result.len(),
                result@ == sorted(found@),
                covers(best_first(found@), legal@),
                forall|k: int| 0 <= k < found@.len() ==> (#[trigger] found@[k]).0 > i32::MIN,
                scored@ == best_first(found@).take(j as int),
            decreases result.len() - j,
        {
            proof {
                law_sorted_is_an_ascending_rearrangement(found@);
                vstd::seq_lib::to_multiset_contains(result@, result@[j as int]);
                vstd::seq_lib::to_multiset_contains(found@, result@[j as int]);
                assert(result@.contains(result@[j as int]));
                assert(found@.contains(result@[j as int]));
            }
            scored.push((result[j].1, -result[j].0));
            j = j + 1;
            assert(scored@ =~= best_first(found@).take(j as int));
        }
        assert(scored@ =~= best_first(found@));
        scored
    }
}

impl Default for Searcher {
    fn default() -> (r: Searcher)
        ensures
            r.wf(),
            r.snap() == fresh(1_048_576),
    {
        Searcher::new(1_048_576)
    }
}

fn is_among(moves: &Vec<Move>, m: &Move) -> (r: bool)
    ensures
        r == moves@.contains(*m),
{
    let mut i: usize = 0;
    while i < moves.len()
        invariant
            i <= moves.len(),
            forall|j: int| 0 <= j < i ==> moves@[j] != *m,
        decreases moves.len() - i,
    {
        if moves[i] == *m {
            assert(moves@[i as int] == *m);
            return true;
        }
        i = i + 1;
    }
    false
}

/// Below the root a position that has occurred twice already scores as a draw,
/// whatever the window and the depth.
pub proof fn law_repetitions_are_draws(st: Snap, fen: Seq<char>, depth: int, alpha: int, beta: int, ply: int)
    requires
        ply > 0,
        repeated(st.history, zobrist_of(fen)),
    ensures
        searched(st, fen, depth, alpha, beta, ply).1 == 0,
{
}

/// A position without moves is mate or stalemate: a mate is worth less to the side
/// that is mated the nearer it is to the root, a stalemate nothing.
pub proof fn law_the_nearer_mate_is_the_worse(st: Snap, fen: Seq<char>, depth: int, alpha: int, beta: int, ply: int)
    requires
        depth > 0,
        moves_of(fen).len() == 0,
        !entered(st).aborted,
        ply > 0 ==> !drawn(st.history, fen),
        ply > 0 && probed(st.table, zobrist_of(fen)) is Some ==> !answers(
            probed(st.table, zobrist_of(fen))->0,
            depth,
            alpha,
            beta,
        ),
    ensures
        searched(st, fen, depth, alpha, beta, ply).1 == (if state(fen).in_check() {
            -32_000 + ply
        } else {
            0
        }),
{
}

proof fn lemma_doubled_to(p: int, n: int)
    requires
        p > 0,
    ensures
        doubled_to(p, n) > 0,
    decreases larger(n - p, 0),
{
    if p < n {
        lemma_doubled_to(2 * p, n);
    }
}

/// A searcher that has searched nothing yet knows a mate when it sees one: the side
/// that is mated gets the mate score, less the distance from the root.
pub proof fn law_a_fresh_searcher_scores_mates(
    tt_entries: int,
    fen: Seq<char>,
    depth: int,
    alpha: int,
    beta: int,
    ply: int,
)
    requires
        depth > 0,
        state(fen).in_check(),
        moves_of(fen).len() == 0,
        state(fen).halfmoves < 100,
        !insufficient_of(fen),
    ensures
        searched(fresh(tt_entries), fen, depth, alpha, beta, ply).1 == -32_000 + ply,
{
    lemma_doubled_to(1, tt_entries);
    law_the_nearer_mate_is_the_worse(fresh(tt_entries), fen, depth, alpha, beta, ply);
}

/// The table gives back what was stored in it, unless it holds a deeper search of the
/// same position, which stays.
pub proof fn law_the_table_keeps_the_deeper_search(table: Seq<Option<TtEntry>>, entry: TtEntry)
    requires
        table.len() > 0,
    ensures
        probed(stored(table, entry), entry.key) == (match probed(table, entry.key) {
            Some(e) => if entry.depth >= e.depth {
                Some(entry)
            } else {
                Some(e)
            },
            None => Some(entry),
        }),
        forall|key: u64| key as int % table.len() as int != entry.key as int % table.len() as int ==> #[trigger] probed(
            stored(table, entry),
            key,
        ) == probed(table, key),
{
}

/// A score the way UCI writes it: the distance to mate in moves, or centipawns.
pub open spec fn score_text(score: int) -> Seq<char> {
    if abs(score) >= 31_000 {
        let moves = trunc_div(32_000 - abs(score) + 1, 2);
        "mate "@ + signed_decimal(if score > 0 { moves } else { -moves })
    } else {
        "cp "@ + signed_decimal(score)
    }
}

/// Describe a score the way UCI does: mate distance, or centipawns.
pub fn score_string(score: i32) -> (r: String)
    requires
        score > i32::MIN,
    ensures
        r@ == score_text(score as int),
{
    let size: i32 = if score < 0 {
        -score
    } else {
        score
    };
    if size >= MATE_THRESHOLD {
        let mut out = "mate ".to_owned();
        let moves: i32 = (MATE - size + 1) / 2;
        push_signed(
            &mut out,
            if score > 0 {
                moves as i64
            } else {
                -(moves as i64)
            },
        );
        out
    } else {
        let mut out = "cp ".to_owned();
        push_signed(&mut out, score as i64);
        out
    }
}

/// The side to move, for callers building training targets.
pub fn perspective(pos: &Position) -> (r: Color)
    ensures
        r == state(pos@).turn,
{
    pos.turn()
}

} // verus!
