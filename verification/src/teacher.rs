//! Drive an external UCI engine to label training positions.
//!
//! One MultiPV search yields both a value target (the best line's score) and a
//! policy target (the relative scores of the top moves). This module knows
//! nothing of any particular engine, nor how its text arrives: it decides what to
//! send and what to make of what comes back.

use std::time::Duration;

use vstd::prelude::*;

use crate::rules::{
    fen_play, legal_fen_of, legal_line, legal_uci, lemma_line_grows, line_end, moves_of, Move, Position,
};
use crate::text::{
    chars_of, decimal, push_chars, push_decimal, push_text, push_wide, read_signed, read_unsigned, signed_number,
    slice_chars, split_words, text_of, trim_chars, trimmed, unsigned_number, views, word_is, words_of,
};

verus! {

/// Why an engine gave no analysis.
#[derive(Debug)]
pub enum TeacherError {
    /// The engine could not be started; the text says why.
    Spawn(String),
    /// Talking to the engine failed; the text says why.
    Io(String),
    /// The engine closed its output, usually because it crashed.
    EngineGone,
    /// The engine did not answer within the allotted time.
    Timeout(String),
    /// The position is checkmate or stalemate, so there is nothing to analyse.
    /// Data generation should skip these rather than treat it as a failure.
    NoLegalMoves,
    Protocol(String),
}

impl TeacherError {
    pub open spec fn text(&self) -> Seq<char> {
        match self {
            TeacherError::Spawn(e) => "could not start the engine: "@ + e@,
            TeacherError::Io(e) => "engine io failed: "@ + e@,
            TeacherError::EngineGone => "the engine exited unexpectedly"@,
            TeacherError::Timeout(what) => "the engine never sent "@ + what@,
            TeacherError::NoLegalMoves => "the position is over; there is nothing to analyse"@,
            TeacherError::Protocol(m) => "unexpected engine output: "@ + m@,
        }
    }

    /// The error in words.
    pub fn message(&self) -> (r: String)
        ensures
            r@ == self.text(),
    {
        match self {
            TeacherError::Spawn(e) => joined("could not start the engine: ", e.as_str()),
            TeacherError::Io(e) => joined("engine io failed: ", e.as_str()),
            TeacherError::EngineGone => "the engine exited unexpectedly".to_owned(),
            TeacherError::Timeout(what) => joined("the engine never sent ", what.as_str()),
            TeacherError::NoLegalMoves => "the position is over; there is nothing to analyse".to_owned(),
            TeacherError::Protocol(m) => joined("unexpected engine output: ", m.as_str()),
        }
    }
}

/// Two texts in one.
pub fn joined(a: &str, b: &str) -> (r: String)
    ensures
        r@ == a@ + b@,
{
    let mut out = a.to_owned();
    push_text(&mut out, b);
    out
}

/// A score as UCI reports it: centipawns, or a forced mate in N moves.
///
/// These are kept apart rather than folded into one number because they mean
/// different things: collapsing them loses the distinction between a won position
/// and a forced win.
#[derive(Clone, Copy, PartialEq, Eq, Structural, Debug)]
pub enum UciScore {
    Cp(i32),
    Mate(i32),
}

/// The centipawn range: no evaluation of a position is worth more than a hundred
/// pawns to either side.
pub const CENTIPAWN_RANGE: i32 = 10_000;

/// The largest distance that tells mates apart. One more step of a hundred would
/// bring the number of a mate into the centipawn range.
pub const FARTHEST_MATE: i32 = 199;

/// A number of moves, counted no further than the farthest mate.
pub open spec fn counted(moves: int) -> int {
    if moves > FARTHEST_MATE {
        FARTHEST_MATE as int
    } else {
        moves
    }
}

/// A single number for ordering: mates map far outside the centipawn range,
/// nearer mates further out.
pub open spec fn cp_of(score: UciScore) -> int {
    match score {
        UciScore::Cp(cp) => cp as int,
        UciScore::Mate(n) => if n > 0 {
            30_000 - counted(n as int) * 100
        } else {
            -30_000 + counted(-n) * 100
        },
    }
}

impl UciScore {
    /// A single number for ordering and for softmax targets. Mates map far
    /// outside the centipawn range, nearer mates further out.
    pub fn to_cp(self) -> (r: i32)
        ensures
            r == cp_of(self),
    {
        match self {
            UciScore::Cp(cp) => cp,
            UciScore::Mate(n) => if n > FARTHEST_MATE {
                30_000 - FARTHEST_MATE * 100
            } else if n > 0 {
                30_000 - n * 100
            } else if n < -FARTHEST_MATE {
                -30_000 + FARTHEST_MATE * 100
            } else {
                -30_000 - n * 100
            },
        }
    }

    pub fn is_mate(self) -> (r: bool)
        ensures
            r == (self is Mate),
    {
        match self {
            UciScore::Cp(_) => false,
            UciScore::Mate(_) => true,
        }
    }
}

/// Nearer mates lie further out: giving mate later is never better and being mated
/// later never worse, and up to the farthest mate every move counts.
pub proof fn law_nearer_mates_lie_further_out(near: i32, far: i32)
    requires
        0 < near < far || far < near <= 0,
    ensures
        0 < near ==> cp_of(UciScore::Mate(near)) >= cp_of(UciScore::Mate(far)),
        0 < near < FARTHEST_MATE ==> cp_of(UciScore::Mate(near)) > cp_of(UciScore::Mate(far)),
        near <= 0 ==> cp_of(UciScore::Mate(near)) <= cp_of(UciScore::Mate(far)),
        -FARTHEST_MATE < near <= 0 ==> cp_of(UciScore::Mate(near)) < cp_of(UciScore::Mate(far)),
{
}

/// Every mate lies outside the centipawn range, on its own side, however far away.
pub proof fn law_mates_lie_outside_the_centipawn_range(n: i32, cp: i32)
    requires
        -CENTIPAWN_RANGE <= cp <= CENTIPAWN_RANGE,
    ensures
        n > 0 ==> cp_of(UciScore::Mate(n)) > cp_of(UciScore::Cp(cp)),
        n <= 0 ==> cp_of(UciScore::Mate(n)) < cp_of(UciScore::Cp(cp)),
{
}

/// One MultiPV line.
#[derive(Debug)]
pub struct Line {
    pub mv: Move,
    pub score: UciScore,
    pub pv: Vec<Move>,
}

/// What a line says.
pub struct LineView {
    pub mv: Move,
    pub score: UciScore,
    pub pv: Seq<Move>,
}

impl View for Line {
    type V = LineView;

    open spec fn view(&self) -> LineView {
        LineView { mv: self.mv, score: self.score, pv: self.pv@ }
    }
}

impl Line {
    /// An independent copy.
    pub fn duplicate(&self) -> (r: Line)
        ensures
            r@ == self@,
    {
        let mut pv: Vec<Move> = Vec::new();
        let mut i: usize = 0;
        while i < self.pv.len()
            invariant
                i <= self.pv@.len(),
                pv@ == self.pv@.take(i as int),
            decreases self.pv@.len() - i,
        {
            pv.push(self.pv[i]);
            i = i + 1;
            assert(pv@ =~= self.pv@.take(i as int));
        }
        assert(pv@ =~= self.pv@);
        Line { mv: self.mv, score: self.score, pv }
    }
}

/// The result of one analysis.
#[derive(Debug)]
pub struct Analysis {
    /// Best first. Only the top moves appear; everything else the engine judged
    /// worse and did not report.
    pub lines: Vec<Line>,
    pub depth: u32,
    pub nodes: u64,
    pub elapsed: Duration,
}

impl Analysis {
    /// The best line, if there is one.
    pub fn best(&self) -> (r: Option<&Line>)
        ensures
            match r {
                Some(line) => self.lines@.len() > 0 && *line == self.lines@[0],
                None => self.lines@.len() == 0,
            },
    {
        if self.lines.len() > 0 {
            Some(&self.lines[0])
        } else {
            None
        }
    }
}

/// The whole milliseconds of a span of time.
pub uninterp spec fn millis_of(span: Duration) -> u128;

/// `Duration::as_millis`, the number of whole milliseconds in a span.
#[verifier::external_body]
fn whole_millis(span: &Duration) -> (r: u128)
    ensures
        r == millis_of(*span),
{
    span.as_millis()
}

/// How long the engine should think.
#[derive(Clone, Copy, Debug)]
pub enum Limit {
    Depth(u32),
    /// Reproducible across machines in a way time is not, which is what data
    /// generation wants.
    Nodes(u64),
    MoveTime(Duration),
}

/// A search command with the number of its limit.
pub open spec fn go_text(what: Seq<char>, n: nat) -> Seq<char> {
    "go "@ + what + " "@ + decimal(n)
}

/// The command that starts a search under a limit of this kind.
pub fn go_command(what: &str, n: u128) -> (r: String)
    ensures
        r@ == go_text(what@, n as nat),
{
    let mut out = "go ".to_owned();
    push_text(&mut out, what);
    push_text(&mut out, " ");
    push_wide(&mut out, n);
    out
}

impl Limit {
    pub open spec fn command(self) -> Seq<char> {
        match self {
            Limit::Depth(d) => go_text("depth"@, d as nat),
            Limit::Nodes(n) => go_text("nodes"@, n as nat),
            Limit::MoveTime(t) => go_text("movetime"@, millis_of(t) as nat),
        }
    }

    /// The command that starts a search under this limit.
    pub fn to_go(self) -> (r: String)
        ensures
            r@ == self.command(),
    {
        match self {
            Limit::Depth(d) => go_command("depth", d as u128),
            Limit::Nodes(n) => go_command("nodes", n as u128),
            Limit::MoveTime(t) => go_command("movetime", whole_millis(&t)),
        }
    }
}

/// What the words of an `info` line before the principal variation say.
pub struct Fields {
    pub depth: Option<nat>,
    pub multipv: nat,
    pub score: Option<UciScore>,
    pub nodes: nat,
    pub pv_start: Option<int>,
}

/// The word at a place, read as an unsigned number.
pub open spec fn number_at(words: Seq<Seq<char>>, i: int, max: nat) -> Option<nat> {
    if i < words.len() {
        unsigned_number(words[i], max)
    } else {
        None
    }
}

pub open spec fn number_or(n: Option<nat>, otherwise: nat) -> nat {
    match n {
        Some(n) => n,
        None => otherwise,
    }
}

/// The score that the two words after `score` give.
pub open spec fn score_at(words: Seq<Seq<char>>, i: int) -> Option<UciScore> {
    let value = if i + 2 < words.len() {
        signed_number(words[i + 2])
    } else {
        None
    };
    match value {
        Some(v) => if words[i + 1] == "cp"@ {
            Some(UciScore::Cp(v as i32))
        } else if words[i + 1] == "mate"@ {
            Some(UciScore::Mate(v as i32))
        } else {
            None
        },
        None => None,
    }
}

/// Read the words from place `i` on, up to the principal variation.
pub open spec fn fields_from(words: Seq<Seq<char>>, i: int, f: Fields) -> Fields
    decreases (if i < words.len() { words.len() - i } else { 0 }),
{
    if i < 0 || i >= words.len() {
        f
    } else if words[i] == "depth"@ {
        fields_from(words, i + 2, Fields { depth: number_at(words, i + 1, 0xffff_ffff), ..f })
    } else if words[i] == "multipv"@ {
        fields_from(
            words,
            i + 2,
            Fields { multipv: number_or(number_at(words, i + 1, usize::MAX as nat), 1), ..f },
        )
    } else if words[i] == "nodes"@ {
        fields_from(
            words,
            i + 2,
            Fields { nodes: number_or(number_at(words, i + 1, u64::MAX as nat), 0), ..f },
        )
    } else if words[i] == "score"@ {
        fields_from(words, i + 3, Fields { score: score_at(words, i), ..f })
    } else if words[i] == "pv"@ {
        Fields { pv_start: Some(i + 1), ..f }
    } else {
        fields_from(words, i + 1, f)
    }
}

/// What an `info` line says before its principal variation.
pub open spec fn fields_of(words: Seq<Seq<char>>) -> Fields {
    fields_from(words, 0, Fields { depth: None, multipv: 1, score: None, nodes: 0, pv_start: None })
}

/// The moves that the words from place `i` on denote, each in the position after
/// the moves before it, up to the first word that denotes no legal move.
pub open spec fn replayed(fen: Seq<char>, words: Seq<Seq<char>>, i: int) -> Seq<Move>
    decreases words.len() - i,
{
    if i < 0 || i >= words.len() {
        Seq::empty()
    } else {
        match legal_uci(fen, words[i]) {
            Some(m) => seq![m] + replayed(fen_play(fen, m), words, i + 1),
            None => Seq::empty(),
        }
    }
}

/// A bounded score is a search artefact mid-window, not a real evaluation.
pub open spec fn is_bounded(words: Seq<Seq<char>>) -> bool {
    words.contains("lowerbound"@) || words.contains("upperbound"@)
}

/// What an `info` line is worth.
pub enum InfoView {
    /// No score, no principal variation, or a bounded score.
    Nothing,
    /// The principal variation does not start with a legal move.
    Illegal,
    /// A line at a depth, its place among the lines, and the nodes so far.
    Found { depth: nat, index: nat, line: LineView, nodes: nat },
}

pub open spec fn info_of(fen: Seq<char>, words: Seq<Seq<char>>) -> InfoView {
    let f = fields_of(words);
    if f.depth is None || f.score is None || f.pv_start is None || words.len() <= f.pv_start->0 || is_bounded(words) {
        InfoView::Nothing
    } else {
        let pv = replayed(fen, words, f.pv_start->0);
        if pv.len() == 0 {
            InfoView::Illegal
        } else {
            InfoView::Found {
                depth: f.depth->0,
                index: f.multipv,
                line: LineView { mv: pv[0], score: f.score->0, pv },
                nodes: f.nodes,
            }
        }
    }
}

/// A line with a bounded score is never taken for an evaluation.
pub proof fn law_bounded_scores_are_ignored(fen: Seq<char>, words: Seq<Seq<char>>)
    requires
        is_bounded(words),
    ensures
        info_of(fen, words) is Nothing,
{
}

fn read_number(words: &Vec<Vec<char>>, i: usize, max: u64) -> (r: Option<u64>)
    ensures
        number_at(views(words@), i as int, max as nat) == (match r {
            Some(n) => Some(n as nat),
            None => None,
        }),
{
    if i < words.len() {
        read_unsigned(&words[i], max)
    } else {
        None
    }
}

fn read_score(words: &Vec<Vec<char>>, i: usize) -> (r: Option<UciScore>)
    requires
        i < words.len(),
    ensures
        r == score_at(views(words@), i as int),
{
    if words.len() - i <= 2 {
        return None;
    }
    match read_signed(&words[i + 2]) {
        Some(v) => if word_is(&words[i + 1], "cp") {
            Some(UciScore::Cp(v))
        } else if word_is(&words[i + 1], "mate") {
            Some(UciScore::Mate(v))
        } else {
            // "score cp 12 lowerbound" is a partial result, not a verdict
            None
        },
        None => None,
    }
}

/// Does a word occur among some words?
fn has_word(words: &Vec<Vec<char>>, word: &str) -> (r: bool)
    ensures
        r == views(words@).contains(word@),
{
    let mut i: usize = 0;
    while i < words.len()
        invariant
            i <= words.len(),
            forall|j: int| 0 <= j < i ==> views(words@)[j] != word@,
        decreases words.len() - i,
    {
        if word_is(&words[i], word) {
            assert(views(words@)[i as int] == word@);
            return true;
        }
        i = i + 1;
    }
    false
}

/// Play the words from place `i` on as moves.
fn replay(pos: &Position, words: &Vec<Vec<char>>, start: usize) -> (r: Vec<Move>)
    requires
        start <= words.len(),
    ensures
        r@ == replayed(pos@, views(words@), start as int),
        legal_line(pos@, r@),
{
    let ghost tokens = views(words@);
    let ghost goal = replayed(pos@, tokens, start as int);
    let mut pv: Vec<Move> = Vec::new();
    let mut current = pos.duplicate();
    let mut i: usize = start;
    assert(pv@ + goal =~= goal);
    while i < words.len()
        invariant
            start <= i <= words.len(),
            tokens == views(words@),
            goal == replayed(pos@, tokens, start as int),
            goal == pv@ + replayed(current@, tokens, i as int),
            legal_line(pos@, pv@),
            current@ == line_end(pos@, pv@),
        decreases words.len() - i,
    {
        assert(tokens[i as int] == words@[i as int]@);
        match current.uci_move(text_of(&words[i]).as_str()) {
            None => {
                assert(replayed(current@, tokens, i as int) =~= Seq::empty());
                assert(pv@ =~= goal);
                return pv;
            },
            Some(m) => {
                let ghost shorter = pv@;
                let ghost rest = replayed(fen_play(current@, m), tokens, i + 1);
                proof {
                    lemma_line_grows(pos@, pv@, m);
                }
                pv.push(m);
                current = current.play_move(m);
                assert(shorter + (seq![m] + rest) =~= pv@ + rest);
            },
        }
        i = i + 1;
    }
    assert(pv@ =~= goal);
    pv
}

/// What went wrong with an `info` line whose principal variation is no use.
pub open spec fn illegal_text(line: Seq<char>) -> Seq<char> {
    "principal variation did not start with a legal move: "@ + trimmed(line)
}

/// Parse one `info` line: the depth, the line's place, the line itself and the
/// nodes so far. Returns `None` for lines without a score or principal variation,
/// which engines emit constantly (`info currmove`, `info string`, and so on).
pub fn parse_info(line: &str, pos: &Position) -> (r: Result<Option<(u32, usize, Line, u64)>, TeacherError>)
    ensures
        match info_of(pos@, words_of(line@)) {
            InfoView::Nothing => r matches Ok(None),
            InfoView::Illegal => r matches Err(TeacherError::Protocol(m)) && m@ == illegal_text(line@),
            InfoView::Found { depth, index, line, nodes } => r matches Ok(Some(found)) && found.0 == depth && found.1
                == index && found.2@ == line && found.3 == nodes && playable(pos@, line),
        },
{
    let text = chars_of(line);
    let words = split_words(&text);
    let ghost tokens = views(words@);
    let mut depth: Option<u32> = None;
    let mut multipv: usize = 1;
    let mut score: Option<UciScore> = None;
    let mut nodes: u64 = 0;
    let mut pv_start: Option<usize> = None;
    let ghost goal = fields_of(tokens);
    let mut i: usize = 0;
    let mut done = false;
    while i < words.len() && !done
        invariant
            tokens == views(words@),
            pv_start is Some ==> done && pv_start->0 <= words.len(),
            goal == ({
                let f = Fields {
                    depth: match depth {
                        Some(d) => Some(d as nat),
                        None => None,
                    },
                    multipv: multipv as nat,
                    score,
                    nodes: nodes as nat,
                    pv_start: match pv_start {
                        Some(s) => Some(s as int),
                        None => None,
                    },
                };
                if done {
                    f
                } else {
                    fields_from(tokens, i as int, f)
                }
            }),
        decreases words.len() - i + (if done {
            0int
        } else {
            1
        }),
    {
        proof {
            reveal_with_fuel(fields_from, 2);
            assert(tokens[i as int] == words@[i as int]@);
        }
        let step: usize;
        if word_is(&words[i], "depth") {
            depth = match read_number(&words, i + 1, 0xffff_ffff) {
                Some(n) => Some(n as u32),
                None => None,
            };
            step = 2;
        } else if word_is(&words[i], "multipv") {
            multipv = match read_number(&words, i + 1, usize::MAX as u64) {
                Some(n) => n as usize,
                None => 1,
            };
            step = 2;
        } else if word_is(&words[i], "nodes") {
            nodes = match read_number(&words, i + 1, u64::MAX) {
                Some(n) => n,
                None => 0,
            };
            step = 2;
        } else if word_is(&words[i], "score") {
            score = read_score(&words, i);
            step = 3;
        } else if word_is(&words[i], "pv") {
            pv_start = Some(i + 1);
            done = true;
            step = 1;
        } else {
            step = 1;
        }
        if words.len() - i <= step {
            i = words.len();
        } else {
            i = i + step;
        }
    }
    let (depth, score, start) = match (depth, score, pv_start) {
        (Some(depth), Some(score), Some(start)) => (depth, score, start),
        _ => return Ok(None),
    };
    if words.len() <= start {
        return Ok(None);
    }
    if has_word(&words, "lowerbound") || has_word(&words, "upperbound") {
        return Ok(None);
    }
    let pv = replay(pos, &words, start);
    if pv.len() == 0 {
        let mut message = "principal variation did not start with a legal move: ".to_owned();
        push_chars(&mut message, &trim_chars(&text));
        return Err(TeacherError::Protocol(message));
    }
    let mv = pv[0];
    Ok(Some((depth, multipv, Line { mv, score, pv }, nodes)))
}

/// One iteration of deepening: its depth, and its lines by their place.
pub type Iteration = (u32, Vec<Option<Line>>);

pub type IterationView = (u32, Seq<Option<LineView>>);

pub open spec fn slot_view(slot: Option<Line>) -> Option<LineView> {
    match slot {
        Some(line) => Some(line@),
        None => None,
    }
}

pub open spec fn slots_view(slots: Seq<Option<Line>>) -> Seq<Option<LineView>> {
    slots.map_values(|slot: Option<Line>| slot_view(slot))
}

pub open spec fn iterations_view(its: Seq<Iteration>) -> Seq<IterationView> {
    its.map_values(|it: Iteration| (it.0, slots_view(it.1@)))
}

/// What has been gathered of an analysis.
pub struct CollectorView {
    pub multipv: nat,
    pub iterations: Seq<IterationView>,
    pub nodes: u64,
    pub error: Option<Seq<char>>,
}

/// The line can be played from the position, and scores its first move.
pub open spec fn playable(fen: Seq<char>, line: LineView) -> bool {
    line.pv.len() > 0 && line.mv == line.pv[0] && legal_line(fen, line.pv)
}

/// Whatever was reported at a place can be played from the position.
pub open spec fn slots_playable(fen: Seq<char>, slots: Seq<Option<LineView>>) -> bool {
    forall|j: int| 0 <= j < slots.len() && (#[trigger] slots[j]) is Some ==> playable(fen, slots[j]->0)
}

impl CollectorView {
    /// Every line gathered so far can be played from the position.
    pub open spec fn plays_from(self, fen: Seq<char>) -> bool {
        forall|k: int| 0 <= k < self.iterations.len() ==> slots_playable(fen, (#[trigger] self.iterations[k]).1)
    }
}

/// The place of the iteration at a depth, from the `i`-th on; the number of
/// iterations if there is none.
pub open spec fn iteration_at(its: Seq<IterationView>, depth: u32, i: int) -> int
    decreases its.len() - i,
{
    if i < 0 || i >= its.len() || its[i].0 == depth {
        i
    } else {
        iteration_at(its, depth, i + 1)
    }
}

/// Empty places up to a length.
pub open spec fn padded(slots: Seq<Option<LineView>>, n: nat) -> Seq<Option<LineView>> {
    if slots.len() < n {
        slots + Seq::new((n - slots.len()) as nat, |i: int| None)
    } else {
        slots
    }
}

/// The iterations after a line was reported: it takes its place in the iteration
/// of its depth.
pub open spec fn with_line(its: Seq<IterationView>, multipv: nat, depth: u32, index: nat, line: LineView) -> Seq<
    IterationView,
> {
    let at = iteration_at(its, depth, 0);
    if at < its.len() {
        its.update(at, (depth, padded(its[at].1, index).update(index - 1, Some(line))))
    } else {
        let slots = padded(padded(Seq::empty(), multipv), index);
        its.push((depth, slots.update(index - 1, Some(line))))
    }
}

/// The lines of an iteration that were reported, in their order.
pub open spec fn reported(slots: Seq<Option<LineView>>) -> Seq<LineView>
    decreases slots.len(),
{
    if slots.len() == 0 {
        Seq::empty()
    } else {
        let front = reported(slots.drop_last());
        match slots.last() {
            Some(line) => front.push(line),
            None => front,
        }
    }
}

/// The lines of a usable iteration start with its best line.
pub proof fn law_best_line_comes_first(slots: Seq<Option<LineView>>)
    requires
        slots.len() > 0,
        slots[0] is Some,
    ensures
        reported(slots).len() > 0,
        reported(slots)[0] == slots[0]->0,
    decreases slots.len(),
{
    if slots.len() == 1 {
        assert(slots.drop_last() =~= Seq::empty());
        assert(reported(slots.drop_last()) =~= Seq::empty());
    } else {
        law_best_line_comes_first(slots.drop_last());
    }
}

/// The reported lines of an iteration can be played if what stands at its places can.
proof fn lemma_reported_playable(fen: Seq<char>, slots: Seq<Option<LineView>>)
    requires
        slots_playable(fen, slots),
    ensures
        forall|i: int| 0 <= i < reported(slots).len() ==> playable(fen, #[trigger] reported(slots)[i]),
    decreases slots.len(),
{
    if slots.len() > 0 {
        assert forall|j: int| 0 <= j < slots.drop_last().len() && (#[trigger] slots.drop_last()[j]) is Some implies
            playable(fen, slots.drop_last()[j]->0) by {
            assert(slots[j] is Some);
        }
        let front = reported(slots.drop_last());
        lemma_reported_playable(fen, slots.drop_last());
        assert forall|i: int| 0 <= i < reported(slots).len() implies playable(
            fen,
            #[trigger] reported(slots)[i],
        ) by {
            if i < front.len() {
                assert(reported(slots)[i] == front[i]);
            } else {
                assert(slots[slots.len() - 1] is Some);
            }
        }
    }
}

proof fn lemma_iteration_at(its: Seq<IterationView>, depth: u32, i: int)
    requires
        0 <= i <= its.len(),
    ensures
        i <= iteration_at(its, depth, i) <= its.len(),
    decreases its.len() - i,
{
    if i < its.len() && its[i].0 != depth {
        lemma_iteration_at(its, depth, i + 1);
    }
}

/// A playable line added to playable ones leaves playable ones.
proof fn lemma_with_line_playable(
    fen: Seq<char>,
    c: CollectorView,
    depth: u32,
    index: nat,
    line: LineView,
    nodes: u64,
)
    requires
        c.plays_from(fen),
        playable(fen, line),
        index >= 1,
    ensures
        with_info(c, depth, index, line, nodes).plays_from(fen),
{
    let its = c.iterations;
    let at = iteration_at(its, depth, 0);
    lemma_iteration_at(its, depth, 0);
    let after = with_line(its, c.multipv, depth, index, line);
    assert forall|k: int| 0 <= k < after.len() implies slots_playable(fen, (#[trigger] after[k]).1) by {
        let (old_slots, slots) = (if k < its.len() { its[k].1 } else { Seq::empty() }, after[k].1);
        assert(k < its.len() ==> slots_playable(fen, its[k].1));
        assert forall|j: int| 0 <= j < slots.len() && (#[trigger] slots[j]) is Some implies playable(
            fen,
            slots[j]->0,
        ) by {
            if j < old_slots.len() {
                assert(old_slots[j] == slots[j] || slots[j] == Some(line));
            } else {
                assert(slots[j] == Some(line));
            }
        }
    }
}

/// The iteration has its best line.
pub open spec fn usable(it: IterationView) -> bool {
    it.1.len() > 0 && it.1[0] is Some
}

/// How much of an iteration was reported: the number of its lines, as far as they
/// were asked for.
pub open spec fn extent(it: IterationView, multipv: nat) -> nat {
    if reported(it.1).len() < multipv {
        reported(it.1).len()
    } else {
        multipv
    }
}

/// An iteration supersedes another if more of it was reported, or as much and it is
/// not shallower: one that was cut off part way is not preferred to a complete one.
pub open spec fn supersedes(a: IterationView, b: IterationView, multipv: nat) -> bool {
    extent(a, multipv) > extent(b, multipv) || (extent(a, multipv) == extent(b, multipv) && a.0 >= b.0)
}

/// The place of the iteration to report among the first `n`.
pub open spec fn chosen(its: Seq<IterationView>, multipv: nat, n: int) -> Option<int>
    decreases n,
{
    if n <= 0 {
        None
    } else {
        let rest = chosen(its, multipv, n - 1);
        if usable(its[n - 1]) && (rest is None || supersedes(its[n - 1], its[rest->0], multipv)) {
            Some(n - 1)
        } else {
            rest
        }
    }
}

/// The reported iteration has its best line, and of every usable iteration less was
/// reported, or as much and it is not deeper: it is the deepest of the most complete.
pub proof fn law_the_deepest_complete_iteration_is_reported(its: Seq<IterationView>, multipv: nat, n: int)
    requires
        0 <= n <= its.len(),
    ensures
        chosen(its, multipv, n) is None <==> forall|i: int| 0 <= i < n ==> !usable(#[trigger] its[i]),
        chosen(its, multipv, n) is Some ==> 0 <= chosen(its, multipv, n)->0 < n && usable(
            its[chosen(its, multipv, n)->0],
        ) && forall|i: int|
            0 <= i < n && usable(#[trigger] its[i]) ==> supersedes(its[chosen(its, multipv, n)->0], its[i], multipv),
    decreases n,
{
    if n > 0 {
        law_the_deepest_complete_iteration_is_reported(its, multipv, n - 1);
    }
}

/// Gathers what an engine reports of one position.
#[derive(Debug)]
pub struct Collector {
    multipv: usize,
    iterations: Vec<Iteration>,
    nodes: u64,
    error: Option<String>,
}

impl View for Collector {
    type V = CollectorView;

    closed spec fn view(&self) -> CollectorView {
        CollectorView {
            multipv: self.multipv as nat,
            iterations: iterations_view(self.iterations@),
            nodes: self.nodes,
            error: match self.error {
                Some(e) => Some(e@),
                None => None,
            },
        }
    }
}

/// What to do after a line of engine output.
#[derive(Clone, Copy, PartialEq, Eq, Structural, Debug)]
pub enum Step {
    /// Read on.
    More,
    /// The engine has answered.
    Done,
    /// The engine numbered a line zero, and the line was left out.
    BadIndex,
}

pub open spec fn starts_with(text: Seq<char>, prefix: Seq<char>) -> bool {
    text.len() >= prefix.len() && text.take(prefix.len() as int) == prefix
}

/// Does a text start with another?
pub fn has_prefix(text: &Vec<char>, prefix: &str) -> (r: bool)
    ensures
        r == starts_with(text@, prefix@),
{
    let start = chars_of(prefix);
    if text.len() < start.len() {
        return false;
    }
    word_is(&slice_chars(text, 0, start.len()), prefix)
}

/// What a line of engine output does to what was gathered, and what to do next.
pub open spec fn fed(c: CollectorView, fen: Seq<char>, text: Seq<char>) -> (CollectorView, Step) {
    if starts_with(text, "bestmove"@) {
        (c, Step::Done)
    } else if !starts_with(text, "info "@) {
        (c, Step::More)
    } else {
        match info_of(fen, words_of(text)) {
            InfoView::Nothing => (c, Step::More),
            InfoView::Illegal => (CollectorView { error: Some(illegal_text(text)), ..c }, Step::More),
            InfoView::Found { depth, index, line, nodes } => if index == 0 {
                (c, Step::BadIndex)
            } else {
                (with_info(c, depth as u32, index, line, nodes as u64), Step::More)
            },
        }
    }
}

/// What was gathered after a line was reported; a node count of zero is none.
pub open spec fn with_info(c: CollectorView, depth: u32, index: nat, line: LineView, nodes: u64) -> CollectorView {
    CollectorView {
        iterations: with_line(c.iterations, c.multipv, depth, index, line),
        nodes: if nodes > 0 {
            nodes
        } else {
            c.nodes
        },
        ..c
    }
}

impl Collector {
    /// Nothing gathered yet, with so many lines to an iteration.
    pub fn new(multipv: usize) -> (r: Collector)
        ensures
            r@ == (CollectorView {
                multipv: multipv as nat,
                iterations: Seq::empty(),
                nodes: 0,
                error: None,
            }),
            forall|fen: Seq<char>| #[trigger] r@.plays_from(fen),
    {
        let iterations: Vec<Iteration> = Vec::new();
        assert(iterations_view(iterations@) =~= Seq::empty());
        Collector { multipv, iterations, nodes: 0, error: None }
    }

    /// Take in one reported line.
    pub fn record(&mut self, depth: u32, index: usize, line: Line, nodes: u64)
        requires
            index >= 1,
        ensures
            final(self)@ == with_info(old(self)@, depth, index as nat, line@, nodes),
            forall|fen: Seq<char>|
                old(self)@.plays_from(fen) && playable(fen, line@) ==> #[trigger] final(self)@.plays_from(fen),
    {
        let ghost before = self@;
        let ghost reported_line = line@;
        if nodes > 0 {
            self.nodes = nodes;
        }
        let mut at: usize = 0;
        while at < self.iterations.len() && self.iterations[at].0 != depth
            invariant
                at <= self.iterations@.len(),
                iteration_at(iterations_view(self.iterations@), depth, at as int) == iteration_at(
                    iterations_view(self.iterations@),
                    depth,
                    0,
                ),
            decreases self.iterations@.len() - at,
        {
            assert(iterations_view(self.iterations@)[at as int].0 == self.iterations@[at as int].0);
            at = at + 1;
        }
        let ghost its = self.iterations@;
        if at < self.iterations.len() {
            assert(iterations_view(its)[at as int].0 == depth);
            let slots = &mut self.iterations[at].1;
            pad(slots, index);
            slots.set(index - 1, Some(line));
            assert(slots_view(slots@) =~= padded(slots_view(its[at as int].1@), index as nat).update(
                index - 1,
                Some(reported_line),
            ));
        } else {
            let mut slots: Vec<Option<Line>> = Vec::new();
            assert(slots_view(slots@) =~= Seq::empty());
            pad(&mut slots, self.multipv);
            pad(&mut slots, index);
            let ghost room = slots_view(slots@);
            slots.set(index - 1, Some(line));
            assert(slots_view(slots@) =~= room.update(index - 1, Some(reported_line)));
            self.iterations.push((depth, slots));
        }
        assert(iterations_view(self.iterations@) =~= with_line(
            iterations_view(its),
            self.multipv as nat,
            depth,
            index as nat,
            reported_line,
        ));
        assert forall|fen: Seq<char>| before.plays_from(fen) && playable(fen, reported_line) implies
            #[trigger] self@.plays_from(fen) by {
            lemma_with_line_playable(fen, before, depth, index as nat, reported_line, nodes);
        }
    }

    /// Take in one line of engine output for this position.
    pub fn feed(&mut self, text: &str, pos: &Position) -> (r: Step)
        ensures
            (final(self)@, r) == fed(old(self)@, pos@, text@),
            old(self)@.plays_from(pos@) ==> final(self)@.plays_from(pos@),
    {
        let chars = chars_of(text);
        if has_prefix(&chars, "bestmove") {
            return Step::Done;
        }
        if !has_prefix(&chars, "info ") {
            return Step::More;
        }
        match parse_info(text, pos) {
            Ok(None) => Step::More,
            Ok(Some((depth, index, line, nodes))) => {
                if index == 0 {
                    Step::BadIndex
                } else {
                    self.record(depth, index, line, nodes);
                    Step::More
                }
            },
            Err(error) => {
                if let TeacherError::Protocol(message) = error {
                    self.error = Some(message);
                }
                Step::More
            },
        }
    }

    /// The analysis that was gathered: the lines of the deepest complete iteration or,
    /// where none is complete, of the deepest of those that got furthest. An iteration
    /// can be interrupted mid-way, and shallower ones are superseded. If all that was gathered can be played from a position,
    /// so can the lines of the analysis.
    pub fn finish(&self, elapsed: Duration) -> (r: Result<Analysis, TeacherError>)
        ensures
            match self@.error {
                Some(e) => r matches Err(TeacherError::Protocol(m)) && m@ == e,
                None => match chosen(self@.iterations, self@.multipv, self@.iterations.len() as int) {
                    None => r matches Err(TeacherError::Protocol(m)) && m@ == "no usable info lines"@,
                    Some(k) => r matches Ok(a) && a.lines@.map_values(|l: Line| l@) == reported(
                        self@.iterations[k].1,
                    ) && a.depth == self@.iterations[k].0 && a.nodes == self@.nodes && a.elapsed == elapsed,
                },
            },
            forall|fen: Seq<char>| #[trigger] self@.plays_from(fen) && r is Ok ==> forall|i: int|
                0 <= i < r->Ok_0.lines@.len() ==> playable(fen, (#[trigger] r->Ok_0.lines@[i])@),
    {
        if let Some(e) = &self.error {
            return Err(TeacherError::Protocol(e.clone()));
        }
        let ghost its = self@.iterations;
        let mut best: Option<usize> = None;
        let mut best_lines: usize = 0;
        let mut i: usize = 0;
        while i < self.iterations.len()
            invariant
                i <= self.iterations@.len(),
                its == iterations_view(self.iterations@),
                chosen(its, self.multipv as nat, i as int) == (match best {
                    Some(k) => Some(k as int),
                    None => None,
                }),
                best is Some ==> best->0 < i && best_lines == extent(its[best->0 as int], self.multipv as nat),
            decreases self.iterations@.len() - i,
        {
            let ghost it = its[i as int];
            assert(it == (self.iterations@[i as int].0, slots_view(self.iterations@[i as int].1@)));
            let slots = &self.iterations[i].1;
            let has_best = slots.len() > 0 && slots[0].is_some();
            assert(has_best == usable(it));
            if has_best {
                let count: usize = count_lines(slots);
                let lines: usize = if count < self.multipv {
                    count
                } else {
                    self.multipv
                };
                let better = match best {
                    None => true,
                    Some(k) => {
                        assert(its[k as int].0 == self.iterations@[k as int].0);
                        lines > best_lines || (lines == best_lines && self.iterations[i].0 >= self.iterations[k].0)
                    },
                };
                if better {
                    best = Some(i);
                    best_lines = lines;
                }
            }
            i = i + 1;
        }
        match best {
            None => Err(TeacherError::Protocol("no usable info lines".to_owned())),
            Some(k) => {
                let lines = copy_lines(&self.iterations[k].1);
                proof {
                    let views = lines@.map_values(|l: Line| l@);
                    assert forall|fen: Seq<char>| #[trigger] self@.plays_from(fen) implies forall|i: int|
                        0 <= i < lines@.len() ==> playable(fen, (#[trigger] lines@[i])@) by {
                        assert(slots_playable(fen, its[k as int].1));
                        lemma_reported_playable(fen, its[k as int].1);
                        assert forall|i: int| 0 <= i < lines@.len() implies playable(fen, (#[trigger] lines@[i])@) by {
                            assert(views[i] == lines@[i]@);
                        }
                    }
                }
                Ok(Analysis { lines, depth: self.iterations[k].0, nodes: self.nodes, elapsed })
            },
        }
    }
}

fn pad(slots: &mut Vec<Option<Line>>, n: usize)
    ensures
        slots_view(final(slots)@) == padded(slots_view(old(slots)@), n as nat),
        final(slots)@.len() >= n,
{
    while slots.len() < n
        invariant
            old(slots)@.len() <= slots@.len(),
            slots@.len() <= n || slots@.len() == old(slots)@.len(),
            slots_view(slots@) == padded(slots_view(old(slots)@), slots@.len()),
        decreases n - slots@.len(),
    {
        let ghost before = slots@;
        slots.push(None);
        assert(slots_view(slots@) =~= slots_view(before).push(None));
        assert(slots_view(slots@) =~= padded(slots_view(old(slots)@), slots@.len()));
    }
}

/// How many lines an iteration has.
fn count_lines(slots: &Vec<Option<Line>>) -> (r: usize)
    ensures
        r == reported(slots_view(slots@)).len(),
{
    let mut n: usize = 0;
    let mut i: usize = 0;
    assert(slots_view(slots@).take(0) =~= Seq::empty());
    while i < slots.len()
        invariant
            i <= slots@.len(),
            n <= i,
            n == reported(slots_view(slots@).take(i as int)).len(),
        decreases slots@.len() - i,
    {
        assert(slots_view(slots@).take(i + 1).drop_last() =~= slots_view(slots@).take(i as int));
        if slots[i].is_some() {
            n = n + 1;
        }
        i = i + 1;
    }
    assert(slots_view(slots@).take(i as int) =~= slots_view(slots@));
    n
}

fn copy_lines(slots: &Vec<Option<Line>>) -> (r: Vec<Line>)
    ensures
        r@.map_values(|l: Line| l@) == reported(slots_view(slots@)),
{
    let mut out: Vec<Line> = Vec::new();
    let mut i: usize = 0;
    assert(slots_view(slots@).take(0) =~= Seq::empty());
    assert(out@.map_values(|l: Line| l@) =~= Seq::empty());
    while i < slots.len()
        invariant
            i <= slots@.len(),
            out@.map_values(|l: Line| l@) == reported(slots_view(slots@).take(i as int)),
        decreases slots@.len() - i,
    {
        assert(slots_view(slots@).take(i + 1).drop_last() =~= slots_view(slots@).take(i as int));
        if let Some(line) = &slots[i] {
            let ghost before = out@;
            out.push(line.duplicate());
            assert(out@.map_values(|l: Line| l@) =~= before.map_values(|l: Line| l@).push(line@));
        }
        i = i + 1;
    }
    assert(slots_view(slots@).take(i as int) =~= slots_view(slots@));
    out
}

/// The commands that ask for an analysis of a position. There is nothing to ask
/// of a position that is over.
pub fn analysis_commands(pos: &Position, limit: Limit) -> (r: Result<(String, String), TeacherError>)
    ensures
        moves_of(pos@).len() == 0 ==> r matches Err(TeacherError::NoLegalMoves),
        moves_of(pos@).len() > 0 ==> (r matches Ok(commands) && commands.0@ == "position fen "@ + legal_fen_of(pos@)
            && commands.1@ == limit.command()),
{
    if pos.legal_moves().len() == 0 {
        return Err(TeacherError::NoLegalMoves);
    }
    Ok((joined("position fen ", pos.legal_fen().as_str()), limit.to_go()))
}

/// The name that a line of the handshake gives the engine.
pub open spec fn name_in(line: Seq<char>) -> Option<Seq<char>> {
    if starts_with(line, "id name "@) {
        Some(trimmed(line.skip(8)))
    } else {
        None
    }
}

/// The name in a line of the handshake, if it gives one.
pub fn engine_name(line: &str) -> (r: Option<String>)
    ensures
        name_in(line@) == (match r {
            Some(name) => Some(name@),
            None => None,
        }),
{
    let chars = chars_of(line);
    proof {
        reveal_strlit("id name ");
    }
    if has_prefix(&chars, "id name ") {
        let rest = slice_chars(&chars, 8, chars.len());
        assert(rest@ =~= line@.skip(8));
        Some(text_of(&trim_chars(&rest)))
    } else {
        None
    }
}

/// Is a line of engine output, without the white space round it, this word?
pub fn is_answer(line: &str, word: &str) -> (r: bool)
    ensures
        r == (trimmed(line@) == word@),
{
    word_is(&trim_chars(&chars_of(line)), word)
}

/// The command that sets an option.
pub open spec fn option_text(name: Seq<char>, value: Seq<char>) -> Seq<char> {
    "setoption name "@ + name + " value "@ + value
}

/// The command that sets an option.
pub fn option_command(name: &str, value: &str) -> (r: String)
    ensures
        r@ == option_text(name@, value@),
{
    let mut out = "setoption name ".to_owned();
    push_text(&mut out, name);
    push_text(&mut out, " value ");
    push_text(&mut out, value);
    out
}

pub open spec fn lower(c: char) -> char {
    if 'A' <= c <= 'Z' {
        (c as int + 32) as char
    } else {
        c
    }
}

/// The option name is `multipv`, in whatever case.
pub open spec fn is_multipv(name: Seq<char>) -> bool {
    name.map_values(|c: char| lower(c)) == "multipv"@
}

/// How many lines to expect once an option has been set: the option `multipv`
/// changes it, to one if its value is no number.
pub open spec fn lines_expected(before: nat, name: Seq<char>, value: Seq<char>) -> nat {
    if is_multipv(name) {
        number_or(unsigned_number(value, usize::MAX as nat), 1)
    } else {
        before
    }
}

fn lower_char(c: char) -> (r: char)
    ensures
        r == lower(c),
{
    if 'A' <= c && c <= 'Z' {
        (c as u8 + 32) as char
    } else {
        c
    }
}

/// How many lines to expect once an option has been set.
pub fn expected_lines(before: usize, name: &str, value: &str) -> (r: usize)
    ensures
        r == lines_expected(before as nat, name@, value@),
{
    let chars = chars_of(name);
    let mut low: Vec<char> = Vec::new();
    let mut i: usize = 0;
    while i < chars.len()
        invariant
            i <= chars.len(),
            low@ == chars@.map_values(|c: char| lower(c)).take(i as int),
        decreases chars.len() - i,
    {
        low.push(lower_char(chars[i]));
        i = i + 1;
        assert(low@ =~= chars@.map_values(|c: char| lower(c)).take(i as int));
    }
    assert(low@ =~= chars@.map_values(|c: char| lower(c)));
    if word_is(&low, "multipv") {
        match read_unsigned(&chars_of(value), usize::MAX as u64) {
            Some(n) => n as usize,
            None => 1,
        }
    } else {
        before
    }
}

/// The options for reproducible labelling, in the order in which they are set.
///
/// One thread: multi-threaded search is non-deterministic, so the same position
/// would not always get the same label.
pub fn datagen_options(multipv: usize, hash_mb: usize) -> (r: Vec<(String, String)>)
    ensures
        r@.len() == 3,
        r@[0].0@ == "Threads"@ && r@[0].1@ == "1"@,
        r@[1].0@ == "Hash"@ && r@[1].1@ == decimal(hash_mb as nat),
        r@[2].0@ == "MultiPV"@ && r@[2].1@ == decimal(multipv as nat),
{
    let mut hash = String::new();
    push_decimal(&mut hash, hash_mb as u64);
    let mut lines = String::new();
    push_decimal(&mut lines, multipv as u64);
    assert(hash@ =~= decimal(hash_mb as nat));
    assert(lines@ =~= decimal(multipv as nat));
    let mut out: Vec<(String, String)> = Vec::new();
    out.push(("Threads".to_owned(), "1".to_owned()));
    out.push(("Hash".to_owned(), hash));
    out.push(("MultiPV".to_owned(), lines));
    out
}

} // verus!
