//! The records of data generation and the files that hold them.
//!
//! Raw engine output is what gets stored, not derived targets: scores are written
//! exactly as the engine reported them, along with the eventual game result, so
//! that any conversion can be redone at training time.
//!
//! One record is one line of text. The run is resumable, so the library also reads
//! back from a line which game it belongs to, and decides where the next record
//! goes.

use vstd::prelude::*;

use crate::chess::Role;
use crate::encoding::{move_squares, squares_of};
use crate::rules::Move;
use crate::teacher::UciScore;
use crate::text::{
    chars_of, decimal, digits_value, is_digit, law_decimal_round_trip, lemma_decimal, lemma_trimmed, push_decimal, push_signed,
    push_text, read_unsigned, signed_decimal, slice_chars, trim_chars, trimmed, unsigned_number,
};
use crate::vocab::{square_name, square_text};

verus! {

/// The letter of a promotion.
pub open spec fn promotion_letter(role: Role) -> Seq<char> {
    match role {
        Role::Pawn => "p"@,
        Role::Knight => "n"@,
        Role::Bishop => "b"@,
        Role::Rook => "r"@,
        Role::Queen => "q"@,
        Role::King => "k"@,
    }
}

/// A move in UCI notation: its two squares and the letter of its promotion.
pub open spec fn uci_of(m: Move) -> Seq<char> {
    let (from, to, promotion) = squares_of(m);
    square_name(from.0 as int) + square_name(to.0 as int) + match promotion {
        Some(role) => promotion_letter(role),
        None => Seq::empty(),
    }
}

/// A move in UCI notation.
pub fn uci_text(m: &Move) -> (r: String)
    ensures
        r@ == uci_of(*m),
{
    let (from, to, promotion) = move_squares(m);
    let mut out = square_text(from);
    push_text(&mut out, square_text(to).as_str());
    if let Some(role) = promotion {
        push_text(
            &mut out,
            match role {
                Role::Pawn => "p",
                Role::Knight => "n",
                Role::Bishop => "b",
                Role::Rook => "r",
                Role::Queen => "q",
                Role::King => "k",
            },
        );
    }
    assert(out@ =~= uci_of(*m));
    out
}

/// A text with a backslash before each backslash and each quotation mark.
pub open spec fn escaped(s: Seq<char>) -> Seq<char>
    decreases s.len(),
{
    if s.len() == 0 {
        Seq::empty()
    } else if s.last() == '\\' || s.last() == '"' {
        escaped(s.drop_last()).push('\\').push(s.last())
    } else {
        escaped(s.drop_last()).push(s.last())
    }
}

/// Append a text with a backslash before each backslash and each quotation mark.
pub fn push_escaped(out: &mut String, s: &str)
    ensures
        final(out)@ == old(out)@ + escaped(s@),
{
    let chars = chars_of(s);
    let mut i: usize = 0;
    assert(chars@.take(0) =~= Seq::empty());
    assert(out@ =~= old(out)@ + escaped(chars@.take(0)));
    while i < chars.len()
        invariant
            i <= chars.len(),
            out@ == old(out)@ + escaped(chars@.take(i as int)),
        decreases chars.len() - i,
    {
        let c = chars[i];
        assert(chars@.take(i + 1).drop_last() =~= chars@.take(i as int));
        if c == '\\' || c == '"' {
            out.push('\\');
        }
        out.push(c);
        i = i + 1;
        assert(out@ =~= old(out)@ + escaped(chars@.take(i as int)));
    }
    assert(chars@.take(chars@.len() as int) =~= chars@);
}

/// One labelled position, held until its game finishes and the result is known.
#[derive(Debug)]
pub struct Record {
    pub fen: String,
    pub game: u64,
    pub ply: usize,
    pub depth: u32,
    pub lines: Vec<(String, UciScore)>,
}

/// What a record says.
pub struct RecordView {
    pub fen: Seq<char>,
    pub game: u64,
    pub ply: usize,
    pub depth: u32,
    pub lines: Seq<(Seq<char>, UciScore)>,
}

impl View for Record {
    type V = RecordView;

    open spec fn view(&self) -> RecordView {
        RecordView {
            fen: self.fen@,
            game: self.game,
            ply: self.ply,
            depth: self.depth,
            lines: self.lines@.map_values(|l: (String, UciScore)| (l.0@, l.1)),
        }
    }
}

/// One scored move.
pub open spec fn line_text(line: (Seq<char>, UciScore)) -> Seq<char> {
    match line.1 {
        UciScore::Cp(cp) => "{\"m\":\""@ + line.0 + "\",\"cp\":"@ + signed_decimal(cp as int) + "}"@,
        UciScore::Mate(n) => "{\"m\":\""@ + line.0 + "\",\"mate\":"@ + signed_decimal(n as int) + "}"@,
    }
}

/// The scored moves, separated by commas.
pub open spec fn lines_text(lines: Seq<(Seq<char>, UciScore)>) -> Seq<char>
    decreases lines.len(),
{
    if lines.len() == 0 {
        Seq::empty()
    } else if lines.len() == 1 {
        line_text(lines[0])
    } else {
        lines_text(lines.drop_last()) + ","@ + line_text(lines.last())
    }
}

/// The text before the game's number.
pub open spec fn head_text(fen: Seq<char>) -> Seq<char> {
    "{\"fen\":\""@ + escaped(fen) + "\","@
}

/// The text after the game's number.
pub open spec fn tail_text(r: RecordView, result: Seq<char>, nodes: u64) -> Seq<char> {
    ",\"ply\":"@ + decimal(r.ply as nat) + ",\"depth\":"@ + decimal(r.depth as nat) + ",\"nodes\":"@ + decimal(
        nodes as nat,
    ) + ",\"result\":\""@ + result + "\",\"lines\":["@ + lines_text(r.lines) + "]}"@
}

/// The mark before the game's number.
pub const GAME_MARK: &'static str = "\"game\":";

/// A record as one line of text, without the line's end.
pub open spec fn record_text(r: RecordView, result: Seq<char>, nodes: u64) -> Seq<char> {
    head_text(r.fen) + GAME_MARK@ + decimal(r.game as nat) + tail_text(r, result, nodes)
}

fn push_line(out: &mut String, mv: &str, score: UciScore)
    ensures
        final(out)@ == old(out)@ + line_text((mv@, score)),
{
    push_text(out, "{\"m\":\"");
    push_text(out, mv);
    match score {
        UciScore::Cp(cp) => {
            push_text(out, "\",\"cp\":");
            push_signed(out, cp as i64);
        },
        UciScore::Mate(n) => {
            push_text(out, "\",\"mate\":");
            push_signed(out, n as i64);
        },
    }
    push_text(out, "}");
    assert(out@ =~= old(out)@ + line_text((mv@, score)));
}

impl Record {
    /// The record as one line of text, without the line's end.
    pub fn write(&self, result: &str, nodes: u64) -> (r: String)
        ensures
            r@ == record_text(self@, result@, nodes),
    {
        let mut out = "{\"fen\":\"".to_owned();
        push_escaped(&mut out, self.fen.as_str());
        push_text(&mut out, "\",");
        push_text(&mut out, GAME_MARK);
        push_decimal(&mut out, self.game);
        let ghost front = out@;
        assert(front =~= head_text(self.fen@) + GAME_MARK@ + decimal(self.game as nat));
        push_text(&mut out, ",\"ply\":");
        push_decimal(&mut out, self.ply as u64);
        push_text(&mut out, ",\"depth\":");
        push_decimal(&mut out, self.depth as u64);
        push_text(&mut out, ",\"nodes\":");
        push_decimal(&mut out, nodes);
        push_text(&mut out, ",\"result\":\"");
        push_text(&mut out, result);
        push_text(&mut out, "\",\"lines\":[");
        let ghost before = out@;
        let ghost lines = self@.lines;
        let mut i: usize = 0;
        assert(lines.take(0) =~= Seq::empty());
        assert(out@ =~= before + lines_text(lines.take(0)));
        while i < self.lines.len()
            invariant
                i <= self.lines@.len(),
                lines == self@.lines,
                out@ == before + lines_text(lines.take(i as int)),
            decreases self.lines@.len() - i,
        {
            let ghost so_far = out@;
            if i > 0 {
                push_text(&mut out, ",");
            }
            push_line(&mut out, self.lines[i].0.as_str(), self.lines[i].1);
            assert(lines[i as int] == (self.lines@[i as int].0@, self.lines@[i as int].1));
            assert(lines.take(i + 1).drop_last() =~= lines.take(i as int));
            assert(lines.take(i + 1).last() == lines[i as int]);
            i = i + 1;
            assert(out@ =~= before + lines_text(lines.take(i as int)));
        }
        assert(lines.take(i as int) =~= lines);
        push_text(&mut out, "]}");
        assert(out@ =~= record_text(self@, result@, nodes));
        out
    }
}

/// The pattern stands at a place of the text.
pub open spec fn matches_at(s: Seq<char>, pattern: Seq<char>, i: int) -> bool {
    0 <= i && i + pattern.len() <= s.len() && s.subrange(i, i + pattern.len()) == pattern
}

/// The first place from `i` on at which the pattern stands.
pub open spec fn find_from(s: Seq<char>, pattern: Seq<char>, i: int) -> Option<int>
    decreases s.len() - i,
{
    if i < 0 || i + pattern.len() > s.len() || i >= s.len() {
        None
    } else if matches_at(s, pattern, i) {
        Some(i)
    } else {
        find_from(s, pattern, i + 1)
    }
}

/// The first place from `i` on that holds a comma or a closing brace, or the end.
pub open spec fn field_end(s: Seq<char>, i: int) -> int
    decreases s.len() - i,
{
    if i < 0 || i >= s.len() || s[i] == ',' || s[i] == '}' {
        i
    } else {
        field_end(s, i + 1)
    }
}

/// The number that follows the first game mark of a line, up to the next mark,
/// comma or closing brace.
pub open spec fn game_in(line: Seq<char>) -> Option<nat> {
    match find_from(line, GAME_MARK@, 0) {
        None => None,
        Some(at) => {
            let start = at + GAME_MARK@.len();
            let part = match find_from(line, GAME_MARK@, start) {
                Some(next) => line.subrange(start, next),
                None => line.skip(start),
            };
            unsigned_number(trimmed(part.take(field_end(part, 0))), u64::MAX as nat)
        },
    }
}

fn find(s: &Vec<char>, pattern: &Vec<char>, start: usize) -> (r: Option<usize>)
    requires
        pattern@.len() > 0,
    ensures
        find_from(s@, pattern@, start as int) == (match r {
            Some(i) => Some(i as int),
            None => None,
        }),
        r is Some ==> start <= r->0 && r->0 + pattern@.len() <= s@.len(),
{
    let n: usize = s.len();
    let mut i: usize = start;
    while i < n && pattern.len() <= n - i
        invariant
            n == s@.len(),
            start <= i,
            pattern@.len() > 0,
            find_from(s@, pattern@, start as int) == find_from(s@, pattern@, i as int),
        decreases s@.len() - i,
    {
        let mut k: usize = 0;
        while k < pattern.len() && s[i + k] == pattern[k]
            invariant
                k <= pattern@.len(),
                n == s@.len(),
                i + pattern@.len() <= n,
                forall|j: int| 0 <= j < k ==> s@[i + j] == pattern@[j],
            decreases pattern@.len() - k,
        {
            k = k + 1;
        }
        if k == pattern.len() {
            assert(s@.subrange(i as int, i + pattern@.len()) =~= pattern@);
            return Some(i);
        }
        assert(s@.subrange(i as int, i + pattern@.len())[k as int] != pattern@[k as int]);
        i = i + 1;
    }
    None
}

/// Which game a line belongs to.
///
/// Deliberately not a JSON parse: this runs over every file at startup, and the
/// field is written by this library in a known position.
pub fn game_of_line(line: &str) -> (r: Option<u64>)
    ensures
        game_in(line@) == (match r {
            Some(g) => Some(g as nat),
            None => None,
        }),
{
    let text = chars_of(line);
    let mark = chars_of(GAME_MARK);
    let n: usize = text.len();
    proof {
        reveal_strlit("\"game\":");
    }
    match find(&text, &mark, 0) {
        None => None,
        Some(at) => {
            let start: usize = at + mark.len();
            let end: usize = match find(&text, &mark, start) {
                Some(next) => next,
                None => n,
            };
            let part = slice_chars(&text, start, end);
            assert(end == text@.len() ==> part@ =~= text@.skip(start as int));
            let mut stop: usize = 0;
            while stop < part.len() && part[stop] != ',' && part[stop] != '}'
                invariant
                    stop <= part@.len(),
                    field_end(part@, 0) == field_end(part@, stop as int),
                decreases part@.len() - stop,
            {
                stop = stop + 1;
            }
            let field = slice_chars(&part, 0, stop);
            assert(field@ =~= part@.take(stop as int));
            read_unsigned(&trim_chars(&field), u64::MAX)
        },
    }
}

/// In an escaped text a backslash stands before every quotation mark.
proof fn lemma_escaped_quotes(s: Seq<char>)
    ensures
        forall|k: int| 0 <= k < escaped(s).len() && #[trigger] escaped(s)[k] == '"' ==> k > 0 && escaped(s)[k - 1]
            == '\\',
    decreases s.len(),
{
    if s.len() > 0 {
        let (whole, front) = (escaped(s), escaped(s.drop_last()));
        lemma_escaped_quotes(s.drop_last());
        assert forall|k: int| 0 <= k < whole.len() && #[trigger] whole[k] == '"' implies k > 0 && whole[k - 1]
            == '\\' by {
            if k < front.len() {
                assert(whole[k] == front[k]);
                assert(whole[k - 1] == front[k - 1]);
            }
        }
    }
}

/// The first match is found.
proof fn lemma_find(s: Seq<char>, pattern: Seq<char>, i: int, at: int)
    requires
        0 <= i <= at,
        pattern.len() > 0,
        matches_at(s, pattern, at),
        forall|j: int| i <= j < at ==> !#[trigger] matches_at(s, pattern, j),
    ensures
        find_from(s, pattern, i) == Some(at),
    decreases at - i,
{
    if i < at {
        assert(!matches_at(s, pattern, i));
        lemma_find(s, pattern, i + 1, at);
    }
}

/// A match that is found is one.
proof fn lemma_found(s: Seq<char>, pattern: Seq<char>, i: int)
    ensures
        find_from(s, pattern, i) is Some ==> i <= find_from(s, pattern, i)->0 && matches_at(
            s,
            pattern,
            find_from(s, pattern, i)->0,
        ),
    decreases s.len() - i,
{
    if !(i < 0 || i + pattern.len() > s.len() || i >= s.len()) && !matches_at(s, pattern, i) {
        lemma_found(s, pattern, i + 1);
    }
}

/// The first comma or brace ends a field.
proof fn lemma_field_end(s: Seq<char>, i: int, at: int)
    requires
        0 <= i <= at < s.len(),
        s[at] == ',',
        forall|j: int| i <= j < at ==> #[trigger] s[j] != ',' && s[j] != '}',
    ensures
        field_end(s, i) == at,
    decreases at - i,
{
    if i < at {
        lemma_field_end(s, i + 1, at);
    }
}

/// The characters of a record's line up to the game mark.
proof fn lemma_line_chars(fen: Seq<char>, rest: Seq<char>, k: int)
    requires
        0 <= k,
    ensures
        ({
            let line = head_text(fen) + GAME_MARK@ + rest;
            let n = escaped(fen).len() as int;
            &&& head_text(fen).len() == n + 10
            &&& GAME_MARK@.len() == 7
            &&& k == 5 ==> line[k - 1] == 'n'
            &&& k == 7 ==> line[k - 1] == ':'
            &&& k == 6 ==> line[k] == ':'
            &&& 8 <= k < 8 + n ==> line[k] == escaped(fen)[k - 8]
            &&& k == 8 + n ==> line[k + 1] == ','
            &&& k == 9 + n ==> line[k] == ','
            &&& 10 + n <= k < 17 + n ==> line[k] == GAME_MARK@[k - 10 - n]
        }),
{
    reveal_strlit("\"game\":");
    reveal_strlit("{\"fen\":\"");
    reveal_strlit("\",");
}

/// Before the game mark of a record there is no game mark, whatever the position's
/// text holds: a mark needs a quotation mark that stands behind a letter and before
/// a colon.
proof fn lemma_no_mark_before(fen: Seq<char>, rest: Seq<char>, j: int)
    requires
        0 <= j < head_text(fen).len(),
    ensures
        !matches_at(head_text(fen) + GAME_MARK@ + rest, GAME_MARK@, j),
{
    let line = head_text(fen) + GAME_MARK@ + rest;
    let n = escaped(fen).len() as int;
    let k = j + 5;
    if matches_at(line, GAME_MARK@, j) {
        reveal_strlit("\"game\":");
        let seen = line.subrange(j, j + 7);
        assert(seen[4] == line[k - 1] && seen[5] == line[k] && seen[6] == line[k + 1]);
        assert(line[k - 1] == 'e' && line[k] == '"' && line[k + 1] == ':');
        lemma_line_chars(fen, rest, k);
        lemma_escaped_quotes(fen);
        if 8 <= k < 8 + n {
            assert(escaped(fen)[k - 8] == '"');
            assert(escaped(fen)[k - 9] == '\\');
            lemma_line_chars(fen, rest, k - 1);
        }
    }
}

proof fn lemma_first_mark(fen: Seq<char>, rest: Seq<char>)
    ensures
        find_from(head_text(fen) + GAME_MARK@ + rest, GAME_MARK@, 0) == Some(head_text(fen).len() as int),
{
    let line = head_text(fen) + GAME_MARK@ + rest;
    let at = head_text(fen).len() as int;
    reveal_strlit("\"game\":");
    assert(line.subrange(at, at + GAME_MARK@.len()) =~= GAME_MARK@);
    assert forall|j: int| 0 <= j < at implies !#[trigger] matches_at(line, GAME_MARK@, j) by {
        lemma_no_mark_before(fen, rest, j);
    }
    lemma_find(line, GAME_MARK@, 0, at);
}

/// Resuming reads back what was written: the line of a record tells the game that
/// the record belongs to.
pub proof fn law_records_tell_their_game(r: RecordView, result: Seq<char>, nodes: u64)
    ensures
        game_in(record_text(r, result, nodes)) == Some(r.game as nat),
{
    let mark = GAME_MARK@;
    let head = head_text(r.fen);
    let number = decimal(r.game as nat);
    let tail = tail_text(r, result, nodes);
    let line = record_text(r, result, nodes);
    reveal_strlit("\"game\":");
    reveal_strlit(",\"ply\":");
    assert(line =~= head + mark + (number + tail));
    lemma_first_mark(r.fen, number + tail);
    lemma_decimal(r.game as nat);
    let start = head.len() + mark.len();
    let comma = number.len() as int;
    assert(tail[0] == ',');
    assert forall|j: int| 0 <= j < comma implies #[trigger] line[start + j] == number[j] by {
    }
    assert(line[start + comma] == ',');
    let next = find_from(line, mark, start as int);
    let part = match next {
        Some(n) => line.subrange(start as int, n),
        None => line.skip(start as int),
    };
    lemma_found(line, mark, start as int);
    if next is Some {
        let n = next->0;
        assert(line.subrange(n, n + mark.len())[0] == '"');
        if n <= start + comma {
            if n < start + comma {
                assert(line[start + (n - start)] == number[n - start]);
                assert(is_digit(number[n - start]));
            }
        }
    }
    assert forall|j: int| 0 <= j < comma implies #[trigger] part[j] != ',' && part[j] != '}' by {
        assert(part[j] == line[start + j]);
        assert(is_digit(number[j]));
    }
    assert(part[comma] == line[start + comma]);
    lemma_field_end(part, 0, comma);
    assert(part.take(comma) =~= number) by {
        assert forall|j: int| 0 <= j < comma implies part.take(comma)[j] == number[j] by {
            assert(part[j] == line[start + j]);
        }
    }
    assert(is_digit(number[0]) && is_digit(number.last()));
    lemma_trimmed(number);
    law_decimal_round_trip(r.game as nat, u64::MAX as nat);
}

/// What the records of a file tell: how many there are, and the highest game.
#[derive(Clone, Copy, PartialEq, Eq, Structural, Debug)]
pub struct ShardScan {
    pub count: u64,
    pub max_game: Option<u64>,
}

/// The larger of a number and a number that may be there.
pub open spec fn highest(so_far: Option<u64>, game: u64) -> u64 {
    match so_far {
        Some(m) => if m > game {
            m
        } else {
            game
        },
        None => game,
    }
}

/// The highest game of two parts of the records, each of which may tell none.
pub open spec fn highest_of(so_far: Option<u64>, more: Option<u64>) -> Option<u64> {
    match more {
        Some(game) => Some(highest(so_far, game)),
        None => so_far,
    }
}

/// The game that a line tells, if it tells one.
pub open spec fn line_game(line: Seq<char>) -> Option<u64> {
    match game_in(line) {
        Some(g) => Some(g as u64),
        None => None,
    }
}

/// The highest game that some lines tell.
pub open spec fn highest_in(lines: Seq<Seq<char>>) -> Option<u64>
    decreases lines.len(),
{
    if lines.len() == 0 {
        None
    } else {
        highest_of(highest_in(lines.drop_last()), line_game(lines.last()))
    }
}

impl ShardScan {
    /// Nothing read yet.
    pub fn new() -> (r: ShardScan)
        ensures
            r.count == 0,
            r.max_game is None,
    {
        ShardScan { count: 0, max_game: None }
    }

    /// Take in one line of a file.
    pub fn add_line(&mut self, line: &str)
        requires
            old(self).count < u64::MAX,
        ensures
            final(self).count == old(self).count + 1,
            final(self).max_game == highest_of(old(self).max_game, line_game(line@)),
    {
        self.count = self.count + 1;
        if let Some(g) = game_of_line(line) {
            self.max_game = Some(
                match self.max_game {
                    Some(m) => if m > g {
                        m
                    } else {
                        g
                    },
                    None => g,
                },
            );
        }
    }
}

/// A number in decimal, with zeros before it up to a width.
pub open spec fn zero_padded(n: nat, width: int) -> Seq<char> {
    let digits = decimal(n);
    if digits.len() < width {
        Seq::new((width - digits.len()) as nat, |i: int| '0') + digits
    } else {
        digits
    }
}

/// Append a number with zeros before it up to a width.
pub fn push_padded(out: &mut String, n: u64, width: usize)
    ensures
        final(out)@ == old(out)@ + zero_padded(n as nat, width as int),
{
    let mut digits = String::new();
    push_decimal(&mut digits, n);
    assert(digits@ =~= decimal(n as nat));
    let chars = chars_of(digits.as_str());
    let mut i: usize = chars.len();
    let ghost missing = if chars@.len() < width {
        width - chars@.len()
    } else {
        0
    };
    let ghost zeros = Seq::new(missing as nat, |i: int| '0');
    assert(out@ =~= old(out)@ + zeros.take(0));
    while i < width
        invariant
            chars@.len() <= i,
            i <= width || i == chars@.len(),
            missing == (if chars@.len() < width {
                width - chars@.len()
            } else {
                0
            }),
            zeros == Seq::new(missing as nat, |i: int| '0'),
            out@ == old(out)@ + zeros.take(i - chars@.len()),
        decreases width - i,
    {
        out.push('0');
        i = i + 1;
        assert(out@ =~= old(out)@ + zeros.take(i - chars@.len()));
    }
    assert(zeros.take(i - chars@.len()) =~= zeros);
    push_text(out, digits.as_str());
    assert(out@ =~= old(out)@ + zero_padded(n as nat, width as int));
}

/// Where a worker's records go: files of a limited number of records each.
#[derive(Clone, Copy, PartialEq, Eq, Structural, Debug)]
pub struct Shards {
    pub worker: usize,
    pub shard: usize,
    pub written: usize,
    pub limit: usize,
    /// A file is open.
    pub open: bool,
}

/// What resuming has found so far.
#[derive(Clone, Copy, PartialEq, Eq, Structural, Debug)]
pub struct Resumed {
    pub existing: u64,
    pub max_game: Option<u64>,
}

/// The game to go on with: the one after the highest on disk.
pub open spec fn next_after(max_game: Option<u64>) -> Option<u64> {
    match max_game {
        Some(g) => if g == u64::MAX {
            None
        } else {
            Some((g + 1) as u64)
        },
        None => Some(0),
    }
}

impl Resumed {
    pub fn new() -> (r: Resumed)
        ensures
            r.existing == 0,
            r.max_game is None,
    {
        Resumed { existing: 0, max_game: None }
    }

    /// The game to go on with, the one after the highest on disk; `None` where
    /// there is no number after it.
    pub fn next_game(&self) -> (r: Option<u64>)
        ensures
            r == next_after(self.max_game),
    {
        match self.max_game {
            Some(g) => if g == u64::MAX {
                None
            } else {
                Some(g + 1)
            },
            None => Some(0),
        }
    }
}

impl Shards {
    /// The first file of a worker, not yet open.
    pub fn new(worker: usize, limit: usize) -> (r: Shards)
        ensures
            r == (Shards { worker, shard: 0, written: 0, limit, open: false }),
    {
        Shards { worker, shard: 0, written: 0, limit, open: false }
    }

    /// The name of the current file.
    pub open spec fn name(&self) -> Seq<char> {
        "w"@ + zero_padded(self.worker as nat, 2) + "-"@ + zero_padded(self.shard as nat, 5) + ".jsonl"@
    }

    /// The name of the current file.
    pub fn file_name(&self) -> (r: String)
        ensures
            r@ == self.name(),
    {
        let mut out = "w".to_owned();
        push_padded(&mut out, self.worker as u64, 2);
        push_text(&mut out, "-");
        push_padded(&mut out, self.shard as u64, 5);
        push_text(&mut out, ".jsonl");
        out
    }

    /// Take in what the current file holds. Returns whether the next file is to be
    /// looked at: a full file is skipped, a partly filled one is carried on with.
    ///
    /// The game matters as much as the count: restarting from game zero would
    /// replay games already on disk, and the duplicates would be invisible in the
    /// output.
    pub fn resume_step(&mut self, scan: ShardScan, so_far: &mut Resumed) -> (r: bool)
        requires
            old(so_far).existing + scan.count <= u64::MAX,
            old(self).shard < usize::MAX,
        ensures
            final(so_far).existing == old(so_far).existing + scan.count,
            final(so_far).max_game == highest_of(old(so_far).max_game, scan.max_game),
            r == (scan.count >= old(self).limit),
            *final(self) == (if r {
                Shards { shard: (old(self).shard + 1) as usize, ..*old(self) }
            } else {
                Shards { written: scan.count as usize, ..*old(self) }
            }),
    {
        so_far.existing = so_far.existing + scan.count;
        if let Some(g) = scan.max_game {
            so_far.max_game = Some(
                match so_far.max_game {
                    Some(m) => if m > g {
                        m
                    } else {
                        g
                    },
                    None => g,
                },
            );
        }
        if scan.count < self.limit as u64 {
            self.written = scan.count as usize;
            false
        } else {
            self.shard = self.shard + 1;
            true
        }
    }

    /// The open file takes no more records.
    pub open spec fn full(self) -> bool {
        self.open && self.written >= self.limit
    }

    /// The state with one more record: a full file is followed by the next one.
    pub open spec fn with_record(self) -> Shards {
        Shards {
            shard: (if self.full() { self.shard + 1 } else { self.shard as int }) as usize,
            written: (if self.full() { 1 } else { self.written + 1 }) as usize,
            open: true,
            ..self
        }
    }

    /// Make room for one more record. Returns whether a file is to be opened for
    /// it: the first one, or the next one once the current one is full.
    pub fn next_record(&mut self) -> (r: bool)
        requires
            old(self).shard < usize::MAX,
            old(self).written < usize::MAX,
        ensures
            r == (old(self).full() || !old(self).open),
            *final(self) == old(self).with_record(),
    {
        if self.open && self.written >= self.limit {
            self.shard = self.shard + 1;
            self.written = 0;
            self.open = false;
        }
        let opened = !self.open;
        self.open = true;
        self.written = self.written + 1;
        opened
    }
}

/// Files are taken in one after the other: the highest game of all their lines is
/// that of the parts.
pub proof fn law_files_add_up(a: Seq<Seq<char>>, b: Seq<Seq<char>>)
    ensures
        highest_in(a + b) == highest_of(highest_in(a), highest_in(b)),
    decreases b.len(),
{
    if b.len() == 0 {
        assert(a + b =~= a);
    } else {
        law_files_add_up(a, b.drop_last());
        assert((a + b).drop_last() =~= a + b.drop_last());
        assert((a + b).last() == b.last());
    }
}

/// A resumed run does not replay a game that is on disk: the game it goes on with
/// comes after every game that a line tells.
pub proof fn law_resumed_games_are_new(lines: Seq<Seq<char>>, i: int)
    requires
        0 <= i < lines.len(),
        line_game(lines[i]) is Some,
    ensures
        highest_in(lines) is Some,
        highest_in(lines)->0 >= line_game(lines[i])->0,
        next_after(highest_in(lines)) is Some ==> next_after(highest_in(lines))->0 > line_game(lines[i])->0,
    decreases lines.len(),
{
    if i < lines.len() - 1 {
        law_resumed_games_are_new(lines.drop_last(), i);
    }
}

/// No file takes more records than the limit: a file that is open or has room, and
/// holds no more than the limit, stays that way with every record.
pub proof fn law_files_stay_within_the_limit(s: Shards)
    requires
        s.limit >= 1,
        s.written <= s.limit,
        s.open || s.written < s.limit,
    ensures
        s.with_record().written <= s.with_record().limit,
        s.with_record().open,
{
}

/// Escaping goes character by character: a quotation mark and a backslash get a
/// backslash before them, every other character stays as it is.
pub proof fn law_escaping_goes_by_characters(a: Seq<char>, b: Seq<char>, c: char)
    ensures
        escaped(a + b) == escaped(a) + escaped(b),
        escaped(Seq::empty()) == Seq::<char>::empty(),
        escaped(seq!['"']) == seq!['\\', '"'],
        escaped(seq!['\\']) == seq!['\\', '\\'],
        c != '"' && c != '\\' ==> escaped(seq![c]) == seq![c],
    decreases b.len(),
{
    reveal_with_fuel(escaped, 2);
    assert(seq!['"'].drop_last() =~= Seq::empty());
    assert(seq!['\\'].drop_last() =~= Seq::empty());
    assert(seq![c].drop_last() =~= Seq::empty());
    if b.len() == 0 {
        assert(a + b =~= a);
        assert(escaped(a) + escaped(b) =~= escaped(a));
    } else {
        law_escaping_goes_by_characters(a, b.drop_last(), c);
        assert((a + b).drop_last() =~= a + b.drop_last());
        assert((a + b).last() == b.last());
        assert(escaped(a + b) =~= escaped(a) + escaped(b));
    }
}

/// A move is written as the file and rank of where it starts, the file and rank of
/// where it ends, and the letter of the piece that a pawn becomes; castling is
/// written as the king's own step.
pub proof fn law_moves_in_uci(m: Move)
    ensures
        match m {
            Move::Normal { from, to, promotion, .. } => {
                &&& from.0 < 64 && to.0 < 64 ==> uci_of(m).take(4) == steps(from.0 as int, to.0 as int)
                &&& promotion is None ==> uci_of(m).len() == 4
                &&& promotion == Some(Role::Knight) ==> uci_of(m).skip(4) == seq!['n']
                &&& promotion == Some(Role::Bishop) ==> uci_of(m).skip(4) == seq!['b']
                &&& promotion == Some(Role::Rook) ==> uci_of(m).skip(4) == seq!['r']
                &&& promotion == Some(Role::Queen) ==> uci_of(m).skip(4) == seq!['q']
            },
            Move::EnPassant { from, to } => from.0 < 64 && to.0 < 64 ==> uci_of(m) == steps(
                from.0 as int,
                to.0 as int,
            ),
            Move::Castle { king, rook } => {
                &&& king.0 == 4 && rook.0 == 7 ==> uci_of(m) == seq!['e', '1', 'g', '1']
                &&& king.0 == 4 && rook.0 == 0 ==> uci_of(m) == seq!['e', '1', 'c', '1']
                &&& king.0 == 60 && rook.0 == 63 ==> uci_of(m) == seq!['e', '8', 'g', '8']
                &&& king.0 == 60 && rook.0 == 56 ==> uci_of(m) == seq!['e', '8', 'c', '8']
            },
        },
{
    reveal_strlit("n");
    reveal_strlit("b");
    reveal_strlit("r");
    reveal_strlit("q");
    let (from, to, promotion) = squares_of(m);
    match m {
        Move::Normal { .. } => {
            assert(uci_of(m).take(4) =~= square_name(from.0 as int) + square_name(to.0 as int));
            if from.0 < 64 && to.0 < 64 {
                assert(uci_of(m).take(4) =~= steps(from.0 as int, to.0 as int));
            }
            if promotion is Some {
                assert(uci_of(m).skip(4) =~= promotion_letter(promotion->0));
                assert("n"@ =~= seq!['n'] && "b"@ =~= seq!['b'] && "r"@ =~= seq!['r'] && "q"@ =~= seq!['q']);
            }
        },
        Move::EnPassant { .. } => {
            if from.0 < 64 && to.0 < 64 {
                assert(uci_of(m) =~= steps(from.0 as int, to.0 as int));
            }
        },
        Move::Castle { king, rook } => {
            if king.0 == 4 && rook.0 == 7 {
                assert(to.0 == 6);
                assert(uci_of(m) =~= seq!['e', '1', 'g', '1']);
            } else if king.0 == 4 && rook.0 == 0 {
                assert(to.0 == 2);
                assert(uci_of(m) =~= seq!['e', '1', 'c', '1']);
            } else if king.0 == 60 && rook.0 == 63 {
                assert(to.0 == 62);
                assert(uci_of(m) =~= seq!['e', '8', 'g', '8']);
            } else if king.0 == 60 && rook.0 == 56 {
                assert(to.0 == 58);
                assert(uci_of(m) =~= seq!['e', '8', 'c', '8']);
            }
        },
    }
}

/// The file and rank of two squares: the files from `a`, the ranks from `1`.
pub open spec fn steps(from: int, to: int) -> Seq<char> {
    seq![
        ('a' as int + from % 8) as char,
        ('1' as int + from / 8) as char,
        ('a' as int + to % 8) as char,
        ('1' as int + to / 8) as char,
    ]
}

/// A record's line holds its fields in their order under their names: the position's
/// text, the game, the ply, the depth, the nodes, the result and the scored moves.
pub proof fn law_records_hold_their_fields(r: RecordView, result: Seq<char>, nodes: u64)
    ensures
        record_text(r, result, nodes) == "{\"fen\":\""@ + escaped(r.fen) + "\",\"game\":"@ + decimal(r.game as nat)
            + ",\"ply\":"@ + decimal(r.ply as nat) + ",\"depth\":"@ + decimal(r.depth as nat) + ",\"nodes\":"@
            + decimal(nodes as nat) + ",\"result\":\""@ + result + "\",\"lines\":["@ + lines_text(r.lines) + "]}"@,
{
    reveal_strlit("\"game\":");
    reveal_strlit("\",");
    reveal_strlit("\",\"game\":");
    assert("\",\"game\":"@ =~= "\","@ + GAME_MARK@);
    assert(record_text(r, result, nodes) =~= "{\"fen\":\""@ + escaped(r.fen) + "\",\"game\":"@ + decimal(
        r.game as nat,
    ) + ",\"ply\":"@ + decimal(r.ply as nat) + ",\"depth\":"@ + decimal(r.depth as nat) + ",\"nodes\":"@ + decimal(
        nodes as nat,
    ) + ",\"result\":\""@ + result + "\",\"lines\":["@ + lines_text(r.lines) + "]}"@);
}

/// Scored moves are separated by commas, in their order. Each says its move under
/// `m`, and its score under `cp` in centipawns or under `mate` in moves.
pub proof fn law_scored_moves_are_listed(
    a: Seq<(Seq<char>, UciScore)>,
    b: Seq<(Seq<char>, UciScore)>,
    mv: Seq<char>,
    n: i32,
)
    ensures
        a.len() > 0 && b.len() > 0 ==> lines_text(a + b) == lines_text(a) + seq![','] + lines_text(b),
        lines_text(Seq::empty()) == Seq::<char>::empty(),
        lines_text(seq![(mv, UciScore::Cp(n))]) == "{\"m\":\""@ + mv + "\",\"cp\":"@ + signed_decimal(n as int) + "}"@,
        lines_text(seq![(mv, UciScore::Mate(n))]) == "{\"m\":\""@ + mv + "\",\"mate\":"@ + signed_decimal(n as int)
            + "}"@,
    decreases b.len(),
{
    reveal_strlit(",");
    if a.len() > 0 && b.len() > 0 {
        let both = a + b;
        assert(both.drop_last() =~= a + b.drop_last());
        assert(both.last() == b.last());
        assert(","@ =~= seq![',']);
        if b.len() == 1 {
            assert(b.drop_last() =~= Seq::empty());
            assert(a + b.drop_last() =~= a);
            assert(lines_text(both) =~= lines_text(a) + seq![','] + lines_text(b));
        } else {
            law_scored_moves_are_listed(a, b.drop_last(), mv, n);
            assert(lines_text(both) =~= lines_text(a) + seq![','] + lines_text(b));
        }
    }
}

/// Padding a number keeps its value and makes it at least as long as was asked, and
/// no longer than that or the number itself.
pub proof fn law_padding_keeps_the_number(n: nat, width: int)
    ensures
        digits_value(zero_padded(n, width)) == n,
        zero_padded(n, width).len() >= width,
        zero_padded(n, width).len() == width || zero_padded(n, width) == decimal(n),
        forall|i: int| 0 <= i < zero_padded(n, width).len() ==> is_digit(#[trigger] zero_padded(n, width)[i]),
{
    lemma_decimal(n);
    let digits = decimal(n);
    if digits.len() < width {
        let zeros = Seq::new((width - digits.len()) as nat, |i: int| '0');
        lemma_leading_zeros(zeros, digits);
        assert forall|i: int| 0 <= i < zero_padded(n, width).len() implies is_digit(
            #[trigger] zero_padded(n, width)[i],
        ) by {
            if i >= zeros.len() {
                assert(is_digit(digits[i - zeros.len()]));
            }
        }
    }
}

proof fn lemma_leading_zeros(zeros: Seq<char>, s: Seq<char>)
    requires
        forall|i: int| 0 <= i < zeros.len() ==> #[trigger] zeros[i] == '0',
    ensures
        digits_value(zeros + s) == digits_value(s),
    decreases zeros.len() + s.len(),
{
    let whole = zeros + s;
    if s.len() > 0 {
        lemma_leading_zeros(zeros, s.drop_last());
        assert(whole.drop_last() =~= zeros + s.drop_last());
        assert(whole.last() == s.last());
    } else if zeros.len() > 0 {
        lemma_leading_zeros(zeros.drop_last(), s);
        assert(whole.drop_last() =~= zeros.drop_last() + s);
        assert(whole.last() == '0');
        assert(whole =~= zeros);
    }
}

/// Every file has a name of its own: it tells the worker and the file.
pub proof fn law_files_have_their_own_names(a: Shards, b: Shards)
    ensures
        a.name() == b.name() ==> a.worker == b.worker && a.shard == b.shard,
        a.name()[0] == 'w',
        a.name().skip(a.name().len() - 6) == ".jsonl"@,
{
    reveal_strlit("w");
    reveal_strlit("-");
    reveal_strlit(".jsonl");
    let (aw, ash) = (zero_padded(a.worker as nat, 2), zero_padded(a.shard as nat, 5));
    let (bw, bsh) = (zero_padded(b.worker as nat, 2), zero_padded(b.shard as nat, 5));
    law_padding_keeps_the_number(a.worker as nat, 2);
    law_padding_keeps_the_number(a.shard as nat, 5);
    law_padding_keeps_the_number(b.worker as nat, 2);
    law_padding_keeps_the_number(b.shard as nat, 5);
    let (x, y) = (a.name(), b.name());
    let (i, j) = ((aw.len() + 1) as int, (bw.len() + 1) as int);
    assert(x[i] == '-');
    assert(y[j] == '-');
    assert(x.skip(x.len() - 6) =~= ".jsonl"@);
    if x == y {
        if i < j {
            assert(y[i] == bw[i - 1]);
            assert(is_digit(bw[i - 1]));
        }
        if j < i {
            assert(x[j] == aw[j - 1]);
            assert(is_digit(aw[j - 1]));
        }
        assert(x.subrange(1, i) =~= aw);
        assert(y.subrange(1, j) =~= bw);
        assert(x.subrange(i + 1, x.len() - 6) =~= ash);
        assert(y.subrange(j + 1, y.len() - 6) =~= bsh);
    }
}

/// The highest game is one that a line tells, and where no line tells one, resuming
/// begins with the first game; otherwise it goes on with the game right after.
pub proof fn law_resuming_skips_no_game(lines: Seq<Seq<char>>)
    ensures
        highest_in(lines) is Some ==> exists|i: int|
            0 <= i < lines.len() && #[trigger] line_game(lines[i]) == highest_in(lines),
        highest_in(lines) is None <==> forall|i: int|
            0 <= i < lines.len() ==> #[trigger] line_game(lines[i]) is None,
        highest_in(lines) is None ==> next_after(highest_in(lines)) == Some(0u64),
        highest_in(lines) is Some && highest_in(lines)->0 < u64::MAX ==> next_after(highest_in(lines)) is Some
            && next_after(highest_in(lines))->0 == highest_in(lines)->0 + 1,
    decreases lines.len(),
{
    if lines.len() > 0 {
        let short = lines.drop_last();
        law_resuming_skips_no_game(short);
        let n = lines.len() - 1;
        assert(lines[n] == lines.last());
        assert forall|i: int| 0 <= i < short.len() implies line_game(#[trigger] lines[i]) == line_game(short[i]) by {
        }
        if highest_in(lines) is Some {
            if highest_in(lines) != line_game(lines.last()) {
                let i = choose|i: int| 0 <= i < short.len() && #[trigger] line_game(short[i]) == highest_in(short);
                assert(line_game(lines[i]) == highest_in(lines));
            } else {
                assert(line_game(lines[n]) == highest_in(lines));
            }
        }
    }
}

/// Every record has its place, right after the last one: counted over all files, each
/// full to the limit, there is one record more, and no file is left before it is full.
pub proof fn law_every_record_has_its_place(s: Shards)
    requires
        s.limit >= 1,
        s.written <= s.limit,
        s.shard < usize::MAX,
        s.open || s.written < s.limit,
    ensures
        s.with_record().shard * s.limit + s.with_record().written == s.shard * s.limit + s.written + 1,
        s.with_record().shard != s.shard ==> s.written == s.limit && s.with_record().written == 1,
        s.with_record().worker == s.worker && s.with_record().limit == s.limit,
{
    let n = s.limit as int;
    if s.full() {
        assert((s.shard + 1) * n == s.shard * n + n) by (nonlinear_arith);
    }
}

} // verus!
