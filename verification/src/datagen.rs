//! Generate labelled training positions by playing games with a teacher engine.
//!
//! Positions come from *played games*, not random legal boards. Each game opens
//! with a few random plies for variety, then the teacher plays it out, and every
//! position along the way is labelled with a MultiPV search.
//!
//! This module decides; starting engines, waiting for them and writing files is
//! left to the program around it.

use vstd::prelude::*;

use crate::chess::Color;
use crate::records::{push_padded, record_text, uci_of, uci_text, zero_padded, Record, RecordView};
use crate::rules::{
    checkmate, fen_after, fen_play, insufficient_of, legal_fen_of, moves_of, stalemate, state, Move, Position,
    START_FEN,
};
use crate::seeds::{game_seed, seed_of, xorshift, Rng};
use crate::teacher::{joined, Line, LineView, UciScore};
use crate::text::{chars_of, decimal, push_decimal, push_text, read_unsigned, same_text, unsigned_number};

verus! {

/// What a run is asked to do.
#[derive(Debug)]
pub struct Config {
    pub engine: String,
    pub out: String,
    pub positions: u64,
    pub workers: usize,
    pub nodes: u64,
    pub multipv: usize,
    pub hash_mb: usize,
    pub random_plies: usize,
    pub max_plies: usize,
    pub shard_size: usize,
    pub seed: u64,
}

/// What a configuration says.
pub struct ConfigView {
    pub engine: Seq<char>,
    pub out: Seq<char>,
    pub positions: u64,
    pub workers: usize,
    pub nodes: u64,
    pub multipv: usize,
    pub hash_mb: usize,
    pub random_plies: usize,
    pub max_plies: usize,
    pub shard_size: usize,
    pub seed: u64,
}

impl View for Config {
    type V = ConfigView;

    open spec fn view(&self) -> ConfigView {
        ConfigView {
            engine: self.engine@,
            out: self.out@,
            positions: self.positions,
            workers: self.workers,
            nodes: self.nodes,
            multipv: self.multipv,
            hash_mb: self.hash_mb,
            random_plies: self.random_plies,
            max_plies: self.max_plies,
            shard_size: self.shard_size,
            seed: self.seed,
        }
    }
}

pub const USAGE: &'static str = "\
generate labelled training positions with a teacher engine

  datagen --engine <path> [options]

  --engine PATH        UCI engine binary (required)
  --out DIR            output directory (default: data)
  --positions N        how many positions to label (default: 1_000_000)
  --workers N          parallel engine processes (default: 2)
  --nodes N            search budget per position (default: 10_000)
  --multipv N          moves scored per position (default: 4)
  --hash MB            hash per engine (default: 64)
  --random-plies N     random opening plies per game (default: 8)
  --max-plies N        abandon a game after this many plies (default: 240)
  --shard-size N       records per output file (default: 50_000)
  --seed N             base seed; each worker offsets from it (default: 24301)

Resuming is automatic: existing records in --out are counted and the run
continues from there. Re-running with the same seed and settings reproduces
the same data.
";

/// How the program is called.
pub fn usage() -> (r: String)
    ensures
        r@ == USAGE@,
{
    USAGE.to_owned()
}

/// A run without any flag.
pub open spec fn default_config() -> ConfigView {
    ConfigView {
        engine: Seq::empty(),
        out: "data"@,
        positions: 1_000_000,
        workers: 2,
        nodes: 10_000,
        multipv: 4,
        hash_mb: 64,
        random_plies: 8,
        max_plies: 240,
        shard_size: 50_000,
        seed: 24301,
    }
}

/// The flags that take a text, and those that take a number.
pub open spec fn is_text_flag(flag: Seq<char>) -> bool {
    flag == "--engine"@ || flag == "--out"@
}

pub open spec fn is_number_flag(flag: Seq<char>) -> bool {
    ||| flag == "--positions"@
    ||| flag == "--workers"@
    ||| flag == "--nodes"@
    ||| flag == "--multipv"@
    ||| flag == "--hash"@
    ||| flag == "--random-plies"@
    ||| flag == "--max-plies"@
    ||| flag == "--shard-size"@
    ||| flag == "--seed"@
}

pub open spec fn with_text(c: ConfigView, flag: Seq<char>, value: Seq<char>) -> ConfigView {
    if flag == "--engine"@ {
        ConfigView { engine: value, ..c }
    } else {
        ConfigView { out: value, ..c }
    }
}

pub open spec fn with_number(c: ConfigView, flag: Seq<char>, n: u64) -> ConfigView {
    if flag == "--positions"@ {
        ConfigView { positions: n, ..c }
    } else if flag == "--workers"@ {
        ConfigView { workers: n as usize, ..c }
    } else if flag == "--nodes"@ {
        ConfigView { nodes: n, ..c }
    } else if flag == "--multipv"@ {
        ConfigView { multipv: n as usize, ..c }
    } else if flag == "--hash"@ {
        ConfigView { hash_mb: n as usize, ..c }
    } else if flag == "--random-plies"@ {
        ConfigView { random_plies: n as usize, ..c }
    } else if flag == "--max-plies"@ {
        ConfigView { max_plies: n as usize, ..c }
    } else if flag == "--shard-size"@ {
        ConfigView { shard_size: n as usize, ..c }
    } else {
        ConfigView { seed: n, ..c }
    }
}

/// A text without its underscores, which only group digits.
pub open spec fn without_underscores(s: Seq<char>) -> Seq<char>
    decreases s.len(),
{
    if s.len() == 0 {
        Seq::empty()
    } else if s.last() == '_' {
        without_underscores(s.drop_last())
    } else {
        without_underscores(s.drop_last()).push(s.last())
    }
}

/// The number that a flag's value stands for.
pub open spec fn flag_number(value: Seq<char>) -> Option<nat> {
    unsigned_number(without_underscores(value), u64::MAX as nat)
}

/// What the flags from the `i`-th argument on make of a configuration, or what is
/// wrong with them.
pub open spec fn flags_from(args: Seq<Seq<char>>, i: int, c: ConfigView) -> Result<ConfigView, Seq<char>>
    decreases (if i < args.len() { args.len() - i } else { 0 }),
{
    if i < 0 || i >= args.len() {
        Ok(c)
    } else {
        let flag = args[i];
        if is_text_flag(flag) || is_number_flag(flag) {
            if i + 1 >= args.len() {
                Err("flag is missing its value"@)
            } else if is_text_flag(flag) {
                flags_from(args, i + 2, with_text(c, flag, args[i + 1]))
            } else {
                match flag_number(args[i + 1]) {
                    Some(n) => flags_from(args, i + 2, with_number(c, flag, n as u64)),
                    None => Err("expected a number"@),
                }
            }
        } else if flag == "--help"@ || flag == "-h"@ {
            Err(USAGE@)
        } else {
            Err("unknown flag "@ + flag + "\n\n"@ + USAGE@)
        }
    }
}

/// The configuration that the arguments ask for, or what is wrong with them.
pub open spec fn config_of(args: Seq<Seq<char>>) -> Result<ConfigView, Seq<char>> {
    match flags_from(args, 0, default_config()) {
        Err(e) => Err(e),
        Ok(c) => if c.engine.len() == 0 {
            Err("--engine is required\n\n"@ + USAGE@)
        } else if c.workers == 0 {
            Err("--workers must be at least 1"@)
        } else {
            Ok(c)
        },
    }
}

pub open spec fn texts(v: Seq<String>) -> Seq<Seq<char>> {
    v.map_values(|s: String| s@)
}

fn strip_underscores(s: &str) -> (r: Vec<char>)
    ensures
        r@ == without_underscores(s@),
{
    let chars = chars_of(s);
    let mut out: Vec<char> = Vec::new();
    let mut i: usize = 0;
    assert(chars@.take(0) =~= Seq::empty());
    while i < chars.len()
        invariant
            i <= chars@.len(),
            out@ == without_underscores(chars@.take(i as int)),
        decreases chars@.len() - i,
    {
        assert(chars@.take(i + 1).drop_last() =~= chars@.take(i as int));
        if chars[i] != '_' {
            out.push(chars[i]);
        }
        i = i + 1;
    }
    assert(chars@.take(i as int) =~= chars@);
    out
}

fn read_flag_number(value: &str) -> (r: Option<u64>)
    ensures
        flag_number(value@) == (match r {
            Some(n) => Some(n as nat),
            None => None,
        }),
{
    read_unsigned(&strip_underscores(value), u64::MAX)
}

/// Does this flag take a number?
fn takes_number(flag: &str) -> (r: bool)
    ensures
        r == is_number_flag(flag@),
{
    same_text(flag, "--positions") || same_text(flag, "--workers") || same_text(flag, "--nodes") || same_text(
        flag,
        "--multipv",
    ) || same_text(flag, "--hash") || same_text(flag, "--random-plies") || same_text(flag, "--max-plies")
        || same_text(flag, "--shard-size") || same_text(flag, "--seed")
}

impl Config {
    /// A run without any flag.
    fn initial() -> (r: Config)
        ensures
            r@ == default_config(),
    {
        let engine = String::new();
        assert(engine@ =~= Seq::empty());
        Config {
            engine,
            out: "data".to_owned(),
            positions: 1_000_000,
            workers: 2,
            nodes: 10_000,
            multipv: 4,
            hash_mb: 64,
            random_plies: 8,
            max_plies: 240,
            shard_size: 50_000,
            seed: 24301,
        }
    }

    fn set_number(&mut self, flag: &str, n: u64)
        ensures
            final(self)@ == with_number(old(self)@, flag@, n),
    {
        if same_text(flag, "--positions") {
            self.positions = n;
        } else if same_text(flag, "--workers") {
            self.workers = n as usize;
        } else if same_text(flag, "--nodes") {
            self.nodes = n;
        } else if same_text(flag, "--multipv") {
            self.multipv = n as usize;
        } else if same_text(flag, "--hash") {
            self.hash_mb = n as usize;
        } else if same_text(flag, "--random-plies") {
            self.random_plies = n as usize;
        } else if same_text(flag, "--max-plies") {
            self.max_plies = n as usize;
        } else if same_text(flag, "--shard-size") {
            self.shard_size = n as usize;
        } else {
            self.seed = n;
        }
    }

    /// Read the arguments of the program, without its own name.
    pub fn parse(args: &Vec<String>) -> (r: Result<Config, String>)
        ensures
            config_of(texts(args@)) == (match r {
                Ok(c) => Ok::<ConfigView, Seq<char>>(c@),
                Err(e) => Err::<ConfigView, Seq<char>>(e@),
            }),
    {
        let ghost words = texts(args@);
        let mut cfg = Config::initial();
        let ghost goal = flags_from(words, 0, default_config());
        let count: usize = args.len();
        let mut i: usize = 0;
        while i < count
            invariant
                i <= count,
                count == args@.len(),
                words == texts(args@),
                goal == flags_from(words, 0, default_config()),
                goal == flags_from(words, i as int, cfg@),
            decreases count - i,
        {
            let flag = args[i].as_str();
            assert(words[i as int] == flag@);
            let engine = same_text(flag, "--engine");
            let textual = engine || same_text(flag, "--out");
            if textual || takes_number(flag) {
                if count - i < 2 {
                    return Err("flag is missing its value".to_owned());
                }
                let value = args[i + 1].as_str();
                assert(words[i + 1] == value@);
                if engine {
                    cfg.engine = value.to_owned();
                } else if textual {
                    cfg.out = value.to_owned();
                } else {
                    match read_flag_number(value) {
                        Some(n) => {
                            cfg.set_number(flag, n);
                        },
                        None => {
                            return Err("expected a number".to_owned());
                        },
                    }
                }
                i = i + 2;
            } else if same_text(flag, "--help") || same_text(flag, "-h") {
                return Err(usage());
            } else {
                let mut message = "unknown flag ".to_owned();
                push_text(&mut message, flag);
                push_text(&mut message, "\n\n");
                push_text(&mut message, USAGE);
                return Err(message);
            }
        }
        if chars_of(cfg.engine.as_str()).len() == 0 {
            return Err(joined("--engine is required\n\n", USAGE));
        }
        if cfg.workers == 0 {
            return Err("--workers must be at least 1".to_owned());
        }
        Ok(cfg)
    }
}

/// The result of a game that has ended, in PGN terms, from White's point of view.
pub open spec fn result_of(fen: Seq<char>) -> Option<Seq<char>> {
    if checkmate(fen) {
        if state(fen).turn == Color::White {
            Some("0-1"@)
        } else {
            Some("1-0"@)
        }
    } else if stalemate(fen) || insufficient_of(fen) || state(fen).halfmoves >= 100 {
        Some("1/2-1/2"@)
    } else {
        None
    }
}

/// Where a game ended, in PGN terms, from White's point of view.
pub fn game_result(pos: &Position) -> (r: Option<&'static str>)
    ensures
        result_of(pos@) == (match r {
            Some(text) => Some(text@),
            None => None,
        }),
{
    if pos.is_checkmate() {
        return Some(if pos.turn() == Color::White { "0-1" } else { "1-0" });
    }
    if pos.is_stalemate() || pos.is_insufficient_material() || pos.halfmoves() >= 100 {
        return Some("1/2-1/2");
    }
    None
}

/// Two digits at least.
pub open spec fn two_digits(n: nat) -> Seq<char> {
    zero_padded(n, 2)
}

/// A span of time in its two largest units.
pub open spec fn span_text(s: nat) -> Seq<char> {
    if s < 60 {
        decimal(s) + "s"@
    } else if s < 3600 {
        decimal(s / 60) + "m"@ + two_digits(s % 60) + "s"@
    } else if s < 86400 {
        decimal(s / 3600) + "h"@ + two_digits((s % 3600) / 60) + "m"@
    } else {
        decimal(s / 86400) + "d"@ + two_digits((s % 86400) / 3600) + "h"@
    }
}

/// A number of seconds the way a person reads it.
pub fn human(s: u64) -> (r: String)
    ensures
        r@ == span_text(s as nat),
{
    let mut out = String::new();
    assert(out@ =~= Seq::empty());
    if s < 60 {
        push_decimal(&mut out, s);
        push_text(&mut out, "s");
    } else if s < 3600 {
        push_decimal(&mut out, s / 60);
        push_text(&mut out, "m");
        push_padded(&mut out, s % 60, 2);
        push_text(&mut out, "s");
    } else if s < 86400 {
        push_decimal(&mut out, s / 3600);
        push_text(&mut out, "h");
        push_padded(&mut out, (s % 3600) / 60, 2);
        push_text(&mut out, "m");
    } else {
        push_decimal(&mut out, s / 86400);
        push_text(&mut out, "d");
        push_padded(&mut out, (s % 86400) / 3600, 2);
        push_text(&mut out, "h");
    }
    assert(out@ =~= span_text(s as nat));
    out
}

/// The position after random plies: each move picked by the generator, until a
/// position has none.
pub open spec fn opened(fen: Seq<char>, rng: u64, plies: int) -> Seq<char>
    decreases plies,
{
    let count = moves_of(fen).len();
    if plies <= 0 || count == 0 {
        fen
    } else {
        let next = xorshift(rng);
        opened(fen_after(fen, next as int % count as int), next, plies - 1)
    }
}

/// The opening of a game from its seed. The number of random plies is jittered by
/// one, so that the engine does not always take over with White to move.
pub open spec fn opening(fen: Seq<char>, seed: u64, random_plies: int) -> Seq<char> {
    let first = xorshift(seed);
    opened(fen, first, random_plies + first as int % 2)
}

/// Play the random plies of a game with this seed from a position.
///
/// A fixed count would give White first crack at punishing whatever the random
/// phase hung, and the generated games would come out lopsidedly won by White.
pub fn play_opening(start: &Position, seed: u64, random_plies: usize) -> (r: Position)
    requires
        random_plies < usize::MAX,
    ensures
        r@ == opening(start@, seed, random_plies as int),
{
    let mut rng = Rng(seed);
    let mut left: usize = random_plies + rng.below(2);
    let mut pos = start.duplicate();
    let ghost goal = opening(start@, seed, random_plies as int);
    while left > 0
        invariant
            goal == opening(start@, seed, random_plies as int),
            goal == opened(pos@, rng.0, left as int),
        decreases left,
    {
        let moves = pos.legal_moves();
        if moves.len() == 0 {
            return pos;
        }
        pos = pos.play(rng.below(moves.len()));
        left = left - 1;
    }
    pos
}

/// A game in progress.
#[derive(Debug)]
struct Game {
    pos: Position,
    pending: Vec<Record>,
    result: &'static str,
    ply: usize,
    over: bool,
}

/// What is known of a game in progress: the position, the records that wait for
/// the result, the result so far, the plies the engine has played, and whether the
/// game is to be written out.
pub struct GameView {
    pub fen: Seq<char>,
    pub pending: Seq<RecordView>,
    pub result: Seq<char>,
    pub ply: usize,
    pub over: bool,
}

impl View for Game {
    type V = GameView;

    closed spec fn view(&self) -> GameView {
        GameView {
            fen: self.pos@,
            pending: self.pending@.map_values(|r: Record| r@),
            result: self.result@,
            ply: self.ply,
            over: self.over,
        }
    }
}

/// Plays games on behalf of one engine process.
#[derive(Debug)]
pub struct Worker {
    id: usize,
    seed: u64,
    random_plies: usize,
    max_plies: usize,
    positions: u64,
    game: u64,
    skipped: u64,
    current: Option<Game>,
}

pub struct WorkerView {
    pub id: usize,
    pub seed: u64,
    pub random_plies: usize,
    pub max_plies: usize,
    pub positions: u64,
    /// The number of the game in progress or next to come.
    pub game: u64,
    /// Positions that were played but not labelled.
    pub skipped: u64,
    pub current: Option<GameView>,
}

impl View for Worker {
    type V = WorkerView;

    closed spec fn view(&self) -> WorkerView {
        WorkerView {
            id: self.id,
            seed: self.seed,
            random_plies: self.random_plies,
            max_plies: self.max_plies,
            positions: self.positions,
            game: self.game,
            skipped: self.skipped,
            current: match self.current {
                Some(g) => Some(g@),
                None => None,
            },
        }
    }
}

/// What a worker wants done next.
#[derive(Clone, Copy, PartialEq, Eq, Structural, Debug)]
pub enum Action {
    /// Tell the engine that a new game begins.
    NewGame,
    /// Analyse the position.
    Analyse,
    /// Write the game's records.
    Write,
    /// Nothing is left to do.
    Quit,
}

/// What became of an analysis.
#[derive(Clone, Copy, PartialEq, Eq, Structural, Debug)]
pub enum Taken {
    /// The position was labelled and the best move played.
    Recorded,
    /// Too few moves were scored to label the position; the best move was played.
    Skipped,
    /// There was no best move, and the game ends.
    Ended,
    /// The best move is not legal here; nothing was done.
    Illegal,
}

/// The run is to stop: someone asked for it, or enough positions are labelled.
pub open spec fn halts(w: WorkerView, stop: bool, done: u64) -> bool {
    stop || done >= w.positions
}

/// A game that begins at a position.
pub open spec fn fresh_game(fen: Seq<char>) -> GameView {
    GameView { fen, pending: Seq::empty(), result: "*"@, ply: 0, over: false }
}

/// The game as the next look at it finds it: over once it has run its plies, has
/// a result, or the run is to stop.
pub open spec fn looked_at(w: WorkerView, g: GameView, stop: bool, done: u64) -> GameView {
    if g.over || g.ply >= w.max_plies {
        GameView { over: true, ..g }
    } else {
        match result_of(g.fen) {
            Some(result) => GameView { result, over: true, ..g },
            None => GameView { over: halts(w, stop, done), ..g },
        }
    }
}

/// Where the next game of a worker begins: a function of the run's seed and settings,
/// the worker and the number of the game.
pub open spec fn first_position(w: WorkerView) -> Seq<char> {
    opening(START_FEN@, seed_of(w.seed, w.id as u64, w.game), w.random_plies as int)
}

/// A game always opens the same way, whether it is reached in one run or after any
/// number of interruptions: only the run's seed and settings, the worker and the
/// game's number decide.
pub proof fn law_games_open_the_same_way(a: WorkerView, b: WorkerView)
    requires
        a.seed == b.seed,
        a.random_plies == b.random_plies,
        a.id == b.id,
        a.game == b.game,
    ensures
        first_position(a) == first_position(b),
{
}

/// The lines of an analysis as a record keeps them.
pub open spec fn kept_lines(lines: Seq<LineView>) -> Seq<(Seq<char>, UciScore)> {
    lines.map_values(|l: LineView| (uci_of(l.mv), l.score))
}

/// What an analysis does to a game: a position whose analysis scored fewer than two
/// moves is played on from but not labelled.
pub open spec fn taken(w: WorkerView, g: GameView, lines: Seq<LineView>, depth: u32) -> (GameView, Taken) {
    if lines.len() == 0 {
        (GameView { over: true, ..g }, Taken::Ended)
    } else if !moves_of(g.fen).contains(lines[0].mv) {
        (g, Taken::Illegal)
    } else {
        let next = GameView {
            fen: fen_play(g.fen, lines[0].mv),
            ply: if g.ply == usize::MAX { usize::MAX } else { (g.ply + 1) as usize },
            ..g
        };
        if lines.len() < 2 {
            (next, Taken::Skipped)
        } else {
            let record = RecordView {
                fen: legal_fen_of(g.fen),
                game: w.game,
                ply: g.ply,
                depth,
                lines: kept_lines(lines),
            };
            (GameView { pending: g.pending.push(record), ..next }, Taken::Recorded)
        }
    }
}

/// Every label compares at least two moves: a position is never recorded with a
/// single scored move.
pub proof fn law_labels_compare_moves(w: WorkerView, g: GameView, lines: Seq<LineView>, depth: u32)
    requires
        forall|i: int| 0 <= i < g.pending.len() ==> (#[trigger] g.pending[i]).lines.len() >= 2,
    ensures
        forall|i: int| 0 <= i < taken(w, g, lines, depth).0.pending.len() ==> (
        #[trigger] taken(w, g, lines, depth).0.pending[i]).lines.len() >= 2,
{
}

pub open spec fn line_views(lines: Seq<Line>) -> Seq<LineView> {
    lines.map_values(|l: Line| l@)
}

impl Worker {
    /// A worker that begins with this game.
    pub fn new(id: usize, cfg: &Config, game: u64) -> (r: Worker)
        ensures
            r@ == (WorkerView {
                id,
                seed: cfg.seed,
                random_plies: cfg.random_plies,
                max_plies: cfg.max_plies,
                positions: cfg.positions,
                game,
                skipped: 0,
                current: None,
            }),
    {
        Worker {
            id,
            seed: cfg.seed,
            random_plies: cfg.random_plies,
            max_plies: cfg.max_plies,
            positions: cfg.positions,
            game,
            skipped: 0,
            current: None,
        }
    }

    /// Positions that were played but not labelled.
    pub fn skipped(&self) -> (r: u64)
        ensures
            r == self@.skipped,
    {
        self.skipped
    }

    /// The position to analyse.
    pub fn position(&self) -> (r: Option<&Position>)
        ensures
            match r {
                Some(pos) => self@.current is Some && pos@ == self@.current->0.fen,
                None => self@.current is None,
            },
    {
        match &self.current {
            Some(g) => Some(&g.pos),
            None => None,
        }
    }

    /// What to do next, given whether the run was asked to stop and how many
    /// positions it has labelled.
    pub fn poll(&mut self, stop: bool, done: u64) -> (r: Action)
        requires
            old(self)@.random_plies < usize::MAX,
        ensures
            match old(self)@.current {
                None => if halts(old(self)@, stop, done) {
                    r == Action::Quit && final(self)@ == old(self)@
                } else {
                    r == Action::NewGame && final(self)@ == (WorkerView {
                        current: Some(fresh_game(first_position(old(self)@))),
                        ..old(self)@
                    })
                },
                Some(g) => {
                    let after = looked_at(old(self)@, g, stop, done);
                    &&& final(self)@ == (WorkerView { current: Some(after), ..old(self)@ })
                    &&& r == (if after.over { Action::Write } else { Action::Analyse })
                },
            },
    {
        let halt = stop || done >= self.positions;
        match self.current.take() {
            None => {
                if halt {
                    return Action::Quit;
                }
                let start = Position::start();
                let pos = play_opening(&start, game_seed(self.seed, self.id, self.game), self.random_plies);
                let pending: Vec<Record> = Vec::new();
                let game = Game { pos, pending, result: "*", ply: 0, over: false };
                assert(game@.pending =~= Seq::empty());
                assert(game@ == fresh_game(first_position(old(self)@)));
                self.current = Some(game);
                Action::NewGame
            },
            Some(mut game) => {
                if !game.over {
                    if game.ply >= self.max_plies {
                        game.over = true;
                    } else {
                        match game_result(&game.pos) {
                            Some(result) => {
                                game.result = result;
                                game.over = true;
                            },
                            None => {
                                game.over = halt;
                            },
                        }
                    }
                }
                let over = game.over;
                self.current = Some(game);
                if over {
                    Action::Write
                } else {
                    Action::Analyse
                }
            },
        }
    }

    /// Take in the analysis of the current position.
    pub fn analysed(&mut self, lines: &Vec<Line>, depth: u32) -> (r: Taken)
        requires
            old(self)@.current is Some,
        ensures
            ({
                let (game, what) = taken(old(self)@, old(self)@.current->0, line_views(lines@), depth);
                &&& r == what
                &&& final(self)@ == (WorkerView {
                    current: Some(game),
                    skipped: if what == Taken::Skipped && old(self)@.skipped < u64::MAX {
                        (old(self)@.skipped + 1) as u64
                    } else {
                        old(self)@.skipped
                    },
                    ..old(self)@
                })
            }),
    {
        let ghost before = self@;
        let ghost views = line_views(lines@);
        let mut game = match self.current.take() {
            Some(g) => g,
            None => vstd::pervasive::unreached(),
        };
        let ghost g0 = game@;
        if lines.len() == 0 {
            game.over = true;
            self.current = Some(game);
            return Taken::Ended;
        }
        let best = lines[0].mv;
        assert(views[0].mv == best);
        if !is_legal(&game.pos, &best) {
            self.current = Some(game);
            return Taken::Illegal;
        }
        let label = lines.len() >= 2;
        if label {
            let record = Record {
                fen: game.pos.legal_fen(),
                game: self.game,
                ply: game.ply,
                depth,
                lines: keep_lines(lines),
            };
            let ghost rv = record@;
            assert(rv.lines =~= kept_lines(views));
            let ghost pending = game.pending@;
            game.pending.push(record);
            assert(game.pending@.map_values(|r: Record| r@) =~= pending.map_values(|r: Record| r@).push(rv));
        } else {
            self.skipped = self.skipped.saturating_add(1);
        }
        game.pos = game.pos.play_move(best);
        game.ply = game.ply.saturating_add(1);
        self.current = Some(game);
        if label {
            Taken::Recorded
        } else {
            Taken::Skipped
        }
    }

    /// The engine found no legal move: the game ends.
    pub fn no_legal_moves(&mut self)
        requires
            old(self)@.current is Some,
        ensures
            final(self)@ == (WorkerView {
                current: Some(GameView { over: true, ..old(self)@.current->0 }),
                ..old(self)@
            }),
    {
        if let Some(mut game) = self.current.take() {
            game.over = true;
            self.current = Some(game);
        }
    }

    /// End the current game and go on to the next: the lines to write, with the
    /// result that every record waited for.
    pub fn finish_game(&mut self, nodes: u64) -> (r: Vec<String>)
        requires
            old(self)@.current is Some,
            old(self)@.game < u64::MAX,
        ensures
            r@.len() == old(self)@.current->0.pending.len(),
            forall|i: int| 0 <= i < r@.len() ==> (#[trigger] r@[i])@ == record_text(
                old(self)@.current->0.pending[i],
                old(self)@.current->0.result,
                nodes,
            ),
            final(self)@ == (WorkerView { current: None, game: (old(self)@.game + 1) as u64, ..old(self)@ }),
    {
        let game = match self.current.take() {
            Some(g) => g,
            None => vstd::pervasive::unreached(),
        };
        let mut out: Vec<String> = Vec::new();
        let mut i: usize = 0;
        while i < game.pending.len()
            invariant
                i <= game.pending@.len(),
                out@.len() == i,
                forall|j: int| 0 <= j < i ==> (#[trigger] out@[j])@ == record_text(
                    game@.pending[j],
                    game@.result,
                    nodes,
                ),
            decreases game.pending@.len() - i,
        {
            assert(game@.pending[i as int] == game.pending@[i as int]@);
            out.push(game.pending[i].write(game.result, nodes));
            i = i + 1;
        }
        self.game = self.game + 1;
        out
    }
}

fn is_legal(pos: &Position, m: &Move) -> (r: bool)
    ensures
        r == moves_of(pos@).contains(*m),
{
    let moves = pos.legal_moves();
    let mut i: usize = 0;
    while i < moves.len()
        invariant
            i <= moves.len(),
            moves@ == moves_of(pos@),
            forall|j: int| 0 <= j < i ==> moves@[j] != *m,
        decreases moves.len() - i,
    {
        if moves[i] == *m {
            assert(moves@[i as int] == *m);
            return true;
        }
        i = i + 1;
    }
    false
}

fn keep_lines(lines: &Vec<Line>) -> (r: Vec<(String, UciScore)>)
    ensures
        r@.len() == lines@.len(),
        forall|i: int| 0 <= i < r@.len() ==> (#[trigger] r@[i]).0@ == uci_of(lines@[i].mv) && r@[i].1 == lines@[i].score,
{
    let mut out: Vec<(String, UciScore)> = Vec::new();
    let mut i: usize = 0;
    while i < lines.len()
        invariant
            i <= lines@.len(),
            out@.len() == i,
            forall|j: int| 0 <= j < i ==> (#[trigger] out@[j]).0@ == uci_of(lines@[j].mv) && out@[j].1
                == lines@[j].score,
        decreases lines@.len() - i,
    {
        out.push((uci_text(&lines[i].mv), lines[i].score));
        i = i + 1;
    }
    out
}

proof fn lemma_flags_shift(a: Seq<Seq<char>>, b: Seq<Seq<char>>, i: int, c: ConfigView)
    requires
        0 <= i,
    ensures
        flags_from(a + b, a.len() + i, c) == flags_from(b, i, c),
    decreases (if i < b.len() { b.len() - i } else { 0 }),
{
    let whole = a + b;
    if i < b.len() {
        let flag = b[i];
        assert(whole[a.len() + i] == flag);
        if (is_text_flag(flag) || is_number_flag(flag)) && i + 1 < b.len() {
            assert(whole[a.len() + i + 1] == b[i + 1]);
            if is_text_flag(flag) {
                lemma_flags_shift(a, b, i + 2, with_text(c, flag, b[i + 1]));
            } else if flag_number(b[i + 1]) is Some {
                lemma_flags_shift(a, b, i + 2, with_number(c, flag, flag_number(b[i + 1])->0 as u64));
            }
        }
    }
}

proof fn lemma_flags_compose(a: Seq<Seq<char>>, b: Seq<Seq<char>>, i: int, c: ConfigView)
    requires
        0 <= i <= a.len(),
        flags_from(a, i, c) is Ok,
    ensures
        flags_from(a + b, i, c) == flags_from(b, 0, flags_from(a, i, c)->Ok_0),
    decreases a.len() - i,
{
    let whole = a + b;
    if i < a.len() {
        let flag = a[i];
        assert(whole[i] == flag);
        assert(i + 1 < a.len());
        assert(whole[i + 1] == a[i + 1]);
        if is_text_flag(flag) {
            lemma_flags_compose(a, b, i + 2, with_text(c, flag, a[i + 1]));
        } else {
            lemma_flags_compose(a, b, i + 2, with_number(c, flag, flag_number(a[i + 1])->0 as u64));
        }
    } else {
        lemma_flags_shift(a, b, 0, c);
    }
}

/// Flags are taken one after the other: what follows some accepted arguments is
/// taken as if those had been set before, so a later flag overrides an earlier one.
pub proof fn law_flags_are_taken_in_order(a: Seq<Seq<char>>, b: Seq<Seq<char>>, c: ConfigView)
    requires
        flags_from(a, 0, c) is Ok,
    ensures
        flags_from(a + b, 0, c) == flags_from(b, 0, flags_from(a, 0, c)->Ok_0),
{
    lemma_flags_compose(a, b, 0, c);
}

proof fn lemma_flags_differ()
    ensures
        "--engine"@ != "--out"@,
        !is_number_flag("--engine"@),
        !is_number_flag("--out"@),
        !is_text_flag("--positions"@) && !is_text_flag("--workers"@) && !is_text_flag("--nodes"@),
        !is_text_flag("--multipv"@) && !is_text_flag("--hash"@) && !is_text_flag("--random-plies"@),
        !is_text_flag("--max-plies"@) && !is_text_flag("--shard-size"@) && !is_text_flag("--seed"@),
        "--seed"@ != "--positions"@ && "--seed"@ != "--workers"@ && "--seed"@ != "--nodes"@,
        "--seed"@ != "--multipv"@ && "--seed"@ != "--hash"@ && "--seed"@ != "--random-plies"@,
        "--seed"@ != "--max-plies"@ && "--seed"@ != "--shard-size"@,
        "--shard-size"@ != "--positions"@ && "--shard-size"@ != "--workers"@ && "--shard-size"@ != "--nodes"@,
        "--shard-size"@ != "--multipv"@ && "--shard-size"@ != "--hash"@ && "--shard-size"@ != "--random-plies"@,
        "--shard-size"@ != "--max-plies"@,
        "--max-plies"@ != "--positions"@ && "--max-plies"@ != "--workers"@ && "--max-plies"@ != "--nodes"@,
        "--max-plies"@ != "--multipv"@ && "--max-plies"@ != "--hash"@ && "--max-plies"@ != "--random-plies"@,
        "--random-plies"@ != "--positions"@ && "--random-plies"@ != "--workers"@ && "--random-plies"@ != "--nodes"@,
        "--random-plies"@ != "--multipv"@ && "--random-plies"@ != "--hash"@,
        "--hash"@ != "--positions"@ && "--hash"@ != "--workers"@ && "--hash"@ != "--nodes"@ && "--hash"@
            != "--multipv"@,
        "--multipv"@ != "--positions"@ && "--multipv"@ != "--workers"@ && "--multipv"@ != "--nodes"@,
        "--nodes"@ != "--positions"@ && "--nodes"@ != "--workers"@,
        "--workers"@ != "--positions"@,
{
    reveal_strlit("--engine");
    reveal_strlit("--out");
    reveal_strlit("--positions");
    reveal_strlit("--workers");
    reveal_strlit("--nodes");
    reveal_strlit("--multipv");
    reveal_strlit("--hash");
    reveal_strlit("--random-plies");
    reveal_strlit("--max-plies");
    reveal_strlit("--shard-size");
    reveal_strlit("--seed");
    assert("--engine"@[2] == 'e' && "--engine"@.len() == 8);
    assert("--out"@[2] == 'o' && "--out"@.len() == 5);
    assert("--positions"@[2] == 'p' && "--positions"@.len() == 11);
    assert("--workers"@[2] == 'w' && "--workers"@.len() == 9);
    assert("--nodes"@[2] == 'n' && "--nodes"@.len() == 7);
    assert("--multipv"@[2] == 'm' && "--multipv"@.len() == 9);
    assert("--hash"@[2] == 'h' && "--hash"@.len() == 6);
    assert("--random-plies"@[2] == 'r' && "--random-plies"@.len() == 14);
    assert("--max-plies"@[2] == 'm' && "--max-plies"@.len() == 11);
    assert("--shard-size"@[2] == 's' && "--shard-size"@.len() == 12);
    assert("--seed"@[2] == 's' && "--seed"@.len() == 6);
}

proof fn lemma_one_flag(flag: Seq<char>, value: Seq<char>, c: ConfigView)
    requires
        is_text_flag(flag) || is_number_flag(flag),
    ensures
        flags_from(seq![flag, value], 0, c) == (if is_text_flag(flag) {
            Ok::<ConfigView, Seq<char>>(with_text(c, flag, value))
        } else {
            match flag_number(value) {
                Some(n) => Ok::<ConfigView, Seq<char>>(with_number(c, flag, n as u64)),
                None => Err::<ConfigView, Seq<char>>("expected a number"@),
            }
        }),
{
    reveal_with_fuel(flags_from, 2);
    let args = seq![flag, value];
    assert(args.len() == 2 && args[0] == flag && args[1] == value);
}

/// Each flag that takes a text sets its own field to it and no other.
pub proof fn law_text_flags_set_their_field(c: ConfigView, value: Seq<char>)
    ensures
        flags_from(seq!["--engine"@, value], 0, c) == Ok::<ConfigView, Seq<char>>(ConfigView { engine: value, ..c }),
        flags_from(seq!["--out"@, value], 0, c) == Ok::<ConfigView, Seq<char>>(ConfigView { out: value, ..c }),
{
    lemma_flags_differ();
    lemma_one_flag("--engine"@, value, c);
    lemma_one_flag("--out"@, value, c);
}

/// Each flag that takes a number sets its own field to it and no other, and a value
/// that is no number is refused.
pub proof fn law_number_flags_set_their_field(c: ConfigView, flag: Seq<char>, value: Seq<char>)
    ensures
        flag_number(value) is Some ==> {
            let n = flag_number(value)->0;
            &&& flags_from(seq!["--positions"@, value], 0, c) == Ok::<ConfigView, Seq<char>>(
                ConfigView { positions: n as u64, ..c },
            )
            &&& flags_from(seq!["--workers"@, value], 0, c) == Ok::<ConfigView, Seq<char>>(
                ConfigView { workers: (n as u64) as usize, ..c },
            )
            &&& flags_from(seq!["--nodes"@, value], 0, c) == Ok::<ConfigView, Seq<char>>(
                ConfigView { nodes: n as u64, ..c },
            )
            &&& flags_from(seq!["--multipv"@, value], 0, c) == Ok::<ConfigView, Seq<char>>(
                ConfigView { multipv: (n as u64) as usize, ..c },
            )
            &&& flags_from(seq!["--hash"@, value], 0, c) == Ok::<ConfigView, Seq<char>>(
                ConfigView { hash_mb: (n as u64) as usize, ..c },
            )
            &&& flags_from(seq!["--random-plies"@, value], 0, c) == Ok::<ConfigView, Seq<char>>(
                ConfigView { random_plies: (n as u64) as usize, ..c },
            )
            &&& flags_from(seq!["--max-plies"@, value], 0, c) == Ok::<ConfigView, Seq<char>>(
                ConfigView { max_plies: (n as u64) as usize, ..c },
            )
            &&& flags_from(seq!["--shard-size"@, value], 0, c) == Ok::<ConfigView, Seq<char>>(
                ConfigView { shard_size: (n as u64) as usize, ..c },
            )
            &&& flags_from(seq!["--seed"@, value], 0, c) == Ok::<ConfigView, Seq<char>>(
                ConfigView { seed: n as u64, ..c },
            )
        },
        flag_number(value) is None && is_number_flag(flag) ==> flags_from(seq![flag, value], 0, c) is Err,
{
    lemma_flags_differ();
    lemma_one_flag("--positions"@, value, c);
    lemma_one_flag("--workers"@, value, c);
    lemma_one_flag("--nodes"@, value, c);
    lemma_one_flag("--multipv"@, value, c);
    lemma_one_flag("--hash"@, value, c);
    lemma_one_flag("--random-plies"@, value, c);
    lemma_one_flag("--max-plies"@, value, c);
    lemma_one_flag("--shard-size"@, value, c);
    lemma_one_flag("--seed"@, value, c);
    if is_number_flag(flag) && flag_number(value) is None {
        lemma_one_flag(flag, value, c);
    }
}

/// Underscores only group the digits of a number: wherever they stand they are left
/// out, and every other character is kept.
pub proof fn law_underscores_group_digits(a: Seq<char>, b: Seq<char>, c: char)
    ensures
        without_underscores(a + b) == without_underscores(a) + without_underscores(b),
        without_underscores(Seq::empty()) == Seq::<char>::empty(),
        without_underscores(seq!['_']) == Seq::<char>::empty(),
        c != '_' ==> without_underscores(seq![c]) == seq![c],
        flag_number(a) == unsigned_number(without_underscores(a), u64::MAX as nat),
    decreases b.len(),
{
    reveal_with_fuel(without_underscores, 2);
    assert(seq!['_'].drop_last() =~= Seq::empty());
    assert(seq![c].drop_last() =~= Seq::empty());
    if b.len() == 0 {
        assert(a + b =~= a);
        assert(without_underscores(a) + without_underscores(b) =~= without_underscores(a));
    } else {
        law_underscores_group_digits(a, b.drop_last(), c);
        assert((a + b).drop_last() =~= a + b.drop_last());
        assert((a + b).last() == b.last());
        assert(without_underscores(a + b) =~= without_underscores(a) + without_underscores(b));
    }
}

/// An engine is all that a run needs to be told; what it is not told has its default.
pub proof fn law_an_engine_is_enough(engine: Seq<char>)
    requires
        engine.len() > 0,
    ensures
        config_of(seq!["--engine"@, engine]) == Ok::<ConfigView, Seq<char>>(
            ConfigView {
                engine,
                out: "data"@,
                positions: 1_000_000,
                workers: 2,
                nodes: 10_000,
                multipv: 4,
                hash_mb: 64,
                random_plies: 8,
                max_plies: 240,
                shard_size: 50_000,
                seed: 24301,
            },
        ),
{
    law_text_flags_set_their_field(default_config(), engine);
}

/// A run without an engine or without workers is refused, and one that is accepted
/// was told what its flags say.
pub proof fn law_runs_need_an_engine_and_workers(args: Seq<Seq<char>>)
    ensures
        config_of(args) is Ok ==> config_of(args)->Ok_0.engine.len() > 0 && config_of(args)->Ok_0.workers > 0
            && flags_from(args, 0, default_config()) == config_of(args),
        flags_from(args, 0, default_config()) is Ok && config_of(args) is Err ==> {
            let c = flags_from(args, 0, default_config())->Ok_0;
            c.engine.len() == 0 || c.workers == 0
        },
        flags_from(args, 0, default_config()) is Err ==> config_of(args) == flags_from(args, 0, default_config()),
        config_of(Seq::empty()) is Err,
{
}

/// The side that is mated loses. A game without moves but without check is drawn, and
/// so is one in which neither side can mate or in which a hundred plies went by
/// without a capture or pawn move. Any other game goes on.
pub proof fn law_results(fen: Seq<char>)
    ensures
        ({
            let stuck = moves_of(fen).len() == 0;
            let check = state(fen).in_check();
            let mated = stuck && check;
            &&& mated && state(fen).turn == Color::White <==> result_of(fen) == Some("0-1"@)
            &&& mated && state(fen).turn == Color::Black <==> result_of(fen) == Some("1-0"@)
            &&& !mated && (stuck || insufficient_of(fen) || state(fen).halfmoves >= 100) <==> result_of(fen) == Some(
                "1/2-1/2"@,
            )
            &&& !stuck && !insufficient_of(fen) && state(fen).halfmoves < 100 <==> result_of(fen) is None
        }),
{
    reveal_strlit("0-1");
    reveal_strlit("1-0");
    reveal_strlit("1/2-1/2");
    assert("0-1"@[0] == '0' && "1-0"@[0] == '1' && "0-1"@.len() == 3 && "1-0"@.len() == 3);
    assert("1/2-1/2"@.len() == 7);
}

/// Two amounts in units of so many seconds make up a span, but for less than one of
/// the smaller unit, and the smaller amount does not reach the larger unit.
pub open spec fn makes_up(s: nat, large: nat, small: nat, large_unit: nat, small_unit: nat) -> bool {
    &&& large * large_unit + small * small_unit <= s < large * large_unit + (small + 1) * small_unit
    &&& small * small_unit < large_unit
}

/// A span of time is told in its two largest units: seconds below a minute, minutes
/// and seconds below an hour, hours and minutes below a day, and days and hours.
pub proof fn law_spans_are_told_in_two_units(s: nat)
    ensures
        s < 60 ==> span_text(s) == decimal(s) + "s"@,
        60 <= s < 3600 ==> exists|a: nat, b: nat|
            #[trigger] makes_up(s, a, b, 60, 1) && span_text(s) == decimal(a) + "m"@ + zero_padded(b, 2) + "s"@,
        3600 <= s < 86400 ==> exists|a: nat, b: nat|
            #[trigger] makes_up(s, a, b, 3600, 60) && span_text(s) == decimal(a) + "h"@ + zero_padded(b, 2) + "m"@,
        86400 <= s ==> exists|a: nat, b: nat|
            #[trigger] makes_up(s, a, b, 86400, 3600) && span_text(s) == decimal(a) + "d"@ + zero_padded(b, 2) + "h"@,
{
    if 60 <= s < 3600 {
        assert(makes_up(s, s / 60, s % 60, 60, 1));
    } else if 3600 <= s < 86400 {
        assert(makes_up(s, s / 3600, (s % 3600) / 60, 3600, 60));
    } else if 86400 <= s {
        assert(makes_up(s, s / 86400, (s % 86400) / 3600, 86400, 3600));
    }
}

/// A line of legal moves, each told by its place among the moves, leads from one
/// position to another.
pub open spec fn leads_to(fen: Seq<char>, places: Seq<int>, end: Seq<char>) -> bool
    decreases places.len(),
{
    if places.len() == 0 {
        fen == end
    } else {
        0 <= places[0] < moves_of(fen).len() && leads_to(fen_after(fen, places[0]), places.skip(1), end)
    }
}

/// The random plies lead by legal moves to where the engine takes over: as many as
/// were asked for, or fewer if a position has no moves.
pub proof fn law_random_plies_are_legal(fen: Seq<char>, rng: u64, plies: nat)
    ensures
        exists|places: Seq<int>|
            #[trigger] leads_to(fen, places, opened(fen, rng, plies as int)) && places.len() <= plies && (places.len()
                < plies ==> moves_of(opened(fen, rng, plies as int)).len() == 0),
    decreases plies,
{
    let count = moves_of(fen).len();
    let end = opened(fen, rng, plies as int);
    if plies == 0 || count == 0 {
        let places = Seq::<int>::empty();
        assert(leads_to(fen, places, end));
    } else {
        let next = xorshift(rng);
        let k = next as int % count as int;
        assert(0 <= k < count);
        let after = fen_after(fen, k);
        law_random_plies_are_legal(after, next, (plies - 1) as nat);
        let rest = choose|places: Seq<int>|
            #[trigger] leads_to(after, places, opened(after, next, plies - 1)) && places.len() <= plies - 1 && (
            places.len() < plies - 1 ==> moves_of(opened(after, next, plies - 1)).len() == 0);
        let places = seq![k] + rest;
        assert(places.skip(1) =~= rest);
        assert(places[0] == k);
        assert(leads_to(fen, places, end));
    }
}

/// An opening plays the random plies that were asked for, or one more.
pub proof fn law_openings_are_jittered_by_one(fen: Seq<char>, seed: u64, plies: nat)
    ensures
        xorshift(seed) % 2 == 0 ==> opening(fen, seed, plies as int) == opened(fen, xorshift(seed), plies as int),
        xorshift(seed) % 2 == 1 ==> opening(fen, seed, plies as int) == opened(fen, xorshift(seed), plies as int + 1),
{
}

/// A game is over once it was, once the engine has played its plies, once it has a
/// result, or once the run is to stop. Looking at a game changes neither its position
/// nor what waits to be written, and gives it a result only where there is one.
pub proof fn law_when_a_game_is_over(w: WorkerView, g: GameView, stop: bool, done: u64)
    ensures
        ({
            let after = looked_at(w, g, stop, done);
            &&& after.over <==> g.over || g.ply >= w.max_plies || result_of(g.fen) is Some || stop || done
                >= w.positions
            &&& after.fen == g.fen && after.pending == g.pending && after.ply == g.ply
            &&& !g.over && g.ply < w.max_plies && result_of(g.fen) is Some ==> Some(after.result) == result_of(g.fen)
            &&& result_of(g.fen) is None ==> after.result == g.result
        }),
{
}

/// A game begins with no result, nothing to write and no plies of the engine.
pub proof fn law_games_begin_afresh(fen: Seq<char>)
    ensures
        fresh_game(fen).fen == fen,
        fresh_game(fen).pending.len() == 0,
        fresh_game(fen).result == "*"@,
        fresh_game(fen).ply == 0,
        !fresh_game(fen).over,
{
}

/// An analysis plays its best line's move. With two lines or more it labels the
/// position from before the move: its text, the game, the ply, the depth, and every
/// line's move and score in their order. With one line nothing is labelled; with none
/// the game ends where it is, and a move that is not legal changes nothing.
pub proof fn law_what_an_analysis_does(w: WorkerView, g: GameView, lines: Seq<LineView>, depth: u32)
    ensures
        ({
            let after = taken(w, g, lines, depth).0;
            let what = taken(w, g, lines, depth).1;
            let legal = lines.len() > 0 && moves_of(g.fen).contains(lines[0].mv);
            &&& what == Taken::Ended <==> lines.len() == 0
            &&& what == Taken::Illegal <==> lines.len() > 0 && !legal
            &&& what == Taken::Skipped <==> legal && lines.len() == 1
            &&& what == Taken::Recorded <==> legal && lines.len() >= 2
            &&& what == Taken::Illegal ==> after == g
            &&& what == Taken::Ended ==> after.over && after.fen == g.fen && after.pending == g.pending && after.result
                == g.result
            &&& legal ==> after.fen == fen_play(g.fen, lines[0].mv) && after.over == g.over && after.result
                == g.result && (g.ply < usize::MAX ==> after.ply == g.ply + 1)
            &&& what == Taken::Skipped ==> after.pending == g.pending
            &&& what == Taken::Recorded ==> {
                let n = g.pending.len() as int;
                let label = after.pending[n];
                &&& after.pending.len() == n + 1
                &&& after.pending.take(n) == g.pending
                &&& label.fen == legal_fen_of(g.fen)
                &&& label.game == w.game
                &&& label.ply == g.ply
                &&& label.depth == depth
                &&& label.lines.len() == lines.len()
                &&& forall|i: int|
                    0 <= i < lines.len() ==> (#[trigger] label.lines[i]) == (uci_of(lines[i].mv), lines[i].score)
            }
        }),
{
    if lines.len() >= 2 && moves_of(g.fen).contains(lines[0].mv) {
        let after = taken(w, g, lines, depth).0;
        assert(after.pending.take(g.pending.len() as int) =~= g.pending);
    }
}

} // verus!
