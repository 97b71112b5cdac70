//! The run browser: turns what a run keeps on disk into the messages that
//! viewers read.
//!
//! The files are read by the caller. Two layouts are understood: a run has
//! `config.json` and `trainer_state.json`, an older one `meta.json` and
//! `status.json` in their place.

use vstd::prelude::*;
use vstd::string::*;

use crate::league;
use crate::order;
use crate::registry;
use crate::sample::{self, Coord, FrameJson, GameFileJson, GameJson, SnakeJson};
use crate::state;
use crate::text;

verus! {

// ---- which run ----

/// Whether a text holds two dots in a row.
pub open spec fn has_dots(s: Seq<char>) -> bool {
    exists|i: int| 0 <= i < s.len() - 1 && #[trigger] s[i] == '.' && s[i + 1] == '.'
}

/// Whether a run's name is a plain directory name: not empty, no separator, no
/// two dots in a row.
pub open spec fn is_plain_name(s: Seq<char>) -> bool {
    &&& s.len() > 0
    &&& !s.contains('/')
    &&& !s.contains('\\')
    &&& !has_dots(s)
}

/// Whether a run's name is a plain directory name.
fn plain_name(s: &Vec<char>) -> (r: bool)
    ensures
        r == is_plain_name(s@),
{
    if s.len() == 0 {
        return false;
    }
    let mut i: usize = 0;
    while i < s.len()
        invariant
            i <= s@.len(),
            forall|k: int| 0 <= k < i ==> #[trigger] s@[k] != '/' && s@[k] != '\\',
            forall|k: int|
                0 <= k < i && k < s@.len() - 1 ==> !(#[trigger] s@[k] == '.' && s@[k + 1] == '.'),
        decreases s@.len() - i,
    {
        if s[i] == '/' {
            assert(s@.contains('/'));
            return false;
        }
        if s[i] == '\\' {
            assert(s@.contains('\\'));
            return false;
        }
        if s[i] == '.' && i + 1 < s.len() && s[i + 1] == '.' {
            assert(s@[i as int] == '.' && s@[i + 1] == '.');
            assert(has_dots(s@));
            return false;
        }
        i = i + 1;
    }
    true
}

/// The directory that a run would have, if its name is a plain one.
pub fn run_path(runs_dir: &str, run_id: &str) -> (r: Option<String>)
    ensures
        match r {
            Some(p) => is_plain_name(run_id@) && p@ == state::joined(runs_dir@, run_id@),
            None => !is_plain_name(run_id@),
        },
        r is Some ==> run_id@.len() > 0 && !run_id@.contains('/') && !run_id@.contains('\\')
            && forall|i: int|
            0 <= i < run_id@.len() - 1 ==> !(#[trigger] run_id@[i] == '.' && run_id@[i + 1] == '.'),
{
    let id = text::chars_of(run_id);
    if plain_name(&id) {
        Some(state::join(runs_dir, run_id))
    } else {
        None
    }
}

/// A run's directory; `is_dir` tells whether there is a directory at its path.
/// A name that could leave the directory of runs is refused.
pub fn resolve_run(runs_dir: &str, run_id: &str, is_dir: bool) -> (r: Option<String>)
    ensures
        match r {
            Some(p) => {
                &&& is_plain_name(run_id@)
                &&& is_dir
                &&& p@ == state::joined(runs_dir@, run_id@)
            },
            None => !(is_plain_name(run_id@) && is_dir),
        },
{
    if is_dir {
        run_path(runs_dir, run_id)
    } else {
        None
    }
}

/// No name leads out of the directory of runs: what a resolved path adds to the
/// directory is a separator at the most and one plain name.
pub proof fn resolved_run_stays_inside(runs_dir: Seq<char>, run_id: Seq<char>)
    requires
        is_plain_name(run_id),
        runs_dir.len() > 0,
    ensures
        ({
            let p = state::joined(runs_dir, run_id);
            let added = p.skip(runs_dir.len() as int);
            &&& text::starts_with(p, runs_dir)
            &&& added == run_id || added == seq!['/'] + run_id
            &&& !has_dots(added)
        }),
{
    let p = state::joined(runs_dir, run_id);
    let added = p.skip(runs_dir.len() as int);
    assert(run_id[0] != '/') by {
        if run_id[0] == '/' {
            assert(run_id.contains('/'));
        }
    }
    assert(p.take(runs_dir.len() as int) =~= runs_dir);
    if runs_dir.last() == '/' {
        assert(added =~= run_id);
    } else {
        assert(added =~= seq!['/'] + run_id);
        if has_dots(added) {
            let i = choose|i: int|
                0 <= i < added.len() - 1 && #[trigger] added[i] == '.' && added[i + 1] == '.';
            assert(run_id[i - 1] == '.' && run_id[i - 1 + 1] == '.');
            assert(has_dots(run_id));
        }
    }
}

// ---- numbers out of JSON texts ----

/// Whether a text is a JSON value, as serde_json reads it.
pub uninterp spec fn json_valid(text: Seq<char>) -> bool;

/// The unsigned number that a JSON object has under a key, as serde_json reads
/// it.
pub uninterp spec fn json_number(text: Seq<char>, key: Seq<char>) -> Option<u64>;

/// `serde_json::from_str` into a `serde_json::Value`: whether it succeeds
/// depends on the text alone.
#[verifier::external_body]
fn parse_json(text: &str) -> (r: bool)
    ensures
        r == json_valid(text@),
{
    serde_json::from_str::<serde_json::Value>(text).is_ok()
}

/// `serde_json::Value::get` with a key and `as_u64` on what it finds, for the
/// value that `from_str` reads out of the text. The result depends on the text
/// and the key alone, and there is none in a text that is not JSON.
#[verifier::external_body]
fn json_number_at(text: &str, key: &str) -> (r: Option<u64>)
    ensures
        r == json_number(text@, key@),
        r is Some ==> json_valid(text@),
{
    serde_json::from_str::<serde_json::Value>(text).ok()?.get(key)?.as_u64()
}

/// The rows of a metrics history: the text's nonblank lines, trimmed, that are
/// JSON; any other line is passed over.
pub fn history_rows(text: &str) -> (rows: Vec<String>)
    ensures
        registry::strings(rows@) == text::content_lines(text@).filter(|l: Seq<char>| json_valid(l)),
{
    let ghost valid = |l: Seq<char>| json_valid(l);
    let ghost all = text::content_lines(text@);
    let lines = text::nonblank_lines(&text::chars_of(text));
    let mut rows: Vec<String> = Vec::new();
    let mut i: usize = 0;
    proof {
        reveal(Seq::filter);
        assert(all.take(0).filter(valid) =~= registry::strings(rows@));
        assert(text::texts(lines@).len() == lines@.len());
    }
    while i < lines.len()
        invariant
            i <= lines@.len(),
            valid == (|l: Seq<char>| json_valid(l)),
            all == text::texts(lines@),
            registry::strings(rows@) == all.take(i as int).filter(valid),
        decreases lines@.len() - i,
    {
        let line = text::string_of(&lines[i]);
        let ghost before = rows@;
        proof {
            reveal(Seq::filter);
            assert(all.take(i + 1).drop_last() =~= all.take(i as int));
            assert(all.take(i + 1).last() == line@);
        }
        if parse_json(line.as_str()) {
            rows.push(line);
            assert(registry::strings(rows@) =~= registry::strings(before).push(line@));
        }
        i = i + 1;
    }
    assert(all.take(i as int) =~= all);
    rows
}

/// The text of an optional string.
pub open spec fn opt_text(s: Option<String>) -> Option<Seq<char>> {
    match s {
        Some(t) => Some(t@),
        None => None,
    }
}

/// The first of two files that is there and is JSON.
pub open spec fn first_json(a: Option<Seq<char>>, b: Option<Seq<char>>) -> Option<Seq<char>> {
    if a matches Some(t) && json_valid(t) {
        a
    } else if b matches Some(t) && json_valid(t) {
        b
    } else {
        None
    }
}

/// The first of two files that is there and is JSON.
fn pick_json<'a>(a: &'a Option<String>, b: &'a Option<String>) -> (r: Option<&'a String>)
    ensures
        match r {
            Some(s) => first_json(opt_text(*a), opt_text(*b)) == Some(s@),
            None => first_json(opt_text(*a), opt_text(*b)) is None,
        },
{
    match a {
        Some(s) => {
            if parse_json(s.as_str()) {
                return Some(s);
            }
        },
        None => {},
    }
    match b {
        Some(s) => {
            if parse_json(s.as_str()) {
                return Some(s);
            }
        },
        None => {},
    }
    None
}

/// The lower 32 bits of a number.
pub open spec fn low_bits(n: Option<u64>) -> Option<u32> {
    match n {
        Some(v) => Some(v as u32),
        None => None,
    }
}

/// The lower 32 bits of a number.
pub fn low_word(n: Option<u64>) -> (r: Option<u32>)
    ensures
        r == low_bits(n),
{
    match n {
        Some(v) => Some(#[verifier::truncate] (v as u32)),
        None => None,
    }
}

/// The lower 32 bits of the number that a file has under a key.
pub open spec fn field(file: Option<Seq<char>>, key: Seq<char>) -> Option<u32> {
    match file {
        Some(t) => low_bits(json_number(t, key)),
        None => None,
    }
}

/// The lower 32 bits of the number that a file has under a key.
fn u32_field(file: Option<&String>, key: &str) -> (r: Option<u32>)
    ensures
        r == field(
            match file {
                Some(s) => Some(s@),
                None => None,
            },
            key@,
        ),
{
    match file {
        Some(s) => low_word(json_number_at(s.as_str(), key)),
        None => None,
    }
}

/// The numbers that a run's files give of it.
#[derive(Clone, Copy, Debug, PartialEq, Eq, Structural)]
pub struct RunNumbers {
    pub generation: Option<u32>,
    pub total_generations: Option<u32>,
    pub board: Option<u32>,
    pub num_snakes: Option<u32>,
}

/// The numbers that a run's files give of it: its progress from the trainer's
/// state, its game from the configuration, each from the first file of the two
/// layouts that is JSON.
pub open spec fn numbers_of<F>(files: RunFiles<F>) -> RunNumbers {
    let cfg = first_json(opt_text(files.config), opt_text(files.meta));
    let st = first_json(opt_text(files.trainer_state), opt_text(files.status));
    RunNumbers {
        generation: field(st, "generation"@),
        total_generations: field(st, "total_generations"@),
        board: field(cfg, "board"@),
        num_snakes: field(cfg, "num_snakes"@),
    }
}

/// The numbers that a run's files give of it.
pub fn read_numbers<F>(files: &RunFiles<F>) -> (n: RunNumbers)
    ensures
        n == numbers_of(*files),
{
    let cfg = pick_json(&files.config, &files.meta);
    let st = pick_json(&files.trainer_state, &files.status);
    RunNumbers {
        generation: u32_field(st, "generation"),
        total_generations: u32_field(st, "total_generations"),
        board: u32_field(cfg, "board"),
        num_snakes: u32_field(cfg, "num_snakes"),
    }
}

// ---- metrics ----

/// One line of the metrics file; `F` is its number type. The win rate is there
/// only where one was measured: a finite, positive one.
pub struct MetricJson<F> {
    pub generation: Option<u32>,
    pub policy_loss: Option<F>,
    pub value_loss: Option<F>,
    pub win_rate: Option<F>,
    pub completed_games: Option<u32>,
    pub target_entropy: Option<F>,
    pub samples: Option<u32>,
    pub turns: Option<u32>,
    pub buffer: Option<u64>,
    pub gen_seconds: Option<F>,
    pub play_seconds: Option<F>,
    pub train_seconds: Option<F>,
    pub inferences_per_sec: Option<F>,
    pub games_per_sec: Option<F>,
    pub gpu_busy_pct: Option<F>,
    pub avg_game_turn: Option<F>,
}

/// One generation's metrics, as viewers read them.
pub struct MetricRow<F> {
    pub generation: u32,
    pub policy_loss: F,
    pub value_loss: F,
    pub win_rate: F,
    pub has_win_rate: bool,
    pub completed_games: u32,
    pub target_entropy: F,
    pub samples: u32,
    pub turns: u32,
    pub buffer: u64,
    pub gen_seconds: F,
    pub play_seconds: F,
    pub train_seconds: F,
    pub inferences_per_sec: F,
    pub games_per_sec: F,
    pub gpu_busy_pct: F,
    pub avg_game_turn: F,
}

/// `o`, or `d` in its place.
pub open spec fn or<T>(o: Option<T>, d: T) -> T {
    match o {
        Some(v) => v,
        None => d,
    }
}

/// `o`, or `d` in its place.
fn either<T: Copy>(o: Option<T>, d: T) -> (r: T)
    ensures
        r == or(o, d),
{
    match o {
        Some(v) => v,
        None => d,
    }
}

/// The row of line `i`: what is missing is zero, and the generation is the
/// line's number.
pub open spec fn row_of<F>(m: MetricJson<F>, i: int, zero: F) -> MetricRow<F> {
    MetricRow {
        generation: or(m.generation, i as u32),
        policy_loss: or(m.policy_loss, zero),
        value_loss: or(m.value_loss, zero),
        win_rate: or(m.win_rate, zero),
        has_win_rate: m.win_rate is Some,
        completed_games: or(m.completed_games, 0),
        target_entropy: or(m.target_entropy, zero),
        samples: or(m.samples, 0),
        turns: or(m.turns, 0),
        buffer: or(m.buffer, 0),
        gen_seconds: or(m.gen_seconds, zero),
        play_seconds: or(m.play_seconds, zero),
        train_seconds: or(m.train_seconds, zero),
        inferences_per_sec: or(m.inferences_per_sec, zero),
        games_per_sec: or(m.games_per_sec, zero),
        gpu_busy_pct: or(m.gpu_busy_pct, zero),
        avg_game_turn: or(m.avg_game_turn, zero),
    }
}

/// The rows of the lines that could be read.
pub open spec fn rows_of<F>(lines: Seq<Option<MetricJson<F>>>, zero: F) -> Seq<MetricRow<F>>
    decreases lines.len(),
{
    if lines.len() == 0 {
        Seq::empty()
    } else {
        let rest = rows_of(lines.drop_last(), zero);
        match lines.last() {
            Some(m) => rest.push(row_of(m, lines.len() - 1, zero)),
            None => rest,
        }
    }
}

/// The rows of the metrics file, from what was read of its nonblank lines: one
/// that could not be read is left out, and still counts as a line.
pub fn metrics<F: Copy>(lines: &Vec<Option<MetricJson<F>>>, zero: F) -> (rows: Vec<MetricRow<F>>)
    ensures
        rows@ == rows_of(lines@, zero),
{
    let mut rows: Vec<MetricRow<F>> = Vec::new();
    let mut i: usize = 0;
    while i < lines.len()
        invariant
            i <= lines@.len(),
            rows@ == rows_of(lines@.take(i as int), zero),
        decreases lines@.len() - i,
    {
        assert(lines@.take(i + 1).drop_last() =~= lines@.take(i as int));
        match &lines[i] {
            Some(m) => {
                let at: u32 = #[verifier::truncate] (i as u32);
                let row = MetricRow {
                    generation: either(m.generation, at),
                    policy_loss: either(m.policy_loss, zero),
                    value_loss: either(m.value_loss, zero),
                    win_rate: either(m.win_rate, zero),
                    has_win_rate: m.win_rate.is_some(),
                    completed_games: either(m.completed_games, 0),
                    target_entropy: either(m.target_entropy, zero),
                    samples: either(m.samples, 0),
                    turns: either(m.turns, 0),
                    buffer: either(m.buffer, 0),
                    gen_seconds: either(m.gen_seconds, zero),
                    play_seconds: either(m.play_seconds, zero),
                    train_seconds: either(m.train_seconds, zero),
                    inferences_per_sec: either(m.inferences_per_sec, zero),
                    games_per_sec: either(m.games_per_sec, zero),
                    gpu_busy_pct: either(m.gpu_busy_pct, zero),
                    avg_game_turn: either(m.avg_game_turn, zero),
                };
                rows.push(row);
            },
            None => {},
        }
        i = i + 1;
    }
    assert(lines@.take(i as int) =~= lines@);
    rows
}

// ---- recorded generations ----

/// A recorded generation.
#[derive(Clone, Copy, Debug, PartialEq, Eq, Structural)]
pub struct GameGen {
    pub gen: u32,
    pub num_games: u32,
}

/// The generation of a recording, from its name.
pub open spec fn name_gen(name: Seq<char>) -> Option<nat> {
    league::number_between(name, "gen_"@, ".json"@, u32::MAX as nat)
}

/// The generation of a recording, from its name.
pub fn gen_from_name(name: &Vec<char>) -> (r: Option<u32>)
    ensures
        match r {
            Some(g) => name_gen(name@) == Some(g as nat),
            None => name_gen(name@) is None,
        },
{
    match league::parse_between(name, "gen_", ".json", u32::MAX as u64) {
        Some(v) => {
            assert(v <= u32::MAX);
            Some(v as u32)
        },
        None => None,
    }
}

/// The name of a generation's recording reads back as the generation, and it is
/// one of those that are pruned.
pub proof fn generation_file_reads_back(gen: u32)
    ensures
        name_gen(sample::generation_file(gen)) == Some(gen as nat),
        sample::is_generation_file(sample::generation_file(gen)),
{
    let name = sample::generation_file(gen);
    assert(name.take("gen_"@.len() as int) =~= "gen_"@);
    assert(name.skip(name.len() - ".json"@.len()) =~= ".json"@);
    league::padded_number_reads_back("gen_"@, gen as nat, 4, ".json"@, u32::MAX as nat);
}

/// The generations of the recordings in a directory, one for each.
pub open spec fn named_gens(names: Seq<Vec<char>>) -> Seq<u32>
    decreases names.len(),
{
    if names.len() == 0 {
        Seq::empty()
    } else {
        let rest = named_gens(names.drop_last());
        match name_gen(names.last()@) {
            Some(g) => rest.push(g as u32),
            None => rest,
        }
    }
}

/// Whether `r` lists the recorded generations once each, newest first.
pub open spec fn lists_gens(names: Seq<Vec<char>>, r: Seq<GameGen>) -> bool {
    &&& forall|i: int, j: int| 0 <= i < j < r.len() ==> (#[trigger] r[i]).gen > (#[trigger] r[j]).gen
    &&& forall|i: int|
        0 <= i < r.len() ==> named_gens(names).contains((#[trigger] r[i]).gen) && r[i].num_games
            == 0
    &&& forall|g: u32| #[trigger]
        named_gens(names).contains(g) ==> exists|i: int| 0 <= i < r.len() && (#[trigger] r[i]).gen
            == g
}

/// The recorded generations, newest first, from the names of the files in the
/// directory of recordings.
pub fn game_gens(names: &Vec<Vec<char>>) -> (r: Vec<GameGen>)
    ensures
        lists_gens(names@, r@),
{
    let mut all: Vec<u32> = Vec::new();
    let mut i: usize = 0;
    assert(names@.take(0) =~= Seq::<Vec<char>>::empty());
    while i < names.len()
        invariant
            i <= names@.len(),
            all@ == named_gens(names@.take(i as int)),
        decreases names@.len() - i,
    {
        assert(names@.take(i + 1).drop_last() =~= names@.take(i as int));
        match gen_from_name(&names[i]) {
            Some(g) => {
                all.push(g);
            },
            None => {},
        }
        i = i + 1;
    }
    assert(names@.take(i as int) =~= names@);
    let gens = order::sorted_set(&all);
    let n: usize = gens.len();
    let mut r: Vec<GameGen> = Vec::new();
    let mut k: usize = 0;
    while k < n
        invariant
            k <= n,
            n == gens@.len(),
            r@.len() == k,
            forall|j: int|
                0 <= j < k ==> (#[trigger] r@[j]) == (GameGen {
                    gen: gens@[n - 1 - j],
                    num_games: 0,
                }),
        decreases n - k,
    {
        r.push(GameGen { gen: gens[n - 1 - k], num_games: 0 });
        k = k + 1;
    }
    proof {
        let a = named_gens(names@);
        assert forall|j: int| 0 <= j < r@.len() implies a.contains((#[trigger] r@[j]).gen)
            && r@[j].num_games == 0 by {
            assert(gens@.contains(gens@[n - 1 - j]));
        }
        assert forall|g: u32| #[trigger] a.contains(g) implies exists|j: int|
            0 <= j < r@.len() && (#[trigger] r@[j]).gen == g by {
            assert(gens@.contains(g));
            let m = choose|m: int| 0 <= m < gens@.len() && gens@[m] == g;
            assert(r@[n - 1 - m].gen == g);
        }
    }
    r
}

// ---- runs ----

/// What was read of a run's directory.
pub struct RunFiles<F> {
    /// `config.json`, `meta.json`, `trainer_state.json` and `status.json`.
    pub config: Option<String>,
    pub meta: Option<String>,
    pub trainer_state: Option<String>,
    pub status: Option<String>,
    /// What was read of the nonblank lines of `metrics.jsonl`.
    pub metrics: Vec<Option<MetricJson<F>>>,
    /// The names of the files in the directory of recordings.
    pub games: Vec<Vec<char>>,
    /// When the directory was changed last.
    pub modified_unix_ms: i64,
}

/// One run in the list of runs.
pub struct RunSummary<F> {
    pub run_id: String,
    pub live: bool,
    pub running: bool,
    pub generation: u32,
    pub total_generations: u32,
    pub board: u32,
    pub num_snakes: u32,
    pub policy_loss: F,
    pub value_loss: F,
    pub win_rate: F,
    pub has_win_rate: bool,
    pub game_gen_count: u32,
    pub updated_unix_ms: i64,
}

/// How many recorded generations a directory has.
pub open spec fn gen_count(names: Seq<Vec<char>>) -> nat {
    named_gens(names).to_set().len()
}

proof fn lemma_gen_count(names: Seq<Vec<char>>, r: Seq<GameGen>)
    requires
        lists_gens(names, r),
    ensures
        r.len() == gen_count(names),
{
    let gens = r.map_values(|g: GameGen| g.gen);
    assert(gens.no_duplicates()) by {
        assert forall|i: int, j: int|
            0 <= i < gens.len() && 0 <= j < gens.len() && i != j implies gens[i] != gens[j] by {
            if i < j {
                assert(r[i].gen > r[j].gen);
            } else {
                assert(r[j].gen > r[i].gen);
            }
        }
    }
    gens.unique_seq_to_set();
    assert(gens.to_set() =~= named_gens(names).to_set()) by {
        assert forall|g: u32| gens.to_set().contains(g) <==> named_gens(names).to_set().contains(g)
        by {
            if gens.contains(g) {
                let i = choose|i: int| 0 <= i < gens.len() && gens[i] == g;
                assert(named_gens(names).contains(r[i].gen));
            }
            if named_gens(names).contains(g) {
                let i = choose|i: int| 0 <= i < r.len() && (#[trigger] r[i]).gen == g;
                assert(gens[i] == g);
            }
        }
    }
}

/// Whether a summary describes a run. The live one is the active one, and it
/// is running where the trainer is. The generation comes from the run's
/// numbers, else from the latest metrics.
pub open spec fn summarizes<F>(
    s: RunSummary<F>,
    files: RunFiles<F>,
    numbers: RunNumbers,
    run_id: Seq<char>,
    active: Option<Seq<char>>,
    running: bool,
    zero: F,
) -> bool {
    let rows = rows_of(files.metrics@, zero);
    let known = rows.len() > 0;
    let last = rows.last();
    &&& s.run_id@ == run_id
    &&& s.live == (active == Some(run_id))
    &&& s.running == (s.live && running)
    &&& s.generation == or(
        numbers.generation,
        if known {
            last.generation
        } else {
            0
        },
    )
    &&& s.total_generations == or(numbers.total_generations, 0)
    &&& s.board == or(numbers.board, 0)
    &&& s.num_snakes == or(numbers.num_snakes, 0)
    &&& s.policy_loss == if known {
        last.policy_loss
    } else {
        zero
    }
    &&& s.value_loss == if known {
        last.value_loss
    } else {
        zero
    }
    &&& s.win_rate == if known {
        last.win_rate
    } else {
        zero
    }
    &&& s.has_win_rate == (known && last.has_win_rate)
    &&& s.game_gen_count == gen_count(files.games@) as u32
    &&& s.updated_unix_ms == files.modified_unix_ms
}

/// The summary of a run, from what its files hold and the numbers in them.
pub fn summary_with<F: Copy>(
    files: &RunFiles<F>,
    numbers: &RunNumbers,
    run_id: &str,
    active: Option<&str>,
    running: bool,
    zero: F,
) -> (s: RunSummary<F>)
    ensures
        summarizes(
            s,
            *files,
            *numbers,
            run_id@,
            match active {
                Some(a) => Some(a@),
                None => None,
            },
            running,
            zero,
        ),
{
    let rows = metrics(&files.metrics, zero);
    let n: usize = rows.len();
    let is_live = match active {
        Some(a) => {
            let x = text::chars_of(a);
            let y = text::chars_of(run_id);
            text::same_text(&x, &y)
        },
        None => false,
    };
    let gens = game_gens(&files.games);
    proof {
        lemma_gen_count(files.games@, gens@);
    }
    let count: u32 = #[verifier::truncate] (gens.len() as u32);
    let latest: u32 = if n > 0 {
        rows[n - 1].generation
    } else {
        0
    };
    RunSummary {
        run_id: text::copy_str(run_id),
        live: is_live,
        running: is_live && running,
        generation: either(numbers.generation, latest),
        total_generations: either(numbers.total_generations, 0),
        board: either(numbers.board, 0),
        num_snakes: either(numbers.num_snakes, 0),
        policy_loss: if n > 0 {
            rows[n - 1].policy_loss
        } else {
            zero
        },
        value_loss: if n > 0 {
            rows[n - 1].value_loss
        } else {
            zero
        },
        win_rate: if n > 0 {
            rows[n - 1].win_rate
        } else {
            zero
        },
        has_win_rate: n > 0 && rows[n - 1].has_win_rate,
        game_gen_count: count,
        updated_unix_ms: files.modified_unix_ms,
    }
}

/// The summary of a run.
pub fn summary<F: Copy>(
    files: &RunFiles<F>,
    run_id: &str,
    active: Option<&str>,
    running: bool,
    zero: F,
) -> (s: RunSummary<F>)
    ensures
        summarizes(
            s,
            *files,
            numbers_of(*files),
            run_id@,
            match active {
                Some(a) => Some(a@),
                None => None,
            },
            running,
            zero,
        ),
{
    let numbers = read_numbers(files);
    summary_with(files, &numbers, run_id, active, running, zero)
}

/// The place of a time in a list with the latest first.
pub open spec fn recency(t: i64) -> u64 {
    (i64::MAX - t) as u64
}

/// The order of the runs in the list: the latest change first, in the order
/// given where two changed at the same time.
pub fn run_list<F>(runs: &Vec<RunSummary<F>>) -> (p: Vec<usize>)
    ensures
        order::is_stable_order(
            Seq::new(runs@.len(), |i: int| recency(runs@[i].updated_unix_ms)),
            p@,
        ),
{
    let mut keys: Vec<u64> = Vec::new();
    let mut i: usize = 0;
    while i < runs.len()
        invariant
            i <= runs@.len(),
            keys@ == Seq::new(i as nat, |i: int| recency(runs@[i].updated_unix_ms)),
        decreases runs@.len() - i,
    {
        keys.push((i64::MAX as i128 - runs[i].updated_unix_ms as i128) as u64);
        i = i + 1;
        assert(keys@ =~= Seq::new(i as nat, |i: int| recency(runs@[i].updated_unix_ms)));
    }
    order::stable_order(&keys)
}

/// In the list of runs no run stands before one that changed later.
pub proof fn latest_runs_come_first<F>(runs: Seq<RunSummary<F>>, p: Seq<usize>, i: int, j: int)
    requires
        order::is_stable_order(
            Seq::new(runs.len(), |i: int| recency(runs[i].updated_unix_ms)),
            p,
        ),
        0 <= i < j < runs.len(),
    ensures
        runs[p[i] as int].updated_unix_ms >= runs[p[j] as int].updated_unix_ms,
        runs[p[i] as int].updated_unix_ms == runs[p[j] as int].updated_unix_ms ==> p[i] < p[j],
{
    let keys = Seq::new(runs.len(), |i: int| recency(runs[i].updated_unix_ms));
    assert(order::may_precede(keys, p[i], p[j]));
    assert(p[i] < runs.len() && p[j] < runs.len());
    assert(keys[p[i] as int] == recency(runs[p[i] as int].updated_unix_ms));
    assert(keys[p[j] as int] == recency(runs[p[j] as int].updated_unix_ms));
}

/// All there is to see of a run.
pub struct RunDetail<F> {
    pub summary: RunSummary<F>,
    pub config_json: String,
    pub metrics: Vec<MetricRow<F>>,
    pub game_gens: Vec<GameGen>,
}

/// The details of a run; its configuration is the text of the first
/// configuration file that is there, whatever it holds.
pub fn run_detail<F: Copy>(
    files: &RunFiles<F>,
    run_id: &str,
    active: Option<&str>,
    running: bool,
    zero: F,
) -> (d: RunDetail<F>)
    ensures
        summarizes(
            d.summary,
            *files,
            numbers_of(*files),
            run_id@,
            match active {
                Some(a) => Some(a@),
                None => None,
            },
            running,
            zero,
        ),
        d.config_json@ == or(
            opt_text(files.config),
            or(opt_text(files.meta), Seq::<char>::empty()),
        ),
        d.metrics@ == rows_of(files.metrics@, zero),
        lists_gens(files.games@, d.game_gens@),
{
    let config_json = match &files.config {
        Some(s) => text::copy_str(s.as_str()),
        None => match &files.meta {
            Some(s) => text::copy_str(s.as_str()),
            None => {
                let s = String::new();
                assert(s@ =~= Seq::<char>::empty());
                s
            },
        },
    };
    RunDetail {
        summary: summary(files, run_id, active, running, zero),
        config_json,
        metrics: metrics(&files.metrics, zero),
        game_gens: game_gens(&files.games),
    }
}

// ---- recorded games ----

/// A cell, as viewers read it.
#[derive(Clone, Copy, Debug, PartialEq, Eq, Structural)]
pub struct WirePoint {
    pub x: i32,
    pub y: i32,
}

/// A snake in a frame, as viewers read it.
pub struct WireSnake<F> {
    pub alive: bool,
    pub body: Vec<WirePoint>,
    pub health: i32,
    pub chosen_move: u32,
    pub policy: Vec<F>,
    pub play_policy: Vec<F>,
    pub value: F,
}

/// A frame, as viewers read it.
pub struct WireFrame<F> {
    pub turn: u32,
    pub width: u32,
    pub height: u32,
    pub food: Vec<WirePoint>,
    pub hazards: Vec<WirePoint>,
    pub snakes: Vec<WireSnake<F>>,
}

/// A game, as viewers read it; `winner` is -1 for a draw.
pub struct WireGame<F> {
    pub num_turns: u32,
    pub winner: i32,
    pub frames: Vec<WireFrame<F>>,
}

/// A generation's games, as viewers read them.
pub struct WireGames<F> {
    pub gen: u32,
    pub config_json: String,
    pub games: Vec<WireGame<F>>,
}

/// The points of a list of coordinate pairs.
pub open spec fn points_of(cs: Seq<Coord>) -> Seq<WirePoint> {
    cs.map_values(|c: Coord| WirePoint { x: c@[0], y: c@[1] })
}

/// The points of a list of coordinate pairs.
pub fn points(cs: &Vec<Coord>) -> (ps: Vec<WirePoint>)
    ensures
        ps@ == points_of(cs@),
{
    let mut ps: Vec<WirePoint> = Vec::new();
    let mut i: usize = 0;
    while i < cs.len()
        invariant
            i <= cs@.len(),
            ps@ == points_of(cs@.take(i as int)),
        decreases cs@.len() - i,
    {
        let c = cs[i];
        ps.push(WirePoint { x: c[0], y: c[1] });
        i = i + 1;
        assert(ps@ =~= points_of(cs@.take(i as int)));
    }
    assert(cs@.take(i as int) =~= cs@);
    ps
}

/// Whether a snake was carried over.
pub open spec fn shows_snake<F>(w: WireSnake<F>, s: SnakeJson<F>) -> bool {
    &&& w.alive == s.alive
    &&& w.body@ == points_of(s.body@)
    &&& w.health == s.health
    &&& w.chosen_move == s.chosen_move
    &&& w.policy@ == s.policy@
    &&& w.play_policy@ == s.play_policy@
    &&& w.value == s.value
}

/// Whether a frame was carried over.
pub open spec fn shows_frame<F>(w: WireFrame<F>, f: FrameJson<F>) -> bool {
    &&& w.turn == f.turn
    &&& w.width == f.width as u32
    &&& w.height == f.height as u32
    &&& w.food@ == points_of(f.food@)
    &&& w.hazards@ == points_of(f.hazards@)
    &&& w.snakes@.len() == f.snakes@.len()
    &&& forall|i: int|
        0 <= i < f.snakes@.len() ==> shows_snake(#[trigger] w.snakes@[i], f.snakes@[i])
}

/// Whether a game was carried over; where the number of turns was not
/// recorded, the frames are counted.
pub open spec fn shows_game<F>(w: WireGame<F>, g: GameJson<F>) -> bool {
    &&& w.num_turns == if g.num_turns > 0 {
        g.num_turns
    } else {
        g.frames@.len() as u32
    }
    &&& w.winner == or(g.winner, (-1) as i32)
    &&& w.frames@.len() == g.frames@.len()
    &&& forall|i: int|
        0 <= i < g.frames@.len() ==> shows_frame(#[trigger] w.frames@[i], g.frames@[i])
}

/// A frame in the format of viewers.
fn convert_frame<F: Copy>(f: &FrameJson<F>) -> (w: WireFrame<F>)
    ensures
        shows_frame(w, *f),
{
    let mut snakes: Vec<WireSnake<F>> = Vec::new();
    let mut i: usize = 0;
    while i < f.snakes.len()
        invariant
            i <= f.snakes@.len(),
            snakes@.len() == i,
            forall|k: int| 0 <= k < i ==> shows_snake(#[trigger] snakes@[k], f.snakes@[k]),
        decreases f.snakes@.len() - i,
    {
        let s = &f.snakes[i];
        let policy = sample::copy_slice(&s.policy, 0, s.policy.len());
        let play_policy = sample::copy_slice(&s.play_policy, 0, s.play_policy.len());
        assert(policy@ =~= s.policy@);
        assert(play_policy@ =~= s.play_policy@);
        snakes.push(
            WireSnake {
                alive: s.alive,
                body: points(&s.body),
                health: s.health,
                chosen_move: s.chosen_move,
                policy,
                play_policy,
                value: s.value,
            },
        );
        i = i + 1;
    }
    WireFrame {
        turn: f.turn,
        width: #[verifier::truncate] (f.width as u32),
        height: #[verifier::truncate] (f.height as u32),
        food: points(&f.food),
        hazards: points(&f.hazards),
        snakes,
    }
}

/// A game in the format of viewers.
fn convert_game<F: Copy>(g: &GameJson<F>) -> (w: WireGame<F>)
    ensures
        shows_game(w, *g),
{
    let mut frames: Vec<WireFrame<F>> = Vec::new();
    let mut i: usize = 0;
    while i < g.frames.len()
        invariant
            i <= g.frames@.len(),
            frames@.len() == i,
            forall|k: int| 0 <= k < i ==> shows_frame(#[trigger] frames@[k], g.frames@[k]),
        decreases g.frames@.len() - i,
    {
        frames.push(convert_frame(&g.frames[i]));
        i = i + 1;
    }
    let counted: u32 = #[verifier::truncate] (g.frames.len() as u32);
    WireGame {
        num_turns: if g.num_turns > 0 {
            g.num_turns
        } else {
            counted
        },
        winner: either(g.winner, -1),
        frames,
    }
}

/// A generation's recorded games in the format of viewers.
pub fn convert_game_file<F: Copy>(file: &GameFileJson<F>, config: Option<String>) -> (w: WireGames<
    F,
>)
    ensures
        w.gen == file.gen,
        w.config_json@ == or(opt_text(config), Seq::<char>::empty()),
        w.games@.len() == file.games@.len(),
        forall|i: int|
            0 <= i < file.games@.len() ==> shows_game(#[trigger] w.games@[i], file.games@[i]),
{
    let mut games: Vec<WireGame<F>> = Vec::new();
    let mut i: usize = 0;
    while i < file.games.len()
        invariant
            i <= file.games@.len(),
            games@.len() == i,
            forall|k: int| 0 <= k < i ==> shows_game(#[trigger] games@[k], file.games@[k]),
        decreases file.games@.len() - i,
    {
        games.push(convert_game(&file.games[i]));
        i = i + 1;
    }
    let config_json = match config {
        Some(s) => s,
        None => {
            let s = String::new();
            assert(s@ =~= Seq::<char>::empty());
            s
        },
    };
    WireGames { gen: file.gen, config_json, games }
}

/// The path of a generation's recording.
pub fn game_file(root: &str, gen: u32) -> (p: String)
    ensures
        p@ == state::joined(state::joined(root@, "games"@), sample::generation_file(gen)),
{
    let dir = state::join(root, "games");
    let name = sample::generation_file_name(gen);
    state::join(dir.as_str(), name.as_str())
}

// ---- events ----

/// The base64 digit of six bits.
pub open spec fn base64_digit(d: int) -> char {
    if d < 26 {
        ('A' as int + d) as char
    } else if d < 52 {
        ('a' as int + d - 26) as char
    } else if d < 62 {
        ('0' as int + d - 52) as char
    } else if d == 62 {
        '+'
    } else {
        '/'
    }
}

/// The base64 form of bytes: four digits for three bytes, filled up with `=`.
pub open spec fn base64(b: Seq<u8>) -> Seq<char>
    decreases b.len(),
{
    if b.len() == 0 {
        Seq::empty()
    } else if b.len() == 1 {
        seq![base64_digit(b[0] as int / 4), base64_digit(b[0] as int % 4 * 16), '=', '=']
    } else if b.len() == 2 {
        seq![
            base64_digit(b[0] as int / 4),
            base64_digit(b[0] as int % 4 * 16 + b[1] as int / 16),
            base64_digit(b[1] as int % 16 * 4),
            '=',
        ]
    } else {
        seq![
            base64_digit(b[0] as int / 4),
            base64_digit(b[0] as int % 4 * 16 + b[1] as int / 16),
            base64_digit(b[1] as int % 16 * 4 + b[2] as int / 64),
            base64_digit(b[2] as int % 64),
        ] + base64(b.skip(3))
    }
}

/// `encode` of base64's `STANDARD` engine: the base64 form of the bytes, in the
/// standard alphabet and with padding.
#[verifier::external_body]
fn encode_base64(bytes: &[u8]) -> (s: String)
    requires
        bytes@.len() <= usize::MAX / 4,
    ensures
        s@ == base64(bytes@),
{
    base64::Engine::encode(&base64::engine::general_purpose::STANDARD, bytes)
}

/// A server-sent event.
pub struct StreamEvent {
    pub event: String,
    pub data: String,
}

/// The event that carries an encoded message.
pub fn proto_event(event: &str, message: &Vec<u8>) -> (e: StreamEvent)
    requires
        message@.len() <= usize::MAX / 4,
    ensures
        e.event@ == event@,
        e.data@ == base64(message@),
{
    StreamEvent { event: text::copy_str(event), data: encode_base64(message.as_slice()) }
}

/// The names of runs: any text that is not empty, has no slash of either kind and
/// no two dots in a row, and no other.
pub proof fn run_names_are_plain(s: Seq<char>)
    ensures
        is_plain_name(s) <==> s.len() > 0 && (forall|i: int|
            0 <= i < s.len() ==> #[trigger] s[i] != '/' && s[i] != '\\') && (forall|i: int|
            0 <= i < s.len() - 1 && #[trigger] s[i] == '.' ==> s[i + 1] != '.'),
{
    if s.contains('/') {
        let i = choose|i: int| 0 <= i < s.len() && s[i] == '/';
        assert(s[i] == '/');
    }
    if s.contains('\\') {
        let i = choose|i: int| 0 <= i < s.len() && s[i] == '\\';
        assert(s[i] == '\\');
    }
    if is_plain_name(s) {
        assert forall|i: int| 0 <= i < s.len() implies #[trigger] s[i] != '/' && s[i] != '\\' by {
            assert(s.contains(s[i]));
        }
    }
    if has_dots(s) {
        let i = choose|i: int| 0 <= i < s.len() - 1 && #[trigger] s[i] == '.' && s[i + 1] == '.';
        assert(s[i] == '.' && s[i + 1] == '.');
    }
}

/// A run's numbers are read from its own files where these are JSON, and from those
/// of an older layout where they are not: sizes from the configuration, progress
/// from the state.
pub proof fn numbers_come_from_the_first_readable_file<F>(files: RunFiles<F>)
    ensures
        files.config matches Some(c) && json_valid(c@) ==> numbers_of(files).board == low_bits(
            json_number(files.config.unwrap()@, "board"@),
        ) && numbers_of(files).num_snakes == low_bits(json_number(files.config.unwrap()@, "num_snakes"@)),
        !(files.config matches Some(c) && json_valid(c@)) && (files.meta matches Some(m)
            && json_valid(m@)) ==> numbers_of(files).board == low_bits(
            json_number(files.meta.unwrap()@, "board"@),
        ),
        files.trainer_state matches Some(t) && json_valid(t@) ==> numbers_of(files).generation
            == low_bits(json_number(files.trainer_state.unwrap()@, "generation"@)),
        !(files.trainer_state matches Some(t) && json_valid(t@)) && (files.status matches Some(u)
            && json_valid(u@)) ==> numbers_of(files).generation == low_bits(
            json_number(files.status.unwrap()@, "generation"@),
        ),
        !(files.trainer_state matches Some(t) && json_valid(t@)) && !(files.status matches Some(u)
            && json_valid(u@)) ==> numbers_of(files).generation is None && numbers_of(
            files,
        ).total_generations is None,
{
}

/// A metrics line that is readable gives one row, with what it says and zero for
/// what it leaves out; a line that names no generation has its own number. Rows
/// stand in the order of their lines.
pub proof fn rows_show_their_lines<F>(
    lines: Seq<Option<MetricJson<F>>>,
    line: Option<MetricJson<F>>,
    zero: F,
)
    ensures
        line is None ==> rows_of(lines.push(line), zero) == rows_of(lines, zero),
        line matches Some(m) ==> {
            let rows = rows_of(lines.push(line), zero);
            let r = rows.last();
            &&& rows.drop_last() == rows_of(lines, zero)
            &&& rows.len() == rows_of(lines, zero).len() + 1
            &&& r.generation == match m.generation {
                Some(g) => g,
                None => lines.len() as u32,
            }
            &&& m.policy_loss is Some ==> r.policy_loss == m.policy_loss.unwrap()
            &&& m.policy_loss is None ==> r.policy_loss == zero
            &&& m.value_loss is Some ==> r.value_loss == m.value_loss.unwrap()
            &&& m.value_loss is None ==> r.value_loss == zero
            &&& r.has_win_rate <==> m.win_rate is Some
            &&& m.win_rate is Some ==> r.win_rate == m.win_rate.unwrap()
            &&& m.samples is Some ==> r.samples == m.samples.unwrap()
            &&& m.samples is None ==> r.samples == 0
            &&& m.turns is Some ==> r.turns == m.turns.unwrap()
            &&& m.buffer is Some ==> r.buffer == m.buffer.unwrap()
            &&& m.completed_games is Some ==> r.completed_games == m.completed_games.unwrap()
            &&& m.target_entropy is Some ==> r.target_entropy == m.target_entropy.unwrap()
            &&& m.gen_seconds is Some ==> r.gen_seconds == m.gen_seconds.unwrap()
            &&& m.play_seconds is Some ==> r.play_seconds == m.play_seconds.unwrap()
            &&& m.train_seconds is Some ==> r.train_seconds == m.train_seconds.unwrap()
            &&& m.inferences_per_sec is Some ==> r.inferences_per_sec
                == m.inferences_per_sec.unwrap()
            &&& m.games_per_sec is Some ==> r.games_per_sec == m.games_per_sec.unwrap()
            &&& m.gpu_busy_pct is Some ==> r.gpu_busy_pct == m.gpu_busy_pct.unwrap()
            &&& m.avg_game_turn is Some ==> r.avg_game_turn == m.avg_game_turn.unwrap()
        },
        rows_of(Seq::<Option<MetricJson<F>>>::empty(), zero).len() == 0,
{
    let all = lines.push(line);
    assert(all.drop_last() =~= lines);
    match line {
        Some(m) => {
            assert(rows_of(all, zero).drop_last() =~= rows_of(lines, zero));
        },
        None => {},
    }
}

/// A run is live exactly if it is the active one, runs only while it is live, and
/// shows its latest row and the generation of its state, or of that row without one.
pub proof fn summaries_show_the_latest<F>(
    s: RunSummary<F>,
    files: RunFiles<F>,
    numbers: RunNumbers,
    run_id: Seq<char>,
    active: Option<Seq<char>>,
    running: bool,
    zero: F,
)
    requires
        summarizes(s, files, numbers, run_id, active, running, zero),
    ensures
        s.run_id@ == run_id,
        s.live <==> active is Some && active.unwrap() == run_id,
        s.running <==> running && active is Some && active.unwrap() == run_id,
        numbers.generation is Some ==> s.generation == numbers.generation.unwrap(),
        numbers.board is Some ==> s.board == numbers.board.unwrap(),
        numbers.num_snakes is Some ==> s.num_snakes == numbers.num_snakes.unwrap(),
        rows_of(files.metrics@, zero).len() > 0 ==> {
            let last = rows_of(files.metrics@, zero)[rows_of(files.metrics@, zero).len() - 1];
            &&& s.policy_loss == last.policy_loss
            &&& s.value_loss == last.value_loss
            &&& s.win_rate == last.win_rate
            &&& s.has_win_rate == last.has_win_rate
            &&& numbers.generation is None ==> s.generation == last.generation
        },
        rows_of(files.metrics@, zero).len() == 0 ==> s.policy_loss == zero && !s.has_win_rate,
        s.updated_unix_ms == files.modified_unix_ms,
{
}

/// The recorded generations are those that a file is named after.
pub proof fn recorded_generations_have_files(names: Seq<Vec<char>>, g: u32)
    ensures
        named_gens(names).contains(g) <==> exists|i: int|
            0 <= i < names.len() && name_gen(#[trigger] names[i]@) == Some(g as nat),
    decreases names.len(),
{
    if names.len() > 0 {
        let rest = names.drop_last();
        let last = names.len() - 1;
        let (r, all) = (named_gens(rest), named_gens(names));
        recorded_generations_have_files(rest, g);
        if r.contains(g) {
            let k = choose|k: int| 0 <= k < r.len() && r[k] == g;
            assert(all[k] == g);
            let i = choose|i: int|
                0 <= i < rest.len() && name_gen(#[trigger] rest[i]@) == Some(g as nat);
            assert(name_gen(names[i]@) == Some(g as nat));
        }
        if all.contains(g) && !r.contains(g) {
            let k = choose|k: int| 0 <= k < all.len() && all[k] == g;
            if k < r.len() {
                assert(r[k] == g);
            }
            lemma_gen_bound(names[last]@);
            assert(name_gen(names[last]@) == Some(g as nat));
        }
        if exists|i: int| 0 <= i < names.len() && name_gen(#[trigger] names[i]@) == Some(g as nat) {
            let i = choose|i: int|
                0 <= i < names.len() && name_gen(#[trigger] names[i]@) == Some(g as nat);
            if i < last {
                assert(name_gen(rest[i]@) == Some(g as nat));
            } else {
                assert(all[all.len() - 1] == g);
            }
        }
    }
}

proof fn lemma_gen_bound(name: Seq<char>)
    ensures
        name_gen(name) matches Some(v) ==> v <= u32::MAX,
{
}

/// What viewers see of a recorded game is what was recorded: the same cells and
/// snakes in the same frames, with minus one for no winner.
pub proof fn viewers_see_what_was_recorded<F>(w: WireGame<F>, g: GameJson<F>, i: int, s: int)
    requires
        shows_game(w, g),
        0 <= i < g.frames@.len(),
        0 <= s < g.frames@[i].snakes@.len(),
    ensures
        g.winner is Some ==> w.winner == g.winner.unwrap(),
        g.winner is None ==> w.winner == -1,
        g.num_turns > 0 ==> w.num_turns == g.num_turns,
        w.frames@.len() == g.frames@.len(),
        w.frames@[i].turn == g.frames@[i].turn,
        w.frames@[i].snakes@.len() == g.frames@[i].snakes@.len(),
        w.frames@[i].snakes@[s].alive == g.frames@[i].snakes@[s].alive,
        w.frames@[i].snakes@[s].health == g.frames@[i].snakes@[s].health,
        w.frames@[i].snakes@[s].chosen_move == g.frames@[i].snakes@[s].chosen_move,
        w.frames@[i].snakes@[s].value == g.frames@[i].snakes@[s].value,
        w.frames@[i].snakes@[s].policy@ == g.frames@[i].snakes@[s].policy@,
        w.frames@[i].snakes@[s].body@.len() == g.frames@[i].snakes@[s].body@.len(),
        forall|k: int|
            0 <= k < g.frames@[i].snakes@[s].body@.len() ==> (
            #[trigger] w.frames@[i].snakes@[s].body@[k]).x == g.frames@[i].snakes@[s].body@[k]@[0]
                && w.frames@[i].snakes@[s].body@[k].y == g.frames@[i].snakes@[s].body@[k]@[1],
        w.frames@[i].food@.len() == g.frames@[i].food@.len(),
        forall|k: int|
            0 <= k < g.frames@[i].food@.len() ==> (#[trigger] w.frames@[i].food@[k]).x
                == g.frames@[i].food@[k]@[0] && w.frames@[i].food@[k].y
                == g.frames@[i].food@[k]@[1],
{
    assert(shows_frame(w.frames@[i], g.frames@[i]));
    assert(shows_snake(w.frames@[i].snakes@[s], g.frames@[i].snakes@[s]));
}

} // verus!
