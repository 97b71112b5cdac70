//! The trainer: who may use the GPU, and how a run goes from one generation to
//! the next.

use vstd::prelude::*;
use vstd::string::*;

use crate::gate;
use crate::league;
use crate::metrics::{self, Counters, Phase};
use crate::text;

verus! {

/// Who holds the GPU, for which run, and the knobs at hand; `C` is a set of
/// knobs.
pub struct Control<C> {
    pub running: bool,
    pub stop: bool,
    pub bench_active: bool,
    pub active_run: Option<String>,
    pub config: C,
}

/// Why a run was not started.
#[derive(Clone, Copy, Debug, PartialEq, Eq, Structural)]
pub enum StartError {
    /// A benchmark holds the GPU.
    BenchRunning,
    /// The run before is still winding down.
    StillStopping,
    /// Something is running without a name.
    NoActiveRun,
}

/// What came of a request to start.
pub enum Started {
    /// The caller has to run the loop for this run.
    New(String),
    /// This run was running already.
    Already(String),
}

/// Why a benchmark was not started.
#[derive(Clone, Copy, Debug, PartialEq, Eq, Structural)]
pub enum BenchError {
    TrainingActive,
    BenchRunning,
}

impl StartError {
    /// The reason in words.
    pub fn message(&self) -> (s: String)
        ensures
            s@ == match *self {
                StartError::BenchRunning => "a GPU benchmark is running — wait for it to finish"@,
                StartError::StillStopping => "previous run is still stopping — retry in a moment"@,
                StartError::NoActiveRun => "trainer is running without active run"@,
            },
    {
        match *self {
            StartError::BenchRunning => "a GPU benchmark is running — wait for it to finish".to_owned(),
            StartError::StillStopping =>
                "previous run is still stopping — retry in a moment".to_owned(),
            StartError::NoActiveRun => "trainer is running without active run".to_owned(),
        }
    }
}

impl BenchError {
    /// The reason in words.
    pub fn message(&self) -> (s: String)
        ensures
            s@ == match *self {
                BenchError::TrainingActive =>
                    "a training run is active — stop it before benchmarking"@,
                BenchError::BenchRunning => "a GPU benchmark is already running"@,
            },
    {
        match *self {
            BenchError::TrainingActive =>
                "a training run is active — stop it before benchmarking".to_owned(),
            BenchError::BenchRunning => "a GPU benchmark is already running".to_owned(),
        }
    }
}

impl<C> Control<C> {
    /// Training and benchmarking never hold the GPU together, and whatever
    /// runs has a name.
    pub open spec fn wf(&self) -> bool {
        &&& !(self.running && self.bench_active)
        &&& self.running ==> self.active_run is Some
    }

    /// Nothing is running.
    pub fn new(config: C) -> (c: Control<C>)
        ensures
            c.wf(),
            c.config == config,
            !c.running,
            !c.stop,
            !c.bench_active,
            c.active_run is None,
    {
        Control { running: false, stop: false, bench_active: false, active_run: None, config }
    }

    /// Asks for a run. A benchmark refuses it, and so does a run that is
    /// still winding down; a run in progress is answered with its name.
    /// Otherwise the run is started under the name asked for, `fallback`
    /// where none is, and with the knobs that came with the request, where
    /// there are any; a request that starts nothing leaves the knobs alone.
    pub fn start(&mut self, asked: Option<String>, fallback: String, config: Option<C>) -> (r:
        Result<Started, StartError>)
        ensures
            old(self).wf() ==> final(self).wf(),
            final(self).bench_active == old(self).bench_active,
            match r {
                Err(StartError::BenchRunning) => old(self).bench_active,
                Err(StartError::StillStopping) => !old(self).bench_active && old(self).running
                    && old(self).stop,
                Err(StartError::NoActiveRun) => !old(self).bench_active && old(self).running
                    && !old(self).stop && old(self).active_run is None,
                Ok(Started::Already(id)) => !old(self).bench_active && old(self).running
                    && !old(self).stop && (old(self).active_run matches Some(a) && a@ == id@),
                Ok(Started::New(id)) => {
                    &&& !old(self).bench_active
                    &&& !old(self).running
                    &&& final(self).running
                    &&& !final(self).stop
                    &&& final(self).active_run matches Some(a) && a@ == id@
                    &&& id@ == match asked {
                        Some(s) => s@,
                        None => fallback@,
                    }
                    &&& final(self).config == match config {
                        Some(c) => c,
                        None => old(self).config,
                    }
                },
            },
            !(r matches Ok(Started::New(_))) ==> *final(self) == *old(self),
    {
        if self.bench_active {
            return Err(StartError::BenchRunning);
        }
        if self.running {
            if self.stop {
                return Err(StartError::StillStopping);
            }
            return match &self.active_run {
                Some(id) => Ok(Started::Already(text::copy_str(id.as_str()))),
                None => Err(StartError::NoActiveRun),
            };
        }
        let id = match asked {
            Some(s) => s,
            None => fallback,
        };
        self.running = true;
        self.stop = false;
        match config {
            Some(c) => {
                self.config = c;
            },
            None => {},
        }
        self.active_run = Some(text::copy_str(id.as_str()));
        Ok(Started::New(id))
    }

    /// Sets the knobs.
    pub fn set_config(&mut self, config: C)
        ensures
            *final(self) == (Control { config, ..*old(self) }),
    {
        self.config = config;
    }

    /// Asks the run to wind down.
    pub fn request_stop(&mut self)
        ensures
            *final(self) == (Control { stop: true, ..*old(self) }),
    {
        self.stop = true;
    }

    /// Notes that the run's loop has ended.
    pub fn finished(&mut self)
        ensures
            *final(self) == (Control { running: false, ..*old(self) }),
    {
        self.running = false;
    }

    /// Claims the GPU for a benchmark.
    pub fn try_begin_bench(&mut self) -> (r: Result<(), BenchError>)
        ensures
            match r {
                Ok(()) => !old(self).running && !old(self).bench_active && *final(self) == (
                Control { bench_active: true, ..*old(self) }),
                Err(BenchError::TrainingActive) => old(self).running && *final(self) == *old(self),
                Err(BenchError::BenchRunning) => !old(self).running && old(self).bench_active
                    && *final(self) == *old(self),
            },
            old(self).wf() ==> final(self).wf(),
    {
        if self.running {
            return Err(BenchError::TrainingActive);
        }
        if self.bench_active {
            return Err(BenchError::BenchRunning);
        }
        self.bench_active = true;
        Ok(())
    }

    /// Gives the GPU back after a benchmark.
    pub fn end_bench(&mut self)
        ensures
            *final(self) == (Control { bench_active: false, ..*old(self) }),
    {
        self.bench_active = false;
    }

    /// What the outside sees of the trainer.
    pub fn run_state(&self, counters: &Counters) -> (s: RunState)
        ensures
            s.phase == metrics::phase_of(counters.phase),
            s.generation == counters.generation,
            s.run_id@ == match self.active_run {
                Some(id) => id@,
                None => Seq::<char>::empty(),
            },
            s.running == self.running,
    {
        let run_id = match &self.active_run {
            Some(id) => text::copy_str(id.as_str()),
            None => String::new(),
        };
        RunState {
            phase: metrics::phase_from_u32(counters.phase),
            generation: counters.generation,
            run_id,
            running: self.running,
        }
    }
}

/// Training and benchmarking never hold the GPU together.
pub proof fn gpu_has_one_user<C>(c: &Control<C>)
    requires
        c.wf(),
    ensures
        c.bench_active ==> !c.running,
        c.running ==> !c.bench_active,
{
}

/// What the outside sees of the trainer.
pub struct RunState {
    pub phase: Phase,
    pub generation: u32,
    pub run_id: String,
    pub running: bool,
}

/// The name of the device in use.
pub fn device_label(cuda: bool) -> (s: &'static str)
    ensures
        s@ == if cuda {
            "cuda"@
        } else {
            "cpu"@
        },
{
    if cuda {
        "cuda"
    } else {
        "cpu"
    }
}

/// The knobs that decide what a generation does besides playing and training.
/// They may change from one generation to the next, but for `gating`, which a
/// run settles when it starts.
#[derive(Clone, Copy, Debug, PartialEq, Eq, Structural)]
pub struct CycleKnobs {
    /// Whether the run has a frozen incumbent.
    pub gating: bool,
    pub le_mode: bool,
    pub gate_gens: usize,
    pub gate_games: usize,
    pub probe_gens: usize,
    pub burst_games: usize,
    pub league_entrant_gens: usize,
}

/// Whether `gen` is one of every `k` generations, `k` being positive.
pub open spec fn every(gen: u32, k: usize) -> bool {
    k > 0 && gen as int % k as int == 0
}

/// Whether a run that starts with these knobs has a frozen incumbent.
pub fn gates_from_start(le_mode: bool, gate_gens: usize) -> (r: bool)
    ensures
        r == (le_mode && gate_gens > 0),
{
    le_mode && gate_gens > 0
}

impl CycleKnobs {
    /// Whether a gate is due after a generation. Should the knob have gone to
    /// zero since the run started, only generation zero is left.
    pub open spec fn gate_is_due(&self, gen: u32, stop: bool) -> bool {
        self.gating && (every(gen, self.gate_gens) || self.gate_gens == 0 && gen == 0) && !stop
    }

    /// Whether a gate at this generation comes with a probe.
    pub open spec fn probe_is_due(&self, gen: u32) -> bool {
        every(gen, self.probe_gens)
    }

    /// Whether a burst is due after a generation.
    pub open spec fn burst_is_due(&self, gen: u32, stop: bool) -> bool {
        !self.le_mode && self.burst_games > 0 && every(gen, self.league_entrant_gens) && !stop
    }

    /// Whether a gate is due after a generation.
    pub fn gate_due(&self, gen: u32, stop: bool) -> (r: bool)
        ensures
            r == self.gate_is_due(gen, stop),
            r <==> self.gating && !stop && if self.gate_gens == 0 {
                gen == 0
            } else {
                gen as int % self.gate_gens as int == 0
            },
    {
        self.gating && (multiple(gen, self.gate_gens) || self.gate_gens == 0 && gen == 0) && !stop
    }

    /// Whether a gate at this generation comes with a probe.
    pub fn probe_due(&self, gen: u32) -> (r: bool)
        ensures
            r == self.probe_is_due(gen),
    {
        multiple(gen, self.probe_gens)
    }

    /// Whether a burst is due after a generation.
    pub fn burst_due(&self, gen: u32, stop: bool) -> (r: bool)
        ensures
            r == self.burst_is_due(gen, stop),
            r <==> !self.le_mode && self.burst_games > 0 && !stop && self.league_entrant_gens > 0
                && gen as int % self.league_entrant_gens as int == 0,
    {
        !self.le_mode && self.burst_games > 0 && multiple(gen, self.league_entrant_gens) && !stop
    }

    /// The games of a generation's gate altogether: both sides of the match,
    /// the sanity games and those of the probe.
    pub fn arena_target(&self, gen: u32) -> (n: usize)
        requires
            2 * self.gate_games + 64 <= usize::MAX,
        ensures
            n == 2 * (if self.gate_games < gate::GATE_GAMES_MIN {
                gate::GATE_GAMES_MIN
            } else {
                self.gate_games
            }) + SANITY_GAMES + if self.probe_is_due(gen) {
                PROBE_GAMES as int
            } else {
                0
            },
    {
        let probe: usize = if self.probe_due(gen) { PROBE_GAMES } else { 0 };
        2 * gate::gate_games(self.gate_games) + SANITY_GAMES + probe
    }
}

/// The sanity games of a gate.
pub const SANITY_GAMES: usize = 16;

/// The games of a probe.
pub const PROBE_GAMES: usize = 32;

/// Whether `gen` is one of every `k` generations.
fn multiple(gen: u32, k: usize) -> (r: bool)
    ensures
        r == every(gen, k),
{
    k > 0 && (gen as usize) % k == 0
}

/// The seeds of a generation.
#[derive(Clone, Copy, Debug, PartialEq, Eq, Structural)]
pub struct Seeds {
    /// Of its self-play.
    pub play: u64,
    /// Of its training batches.
    pub train: u64,
    /// Of its sanity games.
    pub sanity: u64,
    /// Of its probe.
    pub probe: u64,
    /// Of the first gate, where the run has had none.
    pub founding: u64,
}

/// The seeds of a generation.
pub fn seeds(seed: u64, generation: u32) -> (s: Seeds)
    requires
        seed + generation <= u64::MAX,
    ensures
        s.play == seed + generation,
        s.train == seed ^ (generation as u64),
        s.sanity == seed ^ 0xE3E3,
        s.probe == (seed ^ 0xF00D) ^ (generation as u64),
        s.founding == seed ^ 0x6A7E,
{
    Seeds {
        play: seed + generation as u64,
        train: seed ^ (generation as u64),
        sanity: seed ^ 0xE3E3,
        probe: (seed ^ 0xF00D) ^ (generation as u64),
        founding: seed ^ 0x6A7E,
    }
}

/// Where a run stands within a generation.
#[derive(Clone, Copy, Debug, PartialEq, Eq, Structural)]
pub enum Stage {
    /// Between two generations.
    Ready,
    Playing,
    Training,
    Checkpoint,
    Gating,
    /// The generation's figures are due.
    Recording,
    Bursting,
    /// The run has wound down.
    Paused,
}

/// What has just happened in a run.
#[derive(Clone, Copy, Debug, PartialEq, Eq, Structural)]
pub enum Event {
    /// The flag that asks to wind down was read.
    Checked { stop: bool },
    /// Self-play reached its target with so many samples.
    Played { samples: u32 },
    /// A pause came first.
    Interrupted,
    /// The stage's work is done.
    Done,
}

/// A run's progress.
#[derive(Clone, Copy, Debug, PartialEq, Eq, Structural)]
pub struct Progress {
    pub stage: Stage,
    pub generation: u32,
    pub samples_seen: u64,
}

impl Progress {
    /// The progress with another stage.
    pub open spec fn at(self, stage: Stage) -> Progress {
        Progress { stage, ..self }
    }

    /// The progress once the generation is over.
    pub open spec fn onward(self) -> Progress {
        Progress { stage: Stage::Ready, generation: (self.generation + 1) as u32, ..self }
    }

    /// The progress after an event; `None` for one that does not belong to the
    /// stage.
    pub open spec fn after(self, k: CycleKnobs, e: Event) -> Option<Progress> {
        match (self.stage, e) {
            (Stage::Ready, Event::Checked { stop }) => if stop {
                Some(self.at(Stage::Paused))
            } else {
                Some(self.at(Stage::Playing))
            },
            (Stage::Playing, Event::Played { samples }) => Some(
                Progress {
                    stage: Stage::Training,
                    samples_seen: (self.samples_seen + samples) as u64,
                    ..self
                },
            ),
            (Stage::Playing, Event::Interrupted) => Some(self.at(Stage::Paused)),
            (Stage::Training, Event::Done) => Some(self.at(Stage::Checkpoint)),
            (Stage::Checkpoint, Event::Checked { stop }) => if k.gate_is_due(
                self.generation,
                stop,
            ) {
                Some(self.at(Stage::Gating))
            } else {
                Some(self.at(Stage::Recording))
            },
            (Stage::Gating, Event::Done) => Some(self.at(Stage::Recording)),
            (Stage::Recording, Event::Checked { stop }) => if k.burst_is_due(
                self.generation,
                stop,
            ) {
                Some(self.at(Stage::Bursting))
            } else {
                Some(self.onward())
            },
            (Stage::Bursting, Event::Done) => Some(self.onward()),
            _ => None,
        }
    }

    /// Moves on after an event; an event that does not belong to the stage
    /// changes nothing.
    pub fn step(&mut self, k: &CycleKnobs, e: Event) -> (accepted: bool)
        requires
            old(self).generation < u32::MAX,
            e matches Event::Played { samples } ==> old(self).samples_seen + samples <= u64::MAX,
        ensures
            match old(self).after(*k, e) {
                Some(p) => accepted && *final(self) == p,
                None => !accepted && *final(self) == *old(self),
            },
    {
        match (self.stage, e) {
            (Stage::Ready, Event::Checked { stop }) => {
                self.stage = if stop { Stage::Paused } else { Stage::Playing };
            },
            (Stage::Playing, Event::Played { samples }) => {
                self.stage = Stage::Training;
                self.samples_seen = self.samples_seen + samples as u64;
            },
            (Stage::Playing, Event::Interrupted) => {
                self.stage = Stage::Paused;
            },
            (Stage::Training, Event::Done) => {
                self.stage = Stage::Checkpoint;
            },
            (Stage::Checkpoint, Event::Checked { stop }) => {
                self.stage = if k.gate_due(self.generation, stop) {
                    Stage::Gating
                } else {
                    Stage::Recording
                };
            },
            (Stage::Gating, Event::Done) => {
                self.stage = Stage::Recording;
            },
            (Stage::Recording, Event::Checked { stop }) => {
                if k.burst_due(self.generation, stop) {
                    self.stage = Stage::Bursting;
                } else {
                    self.stage = Stage::Ready;
                    self.generation = self.generation + 1;
                }
            },
            (Stage::Bursting, Event::Done) => {
                self.stage = Stage::Ready;
                self.generation = self.generation + 1;
            },
            _ => {
                return false;
            },
        }
        true
    }
}

/// A burst rates each generation that enters the league, and no other: with the
/// games to play it, outside the equilibrium mode and with no stop asked for, a
/// recorded generation goes on to a burst exactly if it is a multiple of
/// `league_entrant_gens`, which is what admits it to the pool. Every other one is
/// followed by the next generation.
pub proof fn bursts_rate_the_entrants(p: Progress, k: CycleKnobs, q: nat, r: nat)
    requires
        p.stage == Stage::Recording,
        p.generation < u32::MAX,
        !k.le_mode,
        k.burst_games > 0,
        r < k.league_entrant_gens,
        p.generation == q * k.league_entrant_gens + r,
    ensures
        r == 0 ==> p.after(k, Event::Checked { stop: false }) == Some(
            Progress {
                stage: Stage::Bursting,
                generation: p.generation,
                samples_seen: p.samples_seen,
            },
        ),
        r > 0 ==> p.after(k, Event::Checked { stop: false }) == Some(
            Progress {
                stage: Stage::Ready,
                generation: (p.generation + 1) as u32,
                samples_seen: p.samples_seen,
            },
        ),
        r == 0 <==> league::is_entrant(p.generation, k.league_entrant_gens),
{
    let (g, n) = (p.generation as int, k.league_entrant_gens as int);
    vstd::arithmetic::div_mod::lemma_fundamental_div_mod_converse(g, n, q as int, r as int);
}

/// No burst is run in the equilibrium mode, without games for it, without a
/// league, or once a stop is asked for: the next generation follows.
pub proof fn bursts_are_left_out(p: Progress, k: CycleKnobs, stop: bool)
    requires
        p.stage == Stage::Recording,
        p.generation < u32::MAX,
        k.le_mode || k.burst_games == 0 || k.league_entrant_gens == 0 || stop,
    ensures
        p.after(k, Event::Checked { stop }) == Some(
            Progress {
                stage: Stage::Ready,
                generation: (p.generation + 1) as u32,
                samples_seen: p.samples_seen,
            },
        ),
{
}

/// Whether generation `g` is followed by something that comes every `n`
/// generations: of any `n` in a row exactly one is.
pub proof fn one_in_every_n(n: usize, g: int) -> (h: int)
    requires
        n > 0,
        0 <= g,
        g + n <= u32::MAX,
    ensures
        g <= h < g + n,
        every(h as u32, n),
        forall|i: int| g <= i < g + n && #[trigger] every(i as u32, n) ==> i == h,
        every(0, n),
        forall|i: u32| !(#[trigger] every(i, 0)),
{
    let m = n as int;
    let h = ((g + m - 1) / m) * m;
    let q = (g + m - 1) / m;
    vstd::arithmetic::div_mod::lemma_fundamental_div_mod(g + m - 1, m);
    assert(h == m * q) by (nonlinear_arith)
        requires
            h == q * m,
    ;
    vstd::arithmetic::div_mod::lemma_fundamental_div_mod_converse(h, m, q, 0);
    assert forall|i: int| g <= i < g + n && #[trigger] every(i as u32, n) implies i == h by {
        vstd::arithmetic::div_mod::lemma_fundamental_div_mod(i, m);
        let p = i / m;
        assert(p == q) by (nonlinear_arith)
            requires
                i == m * p,
                h == m * q,
                -m < i - h < m,
                m > 0,
        ;
    }
    assert(0int % m == 0) by (nonlinear_arith)
        requires
            m > 0,
    ;
    h
}

/// Of any `league_entrant_gens` generations in a row exactly one has a burst.
pub proof fn one_burst_per_entrant(k: CycleKnobs, g: int) -> (h: int)
    requires
        !k.le_mode,
        k.burst_games > 0,
        k.league_entrant_gens > 0,
        0 <= g,
        g + k.league_entrant_gens <= u32::MAX,
    ensures
        g <= h < g + k.league_entrant_gens,
        k.burst_is_due(h as u32, false),
        forall|i: int|
            g <= i < g + k.league_entrant_gens && #[trigger] k.burst_is_due(i as u32, false) ==> i
                == h,
{
    let h = one_in_every_n(k.league_entrant_gens, g);
    assert forall|i: int|
        g <= i < g + k.league_entrant_gens && #[trigger] k.burst_is_due(
            i as u32,
            false,
        ) implies i == h by {
        assert(every(i as u32, k.league_entrant_gens));
    }
    h
}

/// A gated run judges each generation that is a multiple of `gate_gens`, and with
/// `gate_gens` zero the first alone; every other checkpoint is recorded at once,
/// as is every one once a stop is asked for or where nothing is gated. The probe
/// goes by `probe_gens` in the same way, and never runs for zero.
pub proof fn gates_judge_on_time(p: Progress, k: CycleKnobs, stop: bool, q: nat, r: nat)
    requires
        p.stage == Stage::Checkpoint,
        k.gate_gens > 0 ==> r < k.gate_gens && p.generation == q * k.gate_gens + r,
    ensures
        ({
            let due = k.gating && !stop && if k.gate_gens > 0 {
                r == 0
            } else {
                p.generation == 0
            };
            p.after(k, Event::Checked { stop }) == Some(
                Progress {
                    stage: if due {
                        Stage::Gating
                    } else {
                        Stage::Recording
                    },
                    generation: p.generation,
                    samples_seen: p.samples_seen,
                },
            )
        }),
        k.probe_gens == 0 ==> !k.probe_is_due(p.generation),
        k.probe_gens > 0 ==> (k.probe_is_due(p.generation) <==> exists|c: int|
            p.generation == #[trigger] (c * k.probe_gens)),
{
    let g = p.generation as int;
    if k.gate_gens > 0 {
        vstd::arithmetic::div_mod::lemma_fundamental_div_mod_converse(
            g,
            k.gate_gens as int,
            q as int,
            r as int,
        );
    }
    if k.probe_gens > 0 {
        let m = k.probe_gens as int;
        vstd::arithmetic::div_mod::lemma_fundamental_div_mod(g, m);
        if k.probe_is_due(p.generation) {
            let c = g / m;
            assert(c * m == m * c) by (nonlinear_arith);
            assert(p.generation == c * k.probe_gens);
        }
        if exists|c: int| p.generation == #[trigger] (c * k.probe_gens) {
            let c = choose|c: int| p.generation == #[trigger] (c * k.probe_gens);
            vstd::arithmetic::div_mod::lemma_fundamental_div_mod_converse(g, m, c, 0);
        }
    }
}

/// How a run goes on, event by event: a stop pauses it before a generation and an
/// interruption within its games, neither with anything lost; games lead to
/// training, training to the checkpoint, and only the end of a generation counts
/// it. Only played games count samples, and a paused run takes no event.
pub proof fn a_run_goes_stage_by_stage(p: Progress, k: CycleKnobs, e: Event)
    requires
        p.generation < u32::MAX,
        e matches Event::Played { samples } ==> p.samples_seen + samples <= u64::MAX,
    ensures
        p.stage == Stage::Paused ==> p.after(k, e) is None,
        p.after(k, e) matches Some(q) ==> {
            &&& q.samples_seen == p.samples_seen + match e {
                Event::Played { samples } => samples as int,
                _ => 0,
            }
            &&& q.generation == p.generation + if q.stage == Stage::Ready {
                1int
            } else {
                0
            }
            &&& p.stage == Stage::Ready ==> (e matches Event::Checked { stop } && q.stage == if stop {
                Stage::Paused
            } else {
                Stage::Playing
            })
            &&& p.stage == Stage::Playing ==> (e is Played && q.stage == Stage::Training) || (
            e is Interrupted && q.stage == Stage::Paused)
            &&& p.stage == Stage::Training ==> e is Done && q.stage == Stage::Checkpoint
            &&& p.stage == Stage::Checkpoint ==> e is Checked && (q.stage == Stage::Gating
                || q.stage == Stage::Recording)
            &&& p.stage == Stage::Gating ==> e is Done && q.stage == Stage::Recording
            &&& p.stage == Stage::Recording ==> e is Checked && (q.stage == Stage::Bursting
                || q.stage == Stage::Ready)
            &&& p.stage == Stage::Bursting ==> e is Done && q.stage == Stage::Ready
        },
        p.stage == Stage::Ready && e is Checked ==> p.after(k, e) is Some,
        p.stage == Stage::Playing && (e is Played || e is Interrupted) ==> p.after(k, e) is Some,
        (p.stage == Stage::Training || p.stage == Stage::Gating || p.stage == Stage::Bursting)
            && e is Done ==> p.after(k, e) is Some,
        (p.stage == Stage::Checkpoint || p.stage == Stage::Recording) && e is Checked
            ==> p.after(k, e) is Some,
{
}

/// The progress after a list of events; `None` where one of them does not
/// belong.
pub open spec fn after_all(p: Progress, k: CycleKnobs, es: Seq<Event>) -> Option<Progress>
    decreases es.len(),
{
    if es.len() == 0 {
        Some(p)
    } else {
        match after_all(p, k, es.drop_last()) {
            Some(q) => q.after(k, es.last()),
            None => None,
        }
    }
}

/// A pause in the middle of self-play leaves generation and sample count as
/// they were, so that the resumed run continues the same generation.
pub proof fn interruption_keeps_the_generation(p: Progress, k: CycleKnobs)
    requires
        p.stage == Stage::Ready,
    ensures
        after_all(p, k, seq![Event::Checked { stop: false }, Event::Interrupted]) == Some(
            p.at(Stage::Paused),
        ),
{
    reveal_with_fuel(after_all, 3);
    let es = seq![Event::Checked { stop: false }, Event::Interrupted];
    assert(es.drop_last() =~= seq![Event::Checked { stop: false }]);
    assert(es.drop_last().drop_last() =~= Seq::<Event>::empty());
}

/// The events of a whole generation.
pub open spec fn whole_generation(
    p: Progress,
    k: CycleKnobs,
    samples: u32,
    stop_at_gate: bool,
    stop_at_burst: bool,
) -> Seq<Event> {
    let start = seq![
        Event::Checked { stop: false },
        Event::Played { samples },
        Event::Done,
        Event::Checked { stop: stop_at_gate },
    ];
    let gated = if k.gate_is_due(p.generation, stop_at_gate) {
        start.push(Event::Done)
    } else {
        start
    };
    let recorded = gated.push(Event::Checked { stop: stop_at_burst });
    if k.burst_is_due(p.generation, stop_at_burst) {
        recorded.push(Event::Done)
    } else {
        recorded
    }
}

proof fn lemma_one_more(p: Progress, k: CycleKnobs, es: Seq<Event>, e: Event)
    ensures
        after_all(p, k, es.push(e)) == match after_all(p, k, es) {
            Some(q) => q.after(k, e),
            None => None,
        },
{
    assert(es.push(e).drop_last() =~= es);
}

/// A generation that reaches its target advances the run by exactly one
/// generation and by its own samples, whether or not a gate or a burst is due
/// and whenever a pause is asked for on the way.
pub proof fn generation_advances_once(
    p: Progress,
    k: CycleKnobs,
    samples: u32,
    stop_at_gate: bool,
    stop_at_burst: bool,
)
    requires
        p.stage == Stage::Ready,
        p.generation < u32::MAX,
        p.samples_seen + samples <= u64::MAX,
    ensures
        after_all(p, k, whole_generation(p, k, samples, stop_at_gate, stop_at_burst)) == Some(
            Progress {
                stage: Stage::Ready,
                generation: (p.generation + 1) as u32,
                samples_seen: (p.samples_seen + samples) as u64,
            },
        ),
{
    let e = Seq::<Event>::empty();
    let a = e.push(Event::Checked { stop: false });
    let b = a.push(Event::Played { samples });
    let c = b.push(Event::Done);
    let d = c.push(Event::Checked { stop: stop_at_gate });
    lemma_one_more(p, k, e, Event::Checked { stop: false });
    lemma_one_more(p, k, a, Event::Played { samples });
    lemma_one_more(p, k, b, Event::Done);
    lemma_one_more(p, k, c, Event::Checked { stop: stop_at_gate });
    let start = seq![
        Event::Checked { stop: false },
        Event::Played { samples },
        Event::Done,
        Event::Checked { stop: stop_at_gate },
    ];
    assert(start =~= d);
    let gated = if k.gate_is_due(p.generation, stop_at_gate) {
        lemma_one_more(p, k, start, Event::Done);
        start.push(Event::Done)
    } else {
        start
    };
    lemma_one_more(p, k, gated, Event::Checked { stop: stop_at_burst });
    let recorded = gated.push(Event::Checked { stop: stop_at_burst });
    lemma_one_more(p, k, recorded, Event::Done);
}

/// What a run loads when it starts.
#[derive(Clone, Copy, Debug, PartialEq, Eq, Structural)]
pub struct StartPlan {
    /// The knobs come from the run's own file.
    pub load_config: bool,
    /// The weights come from the run's own file.
    pub load_net: bool,
    /// Progress, replay buffer and session come from the run's own files.
    pub resume: bool,
    /// The incumbent comes from the run's own file.
    pub load_incumbent: bool,
    /// The weights at hand become the incumbent and are written out.
    pub found_incumbent: bool,
    /// The league runs beside the training.
    pub league: bool,
}

/// What a run loads when it starts: a fresh one nothing, any other what it has.
pub fn plan_start(
    fresh: bool,
    has_config: bool,
    has_net: bool,
    has_incumbent: bool,
    k: &CycleKnobs,
) -> (p: StartPlan)
    ensures
        p.load_config == (!fresh && has_config),
        p.load_net == (!fresh && has_net),
        p.resume == !fresh,
        p.load_incumbent == (k.gating && !fresh && has_incumbent),
        p.found_incumbent == (k.gating && (fresh || !has_incumbent)),
        p.league == !k.le_mode,
{
    StartPlan {
        load_config: !fresh && has_config,
        load_net: !fresh && has_net,
        resume: !fresh,
        load_incumbent: k.gating && !fresh && has_incumbent,
        found_incumbent: k.gating && (fresh || !has_incumbent),
        league: !k.le_mode,
    }
}

/// The commit message of a published checkpoint.
pub open spec fn serving_message(run_id: Seq<char>, generation: u32) -> Seq<char> {
    "serve: "@ + run_id + " gen "@ + text::dec(generation as nat)
}

/// The commit message of a published checkpoint.
pub fn serving_commit_message(run_id: &str, generation: u32) -> (m: String)
    ensures
        m@ == serving_message(run_id@, generation),
{
    let mut m = String::new();
    m.append("serve: ");
    m.append(run_id);
    m.append(" gen ");
    text::push_dec(&mut m, generation as u64, 0);
    assert(m@ =~= serving_message(run_id@, generation));
    m
}

} // verus!
