//! The knobs of a run.

use vstd::prelude::*;
use vstd::string::*;

verus! {

/// How many GPU batches of games are kept in flight: one on the GPU while the
/// other is being built.
pub const GPU_PIPELINE_BUFFERS: usize = 2;

/// The knobs of a run that are counts, switches or names.
pub struct RunConfig {
    pub board: i8,
    pub num_snakes: usize,
    pub sims: usize,
    /// Games batched into one GPU forward.
    pub gpu_batch_games: usize,
    pub samples_per_gen: usize,
    /// Opening turns whose move is sampled instead of being the best one.
    pub sample_turns: usize,
    pub skip_short_draw_turns: usize,
    pub trunk_channels: i64,
    pub trunk_blocks: i64,
    pub train_steps: usize,
    pub batch_size: usize,
    pub buffer_size: usize,
    pub search_threads: usize,
    /// Self-play games recorded for browsing each generation.
    pub sample_games: usize,
    /// A checkpoint joins the league every this many generations; zero
    /// switches the league off.
    pub league_entrant_gens: usize,
    pub eval_sims: usize,
    /// League games at a time.
    pub league_games: usize,
    /// Games of one GPU burst; zero switches bursts off.
    pub burst_games: usize,
    /// Simulations per burst move; zero means `eval_sims`.
    pub burst_sims: usize,
    pub le_mode: bool,
    pub le_depth: u32,
    pub le_top_k: usize,
    pub le_fwd_chunk: usize,
    pub le_iters: usize,
    pub scenarios: Vec<String>,
    pub response_after: usize,
    /// External players, as `name=url`.
    pub league_api_players: Vec<String>,
    pub heuristic_opponent_seats: usize,
    pub heuristic_opponent_kind: String,
    pub heuristic_opponent_sims: usize,
}

/// The default of `heuristic_opponent_sims`.
pub fn default_heuristic_opponent_sims() -> (n: usize)
    ensures
        n == 800,
{
    800
}

/// The default of `le_depth`.
pub fn default_le_depth() -> (n: u32)
    ensures
        n == 1,
{
    1
}

/// The default of `le_iters`.
pub fn default_le_iters() -> (n: usize)
    ensures
        n == 120,
{
    120
}

/// The default of `response_after`.
pub fn default_response_after() -> (n: usize)
    ensures
        n == 30,
{
    30
}

/// The default of `heuristic_opponent_seats`.
pub fn default_heuristic_opponent_seats() -> (n: usize)
    ensures
        n == 1,
{
    1
}

/// The default of `heuristic_opponent_kind`.
pub fn default_heuristic_opponent_kind() -> (s: String)
    ensures
        s@ == "voronoi"@,
{
    "voronoi".to_owned()
}

/// The default of `sample_turns`.
pub fn default_sample_turns() -> (n: usize)
    ensures
        n == 20,
{
    20
}

/// The default of `sample_games`.
pub fn default_sample_games() -> (n: usize)
    ensures
        n == 8,
{
    8
}

/// The default of `league_entrant_gens`.
pub fn default_league_entrant_gens() -> (n: usize)
    ensures
        n == 5,
{
    5
}

/// The default of `eval_sims`.
pub fn default_eval_sims() -> (n: usize)
    ensures
        n == 64,
{
    64
}

/// The default of `league_games`.
pub fn default_league_games() -> (n: usize)
    ensures
        n == 4,
{
    4
}

/// The default of `burst_games`.
pub fn default_burst_games() -> (n: usize)
    ensures
        n == 256,
{
    256
}

impl Default for RunConfig {
    /// The knobs of a fresh run.
    fn default() -> (c: RunConfig)
        ensures
            c.board == 11,
            c.num_snakes == 4,
            c.sims == 24,
            c.gpu_batch_games == 128,
            c.samples_per_gen == 12000,
            c.sample_turns == 20,
            c.skip_short_draw_turns == 0,
            c.trunk_channels == 96,
            c.trunk_blocks == 8,
            c.train_steps == 128,
            c.batch_size == 2048,
            c.buffer_size == 500000,
            c.search_threads == 0,
            c.sample_games == 8,
            c.league_entrant_gens == 5,
            c.eval_sims == 64,
            c.league_games == 4,
            c.burst_games == 256,
            c.burst_sims == 0,
            !c.le_mode,
            c.le_depth == 1,
            c.le_top_k == 0,
            c.le_fwd_chunk == 0,
            c.le_iters == 120,
            c.scenarios@.len() == 0,
            c.response_after == 30,
            c.league_api_players@.len() == 0,
            c.heuristic_opponent_seats == 1,
            c.heuristic_opponent_kind@ == "voronoi"@,
            c.heuristic_opponent_sims == 800,
    {
        RunConfig {
            board: 11,
            num_snakes: 4,
            sims: 24,
            gpu_batch_games: 128,
            samples_per_gen: 12000,
            sample_turns: default_sample_turns(),
            skip_short_draw_turns: 0,
            trunk_channels: 96,
            trunk_blocks: 8,
            train_steps: 128,
            batch_size: 2048,
            buffer_size: 500000,
            search_threads: 0,
            sample_games: default_sample_games(),
            league_entrant_gens: default_league_entrant_gens(),
            eval_sims: default_eval_sims(),
            league_games: default_league_games(),
            burst_games: default_burst_games(),
            burst_sims: 0,
            le_mode: false,
            le_depth: default_le_depth(),
            le_top_k: 0,
            le_fwd_chunk: 0,
            le_iters: default_le_iters(),
            scenarios: Vec::new(),
            response_after: default_response_after(),
            league_api_players: Vec::new(),
            heuristic_opponent_seats: default_heuristic_opponent_seats(),
            heuristic_opponent_kind: default_heuristic_opponent_kind(),
            heuristic_opponent_sims: default_heuristic_opponent_sims(),
        }
    }
}

/// How many games are in flight for a batch size: two batches, of one game at
/// the least.
pub open spec fn games_in_flight(gpu_batch_games: nat) -> nat {
    if gpu_batch_games < 1 {
        2
    } else {
        gpu_batch_games * 2
    }
}

impl RunConfig {
    /// How many games a generation of self-play keeps in flight.
    pub fn concurrent_games(&self) -> (n: usize)
        requires
            self.gpu_batch_games * 2 <= usize::MAX,
        ensures
            n == games_in_flight(self.gpu_batch_games as nat),
            self.gpu_batch_games >= 1 ==> n == 2 * self.gpu_batch_games,
            self.gpu_batch_games == 0 ==> n == 2,
    {
        if self.gpu_batch_games < 1 {
            GPU_PIPELINE_BUFFERS
        } else {
            self.gpu_batch_games * GPU_PIPELINE_BUFFERS
        }
    }

    /// The heuristic that sparring partners play, for a run whose share of
    /// games with partners is positive.
    pub fn heuristic_opponent(&self, share_is_positive: bool) -> (kind: Option<&str>)
        ensures
            match kind {
                Some(s) => share_is_positive && s@ == self.heuristic_opponent_kind@,
                None => !share_is_positive,
            },
    {
        if share_is_positive {
            Some(self.heuristic_opponent_kind.as_str())
        } else {
            None
        }
    }

    /// The simulations per move of a burst.
    pub fn effective_burst_sims(&self) -> (n: usize)
        ensures
            n == if self.burst_sims > 0 {
                self.burst_sims
            } else {
                self.eval_sims
            },
    {
        if self.burst_sims > 0 {
            self.burst_sims
        } else {
            self.eval_sims
        }
    }

    /// Gives the search its threads where none are configured: all processors
    /// but two, one at the least.
    pub fn configure_search_threads(&mut self, cpus: usize)
        ensures
            final(self).search_threads == if old(self).search_threads != 0 {
                old(self).search_threads as int
            } else if cpus <= 3 {
                1
            } else {
                cpus - 2
            },
            *final(self) == (RunConfig { search_threads: final(self).search_threads, ..*old(self) }),
    {
        if self.search_threads == 0 {
            self.search_threads = if cpus <= 3 { 1 } else { cpus - 2 };
        }
    }
}

} // verus!
