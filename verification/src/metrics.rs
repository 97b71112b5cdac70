//! The trainer's running counters and what is read off them.

use vstd::prelude::*;

verus! {

/// A trainer event for people to read.
pub struct LogEntry {
    pub t_unix_ms: u64,
    pub message: String,
}

/// What the trainer is doing.
#[derive(Clone, Copy, Debug, PartialEq, Eq, Structural)]
pub enum Phase {
    Idle,
    Playing,
    Training,
    Checkpoint,
    Stopping,
    Stopped,
    Arena,
}

/// The trainer's counters.
pub struct Counters {
    pub generation: u32,
    pub phase: u32,
    pub samples_collected: u32,
    pub samples_target: u32,
    pub train_step: u32,
    pub train_steps_total: u32,
    pub completed_games: u64,
    /// The turns of all completed games.
    pub completed_turns: u64,
    pub inferences: u64,
    pub gpu_forward_us: u64,
    pub gpu_requests: u64,
    pub gpu_rows: u64,
    pub policy_loss_bits: u64,
    pub value_loss_bits: u64,
    pub target_entropy_bits: u64,
}

/// The number that stands for a phase.
pub open spec fn phase_code(p: Phase) -> u32 {
    match p {
        Phase::Idle => 0,
        Phase::Playing => 1,
        Phase::Training => 2,
        Phase::Checkpoint => 3,
        Phase::Stopping => 4,
        Phase::Stopped => 5,
        Phase::Arena => 6,
    }
}

/// The phase that a number stands for; any other number means idle.
pub open spec fn phase_of(v: u32) -> Phase {
    if v == 1 {
        Phase::Playing
    } else if v == 2 {
        Phase::Training
    } else if v == 3 {
        Phase::Checkpoint
    } else if v == 4 {
        Phase::Stopping
    } else if v == 5 {
        Phase::Stopped
    } else {
        Phase::Idle
    }
}

/// A phase reads back as itself; the arena alone reads back as idle.
pub proof fn phases_read_back(p: Phase)
    ensures
        phase_of(phase_code(p)) == if p == Phase::Arena {
            Phase::Idle
        } else {
            p
        },
{
}

/// The phase that a number stands for.
pub fn phase_from_u32(v: u32) -> (p: Phase)
    ensures
        p == phase_of(v),
        p == Phase::Playing <==> v == 1,
        p == Phase::Training <==> v == 2,
        p == Phase::Checkpoint <==> v == 3,
        p == Phase::Stopping <==> v == 4,
        p == Phase::Stopped <==> v == 5,
        p == Phase::Idle <==> v == 0 || v > 5,
{
    match v {
        1 => Phase::Playing,
        2 => Phase::Training,
        3 => Phase::Checkpoint,
        4 => Phase::Stopping,
        5 => Phase::Stopped,
        _ => Phase::Idle,
    }
}

/// The number that stands for a phase.
pub fn phase_to_u32(p: Phase) -> (v: u32)
    ensures
        v == phase_code(p),
        v == 0 <==> p == Phase::Idle,
        v == 1 <==> p == Phase::Playing,
        v == 2 <==> p == Phase::Training,
        v == 3 <==> p == Phase::Checkpoint,
        v == 4 <==> p == Phase::Stopping,
        v == 5 <==> p == Phase::Stopped,
        v == 6 <==> p == Phase::Arena,
{
    match p {
        Phase::Idle => 0,
        Phase::Playing => 1,
        Phase::Training => 2,
        Phase::Checkpoint => 3,
        Phase::Stopping => 4,
        Phase::Stopped => 5,
        Phase::Arena => 6,
    }
}

impl Counters {
    /// All counters at zero.
    pub fn new() -> (c: Counters)
        ensures
            c == (Counters {
                generation: 0,
                phase: 0,
                samples_collected: 0,
                samples_target: 0,
                train_step: 0,
                train_steps_total: 0,
                completed_games: 0,
                completed_turns: 0,
                inferences: 0,
                gpu_forward_us: 0,
                gpu_requests: 0,
                gpu_rows: 0,
                policy_loss_bits: 0,
                value_loss_bits: 0,
                target_entropy_bits: 0,
            }),
    {
        Counters {
            generation: 0,
            phase: 0,
            samples_collected: 0,
            samples_target: 0,
            train_step: 0,
            train_steps_total: 0,
            completed_games: 0,
            completed_turns: 0,
            inferences: 0,
            gpu_forward_us: 0,
            gpu_requests: 0,
            gpu_rows: 0,
            policy_loss_bits: 0,
            value_loss_bits: 0,
            target_entropy_bits: 0,
        }
    }

    /// Notes the phase.
    pub fn set_phase(&mut self, phase: Phase)
        ensures
            *final(self) == (Counters { phase: phase_code(phase), ..*old(self) }),
    {
        self.phase = phase_to_u32(phase);
    }

    /// Notes the losses, each by the bits of its number.
    pub fn set_losses(&mut self, policy_bits: u64, value_bits: u64, entropy_bits: u64)
        ensures
            *final(self) == (Counters {
                policy_loss_bits: policy_bits,
                value_loss_bits: value_bits,
                target_entropy_bits: entropy_bits,
                ..*old(self)
            }),
    {
        self.policy_loss_bits = policy_bits;
        self.value_loss_bits = value_bits;
        self.target_entropy_bits = entropy_bits;
    }
}

/// One reading of the counters that rates are made of.
#[derive(Clone, Copy, Debug, PartialEq, Eq, Structural)]
pub struct Reading {
    pub inferences: u64,
    pub games: u64,
    pub turns: u64,
    pub forward_us: u64,
    pub rows: u64,
    pub requests: u64,
}

/// What happened between two readings.
#[derive(Clone, Copy, Debug, PartialEq, Eq, Structural)]
pub struct Window {
    pub inferences: u64,
    pub games: u64,
    pub turns: u64,
    pub forward_us: u64,
    pub rows: u64,
    /// Rows per request, a window without requests counting as one.
    pub batch_avg_rows: u32,
}

/// `a` less `b`, zero at the least.
pub open spec fn less(a: u64, b: u64) -> u64 {
    if a < b {
        0
    } else {
        (a - b) as u64
    }
}

/// What happened between two readings; the games that ended give the mean
/// length `turns / games` wherever there were any.
pub fn window(last: Reading, now: Reading) -> (w: Window)
    requires
        last.inferences <= now.inferences,
        last.games <= now.games,
    ensures
        w.inferences == now.inferences - last.inferences,
        w.games == now.games - last.games,
        w.turns == less(now.turns, last.turns),
        last.turns <= now.turns ==> w.turns == now.turns - last.turns,
        last.turns > now.turns ==> w.turns == 0,
        last.forward_us <= now.forward_us ==> w.forward_us == now.forward_us - last.forward_us,
        last.forward_us > now.forward_us ==> w.forward_us == 0,
        last.rows <= now.rows ==> w.rows == now.rows - last.rows,
        last.rows > now.rows ==> w.rows == 0,
        now.requests > last.requests && now.rows >= last.rows ==> w.batch_avg_rows == ((now.rows
            - last.rows) / (now.requests - last.requests)) as u32,
        w.forward_us == less(now.forward_us, last.forward_us),
        w.rows == less(now.rows, last.rows),
        w.batch_avg_rows == (w.rows / if less(now.requests, last.requests) == 0 {
            1
        } else {
            less(now.requests, last.requests)
        }) as u32,
{
    let rows: u64 = now.rows.saturating_sub(last.rows);
    let asked: u64 = now.requests.saturating_sub(last.requests);
    let requests: u64 = if asked == 0 { 1 } else { asked };
    Window {
        inferences: now.inferences - last.inferences,
        games: now.games - last.games,
        turns: now.turns.saturating_sub(last.turns),
        forward_us: now.forward_us.saturating_sub(last.forward_us),
        rows,
        batch_avg_rows: #[verifier::truncate]
        ((rows / requests) as u32),
    }
}

/// The time of a log entry or frame, from the clock's milliseconds since the
/// epoch: its low 64 bits, and zero for a clock that stands before the epoch.
pub fn unix_ms(since_epoch_ms: Option<u128>) -> (t: u64)
    ensures
        t == match since_epoch_ms {
            Some(ms) => ms as u64,
            None => 0,
        },
{
    match since_epoch_ms {
        Some(ms) => #[verifier::truncate]
        (ms as u64),
        None => 0,
    }
}

} // verus!
