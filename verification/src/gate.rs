//! Gating: what stands between the learner and the net that makes the self-play data.
//!
//! The incumbent makes all the data and changes by promotion only. Every few
//! generations candidate and incumbent play the same starts against the same
//! opponent, and the candidate takes over where it wins strictly more.

use vstd::prelude::*;

verus! {

/// The fewest games of a gate match.
pub const GATE_GAMES_MIN: usize = 8;

/// The state of gating across generations.
#[derive(Clone, Copy, Debug, PartialEq, Eq, Structural)]
pub struct GateMeta {
    /// The generation whose weights the incumbent holds.
    pub incumbent_gen: u32,
    /// The promotions so far.
    pub promotions: u32,
    /// The gates failed since the last promotion.
    pub failed_gates: u32,
    /// The seed of the next gate's games.
    pub next_seed: u64,
}

/// What one gate decided.
#[derive(Clone, Copy, Debug, PartialEq, Eq, Structural)]
pub struct GateReport {
    pub candidate_wins: usize,
    pub incumbent_wins: usize,
    pub games: usize,
    pub promoted: bool,
}

impl GateMeta {
    /// The state of a run whose incumbent is the founding net of `gen`.
    pub fn founding(gen: u32, seed: u64) -> (m: GateMeta)
        ensures
            m == (GateMeta { incumbent_gen: gen, promotions: 0, failed_gates: 0, next_seed: seed }),
    {
        GateMeta { incumbent_gen: gen, promotions: 0, failed_gates: 0, next_seed: seed }
    }
}

/// Whether the candidate takes over: it has won more than the incumbent and the
/// margin together.
pub open spec fn takes_over(candidate_wins: nat, incumbent_wins: nat, margin: nat) -> bool {
    candidate_wins > incumbent_wins + margin
}

/// Whether the candidate takes over. A tie keeps the incumbent.
pub fn promote(candidate_wins: usize, incumbent_wins: usize, margin: usize) -> (r: bool)
    ensures
        r == takes_over(candidate_wins as nat, incumbent_wins as nat, margin as nat),
        r <==> candidate_wins - incumbent_wins > margin,
{
    candidate_wins > incumbent_wins && candidate_wins - incumbent_wins > margin
}

/// The seed of the next gate after one at generation `gen`.
pub open spec fn rotated_seed(seed: u64, gen: u32) -> u64 {
    seed.wrapping_mul(0x9E37_79B9_7F4A_7C15).wrapping_add(gen as u64)
}

/// The state of gating after a gate at generation `gen`.
pub open spec fn after_gate(m: GateMeta, gen: u32, promoted: bool) -> GateMeta {
    if promoted {
        GateMeta {
            incumbent_gen: gen,
            promotions: (m.promotions + 1) as u32,
            failed_gates: 0,
            next_seed: rotated_seed(m.next_seed, gen),
        }
    } else {
        GateMeta {
            incumbent_gen: m.incumbent_gen,
            promotions: m.promotions,
            failed_gates: (m.failed_gates + 1) as u32,
            next_seed: rotated_seed(m.next_seed, gen),
        }
    }
}

/// The number of games that each side plays in a gate.
pub fn gate_games(configured: usize) -> (n: usize)
    ensures
        n == if configured < GATE_GAMES_MIN {
            GATE_GAMES_MIN
        } else {
            configured
        },
{
    if configured < GATE_GAMES_MIN {
        GATE_GAMES_MIN
    } else {
        configured
    }
}

/// Decides a gate at generation `gen` from the two sides' wins, and moves the
/// gate's state on.
pub fn run_gate(
    meta: &mut GateMeta,
    gen: u32,
    candidate_wins: usize,
    incumbent_wins: usize,
    games: usize,
    margin: usize,
) -> (r: GateReport)
    requires
        old(meta).promotions < u32::MAX,
        old(meta).failed_gates < u32::MAX,
    ensures
        r.candidate_wins == candidate_wins,
        r.incumbent_wins == incumbent_wins,
        r.games == games,
        r.promoted == takes_over(candidate_wins as nat, incumbent_wins as nat, margin as nat),
        *final(meta) == after_gate(*old(meta), gen, r.promoted),
        r.promoted <==> candidate_wins - incumbent_wins > margin,
        r.promoted ==> final(meta).incumbent_gen == gen && final(meta).promotions == old(
            meta,
        ).promotions + 1 && final(meta).failed_gates == 0,
        !r.promoted ==> final(meta).incumbent_gen == old(meta).incumbent_gen && final(meta).promotions == old(meta).promotions && final(meta).failed_gates == old(meta).failed_gates
            + 1,
        final(meta).next_seed == old(meta).next_seed.wrapping_mul(
            0x9E37_79B9_7F4A_7C15,
        ).wrapping_add(gen as u64),
{
    let promoted = promote(candidate_wins, incumbent_wins, margin);
    meta.next_seed = meta.next_seed.wrapping_mul(0x9E37_79B9_7F4A_7C15).wrapping_add(gen as u64);
    if promoted {
        meta.incumbent_gen = gen;
        meta.promotions = meta.promotions + 1;
        meta.failed_gates = 0;
    } else {
        meta.failed_gates = meta.failed_gates + 1;
    }
    GateReport { candidate_wins, incumbent_wins, games, promoted }
}

/// The incumbent changes by promotion only, and only to the generation that
/// beat it.
pub proof fn incumbent_changes_by_promotion_only(m: GateMeta, gen: u32, promoted: bool)
    ensures
        !promoted ==> after_gate(m, gen, promoted).incumbent_gen == m.incumbent_gen,
        promoted ==> after_gate(m, gen, promoted).incumbent_gen == gen,
{
}

/// A promotion is never won by a tie, and a larger margin never promotes where
/// a smaller one does not.
pub proof fn promotion_is_strict(candidate: nat, incumbent: nat, margin: nat, larger: nat)
    requires
        margin <= larger,
    ensures
        !takes_over(incumbent, incumbent, margin),
        takes_over(candidate, incumbent, larger) ==> takes_over(candidate, incumbent, margin),
        takes_over(candidate, incumbent, margin) ==> !takes_over(incumbent, candidate, margin),
{
}

/// The index of the first largest number.
pub open spec fn first_best(wins: Seq<usize>) -> Option<int>
    decreases wins.len(),
{
    if wins.len() == 0 {
        None
    } else {
        match first_best(wins.drop_last()) {
            Some(b) => if wins.last() > wins[b] {
                Some(wins.len() - 1)
            } else {
                Some(b)
            },
            None => Some(0int),
        }
    }
}

/// The best of a sweep is the first of those that nobody beats, and there is one
/// wherever there is anybody.
pub proof fn the_first_best_wins(wins: Seq<usize>)
    ensures
        match first_best(wins) {
            Some(b) => {
                &&& 0 <= b < wins.len()
                &&& forall|i: int| 0 <= i < wins.len() ==> #[trigger] wins[i] <= wins[b]
                &&& forall|i: int| 0 <= i < b ==> #[trigger] wins[i] < wins[b]
            },
            None => wins.len() == 0,
        },
    decreases wins.len(),
{
    if wins.len() > 0 {
        let rest = wins.drop_last();
        the_first_best_wins(rest);
        match first_best(rest) {
            Some(b) => {
                assert forall|i: int| 0 <= i < rest.len() implies #[trigger] wins[i] <= wins[b] by {
                    assert(rest[i] <= rest[b]);
                }
                assert forall|i: int| 0 <= i < b implies #[trigger] wins[i] < wins[b] by {
                    assert(rest[i] < rest[b]);
                }
            },
            None => {},
        }
    }
}

/// A candidate takes over exactly if it won more than `margin` games more than
/// the incumbent did; a promotion makes it the incumbent, counts it and forgets
/// the failures, and anything else counts one failure. The seed moves on either
/// way.
pub proof fn gates_promote_by_margin(
    m: GateMeta,
    gen: u32,
    candidate: nat,
    incumbent: nat,
    margin: nat,
)
    requires
        m.promotions < u32::MAX,
        m.failed_gates < u32::MAX,
    ensures
        takes_over(candidate, incumbent, margin) <==> candidate - incumbent > margin,
        after_gate(m, gen, true).promotions == m.promotions + 1,
        after_gate(m, gen, true).failed_gates == 0,
        after_gate(m, gen, true).incumbent_gen == gen,
        after_gate(m, gen, false).promotions == m.promotions,
        after_gate(m, gen, false).failed_gates == m.failed_gates + 1,
        after_gate(m, gen, false).incumbent_gen == m.incumbent_gen,
        after_gate(m, gen, true).next_seed == after_gate(m, gen, false).next_seed,
{
}

/// The best of a sweep of checkpoints that all played the same games: the first
/// with the most wins.
pub fn sweep_winner(wins: &Vec<usize>) -> (best: Option<usize>)
    ensures
        match best {
            Some(b) => first_best(wins@) == Some(b as int) && b < wins@.len() && forall|i: int|
                0 <= i < wins@.len() ==> wins@[i] <= wins@[b as int],
            None => wins@.len() == 0,
        },
{
    if wins.len() == 0 {
        return None;
    }
    let mut best: usize = 0;
    let mut i: usize = 1;
    assert(wins@.take(1).drop_last() =~= Seq::<usize>::empty());
    assert(first_best(Seq::<usize>::empty()) is None);
    while i < wins.len()
        invariant
            1 <= i <= wins@.len(),
            best < i,
            first_best(wins@.take(i as int)) == Some(best as int),
            forall|k: int| 0 <= k < i ==> wins@[k] <= wins@[best as int],
        decreases wins@.len() - i,
    {
        assert(wins@.take(i + 1).drop_last() =~= wins@.take(i as int));
        if wins[i] > wins[best] {
            best = i;
        }
        i = i + 1;
    }
    assert(wins@.take(i as int) =~= wins@);
    Some(best)
}

/// No two generations make the same seed of the same seed, and consecutive ones
/// make consecutive seeds; after zero comes the generation's own number.
pub proof fn generations_have_their_own_seeds(seed: u64, g: u32, h: u32)
    ensures
        rotated_seed(seed, g) == rotated_seed(seed, h) ==> g == h,
        rotated_seed(seed, g) <= u64::MAX - (u32::MAX - g) && h >= g ==> rotated_seed(seed, h)
            - rotated_seed(seed, g) == h - g,
        rotated_seed(0, g) == g,
{
}

} // verus!
