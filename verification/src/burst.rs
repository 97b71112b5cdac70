//! A burst of arena games: its size, its commit, and the tally of a
//! round-robin.

use vstd::prelude::*;

use crate::arena::{FinishedGame, RECORDED_GAMES_PER_BURST};
use crate::groups;
use crate::order;
use crate::placing::Placement;

verus! {

/// One finished league game.
pub struct MatchRecord<F> {
    pub seq: u64,
    pub placements: Vec<Placement>,
    pub turns: u32,
    pub sims: u32,
    pub wall_seconds: F,
    pub finished_unix_ms: i64,
}

/// The size of a burst.
#[derive(Clone, Copy, Debug, PartialEq, Eq, Structural)]
pub struct BurstPlan {
    /// Search simulations per move.
    pub sims: usize,
    /// Game slots over all workers.
    pub slots: usize,
    /// New games to finish.
    pub target: usize,
    pub workers: usize,
    /// Slots per worker; the last one may have fewer.
    pub chunk: usize,
}

/// The larger of two numbers.
pub open spec fn at_least(a: nat, b: nat) -> nat {
    if a < b {
        b
    } else {
        a
    }
}

/// The size of a burst: `burst_sims` simulations, or `eval_sims` where that is
/// zero, one at least; two slots at least; one game at least; and the workers
/// asked for, two where nothing valid is asked, no more than there are slots.
pub fn plan_burst(
    burst_sims: usize,
    eval_sims: usize,
    gpu_batch_games: usize,
    burst_games: usize,
    workers_asked: Option<usize>,
) -> (p: BurstPlan)
    ensures
        p.sims == at_least(
            if burst_sims > 0 {
                burst_sims as nat
            } else {
                eval_sims as nat
            },
            1,
        ),
        p.slots == at_least(gpu_batch_games as nat, 2),
        gpu_batch_games >= 2 ==> p.slots == gpu_batch_games,
        gpu_batch_games < 2 ==> p.slots == 2,
        burst_games >= 1 ==> p.target == burst_games,
        burst_games == 0 ==> p.target == 1,
        burst_sims > 0 ==> p.sims == burst_sims,
        burst_sims == 0 && eval_sims > 0 ==> p.sims == eval_sims,
        burst_sims == 0 && eval_sims == 0 ==> p.sims == 1,
        1 <= p.workers <= p.slots,
        p.target == at_least(burst_games as nat, 1),
        p.workers == ({
            let w = match workers_asked {
                Some(w) => if w >= 1 {
                    w
                } else {
                    2
                },
                None => 2,
            };
            if w > p.slots {
                p.slots
            } else {
                w
            }
        }),
        p.chunk == (p.slots - 1) / p.workers as int + 1,
{
    let sims: usize = if burst_sims > 0 {
        burst_sims
    } else if eval_sims > 1 {
        eval_sims
    } else {
        1
    };
    let slots: usize = if gpu_batch_games < 2 { 2 } else { gpu_batch_games };
    let target: usize = if burst_games < 1 { 1 } else { burst_games };
    let asked: usize = match workers_asked {
        Some(w) => if w >= 1 {
            w
        } else {
            2
        },
        None => 2,
    };
    let workers: usize = if asked > slots { slots } else { asked };
    assert((slots - 1) / workers as int <= slots - 1) by (nonlinear_arith)
        requires
            slots >= 1,
            workers >= 1,
    ;
    let chunk: usize = (slots - 1) / workers + 1;
    BurstPlan { sims, slots, target, workers, chunk }
}

/// The workers' chunks hold all slots, and each of them is needed until the
/// slots run out.
pub proof fn chunks_hold_all_slots(slots: nat, workers: nat)
    requires
        slots >= 1,
        workers >= 1,
    ensures
        ((slots - 1) / workers as int + 1) * workers >= slots,
        ((slots - 1) / workers as int) * workers < slots,
{
    let q = (slots - 1) / workers as int;
    assert(q * workers <= slots - 1 < (q + 1) * workers) by (nonlinear_arith)
        requires
            q == (slots - 1) / workers as int,
            workers >= 1,
            slots >= 1,
    ;
}

/// The seed of worker `w` of a burst.
pub fn worker_seed(seed: u64, w: u64) -> (s: u64)
    ensures
        s == (seed ^ (w << 48)) ^ 0x0DDB_1A5E_5BAD_5EED,
{
    (seed ^ (w << 48)) ^ 0x0DDB_1A5E_5BAD_5EED
}

/// What a burst leaves behind.
pub struct Commit<F> {
    /// The order in which the games finished, as indices into them.
    pub order: Vec<usize>,
    /// The games' records in that order, numbered on from the league's next
    /// number.
    pub records: Vec<MatchRecord<F>>,
    /// The records (as indices into `records`) whose games get a file.
    pub recorded: Vec<usize>,
    pub turns: u64,
}

/// The turns of the first `k` games in an order.
pub open spec fn turns_of<F>(finished: Seq<FinishedGame<F>>, order: Seq<usize>, k: nat) -> nat
    decreases k,
{
    if k == 0 {
        0
    } else {
        turns_of(finished, order, (k - 1) as nat) + finished[order[k - 1] as int].turns as nat
    }
}

/// The first eight of the first `k` games in an order that have frames.
pub open spec fn first_recorded<F>(
    finished: Seq<FinishedGame<F>>,
    order: Seq<usize>,
    k: nat,
) -> Seq<usize>
    decreases k,
{
    if k == 0 {
        Seq::empty()
    } else {
        let rest = first_recorded(finished, order, (k - 1) as nat);
        if finished[order[k - 1] as int].frames is Some && rest.len() < RECORDED_GAMES_PER_BURST {
            rest.push((k - 1) as usize)
        } else {
            rest
        }
    }
}

/// The record of a finished game.
pub open spec fn records_game<F>(
    r: MatchRecord<F>,
    f: FinishedGame<F>,
    seq: nat,
    sims: u32,
    stamp: i64,
) -> bool {
    &&& r.seq == seq
    &&& r.placements@ == f.placements@
    &&& r.turns == f.turns
    &&& r.sims == sims
    &&& r.wall_seconds == f.wall_seconds
    &&& r.finished_unix_ms == stamp
}

/// The numbers by which finished games are ordered.
pub open spec fn finish_keys<F>(finished: Seq<FinishedGame<F>>) -> Seq<u64> {
    finished.map_values(|f: FinishedGame<F>| f.finished_order as u64)
}

/// A copy of a list of placements.
pub fn copy_placements(v: &Vec<Placement>) -> (r: Vec<Placement>)
    ensures
        r@ == v@,
{
    let mut r: Vec<Placement> = Vec::new();
    let mut i: usize = 0;
    while i < v.len()
        invariant
            i <= v@.len(),
            r@ == v@.take(i as int),
        decreases v@.len() - i,
    {
        r.push(v[i]);
        i = i + 1;
        assert(r@ =~= v@.take(i as int));
    }
    assert(v@.take(i as int) =~= v@);
    r
}

/// Numbers the games of a burst in the order in which they finished, and picks
/// those to write out. `stamps[j]` is the time at which record `j` was made.
pub fn commit<F: Copy>(
    finished: &Vec<FinishedGame<F>>,
    next_seq: u64,
    sims: u32,
    stamps: &Vec<i64>,
) -> (c: Commit<F>)
    requires
        stamps@.len() == finished@.len(),
        finished@.len() <= u32::MAX,
        next_seq + finished@.len() <= u64::MAX,
    ensures
        order::is_stable_order(finish_keys(finished@), c.order@),
        c.records@.len() == finished@.len(),
        forall|j: int|
            0 <= j < finished@.len() ==> records_game(
                #[trigger] c.records@[j],
                finished@[c.order@[j] as int],
                (next_seq + j) as nat,
                sims,
                stamps@[j],
            ),
        c.recorded@ == first_recorded(finished@, c.order@, finished@.len()),
        forall|j: int|
            0 <= j < finished@.len() ==> {
                let (r, f) = (#[trigger] c.records@[j], finished@[c.order@[j] as int]);
                &&& r.seq == next_seq + j
                &&& r.placements@ == f.placements@
                &&& r.turns == f.turns
                &&& r.sims == sims
                &&& r.finished_unix_ms == stamps@[j]
            },
        forall|i: int, j: int|
            0 <= i < j < finished@.len() ==> finished@[#[trigger] c.order@[i] as int].finished_order
                <= finished@[#[trigger] c.order@[j] as int].finished_order,
        c.turns == turns_of(finished@, c.order@, finished@.len()),
{
    let n: usize = finished.len();
    let mut keys: Vec<u64> = Vec::new();
    let mut i: usize = 0;
    while i < n
        invariant
            i <= n,
            n == finished@.len(),
            keys@ == finish_keys(finished@).take(i as int),
        decreases n - i,
    {
        keys.push(finished[i].finished_order as u64);
        i = i + 1;
        assert(keys@ =~= finish_keys(finished@).take(i as int));
    }
    assert(keys@ =~= finish_keys(finished@));
    let ord = order::stable_order(&keys);
    let mut records: Vec<MatchRecord<F>> = Vec::new();
    let mut recorded: Vec<usize> = Vec::new();
    let mut turns: u64 = 0;
    let mut j: usize = 0;
    while j < n
        invariant
            j <= n,
            n == finished@.len(),
            n <= u32::MAX,
            ord@.len() == n,
            forall|k: int| 0 <= k < n ==> #[trigger] ord@[k] < n,
            stamps@.len() == n,
            next_seq + n <= u64::MAX,
            records@.len() == j,
            forall|k: int|
                0 <= k < j ==> records_game(
                    #[trigger] records@[k],
                    finished@[ord@[k] as int],
                    (next_seq + k) as nat,
                    sims,
                    stamps@[k],
                ),
            recorded@ == first_recorded(finished@, ord@, j as nat),
            turns == turns_of(finished@, ord@, j as nat),
            turns <= j * u32::MAX,
        decreases n - j,
    {
        let f = &finished[ord[j]];
        assert(j * u32::MAX + u32::MAX <= u64::MAX) by (nonlinear_arith)
            requires
                j < u32::MAX,
        ;
        if f.frames.is_some() && recorded.len() < RECORDED_GAMES_PER_BURST {
            recorded.push(j);
        }
        turns = turns + f.turns as u64;
        records.push(
            MatchRecord {
                seq: next_seq + j as u64,
                placements: copy_placements(&f.placements),
                turns: f.turns,
                sims,
                wall_seconds: f.wall_seconds,
                finished_unix_ms: stamps[j],
            },
        );
        j = j + 1;
    }
    Commit { order: ord, records, recorded, turns }
}

/// What a round-robin shows of its players, by their index.
pub struct Tally {
    pub games: Vec<u64>,
    pub wins: Vec<u64>,
    pub rank_sum: Vec<u64>,
    /// `beats[i][j]`: games in which player `i` ranked before player `j`.
    pub beats: Vec<Vec<u64>>,
}

/// How many places of a game are player `i`'s.
pub open spec fn seats_played(ps: Seq<Placement>, gens: Seq<u32>, i: usize) -> nat
    decreases ps.len(),
{
    if ps.len() == 0 {
        0
    } else {
        seats_played(ps.drop_last(), gens, i) + if groups::last_position(gens, ps.last().gen)
            == Some(i) {
            1nat
        } else {
            0nat
        }
    }
}

/// How many first places of a game are player `i`'s.
pub open spec fn firsts(ps: Seq<Placement>, gens: Seq<u32>, i: usize) -> nat
    decreases ps.len(),
{
    if ps.len() == 0 {
        0
    } else {
        firsts(ps.drop_last(), gens, i) + if groups::last_position(gens, ps.last().gen) == Some(i)
            && ps.last().rank == 1 {
            1nat
        } else {
            0nat
        }
    }
}

/// The sum of player `i`'s ranks in a game.
pub open spec fn rank_total(ps: Seq<Placement>, gens: Seq<u32>, i: usize) -> nat
    decreases ps.len(),
{
    if ps.len() == 0 {
        0
    } else {
        rank_total(ps.drop_last(), gens, i) + if groups::last_position(gens, ps.last().gen)
            == Some(i) {
            ps.last().rank as nat
        } else {
            0nat
        }
    }
}

/// Player `i`'s rank in a game, from its last seat; zero where it has none.
pub open spec fn last_rank(ps: Seq<Placement>, gens: Seq<u32>, i: usize) -> u32
    decreases ps.len(),
{
    if ps.len() == 0 {
        0
    } else if groups::last_position(gens, ps.last().gen) == Some(i) {
        ps.last().rank
    } else {
        last_rank(ps.drop_last(), gens, i)
    }
}

/// Whether player `i` ranked before player `j` in a game that both played.
pub open spec fn beat(ps: Seq<Placement>, gens: Seq<u32>, i: usize, j: usize) -> bool {
    i != j && last_rank(ps, gens, i) > 0 && last_rank(ps, gens, i) < last_rank(ps, gens, j)
}

/// One of the sums of a tally, over a list of games.
pub open spec fn sum_games(games: Seq<Vec<Placement>>, f: spec_fn(Seq<Placement>) -> nat) -> nat
    decreases games.len(),
{
    if games.len() == 0 {
        0
    } else {
        sum_games(games.drop_last(), f) + f(games.last()@)
    }
}

/// Whether a tally counts a list of games.
pub open spec fn tallies(t: Tally, games: Seq<Vec<Placement>>, gens: Seq<u32>) -> bool {
    let n = gens.len();
    &&& t.games@.len() == n && t.wins@.len() == n && t.rank_sum@.len() == n && t.beats@.len() == n
    &&& forall|i: usize|
        i < n ==> #[trigger] t.games@[i as int] == sum_games(
            games,
            |ps: Seq<Placement>| seats_played(ps, gens, i),
        )
    &&& forall|i: usize|
        i < n ==> #[trigger] t.wins@[i as int] == sum_games(
            games,
            |ps: Seq<Placement>| firsts(ps, gens, i),
        )
    &&& forall|i: usize|
        i < n ==> #[trigger] t.rank_sum@[i as int] == sum_games(
            games,
            |ps: Seq<Placement>| rank_total(ps, gens, i),
        )
    &&& forall|i: usize| i < n ==> (#[trigger] t.beats@[i as int])@.len() == n
    &&& forall|i: usize, j: usize|
        i < n && j < n ==> #[trigger] t.beats@[i as int]@[j as int] == sum_games(
            games,
            |ps: Seq<Placement>|
                if beat(ps, gens, i, j) {
                    1nat
                } else {
                    0nat
                },
        )
}

proof fn lemma_game_bounds(ps: Seq<Placement>, gens: Seq<u32>, i: usize)
    ensures
        firsts(ps, gens, i) <= seats_played(ps, gens, i) <= ps.len(),
        rank_total(ps, gens, i) <= ps.len() * u32::MAX,
    decreases ps.len(),
{
    if ps.len() > 0 {
        lemma_game_bounds(ps.drop_last(), gens, i);
        assert((ps.len() - 1) * u32::MAX + u32::MAX == ps.len() * u32::MAX) by (nonlinear_arith);
    }
}

/// Counts a list of games for a round-robin of `gens`: games, wins and rank
/// sums per player, and who ranked before whom.
pub fn round_robin(games: &Vec<Vec<Placement>>, gens: &Vec<u32>) -> (t: Tally)
    requires
        games@.len() * gens@.len() <= u32::MAX,
        games@.len() <= u32::MAX,
        forall|k: int| 0 <= k < games@.len() ==> (#[trigger] games@[k])@.len() <= gens@.len(),
    ensures
        tallies(t, games@, gens@),
{
    let n: usize = gens.len();
    let mut t = Tally {
        games: crate::arena::repeated(0u64, n),
        wins: crate::arena::repeated(0u64, n),
        rank_sum: crate::arena::repeated(0u64, n),
        beats: Vec::new(),
    };
    while t.beats.len() < n
        invariant
            n == gens@.len(),
            t.beats@.len() <= n,
            t.games@ == Seq::new(n as nat, |i: int| 0u64),
            t.wins@ == Seq::new(n as nat, |i: int| 0u64),
            t.rank_sum@ == Seq::new(n as nat, |i: int| 0u64),
            forall|i: int|
                0 <= i < t.beats@.len() ==> (#[trigger] t.beats@[i])@ == Seq::new(
                    n as nat,
                    |i: int| 0u64,
                ),
        decreases n - t.beats@.len(),
    {
        t.beats.push(crate::arena::repeated(0u64, n));
    }
    let mut k: usize = 0;
    proof {
        assert(games@.take(0) =~= Seq::<Vec<Placement>>::empty());
    }
    while k < games.len()
        invariant
            k <= games@.len(),
            n == gens@.len(),
            games@.len() * n <= u32::MAX,
            games@.len() <= u32::MAX,
            forall|k: int| 0 <= k < games@.len() ==> (#[trigger] games@[k])@.len() <= n,
            tallies(t, games@.take(k as int), gens@),
            forall|i: int| 0 <= i < n ==> #[trigger] t.games@[i] <= k * n,
            forall|i: int| 0 <= i < n ==> #[trigger] t.wins@[i] <= k * n,
            forall|i: int| 0 <= i < n ==> #[trigger] t.rank_sum@[i] <= k * n * u32::MAX,
            forall|i: int, j: int| 0 <= i < n && 0 <= j < n ==> #[trigger] t.beats@[i]@[j] <= k,
        decreases games@.len() - k,
    {
        assert(games@.take(k + 1).drop_last() =~= games@.take(k as int));
        assert(k * n + n <= u32::MAX && (k + 1) * n == k * n + n) by (nonlinear_arith)
            requires
                k + 1 <= games@.len(),
                games@.len() * n <= u32::MAX,
        ;
        assert((k * n + n) * u32::MAX == k * n * u32::MAX + n * u32::MAX) by (nonlinear_arith);
        assert((k * n + n) * u32::MAX <= u64::MAX) by (nonlinear_arith)
            requires
                k * n + n <= u32::MAX,
        ;
        let ghost t0 = t;
        add_game(&mut t, &games[k], gens, k as u64);
        proof {
            assert forall|i: usize| i < n implies #[trigger] t.games@[i as int] <= k * n + n by {
                lemma_game_bounds(games@[k as int]@, gens@, i);
                assert(t0.games@[i as int] <= k * n);
            }
            assert forall|i: int| 0 <= i < n implies #[trigger] t.games@[i] <= (k + 1) * n by {
                assert(t.games@[i as usize as int] <= k * n + n);
            }
            assert forall|i: int| 0 <= i < n implies #[trigger] t.wins@[i] <= (k + 1) * n by {
                lemma_game_bounds(games@[k as int]@, gens@, i as usize);
                assert(t0.wins@[i] <= k * n);
                assert(t.wins@[i as usize as int] == t0.wins@[i] + firsts(
                    games@[k as int]@,
                    gens@,
                    i as usize,
                ));
            }
            assert forall|i: int| 0 <= i < n implies #[trigger] t.rank_sum@[i] <= (k + 1) * n
                * u32::MAX by {
                let ps = games@[k as int]@;
                lemma_game_bounds(ps, gens@, i as usize);
                assert(ps.len() * u32::MAX <= n * u32::MAX) by (nonlinear_arith)
                    requires
                        ps.len() <= n,
                ;
                assert(t0.rank_sum@[i] <= k * n * u32::MAX);
                assert(t.rank_sum@[i as usize as int] == t0.rank_sum@[i] + rank_total(
                    ps,
                    gens@,
                    i as usize,
                ));
                assert((k + 1) * n * u32::MAX == k * n * u32::MAX + n * u32::MAX)
                    by (nonlinear_arith);
            }
            assert forall|i: int, j: int| 0 <= i < n && 0 <= j < n implies #[trigger] t.beats@[i]@[j]
                <= k + 1 by {
                assert(t0.beats@[i]@[j] <= k);
                assert(t.beats@[i as usize as int]@[j as usize as int] == t0.beats@[i]@[j] + if beat(
                    games@[k as int]@,
                    gens@,
                    i as usize,
                    j as usize,
                ) {
                    1nat
                } else {
                    0nat
                });
            }
            assert(tallies(t, games@.take(k + 1), gens@)) by {
                let (g0, ps) = (games@.take(k as int), games@[k as int]@);
                assert forall|i: usize, j: usize| i < n && j < n implies #[trigger] t.beats@[i as int]@[j as int]
                    == sum_games(
                    games@.take(k + 1),
                    |ps: Seq<Placement>|
                        if beat(ps, gens@, i, j) {
                            1nat
                        } else {
                            0nat
                        },
                ) by {
                    assert(t0.beats@[i as int]@[j as int] == sum_games(
                        g0,
                        |ps: Seq<Placement>|
                            if beat(ps, gens@, i, j) {
                                1nat
                            } else {
                                0nat
                            },
                    ));
                }
            }
        }
        k = k + 1;
    }
    assert(games@.take(k as int) =~= games@);
    t
}

/// Adds one game to a tally in which no count of wins over another exceeds
/// `k`.
fn add_game(t: &mut Tally, ps: &Vec<Placement>, gens: &Vec<u32>, k: u64)
    requires
        old(t).games@.len() == gens@.len(),
        old(t).wins@.len() == gens@.len(),
        old(t).rank_sum@.len() == gens@.len(),
        old(t).beats@.len() == gens@.len(),
        forall|i: usize| i < gens@.len() ==> (#[trigger] old(t).beats@[i as int])@.len() == gens@.len(),
        ps@.len() <= gens@.len(),
        gens@.len() <= u32::MAX,
        k < u64::MAX,
        forall|i: int| 0 <= i < gens@.len() ==> #[trigger] old(t).games@[i] + ps@.len() <= u64::MAX,
        forall|i: int| 0 <= i < gens@.len() ==> #[trigger] old(t).wins@[i] + ps@.len() <= u64::MAX,
        forall|i: int|
            0 <= i < gens@.len() ==> #[trigger] old(t).rank_sum@[i] + ps@.len() * u32::MAX
                <= u64::MAX,
        forall|i: int, j: int|
            0 <= i < gens@.len() && 0 <= j < gens@.len() ==> #[trigger] old(t).beats@[i]@[j] <= k,
    ensures
        final(t).games@.len() == gens@.len(),
        final(t).wins@.len() == gens@.len(),
        final(t).rank_sum@.len() == gens@.len(),
        final(t).beats@.len() == gens@.len(),
        forall|i: usize|
            i < gens@.len() ==> (#[trigger] final(t).beats@[i as int])@.len() == gens@.len(),
        forall|i: usize|
            i < gens@.len() ==> #[trigger] final(t).games@[i as int] == old(t).games@[i as int]
                + seats_played(ps@, gens@, i),
        forall|i: usize|
            i < gens@.len() ==> #[trigger] final(t).wins@[i as int] == old(t).wins@[i as int]
                + firsts(ps@, gens@, i),
        forall|i: usize|
            i < gens@.len() ==> #[trigger] final(t).rank_sum@[i as int] == old(t).rank_sum@[i as int]
                + rank_total(ps@, gens@, i),
        forall|i: usize, j: usize|
            i < gens@.len() && j < gens@.len() ==> #[trigger] final(t).beats@[i as int]@[j as int]
                == old(t).beats@[i as int]@[j as int] + if beat(ps@, gens@, i, j) {
                1nat
            } else {
                0nat
            },
{
    let n: usize = gens.len();
    let ghost t0 = *t;
    let mut ranks: Vec<u32> = crate::arena::repeated(0u32, n);
    let mut q: usize = 0;
    while q < ps.len()
        invariant
            q <= ps@.len(),
            n == gens@.len(),
            ps@.len() <= n,
            n <= u32::MAX,
            t0 == *old(t),
            t.games@.len() == n,
            t.wins@.len() == n,
            t.rank_sum@.len() == n,
            t.beats@ == t0.beats@,
            ranks@.len() == n,
            forall|i: int| 0 <= i < n ==> #[trigger] t0.games@[i] + ps@.len() <= u64::MAX,
            forall|i: int| 0 <= i < n ==> #[trigger] t0.wins@[i] + ps@.len() <= u64::MAX,
            forall|i: int|
                0 <= i < n ==> #[trigger] t0.rank_sum@[i] + ps@.len() * u32::MAX <= u64::MAX,
            forall|i: usize|
                i < n ==> #[trigger] t.games@[i as int] == t0.games@[i as int] + seats_played(
                    ps@.take(q as int),
                    gens@,
                    i,
                ),
            forall|i: usize|
                i < n ==> #[trigger] t.wins@[i as int] == t0.wins@[i as int] + firsts(
                    ps@.take(q as int),
                    gens@,
                    i,
                ),
            forall|i: usize|
                i < n ==> #[trigger] t.rank_sum@[i as int] == t0.rank_sum@[i as int] + rank_total(
                    ps@.take(q as int),
                    gens@,
                    i,
                ),
            forall|i: usize|
                i < n ==> #[trigger] ranks@[i as int] == last_rank(ps@.take(q as int), gens@, i),
        decreases ps@.len() - q,
    {
        let p = ps[q];
        assert(ps@.take(q + 1).drop_last() =~= ps@.take(q as int));
        let ghost (tg, tw, tr, rk) = (t.games@, t.wins@, t.rank_sum@, ranks@);
        match groups::find_last(gens, p.gen) {
            Some(i) => {
                proof {
                    lemma_game_bounds(ps@.take(q as int), gens@, i);
                    assert(t0.games@[i as int] + ps@.len() <= u64::MAX);
                    assert(t0.wins@[i as int] + ps@.len() <= u64::MAX);
                    assert(t0.rank_sum@[i as int] + ps@.len() * u32::MAX <= u64::MAX);
                    assert(t.games@[i as int] == t0.games@[i as int] + seats_played(
                        ps@.take(q as int),
                        gens@,
                        i,
                    ));
                    assert(q * u32::MAX + u32::MAX <= ps@.len() * u32::MAX) by (nonlinear_arith)
                        requires
                            q + 1 <= ps@.len(),
                    ;
                }
                ranks[i] = p.rank;
                t.games[i] = t.games[i] + 1;
                t.rank_sum[i] = t.rank_sum[i] + p.rank as u64;
                if p.rank == 1 {
                    t.wins[i] = t.wins[i] + 1;
                }
            },
            None => {},
        }
        proof {
            assert forall|i: usize| i < n implies #[trigger] t.games@[i as int]
                == t0.games@[i as int] + seats_played(ps@.take(q + 1), gens@, i) by {
                assert(tg[i as int] == t0.games@[i as int] + seats_played(
                    ps@.take(q as int),
                    gens@,
                    i,
                ));
            }
            assert forall|i: usize| i < n implies #[trigger] t.wins@[i as int] == t0.wins@[i as int]
                + firsts(ps@.take(q + 1), gens@, i) by {
                assert(tw[i as int] == t0.wins@[i as int] + firsts(ps@.take(q as int), gens@, i));
            }
            assert forall|i: usize| i < n implies #[trigger] t.rank_sum@[i as int]
                == t0.rank_sum@[i as int] + rank_total(ps@.take(q + 1), gens@, i) by {
                assert(tr[i as int] == t0.rank_sum@[i as int] + rank_total(
                    ps@.take(q as int),
                    gens@,
                    i,
                ));
            }
            assert forall|i: usize| i < n implies #[trigger] ranks@[i as int] == last_rank(
                ps@.take(q + 1),
                gens@,
                i,
            ) by {
                assert(rk[i as int] == last_rank(ps@.take(q as int), gens@, i));
            }
        }
        q = q + 1;
    }
    assert(ps@.take(q as int) =~= ps@);
    let mut i: usize = 0;
    while i < n
        invariant
            i <= n,
            n == gens@.len(),
            k < u64::MAX,
            ranks@.len() == n,
            t.games@.len() == n,
            t.wins@.len() == n,
            t.rank_sum@.len() == n,
            t.beats@.len() == n,
            t0.beats@.len() == n,
            forall|a: usize|
                a < n ==> #[trigger] t.games@[a as int] == t0.games@[a as int] + seats_played(
                    ps@,
                    gens@,
                    a,
                ),
            forall|a: usize|
                a < n ==> #[trigger] t.wins@[a as int] == t0.wins@[a as int] + firsts(
                    ps@,
                    gens@,
                    a,
                ),
            forall|a: usize|
                a < n ==> #[trigger] t.rank_sum@[a as int] == t0.rank_sum@[a as int] + rank_total(
                    ps@,
                    gens@,
                    a,
                ),
            forall|a: usize| a < n ==> #[trigger] ranks@[a as int] == last_rank(ps@, gens@, a),
            forall|a: usize| a < n ==> (#[trigger] t0.beats@[a as int])@.len() == n,
            forall|a: usize| a < n ==> (#[trigger] t.beats@[a as int])@.len() == n,
            forall|a: int, b: int| 0 <= a < n && 0 <= b < n ==> #[trigger] t0.beats@[a]@[b] <= k,
            forall|a: int| i <= a < n ==> #[trigger] t.beats@[a] == t0.beats@[a],
            forall|a: usize, b: usize|
                a < i && b < n ==> #[trigger] t.beats@[a as int]@[b as int]
                    == t0.beats@[a as int]@[b as int] + if beat(ps@, gens@, a, b) {
                    1nat
                } else {
                    0nat
                },
        decreases n - i,
    {
        let mut row: Vec<u64> = Vec::new();
        let mut j: usize = 0;
        assert(t0.beats@[i as int]@.len() == n);
        while j < n
            invariant
                i < n,
                j <= n,
                k < u64::MAX,
                ranks@.len() == n,
                t.beats@.len() == n,
                t.beats@[i as int] == t0.beats@[i as int],
                t0.beats@[i as int]@.len() == n,
                row@.len() == j,
                forall|a: usize| a < n ==> #[trigger] ranks@[a as int] == last_rank(ps@, gens@, a),
                forall|b: int| 0 <= b < n ==> #[trigger] t0.beats@[i as int]@[b] <= k,
                forall|b: usize|
                    b < j ==> #[trigger] row@[b as int] == t0.beats@[i as int]@[b as int] + if beat(
                        ps@,
                        gens@,
                        i,
                        b,
                    ) {
                        1nat
                    } else {
                        0nat
                    },
            decreases n - j,
        {
            assert(ranks@[i as int] == last_rank(ps@, gens@, i));
            assert(ranks@[j as int] == last_rank(ps@, gens@, j));
            assert(t0.beats@[i as int]@[j as int] <= k);
            let b: u64 = t.beats[i][j];
            if i != j && ranks[i] > 0 && ranks[i] < ranks[j] {
                row.push(b + 1);
            } else {
                row.push(b);
            }
            j = j + 1;
        }
        t.beats[i] = row;
        i = i + 1;
    }
}

/// Which games of a burst are kept for viewing: the first that have frames, in the
/// order in which they finished, as many as a burst may keep.
pub proof fn the_first_games_are_recorded<F>(
    finished: Seq<FinishedGame<F>>,
    order: Seq<usize>,
    k: nat,
)
    requires
        k <= order.len(),
        k <= usize::MAX,
    ensures
        first_recorded(finished, order, k).len() <= RECORDED_GAMES_PER_BURST,
        forall|j: int|
            0 <= j < first_recorded(finished, order, k).len() ==> #[trigger] first_recorded(
                finished,
                order,
                k,
            )[j] < k && finished[order[first_recorded(finished, order, k)[j] as int] as int].frames is Some,
        forall|a: int, b: int|
            0 <= a < b < first_recorded(finished, order, k).len() ==> #[trigger] first_recorded(
                finished,
                order,
                k,
            )[a] < #[trigger] first_recorded(finished, order, k)[b],
        forall|i: usize|
            i < k && finished[order[i as int] as int].frames is Some ==> #[trigger] first_recorded(
                finished,
                order,
                k,
            ).contains(i) || (first_recorded(finished, order, k).len() == RECORDED_GAMES_PER_BURST
                && first_recorded(finished, order, k).last() < i),
    decreases k,
{
    if k > 0 {
        let rest = first_recorded(finished, order, (k - 1) as nat);
        let all = first_recorded(finished, order, k);
        the_first_games_are_recorded(finished, order, (k - 1) as nat);
        assert forall|i: usize|
            i < k && finished[order[i as int] as int].frames is Some implies #[trigger] all.contains(
            i,
        ) || (all.len() == RECORDED_GAMES_PER_BURST && all.last() < i) by {
            if i < k - 1 {
                if rest.contains(i) {
                    let j = choose|j: int| 0 <= j < rest.len() && rest[j] == i;
                    assert(all[j] == i);
                } else {
                    assert(rest.len() == RECORDED_GAMES_PER_BURST);
                    assert(all == rest);
                }
            } else if rest.len() < RECORDED_GAMES_PER_BURST {
                assert(all[all.len() - 1] == i);
            } else {
                assert(all == rest);
                assert(rest[rest.len() - 1] < k - 1);
            }
        }
    }
}

/// What a round robin counts of one game: the seats that a player had, those of
/// them in first place, and their ranks.
pub proof fn games_are_tallied(ps: Seq<Placement>, gens: Seq<u32>, i: usize)
    requires
        gens.no_duplicates(),
        i < gens.len(),
        gens.len() <= usize::MAX,
    ensures
        seats_played(ps, gens, i) == ps.filter(|p: Placement| p.gen == gens[i as int]).len(),
        firsts(ps, gens, i) == ps.filter(
            |p: Placement| p.gen == gens[i as int] && p.rank == 1,
        ).len(),
    decreases ps.len(),
{
    reveal(Seq::filter);
    if ps.len() > 0 {
        games_are_tallied(ps.drop_last(), gens, i);
        groups::lemma_last_position(gens, ps.last().gen);
    }
}

/// Of two players with a seat each, the one with the better rank beat the other;
/// equal ranks beat nobody.
pub proof fn the_better_rank_beats(
    ps: Seq<Placement>,
    gens: Seq<u32>,
    i: usize,
    j: usize,
    a: int,
    b: int,
)
    requires
        gens.no_duplicates(),
        gens.len() <= usize::MAX,
        i < gens.len(),
        j < gens.len(),
        i != j,
        0 <= a < ps.len(),
        0 <= b < ps.len(),
        ps[a].gen == gens[i as int],
        ps[b].gen == gens[j as int],
        forall|k: int| 0 <= k < ps.len() && k != a ==> (#[trigger] ps[k]).gen != gens[i as int],
        forall|k: int| 0 <= k < ps.len() && k != b ==> (#[trigger] ps[k]).gen != gens[j as int],
        ps[a].rank > 0,
    ensures
        beat(ps, gens, i, j) <==> ps[a].rank < ps[b].rank,
{
    lemma_last_rank(ps, gens, i, a);
    lemma_last_rank(ps, gens, j, b);
}

proof fn lemma_last_rank(ps: Seq<Placement>, gens: Seq<u32>, i: usize, a: int)
    requires
        gens.no_duplicates(),
        gens.len() <= usize::MAX,
        i < gens.len(),
        0 <= a < ps.len(),
        ps[a].gen == gens[i as int],
        forall|k: int| 0 <= k < ps.len() && k != a ==> (#[trigger] ps[k]).gen != gens[i as int],
    ensures
        last_rank(ps, gens, i) == ps[a].rank,
    decreases ps.len(),
{
    let last = ps.len() - 1;
    groups::lemma_last_position(gens, ps[last].gen);
    if a < last {
        assert(ps[last].gen != gens[i as int]);
        lemma_last_rank(ps.drop_last(), gens, i, a);
    }
}

/// A tally over more games is the tallies over them added up, and one over a single
/// game is that game's.
pub proof fn tallies_add_up(
    a: Seq<Vec<Placement>>,
    b: Seq<Vec<Placement>>,
    f: spec_fn(Seq<Placement>) -> nat,
)
    ensures
        sum_games(a + b, f) == sum_games(a, f) + sum_games(b, f),
        b.len() == 1 ==> sum_games(b, f) == f(b[0]@),
    decreases b.len(),
{
    if b.len() == 0 {
        assert(a + b =~= a);
    } else {
        tallies_add_up(a, b.drop_last(), f);
        assert((a + b).drop_last() =~= a + b.drop_last());
        if b.len() == 1 {
            assert(b.drop_last().len() == 0);
        }
    }
}

/// The turns of a burst are those of its games, each counted once, in whatever
/// order they come.
pub proof fn each_game_adds_its_turns<F>(
    finished: Seq<FinishedGame<F>>,
    order: Seq<usize>,
    k: nat,
    m: nat,
)
    requires
        k < m <= order.len(),
    ensures
        turns_of(finished, order, 0) == 0,
        turns_of(finished, order, (k + 1) as nat) == turns_of(finished, order, k)
            + finished[order[k as int] as int].turns,
        turns_of(finished, order, m) >= turns_of(finished, order, k)
            + finished[order[k as int] as int].turns,
    decreases m - k,
{
    if k + 1 < m {
        each_game_adds_its_turns(finished, order, k + 1, m);
    }
}

/// A player's ranks are added up over its own seats alone: a game gains by a further
/// seat that seat's rank if the seat is the player's, and nothing if it is not.
pub proof fn ranks_are_added_for_their_player(
    ps: Seq<Placement>,
    p: Placement,
    gens: Seq<u32>,
    i: usize,
)
    requires
        gens.no_duplicates(),
        i < gens.len(),
        gens.len() <= usize::MAX,
    ensures
        rank_total(Seq::<Placement>::empty(), gens, i) == 0,
        p.gen == gens[i as int] ==> rank_total(ps.push(p), gens, i) == rank_total(ps, gens, i)
            + p.rank,
        p.gen != gens[i as int] ==> rank_total(ps.push(p), gens, i) == rank_total(ps, gens, i),
{
    groups::lemma_last_position(gens, p.gen);
    assert(ps.push(p).drop_last() =~= ps);
}

} // verus!
