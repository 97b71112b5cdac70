//! Turning finished games into training samples.
//!
//! A sample's observation is a function of a recorded frame, so a game is kept
//! as its frames alone, and the samples are drawn from them when it is over.

use vstd::prelude::*;

use crate::board::{Board, EliminatedCause, Point, Snake};
use crate::replay;
use crate::rules::{self, Outcome};
use crate::sample::{self, Coord, FrameJson, GameJson, SnakeJson};

verus! {

/// One training sample of a game: seat `seat` at frame `frame`.
pub struct Emission<F> {
    pub frame: usize,
    pub seat: usize,
    /// The four entries of the policy target.
    pub pol: Vec<F>,
    /// What the seat got out of the game.
    pub outcome: Outcome,
    /// The search's own value at the frame.
    pub bootstrap: F,
    pub turn: u32,
    /// The game's search temperature.
    pub temp: F,
}

/// Whether a frame has the given board size and number of snakes.
pub open spec fn frame_has_shape<F>(f: FrameJson<F>, board: i8, n: nat) -> bool {
    f.width == board && f.height == board && f.snakes@.len() == n
}

/// Whether a finished game starts from the given shape.
pub open spec fn game_has_shape<F>(g: &GameJson<F>, board: i8, n: nat) -> bool {
    g.frames@.len() > 0 && frame_has_shape(g.frames@[0], board, n)
}

/// Whether a game in flight has the given shape, judged by its first frame, or
/// by its board while it has none.
pub open spec fn flight_has_shape<F>(
    b: &Board,
    rec: Seq<FrameJson<F>>,
    board: i8,
    n: nat,
) -> bool {
    &&& b.width == board && b.height == board
    &&& if rec.len() > 0 {
        frame_has_shape(rec[0], board, n)
    } else {
        b.snakes@.len() == n
    }
}

/// Whether a frame has the given board size and number of snakes.
fn frame_matches<F>(f: &FrameJson<F>, board: i8, n: usize) -> (r: bool)
    ensures
        r == frame_has_shape(*f, board, n as nat),
{
    f.width == board as i32 && f.height == board as i32 && f.snakes.len() == n
}

/// Whether a finished game matches the board size and snake count in use; one
/// that does not would encode to the wrong observation.
pub fn game_matches_shape<F>(g: &GameJson<F>, board: i8, n: usize) -> (r: bool)
    ensures
        r == game_has_shape(g, board, n as nat),
        r <==> g.frames@.len() > 0 && g.frames@[0].width == board && g.frames@[0].height == board
            && g.frames@[0].snakes@.len() == n,
{
    g.frames.len() > 0 && frame_matches(&g.frames[0], board, n)
}

/// Whether a game in flight can go on under the board size and snake count in
/// use.
pub fn in_flight_matches_shape<F>(
    b: &Board,
    rec: &Vec<FrameJson<F>>,
    board: i8,
    n: usize,
) -> (r: bool)
    ensures
        r == flight_has_shape(b, rec@, board, n as nat),
{
    if b.width != board || b.height != board {
        return false;
    }
    if rec.len() > 0 {
        frame_matches(&rec[0], board, n)
    } else {
        b.snakes.len() == n
    }
}

/// Whether a seat is played by a sparring heuristic.
pub open spec fn is_sparring(mask: u32, s: int) -> bool {
    (mask >> (s as u32)) & 1 == 1
}

/// Whether seat `s` gives a sample at a frame: it is there, alive, and not a
/// sparring heuristic.
pub open spec fn gives_sample<F>(f: FrameJson<F>, mask: u32, s: int) -> bool {
    !is_sparring(mask, s) && s < f.snakes@.len() && f.snakes@[s].alive
}

/// The seats below `k` that give a sample at frame `i`.
pub open spec fn frame_seats<F>(g: &GameJson<F>, i: int, k: nat) -> Seq<(int, int)>
    decreases k,
{
    if k == 0 {
        Seq::empty()
    } else {
        let rest = frame_seats(g, i, (k - 1) as nat);
        if gives_sample(g.frames@[i], g.heur_mask, k - 1) {
            rest.push((i, k - 1))
        } else {
            rest
        }
    }
}

/// The samples of the first `t` frames, as pairs of frame and seat.
pub open spec fn samples_up_to<F>(g: &GameJson<F>, n: nat, t: nat) -> Seq<(int, int)>
    decreases t,
{
    if t == 0 {
        Seq::empty()
    } else {
        samples_up_to(g, n, (t - 1) as nat) + frame_seats(g, t - 1, n)
    }
}

/// The samples of a game, as pairs of frame and seat: every frame but the last
/// gives one for each seat that is alive and not sparring.
pub open spec fn game_samples<F>(g: &GameJson<F>, n: nat) -> Seq<(int, int)> {
    samples_up_to(
        g,
        n,
        if g.frames@.len() > 0 {
            (g.frames@.len() - 1) as nat
        } else {
            0
        },
    )
}

proof fn lemma_frame_seats_bound<F>(g: &GameJson<F>, i: int, k: nat)
    ensures
        frame_seats(g, i, k).len() <= k,
    decreases k,
{
    if k > 0 {
        lemma_frame_seats_bound(g, i, (k - 1) as nat);
    }
}

proof fn lemma_samples_bound<F>(g: &GameJson<F>, n: nat, t: nat)
    ensures
        samples_up_to(g, n, t).len() <= t * n,
    decreases t,
{
    if t > 0 {
        lemma_samples_bound(g, n, (t - 1) as nat);
        lemma_frame_seats_bound(g, t - 1, n);
        assert((t - 1) * n + n == t * n) by (nonlinear_arith);
    }
}

/// A game gives at most one sample per seat and turn.
pub proof fn samples_are_bounded<F>(g: &GameJson<F>, n: nat)
    ensures
        game_samples(g, n).len() <= g.frames@.len() * n,
{
    let t = if g.frames@.len() > 0 {
        (g.frames@.len() - 1) as nat
    } else {
        0
    };
    lemma_samples_bound(g, n, t);
    assert(t * n <= g.frames@.len() * n) by (nonlinear_arith)
        requires
            t <= g.frames@.len(),
    ;
}

proof fn lemma_frame_seats<F>(g: &GameJson<F>, i: int, k: nat)
    ensures
        frame_seats(g, i, k).no_duplicates(),
        forall|p: (int, int)| #[trigger]
            frame_seats(g, i, k).contains(p) <==> p.0 == i && 0 <= p.1 < k && gives_sample(
                g.frames@[i],
                g.heur_mask,
                p.1,
            ),
    decreases k,
{
    if k > 0 {
        let rest = frame_seats(g, i, (k - 1) as nat);
        let all = frame_seats(g, i, k);
        lemma_frame_seats(g, i, (k - 1) as nat);
        if gives_sample(g.frames@[i], g.heur_mask, k - 1) {
            let last = (i, k - 1);
            assert(!rest.contains(last));
            assert forall|p: (int, int)| #[trigger] all.contains(p) <==> rest.contains(p) || p
                == last by {
                if rest.contains(p) {
                    let x = choose|x: int| 0 <= x < rest.len() && rest[x] == p;
                    assert(all[x] == p);
                }
                assert(all[rest.len() as int] == last);
            }
            assert forall|x: int, y: int| 0 <= x < y < all.len() implies all[x] != all[y] by {
                assert(rest.contains(rest[x]));
            }
        }
    }
}

proof fn lemma_samples_up_to<F>(g: &GameJson<F>, n: nat, t: nat)
    ensures
        samples_up_to(g, n, t).no_duplicates(),
        forall|p: (int, int)| #[trigger]
            samples_up_to(g, n, t).contains(p) <==> 0 <= p.0 < t && 0 <= p.1 < n && gives_sample(
                g.frames@[p.0],
                g.heur_mask,
                p.1,
            ),
    decreases t,
{
    if t > 0 {
        let rest = samples_up_to(g, n, (t - 1) as nat);
        let here = frame_seats(g, t - 1, n);
        let all = samples_up_to(g, n, t);
        lemma_samples_up_to(g, n, (t - 1) as nat);
        lemma_frame_seats(g, t - 1, n);
        assert forall|p: (int, int)| #[trigger] all.contains(p) <==> rest.contains(p)
            || here.contains(p) by {
            if rest.contains(p) {
                let x = choose|x: int| 0 <= x < rest.len() && rest[x] == p;
                assert(all[x] == p);
            }
            if here.contains(p) {
                let x = choose|x: int| 0 <= x < here.len() && here[x] == p;
                assert(all[rest.len() + x] == p);
            }
            if all.contains(p) {
                let x = choose|x: int| 0 <= x < all.len() && all[x] == p;
                if x < rest.len() {
                    assert(rest[x] == p);
                } else {
                    assert(here[x - rest.len()] == p);
                }
            }
        }
        assert forall|x: int, y: int| 0 <= x < y < all.len() implies all[x] != all[y] by {
            if x < rest.len() {
                assert(rest.contains(rest[x]));
                if y >= rest.len() {
                    assert(here.contains(here[y - rest.len()]));
                }
            }
        }
    }
}

/// A game gives one sample for each frame but the last and each seat that is
/// alive in it and not sparring: none is left out and none comes twice.
pub proof fn samples_are_the_living_seats<F>(g: &GameJson<F>, n: nat)
    ensures
        game_samples(g, n).no_duplicates(),
        forall|p: (int, int)| #[trigger]
            game_samples(g, n).contains(p) <==> 0 <= p.0 < g.frames@.len() - 1 && 0 <= p.1 < n
                && p.1 < g.frames@[p.0].snakes@.len() && g.frames@[p.0].snakes@[p.1].alive && (
            g.heur_mask >> (p.1 as u32)) & 1 != 1,
        forall|k: int|
            0 <= k < game_samples(g, n).len() ==> {
                let (f, s) = #[trigger] game_samples(g, n)[k];
                &&& 0 <= f < g.frames@.len() - 1
                &&& 0 <= s < n
                &&& g.frames@[f].snakes@[s].alive
                &&& (g.heur_mask >> (s as u32)) & 1 != 1
            },
        g.frames@.len() <= 1 ==> game_samples(g, n).len() == 0,
{
    let t = if g.frames@.len() > 0 {
        (g.frames@.len() - 1) as nat
    } else {
        0
    };
    lemma_samples_up_to(g, n, t);
    assert forall|k: int| 0 <= k < game_samples(g, n).len() implies {
        let (f, s) = #[trigger] game_samples(g, n)[k];
        &&& 0 <= f < g.frames@.len() - 1
        &&& 0 <= s < n
        &&& g.frames@[f].snakes@[s].alive
        &&& (g.heur_mask >> (s as u32)) & 1 != 1
    } by {
        assert(game_samples(g, n).contains(game_samples(g, n)[k]));
    }
}

/// The samples come frame by frame, and within a frame seat by seat.
pub proof fn samples_come_in_order<F>(g: &GameJson<F>, n: nat, a: int, b: int)
    requires
        0 <= a < b < game_samples(g, n).len(),
    ensures
        ({
            let (p, q) = (game_samples(g, n)[a], game_samples(g, n)[b]);
            p.0 < q.0 || (p.0 == q.0 && p.1 < q.1)
        }),
{
    let t = if g.frames@.len() > 0 {
        (g.frames@.len() - 1) as nat
    } else {
        0
    };
    lemma_samples_ordered(g, n, t, a, b);
}

proof fn lemma_samples_ordered<F>(g: &GameJson<F>, n: nat, t: nat, a: int, b: int)
    requires
        0 <= a < b < samples_up_to(g, n, t).len(),
    ensures
        ({
            let (p, q) = (samples_up_to(g, n, t)[a], samples_up_to(g, n, t)[b]);
            p.0 < q.0 || (p.0 == q.0 && p.1 < q.1)
        }),
    decreases t,
{
    let rest = samples_up_to(g, n, (t - 1) as nat);
    let here = frame_seats(g, t - 1, n);
    lemma_samples_up_to(g, n, (t - 1) as nat);
    lemma_frame_seats(g, t - 1, n);
    if b < rest.len() {
        lemma_samples_ordered(g, n, (t - 1) as nat, a, b);
    } else if a < rest.len() {
        assert(rest.contains(rest[a]));
        assert(here.contains(here[b - rest.len()]));
    } else {
        lemma_seats_ordered(g, t - 1, n, a - rest.len(), b - rest.len());
    }
}

proof fn lemma_seats_ordered<F>(g: &GameJson<F>, i: int, k: nat, a: int, b: int)
    requires
        0 <= a < b < frame_seats(g, i, k).len(),
    ensures
        frame_seats(g, i, k)[a].0 == frame_seats(g, i, k)[b].0,
        frame_seats(g, i, k)[a].1 < frame_seats(g, i, k)[b].1,
    decreases k,
{
    let rest = frame_seats(g, i, (k - 1) as nat);
    lemma_frame_seats(g, i, (k - 1) as nat);
    if b < rest.len() {
        lemma_seats_ordered(g, i, (k - 1) as nat, a, b);
    } else {
        assert(rest.contains(rest[a]));
    }
}

/// A finished game fills every list of training samples by as much as is counted
/// of it: one value target and one turn for each of its samples, four policy
/// entries and one observation. What was there before stays in front, and a game
/// of at most one frame adds nothing.
pub proof fn game_fills_the_lists<F, G>(
    g: &GameJson<F>,
    n: nat,
    rows: Seq<replay::Encoded<G>>,
    tempered: bool,
    before: replay::Samples<G>,
    after: replay::Samples<G>,
)
    requires
        rows.len() == game_samples(g, n).len(),
        replay::are_alike(rows, replay::shape_size(before.obs_shape), tempered),
        replay::is_extended(before, after, rows),
    ensures
        ({
            let c = game_samples(g, n).len();
            &&& after.z@.len() == before.z@.len() + c
            &&& after.turn@.len() == before.turn@.len() + c
            &&& after.pol@.len() == before.pol@.len() + 4 * c
            &&& after.obs@.len() == before.obs@.len() + replay::shape_size(before.obs_shape) * c
        }),
        before.z@.is_prefix_of(after.z@),
        before.turn@.is_prefix_of(after.turn@),
        before.pol@.is_prefix_of(after.pol@),
        before.obs@.is_prefix_of(after.obs@),
        g.frames@.len() <= 1 ==> after.z@ == before.z@ && after.turn@ == before.turn@ && after.pol@
            == before.pol@ && after.obs@ == before.obs@,
{
    replay::samples_fill_the_lists(before, after, rows, tempered);
    samples_are_the_living_seats(g, n);
    if g.frames@.len() <= 1 {
        assert(after.z@ =~= before.z@);
        assert(after.turn@ =~= before.turn@);
        assert(after.pol@ =~= before.pol@);
        assert(after.obs@ =~= before.obs@);
    }
}

/// Whether a seat gives a sample at a frame.
fn samples_here<F>(f: &FrameJson<F>, mask: u32, s: usize) -> (r: bool)
    requires
        s < 32,
    ensures
        r == gives_sample(*f, mask, s as int),
{
    let bit: u32 = s as u32;
    if (mask >> bit) & 1 == 1 {
        return false;
    }
    s < f.snakes.len() && f.snakes[s].alive
}

/// The number of training samples that a finished game gives.
pub fn game_sample_count<F>(g: &GameJson<F>, n: usize) -> (count: usize)
    requires
        n <= 32,
        g.frames@.len() * n <= usize::MAX,
    ensures
        count == game_samples(g, n as nat).len(),
{
    let len: usize = g.frames.len();
    let steps: usize = if len > 0 { len - 1 } else { 0 };
    let mut count: usize = 0;
    let mut i: usize = 0;
    while i < steps
        invariant
            n <= 32,
            i <= steps,
            steps <= g.frames@.len(),
            g.frames@.len() * n <= usize::MAX,
            count == samples_up_to(g, n as nat, i as nat).len(),
        decreases steps - i,
    {
        let f = &g.frames[i];
        let ghost base = count;
        let mut s: usize = 0;
        proof {
            lemma_samples_bound(g, n as nat, i as nat);
            assert(i * n + n <= g.frames@.len() * n) by (nonlinear_arith)
                requires
                    i + 1 <= g.frames@.len(),
            ;
        }
        while s < n
            invariant
                n <= 32,
                s <= n,
                i < g.frames@.len(),
                *f == g.frames@[i as int],
                base <= i * n,
                i * n + n <= usize::MAX,
                count == base + frame_seats(g, i as int, s as nat).len(),
                count <= base + s,
            decreases n - s,
        {
            if samples_here(f, g.heur_mask, s) {
                count = count + 1;
            }
            s = s + 1;
        }
        i = i + 1;
    }
    count
}

/// Whether a sample is drawn from a game as it should be: the policy target is
/// the frame's policy, missing entries zero.
pub open spec fn is_emission<F>(
    e: Emission<F>,
    g: &GameJson<F>,
    n: nat,
    at: (int, int),
    zero: F,
) -> bool {
    let f = g.frames@[at.0];
    let sn = f.snakes@[at.1];
    &&& e.frame == at.0
    &&& e.seat == at.1
    &&& e.pol@ == Seq::new(
        4,
        |k: int|
            if k < sn.policy@.len() {
                sn.policy@[k]
            } else {
                zero
            },
    )
    &&& e.outcome == rules::seat_outcome(winner_seat(g.winner), at.1 as nat, n)
    &&& e.bootstrap == sn.value
    &&& e.turn == f.turn
    &&& e.temp == g.temp
}

/// The winning seat of a recorded game.
pub open spec fn winner_seat(w: Option<i32>) -> Option<usize> {
    match w {
        Some(w) => Some(w as usize),
        None => None,
    }
}

/// The policy target of a snake.
fn policy_target<F: Copy>(sn: &SnakeJson<F>, zero: F) -> (pol: Vec<F>)
    ensures
        pol@ == Seq::new(
            4,
            |k: int|
                if k < sn.policy@.len() {
                    sn.policy@[k]
                } else {
                    zero
                },
        ),
{
    let mut pol: Vec<F> = Vec::new();
    let mut k: usize = 0;
    while k < 4
        invariant
            k <= 4,
            pol@.len() == k,
            forall|j: int|
                0 <= j < k ==> #[trigger] pol@[j] == if j < sn.policy@.len() {
                    sn.policy@[j]
                } else {
                    zero
                },
        decreases 4 - k,
    {
        if k < sn.policy.len() {
            pol.push(sn.policy[k]);
        } else {
            pol.push(zero);
        }
        k = k + 1;
    }
    assert(pol@ =~= Seq::new(
        4,
        |k: int|
            if k < sn.policy@.len() {
                sn.policy@[k]
            } else {
                zero
            },
    ));
    pol
}

/// The training samples of a finished game, frame by frame and seat by seat;
/// as many as `game_sample_count` counts.
pub fn materialize_game<F: Copy>(g: &GameJson<F>, n: usize, zero: F) -> (out: Vec<Emission<F>>)
    requires
        n <= 32,
    ensures
        out@.len() == game_samples(g, n as nat).len(),
        forall|k: int|
            0 <= k < out@.len() ==> is_emission(
                #[trigger] out@[k],
                g,
                n as nat,
                game_samples(g, n as nat)[k],
                zero,
            ),
        forall|k: int|
            0 <= k < out@.len() ==> {
                let e = #[trigger] out@[k];
                &&& e.frame < g.frames@.len() - 1
                &&& e.seat < n
                &&& g.frames@[e.frame as int].snakes@[e.seat as int].alive
                &&& (g.heur_mask >> (e.seat as u32)) & 1 != 1
                &&& e.turn == g.frames@[e.frame as int].turn
                &&& e.bootstrap == g.frames@[e.frame as int].snakes@[e.seat as int].value
                &&& e.temp == g.temp
                &&& e.pol@.len() == 4
                &&& forall|m: int|
                    0 <= m < 4 && m < g.frames@[e.frame as int].snakes@[e.seat as int].policy@.len()
                        ==> #[trigger] e.pol@[m]
                        == g.frames@[e.frame as int].snakes@[e.seat as int].policy@[m]
                &&& e.outcome == Outcome::Draw <==> g.winner is None
                &&& g.winner matches Some(w) ==> w >= 0 ==> (e.outcome == Outcome::Win <==> w == e.seat)
            },
        forall|f: int, s: int|
            0 <= f < g.frames@.len() - 1 && 0 <= s < n && s < (
            #[trigger] g.frames@[f]).snakes@.len() && (#[trigger] g.frames@[f].snakes@[s]).alive && (
            g.heur_mask >> (s as u32)) & 1 != 1 ==> exists|k: int|
                0 <= k < out@.len() && (#[trigger] out@[k]).frame == f && out@[k].seat == s,
{
    proof {
        samples_are_the_living_seats(g, n as nat);
    }
    let winner: Option<usize> = match g.winner {
        Some(w) => Some(w as usize),
        None => None,
    };
    let len: usize = g.frames.len();
    let steps: usize = if len > 0 { len - 1 } else { 0 };
    let mut out: Vec<Emission<F>> = Vec::new();
    let mut i: usize = 0;
    while i < steps
        invariant
            n <= 32,
            i <= steps,
            steps <= g.frames@.len(),
            winner == winner_seat(g.winner),
            out@.len() == samples_up_to(g, n as nat, i as nat).len(),
            forall|k: int|
                0 <= k < out@.len() ==> is_emission(
                    #[trigger] out@[k],
                    g,
                    n as nat,
                    samples_up_to(g, n as nat, i as nat)[k],
                    zero,
                ),
        decreases steps - i,
    {
        let f = &g.frames[i];
        let ghost done = samples_up_to(g, n as nat, i as nat);
        let mut s: usize = 0;
        assert(done + frame_seats(g, i as int, 0) =~= done);
        while s < n
            invariant
                n <= 32,
                s <= n,
                i < g.frames@.len(),
                *f == g.frames@[i as int],
                winner == winner_seat(g.winner),
                done == samples_up_to(g, n as nat, i as nat),
                out@.len() == (done + frame_seats(g, i as int, s as nat)).len(),
                forall|k: int|
                    0 <= k < out@.len() ==> is_emission(
                        #[trigger] out@[k],
                        g,
                        n as nat,
                        (done + frame_seats(g, i as int, s as nat))[k],
                        zero,
                    ),
            decreases n - s,
        {
            let ghost before = done + frame_seats(g, i as int, s as nat);
            if samples_here(f, g.heur_mask, s) {
                let sn = &f.snakes[s];
                out.push(
                    Emission {
                        frame: i,
                        seat: s,
                        pol: policy_target(sn, zero),
                        outcome: rules::terminal_value(winner, s, n),
                        bootstrap: sn.value,
                        turn: f.turn,
                        temp: g.temp,
                    },
                );
                proof {
                    let after = done + frame_seats(g, i as int, (s + 1) as nat);
                    assert(after =~= before.push((i as int, s as int)));
                }
            }
            s = s + 1;
        }
        i = i + 1;
    }
    proof {
        assert forall|k: int| 0 <= k < out@.len() implies {
            let e = #[trigger] out@[k];
            &&& e.frame < g.frames@.len() - 1
            &&& e.seat < n
            &&& g.frames@[e.frame as int].snakes@[e.seat as int].alive
            &&& (g.heur_mask >> (e.seat as u32)) & 1 != 1
            &&& e.turn == g.frames@[e.frame as int].turn
            &&& e.bootstrap == g.frames@[e.frame as int].snakes@[e.seat as int].value
            &&& e.temp == g.temp
            &&& e.pol@.len() == 4
            &&& forall|m: int|
                0 <= m < 4 && m < g.frames@[e.frame as int].snakes@[e.seat as int].policy@.len()
                    ==> #[trigger] e.pol@[m]
                    == g.frames@[e.frame as int].snakes@[e.seat as int].policy@[m]
            &&& e.outcome == Outcome::Draw <==> g.winner is None
            &&& g.winner matches Some(w) ==> w >= 0 ==> (e.outcome == Outcome::Win <==> w == e.seat)
        } by {
            assert(is_emission(out@[k], g, n as nat, game_samples(g, n as nat)[k], zero));
        }
        assert forall|f: int, s: int|
            0 <= f < g.frames@.len() - 1 && 0 <= s < n && s < (
            #[trigger] g.frames@[f]).snakes@.len() && (#[trigger] g.frames@[f].snakes@[s]).alive && (
            g.heur_mask >> (s as u32)) & 1 != 1 implies exists|k: int|
                0 <= k < out@.len() && (#[trigger] out@[k]).frame == f && out@[k].seat == s by {
            let all = game_samples(g, n as nat);
            assert(all.contains((f, s)));
            let k = choose|k: int| 0 <= k < all.len() && all[k] == (f, s);
            assert(is_emission(out@[k], g, n as nat, all[k], zero));
            assert(out@[k].frame == f && out@[k].seat == s);
        }
    }
    out
}

/// The cells that a list of coordinate pairs stands for, each number cut down
/// to the board's range.
pub open spec fn cells_of(cs: Seq<Coord>) -> Seq<Point> {
    cs.map_values(|c: Coord| Point { x: c@[0] as i8, y: c@[1] as i8 })
}

/// The cells that a list of coordinate pairs stands for.
pub fn points_of(cs: &Vec<Coord>) -> (ps: Vec<Point>)
    ensures
        ps@ == cells_of(cs@),
{
    let mut ps: Vec<Point> = Vec::new();
    let mut i: usize = 0;
    while i < cs.len()
        invariant
            i <= cs@.len(),
            ps@ == cells_of(cs@).take(i as int),
        decreases cs@.len() - i,
    {
        let c = cs[i];
        ps.push(
            Point {
                x: #[verifier::truncate]
                (c[0] as i8),
                y: #[verifier::truncate]
                (c[1] as i8),
            },
        );
        i = i + 1;
        assert(ps@ =~= cells_of(cs@).take(i as int));
    }
    assert(cells_of(cs@).take(i as int) =~= cells_of(cs@));
    ps
}

/// Whether a board shows what a frame recorded; a snake that is out counts as
/// collided.
pub open spec fn shows_frame<F>(b: &Board, f: &FrameJson<F>) -> bool {
    &&& b.width == f.width as i8
    &&& b.height == f.height as i8
    &&& b.turn == f.turn
    &&& b.food@ == cells_of(f.food@)
    &&& b.hazards@ == cells_of(f.hazards@)
    &&& b.heur_mask == 0
    &&& b.snakes@.len() == f.snakes@.len()
    &&& forall|s: int|
        0 <= s < f.snakes@.len() ==> {
            let (x, j) = (#[trigger] b.snakes@[s], f.snakes@[s]);
            &&& x.body@ == cells_of(j.body@)
            &&& x.health == j.health as i16
            &&& x.eliminated == if j.alive {
                None
            } else {
                Some(EliminatedCause::Collision)
            }
        }
}

/// Restores a board from a frame, as far as encoding it needs.
pub fn board_from_frame<F>(f: &FrameJson<F>) -> (b: Board)
    ensures
        shows_frame(&b, f),
{
    let mut b = Board::new(
        #[verifier::truncate]
        (f.width as i8),
        #[verifier::truncate]
        (f.height as i8),
    );
    b.turn = f.turn;
    let mut snakes: Vec<Snake> = Vec::new();
    let mut s: usize = 0;
    while s < f.snakes.len()
        invariant
            s <= f.snakes@.len(),
            snakes@.len() == s,
            forall|k: int|
                0 <= k < s ==> {
                    let (x, j) = (#[trigger] snakes@[k], f.snakes@[k]);
                    &&& x.body@ == cells_of(j.body@)
                    &&& x.health == j.health as i16
                    &&& x.eliminated == if j.alive {
                        None
                    } else {
                        Some(EliminatedCause::Collision)
                    }
                },
        decreases f.snakes@.len() - s,
    {
        let j = &f.snakes[s];
        snakes.push(
            Snake {
                body: points_of(&j.body),
                health: #[verifier::truncate]
                (j.health as i16),
                eliminated: if j.alive {
                    None
                } else {
                    Some(EliminatedCause::Collision)
                },
            },
        );
        s = s + 1;
    }
    b.snakes = snakes;
    b.food = points_of(&f.food);
    b.hazards = points_of(&f.hazards);
    b
}

/// Whether two boards are the same position but for how snakes went out.
pub open spec fn same_position(a: &Board, b: &Board) -> bool {
    &&& a.width == b.width
    &&& a.height == b.height
    &&& a.turn == b.turn
    &&& a.food@ == b.food@
    &&& a.hazards@ == b.hazards@
    &&& a.snakes@.len() == b.snakes@.len()
    &&& forall|s: int|
        0 <= s < a.snakes@.len() ==> {
            let (x, y) = (#[trigger] a.snakes@[s], b.snakes@[s]);
            x.body@ == y.body@ && x.health == y.health && x.is_alive() == y.is_alive()
        }
}

proof fn lemma_cells_back(cs: Seq<Coord>, ps: Seq<Point>)
    requires
        sample::are_cells(cs, ps),
    ensures
        cells_of(cs) == ps,
{
    assert forall|i: int| 0 <= i < ps.len() implies #[trigger] cells_of(cs)[i] == ps[i] by {
        assert(sample::is_cell(cs[i], ps[i]));
    }
    assert(cells_of(cs) =~= ps);
}

/// A board restored from the frame that recorded it is the same position.
pub proof fn recorded_position_comes_back<F>(
    board: &Board,
    f: &FrameJson<F>,
    policy: Seq<F>,
    values: Seq<F>,
    play_pols: Seq<Vec<F>>,
    actions: Seq<crate::board::Move>,
    back: &Board,
)
    requires
        sample::records(
            *f,
            board,
            board.snakes@.len(),
            policy,
            values,
            play_pols,
            actions,
        ),
        shows_frame(back, f),
    ensures
        same_position(back, board),
{
    lemma_cells_back(f.food@, board.food@);
    lemma_cells_back(f.hazards@, board.hazards@);
    assert forall|s: int| 0 <= s < back.snakes@.len() implies {
        let (x, y) = (#[trigger] back.snakes@[s], board.snakes@[s]);
        x.body@ == y.body@ && x.health == y.health && x.is_alive() == y.is_alive()
    } by {
        assert(sample::records_snake(
            f.snakes@[s],
            board,
            s,
            policy,
            values,
            play_pols,
            actions,
        ));
        lemma_cells_back(f.snakes@[s].body@, board.snakes@[s].body@);
    }
}

/// The last frame at which seat `s` was alive among the first `t`; none counts
/// as before all of them.
pub open spec fn last_alive<F>(frames: Seq<FrameJson<F>>, s: int, t: nat) -> int
    decreases t,
{
    if t == 0 {
        -1
    } else if s < frames[t - 1].snakes@.len() && frames[t - 1].snakes@[s].alive {
        t - 1
    } else {
        last_alive(frames, s, (t - 1) as nat)
    }
}

/// Twice the number of the seats below `k` that seat `s` outlasted, a tie
/// counting half; `lives` holds each seat's last frame alive.
pub open spec fn double_score(lives: Seq<int>, s: int, k: nat) -> nat
    decreases k,
{
    if k == 0 {
        0
    } else {
        double_score(lives, s, (k - 1) as nat) + if k - 1 == s {
            0nat
        } else if lives[k - 1] < lives[s] {
            2nat
        } else if lives[k - 1] == lives[s] {
            1nat
        } else {
            0nat
        }
    }
}

/// The last frame at which each of `n` seats was alive.
pub open spec fn lives_of<F>(frames: Seq<FrameJson<F>>, n: nat) -> Seq<int> {
    Seq::new(n, |s: int| last_alive(frames, s, frames.len()))
}

/// What a seat's last frame alive is: it is alive there and in no later frame,
/// and one that was never alive has none.
pub proof fn lives_end_at_the_last_frame_alive<F>(frames: Seq<FrameJson<F>>, n: nat, s: int)
    requires
        0 <= s < n,
    ensures
        ({
            let l = lives_of(frames, n)[s];
            &&& -1 <= l < frames.len()
            &&& l >= 0 ==> s < frames[l].snakes@.len() && frames[l].snakes@[s].alive
            &&& forall|t: int|
                l < t < frames.len() ==> !(s < (#[trigger] frames[t]).snakes@.len()
                    && frames[t].snakes@[s].alive)
        }),
{
    lemma_last_alive(frames, s, frames.len());
}

proof fn lemma_last_alive<F>(frames: Seq<FrameJson<F>>, s: int, t: nat)
    requires
        t <= frames.len(),
    ensures
        ({
            let l = last_alive(frames, s, t);
            &&& -1 <= l < t
            &&& l >= 0 ==> s < frames[l].snakes@.len() && frames[l].snakes@[s].alive
            &&& forall|i: int|
                l < i < t ==> !(s < (#[trigger] frames[i]).snakes@.len()
                    && frames[i].snakes@[s].alive)
        }),
    decreases t,
{
    if t > 0 {
        lemma_last_alive(frames, s, (t - 1) as nat);
    }
}

/// A seat that lived longer scores more, and one that lived as long as much.
pub proof fn lasting_longer_scores_more(lives: Seq<int>, a: int, b: int)
    requires
        0 <= a < lives.len(),
        0 <= b < lives.len(),
    ensures
        lives[a] > lives[b] ==> double_score(lives, a, lives.len()) > double_score(
            lives,
            b,
            lives.len(),
        ),
        lives[a] == lives[b] ==> double_score(lives, a, lives.len()) == double_score(
            lives,
            b,
            lives.len(),
        ),
{
    if lives[a] >= lives[b] {
        lemma_scores_apart(lives, a, b, lives.len());
    }
}

proof fn lemma_scores_apart(lives: Seq<int>, a: int, b: int, k: nat)
    requires
        0 <= a < lives.len(),
        0 <= b < lives.len(),
        k <= lives.len(),
        lives[a] >= lives[b],
    ensures
        ({
            let x = double_score(lives, a, k) + if a < k {
                1int
            } else {
                0
            };
            let y = double_score(lives, b, k) + if b < k {
                1int
            } else {
                0
            };
            &&& x >= y
            &&& lives[a] == lives[b] ==> x == y
            &&& lives[a] > lives[b] && a < k ==> x > y
        }),
    decreases k,
{
    if k > 0 {
        lemma_scores_apart(lives, a, b, (k - 1) as nat);
    }
}

/// Each seat's survival score, doubled: how many of the others it outlasted,
/// a tie counting half.
///
/// With `d` this score and two or more seats, the seat's graded outcome is
/// `d / (n - 1) - 1`, between minus one for the first to die and one for the sole
/// survivor.
pub fn rank_outcomes<F>(frames: &Vec<FrameJson<F>>, n: usize) -> (scores: Vec<u64>)
    requires
        n <= u32::MAX,
        frames@.len() < i64::MAX,
    ensures
        scores@ == Seq::new(
            n as nat,
            |s: int| double_score(lives_of(frames@, n as nat), s, n as nat) as u64,
        ),
        forall|s: int|
            0 <= s < n ==> double_score(lives_of(frames@, n as nat), s, n as nat) <= 2 * (n - 1),
{
    let ghost lives = lives_of(frames@, n as nat);
    let mut last: Vec<i64> = Vec::new();
    let mut s: usize = 0;
    while s < n
        invariant
            s <= n,
            lives == lives_of(frames@, n as nat),
            frames@.len() < i64::MAX,
            last@.len() == s,
            forall|k: int| 0 <= k < s ==> #[trigger] last@[k] == lives[k],
        decreases n - s,
    {
        let mut l: i64 = -1;
        let mut t: usize = 0;
        while t < frames.len()
            invariant
                t <= frames@.len(),
                frames@.len() < i64::MAX,
                l == last_alive(frames@, s as int, t as nat),
            decreases frames@.len() - t,
        {
            if s < frames[t].snakes.len() && frames[t].snakes[s].alive {
                l = t as i64;
            }
            t = t + 1;
        }
        last.push(l);
        s = s + 1;
    }
    let mut scores: Vec<u64> = Vec::new();
    let mut s: usize = 0;
    while s < n
        invariant
            s <= n,
            n <= u32::MAX,
            last@.len() == n,
            lives.len() == n,
            forall|k: int| 0 <= k < n ==> #[trigger] last@[k] == lives[k],
            scores@ == Seq::new(s as nat, |s: int| double_score(lives, s, n as nat) as u64),
            forall|k: int|
                0 <= k < s ==> #[trigger] double_score(lives, k, n as nat) <= 2 * (n - 1),
        decreases n - s,
    {
        let mut d: u64 = 0;
        let mut j: usize = 0;
        while j < n
            invariant
                s < n,
                j <= n,
                n <= u32::MAX,
                last@.len() == n,
                lives.len() == n,
                forall|k: int| 0 <= k < n ==> #[trigger] last@[k] == lives[k],
                d == double_score(lives, s as int, j as nat),
                d <= 2 * (if s < j {
                    j - 1
                } else {
                    j as int
                }),
            decreases n - j,
        {
            assert(last@[j as int] == lives[j as int]);
            assert(last@[s as int] == lives[s as int]);
            if j != s {
                if last[j] < last[s] {
                    d = d + 2;
                } else if last[j] == last[s] {
                    d = d + 1;
                }
            }
            j = j + 1;
        }
        scores.push(d);
        s = s + 1;
        assert(scores@ =~= Seq::new(s as nat, |s: int| double_score(lives, s, n as nat) as u64));
    }
    scores
}

/// The scores of the first `m` seats together, each against the first `k`.
pub open spec fn score_sum(lives: Seq<int>, m: nat, k: nat) -> nat
    decreases m,
{
    if m == 0 {
        0
    } else {
        score_sum(lives, (m - 1) as nat, k) + double_score(lives, m - 1, k)
    }
}

proof fn lemma_column(lives: Seq<int>, m: nat, k: nat)
    requires
        m <= k < lives.len(),
    ensures
        score_sum(lives, m, k + 1) + double_score(lives, k as int, m) == score_sum(lives, m, k) + 2
            * m,
    decreases m,
{
    if m > 0 {
        lemma_column(lives, (m - 1) as nat, k);
    }
}

proof fn lemma_score_sum(lives: Seq<int>, m: nat)
    requires
        m <= lives.len(),
    ensures
        score_sum(lives, m, m) == m * (m - 1),
    decreases m,
{
    if m > 0 {
        let k = (m - 1) as nat;
        lemma_score_sum(lives, k);
        lemma_column(lives, k, k);
        assert(double_score(lives, k as int, m) == double_score(lives, k as int, k));
        assert(k * (k - 1) + 2 * k == m * (m - 1)) by (nonlinear_arith)
            requires
                m == k + 1,
        ;
        assert(score_sum(lives, m, m) == score_sum(lives, k, m) + double_score(
            lives,
            k as int,
            m,
        ));
    } else {
        assert(m * (m - 1) == 0) by (nonlinear_arith)
            requires
                m == 0,
        ;
    }
}

/// Survival scores are zero-sum: doubled, the seats' scores add up to
/// `n * (n - 1)`, whoever outlasted whom, so the graded outcomes add up to
/// zero.
pub proof fn survival_scores_are_zero_sum(lives: Seq<int>)
    ensures
        score_sum(lives, lives.len(), lives.len()) == lives.len() * (lives.len() - 1),
{
    lemma_score_sum(lives, lives.len());
}

} // verus!
