//! A generation of self-play: the games in flight, the finished ones, and the
//! gate that ends the generation.

use rand_xoshiro::Xoshiro256PlusPlus;
use vstd::prelude::*;

use crate::board::Board;
use crate::chance;
use crate::materialize;
use crate::sample::{FrameJson, GameJson};

verus! {

/// The most frames kept of one game.
pub const MAX_REC_FRAMES: usize = 4096;

/// Self-play in progress, carried across generations and pauses.
pub struct SelfPlayState<F> {
    /// The boards of the games in flight.
    pub boards: Vec<Board>,
    /// How many turns each of them has been played.
    pub turns: Vec<usize>,
    /// The frames of each of them, from its first turn.
    pub rec: Vec<Vec<FrameJson<F>>>,
    /// The search temperature of each of them.
    pub temp: Vec<F>,
    /// The games finished in the current generation.
    pub finished: Vec<GameJson<F>>,
}

/// The number of samples in a list of finished games.
pub open spec fn sample_total<F>(games: Seq<GameJson<F>>, n: nat) -> nat
    decreases games.len(),
{
    if games.len() == 0 {
        0
    } else {
        sample_total(games.drop_last(), n) + materialize::game_samples(&games.last(), n).len()
    }
}

/// The number of seats and turns in a list of finished games: no fewer than
/// the samples.
pub open spec fn frame_total<F>(games: Seq<GameJson<F>>, n: nat) -> nat
    decreases games.len(),
{
    if games.len() == 0 {
        0
    } else {
        frame_total(games.drop_last(), n) + games.last().frames@.len() * n
    }
}

/// No list of games holds more samples than seats and turns.
pub proof fn lemma_sample_total_bound<F>(games: Seq<GameJson<F>>, n: nat)
    ensures
        sample_total(games, n) <= frame_total(games, n),
    decreases games.len(),
{
    if games.len() > 0 {
        lemma_sample_total_bound(games.drop_last(), n);
        materialize::samples_are_bounded(&games.last(), n);
    }
}

proof fn lemma_frame_total_grows<F>(games: Seq<GameJson<F>>, n: nat, k: int)
    requires
        0 <= k <= games.len(),
    ensures
        frame_total(games.take(k), n) <= frame_total(games, n),
        k < games.len() ==> games[k].frames@.len() * n <= frame_total(games, n),
    decreases games.len(),
{
    if k < games.len() {
        let t = games.drop_last();
        if k < t.len() {
            lemma_frame_total_grows(t, n, k);
            assert(t.take(k) =~= games.take(k));
            assert(t[k] == games[k]);
        } else {
            assert(games.take(k) =~= t);
        }
        assert(games.last().frames@.len() * n >= 0) by (nonlinear_arith);
    } else {
        assert(games.take(k) =~= games);
    }
}

/// The number of samples in a list of finished games.
pub fn count_samples<F>(games: &Vec<GameJson<F>>, n: usize) -> (total: usize)
    requires
        n <= 32,
        frame_total(games@, n as nat) <= usize::MAX,
    ensures
        total == sample_total(games@, n as nat),
{
    let mut total: usize = 0;
    let mut i: usize = 0;
    while i < games.len()
        invariant
            n <= 32,
            i <= games@.len(),
            frame_total(games@, n as nat) <= usize::MAX,
            total == sample_total(games@.take(i as int), n as nat),
        decreases games@.len() - i,
    {
        proof {
            assert(games@.take(i + 1).drop_last() =~= games@.take(i as int));
            lemma_frame_total_grows(games@, n as nat, i as int);
            lemma_frame_total_grows(games@, n as nat, i + 1);
            lemma_sample_total_bound(games@.take(i + 1), n as nat);
        }
        total = total + materialize::game_sample_count(&games[i], n);
        i = i + 1;
    }
    assert(games@.take(i as int) =~= games@);
    total
}

impl<F> SelfPlayState<F> {
    /// Whether every game in flight has its board, its turns and its frames.
    pub open spec fn aligned(&self) -> bool {
        &&& self.boards@.len() == self.turns@.len()
        &&& self.boards@.len() == self.rec@.len()
    }

    /// Whether every game in flight has its temperature, too.
    pub open spec fn wf(&self) -> bool {
        self.aligned() && self.boards@.len() == self.temp@.len()
    }

    /// Whether the games in flight are those of `other` at `ids`, in that
    /// order.
    pub open spec fn picks(&self, other: &Self, ids: Seq<int>) -> bool {
        &&& self.boards@ == ids.map_values(|k: int| other.boards@[k])
        &&& self.turns@ == ids.map_values(|k: int| other.turns@[k])
        &&& self.rec@ == ids.map_values(|k: int| other.rec@[k])
        &&& self.temp@ == ids.map_values(|k: int| other.temp@[k])
    }

    /// A state with no games at all.
    pub fn new() -> (s: Self)
        ensures
            s.wf(),
            s.boards@.len() == 0,
            s.finished@.len() == 0,
    {
        SelfPlayState {
            boards: Vec::new(),
            turns: Vec::new(),
            rec: Vec::new(),
            temp: Vec::new(),
            finished: Vec::new(),
        }
    }

    /// The samples that the finished games would give to the current
    /// generation.
    pub fn pending_sample_count(&self, n: usize) -> (total: usize)
        requires
            n <= 32,
            frame_total(self.finished@, n as nat) <= usize::MAX,
        ensures
            total == sample_total(self.finished@, n as nat),
    {
        count_samples(&self.finished, n)
    }
}

/// `s` without its entry `i`, the last one in its place.
pub open spec fn swap_removed<T>(s: Seq<T>, i: int) -> Seq<T> {
    s.update(i, s.last()).drop_last()
}

/// The numbers below `n`.
pub open spec fn upto(n: nat) -> Seq<int> {
    Seq::new(n, |i: int| i)
}

/// What stays of a list when, from index `i` on, every entry that `keep` turns
/// down is replaced by the last one.
pub open spec fn swept(ids: Seq<int>, keep: spec_fn(int) -> bool, i: nat) -> Seq<int>
    decreases ids.len() - i,
    via swept_decreases
{
    if i >= ids.len() {
        ids
    } else if keep(ids[i as int]) {
        swept(ids, keep, i + 1)
    } else {
        swept(swap_removed(ids, i as int), keep, i)
    }
}

#[via_fn]
proof fn swept_decreases(ids: Seq<int>, keep: spec_fn(int) -> bool, i: nat) {
    if i < ids.len() {
        assert(swap_removed(ids, i as int).len() == ids.len() - 1);
    }
}

/// A sweep keeps exactly what `keep` wants, each once.
pub proof fn sweep_keeps_what_it_should(ids: Seq<int>, keep: spec_fn(int) -> bool, i: nat)
    requires
        ids.no_duplicates(),
        i <= ids.len(),
        forall|k: int| 0 <= k < i ==> keep(#[trigger] ids[k]),
    ensures
        swept(ids, keep, i).no_duplicates(),
        swept(ids, keep, i).len() <= ids.len(),
        forall|x: int| #[trigger] swept(ids, keep, i).contains(x) <==> ids.contains(x) && keep(x),
    decreases ids.len() - i,
{
    if i >= ids.len() {
        assert forall|x: int| ids.contains(x) implies #[trigger] keep(x) by {
            let k = choose|k: int| 0 <= k < ids.len() && ids[k] == x;
            assert(keep(ids[k]));
        }
    } else if keep(ids[i as int]) {
        sweep_keeps_what_it_should(ids, keep, i + 1);
    } else {
        let r = swap_removed(ids, i as int);
        assert forall|a: int, b: int| 0 <= a < b < r.len() implies r[a] != r[b] by {
            let x = if a == i {
                ids.len() - 1
            } else {
                a
            };
            let y = if b == i {
                ids.len() - 1
            } else {
                b
            };
            assert(ids[x] != ids[y]);
        }
        assert forall|k: int| 0 <= k < i implies keep(#[trigger] r[k]) by {
            assert(keep(ids[k]));
        }
        sweep_keeps_what_it_should(r, keep, i);
        assert forall|x: int| #[trigger] swept(ids, keep, i).contains(x) <==> ids.contains(x)
            && keep(x) by {
            if ids.contains(x) && keep(x) {
                let k = choose|k: int| 0 <= k < ids.len() && ids[k] == x;
                assert(k != i);
                if k == ids.len() - 1 {
                    assert(r[i as int] == x);
                } else {
                    assert(r[k] == x);
                }
            }
            if r.contains(x) {
                let k = choose|k: int| 0 <= k < r.len() && r[k] == x;
                assert(ids[if k == i {
                    ids.len() - 1
                } else {
                    k
                }] == x);
            }
        }
    }
}

/// Whether game `k` of a state can go on: not over, and of the right shape.
pub open spec fn can_resume<F>(
    s: &SelfPlayState<F>,
    over: Seq<bool>,
    board: i8,
    n: nat,
    k: int,
) -> bool {
    !over[k] && materialize::flight_has_shape(&s.boards@[k], s.rec@[k]@, board, n)
}

/// What is to be done with the games in flight at the start of a generation
/// that wants `count` of them.
#[derive(Debug)]
pub enum ResumePlan {
    /// The state does not hold `count` whole games: start all of them afresh.
    Rebuild,
    /// Start these afresh: they are over already.
    Restart(Vec<usize>),
}

/// The indices below `k` at which `flags` is set.
pub open spec fn set_flags(flags: Seq<bool>, k: nat) -> Seq<usize>
    decreases k,
{
    if k == 0 {
        Seq::empty()
    } else {
        let rest = set_flags(flags, (k - 1) as nat);
        if flags[k - 1] {
            rest.push((k - 1) as usize)
        } else {
            rest
        }
    }
}

/// The set flags are those that are true, each once and in order.
pub proof fn set_flags_are_the_true_ones(flags: Seq<bool>, k: nat)
    requires
        k <= flags.len(),
        k <= usize::MAX,
    ensures
        forall|r: usize| #[trigger] set_flags(flags, k).contains(r) <==> r < k && flags[r as int],
        forall|a: int, b: int|
            0 <= a < b < set_flags(flags, k).len() ==> #[trigger] set_flags(flags, k)[a]
                < #[trigger] set_flags(flags, k)[b],
    decreases k,
{
    if k > 0 {
        let rest = set_flags(flags, (k - 1) as nat);
        let all = set_flags(flags, k);
        set_flags_are_the_true_ones(flags, (k - 1) as nat);
        assert forall|a: int| 0 <= a < rest.len() implies #[trigger] rest[a] < k - 1 by {
            assert(rest.contains(rest[a]));
        }
        assert forall|r: usize| #[trigger] all.contains(r) <==> r < k && flags[r as int] by {
            if rest.contains(r) {
                let a = choose|a: int| 0 <= a < rest.len() && rest[a] == r;
                assert(all[a] == r);
            }
            if r == k - 1 && flags[r as int] {
                assert(all[all.len() - 1] == r);
            }
            if all.contains(r) {
                let a = choose|a: int| 0 <= a < all.len() && all[a] == r;
                if a < rest.len() {
                    assert(rest[a] == r);
                    assert(rest.contains(r));
                }
            }
        }
    }
}

/// Taking one out leaves all others: the last one stands in its place, and the
/// rest stay where they are.
pub proof fn taking_out_leaves_the_others<T>(s: Seq<T>, i: int, k: int)
    requires
        0 <= i < s.len(),
        0 <= k < s.len() - 1,
    ensures
        swap_removed(s, i).len() == s.len() - 1,
        swap_removed(s, i)[k] == if k == i {
            s[s.len() - 1]
        } else {
            s[k]
        },
{
}

/// Which games in flight go on: exactly those that are not over and have the
/// board size in use, and the number of snakes in use at their first frame, or on
/// the board while they have none. Each goes on once.
pub proof fn resumed_games_fit<F>(
    s: &SelfPlayState<F>,
    over: Seq<bool>,
    board: i8,
    n: nat,
    k: int,
)
    requires
        s.wf(),
        over.len() == s.boards@.len(),
        0 <= k < s.boards@.len(),
    ensures
        ({
            let kept = swept(
                upto(s.boards@.len()),
                |k: int| can_resume(s, over, board, n, k),
                0,
            );
            let (b, frames) = (s.boards@[k], s.rec@[k]@);
            &&& kept.no_duplicates()
            &&& kept.contains(k) <==> !over[k] && b.width == board && b.height == board && (if frames.len()
                > 0 {
                frames[0].width == board && frames[0].height == board && frames[0].snakes@.len()
                    == n
            } else {
                b.snakes@.len() == n
            })
        }),
{
    let keep = |k: int| can_resume(s, over, board, n, k);
    let ids = upto(s.boards@.len());
    assert(ids[k] == k);
    assert(ids.contains(k));
    sweep_keeps_what_it_should(ids, keep, 0);
}

/// Decides how to resume `count` games, given for each board whether its game
/// is over.
pub fn plan_resume(
    boards: usize,
    turns: usize,
    recs: usize,
    count: usize,
    over: &Vec<bool>,
) -> (plan: ResumePlan)
    requires
        over@.len() == boards,
    ensures
        match plan {
            ResumePlan::Rebuild => boards != count || turns != count || recs != count,
            ResumePlan::Restart(v) => boards == count && turns == count && recs == count && v@
                == set_flags(over@, count as nat),
        },
{
    if boards != count || turns != count || recs != count {
        return ResumePlan::Rebuild;
    }
    let mut v: Vec<usize> = Vec::new();
    let mut i: usize = 0;
    while i < count
        invariant
            i <= count,
            over@.len() == count,
            v@ == set_flags(over@, i as nat),
        decreases count - i,
    {
        if over[i] {
            v.push(i);
        }
        i = i + 1;
    }
    ResumePlan::Restart(v)
}

/// How a game's turn ended.
#[derive(Clone, Copy, Debug, PartialEq, Eq, Structural)]
pub enum TurnEnd {
    /// The game goes on.
    Continue,
    /// A draw too short to learn from: the game is thrown away.
    SkipDraw,
    /// The game is over and counts.
    Finish,
}

/// How a game's turn ended: it goes on unless it is over, has reached the turn
/// cap, or fills the frame buffer; a draw that ended by itself within
/// `skip_short_draw_turns` frames is thrown away.
pub open spec fn turn_end(
    over: bool,
    has_winner: bool,
    turns: nat,
    max_turns: nat,
    frames: nat,
    skip_short_draw_turns: nat,
) -> TurnEnd {
    let overrun = (max_turns > 0 && turns >= max_turns) || frames >= MAX_REC_FRAMES;
    if !over && !overrun {
        TurnEnd::Continue
    } else if !has_winner && !overrun && skip_short_draw_turns > 0 && frames
        <= skip_short_draw_turns {
        TurnEnd::SkipDraw
    } else {
        TurnEnd::Finish
    }
}

/// When a game ends: it goes on unless it is over, has reached the turn limit, or
/// has as many frames as are recorded. A game that ended by itself without a
/// winner within the turns to skip is thrown away, and every other one is kept.
pub proof fn turns_end_games_that_are_over(
    over: bool,
    has_winner: bool,
    turns: nat,
    max_turns: nat,
    frames: nat,
    skip: nat,
)
    ensures
        ({
            let e = turn_end(over, has_winner, turns, max_turns, frames, skip);
            let cut = (max_turns != 0 && max_turns <= turns) || MAX_REC_FRAMES <= frames;
            &&& e == TurnEnd::Continue <==> !over && !cut
            &&& e == TurnEnd::SkipDraw <==> over && !cut && !has_winner && 0 < skip && frames <= skip
            &&& has_winner || cut ==> e != TurnEnd::SkipDraw
        }),
{
}

/// How a game's turn ended.
pub fn judge_turn(
    over: bool,
    has_winner: bool,
    turns: usize,
    max_turns: usize,
    frames: usize,
    skip_short_draw_turns: usize,
) -> (e: TurnEnd)
    ensures
        e == turn_end(
            over,
            has_winner,
            turns as nat,
            max_turns as nat,
            frames as nat,
            skip_short_draw_turns as nat,
        ),
{
    let overrun = (max_turns > 0 && turns >= max_turns) || frames >= MAX_REC_FRAMES;
    if !over && !overrun {
        TurnEnd::Continue
    } else if !has_winner && !overrun && skip_short_draw_turns > 0 && frames
        <= skip_short_draw_turns {
        TurnEnd::SkipDraw
    } else {
        TurnEnd::Finish
    }
}

/// How a game's turn ended in equilibrium play, where every game runs to its
/// natural end.
pub fn judge_le_turn(over: bool) -> (e: TurnEnd)
    ensures
        e == if over {
            TurnEnd::Finish
        } else {
            TurnEnd::Continue
        },
{
    if over {
        TurnEnd::Finish
    } else {
        TurnEnd::Continue
    }
}

/// The finished games of the right shape, in order.
pub open spec fn of_shape<F>(games: Seq<GameJson<F>>, board: i8, n: nat) -> Seq<GameJson<F>>
    decreases games.len(),
{
    if games.len() == 0 {
        games
    } else {
        let rest = of_shape(games.drop_last(), board, n);
        if materialize::game_has_shape(&games.last(), board, n) {
            rest.push(games.last())
        } else {
            rest
        }
    }
}

/// Reverses a list of games.
fn reverse_games<F>(games: Vec<GameJson<F>>) -> (r: Vec<GameJson<F>>)
    ensures
        r@ == games@.reverse(),
{
    let mut games = games;
    let ghost all = games@;
    let mut r: Vec<GameJson<F>> = Vec::new();
    while games.len() > 0
        invariant
            games@ == all.take(games@.len() as int),
            games@.len() <= all.len(),
            r@ == all.skip(games@.len() as int).reverse(),
        decreases games@.len(),
    {
        let ghost m = games@.len();
        let g = games.pop().unwrap();
        r.push(g);
        assert(games@ =~= all.take(m - 1));
        assert(r@ =~= all.skip(m - 1).reverse());
    }
    assert(all.skip(0) =~= all);
    r
}

/// The finished games that stay are those whose first frame has the board size
/// and the number of snakes in use, in their order.
pub proof fn kept_games_have_the_shape<F>(games: Seq<GameJson<F>>, board: i8, n: nat)
    ensures
        of_shape(games, board, n) == games.filter(
            |g: GameJson<F>|
                g.frames@.len() > 0 && g.frames@[0].width == board && g.frames@[0].height == board
                    && g.frames@[0].snakes@.len() == n,
        ),
    decreases games.len(),
{
    reveal(Seq::filter);
    if games.len() > 0 {
        kept_games_have_the_shape(games.drop_last(), board, n);
    } else {
        assert(games.filter(
            |g: GameJson<F>|
                g.frames@.len() > 0 && g.frames@[0].width == board && g.frames@[0].height == board
                    && g.frames@[0].snakes@.len() == n,
        ) =~= games);
    }
}

/// Keeps the finished games of the right shape.
pub fn keep_shape<F>(games: Vec<GameJson<F>>, board: i8, n: usize) -> (r: Vec<GameJson<F>>)
    ensures
        r@ == of_shape(games@, board, n as nat),
{
    let ghost all = games@;
    let mut back = reverse_games(games);
    let mut r: Vec<GameJson<F>> = Vec::new();
    let ghost mut done: int = 0;
    assert(all.take(0) =~= Seq::<GameJson<F>>::empty());
    while back.len() > 0
        invariant
            0 <= done <= all.len(),
            back@ == all.skip(done).reverse(),
            r@ == of_shape(all.take(done), board, n as nat),
        decreases back@.len(),
    {
        let g = back.pop().unwrap();
        proof {
            assert(g == all[done]);
            assert(all.take(done + 1).drop_last() =~= all.take(done));
            assert(back@ =~= all.skip(done + 1).reverse());
            done = done + 1;
        }
        if materialize::game_matches_shape(&g, board, n) {
            r.push(g);
        }
    }
    assert(all.take(done) =~= all);
    r
}

/// How a call of the generator ended.
#[derive(Clone, Copy, Debug, PartialEq, Eq, Structural)]
pub enum Gate {
    /// The sample target is reached.
    Complete,
    /// A pause came first.
    Interrupted,
}

/// Whether a generation is complete; a pause always wins, so that samples
/// gathered so far are carried on instead of being committed in the middle of
/// it.
pub fn close_gate(samples: usize, target: usize, stop: bool) -> (g: Gate)
    ensures
        g == if samples >= target && !stop {
            Gate::Complete
        } else {
            Gate::Interrupted
        },
{
    if samples >= target && !stop {
        Gate::Complete
    } else {
        Gate::Interrupted
    }
}

/// The seed of the choice of games to show in a generation; the two ways of
/// self-play choose apart.
pub fn display_seed(seed: u64, le_mode: bool) -> (s: u64)
    ensures
        s == seed ^ if le_mode {
            0x5EED_D15D_1A17_9999u64
        } else {
            0x5EED_D15D_1A17u64
        },
{
    if le_mode {
        seed ^ 0x5EED_D15D_1A17_9999u64
    } else {
        seed ^ 0x5EED_D15D_1A17u64
    }
}

/// Which of `len` finished games to show: all of them, in order, where no more
/// than `sample_games` are there, else that many drawn with the seed.
pub fn display_indices(seed: u64, len: usize, sample_games: usize) -> (r: Vec<usize>)
    requires
        len <= u32::MAX,
    ensures
        r@ == if sample_games < len {
            chance::seeded_sample(seed, len as nat, sample_games as nat)
        } else {
            Seq::new(len as nat, |i: int| i as usize)
        },
        r@.no_duplicates(),
        forall|i: int| 0 <= i < r@.len() ==> #[trigger] r@[i] < len,
        r@.len() == if sample_games < len {
            sample_games
        } else {
            len
        },
{
    if sample_games < len {
        return chance::draw_distinct(seed, len, sample_games);
    }
    let mut r: Vec<usize> = Vec::new();
    let mut i: usize = 0;
    while i < len
        invariant
            i <= len,
            r@ == Seq::new(i as nat, |i: int| i as usize),
        decreases len - i,
    {
        r.push(i);
        i = i + 1;
        assert(r@ =~= Seq::new(i as nat, |i: int| i as usize));
    }
    r
}

/// The running count of a generation's self-play.
#[derive(Clone, Copy, Debug, PartialEq, Eq, Structural)]
pub struct Harvest {
    /// Samples of the finished games, carried ones too.
    pub samples: usize,
    /// How many samples complete the generation.
    pub target: usize,
    /// Turns and games since the call.
    pub turns: u64,
    pub games: u64,
}

impl Harvest {
    /// Starts with the samples that were carried over.
    pub fn new(carried: usize, target: usize) -> (h: Harvest)
        ensures
            h == (Harvest { samples: carried, target, turns: 0, games: 0 }),
    {
        Harvest { samples: carried, target, turns: 0, games: 0 }
    }

    /// Whether play goes on.
    pub fn wants_more(&self, stop: bool) -> (r: bool)
        ensures
            r == (!stop && self.samples < self.target),
    {
        !stop && self.samples < self.target
    }

    /// Counts a turn of a game.
    pub fn note_turn(&mut self)
        requires
            old(self).turns < u64::MAX,
        ensures
            *final(self) == (Harvest { turns: (old(self).turns + 1) as u64, ..*old(self) }),
    {
        self.turns = self.turns + 1;
    }

    /// Counts a finished game and its samples.
    pub fn note_game(&mut self, added: usize)
        requires
            old(self).samples + added <= usize::MAX,
            old(self).games < u64::MAX,
        ensures
            *final(self) == (Harvest {
                samples: (old(self).samples + added) as usize,
                games: (old(self).games + 1) as u64,
                ..*old(self)
            }),
    {
        self.samples = self.samples + added;
        self.games = self.games + 1;
    }

    /// The samples to show, the target at the most.
    pub fn shown(&self) -> (n: u32)
        ensures
            n == (if self.samples < self.target {
                self.samples
            } else {
                self.target
            }) as u32,
    {
        let n: usize = if self.samples < self.target {
            self.samples
        } else {
            self.target
        };
        #[verifier::truncate]
        (n as u32)
    }
}

/// The turns of a list of games.
pub open spec fn turn_total<F>(games: Seq<GameJson<F>>) -> nat
    decreases games.len(),
{
    if games.len() == 0 {
        0
    } else {
        turn_total(games.drop_last()) + games.last().num_turns as nat
    }
}

proof fn lemma_turn_total_grows<F>(games: Seq<GameJson<F>>, i: int)
    requires
        0 <= i <= games.len(),
    ensures
        turn_total(games.take(i)) <= turn_total(games),
    decreases games.len(),
{
    if i == games.len() {
        assert(games.take(i) =~= games);
    } else {
        lemma_turn_total_grows(games.drop_last(), i);
        assert(games.drop_last().take(i) =~= games.take(i));
    }
}

/// Every game counts its turns once.
pub proof fn turns_add_up<F>(games: Seq<GameJson<F>>, more: Seq<GameJson<F>>)
    ensures
        turn_total(games + more) == turn_total(games) + turn_total(more),
        forall|g: GameJson<F>| turn_total(#[trigger] seq![g]) == g.num_turns,
        turn_total(Seq::<GameJson<F>>::empty()) == 0,
    decreases more.len(),
{
    assert forall|g: GameJson<F>| turn_total(#[trigger] seq![g]) == g.num_turns by {
        let one = seq![g];
        assert(one.drop_last() =~= Seq::<GameJson<F>>::empty());
        assert(turn_total(one.drop_last()) == 0);
        assert(one.last() == g);
    }
    if more.len() == 0 {
        assert(games + more =~= games);
    } else {
        turns_add_up(games, more.drop_last());
        assert((games + more).drop_last() =~= games + more.drop_last());
    }
}

/// The turns of a list of games.
pub fn count_turns<F>(games: &Vec<GameJson<F>>) -> (t: u64)
    requires
        turn_total(games@) <= u64::MAX,
    ensures
        t == turn_total(games@),
{
    let mut t: u64 = 0;
    let mut i: usize = 0;
    assert(games@.take(0) =~= Seq::<GameJson<F>>::empty());
    while i < games.len()
        invariant
            i <= games@.len(),
            turn_total(games@) <= u64::MAX,
            t == turn_total(games@.take(i as int)),
        decreases games@.len() - i,
    {
        assert(games@.take(i + 1).drop_last() =~= games@.take(i as int));
        proof {
            lemma_turn_total_grows(games@, i + 1);
        }
        t = t + games[i].num_turns as u64;
        i = i + 1;
    }
    assert(games@.take(i as int) =~= games@);
    t
}

impl<F: Copy> SelfPlayState<F> {
    /// Gives every game in flight a temperature: the ones it has, then those of
    /// `fresh`; superfluous ones go. A state whose boards, turns and frames do
    /// not go together loses all its games in flight.
    pub fn align(&mut self, fresh: &Vec<F>)
        requires
            fresh@.len() >= old(self).boards@.len() || !old(self).aligned(),
        ensures
            final(self).wf(),
            final(self).finished@ == old(self).finished@,
            !old(self).aligned() ==> final(self).boards@.len() == 0,
            old(self).aligned() ==> {
                &&& final(self).boards@ == old(self).boards@
                &&& final(self).turns@ == old(self).turns@
                &&& final(self).rec@ == old(self).rec@
                &&& final(self).temp@ == Seq::new(
                    old(self).boards@.len(),
                    |i: int|
                        if i < old(self).temp@.len() {
                            old(self).temp@[i]
                        } else {
                            fresh@[i - old(self).temp@.len()]
                        },
                )
            },
    {
        if self.boards.len() != self.turns.len() || self.boards.len() != self.rec.len() {
            self.boards.clear();
            self.turns.clear();
            self.rec.clear();
            self.temp.clear();
            return ;
        }
        let ghost temps = self.temp@;
        let count: usize = self.boards.len();
        let had: usize = self.temp.len();
        let mut i: usize = 0;
        while self.temp.len() < count
            invariant
                self.boards@ == old(self).boards@,
                self.turns@ == old(self).turns@,
                self.rec@ == old(self).rec@,
                self.finished@ == old(self).finished@,
                had == temps.len(),
                count <= fresh@.len(),
                self.temp@.len() == had + i,
                i <= count,
                self.temp@.len() <= count || i == 0,
                self.temp@ == temps + fresh@.take(i as int),
            decreases count - self.temp@.len(),
        {
            self.temp.push(fresh[i]);
            i = i + 1;
            assert(self.temp@ =~= temps + fresh@.take(i as int));
        }
        self.temp.truncate(count);
        assert(self.temp@ =~= Seq::new(
            count as nat,
            |i: int|
                if i < temps.len() {
                    temps[i]
                } else {
                    fresh@[i - temps.len()]
                },
        ));
    }

    /// Takes out the game at `i`; the last one takes its place.
    pub fn take_out(&mut self, i: usize)
        requires
            old(self).wf(),
            i < old(self).boards@.len(),
        ensures
            final(self).wf(),
            final(self).boards@ == swap_removed(old(self).boards@, i as int),
            final(self).turns@ == swap_removed(old(self).turns@, i as int),
            final(self).rec@ == swap_removed(old(self).rec@, i as int),
            final(self).temp@ == swap_removed(old(self).temp@, i as int),
            final(self).finished@ == old(self).finished@,
    {
        self.boards.swap_remove(i);
        self.turns.swap_remove(i);
        self.rec.swap_remove(i);
        self.temp.swap_remove(i);
    }

    /// Takes out the games that cannot go on: those that are over and those of
    /// another shape. `over[k]` tells whether game `k` is over.
    pub fn drop_unresumable(&mut self, over: Vec<bool>, board: i8, n: usize)
        requires
            old(self).wf(),
            over@.len() == old(self).boards@.len(),
        ensures
            final(self).wf(),
            final(self).picks(
                old(self),
                swept(
                    upto(old(self).boards@.len()),
                    |k: int| can_resume(old(self), over@, board, n as nat, k),
                    0,
                ),
            ),
            final(self).finished@ == old(self).finished@,
    {
        let mut over = over;
        let ghost over0 = over@;
        let ghost s0 = *self;
        let ghost keep = |k: int| can_resume(&s0, over0, board, n as nat, k);
        let ghost mut ids = upto(self.boards@.len());
        let ghost goal = swept(ids, keep, 0);
        let mut i: usize = 0;
        proof {
            assert(self.boards@ =~= ids.map_values(|k: int| s0.boards@[k]));
            assert(self.turns@ =~= ids.map_values(|k: int| s0.turns@[k]));
            assert(self.rec@ =~= ids.map_values(|k: int| s0.rec@[k]));
            assert(self.temp@ =~= ids.map_values(|k: int| s0.temp@[k]));
            assert(over@ =~= ids.map_values(|k: int| over0[k]));
        }
        while i < self.boards.len()
            invariant
                self.wf(),
                i <= self.boards@.len(),
                keep == (|k: int| can_resume(&s0, over0, board, n as nat, k)),
                ids.len() == self.boards@.len(),
                over@.len() == self.boards@.len(),
                self.picks(&s0, ids),
                over@ == ids.map_values(|k: int| over0[k]),
                swept(ids, keep, i as nat) == goal,
                self.finished@ == s0.finished@,
            decreases self.boards@.len() - i,
        {
            let resumable = !over[i] && materialize::in_flight_matches_shape(
                &self.boards[i],
                &self.rec[i],
                board,
                n,
            );
            assert(resumable == keep(ids[i as int])) by {
                assert(self.boards@[i as int] == s0.boards@[ids[i as int]]);
                assert(self.rec@[i as int] == s0.rec@[ids[i as int]]);
                assert(over@[i as int] == over0[ids[i as int]]);
            }
            if resumable {
                i = i + 1;
            } else {
                let ghost before = ids;
                self.take_out(i);
                over.swap_remove(i);
                proof {
                    ids = swap_removed(ids, i as int);
                    assert(self.boards@ =~= ids.map_values(|k: int| s0.boards@[k]));
                    assert(self.turns@ =~= ids.map_values(|k: int| s0.turns@[k]));
                    assert(self.rec@ =~= ids.map_values(|k: int| s0.rec@[k]));
                    assert(self.temp@ =~= ids.map_values(|k: int| s0.temp@[k]));
                    assert(over@ =~= ids.map_values(|k: int| over0[k]));
                }
            }
        }
    }

    /// Takes out games at random until no more than `count` are in flight.
    pub fn shrink(&mut self, rng: &mut Xoshiro256PlusPlus, count: usize)
        requires
            old(self).wf(),
        ensures
            final(self).wf(),
            final(self).finished@ == old(self).finished@,
            exists|ids: Seq<int>| #[trigger]
                is_choice(ids, old(self).boards@.len(), count as nat) && final(self).picks(
                    old(self),
                    ids,
                ),
            old(self).boards@.len() <= count ==> final(self).boards@.len() == old(
                self,
            ).boards@.len(),
            old(self).boards@.len() > count ==> final(self).boards@.len() == count,
    {
        let ghost s0 = *self;
        let ghost mut ids = upto(self.boards@.len());
        proof {
            assert(self.boards@ =~= ids.map_values(|k: int| s0.boards@[k]));
            assert(self.turns@ =~= ids.map_values(|k: int| s0.turns@[k]));
            assert(self.rec@ =~= ids.map_values(|k: int| s0.rec@[k]));
            assert(self.temp@ =~= ids.map_values(|k: int| s0.temp@[k]));
        }
        while self.boards.len() > count
            invariant
                self.wf(),
                ids.len() == self.boards@.len(),
                ids.len() <= s0.boards@.len(),
                ids.len() >= count || ids.len() == s0.boards@.len(),
                ids.no_duplicates(),
                forall|k: int| 0 <= k < ids.len() ==> 0 <= #[trigger] ids[k] < s0.boards@.len(),
                self.picks(&s0, ids),
                self.finished@ == s0.finished@,
            decreases self.boards@.len(),
        {
            let v: usize = chance::draw_below(rng, self.boards.len());
            self.take_out(v);
            proof {
                let r = swap_removed(ids, v as int);
                assert forall|a: int, b: int| 0 <= a < b < r.len() implies r[a] != r[b] by {
                    let x = if a == v {
                        ids.len() - 1
                    } else {
                        a
                    };
                    let y = if b == v {
                        ids.len() - 1
                    } else {
                        b
                    };
                    assert(ids[x] != ids[y]);
                }
                ids = r;
                assert(self.boards@ =~= ids.map_values(|k: int| s0.boards@[k]));
                assert(self.turns@ =~= ids.map_values(|k: int| s0.turns@[k]));
                assert(self.rec@ =~= ids.map_values(|k: int| s0.rec@[k]));
                assert(self.temp@ =~= ids.map_values(|k: int| s0.temp@[k]));
            }
        }
        assert(is_choice(ids, s0.boards@.len(), count as nat));
    }

    /// Puts a fresh game in flight.
    pub fn launch(&mut self, board: Board, temp: F)
        requires
            old(self).wf(),
        ensures
            final(self).wf(),
            final(self).boards@ == old(self).boards@.push(board),
            final(self).turns@ == old(self).turns@.push(0),
            final(self).rec@.len() == old(self).rec@.len() + 1,
            final(self).rec@.drop_last() == old(self).rec@,
            final(self).rec@.last()@.len() == 0,
            final(self).temp@ == old(self).temp@.push(temp),
            final(self).finished@ == old(self).finished@,
    {
        self.boards.push(board);
        self.turns.push(0);
        let ghost before = self.rec@;
        self.rec.push(Vec::new());
        assert(self.rec@.drop_last() =~= before);
        self.temp.push(temp);
    }

    /// Starts game `g` afresh; its frames are dropped.
    pub fn restart(&mut self, g: usize, board: Board, temp: F)
        requires
            old(self).wf(),
            g < old(self).boards@.len(),
        ensures
            final(self).wf(),
            final(self).boards@ == old(self).boards@.update(g as int, board),
            final(self).turns@ == old(self).turns@.update(g as int, 0),
            final(self).rec@.len() == old(self).rec@.len(),
            final(self).rec@[g as int]@.len() == 0,
            forall|k: int|
                0 <= k < old(self).rec@.len() && k != g ==> #[trigger] final(self).rec@[k] == old(
                    self,
                ).rec@[k],
            final(self).temp@ == old(self).temp@.update(g as int, temp),
            final(self).finished@ == old(self).finished@,
    {
        self.boards[g] = board;
        self.turns[g] = 0;
        self.rec[g] = Vec::new();
        self.temp[g] = temp;
    }

    /// Records a turn of game `g` and moves it on to the next position.
    pub fn play_turn(&mut self, g: usize, frame: FrameJson<F>, next: Board)
        requires
            old(self).wf(),
            g < old(self).boards@.len(),
            old(self).turns@[g as int] < usize::MAX,
        ensures
            final(self).wf(),
            final(self).boards@ == old(self).boards@.update(g as int, next),
            final(self).turns@ == old(self).turns@.update(
                g as int,
                (old(self).turns@[g as int] + 1) as usize,
            ),
            final(self).rec@.len() == old(self).rec@.len(),
            final(self).rec@[g as int]@ == old(self).rec@[g as int]@.push(frame),
            forall|k: int|
                0 <= k < old(self).rec@.len() && k != g ==> #[trigger] final(self).rec@[k] == old(
                    self,
                ).rec@[k],
            final(self).temp@ == old(self).temp@,
            final(self).finished@ == old(self).finished@,
    {
        self.boards[g] = next;
        let t: usize = self.turns[g] + 1;
        self.turns[g] = t;
        self.rec[g].push(frame);
    }

    /// Moves game `g` to the finished games, `last` its final frame, and starts
    /// a fresh one in its place. Returns the samples that it gives.
    pub fn complete(
        &mut self,
        g: usize,
        last: FrameJson<F>,
        winner: Option<usize>,
        n: usize,
        fresh: Board,
        fresh_temp: F,
    ) -> (added: usize)
        requires
            old(self).wf(),
            g < old(self).boards@.len(),
            n <= 32,
            (old(self).rec@[g as int]@.len() + 1) * n <= usize::MAX,
            old(self).rec@[g as int]@.len() < u32::MAX,
            winner matches Some(w) ==> w <= i32::MAX,
        ensures
            final(self).wf(),
            final(self).boards@ == old(self).boards@.update(g as int, fresh),
            final(self).turns@ == old(self).turns@.update(g as int, 0),
            final(self).temp@ == old(self).temp@.update(g as int, fresh_temp),
            final(self).rec@.len() == old(self).rec@.len(),
            final(self).rec@[g as int]@.len() == 0,
            forall|k: int|
                0 <= k < old(self).rec@.len() && k != g ==> #[trigger] final(self).rec@[k] == old(
                    self,
                ).rec@[k],
            final(self).finished@.len() == old(self).finished@.len() + 1,
            final(self).finished@.drop_last() == old(self).finished@,
            ({
                let game = final(self).finished@.last();
                &&& game.frames@ == old(self).rec@[g as int]@.push(last)
                &&& game.winner == match winner {
                    Some(w) => Some(w as i32),
                    None => None,
                }
                &&& game.num_turns == old(self).rec@[g as int]@.len() + 1
                &&& game.heur_mask == old(self).boards@[g as int].heur_mask
                &&& game.temp == old(self).temp@[g as int]
                &&& added == materialize::game_samples(&game, n as nat).len()
            }),
    {
        let mut frames: Vec<FrameJson<F>> = Vec::new();
        core::mem::swap(&mut self.rec[g], &mut frames);
        frames.push(last);
        let num_turns: u32 = frames.len() as u32;
        let game = GameJson {
            frames,
            winner: match winner {
                Some(w) => Some(w as i32),
                None => None,
            },
            num_turns,
            heur_mask: self.boards[g].heur_mask,
            temp: self.temp[g],
        };
        let added: usize = materialize::game_sample_count(&game, n);
        let ghost before = self.finished@;
        self.finished.push(game);
        assert(self.finished@.drop_last() =~= before);
        self.boards[g] = fresh;
        self.turns[g] = 0;
        self.temp[g] = fresh_temp;
        added
    }

    /// Deals with game `g` after its turn: it goes on, is thrown away, or moves
    /// to the finished games with `last` as its final frame; in the two latter
    /// cases a fresh game takes its place. Returns the samples gained.
    pub fn settle_turn(
        &mut self,
        g: usize,
        end: TurnEnd,
        last: FrameJson<F>,
        winner: Option<usize>,
        n: usize,
        fresh: Board,
        fresh_temp: F,
    ) -> (added: usize)
        requires
            old(self).wf(),
            g < old(self).boards@.len(),
            n <= 32,
            (old(self).rec@[g as int]@.len() + 1) * n <= usize::MAX,
            old(self).rec@[g as int]@.len() < u32::MAX,
            winner matches Some(w) ==> w <= i32::MAX,
        ensures
            final(self).wf(),
            end is Continue ==> *final(self) == *old(self) && added == 0,
            !(end is Continue) ==> {
                &&& final(self).boards@ == old(self).boards@.update(g as int, fresh)
                &&& final(self).turns@ == old(self).turns@.update(g as int, 0)
                &&& final(self).temp@ == old(self).temp@.update(g as int, fresh_temp)
                &&& final(self).rec@.len() == old(self).rec@.len()
                &&& final(self).rec@[g as int]@.len() == 0
                &&& forall|k: int|
                    0 <= k < old(self).rec@.len() && k != g ==> #[trigger] final(self).rec@[k]
                        == old(self).rec@[k]
            },
            end is SkipDraw ==> final(self).finished@ == old(self).finished@ && added == 0,
            end is Finish ==> {
                let game = final(self).finished@.last();
                &&& final(self).finished@.len() == old(self).finished@.len() + 1
                &&& final(self).finished@.drop_last() == old(self).finished@
                &&& game.frames@ == old(self).rec@[g as int]@.push(last)
                &&& game.winner == match winner {
                    Some(w) => Some(w as i32),
                    None => None,
                }
                &&& game.num_turns == old(self).rec@[g as int]@.len() + 1
                &&& game.heur_mask == old(self).boards@[g as int].heur_mask
                &&& game.temp == old(self).temp@[g as int]
                &&& added == materialize::game_samples(&game, n as nat).len()
            },
    {
        match end {
            TurnEnd::Continue => 0,
            TurnEnd::SkipDraw => {
                self.restart(g, fresh, fresh_temp);
                0
            },
            TurnEnd::Finish => self.complete(g, last, winner, n, fresh, fresh_temp),
        }
    }

    /// Keeps the finished games of the right shape.
    pub fn retain_shape(&mut self, board: i8, n: usize)
        ensures
            final(self).finished@ == of_shape(old(self).finished@, board, n as nat),
            final(self).boards@ == old(self).boards@,
            final(self).turns@ == old(self).turns@,
            final(self).rec@ == old(self).rec@,
            final(self).temp@ == old(self).temp@,
    {
        let mut games: Vec<GameJson<F>> = Vec::new();
        core::mem::swap(&mut self.finished, &mut games);
        self.finished = keep_shape(games, board, n);
    }
}

/// Whether `ids` picks, out of `len` games, all of them or `count` at the
/// most, each once.
pub open spec fn is_choice(ids: Seq<int>, len: nat, count: nat) -> bool {
    &&& ids.len() == if len < count {
        len
    } else {
        count
    }
    &&& ids.no_duplicates()
    &&& forall|k: int| 0 <= k < ids.len() ==> 0 <= #[trigger] ids[k] < len
}

/// Finishing a game adds exactly its own samples to what the finished games
/// hold, so the running count stays true.
pub proof fn running_count_stays_true<F>(before: Seq<GameJson<F>>, game: GameJson<F>, n: nat)
    ensures
        sample_total(before.push(game), n) == sample_total(before, n) + materialize::game_samples(
            &game,
            n,
        ).len(),
{
    assert(before.push(game).drop_last() =~= before);
}

} // verus!
