//! Held-out evaluation: a net against heuristics it never trains against.
//!
//! One seat, rotated from game to game, is the net's; the others are the
//! heuristic's. The net has won a game where it is the sole survivor.

use vstd::prelude::*;

use crate::board::{Board, Move};
use crate::bouts::{self, EvalGame, Readout, RecordedEvalGame, Step};
use crate::burst::{self, MatchRecord};
use crate::league;
use crate::lists;
use crate::placing::{self, Placement};

verus! {

/// The held-out games of a net.
pub struct HeldOut<F> {
    /// Seats per game.
    pub n: usize,
    pub net_gen: u32,
    pub opponent_gen: u32,
    /// How many games are recorded, from the first on.
    pub recorded: usize,
    pub games: Vec<EvalGame<F>>,
    pub net_won: Vec<bool>,
}

/// The net's seat in a game.
pub open spec fn seat_of_net(g: int, n: nat) -> int {
    g % (n as int)
}

/// Who plays the seats of game `g`.
pub open spec fn gens_of(g: int, n: nat, net_gen: u32, opponent_gen: u32) -> Seq<u32> {
    Seq::new(
        n,
        |s: int|
            if s == seat_of_net(g, n) {
                net_gen
            } else {
                opponent_gen
            },
    )
}

/// Where a seat's move comes from.
#[derive(Clone, Copy, Debug, PartialEq, Eq, Structural)]
pub enum Mover {
    /// The snake is dead.
    Nobody,
    /// The net's most likely move.
    Net,
    /// The heuristic's search.
    Strong,
    /// The heuristic's best reply without search.
    Greedy,
}

/// Where a seat's move comes from.
pub open spec fn mover_of(alive: bool, is_net: bool, baseline_sims: nat) -> Mover {
    if !alive {
        Mover::Nobody
    } else if is_net {
        Mover::Net
    } else if baseline_sims > 0 {
        Mover::Strong
    } else {
        Mover::Greedy
    }
}

impl<F> HeldOut<F> {
    /// Whether game `g` is done with the net as its sole survivor.
    pub open spec fn is_won(&self, g: int) -> bool {
        self.games@[g].done && self.games@[g].winner == Some(
            seat_of_net(g, self.n as nat) as usize,
        )
    }

    /// Whether the games fit together: in a game that goes on the net lives,
    /// and the net has won exactly the games that are done with the net as
    /// their sole survivor.
    pub open spec fn wf(&self) -> bool {
        &&& 0 < self.n <= i32::MAX
        &&& self.net_won@.len() == self.games@.len()
        &&& self.recorded <= self.games@.len()
        &&& forall|g: int| 0 <= g < self.games@.len() ==> (#[trigger] self.games@[g]).wf(self.n as nat)
        &&& forall|g: int|
            0 <= g < self.games@.len() && !(#[trigger] self.games@[g]).done
                ==> self.games@[g].board.seat_alive(seat_of_net(g, self.n as nat))
        &&& forall|g: int|
            0 <= g < self.games@.len() ==> #[trigger] self.net_won@[g] == self.is_won(g)
        &&& forall|g: int|
            0 <= g < self.games@.len() && (#[trigger] self.games@[g]).winner is Some
                ==> self.games@[g].winner->0 < self.n
    }
}

impl<F: Copy> HeldOut<F> {
    /// The games from the given starts.
    pub fn new(
        boards: Vec<Board>,
        n: usize,
        net_gen: u32,
        opponent_gen: u32,
        record_games: usize,
    ) -> (h: HeldOut<F>)
        requires
            0 < n <= i32::MAX,
            forall|g: int|
                0 <= g < boards@.len() ==> (#[trigger] boards@[g]).snakes@.len() == n
                    && bouts::all_alive(&boards@[g]),
        ensures
            h.wf(),
            h.n == n,
            h.net_gen == net_gen,
            h.opponent_gen == opponent_gen,
            h.recorded == if record_games < boards@.len() {
                record_games as int
            } else {
                boards@.len() as int
            },
            h.games@.len() == boards@.len(),
            forall|g: int|
                0 <= g < boards@.len() ==> (#[trigger] h.games@[g]).board == boards@[g]
                    && !h.games@[g].done && h.games@[g].frames@.len() == 0 && !h.net_won@[g],
    {
        let ghost all = boards@;
        let mut boards = boards;
        let total: usize = boards.len();
        let mut games: Vec<EvalGame<F>> = Vec::new();
        let mut net_won: Vec<bool> = Vec::new();
        while boards.len() > 0
            invariant
                0 < n <= i32::MAX,
                total == all.len(),
                games@.len() + boards@.len() == total,
                boards@ == all.skip(games@.len() as int),
                net_won@.len() == games@.len(),
                forall|g: int|
                    0 <= g < all.len() ==> (#[trigger] all[g]).snakes@.len() == n
                        && bouts::all_alive(&all[g]),
                forall|g: int|
                    0 <= g < games@.len() ==> (#[trigger] games@[g]).board == all[g]
                        && !games@[g].done && games@[g].frames@.len() == 0 && !net_won@[g]
                        && games@[g].wf(n as nat) && games@[g].winner is None,
            decreases boards@.len(),
        {
            let ghost k = games@.len() as int;
            assert(boards@[0] == all[k]);
            let b = boards.remove(0);
            assert(bouts::all_alive(&all[k]));
            games.push(EvalGame::new(b));
            net_won.push(false);
            assert(boards@ =~= all.skip(k + 1));
        }
        proof {
            assert forall|g: int| 0 <= g < games@.len() && !(#[trigger] games@[g]).done implies
                games@[g].board.seat_alive(seat_of_net(g, n as nat)) by {
                assert(games@[g].board == all[g]);
                assert(bouts::all_alive(&all[g]));
                assert(0 <= g % (n as int) < n) by (nonlinear_arith)
                    requires
                        n > 0,
                ;
            }
        }
        HeldOut {
            n,
            net_gen,
            opponent_gen,
            recorded: if record_games < total {
                record_games
            } else {
                total
            },
            games,
            net_won,
        }
    }

    /// The games that are still being played.
    pub fn live(&self) -> (r: Vec<usize>)
        ensures
            r@ == bouts::running(self.games@),
            r@.len() == 0 <==> forall|g: int|
                0 <= g < self.games@.len() ==> (#[trigger] self.games@[g]).done,
    {
        bouts::live_games(&self.games)
    }

    /// Where the move of seat `s` in game `g` comes from.
    pub fn mover(&self, g: usize, s: usize, baseline_sims: usize) -> (m: Mover)
        requires
            self.wf(),
            g < self.games@.len(),
            s < self.n,
        ensures
            m == mover_of(
                self.games@[g as int].board.seat_alive(s as int),
                s == seat_of_net(g as int, self.n as nat),
                baseline_sims as nat,
            ),
            m == Mover::Nobody <==> self.games@[g as int].board.snakes@[s as int].eliminated is Some,
            m == Mover::Net <==> self.games@[g as int].board.snakes@[s as int].eliminated is None && s
                == g as int % self.n as int,
            m == Mover::Strong ==> baseline_sims > 0,
            m == Mover::Greedy ==> baseline_sims == 0,
    {
        assert(self.games@[g as int].wf(self.n as nat));
        if !self.games[g].board.snakes[s].alive() {
            Mover::Nobody
        } else if s == g % self.n {
            Mover::Net
        } else if baseline_sims > 0 {
            Mover::Strong
        } else {
            Mover::Greedy
        }
    }

    /// The policies that game `g` is played from: the net's own mix, and all
    /// on the chosen move for the heuristic.
    pub fn plays(&self, g: usize, policy: &Vec<F>, moves: &Vec<Move>, zero: F, one: F) -> (p: Vec<
        Vec<F>,
    >)
        requires
            self.wf(),
            policy@.len() >= self.n * 4,
            moves@.len() >= self.n,
        ensures
            p@.len() == self.n,
            forall|s: int|
                0 <= s < self.n ==> (#[trigger] p@[s])@ == if s == seat_of_net(
                    g as int,
                    self.n as nat,
                ) {
                    policy@.subrange(s * 4, s * 4 + 4)
                } else {
                    bouts::one_hot(moves@[s], zero, one)
                },
    {
        let n: usize = self.n;
        let rows: usize = policy.len();
        let seat: usize = g % n;
        let mut p: Vec<Vec<F>> = Vec::new();
        let mut s: usize = 0;
        while s < n
            invariant
                s <= n,
                n == self.n,
                n > 0,
                rows == policy@.len(),
                rows >= n * 4,
                moves@.len() >= n,
                seat == seat_of_net(g as int, n as nat),
                p@.len() == s,
                forall|k: int|
                    0 <= k < s ==> (#[trigger] p@[k])@ == if k == seat {
                        policy@.subrange(k * 4, k * 4 + 4)
                    } else {
                        bouts::one_hot(moves@[k], zero, one)
                    },
            decreases n - s,
        {
            if s == seat {
                p.push(crate::sample::copy_slice(policy, s * 4, 4));
            } else {
                p.push(bouts::sure_of(moves[s], zero, one));
            }
            s = s + 1;
        }
        p
    }

    /// Plays a turn of game `g`. It ends where it is over or the net has died:
    /// a net that is out cannot win any more.
    pub fn play_turn(&mut self, g: usize, readout: &Readout<F>, step: Step, zero: F) -> (done: bool)
        requires
            old(self).wf(),
            g < old(self).games@.len(),
            !old(self).games@[g as int].done,
            bouts::can_follow(&old(self).games@[g as int].board, &step.board),
            readout.covers(old(self).n as nat),
            step.winner matches Some(w) ==> w < old(self).n && step.board.seat_alive(w as int),
        ensures
            final(self).wf(),
            final(self).n == old(self).n,
            final(self).net_gen == old(self).net_gen,
            final(self).opponent_gen == old(self).opponent_gen,
            final(self).recorded == old(self).recorded,
            final(self).games@.len() == old(self).games@.len(),
            forall|k: int|
                0 <= k < old(self).games@.len() && k != g ==> final(self).games@[k] == old(
                    self,
                ).games@[k] && final(self).net_won@[k] == old(self).net_won@[k],
            ({
                let (a, b) = (old(self).games@[g as int], final(self).games@[g as int]);
                let seat = seat_of_net(g as int, old(self).n as nat);
                &&& b.board == step.board
                &&& b.deaths@ == crate::arena::deaths_noted(
                    a.deaths@,
                    &step.board,
                    step.board.turn,
                )
                &&& b.winner == step.winner
                &&& b.done == (step.over || !step.board.seat_alive(seat))
                &&& final(self).net_won@[g as int] == (step.over && step.winner == Some(
                    seat as usize,
                ))
                &&& bouts::recorded_turn(
                    a.frames@,
                    b.frames@,
                    &a.board,
                    &step.board,
                    readout,
                    b.done,
                    g < old(self).recorded,
                    zero,
                )
                &&& done == b.done
            }),
    {
        let ghost before = *self;
        let n: usize = self.n;
        assert(self.games@[g as int].wf(n as nat));
        let seat: usize = g % n;
        assert(!before.net_won@[g as int]);
        let won = step.over && match step.winner {
            Some(w) => w == seat,
            None => false,
        };
        let recorded = g < self.recorded;
        let done = self.games[g].advance(readout, step, Some(seat), recorded, zero);
        self.net_won[g] = won;
        proof {
            let a = self.games@;
            assert forall|k: int| 0 <= k < a.len() implies (#[trigger] a[k]).wf(n as nat) by {
                if k != g {
                    assert(a[k] == before.games@[k]);
                }
            }
            assert forall|k: int| 0 <= k < a.len() && !(#[trigger] a[k]).done implies
                a[k].board.seat_alive(seat_of_net(k, n as nat)) by {
                if k != g {
                    assert(a[k] == before.games@[k]);
                }
            }
            assert forall|k: int| 0 <= k < a.len() implies #[trigger] self.net_won@[k]
                == self.is_won(k) by {
                if k != g {
                    assert(a[k] == before.games@[k]);
                    assert(before.net_won@[k] == before.is_won(k));
                }
            }
            assert forall|k: int|
                0 <= k < a.len() && (#[trigger] a[k]).winner is Some implies a[k].winner->0 < n by {
                if k != g {
                    assert(a[k] == before.games@[k]);
                }
            }
        }
        done
    }

    /// How many games the net won: those that are done with the net as their
    /// sole survivor.
    pub fn wins(&self) -> (w: usize)
        requires
            self.wf(),
        ensures
            w == lists::count_where(self.games@.len(), |g: int| self.is_won(g)),
    {
        let ghost won = |g: int| self.is_won(g);
        let mut w: usize = 0;
        let mut g: usize = 0;
        while g < self.net_won.len()
            invariant
                self.wf(),
                g <= self.net_won@.len(),
                won == (|g: int| self.is_won(g)),
                w == lists::count_where(g as nat, won),
                w <= g,
            decreases self.net_won@.len() - g,
        {
            assert(won(g as int) == self.net_won@[g as int]);
            if self.net_won[g] {
                w = w + 1;
            }
            g = g + 1;
        }
        w
    }

    /// The records of the recorded games; their frames move there.
    pub fn take_records(&mut self) -> (r: Vec<RecordedEvalGame<F>>)
        requires
            old(self).wf(),
        ensures
            r@.len() == old(self).recorded,
            forall|g: int|
                0 <= g < r@.len() ==> {
                    let game = old(self).games@[g];
                    &&& (#[trigger] r@[g]).frames@ == game.frames@
                    &&& r@[g].placements@ == placing::placed(
                        gens_of(
                            g,
                            old(self).n as nat,
                            old(self).net_gen,
                            old(self).opponent_gen,
                        ),
                        game.deaths@,
                    )
                    &&& r@[g].turns == game.board.turn
                    &&& match game.winner {
                        Some(w) => r@[g].winner == Some(w as i32),
                        None => r@[g].winner is None,
                    }
                },
    {
        let ghost before = *self;
        let n: usize = self.n;
        let mut r: Vec<RecordedEvalGame<F>> = Vec::new();
        let mut g: usize = 0;
        while g < self.recorded
            invariant
                g <= self.recorded,
                before == *old(self),
                before.wf(),
                n == before.n,
                self.n == before.n,
                self.recorded == before.recorded,
                self.net_gen == before.net_gen,
                self.opponent_gen == before.opponent_gen,
                self.games@.len() == before.games@.len(),
                forall|k: int|
                    g <= k < before.games@.len() ==> #[trigger] self.games@[k] == before.games@[k],
                r@.len() == g,
                forall|k: int|
                    0 <= k < g ==> {
                        let game = before.games@[k];
                        &&& (#[trigger] r@[k]).frames@ == game.frames@
                        &&& r@[k].placements@ == placing::placed(
                            gens_of(k, n as nat, before.net_gen, before.opponent_gen),
                            game.deaths@,
                        )
                        &&& r@[k].turns == game.board.turn
                        &&& match game.winner {
                            Some(w) => r@[k].winner == Some(w as i32),
                            None => r@[k].winner is None,
                        }
                    },
            decreases self.recorded - g,
        {
            let seat: usize = g % n;
            let mut gens: Vec<u32> = crate::arena::repeated(self.opponent_gen, n);
            assert(0 <= seat < n);
            gens[seat] = self.net_gen;
            assert(gens@ =~= gens_of(g as int, n as nat, before.net_gen, before.opponent_gen));
            assert(self.games@[g as int] == before.games@[g as int]);
            assert(before.games@[g as int].wf(n as nat));
            let rec = self.games[g].take_record(&gens);
            r.push(rec);
            g = g + 1;
        }
        r
    }
}

/// Recorded held-out games kept on disk.
pub const KEEP_EVAL_GAMES: usize = 64;

/// Whether a record is that of a recorded game.
pub open spec fn records_eval<F>(
    m: MatchRecord<F>,
    game: RecordedEvalGame<F>,
    seq: int,
    sims: u32,
    now_ms: i64,
    zero: F,
) -> bool {
    &&& m.seq == seq
    &&& m.placements@ == game.placements@
    &&& m.turns == game.turns
    &&& m.sims == sims
    &&& m.wall_seconds == zero
    &&& m.finished_unix_ms == now_ms
}

/// The records of recorded games, numbered on from the history.
pub fn eval_records<F: Copy>(
    history: &Vec<MatchRecord<F>>,
    games: &Vec<RecordedEvalGame<F>>,
    sims: u32,
    now_ms: i64,
    zero: F,
) -> (r: Vec<MatchRecord<F>>)
    requires
        forall|i: int|
            0 <= i < history@.len() ==> (#[trigger] history@[i]).seq < u64::MAX
                - games@.len(),
    ensures
        r@.len() == games@.len(),
        forall|i: int|
            0 <= i < games@.len() ==> records_eval(
                #[trigger] r@[i],
                games@[i],
                league::next_number(history@) + i,
                sims,
                now_ms,
                zero,
            ),
        forall|i: int|
            0 <= i < games@.len() ==> {
                let (m, game) = (#[trigger] r@[i], games@[i]);
                &&& m.placements@ == game.placements@
                &&& m.turns == game.turns
                &&& m.sims == sims
                &&& m.finished_unix_ms == now_ms
            },
        forall|i: int, k: int|
            0 <= i < games@.len() && 0 <= k < history@.len() ==> (#[trigger] r@[i]).seq > (
            #[trigger] history@[k]).seq,
        forall|i: int, j: int|
            0 <= i < j < games@.len() ==> (#[trigger] r@[j]).seq - (#[trigger] r@[i]).seq == j - i,
{
    proof {
        league::the_next_number_is_new(history@);
    }
    let mut r: Vec<MatchRecord<F>> = Vec::new();
    if games.len() == 0 {
        return r;
    }
    let first: u64 = league::next_seq(history);
    proof {
        lemma_next_number(history@, u64::MAX - games@.len());
    }
    let mut i: usize = 0;
    while i < games.len()
        invariant
            i <= games@.len(),
            first == league::next_number(history@),
            first + games@.len() <= u64::MAX,
            r@.len() == i,
            forall|k: int|
                0 <= k < i ==> records_eval(
                    #[trigger] r@[k],
                    games@[k],
                    first + k,
                    sims,
                    now_ms,
                    zero,
                ),
        decreases games@.len() - i,
    {
        r.push(
            MatchRecord {
                seq: first + i as u64,
                placements: burst::copy_placements(&games[i].placements),
                turns: games[i].turns,
                sims,
                wall_seconds: zero,
                finished_unix_ms: now_ms,
            },
        );
        i = i + 1;
    }
    r
}

proof fn lemma_next_number<F>(history: Seq<MatchRecord<F>>, max: int)
    requires
        max >= 0,
        forall|i: int| 0 <= i < history.len() ==> (#[trigger] history[i]).seq < max,
    ensures
        league::next_number(history) <= max,
    decreases history.len(),
{
    if history.len() > 0 {
        let t = history.drop_last();
        assert(history.last() == history[history.len() - 1]);
        assert forall|i: int| 0 <= i < t.len() implies (#[trigger] t[i]).seq < max by {
            assert(t[i] == history[i]);
        }
        lemma_next_number(t, max);
    }
}

/// The player in seat `s`: the last placement of the seat tells.
pub open spec fn player_in(ps: Seq<Placement>, s: int) -> u32
    decreases ps.len(),
{
    if ps.len() == 0 {
        0
    } else if ps.last().seat == s {
        ps.last().gen
    } else {
        player_in(ps.drop_last(), s)
    }
}

/// The players of a game in seat order, from its placements; a seat without a
/// placement is player zero's.
pub fn players_by_seat(ps: &Vec<Placement>) -> (r: Vec<u32>)
    ensures
        r@ == Seq::new(ps@.len(), |s: int| player_in(ps@, s)),
{
    let n: usize = ps.len();
    let mut r: Vec<u32> = crate::arena::repeated(0, n);
    let mut i: usize = 0;
    assert(r@ =~= Seq::new(n as nat, |s: int| player_in(ps@.take(0), s)));
    while i < n
        invariant
            i <= n,
            n == ps@.len(),
            r@ == Seq::new(n as nat, |s: int| player_in(ps@.take(i as int), s)),
        decreases n - i,
    {
        assert(ps@.take(i + 1).drop_last() =~= ps@.take(i as int));
        let p = ps[i];
        if (p.seat as usize) < n {
            r[p.seat as usize] = p.gen;
        }
        i = i + 1;
        assert(r@ =~= Seq::new(n as nat, |s: int| player_in(ps@.take(i as int), s)));
    }
    assert(ps@.take(i as int) =~= ps@);
    r
}

/// The sort keys of recorded games, oldest first.
pub open spec fn oldest_first(names: Seq<Vec<char>>, files: Seq<usize>) -> Seq<u64> {
    files.map_values(|i: usize| league::game_seq(names[i as int]@).unwrap() as u64)
}

/// Which files to delete so that the newest `keep` recorded games stay; other
/// files are never touched.
pub fn prune_eval_game_files(names: &Vec<Vec<char>>, keep: usize) -> (gone: Vec<usize>)
    ensures
        exists|e: Seq<usize>| #[trigger]
            lists::is_excess(
                oldest_first(names@, league::game_files(names@)),
                keep as nat,
                e,
            ) && gone@ == e.map_values(|j: usize| league::game_files(names@)[j as int]),
{
    let ghost is_game = |i: int| league::game_seq(names@[i]@) is Some;
    let mut files: Vec<usize> = Vec::new();
    let mut keys: Vec<u64> = Vec::new();
    let mut i: usize = 0;
    assert(oldest_first(names@, files@) =~= keys@);
    while i < names.len()
        invariant
            i <= names@.len(),
            is_game == (|i: int| league::game_seq(names@[i]@) is Some),
            files@ == lists::indices_where(i as nat, is_game),
            keys@ == oldest_first(names@, files@),
        decreases names@.len() - i,
    {
        let parsed: Option<u64> = league::parse_between(&names[i], "game_", ".json", u64::MAX);
        match parsed {
            Some(seq) => {
                assert(is_game(i as int));
                files.push(i);
                keys.push(seq);
                assert(keys@ =~= oldest_first(names@, files@));
            },
            None => {
                assert(!is_game(i as int));
            },
        }
        i = i + 1;
    }
    let e = lists::excess(&keys, keep);
    proof {
        lists::excess_keeps_the_largest(keys@, keep as nat, e@);
    }
    let mut gone: Vec<usize> = Vec::new();
    let mut j: usize = 0;
    while j < e.len()
        invariant
            j <= e@.len(),
            files@ == league::game_files(names@),
            forall|k: int| 0 <= k < e@.len() ==> #[trigger] e@[k] < files@.len(),
            gone@ == e@.take(j as int).map_values(|j: usize| files@[j as int]),
        decreases e@.len() - j,
    {
        gone.push(files[e[j]]);
        j = j + 1;
        assert(gone@ =~= e@.take(j as int).map_values(|j: usize| files@[j as int]));
    }
    assert(e@.take(j as int) =~= e@);
    gone
}

/// Over whole rounds of games the net plays every seat equally often.
pub proof fn seats_are_tried_evenly(n: nat, rounds: nat, s: int)
    requires
        0 <= s < n,
    ensures
        lists::count_where(n * rounds, |g: int| seat_of_net(g, n) == s) == rounds,
    decreases rounds,
{
    let at = |g: int| seat_of_net(g, n) == s;
    if rounds > 0 {
        let m = (n * (rounds - 1)) as nat;
        seats_are_tried_evenly(n, (rounds - 1) as nat, s);
        assert(m + n == n * rounds) by (nonlinear_arith)
            requires
                m == n * (rounds - 1),
        ;
        lemma_round(n, m, (rounds - 1) as nat, s, n);
    } else {
        assert(n * rounds == 0) by (nonlinear_arith)
            requires
                rounds == 0,
        ;
    }
}

proof fn lemma_round(n: nat, m: nat, q: nat, s: int, k: nat)
    requires
        0 <= s < n,
        m == n * q,
        k <= n,
    ensures
        lists::count_where(m + k, |g: int| seat_of_net(g, n) == s) == lists::count_where(
            m,
            |g: int| seat_of_net(g, n) == s,
        ) + if k > s {
            1nat
        } else {
            0nat
        },
    decreases k,
{
    if k > 0 {
        lemma_round(n, m, q, s, (k - 1) as nat);
        let at = |g: int| seat_of_net(g, n) == s;
        let g = m + k - 1;
        assert(g % (n as int) == k - 1) by (nonlinear_arith)
            requires
                g == n * q + (k - 1),
                0 <= k - 1 < n,
        ;
        assert(at(g) == (k - 1 == s));
    }
}

/// A held-out game is won exactly if it is done and the net's seat, which is the
/// game's number counted round the table, is the sole survivor.
pub proof fn the_nets_seat_wins<F>(h: &HeldOut<F>, g: int)
    requires
        0 <= g < h.games@.len(),
        h.n > 0,
    ensures
        h.is_won(g) <==> h.games@[g].done && h.games@[g].winner == Some((g % (h.n as int)) as usize),
        forall|s: int|
            #![trigger gens_of(g, h.n as nat, h.net_gen, h.opponent_gen)[s]]
            0 <= s < h.n ==> gens_of(g, h.n as nat, h.net_gen, h.opponent_gen)[s] == if s == g % (
            h.n as int) {
                h.net_gen
            } else {
                h.opponent_gen
            },
{
}

/// The player of a seat is the one that was placed there.
pub proof fn players_sit_where_they_were_placed(ps: Seq<Placement>, k: int)
    requires
        0 <= k < ps.len(),
        forall|j: int| k < j < ps.len() ==> (#[trigger] ps[j]).seat != ps[k].seat,
    ensures
        player_in(ps, ps[k].seat as int) == ps[k].gen,
    decreases ps.len(),
{
    if k < ps.len() - 1 {
        assert(ps[ps.len() - 1].seat != ps[k].seat);
        players_sit_where_they_were_placed(ps.drop_last(), k);
    }
}

} // verus!
