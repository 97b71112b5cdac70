//! Head-to-head matches between two nets, A and B.
//!
//! The seats are split by parity, and the split is exchanged from game to
//! game, so that neither net gains by where it sits.

use vstd::prelude::*;

use crate::arena;
use crate::board::{Board, Move};
use crate::bouts::{self, EvalGame, Readout, RecordedEvalGame, Step};
use crate::lists;
use crate::placing;
use crate::rules;
use crate::sample;

verus! {

/// Whether net B owns seat `s` in game `g`.
pub open spec fn is_bs(g: int, s: int) -> bool {
    (s % 2 == 0) == (g % 2 == 0)
}

/// Whether net B owns seat `s` in game `g`.
pub fn b_owns(g: usize, s: usize) -> (r: bool)
    ensures
        r == is_bs(g as int, s as int),
        r <==> (g as int + s as int) % 2 == 0,
{
    (s % 2 == 0) == (g % 2 == 0)
}

/// Over an even number of games each net owns every seat equally often.
pub proof fn nets_share_each_seat(pairs: nat, s: int)
    requires
        s >= 0,
    ensures
        lists::count_where(2 * pairs, |g: int| is_bs(g, s)) == pairs,
        lists::count_where(2 * pairs, |g: int| !is_bs(g, s)) == pairs,
    decreases pairs,
{
    let b = |g: int| is_bs(g, s);
    let a = |g: int| !is_bs(g, s);
    if pairs > 0 {
        nets_share_each_seat((pairs - 1) as nat, s);
        let m = 2 * pairs - 2;
        assert(m % 2 == 0 && (m + 1) % 2 == 1);
        assert(b(m) == (s % 2 == 0) && b(m + 1) == (s % 2 != 0));
        assert(a(m) == !b(m) && a(m + 1) == !b(m + 1));
        assert(lists::count_where((m + 1) as nat, b) == lists::count_where(m as nat, b) + if b(m) {
            1nat
        } else {
            0nat
        });
        assert(lists::count_where((m + 1) as nat, a) == lists::count_where(m as nat, a) + if a(m) {
            1nat
        } else {
            0nat
        });
    }
}

/// In a game with an even number of seats each net owns half of them.
pub proof fn nets_share_each_game(pairs: nat, g: int)
    requires
        g >= 0,
    ensures
        lists::count_where(2 * pairs, |s: int| is_bs(g, s)) == pairs,
    decreases pairs,
{
    let b = |s: int| is_bs(g, s);
    if pairs > 0 {
        nets_share_each_game((pairs - 1) as nat, g);
        let m = 2 * pairs - 2;
        assert(m % 2 == 0 && (m + 1) % 2 == 1);
        assert(b(m) == (g % 2 == 0) && b(m + 1) == (g % 2 != 0));
        assert(lists::count_where((m + 1) as nat, b) == lists::count_where(m as nat, b) + if b(m) {
            1nat
        } else {
            0nat
        });
    }
}

/// A match.
pub struct H2hMatch<F> {
    /// Seats per game.
    pub n: usize,
    pub gen_a: u32,
    pub gen_b: u32,
    /// How many games are recorded, from the first on.
    pub recorded: usize,
    pub games: Vec<EvalGame<F>>,
    /// Games with a seat of net A, of net B and with nobody as the sole
    /// survivor.
    pub a_wins: usize,
    pub b_wins: usize,
    pub draws: usize,
}

/// The result of a match.
pub struct H2hOutcome<F> {
    pub a_wins: usize,
    pub b_wins: usize,
    pub draws: usize,
    pub recorded: Vec<RecordedEvalGame<F>>,
}

/// Who plays the seats of game `g`.
pub open spec fn gens_of(g: int, n: nat, gen_a: u32, gen_b: u32) -> Seq<u32> {
    Seq::new(
        n,
        |s: int|
            if is_bs(g, s) {
                gen_b
            } else {
                gen_a
            },
    )
}

/// Whether game `g` is done with a seat of net A as its sole survivor.
pub open spec fn won_by_a<F>(games: Seq<EvalGame<F>>, g: int) -> bool {
    games[g].done && (games[g].winner matches Some(w) && !is_bs(g, w as int))
}

/// Whether game `g` is done with a seat of net B as its sole survivor.
pub open spec fn won_by_b<F>(games: Seq<EvalGame<F>>, g: int) -> bool {
    games[g].done && (games[g].winner matches Some(w) && is_bs(g, w as int))
}

/// Whether game `g` is done with nobody as its sole survivor.
pub open spec fn is_drawn<F>(games: Seq<EvalGame<F>>, g: int) -> bool {
    games[g].done && games[g].winner is None
}

impl<F> H2hMatch<F> {
    /// Whether every game is sound and every finished one is counted, for the
    /// owner of its sole survivor's seat or as a draw.
    pub open spec fn wf(&self) -> bool {
        &&& 0 < self.n <= i32::MAX
        &&& self.recorded <= self.games@.len()
        &&& forall|g: int| 0 <= g < self.games@.len() ==> (#[trigger] self.games@[g]).wf(self.n as nat)
        &&& forall|g: int|
            0 <= g < self.games@.len() && (#[trigger] self.games@[g]).winner is Some
                ==> self.games@[g].winner->0 < self.n
        &&& self.a_wins == lists::count_where(
            self.games@.len(),
            |g: int| won_by_a(self.games@, g),
        )
        &&& self.b_wins == lists::count_where(
            self.games@.len(),
            |g: int| won_by_b(self.games@, g),
        )
        &&& self.draws == lists::count_where(
            self.games@.len(),
            |g: int| is_drawn(self.games@, g),
        )
    }
}

/// The three kinds of finished games are no more than the games, and all of
/// them where every game is done.
proof fn lemma_counts<F>(games: Seq<EvalGame<F>>, k: nat)
    requires
        k <= games.len(),
    ensures
        ({
            let c = lists::count_where(k, |g: int| won_by_a(games, g)) + lists::count_where(
                k,
                |g: int| won_by_b(games, g),
            ) + lists::count_where(k, |g: int| is_drawn(games, g));
            &&& c <= k
            &&& (forall|g: int| 0 <= g < k ==> (#[trigger] games[g]).done) ==> c == k
            &&& (forall|g: int| 0 <= g < k ==> !(#[trigger] games[g]).done) ==> c == 0
        }),
    decreases k,
{
    if k > 0 {
        lemma_counts(games, (k - 1) as nat);
        let g = k - 1;
        assert(games[g].done || !games[g].done);
        let (a, b, d) = (
            |g: int| won_by_a(games, g),
            |g: int| won_by_b(games, g),
            |g: int| is_drawn(games, g),
        );
        assert(a(g) == won_by_a(games, g) && b(g) == won_by_b(games, g) && d(g) == is_drawn(
            games,
            g,
        ));
    }
}

/// When all games are done, the two nets' wins and the draws add up to them.
pub proof fn every_game_is_counted<F>(m: H2hMatch<F>)
    requires
        m.wf(),
        forall|g: int| 0 <= g < m.games@.len() ==> (#[trigger] m.games@[g]).done,
    ensures
        m.a_wins + m.b_wins + m.draws == m.games@.len(),
{
    lemma_counts(m.games@, m.games@.len());
}

/// The turn of a game as its owners play it: what a living seat's owner says,
/// all on the owner's move; nothing for a dead one.
pub open spec fn is_owned<F>(
    r: Readout<F>,
    board: &Board,
    g: int,
    n: nat,
    a: &Readout<F>,
    b: &Readout<F>,
    zero: F,
    one: F,
) -> bool {
    &&& r.policy@.len() == n * 4
    &&& r.values@.len() == n
    &&& r.plays@.len() == n
    &&& r.moves@.len() == n
    &&& forall|s: int|
        0 <= s < n ==> {
            let owner = if is_bs(g, s) {
                b
            } else {
                a
            };
            let alive = board.seat_alive(s);
            &&& #[trigger] r.moves@[s] == if alive {
                owner.moves@[s]
            } else {
                Move::Up
            }
            &&& r.policy@.subrange(s * 4, s * 4 + 4) == if alive {
                owner.policy@.subrange(s * 4, s * 4 + 4)
            } else {
                seq![zero, zero, zero, zero]
            }
            &&& r.values@[s] == if alive {
                owner.values@[s]
            } else {
                zero
            }
            &&& r.plays@[s]@ == if alive {
                bouts::one_hot(owner.moves@[s], zero, one)
            } else {
                seq![zero, zero, zero, zero]
            }
        }
}

impl<F: Copy> H2hMatch<F> {
    /// A match from the given starts.
    pub fn new(
        boards: Vec<Board>,
        n: usize,
        gen_a: u32,
        gen_b: u32,
        record_games: usize,
    ) -> (m: H2hMatch<F>)
        requires
            0 < n <= i32::MAX,
            forall|g: int|
                0 <= g < boards@.len() ==> (#[trigger] boards@[g]).snakes@.len() == n
                    && bouts::all_alive(&boards@[g]),
        ensures
            m.wf(),
            m.n == n,
            m.gen_a == gen_a,
            m.gen_b == gen_b,
            m.a_wins == 0,
            m.b_wins == 0,
            m.draws == 0,
            m.recorded == if record_games < boards@.len() {
                record_games as int
            } else {
                boards@.len() as int
            },
            m.games@.len() == boards@.len(),
            forall|g: int|
                0 <= g < boards@.len() ==> (#[trigger] m.games@[g]).board == boards@[g]
                    && !m.games@[g].done && m.games@[g].frames@.len() == 0,
    {
        let ghost all = boards@;
        let mut boards = boards;
        let total: usize = boards.len();
        let mut games: Vec<EvalGame<F>> = Vec::new();
        while boards.len() > 0
            invariant
                total == all.len(),
                games@.len() + boards@.len() == total,
                boards@ == all.skip(games@.len() as int),
                forall|g: int|
                    0 <= g < all.len() ==> (#[trigger] all[g]).snakes@.len() == n
                        && bouts::all_alive(&all[g]),
                forall|g: int|
                    0 <= g < games@.len() ==> (#[trigger] games@[g]).board == all[g]
                        && !games@[g].done && games@[g].frames@.len() == 0 && games@[g].wf(
                        n as nat,
                    ) && games@[g].winner is None,
            decreases boards@.len(),
        {
            let ghost k = games@.len() as int;
            assert(boards@[0] == all[k]);
            let b = boards.remove(0);
            assert(bouts::all_alive(&all[k]));
            games.push(EvalGame::new(b));
            assert(boards@ =~= all.skip(k + 1));
        }
        proof {
            lemma_counts(games@, games@.len());
        }
        H2hMatch {
            n,
            gen_a,
            gen_b,
            recorded: if record_games < total {
                record_games
            } else {
                total
            },
            games,
            a_wins: 0,
            b_wins: 0,
            draws: 0,
        }
    }

    /// The games that are still being played.
    pub fn live(&self) -> (r: Vec<usize>)
        ensures
            r@ == bouts::running(self.games@),
            r@.len() == 0 <==> forall|g: int|
                0 <= g < self.games@.len() ==> (#[trigger] self.games@[g]).done,
    {
        bouts::live_games(&self.games)
    }

    /// The turn of game `g` as its owners play it, from the two nets' searches
    /// of the position.
    pub fn owned(&self, g: usize, a: &Readout<F>, b: &Readout<F>, zero: F, one: F) -> (r: Readout<F>)
        requires
            self.wf(),
            g < self.games@.len(),
            a.covers(self.n as nat),
            b.covers(self.n as nat),
        ensures
            is_owned(
                r,
                &self.games@[g as int].board,
                g as int,
                self.n as nat,
                a,
                b,
                zero,
                one,
            ),
            r.covers(self.n as nat),
            forall|s: int|
                0 <= s < self.n && self.games@[g as int].board.snakes@[s].eliminated is None
                    ==> #[trigger] r.moves@[s] == if (g + s) % 2 == 0 {
                    b.moves@[s]
                } else {
                    a.moves@[s]
                },
    {
        let n: usize = self.n;
        let mut policy: Vec<F> = Vec::new();
        let mut values: Vec<F> = Vec::new();
        let mut plays: Vec<Vec<F>> = Vec::new();
        let mut moves: Vec<Move> = Vec::new();
        let rows: usize = a.policy.len();
        let rows_b: usize = b.policy.len();
        let ghost board = self.games@[g as int].board;
        let mut s: usize = 0;
        while s < n
            invariant
                s <= n,
                n == self.n,
                self.wf(),
                g < self.games@.len(),
                board == self.games@[g as int].board,
                a.covers(n as nat),
                b.covers(n as nat),
                rows == a.policy@.len(),
                rows_b == b.policy@.len(),
                policy@.len() == s * 4,
                values@.len() == s,
                plays@.len() == s,
                moves@.len() == s,
                forall|k: int|
                    0 <= k < s ==> {
                        let owner = if is_bs(g as int, k) {
                            b
                        } else {
                            a
                        };
                        let alive = board.seat_alive(k);
                        &&& #[trigger] moves@[k] == if alive {
                            owner.moves@[k]
                        } else {
                            Move::Up
                        }
                        &&& policy@.subrange(k * 4, k * 4 + 4) == if alive {
                            owner.policy@.subrange(k * 4, k * 4 + 4)
                        } else {
                            seq![zero, zero, zero, zero]
                        }
                        &&& values@[k] == if alive {
                            owner.values@[k]
                        } else {
                            zero
                        }
                        &&& plays@[k]@ == if alive {
                            bouts::one_hot(owner.moves@[k], zero, one)
                        } else {
                            seq![zero, zero, zero, zero]
                        }
                    },
            decreases n - s,
        {
            assert(self.games@[g as int].wf(n as nat));
            let ghost before = policy@;
            let owner = if b_owns(g, s) {
                b
            } else {
                a
            };
            let mut four: Vec<F>;
            if self.games[g].board.snakes[s].alive() {
                let m = owner.moves[s];
                four = sample::copy_slice(&owner.policy, s * 4, 4);
                values.push(owner.values[s]);
                plays.push(bouts::sure_of(m, zero, one));
                moves.push(m);
            } else {
                four = arena::repeated(zero, 4);
                let p = arena::repeated(zero, 4);
                assert(p@ =~= seq![zero, zero, zero, zero]);
                assert(four@ =~= seq![zero, zero, zero, zero]);
                values.push(zero);
                plays.push(p);
                moves.push(Move::Up);
            }
            let ghost f = four@;
            policy.append(&mut four);
            assert(policy@ =~= before + f);
            proof {
                assert(policy@.subrange(s * 4, s * 4 + 4) =~= f);
                assert forall|k: int| 0 <= k < s implies #[trigger] policy@.subrange(
                    k * 4,
                    k * 4 + 4,
                ) == before.subrange(k * 4, k * 4 + 4) by {
                    assert(policy@.subrange(k * 4, k * 4 + 4) =~= before.subrange(
                        k * 4,
                        k * 4 + 4,
                    ));
                }
            }
            s = s + 1;
        }
        Readout { policy, values, plays, moves }
    }

    /// Plays a turn of game `g`; a game that is over counts for the owner of
    /// its sole survivor's seat, or as a draw.
    pub fn play_turn(&mut self, g: usize, readout: &Readout<F>, step: Step, zero: F) -> (done: bool)
        requires
            old(self).wf(),
            g < old(self).games@.len(),
            !old(self).games@[g as int].done,
            bouts::can_follow(&old(self).games@[g as int].board, &step.board),
            readout.covers(old(self).n as nat),
            step.winner matches Some(w) ==> w < old(self).n,
        ensures
            final(self).wf(),
            final(self).n == old(self).n,
            final(self).gen_a == old(self).gen_a,
            final(self).gen_b == old(self).gen_b,
            final(self).recorded == old(self).recorded,
            final(self).games@.len() == old(self).games@.len(),
            forall|k: int|
                0 <= k < old(self).games@.len() && k != g ==> final(self).games@[k] == old(
                    self,
                ).games@[k],
            done == step.over,
            ({
                let (a, b) = (old(self).games@[g as int], final(self).games@[g as int]);
                let bs = step.winner matches Some(w) && is_bs(g as int, w as int);
                &&& b.board == step.board
                &&& b.deaths@ == arena::deaths_noted(a.deaths@, &step.board, step.board.turn)
                &&& b.winner == step.winner
                &&& b.done == step.over
                &&& final(self).b_wins == old(self).b_wins + if step.over && bs {
                    1int
                } else {
                    0
                }
                &&& final(self).a_wins == old(self).a_wins + if step.over && step.winner is Some
                    && !bs {
                    1int
                } else {
                    0
                }
                &&& final(self).draws == old(self).draws + if step.over && step.winner is None {
                    1int
                } else {
                    0
                }
                &&& bouts::recorded_turn(
                    a.frames@,
                    b.frames@,
                    &a.board,
                    &step.board,
                    readout,
                    step.over,
                    g < old(self).recorded,
                    zero,
                )
            }),
    {
        let ghost before = *self;
        let n: usize = self.n;
        let total: usize = self.games.len();
        assert(self.games@[g as int].wf(n as nat));
        let winner = step.winner;
        let recorded = g < self.recorded;
        let done = self.games[g].advance(readout, step, None, recorded, zero);
        proof {
            let (x, y) = (before.games@, self.games@);
            lists::lemma_count_change(
                total as nat,
                |k: int| won_by_a(x, k),
                |k: int| won_by_a(y, k),
                g as int,
            );
            lists::lemma_count_change(
                total as nat,
                |k: int| won_by_b(x, k),
                |k: int| won_by_b(y, k),
                g as int,
            );
            lists::lemma_count_change(
                total as nat,
                |k: int| is_drawn(x, k),
                |k: int| is_drawn(y, k),
                g as int,
            );
            lemma_counts(y, total as nat);
        }
        if done {
            match winner {
                Some(w) => {
                    if b_owns(g, w) {
                        self.b_wins = self.b_wins + 1;
                    } else {
                        self.a_wins = self.a_wins + 1;
                    }
                },
                None => {
                    self.draws = self.draws + 1;
                },
            }
        }
        proof {
            let a = self.games@;
            assert forall|k: int| 0 <= k < a.len() implies (#[trigger] a[k]).wf(n as nat) by {
                if k != g {
                    assert(a[k] == before.games@[k]);
                }
            }
            assert forall|k: int|
                0 <= k < a.len() && (#[trigger] a[k]).winner is Some implies a[k].winner->0 < n by {
                if k != g {
                    assert(a[k] == before.games@[k]);
                }
            }
        }
        done
    }

    /// The result of the match; the recorded games' frames move there.
    pub fn take_outcome(&mut self) -> (o: H2hOutcome<F>)
        requires
            old(self).wf(),
        ensures
            o.a_wins == old(self).a_wins,
            o.b_wins == old(self).b_wins,
            o.draws == old(self).draws,
            o.recorded@.len() == old(self).recorded,
            forall|g: int|
                0 <= g < o.recorded@.len() ==> {
                    let game = old(self).games@[g];
                    let r = #[trigger] o.recorded@[g];
                    &&& r.frames@ == game.frames@
                    &&& r.placements@ == placing::placed(
                        gens_of(g, old(self).n as nat, old(self).gen_a, old(self).gen_b),
                        game.deaths@,
                    )
                    &&& r.turns == game.board.turn
                    &&& match game.winner {
                        Some(w) => r.winner == Some(w as i32),
                        None => r.winner is None,
                    }
                },
    {
        let ghost before = *self;
        let n: usize = self.n;
        let (a, b): (u32, u32) = (self.gen_a, self.gen_b);
        let mut r: Vec<RecordedEvalGame<F>> = Vec::new();
        let mut g: usize = 0;
        while g < self.recorded
            invariant
                g <= self.recorded,
                before == *old(self),
                before.wf(),
                n == before.n,
                a == before.gen_a,
                b == before.gen_b,
                self.a_wins == before.a_wins,
                self.b_wins == before.b_wins,
                self.draws == before.draws,
                self.recorded == before.recorded,
                self.games@.len() == before.games@.len(),
                forall|k: int|
                    g <= k < before.games@.len() ==> #[trigger] self.games@[k] == before.games@[k],
                r@.len() == g,
                forall|k: int|
                    0 <= k < g ==> {
                        let game = before.games@[k];
                        let x = #[trigger] r@[k];
                        &&& x.frames@ == game.frames@
                        &&& x.placements@ == placing::placed(
                            gens_of(k, n as nat, a, b),
                            game.deaths@,
                        )
                        &&& x.turns == game.board.turn
                        &&& match game.winner {
                            Some(w) => x.winner == Some(w as i32),
                            None => x.winner is None,
                        }
                    },
            decreases self.recorded - g,
        {
            let mut gens: Vec<u32> = Vec::new();
            let mut s: usize = 0;
            while s < n
                invariant
                    s <= n,
                    gens@ == gens_of(g as int, s as nat, a, b),
                decreases n - s,
            {
                gens.push(
                    if b_owns(g, s) {
                        b
                    } else {
                        a
                    },
                );
                s = s + 1;
                assert(gens@ =~= gens_of(g as int, s as nat, a, b));
            }
            assert(self.games@[g as int] == before.games@[g as int]);
            assert(before.games@[g as int].wf(n as nat));
            let rec = self.games[g].take_record(&gens);
            r.push(rec);
            g = g + 1;
        }
        H2hOutcome { a_wins: self.a_wins, b_wins: self.b_wins, draws: self.draws, recorded: r }
    }
}

/// Who won a game that is done: the net whose seat survived alone. The second net
/// has the seats that are even with the game's number, the first one the odd ones;
/// without a survivor nobody won.
pub proof fn games_go_to_the_seats_owner<F>(games: Seq<EvalGame<F>>, g: int, w: usize)
    requires
        0 <= g < games.len(),
    ensures
        games[g].done && games[g].winner == Some(w) ==> {
            &&& won_by_b(games, g) <==> (g + w) % 2 == 0
            &&& won_by_a(games, g) <==> (g + w) % 2 == 1
            &&& !is_drawn(games, g)
        },
        games[g].done && games[g].winner is None ==> is_drawn(games, g) && !won_by_a(games, g)
            && !won_by_b(games, g),
        !games[g].done ==> !won_by_a(games, g) && !won_by_b(games, g) && !is_drawn(games, g),
{
}

/// Each net moves its own seats: a living seat that is even with the game's number
/// plays, values and records what the second net says of it, a living odd one what
/// the first net says; the sure policy stands at the move that is played and
/// nowhere else.
pub proof fn nets_move_their_own_seats<F>(
    r: Readout<F>,
    board: &Board,
    g: int,
    n: nat,
    a: &Readout<F>,
    b: &Readout<F>,
    zero: F,
    one: F,
    s: int,
)
    requires
        is_owned(r, board, g, n, a, b, zero, one),
        a.covers(n),
        b.covers(n),
        0 <= s < n,
        board.snakes@[s].eliminated is None,
    ensures
        (g + s) % 2 == 0 ==> r.moves@[s] == b.moves@[s] && r.values@[s] == b.values@[s],
        (g + s) % 2 == 1 ==> r.moves@[s] == a.moves@[s] && r.values@[s] == a.values@[s],
        forall|m: int|
            0 <= m < 4 ==> #[trigger] r.policy@[s * 4 + m] == if (g + s) % 2 == 0 {
                b.policy@[s * 4 + m]
            } else {
                a.policy@[s * 4 + m]
            },
        forall|m: int|
            0 <= m < 4 ==> #[trigger] r.plays@[s]@[m] == if rules::nth_move(m) == r.moves@[s] {
                one
            } else {
                zero
            },
{
    assert(r.moves@[s] == r.moves@[s]);
    assert forall|m: int| 0 <= m < 4 implies #[trigger] r.policy@[s * 4 + m] == if (g + s) % 2
        == 0 {
        b.policy@[s * 4 + m]
    } else {
        a.policy@[s * 4 + m]
    } by {
        assert(r.policy@.subrange(s * 4, s * 4 + 4)[m] == r.policy@[s * 4 + m]);
        assert(a.policy@.subrange(s * 4, s * 4 + 4)[m] == a.policy@[s * 4 + m]);
        assert(b.policy@.subrange(s * 4, s * 4 + 4)[m] == b.policy@[s * 4 + m]);
    }
}

} // verus!
