//! The league games in flight, as watchers see them.
//!
//! `P` is what is shown of the players and `V` a picture of the board.

use vstd::prelude::*;

verus! {

/// A game in flight.
pub struct LiveGame<P, V> {
    pub seq: u64,
    pub turn: u32,
    pub players: P,
    /// The latest picture of the board.
    pub frame: Option<V>,
}

/// The league at this moment.
pub struct LiveEval<P, V> {
    /// The league is enabled and its slots are running.
    pub active: bool,
    /// The games in flight, by number.
    pub games: Vec<LiveGame<P, V>>,
    pub updated_unix_ms: i64,
}

/// Whether games are in the order of their numbers.
pub open spec fn in_order<P, V>(games: Seq<LiveGame<P, V>>) -> bool {
    forall|i: int, j: int|
        0 <= i < j < games.len() ==> (#[trigger] games[i]).seq <= (#[trigger] games[j]).seq
}

/// How many games have a number up to `seq`.
pub open spec fn up_to<P, V>(games: Seq<LiveGame<P, V>>, seq: u64) -> nat
    decreases games.len(),
{
    if games.len() == 0 {
        0
    } else {
        up_to(games.drop_last(), seq) + if games.last().seq <= seq {
            1nat
        } else {
            0nat
        }
    }
}

/// The place of the first game with number `seq`.
pub open spec fn place_of<P, V>(games: Seq<LiveGame<P, V>>, seq: u64) -> Option<int>
    decreases games.len(),
{
    if games.len() == 0 {
        None
    } else {
        match place_of(games.drop_last(), seq) {
            Some(i) => Some(i),
            None => if games.last().seq == seq {
                Some(games.len() - 1)
            } else {
                None
            },
        }
    }
}

/// The games with another number than `seq`.
pub open spec fn without<P, V>(games: Seq<LiveGame<P, V>>, seq: u64) -> Seq<LiveGame<P, V>>
    decreases games.len(),
{
    if games.len() == 0 {
        games
    } else {
        let rest = without(games.drop_last(), seq);
        if games.last().seq == seq {
            rest
        } else {
            rest.push(games.last())
        }
    }
}

proof fn lemma_up_to<P, V>(games: Seq<LiveGame<P, V>>, seq: u64, at: int)
    requires
        0 <= at <= games.len(),
        forall|k: int| 0 <= k < at ==> (#[trigger] games[k]).seq <= seq,
        forall|k: int| at <= k < games.len() ==> (#[trigger] games[k]).seq > seq,
    ensures
        up_to(games, seq) == at,
    decreases games.len(),
{
    if games.len() > 0 {
        let t = games.drop_last();
        assert(games.last() == games[games.len() - 1]);
        if at == games.len() {
            lemma_up_to(t, seq, at - 1);
        } else {
            lemma_up_to(t, seq, at);
        }
    }
}

proof fn lemma_without<P, V>(games: Seq<LiveGame<P, V>>, seq: u64)
    requires
        in_order(games),
    ensures
        in_order(without(games, seq)),
        forall|k: int|
            0 <= k < without(games, seq).len() ==> (#[trigger] without(games, seq)[k]).seq != seq,
        games.len() > 0 && without(games, seq).len() > 0 ==> without(games, seq).last().seq
            <= games.last().seq,
    decreases games.len(),
{
    if games.len() > 0 {
        let t = games.drop_last();
        lemma_without(t, seq);
        if t.len() > 0 {
            assert(t.last() == games[games.len() - 2]);
            assert(games[games.len() - 2].seq <= games[games.len() - 1].seq);
        }
        let w = without(t, seq);
        assert forall|i: int, j: int|
            0 <= i < j < without(games, seq).len() implies (#[trigger] without(games, seq)[i]).seq
            <= (#[trigger] without(games, seq)[j]).seq by {
            if j == w.len() {
                assert(w[i].seq <= w[w.len() - 1].seq);
            }
        }
    } else {
        assert(without(games, seq) =~= games);
    }
}

/// A game that begins is put behind every game of the same or a lower number, and
/// before all others; games of a number are found at the first place that has it,
/// and ending a number leaves exactly the others, in their order.
pub proof fn live_games_go_by_number<P, V>(games: Seq<LiveGame<P, V>>, seq: u64)
    requires
        in_order(games),
    ensures
        up_to(games, seq) <= games.len(),
        forall|k: int| 0 <= k < up_to(games, seq) ==> (#[trigger] games[k]).seq <= seq,
        forall|k: int| up_to(games, seq) <= k < games.len() ==> (#[trigger] games[k]).seq > seq,
        match place_of(games, seq) {
            Some(i) => 0 <= i < games.len() && games[i].seq == seq && forall|k: int|
                0 <= k < i ==> (#[trigger] games[k]).seq != seq,
            None => forall|k: int| 0 <= k < games.len() ==> (#[trigger] games[k]).seq != seq,
        },
        without(games, seq) == games.filter(|g: LiveGame<P, V>| g.seq != seq),
    decreases games.len(),
{
    reveal(Seq::filter);
    if games.len() > 0 {
        let rest = games.drop_last();
        assert forall|i: int, j: int| 0 <= i < j < rest.len() implies (#[trigger] rest[i]).seq <= (
        #[trigger] rest[j]).seq by {
            assert(games[i].seq <= games[j].seq);
        }
        live_games_go_by_number(rest, seq);
        let u = up_to(rest, seq);
        let last = games.len() - 1;
        assert forall|k: int| 0 <= k < u implies (#[trigger] games[k]).seq <= seq by {
            assert(rest[k].seq <= seq);
        }
        assert forall|k: int| u <= k < last implies (#[trigger] games[k]).seq > seq by {
            assert(rest[k].seq > seq);
        }
        if games[last].seq <= seq && u < last {
            assert(rest[u as int].seq > seq);
            assert(games[u as int].seq <= games[last].seq);
        }
        match place_of(rest, seq) {
            Some(i) => {
                assert forall|k: int| 0 <= k < i implies (#[trigger] games[k]).seq != seq by {
                    assert(rest[k].seq != seq);
                }
            },
            None => {
                assert forall|k: int| 0 <= k < last implies (#[trigger] games[k]).seq != seq by {
                    assert(rest[k].seq != seq);
                }
            },
        }
    } else {
        assert(games.filter(|g: LiveGame<P, V>| g.seq != seq) =~= games);
    }
}

/// A game that was taken off the list is not on it, and the list stays in
/// order.
pub proof fn ended_game_is_gone<P, V>(games: Seq<LiveGame<P, V>>, seq: u64)
    requires
        in_order(games),
    ensures
        in_order(without(games, seq)),
        forall|k: int|
            0 <= k < without(games, seq).len() ==> (#[trigger] without(games, seq)[k]).seq != seq,
{
    lemma_without(games, seq);
}

impl<P, V> LiveEval<P, V> {
    /// A league that has not started.
    pub fn new() -> (l: LiveEval<P, V>)
        ensures
            !l.active,
            l.games@.len() == 0,
            l.updated_unix_ms == 0,
    {
        LiveEval { active: false, games: Vec::new(), updated_unix_ms: 0 }
    }

    /// Puts a game on the list, at its first turn and with no picture yet,
    /// behind the games with a number up to its own.
    pub fn begin(&mut self, seq: u64, players: P, now_ms: i64)
        requires
            in_order(old(self).games@),
        ensures
            in_order(final(self).games@),
            final(self).active == old(self).active,
            final(self).updated_unix_ms == now_ms,
            final(self).games@ == old(self).games@.insert(
                up_to(old(self).games@, seq) as int,
                (LiveGame { seq, turn: 0, players, frame: None }),
            ),
    {
        let ghost before = self.games@;
        let mut at: usize = self.games.len();
        while at > 0 && self.games[at - 1].seq > seq
            invariant
                at <= self.games@.len(),
                self.games@ == before,
                self.active == old(self).active,
                forall|k: int| at <= k < before.len() ==> (#[trigger] before[k]).seq > seq,
            decreases at,
        {
            at = at - 1;
        }
        proof {
            assert forall|k: int| 0 <= k < at implies (#[trigger] before[k]).seq <= seq by {
                assert(before[k].seq <= before[at - 1].seq);
            }
            lemma_up_to(before, seq, at as int);
        }
        self.games.insert(at, LiveGame { seq, turn: 0, players, frame: None });
        self.updated_unix_ms = now_ms;
        proof {
            let g = self.games@;
            assert forall|i: int, j: int| 0 <= i < j < g.len() implies (#[trigger] g[i]).seq
                <= (#[trigger] g[j]).seq by {
                let x = if i < at {
                    i
                } else {
                    i - 1
                };
                let y = if j < at {
                    j
                } else {
                    j - 1
                };
                if i != at && j != at {
                    assert(g[i] == before[x] && g[j] == before[y]);
                } else if i == at {
                    assert(g[j] == before[y]);
                } else {
                    assert(g[i] == before[x]);
                }
            }
        }
    }

    /// Shows a game's latest turn; a game that is not on the list is not
    /// shown.
    pub fn update(&mut self, seq: u64, turn: u32, frame: Option<V>, now_ms: i64)
        requires
            in_order(old(self).games@),
        ensures
            in_order(final(self).games@),
            final(self).active == old(self).active,
            final(self).updated_unix_ms == now_ms,
            match place_of(old(self).games@, seq) {
                Some(i) => {
                    &&& 0 <= i < old(self).games@.len()
                    &&& old(self).games@[i].seq == seq
                    &&& final(self).games@ == old(self).games@.update(
                        i,
                        (LiveGame { seq, turn, players: old(self).games@[i].players, frame }),
                    )
                },
                None => final(self).games@ == old(self).games@,
            },
    {
        let ghost before = self.games@;
        self.updated_unix_ms = now_ms;
        let mut i: usize = 0;
        assert(before.take(0) =~= Seq::<LiveGame<P, V>>::empty());
        while i < self.games.len()
            invariant
                i <= self.games@.len(),
                self.games@ == before,
                before == old(self).games@,
                in_order(before),
                self.active == old(self).active,
                self.updated_unix_ms == now_ms,
                place_of(before.take(i as int), seq) is None,
            decreases self.games@.len() - i,
        {
            assert(before.take(i + 1).drop_last() =~= before.take(i as int));
            if self.games[i].seq == seq {
                proof {
                    assert(place_of(before.take(i + 1), seq) == Some(i as int));
                    lemma_place_stays(before, i + 1, seq);
                }
                self.games[i].turn = turn;
                self.games[i].frame = frame;
                assert(self.games@ =~= before.update(
                    i as int,
                    (LiveGame { seq, turn, players: before[i as int].players, frame }),
                ));
                return;
            }
            i = i + 1;
        }
        assert(before.take(i as int) =~= before);
    }

    /// Takes a game off the list.
    pub fn end(&mut self, seq: u64, now_ms: i64)
        requires
            in_order(old(self).games@),
        ensures
            in_order(final(self).games@),
            final(self).active == old(self).active,
            final(self).updated_unix_ms == now_ms,
            final(self).games@ == without(old(self).games@, seq),
    {
        let ghost before = self.games@;
        let ghost mut k: int = 0;
        self.updated_unix_ms = now_ms;
        let mut i: usize = 0;
        assert(before.take(0) =~= Seq::<LiveGame<P, V>>::empty());
        assert(without(before.take(0), seq) + before.skip(0) =~= before);
        while i < self.games.len()
            invariant
                0 <= k <= before.len(),
                self.active == old(self).active,
                self.updated_unix_ms == now_ms,
                self.games@ == without(before.take(k), seq) + before.skip(k),
                i == without(before.take(k), seq).len(),
            decreases before.len() - k,
        {
            let ghost w = without(before.take(k), seq);
            assert(before.take(k + 1).drop_last() =~= before.take(k));
            assert(self.games@[i as int] == before[k]);
            if self.games[i].seq == seq {
                let _ = self.games.remove(i);
                assert(self.games@ =~= w + before.skip(k + 1));
            } else {
                i = i + 1;
                assert(self.games@ =~= w.push(before[k]) + before.skip(k + 1));
            }
            proof {
                k = k + 1;
            }
        }
        proof {
            assert(k == before.len());
            assert(before.take(k) =~= before);
            assert(self.games@ =~= without(before, seq));
            lemma_without(before, seq);
        }
    }

    /// Shows whether the league is running; tells whether that changed.
    pub fn set_active(&mut self, active: bool, now_ms: i64) -> (changed: bool)
        ensures
            changed == (old(self).active != active),
            final(self).active == active,
            final(self).games@ == old(self).games@,
            final(self).updated_unix_ms == if changed {
                now_ms
            } else {
                old(self).updated_unix_ms
            },
    {
        if self.active != active {
            self.active = active;
            self.updated_unix_ms = now_ms;
            true
        } else {
            false
        }
    }

    /// Shows a league that has stopped.
    pub fn stop(&mut self, now_ms: i64)
        ensures
            !final(self).active,
            final(self).games@.len() == 0,
            final(self).updated_unix_ms == now_ms,
    {
        self.active = false;
        self.games.clear();
        self.updated_unix_ms = now_ms;
    }
}

proof fn lemma_place_stays<P, V>(games: Seq<LiveGame<P, V>>, k: int, seq: u64)
    requires
        0 <= k <= games.len(),
        place_of(games.take(k), seq) is Some,
    ensures
        place_of(games, seq) == place_of(games.take(k), seq),
    decreases games.len() - k,
{
    if k < games.len() {
        assert(games.take(k + 1).drop_last() =~= games.take(k));
        lemma_place_stays(games, k + 1, seq);
    } else {
        assert(games.take(k) =~= games);
    }
}

} // verus!
