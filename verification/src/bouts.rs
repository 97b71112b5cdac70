//! Evaluation games: a batch of games that is played turn by turn, some of
//! them recorded.
//!
//! The rules of the game are applied by the caller, who hands in what became
//! of a position.

use vstd::prelude::*;

use crate::arena;
use crate::board::{Board, Move};
use crate::placing::{self, Placement};
use crate::sample::{self, FrameJson};

verus! {

/// What a turn's search said of a position, and what was played: four numbers
/// and one number, the policy and the move of each seat.
pub struct Readout<F> {
    pub policy: Vec<F>,
    pub values: Vec<F>,
    pub plays: Vec<Vec<F>>,
    pub moves: Vec<Move>,
}

/// What the rules made of a turn.
pub struct Step {
    pub board: Board,
    /// The game is over by the rules.
    pub over: bool,
    /// The sole survivor.
    pub winner: Option<usize>,
}

/// A game of an evaluation.
pub struct EvalGame<F> {
    pub board: Board,
    /// The turn each seat's snake died on.
    pub deaths: Vec<Option<u32>>,
    pub done: bool,
    /// The sole survivor of the latest position.
    pub winner: Option<usize>,
    pub frames: Vec<FrameJson<F>>,
}

/// A recorded game of an evaluation.
pub struct RecordedEvalGame<F> {
    pub frames: Vec<FrameJson<F>>,
    pub placements: Vec<Placement>,
    pub turns: u32,
    pub winner: Option<i32>,
}

impl<F> Readout<F> {
    /// Whether there is an entry for each of `n` seats.
    pub open spec fn covers(&self, n: nat) -> bool {
        &&& self.policy@.len() >= n * 4
        &&& self.values@.len() >= n
        &&& self.plays@.len() >= n
        &&& self.moves@.len() >= n
    }
}

/// Whether `next` can come after `board`: as many snakes, and no dead one came
/// back.
pub open spec fn can_follow(board: &Board, next: &Board) -> bool {
    &&& next.snakes@.len() == board.snakes@.len()
    &&& forall|s: int|
        0 <= s < board.snakes@.len() && !board.seat_alive(s) ==> !#[trigger] next.seat_alive(s)
}

/// Whether all snakes of a position live.
pub open spec fn all_alive(board: &Board) -> bool {
    forall|s: int| 0 <= s < board.snakes@.len() ==> #[trigger] board.seat_alive(s)
}

impl<F> EvalGame<F> {
    /// Whether the game has `n` seats and a death turn for exactly the dead.
    pub open spec fn wf(&self, n: nat) -> bool {
        &&& self.board.snakes@.len() == n
        &&& self.deaths@.len() == n
        &&& forall|s: int|
            0 <= s < n ==> (#[trigger] self.deaths@[s] is None <==> self.board.seat_alive(s))
    }
}

impl<F: Copy> EvalGame<F> {
    /// A game that starts from a position.
    pub fn new(board: Board) -> (g: EvalGame<F>)
        requires
            all_alive(&board),
        ensures
            g.wf(board.snakes@.len()),
            g.board == board,
            !g.done,
            g.winner is None,
            g.frames@.len() == 0,
    {
        let deaths = arena::repeated(None, board.snakes.len());
        EvalGame { board, deaths, done: false, winner: None, frames: Vec::new() }
    }

    /// Plays a turn: notes who died, and ends the game where it is over or the
    /// seat that is watched has died. A recorded game gets a frame of the
    /// position before the turn and, at its end, one of the last position.
    pub fn advance(
        &mut self,
        readout: &Readout<F>,
        step: Step,
        watched: Option<usize>,
        recorded: bool,
        zero: F,
    ) -> (done: bool)
        requires
            old(self).wf(old(self).board.snakes@.len()),
            can_follow(&old(self).board, &step.board),
            readout.covers(old(self).board.snakes@.len()),
            watched matches Some(s) ==> s < old(self).board.snakes@.len(),
        ensures
            final(self).wf(old(self).board.snakes@.len()),
            final(self).board == step.board,
            final(self).deaths@ == arena::deaths_noted(
                old(self).deaths@,
                &step.board,
                step.board.turn,
            ),
            done == (step.over || (watched matches Some(s) && !step.board.seat_alive(s as int))),
            final(self).done == done,
            final(self).winner == step.winner,
            recorded_turn(
                old(self).frames@,
                final(self).frames@,
                &old(self).board,
                &step.board,
                readout,
                done,
                recorded,
                zero,
            ),
    {
        let ghost start = *self;
        let n: usize = self.board.snakes.len();
        let rows: usize = readout.policy.len();
        assert(n * 4 <= rows);
        if recorded {
            let f = sample::frame_from_board(
                &self.board,
                n,
                &readout.policy,
                &readout.values,
                &readout.plays,
                &readout.moves,
            );
            self.frames.push(f);
        }
        let done = step.over || match watched {
            Some(s) => !step.board.snakes[s].alive(),
            None => false,
        };
        self.board = step.board;
        self.winner = step.winner;
        self.done = done;
        let turn: u32 = self.board.turn;
        arena::note_deaths(&mut self.deaths, &self.board, turn);
        proof {
            assert forall|s: int| 0 <= s < n implies (#[trigger] self.deaths@[s] is None
                <==> self.board.seat_alive(s)) by {
                assert(start.deaths@[s] is None <==> start.board.seat_alive(s));
                if !start.board.seat_alive(s) {
                    assert(!self.board.seat_alive(s));
                }
            }
        }
        if recorded && done {
            let f = arena::final_frame(&self.board, n, zero);
            self.frames.push(f);
        }
        assert(self.frames@.take(start.frames@.len() as int) =~= start.frames@);
        done
    }

    /// The record of the game; its frames move there.
    pub fn take_record(&mut self, seat_gens: &Vec<u32>) -> (r: RecordedEvalGame<F>)
        requires
            old(self).wf(seat_gens@.len()),
            seat_gens@.len() <= i32::MAX,
            old(self).winner matches Some(w) ==> w < seat_gens@.len(),
        ensures
            r.frames@ == old(self).frames@,
            r.placements@ == placing::placed(seat_gens@, old(self).deaths@),
            r.turns == old(self).board.turn,
            match old(self).winner {
                Some(w) => r.winner == Some(w as i32),
                None => r.winner is None,
            },
            final(self).frames@.len() == 0,
            final(self).board == old(self).board,
            final(self).deaths@ == old(self).deaths@,
            final(self).done == old(self).done,
            final(self).winner == old(self).winner,
    {
        let mut frames: Vec<FrameJson<F>> = Vec::new();
        core::mem::swap(&mut self.frames, &mut frames);
        let placements = placing::survival_placements(seat_gens, &self.deaths);
        RecordedEvalGame {
            frames,
            placements,
            turns: self.board.turn,
            winner: match self.winner {
                Some(w) => Some(w as i32),
                None => None,
            },
        }
    }
}

/// What a turn adds to a game's frames.
pub open spec fn recorded_turn<F>(
    before: Seq<FrameJson<F>>,
    after: Seq<FrameJson<F>>,
    board: &Board,
    next: &Board,
    readout: &Readout<F>,
    done: bool,
    recorded: bool,
    zero: F,
) -> bool {
    let n = board.snakes@.len();
    let k = before.len() as int;
    if !recorded {
        after == before
    } else {
        &&& after.len() == k + if done {
            2int
        } else {
            1int
        }
        &&& after.take(k) == before
        &&& sample::records(
            after[k],
            board,
            n,
            readout.policy@,
            readout.values@,
            readout.plays@,
            readout.moves@,
        )
        &&& done ==> arena::shows_bare(after[k + 1], next, n, zero)
    }
}

/// The games that are still being played.
pub open spec fn running<F>(games: Seq<EvalGame<F>>) -> Seq<usize>
    decreases games.len(),
{
    if games.len() == 0 {
        Seq::empty()
    } else {
        let rest = running(games.drop_last());
        if games.last().done {
            rest
        } else {
            rest.push((games.len() - 1) as usize)
        }
    }
}

/// The games that are still being played.
pub fn live_games<F>(games: &Vec<EvalGame<F>>) -> (r: Vec<usize>)
    ensures
        r@ == running(games@),
        forall|k: int|
            0 <= k < r@.len() ==> #[trigger] r@[k] < games@.len() && !games@[r@[k] as int].done,
        r@.len() == 0 <==> forall|g: int| 0 <= g < games@.len() ==> (#[trigger] games@[g]).done,
        forall|g: usize|
            #![trigger r@.contains(g)]
            g < games@.len() && !games@[g as int].done ==> r@.contains(g),
{
    let mut r: Vec<usize> = Vec::new();
    let mut i: usize = 0;
    while i < games.len()
        invariant
            i <= games@.len(),
            r@ == running(games@.take(i as int)),
            forall|k: int|
                0 <= k < r@.len() ==> #[trigger] r@[k] < games@.len() && !games@[r@[k] as int].done,
            r@.len() == 0 <==> forall|g: int| 0 <= g < i ==> (#[trigger] games@[g]).done,
        decreases games@.len() - i,
    {
        assert(games@.take(i + 1).drop_last() =~= games@.take(i as int));
        if !games[i].done {
            r.push(i);
            assert(!games@[i as int].done);
        }
        i = i + 1;
    }
    assert(games@.take(i as int) =~= games@);
    proof {
        running_games_are_not_done(games@);
    }
    r
}

/// The policy that puts everything on one move.
pub open spec fn one_hot<F>(m: Move, zero: F, one: F) -> Seq<F> {
    Seq::new(4, |i: int| if i == m.index_of() {
        one
    } else {
        zero
    })
}

/// The policy that puts everything on one move.
pub fn sure_of<F: Copy>(m: Move, zero: F, one: F) -> (p: Vec<F>)
    ensures
        p@ == one_hot(m, zero, one),
        p@.len() == 4,
        p@[0] == if m == Move::Up {
            one
        } else {
            zero
        },
        p@[1] == if m == Move::Down {
            one
        } else {
            zero
        },
        p@[2] == if m == Move::Left {
            one
        } else {
            zero
        },
        p@[3] == if m == Move::Right {
            one
        } else {
            zero
        },
{
    let mut p = arena::repeated(zero, 4);
    let i: usize = m.index();
    p[i] = one;
    assert(p@ =~= one_hot(m, zero, one));
    p
}

/// The games that run are those that are not done, each once and in order.
pub proof fn running_games_are_not_done<F>(games: Seq<EvalGame<F>>)
    requires
        games.len() <= usize::MAX,
    ensures
        forall|g: usize| #[trigger]
            running(games).contains(g) <==> g < games.len() && !games[g as int].done,
        forall|a: int, b: int|
            0 <= a < b < running(games).len() ==> #[trigger] running(games)[a]
                < #[trigger] running(games)[b],
    decreases games.len(),
{
    if games.len() > 0 {
        let rest = games.drop_last();
        let (r, all) = (running(rest), running(games));
        let last = games.len() - 1;
        running_games_are_not_done(rest);
        assert forall|a: int| 0 <= a < r.len() implies #[trigger] r[a] < last by {
            assert(r.contains(r[a]));
        }
        assert forall|g: usize| #[trigger] all.contains(g) <==> g < games.len()
            && !games[g as int].done by {
            if r.contains(g) {
                let a = choose|a: int| 0 <= a < r.len() && r[a] == g;
                assert(all[a] == g);
                assert(rest[g as int] == games[g as int]);
            }
            if g < last && !games[g as int].done {
                assert(rest[g as int] == games[g as int]);
                assert(r.contains(g));
            }
            if g == last && !games[g as int].done {
                assert(all[all.len() - 1] == g);
            }
            if all.contains(g) {
                let a = choose|a: int| 0 <= a < all.len() && all[a] == g;
                if a < r.len() {
                    assert(r[a] == g);
                    assert(r.contains(g));
                }
            }
        }
    }
}

/// A recording grows turn by turn: by the position before the moves, as it stood
/// then, and by the final one when the game is over. What was recorded stays, and
/// a game that is not recorded gains nothing.
pub proof fn recordings_grow_by_the_turn<F>(
    before: Seq<FrameJson<F>>,
    after: Seq<FrameJson<F>>,
    board: &Board,
    next: &Board,
    readout: &Readout<F>,
    done: bool,
    recorded: bool,
    zero: F,
)
    requires
        recorded_turn(before, after, board, next, readout, done, recorded, zero),
    ensures
        !recorded ==> after.len() == before.len(),
        recorded && !done ==> after.len() == before.len() + 1,
        recorded && done ==> after.len() == before.len() + 2,
        forall|k: int| 0 <= k < before.len() ==> #[trigger] after[k] == before[k],
        recorded ==> after[before.len() as int].turn == board.turn,
        recorded && done ==> after.last().turn == next.turn,
        recorded ==> forall|s: int|
            0 <= s < board.snakes@.len() ==> ((
            #[trigger] after[before.len() as int].snakes@[s]).alive
                <==> board.snakes@[s].eliminated is None),
        recorded && done ==> forall|s: int|
            0 <= s < board.snakes@.len() ==> ((#[trigger] after.last().snakes@[s]).alive
                <==> next.snakes@[s].eliminated is None),
{
    if recorded {
        let k = before.len() as int;
        assert forall|i: int| 0 <= i < k implies #[trigger] after[i] == before[i] by {
            assert(after.take(k)[i] == after[i]);
        }
    }
}

} // verus!
