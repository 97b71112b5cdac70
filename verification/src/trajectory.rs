//! Recorded trajectories: one entry per turn and snake, turned into training
//! samples when their game is over.

use vstd::prelude::*;

use crate::lists;

verus! {

/// A training value.
#[derive(Clone, Copy, Debug)]
pub enum Target<F> {
    /// The search's own value.
    Searched(F),
    /// The snake won.
    Won,
    /// The snake lost.
    Lost,
    /// Nobody won and the snake lived to the end.
    Drawn,
}

/// The trajectory of one game; `steps` turns of `n` snakes.
pub struct Traj<F> {
    /// `obs_len` numbers per turn and snake.
    pub obs: Vec<F>,
    /// Four numbers per turn and snake.
    pub pol: Vec<F>,
    pub val: Vec<F>,
    pub alive: Vec<bool>,
    /// One number per turn.
    pub turn: Vec<u32>,
    pub steps: usize,
}

/// The samples of one worker.
pub struct WorkerOut<F> {
    pub obs: Vec<F>,
    pub pol: Vec<F>,
    pub z: Vec<Target<F>>,
    pub turn: Vec<u32>,
    /// The turns that the worker played.
    pub turns: usize,
    /// The games that it finished.
    pub games: usize,
}

impl<F> Traj<F> {
    /// Whether the lists hold `steps` turns.
    pub open spec fn wf(&self, n: nat, obs_len: nat) -> bool {
        &&& self.obs@.len() == self.steps * n * obs_len
        &&& self.pol@.len() == self.steps * n * 4
        &&& self.val@.len() == self.steps * n
        &&& self.alive@.len() == self.steps * n
        &&& self.turn@.len() == self.steps
    }

    /// Forgets everything.
    pub fn clear(&mut self)
        ensures
            final(self).steps == 0,
            final(self).obs@.len() == 0,
            final(self).pol@.len() == 0,
            final(self).val@.len() == 0,
            final(self).alive@.len() == 0,
            final(self).turn@.len() == 0,
    {
        self.obs.clear();
        self.pol.clear();
        self.val.clear();
        self.alive.clear();
        self.turn.clear();
        self.steps = 0;
    }
}

impl<F: Copy> Traj<F> {
    /// Records a turn: `obs_len` numbers, four numbers, a value and whether it
    /// lives for each of `n` snakes.
    pub fn record(
        &mut self,
        obs: &Vec<F>,
        pol: &Vec<F>,
        val: &Vec<F>,
        alive: &Vec<bool>,
        turn: u32,
        n: usize,
        obs_len: usize,
    )
        requires
            old(self).wf(n as nat, obs_len as nat),
            old(self).steps < usize::MAX,
            obs@.len() == n * obs_len,
            pol@.len() == n * 4,
            val@.len() == n,
            alive@.len() == n,
        ensures
            final(self).wf(n as nat, obs_len as nat),
            final(self).steps == old(self).steps + 1,
            final(self).obs@ == old(self).obs@ + obs@,
            final(self).pol@ == old(self).pol@ + pol@,
            final(self).val@ == old(self).val@ + val@,
            final(self).alive@ == old(self).alive@ + alive@,
            final(self).turn@ == old(self).turn@.push(turn),
    {
        lists::append_range(&mut self.obs, obs, 0, obs.len());
        lists::append_range(&mut self.pol, pol, 0, pol.len());
        lists::append_range(&mut self.val, val, 0, val.len());
        lists::append_range(&mut self.alive, alive, 0, alive.len());
        self.turn.push(turn);
        proof {
            let k = self.steps as int;
            assert(obs@.subrange(0, obs@.len() as int) =~= obs@);
            assert(pol@.subrange(0, pol@.len() as int) =~= pol@);
            assert(val@.subrange(0, val@.len() as int) =~= val@);
            assert(alive@.subrange(0, alive@.len() as int) =~= alive@);
            assert((k + 1) * n == k * n + n) by (nonlinear_arith);
            assert((k + 1) * n * obs_len == k * n * obs_len + n * obs_len) by (nonlinear_arith);
        }
        self.steps = self.steps + 1;
    }
}

/// The rows (turn times `n` plus snake) below `k` at which the snake was alive.
pub open spec fn alive_rows(alive: Seq<bool>, k: nat) -> Seq<int>
    decreases k,
{
    if k == 0 {
        Seq::empty()
    } else {
        let rest = alive_rows(alive, (k - 1) as nat);
        if alive[k - 1] {
            rest.push(k - 1)
        } else {
            rest
        }
    }
}

/// The rows of a list with `w` numbers per row, in the order of `rows`.
pub open spec fn gathered<F>(src: Seq<F>, rows: Seq<int>, w: nat) -> Seq<F>
    decreases rows.len(),
{
    if rows.len() == 0 {
        Seq::empty()
    } else {
        gathered(src, rows.drop_last(), w) + src.subrange(
            rows.last() * w,
            rows.last() * w + w,
        )
    }
}

/// The value that a row is trained on.
pub open spec fn row_target<F>(
    t: &Traj<F>,
    n: nat,
    winner: Option<usize>,
    bootstrap: bool,
    row: int,
) -> Target<F> {
    let s = row % (n as int);
    if bootstrap {
        Target::Searched(t.val@[row])
    } else {
        match winner {
            Some(w) => if w == s {
                Target::Won
            } else {
                Target::Lost
            },
            None => if t.alive@[(t.steps - 1) * n + s] {
                Target::Drawn
            } else {
                Target::Lost
            },
        }
    }
}

/// The rows that are trained on are those of the living, each once and in order.
pub proof fn rows_are_the_living(alive: Seq<bool>, k: nat)
    requires
        k <= alive.len(),
    ensures
        forall|r: int| #[trigger] alive_rows(alive, k).contains(r) <==> 0 <= r < k && alive[r],
        forall|a: int, b: int|
            0 <= a < b < alive_rows(alive, k).len() ==> #[trigger] alive_rows(alive, k)[a]
                < #[trigger] alive_rows(alive, k)[b],
    decreases k,
{
    if k > 0 {
        let rest = alive_rows(alive, (k - 1) as nat);
        let all = alive_rows(alive, k);
        rows_are_the_living(alive, (k - 1) as nat);
        assert forall|a: int| 0 <= a < rest.len() implies 0 <= #[trigger] rest[a] < k - 1 by {
            assert(rest.contains(rest[a]));
        }
        assert forall|r: int| #[trigger] all.contains(r) <==> 0 <= r < k && alive[r] by {
            if rest.contains(r) {
                let a = choose|a: int| 0 <= a < rest.len() && rest[a] == r;
                assert(all[a] == r);
            }
            if r == k - 1 && alive[r] {
                assert(all[all.len() - 1] == r);
            }
            if all.contains(r) {
                let a = choose|a: int| 0 <= a < all.len() && all[a] == r;
                if a < rest.len() {
                    assert(rest[a] == r);
                    assert(rest.contains(r));
                }
            }
        }
    }
}

/// The numbers of each row stand together, row after row.
pub proof fn gathered_rows_stand_in_order<F>(src: Seq<F>, rows: Seq<int>, w: nat, a: int, c: int)
    requires
        forall|i: int| 0 <= i < rows.len() ==> 0 <= #[trigger] rows[i] && rows[i] * w + w <= src.len(),
        0 <= a < rows.len(),
        0 <= c < w,
    ensures
        gathered(src, rows, w).len() == rows.len() * w,
        0 <= a * w + c < rows.len() * w,
        gathered(src, rows, w)[a * w + c] == src[rows[a] * w + c],
    decreases rows.len(),
{
    let rest = rows.drop_last();
    let n = rest.len() as int;
    assert forall|i: int| 0 <= i < rest.len() implies 0 <= #[trigger] rest[i] && rest[i] * w + w
        <= src.len() by {
        assert(rows[i] == rest[i]);
    }
    lemma_gathered_len(src, rest, w);
    assert(rows[rows.len() - 1] * w >= 0) by (nonlinear_arith)
        requires
            rows[rows.len() - 1] >= 0,
            w >= 0,
    ;
    assert(n * w + w == (n + 1) * w) by (nonlinear_arith);
    if a < n {
        gathered_rows_stand_in_order(src, rest, w, a, c);
    } else {
        assert(a * w + c - n * w == c) by (nonlinear_arith)
            requires
                a == n,
        ;
        assert(n * w >= 0) by (nonlinear_arith)
            requires
                n >= 0,
                w >= 0,
        ;
    }
}

proof fn lemma_gathered_len<F>(src: Seq<F>, rows: Seq<int>, w: nat)
    requires
        forall|i: int| 0 <= i < rows.len() ==> 0 <= #[trigger] rows[i] && rows[i] * w + w <= src.len(),
    ensures
        gathered(src, rows, w).len() == rows.len() * w,
    decreases rows.len(),
{
    let n = rows.len() as int;
    if n > 0 {
        let rest = rows.drop_last();
        assert forall|i: int| 0 <= i < rest.len() implies 0 <= #[trigger] rest[i] && rest[i] * w + w
            <= src.len() by {
            assert(rows[i] == rest[i]);
        }
        lemma_gathered_len(src, rest, w);
        assert(rows[n - 1] * w >= 0) by (nonlinear_arith)
            requires
                rows[n - 1] >= 0,
                w >= 0,
        ;
        assert((n - 1) * w + w == n * w) by (nonlinear_arith);
    } else {
        assert(n * w == 0) by (nonlinear_arith)
            requires
                n == 0,
        ;
    }
}

/// What a row is trained towards: the search's own value where it is asked for,
/// else the outcome of its seat. The winner won, a seat that was still alive at
/// the end of a game without a winner drew, and everybody else lost.
pub proof fn targets_tell_the_outcome<F>(
    t: &Traj<F>,
    n: nat,
    winner: Option<usize>,
    step: int,
    s: usize,
)
    requires
        0 <= step < t.steps,
        s < n,
    ensures
        row_target(t, n, winner, true, step * n + s) == Target::Searched(t.val@[step * n + s]),
        winner == Some(s) <==> row_target(t, n, winner, false, step * n + s) == Target::<F>::Won,
        winner is None && t.alive@[(t.steps - 1) * n + s] <==> row_target(
            t,
            n,
            winner,
            false,
            step * n + s,
        ) == Target::<F>::Drawn,
        (winner is Some && winner != Some(s)) || (winner is None && !t.alive@[(t.steps - 1) * n + s])
            <==> row_target(t, n, winner, false, step * n + s) == Target::<F>::Lost,
{
    vstd::arithmetic::div_mod::lemma_fundamental_div_mod_converse(
        step * n + s,
        n as int,
        step,
        s as int,
    );
}

/// Turns a finished game's trajectory into samples: one for every turn and
/// snake alive then, with the search's value or the game's result.
pub fn materialize<F: Copy>(
    t: &Traj<F>,
    n: usize,
    obs_len: usize,
    winner: Option<usize>,
    bootstrap: bool,
    out: &mut WorkerOut<F>,
)
    requires
        t.wf(n as nat, obs_len as nat),
        n > 0,
    ensures
        ({
            let rows = alive_rows(t.alive@, t.alive@.len());
            &&& final(out).obs@ == old(out).obs@ + gathered(t.obs@, rows, obs_len as nat)
            &&& final(out).pol@ == old(out).pol@ + gathered(t.pol@, rows, 4)
            &&& final(out).z@ == old(out).z@ + rows.map_values(
                |r: int| row_target(t, n as nat, winner, bootstrap, r),
            )
            &&& final(out).turn@ == old(out).turn@ + rows.map_values(
                |r: int| t.turn@[r / (n as int)],
            )
            &&& final(out).turns == old(out).turns
            &&& final(out).games == old(out).games
        }),
{
    let ghost o0 = *out;
    let len: usize = t.alive.len();
    let obs_rows: usize = t.obs.len();
    let pol_rows: usize = t.pol.len();
    let ghost tf = |r: int| row_target(t, n as nat, winner, bootstrap, r);
    let ghost nf = |r: int| t.turn@[r / (n as int)];
    let mut r: usize = 0;
    proof {
        assert(alive_rows(t.alive@, 0).map_values(tf) =~= Seq::<Target<F>>::empty());
        assert(alive_rows(t.alive@, 0).map_values(nf) =~= Seq::<u32>::empty());
        assert(o0.z@ + Seq::<Target<F>>::empty() =~= o0.z@);
        assert(o0.turn@ + Seq::<u32>::empty() =~= o0.turn@);
        assert(o0.obs@ + Seq::<F>::empty() =~= o0.obs@);
        assert(o0.pol@ + Seq::<F>::empty() =~= o0.pol@);
    }
    while r < len
        invariant
            r <= len,
            n > 0,
            t.wf(n as nat, obs_len as nat),
            len == t.alive@.len(),
            obs_rows == t.obs@.len(),
            pol_rows == t.pol@.len(),
            tf == (|r: int| row_target(t, n as nat, winner, bootstrap, r)),
            nf == (|r: int| t.turn@[r / (n as int)]),
            out.obs@ == o0.obs@ + gathered(t.obs@, alive_rows(t.alive@, r as nat), obs_len as nat),
            out.pol@ == o0.pol@ + gathered(t.pol@, alive_rows(t.alive@, r as nat), 4),
            out.z@ == o0.z@ + alive_rows(t.alive@, r as nat).map_values(tf),
            out.turn@ == o0.turn@ + alive_rows(t.alive@, r as nat).map_values(nf),
            out.turns == o0.turns,
            out.games == o0.games,
        decreases len - r,
    {
        if t.alive[r] {
            let ghost rows = alive_rows(t.alive@, r as nat);
            let ghost next = rows.push(r as int);
            assert(next.drop_last() =~= rows);
            proof {
                lemma_rows_fit(r as int, len as int, obs_len as int);
                lemma_rows_fit(r as int, len as int, 4);
                assert(len * obs_len == obs_rows) by (nonlinear_arith)
                    requires
                        obs_rows == t.steps * n * obs_len,
                        len == t.steps * n,
                ;
            }
            lists::append_range(&mut out.obs, &t.obs, r * obs_len, obs_len);
            lists::append_range(&mut out.pol, &t.pol, r * 4, 4);
            let s: usize = r % n;
            let st: usize = r / n;
            proof {
                let (ri, ni, ti) = (r as int, n as int, t.steps as int);
                assert(0 <= ri / ni < ti && ti >= 1 && 0 <= ri % ni < ni) by (nonlinear_arith)
                    requires
                        0 <= ri < ti * ni,
                        ni > 0,
                        ti >= 0,
                ;
                assert((ti - 1) * ni + ri % ni < ti * ni && (ti - 1) * ni >= 0) by (nonlinear_arith)
                    requires
                        0 <= ri % ni < ni,
                        ti >= 1,
                ;
            }
            let z = if bootstrap {
                Target::Searched(t.val[r])
            } else {
                match winner {
                    Some(w) => if w == s {
                        Target::Won
                    } else {
                        Target::Lost
                    },
                    None => if t.alive[(t.steps - 1) * n + s] {
                        Target::Drawn
                    } else {
                        Target::Lost
                    },
                }
            };
            assert(z == tf(r as int));
            out.z.push(z);
            out.turn.push(t.turn[st]);
            proof {
                assert(out.obs@ =~= o0.obs@ + gathered(t.obs@, next, obs_len as nat));
                assert(out.pol@ =~= o0.pol@ + gathered(t.pol@, next, 4));
                assert(next.map_values(tf) =~= rows.map_values(tf).push(tf(r as int)));
                assert(next.map_values(nf) =~= rows.map_values(nf).push(nf(r as int)));
                assert(out.z@ =~= o0.z@ + next.map_values(tf));
                assert(out.turn@ =~= o0.turn@ + next.map_values(nf));
            }
        }
        r = r + 1;
    }
}

proof fn lemma_rows_fit(r: int, len: int, w: int)
    requires
        0 <= r < len,
        w >= 0,
    ensures
        0 <= r * w,
        r * w + w <= len * w,
{
    assert(0 <= r * w && r * w + w <= len * w) by (nonlinear_arith)
        requires
            0 <= r,
            r + 1 <= len,
            w >= 0,
    ;
}

impl<F> WorkerOut<F> {
    /// Whether all lists hold the same number of samples.
    pub open spec fn wf(&self, obs_len: nat) -> bool {
        &&& self.obs@.len() == self.z@.len() * obs_len
        &&& self.pol@.len() == self.z@.len() * 4
        &&& self.turn@.len() == self.z@.len()
    }
}

/// One list of all the workers' outputs, one after the other.
pub open spec fn joined<F, T>(outs: Seq<WorkerOut<F>>, f: spec_fn(WorkerOut<F>) -> Seq<T>) -> Seq<T>
    decreases outs.len(),
{
    if outs.len() == 0 {
        Seq::empty()
    } else {
        joined(outs.drop_last(), f) + f(outs.last())
    }
}

/// The sum of one number over all workers.
pub open spec fn summed<F>(outs: Seq<WorkerOut<F>>, f: spec_fn(WorkerOut<F>) -> nat) -> nat
    decreases outs.len(),
{
    if outs.len() == 0 {
        0
    } else {
        summed(outs.drop_last(), f) + f(outs.last())
    }
}

/// The smaller of two numbers.
pub open spec fn at_most(a: nat, b: nat) -> nat {
    if a < b {
        a
    } else {
        b
    }
}

proof fn lemma_summed_grows<F>(outs: Seq<WorkerOut<F>>, f: spec_fn(WorkerOut<F>) -> nat, k: int)
    requires
        0 <= k <= outs.len(),
    ensures
        summed(outs.take(k), f) <= summed(outs, f),
    decreases outs.len(),
{
    if k < outs.len() {
        lemma_summed_grows(outs.drop_last(), f, k);
        assert(outs.drop_last().take(k) =~= outs.take(k));
    } else {
        assert(outs.take(k) =~= outs);
    }
}

/// Joining goes worker by worker, and loses nothing: each worker's part stands
/// behind the parts of those before it.
pub proof fn joined_parts_stand_in_order<F, T>(
    outs: Seq<WorkerOut<F>>,
    f: spec_fn(WorkerOut<F>) -> Seq<T>,
    k: int,
)
    requires
        0 <= k < outs.len(),
    ensures
        joined(outs.take(k), f).len() + f(outs[k]).len() <= joined(outs, f).len(),
        joined(outs, f).subrange(
            joined(outs.take(k), f).len() as int,
            (joined(outs.take(k), f).len() + f(outs[k]).len()) as int,
        ) == f(outs[k]),
        joined(outs.take(0), f).len() == 0,
    decreases outs.len(),
{
    let rest = outs.drop_last();
    assert(outs.take(0) =~= Seq::<WorkerOut<F>>::empty());
    if k < rest.len() {
        joined_parts_stand_in_order(rest, f, k);
        assert(rest.take(k) =~= outs.take(k));
        let (lo, hi) = (
            joined(outs.take(k), f).len() as int,
            (joined(outs.take(k), f).len() + f(outs[k]).len()) as int,
        );
        assert(joined(outs, f).subrange(lo, hi) =~= joined(rest, f).subrange(lo, hi));
    } else {
        assert(outs.take(k) =~= rest);
        let lo = joined(rest, f).len() as int;
        assert(joined(outs, f).subrange(lo, (lo + f(outs[k]).len()) as int) =~= f(outs[k]));
    }
}

/// Joins the workers' samples, in worker order, and cuts them off at exactly
/// `target`; the turns and games of all workers count in full.
pub fn merge<F: Copy>(outs: &Vec<WorkerOut<F>>, target: usize, obs_len: usize) -> (m: WorkerOut<F>)
    requires
        forall|k: int| 0 <= k < outs@.len() ==> (#[trigger] outs@[k]).wf(obs_len as nat),
        summed(outs@, |o: WorkerOut<F>| o.turns as nat) <= usize::MAX,
        summed(outs@, |o: WorkerOut<F>| o.games as nat) <= usize::MAX,
    ensures
        ({
            let all = joined(outs@, |o: WorkerOut<F>| o.z@);
            let k = at_most(all.len(), target as nat);
            &&& m.z@ == all.take(k as int)
            &&& m.turn@ == joined(outs@, |o: WorkerOut<F>| o.turn@).take(k as int)
            &&& m.pol@ == joined(outs@, |o: WorkerOut<F>| o.pol@).take((k * 4) as int)
            &&& m.obs@ == joined(outs@, |o: WorkerOut<F>| o.obs@).take(k * obs_len)
        }),
        m.wf(obs_len as nat),
        m.z@.len() <= target,
        m.z@.len() < target ==> m.z@ == joined(outs@, |o: WorkerOut<F>| o.z@),
        m.turns == summed(outs@, |o: WorkerOut<F>| o.turns as nat),
        m.games == summed(outs@, |o: WorkerOut<F>| o.games as nat),
{
    let ghost fz = |o: WorkerOut<F>| o.z@;
    let ghost ft = |o: WorkerOut<F>| o.turn@;
    let ghost fp = |o: WorkerOut<F>| o.pol@;
    let ghost fo = |o: WorkerOut<F>| o.obs@;
    let ghost nt = |o: WorkerOut<F>| o.turns as nat;
    let ghost ng = |o: WorkerOut<F>| o.games as nat;
    let mut m: WorkerOut<F> = WorkerOut {
        obs: Vec::new(),
        pol: Vec::new(),
        z: Vec::new(),
        turn: Vec::new(),
        turns: 0,
        games: 0,
    };
    let mut i: usize = 0;
    proof {
        let e = outs@.take(0);
        assert(m.z@ =~= joined(e, fz).take(0));
        assert(m.turn@ =~= joined(e, ft).take(0));
        assert(m.pol@ =~= joined(e, fp).take(0));
        assert(m.obs@ =~= joined(e, fo).take(0));
        assert(0 * obs_len == 0) by (nonlinear_arith);
    }
    while i < outs.len()
        invariant
            i <= outs@.len(),
            fz == (|o: WorkerOut<F>| o.z@),
            ft == (|o: WorkerOut<F>| o.turn@),
            fp == (|o: WorkerOut<F>| o.pol@),
            fo == (|o: WorkerOut<F>| o.obs@),
            nt == (|o: WorkerOut<F>| o.turns as nat),
            ng == (|o: WorkerOut<F>| o.games as nat),
            forall|k: int| 0 <= k < outs@.len() ==> (#[trigger] outs@[k]).wf(obs_len as nat),
            summed(outs@, nt) <= usize::MAX,
            summed(outs@, ng) <= usize::MAX,
            m.turns == summed(outs@.take(i as int), nt),
            m.games == summed(outs@.take(i as int), ng),
            m.z@.len() == at_most(joined(outs@.take(i as int), fz).len(), target as nat),
            joined(outs@.take(i as int), ft).len() == joined(outs@.take(i as int), fz).len(),
            joined(outs@.take(i as int), fp).len() == joined(outs@.take(i as int), fz).len() * 4,
            joined(outs@.take(i as int), fo).len() == joined(outs@.take(i as int), fz).len()
                * obs_len,
            m.z@ == joined(outs@.take(i as int), fz).take(m.z@.len() as int),
            m.turn@ == joined(outs@.take(i as int), ft).take(m.z@.len() as int),
            m.pol@ == joined(outs@.take(i as int), fp).take((m.z@.len() * 4) as int),
            m.obs@ == joined(outs@.take(i as int), fo).take(m.z@.len() * obs_len),
            m.wf(obs_len as nat),
        decreases outs@.len() - i,
    {
        let o = &outs[i];
        let ghost (a, b) = (outs@.take(i as int), outs@.take(i + 1));
        proof {
            assert(b.drop_last() =~= a);
            lemma_summed_grows(outs@, nt, i + 1);
            lemma_summed_grows(outs@, ng, i + 1);
            assert(outs@[i as int].wf(obs_len as nat));
        }
        m.turns = m.turns + o.turns;
        m.games = m.games + o.games;
        let have: usize = m.z.len();
        let ghost (az, at_, ap, ao) = (joined(a, fz), joined(a, ft), joined(a, fp), joined(a, fo));
        let ghost olen = o.z@.len();
        proof {
            assert((az.len() + olen) * obs_len == az.len() * obs_len + olen * obs_len)
                by (nonlinear_arith);
        }
        if have < target {
            assert(have == az.len());
            let left: usize = target - have;
            let take: usize = if left < o.z.len() { left } else { o.z.len() };
            let obs_rows: usize = o.obs.len();
            let pol_rows: usize = o.pol.len();
            proof {
                assert(take * obs_len <= olen * obs_len && (have + take) * obs_len == have * obs_len
                    + take * obs_len && take * obs_len >= 0) by (nonlinear_arith)
                    requires
                        take <= olen,
                ;
                assert(az.take(have as int) =~= az);
                assert(at_.take(have as int) =~= at_);
                assert(ap.take(have * 4) =~= ap);
                assert(ao.take(have * obs_len) =~= ao);
            }
            lists::append_range(&mut m.obs, &o.obs, 0, take * obs_len);
            lists::append_range(&mut m.pol, &o.pol, 0, take * 4);
            lists::append_range(&mut m.z, &o.z, 0, take);
            lists::append_range(&mut m.turn, &o.turn, 0, take);
            proof {
                assert(m.z@ =~= joined(b, fz).take(have + take));
                assert(m.turn@ =~= joined(b, ft).take(have + take));
                assert(m.pol@ =~= joined(b, fp).take((have + take) * 4));
                assert(m.obs@ =~= joined(b, fo).take((have + take) * obs_len));
            }
        } else {
            proof {
                assert(m.z@.len() * obs_len <= az.len() * obs_len) by (nonlinear_arith)
                    requires
                        m.z@.len() <= az.len(),
                ;
                assert(m.z@ =~= joined(b, fz).take(m.z@.len() as int));
                assert(m.turn@ =~= joined(b, ft).take(m.z@.len() as int));
                assert(m.pol@ =~= joined(b, fp).take((m.z@.len() * 4) as int));
                assert(m.obs@ =~= joined(b, fo).take(m.z@.len() * obs_len));
            }
        }
        i = i + 1;
    }
    assert(outs@.take(i as int) =~= outs@);
    m
}

} // verus!
