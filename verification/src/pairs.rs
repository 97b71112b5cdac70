//! A league of two-player matches: who meets whom, what a match leaves behind,
//! and the table that pairwise ratings are fitted from.

use vstd::prelude::*;
use vstd::string::*;

use crate::lists;
use crate::order;
use crate::text;

verus! {

/// Recorded matches kept on disk.
pub const KEEP_MATCH_FILES: usize = 60;

/// Games per match: one pair with the seats exchanged.
pub const GAMES_PER_MATCH: usize = 2;

/// The outcome of one match; wins count for `gen`.
pub struct EvalSummary<F> {
    pub seq: u64,
    pub gen: u32,
    pub opponent_gen: u32,
    pub games: u32,
    pub wins: u32,
    pub losses: u32,
    pub draws: u32,
    pub score: F,
    pub score_ci95: F,
    pub elo: F,
    pub elo_lo: F,
    pub elo_hi: F,
    pub sims: u32,
    pub snakes: u32,
    pub wall_seconds: F,
    pub finished_unix_ms: i64,
}

/// A match in flight as it enters the ratings: its tally so far, all else
/// zero.
pub fn interim_summary<F: Copy>(
    seq: u64,
    gen: u32,
    opponent_gen: u32,
    wins: u32,
    losses: u32,
    draws: u32,
    now_ms: i64,
    zero: F,
) -> (s: EvalSummary<F>)
    requires
        wins + losses + draws <= u32::MAX,
    ensures
        s == (EvalSummary {
            seq,
            gen,
            opponent_gen,
            games: (wins + losses + draws) as u32,
            wins,
            losses,
            draws,
            score: zero,
            score_ci95: zero,
            elo: zero,
            elo_lo: zero,
            elo_hi: zero,
            sims: 0,
            snakes: 0,
            wall_seconds: zero,
            finished_unix_ms: now_ms,
        }),
{
    EvalSummary {
        seq,
        gen,
        opponent_gen,
        games: wins + losses + draws,
        wins,
        losses,
        draws,
        score: zero,
        score_ci95: zero,
        elo: zero,
        elo_lo: zero,
        elo_hi: zero,
        sims: 0,
        snakes: 0,
        wall_seconds: zero,
        finished_unix_ms: now_ms,
    }
}

/// What the arena reports of a finished match, from side A.
pub struct ArenaSummary<F> {
    pub a_wins: u32,
    pub b_wins: u32,
    pub draws: u32,
    pub score_a: F,
    pub score_ci95: F,
    pub elo_a_minus_b: F,
    pub elo_ci95: [F; 2],
    pub wall_seconds: F,
}

/// The record of a finished match between `gen` as side A and `opponent_gen`.
pub fn done_summary<F: Copy>(
    seq: u64,
    gen: u32,
    opponent_gen: u32,
    out: &ArenaSummary<F>,
    sims: u32,
    snakes: u32,
    now_ms: i64,
) -> (s: EvalSummary<F>)
    ensures
        s == (EvalSummary {
            seq,
            gen,
            opponent_gen,
            games: GAMES_PER_MATCH as u32,
            wins: out.a_wins,
            losses: out.b_wins,
            draws: out.draws,
            score: out.score_a,
            score_ci95: out.score_ci95,
            elo: out.elo_a_minus_b,
            elo_lo: out.elo_ci95@[0],
            elo_hi: out.elo_ci95@[1],
            sims,
            snakes,
            wall_seconds: out.wall_seconds,
            finished_unix_ms: now_ms,
        }),
{
    EvalSummary {
        seq,
        gen,
        opponent_gen,
        games: GAMES_PER_MATCH as u32,
        wins: out.a_wins,
        losses: out.b_wins,
        draws: out.draws,
        score: out.score_a,
        score_ci95: out.score_ci95,
        elo: out.elo_a_minus_b,
        elo_lo: out.elo_ci95[0],
        elo_hi: out.elo_ci95[1],
        sims,
        snakes,
        wall_seconds: out.wall_seconds,
        finished_unix_ms: now_ms,
    }
}

/// How many games a player has played; a match against itself counts twice.
pub open spec fn played<F>(matches: Seq<EvalSummary<F>>, g: u32) -> nat
    decreases matches.len(),
{
    if matches.len() == 0 {
        0
    } else {
        let m = matches.last();
        played(matches.drop_last(), g) + (if m.gen == g {
            m.games as nat
        } else {
            0nat
        }) + (if m.opponent_gen == g {
            m.games as nat
        } else {
            0nat
        })
    }
}

proof fn lemma_played_grows<F>(matches: Seq<EvalSummary<F>>, i: int, g: u32)
    requires
        0 <= i <= matches.len(),
    ensures
        played(matches.take(i), g) <= played(matches, g),
    decreases matches.len(),
{
    if i == matches.len() {
        assert(matches.take(i) =~= matches);
    } else {
        lemma_played_grows(matches.drop_last(), i, g);
        assert(matches.drop_last().take(i) =~= matches.take(i));
    }
}

/// How many games a player has played.
pub fn games_played<F>(matches: &Vec<EvalSummary<F>>, g: u32) -> (n: u64)
    requires
        played(matches@, g) <= u64::MAX,
    ensures
        n == played(matches@, g),
{
    let mut n: u64 = 0;
    let mut i: usize = 0;
    assert(matches@.take(0) =~= Seq::<EvalSummary<F>>::empty());
    while i < matches.len()
        invariant
            i <= matches@.len(),
            played(matches@, g) <= u64::MAX,
            n == played(matches@.take(i as int), g),
        decreases matches@.len() - i,
    {
        proof {
            assert(matches@.take(i + 1).drop_last() =~= matches@.take(i as int));
            lemma_played_grows(matches@, i + 1, g);
        }
        let m = &matches[i];
        if m.gen == g {
            n = n + m.games as u64;
        }
        if m.opponent_gen == g {
            n = n + m.games as u64;
        }
        i = i + 1;
    }
    assert(matches@.take(i as int) =~= matches@);
    n
}

/// Whether the games of every one of some players can be counted.
pub open spec fn games_fit<F>(gens: Seq<u32>, matches: Seq<EvalSummary<F>>) -> bool {
    forall|i: int| 0 <= i < gens.len() ==> played(matches, #[trigger] gens[i]) <= u64::MAX
}

/// Whether `a` goes before `b`: it has played less, or as much and is newer.
pub open spec fn more_urgent<F>(matches: Seq<EvalSummary<F>>, a: u32, b: u32) -> bool {
    played(matches, a) < played(matches, b) || (played(matches, a) == played(matches, b) && a > b)
}

/// The member of a pool that plays next: the least-played one, the newest of
/// those that tie.
pub fn least_played<F>(pool: &Vec<u32>, matches: &Vec<EvalSummary<F>>) -> (a: u32)
    requires
        pool@.len() > 0,
        games_fit(pool@, matches@),
    ensures
        pool@.contains(a),
        forall|i: int|
            0 <= i < pool@.len() ==> pool@[i] == a || more_urgent(
                matches@,
                a,
                #[trigger] pool@[i],
            ),
        forall|i: int|
            0 <= i < pool@.len() ==> played(matches@, a) <= played(matches@, #[trigger] pool@[i]) && (
            played(matches@, a) == played(matches@, pool@[i]) ==> a >= pool@[i]),
{
    let mut a: u32 = pool[0];
    let mut best: u64 = games_played(matches, a);
    let mut i: usize = 1;
    assert(pool@[0] == a);
    while i < pool.len()
        invariant
            1 <= i <= pool@.len(),
            games_fit(pool@, matches@),
            best == played(matches@, a),
            pool@.contains(a),
            forall|k: int|
                0 <= k < i ==> pool@[k] == a || more_urgent(matches@, a, #[trigger] pool@[k]),
        decreases pool@.len() - i,
    {
        let g: u32 = pool[i];
        let n: u64 = games_played(matches, g);
        if n < best || (n == best && g > a) {
            a = g;
            best = n;
        }
        i = i + 1;
    }
    a
}

/// A pool without one of its members.
pub open spec fn rivals(pool: Seq<u32>, a: u32) -> Seq<u32>
    decreases pool.len(),
{
    if pool.len() == 0 {
        Seq::empty()
    } else {
        let rest = rivals(pool.drop_last(), a);
        if pool.last() == a {
            rest
        } else {
            rest.push(pool.last())
        }
    }
}

/// The members that one of a pool can meet.
pub fn opponents(pool: &Vec<u32>, a: u32) -> (r: Vec<u32>)
    ensures
        r@ == rivals(pool@, a),
        forall|i: int|
            0 <= i < r@.len() ==> pool@.contains(#[trigger] r@[i]) && r@[i] != a,
{
    let mut r: Vec<u32> = Vec::new();
    let mut i: usize = 0;
    while i < pool.len()
        invariant
            i <= pool@.len(),
            r@ == rivals(pool@.take(i as int), a),
            forall|k: int| 0 <= k < r@.len() ==> pool@.contains(#[trigger] r@[k]) && r@[k] != a,
        decreases pool@.len() - i,
    {
        assert(pool@.take(i + 1).drop_last() =~= pool@.take(i as int));
        if pool[i] != a {
            assert(pool@.contains(pool@[i as int]));
            r.push(pool[i]);
        }
        i = i + 1;
    }
    assert(pool@.take(i as int) =~= pool@);
    r
}

/// The next pairing: the most urgent member against the opponent picked from
/// those it can meet.
pub fn pick_pairing<F>(pool: &Vec<u32>, matches: &Vec<EvalSummary<F>>, pick: usize) -> (r: Option<
    (u32, u32),
>)
    requires
        games_fit(pool@, matches@),
    ensures
        match r {
            Some((a, b)) => {
                &&& pool@.contains(a)
                &&& forall|i: int|
                    0 <= i < pool@.len() ==> pool@[i] == a || more_urgent(
                        matches@,
                        a,
                        #[trigger] pool@[i],
                    )
                &&& pick < rivals(pool@, a).len()
                &&& b == rivals(pool@, a)[pick as int]
                &&& pool@.contains(b)
                &&& a != b
            },
            None => pool@.len() == 0 || forall|a: u32|
                (pool@.contains(a) && forall|i: int|
                    0 <= i < pool@.len() ==> pool@[i] == a || more_urgent(
                        matches@,
                        a,
                        #[trigger] pool@[i],
                    )) ==> pick >= #[trigger] rivals(pool@, a).len(),
        },
{
    if pool.len() == 0 {
        return None;
    }
    let a: u32 = least_played(pool, matches);
    let others = opponents(pool, a);
    if pick < others.len() {
        Some((a, others[pick]))
    } else {
        proof {
            assert forall|b: u32|
                (pool@.contains(b) && forall|i: int|
                    0 <= i < pool@.len() ==> pool@[i] == b || more_urgent(
                        matches@,
                        b,
                        #[trigger] pool@[i],
                    )) implies pick >= #[trigger] rivals(pool@, b).len() by {
                let i = choose|i: int| 0 <= i < pool@.len() && pool@[i] == b;
                let k = choose|k: int| 0 <= k < pool@.len() && pool@[k] == a;
                assert(pool@[i] == a || more_urgent(matches@, a, pool@[i]));
                assert(pool@[k] == b || more_urgent(matches@, b, pool@[k]));
                assert(a == b);
            }
        }
        None
    }
}

/// What player `a` is credited with against player `b`, in quarters of a win: a
/// draw is worth half a win to each.
pub open spec fn credit<F>(matches: Seq<EvalSummary<F>>, a: u32, b: u32) -> nat
    decreases matches.len(),
{
    if matches.len() == 0 {
        0
    } else {
        let m = matches.last();
        credit(matches.drop_last(), a, b) + (if m.gen == a && m.opponent_gen == b {
            4 * m.wins as nat + 2 * m.draws as nat
        } else {
            0nat
        }) + (if m.opponent_gen == a && m.gen == b {
            4 * m.losses as nat + 2 * m.draws as nat
        } else {
            0nat
        })
    }
}

/// What player `i` of a list is credited with against player `j`: the matches,
/// and a quarter of a win between neighbours.
pub open spec fn table_entry<F>(
    matches: Seq<EvalSummary<F>>,
    gens: Seq<u32>,
    i: int,
    j: int,
) -> nat {
    credit(matches, gens[i], gens[j]) + if i + 1 == j || j + 1 == i {
        1nat
    } else {
        0nat
    }
}

/// Whether every entry of the table between some players can be counted.
pub open spec fn entries_fit<F>(gens: Seq<u32>, matches: Seq<EvalSummary<F>>) -> bool {
    forall|i: int, j: int|
        0 <= i < gens.len() && 0 <= j < gens.len() ==> #[trigger] table_entry(matches, gens, i, j)
            <= u64::MAX
}

proof fn lemma_credit_grows<F>(matches: Seq<EvalSummary<F>>, i: int, a: u32, b: u32)
    requires
        0 <= i <= matches.len(),
    ensures
        credit(matches.take(i), a, b) <= credit(matches, a, b),
    decreases matches.len(),
{
    if i == matches.len() {
        assert(matches.take(i) =~= matches);
    } else {
        lemma_credit_grows(matches.drop_last(), i, a, b);
        assert(matches.drop_last().take(i) =~= matches.take(i));
    }
}

/// What one player is credited with against another, in quarters of a win.
fn credit_of<F>(matches: &Vec<EvalSummary<F>>, a: u32, b: u32) -> (n: u64)
    requires
        credit(matches@, a, b) <= u64::MAX,
    ensures
        n == credit(matches@, a, b),
{
    let mut n: u64 = 0;
    let mut i: usize = 0;
    assert(matches@.take(0) =~= Seq::<EvalSummary<F>>::empty());
    while i < matches.len()
        invariant
            i <= matches@.len(),
            credit(matches@, a, b) <= u64::MAX,
            n == credit(matches@.take(i as int), a, b),
        decreases matches@.len() - i,
    {
        proof {
            assert(matches@.take(i + 1).drop_last() =~= matches@.take(i as int));
            lemma_credit_grows(matches@, i + 1, a, b);
        }
        let m = &matches[i];
        if m.gen == a && m.opponent_gen == b {
            n = n + 4 * m.wins as u64 + 2 * m.draws as u64;
        }
        if m.opponent_gen == a && m.gen == b {
            n = n + 4 * m.losses as u64 + 2 * m.draws as u64;
        }
        i = i + 1;
    }
    assert(matches@.take(i as int) =~= matches@);
    n
}

/// The players of all matches.
pub open spec fn match_players<F>(matches: Seq<EvalSummary<F>>) -> Seq<u32>
    decreases matches.len(),
{
    if matches.len() == 0 {
        Seq::empty()
    } else {
        match_players(matches.drop_last()).push(matches.last().gen).push(
            matches.last().opponent_gen,
        )
    }
}

/// Everybody who gets a rating: the pool and all who ever played, ascending.
pub fn rated_players<F>(pool: &Vec<u32>, matches: &Vec<EvalSummary<F>>) -> (gens: Vec<u32>)
    ensures
        order::is_sorted_set(pool@ + match_players(matches@), gens@),
{
    let mut all = lists::copy_u32s(pool);
    let mut i: usize = 0;
    assert(matches@.take(0) =~= Seq::<EvalSummary<F>>::empty());
    assert(pool@ + match_players(matches@.take(0)) =~= pool@);
    while i < matches.len()
        invariant
            i <= matches@.len(),
            all@ == pool@ + match_players(matches@.take(i as int)),
        decreases matches@.len() - i,
    {
        assert(matches@.take(i + 1).drop_last() =~= matches@.take(i as int));
        all.push(matches[i].gen);
        all.push(matches[i].opponent_gen);
        i = i + 1;
        assert(all@ =~= pool@ + match_players(matches@.take(i as int)));
    }
    assert(matches@.take(i as int) =~= matches@);
    order::sorted_set(&all)
}

/// The table that the ratings are fitted from, in quarters of a win.
pub fn win_table<F>(gens: &Vec<u32>, matches: &Vec<EvalSummary<F>>) -> (t: Vec<Vec<u64>>)
    requires
        entries_fit(gens@, matches@),
    ensures
        t@.len() == gens@.len(),
        forall|i: int|
            0 <= i < gens@.len() ==> (#[trigger] t@[i])@ == Seq::new(
                gens@.len(),
                |j: int| table_entry(matches@, gens@, i, j) as u64,
            ),
        forall|i: int, j: int|
            0 <= i < gens@.len() && 0 <= j < gens@.len() ==> #[trigger] t@[i]@[j] == table_entry(
                matches@,
                gens@,
                i,
                j,
            ),
{
    let n: usize = gens.len();
    let mut t: Vec<Vec<u64>> = Vec::new();
    let mut i: usize = 0;
    while i < n
        invariant
            i <= n,
            n == gens@.len(),
            entries_fit(gens@, matches@),
            t@.len() == i,
            forall|k: int|
                0 <= k < i ==> (#[trigger] t@[k])@ == Seq::new(
                    n as nat,
                    |j: int| table_entry(matches@, gens@, k, j) as u64,
                ),
            forall|k: int, j: int|
                0 <= k < i && 0 <= j < n ==> #[trigger] t@[k]@[j] == table_entry(
                    matches@,
                    gens@,
                    k,
                    j,
                ),
        decreases n - i,
    {
        let mut row: Vec<u64> = Vec::new();
        let mut j: usize = 0;
        while j < n
            invariant
                i < n,
                j <= n,
                n == gens@.len(),
                entries_fit(gens@, matches@),
                row@.len() == j,
                forall|k: int|
                    0 <= k < j ==> #[trigger] row@[k] == table_entry(
                        matches@,
                        gens@,
                        i as int,
                        k,
                    ),
            decreases n - j,
        {
            assert(table_entry(matches@, gens@, i as int, j as int) <= u64::MAX);
            let c: u64 = credit_of(matches, gens[i], gens[j]);
            let near = (j > 0 && j - 1 == i) || (i > 0 && i - 1 == j);
            row.push(
                if near {
                    c + 1
                } else {
                    c
                },
            );
            j = j + 1;
        }
        assert(row@ =~= Seq::new(
            n as nat,
            |j: int| table_entry(matches@, gens@, i as int, j) as u64,
        ));
        t.push(row);
        i = i + 1;
    }
    t
}

/// What one player won in a match is what the other lost: the credits of a pair
/// of players add up to four quarters per decided or drawn game.
pub proof fn credits_are_shared<F>(matches: Seq<EvalSummary<F>>, a: u32, b: u32)
    requires
        a != b,
    ensures
        credit(matches, a, b) + credit(matches, b, a) == 4 * decided(matches, a, b),
    decreases matches.len(),
{
    if matches.len() > 0 {
        credits_are_shared(matches.drop_last(), a, b);
    }
}

/// The decided and drawn games of a pair of players.
pub open spec fn decided<F>(matches: Seq<EvalSummary<F>>, a: u32, b: u32) -> nat
    decreases matches.len(),
{
    if matches.len() == 0 {
        0
    } else {
        let m = matches.last();
        decided(matches.drop_last(), a, b) + if (m.gen == a && m.opponent_gen == b) || (m.gen == b
            && m.opponent_gen == a) {
            m.wins as nat + m.losses as nat + m.draws as nat
        } else {
            0nat
        }
    }
}

/// One player's tally over all matches.
#[derive(Clone, Copy, Debug, PartialEq, Eq, Structural)]
pub struct PlayerTally {
    pub games: u64,
    pub wins: u64,
    pub losses: u64,
    pub draws: u64,
}

/// The sum over all matches of what `f` takes from a match for one side and
/// `h` for the other.
pub open spec fn side_sum<F>(
    matches: Seq<EvalSummary<F>>,
    g: u32,
    f: spec_fn(EvalSummary<F>) -> nat,
    h: spec_fn(EvalSummary<F>) -> nat,
) -> nat
    decreases matches.len(),
{
    if matches.len() == 0 {
        0
    } else {
        let m = matches.last();
        side_sum(matches.drop_last(), g, f, h) + (if m.gen == g {
            f(m)
        } else {
            0nat
        }) + (if m.opponent_gen == g {
            h(m)
        } else {
            0nat
        })
    }
}

/// Whether a tally counts a player's matches: one side's wins are the other's
/// losses.
pub open spec fn tallies_player<F>(t: PlayerTally, matches: Seq<EvalSummary<F>>, g: u32) -> bool {
    &&& t.games == played(matches, g)
    &&& t.wins == side_sum(
        matches,
        g,
        |m: EvalSummary<F>| m.wins as nat,
        |m: EvalSummary<F>| m.losses as nat,
    )
    &&& t.losses == side_sum(
        matches,
        g,
        |m: EvalSummary<F>| m.losses as nat,
        |m: EvalSummary<F>| m.wins as nat,
    )
    &&& t.draws == side_sum(
        matches,
        g,
        |m: EvalSummary<F>| m.draws as nat,
        |m: EvalSummary<F>| m.draws as nat,
    )
}

/// Whether everything that a tally counts of a player can be counted.
pub open spec fn tally_fits<F>(matches: Seq<EvalSummary<F>>, g: u32) -> bool {
    &&& played(matches, g) <= u64::MAX
    &&& side_sum(
        matches,
        g,
        |m: EvalSummary<F>| m.wins as nat,
        |m: EvalSummary<F>| m.losses as nat,
    ) <= u64::MAX
    &&& side_sum(
        matches,
        g,
        |m: EvalSummary<F>| m.losses as nat,
        |m: EvalSummary<F>| m.wins as nat,
    ) <= u64::MAX
    &&& side_sum(
        matches,
        g,
        |m: EvalSummary<F>| m.draws as nat,
        |m: EvalSummary<F>| m.draws as nat,
    ) <= u64::MAX
}

proof fn lemma_side_sum_grows<F>(
    matches: Seq<EvalSummary<F>>,
    i: int,
    g: u32,
    f: spec_fn(EvalSummary<F>) -> nat,
    h: spec_fn(EvalSummary<F>) -> nat,
)
    requires
        0 <= i <= matches.len(),
    ensures
        side_sum(matches.take(i), g, f, h) <= side_sum(matches, g, f, h),
    decreases matches.len(),
{
    if i == matches.len() {
        assert(matches.take(i) =~= matches);
    } else {
        lemma_side_sum_grows(matches.drop_last(), i, g, f, h);
        assert(matches.drop_last().take(i) =~= matches.take(i));
    }
}

/// One player's tally over all matches.
pub fn tally_player<F>(matches: &Vec<EvalSummary<F>>, g: u32) -> (t: PlayerTally)
    requires
        tally_fits(matches@, g),
    ensures
        tallies_player(t, matches@, g),
{
    let ghost fw = |m: EvalSummary<F>| m.wins as nat;
    let ghost fl = |m: EvalSummary<F>| m.losses as nat;
    let ghost fd = |m: EvalSummary<F>| m.draws as nat;
    let games: u64 = games_played(matches, g);
    let mut wins: u64 = 0;
    let mut losses: u64 = 0;
    let mut draws: u64 = 0;
    let mut i: usize = 0;
    assert(matches@.take(0) =~= Seq::<EvalSummary<F>>::empty());
    while i < matches.len()
        invariant
            i <= matches@.len(),
            tally_fits(matches@, g),
            fw == (|m: EvalSummary<F>| m.wins as nat),
            fl == (|m: EvalSummary<F>| m.losses as nat),
            fd == (|m: EvalSummary<F>| m.draws as nat),
            wins == side_sum(matches@.take(i as int), g, fw, fl),
            losses == side_sum(matches@.take(i as int), g, fl, fw),
            draws == side_sum(matches@.take(i as int), g, fd, fd),
        decreases matches@.len() - i,
    {
        proof {
            assert(matches@.take(i + 1).drop_last() =~= matches@.take(i as int));
            lemma_side_sum_grows(matches@, i + 1, g, fw, fl);
            lemma_side_sum_grows(matches@, i + 1, g, fl, fw);
            lemma_side_sum_grows(matches@, i + 1, g, fd, fd);
        }
        let m = &matches[i];
        if m.gen == g {
            wins = wins + m.wins as u64;
            losses = losses + m.losses as u64;
            draws = draws + m.draws as u64;
        }
        if m.opponent_gen == g {
            wins = wins + m.losses as u64;
            losses = losses + m.wins as u64;
            draws = draws + m.draws as u64;
        }
        i = i + 1;
    }
    assert(matches@.take(i as int) =~= matches@);
    PlayerTally { games, wins, losses, draws }
}

/// What up to 2^26 matches add up to can always be counted.
pub proof fn short_history_fits<F>(matches: Seq<EvalSummary<F>>, gens: Seq<u32>)
    requires
        matches.len() <= 0x400_0000,
    ensures
        games_fit(gens, matches),
        entries_fit(gens, matches),
        forall|g: u32| #[trigger] tally_fits(matches, g),
{
    assert(matches.len() * 0xb_ffff_fff4 < u64::MAX) by (nonlinear_arith)
        requires
            matches.len() <= 0x400_0000,
    ;
    assert forall|g: u32| #[trigger] tally_fits(matches, g) by {
        lemma_history_bound(matches, g, g);
    }
    assert forall|i: int| 0 <= i < gens.len() implies played(matches, #[trigger] gens[i])
        <= u64::MAX by {
        lemma_history_bound(matches, gens[i], gens[i]);
    }
    assert forall|i: int, j: int| 0 <= i < gens.len() && 0 <= j < gens.len() implies #[trigger]
    table_entry(matches, gens, i, j) <= u64::MAX by {
        lemma_history_bound(matches, gens[i], gens[j]);
    }
}

proof fn lemma_history_bound<F>(matches: Seq<EvalSummary<F>>, a: u32, b: u32)
    ensures
        played(matches, a) <= matches.len() * 0xb_ffff_fff4,
        credit(matches, a, b) <= matches.len() * 0xb_ffff_fff4,
        side_sum(
            matches,
            a,
            |m: EvalSummary<F>| m.wins as nat,
            |m: EvalSummary<F>| m.losses as nat,
        ) <= matches.len() * 0xb_ffff_fff4,
        side_sum(
            matches,
            a,
            |m: EvalSummary<F>| m.losses as nat,
            |m: EvalSummary<F>| m.wins as nat,
        ) <= matches.len() * 0xb_ffff_fff4,
        side_sum(
            matches,
            a,
            |m: EvalSummary<F>| m.draws as nat,
            |m: EvalSummary<F>| m.draws as nat,
        ) <= matches.len() * 0xb_ffff_fff4,
    decreases matches.len(),
{
    if matches.len() > 0 {
        lemma_history_bound(matches.drop_last(), a, b);
        assert((matches.len() - 1) * 0xb_ffff_fff4 + 0xb_ffff_fff4 == matches.len()
            * 0xb_ffff_fff4) by (nonlinear_arith);
    }
}

/// One player's row in the ratings.
#[derive(Clone, Copy, Debug, PartialEq, Eq, Structural)]
pub struct PlayerRow {
    pub gen: u32,
    pub tally: PlayerTally,
}

/// The players among `gens` that have played a game, in their order.
pub open spec fn with_games<F>(gens: Seq<u32>, matches: Seq<EvalSummary<F>>) -> Seq<u32> {
    gens.filter(|g: u32| played(matches, g) > 0)
}

/// The rows of the ratings: one for each of the given players that has at least
/// one recorded game, in their order.
pub fn player_rows<F>(gens: &Vec<u32>, matches: &Vec<EvalSummary<F>>) -> (rows: Vec<PlayerRow>)
    requires
        forall|i: int| 0 <= i < gens@.len() ==> tally_fits(matches@, #[trigger] gens@[i]),
    ensures
        rows@.len() == with_games(gens@, matches@).len(),
        forall|i: int|
            0 <= i < rows@.len() ==> (#[trigger] rows@[i]).gen == with_games(gens@, matches@)[i]
                && tallies_player(rows@[i].tally, matches@, rows@[i].gen),
{
    let ghost has = |g: u32| played(matches@, g) > 0;
    let mut rows: Vec<PlayerRow> = Vec::new();
    let mut i: usize = 0;
    proof {
        reveal(Seq::filter);
        assert(gens@.take(0).filter(has) =~= Seq::<u32>::empty());
    }
    while i < gens.len()
        invariant
            i <= gens@.len(),
            forall|k: int| 0 <= k < gens@.len() ==> tally_fits(matches@, #[trigger] gens@[k]),
            has == (|g: u32| played(matches@, g) > 0),
            rows@.len() == gens@.take(i as int).filter(has).len(),
            forall|k: int|
                0 <= k < rows@.len() ==> (#[trigger] rows@[k]).gen == gens@.take(i as int).filter(
                    has,
                )[k] && tallies_player(rows@[k].tally, matches@, rows@[k].gen),
        decreases gens@.len() - i,
    {
        let gen: u32 = gens[i];
        let ghost before = gens@.take(i as int).filter(has);
        proof {
            reveal(Seq::filter);
            assert(gens@.take(i + 1).drop_last() =~= gens@.take(i as int));
            assert(gens@.take(i + 1).filter(has) == if has(gen) {
                before.push(gen)
            } else {
                before
            });
        }
        let tally = tally_player(matches, gen);
        if tally.games > 0 {
            rows.push(PlayerRow { gen, tally });
        }
        i = i + 1;
    }
    assert(gens@.take(i as int) =~= gens@);
    rows
}

/// What follows the first of the known prefixes of a name.
pub open spec fn after_prefix(name: Seq<char>) -> Option<Seq<char>> {
    if text::starts_with(name, "match_"@) {
        Some(name.skip(6))
    } else if text::starts_with(name, "arena_"@) {
        Some(name.skip(6))
    } else if text::starts_with(name, "out_"@) {
        Some(name.skip(4))
    } else {
        None
    }
}

/// `s` up to its first underscore or dot.
pub open spec fn first_field(s: Seq<char>) -> Seq<char>
    decreases s.len(),
{
    if s.len() == 0 || s[0] == '_' || s[0] == '.' {
        Seq::empty()
    } else {
        seq![s[0]] + first_field(s.skip(1))
    }
}

/// The match that a file belongs to, from its name.
pub open spec fn match_seq(name: Seq<char>) -> Option<nat> {
    match after_prefix(name) {
        Some(rest) => text::parse_bounded(first_field(rest), u64::MAX as nat),
        None => None,
    }
}

/// The end of the field that begins at `lo`.
fn field_end(s: &Vec<char>, lo: usize) -> (hi: usize)
    requires
        lo <= s@.len(),
    ensures
        lo <= hi <= s@.len(),
        s@.subrange(lo as int, hi as int) == first_field(s@.skip(lo as int)),
{
    let len: usize = s.len();
    let mut hi: usize = lo;
    assert(s@.subrange(lo as int, lo as int) =~= Seq::<char>::empty());
    assert(Seq::<char>::empty() + first_field(s@.skip(lo as int)) =~= first_field(
        s@.skip(lo as int),
    ));
    while hi < len && s[hi] != '_' && s[hi] != '.'
        invariant
            lo <= hi <= len,
            len == s@.len(),
            s@.subrange(lo as int, hi as int) + first_field(s@.skip(hi as int)) == first_field(
                s@.skip(lo as int),
            ),
        decreases len - hi,
    {
        let ghost t = s@.skip(hi as int);
        assert(t[0] == s@[hi as int]);
        assert(t.skip(1) =~= s@.skip(hi + 1));
        assert(s@.subrange(lo as int, hi + 1) =~= s@.subrange(lo as int, hi as int).push(
            s@[hi as int],
        ));
        assert(s@.subrange(lo as int, hi + 1) + first_field(s@.skip(hi + 1)) =~= s@.subrange(
            lo as int,
            hi as int,
        ) + first_field(t));
        hi = hi + 1;
    }
    assert(first_field(s@.skip(hi as int)) =~= Seq::<char>::empty()) by {
        if hi < len {
            assert(s@.skip(hi as int)[0] == s@[hi as int]);
        }
    }
    assert(s@.subrange(lo as int, hi as int) + Seq::<char>::empty() =~= s@.subrange(
        lo as int,
        hi as int,
    ));
    hi
}

/// The match that a file belongs to, from its name.
pub fn file_match(name: &Vec<char>) -> (r: Option<u64>)
    ensures
        match r {
            Some(v) => match_seq(name@) == Some(v as nat),
            None => match_seq(name@) is None,
        },
{
    proof {
        reveal_strlit("match_");
        reveal_strlit("arena_");
        reveal_strlit("out_");
    }
    let lo: usize = if text::has_prefix(name, "match_") || text::has_prefix(name, "arena_") {
        6
    } else if text::has_prefix(name, "out_") {
        4
    } else {
        return None;
    };
    let hi: usize = field_end(name, lo);
    text::parse_range(name, lo, hi, u64::MAX)
}

/// The matches that a directory's files belong to.
pub open spec fn file_matches(names: Seq<Vec<char>>) -> Seq<u64>
    decreases names.len(),
{
    if names.len() == 0 {
        Seq::empty()
    } else {
        let rest = file_matches(names.drop_last());
        match match_seq(names.last()@) {
            Some(v) => rest.push(v as u64),
            None => rest,
        }
    }
}

/// Whether a file belongs to a match older than the newest `keep`: `newest` are
/// the matches on disk, newest first.
pub open spec fn is_stale(name: Seq<char>, newest: Seq<u64>, keep: int) -> bool {
    match_seq(name) matches Some(v) && newest.len() > keep && v < newest[keep - 1]
}

/// Which files to delete so that those of the newest `keep` matches stay;
/// other files are never touched.
pub fn prune_match_files(names: &Vec<Vec<char>>, keep: usize) -> (gone: Vec<usize>)
    requires
        keep > 0 || file_matches(names@).len() == 0,
    ensures
        exists|newest: Seq<u64>| #[trigger]
            order::is_descending_set(file_matches(names@), newest) && gone@ == lists::indices_where(
                names@.len(),
                |i: int| is_stale(names@[i]@, newest, keep as int),
            ),
{
    let mut all: Vec<u64> = Vec::new();
    let mut i: usize = 0;
    assert(names@.take(0) =~= Seq::<Vec<char>>::empty());
    while i < names.len()
        invariant
            i <= names@.len(),
            all@ == file_matches(names@.take(i as int)),
        decreases names@.len() - i,
    {
        assert(names@.take(i + 1).drop_last() =~= names@.take(i as int));
        match file_match(&names[i]) {
            Some(v) => {
                all.push(v);
            },
            None => {},
        }
        i = i + 1;
    }
    assert(names@.take(i as int) =~= names@);
    let newest = order::descending_set(&all);
    let ghost stale = |i: int| is_stale(names@[i]@, newest@, keep as int);
    let many = newest.len() > keep;
    assert(many ==> keep > 0) by {
        if many {
            assert(newest@.contains(newest@[0]));
        }
    }
    let mut gone: Vec<usize> = Vec::new();
    let mut k: usize = 0;
    while k < names.len()
        invariant
            k <= names@.len(),
            many ==> keep > 0,
            many == (newest@.len() > keep),
            stale == (|i: int| is_stale(names@[i]@, newest@, keep as int)),
            gone@ == lists::indices_where(k as nat, stale),
        decreases names@.len() - k,
    {
        let old = match file_match(&names[k]) {
            Some(v) => many && v < newest[keep - 1],
            None => false,
        };
        assert(old == stale(k as int));
        if old {
            gone.push(k);
        }
        k = k + 1;
    }
    assert(order::is_descending_set(file_matches(names@), newest@));
    gone
}

/// The number of cores per side: as configured, half the machine at the most,
/// one at the least.
pub open spec fn cores_per_side(configured: nat, total: nat) -> nat {
    let a = if configured < 1 {
        1
    } else {
        configured
    };
    let b = if a < total / 2 {
        a
    } else {
        total / 2
    };
    if b < 1 {
        1
    } else {
        b
    }
}

/// The cores from `lo` to `hi`, with commas between.
pub open spec fn core_list(lo: nat, hi: nat) -> Seq<char>
    decreases hi - lo,
{
    if lo >= hi {
        Seq::empty()
    } else if lo + 1 == hi {
        text::dec(lo)
    } else {
        core_list(lo, (hi - 1) as nat).push(',') + text::dec((hi - 1) as nat)
    }
}

/// `a` less `b`, zero at the least.
pub open spec fn less(a: nat, b: nat) -> nat {
    if a < b {
        0
    } else {
        (a - b) as nat
    }
}

/// The cores from `lo` to `hi`, with commas between.
fn list_cores(lo: usize, hi: usize) -> (s: String)
    ensures
        s@ == core_list(lo as nat, hi as nat),
{
    let mut s = String::new();
    if lo >= hi {
        assert(s@ =~= core_list(lo as nat, hi as nat));
        return s;
    }
    text::push_dec(&mut s, lo as u64, 0);
    let mut c: usize = lo + 1;
    assert(s@ =~= core_list(lo as nat, c as nat));
    while c < hi
        invariant
            lo < c <= hi,
            s@ == core_list(lo as nat, c as nat),
        decreases hi - c,
    {
        s.push(',');
        text::push_dec(&mut s, c as u64, 0);
        c = c + 1;
    }
    s
}

/// Which cores the two sides of a match run on, on a machine with `total`
/// cores: the second side has the topmost ones, the first those below.
pub fn eval_cores(per_side: usize, total: usize) -> (r: (String, String))
    ensures
        ({
            let k = cores_per_side(per_side as nat, total as nat);
            let b_lo = less(total as nat, k);
            let a_lo = less(total as nat, 2 * k);
            &&& r.0@ == core_list(a_lo, b_lo)
            &&& r.1@ == core_list(b_lo, total as nat)
        }),
{
    let a: usize = if per_side < 1 { 1 } else { per_side };
    let half: usize = total / 2;
    let b: usize = if a < half { a } else { half };
    let k: usize = if b < 1 { 1 } else { b };
    let b_lo: usize = total.saturating_sub(k);
    let a_lo: usize = b_lo.saturating_sub(k);
    (list_cores(a_lo, b_lo), list_cores(b_lo, total))
}

/// On a machine with two cores or more both sides have the same number of
/// cores, and none in common.
pub proof fn sides_share_no_core(per_side: nat, total: nat)
    requires
        total >= 2,
    ensures
        ({
            let k = cores_per_side(per_side, total);
            let b_lo = less(total, k);
            let a_lo = less(total, 2 * k);
            b_lo - a_lo == k && total - b_lo == k && k >= 1
        }),
{
}

/// The recording of a match.
pub open spec fn match_file(seq: u64, a: u32, b: u32) -> Seq<char> {
    "match_"@ + text::dec_padded(seq as nat, 6) + "_"@ + text::dec_padded(a as nat, 4) + "_vs_"@
        + text::dec_padded(b as nat, 4) + ".json"@
}

/// The recording of a match.
pub fn match_file_name(seq: u64, a: u32, b: u32) -> (s: String)
    ensures
        s@ == match_file(seq, a, b),
{
    let mut s = String::new();
    s.append("match_");
    text::push_dec(&mut s, seq, 6);
    s.append("_");
    text::push_dec(&mut s, a as u64, 4);
    s.append("_vs_");
    text::push_dec(&mut s, b as u64, 4);
    s.append(".json");
    assert(s@ =~= match_file(seq, a, b));
    s
}

/// What the arena reports of a match.
pub open spec fn out_file(seq: u64) -> Seq<char> {
    "out_"@ + text::dec_padded(seq as nat, 6) + ".json"@
}

/// What the arena reports of a match.
pub fn out_file_name(seq: u64) -> (s: String)
    ensures
        s@ == out_file(seq),
{
    let mut s = String::new();
    s.append("out_");
    text::push_dec(&mut s, seq, 6);
    s.append(".json");
    assert(s@ =~= out_file(seq));
    s
}

/// The arena's log of a match.
pub open spec fn arena_log(seq: u64) -> Seq<char> {
    "arena_"@ + text::dec_padded(seq as nat, 6) + ".log"@
}

/// The arena's log of a match.
pub fn arena_log_name(seq: u64) -> (s: String)
    ensures
        s@ == arena_log(seq),
{
    let mut s = String::new();
    s.append("arena_");
    text::push_dec(&mut s, seq, 6);
    s.append(".log");
    assert(s@ =~= arena_log(seq));
    s
}

/// A number that an underscore or a dot follows is the first field.
proof fn lemma_first_field(digits: Seq<char>, tail: Seq<char>)
    requires
        text::all_digits(digits),
        tail.len() > 0,
        tail[0] == '_' || tail[0] == '.',
    ensures
        first_field(digits + tail) == digits,
    decreases digits.len(),
{
    let s = digits + tail;
    if digits.len() == 0 {
        assert(s =~= tail);
    } else {
        assert(s[0] == digits[0]);
        assert(text::is_digit(digits[0]));
        assert(s.skip(1) =~= digits.skip(1) + tail);
        lemma_first_field(digits.skip(1), tail);
        assert(seq![digits[0]] + digits.skip(1) =~= digits);
    }
}

/// The names of a match's files read back as the number of the match: what is
/// written of a match is pruned with it.
pub proof fn match_files_read_back(seq: u64, a: u32, b: u32)
    ensures
        match_seq(match_file(seq, a, b)) == Some(seq as nat),
        match_seq(out_file(seq)) == Some(seq as nat),
        match_seq(arena_log(seq)) == Some(seq as nat),
{
    reveal_strlit("match_");
    reveal_strlit("arena_");
    reveal_strlit("out_");
    reveal_strlit("_");
    reveal_strlit(".json");
    reveal_strlit(".log");
    let digits = text::dec_padded(seq as nat, 6);
    text::dec_padded_reads_back(seq as nat, 6);
    let players = "_"@ + text::dec_padded(a as nat, 4) + "_vs_"@ + text::dec_padded(b as nat, 4)
        + ".json"@;
    let (m, o, l) = (match_file(seq, a, b), out_file(seq), arena_log(seq));
    assert(m.take(6) =~= "match_"@);
    assert(m.skip(6) =~= digits + players);
    assert(players[0] == '_');
    lemma_first_field(digits, players);
    assert(l.take(6) =~= "arena_"@);
    assert(l[0] == 'a');
    assert(l.skip(6) =~= digits + ".log"@);
    lemma_first_field(digits, ".log"@);
    assert(o.take(4) =~= "out_"@);
    assert(o[0] == 'o');
    assert(o.skip(4) =~= digits + ".json"@);
    lemma_first_field(digits, ".json"@);
    assert("match_"@[0] == 'm' && "arena_"@[0] == 'a');
}

/// A number in decimal.
fn dec_string(n: u64) -> (s: String)
    ensures
        s@ == text::dec(n as nat),
{
    let mut s = String::new();
    text::push_dec(&mut s, n, 0);
    assert(s@ =~= text::dec(n as nat));
    s
}

/// The name of a generation's player.
fn gen_string(g: u32) -> (s: String)
    ensures
        s@ == "gen_"@ + text::dec_padded(g as nat, 4),
{
    let mut s = String::new();
    s.append("gen_");
    text::push_dec(&mut s, g as u64, 4);
    assert(s@ =~= "gen_"@ + text::dec_padded(g as nat, 4));
    s
}

/// What a match is played with.
pub struct MatchSetup {
    pub gen_a: u32,
    pub gen_b: u32,
    pub seq: u64,
    pub sims: usize,
    pub snakes: usize,
    pub board: u8,
    /// The weights of the two sides.
    pub net_a: String,
    pub net_b: String,
    pub cores_a: String,
    pub cores_b: String,
    /// Where the games and the result go.
    pub record: String,
    pub out: String,
}

/// The texts of a list of strings.
pub open spec fn words(v: Seq<String>) -> Seq<Seq<char>> {
    v.map_values(|s: String| s@)
}

/// The arguments of the arena program for a match.
pub open spec fn arena_words(m: &MatchSetup) -> Seq<Seq<char>> {
    seq![
        "--a"@,
        m.net_a@,
        "--b"@,
        m.net_b@,
        "--name-a"@,
        "gen_"@ + text::dec_padded(m.gen_a as nat, 4),
        "--name-b"@,
        "gen_"@ + text::dec_padded(m.gen_b as nat, 4),
        "--games"@,
        text::dec(GAMES_PER_MATCH as nat),
        "--sims"@,
        text::dec(m.sims as nat),
        "--snakes"@,
        text::dec(m.snakes as nat),
        "--board"@,
        text::dec(m.board as nat),
        "--cores-a"@,
        m.cores_a@,
        "--cores-b"@,
        m.cores_b@,
        "--seed"@,
        text::dec(m.seq.wrapping_mul(1_000_003) as nat),
        "--record-gen"@,
        text::dec(m.gen_a as nat),
        "--record"@,
        m.record@,
        "--out"@,
        m.out@,
        "--events"@,
    ]
}

/// Adds an option and its value to a list of arguments.
fn push_option(v: &mut Vec<String>, option: &str, value: String)
    ensures
        words(final(v)@) == words(old(v)@).push(option@).push(value@),
{
    let ghost before = v@;
    v.push(option.to_owned());
    v.push(value);
    assert(words(v@) =~= words(before).push(option@).push(value@));
}

/// The arguments of the arena program for a match.
pub fn arena_args(m: &MatchSetup) -> (v: Vec<String>)
    ensures
        words(v@) == arena_words(m),
{
    let mut v: Vec<String> = Vec::new();
    assert(words(v@) =~= Seq::<Seq<char>>::empty());
    push_option(&mut v, "--a", text::copy_str(m.net_a.as_str()));
    push_option(&mut v, "--b", text::copy_str(m.net_b.as_str()));
    push_option(&mut v, "--name-a", gen_string(m.gen_a));
    push_option(&mut v, "--name-b", gen_string(m.gen_b));
    push_option(&mut v, "--games", dec_string(GAMES_PER_MATCH as u64));
    push_option(&mut v, "--sims", dec_string(m.sims as u64));
    push_option(&mut v, "--snakes", dec_string(m.snakes as u64));
    push_option(&mut v, "--board", dec_string(m.board as u64));
    push_option(&mut v, "--cores-a", text::copy_str(m.cores_a.as_str()));
    push_option(&mut v, "--cores-b", text::copy_str(m.cores_b.as_str()));
    push_option(&mut v, "--seed", dec_string(m.seq.wrapping_mul(1_000_003)));
    push_option(&mut v, "--record-gen", dec_string(m.gen_a as u64));
    push_option(&mut v, "--record", text::copy_str(m.record.as_str()));
    push_option(&mut v, "--out", text::copy_str(m.out.as_str()));
    let ghost before = v@;
    v.push("--events".to_owned());
    assert(words(v@) =~= words(before).push("--events"@));
    assert(words(v@) =~= arena_words(m));
    v
}

/// A game of a match in flight.
#[derive(Clone, Copy, Debug, PartialEq, Eq, Structural)]
pub struct LiveGame {
    pub index: u32,
    pub turn: u32,
}

/// A match in flight.
pub struct LiveMatch {
    pub wins: u32,
    pub losses: u32,
    pub draws: u32,
    /// The games in flight, by index.
    pub games: Vec<LiveGame>,
}

/// A line that the arena reports.
pub struct GameEvent {
    pub event: String,
    pub index: u32,
    pub turn: u32,
    pub winner: Option<String>,
}

/// Whether games are listed once each, by index.
pub open spec fn by_index(games: Seq<LiveGame>) -> bool {
    forall|i: int, j: int|
        0 <= i < j < games.len() ==> (#[trigger] games[i]).index < (#[trigger] games[j]).index
}

/// The turn at which the list has game `index`.
pub open spec fn turn_of(games: Seq<LiveGame>, index: u32) -> Option<u32>
    decreases games.len(),
{
    if games.len() == 0 {
        None
    } else if games.last().index == index {
        Some(games.last().turn)
    } else {
        turn_of(games.drop_last(), index)
    }
}

proof fn lemma_turn_of(games: Seq<LiveGame>, k: int)
    requires
        by_index(games),
        0 <= k < games.len(),
    ensures
        turn_of(games, games[k].index) == Some(games[k].turn),
    decreases games.len(),
{
    if k < games.len() - 1 {
        assert(games[k].index < games[games.len() - 1].index);
        lemma_turn_of(games.drop_last(), k);
    }
}

proof fn lemma_turn_absent(games: Seq<LiveGame>, index: u32)
    requires
        forall|k: int| 0 <= k < games.len() ==> (#[trigger] games[k]).index != index,
    ensures
        turn_of(games, index) is None,
    decreases games.len(),
{
    if games.len() > 0 {
        assert(games[games.len() - 1].index != index);
        let t = games.drop_last();
        assert forall|k: int| 0 <= k < t.len() implies (#[trigger] t[k]).index != index by {
            assert(games[k].index != index);
        }
        lemma_turn_absent(t, index);
    }
}

/// What an event means to the tally.
pub enum Kind {
    Turn,
    Won,
    Lost,
    Drawn,
    Other,
}

/// What an event means to the tally: a turn, a game that side A or B won or
/// nobody, or nothing.
pub open spec fn kind_of(event: Seq<char>, winner: Option<Seq<char>>) -> Kind {
    if event == "turn"@ {
        Kind::Turn
    } else if event == "game"@ {
        if winner == Some("A"@) {
            Kind::Won
        } else if winner == Some("B"@) {
            Kind::Lost
        } else {
            Kind::Drawn
        }
    } else {
        Kind::Other
    }
}

impl GameEvent {
    /// What the event means to the tally.
    pub open spec fn kind(&self) -> Kind {
        kind_of(
            self.event@,
            match self.winner {
                Some(w) => Some(w@),
                None => None,
            },
        )
    }
}

/// Whether two texts are the same.
fn is_word(s: &str, w: &str) -> (r: bool)
    ensures
        r == (s@ == w@),
{
    let a = text::chars_of(s);
    let b = text::chars_of(w);
    text::same_text(&a, &b)
}

impl LiveMatch {
    /// A match that has just begun.
    pub fn new() -> (m: LiveMatch)
        ensures
            m.wins == 0,
            m.losses == 0,
            m.draws == 0,
            m.games@.len() == 0,
    {
        LiveMatch { wins: 0, losses: 0, draws: 0, games: Vec::new() }
    }

    /// Takes an event in: a turn updates its game or puts it on the list, a
    /// finished game leaves the list and is tallied. Tells whether a game was
    /// finished.
    pub fn apply_event(&mut self, e: &GameEvent) -> (finished: bool)
        requires
            by_index(old(self).games@),
            old(self).wins < u32::MAX,
            old(self).losses < u32::MAX,
            old(self).draws < u32::MAX,
        ensures
            by_index(final(self).games@),
            finished == !(e.kind() is Turn || e.kind() is Other),
            final(self).wins == old(self).wins + if e.kind() is Won {
                1int
            } else {
                0
            },
            final(self).losses == old(self).losses + if e.kind() is Lost {
                1int
            } else {
                0
            },
            final(self).draws == old(self).draws + if e.kind() is Drawn {
                1int
            } else {
                0
            },
            forall|i: u32|
                #[trigger] turn_of(final(self).games@, i) == if e.kind() is Other || i != e.index {
                    turn_of(old(self).games@, i)
                } else if e.kind() is Turn {
                    Some(e.turn)
                } else {
                    None
                },
    {
        if is_word(e.event.as_str(), "turn") {
            self.note_turn(e.index, e.turn);
            return false;
        }
        if !is_word(e.event.as_str(), "game") {
            proof {
                reveal_strlit("turn");
                reveal_strlit("game");
            }
            return false;
        }
        proof {
            reveal_strlit("turn");
            reveal_strlit("game");
            reveal_strlit("A");
            reveal_strlit("B");
            assert("turn"@[0] != "game"@[0]);
            assert("A"@[0] != "B"@[0]);
        }
        self.drop_game(e.index);
        match &e.winner {
            Some(w) => {
                if is_word(w.as_str(), "A") {
                    self.wins = self.wins + 1;
                } else if is_word(w.as_str(), "B") {
                    self.losses = self.losses + 1;
                } else {
                    self.draws = self.draws + 1;
                }
            },
            None => {
                self.draws = self.draws + 1;
            },
        }
        true
    }

    /// Notes the turn of a game.
    fn note_turn(&mut self, index: u32, turn: u32)
        requires
            by_index(old(self).games@),
        ensures
            by_index(final(self).games@),
            final(self).wins == old(self).wins,
            final(self).losses == old(self).losses,
            final(self).draws == old(self).draws,
            forall|i: u32|
                #[trigger] turn_of(final(self).games@, i) == if i == index {
                    Some(turn)
                } else {
                    turn_of(old(self).games@, i)
                },
    {
        let ghost before = self.games@;
        let mut at: usize = 0;
        while at < self.games.len() && self.games[at].index < index
            invariant
                at <= self.games@.len(),
                self.games@ == before,
                forall|k: int| 0 <= k < at ==> (#[trigger] before[k]).index < index,
                self.wins == old(self).wins,
                self.losses == old(self).losses,
                self.draws == old(self).draws,
            decreases self.games@.len() - at,
        {
            at = at + 1;
        }
        let g = LiveGame { index, turn };
        if at < self.games.len() && self.games[at].index == index {
            self.games[at] = g;
            proof {
                assert(by_index(self.games@));
                lemma_turn_of(self.games@, at as int);
                assert forall|i: u32| #[trigger] turn_of(self.games@, i) == if i == index {
                    Some(turn)
                } else {
                    turn_of(before, i)
                } by {
                    if i != index {
                        lemma_turn_same(before, self.games@, at as int, i);
                    }
                }
            }
        } else {
            self.games.insert(at, g);
            proof {
                assert forall|i: int, j: int| 0 <= i < j < self.games@.len() implies (
                #[trigger] self.games@[i]).index < (#[trigger] self.games@[j]).index by {
                    let x = if i < at {
                        i
                    } else {
                        i - 1
                    };
                    let y = if j < at {
                        j
                    } else {
                        j - 1
                    };
                    if i != at && j != at {
                        assert(before[x].index < before[y].index);
                    } else if i == at {
                        assert(self.games@[j] == before[y]);
                        assert(before[at as int].index > index);
                        if y > at {
                            assert(before[at as int].index < before[y].index);
                        }
                    } else {
                        assert(before[x].index < index);
                    }
                }
                lemma_turn_of(self.games@, at as int);
                assert forall|i: u32| #[trigger] turn_of(self.games@, i) == if i == index {
                    Some(turn)
                } else {
                    turn_of(before, i)
                } by {
                    if i != index {
                        lemma_turn_insert(before, at as int, g, i);
                    }
                }
            }
        }
    }

    /// Takes a game off the list.
    fn drop_game(&mut self, index: u32)
        requires
            by_index(old(self).games@),
        ensures
            by_index(final(self).games@),
            final(self).wins == old(self).wins,
            final(self).losses == old(self).losses,
            final(self).draws == old(self).draws,
            forall|i: u32|
                #[trigger] turn_of(final(self).games@, i) == if i == index {
                    None
                } else {
                    turn_of(old(self).games@, i)
                },
    {
        let ghost before = self.games@;
        let mut at: usize = 0;
        while at < self.games.len() && self.games[at].index != index
            invariant
                at <= self.games@.len(),
                self.games@ == before,
                forall|k: int| 0 <= k < at ==> (#[trigger] before[k]).index != index,
                self.wins == old(self).wins,
                self.losses == old(self).losses,
                self.draws == old(self).draws,
            decreases self.games@.len() - at,
        {
            at = at + 1;
        }
        if at < self.games.len() {
            let g = self.games.remove(at);
            proof {
                assert(before =~= self.games@.insert(at as int, g));
                assert forall|i: int, j: int| 0 <= i < j < self.games@.len() implies (
                #[trigger] self.games@[i]).index < (#[trigger] self.games@[j]).index by {
                    let x = if i < at {
                        i
                    } else {
                        i + 1
                    };
                    let y = if j < at {
                        j
                    } else {
                        j + 1
                    };
                    assert(before[x].index < before[y].index);
                }
                assert forall|k: int| 0 <= k < self.games@.len() implies (
                #[trigger] self.games@[k]).index != index by {
                    let x = if k < at {
                        k
                    } else {
                        k + 1
                    };
                    if x < at {
                        assert(before[x].index != index);
                    } else {
                        assert(before[at as int].index < before[x].index);
                    }
                }
                lemma_turn_absent(self.games@, index);
                assert forall|i: u32| #[trigger] turn_of(self.games@, i) == if i == index {
                    None
                } else {
                    turn_of(before, i)
                } by {
                    if i != index {
                        lemma_turn_insert(self.games@, at as int, g, i);
                    }
                }
            }
        } else {
            proof {
                lemma_turn_absent(before, index);
            }
        }
    }
}

proof fn lemma_turn_same(a: Seq<LiveGame>, b: Seq<LiveGame>, at: int, i: u32)
    requires
        a.len() == b.len(),
        0 <= at < a.len(),
        a[at].index != i,
        b[at].index != i,
        forall|k: int| 0 <= k < a.len() && k != at ==> a[k] == b[k],
    ensures
        turn_of(a, i) == turn_of(b, i),
    decreases a.len(),
{
    if at < a.len() - 1 {
        assert(a.last() == b.last());
        lemma_turn_same(a.drop_last(), b.drop_last(), at, i);
    } else {
        assert(a.drop_last() =~= b.drop_last());
    }
}

proof fn lemma_turn_insert(a: Seq<LiveGame>, at: int, g: LiveGame, i: u32)
    requires
        0 <= at <= a.len(),
        g.index != i,
    ensures
        turn_of(a.insert(at, g), i) == turn_of(a, i),
    decreases a.len(),
{
    let b = a.insert(at, g);
    if at == a.len() {
        assert(b.drop_last() =~= a);
    } else {
        assert(b.drop_last() =~= a.drop_last().insert(at, g));
        lemma_turn_insert(a.drop_last(), at, g, i);
    }
}

/// What the league does before a match.
#[derive(Clone, Copy, Debug, PartialEq, Eq, Structural)]
pub enum BeforeMatch {
    /// Sleep so many seconds and look again.
    Nap { secs: u64 },
    /// Pick a pairing and play it.
    Play,
}

/// What the league does before a match: it waits while it is switched off, as
/// long as there are fewer than two checkpoints, and for its directory.
pub fn before_match(league_on: bool, checkpoints: usize, dir_ready: bool) -> (b: BeforeMatch)
    ensures
        b == if !league_on {
            BeforeMatch::Nap { secs: 30 }
        } else if checkpoints < 2 {
            BeforeMatch::Nap { secs: 15 }
        } else if !dir_ready {
            BeforeMatch::Nap { secs: 30 }
        } else {
            BeforeMatch::Play
        },
{
    if !league_on {
        BeforeMatch::Nap { secs: 30 }
    } else if checkpoints < 2 {
        BeforeMatch::Nap { secs: 15 }
    } else if !dir_ready {
        BeforeMatch::Nap { secs: 30 }
    } else {
        BeforeMatch::Play
    }
}

/// The number of the next match: one more than the largest so far.
pub open spec fn next_number<F>(matches: Seq<EvalSummary<F>>) -> nat
    decreases matches.len(),
{
    if matches.len() == 0 {
        0
    } else {
        let rest = next_number(matches.drop_last());
        if matches.last().seq + 1 > rest {
            matches.last().seq as nat + 1
        } else {
            rest
        }
    }
}

/// The number of the next match: one more than the largest so far.
pub fn next_seq<F>(matches: &Vec<EvalSummary<F>>) -> (n: u64)
    requires
        forall|i: int| 0 <= i < matches@.len() ==> (#[trigger] matches@[i]).seq < u64::MAX,
    ensures
        n == next_number(matches@),
        forall|i: int| 0 <= i < matches@.len() ==> (#[trigger] matches@[i]).seq < n,
{
    let mut n: u64 = 0;
    let mut i: usize = 0;
    while i < matches.len()
        invariant
            i <= matches@.len(),
            forall|i: int| 0 <= i < matches@.len() ==> (#[trigger] matches@[i]).seq < u64::MAX,
            n == next_number(matches@.take(i as int)),
            forall|k: int| 0 <= k < i ==> (#[trigger] matches@[k]).seq < n,
        decreases matches@.len() - i,
    {
        assert(matches@.take(i + 1).drop_last() =~= matches@.take(i as int));
        assert(matches@[i as int].seq < u64::MAX);
        let next: u64 = matches[i].seq + 1;
        if next > n {
            n = next;
        }
        i = i + 1;
    }
    assert(matches@.take(i as int) =~= matches@);
    n
}

/// How a match ended.
#[derive(Clone, Copy, Debug, PartialEq, Eq, Structural)]
pub enum MatchEnd {
    Done,
    Stopped,
    Failed,
}

/// What the league does after a match.
#[derive(Clone, Copy, Debug, PartialEq, Eq, Structural)]
pub struct AfterMatch {
    /// The number of the next match.
    pub seq: u64,
    /// Add the match to the history.
    pub record: bool,
    /// Leave the league.
    pub leave: bool,
    /// Seconds to sleep first.
    pub nap_secs: u64,
}

/// What the league does after match `seq`: a failed match uses its number up,
/// too.
pub fn after_match(end: MatchEnd, seq: u64) -> (a: AfterMatch)
    requires
        seq < u64::MAX,
    ensures
        a == match end {
            MatchEnd::Done => AfterMatch {
                seq: (seq + 1) as u64,
                record: true,
                leave: false,
                nap_secs: 0,
            },
            MatchEnd::Stopped => AfterMatch { seq, record: false, leave: true, nap_secs: 0 },
            MatchEnd::Failed => AfterMatch {
                seq: (seq + 1) as u64,
                record: false,
                leave: false,
                nap_secs: 30,
            },
        },
{
    match end {
        MatchEnd::Done => AfterMatch { seq: seq + 1, record: true, leave: false, nap_secs: 0 },
        MatchEnd::Stopped => AfterMatch { seq, record: false, leave: true, nap_secs: 0 },
        MatchEnd::Failed => AfterMatch { seq: seq + 1, record: false, leave: false, nap_secs: 30 },
    }
}

/// Every match counts once for each of its sides: its games for both, its wins to
/// the one and its losses to the other, a win as four quarters and a draw as two.
/// Matches add up.
pub proof fn matches_count_for_both_sides<F>(
    matches: Seq<EvalSummary<F>>,
    m: EvalSummary<F>,
    g: u32,
    h: u32,
)
    requires
        m.gen != m.opponent_gen,
    ensures
        played(matches.push(m), g) == played(matches, g) + if g == m.gen || g == m.opponent_gen {
            m.games as nat
        } else {
            0nat
        },
        credit(matches.push(m), m.gen, m.opponent_gen) == credit(matches, m.gen, m.opponent_gen) + 4
            * m.wins + 2 * m.draws,
        credit(matches.push(m), m.opponent_gen, m.gen) == credit(matches, m.opponent_gen, m.gen) + 4
            * m.losses + 2 * m.draws,
        (g != m.gen || h != m.opponent_gen) && (g != m.opponent_gen || h != m.gen) ==> credit(
            matches.push(m),
            g,
            h,
        ) == credit(matches, g, h),
        played(Seq::<EvalSummary<F>>::empty(), g) == 0,
        credit(Seq::<EvalSummary<F>>::empty(), g, h) == 0,
{
    assert(matches.push(m).drop_last() =~= matches);
}

/// One side's wins are the other side's losses, and draws are drawn by both.
pub proof fn tallies_take_sides<F>(
    matches: Seq<EvalSummary<F>>,
    m: EvalSummary<F>,
    g: u32,
    before: PlayerTally,
    after: PlayerTally,
)
    requires
        m.gen != m.opponent_gen,
        tallies_player(before, matches, g),
        tallies_player(after, matches.push(m), g),
    ensures
        g == m.gen ==> after.wins == before.wins + m.wins && after.losses == before.losses
            + m.losses && after.draws == before.draws + m.draws && after.games == before.games
            + m.games,
        g == m.opponent_gen ==> after.wins == before.wins + m.losses && after.losses
            == before.losses + m.wins && after.draws == before.draws + m.draws && after.games
            == before.games + m.games,
        g != m.gen && g != m.opponent_gen ==> after == before,
{
    assert(matches.push(m).drop_last() =~= matches);
}

/// Neighbours in the table are tied by a quarter of a win each, and nobody else.
pub proof fn neighbours_share_a_quarter<F>(
    matches: Seq<EvalSummary<F>>,
    gens: Seq<u32>,
    i: int,
    j: int,
)
    ensures
        i - j == 1 || j - i == 1 ==> table_entry(matches, gens, i, j) == credit(
            matches,
            gens[i],
            gens[j],
        ) + 1,
        i - j != 1 && j - i != 1 ==> table_entry(matches, gens, i, j) == credit(
            matches,
            gens[i],
            gens[j],
        ),
{
}

/// Who goes first has played least, and is the newest of those that have; it meets
/// anybody but itself.
pub proof fn the_urgent_have_played_least<F>(
    matches: Seq<EvalSummary<F>>,
    pool: Seq<u32>,
    a: u32,
    b: u32,
)
    ensures
        more_urgent(matches, a, b) <==> played(matches, a) < played(matches, b) || (played(
            matches,
            a,
        ) == played(matches, b) && b < a),
        rivals(pool, a) == pool.filter(|x: u32| x != a),
    decreases pool.len(),
{
    reveal(Seq::filter);
    if pool.len() > 0 {
        the_urgent_have_played_least(matches, pool.drop_last(), a, b);
    } else {
        assert(pool.filter(|x: u32| x != a) =~= rivals(pool, a));
    }
}

/// The files of the newest `keep` matches stay, and those of every older one go.
pub proof fn the_newest_matches_stay(name: Seq<char>, newest: Seq<u64>, keep: int, i: int)
    requires
        order::descending(newest),
        0 < keep,
        0 <= i < newest.len(),
        match_seq(name) == Some(newest[i] as nat),
    ensures
        is_stale(name, newest, keep) <==> i >= keep,
{
    if newest.len() > keep && i != keep - 1 {
        if i < keep - 1 {
            assert(newest[i] > newest[keep - 1]);
        } else {
            assert(newest[keep - 1] > newest[i]);
        }
    }
}

/// A file that belongs to no match is never deleted, and the matches on disk are
/// those of the files that belong to one.
pub proof fn other_files_are_not_touched(names: Seq<Vec<char>>, newest: Seq<u64>, keep: int, v: u64)
    ensures
        forall|i: int|
            0 <= i < names.len() && match_seq(#[trigger] names[i]@) is None ==> !is_stale(
                names[i]@,
                newest,
                keep,
            ),
        file_matches(names).contains(v) <==> exists|i: int|
            0 <= i < names.len() && match_seq(#[trigger] names[i]@) == Some(v as nat),
    decreases names.len(),
{
    if names.len() > 0 {
        let rest = names.drop_last();
        let last = names.len() - 1;
        let (r, all) = (file_matches(rest), file_matches(names));
        other_files_are_not_touched(rest, newest, keep, v);
        lemma_match_bound(names[last]@);
        if r.contains(v) {
            let k = choose|k: int| 0 <= k < r.len() && r[k] == v;
            assert(all[k] == v);
            let i = choose|i: int|
                0 <= i < rest.len() && match_seq(#[trigger] rest[i]@) == Some(v as nat);
            assert(match_seq(names[i]@) == Some(v as nat));
        }
        if all.contains(v) && !r.contains(v) {
            let k = choose|k: int| 0 <= k < all.len() && all[k] == v;
            if k < r.len() {
                assert(r[k] == v);
            }
            assert(match_seq(names[last]@) == Some(v as nat));
        }
        if exists|i: int|
            0 <= i < names.len() && match_seq(#[trigger] names[i]@) == Some(v as nat) {
            let i = choose|i: int|
                0 <= i < names.len() && match_seq(#[trigger] names[i]@) == Some(v as nat);
            if i < last {
                assert(match_seq(rest[i]@) == Some(v as nat));
            } else {
                assert(all[all.len() - 1] == v);
            }
        }
    }
}

proof fn lemma_match_bound(name: Seq<char>)
    ensures
        match_seq(name) matches Some(v) ==> v <= u64::MAX,
{
}

/// The cores of a side are as many as configured, but half the machine at the most
/// and one at the least.
pub proof fn sides_have_half_the_machine(configured: nat, total: nat)
    ensures
        cores_per_side(configured, total) >= 1,
        total >= 2 ==> 2 * cores_per_side(configured, total) <= total,
        total < 4 ==> cores_per_side(configured, total) == 1,
        1 <= configured <= total / 2 ==> cores_per_side(configured, total) == configured,
        configured >= total / 2 && total >= 2 ==> cores_per_side(configured, total) == total / 2,
        configured == 0 ==> cores_per_side(configured, total) == 1,
{
}

/// What an event tells: a turn, or a game that side `A` won, side `B` won, or nobody
/// did; anything else is nothing.
pub proof fn events_tell_who_won(event: Seq<char>, winner: Option<Seq<char>>)
    ensures
        kind_of(event, winner) is Turn <==> event == "turn"@,
        kind_of(event, winner) is Won <==> event == "game"@ && winner == Some("A"@),
        kind_of(event, winner) is Lost <==> event == "game"@ && winner == Some("B"@),
        kind_of(event, winner) is Drawn <==> event == "game"@ && winner != Some("A"@) && winner
            != Some("B"@),
        kind_of(event, winner) is Other <==> event != "turn"@ && event != "game"@,
{
    reveal_strlit("turn");
    reveal_strlit("game");
    reveal_strlit("A");
    reveal_strlit("B");
    assert("turn"@[0] != "game"@[0]);
    assert("A"@[0] != "B"@[0]);
}

/// The turn shown of a live game is the one noted for it, and a game that is not
/// live has none.
pub proof fn live_turns_are_found(games: Seq<LiveGame>, index: u32)
    requires
        by_index(games),
    ensures
        forall|k: int|
            0 <= k < games.len() && (#[trigger] games[k]).index == index ==> turn_of(games, index)
                == Some(games[k].turn),
        (forall|k: int| 0 <= k < games.len() ==> (#[trigger] games[k]).index != index) ==> turn_of(
            games,
            index,
        ) is None,
{
    assert forall|k: int| 0 <= k < games.len() && (#[trigger] games[k]).index == index implies turn_of(
        games,
        index,
    ) == Some(games[k].turn) by {
        lemma_turn_of(games, k);
    }
    if forall|k: int| 0 <= k < games.len() ==> (#[trigger] games[k]).index != index {
        lemma_turn_absent(games, index);
    }
}

/// The next match's number is one above the highest, and zero where there is none.
pub proof fn the_next_match_is_new<F>(matches: Seq<EvalSummary<F>>)
    ensures
        forall|i: int| 0 <= i < matches.len() ==> (#[trigger] matches[i]).seq < next_number(matches),
        matches.len() == 0 ==> next_number(matches) == 0,
        matches.len() > 0 ==> exists|i: int|
            0 <= i < matches.len() && (#[trigger] matches[i]).seq + 1 == next_number(matches),
    decreases matches.len(),
{
    if matches.len() > 0 {
        let rest = matches.drop_last();
        let last = matches.len() - 1;
        the_next_match_is_new(rest);
        assert forall|i: int| 0 <= i < matches.len() implies (#[trigger] matches[i]).seq
            < next_number(matches) by {
            if i < last {
                assert(rest[i].seq < next_number(rest));
            }
        }
        if next_number(matches) == next_number(rest) && rest.len() > 0 {
            let i = choose|i: int|
                0 <= i < rest.len() && (#[trigger] rest[i]).seq + 1 == next_number(rest);
            assert(matches[i].seq + 1 == next_number(matches));
        } else {
            assert(matches[last].seq + 1 == next_number(matches));
        }
    }
}

/// Everybody gets a rating who is in the pool or was on either side of a match, and
/// nobody else.
pub proof fn players_of_either_side_are_rated<F>(
    pool: Seq<u32>,
    matches: Seq<EvalSummary<F>>,
    gens: Seq<u32>,
    p: u32,
)
    requires
        order::is_sorted_set(pool + match_players(matches), gens),
    ensures
        gens.contains(p) <==> pool.contains(p) || exists|i: int|
            0 <= i < matches.len() && ((#[trigger] matches[i]).gen == p || matches[i].opponent_gen
                == p),
{
    lemma_match_players(matches, p);
    let all = pool + match_players(matches);
    let n = pool.len() as int;
    if all.contains(p) {
        let k = choose|k: int| 0 <= k < all.len() && all[k] == p;
        if k < n {
            assert(pool[k] == p);
        } else {
            assert(match_players(matches)[k - n] == p);
        }
    }
    if pool.contains(p) {
        let k = choose|k: int| 0 <= k < pool.len() && pool[k] == p;
        assert(all[k] == p);
    }
    if match_players(matches).contains(p) {
        let k = choose|k: int|
            0 <= k < match_players(matches).len() && match_players(matches)[k] == p;
        assert(all[n + k] == p);
    }
}

proof fn lemma_match_players<F>(matches: Seq<EvalSummary<F>>, p: u32)
    ensures
        match_players(matches).contains(p) <==> exists|i: int|
            0 <= i < matches.len() && ((#[trigger] matches[i]).gen == p || matches[i].opponent_gen
                == p),
    decreases matches.len(),
{
    if matches.len() > 0 {
        let m = matches.drop_last();
        lemma_match_players(m, p);
        let (a, b) = (match_players(m), match_players(matches));
        let last = matches.last();
        assert(b =~= a.push(last.gen).push(last.opponent_gen));
        assert(b[a.len() as int] == last.gen && b[b.len() - 1] == last.opponent_gen);
        if a.contains(p) {
            let k = choose|k: int| 0 <= k < a.len() && a[k] == p;
            assert(b[k] == p);
        }
        if b.contains(p) {
            let k = choose|k: int| 0 <= k < b.len() && b[k] == p;
            if k < a.len() {
                assert(a[k] == p);
                let i = choose|i: int|
                    0 <= i < m.len() && ((#[trigger] m[i]).gen == p || m[i].opponent_gen == p);
                assert(matches[i] == m[i]);
            } else {
                assert(matches[matches.len() - 1] == last);
            }
        }
        if exists|i: int|
            0 <= i < matches.len() && ((#[trigger] matches[i]).gen == p || matches[i].opponent_gen
                == p) {
            let i = choose|i: int|
                0 <= i < matches.len() && ((#[trigger] matches[i]).gen == p
                    || matches[i].opponent_gen == p);
            if i < m.len() {
                assert(m[i] == matches[i]);
            }
        }
    }
}

/// A list of cores names them from the first on, with commas between them: before
/// the first comma stands the first core, behind it the list of the others.
pub proof fn cores_are_listed_from_the_first(lo: nat, hi: nat)
    ensures
        hi <= lo ==> core_list(lo, hi).len() == 0,
        hi == lo + 1 ==> core_list(lo, hi) == text::dec(lo),
        hi > lo + 1 ==> core_list(lo, hi) == text::dec(lo) + seq![','] + core_list(lo + 1, hi),
    decreases hi,
{
    if hi > lo + 1 {
        let h = (hi - 1) as nat;
        cores_are_listed_from_the_first(lo, h);
        if h == lo + 1 {
            assert(core_list(lo, hi) =~= text::dec(lo) + seq![','] + text::dec(h));
        } else {
            assert(core_list(lo, hi) =~= text::dec(lo) + seq![','] + core_list(lo + 1, hi));
        }
    }
}

} // verus!
