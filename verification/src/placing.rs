//! Placing players by how long their snakes lived.

use vstd::prelude::*;

verus! {

/// One seat's result in a finished game.
#[derive(Clone, Copy, Debug, PartialEq, Eq, Structural)]
pub struct Placement {
    /// The player in the seat.
    pub gen: u32,
    pub seat: u32,
    /// One for the best; ties share the better rank.
    pub rank: u32,
    /// The turn the seat's snake died on; `None` for a survivor.
    pub death_turn: Option<u32>,
}

/// Whether a snake with death turn `a` outlived one with death turn `b`.
pub open spec fn outlasts(a: Option<u32>, b: Option<u32>) -> bool {
    match b {
        None => false,
        Some(y) => match a {
            None => true,
            Some(x) => x > y,
        },
    }
}

/// How many of `deaths` outlasted `d`.
pub open spec fn outlasting(deaths: Seq<Option<u32>>, d: Option<u32>) -> nat
    decreases deaths.len(),
{
    if deaths.len() == 0 {
        0
    } else {
        outlasting(deaths.drop_last(), d) + if outlasts(deaths.last(), d) {
            1nat
        } else {
            0nat
        }
    }
}

/// The rank of a seat: one more than the number of seats that outlasted it.
pub open spec fn rank_of(deaths: Seq<Option<u32>>, seat: int) -> nat {
    1 + outlasting(deaths, deaths[seat])
}

proof fn lemma_outlasting_bound(deaths: Seq<Option<u32>>, d: Option<u32>)
    ensures
        outlasting(deaths, d) <= deaths.len(),
    decreases deaths.len(),
{
    if deaths.len() > 0 {
        lemma_outlasting_bound(deaths.drop_last(), d);
    }
}

proof fn lemma_outlasting_strict(deaths: Seq<Option<u32>>, a: Option<u32>, b: Option<u32>)
    requires
        outlasts(a, b),
    ensures
        outlasting(deaths, a) <= outlasting(deaths, b),
        deaths.contains(a) ==> outlasting(deaths, a) < outlasting(deaths, b),
    decreases deaths.len(),
{
    if deaths.len() > 0 {
        let t = deaths.drop_last();
        lemma_outlasting_strict(t, a, b);
        if deaths.contains(a) {
            let i = choose|i: int| 0 <= i < deaths.len() && deaths[i] == a;
            if i < t.len() {
                assert(t[i] == a);
            }
        }
    }
}

proof fn lemma_nobody_outlasts_the_longest(deaths: Seq<Option<u32>>)
    requires
        deaths.len() > 0,
    ensures
        exists|i: int| 0 <= i < deaths.len() && outlasting(deaths, #[trigger] deaths[i]) == 0,
    decreases deaths.len(),
{
    let t = deaths.drop_last();
    let d = deaths.last();
    assert(deaths[deaths.len() - 1] == d);
    if t.len() == 0 {
        assert(outlasting(t, d) == 0);
        assert(outlasting(deaths, deaths[deaths.len() - 1]) == 0);
    } else {
        lemma_nobody_outlasts_the_longest(t);
        let i = choose|i: int| 0 <= i < t.len() && outlasting(t, #[trigger] t[i]) == 0;
        assert(deaths[i] == t[i]);
        if outlasts(d, t[i]) {
            lemma_outlasting_strict(t, d, t[i]);
            assert(outlasting(deaths, deaths[deaths.len() - 1]) == 0);
        } else {
            assert(outlasting(deaths, deaths[i]) == 0);
        }
    }
}

/// Ranks compare as the seats' lives do: a seat that outlasted another has the
/// smaller rank, two that died together share theirs, every survivor is first,
/// somebody is first, and nobody ranks below the number of seats.
pub proof fn ranks_follow_survival(deaths: Seq<Option<u32>>)
    ensures
        forall|i: int|
            0 <= i < deaths.len() ==> 1 <= #[trigger] rank_of(deaths, i) <= deaths.len(),
        forall|i: int, j: int|
            0 <= i < deaths.len() && 0 <= j < deaths.len() ==> (outlasts(deaths[i], deaths[j])
                <==> #[trigger] rank_of(deaths, i) < #[trigger] rank_of(deaths, j)),
        forall|i: int|
            0 <= i < deaths.len() && deaths[i] is None ==> #[trigger] rank_of(deaths, i) == 1,
        deaths.len() > 0 ==> exists|i: int|
            0 <= i < deaths.len() && #[trigger] rank_of(deaths, i) == 1,
{
    assert forall|i: int, j: int| 0 <= i < deaths.len() && 0 <= j < deaths.len() implies (outlasts(
        deaths[i],
        deaths[j],
    ) <==> #[trigger] rank_of(deaths, i) < #[trigger] rank_of(deaths, j)) by {
        assert(deaths.contains(deaths[i]));
        assert(deaths.contains(deaths[j]));
        if outlasts(deaths[i], deaths[j]) {
            lemma_outlasting_strict(deaths, deaths[i], deaths[j]);
        } else if outlasts(deaths[j], deaths[i]) {
            lemma_outlasting_strict(deaths, deaths[j], deaths[i]);
        } else {
            assert(deaths[i] == deaths[j]);
        }
    }
    if deaths.len() > 0 {
        lemma_nobody_outlasts_the_longest(deaths);
        let k = choose|i: int|
            0 <= i < deaths.len() && outlasting(deaths, #[trigger] deaths[i]) == 0;
        assert(rank_of(deaths, k) == 1);
    }
    assert forall|i: int| 0 <= i < deaths.len() implies 1 <= #[trigger] rank_of(deaths, i)
        <= deaths.len() by {
        lemma_not_self(deaths, i);
    }
    assert forall|i: int| 0 <= i < deaths.len() && deaths[i] is None implies #[trigger] rank_of(
        deaths,
        i,
    ) == 1 by {
        lemma_survivor_first(deaths, deaths[i]);
    }
}

proof fn lemma_survivor_first(deaths: Seq<Option<u32>>, d: Option<u32>)
    requires
        d is None,
    ensures
        outlasting(deaths, d) == 0,
    decreases deaths.len(),
{
    if deaths.len() > 0 {
        lemma_survivor_first(deaths.drop_last(), d);
    }
}

proof fn lemma_not_self(deaths: Seq<Option<u32>>, i: int)
    requires
        0 <= i < deaths.len(),
    ensures
        outlasting(deaths, deaths[i]) < deaths.len(),
    decreases deaths.len(),
{
    let t = deaths.drop_last();
    if i == t.len() {
        lemma_outlasting_bound(t, deaths[i]);
    } else {
        assert(t[i] == deaths[i]);
        lemma_not_self(t, i);
    }
}

/// A seat's rank is one more than the number of seats that outlived it: those
/// that survived where it died, and those that died at a later turn.
pub proof fn ranks_count_those_ahead(deaths: Seq<Option<u32>>, seat: int)
    requires
        0 <= seat < deaths.len(),
    ensures
        rank_of(deaths, seat) == 1 + deaths.filter(
            |d: Option<u32>|
                deaths[seat] is Some && (d is None || d.unwrap() > deaths[seat].unwrap()),
        ).len(),
{
    lemma_outlasting_counts(deaths, deaths[seat]);
}

proof fn lemma_outlasting_counts(deaths: Seq<Option<u32>>, own: Option<u32>)
    ensures
        outlasting(deaths, own) == deaths.filter(
            |d: Option<u32>| own is Some && (d is None || d.unwrap() > own.unwrap()),
        ).len(),
    decreases deaths.len(),
{
    reveal(Seq::filter);
    if deaths.len() > 0 {
        lemma_outlasting_counts(deaths.drop_last(), own);
    }
}

/// Whether a snake with death turn `a` outlived one with death turn `b`.
pub fn outlived(a: Option<u32>, b: Option<u32>) -> (r: bool)
    ensures
        r == outlasts(a, b),
        r <==> b is Some && (a is None || a.unwrap() > b.unwrap()),
{
    match b {
        None => false,
        Some(y) => match a {
            None => true,
            Some(x) => x > y,
        },
    }
}

/// The rank of a seat: one more than the number of seats that outlasted it.
pub fn rank(deaths: &Vec<Option<u32>>, seat: usize) -> (r: u32)
    requires
        seat < deaths@.len(),
        deaths@.len() <= u32::MAX,
    ensures
        r == rank_of(deaths@, seat as int),
{
    let mut c: u32 = 0;
    let mut j: usize = 0;
    let ghost d = deaths@[seat as int];
    while j < deaths.len()
        invariant
            j <= deaths@.len(),
            seat < deaths@.len(),
            d == deaths@[seat as int],
            deaths@.len() <= u32::MAX,
            c == outlasting(deaths@.take(j as int), d),
            c <= j,
        decreases deaths@.len() - j,
    {
        assert(deaths@.take(j + 1).drop_last() =~= deaths@.take(j as int));
        if outlived(deaths[j], deaths[seat]) {
            c = c + 1;
        }
        j = j + 1;
    }
    assert(deaths@.take(j as int) =~= deaths@);
    proof {
        lemma_not_self(deaths@, seat as int);
    }
    1 + c
}

/// The places of a game by survival, in seat order; `seat_gens[s]` played seat
/// `s`.
pub open spec fn placed(seat_gens: Seq<u32>, deaths: Seq<Option<u32>>) -> Seq<Placement> {
    Seq::new(
        deaths.len(),
        |s: int|
            Placement {
                gen: seat_gens[s],
                seat: s as u32,
                rank: rank_of(deaths, s) as u32,
                death_turn: deaths[s],
            },
    )
}

/// The places of a game by survival, in seat order.
pub fn survival_placements(seat_gens: &Vec<u32>, deaths: &Vec<Option<u32>>) -> (r: Vec<Placement>)
    requires
        seat_gens@.len() == deaths@.len(),
        deaths@.len() <= u32::MAX,
    ensures
        r@ == placed(seat_gens@, deaths@),
        r@.len() == deaths@.len(),
        forall|s: int|
            0 <= s < r@.len() ==> {
                let p = #[trigger] r@[s];
                &&& p.gen == seat_gens@[s]
                &&& p.seat == s
                &&& p.death_turn == deaths@[s]
                &&& p.rank == 1 + deaths@.filter(
                    |d: Option<u32>|
                        deaths@[s] is Some && (d is None || d.unwrap() > deaths@[s].unwrap()),
                ).len()
            },
{
    let mut r: Vec<Placement> = Vec::new();
    let mut s: usize = 0;
    while s < deaths.len()
        invariant
            s <= deaths@.len(),
            seat_gens@.len() == deaths@.len(),
            deaths@.len() <= u32::MAX,
            r@ == placed(seat_gens@, deaths@).take(s as int),
        decreases deaths@.len() - s,
    {
        let rk: u32 = rank(deaths, s);
        r.push(Placement { gen: seat_gens[s], seat: s as u32, rank: rk, death_turn: deaths[s] });
        s = s + 1;
        assert(r@ =~= placed(seat_gens@, deaths@).take(s as int));
    }
    assert(placed(seat_gens@, deaths@).take(s as int) =~= placed(seat_gens@, deaths@));
    proof {
        assert forall|s: int| 0 <= s < r@.len() implies {
            let p = #[trigger] r@[s];
            &&& p.gen == seat_gens@[s]
            &&& p.seat == s
            &&& p.death_turn == deaths@[s]
            &&& p.rank == 1 + deaths@.filter(
                |d: Option<u32>|
                    deaths@[s] is Some && (d is None || d.unwrap() > deaths@[s].unwrap()),
            ).len()
        } by {
            ranks_count_those_ahead(deaths@, s);
            ranks_follow_survival(deaths@);
            assert(1 <= rank_of(deaths@, s) <= deaths@.len());
        }
    }
    r
}

} // verus!
