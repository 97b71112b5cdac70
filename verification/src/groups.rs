//! Row groups: the fixed batch rows that a net-driven seat owns while its game
//! lasts.
//!
//! Every station has `cap` groups of rows. A seat takes the group on top of its
//! station's free list and hands it back when its game is over.

use vstd::multiset::Multiset;
use vstd::prelude::*;

use crate::lists;

verus! {

/// How a seat gets its moves.
#[derive(Clone, Copy, Debug)]
pub enum SeatKind {
    /// From the net of a station, over one of its row groups.
    Net { station: usize, group: usize },
    /// From a built-in heuristic: an index into the list of heuristic players,
    /// or none for the fallback heuristic.
    Heuristic { index: Option<usize> },
}

/// Where `x` last stands in `v`, if it does.
pub open spec fn last_position(v: Seq<u32>, x: u32) -> Option<usize>
    decreases v.len(),
{
    if v.len() == 0 {
        None
    } else if v.last() == x {
        Some((v.len() - 1) as usize)
    } else {
        last_position(v.drop_last(), x)
    }
}

/// `last_position` finds a place, where there is one.
pub proof fn lemma_last_position(v: Seq<u32>, x: u32)
    requires
        v.len() <= usize::MAX,
    ensures
        match last_position(v, x) {
            Some(i) => i < v.len() && v[i as int] == x,
            None => !v.contains(x),
        },
    decreases v.len(),
{
    if v.len() > 0 {
        crate::order::lemma_contains_last(v, x);
        lemma_last_position(v.drop_last(), x);
    }
}

/// Where `x` last stands in `v`, if it does.
pub fn find_last(v: &Vec<u32>, x: u32) -> (r: Option<usize>)
    ensures
        r == last_position(v@, x),
        r matches Some(i) ==> i < v@.len() && v@[i as int] == x,
{
    let mut i: usize = v.len();
    assert(v@.take(i as int) =~= v@);
    while i > 0
        invariant
            i <= v@.len(),
            last_position(v@, x) == last_position(v@.take(i as int), x),
        decreases i,
    {
        if v[i - 1] == x {
            return Some(i - 1);
        }
        assert(v@.take(i as int).drop_last() =~= v@.take(i - 1));
        i = i - 1;
    }
    None
}

/// The player in a seat: the players take turns, from `rotation` on.
pub open spec fn seat_player(players: Seq<u32>, rotation: nat, seat: int) -> u32 {
    players[(seat + rotation) % (players.len() as int)]
}

/// The player in a seat.
pub fn player_at(players: &Vec<u32>, rotation: usize, seat: usize) -> (p: u32)
    requires
        players@.len() > 0,
        seat + rotation <= usize::MAX,
    ensures
        p == seat_player(players@, rotation as nat, seat as int),
        p == players@[(seat + rotation) % (players@.len() as int)],
{
    players[(seat + rotation) % players.len()]
}

/// For each of `n` seats, the station of its player; `None` for a player
/// without one.
pub open spec fn seat_plan(
    players: Seq<u32>,
    rotation: nat,
    n: nat,
    stations: Seq<u32>,
) -> Seq<Option<usize>> {
    Seq::new(n, |j: int| last_position(stations, seat_player(players, rotation, j)))
}

/// How many seats of a plan belong to station `s`.
pub open spec fn claims(plan: Seq<Option<usize>>, s: usize) -> nat
    decreases plan.len(),
{
    if plan.len() == 0 {
        0
    } else {
        claims(plan.drop_last(), s) + if plan.last() == Some(s) {
            1nat
        } else {
            0nat
        }
    }
}

/// The first seat of a plan whose station has no group left for it.
pub open spec fn blocked_at(plan: Seq<Option<usize>>, free: Seq<Vec<usize>>) -> Option<int>
    decreases plan.len(),
{
    if plan.len() == 0 {
        None
    } else {
        match blocked_at(plan.drop_last(), free) {
            Some(j) => Some(j),
            None => match plan.last() {
                Some(s) => if claims(plan.drop_last(), s) >= free[s as int]@.len() {
                    Some(plan.len() - 1)
                } else {
                    None
                },
                None => None,
            },
        }
    }
}

/// Whether every station has a group for each of its seats.
pub open spec fn fits(plan: Seq<Option<usize>>, free: Seq<Vec<usize>>) -> bool {
    forall|s: usize| s < free.len() ==> #[trigger] claims(plan, s) <= free[s as int]@.len()
}

/// How seat `i` of a plan is set up: a net-driven seat gets the group on top of
/// what the seats before it left.
pub open spec fn seat_kind(
    plan: Seq<Option<usize>>,
    i: int,
    free: Seq<Vec<usize>>,
    player: u32,
    heuristics: Seq<u32>,
) -> SeatKind {
    match plan[i] {
        Some(s) => SeatKind::Net {
            station: s,
            group: free[s as int]@[free[s as int]@.len() - 1 - claims(plan.take(i), s)],
        },
        None => SeatKind::Heuristic {
            index: match lists::position_in(heuristics, player) {
                Some(k) => Some(k as usize),
                None => None,
            },
        },
    }
}

/// The groups of station `s` that seats hold, in seat order.
pub open spec fn held(seats: Seq<SeatKind>, s: usize) -> Seq<usize>
    decreases seats.len(),
{
    if seats.len() == 0 {
        Seq::empty()
    } else {
        let rest = held(seats.drop_last(), s);
        match seats.last() {
            SeatKind::Net { station, group } => if station == s {
                rest.push(group)
            } else {
                rest
            },
            SeatKind::Heuristic { .. } => rest,
        }
    }
}

/// Whether every net-driven seat names one of `k` stations.
pub open spec fn stations_exist(seats: Seq<SeatKind>, k: nat) -> bool {
    forall|i: int| 0 <= i < seats.len() ==> (#[trigger] seats[i] matches SeatKind::Net { station, .. } ==> station < k)
}

/// Hands the groups of `seats` back to their stations' free lists, in seat
/// order.
pub fn release(free: &mut Vec<Vec<usize>>, seats: &Vec<SeatKind>)
    requires
        stations_exist(seats@, old(free)@.len()),
    ensures
        final(free)@.len() == old(free)@.len(),
        forall|s: usize|
            s < old(free)@.len() ==> (#[trigger] final(free)@[s as int])@ == old(free)@[s as int]@
                + held(seats@, s),
{
    let ghost start = free@;
    let mut i: usize = 0;
    while i < seats.len()
        invariant
            i <= seats@.len(),
            free@.len() == start.len(),
            stations_exist(seats@, start.len()),
            forall|s: usize|
                s < start.len() ==> (#[trigger] free@[s as int])@ == start[s as int]@ + held(
                    seats@.take(i as int),
                    s,
                ),
        decreases seats@.len() - i,
    {
        assert(seats@.take(i + 1).drop_last() =~= seats@.take(i as int));
        let ghost before = free@;
        match seats[i] {
            SeatKind::Net { station, group } => {
                assert(seats@[i as int] == SeatKind::Net { station, group });
                free[station].push(group);
                proof {
                    assert forall|s: usize| s < start.len() implies (
                    #[trigger] free@[s as int])@ == start[s as int]@ + held(
                        seats@.take(i + 1),
                        s,
                    ) by {
                        assert(before[s as int]@ == start[s as int]@ + held(
                            seats@.take(i as int),
                            s,
                        ));
                    }
                }
            },
            SeatKind::Heuristic { index } => {},
        }
        i = i + 1;
    }
    assert(seats@.take(i as int) =~= seats@);
}

/// A plan is blocked at the first seat that finds its station empty, so it is
/// not blocked exactly where it fits.
pub proof fn blocked_means_no_fit(plan: Seq<Option<usize>>, free: Seq<Vec<usize>>)
    requires
        forall|i: int|
            0 <= i < plan.len() ==> (#[trigger] plan[i] matches Some(s) ==> s < free.len()),
    ensures
        blocked_at(plan, free) is None <==> fits(plan, free),
    decreases plan.len(),
{
    if plan.len() == 0 {
        assert forall|s: usize| s < free.len() implies #[trigger] claims(plan, s)
            <= free[s as int]@.len() by {}
    } else {
        let p = plan.drop_last();
        assert forall|i: int| 0 <= i < p.len() implies (#[trigger] p[i] matches Some(s) ==> s
            < free.len()) by {
            assert(plan[i] == p[i]);
        }
        blocked_means_no_fit(p, free);
        assert(plan[plan.len() - 1] == plan.last());
        if blocked_at(plan, free) is None {
            assert forall|s: usize| s < free.len() implies #[trigger] claims(plan, s)
                <= free[s as int]@.len() by {
                assert(claims(p, s) <= free[s as int]@.len());
            }
        } else if fits(plan, free) {
            assert forall|s: usize| s < free.len() implies #[trigger] claims(p, s)
                <= free[s as int]@.len() by {
                assert(claims(plan, s) <= free[s as int]@.len());
            }
            let s = plan.last().unwrap();
            assert(claims(plan, s) <= free[s as int]@.len());
        }
    }
}

/// The groups that the first `k` seats hold of station `s` are those from the
/// top of its free list down.
proof fn lemma_held_is_top(
    seats: Seq<SeatKind>,
    plan: Seq<Option<usize>>,
    free: Seq<Vec<usize>>,
    players: Seq<u32>,
    heuristics: Seq<u32>,
    s: usize,
)
    requires
        seats.len() == players.len(),
        seats.len() <= plan.len(),
        forall|i: int|
            0 <= i < seats.len() ==> #[trigger] seats[i] == seat_kind(
                plan,
                i,
                free,
                players[i],
                heuristics,
            ),
        claims(plan.take(seats.len() as int), s) <= free[s as int]@.len(),
    ensures
        held(seats, s) == free[s as int]@.skip(
            free[s as int]@.len() - claims(plan.take(seats.len() as int), s),
        ).reverse(),
    decreases seats.len(),
{
    let f = free[s as int]@;
    if seats.len() == 0 {
        assert(held(seats, s) =~= f.skip(f.len() as int).reverse());
    } else {
        let m = seats.len() - 1;
        let t = seats.drop_last();
        let c = claims(plan.take(m), s);
        assert(plan.take(m + 1).drop_last() =~= plan.take(m));
        assert forall|i: int| 0 <= i < t.len() implies #[trigger] t[i] == seat_kind(
            plan,
            i,
            free,
            players.drop_last()[i],
            heuristics,
        ) by {
            assert(seats[i] == t[i]);
        }
        lemma_held_is_top(t, plan, free, players.drop_last(), heuristics, s);
        assert(seats[m] == seat_kind(plan, m, free, players[m], heuristics));
        if plan[m] == Some(s) {
            assert(held(seats, s) == held(t, s).push(f[f.len() - 1 - c]));
            assert(held(seats, s) =~= f.skip(f.len() - (c + 1)).reverse());
        }
    }
}

/// The players of the first `n` seats.
pub open spec fn seat_players(players: Seq<u32>, rotation: nat, n: nat) -> Seq<u32> {
    Seq::new(n, |j: int| seat_player(players, rotation, j))
}

/// Sets up the seats of a game: a player with a station gets a row group of it,
/// any other player is a heuristic. Where a station runs out of groups the
/// game cannot be seated, and what was taken goes back.
pub fn rig_seats(
    players: &Vec<u32>,
    rotation: usize,
    n: usize,
    stations: &Vec<u32>,
    heuristics: &Vec<u32>,
    free: &mut Vec<Vec<usize>>,
) -> (r: Option<Vec<SeatKind>>)
    requires
        n > 0 ==> players@.len() > 0,
        n + rotation <= usize::MAX,
        old(free)@.len() == stations@.len(),
    ensures
        final(free)@.len() == old(free)@.len(),
        match r {
            Some(seats) => {
                let plan = seat_plan(players@, rotation as nat, n as nat, stations@);
                &&& blocked_at(plan, old(free)@) is None
                &&& seats@.len() == n
                &&& forall|i: int|
                    0 <= i < n ==> #[trigger] seats@[i] == seat_kind(
                        plan,
                        i,
                        old(free)@,
                        seat_player(players@, rotation as nat, i),
                        heuristics@,
                    )
                &&& forall|s: usize|
                    s < stations@.len() ==> (#[trigger] final(free)@[s as int])@ == old(
                        free,
                    )@[s as int]@.take(old(free)@[s as int]@.len() - claims(plan, s))
            },
            None => {
                let plan = seat_plan(players@, rotation as nat, n as nat, stations@);
                &&& blocked_at(plan, old(free)@) is Some
                &&& forall|s: usize|
                    s < stations@.len() ==> (#[trigger] final(free)@[s as int])@ == returned(
                        old(free)@[s as int]@,
                        claims(plan.take(blocked_at(plan, old(free)@).unwrap()), s),
                    )
            },
        },
{
    let ghost plan = seat_plan(players@, rotation as nat, n as nat, stations@);
    let ghost start = free@;
    let ghost all = seat_players(players@, rotation as nat, n as nat);
    let mut seats: Vec<SeatKind> = Vec::new();
    let mut j: usize = 0;
    let k: usize = stations.len();
    proof {
        assert(k == stations@.len());
        assert forall|i: int| 0 <= i < n implies (#[trigger] plan[i] matches Some(s) ==> s
            < stations@.len()) by {
            lemma_last_position(stations@, seat_player(players@, rotation as nat, i));
        }
        assert forall|s: usize| s < start.len() implies (#[trigger] free@[s as int])@
            == start[s as int]@.take(start[s as int]@.len() - claims(plan.take(0), s)) by {
            assert(start[s as int]@.take(start[s as int]@.len() as int) =~= start[s as int]@);
        }
    }
    while j < n
        invariant
            j <= n,
            n + rotation <= usize::MAX,
            n > 0 ==> players@.len() > 0,
            plan == seat_plan(players@, rotation as nat, n as nat, stations@),
            all == seat_players(players@, rotation as nat, n as nat),
            start == old(free)@,
            free@.len() == start.len(),
            start.len() == stations@.len(),
            forall|i: int|
                0 <= i < n ==> (#[trigger] plan[i] matches Some(s) ==> s < stations@.len()),
            blocked_at(plan.take(j as int), start) is None,
            seats@.len() == j,
            forall|i: int|
                0 <= i < j ==> #[trigger] seats@[i] == seat_kind(
                    plan,
                    i,
                    start,
                    all[i],
                    heuristics@,
                ),
            forall|s: usize|
                s < start.len() ==> #[trigger] claims(plan.take(j as int), s)
                    <= start[s as int]@.len(),
            forall|s: usize|
                s < start.len() ==> (#[trigger] free@[s as int])@ == start[s as int]@.take(
                    start[s as int]@.len() - claims(plan.take(j as int), s),
                ),
        decreases n - j,
    {
        let player: u32 = player_at(players, rotation, j);
        assert(player == all[j as int]);
        assert(plan[j as int] == last_position(stations@, player));
        assert(plan.take(j + 1).drop_last() =~= plan.take(j as int));
        match find_last(stations, player) {
            Some(station) => {
                let ghost c = claims(plan.take(j as int), station);
                assert(free@[station as int]@ == start[station as int]@.take(
                    start[station as int]@.len() - c,
                ));
                let ghost before = free@;
                let popped: Option<usize> = free[station].pop();
                match popped {
                    Some(group) => {
                        assert(start[station as int]@.len() - c >= 1);
                        seats.push(SeatKind::Net { station, group });
                        proof {
                            assert forall|s: usize| s < start.len() implies #[trigger] claims(
                                plan.take(j + 1),
                                s,
                            ) <= start[s as int]@.len() by {
                                assert(claims(plan.take(j as int), s) <= start[s as int]@.len());
                            }
                            assert forall|s: usize| s < start.len() implies (
                            #[trigger] free@[s as int])@ == start[s as int]@.take(
                                start[s as int]@.len() - claims(plan.take(j + 1), s),
                            ) by {
                                assert(claims(plan.take(j as int), s) <= start[s as int]@.len());
                                assert(before[s as int]@ == start[s as int]@.take(
                                    start[s as int]@.len() - claims(plan.take(j as int), s),
                                ));
                                assert(free@[s as int]@ =~= start[s as int]@.take(
                                    start[s as int]@.len() - claims(plan.take(j + 1), s),
                                ));
                            }
                        }
                    },
                    None => {
                        assert(c >= start[station as int]@.len());
                        let ghost mid = free@;
                        proof {
                            lemma_first_block(plan, start, j as int);
                            assert forall|i: int| 0 <= i < seats@.len() implies (
                            #[trigger] seats@[i] matches SeatKind::Net { station, .. } ==> station
                                < start.len()) by {
                                assert(seats@[i] == seat_kind(
                                    plan,
                                    i,
                                    start,
                                    all[i],
                                    heuristics@,
                                ));
                                assert(plan[i] matches Some(s) ==> s < stations@.len());
                            }
                        }
                        release(free, &seats);
                        proof {
                            assert forall|s: usize| s < start.len() implies (
                            #[trigger] free@[s as int])@ == returned(
                                start[s as int]@,
                                claims(plan.take(j as int), s),
                            ) by {
                                assert(claims(plan.take(j as int), s) <= start[s as int]@.len());
                                assert(before[s as int]@ == start[s as int]@.take(
                                    start[s as int]@.len() - claims(plan.take(j as int), s),
                                ));
                                assert(mid[s as int]@ =~= before[s as int]@);
                                lemma_held_is_top(
                                    seats@,
                                    plan,
                                    start,
                                    all.take(j as int),
                                    heuristics@,
                                    s,
                                );
                            }
                        }
                        return None;
                    },
                }
            },
            None => {
                let index: Option<usize> = lists::position_of(heuristics, player);
                seats.push(SeatKind::Heuristic { index });
                proof {
                    assert forall|s: usize| s < start.len() implies #[trigger] claims(
                        plan.take(j + 1),
                        s,
                    ) <= start[s as int]@.len() by {
                        assert(claims(plan.take(j as int), s) <= start[s as int]@.len());
                    }
                }
            },
        }
        j = j + 1;
    }
    assert(plan.take(n as int) =~= plan);
    Some(seats)
}

/// The groups that the seats of a rigged game hold of station `s`: the top of
/// its free list, from the top down.
pub proof fn lemma_held_after_rigging(
    seats: Seq<SeatKind>,
    plan: Seq<Option<usize>>,
    free: Seq<Vec<usize>>,
    players: Seq<u32>,
    heuristics: Seq<u32>,
    s: usize,
)
    requires
        seats.len() == players.len(),
        seats.len() == plan.len(),
        forall|i: int|
            0 <= i < seats.len() ==> #[trigger] seats[i] == seat_kind(
                plan,
                i,
                free,
                players[i],
                heuristics,
            ),
        claims(plan, s) <= free[s as int]@.len(),
    ensures
        held(seats, s) == free[s as int]@.skip(
            free[s as int]@.len() - claims(plan, s),
        ).reverse(),
{
    assert(plan.take(seats.len() as int) =~= plan);
    lemma_held_is_top(seats, plan, free, players, heuristics, s);
}

/// The seats before a blocked one took no more groups than there were.
pub proof fn lemma_claims_before_block(
    plan: Seq<Option<usize>>,
    free: Seq<Vec<usize>>,
    s: usize,
)
    requires
        blocked_at(plan, free) is Some,
        s < free.len(),
    ensures
        0 <= blocked_at(plan, free).unwrap() < plan.len(),
        claims(plan.take(blocked_at(plan, free).unwrap()), s) <= free[s as int]@.len(),
    decreases plan.len(),
{
    let p = plan.drop_last();
    let j = blocked_at(plan, free).unwrap();
    if blocked_at(p, free) is Some {
        lemma_claims_before_block(p, free, s);
        assert(p.take(j) =~= plan.take(j));
    } else {
        assert(plan.take(j) =~= p);
        lemma_unblocked_claims(p, free, s);
    }
}

proof fn lemma_unblocked_claims(plan: Seq<Option<usize>>, free: Seq<Vec<usize>>, s: usize)
    requires
        blocked_at(plan, free) is None,
    ensures
        claims(plan, s) <= free[s as int]@.len(),
    decreases plan.len(),
{
    if plan.len() > 0 {
        lemma_unblocked_claims(plan.drop_last(), free, s);
    }
}

/// A free list from which the top `c` groups were taken one by one and put
/// back in that order.
pub open spec fn returned(f: Seq<usize>, c: nat) -> Seq<usize> {
    f.take(f.len() - c) + f.skip(f.len() - c).reverse()
}

proof fn lemma_first_block(plan: Seq<Option<usize>>, free: Seq<Vec<usize>>, j: int)
    requires
        0 <= j < plan.len(),
        blocked_at(plan.take(j), free) is None,
        plan[j] is Some,
        claims(plan.take(j), plan[j].unwrap()) >= free[plan[j].unwrap() as int]@.len(),
    ensures
        blocked_at(plan, free) == Some(j),
    decreases plan.len(),
{
    if j == plan.len() - 1 {
        assert(plan.drop_last() =~= plan.take(j));
    } else {
        let p = plan.drop_last();
        assert(p.take(j) =~= plan.take(j));
        lemma_first_block(p, free, j);
    }
}

/// Putting back what was taken leaves the same groups free.
pub proof fn returned_groups_are_the_same(f: Seq<usize>, c: nat)
    requires
        c <= f.len(),
    ensures
        returned(f, c).to_multiset() == f.to_multiset(),
{
    let (a, b) = (f.take(f.len() - c), f.skip(f.len() - c));
    vstd::seq_lib::lemma_multiset_commutative(a, b);
    vstd::seq_lib::lemma_multiset_commutative(a, b.reverse());
    lemma_reverse_multiset(b);
    assert(f =~= a + b);
}

proof fn lemma_reverse_multiset(s: Seq<usize>)
    ensures
        s.reverse().to_multiset() == s.to_multiset(),
    decreases s.len(),
{
    broadcast use vstd::seq_lib::group_to_multiset_ensures;

    if s.len() == 0 {
        assert(s.reverse() =~= s);
    } else {
        let t = s.drop_last();
        lemma_reverse_multiset(t);
        assert(s =~= t.push(s.last()));
        assert(s.reverse() =~= seq![s.last()] + t.reverse());
        vstd::seq_lib::lemma_multiset_commutative(seq![s.last()], t.reverse());
        assert(seq![s.last()] =~= Seq::<usize>::empty().push(s.last()));
    }
}

/// A seat belongs to the player whose turn it is, counted on from the rotation and
/// round the table, and is played at that player's station, or by a heuristic
/// where it has none.
pub proof fn seats_go_round_the_table(
    players: Seq<u32>,
    rotation: nat,
    n: nat,
    stations: Seq<u32>,
    j: int,
)
    requires
        players.len() > 0,
        stations.len() <= usize::MAX,
        0 <= j < n,
    ensures
        match seat_plan(players, rotation, n, stations)[j] {
            Some(s) => s < stations.len() && stations[s as int] == players[(j + rotation) % (
            players.len() as int)],
            None => !stations.contains(players[(j + rotation) % (players.len() as int)]),
        },
        seat_players(players, rotation, n)[j] == players[(j + rotation) % (players.len() as int)],
{
    lemma_last_position(stations, players[(j + rotation) % (players.len() as int)]);
}

/// The claims on a station are the seats that are planned there, and its groups in
/// use are those that the seats there hold, in seat order.
pub proof fn claims_count_the_seats(plan: Seq<Option<usize>>, seats: Seq<SeatKind>, s: usize)
    ensures
        claims(plan, s) == plan.filter(|p: Option<usize>| p == Some(s)).len(),
        forall|g: usize| #[trigger]
            held(seats, s).contains(g) <==> exists|i: int|
                0 <= i < seats.len() && #[trigger] seats[i] == (SeatKind::Net {
                    station: s,
                    group: g,
                }),
    decreases plan.len() + seats.len(),
{
    reveal(Seq::filter);
    if plan.len() > 0 {
        claims_count_the_seats(plan.drop_last(), seats, s);
    } else if seats.len() > 0 {
        let rest = seats.drop_last();
        let last = seats.len() - 1;
        claims_count_the_seats(plan, rest, s);
        let (h, r) = (held(seats, s), held(rest, s));
        assert forall|g: usize| #[trigger] h.contains(g) <==> exists|i: int|
            0 <= i < seats.len() && #[trigger] seats[i] == (SeatKind::Net {
                station: s,
                group: g,
            }) by {
            if h.contains(g) {
                let k = choose|k: int| 0 <= k < h.len() && h[k] == g;
                if k < r.len() {
                    assert(r[k] == g);
                    assert(r.contains(g));
                    let i = choose|i: int|
                        0 <= i < rest.len() && #[trigger] rest[i] == (SeatKind::Net {
                            station: s,
                            group: g,
                        });
                    assert(seats[i] == (SeatKind::Net { station: s, group: g }));
                } else {
                    assert(seats[last] == (SeatKind::Net { station: s, group: g }));
                }
            }
            if exists|i: int|
                0 <= i < seats.len() && #[trigger] seats[i] == (SeatKind::Net {
                    station: s,
                    group: g,
                }) {
                let i = choose|i: int|
                    0 <= i < seats.len() && #[trigger] seats[i] == (SeatKind::Net {
                        station: s,
                        group: g,
                    });
                if i < last {
                    assert(rest[i] == (SeatKind::Net { station: s, group: g }));
                    assert(r.contains(g));
                    let k = choose|k: int| 0 <= k < r.len() && r[k] == g;
                    assert(h[k] == g);
                } else {
                    assert(h[h.len() - 1] == g);
                }
            }
        }
    }
}

} // verus!
