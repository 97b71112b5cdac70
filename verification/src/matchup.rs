//! Matchups of the arena: who may be drafted, and how a matchup is cut down
//! until the free row groups can seat it.

use rand_xoshiro::Xoshiro256PlusPlus;
use vstd::prelude::*;

use crate::chance;
use crate::groups;
use crate::lists;

verus! {

/// The stations with a free group whose checkpoint is not drafted yet, in
/// station order.
pub open spec fn open_stations(
    stations: Seq<u32>,
    free: Seq<Vec<usize>>,
    selected: Seq<u32>,
) -> Seq<u32>
    decreases stations.len(),
{
    if stations.len() == 0 {
        Seq::empty()
    } else {
        let rest = open_stations(stations.drop_last(), free, selected);
        let g = stations.last();
        if free[stations.len() - 1]@.len() > 0 && !selected.contains(g) {
            rest.push(g)
        } else {
            rest
        }
    }
}

/// The checkpoints to pick the next player from; `None` once the matchup is
/// full or nobody is left.
pub fn draft_step(
    n: usize,
    stations: &Vec<u32>,
    free: &Vec<Vec<usize>>,
    selected: &Vec<u32>,
) -> (r: Option<Vec<u32>>)
    requires
        stations@.len() == free@.len(),
    ensures
        match r {
            Some(cands) => selected@.len() < n && cands@.len() > 0 && cands@ == open_stations(
                stations@,
                free@,
                selected@,
            ),
            None => selected@.len() >= n || open_stations(stations@, free@, selected@).len() == 0,
        },
{
    let mut cands: Vec<u32> = Vec::new();
    let mut k: usize = 0;
    while k < stations.len()
        invariant
            k <= stations@.len(),
            stations@.len() == free@.len(),
            cands@ == open_stations(stations@.take(k as int), free@, selected@),
        decreases stations@.len() - k,
    {
        assert(stations@.take(k + 1).drop_last() =~= stations@.take(k as int));
        if free[k].len() > 0 && !lists::has_u32(selected, stations[k]) {
            cands.push(stations[k]);
        }
        k = k + 1;
    }
    assert(stations@.take(k as int) =~= stations@);
    if selected.len() >= n || cands.len() == 0 {
        None
    } else {
        Some(cands)
    }
}

/// The first heuristic player that is not drafted yet.
pub open spec fn next_heuristic(heuristics: Seq<u32>, selected: Seq<u32>) -> Option<u32>
    decreases heuristics.len(),
{
    if heuristics.len() == 0 {
        None
    } else {
        match next_heuristic(heuristics.drop_last(), selected) {
            Some(g) => Some(g),
            None => if selected.contains(heuristics.last()) {
                None
            } else {
                Some(heuristics.last())
            },
        }
    }
}

/// A draft filled up with heuristic players until it has two.
pub open spec fn filled(selected: Seq<u32>, heuristics: Seq<u32>) -> Seq<u32>
    decreases 2 - selected.len(),
{
    if selected.len() < 2 {
        match next_heuristic(heuristics, selected) {
            Some(g) => filled(selected.push(g), heuristics),
            None => selected,
        }
    } else {
        selected
    }
}

/// The first heuristic player that is not drafted yet.
fn find_heuristic(heuristics: &Vec<u32>, selected: &Vec<u32>) -> (r: Option<u32>)
    ensures
        r == next_heuristic(heuristics@, selected@),
{
    let mut i: usize = 0;
    let mut found: Option<u32> = None;
    while i < heuristics.len()
        invariant
            i <= heuristics@.len(),
            found == next_heuristic(heuristics@.take(i as int), selected@),
        decreases heuristics@.len() - i,
    {
        assert(heuristics@.take(i + 1).drop_last() =~= heuristics@.take(i as int));
        if found.is_none() && !lists::has_u32(selected, heuristics[i]) {
            found = Some(heuristics[i]);
        }
        i = i + 1;
    }
    assert(heuristics@.take(i as int) =~= heuristics@);
    found
}

/// Fills a draft up with heuristic players until it has two.
fn fill_with_heuristics(selected: Vec<u32>, heuristics: &Vec<u32>) -> (r: Vec<u32>)
    ensures
        r@ == filled(selected@, heuristics@),
{
    let mut r = selected;
    let ghost goal = filled(selected@, heuristics@);
    let mut more = true;
    while more && r.len() < 2
        invariant
            filled(r@, heuristics@) == goal,
            !more ==> r@ == goal,
        decreases 2 - r@.len(), if more { 1int } else { 0 },
    {
        match find_heuristic(heuristics, &r) {
            Some(g) => {
                r.push(g);
            },
            None => {
                more = false;
            },
        }
    }
    r
}

/// How many free groups player `p` can draw on; `None` for a player who needs
/// none.
pub open spec fn groups_for(stations: Seq<u32>, free: Seq<Vec<usize>>, p: u32) -> Option<nat> {
    match lists::position_in(stations, p) {
        Some(k) => Some(free[k]@.len()),
        None => None,
    }
}

/// How many of the first `n` seats fall to player `i` of `m` under rotation
/// `r`.
pub open spec fn seats_of(i: int, r: int, m: int, n: nat) -> nat
    decreases n,
{
    if n == 0 {
        0
    } else {
        seats_of(i, r, m, (n - 1) as nat) + if (n - 1 + r) % m == i {
            1nat
        } else {
            0nat
        }
    }
}

/// Whether player `i` has a free group for each of its seats.
pub open spec fn player_fits(
    players: Seq<u32>,
    i: int,
    rotation: nat,
    n: nat,
    stations: Seq<u32>,
    free: Seq<Vec<usize>>,
) -> bool {
    let m = players.len() as int;
    groups_for(stations, free, players[i]) matches Some(f) ==> f >= seats_of(
        i,
        rotation as int % m,
        m,
        n,
    )
}

/// Whether every player has a free group for each of its seats.
pub open spec fn feasible(
    players: Seq<u32>,
    rotation: nat,
    n: nat,
    stations: Seq<u32>,
    free: Seq<Vec<usize>>,
) -> bool {
    forall|i: int|
        0 <= i < players.len() ==> #[trigger] player_fits(players, i, rotation, n, stations, free)
}

/// The first of the players with a station that has the fewest free groups.
pub open spec fn tightest(
    players: Seq<u32>,
    stations: Seq<u32>,
    free: Seq<Vec<usize>>,
) -> Option<int>
    decreases players.len(),
{
    if players.len() == 0 {
        None
    } else {
        let rest = tightest(players.drop_last(), stations, free);
        match groups_for(stations, free, players.last()) {
            None => rest,
            Some(f) => match rest {
                Some(j) => if f < groups_for(stations, free, players[j]).unwrap() {
                    Some(players.len() - 1)
                } else {
                    rest
                },
                None => Some(players.len() - 1),
            },
        }
    }
}

/// A matchup without its tightest players, as many as it takes.
pub open spec fn settled(
    players: Seq<u32>,
    rotation: nat,
    n: nat,
    stations: Seq<u32>,
    free: Seq<Vec<usize>>,
) -> Seq<u32>
    decreases players.len(),
{
    if feasible(players, rotation, n, stations, free) || players.len() <= 1 {
        players
    } else {
        match tightest(players, stations, free) {
            Some(i) => if 0 <= i < players.len() {
                settled(players.remove(i), rotation, n, stations, free)
            } else {
                players
            },
            None => players,
        }
    }
}

proof fn lemma_tightest(players: Seq<u32>, stations: Seq<u32>, free: Seq<Vec<usize>>)
    ensures
        match tightest(players, stations, free) {
            Some(i) => 0 <= i < players.len() && groups_for(stations, free, players[i]) is Some,
            None => forall|i: int|
                0 <= i < players.len() ==> groups_for(stations, free, #[trigger] players[i]) is None,
        },
    decreases players.len(),
{
    if players.len() > 0 {
        let t = players.drop_last();
        lemma_tightest(t, stations, free);
        if tightest(players, stations, free) is None {
            assert forall|i: int| 0 <= i < players.len() implies groups_for(
                stations,
                free,
                #[trigger] players[i],
            ) is None by {
                if i < t.len() {
                    assert(t[i] == players[i]);
                }
            }
        }
    }
}

/// How many free groups player `p` can draw on.
fn free_groups(stations: &Vec<u32>, free: &Vec<Vec<usize>>, p: u32) -> (r: Option<usize>)
    requires
        stations@.len() == free@.len(),
    ensures
        match r {
            Some(f) => groups_for(stations@, free@, p) == Some(f as nat),
            None => groups_for(stations@, free@, p) is None,
        },
{
    match lists::position_of(stations, p) {
        Some(k) => Some(free[k].len()),
        None => None,
    }
}

/// How many of the first `n` seats fall to player `i` of `m` under rotation
/// `r`.
fn seat_count(i: usize, r: usize, m: usize, n: usize) -> (c: usize)
    requires
        m > 0,
        n + r <= usize::MAX,
    ensures
        c == seats_of(i as int, r as int, m as int, n as nat),
        c <= n,
{
    let mut c: usize = 0;
    let mut s: usize = 0;
    while s < n
        invariant
            m > 0,
            s <= n,
            n + r <= usize::MAX,
            c == seats_of(i as int, r as int, m as int, s as nat),
            c <= s,
        decreases n - s,
    {
        if (s + r) % m == i {
            c = c + 1;
        }
        s = s + 1;
    }
    c
}

/// Whether every player has a free group for each of its seats.
fn is_feasible(
    players: &Vec<u32>,
    rotation: usize,
    n: usize,
    stations: &Vec<u32>,
    free: &Vec<Vec<usize>>,
) -> (r: bool)
    requires
        stations@.len() == free@.len(),
        n + players@.len() <= usize::MAX,
    ensures
        r == feasible(players@, rotation as nat, n as nat, stations@, free@),
{
    let mut i: usize = 0;
    while i < players.len()
        invariant
            i <= players@.len(),
            stations@.len() == free@.len(),
            n + players@.len() <= usize::MAX,
            forall|j: int|
                0 <= j < i ==> #[trigger] player_fits(
                    players@,
                    j,
                    rotation as nat,
                    n as nat,
                    stations@,
                    free@,
                ),
        decreases players@.len() - i,
    {
        let m: usize = players.len();
        match free_groups(stations, free, players[i]) {
            Some(f) => {
                if f < seat_count(i, rotation % m, m, n) {
                    assert(!player_fits(
                        players@,
                        i as int,
                        rotation as nat,
                        n as nat,
                        stations@,
                        free@,
                    ));
                    return false;
                }
            },
            None => {},
        }
        i = i + 1;
    }
    true
}

/// The first of the players with a station that has the fewest free groups.
fn find_tightest(players: &Vec<u32>, stations: &Vec<u32>, free: &Vec<Vec<usize>>) -> (r:
    Option<usize>)
    requires
        stations@.len() == free@.len(),
    ensures
        match r {
            Some(i) => tightest(players@, stations@, free@) == Some(i as int),
            None => tightest(players@, stations@, free@) is None,
        },
{
    let mut best: Option<usize> = None;
    let mut best_free: usize = 0;
    let mut i: usize = 0;
    while i < players.len()
        invariant
            i <= players@.len(),
            stations@.len() == free@.len(),
            match best {
                Some(b) => b < i && tightest(players@.take(i as int), stations@, free@) == Some(
                    b as int,
                ) && groups_for(stations@, free@, players@[b as int]) == Some(best_free as nat),
                None => tightest(players@.take(i as int), stations@, free@) is None,
            },
        decreases players@.len() - i,
    {
        assert(players@.take(i + 1).drop_last() =~= players@.take(i as int));
        match free_groups(stations, free, players[i]) {
            Some(f) => {
                match best {
                    Some(b) => {
                        assert(players@.take(i as int)[b as int] == players@[b as int]);
                        assert(players@.take(i + 1)[b as int] == players@[b as int]);
                        if f < best_free {
                            best = Some(i);
                            best_free = f;
                        }
                    },
                    None => {
                        best = Some(i);
                        best_free = f;
                    },
                }
            },
            None => {},
        }
        i = i + 1;
    }
    assert(players@.take(i as int) =~= players@);
    best
}

/// Cuts a matchup down until the free groups can seat it: while some player
/// has fewer free groups than seats, the tightest player with a station goes,
/// down to a single player at the least.
pub fn settle(
    players: Vec<u32>,
    rotation: usize,
    n: usize,
    stations: &Vec<u32>,
    free: &Vec<Vec<usize>>,
) -> (r: Vec<u32>)
    requires
        stations@.len() == free@.len(),
        n + players@.len() <= usize::MAX,
    ensures
        r@ == settled(players@, rotation as nat, n as nat, stations@, free@),
{
    let mut r = players;
    let ghost goal = settled(players@, rotation as nat, n as nat, stations@, free@);
    let mut done = false;
    while !done
        invariant
            stations@.len() == free@.len(),
            n + r@.len() <= usize::MAX,
            settled(r@, rotation as nat, n as nat, stations@, free@) == goal,
            done ==> r@ == goal,
        decreases r@.len(), if done { 0int } else { 1 },
    {
        if r.len() <= 1 || is_feasible(&r, rotation, n, stations, free) {
            done = true;
        } else {
            proof {
                lemma_tightest(r@, stations@, free@);
            }
            match find_tightest(&r, stations, free) {
                Some(i) => {
                    r.remove(i);
                },
                None => {
                    done = true;
                },
            }
        }
    }
    r
}

/// Whether `r` is the rotation of a slot for a draw: their sum, wrapping round.
pub open spec fn is_rotation(slot_idx: usize, drawn: usize, r: usize) -> bool {
    r == slot_idx.wrapping_add(drawn)
}

/// How many groups the free lists hold together.
pub open spec fn room(free: Seq<Vec<usize>>) -> nat
    decreases free.len(),
{
    if free.len() == 0 {
        0
    } else {
        room(free.drop_last()) + free.last()@.len()
    }
}

/// The first of the stations with the most groups left.
pub open spec fn roomiest(left: Seq<nat>) -> int
    decreases left.len(),
{
    if left.len() <= 1 {
        0
    } else {
        let best = roomiest(left.drop_last());
        if left.last() > left[best] {
            left.len() - 1
        } else {
            best
        }
    }
}

/// How many groups are free at each station.
pub open spec fn free_counts(free: Seq<Vec<usize>>) -> Seq<nat> {
    Seq::new(free.len(), |s: int| free[s]@.len())
}

/// How many groups are left at each station once `n` seats have each taken one
/// where the most were left.
pub open spec fn left_after(left: Seq<nat>, n: nat) -> Seq<nat>
    decreases n,
{
    if n == 0 {
        left
    } else {
        let l = left_after(left, (n - 1) as nat);
        let b = roomiest(l);
        l.update(b, (l[b] - 1) as nat)
    }
}

/// One player per seat, each from the station that has the most groups left.
pub open spec fn spread(stations: Seq<u32>, left: Seq<nat>, n: nat) -> Seq<u32>
    decreases n,
{
    if n == 0 {
        Seq::empty()
    } else {
        let n1 = (n - 1) as nat;
        spread(stations, left, n1).push(stations[roomiest(left_after(left, n1))])
    }
}

/// The matchup and the rotation of a completed draft: the settled matchup,
/// where the free groups can seat it; else, where they can seat any at all,
/// every seat by itself.
pub open spec fn seatable(
    full: Seq<u32>,
    rotation: usize,
    n: nat,
    stations: Seq<u32>,
    free: Seq<Vec<usize>>,
) -> (Seq<u32>, usize) {
    let s = settled(full, rotation as nat, n, stations, free);
    if s.len() > 0 && feasible(s, rotation as nat, n, stations, free) {
        (s, rotation)
    } else if stations.len() > 0 && room(free) >= n {
        (spread(stations, free_counts(free), n), 0)
    } else {
        (s, rotation)
    }
}

proof fn lemma_roomiest(left: Seq<nat>)
    requires
        left.len() > 0,
    ensures
        0 <= roomiest(left) < left.len(),
        forall|i: int| 0 <= i < left.len() ==> #[trigger] left[i] <= left[roomiest(left)],
    decreases left.len(),
{
    if left.len() > 1 {
        let t = left.drop_last();
        lemma_roomiest(t);
        assert forall|i: int| 0 <= i < left.len() implies #[trigger] left[i] <= left[roomiest(
            left,
        )] by {
            if i < t.len() {
                assert(t[i] <= t[roomiest(t)]);
            }
        }
    }
}

/// The sum of a list of counts.
pub open spec fn sum_of(left: Seq<nat>) -> nat
    decreases left.len(),
{
    if left.len() == 0 {
        0
    } else {
        sum_of(left.drop_last()) + left.last()
    }
}

proof fn lemma_sum_update(left: Seq<nat>, b: int, x: nat)
    requires
        0 <= b < left.len(),
    ensures
        sum_of(left.update(b, x)) + left[b] == sum_of(left) + x,
    decreases left.len(),
{
    let u = left.update(b, x);
    if b < left.len() - 1 {
        lemma_sum_update(left.drop_last(), b, x);
        assert(u.drop_last() =~= left.drop_last().update(b, x));
    } else {
        assert(u.drop_last() =~= left.drop_last());
    }
}

proof fn lemma_sum_small(left: Seq<nat>, m: nat)
    requires
        forall|i: int| 0 <= i < left.len() ==> #[trigger] left[i] <= m,
        m == 0,
    ensures
        sum_of(left) == 0,
    decreases left.len(),
{
    if left.len() > 0 {
        assert(left[left.len() - 1] <= m);
        let t = left.drop_last();
        assert forall|i: int| 0 <= i < t.len() implies #[trigger] t[i] <= m by {
            assert(left[i] <= m);
        }
        lemma_sum_small(t, m);
    }
}

proof fn lemma_room_is_sum(free: Seq<Vec<usize>>)
    ensures
        room(free) == sum_of(free_counts(free)),
    decreases free.len(),
{
    if free.len() > 0 {
        lemma_room_is_sum(free.drop_last());
        assert(free_counts(free).drop_last() =~= free_counts(free.drop_last()));
    }
}

/// As long as there is room, every seat finds a group, and one is left less.
proof fn lemma_left_after(left: Seq<nat>, n: nat)
    requires
        left.len() > 0,
        sum_of(left) >= n,
    ensures
        left_after(left, n).len() == left.len(),
        sum_of(left_after(left, n)) == sum_of(left) - n,
        n > 0 ==> ({
            let l = left_after(left, (n - 1) as nat);
            0 <= roomiest(l) < left.len() && l[roomiest(l)] > 0
        }),
    decreases n,
{
    if n > 0 {
        lemma_left_after(left, (n - 1) as nat);
        let l = left_after(left, (n - 1) as nat);
        lemma_roomiest(l);
        let b = roomiest(l);
        if l[b] == 0 {
            lemma_sum_small(l, 0);
        }
        lemma_sum_update(l, b, (l[b] - 1) as nat);
    }
}

/// What the seats take from a station and what is left there is what it had.
proof fn lemma_spread_claims(stations: Seq<u32>, left: Seq<nat>, n: nat, s: usize)
    requires
        stations.no_duplicates(),
        stations.len() == left.len(),
        0 < stations.len() <= usize::MAX,
        sum_of(left) >= n,
        s < stations.len(),
    ensures
        spread(stations, left, n).len() == n,
        groups::claims(groups::seat_plan(spread(stations, left, n), 0, n, stations), s)
            + left_after(left, n)[s as int] == left[s as int],
    decreases n,
{
    let p = spread(stations, left, n);
    let plan = groups::seat_plan(p, 0, n, stations);
    if n > 0 {
        let n1 = (n - 1) as nat;
        let q = spread(stations, left, n1);
        lemma_spread_claims(stations, left, n1, s);
        lemma_left_after(left, n1);
        lemma_left_after(left, n);
        let b = roomiest(left_after(left, n1));
        let before = groups::seat_plan(q, 0, n1, stations);
        assert forall|j: int| 0 <= j < n1 implies plan[j] == #[trigger] before[j] by {
            vstd::arithmetic::div_mod::lemma_small_mod(j as nat, n);
            vstd::arithmetic::div_mod::lemma_small_mod(j as nat, n1);
        }
        assert(plan.drop_last() =~= before);
        vstd::arithmetic::div_mod::lemma_small_mod(n1, n);
        assert(groups::seat_player(p, 0, n1 as int) == stations[b]);
        groups::lemma_last_position(stations, stations[b]);
        assert(stations.contains(stations[b]));
        assert(plan.last() == Some(b as usize));
    }
}

/// Wherever the free lists hold a group per seat, a completed draft can be
/// seated, whatever was drafted.
pub proof fn completed_draft_is_seated(
    full: Seq<u32>,
    rotation: usize,
    n: nat,
    stations: Seq<u32>,
    free: Seq<Vec<usize>>,
)
    requires
        n > 0,
        full.no_duplicates(),
        stations.no_duplicates(),
        0 < stations.len() <= usize::MAX,
        free.len() == stations.len(),
        room(free) >= n,
    ensures
        ({
            let r = seatable(full, rotation, n, stations, free);
            &&& r.0.len() > 0
            &&& groups::fits(groups::seat_plan(r.0, r.1 as nat, n, stations), free)
            &&& groups::blocked_at(groups::seat_plan(r.0, r.1 as nat, n, stations), free) is None
        }),
{
    let s = settled(full, rotation as nat, n, stations, free);
    settled_is_feasible(full, rotation as nat, n, stations, free);
    if s.len() > 0 && feasible(s, rotation as nat, n, stations, free) {
        feasible_matchup_is_seated(s, rotation as nat, n, stations, free);
    } else {
        let left = free_counts(free);
        lemma_room_is_sum(free);
        let p = spread(stations, left, n);
        let plan = groups::seat_plan(p, 0, n, stations);
        assert forall|k: usize| k < free.len() implies #[trigger] groups::claims(plan, k)
            <= free[k as int]@.len() by {
            lemma_spread_claims(stations, left, n, k);
        }
        lemma_spread_claims(stations, left, n, 0);
        assert forall|i: int| 0 <= i < plan.len() implies (#[trigger] plan[i] matches Some(k) ==> k
            < free.len()) by {
            groups::lemma_last_position(stations, groups::seat_player(p, 0, i));
        }
        groups::blocked_means_no_fit(plan, free);
    }
}

/// Whether the free lists hold `n` groups together.
fn has_room(free: &Vec<Vec<usize>>, n: usize) -> (r: bool)
    ensures
        r == (room(free@) >= n),
{
    let mut want: usize = n;
    let mut i: usize = 0;
    while i < free.len()
        invariant
            i <= free@.len(),
            want == if room(free@.take(i as int)) >= n {
                0
            } else {
                n - room(free@.take(i as int))
            },
        decreases free@.len() - i,
    {
        assert(free@.take(i + 1).drop_last() =~= free@.take(i as int));
        let f: usize = free[i].len();
        want = if f >= want { 0 } else { want - f };
        i = i + 1;
    }
    assert(free@.take(i as int) =~= free@);
    want == 0
}

/// The first of the stations with the most groups left.
fn find_roomiest(left: &Vec<usize>) -> (b: usize)
    requires
        left@.len() > 0,
    ensures
        b < left@.len(),
        b == roomiest(left@.map_values(|x: usize| x as nat)),
{
    let ghost l = left@.map_values(|x: usize| x as nat);
    let mut b: usize = 0;
    let mut i: usize = 1;
    while i < left.len()
        invariant
            1 <= i <= left@.len(),
            b < i,
            l == left@.map_values(|x: usize| x as nat),
            b == roomiest(l.take(i as int)),
        decreases left@.len() - i,
    {
        assert(l.take(i + 1).drop_last() =~= l.take(i as int));
        if left[i] > left[b] {
            b = i;
        }
        i = i + 1;
    }
    assert(l.take(i as int) =~= l);
    b
}

/// One player per seat, each from the station that has the most groups left.
fn spread_seats(stations: &Vec<u32>, free: &Vec<Vec<usize>>, n: usize) -> (players: Vec<u32>)
    requires
        stations@.len() == free@.len(),
        stations@.len() > 0,
        room(free@) >= n,
    ensures
        players@ == spread(stations@, free_counts(free@), n as nat),
{
    let ghost start = free_counts(free@);
    let mut left: Vec<usize> = Vec::new();
    let mut s: usize = 0;
    while s < free.len()
        invariant
            s <= free@.len(),
            left@.len() == s,
            forall|k: int| 0 <= k < s ==> #[trigger] left@[k] == free@[k]@.len(),
        decreases free@.len() - s,
    {
        left.push(free[s].len());
        s = s + 1;
    }
    let mut players: Vec<u32> = Vec::new();
    let mut i: usize = 0;
    proof {
        lemma_room_is_sum(free@);
    }
    assert(left@.map_values(|x: usize| x as nat) =~= start);
    while i < n
        invariant
            i <= n,
            stations@.len() == start.len(),
            stations@.len() > 0,
            sum_of(start) >= n,
            left@.len() == stations@.len(),
            left@.map_values(|x: usize| x as nat) == left_after(start, i as nat),
            players@ == spread(stations@, start, i as nat),
        decreases n - i,
    {
        let ghost l = left@.map_values(|x: usize| x as nat);
        let b: usize = find_roomiest(&left);
        proof {
            lemma_left_after(start, (i + 1) as nat);
            assert(l[b as int] > 0);
        }
        players.push(stations[b]);
        left[b] = left[b] - 1;
        assert(left@.map_values(|x: usize| x as nat) =~= l.update(b as int, (l[b as int] - 1) as nat));
        i = i + 1;
    }
    players
}

/// Completes a draft: fills it up to two players with heuristics, draws the
/// rotation, and cuts the matchup down to what the free groups can seat. Where
/// that does not come out, every seat goes by itself to the station with the
/// most groups left.
///
/// The rotation is the slot's number plus a random draw below the number of
/// players.
pub fn complete_draft(
    rng: &mut Xoshiro256PlusPlus,
    selected: Vec<u32>,
    heuristics: &Vec<u32>,
    stations: &Vec<u32>,
    free: &Vec<Vec<usize>>,
    slot_idx: usize,
    n: usize,
) -> (r: (Vec<u32>, usize))
    requires
        stations@.len() == free@.len(),
        n + selected@.len() + 2 <= usize::MAX,
    ensures
        ({
            let full = filled(selected@, heuristics@);
            exists|d: usize, rotation: usize|
                (d < full.len() || d == 0) && #[trigger] is_rotation(slot_idx, d, rotation) && (
                r.0@,
                r.1,
            ) == seatable(full, rotation, n as nat, stations@, free@)
        }),
        selected@.no_duplicates() && stations@.no_duplicates() && stations@.len() > 0 && n > 0
            && room(free@) >= n ==> r.0@.len() > 0 && groups::blocked_at(
            groups::seat_plan(r.0@, r.1 as nat, n as nat, stations@),
            free@,
        ) is None,
{
    proof {
        lemma_filled_len(selected@, heuristics@);
        if selected@.no_duplicates() {
            lemma_filled_distinct(selected@, heuristics@);
        }
    }
    let ghost full_seq = filled(selected@, heuristics@);
    let full = fill_with_heuristics(selected, heuristics);
    let m: usize = if full.len() > 1 { full.len() } else { 1 };
    let k: usize = stations.len();
    let drawn: usize = chance::draw_below(rng, m);
    let rotation: usize = slot_idx.wrapping_add(drawn);
    assert(is_rotation(slot_idx, drawn, rotation));
    proof {
        settled_is_feasible(full_seq, rotation as nat, n as nat, stations@, free@);
        if full_seq.no_duplicates() && stations@.no_duplicates() && k > 0 && n > 0
            && room(free@) >= n {
            completed_draft_is_seated(full_seq, rotation, n as nat, stations@, free@);
        }
    }
    let players = settle(full, rotation, n, stations, free);
    let fits = players.len() > 0 && is_feasible(&players, rotation, n, stations, free);
    if !fits && k > 0 && has_room(free, n) {
        (spread_seats(stations, free, n), 0)
    } else {
        (players, rotation)
    }
}

proof fn lemma_next_heuristic(heuristics: Seq<u32>, selected: Seq<u32>)
    ensures
        next_heuristic(heuristics, selected) matches Some(g) ==> !selected.contains(g),
    decreases heuristics.len(),
{
    if heuristics.len() > 0 {
        lemma_next_heuristic(heuristics.drop_last(), selected);
    }
}

proof fn lemma_filled_distinct(selected: Seq<u32>, heuristics: Seq<u32>)
    requires
        selected.no_duplicates(),
    ensures
        filled(selected, heuristics).no_duplicates(),
    decreases 2 - selected.len(),
{
    if selected.len() < 2 {
        lemma_next_heuristic(heuristics, selected);
        match next_heuristic(heuristics, selected) {
            Some(g) => {
                assert(selected.push(g).no_duplicates());
                lemma_filled_distinct(selected.push(g), heuristics);
            },
            None => {},
        }
    }
}

pub proof fn lemma_filled_len(selected: Seq<u32>, heuristics: Seq<u32>)
    ensures
        filled(selected, heuristics).len() <= selected.len() + 2,
        filled(selected, heuristics).len() >= selected.len(),
        filled(selected, heuristics).len() <= 2 || filled(selected, heuristics).len()
            == selected.len(),
    decreases 2 - selected.len(),
{
    if selected.len() < 2 {
        match next_heuristic(heuristics, selected) {
            Some(g) => lemma_filled_len(selected.push(g), heuristics),
            None => {},
        }
    }
}

proof fn lemma_sole_player(rotation: int, n: nat)
    ensures
        seats_of(0, rotation % 1, 1, n) == n,
    decreases n,
{
    if n > 0 {
        lemma_sole_player(rotation, (n - 1) as nat);
        assert((n - 1 + rotation % 1) % 1 == 0);
    }
}

/// A settled matchup is feasible, unless a single player is left who has fewer
/// free groups than there are seats.
pub proof fn settled_is_feasible(
    players: Seq<u32>,
    rotation: nat,
    n: nat,
    stations: Seq<u32>,
    free: Seq<Vec<usize>>,
)
    ensures
        ({
            let r = settled(players, rotation, n, stations, free);
            &&& r.len() <= players.len()
            &&& players.len() > 0 ==> r.len() > 0
            &&& r.len() >= 2 ==> feasible(r, rotation, n, stations, free)
            &&& r.len() == 1 && (groups_for(stations, free, r[0]) matches Some(f) ==> f >= n)
                ==> feasible(r, rotation, n, stations, free)
            &&& players.no_duplicates() ==> r.no_duplicates()
        }),
    decreases players.len(),
{
    if feasible(players, rotation, n, stations, free) {
    } else if players.len() <= 1 {
        lemma_sole_player(rotation as int, n);
    } else {
        lemma_tightest(players, stations, free);
        match tightest(players, stations, free) {
            Some(i) => {
                settled_is_feasible(players.remove(i), rotation, n, stations, free);
                if players.no_duplicates() {
                    assert(players.remove(i).no_duplicates());
                }
            },
            None => {
                assert(feasible(players, rotation, n, stations, free));
            },
        }
    }
}

proof fn lemma_claims_are_seats(
    players: Seq<u32>,
    rotation: nat,
    n: nat,
    stations: Seq<u32>,
    s: usize,
    i: int,
)
    requires
        players.no_duplicates(),
        stations.no_duplicates(),
        stations.len() <= usize::MAX,
        s < stations.len(),
        0 <= i < players.len(),
        players[i] == stations[s as int],
    ensures
        groups::claims(groups::seat_plan(players, rotation, n, stations), s) == seats_of(
            i,
            rotation as int % (players.len() as int),
            players.len() as int,
            n,
        ),
    decreases n,
{
    let plan = groups::seat_plan(players, rotation, n, stations);
    let m = players.len() as int;
    if n > 0 {
        let n1 = (n - 1) as nat;
        lemma_claims_are_seats(players, rotation, n1, stations, s, i);
        assert(plan.drop_last() =~= groups::seat_plan(players, rotation, n1, stations));
        let p = groups::seat_player(players, rotation, n - 1);
        groups::lemma_last_position(stations, p);
        vstd::arithmetic::div_mod::lemma_add_mod_noop_right(n - 1, rotation as int, m);
        let at = (n - 1 + rotation) % m;
        assert(0 <= at < m) by (nonlinear_arith)
            requires
                m > 0,
                at == (n - 1 + rotation) % m,
        ;
        assert((n - 1 + rotation as int % m) % m == at);
        assert(plan.last() == groups::last_position(stations, p));
        if at == i {
            assert(p == stations[s as int]);
            assert(stations.contains(p));
            assert(plan.last() == Some(s));
        } else {
            assert(players[at] != players[i]);
            assert(plan.last() != Some(s));
        }
    }
}

proof fn lemma_claims_of_nobody(
    players: Seq<u32>,
    rotation: nat,
    n: nat,
    stations: Seq<u32>,
    s: usize,
)
    requires
        players.len() > 0,
        stations.len() <= usize::MAX,
        s < stations.len(),
        !players.contains(stations[s as int]),
    ensures
        groups::claims(groups::seat_plan(players, rotation, n, stations), s) == 0,
    decreases n,
{
    let plan = groups::seat_plan(players, rotation, n, stations);
    let m = players.len() as int;
    if n > 0 {
        let n1 = (n - 1) as nat;
        lemma_claims_of_nobody(players, rotation, n1, stations, s);
        assert(plan.drop_last() =~= groups::seat_plan(players, rotation, n1, stations));
        let p = groups::seat_player(players, rotation, n - 1);
        groups::lemma_last_position(stations, p);
        let at = (n - 1 + rotation) % m;
        assert(0 <= at < m) by (nonlinear_arith)
            requires
                m > 0,
                at == (n - 1 + rotation) % m,
        ;
        assert(p == players[at]);
        assert(players.contains(p));
        assert(plan.last() == groups::last_position(stations, p));
    }
}

/// A feasible matchup can be seated: no seat finds its station's free list
/// empty.
pub proof fn feasible_matchup_is_seated(
    players: Seq<u32>,
    rotation: nat,
    n: nat,
    stations: Seq<u32>,
    free: Seq<Vec<usize>>,
)
    requires
        players.len() > 0,
        players.no_duplicates(),
        stations.no_duplicates(),
        stations.len() <= usize::MAX,
        free.len() == stations.len(),
        feasible(players, rotation, n, stations, free),
    ensures
        groups::fits(groups::seat_plan(players, rotation, n, stations), free),
        groups::blocked_at(groups::seat_plan(players, rotation, n, stations), free) is None,
{
    let plan = groups::seat_plan(players, rotation, n, stations);
    assert forall|s: usize| s < free.len() implies #[trigger] groups::claims(plan, s)
        <= free[s as int]@.len() by {
        let g = stations[s as int];
        if players.contains(g) {
            let i = choose|i: int| 0 <= i < players.len() && players[i] == g;
            lemma_claims_are_seats(players, rotation, n, stations, s, i);
            assert(player_fits(players, i, rotation, n, stations, free));
            lists::lemma_position_in(stations, g);
            assert(stations.contains(g));
        } else {
            lemma_claims_of_nobody(players, rotation, n, stations, s);
        }
    }
    assert forall|i: int| 0 <= i < plan.len() implies (#[trigger] plan[i] matches Some(s) ==> s
        < free.len()) by {
        groups::lemma_last_position(stations, groups::seat_player(players, rotation, i));
    }
    groups::blocked_means_no_fit(plan, free);
}

/// Who can be drafted: exactly the stations that have a free group and are not in
/// the draft yet.
pub proof fn open_stations_have_room(
    stations: Seq<u32>,
    free: Seq<Vec<usize>>,
    selected: Seq<u32>,
    g: u32,
)
    requires
        stations.len() == free.len(),
    ensures
        open_stations(stations, free, selected).contains(g) <==> !selected.contains(g) && exists|i: int|
            0 <= i < stations.len() && #[trigger] stations[i] == g && free[i]@.len() > 0,
        open_stations(stations, free, selected).len() <= stations.len(),
    decreases stations.len(),
{
    if stations.len() > 0 {
        let (rest, all) = (
            open_stations(stations.drop_last(), free.drop_last(), selected),
            open_stations(stations, free, selected),
        );
        let last = stations.len() - 1;
        lemma_open_prefix(stations.drop_last(), free, free.drop_last(), selected);
        open_stations_have_room(stations.drop_last(), free.drop_last(), selected, g);
        if rest.contains(g) {
            let i = choose|i: int| 0 <= i < rest.len() && rest[i] == g;
            assert(all[i] == g);
            let j = choose|j: int|
                0 <= j < last && #[trigger] stations.drop_last()[j] == g
                    && free.drop_last()[j]@.len() > 0;
            assert(stations[j] == g && free[j]@.len() > 0);
        }
        if all.contains(g) && !rest.contains(g) {
            let i = choose|i: int| 0 <= i < all.len() && all[i] == g;
            if i < rest.len() {
                assert(rest[i] == g);
            }
            assert(stations[last] == g && free[last]@.len() > 0);
        }
        if !selected.contains(g) && exists|i: int|
            0 <= i < stations.len() && #[trigger] stations[i] == g && free[i]@.len() > 0 {
            let i = choose|i: int|
                0 <= i < stations.len() && #[trigger] stations[i] == g && free[i]@.len() > 0;
            if i < last {
                assert(stations.drop_last()[i] == g && free.drop_last()[i]@.len() > 0);
            } else {
                assert(all[all.len() - 1] == g);
            }
        }
    }
}

proof fn lemma_open_prefix(
    stations: Seq<u32>,
    a: Seq<Vec<usize>>,
    b: Seq<Vec<usize>>,
    selected: Seq<u32>,
)
    requires
        stations.len() <= a.len(),
        stations.len() <= b.len(),
        forall|i: int| 0 <= i < stations.len() ==> #[trigger] a[i] == b[i],
    ensures
        open_stations(stations, a, selected) == open_stations(stations, b, selected),
    decreases stations.len(),
{
    if stations.len() > 0 {
        lemma_open_prefix(stations.drop_last(), a, b, selected);
        assert(a[stations.len() - 1] == b[stations.len() - 1]);
    }
}

/// The heuristic that joins a draft is the first one that is not in it.
pub proof fn the_first_free_heuristic_joins(heuristics: Seq<u32>, selected: Seq<u32>)
    ensures
        match next_heuristic(heuristics, selected) {
            Some(g) => exists|i: int|
                0 <= i < heuristics.len() && #[trigger] heuristics[i] == g && !selected.contains(g)
                    && forall|j: int| 0 <= j < i ==> selected.contains(#[trigger] heuristics[j]),
            None => forall|j: int|
                0 <= j < heuristics.len() ==> selected.contains(#[trigger] heuristics[j]),
        },
    decreases heuristics.len(),
{
    if heuristics.len() > 0 {
        let rest = heuristics.drop_last();
        let last = heuristics.len() - 1;
        the_first_free_heuristic_joins(rest, selected);
        match next_heuristic(rest, selected) {
            Some(g) => {
                let i = choose|i: int|
                    0 <= i < rest.len() && #[trigger] rest[i] == g && !selected.contains(g)
                        && forall|j: int| 0 <= j < i ==> selected.contains(#[trigger] rest[j]);
                assert(heuristics[i] == g);
                assert forall|j: int| 0 <= j < i implies selected.contains(
                    #[trigger] heuristics[j],
                ) by {
                    assert(selected.contains(rest[j]));
                }
            },
            None => {
                assert forall|j: int| 0 <= j < last implies selected.contains(
                    #[trigger] heuristics[j],
                ) by {
                    assert(selected.contains(rest[j]));
                }
                assert(heuristics[last] == heuristics.last());
            },
        }
    }
}

/// Heuristics only fill a draft up to two: whoever was drafted stays, in the same
/// place, and a draft of two or more takes none.
pub proof fn heuristics_only_fill_up(selected: Seq<u32>, heuristics: Seq<u32>)
    ensures
        selected.is_prefix_of(filled(selected, heuristics)),
        selected.len() >= 2 ==> filled(selected, heuristics) == selected,
        filled(selected, heuristics).len() < 2 ==> forall|j: int|
            0 <= j < heuristics.len() ==> filled(selected, heuristics).contains(
                #[trigger] heuristics[j],
            ),
        forall|j: int|
            selected.len() <= j < filled(selected, heuristics).len() ==> heuristics.contains(
                #[trigger] filled(selected, heuristics)[j],
            ),
    decreases 2 - selected.len(),
{
    if selected.len() < 2 {
        the_first_free_heuristic_joins(heuristics, selected);
        match next_heuristic(heuristics, selected) {
            Some(g) => {
                heuristics_only_fill_up(selected.push(g), heuristics);
                let full = filled(selected, heuristics);
                let more = selected.push(g);
                assert(full == filled(more, heuristics));
                assert(more.len() <= full.len());
                assert forall|k: int| 0 <= k < more.len() implies full[k] == more[k] by {
                    assert(full.take(more.len() as int)[k] == full[k]);
                }
                assert(selected =~= full.take(selected.len() as int));
                assert(full[selected.len() as int] == g);
                assert(heuristics.contains(g));
            },
            None => {},
        }
    }
}

/// A player's seats are the seats that its turn comes round to.
pub proof fn seats_come_round(i: int, r: int, m: int, n: nat)
    ensures
        seats_of(i, r, m, n) == Seq::new(n, |j: int| j).filter(|j: int| (j + r) % m == i).len(),
    decreases n,
{
    reveal(Seq::filter);
    if n > 0 {
        seats_come_round(i, r, m, (n - 1) as nat);
        assert(Seq::new(n, |j: int| j).drop_last() =~= Seq::new((n - 1) as nat, |j: int| j));
    }
}

/// Who leaves a matchup that does not fit: the first of the players with the
/// fewest free groups among those that sit at a station.
pub proof fn the_tightest_leaves(players: Seq<u32>, stations: Seq<u32>, free: Seq<Vec<usize>>)
    ensures
        match tightest(players, stations, free) {
            Some(i) => {
                &&& 0 <= i < players.len()
                &&& groups_for(stations, free, players[i]) is Some
                &&& forall|j: int|
                    0 <= j < players.len() && groups_for(
                        stations,
                        free,
                        #[trigger] players[j],
                    ) is Some ==> groups_for(stations, free, players[i]).unwrap() <= groups_for(
                        stations,
                        free,
                        players[j],
                    ).unwrap()
                &&& forall|j: int|
                    0 <= j < i && groups_for(stations, free, #[trigger] players[j]) is Some
                        ==> groups_for(stations, free, players[i]).unwrap() < groups_for(
                        stations,
                        free,
                        players[j],
                    ).unwrap()
            },
            None => forall|j: int|
                0 <= j < players.len() ==> groups_for(stations, free, #[trigger] players[j]) is None,
        },
    decreases players.len(),
{
    if players.len() > 0 {
        let rest = players.drop_last();
        the_tightest_leaves(rest, stations, free);
        assert forall|j: int| 0 <= j < rest.len() implies #[trigger] players[j] == rest[j] by {}
        assert(players[players.len() - 1] == players.last());
    }
}

/// A matchup that fits stays as it is: every player that sits at a station has a
/// free group for each of its seats.
pub proof fn fitting_matchups_stay(
    players: Seq<u32>,
    rotation: nat,
    n: nat,
    stations: Seq<u32>,
    free: Seq<Vec<usize>>,
)
    requires
        players.len() > 0,
        forall|i: int|
            0 <= i < players.len() && stations.contains(players[i]) ==> exists|k: int|
                #![trigger stations[k], seats_of(i, rotation as int % (players.len() as int), players.len() as int, n)]
                lists::position_in(stations, players[i]) == Some(k) && 0 <= k < stations.len()
                    && stations[k] == players[i] && free[k]@.len() >= seats_of(
                    i,
                    rotation as int % (players.len() as int),
                    players.len() as int,
                    n,
                ),
        forall|p: u32| !stations.contains(p) ==> #[trigger] lists::position_in(stations, p) is None,
    ensures
        settled(players, rotation, n, stations, free) == players,
{
    assert forall|i: int| 0 <= i < players.len() implies #[trigger] player_fits(
        players,
        i,
        rotation,
        n,
        stations,
        free,
    ) by {
        if stations.contains(players[i]) {
        } else {
            assert(lists::position_in(stations, players[i]) is None);
        }
    }
}

/// Of the stations with most room the first is taken: none has more room, and none
/// before it as much.
pub proof fn the_first_of_the_roomiest_is_taken(left: Seq<nat>)
    requires
        left.len() > 0,
    ensures
        0 <= roomiest(left) < left.len(),
        forall|j: int| 0 <= j < left.len() ==> #[trigger] left[j] <= left[roomiest(left)],
        forall|j: int| 0 <= j < roomiest(left) ==> #[trigger] left[j] < left[roomiest(left)],
    decreases left.len(),
{
    lemma_roomiest(left);
    if left.len() > 1 {
        let rest = left.drop_last();
        the_first_of_the_roomiest_is_taken(rest);
        assert forall|j: int| 0 <= j < roomiest(left) implies #[trigger] left[j]
            < left[roomiest(left)] by {
            assert(left[j] == rest[j]);
            assert(rest[j] <= rest[roomiest(rest)]);
        }
    }
}

} // verus!
