//! Which checkpoints hold a station: one of the few weight slots that arena
//! matchups are drawn from.

use std::collections::HashMap;

use vstd::prelude::*;

use crate::lists;
use crate::order;

verus! {

/// The number of stations, where the pool is large enough.
pub const STATIONS: usize = 8;

/// How often `g` is counted in `counts`.
pub open spec fn count_of(counts: Map<u32, u32>, g: u32) -> nat {
    if counts.contains_key(g) {
        counts[g] as nat
    } else {
        0
    }
}

/// How often `g` is counted in `counts`.
pub fn count_for(counts: &HashMap<u32, u32>, g: u32) -> (c: u32)
    ensures
        c == count_of(counts@, g),
{
    broadcast use vstd::std_specs::hash::group_hash_axioms;

    match counts.get(&g) {
        Some(c) => *c,
        None => 0,
    }
}

/// How often `g` occurs in `gs`.
pub open spec fn occurrences(gs: Seq<u32>, g: u32) -> nat
    decreases gs.len(),
{
    if gs.len() == 0 {
        0
    } else {
        occurrences(gs.drop_last(), g) + if gs.last() == g {
            1nat
        } else {
            0nat
        }
    }
}

proof fn lemma_occurrences_grow(gs: Seq<u32>, g: u32, k: int)
    requires
        0 <= k <= gs.len(),
    ensures
        occurrences(gs.take(k), g) <= occurrences(gs, g),
    decreases gs.len(),
{
    if k < gs.len() {
        lemma_occurrences_grow(gs.drop_last(), g, k);
        assert(gs.drop_last().take(k) =~= gs.take(k));
    } else {
        assert(gs.take(k) =~= gs);
    }
}

/// Adds one to the count of every entry of `gs`.
pub fn count_up(counts: &mut HashMap<u32, u32>, gs: &Vec<u32>)
    requires
        forall|g: u32| #[trigger] count_of(old(counts)@, g) + occurrences(gs@, g) <= u32::MAX,
    ensures
        forall|g: u32| #[trigger]
            count_of(final(counts)@, g) == count_of(old(counts)@, g) + occurrences(gs@, g),
{
    broadcast use vstd::std_specs::hash::group_hash_axioms;

    let ghost start = counts@;
    let mut i: usize = 0;
    while i < gs.len()
        invariant
            i <= gs@.len(),
            forall|g: u32| #[trigger] count_of(start, g) + occurrences(gs@, g) <= u32::MAX,
            forall|g: u32| #[trigger]
                count_of(counts@, g) == count_of(start, g) + occurrences(gs@.take(i as int), g),
        decreases gs@.len() - i,
    {
        let g: u32 = gs[i];
        let c: u32 = count_for(counts, g);
        assert(gs@.take(i + 1).drop_last() =~= gs@.take(i as int));
        proof {
            lemma_occurrences_grow(gs@, g, i + 1);
            assert(count_of(start, g) + occurrences(gs@, g) <= u32::MAX);
        }
        let ghost before = counts@;
        counts.insert(g, c + 1);
        proof {
            assert forall|h: u32| #[trigger]
                count_of(counts@, h) == count_of(start, h) + occurrences(gs@.take(i + 1), h) by {
                assert(count_of(before, h) == count_of(start, h) + occurrences(
                    gs@.take(i as int),
                    h,
                ));
            }
        }
        i = i + 1;
    }
    assert(gs@.take(i as int) =~= gs@);
}

/// The first of the entries outside `skip` with the lowest count.
pub open spec fn least_played(pool: Seq<u32>, skip: Seq<u32>, career: Map<u32, u32>) -> Option<u32>
    decreases pool.len(),
{
    if pool.len() == 0 {
        None
    } else {
        let rest = least_played(pool.drop_last(), skip, career);
        let x = pool.last();
        if skip.contains(x) {
            rest
        } else {
            match rest {
                Some(b) => if count_of(career, x) < count_of(career, b) {
                    Some(x)
                } else {
                    rest
                },
                None => Some(x),
            }
        }
    }
}

/// The last of the entries with the highest count.
pub open spec fn most_played(stations: Seq<u32>, career: Map<u32, u32>) -> Option<u32>
    decreases stations.len(),
{
    if stations.len() == 0 {
        None
    } else {
        let x = stations.last();
        match most_played(stations.drop_last(), career) {
            Some(b) => if count_of(career, x) >= count_of(career, b) {
                Some(x)
            } else {
                Some(b)
            },
            None => Some(x),
        }
    }
}

/// `s` with every `v` taken out.
pub open spec fn without(s: Seq<u32>, v: u32) -> Seq<u32> {
    s.filter(|x: u32| x != v)
}

/// `s` with `x` at its end, unless `s` holds it already.
pub open spec fn with_new(s: Seq<u32>, x: u32) -> Seq<u32> {
    if s.contains(x) {
        s
    } else {
        s.push(x)
    }
}

/// The entries that should hold a station: the newest checkpoint, the two
/// leaders by rating, and the least-played of the others.
pub open spec fn wanted(pool: Seq<u32>, by_elo: Seq<u32>, career: Map<u32, u32>) -> Seq<u32> {
    let newest = if pool.len() > 0 {
        seq![pool.last()]
    } else {
        Seq::empty()
    };
    let first = if by_elo.len() > 0 {
        with_new(newest, by_elo[0])
    } else {
        newest
    };
    let both = if by_elo.len() > 1 {
        with_new(first, by_elo[1])
    } else {
        first
    };
    match least_played(pool, both, career) {
        Some(starved) => both.push(starved),
        None => both,
    }
}

/// The holders that nobody asked for.
pub open spec fn unasked(stations: Seq<u32>, want: Seq<u32>) -> Seq<u32> {
    stations.filter(|x: u32| !want.contains(x))
}

/// Gives `g` a station: a free one, else that of the most-played holder that is
/// not wanted itself.
pub open spec fn admitted(
    stations: Seq<u32>,
    g: u32,
    want: Seq<u32>,
    k: nat,
    career: Map<u32, u32>,
) -> Seq<u32> {
    if stations.contains(g) {
        stations
    } else if stations.len() < k {
        stations.push(g)
    } else {
        match most_played(unasked(stations, want), career) {
            Some(v) => without(stations, v).push(g),
            None => stations,
        }
    }
}

/// Gives each of the first `i` that are wanted a station, in order.
pub open spec fn all_admitted(
    stations: Seq<u32>,
    want: Seq<u32>,
    i: nat,
    k: nat,
    career: Map<u32, u32>,
) -> Seq<u32>
    decreases i,
{
    if i == 0 {
        stations
    } else {
        admitted(
            all_admitted(stations, want, (i - 1) as nat, k, career),
            want[i - 1],
            want,
            k,
            career,
        )
    }
}

/// Fills the free stations with the least-played of the rest.
pub open spec fn topped_up(
    stations: Seq<u32>,
    pool: Seq<u32>,
    k: nat,
    career: Map<u32, u32>,
) -> Seq<u32>
    decreases k - stations.len(),
{
    if stations.len() < k {
        match least_played(pool, stations, career) {
            Some(x) => topped_up(stations.push(x), pool, k, career),
            None => stations,
        }
    } else {
        stations
    }
}

/// The number of stations for a pool.
pub open spec fn station_count(pool: Seq<u32>) -> nat {
    if pool.len() < STATIONS {
        pool.len()
    } else {
        STATIONS as nat
    }
}

/// The holders that stay: those still in the pool, as many as there are
/// stations.
pub open spec fn staying(stations: Seq<u32>, pool: Seq<u32>) -> Seq<u32> {
    let kept = stations.filter(|g: u32| pool.contains(g));
    if kept.len() > station_count(pool) {
        kept.take(station_count(pool) as int)
    } else {
        kept
    }
}

/// The holders of the stations once the pool has changed, in no order.
pub open spec fn reconciled(
    stations: Seq<u32>,
    pool: Seq<u32>,
    by_elo: Seq<u32>,
    career: Map<u32, u32>,
) -> Seq<u32> {
    let k = station_count(pool);
    let want = wanted(pool, by_elo, career);
    topped_up(
        all_admitted(staying(stations, pool), want, want.len(), k, career),
        pool,
        k,
        career,
    )
}

/// The first of the entries outside `skip` with the lowest count.
pub fn find_least_played(pool: &Vec<u32>, skip: &Vec<u32>, career: &HashMap<u32, u32>) -> (r:
    Option<u32>)
    ensures
        r == least_played(pool@, skip@, career@),
{
    let mut best: Option<u32> = None;
    let mut i: usize = 0;
    while i < pool.len()
        invariant
            i <= pool@.len(),
            best == least_played(pool@.take(i as int), skip@, career@),
        decreases pool@.len() - i,
    {
        assert(pool@.take(i + 1).drop_last() =~= pool@.take(i as int));
        let x: u32 = pool[i];
        if !lists::has_u32(skip, x) {
            match best {
                Some(b) => {
                    if count_for(career, x) < count_for(career, b) {
                        best = Some(x);
                    }
                },
                None => {
                    best = Some(x);
                },
            }
        }
        i = i + 1;
    }
    assert(pool@.take(i as int) =~= pool@);
    best
}

/// The last of the entries with the highest count.
fn find_most_played(stations: &Vec<u32>, career: &HashMap<u32, u32>) -> (r: Option<u32>)
    ensures
        r == most_played(stations@, career@),
{
    let mut best: Option<u32> = None;
    let mut i: usize = 0;
    while i < stations.len()
        invariant
            i <= stations@.len(),
            best == most_played(stations@.take(i as int), career@),
        decreases stations@.len() - i,
    {
        assert(stations@.take(i + 1).drop_last() =~= stations@.take(i as int));
        let x: u32 = stations[i];
        match best {
            Some(b) => {
                if count_for(career, x) >= count_for(career, b) {
                    best = Some(x);
                }
            },
            None => {
                best = Some(x);
            },
        }
        i = i + 1;
    }
    assert(stations@.take(i as int) =~= stations@);
    best
}

/// Keeps the entries of `v` that `pool` holds.
fn keep_members(v: &Vec<u32>, pool: &Vec<u32>) -> (r: Vec<u32>)
    ensures
        r@ == v@.filter(|g: u32| pool@.contains(g)),
{
    let mut r: Vec<u32> = Vec::new();
    let mut i: usize = 0;
    reveal(Seq::filter);
    while i < v.len()
        invariant
            i <= v@.len(),
            r@ == v@.take(i as int).filter(|g: u32| pool@.contains(g)),
        decreases v@.len() - i,
    {
        reveal(Seq::filter);
        assert(v@.take(i + 1).drop_last() =~= v@.take(i as int));
        if lists::has_u32(pool, v[i]) {
            r.push(v[i]);
        }
        i = i + 1;
    }
    assert(v@.take(i as int) =~= v@);
    r
}

/// Keeps the entries of `v` that are not in `want`.
fn drop_wanted(v: &Vec<u32>, want: &Vec<u32>) -> (r: Vec<u32>)
    ensures
        r@ == unasked(v@, want@),
{
    let ghost keep = |x: u32| !want@.contains(x);
    let mut r: Vec<u32> = Vec::new();
    let mut i: usize = 0;
    proof {
        reveal(Seq::filter);
        assert(v@.take(0).filter(keep) =~= Seq::<u32>::empty());
    }
    while i < v.len()
        invariant
            i <= v@.len(),
            keep == (|x: u32| !want@.contains(x)),
            r@ == v@.take(i as int).filter(keep),
        decreases v@.len() - i,
    {
        let x: u32 = v[i];
        proof {
            reveal(Seq::filter);
            assert(v@.take(i + 1).drop_last() =~= v@.take(i as int));
        }
        if !lists::has_u32(want, x) {
            r.push(x);
        }
        i = i + 1;
    }
    assert(v@.take(i as int) =~= v@);
    r
}

/// Takes every `x` out of `v`.
fn drop_value(v: &Vec<u32>, x: u32) -> (r: Vec<u32>)
    ensures
        r@ == without(v@, x),
{
    let mut r: Vec<u32> = Vec::new();
    let mut i: usize = 0;
    reveal(Seq::filter);
    while i < v.len()
        invariant
            i <= v@.len(),
            r@ == without(v@.take(i as int), x),
        decreases v@.len() - i,
    {
        reveal(Seq::filter);
        assert(v@.take(i + 1).drop_last() =~= v@.take(i as int));
        if v[i] != x {
            r.push(v[i]);
        }
        i = i + 1;
    }
    assert(v@.take(i as int) =~= v@);
    r
}

/// The entries that should hold a station.
fn wanted_list(pool: &Vec<u32>, by_elo: &Vec<u32>, career: &HashMap<u32, u32>) -> (want: Vec<u32>)
    ensures
        want@ == wanted(pool@, by_elo@, career@),
{
    let mut want: Vec<u32> = Vec::new();
    if pool.len() > 0 {
        want.push(pool[pool.len() - 1]);
    }
    assert(want@ =~= if pool@.len() > 0 {
        seq![pool@.last()]
    } else {
        Seq::empty()
    });
    if by_elo.len() > 0 && !lists::has_u32(&want, by_elo[0]) {
        want.push(by_elo[0]);
    }
    if by_elo.len() > 1 && !lists::has_u32(&want, by_elo[1]) {
        want.push(by_elo[1]);
    }
    match find_least_played(pool, &want, career) {
        Some(starved) => {
            want.push(starved);
        },
        None => {},
    }
    want
}

/// Assigns the stations anew: holders that left the pool go, the newest
/// checkpoint, the two leaders and the least-played entry come in at the cost
/// of the most-played other holders, and free stations go to the least-played
/// rest.
///
/// The newest checkpoint always plays, and the two leaders always defend,
/// however much they have played.
pub fn reconcile(
    stations: &Vec<u32>,
    pool: &Vec<u32>,
    by_elo: &Vec<u32>,
    career: &HashMap<u32, u32>,
) -> (r: Vec<u32>)
    ensures
        order::is_sorted_list(reconciled(stations@, pool@, by_elo@, career@), r@),
        in_good_order(stations@, pool@, by_elo@) ==> {
            &&& proper(r@, pool@, station_count(pool@))
            &&& r@.len() == station_count(pool@)
            &&& r@.len() == if pool@.len() < STATIONS {
                pool@.len()
            } else {
                STATIONS as nat
            }
            &&& pool@.len() > 0 ==> r@.contains(pool@.last())
            &&& forall|i: int|
                0 <= i < 2 && i < by_elo@.len() ==> r@.contains(#[trigger] by_elo@[i])
        },
{
    let k: usize = if pool.len() < STATIONS { pool.len() } else { STATIONS };
    let mut held = keep_members(stations, pool);
    if held.len() > k {
        held.truncate(k);
    }
    let ghost start = held@;
    assert(start == staying(stations@, pool@));
    let want = wanted_list(pool, by_elo, career);
    let mut i: usize = 0;
    while i < want.len()
        invariant
            i <= want@.len(),
            held@ == all_admitted(start, want@, i as nat, k as nat, career@),
        decreases want@.len() - i,
    {
        let g: u32 = want[i];
        if !lists::has_u32(&held, g) {
            if held.len() < k {
                held.push(g);
            } else {
                let rest = drop_wanted(&held, &want);
                match find_most_played(&rest, career) {
                    Some(v) => {
                        held = drop_value(&held, v);
                        held.push(g);
                    },
                    None => {},
                }
            }
        }
        i = i + 1;
    }
    let ghost goal = reconciled(stations@, pool@, by_elo@, career@);
    let mut more = true;
    while more && held.len() < k
        invariant
            topped_up(held@, pool@, k as nat, career@) == goal,
            !more ==> held@ == goal,
        decreases k - held.len(), if more { 1int } else { 0 },
    {
        match find_least_played(pool, &held, career) {
            Some(x) => {
                held.push(x);
            },
            None => {
                more = false;
            },
        }
    }
    let r = order::sorted_list(&held);
    proof {
        order::lemma_sorted_list(goal, r@);
        if in_good_order(stations@, pool@, by_elo@) {
            stations_cover_the_pool(stations@, pool@, by_elo@, career@);
            wanted_checkpoints_play(stations@, pool@, by_elo@, career@);
        }
    }
    r
}

/// What `least_played` picks: an entry outside `skip`, where there is one.
proof fn lemma_least_played(pool: Seq<u32>, skip: Seq<u32>, career: Map<u32, u32>)
    ensures
        match least_played(pool, skip, career) {
            Some(x) => pool.contains(x) && !skip.contains(x),
            None => forall|x: u32| pool.contains(x) ==> skip.contains(x),
        },
    decreases pool.len(),
{
    if pool.len() > 0 {
        lemma_least_played(pool.drop_last(), skip, career);
        assert forall|x: u32| pool.contains(x) <==> pool.drop_last().contains(x) || pool.last()
            == x by {
            order::lemma_contains_last(pool, x);
        }
    }
}

/// What `most_played` picks: an entry that no other exceeds.
proof fn lemma_most_played(s: Seq<u32>, career: Map<u32, u32>)
    ensures
        match most_played(s, career) {
            Some(x) => s.contains(x) && forall|y: u32|
                s.contains(y) ==> count_of(career, y) <= count_of(career, x),
            None => s.len() == 0,
        },
    decreases s.len(),
{
    if s.len() > 0 {
        lemma_most_played(s.drop_last(), career);
        assert forall|x: u32| s.contains(x) <==> s.drop_last().contains(x) || s.last() == x by {
            order::lemma_contains_last(s, x);
        }
        if most_played(s.drop_last(), career) is None {
            assert(s.drop_last().len() == 0);
        }
    }
}

/// `without` on lists that name each value once.
proof fn lemma_without(s: Seq<u32>, v: u32)
    requires
        s.no_duplicates(),
    ensures
        without(s, v).no_duplicates(),
        forall|x: u32| without(s, v).contains(x) <==> s.contains(x) && x != v,
        without(s, v).len() == if s.contains(v) {
            s.len() - 1
        } else {
            s.len() as int
        },
    decreases s.len(),
{
    reveal(Seq::filter);
    if s.len() > 0 {
        let t = s.drop_last();
        lemma_without(t, v);
        let w = without(t, v);
        assert(!t.contains(s.last()));
        assert forall|x: u32| s.contains(x) <==> t.contains(x) || s.last() == x by {
            order::lemma_contains_last(s, x);
        }
        if s.last() != v {
            let r = w.push(s.last());
            assert(without(s, v) =~= r);
            assert(!w.contains(s.last()));
            assert forall|x: u32| r.contains(x) <==> w.contains(x) || s.last() == x by {
                order::lemma_contains_last(r, x);
                assert(r.drop_last() =~= w);
            }
            assert(r.no_duplicates());
        } else {
            assert(without(s, v) =~= w);
        }
    } else {
        assert(without(s, v) =~= s);
    }
}

/// A set of holders in good order: each once, all of the pool, at most `k`.
pub open spec fn proper(s: Seq<u32>, pool: Seq<u32>, k: nat) -> bool {
    &&& s.no_duplicates()
    &&& s.len() <= k
    &&& forall|x: u32| s.contains(x) ==> #[trigger] pool.contains(x)
}

proof fn lemma_push_proper(s: Seq<u32>, pool: Seq<u32>, k: nat, x: u32)
    requires
        proper(s, pool, k),
        s.len() < k,
        pool.contains(x),
        !s.contains(x),
    ensures
        proper(s.push(x), pool, k),
        s.push(x).contains(x),
        forall|y: u32| s.contains(y) ==> s.push(x).contains(y),
{
    let r = s.push(x);
    assert(r.drop_last() =~= s);
    assert forall|y: u32| r.contains(y) <==> s.contains(y) || x == y by {
        order::lemma_contains_last(r, y);
    }
}

proof fn lemma_unasked(s: Seq<u32>, want: Seq<u32>)
    ensures
        forall|x: u32| #[trigger] unasked(s, want).contains(x) <==> s.contains(x) && !want.contains(x),
    decreases s.len(),
{
    reveal(Seq::filter);
    let keep = |x: u32| !want.contains(x);
    if s.len() > 0 {
        let t = s.drop_last();
        lemma_unasked(t, want);
        let w = t.filter(keep);
        assert(w == unasked(t, want));
        assert forall|x: u32| s.contains(x) <==> t.contains(x) || s.last() == x by {
            order::lemma_contains_last(s, x);
        }
        if !want.contains(s.last()) {
            let r = w.push(s.last());
            assert(s.filter(keep) =~= r);
            assert forall|x: u32| #[trigger] r.contains(x) <==> w.contains(x) || s.last() == x by {
                order::lemma_contains_last(r, x);
                assert(r.drop_last() =~= w);
            }
        } else {
            assert(s.filter(keep) =~= w);
        }
        assert forall|x: u32| #[trigger] unasked(s, want).contains(x) <==> s.contains(x)
            && !want.contains(x) by {
            assert(unasked(t, want).contains(x) <==> t.contains(x) && !want.contains(x));
        }
    } else {
        assert(s.filter(keep) =~= s);
    }
}

/// In a full set of holders that lacks a wanted one, some holder is not wanted.
proof fn lemma_someone_unasked(s: Seq<u32>, pool: Seq<u32>, want: Seq<u32>, g: u32)
    requires
        proper(s, pool, station_count(pool)),
        s.len() == station_count(pool),
        pool.no_duplicates(),
        pool.contains(g),
        !s.contains(g),
        want.contains(g),
        want.len() <= STATIONS,
    ensures
        unasked(s, want).len() > 0,
{
    lemma_unasked(s, want);
    s.unique_seq_to_set();
    if pool.len() < STATIONS {
        pool.unique_seq_to_set();
        assert(s.to_set().subset_of(pool.to_set().remove(g)));
        vstd::set_lib::lemma_len_subset(s.to_set(), pool.to_set().remove(g));
    } else if unasked(s, want).len() == 0 {
        assert forall|x: u32| s.to_set().contains(x) implies want.to_set().remove(g).contains(x) by {
            assert(s.contains(x));
            assert(!unasked(s, want).contains(x));
        }
        want.lemma_cardinality_of_set();
        vstd::set_lib::lemma_len_subset(s.to_set(), want.to_set().remove(g));
    }
}

proof fn lemma_admitted(
    s: Seq<u32>,
    pool: Seq<u32>,
    g: u32,
    want: Seq<u32>,
    career: Map<u32, u32>,
)
    requires
        proper(s, pool, station_count(pool)),
        pool.no_duplicates(),
        pool.contains(g),
        want.contains(g),
        want.len() <= STATIONS,
    ensures
        ({
            let r = admitted(s, g, want, station_count(pool), career);
            &&& proper(r, pool, station_count(pool))
            &&& r.contains(g)
            &&& forall|y: u32| s.contains(y) && want.contains(y) ==> #[trigger] r.contains(y)
        }),
{
    let k = station_count(pool);
    if !s.contains(g) {
        if s.len() < k {
            lemma_push_proper(s, pool, k, g);
        } else {
            lemma_someone_unasked(s, pool, want, g);
            lemma_unasked(s, want);
            lemma_most_played(unasked(s, want), career);
            let v = most_played(unasked(s, want), career).unwrap();
            assert(unasked(s, want).contains(v));
            lemma_without(s, v);
            lemma_push_proper(without(s, v), pool, k, g);
        }
    }
}

proof fn lemma_all_admitted(
    s: Seq<u32>,
    pool: Seq<u32>,
    want: Seq<u32>,
    i: nat,
    career: Map<u32, u32>,
)
    requires
        proper(s, pool, station_count(pool)),
        pool.no_duplicates(),
        i <= want.len() <= STATIONS,
        forall|j: int| 0 <= j < want.len() ==> pool.contains(#[trigger] want[j]),
    ensures
        proper(all_admitted(s, want, i, station_count(pool), career), pool, station_count(pool)),
        forall|j: int|
            0 <= j < i ==> all_admitted(s, want, i, station_count(pool), career).contains(
                #[trigger] want[j],
            ),
    decreases i,
{
    if i > 0 {
        let i1 = (i - 1) as nat;
        lemma_all_admitted(s, pool, want, i1, career);
        assert(pool.contains(want[i - 1]));
        assert(want.contains(want[i - 1]));
        let a = all_admitted(s, want, i1, station_count(pool), career);
        lemma_admitted(a, pool, want[i - 1], want, career);
        assert forall|j: int| 0 <= j < i implies all_admitted(
            s,
            want,
            i,
            station_count(pool),
            career,
        ).contains(#[trigger] want[j]) by {
            if j < i - 1 {
                assert(a.contains(want[j]));
                assert(want.contains(want[j]));
            }
        }
    }
}

proof fn lemma_topped_up(s: Seq<u32>, pool: Seq<u32>, k: nat, career: Map<u32, u32>)
    requires
        proper(s, pool, k),
    ensures
        proper(topped_up(s, pool, k, career), pool, k),
        forall|y: u32| s.contains(y) ==> topped_up(s, pool, k, career).contains(y),
        topped_up(s, pool, k, career).len() == k || forall|x: u32|
            pool.contains(x) ==> #[trigger] topped_up(s, pool, k, career).contains(x),
    decreases k - s.len(),
{
    if s.len() < k {
        lemma_least_played(pool, s, career);
        match least_played(pool, s, career) {
            Some(x) => {
                lemma_push_proper(s, pool, k, x);
                lemma_topped_up(s.push(x), pool, k, career);
            },
            None => {},
        }
    }
}

proof fn lemma_filter_proper(s: Seq<u32>, pool: Seq<u32>)
    requires
        s.no_duplicates(),
    ensures
        s.filter(|g: u32| pool.contains(g)).no_duplicates(),
        forall|x: u32|
            s.filter(|g: u32| pool.contains(g)).contains(x) <==> s.contains(x) && pool.contains(x),
    decreases s.len(),
{
    reveal(Seq::filter);
    let keep = |g: u32| pool.contains(g);
    if s.len() > 0 {
        let t = s.drop_last();
        lemma_filter_proper(t, pool);
        let w = t.filter(keep);
        assert(!t.contains(s.last()));
        assert forall|x: u32| s.contains(x) <==> t.contains(x) || s.last() == x by {
            order::lemma_contains_last(s, x);
        }
        if pool.contains(s.last()) {
            let r = w.push(s.last());
            assert(s.filter(keep) =~= r);
            assert forall|x: u32| r.contains(x) <==> w.contains(x) || s.last() == x by {
                order::lemma_contains_last(r, x);
                assert(r.drop_last() =~= w);
            }
        } else {
            assert(s.filter(keep) =~= w);
        }
    } else {
        assert(s.filter(keep) =~= s);
    }
}

proof fn lemma_staying_proper(stations: Seq<u32>, pool: Seq<u32>)
    requires
        stations.no_duplicates(),
    ensures
        proper(staying(stations, pool), pool, station_count(pool)),
{
    lemma_filter_proper(stations, pool);
    let kept = stations.filter(|g: u32| pool.contains(g));
    let k = station_count(pool);
    if kept.len() > k {
        let t = kept.take(k as int);
        assert forall|x: u32| t.contains(x) implies #[trigger] pool.contains(x) by {
            let i = choose|i: int| 0 <= i < t.len() && t[i] == x;
            assert(kept[i] == x);
            assert(kept.contains(x));
        }
    }
}

proof fn lemma_with_new(s: Seq<u32>, x: u32)
    ensures
        with_new(s, x).contains(x),
        forall|y: u32| s.contains(y) ==> with_new(s, x).contains(y),
{
    let r = with_new(s, x);
    if !s.contains(x) {
        assert(r[s.len() as int] == x);
        assert forall|y: u32| s.contains(y) implies r.contains(y) by {
            let i = choose|i: int| 0 <= i < s.len() && s[i] == y;
            assert(r[i] == y);
        }
    }
}

proof fn lemma_wanted(pool: Seq<u32>, by_elo: Seq<u32>, career: Map<u32, u32>)
    requires
        pool.len() >= 1,
        forall|i: int| 0 <= i < by_elo.len() ==> pool.contains(#[trigger] by_elo[i]),
    ensures
        1 <= wanted(pool, by_elo, career).len() <= 4,
        wanted(pool, by_elo, career)[0] == pool.last(),
        forall|i: int|
            0 <= i < by_elo.len() && i < 2 ==> wanted(pool, by_elo, career).contains(
                #[trigger] by_elo[i],
            ),
        forall|i: int|
            0 <= i < wanted(pool, by_elo, career).len() ==> pool.contains(
                #[trigger] wanted(pool, by_elo, career)[i],
            ),
{
    let newest = seq![pool.last()];
    assert(pool[pool.len() - 1] == pool.last());
    assert(pool.contains(pool.last()));
    if by_elo.len() > 0 {
        assert(pool.contains(by_elo[0]));
    }
    if by_elo.len() > 1 {
        assert(pool.contains(by_elo[1]));
    }
    let first = if by_elo.len() > 0 {
        with_new(newest, by_elo[0])
    } else {
        newest
    };
    let both = if by_elo.len() > 1 {
        with_new(first, by_elo[1])
    } else {
        first
    };
    lemma_least_played(pool, both, career);
    let want = wanted(pool, by_elo, career);
    if by_elo.len() > 0 {
        lemma_with_new(newest, by_elo[0]);
    }
    if by_elo.len() > 1 {
        lemma_with_new(first, by_elo[1]);
    }
    assert forall|x: u32| both.contains(x) implies want.contains(x) by {
        let i = choose|i: int| 0 <= i < both.len() && both[i] == x;
        assert(want[i] == x);
    }
}

/// Whether stations are held once each, a pool names each checkpoint once, and
/// an order by rating speaks of the pool.
pub open spec fn in_good_order(stations: Seq<u32>, pool: Seq<u32>, by_elo: Seq<u32>) -> bool {
    &&& stations.no_duplicates()
    &&& pool.no_duplicates()
    &&& forall|i: int| 0 <= i < by_elo.len() ==> pool.contains(#[trigger] by_elo[i])
}

/// The stations after reconciling hold each checkpoint at most once and only
/// checkpoints of the pool, as many as there can be: eight, or the whole pool
/// where it has no more than that.
pub proof fn stations_cover_the_pool(
    stations: Seq<u32>,
    pool: Seq<u32>,
    by_elo: Seq<u32>,
    career: Map<u32, u32>,
)
    requires
        in_good_order(stations, pool, by_elo),
    ensures
        proper(reconciled(stations, pool, by_elo, career), pool, station_count(pool)),
        reconciled(stations, pool, by_elo, career).len() == station_count(pool),
{
    let k = station_count(pool);
    let want = wanted(pool, by_elo, career);
    let s = staying(stations, pool);
    lemma_staying_proper(stations, pool);
    if pool.len() > 0 {
        lemma_wanted(pool, by_elo, career);
    } else {
        lemma_nothing_wanted(pool, by_elo, career);
    }
    lemma_all_admitted(s, pool, want, want.len(), career);
    let a = all_admitted(s, want, want.len(), k, career);
    lemma_topped_up(a, pool, k, career);
    let r = topped_up(a, pool, k, career);
    if r.len() < k {
        assert(pool.to_set().subset_of(r.to_set()));
        pool.unique_seq_to_set();
        r.unique_seq_to_set();
        vstd::set_lib::lemma_len_subset(pool.to_set(), r.to_set());
    }
}

proof fn lemma_nothing_wanted(pool: Seq<u32>, by_elo: Seq<u32>, career: Map<u32, u32>)
    requires
        pool.len() == 0,
        forall|i: int| 0 <= i < by_elo.len() ==> pool.contains(#[trigger] by_elo[i]),
    ensures
        wanted(pool, by_elo, career).len() == 0,
{
    if by_elo.len() > 0 {
        assert(pool.contains(by_elo[0]));
    }
}

/// Every wanted checkpoint gets a station, however much it has played: the
/// newest always plays, the two leaders by rating always defend, and the
/// least-played of the others comes in.
pub proof fn wanted_checkpoints_play(
    stations: Seq<u32>,
    pool: Seq<u32>,
    by_elo: Seq<u32>,
    career: Map<u32, u32>,
)
    requires
        in_good_order(stations, pool, by_elo),
    ensures
        forall|i: int|
            0 <= i < wanted(pool, by_elo, career).len() ==> reconciled(
                stations,
                pool,
                by_elo,
                career,
            ).contains(#[trigger] wanted(pool, by_elo, career)[i]),
        pool.len() > 0 ==> reconciled(stations, pool, by_elo, career).contains(pool.last()),
        forall|i: int|
            0 <= i < 2 && i < by_elo.len() ==> reconciled(stations, pool, by_elo, career).contains(
                #[trigger] by_elo[i],
            ),
{
    let k = station_count(pool);
    let want = wanted(pool, by_elo, career);
    let s = staying(stations, pool);
    lemma_staying_proper(stations, pool);
    if pool.len() > 0 {
        lemma_wanted(pool, by_elo, career);
    } else {
        lemma_nothing_wanted(pool, by_elo, career);
    }
    lemma_all_admitted(s, pool, want, want.len(), career);
    let a = all_admitted(s, want, want.len(), k, career);
    lemma_topped_up(a, pool, k, career);
    let r = reconciled(stations, pool, by_elo, career);
    assert forall|i: int| 0 <= i < want.len() implies r.contains(#[trigger] want[i]) by {
        assert(a.contains(want[i]));
    }
    if pool.len() > 0 {
        assert(r.contains(want[0]));
    }
    assert forall|i: int| 0 <= i < 2 && i < by_elo.len() implies r.contains(#[trigger] by_elo[i]) by {
        assert(pool.contains(by_elo[i]));
        assert(want.contains(by_elo[i]));
        let j = choose|j: int| 0 <= j < want.len() && want[j] == by_elo[i];
        assert(r.contains(want[j]));
    }
}

/// A player's count is what stands for it, or zero, and its occurrences in a list
/// are the places that hold it.
pub proof fn counts_are_tallies(counts: Map<u32, u32>, gs: Seq<u32>, g: u32)
    ensures
        counts.contains_key(g) ==> count_of(counts, g) == counts[g],
        !counts.contains_key(g) ==> count_of(counts, g) == 0,
        occurrences(gs, g) == gs.filter(|x: u32| x == g).len(),
    decreases gs.len(),
{
    reveal(Seq::filter);
    if gs.len() > 0 {
        counts_are_tallies(counts, gs.drop_last(), g);
    }
}

/// The least-played of a pool: nobody who may be picked has played less, and
/// nobody before it as little. There is one unless everybody is left out.
pub proof fn the_least_played_is_picked(pool: Seq<u32>, skip: Seq<u32>, career: Map<u32, u32>)
    ensures
        match least_played(pool, skip, career) {
            Some(x) => exists|i: int|
                0 <= i < pool.len() && #[trigger] pool[i] == x && !skip.contains(x) && (forall|j: int|
                    0 <= j < pool.len() && !skip.contains(pool[j]) ==> count_of(career, x)
                        <= count_of(career, #[trigger] pool[j])) && (forall|j: int|
                    0 <= j < i && !skip.contains(pool[j]) ==> count_of(career, x) < count_of(
                        career,
                        #[trigger] pool[j],
                    )),
            None => forall|j: int| 0 <= j < pool.len() ==> skip.contains(#[trigger] pool[j]),
        },
    decreases pool.len(),
{
    if pool.len() > 0 {
        let rest = pool.drop_last();
        let last = pool.len() - 1;
        the_least_played_is_picked(rest, skip, career);
        assert forall|j: int| 0 <= j < last implies rest[j] == #[trigger] pool[j] by {}
        match least_played(rest, skip, career) {
            Some(b) => {
                let i = choose|i: int|
                    0 <= i < rest.len() && #[trigger] rest[i] == b && !skip.contains(b) && (
                    forall|j: int|
                        0 <= j < rest.len() && !skip.contains(rest[j]) ==> count_of(career, b)
                            <= count_of(career, #[trigger] rest[j])) && (forall|j: int|
                        0 <= j < i && !skip.contains(rest[j]) ==> count_of(career, b) < count_of(
                            career,
                            #[trigger] rest[j],
                        ));
                assert(pool[i] == b);
                assert forall|j: int| 0 <= j < last && !skip.contains(pool[j]) implies count_of(
                    career,
                    b,
                ) <= count_of(career, #[trigger] pool[j]) by {
                    assert(count_of(career, b) <= count_of(career, rest[j]));
                }
                assert forall|j: int| 0 <= j < i && !skip.contains(pool[j]) implies count_of(
                    career,
                    b,
                ) < count_of(career, #[trigger] pool[j]) by {
                    assert(count_of(career, b) < count_of(career, rest[j]));
                }
                assert(pool[last] == pool.last());
            },
            None => {
                assert forall|j: int| 0 <= j < last implies skip.contains(#[trigger] pool[j]) by {
                    assert(skip.contains(rest[j]));
                }
                assert(pool[last] == pool.last());
            },
        }
    }
}

/// Who makes room: a checkpoint that gets a station pushes out at most one, which
/// nobody asked for and which has played most of those that nobody asked for.
/// Everybody else keeps its place.
pub proof fn the_most_played_makes_room(
    stations: Seq<u32>,
    g: u32,
    want: Seq<u32>,
    k: nat,
    career: Map<u32, u32>,
    y: u32,
)
    requires
        stations.no_duplicates(),
        stations.contains(y),
    ensures
        ({
            let r = admitted(stations, g, want, k, career);
            &&& stations.contains(g) || stations.len() < k ==> r.contains(y)
            &&& want.contains(y) ==> r.contains(y)
            &&& !r.contains(y) ==> r.contains(g) && forall|z: u32|
                stations.contains(z) && !want.contains(z) ==> #[trigger] count_of(career, z)
                    <= count_of(career, y)
            &&& forall|z: u32|
                stations.contains(z) && z != y && !r.contains(y) ==> #[trigger] r.contains(z)
        }),
{
    let r = admitted(stations, g, want, k, career);
    let u = unasked(stations, want);
    lemma_unasked(stations, want);
    lemma_most_played(u, career);
    if stations.contains(g) {
    } else if stations.len() < k {
        let i = choose|i: int| 0 <= i < stations.len() && stations[i] == y;
        assert(r[i] == y);
    } else {
        match most_played(u, career) {
            Some(v) => {
                lemma_without(stations, v);
                let w = without(stations, v);
                assert(r == w.push(g));
                assert forall|z: u32| #[trigger] r.contains(z) <==> w.contains(z) || z == g by {
                    if w.contains(z) {
                        let i = choose|i: int| 0 <= i < w.len() && w[i] == z;
                        assert(r[i] == z);
                    }
                    assert(r[w.len() as int] == g);
                    if r.contains(z) {
                        let i = choose|i: int| 0 <= i < r.len() && r[i] == z;
                        if i < w.len() {
                            assert(w[i] == z);
                        }
                    }
                }
                assert forall|z: u32| stations.contains(z) && !want.contains(z) implies
                    #[trigger] count_of(career, z) <= count_of(career, v) by {
                    assert(u.contains(z));
                }
                assert(w.contains(y) <==> y != v);
            },
            None => {},
        }
    }
}

/// Besides the newest and the two leaders a checkpoint plays that has played least
/// of all others, so none is starved of games.
pub proof fn the_starved_play(
    stations: Seq<u32>,
    pool: Seq<u32>,
    by_elo: Seq<u32>,
    career: Map<u32, u32>,
    x: u32,
) -> (y: u32)
    requires
        in_good_order(stations, pool, by_elo),
        pool.contains(x),
        x != pool.last(),
        by_elo.len() > 0 ==> x != by_elo[0],
        by_elo.len() > 1 ==> x != by_elo[1],
    ensures
        reconciled(stations, pool, by_elo, career).contains(y),
        count_of(career, y) <= count_of(career, x),
        y != pool.last(),
        by_elo.len() > 0 ==> y != by_elo[0],
        by_elo.len() > 1 ==> y != by_elo[1],
{
    let newest = seq![pool.last()];
    let first = if by_elo.len() > 0 {
        with_new(newest, by_elo[0])
    } else {
        newest
    };
    let both = if by_elo.len() > 1 {
        with_new(first, by_elo[1])
    } else {
        first
    };
    assert(newest[0] == pool.last());
    assert(newest.contains(pool.last()));
    if by_elo.len() > 0 {
        lemma_with_new(newest, by_elo[0]);
    }
    if by_elo.len() > 1 {
        lemma_with_new(first, by_elo[1]);
    }
    assert(both.contains(pool.last()));
    assert(by_elo.len() > 0 ==> both.contains(by_elo[0]));
    assert(by_elo.len() > 1 ==> both.contains(by_elo[1]));
    assert(!both.contains(x)) by {
        if both.contains(x) {
            let i = choose|i: int| 0 <= i < both.len() && both[i] == x;
            assert(both[i] == x);
        }
    }
    the_least_played_is_picked(pool, both, career);
    wanted_checkpoints_play(stations, pool, by_elo, career);
    let j = choose|j: int| 0 <= j < pool.len() && pool[j] == x;
    assert(!both.contains(pool[j]));
    let w = wanted(pool, by_elo, career);
    match least_played(pool, both, career) {
        Some(s) => {
            assert(w[w.len() - 1] == s);
            s
        },
        None => x,
    }
}

/// Stations are kept: where everybody wanted has a station, and all stations are
/// taken by members of the pool, nothing changes.
pub proof fn stations_are_kept(
    stations: Seq<u32>,
    pool: Seq<u32>,
    by_elo: Seq<u32>,
    career: Map<u32, u32>,
)
    requires
        stations.len() == if pool.len() < STATIONS {
            pool.len()
        } else {
            STATIONS as nat
        },
        forall|i: int| 0 <= i < stations.len() ==> pool.contains(#[trigger] stations[i]),
        forall|i: int|
            0 <= i < wanted(pool, by_elo, career).len() ==> stations.contains(
                #[trigger] wanted(pool, by_elo, career)[i],
            ),
    ensures
        reconciled(stations, pool, by_elo, career) == stations,
{
    let kept = stations.filter(|g: u32| pool.contains(g));
    lemma_filter_all(stations, pool);
    assert(staying(stations, pool) == stations);
    let want = wanted(pool, by_elo, career);
    lemma_all_there(stations, want, want.len(), station_count(pool), career);
}

proof fn lemma_filter_all(stations: Seq<u32>, pool: Seq<u32>)
    requires
        forall|i: int| 0 <= i < stations.len() ==> pool.contains(#[trigger] stations[i]),
    ensures
        stations.filter(|g: u32| pool.contains(g)) == stations,
    decreases stations.len(),
{
    reveal(Seq::filter);
    let f = |g: u32| pool.contains(g);
    if stations.len() > 0 {
        let rest = stations.drop_last();
        assert forall|i: int| 0 <= i < rest.len() implies pool.contains(#[trigger] rest[i]) by {
            assert(pool.contains(stations[i]));
        }
        lemma_filter_all(rest, pool);
        assert(pool.contains(stations[stations.len() - 1]));
        assert(stations.filter(f) =~= rest.push(stations.last()));
        assert(rest.push(stations.last()) =~= stations);
    } else {
        assert(stations.filter(f) =~= stations);
    }
}

proof fn lemma_all_there(stations: Seq<u32>, want: Seq<u32>, i: nat, k: nat, career: Map<u32, u32>)
    requires
        i <= want.len(),
        forall|j: int| 0 <= j < want.len() ==> stations.contains(#[trigger] want[j]),
    ensures
        all_admitted(stations, want, i, k, career) == stations,
    decreases i,
{
    if i > 0 {
        lemma_all_there(stations, want, (i - 1) as nat, k, career);
        assert(stations.contains(want[i - 1]));
    }
}

/// Of those that have played most, the last in the list is found: no other has
/// played more, and none behind it as much.
pub proof fn the_last_of_the_most_played_is_found(stations: Seq<u32>, career: Map<u32, u32>) -> (at:
    int)
    requires
        stations.len() > 0,
    ensures
        0 <= at < stations.len(),
        most_played(stations, career) == Some(stations[at]),
        forall|j: int|
            0 <= j < stations.len() ==> count_of(career, #[trigger] stations[j]) <= count_of(
                career,
                stations[at],
            ),
        forall|j: int|
            at < j < stations.len() ==> count_of(career, #[trigger] stations[j]) < count_of(
                career,
                stations[at],
            ),
    decreases stations.len(),
{
    let last = stations.len() - 1;
    let rest = stations.drop_last();
    if rest.len() == 0 {
        last
    } else {
        let before = the_last_of_the_most_played_is_found(rest, career);
        assert(stations[before] == rest[before]);
        assert forall|j: int| 0 <= j < last implies #[trigger] stations[j] == rest[j] by {}
        if count_of(career, stations[last]) >= count_of(career, stations[before]) {
            assert forall|j: int| 0 <= j < stations.len() implies count_of(
                career,
                #[trigger] stations[j],
            ) <= count_of(career, stations[last]) by {
                if j < last {
                    assert(count_of(career, rest[j]) <= count_of(career, rest[before]));
                }
            }
            last
        } else {
            assert forall|j: int| 0 <= j < stations.len() implies count_of(
                career,
                #[trigger] stations[j],
            ) <= count_of(career, stations[before]) by {
                if j < last {
                    assert(count_of(career, rest[j]) <= count_of(career, rest[before]));
                }
            }
            assert forall|j: int| before < j < stations.len() implies count_of(
                career,
                #[trigger] stations[j],
            ) < count_of(career, stations[before]) by {
                if j < last {
                    assert(count_of(career, rest[j]) < count_of(career, rest[before]));
                }
            }
            before
        }
    }
}

} // verus!
