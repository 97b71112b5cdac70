//! From a game's placements to strict rankings: tied groups are expanded into
//! their orderings, which share the game's weight equally.

use vstd::prelude::*;

use crate::lists;
use crate::order;
use crate::placing::Placement;

verus! {

/// The largest tied group that is expanded into all its orderings; a larger
/// one is expanded into its rotations.
pub const FULL_TIE_MAX: usize = 4;

/// The lists of a list of lists.
pub open spec fn rows(v: Seq<Vec<u32>>) -> Seq<Seq<u32>> {
    v.map_values(|r: Vec<u32>| r@)
}

/// `s` with its entries `i` and `j` exchanged.
pub open spec fn swapped(s: Seq<u32>, i: int, j: int) -> Seq<u32> {
    s.update(i, s[j]).update(j, s[i])
}

/// The orderings of `s` that keep its first `k` entries, those that bring entry
/// `i` or a later one to place `k`.
pub open spec fn orderings_from(s: Seq<u32>, k: nat, i: nat) -> Seq<Seq<u32>>
    decreases s.len() - k, s.len() - i,
{
    if k >= s.len() || i >= s.len() {
        Seq::empty()
    } else {
        orderings(swapped(s, k as int, i as int), k + 1) + orderings_from(s, k, i + 1)
    }
}

/// The orderings of `s` that keep its first `k` entries.
pub open spec fn orderings(s: Seq<u32>, k: nat) -> Seq<Seq<u32>>
    decreases s.len() - k, s.len() + 1,
{
    if k >= s.len() {
        seq![s]
    } else {
        orderings_from(s, k, k)
    }
}

/// The factorial.
pub open spec fn factorial(n: nat) -> nat
    decreases n,
{
    if n == 0 {
        1
    } else {
        n * factorial((n - 1) as nat)
    }
}

proof fn lemma_orderings_from_len(s: Seq<u32>, k: nat, i: nat)
    requires
        k < s.len(),
        k <= i <= s.len(),
    ensures
        orderings_from(s, k, i).len() == (s.len() - i) * factorial((s.len() - k - 1) as nat),
    decreases s.len() - k, s.len() - i,
{
    let f = factorial((s.len() - k - 1) as nat);
    if i < s.len() {
        lemma_orderings_len(swapped(s, k as int, i as int), k + 1);
        lemma_orderings_from_len(s, k, i + 1);
        assert((s.len() - i) * f == f + (s.len() - (i + 1)) * f) by (nonlinear_arith);
    } else {
        assert((s.len() - i) * f == 0) by (nonlinear_arith)
            requires
                s.len() == i,
        ;
    }
}

proof fn lemma_orderings_len(s: Seq<u32>, k: nat)
    requires
        k <= s.len(),
    ensures
        orderings(s, k).len() == factorial((s.len() - k) as nat),
    decreases s.len() - k, s.len() + 1,
{
    if k < s.len() {
        lemma_orderings_from_len(s, k, k);
    }
}

/// A group of `n` has `n!` orderings.
pub proof fn orderings_are_counted(s: Seq<u32>)
    ensures
        orderings(s, 0).len() == factorial(s.len()),
{
    lemma_orderings_len(s, 0);
}

proof fn lemma_swap_multiset(s: Seq<u32>, i: int, j: int)
    requires
        0 <= i < s.len(),
        0 <= j < s.len(),
    ensures
        swapped(s, i, j).to_multiset() == s.to_multiset(),
{
    broadcast use vstd::seq_lib::group_to_multiset_ensures;

    let a = s.update(i, s[j]);
    let b = a.update(j, s[i]);
    if i == j {
        assert(b =~= s);
    } else {
        vstd::seq_lib::to_multiset_update(s, i, s[j]);
        vstd::seq_lib::to_multiset_update(a, j, s[i]);
        assert(a[j] == s[j]);
        assert(b.to_multiset() =~= s.to_multiset());
    }
}

proof fn lemma_orderings_from_sound(s: Seq<u32>, k: nat, i: nat, t: Seq<u32>)
    requires
        k < s.len(),
        k <= i <= s.len(),
        orderings_from(s, k, i).contains(t),
    ensures
        t.to_multiset() == s.to_multiset(),
        t.len() == s.len(),
    decreases s.len() - k, s.len() - i,
{
    if i < s.len() {
        let first = orderings(swapped(s, k as int, i as int), k + 1);
        let rest = orderings_from(s, k, i + 1);
        let at = choose|at: int| 0 <= at < (first + rest).len() && (first + rest)[at] == t;
        if at < first.len() {
            assert(first[at] == t);
            assert(first.contains(t));
            lemma_orderings_sound(swapped(s, k as int, i as int), k + 1, t);
            lemma_swap_multiset(s, k as int, i as int);
        } else {
            assert(rest[at - first.len()] == t);
            assert(rest.contains(t));
            lemma_orderings_from_sound(s, k, i + 1, t);
        }
    }
}

proof fn lemma_orderings_sound(s: Seq<u32>, k: nat, t: Seq<u32>)
    requires
        k <= s.len(),
        orderings(s, k).contains(t),
    ensures
        t.to_multiset() == s.to_multiset(),
        t.len() == s.len(),
    decreases s.len() - k, s.len() + 1,
{
    if k < s.len() {
        lemma_orderings_from_sound(s, k, k, t);
    }
}

proof fn lemma_orderings_from_has(s: Seq<u32>, k: nat, i: nat, j: nat, t: Seq<u32>)
    requires
        k < s.len(),
        k <= i <= j < s.len(),
        orderings(swapped(s, k as int, j as int), k + 1).contains(t),
    ensures
        orderings_from(s, k, i).contains(t),
    decreases j - i,
{
    let first = orderings(swapped(s, k as int, i as int), k + 1);
    let rest = orderings_from(s, k, i + 1);
    if i == j {
        let at = choose|at: int| 0 <= at < first.len() && first[at] == t;
        assert((first + rest)[at] == t);
    } else {
        lemma_orderings_from_has(s, k, i + 1, j, t);
        let at = choose|at: int| 0 <= at < rest.len() && rest[at] == t;
        assert((first + rest)[first.len() + at] == t);
    }
}

proof fn lemma_find_in_tail(s: Seq<u32>, t: Seq<u32>, k: int) -> (j: int)
    requires
        s.len() == t.len(),
        0 <= k < s.len(),
        s.to_multiset() == t.to_multiset(),
        s.take(k) == t.take(k),
    ensures
        k <= j < s.len(),
        s[j] == t[k],
{
    broadcast use vstd::seq_lib::group_to_multiset_ensures;

    let (a, b) = (s.skip(k), t.skip(k));
    assert(s =~= s.take(k) + a);
    assert(t =~= t.take(k) + b);
    vstd::seq_lib::lemma_multiset_commutative(s.take(k), a);
    vstd::seq_lib::lemma_multiset_commutative(t.take(k), b);
    let c = s.take(k).to_multiset();
    assert(a.to_multiset() =~= c.add(a.to_multiset()).sub(c));
    assert(b.to_multiset() =~= c.add(b.to_multiset()).sub(c));
    assert(b[0] == t[k]);
    assert(b.to_multiset().count(t[k]) > 0);
    assert(a.contains(t[k]));
    let i = choose|i: int| 0 <= i < a.len() && a[i] == t[k];
    assert(s[k + i] == t[k]);
    k + i
}

proof fn lemma_orderings_complete(s: Seq<u32>, k: nat, t: Seq<u32>)
    requires
        k <= s.len(),
        t.len() == s.len(),
        t.to_multiset() == s.to_multiset(),
        t.take(k as int) == s.take(k as int),
    ensures
        orderings(s, k).contains(t),
    decreases s.len() - k,
{
    if k == s.len() {
        assert(t.take(k as int) =~= t);
        assert(s.take(k as int) =~= s);
        assert(orderings(s, k)[0] == t);
    } else {
        let j = lemma_find_in_tail(s, t, k as int);
        let u = swapped(s, k as int, j);
        lemma_swap_multiset(s, k as int, j);
        assert(u.take(k as int + 1) =~= t.take(k as int + 1)) by {
            assert forall|x: int| 0 <= x < k + 1 implies u[x] == t[x] by {
                if x < k {
                    assert(s.take(k as int)[x] == s[x]);
                    assert(t.take(k as int)[x] == t[x]);
                    assert(u[x] == s[x]);
                } else {
                    assert(x == k);
                    assert(u[x] == s[j]);
                }
            }
        }
        lemma_orderings_complete(u, k + 1, t);
        lemma_orderings_from_has(s, k, k, j as nat, t);
    }
}

/// The orderings of a group are exactly its rearrangements.
pub proof fn orderings_are_the_rearrangements(s: Seq<u32>, t: Seq<u32>)
    ensures
        orderings(s, 0).contains(t) <==> t.len() == s.len() && t.to_multiset() == s.to_multiset(),
{
    if orderings(s, 0).contains(t) {
        lemma_orderings_sound(s, 0, t);
    }
    if t.len() == s.len() && t.to_multiset() == s.to_multiset() {
        assert(t.take(0) =~= s.take(0));
        lemma_orderings_complete(s, 0, t);
    }
}

/// Appends the orderings of `items` that keep its first `k` entries; `items`
/// itself is left as it was.
pub fn permute(items: &mut Vec<u32>, k: usize, out: &mut Vec<Vec<u32>>)
    requires
        k <= old(items)@.len(),
    ensures
        final(items)@ == old(items)@,
        rows(final(out)@) == rows(old(out)@) + orderings(old(items)@, k as nat),
    decreases old(items)@.len() - k,
{
    let ghost s = items@;
    let ghost o0 = rows(out@);
    if k == items.len() {
        let c = lists::copy_u32s(items);
        let ghost before = out@;
        out.push(c);
        assert(rows(out@) =~= rows(before).push(c@));
        assert(rows(out@) =~= o0 + orderings(s, k as nat));
        return ;
    }
    let n: usize = items.len();
    let mut i: usize = k;
    assert(o0 + orderings(s, k as nat) =~= rows(out@) + orderings_from(s, k as nat, i as nat));
    while i < n
        invariant
            k < n,
            k <= i <= n,
            n == s.len(),
            s == old(items)@,
            items@ == s,
            o0 + orderings(s, k as nat) == rows(out@) + orderings_from(s, k as nat, i as nat),
        decreases n - i,
    {
        let ghost r0 = rows(out@);
        let (a, b): (u32, u32) = (items[k], items[i]);
        items[k] = b;
        items[i] = a;
        let ghost u = items@;
        assert(u =~= swapped(s, k as int, i as int));
        permute(items, k + 1, out);
        items[k] = a;
        items[i] = b;
        assert(items@ =~= s);
        assert(rows(out@) + orderings_from(s, k as nat, (i + 1) as nat) =~= r0 + orderings_from(
            s,
            k as nat,
            i as nat,
        ));
        i = i + 1;
    }
    assert(rows(out@) + orderings_from(s, k as nat, n as nat) =~= rows(out@));
}

/// `s` turned left by `r` places.
pub open spec fn rotated(s: Seq<u32>, r: int) -> Seq<u32> {
    s.skip(r) + s.take(r)
}

/// `v` turned left by `r` places.
pub fn rotate_left(v: &Vec<u32>, r: usize) -> (w: Vec<u32>)
    requires
        r <= v@.len(),
    ensures
        w@ == rotated(v@, r as int),
{
    let n: usize = v.len();
    let mut w: Vec<u32> = Vec::new();
    let mut i: usize = r;
    assert(v@.subrange(r as int, r as int) =~= Seq::<u32>::empty());
    while i < n
        invariant
            r <= i <= n,
            n == v@.len(),
            w@ == v@.subrange(r as int, i as int),
        decreases n - i,
    {
        w.push(v[i]);
        i = i + 1;
        assert(w@ =~= v@.subrange(r as int, i as int));
    }
    assert(w@ =~= v@.skip(r as int));
    let mut j: usize = 0;
    assert(v@.skip(r as int) + v@.take(0) =~= v@.skip(r as int));
    while j < r
        invariant
            j <= r <= v@.len(),
            w@ == v@.skip(r as int) + v@.take(j as int),
        decreases r - j,
    {
        w.push(v[j]);
        j = j + 1;
        assert(w@ =~= v@.skip(r as int) + v@.take(j as int));
    }
    w
}

/// The orderings that a tied group stands for.
pub open spec fn tie_orderings(group: Seq<u32>) -> Seq<Seq<u32>> {
    if group.len() <= 1 {
        seq![group]
    } else if group.len() > FULL_TIE_MAX {
        Seq::new(group.len(), |r: int| rotated(group, r))
    } else {
        orderings(group, 0)
    }
}

/// The orderings that a tied group stands for: all of them up to four members,
/// beyond that its rotations, which treat the members alike, too.
pub fn permutations_capped(group: &Vec<u32>) -> (out: Vec<Vec<u32>>)
    ensures
        rows(out@) == tie_orderings(group@),
{
    let mut out: Vec<Vec<u32>> = Vec::new();
    if group.len() <= 1 {
        out.push(lists::copy_u32s(group));
        assert(rows(out@) =~= tie_orderings(group@));
        return out;
    }
    if group.len() > FULL_TIE_MAX {
        let mut r: usize = 0;
        while r < group.len()
            invariant
                r <= group@.len(),
                rows(out@) == Seq::new(r as nat, |r: int| rotated(group@, r)),
            decreases group@.len() - r,
        {
            let ghost before = out@;
            let v = rotate_left(group, r);
            out.push(v);
            r = r + 1;
            assert(rows(out@) =~= rows(before).push(v@));
            assert(rows(out@) =~= Seq::new(r as nat, |r: int| rotated(group@, r)));
        }
        return out;
    }
    let mut items = lists::copy_u32s(group);
    assert(rows(out@) + orderings(group@, 0) =~= orderings(group@, 0));
    permute(&mut items, 0, &mut out);
    out
}

/// The players that finished at a rank, in seat order.
pub open spec fn rank_group(ps: Seq<Placement>, rank: u32) -> Seq<u32>
    decreases ps.len(),
{
    if ps.len() == 0 {
        Seq::empty()
    } else {
        let rest = rank_group(ps.drop_last(), rank);
        if ps.last().rank == rank {
            rest.push(ps.last().gen)
        } else {
            rest
        }
    }
}

/// Each prefix continued by each ordering, the orderings running faster.
pub open spec fn continued(prefixes: Seq<Seq<u32>>, tails: Seq<Seq<u32>>) -> Seq<Seq<u32>>
    decreases prefixes.len(),
{
    if prefixes.len() == 0 {
        Seq::empty()
    } else {
        continued(prefixes.drop_last(), tails) + tails.map_values(
            |t: Seq<u32>| prefixes.last() + t,
        )
    }
}

/// The strict rankings of a game over the given ranks, best first.
pub open spec fn rankings_over(ps: Seq<Placement>, ranks: Seq<u32>) -> Seq<Seq<u32>>
    decreases ranks.len(),
{
    if ranks.len() == 0 {
        seq![Seq::empty()]
    } else {
        continued(
            rankings_over(ps, ranks.drop_last()),
            tie_orderings(rank_group(ps, ranks.last())),
        )
    }
}

/// The ranks of a game's seats.
pub open spec fn ranks_of(ps: Seq<Placement>) -> Seq<u32> {
    ps.map_values(|p: Placement| p.rank)
}

/// Each prefix continued by each ordering.
fn continue_all(prefixes: &Vec<Vec<u32>>, tails: &Vec<Vec<u32>>) -> (out: Vec<Vec<u32>>)
    ensures
        rows(out@) == continued(rows(prefixes@), rows(tails@)),
{
    let ghost (ps, ts) = (rows(prefixes@), rows(tails@));
    let mut out: Vec<Vec<u32>> = Vec::new();
    let mut i: usize = 0;
    assert(ps.take(0) =~= Seq::<Seq<u32>>::empty());
    assert(rows(out@) =~= Seq::<Seq<u32>>::empty());
    while i < prefixes.len()
        invariant
            i <= prefixes@.len(),
            ps == rows(prefixes@),
            ts == rows(tails@),
            rows(out@) == continued(ps.take(i as int), ts),
        decreases prefixes@.len() - i,
    {
        assert(ps.take(i + 1).drop_last() =~= ps.take(i as int));
        assert(ps.take(i + 1).last() == prefixes@[i as int]@);
        let ghost done = rows(out@);
        let ghost f = |t: Seq<u32>| ps[i as int] + t;
        let mut j: usize = 0;
        assert(done + ts.take(0).map_values(f) =~= done);
        while j < tails.len()
            invariant
                j <= tails@.len(),
                i < prefixes@.len(),
                ps == rows(prefixes@),
                ts == rows(tails@),
                f == (|t: Seq<u32>| ps[i as int] + t),
                rows(out@) == done + ts.take(j as int).map_values(f),
            decreases tails@.len() - j,
        {
            let mut o = lists::copy_u32s(&prefixes[i]);
            let mut t = lists::copy_u32s(&tails[j]);
            o.append(&mut t);
            let ghost before = out@;
            out.push(o);
            assert(rows(out@) =~= rows(before).push(o@));
            assert(o@ =~= f(ts[j as int]));
            assert(ts.take(j + 1).map_values(f) =~= ts.take(j as int).map_values(f).push(
                f(ts[j as int]),
            ));
            j = j + 1;
            assert(rows(out@) =~= done + ts.take(j as int).map_values(f));
        }
        assert(ts.take(j as int) =~= ts);
        i = i + 1;
        assert(rows(out@) =~= continued(ps.take(i as int), ts));
    }
    assert(ps.take(i as int) =~= ps);
    out
}

/// The players that finished at a rank, in seat order.
fn group_at(ps: &Vec<Placement>, rank: u32) -> (g: Vec<u32>)
    ensures
        g@ == rank_group(ps@, rank),
{
    let mut g: Vec<u32> = Vec::new();
    let mut i: usize = 0;
    while i < ps.len()
        invariant
            i <= ps@.len(),
            g@ == rank_group(ps@.take(i as int), rank),
        decreases ps@.len() - i,
    {
        assert(ps@.take(i + 1).drop_last() =~= ps@.take(i as int));
        if ps[i].rank == rank {
            g.push(ps[i].gen);
        }
        i = i + 1;
    }
    assert(ps@.take(i as int) =~= ps@);
    g
}

/// The strict rankings that a game's placements stand for, best first; each of
/// them has one over their number as its weight. A game without placements has
/// none.
pub fn rankings_of(ps: &Vec<Placement>) -> (out: Vec<Vec<u32>>)
    ensures
        ps@.len() == 0 ==> out@.len() == 0,
        ps@.len() > 0 ==> exists|ranks: Seq<u32>| #[trigger]
            order::is_sorted_set(ranks_of(ps@), ranks) && rows(out@) == rankings_over(ps@, ranks),
{
    let mut out: Vec<Vec<u32>> = Vec::new();
    if ps.len() == 0 {
        return out;
    }
    let mut all: Vec<u32> = Vec::new();
    let mut i: usize = 0;
    while i < ps.len()
        invariant
            i <= ps@.len(),
            all@ == ranks_of(ps@).take(i as int),
        decreases ps@.len() - i,
    {
        all.push(ps[i].rank);
        i = i + 1;
        assert(all@ =~= ranks_of(ps@).take(i as int));
    }
    assert(all@ =~= ranks_of(ps@));
    let ranks = order::sorted_set(&all);
    out.push(Vec::new());
    assert(rows(out@) =~= rankings_over(ps@, ranks@.take(0)));
    let mut k: usize = 0;
    while k < ranks.len()
        invariant
            k <= ranks@.len(),
            rows(out@) == rankings_over(ps@, ranks@.take(k as int)),
        decreases ranks@.len() - k,
    {
        assert(ranks@.take(k + 1).drop_last() =~= ranks@.take(k as int));
        let group = group_at(ps, ranks[k]);
        let tails = permutations_capped(&group);
        out = continue_all(&out, &tails);
        k = k + 1;
    }
    assert(ranks@.take(k as int) =~= ranks@);
    assert(order::is_sorted_set(ranks_of(ps@), ranks@));
    out
}

/// Turning a list left moves every entry by as many places, round the end.
pub proof fn turning_goes_round(s: Seq<u32>, r: int, i: int)
    requires
        0 <= r <= s.len(),
        0 <= i < s.len(),
    ensures
        rotated(s, r).len() == s.len(),
        rotated(s, r)[i] == s[(i + r) % (s.len() as int)],
{
    let n = s.len() as int;
    if i + r < n {
        vstd::arithmetic::div_mod::lemma_small_mod((i + r) as nat, n as nat);
    } else {
        vstd::arithmetic::div_mod::lemma_fundamental_div_mod_converse(i + r, n, 1, i + r - n);
    }
}

/// The players of a rank are those that were placed there, in seat order.
pub proof fn rank_groups_hold_the_rank(ps: Seq<Placement>, rank: u32)
    ensures
        rank_group(ps, rank) == ps.filter(|p: Placement| p.rank == rank).map_values(
            |p: Placement| p.gen,
        ),
    decreases ps.len(),
{
    reveal(Seq::filter);
    let f = |p: Placement| p.rank == rank;
    let gen = |p: Placement| p.gen;
    if ps.len() > 0 {
        let rest = ps.drop_last();
        rank_groups_hold_the_rank(rest, rank);
        if f(ps.last()) {
            assert(ps.filter(f) =~= rest.filter(f).push(ps.last()));
            assert(ps.filter(f).map_values(gen) =~= rest.filter(f).map_values(gen).push(
                ps.last().gen,
            ));
        } else {
            assert(ps.filter(f) =~= rest.filter(f));
        }
    } else {
        assert(ps.filter(f).map_values(gen) =~= rank_group(ps, rank));
    }
}

/// Ties are broken without favour: everybody tied stands in every order that is
/// taken, a small group takes all its rearrangements, and a large one puts each of
/// its members first once.
pub proof fn ties_favour_nobody(group: Seq<u32>, t: Seq<u32>)
    ensures
        group.len() <= 1 ==> (tie_orderings(group).contains(t) <==> t == group),
        1 < group.len() <= FULL_TIE_MAX ==> (tie_orderings(group).contains(t) <==> t.len()
            == group.len() && t.to_multiset() == group.to_multiset()),
        group.len() > FULL_TIE_MAX ==> tie_orderings(group).len() == group.len() && forall|r: int|
            0 <= r < group.len() ==> (#[trigger] tie_orderings(group)[r])[0] == group[r]
                && tie_orderings(group)[r].len() == group.len(),
{
    if group.len() <= 1 {
        assert(seq![group][0] == group);
    } else if group.len() <= FULL_TIE_MAX {
        orderings_are_the_rearrangements(group, t);
    } else {
        assert forall|r: int| 0 <= r < group.len() implies (#[trigger] tie_orderings(
            group,
        )[r])[0] == group[r] && tie_orderings(group)[r].len() == group.len() by {
            turning_goes_round(group, r, 0);
            vstd::arithmetic::div_mod::lemma_small_mod(r as nat, group.len());
        }
    }
}

/// A ranking goes rank by rank: it is a ranking of the better ranks, and behind it
/// an order of those tied at the last one.
pub proof fn rankings_go_rank_by_rank(ps: Seq<Placement>, ranks: Seq<u32>, t: Seq<u32>)
    requires
        ranks.len() > 0,
    ensures
        rankings_over(ps, ranks).contains(t) <==> exists|a: Seq<u32>, b: Seq<u32>|
            rankings_over(ps, ranks.drop_last()).contains(a) && tie_orderings(
                rank_group(ps, ranks.last()),
            ).contains(b) && t == #[trigger] (a + b),
{
    lemma_continued(
        rankings_over(ps, ranks.drop_last()),
        tie_orderings(rank_group(ps, ranks.last())),
        t,
    );
}

proof fn lemma_continued(prefixes: Seq<Seq<u32>>, tails: Seq<Seq<u32>>, t: Seq<u32>)
    ensures
        continued(prefixes, tails).contains(t) <==> exists|a: Seq<u32>, b: Seq<u32>|
            prefixes.contains(a) && tails.contains(b) && t == #[trigger] (a + b),
    decreases prefixes.len(),
{
    if prefixes.len() > 0 {
        let rest = prefixes.drop_last();
        let last = prefixes.last();
        let (c, d) = (continued(rest, tails), tails.map_values(|b: Seq<u32>| last + b));
        let all = continued(prefixes, tails);
        lemma_continued(rest, tails, t);
        assert(prefixes[prefixes.len() - 1] == last);
        if all.contains(t) {
            let i = choose|i: int| 0 <= i < all.len() && all[i] == t;
            if i < c.len() {
                assert(c[i] == t);
                assert(c.contains(t));
                let (a, b) = choose|a: Seq<u32>, b: Seq<u32>|
                    rest.contains(a) && tails.contains(b) && t == #[trigger] (a + b);
                let k = choose|k: int| 0 <= k < rest.len() && rest[k] == a;
                assert(prefixes[k] == a);
                assert(prefixes.contains(a));
            } else {
                let k = i - c.len();
                assert(d[k] == t);
                assert(tails.contains(tails[k]));
                assert(t == last + tails[k]);
            }
        }
        if exists|a: Seq<u32>, b: Seq<u32>|
            prefixes.contains(a) && tails.contains(b) && t == #[trigger] (a + b) {
            let (a, b) = choose|a: Seq<u32>, b: Seq<u32>|
                prefixes.contains(a) && tails.contains(b) && t == #[trigger] (a + b);
            let k = choose|k: int| 0 <= k < prefixes.len() && prefixes[k] == a;
            if k < rest.len() {
                assert(rest[k] == a);
                assert(rest.contains(a));
                assert(t == a + b);
                assert(c.contains(t));
                let i = choose|i: int| 0 <= i < c.len() && c[i] == t;
                assert(all[i] == t);
            } else {
                let j = choose|j: int| 0 <= j < tails.len() && tails[j] == b;
                assert(d[j] == t);
                assert(all[c.len() + j] == t);
            }
        }
    }
}

} // verus!
