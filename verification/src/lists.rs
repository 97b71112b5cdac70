//! Small facts and functions on lists.

use vstd::prelude::*;

use crate::order::{self, SortKey};

verus! {

/// The indices below `n` that satisfy `keep`, ascending.
pub open spec fn indices_where(n: nat, keep: spec_fn(int) -> bool) -> Seq<usize>
    decreases n,
{
    if n == 0 {
        Seq::empty()
    } else {
        let rest = indices_where((n - 1) as nat, keep);
        if keep(n - 1) {
            rest.push((n - 1) as usize)
        } else {
            rest
        }
    }
}

/// How many indices below `n` satisfy `keep`.
pub open spec fn count_where(n: nat, keep: spec_fn(int) -> bool) -> nat
    decreases n,
{
    if n == 0 {
        0
    } else {
        count_where((n - 1) as nat, keep) + if keep(n - 1) {
            1nat
        } else {
            0nat
        }
    }
}

/// A count changes with the one index at which the predicates differ.
pub proof fn lemma_count_change(
    n: nat,
    before: spec_fn(int) -> bool,
    after: spec_fn(int) -> bool,
    g: int,
)
    requires
        0 <= g < n,
        !before(g),
        forall|k: int| 0 <= k < n && k != g ==> before(k) == #[trigger] after(k),
    ensures
        count_where(n, after) == count_where(n, before) + if after(g) {
            1nat
        } else {
            0nat
        },
    decreases n,
{
    let m = (n - 1) as nat;
    if g == m {
        lemma_count_same(m, before, after);
    } else {
        assert(before(n - 1) == after(n - 1));
        lemma_count_change(m, before, after, g);
    }
}

/// Predicates that agree give the same count.
pub proof fn lemma_count_same(n: nat, a: spec_fn(int) -> bool, b: spec_fn(int) -> bool)
    requires
        forall|k: int| 0 <= k < n ==> a(k) == #[trigger] b(k),
    ensures
        count_where(n, a) == count_where(n, b),
    decreases n,
{
    if n > 0 {
        assert(a(n - 1) == b(n - 1));
        lemma_count_same((n - 1) as nat, a, b);
    }
}

/// `indices_where` lists the indices that satisfy `keep`, once each.
pub proof fn lemma_indices_where(n: nat, keep: spec_fn(int) -> bool)
    requires
        n <= usize::MAX,
    ensures
        indices_where(n, keep).len() == count_where(n, keep),
        indices_where(n, keep).len() <= n,
        forall|j: int|
            0 <= j < indices_where(n, keep).len() ==> #[trigger] indices_where(n, keep)[j] < n
                && keep(indices_where(n, keep)[j] as int),
        forall|a: int, b: int|
            0 <= a < b < indices_where(n, keep).len() ==> #[trigger] indices_where(n, keep)[a]
                < #[trigger] indices_where(n, keep)[b],
        forall|i: int|
            0 <= i < n && #[trigger] keep(i) ==> indices_where(n, keep).contains(i as usize),
    decreases n,
{
    if n > 0 {
        let m = (n - 1) as nat;
        lemma_indices_where(m, keep);
        let (r, rest) = (indices_where(n, keep), indices_where(m, keep));
        assert forall|i: int| 0 <= i < n && #[trigger] keep(i) implies r.contains(i as usize) by {
            if i == n - 1 {
                assert(r[r.len() - 1] == i as usize);
            } else {
                assert(rest.contains(i as usize));
                let k = choose|k: int| 0 <= k < rest.len() && rest[k] == i as usize;
                assert(r[k] == i as usize);
            }
        }
    }
}

/// Whether `x` occurs in `v`.
pub fn has_u32(v: &Vec<u32>, x: u32) -> (r: bool)
    ensures
        r == v@.contains(x),
{
    let mut i: usize = 0;
    while i < v.len()
        invariant
            i <= v@.len(),
            forall|j: int| 0 <= j < i ==> v@[j] != x,
        decreases v@.len() - i,
    {
        if v[i] == x {
            return true;
        }
        i = i + 1;
    }
    false
}

/// Where `x` first stands in `v`, if it does.
pub open spec fn position_in(v: Seq<u32>, x: u32) -> Option<int>
    decreases v.len(),
{
    if v.len() == 0 {
        None
    } else {
        match position_in(v.drop_last(), x) {
            Some(i) => Some(i),
            None => if v.last() == x {
                Some(v.len() - 1)
            } else {
                None
            },
        }
    }
}

/// `position_in` finds the first place, where there is one.
pub proof fn lemma_position_in(v: Seq<u32>, x: u32)
    ensures
        position_in(v, x) is Some <==> v.contains(x),
        match position_in(v, x) {
            Some(i) => 0 <= i < v.len() && v[i] == x && forall|j: int| 0 <= j < i ==> v[j] != x,
            None => true,
        },
    decreases v.len(),
{
    if v.len() > 0 {
        let w = v.drop_last();
        lemma_position_in(w, x);
        order::lemma_contains_last(v, x);
        assert forall|j: int| 0 <= j < w.len() && !w.contains(x) implies v[j] != x by {
            assert(w[j] == v[j]);
        }
        if position_in(w, x) is Some {
            let i = position_in(w, x).unwrap();
            assert forall|j: int| 0 <= j < i implies v[j] != x by {
                assert(w[j] == v[j]);
            }
        }
    }
}

/// Where `x` first stands in `v`, if it does.
pub fn position_of(v: &Vec<u32>, x: u32) -> (r: Option<usize>)
    ensures
        match r {
            Some(i) => position_in(v@, x) == Some(i as int),
            None => position_in(v@, x) is None,
        },
        r is Some <==> v@.contains(x),
        r matches Some(i) ==> i < v@.len() && v@[i as int] == x,
{
    proof {
        lemma_position_in(v@, x);
    }
    let mut i: usize = 0;
    while i < v.len()
        invariant
            i <= v@.len(),
            forall|j: int| 0 <= j < i ==> v@[j] != x,
            position_in(v@, x) is Some <==> v@.contains(x),
            match position_in(v@, x) {
                Some(i) => 0 <= i < v@.len() && v@[i] == x && forall|j: int|
                    0 <= j < i ==> v@[j] != x,
                None => true,
            },
        decreases v@.len() - i,
    {
        if v[i] == x {
            assert(v@.contains(x));
            return Some(i);
        }
        i = i + 1;
    }
    None
}

/// A copy of a list of numbers.
pub fn copy_u32s(v: &Vec<u32>) -> (r: Vec<u32>)
    ensures
        r@ == v@,
{
    let mut r: Vec<u32> = Vec::new();
    let mut i: usize = 0;
    while i < v.len()
        invariant
            i <= v@.len(),
            r@ == v@.take(i as int),
        decreases v@.len() - i,
    {
        r.push(v[i]);
        i = i + 1;
        assert(r@ =~= v@.take(i as int));
    }
    assert(v@.take(i as int) =~= v@);
    r
}

/// Whether `gone` lists, in order, the indices that leave when only the `keep`
/// largest keys stay: the first ones of the stable order.
pub open spec fn is_excess<K: SortKey>(keys: Seq<K>, keep: nat, gone: Seq<usize>) -> bool {
    exists|p: Seq<usize>| #[trigger]
        order::is_stable_order(keys, p) && gone == if keys.len() <= keep {
            Seq::empty()
        } else {
            p.take(keys.len() - keep)
        }
}

/// The indices that leave when only the `keep` largest keys stay, smallest key
/// first.
pub fn excess<K: SortKey>(keys: &Vec<K>, keep: usize) -> (gone: Vec<usize>)
    ensures
        is_excess(keys@, keep as nat, gone@),
{
    let mut p = order::stable_order(keys);
    let ghost full = p@;
    let n: usize = keys.len();
    if n <= keep {
        p.clear();
    } else {
        p.truncate(n - keep);
    }
    assert(order::is_stable_order(keys@, full));
    p
}

/// Everything that leaves comes before everything that stays, and `keep` stay
/// wherever there are that many.
pub proof fn excess_keeps_the_largest<K: SortKey>(keys: Seq<K>, keep: nat, gone: Seq<usize>)
    requires
        is_excess(keys, keep, gone),
    ensures
        gone.no_duplicates(),
        gone.len() == if keys.len() <= keep {
            0
        } else {
            keys.len() - keep
        },
        forall|j: int| 0 <= j < gone.len() ==> #[trigger] gone[j] < keys.len(),
        forall|j: int, k: int|
            0 <= j < gone.len() && 0 <= k < keys.len() && !gone.contains(k as usize) && k
                <= usize::MAX ==> order::may_precede(keys, #[trigger] gone[j], #[trigger] (k as usize)),
{
    let p = choose|p: Seq<usize>| #[trigger]
        order::is_stable_order(keys, p) && gone == if keys.len() <= keep {
            Seq::empty()
        } else {
            p.take(keys.len() - keep)
        };
    assert forall|j: int, k: int|
        0 <= j < gone.len() && 0 <= k < keys.len() && !gone.contains(k as usize) && k
            <= usize::MAX implies order::may_precede(
        keys,
        #[trigger] gone[j],
        #[trigger] (k as usize),
    ) by {
        lemma_permutation_covers(p, keys.len(), k);
        let at = choose|at: int| 0 <= at < p.len() && p[at] == k as usize;
        if at < gone.len() {
            assert(gone[at] == k as usize);
        }
        assert(p[j] == gone[j]);
    }
}

/// A permutation names every index.
pub proof fn lemma_permutation_covers(p: Seq<usize>, n: nat, k: int)
    requires
        order::is_permutation(p, n),
        0 <= k < n,
        k <= usize::MAX,
    ensures
        p.contains(k as usize),
{
    if !p.contains(k as usize) {
        let q = p.push(k as usize);
        let s = q.map_values(|x: usize| x as int).to_set();
        let full = vstd::set_lib::set_int_range(0, n as int);
        let qi = q.map_values(|x: usize| x as int);
        assert forall|i: int, j: int| 0 <= i < j < qi.len() implies qi[i] != qi[j] by {
            if j == p.len() {
                assert(p[i] != k as usize);
            } else {
                assert(p[i] != p[j]);
            }
        }
        assert(qi.no_duplicates());
        qi.unique_seq_to_set();
        assert(s.subset_of(full)) by {
            assert forall|x: int| s.contains(x) implies full.contains(x) by {
                let i = choose|i: int| 0 <= i < qi.len() && qi[i] == x;
                if i < p.len() {
                    assert(p[i] < n);
                }
            }
        }
        vstd::set_lib::lemma_int_range(0, n as int);
        vstd::set_lib::lemma_len_subset(s, full);
    }
}

/// Appends `src[lo..lo + k]` to a list.
pub fn append_range<F: Copy>(out: &mut Vec<F>, src: &Vec<F>, lo: usize, k: usize)
    requires
        lo + k <= src@.len(),
    ensures
        final(out)@ == old(out)@ + src@.subrange(lo as int, lo + k),
{
    let ghost start = out@;
    let len: usize = src.len();
    let mut i: usize = 0;
    assert(start + src@.subrange(lo as int, lo as int) =~= start);
    while i < k
        invariant
            i <= k,
            lo + k <= len,
            len == src@.len(),
            out@ == start + src@.subrange(lo as int, lo + i),
        decreases k - i,
    {
        out.push(src[lo + i]);
        i = i + 1;
        assert(out@ =~= start + src@.subrange(lo as int, lo + i));
    }
}

} // verus!
