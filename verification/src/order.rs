//! Sorting: stable orders by a key, and sorted lists without repetition.

use vstd::prelude::*;

use crate::text;

verus! {

/// A key that things are sorted by, with a strict weak order.
pub trait SortKey: Sized {
    /// Whether `self` comes before `other`.
    spec fn below(&self, other: &Self) -> bool;

    /// The order is irreflexive and transitive, and so is its complement.
    proof fn order_laws(a: Self, b: Self, c: Self)
        ensures
            !a.below(&a),
            a.below(&b) && b.below(&c) ==> a.below(&c),
            !a.below(&b) && !b.below(&c) ==> !a.below(&c),
    ;

    /// Whether `self` comes before `other`.
    fn is_below(&self, other: &Self) -> (r: bool)
        ensures
            r == self.below(other),
    ;
}

impl SortKey for u64 {
    open spec fn below(&self, other: &Self) -> bool {
        *self < *other
    }

    proof fn order_laws(a: Self, b: Self, c: Self) {
    }

    fn is_below(&self, other: &Self) -> (r: bool) {
        *self < *other
    }
}

/// Lexicographic order on texts, by code point.
pub open spec fn text_below(a: Seq<char>, b: Seq<char>) -> bool
    decreases a.len(),
{
    if b.len() == 0 {
        false
    } else if a.len() == 0 {
        true
    } else if a[0] == b[0] {
        text_below(a.skip(1), b.skip(1))
    } else {
        a[0] < b[0]
    }
}

proof fn lemma_text_below_laws(a: Seq<char>, b: Seq<char>, c: Seq<char>)
    ensures
        !text_below(a, a),
        text_below(a, b) && text_below(b, c) ==> text_below(a, c),
        !text_below(a, b) && !text_below(b, c) ==> !text_below(a, c),
    decreases a.len() + b.len() + c.len(),
{
    if a.len() > 0 && b.len() > 0 && c.len() > 0 {
        lemma_text_below_laws(a.skip(1), b.skip(1), c.skip(1));
    } else if a.len() > 0 {
        lemma_text_below_laws(a.skip(1), b, c);
    }
}

/// Texts that begin alike are ordered by what follows.
proof fn lemma_common_start(p: Seq<char>, x: Seq<char>, y: Seq<char>)
    ensures
        text_below(p + x, p + y) == text_below(x, y),
    decreases p.len(),
{
    if p.len() == 0 {
        assert(p + x =~= x);
        assert(p + y =~= y);
    } else {
        lemma_common_start(p.skip(1), x, y);
        assert((p + x).skip(1) =~= p.skip(1) + x);
        assert((p + y).skip(1) =~= p.skip(1) + y);
    }
}

/// Characters are ordered as their codes.
proof fn lemma_char_order(c: char, d: char)
    ensures
        c < d <==> (c as nat) < (d as nat),
        c == d <==> c as nat == d as nat,
{
}

/// Digit strings of one length are determined by their values.
proof fn lemma_digits_determined(a: Seq<char>, b: Seq<char>)
    requires
        a.len() == b.len(),
        text::all_digits(a),
        text::all_digits(b),
        text::digits_value(a) == text::digits_value(b),
    ensures
        a == b,
    decreases a.len(),
{
    if a.len() > 0 {
        assert(text::is_digit(a[a.len() - 1]) && text::is_digit(b[b.len() - 1]));
        lemma_digits_determined(a.drop_last(), b.drop_last());
        lemma_char_order(a.last(), b.last());
        assert(a =~= a.drop_last().push(a.last()));
        assert(b =~= b.drop_last().push(b.last()));
    } else {
        assert(a =~= b);
    }
}

/// Digit strings of one length are ordered as their values, whatever follows
/// them.
proof fn lemma_digits_order(a: Seq<char>, b: Seq<char>, x: Seq<char>, y: Seq<char>)
    requires
        a.len() == b.len(),
        text::all_digits(a),
        text::all_digits(b),
        text::digits_value(a) < text::digits_value(b),
    ensures
        text_below(a + x, b + y),
    decreases a.len(),
{
    if a.len() > 0 {
        let (a1, b1) = (a.drop_last(), b.drop_last());
        let (x1, y1) = (seq![a.last()] + x, seq![b.last()] + y);
        assert(text::is_digit(a[a.len() - 1]) && text::is_digit(b[b.len() - 1]));
        assert(a + x =~= a1 + x1);
        assert(b + y =~= b1 + y1);
        if text::digits_value(a1) < text::digits_value(b1) {
            lemma_digits_order(a1, b1, x1, y1);
        } else {
            lemma_digits_determined(a1, b1);
            lemma_common_start(a1, x1, y1);
            assert(x1[0] == a.last() && y1[0] == b.last());
            lemma_char_order(a.last(), b.last());
            assert(text_below(x1, y1));
        }
    }
}

/// Texts that begin alike, go on with numbers padded to one width and end
/// anyhow are ordered as the numbers, as long as those fit in the width.
pub proof fn padded_numbers_sort(
    p: Seq<char>,
    a: nat,
    b: nat,
    width: nat,
    x: Seq<char>,
    y: Seq<char>,
)
    requires
        a < b,
        text::dec(b).len() <= width,
    ensures
        text_below(p + text::dec_padded(a, width) + x, p + text::dec_padded(b, width) + y),
{
    let (da, db) = (text::dec_padded(a, width), text::dec_padded(b, width));
    text::lemma_dec_grows(a, b);
    text::lemma_padded_value(a, width);
    text::lemma_padded_value(b, width);
    lemma_digits_order(da, db, x, y);
    lemma_common_start(p, da + x, db + y);
    assert(p + da + x =~= p + (da + x));
    assert(p + db + y =~= p + (db + y));
}

impl SortKey for Vec<char> {
    open spec fn below(&self, other: &Self) -> bool {
        text_below(self@, other@)
    }

    proof fn order_laws(a: Self, b: Self, c: Self) {
        lemma_text_below_laws(a@, b@, c@);
    }

    fn is_below(&self, other: &Self) -> (r: bool) {
        let mut i: usize = 0;
        let n: usize = if self.len() < other.len() { self.len() } else { other.len() };
        assert(self@.skip(0) =~= self@);
        assert(other@.skip(0) =~= other@);
        while i < n
            invariant
                i <= n,
                n <= self@.len(),
                n <= other@.len(),
                n == self@.len() || n == other@.len(),
                text_below(self@, other@) == text_below(self@.skip(i as int), other@.skip(i as int)),
            decreases n - i,
        {
            if self[i] != other[i] {
                return self[i] < other[i];
            }
            assert(self@.skip(i as int).skip(1) =~= self@.skip(i + 1));
            assert(other@.skip(i as int).skip(1) =~= other@.skip(i + 1));
            i = i + 1;
        }
        self.len() < other.len()
    }
}

/// Whether `p` names each index below `n` once.
pub open spec fn is_permutation(p: Seq<usize>, n: nat) -> bool {
    &&& p.len() == n
    &&& p.no_duplicates()
    &&& forall|i: int| 0 <= i < n ==> #[trigger] p[i] < n
}

/// Whether index `a` may stand before index `b`: its key is below, or the keys
/// tie and it came first.
pub open spec fn may_precede<K: SortKey>(keys: Seq<K>, a: usize, b: usize) -> bool {
    keys[a as int].below(&keys[b as int]) || (!keys[b as int].below(&keys[a as int]) && a < b)
}

/// Whether `p` lists the indices of `keys` in stable ascending order.
pub open spec fn is_stable_order<K: SortKey>(keys: Seq<K>, p: Seq<usize>) -> bool {
    &&& is_permutation(p, keys.len())
    &&& forall|i: int, j: int|
        0 <= i < j < p.len() ==> may_precede(keys, #[trigger] p[i], #[trigger] p[j])
}

proof fn lemma_may_precede_trans<K: SortKey>(keys: Seq<K>, a: usize, b: usize, c: usize)
    requires
        may_precede(keys, a, b),
        may_precede(keys, b, c),
    ensures
        may_precede(keys, a, c),
{
    let (x, y, z) = (keys[a as int], keys[b as int], keys[c as int]);
    K::order_laws(x, y, z);
    K::order_laws(z, y, x);
    K::order_laws(y, x, z);
    K::order_laws(x, z, y);
    K::order_laws(y, z, x);
    K::order_laws(z, x, y);
}

/// The indices of `keys` in ascending order of key; equal keys keep their order.
pub fn stable_order<K: SortKey>(keys: &Vec<K>) -> (p: Vec<usize>)
    ensures
        is_stable_order(keys@, p@),
{
    let mut p: Vec<usize> = Vec::new();
    let mut n: usize = 0;
    while n < keys.len()
        invariant
            n <= keys@.len(),
            is_stable_order(keys@.take(n as int), p@),
        decreases keys@.len() - n,
    {
        let mut at: usize = n;
        while at > 0 && keys[n].is_below(&keys[p[at - 1]])
            invariant
                at <= n < keys@.len(),
                is_stable_order(keys@.take(n as int), p@),
                forall|i: int| at <= i < n ==> keys@[n as int].below(&keys@[(#[trigger] p@[i]) as int]),
            decreases at,
        {
            at = at - 1;
        }
        let ghost before = p@;
        p.insert(at, n);
        let ghost cur = keys@.take(n + 1);
        proof {
            assert forall|i: int, j: int| 0 <= i < j < p@.len() implies may_precede(
                cur,
                #[trigger] p@[i],
                #[trigger] p@[j],
            ) by {
                if i < at && j == at {
                    let last = before[at - 1];
                    assert(may_precede(cur, last, n));
                    if i < at - 1 {
                        assert(may_precede(keys@.take(n as int), before[i], before[at - 1]));
                        lemma_may_precede_trans(cur, before[i], last, n);
                    }
                } else if i == at {
                    assert(p@[j] == before[j - 1]);
                } else {
                    let x = if i < at { i } else { i - 1 };
                    let y = if j < at { j } else { j - 1 };
                    assert(may_precede(keys@.take(n as int), before[x], before[y]));
                }
            }
            assert(is_permutation(p@, (n + 1) as nat)) by {
                assert forall|i: int, j: int| 0 <= i < j < p@.len() implies p@[i] != p@[j] by {
                    let x = if i < at { i } else { i - 1 };
                    let y = if j < at { j } else { j - 1 };
                    if i == at {
                        assert(before[y] < n);
                    } else if j == at {
                        assert(before[x] < n);
                    } else {
                        assert(before[x] != before[y]);
                    }
                }
                assert forall|i: int| 0 <= i < n + 1 implies #[trigger] p@[i] < n + 1 by {
                    let x = if i < at { i } else { i - 1 };
                    if i != at {
                        assert(before[x] < n);
                    }
                }
            }
        }
        n = n + 1;
    }
    assert(keys@.take(n as int) =~= keys@);
    p
}

/// Whether `r` is strictly ascending.
pub open spec fn ascending(r: Seq<u32>) -> bool {
    forall|i: int, j: int| 0 <= i < j < r.len() ==> #[trigger] r[i] < #[trigger] r[j]
}

/// Whether `r` lists the values of `v` once each, in ascending order.
pub open spec fn is_sorted_set(v: Seq<u32>, r: Seq<u32>) -> bool {
    &&& ascending(r)
    &&& forall|x: u32| #[trigger] r.contains(x) <==> v.contains(x)
}

/// Two ascending lists of the same values are the same list.
pub proof fn sorted_set_is_unique(v: Seq<u32>, a: Seq<u32>, b: Seq<u32>)
    requires
        is_sorted_set(v, a),
        is_sorted_set(v, b),
    ensures
        a == b,
    decreases a.len(),
{
    if a.len() == 0 {
        if b.len() > 0 {
            assert(b.contains(b[0]));
            assert(a.contains(b[0]));
        }
        assert(a =~= b);
    } else {
        assert(a.contains(a.last()));
        assert(b.contains(a.last()));
        assert(b.contains(b.last()));
        assert(a.contains(b.last()));
        let i = choose|i: int| 0 <= i < b.len() && b[i] == a.last();
        let j = choose|j: int| 0 <= j < a.len() && a[j] == b.last();
        assert(b.last() == b[b.len() - 1]);
        assert(a.last() == a[a.len() - 1]);
        assert(a.last() == b.last());
        let (a1, b1) = (a.drop_last(), b.drop_last());
        assert forall|x: u32| #[trigger] a1.contains(x) <==> b1.contains(x) by {
            if a1.contains(x) {
                let k = choose|k: int| 0 <= k < a1.len() && a1[k] == x;
                assert(a[k] == x);
                assert(a.contains(x));
                assert(b.contains(x));
                let m = choose|m: int| 0 <= m < b.len() && b[m] == x;
                assert(a[k] < a[a.len() - 1]);
                assert(b1[m] == x);
            }
            if b1.contains(x) {
                let k = choose|k: int| 0 <= k < b1.len() && b1[k] == x;
                assert(b[k] == x);
                assert(b.contains(x));
                assert(a.contains(x));
                let m = choose|m: int| 0 <= m < a.len() && a[m] == x;
                assert(b[k] < b[b.len() - 1]);
                assert(a1[m] == x);
            }
        }
        sorted_set_is_unique(b1, a1, b1);
        assert(a =~= a1.push(a.last()));
        assert(b =~= b1.push(b.last()));
    }
}

/// Where `x` stands in the ascending list `r`, or where it would have to be
/// inserted.
pub fn search_sorted(r: &Vec<u32>, x: u32) -> (res: Result<usize, usize>)
    requires
        ascending(r@),
    ensures
        match res {
            Ok(i) => i < r@.len() && r@[i as int] == x,
            Err(i) => i <= r@.len() && (forall|j: int| 0 <= j < i ==> #[trigger] r@[j] < x) && (
            forall|j: int| i <= j < r@.len() ==> #[trigger] r@[j] > x),
        },
{
    let mut lo: usize = 0;
    let mut hi: usize = r.len();
    while lo < hi
        invariant
            ascending(r@),
            lo <= hi <= r@.len(),
            forall|j: int| 0 <= j < lo ==> #[trigger] r@[j] < x,
            forall|j: int| hi <= j < r@.len() ==> #[trigger] r@[j] > x,
        decreases hi - lo,
    {
        let mid: usize = lo + (hi - lo) / 2;
        if r[mid] == x {
            return Ok(mid);
        }
        if r[mid] < x {
            lo = mid + 1;
        } else {
            hi = mid;
        }
    }
    Err(lo)
}

/// The values of `v` in ascending order, each once.
pub fn sorted_set(v: &Vec<u32>) -> (r: Vec<u32>)
    ensures
        is_sorted_set(v@, r@),
{
    let mut r: Vec<u32> = Vec::new();
    let mut i: usize = 0;
    while i < v.len()
        invariant
            i <= v@.len(),
            is_sorted_set(v@.take(i as int), r@),
        decreases v@.len() - i,
    {
        let ghost before = r@;
        let ghost cur = v@.take(i + 1);
        assert(cur.drop_last() =~= v@.take(i as int));
        let x: u32 = v[i];
        match search_sorted(&r, x) {
            Ok(at) => {
                proof {
                    assert forall|y: u32| #[trigger] r@.contains(y) <==> cur.contains(y) by {
                        lemma_contains_last(cur, y);
                        assert(r@[at as int] == x);
                    }
                }
            },
            Err(at) => {
                r.insert(at, x);
                proof {
                    assert forall|y: u32| #[trigger] r@.contains(y) <==> cur.contains(y) by {
                        lemma_contains_last(cur, y);
                        if before.contains(y) {
                            let k = choose|k: int| 0 <= k < before.len() && before[k] == y;
                            assert(r@[if k < at { k } else { k + 1 }] == y);
                        }
                        assert(r@[at as int] == x);
                        if r@.contains(y) && y != x {
                            let k = choose|k: int| 0 <= k < r@.len() && r@[k] == y;
                            assert(before[if k < at { k } else { k - 1 }] == y);
                        }
                    }
                }
            },
        }
        i = i + 1;
    }
    assert(v@.take(i as int) =~= v@);
    r
}

/// Whether `r` lists the values of `v` in ascending order, each as often as
/// `v` does.
pub open spec fn is_sorted_list(v: Seq<u32>, r: Seq<u32>) -> bool {
    &&& forall|i: int, j: int| 0 <= i < j < r.len() ==> #[trigger] r[i] <= #[trigger] r[j]
    &&& r.to_multiset() == v.to_multiset()
}

/// A sorted list holds the same values as often, and so each once where the
/// list did.
pub proof fn lemma_sorted_list(v: Seq<u32>, r: Seq<u32>)
    requires
        is_sorted_list(v, r),
    ensures
        r.len() == v.len(),
        forall|x: u32| #[trigger] r.contains(x) <==> v.contains(x),
        v.no_duplicates() ==> r.no_duplicates(),
{
    broadcast use vstd::seq_lib::group_to_multiset_ensures;

    assert(r.len() == r.to_multiset().len());
    assert(v.len() == v.to_multiset().len());
    assert forall|x: u32| #[trigger] r.contains(x) <==> v.contains(x) by {
        assert(r.contains(x) <==> r.to_multiset().count(x) > 0);
        assert(v.contains(x) <==> v.to_multiset().count(x) > 0);
    }
    if v.no_duplicates() {
        v.lemma_multiset_has_no_duplicates();
        r.lemma_multiset_has_no_duplicates_conv();
    }
}

/// The values of `v` in ascending order.
pub fn sorted_list(v: &Vec<u32>) -> (r: Vec<u32>)
    ensures
        is_sorted_list(v@, r@),
{
    let mut r: Vec<u32> = Vec::new();
    let mut i: usize = 0;
    assert(v@.take(0) =~= r@);
    while i < v.len()
        invariant
            i <= v@.len(),
            r@.len() == i,
            is_sorted_list(v@.take(i as int), r@),
        decreases v@.len() - i,
    {
        let ghost before = r@;
        let x: u32 = v[i];
        let mut at: usize = i;
        while at > 0 && r[at - 1] > x
            invariant
                at <= i,
                r@.len() == i,
                forall|j: int| at <= j < i ==> #[trigger] r@[j] > x,
            decreases at,
        {
            at = at - 1;
        }
        r.insert(at, x);
        proof {
            broadcast use vstd::seq_lib::group_to_multiset_ensures;

            assert(v@.take(i + 1) =~= v@.take(i as int).push(x));
            assert(r@.remove(at as int) =~= before);
            assert(r@.to_multiset() =~= before.to_multiset().insert(x));
        }
        i = i + 1;
    }
    assert(v@.take(i as int) =~= v@);
    r
}

/// Whether `r` is strictly descending.
pub open spec fn descending(r: Seq<u64>) -> bool {
    forall|i: int, j: int| 0 <= i < j < r.len() ==> #[trigger] r[i] > #[trigger] r[j]
}

/// Whether `r` lists the values of `v` once each, in descending order.
pub open spec fn is_descending_set(v: Seq<u64>, r: Seq<u64>) -> bool {
    &&& descending(r)
    &&& forall|x: u64| #[trigger] r.contains(x) <==> v.contains(x)
}

proof fn lemma_contains_last64(s: Seq<u64>, x: u64)
    requires
        s.len() > 0,
    ensures
        s.contains(x) <==> (s.drop_last().contains(x) || s.last() == x),
{
    if s.drop_last().contains(x) {
        let k = choose|k: int| 0 <= k < s.drop_last().len() && s.drop_last()[k] == x;
        assert(s[k] == x);
    }
    if s.last() == x {
        assert(s[s.len() - 1] == x);
    }
    if s.contains(x) && s.last() != x {
        let k = choose|k: int| 0 <= k < s.len() && s[k] == x;
        assert(s.drop_last()[k] == x);
    }
}

/// The values of `v` in descending order, each once.
pub fn descending_set(v: &Vec<u64>) -> (r: Vec<u64>)
    ensures
        is_descending_set(v@, r@),
{
    let mut r: Vec<u64> = Vec::new();
    let mut i: usize = 0;
    while i < v.len()
        invariant
            i <= v@.len(),
            is_descending_set(v@.take(i as int), r@),
        decreases v@.len() - i,
    {
        let ghost before = r@;
        let ghost cur = v@.take(i + 1);
        assert(cur.drop_last() =~= v@.take(i as int));
        let x: u64 = v[i];
        let mut at: usize = 0;
        while at < r.len() && r[at] > x
            invariant
                at <= r@.len(),
                r@ == before,
                forall|k: int| 0 <= k < at ==> #[trigger] r@[k] > x,
            decreases r@.len() - at,
        {
            at = at + 1;
        }
        if at == r.len() || r[at] != x {
            r.insert(at, x);
            proof {
                assert forall|y: u64| #[trigger] r@.contains(y) <==> cur.contains(y) by {
                    lemma_contains_last64(cur, y);
                    if before.contains(y) {
                        let k = choose|k: int| 0 <= k < before.len() && before[k] == y;
                        assert(r@[if k < at { k } else { k + 1 }] == y);
                    }
                    assert(r@[at as int] == x);
                    if r@.contains(y) && y != x {
                        let k = choose|k: int| 0 <= k < r@.len() && r@[k] == y;
                        assert(before[if k < at { k } else { k - 1 }] == y);
                    }
                }
            }
        } else {
            proof {
                assert forall|y: u64| #[trigger] r@.contains(y) <==> cur.contains(y) by {
                    lemma_contains_last64(cur, y);
                    assert(r@[at as int] == x);
                }
            }
        }
        i = i + 1;
    }
    assert(v@.take(i as int) =~= v@);
    r
}

/// The values of a list are its last one and those before it.
pub proof fn lemma_contains_last(s: Seq<u32>, x: u32)
    requires
        s.len() > 0,
    ensures
        s.contains(x) <==> (s.drop_last().contains(x) || s.last() == x),
{
    if s.drop_last().contains(x) {
        let k = choose|k: int| 0 <= k < s.drop_last().len() && s.drop_last()[k] == x;
        assert(s[k] == x);
    }
    if s.last() == x {
        assert(s[s.len() - 1] == x);
    }
    if s.contains(x) && s.last() != x {
        let k = choose|k: int| 0 <= k < s.len() && s[k] == x;
        assert(s.drop_last()[k] == x);
    }
}

} // verus!
