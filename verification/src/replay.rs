//! The replay buffer: a window over the newest generations of samples.

use std::collections::VecDeque;

use rand_xoshiro::Xoshiro256PlusPlus;
use vstd::prelude::*;

use crate::d4;
use crate::lists;
use crate::rules;
use crate::shards;

verus! {

/// Training samples, `obs_shape` (planes, rows, columns) numbers and four
/// policy entries each.
pub struct Samples<F> {
    pub obs: Vec<F>,
    pub pol: Vec<F>,
    pub z: Vec<F>,
    /// Each sample's turn in its game; empty where unknown.
    pub turn: Vec<u32>,
    /// Each sample's search temperature; empty where there is none.
    pub temp: Vec<F>,
    pub obs_shape: [usize; 3],
    pub turns: usize,
    pub games: usize,
}

/// The numbers of one observation.
pub open spec fn shape_size(shape: [usize; 3]) -> nat {
    (shape@[0] * (shape@[1] * shape@[2])) as nat
}

impl<F> Samples<F> {
    /// Whether all lists hold the same number of samples.
    pub open spec fn wf(&self) -> bool {
        &&& shape_size(self.obs_shape) <= usize::MAX
        &&& self.obs@.len() == self.z@.len() * shape_size(self.obs_shape)
        &&& self.pol@.len() == self.z@.len() * 4
        &&& self.temp@.len() == 0 || self.temp@.len() == self.z@.len()
    }

    /// The number of samples.
    pub fn len(&self) -> (n: usize)
        ensures
            n == self.z@.len(),
    {
        self.z.len()
    }

    /// The numbers of one observation.
    pub fn obs_len(&self) -> (n: usize)
        requires
            shape_size(self.obs_shape) <= usize::MAX,
            self.obs_shape@[1] * self.obs_shape@[2] <= usize::MAX,
        ensures
            n == shape_size(self.obs_shape),
    {
        self.obs_shape[0] * (self.obs_shape[1] * self.obs_shape[2])
    }
}

impl<F> Samples<F> {
    /// No samples yet, of a shape.
    pub fn empty(obs_shape: [usize; 3]) -> (s: Samples<F>)
        ensures
            s.obs@.len() == 0,
            s.pol@.len() == 0,
            s.z@.len() == 0,
            s.turn@.len() == 0,
            s.temp@.len() == 0,
            s.obs_shape == obs_shape,
            s.turns == 0,
            s.games == 0,
            shape_size(obs_shape) <= usize::MAX ==> s.wf(),
    {
        assert(0 * shape_size(obs_shape) == 0) by (nonlinear_arith);
        Samples {
            obs: Vec::new(),
            pol: Vec::new(),
            z: Vec::new(),
            turn: Vec::new(),
            temp: Vec::new(),
            obs_shape,
            turns: 0,
            games: 0,
        }
    }

    /// Whether all lists hold the same number of samples, and a plane's size can
    /// be counted.
    pub fn is_whole(&self) -> (r: bool)
        ensures
            r == (self.wf() && self.obs_shape@[1] * self.obs_shape@[2] <= usize::MAX),
    {
        let (n, obs_len, pol_len): (usize, usize, usize) = (
            self.z.len(),
            self.obs.len(),
            self.pol.len(),
        );
        let size: usize = match self.obs_shape[1].checked_mul(self.obs_shape[2]) {
            Some(plane) => match self.obs_shape[0].checked_mul(plane) {
                Some(size) => size,
                None => {
                    return false;
                },
            },
            None => {
                return false;
            },
        };
        let obs = match n.checked_mul(size) {
            Some(len) => len == obs_len,
            None => false,
        };
        let pol = match n.checked_mul(4) {
            Some(len) => len == pol_len,
            None => false,
        };
        obs && pol && (self.temp.len() == 0 || self.temp.len() == n)
    }
}

/// A sample as it is trained on.
pub struct Encoded<F> {
    pub obs: Vec<F>,
    pub pol: Vec<F>,
    /// The value target.
    pub z: F,
    pub turn: u32,
    /// The search temperature, where the net is told it.
    pub temp: Option<F>,
}

/// The observations of samples, one after another.
pub open spec fn obs_of<F>(rows: Seq<Encoded<F>>) -> Seq<F>
    decreases rows.len(),
{
    if rows.len() == 0 {
        Seq::empty()
    } else {
        obs_of(rows.drop_last()) + rows.last().obs@
    }
}

/// The policy targets of samples, one after another.
pub open spec fn pol_of<F>(rows: Seq<Encoded<F>>) -> Seq<F>
    decreases rows.len(),
{
    if rows.len() == 0 {
        Seq::empty()
    } else {
        pol_of(rows.drop_last()) + rows.last().pol@
    }
}

/// The temperatures of the samples that have one.
pub open spec fn temps_of<F>(rows: Seq<Encoded<F>>) -> Seq<F>
    decreases rows.len(),
{
    if rows.len() == 0 {
        Seq::empty()
    } else {
        let rest = temps_of(rows.drop_last());
        match rows.last().temp {
            Some(t) => rest.push(t),
            None => rest,
        }
    }
}

/// Whether `after` is `before` with samples behind it; what was there stays.
pub open spec fn is_extended<F>(
    before: Samples<F>,
    after: Samples<F>,
    rows: Seq<Encoded<F>>,
) -> bool {
    &&& after.obs@ == before.obs@ + obs_of(rows)
    &&& after.pol@ == before.pol@ + pol_of(rows)
    &&& after.z@ == before.z@ + rows.map_values(|r: Encoded<F>| r.z)
    &&& after.turn@ == before.turn@ + rows.map_values(|r: Encoded<F>| r.turn)
    &&& after.temp@ == before.temp@ + temps_of(rows)
    &&& after.obs_shape == before.obs_shape
    &&& after.turns == before.turns
    &&& after.games == before.games
}

/// Puts numbers behind others.
fn push_all<F: Copy>(out: &mut Vec<F>, more: &Vec<F>)
    ensures
        final(out)@ == old(out)@ + more@,
{
    let mut i: usize = 0;
    assert(out@ =~= old(out)@ + more@.take(0));
    while i < more.len()
        invariant
            i <= more@.len(),
            out@ == old(out)@ + more@.take(i as int),
        decreases more@.len() - i,
    {
        out.push(more[i]);
        i = i + 1;
        assert(out@ =~= old(out)@ + more@.take(i as int));
    }
    assert(more@.take(i as int) =~= more@);
}

impl<F: Copy> Samples<F> {
    /// Adds samples behind those that are there.
    pub fn extend(&mut self, rows: &Vec<Encoded<F>>)
        ensures
            is_extended(*old(self), *final(self), rows@),
    {
        let mut i: usize = 0;
        proof {
            assert(rows@.take(0) =~= Seq::<Encoded<F>>::empty());
            lemma_extended_by_nothing(*self, rows@.take(0));
        }
        while i < rows.len()
            invariant
                i <= rows@.len(),
                is_extended(*old(self), *self, rows@.take(i as int)),
            decreases rows@.len() - i,
        {
            let r = &rows[i];
            push_all(&mut self.obs, &r.obs);
            push_all(&mut self.pol, &r.pol);
            self.z.push(r.z);
            self.turn.push(r.turn);
            match r.temp {
                Some(t) => {
                    self.temp.push(t);
                },
                None => {},
            }
            i = i + 1;
            proof {
                let done = rows@.take(i as int);
                assert(done.drop_last() =~= rows@.take(i - 1));
                assert(done.last() == *r);
                assert(self.obs@ =~= old(self).obs@ + obs_of(done));
                assert(self.pol@ =~= old(self).pol@ + pol_of(done));
                assert(self.z@ =~= old(self).z@ + done.map_values(|r: Encoded<F>| r.z));
                assert(self.turn@ =~= old(self).turn@ + done.map_values(|r: Encoded<F>| r.turn));
                assert(self.temp@ =~= old(self).temp@ + temps_of(done));
            }
        }
        assert(rows@.take(i as int) =~= rows@);
    }
}

proof fn lemma_extended_by_nothing<F>(s: Samples<F>, rows: Seq<Encoded<F>>)
    requires
        rows.len() == 0,
    ensures
        is_extended(s, s, rows),
{
    assert(s.obs@ =~= s.obs@ + obs_of(rows));
    assert(s.pol@ =~= s.pol@ + pol_of(rows));
    assert(s.z@ =~= s.z@ + rows.map_values(|r: Encoded<F>| r.z));
    assert(s.turn@ =~= s.turn@ + rows.map_values(|r: Encoded<F>| r.turn));
    assert(s.temp@ =~= s.temp@ + temps_of(rows));
}

/// Whether samples are of one shape: `w` numbers and four policy entries each,
/// all with a temperature or all without.
pub open spec fn are_alike<F>(rows: Seq<Encoded<F>>, w: nat, tempered: bool) -> bool {
    forall|i: int|
        0 <= i < rows.len() ==> (#[trigger] rows[i]).obs@.len() == w && rows[i].pol@.len() == 4
            && rows[i].temp is Some == tempered
}

proof fn lemma_alike_lens<F>(rows: Seq<Encoded<F>>, w: nat, tempered: bool)
    requires
        are_alike(rows, w, tempered),
    ensures
        obs_of(rows).len() == rows.len() * w,
        pol_of(rows).len() == rows.len() * 4,
        temps_of(rows).len() == if tempered {
            rows.len()
        } else {
            0
        },
    decreases rows.len(),
{
    if rows.len() == 0 {
        assert(0 * w == 0) by (nonlinear_arith);
    } else {
        let rest = rows.drop_last();
        assert forall|i: int| 0 <= i < rest.len() implies (#[trigger] rest[i]).obs@.len() == w
            && rest[i].pol@.len() == 4 && rest[i].temp is Some == tempered by {
            assert(rest[i] == rows[i]);
        }
        lemma_alike_lens(rest, w, tempered);
        assert(rows.last() == rows[rows.len() - 1]);
        assert((rows.len() - 1) * w + w == rows.len() * w) by (nonlinear_arith);
    }
}

/// Samples of one shape fill every list by as much as they should: one value
/// target and one turn each, four policy entries and one observation. What was
/// there before comes first, unchanged, and lists that went together still do.
pub proof fn samples_fill_the_lists<F>(
    before: Samples<F>,
    after: Samples<F>,
    rows: Seq<Encoded<F>>,
    tempered: bool,
)
    requires
        is_extended(before, after, rows),
        are_alike(rows, shape_size(before.obs_shape), tempered),
    ensures
        after.z@.len() == before.z@.len() + rows.len(),
        after.turn@.len() == before.turn@.len() + rows.len(),
        after.pol@.len() == before.pol@.len() + 4 * rows.len(),
        after.obs@.len() == before.obs@.len() + shape_size(before.obs_shape) * rows.len(),
        before.z@.is_prefix_of(after.z@),
        before.turn@.is_prefix_of(after.turn@),
        before.pol@.is_prefix_of(after.pol@),
        before.obs@.is_prefix_of(after.obs@),
        before.wf() && before.temp@.len() == (if tempered {
            before.z@.len()
        } else {
            0
        }) ==> after.wf(),
{
    let w = shape_size(before.obs_shape);
    lemma_alike_lens(rows, w, tempered);
    let (a, b) = (before.z@.len(), rows.len());
    assert(b * w == w * b && (a + b) * w == a * w + b * w) by (nonlinear_arith);
}

/// The samples of a list of shards.
pub open spec fn shard_lens<F>(shards: Seq<Samples<F>>) -> Seq<usize> {
    shards.map_values(|s: Samples<F>| s.z@.len() as usize)
}

/// The shards that stay when a buffer holds at most `capacity` samples: the
/// oldest leave, the newest never does.
pub open spec fn kept<F>(shards: Seq<Samples<F>>, capacity: nat) -> Seq<Samples<F>> {
    shards.skip(shards::evicted(shard_lens(shards), capacity) as int)
}

/// What a buffer holds when shards have been added one after another.
pub open spec fn added<F>(shards: Seq<Samples<F>>, capacity: nat) -> Seq<Samples<F>>
    decreases shards.len(),
{
    if shards.len() == 0 {
        shards
    } else {
        kept(added(shards.drop_last(), capacity).push(shards.last()), capacity)
    }
}

proof fn lemma_sum_skip(lens: Seq<usize>, k: int)
    requires
        0 <= k <= lens.len(),
    ensures
        shards::len_sum(lens.skip(k)) <= shards::len_sum(lens),
    decreases lens.len(),
{
    if k == lens.len() {
        assert(lens.skip(k) =~= Seq::<usize>::empty());
    } else {
        let t = lens.drop_last();
        lemma_sum_skip(t, k);
        assert(t.skip(k).push(lens.last()) =~= lens.skip(k));
        assert(t.push(lens.last()) =~= lens);
        lemma_sum_push(t, lens.last());
        lemma_sum_push(t.skip(k), lens.last());
    }
}

/// A window over the newest samples.
pub struct ReplayBuffer<F> {
    pub capacity: usize,
    pub shards: VecDeque<Samples<F>>,
    pub len: usize,
}

impl<F> ReplayBuffer<F> {
    /// The length is the sum of the shards' lengths.
    pub open spec fn wf(&self) -> bool {
        self.len == shards::len_sum(shard_lens(self.shards@))
    }

    /// An empty buffer.
    pub fn new(capacity: usize) -> (b: ReplayBuffer<F>)
        ensures
            b.wf(),
            b.capacity == capacity,
            b.shards@.len() == 0,
            b.len == 0,
    {
        let b = ReplayBuffer { capacity, shards: VecDeque::new(), len: 0 };
        assert(shard_lens(b.shards@) =~= Seq::<usize>::empty());
        b
    }

    /// Adds a shard, and lets the oldest ones go while the buffer holds more
    /// than its capacity and has another.
    pub fn add(&mut self, samples: Samples<F>)
        requires
            old(self).wf(),
            old(self).len + samples.z@.len() <= usize::MAX,
        ensures
            final(self).wf(),
            final(self).capacity == old(self).capacity,
            final(self).shards@ == kept(old(self).shards@.push(samples), old(self).capacity as nat),
            final(self).shards@.len() >= 1,
            final(self).shards@.last() == samples,
            exists|k: int|
                0 <= k <= old(self).shards@.len() && final(self).shards@ == #[trigger] old(
                    self,
                ).shards@.push(samples).skip(k) && (k > 0 ==> shards::len_sum(
                    shard_lens(old(self).shards@.push(samples).skip(k - 1)),
                ) > old(self).capacity),
            final(self).len <= final(self).capacity || final(self).shards@.len() == 1,
    {
        proof {
            newest_shard_stays(self.shards@, samples, self.capacity as nat);
        }
        let n: usize = samples.len();
        let ghost all = self.shards@.push(samples);
        let ghost cap = self.capacity as nat;
        proof {
            assert(shard_lens(all) =~= shard_lens(self.shards@).push(n));
            lemma_sum_push(shard_lens(self.shards@), n);
        }
        self.len = self.len + n;
        self.shards.push_back(samples);
        let ghost mut gone: nat = 0;
        assert(all.skip(0) =~= all);
        while self.len > self.capacity && self.shards.len() > 1
            invariant
                self.capacity == old(self).capacity,
                cap == self.capacity,
                gone <= all.len(),
                self.shards@ == all.skip(gone as int),
                self.len == shards::len_sum(shard_lens(self.shards@)),
                shards::evicted(shard_lens(all), cap) == gone + shards::evicted(
                    shard_lens(self.shards@),
                    cap,
                ),
            decreases self.shards@.len(),
        {
            let ghost here = self.shards@;
            let ghost lens = shard_lens(here);
            let first = self.shards.pop_front().unwrap();
            let m: usize = first.len();
            proof {
                assert(self.shards@ =~= here.skip(1));
                assert(self.shards@ =~= all.skip(gone as int + 1));
                assert(lens[0] == first.z@.len());
                assert(lens.skip(1) =~= shard_lens(self.shards@));
                gone = gone + 1;
            }
            self.len = self.len - m;
        }
    }

    /// The buffer of a resumed run: the shards that were loaded, added one
    /// after another.
    pub fn restore(capacity: usize, loaded: Vec<Samples<F>>) -> (b: ReplayBuffer<F>)
        requires
            shards::len_sum(shard_lens(loaded@)) <= usize::MAX,
        ensures
            b.wf(),
            b.capacity == capacity,
            b.shards@ == added(loaded@, capacity as nat),
    {
        let ghost all = loaded@;
        let mut loaded = loaded;
        let mut b: ReplayBuffer<F> = ReplayBuffer::new(capacity);
        let ghost mut k: int = 0;
        assert(b.shards@ =~= added(all.take(0), capacity as nat));
        assert(shard_lens(all.take(0)) =~= Seq::<usize>::empty());
        while loaded.len() > 0
            invariant
                0 <= k <= all.len(),
                loaded@ == all.skip(k),
                b.wf(),
                b.capacity == capacity,
                b.shards@ == added(all.take(k), capacity as nat),
                b.len <= shards::len_sum(shard_lens(all.take(k))),
                shards::len_sum(shard_lens(all)) <= usize::MAX,
            decreases loaded@.len(),
        {
            let ghost before = b.shards@;
            assert(loaded@[0] == all[k]);
            let s = loaded.remove(0);
            let n: usize = s.len();
            assert(loaded@ =~= all.skip(k + 1));
            proof {
                let (a, c) = (all.take(k), all.take(k + 1));
                assert(c.drop_last() =~= a);
                assert(shard_lens(c) =~= shard_lens(a).push(n));
                lemma_sum_push(shard_lens(a), n);
                assert(shard_lens(c) =~= shard_lens(all).take(k + 1));
                let lens = shard_lens(all);
                lemma_sum_grows(lens, k + 1, lens.len() as int);
                assert(lens.take(lens.len() as int) =~= lens);
            }
            b.add(s);
            proof {
                let pushed = before.push(s);
                assert(shard_lens(pushed) =~= shard_lens(before).push(n));
                lemma_sum_push(shard_lens(before), n);
                let e = shards::evicted(shard_lens(pushed), capacity as nat);
                shards::eviction_keeps_the_newest(shard_lens(pushed), capacity as nat);
                assert(shard_lens(b.shards@) =~= shard_lens(pushed).skip(e as int));
                lemma_sum_skip(shard_lens(pushed), e as int);
                k = k + 1;
            }
        }
        assert(all.take(k) =~= all);
        b
    }

    /// The number of samples.
    pub fn len(&self) -> (n: usize)
        ensures
            n == self.len,
    {
        self.len
    }

    /// The shard of the buffer's sample `idx`, and its place there.
    pub fn locate(&self, idx: usize) -> (r: Option<(usize, usize)>)
        requires
            self.wf(),
        ensures
            match r {
                Some((k, local)) => is_place(self.shards@, idx as nat, k as int, local as int),
                None => idx >= self.len,
            },
    {
        let n: usize = self.shards.len();
        let mut left: usize = idx;
        let mut k: usize = 0;
        let ghost lens = shard_lens(self.shards@);
        proof {
            assert(lens.take(0) =~= Seq::<usize>::empty());
            assert(lens.take(n as int) =~= lens);
        }
        while k < n
            invariant
                k <= n,
                n == self.shards@.len(),
                lens == shard_lens(self.shards@),
                lens.take(n as int) == lens,
                self.wf(),
                idx == shards::len_sum(lens.take(k as int)) + left,
            decreases n - k,
        {
            let m: usize = self.shards[k].len();
            assert(lens[k as int] == m);
            if left < m {
                return Some((k, left));
            }
            proof {
                lemma_sum_push(lens.take(k as int), m);
                assert(lens.take(k + 1) =~= lens.take(k as int).push(m));
            }
            left = left - m;
            k = k + 1;
        }
        None
    }
}

/// Whether sample `idx` of a list of shards is the one at `local` of shard `k`.
pub open spec fn is_place<F>(shards: Seq<Samples<F>>, idx: nat, k: int, local: int) -> bool {
    &&& 0 <= k < shards.len()
    &&& 0 <= local < shards[k].z@.len()
    &&& idx == shards::len_sum(shard_lens(shards).take(k)) + local
}

proof fn lemma_sum_push(lens: Seq<usize>, n: usize)
    ensures
        shards::len_sum(lens.push(n)) == shards::len_sum(lens) + n,
    decreases lens.len(),
{
    if lens.len() == 0 {
        assert(lens.push(n).skip(1) =~= lens);
        assert(shards::len_sum(lens) == 0);
    } else {
        lemma_sum_push(lens.skip(1), n);
        assert(lens.push(n).skip(1) =~= lens.skip(1).push(n));
    }
}

proof fn lemma_sum_grows(lens: Seq<usize>, a: int, b: int)
    requires
        0 <= a <= b <= lens.len(),
    ensures
        shards::len_sum(lens.take(a)) <= shards::len_sum(lens.take(b)),
    decreases b - a,
{
    if a < b {
        lemma_sum_grows(lens, a, b - 1);
        lemma_sum_push(lens.take(b - 1), lens[b - 1]);
        assert(lens.take(b) =~= lens.take(b - 1).push(lens[b - 1]));
    }
}

/// Every sample of a buffer has one place only.
pub proof fn place_is_unique<F>(
    shards: Seq<Samples<F>>,
    idx: nat,
    k: int,
    local: int,
    k2: int,
    local2: int,
)
    requires
        forall|i: int| 0 <= i < shards.len() ==> (#[trigger] shards[i]).z@.len() <= usize::MAX,
        is_place(shards, idx, k, local),
        is_place(shards, idx, k2, local2),
    ensures
        k == k2,
        local == local2,
{
    let lens = shard_lens(shards);
    assert(lens[k] == shards[k].z@.len());
    assert(lens[k2] == shards[k2].z@.len());
    if k < k2 {
        lemma_sum_push(lens.take(k), lens[k]);
        assert(lens.take(k + 1) =~= lens.take(k).push(lens[k]));
        lemma_sum_grows(lens, k + 1, k2);
    } else if k2 < k {
        lemma_sum_push(lens.take(k2), lens[k2]);
        assert(lens.take(k2 + 1) =~= lens.take(k2).push(lens[k2]));
        lemma_sum_grows(lens, k2 + 1, k);
    }
}

/// After a shard is added it is in the buffer, the shards are the newest ones
/// in their order, they fit the capacity unless only the new one is left, and
/// with the last one that left they would not.
pub proof fn newest_shard_stays<F>(shards: Seq<Samples<F>>, new: Samples<F>, capacity: nat)
    ensures
        ({
            let all = shards.push(new);
            let r = kept(all, capacity);
            &&& r.len() >= 1
            &&& r.last() == new
            &&& exists|k: int|
                0 <= k <= shards.len() && r == #[trigger] all.skip(k) && (k > 0
                    ==> shards::len_sum(shard_lens(all.skip(k - 1))) > capacity)
            &&& shards::len_sum(shard_lens(r)) <= capacity || r.len() == 1
        }),
{
    let all = shards.push(new);
    let lens = shard_lens(all);
    shards::eviction_keeps_the_newest(lens, capacity);
    let e = shards::evicted(lens, capacity);
    assert(all.skip(e as int).last() == new);
    assert(shard_lens(kept(all, capacity)) =~= lens.skip(e as int));
    if e > 0 {
        assert(shard_lens(all.skip(e - 1)) =~= lens.skip(e - 1));
    }
}

proof fn lemma_nothing_leaves<F>(shards: Seq<Samples<F>>, capacity: nat)
    requires
        shards::len_sum(shard_lens(shards)) <= capacity || shards.len() <= 1,
    ensures
        added(shards, capacity) == shards,
    decreases shards.len(),
{
    if shards.len() > 0 {
        let rest = shards.drop_last();
        let lens = shard_lens(shards);
        if shards.len() > 1 {
            lemma_sum_push(shard_lens(rest), lens.last());
            assert(shard_lens(rest).push(lens.last()) =~= lens);
        }
        lemma_nothing_leaves(rest, capacity);
        assert(rest.push(shards.last()) =~= shards);
        assert(shards.skip(0) =~= shards);
    }
}

/// A run that resumes has the buffer that it had: restoring the shards that a
/// buffer kept, whatever was added to it before, gives those shards again.
pub proof fn restored_buffer_is_the_same<F>(shards: Seq<Samples<F>>, capacity: nat)
    ensures
        added(added(shards, capacity), capacity) == added(shards, capacity),
{
    if shards.len() > 0 {
        newest_shard_stays(added(shards.drop_last(), capacity), shards.last(), capacity);
    }
    lemma_nothing_leaves(added(shards, capacity), capacity);
}

/// The shards on disk and those in memory are evicted alike: with the same
/// lengths the same number of the oldest leave.
pub proof fn disk_mirrors_memory<F>(shards: Seq<Samples<F>>, on_disk: Seq<usize>, capacity: nat)
    requires
        on_disk == shard_lens(shards),
    ensures
        shard_lens(kept(shards, capacity)) == on_disk.skip(
            shards::evicted(on_disk, capacity) as int,
        ),
{
    let e = shards::evicted(on_disk, capacity);
    shards::eviction_keeps_the_newest(on_disk, capacity);
    assert(shard_lens(kept(shards, capacity)) =~= on_disk.skip(e as int));
}

/// The index of a sample counted from the newest one; a count beyond the
/// oldest one means the oldest.
pub fn index_from_end(len: usize, from_end: usize) -> (idx: usize)
    ensures
        len > 0 ==> idx < len && idx == if from_end < len {
            len - 1 - from_end
        } else {
            0
        },
        len == 0 ==> idx == 0,
{
    let top: usize = len.saturating_sub(1);
    let back: usize = if from_end < top { from_end } else { top };
    top.saturating_sub(back)
}

/// The sum and the number of the turns in a list.
pub open spec fn turn_sum(turns: Seq<u32>) -> nat
    decreases turns.len(),
{
    if turns.len() == 0 {
        0
    } else {
        turn_sum(turns.drop_last()) + turns.last() as nat
    }
}

/// The sum of the turns of all samples in a list of shards.
pub open spec fn all_turn_sum<F>(shards: Seq<Samples<F>>) -> nat
    decreases shards.len(),
{
    if shards.len() == 0 {
        0
    } else {
        all_turn_sum(shards.drop_last()) + turn_sum(shards.last().turn@)
    }
}

/// The number of the turns in a list of shards.
pub open spec fn all_turn_count<F>(shards: Seq<Samples<F>>) -> nat
    decreases shards.len(),
{
    if shards.len() == 0 {
        0
    } else {
        all_turn_count(shards.drop_last()) + shards.last().turn@.len()
    }
}

proof fn lemma_turns_grow<F>(shards: Seq<Samples<F>>, k: int)
    requires
        0 <= k <= shards.len(),
    ensures
        all_turn_sum(shards.take(k)) <= all_turn_sum(shards),
        all_turn_count(shards.take(k)) <= all_turn_count(shards),
    decreases shards.len(),
{
    if k < shards.len() {
        lemma_turns_grow(shards.drop_last(), k);
        assert(shards.drop_last().take(k) =~= shards.take(k));
    } else {
        assert(shards.take(k) =~= shards);
    }
}

proof fn lemma_turn_sum_grows(turns: Seq<u32>, k: int)
    requires
        0 <= k <= turns.len(),
    ensures
        turn_sum(turns.take(k)) <= turn_sum(turns),
    decreases turns.len(),
{
    if k < turns.len() {
        lemma_turn_sum_grows(turns.drop_last(), k);
        assert(turns.drop_last().take(k) =~= turns.take(k));
    } else {
        assert(turns.take(k) =~= turns);
    }
}

impl<F> ReplayBuffer<F> {
    /// The sum and the number of the turns of all samples; their quotient is
    /// the average turn, zero where there are none.
    pub fn avg_turn(&self) -> (r: (u64, u64))
        requires
            all_turn_sum(self.shards@) <= u64::MAX,
            all_turn_count(self.shards@) <= u64::MAX,
        ensures
            r.0 == all_turn_sum(self.shards@),
            r.1 == all_turn_count(self.shards@),
    {
        let mut sum: u64 = 0;
        let mut count: u64 = 0;
        let n: usize = self.shards.len();
        let mut k: usize = 0;
        assert(self.shards@.take(0) =~= Seq::<Samples<F>>::empty());
        while k < n
            invariant
                k <= n,
                n == self.shards@.len(),
                all_turn_sum(self.shards@) <= u64::MAX,
                all_turn_count(self.shards@) <= u64::MAX,
                sum == all_turn_sum(self.shards@.take(k as int)),
                count == all_turn_count(self.shards@.take(k as int)),
            decreases n - k,
        {
            let s = &self.shards[k];
            let ghost (sum0, count0) = (sum, count);
            proof {
                assert(self.shards@.take(k + 1).drop_last() =~= self.shards@.take(k as int));
                lemma_turns_grow(self.shards@, k + 1);
            }
            let m: usize = s.turn.len();
            let mut i: usize = 0;
            assert(s.turn@.take(0) =~= Seq::<u32>::empty());
            while i < m
                invariant
                    i <= m,
                    m == s.turn@.len(),
                    count0 + m <= u64::MAX,
                    sum0 + turn_sum(s.turn@) <= u64::MAX,
                    sum == sum0 + turn_sum(s.turn@.take(i as int)),
                    count == count0 + i,
                decreases m - i,
            {
                assert(s.turn@.take(i + 1).drop_last() =~= s.turn@.take(i as int));
                proof {
                    lemma_turn_sum_grows(s.turn@, i + 1);
                }
                sum = sum + s.turn[i] as u64;
                count = count + 1;
                i = i + 1;
            }
            assert(s.turn@.take(i as int) =~= s.turn@);
            k = k + 1;
        }
        assert(self.shards@.take(k as int) =~= self.shards@);
        (sum, count)
    }
}

/// Whether the samples `out` are those of a list of shards at `idxs`, one after
/// the other.
pub open spec fn are_samples_at<F>(
    shards: Seq<Samples<F>>,
    idxs: Seq<usize>,
    w: nat,
    obs: Seq<F>,
    pol: Seq<F>,
    z: Seq<F>,
) -> bool {
    &&& obs.len() == idxs.len() * w
    &&& pol.len() == idxs.len() * 4
    &&& z.len() == idxs.len()
    &&& forall|b: int|
        0 <= b < idxs.len() ==> #[trigger] is_sample_at(shards, idxs[b] as nat, w, obs, pol, z, b)
}

/// Whether row `b` of the given lists is sample `idx` of a list of shards.
pub open spec fn is_sample_at<F>(
    shards: Seq<Samples<F>>,
    idx: nat,
    w: nat,
    obs: Seq<F>,
    pol: Seq<F>,
    z: Seq<F>,
    b: int,
) -> bool {
    exists|k: int, local: int| #[trigger]
        is_place(shards, idx, k, local) && z[b] == shards[k].z@[local] && obs.subrange(
            b * w,
            b * w + w,
        ) == shards[k].obs@.subrange(local * w, local * w + w) && pol.subrange(b * 4, b * 4 + 4)
            == shards[k].pol@.subrange(local * 4, local * 4 + 4)
}

/// The temperatures of the samples at `idxs`, where their shards have any.
pub open spec fn temps_at<F>(shards: Seq<Samples<F>>, places: Seq<(int, int)>) -> Seq<F>
    decreases places.len(),
{
    if places.len() == 0 {
        Seq::empty()
    } else {
        let rest = temps_at(shards, places.drop_last());
        let (k, local) = places.last();
        if shards[k].temp@.len() > 0 {
            rest.push(shards[k].temp@[local])
        } else {
            rest
        }
    }
}

impl<F: Copy> ReplayBuffer<F> {
    /// The samples at `idxs`, in that order; `None` for an empty buffer or an
    /// index beyond it. All shards have the first one's shape.
    pub fn gather(&self, idxs: &Vec<usize>) -> (r: Option<Samples<F>>)
        requires
            self.wf(),
            forall|k: int|
                0 <= k < self.shards@.len() ==> (#[trigger] self.shards@[k]).wf()
                    && self.shards@[k].obs_shape == self.shards@[0].obs_shape,
            self.shards@.len() > 0 ==> self.shards@[0].obs_shape@[1]
                * self.shards@[0].obs_shape@[2] <= usize::MAX,
        ensures
            r is Some <==> self.shards@.len() > 0 && forall|b: int|
                0 <= b < idxs@.len() ==> #[trigger] idxs@[b] < self.len,
            r matches Some(s) ==> {
                &&& s.obs_shape == self.shards@[0].obs_shape
                &&& s.turn@.len() == 0
                &&& s.turns == 0
                &&& s.games == 0
                &&& are_samples_at(
                    self.shards@,
                    idxs@,
                    shape_size(s.obs_shape),
                    s.obs@,
                    s.pol@,
                    s.z@,
                )
                &&& exists|places: Seq<(int, int)>| #[trigger]
                    are_places(self.shards@, idxs@, places) && s.temp@ == temps_at(
                        self.shards@,
                        places,
                    )
            },
    {
        if self.shards.len() == 0 {
            return None;
        }
        let ghost all = self.shards@;
        let shape: [usize; 3] = self.shards[0].obs_shape;
        assert(all[0].wf());
        let w: usize = self.shards[0].obs_len();
        let mut obs: Vec<F> = Vec::new();
        let mut pol: Vec<F> = Vec::new();
        let mut z: Vec<F> = Vec::new();
        let mut temp: Vec<F> = Vec::new();
        let ghost mut places: Seq<(int, int)> = Seq::empty();
        let mut b: usize = 0;
        assert(0 * w == 0) by (nonlinear_arith);
        assert(idxs@.take(0) =~= Seq::<usize>::empty());
        while b < idxs.len()
            invariant
                b <= idxs@.len(),
                self.wf(),
                all == self.shards@,
                all.len() > 0,
                shape == all[0].obs_shape,
                w == shape_size(shape),
                forall|k: int|
                    0 <= k < all.len() ==> (#[trigger] all[k]).wf() && all[k].obs_shape == shape,
                forall|j: int| 0 <= j < b ==> #[trigger] idxs@[j] < self.len,
                are_samples_at(all, idxs@.take(b as int), w as nat, obs@, pol@, z@),
                are_places(all, idxs@.take(b as int), places),
                temp@ == temps_at(all, places),
            decreases idxs@.len() - b,
        {
            let (k, local): (usize, usize) = match self.locate(idxs[b]) {
                Some(place) => place,
                None => {
                    return None;
                },
            };
            let s = &self.shards[k];
            assert(all[k as int].wf());
            let ghost (obs0, pol0, z0, places0) = (obs@, pol@, z@, places);
            let len: usize = s.obs.len();
            let rows: usize = s.z.len();
            proof {
                lemma_row_fits(local as int, s.z@.len() as int, w as int);
                lemma_row_fits(local as int, s.z@.len() as int, 4);
                lemma_place_in_buffer(self, idxs@[b as int] as nat, k as int, local as int);
            }
            let plen: usize = s.pol.len();
            lists::append_range(&mut obs, &s.obs, local * w, w);
            lists::append_range(&mut pol, &s.pol, local * 4, 4);
            z.push(s.z[local]);
            if s.temp.len() > 0 {
                temp.push(s.temp[local]);
            }
            proof {
                places = places.push((k as int, local as int));
                assert(places.drop_last() =~= places0);
                let now = idxs@.take(b + 1);
                assert forall|j: int| 0 <= j < now.len() implies #[trigger] is_sample_at(
                    all,
                    now[j] as nat,
                    w as nat,
                    obs@,
                    pol@,
                    z@,
                    j,
                ) by {
                    if j < b {
                        assert(idxs@.take(b as int)[j] == now[j]);
                        assert(is_sample_at(
                            all,
                            idxs@.take(b as int)[j] as nat,
                            w as nat,
                            obs0,
                            pol0,
                            z0,
                            j,
                        ));
                        lemma_row_fits(j, b as int, w as int);
                        assert(obs@.subrange(j * w, j * w + w) =~= obs0.subrange(j * w, j * w + w));
                        assert(pol@.subrange(j * 4, j * 4 + 4) =~= pol0.subrange(j * 4, j * 4 + 4));
                        let (k1, l1) = choose|k1: int, l1: int| #[trigger]
                            is_place(all, now[j] as nat, k1, l1) && z0[j] == all[k1].z@[l1]
                                && obs0.subrange(j * w, j * w + w) == all[k1].obs@.subrange(
                                l1 * w,
                                l1 * w + w,
                            ) && pol0.subrange(j * 4, j * 4 + 4) == all[k1].pol@.subrange(
                                l1 * 4,
                                l1 * 4 + 4,
                            );
                        assert(is_place(all, now[j] as nat, k1, l1));
                    } else {
                        assert(is_place(all, now[j] as nat, k as int, local as int));
                        assert(obs0.len() == b * w);
                        assert(obs@.subrange(b * w, b * w + w) =~= s.obs@.subrange(
                            local * w,
                            local * w + w,
                        ));
                        assert(pol@.subrange(b * 4, b * 4 + 4) =~= s.pol@.subrange(
                            local * 4,
                            local * 4 + 4,
                        ));
                    }
                }
                assert((b + 1) * w == b * w + w) by (nonlinear_arith);
                assert forall|j: int| 0 <= j < now.len() implies #[trigger] is_place(
                    all,
                    now[j] as nat,
                    places[j].0,
                    places[j].1,
                ) by {
                    if j < b {
                        assert(is_place(
                            all,
                            idxs@.take(b as int)[j] as nat,
                            places0[j].0,
                            places0[j].1,
                        ));
                    }
                }
            }
            b = b + 1;
        }
        assert(idxs@.take(b as int) =~= idxs@);
        let s = Samples { obs, pol, z, turn: Vec::new(), temp, obs_shape: shape, turns: 0, games: 0 };
        assert(are_places(self.shards@, idxs@, places));
        Some(s)
    }

    /// Whether a batch can be drawn: every shard is whole, and all have the shape
    /// of the first.
    pub fn is_whole(&self) -> (r: bool)
        ensures
            r == forall|k: int|
                0 <= k < self.shards@.len() ==> (#[trigger] self.shards@[k]).wf()
                    && self.shards@[k].obs_shape@[1] * self.shards@[k].obs_shape@[2] <= usize::MAX
                    && self.shards@[k].obs_shape == self.shards@[0].obs_shape,
    {
        let n: usize = self.shards.len();
        let mut i: usize = 0;
        while i < n
            invariant
                i <= n,
                n == self.shards@.len(),
                forall|k: int|
                    0 <= k < i ==> (#[trigger] self.shards@[k]).wf()
                        && self.shards@[k].obs_shape@[1] * self.shards@[k].obs_shape@[2]
                        <= usize::MAX && self.shards@[k].obs_shape == self.shards@[0].obs_shape,
            decreases n - i,
        {
            let (a, b) = (self.shards[i].obs_shape, self.shards[0].obs_shape);
            if a[0] != b[0] || a[1] != b[1] || a[2] != b[2] || !self.shards[i].is_whole() {
                assert(!(self.shards@[i as int].wf() && self.shards@[i as int].obs_shape@[1]
                    * self.shards@[i as int].obs_shape@[2] <= usize::MAX
                    && self.shards@[i as int].obs_shape == self.shards@[0].obs_shape));
                return false;
            }
            assert(a =~= b);
            i = i + 1;
        }
        true
    }

    /// A training batch: the samples at `idxs`, each turned by a symmetry of
    /// its own, drawn at random.
    pub fn sample_batch(&self, idxs: &Vec<usize>, rng: &mut Xoshiro256PlusPlus) -> (r: Option<
        Samples<F>,
    >)
        requires
            self.wf(),
            forall|k: int|
                0 <= k < self.shards@.len() ==> (#[trigger] self.shards@[k]).wf()
                    && self.shards@[k].obs_shape == self.shards@[0].obs_shape,
            self.shards@.len() > 0 ==> self.shards@[0].obs_shape@[1]
                * self.shards@[0].obs_shape@[2] <= usize::MAX,
        ensures
            r is Some <==> self.shards@.len() > 0 && forall|b: int|
                0 <= b < idxs@.len() ==> #[trigger] idxs@[b] < self.len,
            r matches Some(s) ==> exists|obs: Seq<F>, pol: Seq<F>| #[trigger]
                is_batch_of(self.shards@, idxs@, obs, pol, s),
    {
        match self.gather(idxs) {
            Some(s) => {
                let mut s = s;
                let ghost (obs0, pol0) = (s.obs@, s.pol@);
                d4::apply_random_d4(&mut s.obs, &mut s.pol, idxs.len(), s.obs_shape, rng);
                assert(is_turned_batch(obs0, pol0, s.obs_shape, idxs@.len(), s.obs@, s.pol@));
                let r = Some(s);
                assert(is_batch_of(self.shards@, idxs@, obs0, pol0, r->0));
                r
            },
            None => None,
        }
    }
}

/// Whether `s` is the batch of the samples `idxs`, whose observations and
/// policies were `obs` and `pol` before they were turned.
pub open spec fn is_batch_of<F>(
    shards: Seq<Samples<F>>,
    idxs: Seq<usize>,
    obs: Seq<F>,
    pol: Seq<F>,
    s: Samples<F>,
) -> bool {
    &&& s.obs_shape == shards[0].obs_shape
    &&& s.turn@.len() == 0
    &&& s.turns == 0
    &&& s.games == 0
    &&& are_samples_at(shards, idxs, shape_size(s.obs_shape), obs, pol, s.z@)
    &&& is_turned_batch(obs, pol, s.obs_shape, idxs.len(), s.obs@, s.pol@)
    &&& exists|places: Seq<(int, int)>| #[trigger]
        are_places(shards, idxs, places) && s.temp@ == temps_at(shards, places)
}

/// Whether `obs` and `pol` are a batch turned sample by sample; a board that is
/// not square stays as it is.
pub open spec fn is_turned_batch<F>(
    obs0: Seq<F>,
    pol0: Seq<F>,
    shape: [usize; 3],
    batch: nat,
    obs: Seq<F>,
    pol: Seq<F>,
) -> bool {
    if shape@[1] != shape@[2] {
        obs == obs0 && pol == pol0
    } else {
        exists|ts: Seq<usize>| #[trigger]
            d4::are_symmetries(ts, batch) && obs == d4::turned_obs(
                obs0,
                ts,
                shape@[0] as int,
                shape@[1] as int,
            ) && d4::is_turned_pol(pol0, ts, pol)
    }
}

/// Whether `places` are the places of the samples `idxs`.
pub open spec fn are_places<F>(
    shards: Seq<Samples<F>>,
    idxs: Seq<usize>,
    places: Seq<(int, int)>,
) -> bool {
    places.len() == idxs.len() && forall|j: int|
        0 <= j < idxs.len() ==> #[trigger] is_place(
            shards,
            idxs[j] as nat,
            places[j].0,
            places[j].1,
        )
}

proof fn lemma_row_fits(r: int, len: int, w: int)
    requires
        0 <= r < len,
        w >= 0,
    ensures
        0 <= r * w,
        r * w + w <= len * w,
{
    assert(0 <= r * w && r * w + w <= len * w) by (nonlinear_arith)
        requires
            0 <= r,
            r + 1 <= len,
            w >= 0,
    ;
}

proof fn lemma_place_in_buffer<F>(b: &ReplayBuffer<F>, idx: nat, k: int, local: int)
    requires
        b.wf(),
        b.shards@[k].z@.len() <= usize::MAX,
        is_place(b.shards@, idx, k, local),
    ensures
        idx < b.len,
{
    let lens = shard_lens(b.shards@);
    assert(lens[k] == b.shards@[k].z@.len());
    lemma_sum_push(lens.take(k), lens[k]);
    assert(lens.take(k + 1) =~= lens.take(k).push(lens[k]));
    lemma_sum_grows(lens, k + 1, lens.len() as int);
    assert(lens.take(lens.len() as int) =~= lens);
}

/// A batch keeps samples together: each of its entries is one sample of the buffer,
/// turned as a whole. One symmetry takes every number of its observation from its
/// cell to the image of the cell, in the same plane, and what the policy gave to a
/// game move to the game move that leads the same way on the turned board; the
/// value target is the sample's own.
pub proof fn batches_turn_whole_samples<F>(
    shards: Seq<Samples<F>>,
    idxs: Seq<usize>,
    obs: Seq<F>,
    pol: Seq<F>,
    s: Samples<F>,
    b: int,
) -> (r: (int, int, usize))
    requires
        is_batch_of(shards, idxs, obs, pol, s),
        s.obs_shape@[1] == s.obs_shape@[2],
        0 <= b < idxs.len(),
        forall|k: int|
            0 <= k < shards.len() ==> (#[trigger] shards[k]).wf() && shards[k].obs_shape
                == s.obs_shape,
    ensures
        is_place(shards, idxs[b] as nat, r.0, r.1),
        r.2 < 8,
        s.z@[b] == shards[r.0].z@[r.1],
        forall|ch: int, y: int, x: int|
            #![trigger shards[r.0].obs@[r.1 * (s.obs_shape@[0] * (s.obs_shape@[1] * s.obs_shape@[1]))
                + ch * (s.obs_shape@[1] * s.obs_shape@[1]) + y * s.obs_shape@[1] + x]]
            0 <= ch < s.obs_shape@[0] && 0 <= y < s.obs_shape@[1] && 0 <= x < s.obs_shape@[1] ==> {
                let h = s.obs_shape@[1] as int;
                let (plane, sample) = (h * h, s.obs_shape@[0] * (h * h));
                let (iy, ix) = d4::image(r.2 as nat, y, x, h);
                s.obs@[b * sample + ch * plane + iy * h + ix] == shards[r.0].obs@[r.1 * sample + ch
                    * plane + y * h + x]
            },
        forall|m: int, to: int, y: int, x: int, n: int|
            #![trigger rules::nth_move(m), rules::nth_move(to), d4::image(r.2 as nat, y, x, n)]
            0 <= m < 4 && 0 <= to < 4 && d4::image(
                r.2 as nat,
                y + rules::nth_move(m).dy(),
                x + rules::nth_move(m).dx(),
                n,
            ) == (
                d4::image(r.2 as nat, y, x, n).0 + rules::nth_move(to).dy(),
                d4::image(r.2 as nat, y, x, n).1 + rules::nth_move(to).dx(),
            ) ==> s.pol@[b * 4 + to] == shards[r.0].pol@[r.1 * 4 + m],
{
    let h = s.obs_shape@[1] as int;
    let c = s.obs_shape@[0] as int;
    let w = shape_size(s.obs_shape);
    let ts = choose|ts: Seq<usize>| #[trigger]
        d4::are_symmetries(ts, idxs.len()) && s.obs@ == d4::turned_obs(obs, ts, c, h)
            && d4::is_turned_pol(pol, ts, s.pol@);
    let t = ts[b];
    assert(is_sample_at(shards, idxs[b] as nat, w, obs, pol, s.z@, b));
    let (k, local) = choose|k: int, local: int| #[trigger]
        is_place(shards, idxs[b] as nat, k, local) && s.z@[b] == shards[k].z@[local]
            && obs.subrange(b * w, b * w + w) == shards[k].obs@.subrange(
            local * w,
            local * w + w,
        ) && pol.subrange(b * 4, b * 4 + 4) == shards[k].pol@.subrange(local * 4, local * 4 + 4);
    assert(shards[k].wf());
    lemma_row_fits(local, shards[k].z@.len() as int, w as int);
    lemma_row_fits(b, idxs.len() as int, w as int);
    assert(w == c * (h * h));
    assert(idxs.len() * w == ts.len() * (c * (h * h)));
    let (plane, sample) = (h * h, c * (h * h));
    assert forall|ch: int, y: int, x: int|
        #![trigger shards[k].obs@[local * (s.obs_shape@[0] * (s.obs_shape@[1] * s.obs_shape@[1]))
            + ch * (s.obs_shape@[1] * s.obs_shape@[1]) + y * s.obs_shape@[1] + x]]
        0 <= ch < s.obs_shape@[0] && 0 <= y < s.obs_shape@[1] && 0 <= x < s.obs_shape@[1] implies {
        let (iy, ix) = d4::image(t as nat, y, x, h);
        s.obs@[b * sample + ch * plane + iy * h + ix] == shards[k].obs@[local * sample + ch * plane
            + y * h + x]
    } by {
        d4::numbers_go_where_their_cells_go(obs, ts, c, h, b, ch, y, x);
        let at = ch * plane + y * h + x;
        assert(0 <= at < sample) by (nonlinear_arith)
            requires
                at == ch * plane + y * h + x,
                plane == h * h,
                sample == c * (h * h),
                0 <= ch < c,
                0 <= y < h,
                0 <= x < h,
        ;
        assert(obs.subrange(b * w, b * w + w)[at] == obs[b * w + at]);
        assert(shards[k].obs@.subrange(local * w, local * w + w)[at] == shards[k].obs@[local * w
            + at]);
    }
    assert forall|m: int, to: int, y: int, x: int, n: int|
        #![trigger rules::nth_move(m), rules::nth_move(to), d4::image(t as nat, y, x, n)]
        0 <= m < 4 && 0 <= to < 4 && d4::image(
            t as nat,
            y + rules::nth_move(m).dy(),
            x + rules::nth_move(m).dx(),
            n,
        ) == (
            d4::image(t as nat, y, x, n).0 + rules::nth_move(to).dy(),
            d4::image(t as nat, y, x, n).1 + rules::nth_move(to).dx(),
        ) implies s.pol@[b * 4 + to] == shards[k].pol@[local * 4 + m] by {
        d4::policies_turn_with_their_boards(pol, ts, s.pol@, b, y, x, n, m, to);
        assert(pol.subrange(b * 4, b * 4 + 4)[m] == pol[b * 4 + m]);
        assert(shards[k].pol@.subrange(local * 4, local * 4 + 4)[m] == shards[k].pol@[local * 4
            + m]);
    }
    (k, local, t)
}

/// Turns add up sample by sample and shard by shard.
pub proof fn turns_are_averaged_over_samples<F>(
    shards: Seq<Samples<F>>,
    s: Samples<F>,
    turns: Seq<u32>,
    t: u32,
)
    ensures
        all_turn_sum(shards.push(s)) == all_turn_sum(shards) + turn_sum(s.turn@),
        all_turn_count(shards.push(s)) == all_turn_count(shards) + s.turn@.len(),
        turn_sum(turns.push(t)) == turn_sum(turns) + t,
        turn_sum(Seq::<u32>::empty()) == 0,
        all_turn_sum(Seq::<Samples<F>>::empty()) == 0,
        all_turn_count(Seq::<Samples<F>>::empty()) == 0,
{
    assert(shards.push(s).drop_last() =~= shards);
    assert(turns.push(t).drop_last() =~= turns);
}

/// A sample's place counts all samples of the shards before its own.
pub proof fn samples_are_counted_from_the_oldest<F>(shards: Seq<Samples<F>>, k: int, local: int)
    requires
        0 <= k < shards.len(),
        0 <= local < shards[k].z@.len(),
        forall|i: int| 0 <= i < shards.len() ==> (#[trigger] shards[i]).z@.len() <= usize::MAX,
    ensures
        k == 0 ==> is_place(shards, local as nat, k, local),
        forall|idx: nat|
            #![trigger is_place(shards, idx, k, local)]
            k > 0 && is_place(shards, idx, k, local) ==> idx >= shards[k - 1].z@.len() + local,
{
    let lens = shard_lens(shards);
    if k == 0 {
        assert(lens.take(0) =~= Seq::<usize>::empty());
    } else {
        assert(lens.take(k) =~= lens.take(k - 1).push(lens[k - 1]));
        lemma_sum_push(lens.take(k - 1), lens[k - 1]);
        assert(shards[k - 1].z@.len() <= usize::MAX);
    }
}

/// A batch has its samples' own temperatures, where all shards have them.
pub proof fn temperatures_stay_with_their_samples<F>(
    shards: Seq<Samples<F>>,
    places: Seq<(int, int)>,
)
    requires
        forall|i: int|
            0 <= i < places.len() ==> shards[(#[trigger] places[i]).0].temp@.len() > 0,
    ensures
        temps_at(shards, places).len() == places.len(),
        forall|i: int|
            0 <= i < places.len() ==> #[trigger] temps_at(shards, places)[i]
                == shards[places[i].0].temp@[places[i].1],
    decreases places.len(),
{
    if places.len() > 0 {
        let rest = places.drop_last();
        assert forall|i: int| 0 <= i < rest.len() implies shards[(
        #[trigger] rest[i]).0].temp@.len() > 0 by {
            assert(rest[i] == places[i]);
        }
        temperatures_stay_with_their_samples(shards, rest);
        assert(shards[places[places.len() - 1].0].temp@.len() > 0);
    }
}

} // verus!
