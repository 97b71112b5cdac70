//! The evaluation league: who is in the pool, who plays next, and what is kept
//! of finished games.

use std::collections::HashMap;

use vstd::prelude::*;
use vstd::string::*;

use crate::burst::MatchRecord;
use crate::lists;
use crate::order;
use crate::placing::Placement;
use crate::rankings;
use crate::registry::{self, ExternalPlayer, ExternalRegistry};
use crate::state;
use crate::stations;
use crate::text;

verus! {

/// Recorded games kept on disk.
pub const KEEP_GAME_FILES: usize = 200;

/// The players of a game's seats.
pub open spec fn seat_gens(ps: Seq<Placement>) -> Seq<u32> {
    ps.map_values(|p: Placement| p.gen)
}

/// The distinct players of a game, ascending.
pub fn participants(ps: &Vec<Placement>) -> (r: Vec<u32>)
    ensures
        order::is_sorted_set(seat_gens(ps@), r@),
{
    let mut gens: Vec<u32> = Vec::new();
    let mut i: usize = 0;
    while i < ps.len()
        invariant
            i <= ps@.len(),
            gens@ == seat_gens(ps@).take(i as int),
        decreases ps@.len() - i,
    {
        gens.push(ps[i].gen);
        i = i + 1;
        assert(gens@ =~= seat_gens(ps@).take(i as int));
    }
    assert(gens@ =~= seat_gens(ps@));
    order::sorted_set(&gens)
}

/// In how many games a player took part.
pub open spec fn career<F>(records: Seq<MatchRecord<F>>, gen: u32) -> nat
    decreases records.len(),
{
    if records.len() == 0 {
        0
    } else {
        career(records.drop_last(), gen) + if seat_gens(records.last().placements@).contains(gen) {
            1nat
        } else {
            0nat
        }
    }
}

proof fn lemma_career_bound<F>(records: Seq<MatchRecord<F>>, gen: u32)
    ensures
        career(records, gen) <= records.len(),
    decreases records.len(),
{
    if records.len() > 0 {
        lemma_career_bound(records.drop_last(), gen);
    }
}

/// In how many games each player took part.
pub fn career_counts<F>(records: &Vec<MatchRecord<F>>) -> (counts: HashMap<u32, u32>)
    requires
        records@.len() <= u32::MAX,
    ensures
        forall|g: u32| #[trigger] stations::count_of(counts@, g) == career(records@, g),
{
    broadcast use vstd::std_specs::hash::group_hash_axioms;

    let mut counts: HashMap<u32, u32> = HashMap::new();
    let mut i: usize = 0;
    assert(records@.take(0) =~= Seq::<MatchRecord<F>>::empty());
    while i < records.len()
        invariant
            i <= records@.len(),
            records@.len() <= u32::MAX,
            forall|g: u32| #[trigger]
                stations::count_of(counts@, g) == career(records@.take(i as int), g),
        decreases records@.len() - i,
    {
        let ps = participants(&records[i].placements);
        let ghost before = counts@;
        proof {
            assert(records@.take(i + 1).drop_last() =~= records@.take(i as int));
            assert forall|g: u32| #[trigger] stations::count_of(counts@, g)
                + stations::occurrences(ps@, g) <= u32::MAX by {
                lemma_career_bound(records@.take(i as int), g);
                lemma_once(ps@, g);
            }
        }
        stations::count_up(&mut counts, &ps);
        proof {
            assert forall|g: u32| #[trigger] stations::count_of(counts@, g) == career(
                records@.take(i + 1),
                g,
            ) by {
                assert(stations::count_of(before, g) == career(records@.take(i as int), g));
                lemma_once(ps@, g);
                assert(ps@.contains(g) <==> seat_gens(records@[i as int].placements@).contains(g));
            }
        }
        i = i + 1;
    }
    assert(records@.take(i as int) =~= records@);
    counts
}

/// How many games each of a pool counts for when the next ones are drawn: those
/// on record and those in `extra`, which are planned and not yet played.
pub fn counts_with<F>(
    pool: &Vec<u32>,
    records: &Vec<MatchRecord<F>>,
    extra: &HashMap<u32, u32>,
) -> (counts: Vec<u64>)
    requires
        records@.len() <= u32::MAX,
    ensures
        counts@ == Seq::new(
            pool@.len(),
            |i: int| (career(records@, pool@[i]) + stations::count_of(extra@, pool@[i])) as u64,
        ),
{
    let on_record = career_counts(records);
    let mut counts: Vec<u64> = Vec::new();
    let mut i: usize = 0;
    while i < pool.len()
        invariant
            i <= pool@.len(),
            forall|g: u32| #[trigger] stations::count_of(on_record@, g) == career(records@, g),
            counts@ == Seq::new(
                i as nat,
                |i: int| (career(records@, pool@[i]) + stations::count_of(extra@, pool@[i])) as u64,
            ),
        decreases pool@.len() - i,
    {
        let g: u32 = pool[i];
        let a: u32 = stations::count_for(&on_record, g);
        let b: u32 = stations::count_for(extra, g);
        counts.push(a as u64 + b as u64);
        i = i + 1;
        assert(counts@ =~= Seq::new(
            i as nat,
            |i: int| (career(records@, pool@[i]) + stations::count_of(extra@, pool@[i])) as u64,
        ));
    }
    counts
}

/// In an ascending list a value occurs once or not at all.
proof fn lemma_once(s: Seq<u32>, g: u32)
    requires
        order::ascending(s),
    ensures
        stations::occurrences(s, g) == if s.contains(g) {
            1nat
        } else {
            0nat
        },
    decreases s.len(),
{
    if s.len() > 0 {
        let t = s.drop_last();
        lemma_once(t, g);
        order::lemma_contains_last(s, g);
        if t.contains(g) {
            let k = choose|k: int| 0 <= k < t.len() && t[k] == g;
            assert(s[k] < s[s.len() - 1]);
        }
    }
}

/// The number between a prefix and a suffix of a name.
pub open spec fn number_between(
    name: Seq<char>,
    prefix: Seq<char>,
    suffix: Seq<char>,
    max: nat,
) -> Option<nat> {
    if text::starts_with(name, prefix) && text::ends_with(
        name.skip(prefix.len() as int),
        suffix,
    ) {
        text::parse_bounded(
            name.subrange(prefix.len() as int, name.len() - suffix.len()),
            max,
        )
    } else {
        None
    }
}

/// A padded number between a prefix and a suffix reads back as itself.
pub proof fn padded_number_reads_back(
    prefix: Seq<char>,
    n: nat,
    width: nat,
    suffix: Seq<char>,
    max: nat,
)
    requires
        n <= max,
    ensures
        number_between(
            prefix + text::dec_padded(n, width) + suffix,
            prefix,
            suffix,
            max,
        ) == Some(n),
{
    let digits = text::dec_padded(n, width);
    let name = prefix + digits + suffix;
    text::dec_padded_reads_back(n, width);
    assert(name.take(prefix.len() as int) =~= prefix);
    let tail = name.skip(prefix.len() as int);
    assert(tail.skip(tail.len() - suffix.len()) =~= suffix);
    assert(name.subrange(prefix.len() as int, name.len() - suffix.len()) =~= digits);
}

/// The number between a prefix and a suffix of a name.
pub fn parse_between(name: &Vec<char>, prefix: &str, suffix: &str, max: u64) -> (r: Option<u64>)
    ensures
        match r {
            Some(v) => number_between(name@, prefix@, suffix@, max as nat) == Some(v as nat),
            None => number_between(name@, prefix@, suffix@, max as nat) is None,
        },
{
    if !text::has_prefix(name, prefix) {
        return None;
    }
    let p: usize = text::chars_of(prefix).len();
    let s: usize = text::chars_of(suffix).len();
    let len: usize = name.len();
    let tail = text::copy_range(name, p, len);
    assert(tail@ =~= name@.skip(p as int));
    if !text::has_suffix(&tail, suffix) {
        return None;
    }
    text::parse_range(name, p, len - s, max)
}

/// Whether a file is the checkpoint of generation `g`.
pub open spec fn is_checkpoint_of(name: Seq<char>, g: u32) -> bool {
    number_between(name, "net_"@, ".safetensors"@, u32::MAX as nat) == Some(g as nat)
}

/// The name of an archived checkpoint reads back as its generation: what is
/// archived is what the pool is made of.
pub proof fn checkpoint_file_reads_back(gen: u32)
    ensures
        is_checkpoint_of(state::checkpoint_file(gen), gen),
{
    padded_number_reads_back("net_"@, gen as nat, 4, ".safetensors"@, u32::MAX as nat);
}

/// Whether `g` is one of every `k` generations; for `k` zero, generation zero
/// alone.
pub open spec fn is_entrant(g: u32, k: usize) -> bool {
    if k == 0 {
        g == 0
    } else {
        g as int % k as int == 0
    }
}

/// The checkpoints in the pool: every archived generation at a multiple of
/// `entrant_gens`, ascending.
pub fn pool_members(names: &Vec<Vec<char>>, entrant_gens: usize) -> (pool: Vec<u32>)
    ensures
        order::ascending(pool@),
        forall|g: u32| #[trigger]
            pool@.contains(g) <==> is_entrant(g, entrant_gens) && exists|i: int|
                0 <= i < names@.len() && is_checkpoint_of(#[trigger] names@[i]@, g),
{
    let mut gens: Vec<u32> = Vec::new();
    let mut i: usize = 0;
    while i < names.len()
        invariant
            i <= names@.len(),
            forall|g: u32| #[trigger]
                gens@.contains(g) <==> is_entrant(g, entrant_gens) && exists|k: int|
                    0 <= k < i && is_checkpoint_of(#[trigger] names@[k]@, g),
        decreases names@.len() - i,
    {
        let ghost before = gens@;
        let parsed: Option<u64> = parse_between(
            &names[i],
            "net_",
            ".safetensors",
            u32::MAX as u64,
        );
        match parsed {
            Some(v) => {
                let g: u32 = v as u32;
                let entrant = if entrant_gens == 0 {
                    g == 0
                } else {
                    g as usize % entrant_gens == 0
                };
                assert(is_checkpoint_of(names@[i as int]@, g));
                if entrant {
                    gens.push(g);
                }
                proof {
                    assert forall|h: u32| #[trigger] gens@.contains(h) <==> is_entrant(
                        h,
                        entrant_gens,
                    ) && exists|k: int|
                        0 <= k < i + 1 && is_checkpoint_of(#[trigger] names@[k]@, h) by {
                        if entrant {
                            order::lemma_contains_last(gens@, h);
                            assert(gens@.drop_last() =~= before);
                        }
                        assert(before.contains(h) <==> is_entrant(h, entrant_gens) && exists|k: int|
                            0 <= k < i && is_checkpoint_of(#[trigger] names@[k]@, h));
                    }
                }
            },
            None => {
                proof {
                    assert forall|h: u32| #[trigger] gens@.contains(h) <==> is_entrant(
                        h,
                        entrant_gens,
                    ) && exists|k: int|
                        0 <= k < i + 1 && is_checkpoint_of(#[trigger] names@[k]@, h) by {
                        assert(before.contains(h) <==> is_entrant(h, entrant_gens) && exists|k: int|
                            0 <= k < i && is_checkpoint_of(#[trigger] names@[k]@, h));
                        assert(!is_checkpoint_of(names@[i as int]@, h));
                    }
                }
            },
        }
        i = i + 1;
    }
    order::sorted_set(&gens)
}

/// The ids of players.
pub open spec fn ids(ps: Seq<ExternalPlayer>) -> Seq<u32> {
    ps.map_values(|p: ExternalPlayer| p.gen)
}

/// The whole pool: the checkpoints and the active external players, ascending.
pub fn full_pool(nets: &Vec<u32>, active: &Vec<ExternalPlayer>) -> (pool: Vec<u32>)
    ensures
        order::is_sorted_set(nets@ + ids(active@), pool@),
{
    let mut all = lists::copy_u32s(nets);
    let mut i: usize = 0;
    assert(nets@ + ids(active@).take(0) =~= nets@);
    while i < active.len()
        invariant
            i <= active@.len(),
            all@ == nets@ + ids(active@).take(i as int),
        decreases active@.len() - i,
    {
        all.push(active[i].gen);
        i = i + 1;
        assert(all@ =~= nets@ + ids(active@).take(i as int));
    }
    assert(ids(active@).take(i as int) =~= ids(active@));
    order::sorted_set(&all)
}

/// How many players a game seats: one per seat, no more than the pool has, and
/// two at the least.
pub open spec fn game_size(seats: nat, pool: nat) -> nat {
    let k = if seats < pool {
        seats
    } else {
        pool
    };
    if k < 2 {
        2
    } else {
        k
    }
}

/// The members of `pool` that are not selected, in their order.
pub open spec fn outside(pool: Seq<u32>, selected: Seq<u32>) -> Seq<u32>
    decreases pool.len(),
{
    if pool.len() == 0 {
        Seq::empty()
    } else {
        let rest = outside(pool.drop_last(), selected);
        if selected.contains(pool.last()) {
            rest
        } else {
            rest.push(pool.last())
        }
    }
}

/// The external players of a pool.
pub open spec fn externals(pool: Seq<u32>) -> Seq<u32>
    decreases pool.len(),
{
    if pool.len() == 0 {
        Seq::empty()
    } else {
        let rest = externals(pool.drop_last());
        if pool.last() >= registry::EXTERNAL_GEN_MIN {
            rest.push(pool.last())
        } else {
            rest
        }
    }
}

/// The external players of a pool.
pub fn externals_of(pool: &Vec<u32>) -> (r: Vec<u32>)
    ensures
        r@ == externals(pool@),
{
    let mut r: Vec<u32> = Vec::new();
    let mut i: usize = 0;
    while i < pool.len()
        invariant
            i <= pool@.len(),
            r@ == externals(pool@.take(i as int)),
        decreases pool@.len() - i,
    {
        assert(pool@.take(i + 1).drop_last() =~= pool@.take(i as int));
        if registry::is_external(pool[i]) {
            r.push(pool[i]);
        }
        i = i + 1;
    }
    assert(pool@.take(i as int) =~= pool@);
    r
}

proof fn lemma_outside(pool: Seq<u32>, selected: Seq<u32>)
    ensures
        forall|x: u32|
            outside(pool, selected).contains(x) <==> pool.contains(x) && !selected.contains(x),
    decreases pool.len(),
{
    if pool.len() > 0 {
        lemma_outside(pool.drop_last(), selected);
        let rest = outside(pool.drop_last(), selected);
        assert forall|x: u32| outside(pool, selected).contains(x) <==> pool.contains(x)
            && !selected.contains(x) by {
            order::lemma_contains_last(pool, x);
            if !selected.contains(pool.last()) {
                let r = rest.push(pool.last());
                order::lemma_contains_last(r, x);
                assert(r.drop_last() =~= rest);
            }
        }
    }
}

/// A game's players in the making.
pub struct Draft {
    pub pool: Vec<u32>,
    pub selected: Vec<u32>,
    /// How many players the game seats.
    pub size: usize,
}

impl Draft {
    /// The selected players are distinct and all of the pool.
    pub open spec fn wf(&self) -> bool {
        &&& self.selected@.no_duplicates()
        &&& self.selected@.len() <= self.size
        &&& forall|x: u32| #[trigger] self.selected@.contains(x) ==> self.pool@.contains(x)
    }

    /// Starts a draft from a pool; `forced` is an external player that has to
    /// play.
    pub fn new(pool: Vec<u32>, seats: usize, forced: Option<u32>) -> (d: Draft)
        requires
            forced matches Some(g) ==> pool@.contains(g),
        ensures
            d.wf(),
            d.pool@ == pool@,
            d.size == game_size(seats as nat, pool@.len()),
            d.size >= 2,
            2 <= seats <= pool@.len() ==> d.size == seats,
            2 <= pool@.len() <= seats ==> d.size == pool@.len(),
            d.selected@ == match forced {
                Some(g) => seq![g],
                None => Seq::empty(),
            },
    {
        let n: usize = pool.len();
        let k: usize = if seats < n { seats } else { n };
        let size: usize = if k < 2 { 2 } else { k };
        let mut selected: Vec<u32> = Vec::new();
        match forced {
            Some(g) => {
                selected.push(g);
            },
            None => {},
        }
        let d = Draft { pool, selected, size };
        assert(d.selected@ =~= match forced {
            Some(g) => seq![g],
            None => Seq::empty(),
        });
        d
    }

    /// The players to pick the next one from, in pool order; `None` once the
    /// game is full.
    pub fn candidates(&self) -> (r: Option<Vec<u32>>)
        ensures
            match r {
                Some(c) => self.selected@.len() < self.size && c@ == outside(
                    self.pool@,
                    self.selected@,
                ),
                None => self.selected@.len() >= self.size,
            },
    {
        if self.selected.len() >= self.size {
            return None;
        }
        let mut c: Vec<u32> = Vec::new();
        let mut i: usize = 0;
        while i < self.pool.len()
            invariant
                i <= self.pool@.len(),
                c@ == outside(self.pool@.take(i as int), self.selected@),
            decreases self.pool@.len() - i,
        {
            assert(self.pool@.take(i + 1).drop_last() =~= self.pool@.take(i as int));
            if !lists::has_u32(&self.selected, self.pool[i]) {
                c.push(self.pool[i]);
            }
            i = i + 1;
        }
        assert(self.pool@.take(i as int) =~= self.pool@);
        Some(c)
    }

    /// Picks one of the candidates.
    pub fn pick(&mut self, g: u32)
        requires
            old(self).wf(),
            old(self).selected@.len() < old(self).size,
            outside(old(self).pool@, old(self).selected@).contains(g),
        ensures
            final(self).wf(),
            final(self).pool@ == old(self).pool@,
            final(self).size == old(self).size,
            final(self).selected@ == old(self).selected@.push(g),
    {
        let ghost before = self.selected@;
        proof {
            lemma_outside(self.pool@, self.selected@);
            assert(outside(self.pool@, self.selected@).contains(g));
            assert(self.pool@.contains(g) && !before.contains(g));
        }
        self.selected.push(g);
        proof {
            assert(self.selected@.drop_last() =~= before);
            assert forall|x: u32| #[trigger] self.selected@.contains(x) implies self.pool@.contains(
                x,
            ) by {
                order::lemma_contains_last(self.selected@, x);
            }
        }
    }

    /// The players in seat order: turned left by the game's number, so that
    /// nobody always sits first.
    pub fn seat_order(&self, seq: u64) -> (r: Vec<u32>)
        requires
            self.wf(),
            self.selected@.len() == self.size,
            self.size > 0,
        ensures
            r@ == rankings::rotated(self.selected@, (seq % (self.size as u64)) as int),
            r@.len() == self.selected@.len(),
            forall|i: int|
                0 <= i < r@.len() ==> #[trigger] r@[i] == self.selected@[(i + seq as int
                    % self.size as int) % (self.size as int)],
    {
        let rot: usize = (seq % (self.size as u64)) as usize;
        proof {
            assert forall|i: int| 0 <= i < self.selected@.len() implies #[trigger] rankings::rotated(
                self.selected@,
                rot as int,
            )[i] == self.selected@[(i + seq as int % self.size as int) % (self.size as int)] by {
                rankings::turning_goes_round(self.selected@, rot as int, i);
            }
        }
        rankings::rotate_left(&self.selected, rot)
    }
}

/// A full draft that is as large as its pool seats everybody in the pool.
pub proof fn full_draft_seats_everybody(d: &Draft, x: u32)
    requires
        d.wf(),
        d.pool@.no_duplicates(),
        d.selected@.len() == d.pool@.len(),
        d.pool@.contains(x),
    ensures
        d.selected@.contains(x),
{
    let (s, p) = (d.selected@, d.pool@);
    s.unique_seq_to_set();
    p.unique_seq_to_set();
    assert(s.to_set().subset_of(p.to_set()));
    vstd::set_lib::lemma_subset_equality(s.to_set(), p.to_set());
    assert(s.to_set().contains(x));
}

/// A draft of a pool of two or more always finds the next player.
pub proof fn draft_never_runs_dry(d: &Draft, seats: nat)
    requires
        d.wf(),
        d.pool@.no_duplicates(),
        d.pool@.len() >= 2,
        d.size == game_size(seats, d.pool@.len()),
        d.selected@.len() < d.size,
    ensures
        outside(d.pool@, d.selected@).len() > 0,
{
    let (s, p) = (d.selected@, d.pool@);
    lemma_outside(p, s);
    if outside(p, s).len() == 0 {
        assert forall|x: u32| p.contains(x) implies s.contains(x) by {
            assert(!outside(p, s).contains(x));
        }
        s.unique_seq_to_set();
        p.unique_seq_to_set();
        assert(p.to_set().subset_of(s.to_set()));
        vstd::set_lib::lemma_len_subset(p.to_set(), s.to_set());
    }
}

/// Adjacent members of a pool, in both orders: each pair counts as a quarter of
/// a game, which ties the pool together and keeps every rating finite.
pub open spec fn virtual_orders(pool: Seq<u32>) -> Seq<(u32, u32)>
    decreases pool.len(),
{
    if pool.len() < 2 {
        Seq::empty()
    } else {
        let (a, b) = (pool[pool.len() - 2], pool[pool.len() - 1]);
        virtual_orders(pool.drop_last()).push((a, b)).push((b, a))
    }
}

/// Adjacent members of a pool, in both orders.
pub fn virtual_ties(pool: &Vec<u32>) -> (v: Vec<(u32, u32)>)
    ensures
        v@ == virtual_orders(pool@),
{
    let mut v: Vec<(u32, u32)> = Vec::new();
    let n: usize = pool.len();
    if n < 2 {
        return v;
    }
    let mut i: usize = 1;
    assert(virtual_orders(pool@.take(1)) =~= Seq::<(u32, u32)>::empty());
    while i < n
        invariant
            1 <= i <= n,
            n == pool@.len(),
            v@ == virtual_orders(pool@.take(i as int)),
        decreases n - i,
    {
        assert(pool@.take(i + 1).drop_last() =~= pool@.take(i as int));
        v.push((pool[i - 1], pool[i]));
        v.push((pool[i], pool[i - 1]));
        i = i + 1;
    }
    assert(pool@.take(i as int) =~= pool@);
    v
}

/// The players of all games, one after the other.
pub open spec fn all_seats<F>(records: Seq<MatchRecord<F>>) -> Seq<u32>
    decreases records.len(),
{
    if records.len() == 0 {
        Seq::empty()
    } else {
        all_seats(records.drop_last()) + seat_gens(records.last().placements@)
    }
}

/// Everybody who gets a rating: the pool and all who ever played, ascending.
/// The first of them anchors the scale.
pub fn rated_gens<F>(pool: &Vec<u32>, records: &Vec<MatchRecord<F>>) -> (gens: Vec<u32>)
    ensures
        order::is_sorted_set(pool@ + all_seats(records@), gens@),
{
    let mut all = lists::copy_u32s(pool);
    let mut i: usize = 0;
    assert(records@.take(0) =~= Seq::<MatchRecord<F>>::empty());
    assert(pool@ + all_seats(records@.take(0)) =~= pool@);
    while i < records.len()
        invariant
            i <= records@.len(),
            all@ == pool@ + all_seats(records@.take(i as int)),
        decreases records@.len() - i,
    {
        assert(records@.take(i + 1).drop_last() =~= records@.take(i as int));
        let ps = &records[i].placements;
        let ghost done = all@;
        let mut j: usize = 0;
        assert(done + seat_gens(ps@).take(0) =~= done);
        while j < ps.len()
            invariant
                j <= ps@.len(),
                all@ == done + seat_gens(ps@).take(j as int),
            decreases ps@.len() - j,
        {
            all.push(ps[j].gen);
            j = j + 1;
            assert(all@ =~= done + seat_gens(ps@).take(j as int));
        }
        assert(seat_gens(ps@).take(j as int) =~= seat_gens(ps@));
        i = i + 1;
        assert(all@ =~= pool@ + all_seats(records@.take(i as int)));
    }
    assert(records@.take(i as int) =~= records@);
    order::sorted_set(&all)
}

/// One player's record in the ratings.
pub struct RatingRow {
    pub gen: u32,
    pub name: String,
    pub games: u32,
    /// First places, shared ones too.
    pub wins: u32,
    pub rank_sum: u64,
    /// `placements[r - 1]`: finishes at rank `r`, down to the deepest.
    pub placements: Vec<u32>,
}

/// The place of a rank in a histogram.
pub open spec fn rank_slot(rank: u32) -> nat {
    if rank == 0 {
        0
    } else {
        (rank - 1) as nat
    }
}

/// All placements of all games, one after the other.
pub open spec fn all_placements<F>(records: Seq<MatchRecord<F>>) -> Seq<Placement>
    decreases records.len(),
{
    if records.len() == 0 {
        Seq::empty()
    } else {
        all_placements(records.drop_last()) + records.last().placements@
    }
}

/// How many placements are a player's.
pub open spec fn games_of(ps: Seq<Placement>, gen: u32) -> nat
    decreases ps.len(),
{
    if ps.len() == 0 {
        0
    } else {
        games_of(ps.drop_last(), gen) + if ps.last().gen == gen {
            1nat
        } else {
            0nat
        }
    }
}

/// The sum of a player's ranks.
pub open spec fn rank_sum_of(ps: Seq<Placement>, gen: u32) -> nat
    decreases ps.len(),
{
    if ps.len() == 0 {
        0
    } else {
        rank_sum_of(ps.drop_last(), gen) + if ps.last().gen == gen {
            ps.last().rank as nat
        } else {
            0nat
        }
    }
}

/// How many of a player's placements fall into slot `slot` of its histogram.
pub open spec fn slot_count(ps: Seq<Placement>, gen: u32, slot: nat) -> nat
    decreases ps.len(),
{
    if ps.len() == 0 {
        0
    } else {
        slot_count(ps.drop_last(), gen, slot) + if ps.last().gen == gen && rank_slot(
            ps.last().rank,
        ) == slot {
            1nat
        } else {
            0nat
        }
    }
}

/// The length of a player's histogram: down to its deepest rank.
pub open spec fn deepest(ps: Seq<Placement>, gen: u32) -> nat
    decreases ps.len(),
{
    if ps.len() == 0 {
        0
    } else {
        let rest = deepest(ps.drop_last(), gen);
        if ps.last().gen == gen && rank_slot(ps.last().rank) + 1 > rest {
            rank_slot(ps.last().rank) + 1
        } else {
            rest
        }
    }
}

/// Whether a row counts a list of placements for its player.
pub open spec fn counts_placements(
    games: nat,
    rank_sum: nat,
    hist: Seq<u32>,
    ps: Seq<Placement>,
    gen: u32,
) -> bool {
    &&& games == games_of(ps, gen)
    &&& rank_sum == rank_sum_of(ps, gen)
    &&& hist.len() == deepest(ps, gen)
    &&& forall|s: int| 0 <= s < hist.len() ==> #[trigger] hist[s] == slot_count(ps, gen, s as nat)
}

proof fn lemma_slot_bounds(ps: Seq<Placement>, gen: u32, slot: nat)
    ensures
        slot_count(ps, gen, slot) <= games_of(ps, gen) <= ps.len(),
        rank_sum_of(ps, gen) <= ps.len() * u32::MAX,
        slot >= deepest(ps, gen) ==> slot_count(ps, gen, slot) == 0,
    decreases ps.len(),
{
    if ps.len() > 0 {
        lemma_slot_bounds(ps.drop_last(), gen, slot);
        assert((ps.len() - 1) * u32::MAX + u32::MAX == ps.len() * u32::MAX) by (nonlinear_arith);
    }
}

/// Counts one player's placements: games, rank sum and the histogram of its
/// ranks.
fn count_player(ps: &Vec<Placement>, gen: u32) -> (r: (u32, u64, Vec<u32>))
    requires
        ps@.len() <= u32::MAX,
    ensures
        counts_placements(r.0 as nat, r.1 as nat, r.2@, ps@, gen),
{
    let mut games: u32 = 0;
    let mut sum: u64 = 0;
    let mut hist: Vec<u32> = Vec::new();
    let mut i: usize = 0;
    while i < ps.len()
        invariant
            i <= ps@.len(),
            ps@.len() <= u32::MAX,
            counts_placements(games as nat, sum as nat, hist@, ps@.take(i as int), gen),
        decreases ps@.len() - i,
    {
        let ghost (a, b) = (ps@.take(i as int), ps@.take(i + 1));
        assert(b.drop_last() =~= a);
        let p = ps[i];
        if p.gen == gen {
            proof {
                lemma_slot_bounds(a, gen, rank_slot(p.rank));
                assert(i * u32::MAX + u32::MAX <= u64::MAX) by (nonlinear_arith)
                    requires
                        i < u32::MAX,
                ;
            }
            games = games + 1;
            sum = sum + p.rank as u64;
            let slot: usize = if p.rank == 0 { 0 } else { (p.rank - 1) as usize };
            let ghost h0 = hist@;
            while hist.len() <= slot
                invariant
                    h0.len() <= hist@.len(),
                    hist@.len() <= slot + 1 || hist@.len() == h0.len(),
                    forall|s: int| 0 <= s < h0.len() ==> hist@[s] == h0[s],
                    forall|s: int| h0.len() <= s < hist@.len() ==> #[trigger] hist@[s] == 0,
                decreases slot + 1 - hist@.len(),
            {
                hist.push(0);
            }
            proof {
                if slot < h0.len() {
                    assert(h0[slot as int] == slot_count(a, gen, slot as nat));
                }
                assert(hist@[slot as int] == slot_count(a, gen, slot as nat));
            }
            let c: u32 = hist[slot] + 1;
            hist[slot] = c;
            proof {
                assert forall|s: int| 0 <= s < hist@.len() implies #[trigger] hist@[s]
                    == slot_count(b, gen, s as nat) by {
                    lemma_slot_bounds(a, gen, s as nat);
                    if s < h0.len() {
                        assert(h0[s] == slot_count(a, gen, s as nat));
                    }
                }
            }
        }
        i = i + 1;
    }
    assert(ps@.take(i as int) =~= ps@);
    (games, sum, hist)
}

/// All placements of all games.
fn flatten<F>(records: &Vec<MatchRecord<F>>) -> (all: Vec<Placement>)
    ensures
        all@ == all_placements(records@),
{
    let mut all: Vec<Placement> = Vec::new();
    let mut i: usize = 0;
    assert(records@.take(0) =~= Seq::<MatchRecord<F>>::empty());
    while i < records.len()
        invariant
            i <= records@.len(),
            all@ == all_placements(records@.take(i as int)),
        decreases records@.len() - i,
    {
        assert(records@.take(i + 1).drop_last() =~= records@.take(i as int));
        let mut ps = crate::burst::copy_placements(&records[i].placements);
        all.append(&mut ps);
        i = i + 1;
    }
    assert(records@.take(i as int) =~= records@);
    all
}

/// The players among `gens` that have a placement, in their order.
pub open spec fn with_games(gens: Seq<u32>, ps: Seq<Placement>) -> Seq<u32> {
    gens.filter(|g: u32| games_of(ps, g) > 0)
}

/// Whether a row of the ratings is a player's, under the registry's name for
/// it and with the count of its placements.
pub open spec fn is_row_of(
    r: RatingRow,
    gen: u32,
    ps: Seq<Placement>,
    registry: &ExternalRegistry,
) -> bool {
    &&& r.gen == gen
    &&& r.name@ == registry.name_of(gen)
    &&& counts_placements(r.games as nat, r.rank_sum as nat, r.placements@, ps, gen)
    &&& r.wins == slot_count(ps, gen, 0)
}

/// The rows of the ratings: one for each of the given players that has at least
/// one recorded game, in their order.
pub fn rating_rows<F>(
    gens: &Vec<u32>,
    records: &Vec<MatchRecord<F>>,
    registry: &ExternalRegistry,
) -> (rows: Vec<RatingRow>)
    requires
        all_placements(records@).len() <= u32::MAX,
    ensures
        rows@.len() == with_games(gens@, all_placements(records@)).len(),
        forall|i: int|
            0 <= i < rows@.len() ==> is_row_of(
                #[trigger] rows@[i],
                with_games(gens@, all_placements(records@))[i],
                all_placements(records@),
                registry,
            ) && rows@[i].games > 0,
{
    let all = flatten(records);
    let ghost has = |g: u32| games_of(all@, g) > 0;
    let mut rows: Vec<RatingRow> = Vec::new();
    let mut i: usize = 0;
    proof {
        reveal(Seq::filter);
        assert(gens@.take(0).filter(has) =~= Seq::<u32>::empty());
    }
    while i < gens.len()
        invariant
            i <= gens@.len(),
            all@ == all_placements(records@),
            all@.len() <= u32::MAX,
            has == (|g: u32| games_of(all@, g) > 0),
            rows@.len() == gens@.take(i as int).filter(has).len(),
            forall|k: int|
                0 <= k < rows@.len() ==> is_row_of(
                    #[trigger] rows@[k],
                    gens@.take(i as int).filter(has)[k],
                    all@,
                    registry,
                ) && rows@[k].games > 0,
        decreases gens@.len() - i,
    {
        let gen: u32 = gens[i];
        let ghost before = gens@.take(i as int).filter(has);
        proof {
            reveal(Seq::filter);
            assert(gens@.take(i + 1).drop_last() =~= gens@.take(i as int));
            assert(gens@.take(i + 1).filter(has) == if has(gen) {
                before.push(gen)
            } else {
                before
            });
        }
        let (games, rank_sum, placements): (u32, u64, Vec<u32>) = count_player(&all, gen);
        if games > 0 {
            proof {
                lemma_slot_bounds(all@, gen, 0);
            }
            let wins: u32 = if placements.len() > 0 { placements[0] } else { 0 };
            rows.push(
                RatingRow { gen, name: registry.display(gen), games, wins, rank_sum, placements },
            );
        }
        i = i + 1;
    }
    assert(gens@.take(i as int) =~= gens@);
    rows
}

/// The number of a recorded game, from its file's name.
pub open spec fn game_seq(name: Seq<char>) -> Option<nat> {
    number_between(name, "game_"@, ".json"@, u64::MAX as nat)
}

/// The recording of a game.
pub open spec fn game_file(seq: u64) -> Seq<char> {
    "game_"@ + text::dec_padded(seq as nat, 6) + ".json"@
}

/// The recording of a game.
pub fn game_file_name(seq: u64) -> (s: String)
    ensures
        s@ == game_file(seq),
{
    let mut s = String::new();
    s.append("game_");
    text::push_dec(&mut s, seq, 6);
    s.append(".json");
    assert(s@ =~= game_file(seq));
    s
}

/// The name of a recording reads back as the number of its game: what is written
/// is what is pruned.
pub proof fn game_file_reads_back(seq: u64)
    ensures
        game_seq(game_file(seq)) == Some(seq as nat),
{
    padded_number_reads_back("game_"@, seq as nat, 6, ".json"@, u64::MAX as nat);
}

/// The recorded games among a directory's files.
pub open spec fn game_files(names: Seq<Vec<char>>) -> Seq<usize> {
    lists::indices_where(names.len(), |i: int| game_seq(names[i]@) is Some)
}

/// The sort keys of recorded games, newest first.
pub open spec fn newest_first(names: Seq<Vec<char>>, files: Seq<usize>) -> Seq<u64> {
    files.map_values(|i: usize| (u64::MAX - game_seq(names[i as int]@).unwrap()) as u64)
}

/// Which files to delete so that the newest `keep` recorded games stay; other
/// files are never touched.
pub fn prune_game_files(names: &Vec<Vec<char>>, keep: usize) -> (gone: Vec<usize>)
    ensures
        exists|p: Seq<usize>| #[trigger]
            order::is_stable_order(newest_first(names@, game_files(names@)), p) && gone@
                == if p.len() <= keep {
                Seq::empty()
            } else {
                p.skip(keep as int).map_values(|j: usize| game_files(names@)[j as int])
            },
{
    let ghost is_game = |i: int| game_seq(names@[i]@) is Some;
    let mut files: Vec<usize> = Vec::new();
    let mut keys: Vec<u64> = Vec::new();
    let mut i: usize = 0;
    assert(newest_first(names@, files@) =~= keys@);
    while i < names.len()
        invariant
            i <= names@.len(),
            is_game == (|i: int| game_seq(names@[i]@) is Some),
            files@ == lists::indices_where(i as nat, is_game),
            keys@ == newest_first(names@, files@),
        decreases names@.len() - i,
    {
        let parsed: Option<u64> = parse_between(&names[i], "game_", ".json", u64::MAX);
        match parsed {
            Some(seq) => {
                assert(is_game(i as int));
                let ghost f0 = files@;
                files.push(i);
                keys.push(u64::MAX - seq);
                assert(keys@ =~= newest_first(names@, files@));
            },
            None => {
                assert(!is_game(i as int));
            },
        }
        i = i + 1;
    }
    let p = order::stable_order(&keys);
    let mut gone: Vec<usize> = Vec::new();
    let n: usize = p.len();
    if n > keep {
        let mut k: usize = keep;
        assert(p@.subrange(keep as int, keep as int) =~= Seq::<usize>::empty());
        assert(gone@ =~= p@.subrange(keep as int, keep as int).map_values(
            |j: usize| files@[j as int],
        ));
        while k < n
            invariant
                keep <= k <= n,
                n == p@.len(),
                files@ == game_files(names@),
                keys@.len() == files@.len(),
                order::is_stable_order(keys@, p@),
                gone@ == p@.subrange(keep as int, k as int).map_values(|j: usize| files@[j as int]),
            decreases n - k,
        {
            assert(p@[k as int] < keys@.len());
            gone.push(files[p[k]]);
            k = k + 1;
            assert(gone@ =~= p@.subrange(keep as int, k as int).map_values(
                |j: usize| files@[j as int],
            ));
        }
        assert(p@.subrange(keep as int, n as int) =~= p@.skip(keep as int));
    }
    assert(order::is_stable_order(newest_first(names@, game_files(names@)), p@));
    gone
}

/// The sort keys of records.
pub open spec fn seqs<F>(records: Seq<MatchRecord<F>>, at: Seq<usize>) -> Seq<u64> {
    at.map_values(|i: usize| records[i as int].seq)
}

/// The records that have placements.
pub open spec fn placed_records<F>(records: Seq<MatchRecord<F>>) -> Seq<usize> {
    lists::indices_where(records.len(), |i: int| records[i].placements@.len() > 0)
}

/// The history to go by: the records that have placements, by number.
pub fn history_order<F>(records: &Vec<MatchRecord<F>>) -> (r: Vec<usize>)
    ensures
        exists|p: Seq<usize>| #[trigger]
            order::is_stable_order(seqs(records@, placed_records(records@)), p) && r@
                == p.map_values(|j: usize| placed_records(records@)[j as int]),
{
    let ghost placed = |i: int| records@[i].placements@.len() > 0;
    let mut at: Vec<usize> = Vec::new();
    let mut keys: Vec<u64> = Vec::new();
    let mut i: usize = 0;
    assert(seqs(records@, at@) =~= keys@);
    while i < records.len()
        invariant
            i <= records@.len(),
            placed == (|i: int| records@[i].placements@.len() > 0),
            at@ == lists::indices_where(i as nat, placed),
            keys@ == seqs(records@, at@),
        decreases records@.len() - i,
    {
        if records[i].placements.len() > 0 {
            assert(placed(i as int));
            at.push(i);
            keys.push(records[i].seq);
            assert(keys@ =~= seqs(records@, at@));
        } else {
            assert(!placed(i as int));
        }
        i = i + 1;
    }
    let p = order::stable_order(&keys);
    let mut r: Vec<usize> = Vec::new();
    let mut k: usize = 0;
    while k < p.len()
        invariant
            k <= p@.len(),
            keys@.len() == at@.len(),
            order::is_stable_order(keys@, p@),
            r@ == p@.take(k as int).map_values(|j: usize| at@[j as int]),
        decreases p@.len() - k,
    {
        assert(p@[k as int] < keys@.len());
        r.push(at[p[k]]);
        k = k + 1;
        assert(r@ =~= p@.take(k as int).map_values(|j: usize| at@[j as int]));
    }
    assert(p@.take(k as int) =~= p@);
    assert(order::is_stable_order(seqs(records@, placed_records(records@)), p@));
    r
}

/// The number of the next game: one more than the largest so far.
pub open spec fn next_number<F>(records: Seq<MatchRecord<F>>) -> nat
    decreases records.len(),
{
    if records.len() == 0 {
        0
    } else {
        let rest = next_number(records.drop_last());
        if records.last().seq + 1 > rest {
            records.last().seq as nat + 1
        } else {
            rest
        }
    }
}

/// The number of the next game: one more than the largest so far.
pub fn next_seq<F>(records: &Vec<MatchRecord<F>>) -> (n: u64)
    requires
        forall|i: int| 0 <= i < records@.len() ==> (#[trigger] records@[i]).seq < u64::MAX,
    ensures
        n == next_number(records@),
        forall|i: int| 0 <= i < records@.len() ==> (#[trigger] records@[i]).seq < n,
{
    let mut n: u64 = 0;
    let mut i: usize = 0;
    assert(records@.take(0) =~= Seq::<MatchRecord<F>>::empty());
    while i < records.len()
        invariant
            i <= records@.len(),
            forall|i: int| 0 <= i < records@.len() ==> (#[trigger] records@[i]).seq < u64::MAX,
            n == next_number(records@.take(i as int)),
            forall|k: int| 0 <= k < i ==> (#[trigger] records@[k]).seq < n,
        decreases records@.len() - i,
    {
        assert(records@.take(i + 1).drop_last() =~= records@.take(i as int));
        assert(records@[i as int].seq < u64::MAX);
        let s: u64 = records[i].seq + 1;
        if s > n {
            n = s;
        }
        i = i + 1;
    }
    assert(records@.take(i as int) =~= records@);
    n
}

/// The seats that finished first.
pub open spec fn first_seats(ps: Seq<Placement>) -> Seq<u32>
    decreases ps.len(),
{
    if ps.len() == 0 {
        Seq::empty()
    } else {
        let rest = first_seats(ps.drop_last());
        if ps.last().rank == 1 {
            rest.push(ps.last().seat)
        } else {
            rest
        }
    }
}

/// The winner of a game for its recording: the only seat that finished first.
pub fn sole_winner(ps: &Vec<Placement>) -> (w: Option<u32>)
    ensures
        w == if first_seats(ps@).len() == 1 {
            Some(first_seats(ps@)[0])
        } else {
            None
        },
{
    let mut firsts: Vec<u32> = Vec::new();
    let mut i: usize = 0;
    while i < ps.len()
        invariant
            i <= ps@.len(),
            firsts@ == first_seats(ps@.take(i as int)),
        decreases ps@.len() - i,
    {
        assert(ps@.take(i + 1).drop_last() =~= ps@.take(i as int));
        if ps[i].rank == 1 {
            firsts.push(ps[i].seat);
        }
        i = i + 1;
    }
    assert(ps@.take(i as int) =~= ps@);
    if firsts.len() == 1 {
        Some(firsts[0])
    } else {
        None
    }
}

/// The newest checkpoint among a game's players; zero where there is none.
pub open spec fn newest_net(players: Seq<u32>) -> u32
    decreases players.len(),
{
    if players.len() == 0 {
        0
    } else {
        let rest = newest_net(players.drop_last());
        let g = players.last();
        if g < registry::EXTERNAL_GEN_MIN && g > rest {
            g
        } else {
            rest
        }
    }
}

/// The newest checkpoint among a game's players; zero where there is none.
pub fn newest_checkpoint(players: &Vec<u32>) -> (g: u32)
    ensures
        g == newest_net(players@),
{
    let mut best: u32 = 0;
    let mut i: usize = 0;
    while i < players.len()
        invariant
            i <= players@.len(),
            best == newest_net(players@.take(i as int)),
        decreases players@.len() - i,
    {
        assert(players@.take(i + 1).drop_last() =~= players@.take(i as int));
        if !registry::is_external(players[i]) && players[i] > best {
            best = players[i];
        }
        i = i + 1;
    }
    assert(players@.take(i as int) =~= players@);
    best
}

/// One seat of a finished game as the arena reports it: the player by its index
/// in the matchup.
#[derive(Clone, Copy, Debug, PartialEq, Eq, Structural)]
pub struct SeatResult {
    pub player: u32,
    pub seat: u32,
    pub rank: u32,
    pub death_turn: Option<u32>,
}

/// The placements of a finished game; an index beyond the matchup stands for
/// generation zero.
pub open spec fn placements_from(results: Seq<SeatResult>, players: Seq<u32>) -> Seq<Placement> {
    results.map_values(
        |r: SeatResult|
            Placement {
                gen: if (r.player as int) < players.len() {
                    players[r.player as int]
                } else {
                    0
                },
                seat: r.seat,
                rank: r.rank,
                death_turn: r.death_turn,
            },
    )
}

/// The placements of a finished game.
pub fn record_placements(results: &Vec<SeatResult>, players: &Vec<u32>) -> (ps: Vec<Placement>)
    ensures
        ps@ == placements_from(results@, players@),
        ps@.len() == results@.len(),
        forall|i: int|
            0 <= i < results@.len() ==> {
                let (p, r) = (#[trigger] ps@[i], results@[i]);
                &&& p.seat == r.seat
                &&& p.rank == r.rank
                &&& p.death_turn == r.death_turn
                &&& r.player < players@.len() ==> p.gen == players@[r.player as int]
                &&& r.player >= players@.len() ==> p.gen == 0
            },
{
    let mut ps: Vec<Placement> = Vec::new();
    let mut i: usize = 0;
    while i < results.len()
        invariant
            i <= results@.len(),
            ps@ == placements_from(results@, players@).take(i as int),
        decreases results@.len() - i,
    {
        let r = results[i];
        let at: usize = r.player as usize;
        let gen: u32 = if at < players.len() { players[at] } else { 0 };
        ps.push(Placement { gen, seat: r.seat, rank: r.rank, death_turn: r.death_turn });
        i = i + 1;
        assert(ps@ =~= placements_from(results@, players@).take(i as int));
    }
    assert(placements_from(results@, players@).take(i as int) =~= placements_from(
        results@,
        players@,
    ));
    ps
}

/// The seed of a league game.
pub fn game_seed(seq: u64) -> (s: u64)
    ensures
        s == seq.wrapping_mul(1_000_003),
{
    seq.wrapping_mul(1_000_003)
}

/// What the league's supervisor does in a round.
#[derive(Clone, Copy, Debug, PartialEq, Eq, Structural)]
pub struct SlotPlan {
    /// Slots that should be running.
    pub want: usize,
    /// Slots to start.
    pub spawn: usize,
    /// Slots to ask to stop, from the end.
    pub retire: usize,
    pub active: bool,
}

/// What the league's supervisor does in a round with `alive` slots running: one
/// slot per configured game, one at the least, none while the league is off.
pub fn plan_slots(league_entrant_gens: usize, league_games: usize, alive: usize) -> (p: SlotPlan)
    ensures
        p.want == if league_entrant_gens == 0 {
            0
        } else if league_games < 1 {
            1
        } else {
            league_games as int
        },
        p.spawn == if alive < p.want {
            p.want - alive
        } else {
            0
        },
        p.retire == if alive > p.want {
            alive - p.want
        } else {
            0
        },
        p.active == (p.want > 0),
{
    let want: usize = if league_entrant_gens == 0 {
        0
    } else if league_games < 1 {
        1
    } else {
        league_games
    };
    SlotPlan {
        want,
        spawn: want.saturating_sub(alive),
        retire: alive.saturating_sub(want),
        active: want > 0,
    }
}

/// What has come of a slot's round so far.
#[derive(Clone, Copy, Debug, PartialEq, Eq, Structural)]
pub enum SlotEvent {
    /// The round begins; the league's directory is there or not.
    Begin { league_on: bool, dir_ready: bool },
    /// The pool has so many players.
    Pooled { players: usize },
    /// The players were loaded, or one of them was not.
    Loaded { ok: bool },
    /// The game ended, was stopped on the way, or broke down.
    Played { outcome: GameEnd },
}

/// How a slot's game ended.
#[derive(Clone, Copy, Debug, PartialEq, Eq, Structural)]
pub enum GameEnd {
    Finished,
    Stopped,
    Panicked,
}

/// What a slot does next.
#[derive(Clone, Copy, Debug, PartialEq, Eq, Structural)]
pub enum SlotAction {
    /// Sleep so many seconds and begin anew.
    Nap { secs: u64 },
    /// Begin anew at once.
    Restart,
    /// Resolve the players and count the pool.
    Pool,
    /// Take a number, draft the players and load them.
    Load,
    Play,
    /// Record the game and refit the ratings.
    Record,
}

/// What a slot does after an event.
pub fn slot_action(e: SlotEvent) -> (a: SlotAction)
    ensures
        a == match e {
            SlotEvent::Begin { league_on, dir_ready } => if !league_on {
                SlotAction::Nap { secs: 15 }
            } else if !dir_ready {
                SlotAction::Nap { secs: 30 }
            } else {
                SlotAction::Pool
            },
            SlotEvent::Pooled { players } => if players < 2 {
                SlotAction::Nap { secs: 15 }
            } else {
                SlotAction::Load
            },
            SlotEvent::Loaded { ok } => if ok {
                SlotAction::Play
            } else {
                SlotAction::Nap { secs: 10 }
            },
            SlotEvent::Played { outcome } => match outcome {
                GameEnd::Finished => SlotAction::Record,
                GameEnd::Stopped => SlotAction::Restart,
                GameEnd::Panicked => SlotAction::Nap { secs: 30 },
            },
        },
{
    match e {
        SlotEvent::Begin { league_on, dir_ready } => if !league_on {
            SlotAction::Nap { secs: 15 }
        } else if !dir_ready {
            SlotAction::Nap { secs: 30 }
        } else {
            SlotAction::Pool
        },
        SlotEvent::Pooled { players } => if players < 2 {
            SlotAction::Nap { secs: 15 }
        } else {
            SlotAction::Load
        },
        SlotEvent::Loaded { ok } => if ok {
            SlotAction::Play
        } else {
            SlotAction::Nap { secs: 10 }
        },
        SlotEvent::Played { outcome } => match outcome {
            GameEnd::Finished => SlotAction::Record,
            GameEnd::Stopped => SlotAction::Restart,
            GameEnd::Panicked => SlotAction::Nap { secs: 30 },
        },
    }
}

/// A player's career is the number of recorded games in which it sat, however
/// many seats it had.
pub proof fn careers_count_games<F>(records: Seq<MatchRecord<F>>, gen: u32)
    ensures
        career(records, gen) == records.filter(
            |r: MatchRecord<F>|
                exists|s: int|
                    0 <= s < r.placements@.len() && (#[trigger] r.placements@[s]).gen == gen,
        ).len(),
    decreases records.len(),
{
    reveal(Seq::filter);
    if records.len() > 0 {
        careers_count_games(records.drop_last(), gen);
        let ps = records.last().placements@;
        if seat_gens(ps).contains(gen) {
            let s = choose|s: int| 0 <= s < ps.len() && seat_gens(ps)[s] == gen;
            assert(ps[s].gen == gen);
        }
        if exists|s: int| 0 <= s < ps.len() && (#[trigger] ps[s]).gen == gen {
            let s = choose|s: int| 0 <= s < ps.len() && (#[trigger] ps[s]).gen == gen;
            assert(seat_gens(ps)[s] == gen);
        }
    }
}

/// The generations that enter the league are the multiples of `k`.
pub proof fn entrants_are_multiples(g: u32, k: usize)
    ensures
        is_entrant(g, k) <==> exists|c: int| g == #[trigger] (c * k),
{
    if k == 0 {
        if g == 0 {
            assert(0 * k == 0) by (nonlinear_arith);
            assert(g == 0 * k);
        }
        assert forall|c: int| g == #[trigger] (c * k) implies g == 0 by {
            assert(c * k == 0) by (nonlinear_arith)
                requires
                    k == 0,
            ;
        }
    } else {
        let m = k as int;
        vstd::arithmetic::div_mod::lemma_fundamental_div_mod(g as int, m);
        if is_entrant(g, k) {
            let c = g as int / m;
            assert(c * m == m * c) by (nonlinear_arith);
            assert(g == c * k);
        }
        if exists|c: int| g == #[trigger] (c * k) {
            let c = choose|c: int| g == #[trigger] (c * k);
            vstd::arithmetic::div_mod::lemma_fundamental_div_mod_converse(g as int, m, c, 0);
        }
    }
}

/// The players of a pool that are no nets, and those that can still be drafted,
/// both in the order of the pool.
pub proof fn pools_are_filtered(pool: Seq<u32>, selected: Seq<u32>)
    ensures
        externals(pool) == pool.filter(|g: u32| g >= registry::EXTERNAL_GEN_MIN),
        outside(pool, selected) == pool.filter(|g: u32| !selected.contains(g)),
    decreases pool.len(),
{
    reveal(Seq::filter);
    if pool.len() > 0 {
        pools_are_filtered(pool.drop_last(), selected);
    } else {
        assert(pool.filter(|g: u32| g >= registry::EXTERNAL_GEN_MIN) =~= externals(pool));
        assert(pool.filter(|g: u32| !selected.contains(g)) =~= outside(pool, selected));
    }
}

/// A game has as many seats as asked for, never more than there are players, and
/// two at the least.
pub proof fn games_have_seats_for_two(seats: nat, pool: nat)
    ensures
        game_size(seats, pool) >= 2,
        seats >= 2 && pool >= 2 ==> game_size(seats, pool) <= seats && game_size(seats, pool)
            <= pool,
        game_size(seats, pool) == seats || game_size(seats, pool) == pool || game_size(seats, pool)
            == 2,
        2 <= seats <= pool ==> game_size(seats, pool) == seats,
        2 <= pool <= seats ==> game_size(seats, pool) == pool,
{
}

/// The virtual games tie neighbours of a pool: for each place but the last, one
/// game that its player wins against the next and one that it loses.
pub proof fn neighbours_are_tied(pool: Seq<u32>, i: int)
    requires
        0 <= i < pool.len() - 1,
    ensures
        virtual_orders(pool).len() == 2 * (pool.len() - 1),
        virtual_orders(pool)[2 * i] == (pool[i], pool[i + 1]),
        virtual_orders(pool)[2 * i + 1] == (pool[i + 1], pool[i]),
    decreases pool.len(),
{
    let rest = pool.drop_last();
    if pool.len() > 2 {
        if i < rest.len() - 1 {
            neighbours_are_tied(rest, i);
        } else {
            neighbours_are_tied(rest, 0);
        }
    } else {
        assert(virtual_orders(rest).len() == 0);
    }
}

/// What the ratings count of a player: its placements, those in first place as
/// wins, and the ranks added up. A rank has the slot one below it, and the
/// histogram is as long as the worst rank needs.
pub proof fn ratings_count_placements(ps: Seq<Placement>, gen: u32, slot: nat)
    ensures
        games_of(ps, gen) == ps.filter(|p: Placement| p.gen == gen).len(),
        slot_count(ps, gen, slot) == ps.filter(
            |p: Placement|
                p.gen == gen && (p.rank == slot + 1 || (slot == 0 && p.rank == 0)),
        ).len(),
        forall|i: int|
            0 <= i < ps.len() && (#[trigger] ps[i]).gen == gen ==> deepest(ps, gen) >= ps[i].rank
                && deepest(ps, gen) >= 1,
        deepest(ps, gen) > 0 ==> exists|i: int|
            0 <= i < ps.len() && (#[trigger] ps[i]).gen == gen && (ps[i].rank == deepest(ps, gen)
                || (ps[i].rank == 0 && deepest(ps, gen) == 1)),
    decreases ps.len(),
{
    reveal(Seq::filter);
    if ps.len() > 0 {
        let rest = ps.drop_last();
        let last = ps.len() - 1;
        ratings_count_placements(rest, gen, slot);
        assert forall|i: int| 0 <= i < ps.len() && (#[trigger] ps[i]).gen == gen implies deepest(
            ps,
            gen,
        ) >= ps[i].rank && deepest(ps, gen) >= 1 by {
            if i < last {
                assert(rest[i].gen == gen);
            }
        }
        if deepest(ps, gen) > 0 {
            if deepest(ps, gen) == deepest(rest, gen) {
                let i = choose|i: int|
                    0 <= i < rest.len() && (#[trigger] rest[i]).gen == gen && (rest[i].rank
                        == deepest(rest, gen) || (rest[i].rank == 0 && deepest(rest, gen) == 1));
                assert(ps[i].gen == gen);
            } else {
                assert(ps[last].gen == gen);
            }
        }
    }
}

/// Ranks add up placement by placement.
pub proof fn ranks_add_up(a: Seq<Placement>, b: Seq<Placement>, gen: u32)
    ensures
        rank_sum_of(a + b, gen) == rank_sum_of(a, gen) + rank_sum_of(b, gen),
        b.len() == 1 && b[0].gen == gen ==> rank_sum_of(b, gen) == b[0].rank,
        b.len() == 1 && b[0].gen != gen ==> rank_sum_of(b, gen) == 0,
        b.len() == 0 ==> rank_sum_of(b, gen) == 0,
    decreases b.len(),
{
    if b.len() == 0 {
        assert(a + b =~= a);
    } else {
        ranks_add_up(a, b.drop_last(), gen);
        assert((a + b).drop_last() =~= a + b.drop_last());
        if b.len() == 1 {
            assert(b.drop_last().len() == 0);
        }
    }
}

/// The placements of a history, and its seats, are those of its games, one game
/// after the other.
pub proof fn histories_hold_all_games<F>(records: Seq<MatchRecord<F>>, r: int, s: int)
    requires
        0 <= r < records.len(),
        0 <= s < records[r].placements@.len(),
    ensures
        all_placements(records).contains(records[r].placements@[s]),
        all_seats(records).contains(records[r].placements@[s].gen),
        all_placements(records).len() == all_seats(records).len(),
    decreases records.len(),
{
    let rest = records.drop_last();
    let own = records.last().placements@;
    lemma_as_many_seats(rest);
    let (ap, gs) = (all_placements(records), all_seats(records));
    if r < rest.len() {
        histories_hold_all_games(rest, r, s);
        let (p, g) = (records[r].placements@[s], records[r].placements@[s].gen);
        let i = choose|i: int|
            0 <= i < all_placements(rest).len() && all_placements(rest)[i] == p;
        assert(ap[i] == p);
        let j = choose|j: int| 0 <= j < all_seats(rest).len() && all_seats(rest)[j] == g;
        assert(gs[j] == g);
    } else {
        assert(ap[all_placements(rest).len() + s] == own[s]);
        assert(gs[all_seats(rest).len() + s] == own[s].gen);
    }
}

proof fn lemma_as_many_seats<F>(records: Seq<MatchRecord<F>>)
    ensures
        all_placements(records).len() == all_seats(records).len(),
    decreases records.len(),
{
    if records.len() > 0 {
        lemma_as_many_seats(records.drop_last());
    }
}

/// Pruning keeps the newest games: what stays is no older than what goes.
pub proof fn pruning_keeps_the_newest_games(
    names: Seq<Vec<char>>,
    p: Seq<usize>,
    keep: int,
    a: int,
    b: int,
)
    requires
        names.len() <= usize::MAX,
        order::is_stable_order(newest_first(names, game_files(names)), p),
        0 <= a < keep <= b < p.len(),
    ensures
        ({
            let files = game_files(names);
            let (stays, goes) = (names[files[p[a] as int] as int]@, names[files[p[b] as int] as int]@);
            &&& game_seq(stays) is Some
            &&& game_seq(goes) is Some
            &&& game_seq(stays).unwrap() >= game_seq(goes).unwrap()
        }),
{
    let files = game_files(names);
    let keys = newest_first(names, files);
    let is_game = |i: int| game_seq(names[i]@) is Some;
    lists::lemma_indices_where(names.len(), is_game);
    assert(keys.len() == files.len());
    assert(p[a] < files.len() && p[b] < files.len());
    assert(order::may_precede(keys, p[a], p[b]));
    let (x, y) = (files[p[a] as int], files[p[b] as int]);
    assert(is_game(x as int) && is_game(y as int));
    lemma_seq_bound(names[x as int]@);
    lemma_seq_bound(names[y as int]@);
    assert(keys[p[a] as int] == (u64::MAX - game_seq(names[x as int]@).unwrap()) as u64);
    assert(keys[p[b] as int] == (u64::MAX - game_seq(names[y as int]@).unwrap()) as u64);
}

proof fn lemma_seq_bound(name: Seq<char>)
    ensures
        game_seq(name) matches Some(v) ==> v <= u64::MAX,
{
}

/// The next number is one above the highest, and zero where there is none.
pub proof fn the_next_number_is_new<F>(records: Seq<MatchRecord<F>>)
    ensures
        forall|i: int| 0 <= i < records.len() ==> (#[trigger] records[i]).seq < next_number(records),
        records.len() == 0 ==> next_number(records) == 0,
        records.len() > 0 ==> exists|i: int|
            0 <= i < records.len() && (#[trigger] records[i]).seq + 1 == next_number(records),
    decreases records.len(),
{
    if records.len() > 0 {
        let rest = records.drop_last();
        let last = records.len() - 1;
        the_next_number_is_new(rest);
        assert forall|i: int| 0 <= i < records.len() implies (#[trigger] records[i]).seq
            < next_number(records) by {
            if i < last {
                assert(rest[i].seq < next_number(rest));
            }
        }
        if next_number(records) == next_number(rest) && rest.len() > 0 {
            let i = choose|i: int|
                0 <= i < rest.len() && (#[trigger] rest[i]).seq + 1 == next_number(rest);
            assert(records[i].seq + 1 == next_number(records));
        } else {
            assert(records[last].seq + 1 == next_number(records));
        }
    }
}

/// The seats in first place are those of rank one, so a game has a winner exactly
/// if one seat alone has that rank.
pub proof fn first_seats_have_rank_one(ps: Seq<Placement>)
    ensures
        first_seats(ps) == ps.filter(|p: Placement| p.rank == 1).map_values(
            |p: Placement| p.seat,
        ),
    decreases ps.len(),
{
    reveal(Seq::filter);
    let f = |p: Placement| p.rank == 1;
    let seat = |p: Placement| p.seat;
    if ps.len() > 0 {
        let rest = ps.drop_last();
        first_seats_have_rank_one(rest);
        if f(ps.last()) {
            assert(ps.filter(f) =~= rest.filter(f).push(ps.last()));
            assert(ps.filter(f).map_values(seat) =~= rest.filter(f).map_values(seat).push(
                ps.last().seat,
            ));
        } else {
            assert(ps.filter(f) =~= rest.filter(f));
        }
    } else {
        assert(ps.filter(f).map_values(seat) =~= first_seats(ps));
    }
}

/// The newest checkpoint of a game is its highest net, and zero where no net
/// played.
pub proof fn the_newest_checkpoint_is_the_highest(players: Seq<u32>)
    ensures
        forall|i: int|
            0 <= i < players.len() && (#[trigger] players[i]) < registry::EXTERNAL_GEN_MIN
                ==> players[i] <= newest_net(players),
        newest_net(players) != 0 ==> players.contains(newest_net(players)) && newest_net(players)
            < registry::EXTERNAL_GEN_MIN,
    decreases players.len(),
{
    if players.len() > 0 {
        let rest = players.drop_last();
        the_newest_checkpoint_is_the_highest(rest);
        assert forall|i: int|
            0 <= i < players.len() && (#[trigger] players[i])
                < registry::EXTERNAL_GEN_MIN implies players[i] <= newest_net(players) by {
            if i < rest.len() {
                assert(rest[i] <= newest_net(rest));
            }
        }
        if newest_net(players) != 0 {
            if newest_net(players) == players.last() {
                assert(players[players.len() - 1] == newest_net(players));
            } else {
                let i = choose|i: int| 0 <= i < rest.len() && rest[i] == newest_net(rest);
                assert(players[i] == newest_net(players));
            }
        }
    }
}

/// The history to go by holds every record that has a placement, no other, and
/// stands by number.
pub proof fn histories_go_by_number<F>(records: Seq<MatchRecord<F>>, p: Seq<usize>, r: Seq<usize>)
    requires
        records.len() <= usize::MAX,
        order::is_stable_order(seqs(records, placed_records(records)), p),
        r == p.map_values(|j: usize| placed_records(records)[j as int]),
    ensures
        forall|i: int|
            0 <= i < r.len() ==> #[trigger] r[i] < records.len()
                && records[r[i] as int].placements@.len() > 0,
        forall|i: int, j: int|
            0 <= i < j < r.len() ==> records[#[trigger] r[i] as int].seq
                <= records[#[trigger] r[j] as int].seq,
        forall|k: usize|
            k < records.len() && records[k as int].placements@.len() > 0 ==> #[trigger] r.contains(
                k,
            ),
{
    let keep = |i: int| records[i].placements@.len() > 0;
    let at = placed_records(records);
    lists::lemma_indices_where(records.len(), keep);
    assert forall|i: int| 0 <= i < r.len() implies #[trigger] r[i] < records.len()
        && records[r[i] as int].placements@.len() > 0 by {
        assert(p[i] < at.len());
        assert(keep(at[p[i] as int] as int));
    }
    assert forall|i: int, j: int| 0 <= i < j < r.len() implies records[#[trigger] r[i] as int].seq
        <= records[#[trigger] r[j] as int].seq by {
        assert(p[i] < at.len() && p[j] < at.len());
        assert(order::may_precede(seqs(records, at), p[i], p[j]));
    }
    assert forall|k: usize|
        k < records.len() && records[k as int].placements@.len()
            > 0 implies #[trigger] r.contains(k) by {
        assert(keep(k as int));
        let q = choose|q: int| 0 <= q < at.len() && at[q] == k;
        lists::lemma_permutation_covers(p, at.len(), q);
        let i = choose|i: int| 0 <= i < p.len() && p[i] == q as usize;
        assert(r[i] == k);
    }
}

} // verus!
