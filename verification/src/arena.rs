//! The arena: a fixed set of game slots that stays full.
//!
//! A finished game is recorded and a fresh matchup starts in its slot; games
//! that are still running when a burst ends are carried to the next one.

use rand_xoshiro::Xoshiro256PlusPlus;
use vstd::multiset::Multiset;
use vstd::prelude::*;

use crate::board::{Board, Move};
use crate::groups::{self, SeatKind};
use crate::lists;
use crate::matchup;
use crate::placing::{self, Placement};
use crate::sample::{self, FrameJson};

verus! {

/// Recorded game files per burst.
pub const RECORDED_GAMES_PER_BURST: usize = 8;

/// A league game ends here if nobody has won.
pub const LEAGUE_MAX_TURNS: u32 = 500;

/// One game in flight, as it is carried between bursts.
pub struct CarriedGame<F> {
    /// The matchup's players; seat `s` is played by
    /// `players[(s + rotation) % players.len()]`.
    pub players: Vec<u32>,
    pub rotation: usize,
    pub board: Board,
    pub turn: u32,
    /// The turn each seat's snake died on.
    pub death_turn: Vec<Option<u32>>,
    /// The frames so far; empty unless `record`.
    pub frames: Vec<FrameJson<F>>,
    pub record: bool,
    /// Wall seconds spent in earlier bursts.
    pub prior_seconds: F,
}

/// The state of the arena between bursts.
pub struct ArenaState<F> {
    /// The games in flight by slot; an empty slot starts fresh.
    pub slots: Vec<Option<CarriedGame<F>>>,
    /// The checkpoints that hold a station.
    pub stations: Vec<u32>,
}

/// A finished game, before it is numbered.
pub struct FinishedGame<F> {
    pub finished_order: usize,
    pub players: Vec<u32>,
    pub placements: Vec<Placement>,
    pub turns: u32,
    pub wall_seconds: F,
    pub frames: Option<Vec<FrameJson<F>>>,
}

impl<F> CarriedGame<F> {
    /// Whether the game has `n` seats that its players can fill.
    pub open spec fn wf(&self, n: nat) -> bool {
        &&& self.players@.len() > 0
        &&& self.rotation + n <= usize::MAX
        &&& self.death_turn@.len() == n
        &&& self.board.snakes@.len() == n
    }

    /// The player of each seat.
    pub open spec fn seat_gens(&self) -> Seq<u32> {
        groups::seat_players(self.players@, self.rotation as nat, self.death_turn@.len())
    }
}

/// Whether every player of a game still has a station or is a heuristic.
pub open spec fn players_present(players: Seq<u32>, stations: Seq<u32>, heuristics: Seq<u32>) -> bool {
    forall|i: int|
        0 <= i < players.len() ==> stations.contains(#[trigger] players[i]) || heuristics.contains(
            players[i],
        )
}

/// Whether a carried game can go on: its board has the right size and number of
/// snakes, and all its players are present.
pub open spec fn can_go_on<F>(
    g: &CarriedGame<F>,
    board: i8,
    n: nat,
    stations: Seq<u32>,
    heuristics: Seq<u32>,
) -> bool {
    g.board.width == board && g.board.snakes@.len() == n && players_present(
        g.players@,
        stations,
        heuristics,
    )
}

/// Whether slot `i` holds a game that can go on.
pub open spec fn slot_goes_on<F>(
    slots: Seq<Option<CarriedGame<F>>>,
    i: int,
    board: i8,
    n: nat,
    stations: Seq<u32>,
    heuristics: Seq<u32>,
) -> bool {
    slots[i] matches Some(g) && can_go_on(&g, board, n, stations, heuristics)
}

/// Whether every player of a game still has a station or is a heuristic.
fn all_present(players: &Vec<u32>, stations: &Vec<u32>, heuristics: &Vec<u32>) -> (r: bool)
    ensures
        r == players_present(players@, stations@, heuristics@),
{
    let mut i: usize = 0;
    while i < players.len()
        invariant
            i <= players@.len(),
            forall|j: int|
                0 <= j < i ==> stations@.contains(#[trigger] players@[j]) || heuristics@.contains(
                    players@[j],
                ),
        decreases players@.len() - i,
    {
        if !lists::has_u32(stations, players[i]) && !lists::has_u32(heuristics, players[i]) {
            return false;
        }
        i = i + 1;
    }
    true
}

/// The number of slots that hold a game.
pub open spec fn taken_slots<F>(slots: Seq<Option<CarriedGame<F>>>) -> nat
    decreases slots.len(),
{
    if slots.len() == 0 {
        0
    } else {
        taken_slots(slots.drop_last()) + if slots.last() is Some {
            1nat
        } else {
            0nat
        }
    }
}

/// The slots with which a burst starts: `total` of them, each with its carried
/// game where that can go on.
pub open spec fn thawed<F>(
    slots: Seq<Option<CarriedGame<F>>>,
    total: nat,
    board: i8,
    n: nat,
    stations: Seq<u32>,
    heuristics: Seq<u32>,
) -> Seq<Option<CarriedGame<F>>> {
    Seq::new(
        total,
        |i: int|
            if i < slots.len() && slot_goes_on(slots, i, board, n, stations, heuristics) {
                slots[i]
            } else {
                None
            },
    )
}

/// Brings the slots to `total`, and abandons the games that the stations and
/// heuristics at hand cannot seat.
///
/// Returns how many games go on and how many were abandoned; games in slots
/// beyond `total` are dropped without being counted.
pub fn thaw<F>(
    slots: &mut Vec<Option<CarriedGame<F>>>,
    total: usize,
    board: i8,
    n: usize,
    stations: &Vec<u32>,
    heuristics: &Vec<u32>,
) -> (r: (usize, usize))
    ensures
        final(slots)@ == thawed(old(slots)@, total as nat, board, n as nat, stations@, heuristics@),
        r.0 == taken_slots(final(slots)@),
        r.0 + r.1 == taken_slots(
            if old(slots)@.len() <= total {
                old(slots)@
            } else {
                old(slots)@.take(total as int)
            },
        ),
{
    let ghost start = slots@;
    let mut carried: usize = 0;
    let mut abandoned: usize = 0;
    slots.truncate(total);
    let ghost cut = slots@;
    let len: usize = slots.len();
    let mut i: usize = 0;
    while i < len
        invariant
            i <= len,
            len == cut.len(),
            slots@.len() == len,
            len <= total,
            forall|j: int| i <= j < len ==> slots@[j] == cut[j],
            forall|j: int|
                0 <= j < i ==> #[trigger] slots@[j] == if slot_goes_on(
                    cut,
                    j,
                    board,
                    n as nat,
                    stations@,
                    heuristics@,
                ) {
                    cut[j]
                } else {
                    None
                },
            carried == taken_slots(slots@.take(i as int)),
            carried + abandoned == taken_slots(cut.take(i as int)),
            carried + abandoned <= i,
        decreases len - i,
    {
        let ghost before = slots@;
        let keep = match &slots[i] {
            Some(g) => g.board.width == board && g.board.snakes.len() == n && all_present(
                &g.players,
                stations,
                heuristics,
            ),
            None => false,
        };
        assert(cut.take(i + 1).drop_last() =~= cut.take(i as int));
        assert(keep == slot_goes_on(cut, i as int, board, n as nat, stations@, heuristics@));
        if slots[i].is_some() {
            if keep {
                carried = carried + 1;
            } else {
                abandoned = abandoned + 1;
                slots[i] = None;
            }
        }
        assert(slots@.take(i + 1).drop_last() =~= before.take(i as int));
        i = i + 1;
    }
    assert(slots@.take(len as int) =~= slots@);
    assert(cut.take(len as int) =~= cut);
    while slots.len() < total
        invariant
            len <= slots@.len() <= total,
            carried == taken_slots(slots@),
            forall|j: int|
                0 <= j < len ==> #[trigger] slots@[j] == if slot_goes_on(
                    cut,
                    j,
                    board,
                    n as nat,
                    stations@,
                    heuristics@,
                ) {
                    cut[j]
                } else {
                    None
                },
            forall|j: int| len <= j < slots@.len() ==> #[trigger] slots@[j] is None,
        decreases total - slots@.len(),
    {
        let ghost before = slots@;
        slots.push(None);
        assert(slots@.drop_last() =~= before);
    }
    proof {
        let goal = thawed(start, total as nat, board, n as nat, stations@, heuristics@);
        assert forall|j: int| 0 <= j < total implies slots@[j] == #[trigger] goal[j] by {
            if j < len {
                assert(cut[j] == start[j]);
            }
        }
        assert(slots@ =~= goal);
        if start.len() <= total {
            assert(cut =~= start);
        } else {
            assert(cut =~= start.take(total as int));
        }
    }
    (carried, abandoned)
}

/// The number of row groups per station: enough for every seat of every slot
/// shared out evenly, and two to spare.
pub open spec fn group_cap(slots: nat, n: nat, stations: nat) -> nat {
    let k = if stations > 0 {
        stations
    } else {
        1
    };
    ((slots * n + k - 1) as nat) / k + 2
}

/// All groups of a station.
pub open spec fn all_groups(cap: nat) -> Multiset<usize> {
    Seq::new(cap, |i: int| (cap - 1 - i) as usize).to_multiset()
}

/// One slot of a worker with a game in it.
pub struct LiveSlot<F> {
    pub game: CarriedGame<F>,
    pub seats: Vec<SeatKind>,
}

/// A worker's slots and the row groups that its seats draw on.
pub struct Worker<F> {
    /// Seats per game.
    pub n: usize,
    /// Row groups per station.
    pub cap: usize,
    pub stations: Vec<u32>,
    pub heuristics: Vec<u32>,
    /// The free groups of each station; the next one to go is the last.
    pub free: Vec<Vec<usize>>,
    pub live: Vec<Option<LiveSlot<F>>>,
}

/// The seats of a slot.
pub open spec fn slot_seats<F>(slot: Option<LiveSlot<F>>) -> Seq<SeatKind> {
    match slot {
        Some(l) => l.seats@,
        None => Seq::empty(),
    }
}

/// The groups of station `s` that the slots hold together.
pub open spec fn held_by_all<F>(live: Seq<Option<LiveSlot<F>>>, s: usize) -> Multiset<usize>
    decreases live.len(),
{
    if live.len() == 0 {
        Multiset::empty()
    } else {
        held_by_all(live.drop_last(), s).add(
            groups::held(slot_seats(live.last()), s).to_multiset(),
        )
    }
}

/// Whether a slot is in good order for `n` seats and `k` stations.
pub open spec fn slot_wf<F>(slot: Option<LiveSlot<F>>, n: nat, k: nat) -> bool {
    slot matches Some(l) ==> {
        &&& l.game.wf(n)
        &&& l.seats@.len() == n
        &&& groups::stations_exist(l.seats@, k)
    }
}

/// The groups of station `s` that are free or held.
pub open spec fn accounted<F>(
    free: Seq<Vec<usize>>,
    live: Seq<Option<LiveSlot<F>>>,
    s: usize,
) -> Multiset<usize> {
    free[s as int]@.to_multiset().add(held_by_all(live, s))
}

impl<F> Worker<F> {
    /// Every group of every station is either free or held by exactly one
    /// seat, and there are groups enough for all slots.
    pub open spec fn wf(&self) -> bool {
        &&& self.free@.len() == self.stations@.len()
        &&& self.cap == group_cap(self.live@.len(), self.n as nat, self.stations@.len())
        &&& forall|i: int|
            0 <= i < self.live@.len() ==> slot_wf(
                #[trigger] self.live@[i],
                self.n as nat,
                self.stations@.len(),
            )
        &&& forall|s: usize|
            s < self.stations@.len() ==> #[trigger] accounted(self.free@, self.live@, s)
                == all_groups(self.cap as nat)
    }

    /// What a slot operation leaves alone.
    pub open spec fn same_arena(&self, other: &Self) -> bool {
        &&& self.n == other.n
        &&& self.cap == other.cap
        &&& self.stations@ == other.stations@
        &&& self.heuristics@ == other.heuristics@
        &&& self.live@.len() == other.live@.len()
    }
}

proof fn lemma_held_update<F>(
    live: Seq<Option<LiveSlot<F>>>,
    i: int,
    slot: Option<LiveSlot<F>>,
    s: usize,
)
    requires
        0 <= i < live.len(),
    ensures
        held_by_all(live.update(i, slot), s).add(
            groups::held(slot_seats(live[i]), s).to_multiset(),
        ) == held_by_all(live, s).add(groups::held(slot_seats(slot), s).to_multiset()),
    decreases live.len(),
{
    let next = live.update(i, slot);
    if i == live.len() - 1 {
        assert(next.drop_last() =~= live.drop_last());
        assert(held_by_all(next, s).add(groups::held(slot_seats(live[i]), s).to_multiset())
            =~= held_by_all(live, s).add(groups::held(slot_seats(slot), s).to_multiset()));
    } else {
        let t = live.drop_last();
        lemma_held_update(t, i, slot, s);
        assert(next.drop_last() =~= t.update(i, slot));
        assert(next.last() == live.last());
        let (a, b) = (held_by_all(t.update(i, slot), s), held_by_all(t, s));
        let (x, y, z) = (
            groups::held(slot_seats(live[i]), s).to_multiset(),
            groups::held(slot_seats(slot), s).to_multiset(),
            groups::held(slot_seats(live.last()), s).to_multiset(),
        );
        assert(a.add(x) == b.add(y));
        assert(a.add(z).add(x) =~= a.add(x).add(z));
        assert(b.add(z).add(y) =~= b.add(y).add(z));
    }
}

proof fn lemma_nothing_held<F>(live: Seq<Option<LiveSlot<F>>>, s: usize)
    requires
        forall|i: int| 0 <= i < live.len() ==> #[trigger] live[i] is None,
    ensures
        held_by_all(live, s) == Multiset::<usize>::empty(),
    decreases live.len(),
{
    broadcast use vstd::seq_lib::group_to_multiset_ensures;

    if live.len() > 0 {
        lemma_nothing_held(live.drop_last(), s);
        assert(live[live.len() - 1] is None);
        let h = groups::held(slot_seats(live.last()), s);
        assert(h =~= Seq::<usize>::empty());
        assert(h.to_multiset() =~= Multiset::<usize>::empty());
        assert(held_by_all(live, s) =~= Multiset::<usize>::empty());
    }
}

/// The groups `cap - 1, ..., 1, 0`.
fn descending(cap: usize) -> (v: Vec<usize>)
    ensures
        v@ == Seq::new(cap as nat, |i: int| (cap - 1 - i) as usize),
{
    let mut v: Vec<usize> = Vec::new();
    let mut i: usize = 0;
    while i < cap
        invariant
            i <= cap,
            v@ == Seq::new(i as nat, |i: int| (cap - 1 - i) as usize),
        decreases cap - i,
    {
        v.push(cap - 1 - i);
        i = i + 1;
        assert(v@ =~= Seq::new(i as nat, |i: int| (cap - 1 - i) as usize));
    }
    v
}

impl<F: Copy> Worker<F> {
    /// A worker with empty slots and all row groups free; the groups of a
    /// station are handed out from zero up.
    pub fn new(slots: usize, n: usize, stations: Vec<u32>, heuristics: Vec<u32>) -> (w: Worker<F>)
        requires
            slots * n + stations@.len() + 2 <= usize::MAX,
        ensures
            w.wf(),
            w.n == n,
            w.cap == group_cap(slots as nat, n as nat, stations@.len()),
            w.stations@ == stations@,
            w.heuristics@ == heuristics@,
            w.live@.len() == slots,
            forall|i: int| 0 <= i < slots ==> #[trigger] w.live@[i] is None,
            forall|s: int|
                0 <= s < stations@.len() ==> (#[trigger] w.free@[s])@ == Seq::new(
                    w.cap as nat,
                    |i: int| (w.cap - 1 - i) as usize,
                ),
    {
        let k: usize = if stations.len() > 0 { stations.len() } else { 1 };
        let rows: usize = slots * n;
        assert((rows + k - 1) / k as int <= rows + k - 1) by (nonlinear_arith)
            requires
                k >= 1,
                rows + k - 1 >= 0,
        ;
        assert((rows + k - 1) / k as int <= rows) by (nonlinear_arith)
            requires
                k >= 1,
                rows >= 0,
        ;
        let cap: usize = (rows + (k - 1)) / k + 2;
        let mut free: Vec<Vec<usize>> = Vec::new();
        let mut live: Vec<Option<LiveSlot<F>>> = Vec::new();
        while free.len() < stations.len()
            invariant
                free@.len() <= stations@.len(),
                forall|s: int|
                    0 <= s < free@.len() ==> (#[trigger] free@[s])@ == Seq::new(
                        cap as nat,
                        |i: int| (cap - 1 - i) as usize,
                    ),
            decreases stations@.len() - free@.len(),
        {
            free.push(descending(cap));
        }
        while live.len() < slots
            invariant
                live@.len() <= slots,
                forall|i: int| 0 <= i < live@.len() ==> #[trigger] live@[i] is None,
            decreases slots - live@.len(),
        {
            live.push(None);
        }
        let w = Worker { n, cap, stations, heuristics, free, live };
        proof {
            assert forall|s: usize| s < w.stations@.len() implies #[trigger] accounted(
                w.free@,
                w.live@,
                s,
            ) == all_groups(w.cap as nat) by {
                lemma_nothing_held(w.live@, s);
                assert(w.free@[s as int]@ == Seq::new(cap as nat, |i: int| (cap - 1 - i) as usize));
                assert(accounted(w.free@, w.live@, s) =~= all_groups(w.cap as nat));
            }
        }
        w
    }

    /// Seats a game in an empty slot, where its stations have groups for it.
    /// A game that does not fit is dropped, and the slot stays empty.
    pub fn seat_game(&mut self, idx: usize, game: CarriedGame<F>) -> (seated: bool)
        requires
            old(self).wf(),
            idx < old(self).live@.len(),
            old(self).live@[idx as int] is None,
            game.wf(old(self).n as nat),
        ensures
            final(self).wf(),
            final(self).same_arena(old(self)),
            seated == (groups::blocked_at(
                groups::seat_plan(
                    game.players@,
                    game.rotation as nat,
                    old(self).n as nat,
                    old(self).stations@,
                ),
                old(self).free@,
            ) is None),
            forall|i: int|
                0 <= i < old(self).live@.len() && i != idx ==> #[trigger] final(self).live@[i]
                    == old(self).live@[i],
            seated ==> (final(self).live@[idx as int] matches Some(l) && l.game == game && (
            forall|i: int|
                0 <= i < old(self).n ==> #[trigger] l.seats@[i] == groups::seat_kind(
                    groups::seat_plan(
                        game.players@,
                        game.rotation as nat,
                        old(self).n as nat,
                        old(self).stations@,
                    ),
                    i,
                    old(self).free@,
                    groups::seat_player(game.players@, game.rotation as nat, i),
                    old(self).heuristics@,
                ))),
            !seated ==> final(self).live@[idx as int] is None,
            forall|s: usize|
                s < old(self).stations@.len() ==> (#[trigger] final(self).free@[s as int])@ == ({
                    let plan = groups::seat_plan(
                        game.players@,
                        game.rotation as nat,
                        old(self).n as nat,
                        old(self).stations@,
                    );
                    let had = old(self).free@[s as int]@;
                    match groups::blocked_at(plan, old(self).free@) {
                        Some(at) => groups::returned(had, groups::claims(plan.take(at), s)),
                        None => had.take(had.len() - groups::claims(plan, s)),
                    }
                }),
    {
        let ghost plan = groups::seat_plan(
            game.players@,
            game.rotation as nat,
            self.n as nat,
            self.stations@,
        );
        let ghost free0 = self.free@;
        let ghost live0 = self.live@;
        let k: usize = self.stations.len();
        proof {
            assert forall|i: int| 0 <= i < plan.len() implies (#[trigger] plan[i] matches Some(
                s,
            ) ==> s < free0.len()) by {
                groups::lemma_last_position(
                    self.stations@,
                    groups::seat_player(game.players@, game.rotation as nat, i),
                );
            }
            groups::blocked_means_no_fit(plan, free0);
        }
        match groups::rig_seats(
            &game.players,
            game.rotation,
            self.n,
            &self.stations,
            &self.heuristics,
            &mut self.free,
        ) {
            Some(seats) => {
                proof {
                    assert forall|i: int| 0 <= i < seats@.len() implies (
                    #[trigger] seats@[i] matches SeatKind::Net { station, .. } ==> station < k) by {
                        assert(plan[i] matches Some(s) ==> s < free0.len());
                    }
                }
                let ghost slot = Some(LiveSlot { game, seats });
                self.live[idx] = Some(LiveSlot { game, seats });
                proof {
                    assert(self.live@ == live0.update(idx as int, slot));
                    assert forall|s: usize| s < self.stations@.len() implies #[trigger] accounted(
                        self.free@,
                        self.live@,
                        s,
                    ) == all_groups(self.cap as nat) by {
                        assert(accounted(free0, live0, s) == all_groups(self.cap as nat));
                        let f = free0[s as int]@;
                        let c = groups::claims(plan, s);
                        assert(groups::fits(plan, free0));
                        assert(c <= f.len());
                        groups::lemma_held_after_rigging(
                            seats@,
                            plan,
                            free0,
                            groups::seat_players(
                                game.players@,
                                game.rotation as nat,
                                self.n as nat,
                            ),
                            self.heuristics@,
                            s,
                        );
                        let h = groups::held(seats@, s);
                        lemma_held_update(live0, idx as int, slot, s);
                        vstd::seq_lib::lemma_multiset_commutative(f.take(f.len() - c), h);
                        assert(f.take(f.len() - c) + h == groups::returned(f, c));
                        groups::returned_groups_are_the_same(f, c);
                        assert(self.free@[s as int]@ == f.take(f.len() - c));
                        lemma_empty_slot_holds_nothing::<F>(s);
                        let a = held_by_all(self.live@, s);
                        let b = held_by_all(live0, s);
                        assert(a.add(Multiset::empty()) =~= a);
                        assert(a == b.add(h.to_multiset()));
                        let t = f.take(f.len() - c).to_multiset();
                        assert(t.add(b.add(h.to_multiset())) =~= t.add(h.to_multiset()).add(b));
                    }
                    assert forall|i: int| 0 <= i < self.live@.len() implies slot_wf(
                        #[trigger] self.live@[i],
                        self.n as nat,
                        self.stations@.len(),
                    ) by {
                        assert(slot_wf(live0[i], self.n as nat, self.stations@.len()));
                    }
                }
                true
            },
            None => {
                proof {
                    assert forall|s: usize| s < self.stations@.len() implies #[trigger] accounted(
                        self.free@,
                        self.live@,
                        s,
                    ) == all_groups(self.cap as nat) by {
                        assert(accounted(free0, live0, s) == all_groups(self.cap as nat));
                        let j = groups::blocked_at(plan, free0).unwrap();
                        groups::lemma_claims_before_block(plan, free0, s);
                        groups::returned_groups_are_the_same(
                            free0[s as int]@,
                            groups::claims(plan.take(j), s),
                        );
                        assert(self.free@[s as int]@ == groups::returned(
                            free0[s as int]@,
                            groups::claims(plan.take(j), s),
                        ));
                    }
                }
                false
            },
        }
    }

    /// Takes the game out of a slot; its row groups are free again.
    pub fn vacate(&mut self, idx: usize) -> (game: CarriedGame<F>)
        requires
            old(self).wf(),
            idx < old(self).live@.len(),
            old(self).live@[idx as int] is Some,
        ensures
            final(self).wf(),
            final(self).same_arena(old(self)),
            final(self).live@ == old(self).live@.update(idx as int, None),
            game == old(self).live@[idx as int].unwrap().game,
            forall|s: usize|
                s < old(self).stations@.len() ==> (#[trigger] final(self).free@[s as int])@ == old(
                    self,
                ).free@[s as int]@ + groups::held(
                    old(self).live@[idx as int].unwrap().seats@,
                    s,
                ),
    {
        let ghost free0 = self.free@;
        let ghost live0 = self.live@;
        let mut taken: Option<LiveSlot<F>> = None;
        core::mem::swap(&mut self.live[idx], &mut taken);
        assert(slot_wf(live0[idx as int], self.n as nat, self.stations@.len()));
        let l = taken.unwrap();
        groups::release(&mut self.free, &l.seats);
        proof {
            assert(self.live@ =~= live0.update(idx as int, None));
            assert forall|s: usize| s < self.stations@.len() implies #[trigger] accounted(
                self.free@,
                self.live@,
                s,
            ) == all_groups(self.cap as nat) by {
                assert(accounted(free0, live0, s) == all_groups(self.cap as nat));
                let h = groups::held(l.seats@, s);
                lemma_held_update(live0, idx as int, None, s);
                lemma_empty_slot_holds_nothing::<F>(s);
                let a = held_by_all(self.live@, s);
                let b = held_by_all(live0, s);
                assert(b.add(Multiset::empty()) =~= b);
                assert(a.add(h.to_multiset()) == b);
                assert(self.free@[s as int]@ == free0[s as int]@ + h);
                vstd::seq_lib::lemma_multiset_commutative(free0[s as int]@, h);
                let f = free0[s as int]@.to_multiset();
                assert(f.add(h.to_multiset()).add(a) =~= f.add(a.add(h.to_multiset())));
            }
            assert forall|i: int| 0 <= i < self.live@.len() implies slot_wf(
                #[trigger] self.live@[i],
                self.n as nat,
                self.stations@.len(),
            ) by {
                assert(slot_wf(live0[i], self.n as nat, self.stations@.len()));
            }
        }
        l.game
    }
}

proof fn lemma_empty_slot_holds_nothing<F>(s: usize)
    ensures
        groups::held(slot_seats(None::<LiveSlot<F>>), s).to_multiset() == Multiset::<usize>::empty(),
{
    broadcast use vstd::seq_lib::group_to_multiset_ensures;

    assert(groups::held(slot_seats(None::<LiveSlot<F>>), s) =~= Seq::<usize>::empty());
    assert(Seq::<usize>::empty().to_multiset() =~= Multiset::<usize>::empty());
}

/// How many groups seats hold at the first `k` stations together.
spec fn seats_hold(seats: Seq<SeatKind>, k: nat) -> nat
    decreases k,
{
    if k == 0 {
        0
    } else {
        seats_hold(seats, (k - 1) as nat) + groups::held(seats, (k - 1) as usize).len()
    }
}

/// How many groups all slots hold at the first `k` stations together.
spec fn slots_hold<F>(live: Seq<Option<LiveSlot<F>>>, k: nat) -> nat
    decreases k,
{
    if k == 0 {
        0
    } else {
        slots_hold(live, (k - 1) as nat) + held_by_all(live, (k - 1) as usize).len()
    }
}

/// The number of slots with a game.
spec fn busy<F>(live: Seq<Option<LiveSlot<F>>>) -> nat
    decreases live.len(),
{
    if live.len() == 0 {
        0
    } else {
        busy(live.drop_last()) + if live.last() is Some {
            1nat
        } else {
            0nat
        }
    }
}

proof fn lemma_one_seat_more(seats: Seq<SeatKind>, k: nat)
    requires
        seats.len() > 0,
        k <= usize::MAX,
    ensures
        seats_hold(seats, k) <= seats_hold(seats.drop_last(), k) + 1,
        (seats.last() matches SeatKind::Net { station, .. } ==> station >= k) ==> seats_hold(
            seats,
            k,
        ) == seats_hold(seats.drop_last(), k),
    decreases k,
{
    if k > 0 {
        lemma_one_seat_more(seats, (k - 1) as nat);
    }
}

proof fn lemma_seats_hold(seats: Seq<SeatKind>, k: nat)
    requires
        k <= usize::MAX,
    ensures
        seats_hold(seats, k) <= seats.len(),
    decreases seats.len(), k,
{
    if seats.len() > 0 {
        lemma_seats_hold(seats.drop_last(), k);
        lemma_one_seat_more(seats, k);
    } else if k > 0 {
        lemma_seats_hold(seats, (k - 1) as nat);
    }
}

proof fn lemma_slots_hold_last<F>(live: Seq<Option<LiveSlot<F>>>, k: nat)
    requires
        live.len() > 0,
    ensures
        slots_hold(live, k) == slots_hold(live.drop_last(), k) + seats_hold(
            slot_seats(live.last()),
            k,
        ),
    decreases k,
{
    broadcast use vstd::seq_lib::group_to_multiset_ensures;

    if k > 0 {
        lemma_slots_hold_last(live, (k - 1) as nat);
        let h = groups::held(slot_seats(live.last()), (k - 1) as usize);
        assert(h.to_multiset().len() == h.len());
    }
}

proof fn lemma_slots_hold<F>(live: Seq<Option<LiveSlot<F>>>, n: nat, k: nat)
    requires
        k <= usize::MAX,
        forall|i: int| 0 <= i < live.len() ==> slot_wf(#[trigger] live[i], n, k),
    ensures
        slots_hold(live, k) <= n * busy(live),
    decreases live.len(), k,
{
    if live.len() > 0 {
        let t = live.drop_last();
        assert forall|i: int| 0 <= i < t.len() implies slot_wf(#[trigger] t[i], n, k) by {
            assert(slot_wf(live[i], n, k));
        }
        lemma_slots_hold(t, n, k);
        lemma_slots_hold_last(live, k);
        lemma_seats_hold(slot_seats(live.last()), k);
        assert(slot_wf(live[live.len() - 1], n, k));
        let b = busy(t);
        assert(n * (b + 1) == n * b + n) by (nonlinear_arith);
    } else {
        lemma_nothing_is_held(live, k);
    }
}

proof fn lemma_nothing_is_held<F>(live: Seq<Option<LiveSlot<F>>>, k: nat)
    requires
        live.len() == 0,
    ensures
        slots_hold(live, k) == 0,
    decreases k,
{
    if k > 0 {
        lemma_nothing_is_held(live, (k - 1) as nat);
    }
}

proof fn lemma_busy<F>(live: Seq<Option<LiveSlot<F>>>)
    ensures
        busy(live) <= live.len(),
        (exists|i: int| 0 <= i < live.len() && #[trigger] live[i] is None) ==> busy(live)
            < live.len(),
    decreases live.len(),
{
    if live.len() > 0 {
        let t = live.drop_last();
        lemma_busy(t);
        if exists|i: int| 0 <= i < live.len() && #[trigger] live[i] is None {
            let i = choose|i: int| 0 <= i < live.len() && #[trigger] live[i] is None;
            if i < t.len() {
                assert(t[i] is None);
            }
        }
    }
}

proof fn lemma_room_by_station<F>(w: &Worker<F>, k: nat)
    requires
        w.wf(),
        k <= w.stations@.len(),
        w.stations@.len() <= usize::MAX,
    ensures
        matchup::room(w.free@.take(k as int)) + slots_hold(w.live@, k) == k * w.cap,
    decreases k,
{
    broadcast use vstd::seq_lib::group_to_multiset_ensures;

    if k > 0 {
        let k1 = (k - 1) as nat;
        lemma_room_by_station(w, k1);
        assert(w.free@.take(k as int).drop_last() =~= w.free@.take(k1 as int));
        let s = k1 as usize;
        assert(accounted(w.free@, w.live@, s) == all_groups(w.cap as nat));
        let f = w.free@[k1 as int]@;
        let all = Seq::new(w.cap as nat, |i: int| (w.cap - 1 - i) as usize);
        assert(f.to_multiset().len() == f.len());
        assert(all.to_multiset().len() == all.len());
        assert(f.to_multiset().add(held_by_all(w.live@, s)).len() == f.to_multiset().len()
            + held_by_all(w.live@, s).len());
        let c = w.cap as int;
        assert(k * c == k1 * c + c) by (nonlinear_arith)
            requires
                k == k1 + 1,
        ;
        assert(matchup::room(w.free@.take(k as int)) == matchup::room(w.free@.take(k1 as int))
            + f.len());
        assert(f.len() + held_by_all(w.live@, s).len() == c);
    } else {
        assert(w.free@.take(0) =~= Seq::<Vec<usize>>::empty());
        assert(matchup::room(w.free@.take(0)) == 0);
    }
}

/// While a slot is empty, the stations have a free group for each of its seats,
/// and two more per station.
pub proof fn empty_slot_has_room<F>(w: &Worker<F>, idx: int)
    requires
        w.wf(),
        0 < w.stations@.len() <= usize::MAX,
        0 <= idx < w.live@.len(),
        w.live@[idx] is None,
    ensures
        matchup::room(w.free@) >= w.n + 2 * w.stations@.len(),
{
    let k = w.stations@.len();
    let (slots, n, cap) = (w.live@.len(), w.n as nat, w.cap as nat);
    lemma_room_by_station(w, k);
    assert(w.free@.take(k as int) =~= w.free@);
    lemma_slots_hold(w.live@, n, k);
    lemma_busy(w.live@);
    let b = busy(w.live@);
    let rows = slots * n;
    vstd::arithmetic::div_mod::lemma_fundamental_div_mod((rows + k - 1) as int, k as int);
    let q = (rows + k - 1) as int / k as int;
    assert(k * q >= rows);
    assert(cap == q + 2);
    assert(k * cap == k * q + 2 * k) by (nonlinear_arith)
        requires
            cap == q + 2,
    ;
    assert(n * b + n <= slots * n) by (nonlinear_arith)
        requires
            b + 1 <= slots,
    ;
}

/// Whether a game is fresh: no turn has been played and nobody has died.
pub open spec fn is_fresh<F>(g: CarriedGame<F>, n: nat, zero: F) -> bool {
    &&& g.turn == 0
    &&& g.death_turn@ == Seq::new(n, |i: int| None::<u32>)
    &&& g.frames@.len() == 0
    &&& g.prior_seconds == zero
}

impl<F: Copy> Worker<F> {
    /// Starts a fresh game in an empty slot: completes the draft and seats it.
    /// There is always room for it, so the slot is never left empty.
    pub fn refill(
        &mut self,
        rng: &mut Xoshiro256PlusPlus,
        idx: usize,
        selected: Vec<u32>,
        board: Board,
        record: bool,
        zero: F,
    )
        requires
            old(self).wf(),
            old(self).n > 0,
            old(self).stations@.len() > 0,
            old(self).stations@.no_duplicates(),
            idx < old(self).live@.len(),
            old(self).live@[idx as int] is None,
            selected@.no_duplicates(),
            board.snakes@.len() == old(self).n,
            old(self).live@.len() + selected@.len() + old(self).n + 2 <= usize::MAX,
        ensures
            final(self).wf(),
            final(self).same_arena(old(self)),
            forall|i: int|
                0 <= i < old(self).live@.len() && i != idx ==> #[trigger] final(self).live@[i]
                    == old(self).live@[i],
            final(self).live@[idx as int] is Some,
            ({
                let l = final(self).live@[idx as int].unwrap();
                let full = matchup::filled(selected@, old(self).heuristics@);
                &&& exists|d: usize, rotation: usize|
                    (d < full.len() || d == 0) && #[trigger] matchup::is_rotation(idx, d, rotation)
                        && (l.game.players@, l.game.rotation) == matchup::seatable(
                        full,
                        rotation,
                        old(self).n as nat,
                        old(self).stations@,
                        old(self).free@,
                    )
                &&& l.game.board == board
                &&& l.game.record == record
                &&& is_fresh(l.game, old(self).n as nat, zero)
                &&& l.game.turn == 0
                &&& l.game.frames@.len() == 0
                &&& l.game.death_turn@.len() == old(self).n
                &&& forall|s: int|
                    0 <= s < old(self).n ==> #[trigger] l.game.death_turn@[s] is None
                &&& forall|i: int|
                    0 <= i < old(self).n ==> #[trigger] l.seats@[i] == groups::seat_kind(
                        groups::seat_plan(
                            l.game.players@,
                            l.game.rotation as nat,
                            old(self).n as nat,
                            old(self).stations@,
                        ),
                        i,
                        old(self).free@,
                        groups::seat_player(l.game.players@, l.game.rotation as nat, i),
                        old(self).heuristics@,
                    )
            }),
    {
        let k: usize = self.stations.len();
        let ghost full = matchup::filled(selected@, self.heuristics@);
        proof {
            empty_slot_has_room(&*self, idx as int);
            matchup::lemma_filled_len(selected@, self.heuristics@);
        }
        let (players, rotation) = matchup::complete_draft(
            rng,
            selected,
            &self.heuristics,
            &self.stations,
            &self.free,
            idx,
            self.n,
        );
        let death_turn: Vec<Option<u32>> = repeated(None, self.n);
        let game = CarriedGame {
            players,
            rotation,
            board,
            turn: 0,
            death_turn,
            frames: Vec::new(),
            record,
            prior_seconds: zero,
        };
        let seated = self.seat_game(idx, game);
        assert(seated);
    }
}

/// Whether two living snakes belong to different players.
pub open spec fn contested<F>(g: &CarriedGame<F>) -> bool {
    exists|i: int, j: int|
        0 <= i < g.board.snakes@.len() && 0 <= j < g.board.snakes@.len() && #[trigger] g.board.seat_alive(
            i,
        ) && #[trigger] g.board.seat_alive(j) && groups::seat_player(g.players@, g.rotation as nat, i)
            != groups::seat_player(g.players@, g.rotation as nat, j)
}

/// Whether a game goes on after a turn: more than one player is left, and the
/// turn cap, if there is one, is not reached.
pub open spec fn goes_on<F>(g: &CarriedGame<F>, max_turns: u32) -> bool {
    contested(g) && (max_turns == 0 || g.turn < max_turns)
}

/// The death turns after a turn: a snake found dead for the first time died on
/// it.
pub open spec fn deaths_noted(
    deaths: Seq<Option<u32>>,
    board: &Board,
    turn: u32,
) -> Seq<Option<u32>> {
    Seq::new(
        deaths.len(),
        |s: int|
            if deaths[s] is None && !board.seat_alive(s) {
                Some(turn)
            } else {
                deaths[s]
            },
    )
}

/// Notes the snakes that died on `turn`.
pub fn note_deaths(deaths: &mut Vec<Option<u32>>, board: &Board, turn: u32)
    requires
        old(deaths)@.len() <= board.snakes@.len(),
    ensures
        final(deaths)@ == deaths_noted(old(deaths)@, board, turn),
        final(deaths)@.len() == old(deaths)@.len(),
        forall|s: int|
            0 <= s < old(deaths)@.len() && old(deaths)@[s] is Some ==> #[trigger] final(deaths)@[s]
                == old(deaths)@[s],
        forall|s: int|
            0 <= s < old(deaths)@.len() && old(deaths)@[s] is None ==> #[trigger] final(deaths)@[s]
                == if board.snakes@[s].eliminated is Some {
                Some(turn)
            } else {
                None
            },
{
    let ghost start = deaths@;
    let n: usize = deaths.len();
    let mut s: usize = 0;
    while s < n
        invariant
            s <= n,
            n == start.len(),
            deaths@.len() == n,
            n <= board.snakes@.len(),
            forall|k: int| s <= k < n ==> deaths@[k] == start[k],
            forall|k: int| 0 <= k < s ==> #[trigger] deaths@[k] == deaths_noted(start, board, turn)[k],
        decreases n - s,
    {
        if deaths[s].is_none() && !board.snakes[s].alive() {
            deaths[s] = Some(turn);
        }
        s = s + 1;
    }
    assert(deaths@ =~= deaths_noted(start, board, turn));
}

/// Whether two living snakes belong to different players.
fn is_contested<F>(g: &CarriedGame<F>) -> (r: bool)
    requires
        g.wf(g.board.snakes@.len()),
    ensures
        r == contested(g),
{
    let n: usize = g.board.snakes.len();
    let mut first: Option<u32> = None;
    let mut s: usize = 0;
    while s < n
        invariant
            s <= n,
            n == g.board.snakes@.len(),
            g.wf(n as nat),
            match first {
                Some(p) => exists|i: int|
                    0 <= i < s && #[trigger] g.board.seat_alive(i) && groups::seat_player(
                        g.players@,
                        g.rotation as nat,
                        i,
                    ) == p,
                None => true,
            },
            forall|i: int|
                0 <= i < s && #[trigger] g.board.seat_alive(i) ==> first == Some(
                    groups::seat_player(g.players@, g.rotation as nat, i),
                ),
        decreases n - s,
    {
        if g.board.snakes[s].alive() {
            assert(g.board.seat_alive(s as int));
            let p: u32 = groups::player_at(&g.players, g.rotation, s);
            match first {
                Some(q) => {
                    if p != q {
                        return true;
                    }
                },
                None => {
                    first = Some(p);
                },
            }
        }
        s = s + 1;
    }
    false
}

/// A list of `k` copies of `x`.
pub fn repeated<T: Copy>(x: T, k: usize) -> (v: Vec<T>)
    ensures
        v@ == Seq::new(k as nat, |i: int| x),
{
    let mut v: Vec<T> = Vec::new();
    while v.len() < k
        invariant
            v@.len() <= k,
            v@ == Seq::new(v@.len(), |i: int| x),
        decreases k - v@.len(),
    {
        v.push(x);
        assert(v@ =~= Seq::new(v@.len(), |i: int| x));
    }
    v
}

/// Whether a frame shows a position without any search behind it: zeros all
/// over, and every move the first one.
pub open spec fn shows_bare<F>(f: FrameJson<F>, board: &Board, n: nat, zero: F) -> bool {
    &&& f.turn == board.turn
    &&& f.width == board.width
    &&& f.height == board.height
    &&& sample::are_cells(f.food@, board.food@)
    &&& sample::are_cells(f.hazards@, board.hazards@)
    &&& f.snakes@.len() == n
    &&& forall|s: int|
        0 <= s < n ==> {
            let (j, snake) = (#[trigger] f.snakes@[s], board.snakes@[s]);
            &&& j.alive == snake.is_alive()
            &&& sample::are_cells(j.body@, snake.body@)
            &&& j.health == snake.health
            &&& j.chosen_move == 0
            &&& j.policy@ == seq![zero, zero, zero, zero]
            &&& j.play_policy@ == seq![zero, zero, zero, zero]
            &&& j.value == zero
        }
}

/// The frame of a final position.
pub fn final_frame<F: Copy>(board: &Board, n: usize, zero: F) -> (f: FrameJson<F>)
    requires
        n <= board.snakes@.len(),
        n * 4 <= usize::MAX,
    ensures
        shows_bare(f, board, n as nat, zero),
{
    let policy = repeated(zero, n * 4);
    let values = repeated(zero, n);
    let actions = repeated(Move::Up, n);
    let mut plays: Vec<Vec<F>> = Vec::new();
    while plays.len() < n
        invariant
            plays@.len() <= n,
            forall|s: int|
                0 <= s < plays@.len() ==> (#[trigger] plays@[s])@ == seq![zero, zero, zero, zero],
        decreases n - plays@.len(),
    {
        let p = repeated(zero, 4);
        assert(p@ =~= seq![zero, zero, zero, zero]);
        plays.push(p);
    }
    let f = sample::frame_from_board(board, n, &policy, &values, &plays, &actions);
    proof {
        assert forall|s: int| 0 <= s < n implies (#[trigger] f.snakes@[s]).policy@ =~= seq![
            zero,
            zero,
            zero,
            zero,
        ] && f.snakes@[s].play_policy@ == seq![zero, zero, zero, zero] && f.snakes@[s].value == zero
            && f.snakes@[s].chosen_move == 0 by {
            assert(sample::records_snake(
                f.snakes@[s],
                board,
                s,
                policy@,
                values@,
                plays@,
                actions@,
            ));
            assert(actions@[s] == Move::Up);
        }
    }
    f
}

impl<F: Copy> Worker<F> {
    /// Records the frame of a slot's turn, where the slot's game is recorded.
    pub fn record_turn(&mut self, idx: usize, frame: FrameJson<F>)
        requires
            old(self).wf(),
            idx < old(self).live@.len(),
            old(self).live@[idx as int] is Some,
        ensures
            final(self).wf(),
            final(self).same_arena(old(self)),
            final(self).free@ == old(self).free@,
            forall|i: int|
                0 <= i < old(self).live@.len() && i != idx ==> #[trigger] final(self).live@[i]
                    == old(self).live@[i],
            ({
                let (a, b) = (
                    old(self).live@[idx as int].unwrap(),
                    final(self).live@[idx as int].unwrap(),
                );
                &&& final(self).live@[idx as int] is Some
                &&& b.seats@ == a.seats@
                &&& b.game.frames@ == if a.game.record {
                    a.game.frames@.push(frame)
                } else {
                    a.game.frames@
                }
                &&& same_but_frames(a.game, b.game)
            }),
    {
        let ghost live0 = self.live@;
        assert(slot_wf(live0[idx as int], self.n as nat, self.stations@.len()));
        let mut taken: Option<LiveSlot<F>> = None;
        core::mem::swap(&mut self.live[idx], &mut taken);
        let mut l = taken.unwrap();
        let ghost seats = l.seats@;
        if l.game.record {
            l.game.frames.push(frame);
        }
        self.live[idx] = Some(l);
        proof {
            self.lemma_same_seats(live0, idx as int);
        }
    }

    /// Moves a slot's game on to the position after a turn: counts the turn,
    /// notes the deaths, and tells whether the game goes on.
    pub fn advance(&mut self, idx: usize, board: Board, max_turns: u32) -> (more: bool)
        requires
            old(self).wf(),
            idx < old(self).live@.len(),
            old(self).live@[idx as int] is Some,
            old(self).live@[idx as int].unwrap().game.turn < u32::MAX,
            board.snakes@.len() == old(self).n,
        ensures
            final(self).wf(),
            final(self).same_arena(old(self)),
            final(self).free@ == old(self).free@,
            forall|i: int|
                0 <= i < old(self).live@.len() && i != idx ==> #[trigger] final(self).live@[i]
                    == old(self).live@[i],
            ({
                let (a, b) = (
                    old(self).live@[idx as int].unwrap(),
                    final(self).live@[idx as int].unwrap(),
                );
                &&& final(self).live@[idx as int] is Some
                &&& b.seats@ == a.seats@
                &&& b.game.players@ == a.game.players@
                &&& b.game.rotation == a.game.rotation
                &&& b.game.board == board
                &&& b.game.turn == a.game.turn + 1
                &&& b.game.death_turn@ == deaths_noted(a.game.death_turn@, &board, b.game.turn)
                &&& b.game.frames@ == a.game.frames@
                &&& b.game.record == a.game.record
                &&& b.game.prior_seconds == a.game.prior_seconds
                &&& more == goes_on(&b.game, max_turns)
                &&& max_turns > 0 && b.game.turn >= max_turns ==> !more
                &&& more ==> exists|i: int, j: int|
                    0 <= i < old(self).n && 0 <= j < old(self).n && #[trigger] board.snakes@[
                        i
                    ].eliminated is None && #[trigger] board.snakes@[j].eliminated is None
                        && a.game.players@[(i + a.game.rotation) % (a.game.players@.len() as int)]
                        != a.game.players@[(j + a.game.rotation) % (a.game.players@.len() as int)]
            }),
    {
        let ghost live0 = self.live@;
        assert(slot_wf(live0[idx as int], self.n as nat, self.stations@.len()));
        let mut taken: Option<LiveSlot<F>> = None;
        core::mem::swap(&mut self.live[idx], &mut taken);
        let mut l = taken.unwrap();
        l.game.board = board;
        l.game.turn = l.game.turn + 1;
        note_deaths(&mut l.game.death_turn, &l.game.board, l.game.turn);
        let more = is_contested(&l.game) && (max_turns == 0 || l.game.turn < max_turns);
        self.live[idx] = Some(l);
        proof {
            self.lemma_same_seats(live0, idx as int);
        }
        more
    }

    proof fn lemma_same_seats(&self, live0: Seq<Option<LiveSlot<F>>>, idx: int)
        requires
            self.free@.len() == self.stations@.len(),
            self.cap == group_cap(self.live@.len(), self.n as nat, self.stations@.len()),
            0 <= idx < live0.len(),
            self.live@.len() == live0.len(),
            forall|i: int|
                0 <= i < live0.len() ==> slot_wf(
                    #[trigger] live0[i],
                    self.n as nat,
                    self.stations@.len(),
                ),
            forall|s: usize|
                s < self.stations@.len() ==> #[trigger] accounted(self.free@, live0, s)
                    == all_groups(self.cap as nat),
            forall|i: int|
                0 <= i < live0.len() && i != idx ==> #[trigger] self.live@[i] == live0[i],
            slot_seats(self.live@[idx]) == slot_seats(live0[idx]),
            slot_wf(self.live@[idx], self.n as nat, self.stations@.len()),
        ensures
            self.wf(),
    {
        assert(self.live@ =~= live0.update(idx, self.live@[idx]));
        assert forall|s: usize| s < self.stations@.len() implies #[trigger] accounted(
            self.free@,
            self.live@,
            s,
        ) == all_groups(self.cap as nat) by {
            assert(accounted(self.free@, live0, s) == all_groups(self.cap as nat));
            lemma_held_update(live0, idx, self.live@[idx], s);
            let (a, b) = (held_by_all(self.live@, s), held_by_all(live0, s));
            let x = groups::held(slot_seats(live0[idx]), s).to_multiset();
            assert(a.add(x) == b.add(x));
            assert(a =~= a.add(x).sub(x));
            assert(b =~= b.add(x).sub(x));
        }
    }

    /// Ends a slot's game that does not go on: places its players by survival,
    /// hands over its frames with the final position behind them, and empties
    /// the slot.
    pub fn finish(
        &mut self,
        idx: usize,
        max_turns: u32,
        order: usize,
        wall_seconds: F,
        zero: F,
    ) -> (f: FinishedGame<F>)
        requires
            old(self).wf(),
            idx < old(self).live@.len(),
            old(self).live@[idx as int] is Some,
            !goes_on(&old(self).live@[idx as int].unwrap().game, max_turns),
            old(self).n <= u32::MAX,
            old(self).n * 4 <= usize::MAX,
        ensures
            final(self).wf(),
            final(self).same_arena(old(self)),
            final(self).live@ == old(self).live@.update(idx as int, None),
            forall|s: usize|
                s < old(self).stations@.len() ==> (#[trigger] final(self).free@[s as int])@ == old(
                    self,
                ).free@[s as int]@ + groups::held(
                    old(self).live@[idx as int].unwrap().seats@,
                    s,
                ),
            ({
                let g = old(self).live@[idx as int].unwrap().game;
                &&& f.finished_order == order
                &&& f.players@ == g.players@
                &&& f.placements@ == placing::placed(g.seat_gens(), g.death_turn@)
                &&& f.turns == g.turn
                &&& f.wall_seconds == wall_seconds
                &&& match f.frames {
                    Some(frames) => {
                        &&& g.record
                        &&& frames@.len() == g.frames@.len() + 1
                        &&& frames@.drop_last() == g.frames@
                        &&& shows_bare(frames@.last(), &g.board, old(self).n as nat, zero)
                    },
                    None => !g.record,
                }
            }),
    {
        assert(slot_wf(self.live@[idx as int], self.n as nat, self.stations@.len()));
        let game = self.vacate(idx);
        let seat_gens = seat_gens_of(&game, self.n);
        assert(seat_gens@ =~= game.seat_gens());
        let placements = placing::survival_placements(&seat_gens, &game.death_turn);
        let frames = if game.record {
            let last = final_frame(&game.board, self.n, zero);
            let mut frames = game.frames;
            let ghost before = frames@;
            frames.push(last);
            assert(frames@.drop_last() =~= before);
            Some(frames)
        } else {
            None
        };
        FinishedGame {
            finished_order: order,
            players: game.players,
            placements,
            turns: game.turn,
            wall_seconds,
            frames,
        }
    }
}

impl<F> Worker<F> {
    /// Hands the games back to be carried to the next burst.
    pub fn freeze(self) -> (slots: Vec<Option<CarriedGame<F>>>)
        ensures
            slots@.len() == self.live@.len(),
            forall|i: int|
                0 <= i < slots@.len() ==> #[trigger] slots@[i] == match self.live@[i] {
                    Some(l) => Some(l.game),
                    None => None,
                },
            (forall|i: int| 0 <= i < self.live@.len() ==> #[trigger] self.live@[i] is Some) ==> (
            forall|i: int| 0 <= i < slots@.len() ==> #[trigger] slots@[i] is Some),
    {
        let mut live = self.live;
        let ghost all = live@;
        let mut back: Vec<Option<CarriedGame<F>>> = Vec::new();
        while live.len() > 0
            invariant
                live@.len() <= all.len(),
                live@ == all.take(live@.len() as int),
                back@.len() == all.len() - live@.len(),
                forall|i: int|
                    0 <= i < back@.len() ==> #[trigger] back@[i] == match all[all.len() - 1 - i] {
                        Some(l) => Some(l.game),
                        None => None,
                    },
            decreases live@.len(),
        {
            let last = live.pop().unwrap();
            let slot = match last {
                Some(l) => Some(l.game),
                None => None,
            };
            back.push(slot);
            assert(live@ =~= all.take(live@.len() as int));
        }
        let mut slots: Vec<Option<CarriedGame<F>>> = Vec::new();
        let ghost rev = back@;
        while back.len() > 0
            invariant
                back@.len() <= rev.len(),
                rev.len() == all.len(),
                back@ == rev.take(back@.len() as int),
                slots@.len() == all.len() - back@.len(),
                forall|i: int|
                    0 <= i < slots@.len() ==> #[trigger] slots@[i] == rev[all.len() - 1 - i],
            decreases back@.len(),
        {
            let last = back.pop().unwrap();
            slots.push(last);
            assert(back@ =~= rev.take(back@.len() as int));
        }
        slots
    }
}

/// Whether a fresh game gets recorded, and how many have been since the burst
/// began: the first eight games to ask are.
pub fn claim_recording(recorded: usize) -> (r: (bool, usize))
    ensures
        r.0 == (recorded < RECORDED_GAMES_PER_BURST),
        r.1 == if r.0 {
            recorded + 1
        } else {
            recorded as int
        },
{
    if recorded < RECORDED_GAMES_PER_BURST {
        (true, recorded + 1)
    } else {
        (false, recorded)
    }
}

/// How many of a worker's slots may seat heuristic players: a sixteenth, and
/// one at least.
pub fn heuristic_slots(slots: usize) -> (k: usize)
    ensures
        k == if slots < 16 {
            1
        } else {
            slots / 16
        },
{
    if slots < 16 {
        1
    } else {
        slots / 16
    }
}

/// Whether two games agree in everything but their frames.
pub open spec fn same_but_frames<F>(a: CarriedGame<F>, b: CarriedGame<F>) -> bool {
    &&& b.players@ == a.players@
    &&& b.rotation == a.rotation
    &&& b.board == a.board
    &&& b.turn == a.turn
    &&& b.death_turn@ == a.death_turn@
    &&& b.record == a.record
    &&& b.prior_seconds == a.prior_seconds
}

/// The player of each of a game's `n` seats.
fn seat_gens_of<F>(game: &CarriedGame<F>, n: usize) -> (v: Vec<u32>)
    requires
        game.players@.len() > 0,
        game.rotation + n <= usize::MAX,
    ensures
        v@ == groups::seat_players(game.players@, game.rotation as nat, n as nat),
{
    let mut v: Vec<u32> = Vec::new();
    let mut s: usize = 0;
    while s < n
        invariant
            s <= n,
            game.players@.len() > 0,
            game.rotation + n <= usize::MAX,
            v@ == groups::seat_players(game.players@, game.rotation as nat, s as nat),
        decreases n - s,
    {
        v.push(groups::player_at(&game.players, game.rotation, s));
        s = s + 1;
        assert(v@ =~= groups::seat_players(game.players@, game.rotation as nat, s as nat));
    }
    v
}

/// The first batch row of a group.
pub open spec fn first_row(station: nat, group: nat, cap: nat, n: nat) -> nat {
    (station * cap + group) * n
}

/// The rows of two different groups never overlap, and all of them lie inside
/// the batch.
pub proof fn group_rows_are_disjoint(
    s1: nat,
    g1: nat,
    s2: nat,
    g2: nat,
    k: nat,
    cap: nat,
    n: nat,
)
    requires
        s1 < k,
        s2 < k,
        g1 < cap,
        g2 < cap,
        s1 != s2 || g1 != g2,
    ensures
        first_row(s1, g1, cap, n) + n <= k * cap * n,
        first_row(s1, g1, cap, n) + n <= first_row(s2, g2, cap, n) || first_row(s2, g2, cap, n) + n
            <= first_row(s1, g1, cap, n),
{
    let (a, b) = (s1 * cap + g1, s2 * cap + g2);
    assert(a + 1 <= k * cap) by (nonlinear_arith)
        requires
            a == s1 * cap + g1,
            s1 + 1 <= k,
            g1 < cap,
    ;
    assert((a + 1) * n <= (k * cap) * n) by (nonlinear_arith)
        requires
            a + 1 <= k * cap,
    ;
    assert((a + 1) * n == a * n + n) by (nonlinear_arith);
    assert((b + 1) * n == b * n + n) by (nonlinear_arith);
    if s1 < s2 {
        assert(a + 1 <= b) by (nonlinear_arith)
            requires
                a == s1 * cap + g1,
                b == s2 * cap + g2,
                s1 + 1 <= s2,
                g1 < cap,
        ;
    } else if s2 < s1 {
        assert(b + 1 <= a) by (nonlinear_arith)
            requires
                a == s1 * cap + g1,
                b == s2 * cap + g2,
                s2 + 1 <= s1,
                g2 < cap,
        ;
    }
    if a + 1 <= b {
        assert((a + 1) * n <= b * n) by (nonlinear_arith)
            requires
                a + 1 <= b,
        ;
    } else {
        assert(b + 1 <= a);
        assert((b + 1) * n <= a * n) by (nonlinear_arith)
            requires
                b + 1 <= a,
        ;
    }
}

/// The first batch row of a net-driven seat.
pub fn seat_row(station: usize, group: usize, cap: usize, n: usize) -> (row: usize)
    requires
        first_row(station as nat, group as nat, cap as nat, n as nat) <= usize::MAX,
        station * cap + group <= usize::MAX,
    ensures
        row == first_row(station as nat, group as nat, cap as nat, n as nat),
{
    assert(station * cap <= usize::MAX);
    (station * cap + group) * n
}

/// Two net-driven seats of a worker never share a row group, and neither holds
/// a free one.
pub proof fn no_group_is_held_twice<F: Copy>(
    w: &Worker<F>,
    a: int,
    i: int,
    b: int,
    j: int,
)
    requires
        w.wf(),
        0 <= a < w.live@.len(),
        0 <= b < w.live@.len(),
        w.live@[a] is Some,
        w.live@[b] is Some,
        0 <= i < w.n,
        0 <= j < w.n,
        a != b || i != j,
        w.live@[a].unwrap().seats@[i] is Net,
        w.live@[b].unwrap().seats@[j] is Net,
    ensures
        w.live@[a].unwrap().seats@[i] != w.live@[b].unwrap().seats@[j],
        w.live@[a].unwrap().seats@[i]->group < w.cap,
        !w.free@[w.live@[a].unwrap().seats@[i]->station as int]@.contains(
            w.live@[a].unwrap().seats@[i]->group,
        ),
{
    broadcast use vstd::seq_lib::group_to_multiset_ensures;

    let k1 = w.live@[a].unwrap().seats@[i];
    let k2 = w.live@[b].unwrap().seats@[j];
    let (s, g) = (k1->station, k1->group);
    assert(slot_wf(w.live@[a], w.n as nat, w.stations@.len()));
    assert(slot_wf(w.live@[b], w.n as nat, w.stations@.len()));
    assert(s < w.stations@.len());
    assert(accounted(w.free@, w.live@, s) == all_groups(w.cap as nat));
    lemma_all_groups(w.cap as nat, g);
    lemma_held_counts_seat(w.live@, a, i, s, g);
    let f = w.free@[s as int]@;
    if f.contains(g) {
        assert(f.to_multiset().count(g) >= 1);
    }
    if k1 == k2 {
        lemma_held_counts_two(w.live@, a, i, b, j, s, g);
    }
}

proof fn lemma_all_groups(cap: nat, g: usize)
    requires
        cap <= usize::MAX,
    ensures
        all_groups(cap).count(g) <= 1,
        all_groups(cap).count(g) > 0 ==> g < cap,
{
    broadcast use vstd::seq_lib::group_to_multiset_ensures;

    let q = Seq::new(cap, |i: int| (cap - 1 - i) as usize);
    assert(q.no_duplicates()) by {
        assert forall|i: int, j: int| 0 <= i < q.len() && 0 <= j < q.len() && i != j implies q[i]
            != q[j] by {
            assert(q[i] == cap - 1 - i);
            assert(q[j] == cap - 1 - j);
        }
    }
    q.lemma_multiset_has_no_duplicates();
    if all_groups(cap).count(g) > 0 {
        assert(q.contains(g));
        let i = choose|i: int| 0 <= i < q.len() && q[i] == g;
        assert(q[i] == cap - 1 - i);
    }
}

proof fn lemma_held_has(seats: Seq<SeatKind>, i: int, s: usize, g: usize)
    requires
        0 <= i < seats.len(),
        seats[i] == (SeatKind::Net { station: s, group: g }),
    ensures
        groups::held(seats, s).to_multiset().count(g) >= 1,
    decreases seats.len(),
{
    broadcast use vstd::seq_lib::group_to_multiset_ensures;

    let t = seats.drop_last();
    if i < t.len() {
        lemma_held_has(t, i, s, g);
    }
}

proof fn lemma_held_has_two(seats: Seq<SeatKind>, i: int, j: int, s: usize, g: usize)
    requires
        0 <= i < j < seats.len(),
        seats[i] == (SeatKind::Net { station: s, group: g }),
        seats[j] == seats[i],
    ensures
        groups::held(seats, s).to_multiset().count(g) >= 2,
    decreases seats.len(),
{
    broadcast use vstd::seq_lib::group_to_multiset_ensures;

    let t = seats.drop_last();
    if j < t.len() {
        lemma_held_has_two(t, i, j, s, g);
    } else {
        lemma_held_has(t, i, s, g);
    }
}

proof fn lemma_held_counts_seat<F>(
    live: Seq<Option<LiveSlot<F>>>,
    a: int,
    i: int,
    s: usize,
    g: usize,
)
    requires
        0 <= a < live.len(),
        0 <= i < slot_seats(live[a]).len(),
        slot_seats(live[a])[i] == (SeatKind::Net { station: s, group: g }),
    ensures
        held_by_all(live, s).count(g) >= 1,
    decreases live.len(),
{
    if a == live.len() - 1 {
        lemma_held_has(slot_seats(live[a]), i, s, g);
    } else {
        lemma_held_counts_seat(live.drop_last(), a, i, s, g);
    }
}

proof fn lemma_held_counts_two<F>(
    live: Seq<Option<LiveSlot<F>>>,
    a: int,
    i: int,
    b: int,
    j: int,
    s: usize,
    g: usize,
)
    requires
        0 <= a < live.len(),
        0 <= b < live.len(),
        0 <= i < slot_seats(live[a]).len(),
        0 <= j < slot_seats(live[b]).len(),
        a != b || i != j,
        slot_seats(live[a])[i] == (SeatKind::Net { station: s, group: g }),
        slot_seats(live[b])[j] == (SeatKind::Net { station: s, group: g }),
    ensures
        held_by_all(live, s).count(g) >= 2,
    decreases live.len(),
{
    let (t, m) = (live.drop_last(), live.len() - 1);
    if a < m && b < m {
        lemma_held_counts_two(t, a, i, b, j, s, g);
    } else if a == m && b == m {
        if i < j {
            lemma_held_has_two(slot_seats(live[a]), i, j, s, g);
        } else {
            lemma_held_has_two(slot_seats(live[a]), j, i, s, g);
        }
    } else if a == m {
        lemma_held_has(slot_seats(live[a]), i, s, g);
        lemma_held_counts_seat(t, b, j, s, g);
    } else {
        lemma_held_has(slot_seats(live[b]), j, s, g);
        lemma_held_counts_seat(t, a, i, s, g);
    }
}

/// A game goes on while two living seats belong to different players and the turn
/// limit, where there is one, has not been reached. Seats go to the players in
/// turn, counted on from the rotation.
pub proof fn games_go_on_while_contested<F>(g: &CarriedGame<F>, max_turns: u32)
    requires
        g.players@.len() > 0,
    ensures
        goes_on(g, max_turns) <==> (max_turns == 0 || g.turn < max_turns) && exists|i: int, j: int|
            0 <= i < g.board.snakes@.len() && 0 <= j < g.board.snakes@.len()
                && #[trigger] g.board.snakes@[i].eliminated is None
                && #[trigger] g.board.snakes@[j].eliminated is None && g.players@[(i + g.rotation)
                % (g.players@.len() as int)] != g.players@[(j + g.rotation) % (
            g.players@.len() as int)],
{
    if contested(g) {
        let (i, j) = choose|i: int, j: int|
            0 <= i < g.board.snakes@.len() && 0 <= j < g.board.snakes@.len()
                && #[trigger] g.board.seat_alive(i) && #[trigger] g.board.seat_alive(j)
                && groups::seat_player(g.players@, g.rotation as nat, i) != groups::seat_player(
                g.players@,
                g.rotation as nat,
                j,
            );
        assert(g.board.snakes@[i].eliminated is None && g.board.snakes@[j].eliminated is None);
    }
    if exists|i: int, j: int|
        0 <= i < g.board.snakes@.len() && 0 <= j < g.board.snakes@.len()
            && #[trigger] g.board.snakes@[i].eliminated is None
            && #[trigger] g.board.snakes@[j].eliminated is None && g.players@[(i + g.rotation) % (
        g.players@.len() as int)] != g.players@[(j + g.rotation) % (g.players@.len() as int)] {
        let (i, j) = choose|i: int, j: int|
            0 <= i < g.board.snakes@.len() && 0 <= j < g.board.snakes@.len()
                && #[trigger] g.board.snakes@[i].eliminated is None
                && #[trigger] g.board.snakes@[j].eliminated is None && g.players@[(i + g.rotation)
                % (g.players@.len() as int)] != g.players@[(j + g.rotation) % (
            g.players@.len() as int)];
        assert(g.board.seat_alive(i) && g.board.seat_alive(j));
    }
}

/// A carried game goes on in its slot exactly if the slot is still there, the board
/// and the number of snakes are those in use, and every one of its players has a
/// station or is one of the heuristics. Every other slot is empty.
pub proof fn carried_games_go_on_where_they_fit<F>(
    slots: Seq<Option<CarriedGame<F>>>,
    total: nat,
    board: i8,
    n: nat,
    stations: Seq<u32>,
    heuristics: Seq<u32>,
    i: int,
)
    requires
        0 <= i < total,
    ensures
        ({
            let after = thawed(slots, total, board, n, stations, heuristics);
            &&& after.len() == total
            &&& after[i] is Some ==> i < slots.len() && after[i] == slots[i]
            &&& after[i] is Some <==> i < slots.len() && (slots[i] matches Some(g) && g.board.width
                == board && g.board.snakes@.len() == n && forall|k: int|
                0 <= k < g.players@.len() ==> stations.contains(#[trigger] g.players@[k])
                    || heuristics.contains(g.players@[k]))
        }),
{
}

/// The slots in use are those that hold a game.
pub proof fn taken_slots_hold_games<F>(slots: Seq<Option<CarriedGame<F>>>)
    ensures
        taken_slots(slots) == slots.filter(|s: Option<CarriedGame<F>>| s is Some).len(),
    decreases slots.len(),
{
    reveal(Seq::filter);
    if slots.len() > 0 {
        taken_slots_hold_games(slots.drop_last());
    }
}

/// The groups of a station suffice for its share of all seats, rounded up, and two
/// more.
pub proof fn stations_have_their_share(slots: nat, n: nat, stations: nat)
    requires
        stations > 0,
    ensures
        group_cap(slots, n, stations) >= 2,
        (group_cap(slots, n, stations) - 2) * stations >= slots * n,
        (group_cap(slots, n, stations) - 2) * stations < slots * n + stations,
{
    let (x, k) = (slots * n + stations - 1, stations as int);
    assert(slots * n >= 0) by (nonlinear_arith)
        requires
            slots >= 0,
            n >= 0,
    ;
    vstd::arithmetic::div_mod::lemma_fundamental_div_mod(x, k);
    vstd::arithmetic::div_mod::lemma_div_pos_is_pos(x, k);
    let q = x / k;
    assert(q * k == k * q) by (nonlinear_arith);
}

/// A seat's first row counts the groups of the stations before it and the groups
/// before its own, `n` rows each.
pub proof fn rows_stand_group_by_group(station: nat, group: nat, cap: nat, n: nat)
    ensures
        first_row(0, 0, cap, n) == 0,
        first_row(station, group + 1, cap, n) == first_row(station, group, cap, n) + n,
        first_row(station + 1, group, cap, n) == first_row(station, group, cap, n) + cap * n,
{
    assert((0 * cap + 0) * n == 0) by (nonlinear_arith);
    assert((station * cap + (group + 1)) * n == (station * cap + group) * n + n)
        by (nonlinear_arith);
    assert(((station + 1) * cap + group) * n == (station * cap + group) * n + cap * n)
        by (nonlinear_arith);
}

/// The frame that ends a recording shows the last position and nothing else: no
/// policy, no value, no move.
pub proof fn last_frames_show_the_position<F>(
    f: FrameJson<F>,
    board: &Board,
    n: nat,
    zero: F,
    s: int,
)
    requires
        shows_bare(f, board, n, zero),
        0 <= s < n,
    ensures
        f.turn == board.turn && f.width == board.width && f.height == board.height,
        f.snakes@.len() == n,
        f.food@.len() == board.food@.len(),
        f.hazards@.len() == board.hazards@.len(),
        f.snakes@[s].alive <==> board.snakes@[s].eliminated is None,
        f.snakes@[s].health == board.snakes@[s].health,
        f.snakes@[s].body@.len() == board.snakes@[s].body@.len(),
        forall|i: int|
            0 <= i < board.snakes@[s].body@.len() ==> (#[trigger] f.snakes@[s].body@[i])@[0]
                == board.snakes@[s].body@[i].x && f.snakes@[s].body@[i]@[1]
                == board.snakes@[s].body@[i].y,
        f.snakes@[s].value == zero && f.snakes@[s].chosen_move == 0,
        f.snakes@[s].policy@ == seq![zero, zero, zero, zero],
{
    let j = f.snakes@[s];
    assert(sample::are_cells(j.body@, board.snakes@[s].body@));
    assert forall|i: int| 0 <= i < board.snakes@[s].body@.len() implies (
    #[trigger] f.snakes@[s].body@[i])@[0] == board.snakes@[s].body@[i].x
        && f.snakes@[s].body@[i]@[1] == board.snakes@[s].body@[i].y by {
        assert(sample::is_cell(f.snakes@[s].body@[i], board.snakes@[s].body@[i]));
    }
}

} // verus!
