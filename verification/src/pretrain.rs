//! Offline pre-training on archives of games, and strength measurements.

use vstd::prelude::*;

use crate::league::SeatResult;
use crate::lists;
use crate::materialize;
use crate::order;
use crate::sample::GameJson;
use crate::text;

verus! {

// ---- the archive ----

/// The archived games among a directory's files.
pub open spec fn archived(names: Seq<Vec<char>>) -> Seq<usize> {
    lists::indices_where(names.len(), |i: int| text::ends_with(names[i]@, ".json.zst"@))
}

/// The archived games among a directory's files, by name.
pub fn archive_files(names: &Vec<Vec<char>>) -> (r: Vec<usize>)
    ensures
        exists|keys: Seq<Vec<char>>, p: Seq<usize>| #[trigger]
            order::is_stable_order(keys, p) && text::texts(keys) == crate::sample::picked(
                names@,
                archived(names@),
            ) && r@ == p.map_values(|j: usize| archived(names@)[j as int]),
{
    let ghost is_game = |i: int| text::ends_with(names@[i]@, ".json.zst"@);
    let mut files: Vec<usize> = Vec::new();
    let mut keys: Vec<Vec<char>> = Vec::new();
    let mut i: usize = 0;
    while i < names.len()
        invariant
            i <= names@.len(),
            is_game == (|i: int| text::ends_with(names@[i]@, ".json.zst"@)),
            files@ == lists::indices_where(i as nat, is_game),
            text::texts(keys@) == crate::sample::picked(names@, files@),
        decreases names@.len() - i,
    {
        let name = &names[i];
        if text::has_suffix(name, ".json.zst") {
            assert(is_game(i as int));
            let ghost old_keys = keys@;
            let ghost old_files = files@;
            let key = text::copy_range(name, 0, name.len());
            assert(key@ =~= name@);
            keys.push(key);
            files.push(i);
            assert(text::texts(keys@) =~= text::texts(old_keys).push(key@));
            assert(crate::sample::picked(names@, files@) =~= crate::sample::picked(
                names@,
                old_files,
            ).push(name@));
        } else {
            assert(!is_game(i as int));
        }
        i = i + 1;
    }
    let p = order::stable_order(&keys);
    proof {
        assert(text::texts(keys@).len() == keys@.len());
        assert(crate::sample::picked(names@, files@).len() == files@.len());
    }
    let mut r: Vec<usize> = Vec::new();
    let mut k: usize = 0;
    while k < p.len()
        invariant
            k <= p@.len(),
            keys@.len() == files@.len(),
            order::is_stable_order(keys@, p@),
            r@ == p@.take(k as int).map_values(|j: usize| files@[j as int]),
        decreases p@.len() - k,
    {
        assert(p@[k as int] < keys@.len());
        r.push(files[p[k]]);
        k = k + 1;
        assert(r@ =~= p@.take(k as int).map_values(|j: usize| files@[j as int]));
    }
    assert(p@.take(k as int) =~= p@);
    assert(order::is_stable_order(keys@, p@));
    r
}

/// How the games of a file are used, by their index.
pub struct Split {
    pub train: Vec<usize>,
    pub val: Vec<usize>,
    pub skipped: usize,
}

/// How many of the first `k` games have the right shape.
pub open spec fn usable<F>(games: Seq<GameJson<F>>, board: i8, n: nat, k: nat) -> nat
    decreases k,
{
    if k == 0 {
        0
    } else {
        usable(games, board, n, (k - 1) as nat) + if materialize::game_has_shape(
            &games[k - 1],
            board,
            n,
        ) {
            1nat
        } else {
            0nat
        }
    }
}

/// The games among the first `k` that go to one side of the split: the `i`-th
/// usable game goes where `to_val[i]` says.
pub open spec fn side<F>(
    games: Seq<GameJson<F>>,
    board: i8,
    n: nat,
    to_val: Seq<bool>,
    val: bool,
    k: nat,
) -> Seq<usize>
    decreases k,
{
    if k == 0 {
        Seq::empty()
    } else {
        let m = (k - 1) as nat;
        let rest = side(games, board, n, to_val, val, m);
        if materialize::game_has_shape(&games[k - 1], board, n) && to_val[usable(
            games,
            board,
            n,
            m,
        ) as int] == val {
            rest.push((k - 1) as usize)
        } else {
            rest
        }
    }
}

/// Splits the games of a file into training and validation, whole games each;
/// `to_val[i]` is the draw for the `i`-th usable one.
pub fn split_games<F>(games: &Vec<GameJson<F>>, board: i8, n: usize, to_val: &Vec<bool>) -> (s:
    Split)
    requires
        to_val@.len() >= usable(games@, board, n as nat, games@.len()),
    ensures
        s.train@ == side(games@, board, n as nat, to_val@, false, games@.len()),
        s.val@ == side(games@, board, n as nat, to_val@, true, games@.len()),
        s.skipped == games@.len() - usable(games@, board, n as nat, games@.len()),
{
    let mut train: Vec<usize> = Vec::new();
    let mut val: Vec<usize> = Vec::new();
    let mut skipped: usize = 0;
    let mut used: usize = 0;
    let mut i: usize = 0;
    while i < games.len()
        invariant
            i <= games@.len(),
            to_val@.len() >= usable(games@, board, n as nat, games@.len()),
            used == usable(games@, board, n as nat, i as nat),
            used <= i,
            skipped == i - used,
            train@ == side(games@, board, n as nat, to_val@, false, i as nat),
            val@ == side(games@, board, n as nat, to_val@, true, i as nat),
        decreases games@.len() - i,
    {
        if materialize::game_matches_shape(&games[i], board, n) {
            proof {
                lemma_usable_grows(games@, board, n as nat, i + 1, games@.len());
            }
            if to_val[used] {
                val.push(i);
            } else {
                train.push(i);
            }
            used = used + 1;
        } else {
            skipped = skipped + 1;
        }
        i = i + 1;
    }
    Split { train, val, skipped }
}

proof fn lemma_usable_grows<F>(games: Seq<GameJson<F>>, board: i8, n: nat, a: int, b: nat)
    requires
        0 <= a <= b,
    ensures
        usable(games, board, n, a as nat) <= usable(games, board, n, b),
    decreases b - a,
{
    if a < b {
        lemma_usable_grows(games, board, n, a, (b - 1) as nat);
    }
}

proof fn lemma_side<F>(
    games: Seq<GameJson<F>>,
    board: i8,
    n: nat,
    to_val: Seq<bool>,
    val: bool,
    k: nat,
)
    requires
        k <= usize::MAX,
    ensures
        forall|i: int|
            0 <= i < usize::MAX ==> (#[trigger] side(games, board, n, to_val, val, k).contains(
                i as usize,
            ) <==> i < k && materialize::game_has_shape(&games[i], board, n) && to_val[usable(
                games,
                board,
                n,
                i as nat,
            ) as int] == val),
    decreases k,
{
    let s = side(games, board, n, to_val, val, k);
    if k > 0 {
        let m = (k - 1) as nat;
        lemma_side(games, board, n, to_val, val, m);
        let rest = side(games, board, n, to_val, val, m);
        assert forall|i: int| 0 <= i < usize::MAX implies (#[trigger] s.contains(i as usize)
            <==> i < k && materialize::game_has_shape(&games[i], board, n) && to_val[usable(
            games,
            board,
            n,
            i as nat,
        ) as int] == val) by {
            if rest.contains(i as usize) {
                let j = choose|j: int| 0 <= j < rest.len() && rest[j] == i as usize;
                assert(s[j] == i as usize);
            }
            if s.contains(i as usize) {
                let j = choose|j: int| 0 <= j < s.len() && s[j] == i as usize;
                if j < rest.len() {
                    assert(rest[j] == i as usize);
                }
            }
            if i == k - 1 && s.len() > rest.len() {
                assert(s[s.len() - 1] == i as usize);
            }
        }
    }
}

/// The split is by game and leaks nothing: every usable game is on exactly one
/// side, and no other game is on either.
pub proof fn split_leaks_nothing<F>(
    games: Seq<GameJson<F>>,
    board: i8,
    n: nat,
    to_val: Seq<bool>,
    i: int,
)
    requires
        games.len() < usize::MAX,
        0 <= i < games.len(),
    ensures
        ({
            let train = side(games, board, n, to_val, false, games.len());
            let val = side(games, board, n, to_val, true, games.len());
            &&& !(train.contains(i as usize) && val.contains(i as usize))
            &&& (train.contains(i as usize) || val.contains(i as usize))
                <==> materialize::game_has_shape(&games[i], board, n)
        }),
{
    lemma_side(games, board, n, to_val, false, games.len());
    lemma_side(games, board, n, to_val, true, games.len());
}

// ---- training ----

/// Epochs without improvement that end the training.
pub const PATIENCE: usize = 2;

/// What an epoch leads to.
#[derive(Clone, Copy, Debug, PartialEq, Eq, Structural)]
pub enum EpochEnd {
    /// The best so far: save it.
    Save,
    /// Go on.
    Wait,
    /// Stop early.
    Stop,
}

/// The state of early stopping.
#[derive(Clone, Copy, Debug, PartialEq, Eq, Structural)]
pub struct EarlyStop {
    pub best_epoch: usize,
    /// Epochs since the last improvement.
    pub patience: usize,
}

/// How many epochs at the end brought no improvement.
pub open spec fn flat_epochs(improved: Seq<bool>) -> nat
    decreases improved.len(),
{
    if improved.len() == 0 || improved.last() {
        0
    } else {
        flat_epochs(improved.drop_last()) + 1
    }
}

impl EarlyStop {
    /// Before the first epoch.
    pub fn new() -> (e: EarlyStop)
        ensures
            e.best_epoch == 0,
            e.patience == 0,
    {
        EarlyStop { best_epoch: 0, patience: 0 }
    }

    /// Takes the result of an epoch in.
    pub fn note(&mut self, epoch: usize, improved: bool) -> (end: EpochEnd)
        requires
            old(self).patience < PATIENCE,
        ensures
            final(self).best_epoch == if improved {
                epoch
            } else {
                old(self).best_epoch
            },
            final(self).patience == if improved {
                0
            } else {
                old(self).patience + 1
            },
            end == if improved {
                EpochEnd::Save
            } else if final(self).patience >= PATIENCE {
                EpochEnd::Stop
            } else {
                EpochEnd::Wait
            },
            forall|h: Seq<bool>|
                old(self).patience == flat_epochs(h) ==> final(self).patience
                    == #[trigger] flat_epochs(h.push(improved)),
    {
        proof {
            assert forall|h: Seq<bool>| self.patience == flat_epochs(h) implies (if improved {
                0
            } else {
                self.patience + 1
            }) == #[trigger] flat_epochs(h.push(improved)) by {
                assert(h.push(improved).drop_last() =~= h);
            }
        }
        if improved {
            self.best_epoch = epoch;
            self.patience = 0;
            EpochEnd::Save
        } else {
            self.patience = self.patience + 1;
            if self.patience >= PATIENCE {
                EpochEnd::Stop
            } else {
                EpochEnd::Wait
            }
        }
    }
}

/// The training stops as soon as the last two epochs brought no improvement,
/// and not before.
pub proof fn stops_after_two_flat_epochs(improved: Seq<bool>)
    ensures
        flat_epochs(improved) >= PATIENCE <==> improved.len() >= 2 && !improved.last()
            && !improved[improved.len() - 2],
{
    if improved.len() >= 2 && !improved.last() {
        let t = improved.drop_last();
        assert(t.last() == improved[improved.len() - 2]);
        assert(flat_epochs(improved) == flat_epochs(t) + 1);
    } else if improved.len() == 1 {
        assert(flat_epochs(improved.drop_last()) == 0);
    }
}

/// Batch size and steps per epoch for a training set.
pub fn epoch_plan(train_len: usize, batch_size: usize) -> (r: (usize, usize))
    requires
        train_len > 0,
        batch_size > 0,
    ensures
        r.0 == if batch_size < train_len {
            batch_size
        } else {
            train_len
        },
        r.1 == train_len as int / r.0 as int,
        r.1 >= 1,
{
    let batch: usize = if batch_size < train_len {
        batch_size
    } else {
        train_len
    };
    assert(train_len as int / batch as int >= 1) by (nonlinear_arith)
        requires
            0 < batch <= train_len,
    ;
    (batch, train_len / batch)
}

// ---- strength ----

/// The seed of a game against the baselines.
pub fn eval_seed(game: u64) -> (s: u64)
    ensures
        s == game.wrapping_mul(1_000_003).wrapping_add(0xABC),
{
    game.wrapping_mul(1_000_003).wrapping_add(0xABC)
}

/// The seed of a round-robin game.
pub fn round_robin_seed(game: u64) -> (s: u64)
    ensures
        s == game.wrapping_mul(2_654_435_761).wrapping_add(1),
{
    game.wrapping_mul(2_654_435_761).wrapping_add(1)
}

/// Whether player `p` came in first in a game.
pub open spec fn came_first(results: Seq<SeatResult>, p: u32) -> bool {
    exists|i: int|
        0 <= i < results.len() && (#[trigger] results[i]).player == p && results[i].rank == 1
}

/// Whether player `p` came in first in a game.
pub fn is_first(results: &Vec<SeatResult>, p: u32) -> (r: bool)
    ensures
        r == came_first(results@, p),
{
    let mut i: usize = 0;
    while i < results.len()
        invariant
            i <= results@.len(),
            forall|k: int|
                0 <= k < i ==> !((#[trigger] results@[k]).player == p && results@[k].rank == 1),
        decreases results@.len() - i,
    {
        if results[i].player == p && results[i].rank == 1 {
            assert(results@[i as int].player == p);
            return true;
        }
        i = i + 1;
    }
    false
}

/// Games that were played to the end, and how many of them the net won.
#[derive(Clone, Copy, Debug, PartialEq, Eq, Structural)]
pub struct PlayEval {
    pub wins: usize,
    pub played: usize,
}

impl PlayEval {
    /// Before the first game.
    pub fn new() -> (e: PlayEval)
        ensures
            e.wins == 0,
            e.played == 0,
    {
        PlayEval { wins: 0, played: 0 }
    }

    /// Counts a game; the net is player zero. A game that was broken off does
    /// not count.
    pub fn note(&mut self, results: Option<&Vec<SeatResult>>)
        requires
            old(self).wins <= old(self).played < usize::MAX,
        ensures
            final(self).wins <= final(self).played,
            final(self).played == old(self).played + if results is Some {
                1int
            } else {
                0
            },
            final(self).wins == old(self).wins + if results matches Some(r) && came_first(r@, 0) {
                1int
            } else {
                0
            },
    {
        match results {
            Some(r) => {
                self.played = self.played + 1;
                if is_first(r, 0) {
                    self.wins = self.wins + 1;
                }
            },
            None => {},
        }
    }
}

/// How many games are played at once.
pub fn concurrency(conc: usize, games: usize) -> (c: usize)
    ensures
        c >= 1,
        c == {
            let a = if conc < 1 {
                1
            } else {
                conc
            };
            let b = if games < 1 {
                1
            } else {
                games
            };
            if a < b {
                a
            } else {
                b
            }
        },
{
    let a: usize = if conc < 1 { 1 } else { conc };
    let b: usize = if games < 1 { 1 } else { games };
    if a < b {
        a
    } else {
        b
    }
}

/// The games that worker `w` of `c` plays, in order.
pub fn worker_games(w: usize, c: usize, games: usize) -> (r: Vec<usize>)
    requires
        w < c,
        games + c <= usize::MAX,
    ensures
        forall|k: int| 0 <= k < r@.len() ==> #[trigger] r@[k] == w + k * c && r@[k] < games,
        w + r@.len() * c >= games,
{
    let mut r: Vec<usize> = Vec::new();
    let mut g: usize = w;
    assert(0 * c == 0) by (nonlinear_arith);
    while g < games
        invariant
            w < c,
            games + c <= usize::MAX,
            g == w + r@.len() * c,
            forall|k: int| 0 <= k < r@.len() ==> #[trigger] r@[k] == w + k * c && r@[k] < games,
        decreases games + c - g,
    {
        let ghost k = r@.len() as int;
        r.push(g);
        assert((k + 1) * c == k * c + c) by (nonlinear_arith);
        g = g + c;
    }
    r
}

/// The workers share the games out: worker `g % c` plays game `g`, and no other
/// worker does.
pub proof fn workers_share_the_games(w: int, c: int, games: int, k: int, g: int)
    requires
        0 <= w < c,
        0 <= g < games,
    ensures
        g % c == w ==> g == w + (g / c) * c,
        k >= 0 && g == w + k * c ==> g % c == w,
{
    assert(g == (g / c) * c + g % c) by (nonlinear_arith)
        requires
            c > 0,
    ;
    if k >= 0 && g == w + k * c {
        assert((w + k * c) % c == w) by (nonlinear_arith)
            requires
                0 <= w < c,
        ;
    }
}

/// The sum of player `p`'s ranks in a game.
pub open spec fn rank_total(results: Seq<SeatResult>, p: int) -> nat
    decreases results.len(),
{
    if results.len() == 0 {
        0
    } else {
        rank_total(results.drop_last(), p) + if results.last().player == p {
            results.last().rank as nat
        } else {
            0nat
        }
    }
}

/// How often player `p` came in first in a game.
pub open spec fn firsts(results: Seq<SeatResult>, p: int) -> nat
    decreases results.len(),
{
    if results.len() == 0 {
        0
    } else {
        firsts(results.drop_last(), p) + if results.last().player == p && results.last().rank
            == 1 {
            1nat
        } else {
            0nat
        }
    }
}

/// Player `p`'s rank in a game; zero where it has none.
pub open spec fn rank_in(results: Seq<SeatResult>, p: int) -> u32
    decreases results.len(),
{
    if results.len() == 0 {
        0
    } else if results.last().player == p {
        results.last().rank
    } else {
        rank_in(results.drop_last(), p)
    }
}

/// Whether player `i` ranked before player `j` in a game.
pub open spec fn outranked(results: Seq<SeatResult>, i: int, j: int) -> bool {
    i != j && rank_in(results, i) < rank_in(results, j)
}

/// How many games player `i` ranked before player `j`.
pub open spec fn beaten(games: Seq<Vec<SeatResult>>, i: int, j: int) -> nat
    decreases games.len(),
{
    if games.len() == 0 {
        0
    } else {
        beaten(games.drop_last(), i, j) + if outranked(games.last()@, i, j) {
            1nat
        } else {
            0nat
        }
    }
}

/// The sum of player `p`'s ranks over all games.
pub open spec fn all_ranks(games: Seq<Vec<SeatResult>>, p: int) -> nat
    decreases games.len(),
{
    if games.len() == 0 {
        0
    } else {
        all_ranks(games.drop_last(), p) + rank_total(games.last()@, p)
    }
}

/// How often player `p` came in first over all games.
pub open spec fn all_firsts(games: Seq<Vec<SeatResult>>, p: int) -> nat
    decreases games.len(),
{
    if games.len() == 0 {
        0
    } else {
        all_firsts(games.drop_last(), p) + firsts(games.last()@, p)
    }
}

/// In no game two players rank before each other: their records against one
/// another hold no more games than were played.
pub proof fn records_are_decisive(games: Seq<Vec<SeatResult>>, i: int, j: int)
    ensures
        beaten(games, i, j) + beaten(games, j, i) <= games.len(),
    decreases games.len(),
{
    if games.len() > 0 {
        records_are_decisive(games.drop_last(), i, j);
    }
}

/// Player `p`'s rank in a game; zero where it has none.
fn rank_of(results: &Vec<SeatResult>, p: usize) -> (r: u32)
    ensures
        r == rank_in(results@, p as int),
{
    let mut r: u32 = 0;
    let mut i: usize = 0;
    while i < results.len()
        invariant
            i <= results@.len(),
            r == rank_in(results@.take(i as int), p as int),
        decreases results@.len() - i,
    {
        assert(results@.take(i + 1).drop_last() =~= results@.take(i as int));
        if results[i].player as usize == p {
            r = results[i].rank;
        }
        i = i + 1;
    }
    assert(results@.take(i as int) =~= results@);
    r
}

proof fn lemma_score_grows(results: Seq<SeatResult>, p: int, k: int)
    requires
        0 <= k <= results.len(),
    ensures
        rank_total(results.take(k), p) <= rank_total(results, p),
        firsts(results, p) <= rank_total(results, p),
        firsts(results, p) <= results.len(),
    decreases results.len(),
{
    if k < results.len() {
        let t = results.drop_last();
        lemma_score_grows(t, p, k);
        assert(t.take(k) =~= results.take(k));
    } else {
        assert(results.take(k) =~= results);
        if results.len() > 0 {
            lemma_score_grows(results.drop_last(), p, k - 1);
        }
    }
}

proof fn lemma_standings_grow(games: Seq<Vec<SeatResult>>, p: int, k: int)
    requires
        0 <= k <= games.len(),
    ensures
        all_ranks(games.take(k), p) <= all_ranks(games, p),
        all_firsts(games, p) <= all_ranks(games, p),
    decreases games.len(),
{
    if k < games.len() {
        let t = games.drop_last();
        lemma_standings_grow(t, p, k);
        assert(t.take(k) =~= games.take(k));
        lemma_score_grows(games.last()@, p, 0);
    } else {
        assert(games.take(k) =~= games);
        if games.len() > 0 {
            lemma_standings_grow(games.drop_last(), p, k - 1);
            lemma_score_grows(games.last()@, p, 0);
        }
    }
}

/// Player `p`'s rank sum and first places in a game.
fn game_score(results: &Vec<SeatResult>, p: usize) -> (r: (u64, u64))
    requires
        rank_total(results@, p as int) <= u64::MAX,
    ensures
        r.0 == rank_total(results@, p as int),
        r.1 == firsts(results@, p as int),
{
    let (mut ranks, mut first): (u64, u64) = (0, 0);
    let mut i: usize = 0;
    while i < results.len()
        invariant
            i <= results@.len(),
            rank_total(results@, p as int) <= u64::MAX,
            ranks == rank_total(results@.take(i as int), p as int),
            first == firsts(results@.take(i as int), p as int),
            first <= ranks,
        decreases results@.len() - i,
    {
        assert(results@.take(i + 1).drop_last() =~= results@.take(i as int));
        proof {
            lemma_score_grows(results@, p as int, i + 1);
        }
        if results[i].player as usize == p {
            ranks = ranks + results[i].rank as u64;
            if results[i].rank == 1 {
                first = first + 1;
            }
        }
        i = i + 1;
    }
    assert(results@.take(i as int) =~= results@);
    (ranks, first)
}

/// The result of a round-robin, by player.
pub struct Standings {
    pub rank_sum: Vec<u64>,
    pub wins: Vec<u64>,
    /// `beats[i][j]`: games in which player `i` ranked before player `j`.
    pub beats: Vec<Vec<u64>>,
}

/// Whether standings count a list of games between `n` players.
pub open spec fn stands(t: Standings, games: Seq<Vec<SeatResult>>, n: nat) -> bool {
    &&& t.rank_sum@.len() == n && t.wins@.len() == n && t.beats@.len() == n
    &&& forall|p: int| 0 <= p < n ==> #[trigger] t.rank_sum@[p] == all_ranks(games, p)
    &&& forall|p: int| 0 <= p < n ==> #[trigger] t.wins@[p] == all_firsts(games, p)
    &&& forall|i: int| 0 <= i < n ==> (#[trigger] t.beats@[i])@.len() == n
    &&& forall|i: int, j: int|
        0 <= i < n && 0 <= j < n ==> #[trigger] t.beats@[i]@[j] == beaten(games, i, j)
}

/// How many games player `i` ranked before player `j`.
fn count_beaten(games: &Vec<Vec<SeatResult>>, i: usize, j: usize) -> (c: u64)
    ensures
        c == beaten(games@, i as int, j as int),
        c <= games@.len(),
{
    let mut c: u64 = 0;
    let mut g: usize = 0;
    assert(games@.take(0) =~= Seq::<Vec<SeatResult>>::empty());
    while g < games.len()
        invariant
            g <= games@.len(),
            c == beaten(games@.take(g as int), i as int, j as int),
            c <= g,
        decreases games@.len() - g,
    {
        assert(games@.take(g + 1).drop_last() =~= games@.take(g as int));
        if i != j && rank_of(&games[g], i) < rank_of(&games[g], j) {
            c = c + 1;
        }
        g = g + 1;
    }
    assert(games@.take(g as int) =~= games@);
    c
}

/// The standings after a round-robin between `n` players, from the games that
/// were played to the end.
pub fn round_robin(games: &Vec<Vec<SeatResult>>, n: usize) -> (t: Standings)
    requires
        forall|p: int| 0 <= p < n ==> #[trigger] all_ranks(games@, p) <= u64::MAX,
    ensures
        stands(t, games@, n as nat),
{
    let mut rank_sum: Vec<u64> = Vec::new();
    let mut wins: Vec<u64> = Vec::new();
    let mut beats: Vec<Vec<u64>> = Vec::new();
    let mut i: usize = 0;
    while i < n
        invariant
            i <= n,
            forall|p: int| 0 <= p < n ==> #[trigger] all_ranks(games@, p) <= u64::MAX,
            rank_sum@.len() == i,
            wins@.len() == i,
            beats@.len() == i,
            forall|p: int| 0 <= p < i ==> #[trigger] rank_sum@[p] == all_ranks(games@, p),
            forall|p: int| 0 <= p < i ==> #[trigger] wins@[p] == all_firsts(games@, p),
            forall|a: int| 0 <= a < i ==> (#[trigger] beats@[a])@.len() == n,
            forall|a: int, b: int|
                0 <= a < i && 0 <= b < n ==> #[trigger] beats@[a]@[b] == beaten(games@, a, b),
        decreases n - i,
    {
        let (mut ranks, mut first): (u64, u64) = (0, 0);
        let mut g: usize = 0;
        assert(games@.take(0) =~= Seq::<Vec<SeatResult>>::empty());
        while g < games.len()
            invariant
                g <= games@.len(),
                all_ranks(games@, i as int) <= u64::MAX,
                ranks == all_ranks(games@.take(g as int), i as int),
                first == all_firsts(games@.take(g as int), i as int),
                first <= ranks,
            decreases games@.len() - g,
        {
            assert(games@.take(g + 1).drop_last() =~= games@.take(g as int));
            proof {
                lemma_standings_grow(games@, i as int, g + 1);
                lemma_score_grows(games@[g as int]@, i as int, 0);
            }
            let (a, b): (u64, u64) = game_score(&games[g], i);
            ranks = ranks + a;
            first = first + b;
            g = g + 1;
        }
        assert(games@.take(g as int) =~= games@);
        let mut row: Vec<u64> = Vec::new();
        let mut j: usize = 0;
        while j < n
            invariant
                j <= n,
                row@.len() == j,
                forall|b: int| 0 <= b < j ==> #[trigger] row@[b] == beaten(games@, i as int, b),
            decreases n - j,
        {
            row.push(count_beaten(games, i, j));
            j = j + 1;
        }
        rank_sum.push(ranks);
        wins.push(first);
        beats.push(row);
        i = i + 1;
    }
    Standings { rank_sum, wins, beats }
}

/// One pair of players: how often the later one ranked first, and in how many
/// games one of them did.
#[derive(Clone, Copy, Debug, PartialEq, Eq, Structural)]
pub struct HeadToHead {
    pub earlier: usize,
    pub later: usize,
    pub later_wins: u64,
    pub decisive: u64,
}

/// The record of player `j` against player `i`.
pub fn head_to_head(t: &Standings, i: usize, j: usize) -> (h: HeadToHead)
    requires
        i < t.beats@.len(),
        j < t.beats@.len(),
        t.beats@[i as int]@.len() == t.beats@.len(),
        t.beats@[j as int]@.len() == t.beats@.len(),
        t.beats@[i as int]@[j as int] + t.beats@[j as int]@[i as int] <= u64::MAX,
    ensures
        h.earlier == i,
        h.later == j,
        h.later_wins == t.beats@[j as int]@[i as int],
        h.decisive == t.beats@[j as int]@[i as int] + t.beats@[i as int]@[j as int],
{
    let w: u64 = t.beats[j][i];
    HeadToHead { earlier: i, later: j, later_wins: w, decisive: w + t.beats[i][j] }
}

/// Who came in first in a game: the first of the players with rank one; zero
/// where there is none.
pub open spec fn first_player(results: Seq<SeatResult>, gens: Seq<u32>, k: nat) -> u32
    decreases gens.len() - k,
{
    if k >= gens.len() {
        0
    } else if rank_in(results, k as int) == 1 {
        gens[k as int]
    } else {
        first_player(results, gens, k + 1)
    }
}

/// Who came in first in a game between `gens`.
pub fn game_winner(results: &Vec<SeatResult>, gens: &Vec<u32>) -> (g: u32)
    ensures
        g == first_player(results@, gens@, 0),
{
    let mut i: usize = 0;
    while i < gens.len()
        invariant
            i <= gens@.len(),
            first_player(results@, gens@, 0) == first_player(results@, gens@, i as nat),
        decreases gens@.len() - i,
    {
        if rank_of(results, i) == 1 {
            return gens[i];
        }
        i = i + 1;
    }
    0
}

/// How games are split: those of the wrong shape are left out, and the others go
/// by the draws, the first of them by the first one and so on, to the side that
/// theirs says.
pub proof fn games_go_where_they_were_drawn<F>(
    games: Seq<GameJson<F>>,
    board: i8,
    n: nat,
    to_val: Seq<bool>,
    i: int,
)
    requires
        games.len() < usize::MAX,
        0 <= i < games.len(),
    ensures
        ({
            let fits = |g: GameJson<F>|
                g.frames@.len() > 0 && g.frames@[0].width == board && g.frames@[0].height == board
                    && g.frames@[0].snakes@.len() == n;
            let before = games.take(i).filter(fits).len() as int;
            let train = side(games, board, n, to_val, false, games.len());
            let val = side(games, board, n, to_val, true, games.len());
            &&& val.contains(i as usize) <==> fits(games[i]) && to_val[before]
            &&& train.contains(i as usize) <==> fits(games[i]) && !to_val[before]
            &&& usable(games, board, n, games.len()) == games.filter(fits).len()
        }),
{
    lemma_side(games, board, n, to_val, false, games.len());
    lemma_side(games, board, n, to_val, true, games.len());
    lemma_usable_counts(games, board, n, i as nat);
    lemma_usable_counts(games, board, n, games.len());
    assert(games.take(games.len() as int) =~= games);
}

proof fn lemma_usable_counts<F>(games: Seq<GameJson<F>>, board: i8, n: nat, k: nat)
    requires
        k <= games.len(),
    ensures
        usable(games, board, n, k) == games.take(k as int).filter(
            |g: GameJson<F>|
                g.frames@.len() > 0 && g.frames@[0].width == board && g.frames@[0].height == board
                    && g.frames@[0].snakes@.len() == n,
        ).len(),
    decreases k,
{
    reveal(Seq::filter);
    if k > 0 {
        lemma_usable_counts(games, board, n, (k - 1) as nat);
        assert(games.take(k as int).drop_last() =~= games.take(k - 1));
        assert(games.take(k as int).last() == games[k - 1]);
    }
}

/// What a round robin counts of one game: a player's first places, its ranks, and
/// for two players with a seat each the better rank as a win over the other.
pub proof fn the_better_rank_wins(results: Seq<SeatResult>, i: int, j: int, a: int, b: int)
    requires
        i != j,
        0 <= a < results.len(),
        0 <= b < results.len(),
        results[a].player == i,
        results[b].player == j,
        forall|k: int| 0 <= k < results.len() && k != a ==> (#[trigger] results[k]).player != i,
        forall|k: int| 0 <= k < results.len() && k != b ==> (#[trigger] results[k]).player != j,
    ensures
        outranked(results, i, j) <==> results[a].rank < results[b].rank,
        rank_total(results, i) == results[a].rank,
        firsts(results, i) == if results[a].rank == 1 {
            1nat
        } else {
            0nat
        },
{
    lemma_one_seat(results, i, a);
    lemma_one_seat(results, j, b);
}

proof fn lemma_one_seat(results: Seq<SeatResult>, p: int, a: int)
    requires
        0 <= a < results.len(),
        results[a].player == p,
        forall|k: int| 0 <= k < results.len() && k != a ==> (#[trigger] results[k]).player != p,
    ensures
        rank_in(results, p) == results[a].rank,
        rank_total(results, p) == results[a].rank,
        firsts(results, p) == if results[a].rank == 1 {
            1nat
        } else {
            0nat
        },
    decreases results.len(),
{
    let last = results.len() - 1;
    if a < last {
        assert(results[last].player != p);
        lemma_one_seat(results.drop_last(), p, a);
    } else {
        lemma_no_seat(results.drop_last(), p);
    }
}

proof fn lemma_no_seat(results: Seq<SeatResult>, p: int)
    requires
        forall|k: int| 0 <= k < results.len() ==> (#[trigger] results[k]).player != p,
    ensures
        rank_total(results, p) == 0,
        firsts(results, p) == 0,
    decreases results.len(),
{
    if results.len() > 0 {
        assert(results[results.len() - 1].player != p);
        let rest = results.drop_last();
        assert forall|k: int| 0 <= k < rest.len() implies (#[trigger] rest[k]).player != p by {
            assert(results[k].player != p);
        }
        lemma_no_seat(rest, p);
    }
}

/// Games add up one by one.
pub proof fn standings_add_up(games: Seq<Vec<SeatResult>>, g: Vec<SeatResult>, i: int, j: int)
    ensures
        all_ranks(games.push(g), i) == all_ranks(games, i) + rank_total(g@, i),
        all_firsts(games.push(g), i) == all_firsts(games, i) + firsts(g@, i),
        beaten(games.push(g), i, j) == beaten(games, i, j) + if outranked(g@, i, j) {
            1nat
        } else {
            0nat
        },
        beaten(Seq::<Vec<SeatResult>>::empty(), i, j) == 0,
        all_ranks(Seq::<Vec<SeatResult>>::empty(), i) == 0,
        all_firsts(Seq::<Vec<SeatResult>>::empty(), i) == 0,
{
    assert(games.push(g).drop_last() =~= games);
}

/// The winner that is shown of a game is the first generation whose player came
/// first, or zero.
pub proof fn the_shown_winner_came_first(results: Seq<SeatResult>, gens: Seq<u32>, k: nat)
    ensures
        (forall|i: int| k <= i < gens.len() ==> rank_in(results, i) != 1) ==> first_player(
            results,
            gens,
            k,
        ) == 0,
        forall|i: int|
            #![trigger gens[i]]
            k <= i < gens.len() && rank_in(results, i) == 1 && (forall|j: int|
                k <= j < i ==> rank_in(results, j) != 1) ==> first_player(results, gens, k)
                == gens[i],
    decreases gens.len() - k,
{
    if k < gens.len() && rank_in(results, k as int) != 1 {
        the_shown_winner_came_first(results, gens, k + 1);
    }
}

} // verus!
