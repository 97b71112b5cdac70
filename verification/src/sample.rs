//! Recorded games: the frames that training samples and replays come from.
//!
//! `F` is the number type of policies and values; nothing here looks inside
//! it.

use vstd::prelude::*;
use vstd::string::*;

use crate::board::{Board, Move, Point};
use crate::lists;
use crate::order;
use crate::text;

verus! {

/// A board coordinate as the `[x, y]` pair of a recording.
pub type Coord = [i32; 2];

/// The recorded games of one generation.
pub struct GameFileJson<F> {
    pub gen: u32,
    pub games: Vec<GameJson<F>>,
}

/// One recorded game, from its first turn.
pub struct GameJson<F> {
    pub frames: Vec<FrameJson<F>>,
    /// The winning snake's index; `None` for a draw.
    pub winner: Option<i32>,
    pub num_turns: u32,
    /// Bit `s` is set where seat `s` was played by a sparring heuristic.
    pub heur_mask: u32,
    /// The search temperature of the whole game.
    pub temp: F,
}

/// One turn of a recorded game.
pub struct FrameJson<F> {
    pub turn: u32,
    pub width: i32,
    pub height: i32,
    pub food: Vec<Coord>,
    pub hazards: Vec<Coord>,
    pub snakes: Vec<SnakeJson<F>>,
}

/// One snake in a frame, with the search's readout for it.
pub struct SnakeJson<F> {
    pub alive: bool,
    pub body: Vec<Coord>,
    pub health: i32,
    pub chosen_move: u32,
    /// The search's policy over the four moves.
    pub policy: Vec<F>,
    /// The policy that the move was chosen from.
    pub play_policy: Vec<F>,
    pub value: F,
}

/// Whether a coordinate pair stands for a cell.
pub open spec fn is_cell(c: Coord, p: Point) -> bool {
    c@[0] == p.x && c@[1] == p.y
}

/// Whether coordinate pairs stand for cells, one for one.
pub open spec fn are_cells(cs: Seq<Coord>, ps: Seq<Point>) -> bool {
    cs.len() == ps.len() && forall|i: int| 0 <= i < ps.len() ==> is_cell(#[trigger] cs[i], ps[i])
}

/// The coordinate pairs of a list of cells.
pub fn coords(ps: &Vec<Point>) -> (cs: Vec<Coord>)
    ensures
        are_cells(cs@, ps@),
        cs@.len() == ps@.len(),
        forall|i: int|
            0 <= i < ps@.len() ==> (#[trigger] cs@[i])@[0] == ps@[i].x && cs@[i]@[1] == ps@[i].y,
{
    let mut cs: Vec<Coord> = Vec::new();
    let mut i: usize = 0;
    while i < ps.len()
        invariant
            i <= ps@.len(),
            cs@.len() == i,
            forall|j: int| 0 <= j < i ==> is_cell(#[trigger] cs@[j], ps@[j]),
        decreases ps@.len() - i,
    {
        let p = ps[i];
        cs.push([p.x as i32, p.y as i32]);
        i = i + 1;
    }
    cs
}

/// A copy of `v[lo..lo + k]`.
pub fn copy_slice<F: Copy>(v: &Vec<F>, lo: usize, k: usize) -> (r: Vec<F>)
    requires
        lo + k <= v@.len(),
    ensures
        r@ == v@.subrange(lo as int, lo + k),
{
    let mut r: Vec<F> = Vec::new();
    let mut i: usize = 0;
    while i < k
        invariant
            i <= k,
            lo + k <= v@.len(),
            r@ == v@.subrange(lo as int, lo + i),
        decreases k - i,
    {
        let n: usize = v.len();
        assert(lo + i < n);
        r.push(v[lo + i]);
        i = i + 1;
        assert(r@ =~= v@.subrange(lo as int, lo + i));
    }
    r
}

/// What a frame records of snake `s`.
pub open spec fn records_snake<F>(
    j: SnakeJson<F>,
    board: &Board,
    s: int,
    policy: Seq<F>,
    values: Seq<F>,
    play_pols: Seq<Vec<F>>,
    actions: Seq<Move>,
) -> bool {
    let snake = board.snakes@[s];
    &&& j.alive == snake.is_alive()
    &&& are_cells(j.body@, snake.body@)
    &&& j.health == snake.health
    &&& j.chosen_move == actions[s].index_of()
    &&& j.policy@ == policy.subrange(s * 4, s * 4 + 4)
    &&& j.play_policy@ == play_pols[s]@
    &&& j.value == values[s]
}

/// What a frame records of a position and of the search on it.
pub open spec fn records<F>(
    f: FrameJson<F>,
    board: &Board,
    n: nat,
    policy: Seq<F>,
    values: Seq<F>,
    play_pols: Seq<Vec<F>>,
    actions: Seq<Move>,
) -> bool {
    &&& f.turn == board.turn
    &&& f.width == board.width
    &&& f.height == board.height
    &&& are_cells(f.food@, board.food@)
    &&& are_cells(f.hazards@, board.hazards@)
    &&& f.snakes@.len() == n
    &&& forall|s: int|
        0 <= s < n ==> records_snake(
            #[trigger] f.snakes@[s],
            board,
            s,
            policy,
            values,
            play_pols,
            actions,
        )
}

/// Captures one position as a frame: `policy` and `values` are the search's
/// output for it (four numbers and one number per snake), `play_pols[s]` the
/// policy that snake `s` played from and `actions[s]` the move it chose.
pub fn frame_from_board<F: Copy>(
    board: &Board,
    n: usize,
    policy: &Vec<F>,
    values: &Vec<F>,
    play_pols: &Vec<Vec<F>>,
    actions: &Vec<Move>,
) -> (f: FrameJson<F>)
    requires
        n <= board.snakes@.len(),
        policy@.len() >= n * 4,
        values@.len() >= n,
        play_pols@.len() >= n,
        actions@.len() >= n,
    ensures
        records(f, board, n as nat, policy@, values@, play_pols@, actions@),
{
    let mut snakes: Vec<SnakeJson<F>> = Vec::new();
    let mut s: usize = 0;
    let rows: usize = policy.len();
    while s < n
        invariant
            s <= n,
            n <= board.snakes@.len(),
            rows == policy@.len(),
            rows >= n * 4,
            values@.len() >= n,
            play_pols@.len() >= n,
            actions@.len() >= n,
            snakes@.len() == s,
            forall|k: int|
                0 <= k < s ==> records_snake(
                    #[trigger] snakes@[k],
                    board,
                    k,
                    policy@,
                    values@,
                    play_pols@,
                    actions@,
                ),
        decreases n - s,
    {
        let snake = &board.snakes[s];
        let play = copy_slice(&play_pols[s], 0, play_pols[s].len());
        assert(play@ =~= play_pols@[s as int]@);
        snakes.push(
            SnakeJson {
                alive: snake.alive(),
                body: coords(&snake.body),
                health: snake.health as i32,
                chosen_move: actions[s].index() as u32,
                policy: copy_slice(policy, s * 4, 4),
                play_policy: play,
                value: values[s],
            },
        );
        s = s + 1;
    }
    FrameJson {
        turn: board.turn,
        width: board.width as i32,
        height: board.height as i32,
        food: coords(&board.food),
        hazards: coords(&board.hazards),
        snakes,
    }
}

/// The name of a generation's file of recorded games.
pub open spec fn generation_file(gen: u32) -> Seq<char> {
    "gen_"@ + text::dec_padded(gen as nat, 4) + ".json"@
}

/// The name of a generation's file of recorded games.
pub fn generation_file_name(gen: u32) -> (name: String)
    ensures
        name@ == generation_file(gen),
{
    let mut name = String::new();
    name.append("gen_");
    text::push_dec(&mut name, gen as u64, 4);
    name.append(".json");
    assert(name@ =~= generation_file(gen));
    name
}

/// Files of recorded games sort by name as by generation, up to generation
/// 9,999.
pub proof fn generation_files_sort_by_generation(gen: u32, later: u32)
    requires
        gen < later < 10_000,
    ensures
        order::text_below(generation_file(gen), generation_file(later)),
{
    text::lemma_dec_grows(later as nat, 9_999);
    assert(text::dec(9_999).len() == 4) by {
        reveal_with_fuel(text::dec, 4);
    }
    order::padded_numbers_sort("gen_"@, gen as nat, later as nat, 4, ".json"@, ".json"@);
}

/// Whether a directory entry is a file of recorded games.
pub open spec fn is_generation_file(name: Seq<char>) -> bool {
    text::starts_with(name, "gen_"@) && text::ends_with(name, ".json"@)
}

/// The names among `names` that are files of recorded games, in the order
/// given.
pub open spec fn generation_files(names: Seq<Vec<char>>) -> Seq<usize> {
    lists::indices_where(names.len(), |i: int| is_generation_file(names[i]@))
}

/// Picks `names[at[i]]` for each `i`.
pub open spec fn picked(names: Seq<Vec<char>>, at: Seq<usize>) -> Seq<Seq<char>> {
    at.map_values(|i: usize| names[i as int]@)
}

/// Which directory entries to delete so that at most `keep` files of recorded
/// games stay, the last ones by name; zero keeps every one of them for good.
///
/// The result indexes into `names`; other files are never touched.
pub fn prune(names: &Vec<Vec<char>>, keep: usize) -> (gone: Vec<usize>)
    ensures
        keep == 0 ==> gone@.len() == 0,
        keep > 0 ==> exists|keys: Seq<Vec<char>>, e: Seq<usize>| #[trigger]
            lists::is_excess(keys, keep as nat, e) && text::texts(keys) == picked(
                names@,
                generation_files(names@),
            ) && gone@ == e.map_values(|j: usize| generation_files(names@)[j as int]),
{
    if keep == 0 {
        return Vec::new();
    }
    let ghost keep_fn = |i: int| is_generation_file(names@[i]@);
    let mut files: Vec<usize> = Vec::new();
    let mut keys: Vec<Vec<char>> = Vec::new();
    let mut i: usize = 0;
    while i < names.len()
        invariant
            i <= names@.len(),
            keep_fn == (|i: int| is_generation_file(names@[i]@)),
            files@ == lists::indices_where(i as nat, keep_fn),
            text::texts(keys@) == picked(names@, files@),
        decreases names@.len() - i,
    {
        let name = &names[i];
        if text::has_prefix(name, "gen_") && text::has_suffix(name, ".json") {
            assert(keep_fn(i as int));
            let ghost old_keys = keys@;
            let ghost old_files = files@;
            let key = text::copy_range(name, 0, name.len());
            assert(key@ =~= name@);
            keys.push(key);
            files.push(i);
            assert(text::texts(keys@) =~= text::texts(old_keys).push(key@));
            assert(picked(names@, files@) =~= picked(names@, old_files).push(name@));
        } else {
            assert(!keep_fn(i as int));
        }
        i = i + 1;
    }
    let e = lists::excess(&keys, keep);
    proof {
        lists::excess_keeps_the_largest(keys@, keep as nat, e@);
        lists::lemma_indices_where(names@.len(), keep_fn);
        assert(text::texts(keys@).len() == keys@.len());
        assert(picked(names@, files@).len() == files@.len());
    }
    let mut gone: Vec<usize> = Vec::new();
    let mut j: usize = 0;
    while j < e.len()
        invariant
            j <= e@.len(),
            files@ == generation_files(names@),
            forall|k: int| 0 <= k < e@.len() ==> #[trigger] e@[k] < files@.len(),
            gone@ == e@.take(j as int).map_values(|j: usize| files@[j as int]),
        decreases e@.len() - j,
    {
        gone.push(files[e[j]]);
        j = j + 1;
        assert(gone@ =~= e@.take(j as int).map_values(|j: usize| files@[j as int]));
    }
    assert(e@.take(j as int) =~= e@);
    gone
}

/// What a recorded frame shows of a position: its size, turn, food and hazards, and
/// of each snake whether it is alive, its cells from the head on, its health, the
/// move it made, and its own part of the policy and the values.
pub proof fn frames_show_the_position<F>(
    f: FrameJson<F>,
    board: &Board,
    n: nat,
    policy: Seq<F>,
    values: Seq<F>,
    play_pols: Seq<Vec<F>>,
    actions: Seq<Move>,
    s: int,
)
    requires
        records(f, board, n, policy, values, play_pols, actions),
        0 <= s < n,
        policy.len() >= n * 4,
    ensures
        f.turn == board.turn,
        f.width == board.width,
        f.height == board.height,
        f.food@.len() == board.food@.len(),
        forall|i: int|
            0 <= i < board.food@.len() ==> (#[trigger] f.food@[i])@[0] == board.food@[i].x
                && f.food@[i]@[1] == board.food@[i].y,
        f.hazards@.len() == board.hazards@.len(),
        forall|i: int|
            0 <= i < board.hazards@.len() ==> (#[trigger] f.hazards@[i])@[0] == board.hazards@[i].x
                && f.hazards@[i]@[1] == board.hazards@[i].y,
        f.snakes@.len() == n,
        f.snakes@[s].alive <==> board.snakes@[s].eliminated is None,
        f.snakes@[s].health == board.snakes@[s].health,
        f.snakes@[s].body@.len() == board.snakes@[s].body@.len(),
        forall|i: int|
            0 <= i < board.snakes@[s].body@.len() ==> (#[trigger] f.snakes@[s].body@[i])@[0]
                == board.snakes@[s].body@[i].x && f.snakes@[s].body@[i]@[1]
                == board.snakes@[s].body@[i].y,
        f.snakes@[s].chosen_move == 0 <==> actions[s] == Move::Up,
        f.snakes@[s].chosen_move == 1 <==> actions[s] == Move::Down,
        f.snakes@[s].chosen_move == 2 <==> actions[s] == Move::Left,
        f.snakes@[s].chosen_move == 3 <==> actions[s] == Move::Right,
        f.snakes@[s].value == values[s],
        f.snakes@[s].policy@.len() == 4,
        forall|m: int| 0 <= m < 4 ==> #[trigger] f.snakes@[s].policy@[m] == policy[s * 4 + m],
        f.snakes@[s].play_policy@ == play_pols[s]@,
{
    assert(records_snake(f.snakes@[s], board, s, policy, values, play_pols, actions));
    assert forall|i: int| 0 <= i < board.food@.len() implies (#[trigger] f.food@[i])@[0]
        == board.food@[i].x && f.food@[i]@[1] == board.food@[i].y by {
        assert(is_cell(f.food@[i], board.food@[i]));
    }
    assert forall|i: int| 0 <= i < board.hazards@.len() implies (#[trigger] f.hazards@[i])@[0]
        == board.hazards@[i].x && f.hazards@[i]@[1] == board.hazards@[i].y by {
        assert(is_cell(f.hazards@[i], board.hazards@[i]));
    }
    assert forall|i: int| 0 <= i < board.snakes@[s].body@.len() implies (
    #[trigger] f.snakes@[s].body@[i])@[0] == board.snakes@[s].body@[i].x
        && f.snakes@[s].body@[i]@[1] == board.snakes@[s].body@[i].y by {
        assert(is_cell(f.snakes@[s].body@[i], board.snakes@[s].body@[i]));
    }
}

/// Pruning lets the first files by name go: what stays is not before what goes.
pub proof fn pruning_keeps_the_last_by_name(
    keys: Seq<Vec<char>>,
    keep: nat,
    e: Seq<usize>,
    j: int,
    k: usize,
)
    requires
        lists::is_excess(keys, keep, e),
        0 <= j < e.len(),
        k < keys.len(),
        !e.contains(k),
    ensures
        !order::text_below(keys[k as int]@, keys[e[j] as int]@),
        e.len() + keep == keys.len(),
{
    lists::excess_keeps_the_largest(keys, keep, e);
    let at = k as int;
    assert(!e.contains(at as usize));
    assert(order::may_precede(keys, e[j], at as usize));
    order::SortKey::order_laws(keys[e[j] as int], keys[k as int], keys[e[j] as int]);
}

} // verus!
