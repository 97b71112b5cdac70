//! Which moves a snake has, and how a finished game is scored.

use vstd::prelude::*;

use crate::board::{Board, Move, Point, Snake};

verus! {

/// The most candidate moves a snake can have.
pub const MAXC: usize = 4;

/// Whether a living snake's move `m` stays on the board and does not turn back
/// onto the neck.
pub open spec fn is_forward(board: &Board, i: int, m: int) -> bool {
    let s = board.snakes@[i];
    let (x, y) = target(s.body@[0], m);
    board.holds(x, y) && !(s.body@.len() >= 2 && s.body@[1].at(x, y))
}

/// The move with index `m`.
pub open spec fn nth_move(m: int) -> Move {
    if m == 0 {
        Move::Up
    } else if m == 1 {
        Move::Down
    } else if m == 2 {
        Move::Left
    } else {
        Move::Right
    }
}

/// Where the move with index `m` leads from `head`.
pub open spec fn target(head: Point, m: int) -> (int, int) {
    (head.x + nth_move(m).dx(), head.y + nth_move(m).dy())
}

/// The move indices below `k` that a predicate keeps, in ascending order.
pub open spec fn keep_below(keep: spec_fn(int) -> bool, k: nat) -> Seq<u8>
    decreases k,
{
    if k == 0 {
        Seq::empty()
    } else {
        let rest = keep_below(keep, (k - 1) as nat);
        if keep(k - 1) {
            rest.push((k - 1) as u8)
        } else {
            rest
        }
    }
}

/// The candidate moves of snake `i`: those that are forward, all four where
/// none is, and the single placeholder `0` for a snake that is out of the game.
pub open spec fn candidate_moves(board: &Board, i: int) -> Seq<u8> {
    let fwd = keep_below(|m: int| is_forward(board, i, m), 4);
    if !board.seat_alive(i) {
        seq![0u8]
    } else if fwd.len() == 0 {
        seq![0u8, 1u8, 2u8, 3u8]
    } else {
        fwd
    }
}

pub proof fn lemma_keep_below(keep: spec_fn(int) -> bool, k: nat)
    requires
        k <= 4,
    ensures
        keep_below(keep, k).len() <= k,
        forall|j: int| 0 <= j < keep_below(keep, k).len() ==> #[trigger] keep_below(keep, k)[j] < k
            && keep(keep_below(keep, k)[j] as int),
        forall|a: int, b: int| 0 <= a < b < keep_below(keep, k).len() ==> #[trigger] keep_below(
            keep,
            k,
        )[a] < #[trigger] keep_below(keep, k)[b],
    decreases k,
{
    if k > 0 {
        lemma_keep_below(keep, (k - 1) as nat);
    }
}

proof fn lemma_keep_below_all(keep: spec_fn(int) -> bool, k: nat, m: u8)
    requires
        k <= 4,
        m < k,
        keep(m as int),
    ensures
        keep_below(keep, k).contains(m),
    decreases k,
{
    let all = keep_below(keep, k);
    let rest = keep_below(keep, (k - 1) as nat);
    if m == k - 1 {
        assert(all[all.len() - 1] == m);
    } else {
        lemma_keep_below_all(keep, (k - 1) as nat, m);
        let j = choose|j: int| 0 <= j < rest.len() && rest[j] == m;
        assert(all[j] == m);
    }
}

/// What the candidates of a snake are, on the board's sides and the cells of the
/// body: for a living snake a move is a candidate exactly if its target is on the
/// board and is not the second cell of the body, as long as there is such a move;
/// where there is none all four are. A move back onto the neck is thus never
/// offered to a snake that has another way. A snake that is out has the one
/// placeholder.
pub proof fn candidates_never_turn_back(board: &Board, i: int)
    requires
        0 <= i < board.snakes@.len(),
        board.snakes@[i].eliminated is None ==> board.snakes@[i].body@.len() >= 1,
    ensures
        board.snakes@[i].eliminated is Some ==> candidate_moves(board, i) == seq![0u8],
        board.snakes@[i].eliminated is None ==> {
            let body = board.snakes@[i].body@;
            let (x, y) = (body[0].x as int, body[0].y as int);
            let free = |cx: int, cy: int|
                0 <= cx < board.width && 0 <= cy < board.height && !(body.len() >= 2 && body[1].x
                    == cx && body[1].y == cy);
            let (up, down) = (free(x, y + 1), free(x, y - 1));
            let (left, right) = (free(x - 1, y), free(x + 1, y));
            let moves = candidate_moves(board, i);
            &&& up || down || left || right ==> {
                &&& moves.contains(0) <==> up
                &&& moves.contains(1) <==> down
                &&& moves.contains(2) <==> left
                &&& moves.contains(3) <==> right
                &&& forall|j: int| 0 <= j < moves.len() ==> #[trigger] moves[j] < 4
            }
            &&& !(up || down || left || right) ==> moves == seq![0u8, 1u8, 2u8, 3u8]
        },
{
    let keep = |m: int| is_forward(board, i, m);
    lemma_keep_below(keep, 4);
    let fwd = keep_below(keep, 4);
    assert forall|m: u8| m < 4 implies #[trigger] fwd.contains(m) == keep(m as int) by {
        if keep(m as int) {
            lemma_keep_below_all(keep, 4, m);
        }
    }
    if fwd.len() > 0 {
        assert(fwd.contains(fwd[0]));
        assert(keep(fwd[0] as int));
        assert(keep(0) || keep(1) || keep(2) || keep(3));
    } else {
        assert(!fwd.contains(0) && !fwd.contains(1) && !fwd.contains(2) && !fwd.contains(3));
    }
    assert(fwd.contains(0) == keep(0));
    assert(fwd.contains(1) == keep(1));
    assert(fwd.contains(2) == keep(2));
    assert(fwd.contains(3) == keep(3));
}

/// Every snake has between one and four candidates, in ascending order, each a
/// move index.
pub proof fn candidates_are_moves(board: &Board, i: int)
    ensures
        1 <= candidate_moves(board, i).len() <= MAXC,
        forall|j: int| 0 <= j < candidate_moves(board, i).len() ==> #[trigger] candidate_moves(
            board,
            i,
        )[j] < 4,
        forall|a: int, b: int| 0 <= a < b < candidate_moves(board, i).len()
            ==> #[trigger] candidate_moves(board, i)[a] < #[trigger] candidate_moves(board, i)[b],
{
    lemma_keep_below(|m: int| is_forward(board, i, m), 4);
}

/// The candidate moves of snake `i`: neither off the board nor onto its own
/// neck. A trapped snake keeps all four; a snake out of the game has one
/// placeholder.
pub fn candidates(board: &Board, i: usize) -> (out: Vec<u8>)
    requires
        i < board.snakes@.len(),
        board.seat_alive(i as int) ==> board.snakes@[i as int].body@.len() >= 1,
    ensures
        out@ == candidate_moves(board, i as int),
        board.snakes@[i as int].eliminated is None ==> {
            let body = board.snakes@[i as int].body@;
            let (x, y) = (body[0].x as int, body[0].y as int);
            let free = |cx: int, cy: int|
                0 <= cx < board.width && 0 <= cy < board.height && !(body.len() >= 2 && body[1].x
                    == cx && body[1].y == cy);
            let (up, down) = (free(x, y + 1), free(x, y - 1));
            let (left, right) = (free(x - 1, y), free(x + 1, y));
            let none = !(up || down || left || right);
            &&& out@.contains(0) <==> up || none
            &&& out@.contains(1) <==> down || none
            &&& out@.contains(2) <==> left || none
            &&& out@.contains(3) <==> right || none
        },
{
    proof {
        candidates_never_turn_back(board, i as int);
        let all = seq![0u8, 1u8, 2u8, 3u8];
        assert(all[0] == 0 && all[1] == 1 && all[2] == 2 && all[3] == 3);
    }
    let s = &board.snakes[i];
    let mut out: Vec<u8> = Vec::new();
    if !s.alive() {
        out.push(0);
        return out;
    }
    let head = s.body[0];
    let ghost keep = |m: int| is_forward(board, i as int, m);
    let mut m: u8 = 0;
    while m < 4
        invariant
            m <= 4,
            i < board.snakes@.len(),
            *s == board.snakes@[i as int],
            s.body@.len() >= 1,
            head == s.body@[0],
            keep == (|m: int| is_forward(board, i as int, m)),
            out@ == keep_below(keep, m as nat),
        decreases 4 - m,
    {
        let mv = Move::from_index(m as usize);
        let nh: (i16, i16) = mv.apply(head);
        assert(mv == nth_move(m as int));
        let onto_neck = s.body.len() >= 2 && s.body[1].x as i16 == nh.0 && s.body[1].y as i16
            == nh.1;
        if !onto_neck && board.in_bounds(nh) {
            assert(keep(m as int));
            out.push(m);
        } else {
            assert(!keep(m as int));
        }
        m = m + 1;
    }
    if out.len() == 0 {
        out.push(0);
        out.push(1);
        out.push(2);
        out.push(3);
        assert(out@ =~= seq![0u8, 1u8, 2u8, 3u8]);
    }
    out
}

/// Whether `(x, y)` is one of `cells[lo..hi]`.
pub open spec fn occupies(cells: Seq<Point>, lo: int, hi: int, x: int, y: int) -> bool {
    exists|j: int| lo <= j < hi && #[trigger] cells[j].at(x, y)
}

/// Whether snake `other` blocks `(x, y)`: a living snake's body without its
/// head and without the tail that is about to move on.
pub open spec fn blocks(other: &Snake, x: int, y: int) -> bool {
    other.is_alive() && occupies(other.body@, 1, other.body@.len() - 1, x, y)
}

/// Whether `mv` leads snake `i` straight into a wall, into its own body as it
/// will be after the move (all of it but the last cell), or into another
/// snake.
pub open spec fn is_obvious_death(board: &Board, i: int, mv: Move) -> bool {
    if i >= board.snakes@.len() || !board.seat_alive(i) || board.snakes@[i].body@.len() == 0 {
        false
    } else {
        let body = board.snakes@[i].body@;
        let (x, y) = (body[0].x + mv.dx(), body[0].y + mv.dy());
        ||| !board.holds(x, y)
        ||| occupies(body, 0, body.len() - 1, x, y)
        ||| exists|k: int|
            0 <= k < board.snakes@.len() && k != i && blocks(#[trigger] &board.snakes@[k], x, y)
    }
}

/// What an obvious death is, on the coordinates: a living snake dies of a move
/// that leads off the board, onto a cell of its own body other than the last, or
/// onto a cell of another living snake that is neither its head nor its last.
/// Nothing else is held against a move.
pub proof fn obvious_deaths_are_collisions(board: &Board, i: int, mv: Move)
    requires
        0 <= i < board.snakes@.len(),
        board.snakes@[i].eliminated is None,
        board.snakes@[i].body@.len() >= 1,
    ensures
        ({
            let body = board.snakes@[i].body@;
            let (x, y) = match mv {
                Move::Up => (body[0].x as int, body[0].y + 1),
                Move::Down => (body[0].x as int, body[0].y - 1),
                Move::Left => (body[0].x - 1, body[0].y as int),
                Move::Right => (body[0].x + 1, body[0].y as int),
            };
            let inside = 0 <= x < board.width && 0 <= y < board.height;
            let own = exists|j: int|
                0 <= j < body.len() - 1 && (#[trigger] body[j]).x == x && body[j].y == y;
            let other = exists|k: int, j: int|
                0 <= k < board.snakes@.len() && k != i && board.snakes@[k].eliminated is None && 1
                    <= j < board.snakes@[k].body@.len() - 1 && (
                #[trigger] board.snakes@[k].body@[j]).x == x && board.snakes@[k].body@[j].y == y;
            is_obvious_death(board, i, mv) <==> !inside || own || other
        }),
{
    let body = board.snakes@[i].body@;
    let (x, y) = (body[0].x + mv.dx(), body[0].y + mv.dy());
    if occupies(body, 0, body.len() - 1, x, y) {
        let j = choose|j: int| 0 <= j < body.len() - 1 && #[trigger] body[j].at(x, y);
        assert(body[j].x == x && body[j].y == y);
    }
    if exists|j: int| 0 <= j < body.len() - 1 && (#[trigger] body[j]).x == x && body[j].y == y {
        let j = choose|j: int|
            0 <= j < body.len() - 1 && (#[trigger] body[j]).x == x && body[j].y == y;
        assert(body[j].at(x, y));
    }
    if exists|k: int|
        0 <= k < board.snakes@.len() && k != i && blocks(#[trigger] &board.snakes@[k], x, y) {
        let k = choose|k: int|
            0 <= k < board.snakes@.len() && k != i && blocks(#[trigger] &board.snakes@[k], x, y);
        let cells = board.snakes@[k].body@;
        let j = choose|j: int| 1 <= j < cells.len() - 1 && #[trigger] cells[j].at(x, y);
        assert(board.snakes@[k].body@[j].x == x && board.snakes@[k].body@[j].y == y);
    }
    if exists|k: int, j: int|
        0 <= k < board.snakes@.len() && k != i && board.snakes@[k].eliminated is None && 1 <= j
            < board.snakes@[k].body@.len() - 1 && (#[trigger] board.snakes@[k].body@[j]).x == x
            && board.snakes@[k].body@[j].y == y {
        let (k, j) = choose|k: int, j: int|
            0 <= k < board.snakes@.len() && k != i && board.snakes@[k].eliminated is None && 1 <= j
                < board.snakes@[k].body@.len() - 1 && (#[trigger] board.snakes@[k].body@[j]).x == x
                && board.snakes@[k].body@[j].y == y;
        assert(board.snakes@[k].body@[j].at(x, y));
        assert(blocks(&board.snakes@[k], x, y));
    }
}

/// No move of a snake that is out, or is not there, is an obvious death.
pub proof fn the_dead_do_not_die(board: &Board, i: int, mv: Move)
    requires
        i >= board.snakes@.len() || board.snakes@[i].eliminated is Some,
    ensures
        !is_obvious_death(board, i, mv),
{
}

/// Whether `(x, y)` is one of `cells[lo..hi]`.
fn occupied(cells: &Vec<Point>, lo: usize, hi: usize, c: (i16, i16)) -> (r: bool)
    requires
        hi <= cells@.len(),
    ensures
        r == occupies(cells@, lo as int, hi as int, c.0 as int, c.1 as int),
{
    let mut j: usize = lo;
    while j < hi
        invariant
            hi <= cells@.len(),
            lo <= j,
            forall|k: int| lo <= k < j ==> !(#[trigger] cells@[k].at(c.0 as int, c.1 as int)),
        decreases hi - j,
    {
        if cells[j].x as i16 == c.0 && cells[j].y as i16 == c.1 {
            assert(cells@[j as int].at(c.0 as int, c.1 as int));
            return true;
        }
        j = j + 1;
    }
    false
}

/// Whether `mv` walks snake `snake_idx` straight into a wall, its own body, or
/// a segment of another snake that is neither head nor tail.
pub fn obvious_immediate_death(board: &Board, snake_idx: usize, mv: Move) -> (r: bool)
    ensures
        r == is_obvious_death(board, snake_idx as int, mv),
{
    if snake_idx >= board.snakes.len() {
        return false;
    }
    let snake = &board.snakes[snake_idx];
    if !snake.alive() || snake.body.len() == 0 {
        return false;
    }
    let next: (i16, i16) = mv.apply(snake.body[0]);
    if !board.in_bounds(next) {
        return true;
    }
    if occupied(&snake.body, 0, snake.body.len() - 1, next) {
        return true;
    }
    let mut k: usize = 0;
    while k < board.snakes.len()
        invariant
            k <= board.snakes@.len(),
            snake_idx < board.snakes@.len(),
            *snake == board.snakes@[snake_idx as int],
            snake.is_alive(),
            snake.body@.len() > 0,
            next.0 == snake.body@[0].x + mv.dx(),
            next.1 == snake.body@[0].y + mv.dy(),
            forall|j: int|
                0 <= j < k && j != snake_idx ==> !blocks(
                    #[trigger] &board.snakes@[j],
                    next.0 as int,
                    next.1 as int,
                ),
        decreases board.snakes@.len() - k,
    {
        let other = &board.snakes[k];
        if k != snake_idx && other.alive() && other.body.len() >= 1 && occupied(
            &other.body,
            1,
            other.body.len() - 1,
            next,
        ) {
            assert(blocks(&board.snakes@[k as int], next.0 as int, next.1 as int));
            return true;
        }
        k = k + 1;
    }
    false
}

/// For each of the four moves, whether it is free of obvious death.
pub fn safe_moves(board: &Board, snake_idx: usize) -> (r: Vec<bool>)
    ensures
        r@ == Seq::new(4, |m: int| !is_obvious_death(board, snake_idx as int, nth_move(m))),
{
    let mut r: Vec<bool> = Vec::new();
    let mut m: usize = 0;
    while m < 4
        invariant
            m <= 4,
            r@ == Seq::new(
                m as nat,
                |m: int| !is_obvious_death(board, snake_idx as int, nth_move(m)),
            ),
        decreases 4 - m,
    {
        let mv = Move::from_index(m);
        assert(mv == nth_move(m as int));
        let dead = obvious_immediate_death(board, snake_idx, mv);
        r.push(!dead);
        m = m + 1;
        assert(r@ =~= Seq::new(
            m as nat,
            |m: int| !is_obvious_death(board, snake_idx as int, nth_move(m)),
        ));
    }
    r
}

/// Whether one of a snake's candidates is free of obvious death.
pub open spec fn has_safe(board: &Board, i: int, cand: Seq<u8>) -> bool {
    exists|a: int|
        0 <= a < cand.len() && !is_obvious_death(board, i, nth_move(#[trigger] cand[a] as int))
}

/// Which of a snake's candidates share its prior where the net gives none of
/// them any mass: those that are free of obvious death, or all where none is.
pub fn prior_support(board: &Board, snake_idx: usize, cand: &Vec<u8>) -> (r: Vec<bool>)
    requires
        forall|a: int| 0 <= a < cand@.len() ==> #[trigger] cand@[a] < 4,
    ensures
        r@ == Seq::new(
            cand@.len(),
            |a: int|
                !has_safe(board, snake_idx as int, cand@) || !is_obvious_death(
                    board,
                    snake_idx as int,
                    nth_move(cand@[a] as int),
                ),
        ),
{
    let safe = safe_moves(board, snake_idx);
    let mut any = false;
    let mut a: usize = 0;
    while a < cand.len()
        invariant
            a <= cand@.len(),
            forall|a: int| 0 <= a < cand@.len() ==> #[trigger] cand@[a] < 4,
            safe@ == Seq::new(
                4,
                |m: int| !is_obvious_death(board, snake_idx as int, nth_move(m)),
            ),
            any == exists|b: int|
                0 <= b < a && !is_obvious_death(
                    board,
                    snake_idx as int,
                    nth_move(#[trigger] cand@[b] as int),
                ),
        decreases cand@.len() - a,
    {
        if safe[cand[a] as usize] {
            any = true;
        }
        a = a + 1;
    }
    let mut r: Vec<bool> = Vec::new();
    let mut a: usize = 0;
    while a < cand.len()
        invariant
            a <= cand@.len(),
            forall|a: int| 0 <= a < cand@.len() ==> #[trigger] cand@[a] < 4,
            safe@ == Seq::new(
                4,
                |m: int| !is_obvious_death(board, snake_idx as int, nth_move(m)),
            ),
            any == has_safe(board, snake_idx as int, cand@),
            r@ == Seq::new(
                a as nat,
                |a: int|
                    !has_safe(board, snake_idx as int, cand@) || !is_obvious_death(
                        board,
                        snake_idx as int,
                        nth_move(cand@[a] as int),
                    ),
            ),
        decreases cand@.len() - a,
    {
        r.push(!any || safe[cand[a] as usize]);
        a = a + 1;
    }
    r
}

/// Some candidate always shares the prior, and a deadly one only where all are.
pub proof fn a_prior_goes_somewhere(board: &Board, i: int, cand: Seq<u8>)
    requires
        cand.len() > 0,
    ensures
        has_safe(board, i, cand) <==> !forall|a: int|
            0 <= a < cand.len() ==> is_obvious_death(board, i, nth_move(#[trigger] cand[a] as int)),
        exists|a: int|
            0 <= a < cand.len() && (!has_safe(board, i, cand) || !is_obvious_death(
                board,
                i,
                nth_move(#[trigger] cand[a] as int),
            )),
        nth_move(0) == Move::Up && nth_move(1) == Move::Down && nth_move(2) == Move::Left
            && nth_move(3) == Move::Right,
{
    if has_safe(board, i, cand) {
        let a = choose|a: int|
            0 <= a < cand.len() && !is_obvious_death(board, i, nth_move(#[trigger] cand[a] as int));
        assert(!is_obvious_death(board, i, nth_move(cand[a] as int)));
    } else {
        let first = cand[0];
        assert(!has_safe(board, i, cand) || !is_obvious_death(board, i, nth_move(first as int)));
    }
}

/// A finished game from one seat's point of view.
#[derive(Clone, Copy, Debug, PartialEq, Eq, Structural)]
pub enum Outcome {
    /// The sole survivor: worth 1.
    Win,
    /// Beaten: worth minus one share out of `shares`.
    Loss { shares: usize },
    /// Everybody died together: worth the configured draw value.
    Draw,
}

/// Among how many seats the loss of a game with `n` seats is split.
pub open spec fn loss_shares(n: nat) -> nat {
    if n < 2 {
        1
    } else {
        (n - 1) as nat
    }
}

/// Among how many seats the loss of a game with `n` seats is split; a loser is
/// worth `-1 / loser_shares(n)`.
pub fn loser_shares(n: usize) -> (k: usize)
    ensures
        k == loss_shares(n as nat),
        k >= 1,
{
    if n < 2 {
        1
    } else {
        n - 1
    }
}

/// What seat `snake` got out of a game won by `winner`.
pub open spec fn seat_outcome(winner: Option<usize>, snake: nat, n: nat) -> Outcome {
    match winner {
        Some(w) => if w == snake {
            Outcome::Win
        } else {
            Outcome::Loss { shares: loss_shares(n) as usize }
        },
        None => Outcome::Draw,
    }
}

/// What seat `snake` got out of a game won by `winner`.
pub fn terminal_value(winner: Option<usize>, snake: usize, n: usize) -> (o: Outcome)
    ensures
        o == seat_outcome(winner, snake as nat, n as nat),
{
    match winner {
        Some(w) => if w == snake {
            Outcome::Win
        } else {
            Outcome::Loss { shares: loser_shares(n) }
        },
        None => Outcome::Draw,
    }
}

/// What every seat got out of a game won by `winner`, in seat order.
pub fn terminal_values(winner: Option<usize>, n: usize) -> (v: Vec<Outcome>)
    ensures
        v@ == Seq::new(n as nat, |s: int| seat_outcome(winner, s as nat, n as nat)),
{
    let mut v: Vec<Outcome> = Vec::new();
    let mut s: usize = 0;
    while s < n
        invariant
            s <= n,
            v@ == Seq::new(s as nat, |s: int| seat_outcome(winner, s as nat, n as nat)),
        decreases n - s,
    {
        v.push(terminal_value(winner, s, n));
        s = s + 1;
        assert(v@ =~= Seq::new(s as nat, |s: int| seat_outcome(winner, s as nat, n as nat)));
    }
    v
}

/// A seat wins exactly the games that it is the winner of, draws those that
/// nobody won, and loses the rest; a loss is one share among the losers of a game
/// of two or more.
pub proof fn outcomes_tell_winners_from_losers(winner: Option<usize>, snake: usize, n: nat)
    requires
        2 <= n <= usize::MAX,
    ensures
        seat_outcome(winner, snake as nat, n) == Outcome::Win <==> winner == Some(snake),
        seat_outcome(winner, snake as nat, n) == Outcome::Draw <==> winner is None,
        winner is Some && winner != Some(snake) <==> seat_outcome(winner, snake as nat, n)
            == (Outcome::Loss { shares: (n - 1) as usize }),
{
}

/// An outcome's worth in units of one loss share: a win is worth as many
/// shares as there are losers.
pub open spec fn worth_in_shares(o: Outcome, n: nat) -> int {
    match o {
        Outcome::Win => loss_shares(n) as int,
        Outcome::Loss { shares } => -1,
        Outcome::Draw => 0,
    }
}

/// The worth of the first `k` seats of a game won by `w`, in loss shares.
pub open spec fn total_worth(w: usize, n: nat, k: nat) -> int
    decreases k,
{
    if k == 0 {
        0
    } else {
        total_worth(w, n, (k - 1) as nat) + worth_in_shares(
            seat_outcome(Some(w), (k - 1) as nat, n),
            n,
        )
    }
}

proof fn lemma_total_worth(w: usize, n: nat, k: nat)
    requires
        n >= 2,
    ensures
        total_worth(w, n, k) == if w < k {
            n - k
        } else {
            -(k as int)
        },
    decreases k,
{
    if k > 0 {
        lemma_total_worth(w, n, (k - 1) as nat);
    }
}

/// A decided game of two or more seats sums to zero: the winner's gain is what
/// the losers lose together.
pub proof fn decided_game_is_zero_sum(w: usize, n: nat)
    requires
        n >= 2,
        w < n,
    ensures
        total_worth(w, n, n) == 0,
{
    lemma_total_worth(w, n, n);
}

} // verus!
