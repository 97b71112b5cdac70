//! Snapshots of boards, for carrying games across a pause.

use vstd::prelude::*;

use crate::board::{Board, EliminatedCause, Point, Snake};
use crate::materialize;

verus! {

/// A cell as the `[x, y]` pair of a snapshot.
pub type Cell = [i8; 2];

/// A snake in a snapshot.
pub struct SnakeSnap {
    pub body: Vec<Cell>,
    pub health: i16,
    pub alive: bool,
}

/// A board in a snapshot.
pub struct BoardSnap {
    pub width: i8,
    pub height: i8,
    pub turn: u32,
    pub snakes: Vec<SnakeSnap>,
    pub food: Vec<Cell>,
    pub hazards: Vec<Cell>,
    /// The seats of sparring partners; none where a snapshot does not say.
    pub heur_mask: u32,
}

/// The cells that pairs stand for.
pub open spec fn cells(cs: Seq<Cell>) -> Seq<Point> {
    cs.map_values(|c: Cell| Point { x: c@[0], y: c@[1] })
}

/// The pairs of a list of cells.
pub fn pts(ps: &Vec<Point>) -> (cs: Vec<Cell>)
    ensures
        cells(cs@) == ps@,
{
    let mut cs: Vec<Cell> = Vec::new();
    let mut i: usize = 0;
    while i < ps.len()
        invariant
            i <= ps@.len(),
            cells(cs@) == ps@.take(i as int),
        decreases ps@.len() - i,
    {
        let ghost before = cs@;
        let c: Cell = [ps[i].x, ps[i].y];
        cs.push(c);
        i = i + 1;
        assert(cells(cs@) =~= cells(before).push(Point { x: c@[0], y: c@[1] }));
        assert(ps@.take(i as int) =~= ps@.take(i - 1).push(ps@[i - 1]));
    }
    assert(ps@.take(i as int) =~= ps@);
    cs
}

/// The cells that pairs stand for.
pub fn to_points(cs: &Vec<Cell>) -> (ps: Vec<Point>)
    ensures
        ps@ == cells(cs@),
{
    let mut ps: Vec<Point> = Vec::new();
    let mut i: usize = 0;
    while i < cs.len()
        invariant
            i <= cs@.len(),
            ps@ == cells(cs@).take(i as int),
        decreases cs@.len() - i,
    {
        let c = cs[i];
        ps.push(Point { x: c[0], y: c[1] });
        i = i + 1;
        assert(ps@ =~= cells(cs@).take(i as int));
    }
    assert(cells(cs@).take(i as int) =~= cells(cs@));
    ps
}

impl BoardSnap {
    /// Whether the snapshot holds a board.
    pub open spec fn holds(&self, b: &Board) -> bool {
        &&& self.width == b.width
        &&& self.height == b.height
        &&& self.turn == b.turn
        &&& cells(self.food@) == b.food@
        &&& cells(self.hazards@) == b.hazards@
        &&& self.heur_mask == b.heur_mask
        &&& self.snakes@.len() == b.snakes@.len()
        &&& forall|s: int|
            0 <= s < b.snakes@.len() ==> {
                let (x, y) = (#[trigger] self.snakes@[s], b.snakes@[s]);
                cells(x.body@) == y.body@ && x.health == y.health && x.alive == y.is_alive()
            }
    }

    /// Takes a snapshot.
    pub fn from_board(b: &Board) -> (snap: BoardSnap)
        ensures
            snap.holds(b),
    {
        let mut snakes: Vec<SnakeSnap> = Vec::new();
        let mut s: usize = 0;
        while s < b.snakes.len()
            invariant
                s <= b.snakes@.len(),
                snakes@.len() == s,
                forall|k: int|
                    0 <= k < s ==> {
                        let (x, y) = (#[trigger] snakes@[k], b.snakes@[k]);
                        cells(x.body@) == y.body@ && x.health == y.health && x.alive
                            == y.is_alive()
                    },
            decreases b.snakes@.len() - s,
        {
            let y = &b.snakes[s];
            snakes.push(SnakeSnap { body: pts(&y.body), health: y.health, alive: y.alive() });
            s = s + 1;
        }
        BoardSnap {
            width: b.width,
            height: b.height,
            turn: b.turn,
            snakes,
            food: pts(&b.food),
            hazards: pts(&b.hazards),
            heur_mask: b.heur_mask,
        }
    }

    /// Restores the board. How a snake went out is not kept; it counts as
    /// collided.
    pub fn to_board(&self) -> (b: Board)
        ensures
            self.holds(&b),
            forall|s: int|
                0 <= s < b.snakes@.len() ==> (#[trigger] b.snakes@[s]).eliminated == if
                    self.snakes@[s].alive {
                    None
                } else {
                    Some(EliminatedCause::Collision)
                },
    {
        let mut b = Board::new(self.width, self.height);
        b.turn = self.turn;
        let mut snakes: Vec<Snake> = Vec::new();
        let mut s: usize = 0;
        while s < self.snakes.len()
            invariant
                s <= self.snakes@.len(),
                snakes@.len() == s,
                forall|k: int|
                    0 <= k < s ==> {
                        let (x, y) = (self.snakes@[k], #[trigger] snakes@[k]);
                        &&& cells(x.body@) == y.body@ && x.health == y.health
                        &&& y.eliminated == if x.alive {
                            None
                        } else {
                            Some(EliminatedCause::Collision)
                        }
                    },
            decreases self.snakes@.len() - s,
        {
            let x = &self.snakes[s];
            snakes.push(
                Snake {
                    body: to_points(&x.body),
                    health: x.health,
                    eliminated: if x.alive {
                        None
                    } else {
                        Some(EliminatedCause::Collision)
                    },
                },
            );
            s = s + 1;
        }
        b.snakes = snakes;
        b.food = to_points(&self.food);
        b.hazards = to_points(&self.hazards);
        b.heur_mask = self.heur_mask;
        proof {
            assert forall|s: int| 0 <= s < b.snakes@.len() implies {
                let (x, y) = (#[trigger] self.snakes@[s], b.snakes@[s]);
                cells(x.body@) == y.body@ && x.health == y.health && x.alive == y.is_alive()
            } by {
                assert(b.snakes@[s].health == self.snakes@[s].health);
            }
        }
        b
    }
}

/// Whether snapshots hold boards, one for one.
pub open spec fn hold_all(snaps: Seq<BoardSnap>, boards: Seq<Board>) -> bool {
    &&& snaps.len() == boards.len()
    &&& forall|i: int| 0 <= i < boards.len() ==> (#[trigger] snaps[i]).holds(&boards[i])
}

/// Takes snapshots of all boards in flight.
pub fn save_boards(boards: &Vec<Board>) -> (snaps: Vec<BoardSnap>)
    ensures
        hold_all(snaps@, boards@),
{
    let mut snaps: Vec<BoardSnap> = Vec::new();
    let mut i: usize = 0;
    while i < boards.len()
        invariant
            i <= boards@.len(),
            snaps@.len() == i,
            forall|k: int| 0 <= k < i ==> (#[trigger] snaps@[k]).holds(&boards@[k]),
        decreases boards@.len() - i,
    {
        snaps.push(BoardSnap::from_board(&boards[i]));
        i = i + 1;
    }
    snaps
}

/// Restores all boards in flight.
pub fn load_boards(snaps: &Vec<BoardSnap>) -> (boards: Vec<Board>)
    ensures
        hold_all(snaps@, boards@),
{
    let mut boards: Vec<Board> = Vec::new();
    let mut i: usize = 0;
    while i < snaps.len()
        invariant
            i <= snaps@.len(),
            boards@.len() == i,
            forall|k: int| 0 <= k < i ==> (#[trigger] snaps@[k]).holds(&boards@[k]),
        decreases snaps@.len() - i,
    {
        boards.push(snaps[i].to_board());
        i = i + 1;
    }
    boards
}

/// A session that was saved and loaded goes on where it stopped: every board
/// in flight is the same position, in the same place, with the same seats taken
/// by sparring partners.
pub proof fn session_resumes_where_it_stopped(
    before: Seq<Board>,
    snaps: Seq<BoardSnap>,
    after: Seq<Board>,
)
    requires
        hold_all(snaps, before),
        hold_all(snaps, after),
    ensures
        after.len() == before.len(),
        forall|i: int|
            0 <= i < before.len() ==> materialize::same_position(&(#[trigger] after[i]), &before[i])
                && after[i].heur_mask == before[i].heur_mask,
{
    assert forall|i: int| 0 <= i < before.len() implies materialize::same_position(
        &(#[trigger] after[i]),
        &before[i],
    ) && after[i].heur_mask == before[i].heur_mask by {
        assert(snaps[i].holds(&before[i]) && snaps[i].holds(&after[i]));
        snapshot_keeps_the_position(&before[i], &snaps[i], &after[i]);
    }
}

/// A board that went through a snapshot is the same position, and the same seats
/// are the net's: a resumed game goes on exactly where it stopped.
pub proof fn snapshot_keeps_the_position(b: &Board, snap: &BoardSnap, back: &Board)
    requires
        snap.holds(b),
        snap.holds(back),
    ensures
        materialize::same_position(back, b),
        back.heur_mask == b.heur_mask,
{
    assert forall|s: int| 0 <= s < back.snakes@.len() implies {
        let (x, y) = (#[trigger] back.snakes@[s], b.snakes@[s]);
        x.body@ == y.body@ && x.health == y.health && x.is_alive() == y.is_alive()
    } by {
        let x = snap.snakes@[s];
        assert(cells(x.body@) == b.snakes@[s].body@);
        assert(cells(x.body@) == back.snakes@[s].body@);
    }
}

} // verus!
