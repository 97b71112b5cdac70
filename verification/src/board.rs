//! The game board: cells, moves, snakes.

use vstd::prelude::*;

verus! {

/// A cell of the board.
#[derive(Clone, Copy, Debug, PartialEq, Eq, Structural)]
pub struct Point {
    pub x: i8,
    pub y: i8,
}

/// A snake's four moves.
#[derive(Clone, Copy, Debug, PartialEq, Eq, Structural)]
pub enum Move {
    Up,
    Down,
    Left,
    Right,
}

/// How a snake left the game.
#[derive(Clone, Copy, Debug, PartialEq, Eq, Structural)]
pub enum EliminatedCause {
    OutOfHealth,
    OutOfBounds,
    Collision,
}

/// One snake; its head is the first cell of its body.
#[derive(Clone, Debug)]
pub struct Snake {
    pub body: Vec<Point>,
    pub health: i16,
    pub eliminated: Option<EliminatedCause>,
}

/// One position of the game.
#[derive(Clone, Debug)]
pub struct Board {
    pub width: i8,
    pub height: i8,
    pub turn: u32,
    pub snakes: Vec<Snake>,
    pub food: Vec<Point>,
    pub hazards: Vec<Point>,
    /// Bit `s` is set where seat `s` is played by a sparring heuristic.
    pub heur_mask: u32,
}

impl Move {
    /// The move's index among the four.
    pub open spec fn index_of(self) -> nat {
        match self {
            Move::Up => 0,
            Move::Down => 1,
            Move::Left => 2,
            Move::Right => 3,
        }
    }

    /// How far the move goes to the right.
    pub open spec fn dx(self) -> int {
        match self {
            Move::Left => -1,
            Move::Right => 1,
            _ => 0,
        }
    }

    /// How far the move goes up.
    pub open spec fn dy(self) -> int {
        match self {
            Move::Up => 1,
            Move::Down => -1,
            _ => 0,
        }
    }

    /// The move's index among the four.
    pub fn index(self) -> (i: usize)
        ensures
            i == self.index_of(),
            i < 4,
            i == 0 <==> self == Move::Up,
            i == 1 <==> self == Move::Down,
            i == 2 <==> self == Move::Left,
            i == 3 <==> self == Move::Right,
    {
        match self {
            Move::Up => 0,
            Move::Down => 1,
            Move::Left => 2,
            Move::Right => 3,
        }
    }

    /// The move with the given index.
    pub fn from_index(i: usize) -> (m: Move)
        requires
            i < 4,
        ensures
            m.index_of() == i,
            i == 0 <==> m == Move::Up,
            i == 1 <==> m == Move::Down,
            i == 2 <==> m == Move::Left,
            i == 3 <==> m == Move::Right,
    {
        if i == 0 {
            Move::Up
        } else if i == 1 {
            Move::Down
        } else if i == 2 {
            Move::Left
        } else {
            Move::Right
        }
    }

    /// The cell that the move leads to from `p`, in coordinates wide enough
    /// for a step off the edge.
    pub fn apply(self, p: Point) -> (c: (i16, i16))
        ensures
            c.0 == p.x + self.dx(),
            c.1 == p.y + self.dy(),
            self == Move::Up ==> c.0 == p.x && c.1 == p.y + 1,
            self == Move::Down ==> c.0 == p.x && c.1 == p.y - 1,
            self == Move::Left ==> c.0 == p.x - 1 && c.1 == p.y,
            self == Move::Right ==> c.0 == p.x + 1 && c.1 == p.y,
    {
        let (x, y): (i16, i16) = (p.x as i16, p.y as i16);
        match self {
            Move::Up => (x, y + 1),
            Move::Down => (x, y - 1),
            Move::Left => (x - 1, y),
            Move::Right => (x + 1, y),
        }
    }
}

impl Point {
    /// Whether the cell stands at `(x, y)`.
    pub open spec fn at(self, x: int, y: int) -> bool {
        self.x == x && self.y == y
    }
}

impl Snake {
    /// Whether the snake is still in the game.
    pub open spec fn is_alive(&self) -> bool {
        self.eliminated is None
    }

    /// Whether the snake is still in the game.
    pub fn alive(&self) -> (r: bool)
        ensures
            r == self.is_alive(),
            r <==> self.eliminated is None,
    {
        self.eliminated.is_none()
    }
}

impl Board {
    /// Whether `(x, y)` lies on the board.
    pub open spec fn holds(&self, x: int, y: int) -> bool {
        0 <= x < self.width && 0 <= y < self.height
    }

    /// Whether seat `s` is taken by a living snake.
    pub open spec fn seat_alive(&self, s: int) -> bool {
        self.snakes@[s].is_alive()
    }

    /// Whether `(x, y)` lies on the board.
    pub fn in_bounds(&self, c: (i16, i16)) -> (r: bool)
        ensures
            r == self.holds(c.0 as int, c.1 as int),
            r <==> 0 <= c.0 < self.width && 0 <= c.1 < self.height,
    {
        0 <= c.0 && c.0 < self.width as i16 && 0 <= c.1 && c.1 < self.height as i16
    }

    /// An empty board.
    pub fn new(width: i8, height: i8) -> (b: Board)
        ensures
            b.width == width,
            b.height == height,
            b.turn == 0,
            b.snakes@.len() == 0,
            b.food@.len() == 0,
            b.hazards@.len() == 0,
            b.heur_mask == 0,
    {
        Board {
            width,
            height,
            turn: 0,
            snakes: Vec::new(),
            food: Vec::new(),
            hazards: Vec::new(),
            heur_mask: 0,
        }
    }
}

/// The four moves are the four steps: up and down change the row by one, left
/// and right the column, and a move undoes its opposite.
pub proof fn moves_are_steps(m: Move)
    ensures
        (m.dx(), m.dy()) == match m {
            Move::Up => (0int, 1int),
            Move::Down => (0int, -1int),
            Move::Left => (-1int, 0int),
            Move::Right => (1int, 0int),
        },
        m.index_of() == match m {
            Move::Up => 0nat,
            Move::Down => 1nat,
            Move::Left => 2nat,
            Move::Right => 3nat,
        },
        forall|o: Move|
            (#[trigger] o.dx(), o.dy()) == (-m.dx(), -m.dy()) <==> o == match m {
                Move::Up => Move::Down,
                Move::Down => Move::Up,
                Move::Left => Move::Right,
                Move::Right => Move::Left,
            },
{
}

/// A cell is on the board where both its coordinates are counted from zero below
/// the sides; a snake is alive until it is eliminated.
pub proof fn board_is_a_rectangle(b: &Board, x: int, y: int, s: &Snake, p: Point)
    ensures
        b.holds(x, y) <==> 0 <= x && x < b.width && 0 <= y && y < b.height,
        s.is_alive() <==> s.eliminated == None::<EliminatedCause>,
        p.at(x, y) <==> p.x == x && p.y == y,
        forall|i: int| #[trigger]
            b.seat_alive(i) <==> b.snakes@[i].eliminated == None::<EliminatedCause>,
{
}

/// A copy of a list of cells.
pub fn copy_points(ps: &Vec<Point>) -> (r: Vec<Point>)
    ensures
        r@ == ps@,
{
    let mut r: Vec<Point> = Vec::new();
    let mut i: usize = 0;
    while i < ps.len()
        invariant
            i <= ps@.len(),
            r@ == ps@.take(i as int),
        decreases ps@.len() - i,
    {
        r.push(ps[i]);
        i = i + 1;
        assert(r@ =~= ps@.take(i as int));
    }
    assert(ps@.take(i as int) =~= ps@);
    r
}

} // verus!
