//! The pipe maze: a grid of pipe pieces, a start cell, and a walker
//! that follows connected pipes one step at a time.

use vstd::prelude::*;

verus! {

use crate::text::lines_bytes;
use vstd::string::StringSliceAdditionalSpecFns;

/// One cell of the maze.
#[derive(PartialEq, Eq, Structural, Debug, Clone, Copy)]
pub enum MapNode {
    Empty,
    NorthSouth,
    EastWest,
    NorthEast,
    NorthWest,
    SouthEast,
    SouthWest,
    StartPoint,
}

/// The cell a map byte stands for; anything unknown reads as empty
/// ground.
pub open spec fn node_of_byte(b: u8) -> MapNode {
    if b == 46 {  // '.'
        MapNode::Empty
    } else if b == 124 {  // '|'
        MapNode::NorthSouth
    } else if b == 45 {  // '-'
        MapNode::EastWest
    } else if b == 76 {  // 'L'
        MapNode::NorthEast
    } else if b == 74 {  // 'J'
        MapNode::NorthWest
    } else if b == 55 {  // '7'
        MapNode::SouthWest
    } else if b == 70 {  // 'F'
        MapNode::SouthEast
    } else {  // 'S'
        MapNode::StartPoint
    }
}

impl MapNode {
    /// The box-drawing character used to render the cell.
    pub fn to_display(&self) -> (r: char)
        ensures
            r == (match *self {
                MapNode::Empty => '\u{00B7}',
                MapNode::NorthSouth => '\u{2551}',
                MapNode::EastWest => '\u{2550}',
                MapNode::NorthEast => '\u{255A}',
                MapNode::NorthWest => '\u{255D}',
                MapNode::SouthEast => '\u{2554}',
                MapNode::SouthWest => '\u{2557}',
                MapNode::StartPoint => 'S',
            }),
    {
        match *self {
            MapNode::Empty => '\u{00B7}',
            MapNode::NorthSouth => '\u{2551}',
            MapNode::EastWest => '\u{2550}',
            MapNode::NorthEast => '\u{255A}',
            MapNode::NorthWest => '\u{255D}',
            MapNode::SouthEast => '\u{2554}',
            MapNode::SouthWest => '\u{2557}',
            MapNode::StartPoint => 'S',
        }
    }
}

/// A direction of travel through the maze.
#[derive(PartialEq, Eq, Structural, Debug, Clone, Copy)]
pub enum Direction {
    South,
    North,
    East,
    West,
}

/// A walker: where it stands and which way it moves next.
#[derive(Debug, Clone, Copy)]
pub struct Critter {
    pub pos: (usize, usize),
    pub direction: Direction,
}

impl PartialEq for Critter {
    /// Two walkers are equal when they stand at the same cell and head
    /// the same way.
    fn eq(&self, other: &Critter) -> (r: bool) {
        self.pos.0 == other.pos.0 && self.pos.1 == other.pos.1 && self.direction
            == other.direction
    }
}

impl vstd::std_specs::cmp::PartialEqSpecImpl for Critter {
    open spec fn obeys_eq_spec() -> bool {
        true
    }

    open spec fn eq_spec(&self, other: &Critter) -> bool {
        self.pos == other.pos && self.direction == other.direction
    }
}

impl Critter {
    pub fn new(pos: (usize, usize), direction: Direction) -> (r: Critter)
        ensures
            r == (Critter { pos, direction }),
    {
        Critter { pos, direction }
    }
}

/// The grid and where the start cell sits.
#[derive(PartialEq, Eq, Debug)]
pub struct PipeMap {
    pub map: Vec<Vec<MapNode>>,
    pub start_point: (usize, usize),
}

/// The grid read from the byte lines.
pub open spec fn spec_grid(lb: Seq<Seq<u8>>) -> Seq<Seq<MapNode>> {
    lb.map_values(|row: Seq<u8>| row.map_values(|b: u8| node_of_byte(b)))
}

/// The cell at `(x, y)`, if the grid holds it.
pub open spec fn spec_cell(grid: Seq<Seq<MapNode>>, x: int, y: int) -> Option<MapNode> {
    if 0 <= y < grid.len() && 0 <= x < grid[y].len() {
        Some(grid[y][x])
    } else {
        None
    }
}

/// Where a step moves and turns: entering the next cell from the given
/// direction of travel, the pipe there fixes the new direction; a cell
/// that does not connect, or the grid's edge, stops the walk.
pub open spec fn spec_next(grid: Seq<Seq<MapNode>>, x: int, y: int, d: Direction) -> Option<
    ((int, int), Direction),
> {
    let (nx, ny) = match d {
        Direction::East => (x + 1, y),
        Direction::South => (x, y + 1),
        Direction::West => (x - 1, y),
        Direction::North => (x, y - 1),
    };
    if nx < 0 || ny < 0 {
        None
    } else {
        match spec_cell(grid, nx, ny) {
            None => None,
            Some(node) => match (d, node) {
                (Direction::East, MapNode::EastWest) => Some(((nx, ny), Direction::East)),
                (Direction::East, MapNode::NorthWest) => Some(((nx, ny), Direction::North)),
                (Direction::East, MapNode::SouthWest) => Some(((nx, ny), Direction::South)),
                (Direction::East, MapNode::StartPoint) => Some(((nx, ny), Direction::East)),
                (Direction::South, MapNode::NorthSouth) => Some(((nx, ny), Direction::South)),
                (Direction::South, MapNode::NorthEast) => Some(((nx, ny), Direction::East)),
                (Direction::South, MapNode::NorthWest) => Some(((nx, ny), Direction::West)),
                (Direction::South, MapNode::StartPoint) => Some(((nx, ny), Direction::South)),
                (Direction::West, MapNode::EastWest) => Some(((nx, ny), Direction::West)),
                (Direction::West, MapNode::NorthEast) => Some(((nx, ny), Direction::North)),
                (Direction::West, MapNode::SouthEast) => Some(((nx, ny), Direction::South)),
                (Direction::West, MapNode::StartPoint) => Some(((nx, ny), Direction::West)),
                (Direction::North, MapNode::NorthSouth) => Some(((nx, ny), Direction::North)),
                (Direction::North, MapNode::SouthEast) => Some(((nx, ny), Direction::East)),
                (Direction::North, MapNode::SouthWest) => Some(((nx, ny), Direction::West)),
                (Direction::North, MapNode::StartPoint) => Some(((nx, ny), Direction::North)),
                _ => None,
            },
        }
    }
}

/// The start position after reading one row: the last `S` of the row
/// wins, else what was known before.
pub open spec fn row_fold(row: Seq<MapNode>, y: int, x: int, cur: (int, int)) -> (int, int)
    decreases row.len() - x,
{
    if x < 0 || x >= row.len() {
        cur
    } else {
        row_fold(row, y, x + 1, if row[x] == MapNode::StartPoint {
            (x, y)
        } else {
            cur
        })
    }
}

/// The start position after reading the rows from `y` on: the last `S`
/// in reading order wins, `(0, 0)` without one.
pub open spec fn start_acc(grid: Seq<Seq<MapNode>>, y: int, cur: (int, int)) -> (int, int)
    decreases grid.len() - y,
{
    if y < 0 || y >= grid.len() {
        cur
    } else {
        start_acc(grid, y + 1, row_fold(grid[y], y, 0, cur))
    }
}

impl PipeMap {
    /// Reads the grid; the start point is wherever the last `S` sits,
    /// or `(0, 0)` without one.
    pub fn parse(lines: Vec<String>) -> (r: PipeMap)
        ensures
            r.map@.map_values(|row: Vec<MapNode>| row@) == spec_grid(lines_bytes(lines@)),
            (r.start_point.0 as int, r.start_point.1 as int) == start_acc(
                spec_grid(lines_bytes(lines@)),
                0,
                (0, 0),
            ),
    {
        let ghost lb = lines_bytes(lines@);
        let mut grid: Vec<Vec<MapNode>> = Vec::new();
        let mut start_point: (usize, usize) = (0, 0);
        let mut y: usize = 0;
        let n = lines.len();
        proof {
            assert(grid@.map_values(|row: Vec<MapNode>| row@) =~= spec_grid(lb).take(0));
        }
        while y < n
            invariant
                0 <= y <= n,
                n == lines@.len(),
                lb == lines_bytes(lines@),
                grid@.map_values(|row: Vec<MapNode>| row@) == spec_grid(lb).take(y as int),
                start_acc(spec_grid(lb), 0, (0, 0)) == start_acc(
                    spec_grid(lb),
                    y as int,
                    (start_point.0 as int, start_point.1 as int),
                ),
            decreases n - y,
        {
            proof {
                assert(lb[y as int] == crate::text::sbytes(lines@[y as int]@));
            }
            let bytes = lines[y].as_str().as_bytes();
            let ghost rv = lb[y as int];
            let ghost ghost_row_cur = (start_point.0 as int, start_point.1 as int);
            let mut row: Vec<MapNode> = Vec::new();
            let mut x: usize = 0;
            proof {
                assert(row@ =~= rv.map_values(|b: u8| node_of_byte(b)).take(0));
                assert(spec_grid(lb)[y as int] == rv.map_values(|b: u8| node_of_byte(b)));
            }
            while x < bytes.len()
                invariant
                    0 <= x <= rv.len(),
                    rv == bytes@,
                    y < n,
                    n == lines@.len(),
                    lb == lines_bytes(lines@),
                    rv == lb[y as int],
                    row@ == rv.map_values(|b: u8| node_of_byte(b)).take(x as int),
                    row_fold(spec_grid(lb)[y as int], y as int, x as int, (
                        start_point.0 as int,
                        start_point.1 as int,
                    )) == row_fold(spec_grid(lb)[y as int], y as int, 0, ghost_row_cur),
                decreases rv.len() - x,
            {
                let b = bytes[x];
                let node = if b == 46 {
                    MapNode::Empty
                } else if b == 124 {
                    MapNode::NorthSouth
                } else if b == 45 {
                    MapNode::EastWest
                } else if b == 76 {
                    MapNode::NorthEast
                } else if b == 74 {
                    MapNode::NorthWest
                } else if b == 55 {
                    MapNode::SouthWest
                } else if b == 70 {
                    MapNode::SouthEast
                } else {
                    MapNode::StartPoint
                };
                proof {
                    assert(spec_grid(lb)[y as int][x as int] == node_of_byte(rv[x as int]));
                }
                if matches!(node, MapNode::StartPoint) {
                    start_point = (x, y);
                }
                let ghost prevrow = row@;
                row.push(node);
                proof {
                    let f = |b: u8| node_of_byte(b);
                    assert(row@ =~= prevrow + seq![f(rv[x as int])]);
                    assert(rv.map_values(f).take(x as int + 1) =~= rv.map_values(f).take(x as int)
                        + seq![f(rv[x as int])]);
                }
                x = x + 1;
            }
            proof {
                let f = |b: u8| node_of_byte(b);
                assert(rv.map_values(f).take(rv.len() as int) =~= rv.map_values(f));
                assert(row_fold(spec_grid(lb)[y as int], y as int, x as int, (
                    start_point.0 as int,
                    start_point.1 as int,
                )) == (start_point.0 as int, start_point.1 as int));
                assert(start_acc(spec_grid(lb), y as int, ghost_row_cur) == start_acc(
                    spec_grid(lb),
                    y as int + 1,
                    (start_point.0 as int, start_point.1 as int),
                ));
            }
            let ghost prevgrid = grid@;
            grid.push(row);
            proof {
                let g = |row: Vec<MapNode>| row@;
                assert(grid@.map_values(g) =~= prevgrid.map_values(g) + seq![
                    rv.map_values(|b: u8| node_of_byte(b)),
                ]);
                assert(spec_grid(lb)[y as int] == rv.map_values(|b: u8| node_of_byte(b)));
                assert(spec_grid(lb).take(y as int + 1) =~= spec_grid(lb).take(y as int) + seq![
                    spec_grid(lb)[y as int],
                ]);
            }
            y = y + 1;
        }
        proof {
            assert(spec_grid(lb).take(spec_grid(lb).len() as int) =~= spec_grid(lb));
        }
        PipeMap { map: grid, start_point }
    }

    pub open spec fn grid(self) -> Seq<Seq<MapNode>> {
        self.map@.map_values(|row: Vec<MapNode>| row@)
    }

    /// The cell at `(x, y)`, if the grid holds it.
    pub fn get(&self, x: usize, y: usize) -> (r: Option<&MapNode>)
        ensures
            (match r {
                Some(node) => spec_cell(self.grid(), x as int, y as int) == Some(*node),
                None => spec_cell(self.grid(), x as int, y as int) is None,
            }),
    {
        if y < self.map.len() {
            let row = &self.map[y];
            if x < row.len() {
                proof {
                    assert(self.grid()[y as int] == self.map@[y as int]@);
                }
                return Some(&row[x]);
            }
        }
        proof {
            if (y as int) < self.grid().len() {
                assert(self.grid()[y as int] == self.map@[y as int]@);
            }
        }
        None
    }

    /// One step from `(x, y)` heading `direction`: the position entered
    /// and the direction the pipe there sends the walker on, or the
    /// reason the walk cannot continue.
    pub fn get_next_position(&self, x: &usize, y: &usize, direction: &Direction) -> (r: Result<
        ((usize, usize), Direction),
        String,
    >)
        ensures
            (match r {
                Ok(step) => step_ok(self.grid(), *x as int, *y as int, *direction) && spec_next(
                    self.grid(),
                    *x as int,
                    *y as int,
                    *direction,
                ) == Some((((step.0.0 as int, step.0.1 as int)), step.1)),
                Err(_) => !step_ok(self.grid(), *x as int, *y as int, *direction),
            }),
    {
        let xv = *x;
        let yv = *y;
        let (has, nx, ny) = match direction {
            Direction::East => {
                if xv == usize::MAX {
                    (false, 0usize, 0usize)
                } else {
                    (true, xv + 1, yv)
                }
            },
            Direction::South => {
                if yv == usize::MAX {
                    (false, 0usize, 0usize)
                } else {
                    (true, xv, yv + 1)
                }
            },
            Direction::West => {
                if xv == 0 {
                    (false, 0usize, 0usize)
                } else {
                    (true, xv - 1, yv)
                }
            },
            Direction::North => {
                if yv == 0 {
                    (false, 0usize, 0usize)
                } else {
                    (true, xv, yv - 1)
                }
            },
        };
        if !(has) {
            return Err(moving_off_message());
        }
        let node = match self.get(nx, ny) {
            Some(node) => *node,
            None => {
                return Err(no_step_message());
            },
        };
        let step = match (direction, node) {
            (Direction::East, MapNode::EastWest) => Some(((nx, ny), Direction::East)),
            (Direction::East, MapNode::NorthWest) => Some(((nx, ny), Direction::North)),
            (Direction::East, MapNode::SouthWest) => Some(((nx, ny), Direction::South)),
            (Direction::East, MapNode::StartPoint) => Some(((nx, ny), Direction::East)),
            (Direction::South, MapNode::NorthSouth) => Some(((nx, ny), Direction::South)),
            (Direction::South, MapNode::NorthEast) => Some(((nx, ny), Direction::East)),
            (Direction::South, MapNode::NorthWest) => Some(((nx, ny), Direction::West)),
            (Direction::South, MapNode::StartPoint) => Some(((nx, ny), Direction::South)),
            (Direction::West, MapNode::EastWest) => Some(((nx, ny), Direction::West)),
            (Direction::West, MapNode::NorthEast) => Some(((nx, ny), Direction::North)),
            (Direction::West, MapNode::SouthEast) => Some(((nx, ny), Direction::South)),
            (Direction::West, MapNode::StartPoint) => Some(((nx, ny), Direction::West)),
            (Direction::North, MapNode::NorthSouth) => Some(((nx, ny), Direction::North)),
            (Direction::North, MapNode::SouthEast) => Some(((nx, ny), Direction::East)),
            (Direction::North, MapNode::SouthWest) => Some(((nx, ny), Direction::West)),
            (Direction::North, MapNode::StartPoint) => Some(((nx, ny), Direction::North)),
            _ => None,
        };
        match step {
            Some(step) => Ok(step),
            None => Err(no_step_message()),
        }
    }

    /// The directions in which a first step away from the start
    /// succeeds, tried east, south, west, north.
    pub fn get_possible_start_critters(&self) -> (r: Vec<Critter>)
        ensures
            r@ == start_walkers(self.grid(), self.start_point),
    {
        let (start_x, start_y) = self.start_point;
        let mut result: Vec<Critter> = Vec::new();
        if self.get_next_position(&start_x, &start_y, &Direction::East).is_ok() {
            result.push(Critter::new(self.start_point, Direction::East));
        }
        if self.get_next_position(&start_x, &start_y, &Direction::South).is_ok() {
            result.push(Critter::new(self.start_point, Direction::South));
        }
        if self.get_next_position(&start_x, &start_y, &Direction::West).is_ok() {
            result.push(Critter::new(self.start_point, Direction::West));
        }
        if self.get_next_position(&start_x, &start_y, &Direction::North).is_ok() {
            result.push(Critter::new(self.start_point, Direction::North));
        }
        proof {
            assert(result@ =~= start_walkers(self.grid(), self.start_point));
        }
        result
    }

    /// Advances the walker one step, or reports why it cannot move.
    pub fn move_critter(&self, critter: &mut Critter) -> (r: Result<(), String>)
        ensures
            (match r {
                Ok(()) => spec_next(
                    self.grid(),
                    old(critter).pos.0 as int,
                    old(critter).pos.1 as int,
                    old(critter).direction,
                ) == Some(
                    (((final(critter).pos.0 as int, final(critter).pos.1 as int)), final(critter).direction),
                ),
                Err(_) => *final(critter) == *old(critter) && !step_ok(
                    self.grid(),
                    old(critter).pos.0 as int,
                    old(critter).pos.1 as int,
                    old(critter).direction,
                ),
            }),
    {
        let (posx, posy) = critter.pos;
        let direction = critter.direction;
        match self.get_next_position(&posx, &posy, &direction) {
            Ok((new_pos, new_direction)) => {
                critter.pos = new_pos;
                critter.direction = new_direction;
                Ok(())
            },
            Err(_) => Err(could_not_move_message()),
        }
    }

    /// Walks the critter until it returns to the start, collecting each
    /// distinct position it visits. A walk that cannot move fails, and
    /// one that outlasts every cell of the grid without closing its
    /// loop fails too, rather than walk forever.
    pub fn move_critter_around(&self, critter: &mut Critter) -> (r: Result<
        Vec<(usize, usize)>,
        String,
    >)
        ensures
            (match r {
                Ok(route) => {
                    &&& Some(posn_view(route@)) == spec_walk(
                        self.grid(),
                        (self.start_point.0 as int, self.start_point.1 as int),
                        (old(critter).pos.0 as int, old(critter).pos.1 as int),
                        old(critter).direction,
                        Seq::empty(),
                        budget_from(self.grid(), 0, 1) as nat,
                    )
                    &&& final(critter).pos == self.start_point
                    &&& route@.len() >= 1
                    &&& forall|i: int, j: int|
                        0 <= i < j < route@.len() ==> route@[i] != route@[j]
                },
                Err(_) => spec_walk(
                    self.grid(),
                    (self.start_point.0 as int, self.start_point.1 as int),
                    (old(critter).pos.0 as int, old(critter).pos.1 as int),
                    old(critter).direction,
                    Seq::empty(),
                    budget_from(self.grid(), 0, 1) as nat,
                ) is None,
            }),
    {
        let ghost grid = self.grid();
        let ghost sp = (self.start_point.0 as int, self.start_point.1 as int);
        let mut route: Vec<(usize, usize)> = Vec::new();
        let mut budget: usize = cell_budget(&self.map);
        let ghost walk0 = spec_walk(
            grid,
            sp,
            (critter.pos.0 as int, critter.pos.1 as int),
            critter.direction,
            Seq::empty(),
            budget as nat,
        );
        proof {
            assert(posn_view(route@) =~= Seq::<(int, int)>::empty());
        }
        loop
            invariant
                grid == self.grid(),
                sp == (self.start_point.0 as int, self.start_point.1 as int),
                walk0 == spec_walk(
                    grid,
                    sp,
                    (old(critter).pos.0 as int, old(critter).pos.1 as int),
                    old(critter).direction,
                    Seq::empty(),
                    budget_from(grid, 0, 1) as nat,
                ),
                walk0 == spec_walk(
                    grid,
                    sp,
                    (critter.pos.0 as int, critter.pos.1 as int),
                    critter.direction,
                    posn_view(route@),
                    budget as nat,
                ),
                forall|i: int, j: int|
                    0 <= i < j < route@.len() ==> route@[i] != route@[j],
            decreases budget,
        {
            if budget == 0 {
                proof {
                    assert(spec_walk(
                        grid,
                        sp,
                        (critter.pos.0 as int, critter.pos.1 as int),
                        critter.direction,
                        posn_view(route@),
                        0,
                    ) is None);
                }
                return Err(no_loop_message());
            }
            let ghost pre_pos = (critter.pos.0 as int, critter.pos.1 as int);
            let ghost pre_dir = critter.direction;
            let ghost pre_route = posn_view(route@);
            let ghost pre_fuel = budget as nat;
            budget = budget - 1;
            match self.move_critter(critter) {
                Ok(()) => {
                    let hit = contains_pos(&route, critter.pos);
                    proof {
                        lemma_posn_contains(route@, critter.pos);
                    }
                    if !hit {
                        let ghost prev = route@;
                        route.push(critter.pos);
                        proof {
                            assert(posn_view(route@) =~= posn_view(prev).push(
                                (critter.pos.0 as int, critter.pos.1 as int),
                            ));
                            assert(route@[route@.len() - 1] == critter.pos);
                            assert(route@.contains(critter.pos));
                        }
                    } else {
                        proof {
                            assert(route@.contains(critter.pos));
                        }
                    }
                },
                Err(error) => {
                    proof {
                        assert(spec_walk(grid, sp, pre_pos, pre_dir, pre_route, pre_fuel)
                            is None);
                    }
                    return Err(error);
                },
            }
            let (px, py) = critter.pos;
            let (sx, sy) = self.start_point;
            if px == sx && py == sy {
                proof {
                    assert(route@.contains(critter.pos));
                    assert(spec_walk(grid, sp, pre_pos, pre_dir, pre_route, pre_fuel) == Some(
                        posn_view(route@),
                    ));
                }
                return Ok(route);
            }
        }
    }
}

pub open spec fn posn_view(v: Seq<(usize, usize)>) -> Seq<(int, int)> {
    v.map_values(|p: (usize, usize)| (p.0 as int, p.1 as int))
}

proof fn lemma_posn_contains(v: Seq<(usize, usize)>, p: (usize, usize))
    ensures
        v.contains(p) <==> posn_view(v).contains((p.0 as int, p.1 as int)),
{
    if v.contains(p) {
        let k = choose|k: int| 0 <= k < v.len() && v[k] == p;
        assert(posn_view(v)[k] == (p.0 as int, p.1 as int));
    }
    if posn_view(v).contains((p.0 as int, p.1 as int)) {
        let k = choose|k: int|
            0 <= k < posn_view(v).len() && posn_view(v)[k] == (p.0 as int, p.1 as int);
        assert(posn_view(v)[k] == (v[k].0 as int, v[k].1 as int));
        assert(v[k] == p);
    }
}

/// The walk the loop performs, one step of fuel at a time: step, record
/// the new position once, stop with the route when the start is
/// reached; fail when a step is impossible or the fuel runs out.
pub open spec fn spec_walk(
    grid: Seq<Seq<MapNode>>,
    start: (int, int),
    pos: (int, int),
    d: Direction,
    route: Seq<(int, int)>,
    fuel: nat,
) -> Option<Seq<(int, int)>>
    decreases fuel,
{
    if fuel == 0 {
        None
    } else if !step_ok(grid, pos.0, pos.1, d) {
        None
    } else {
        match spec_next(grid, pos.0, pos.1, d) {
            None => None,
            Some(step) => {
                let route2 = if route.contains(step.0) {
                    route
                } else {
                    route.push(step.0)
                };
                if step.0 == start {
                    Some(route2)
                } else {
                    spec_walk(grid, start, step.0, step.1, route2, (fuel - 1) as nat)
                }
            },
        }
    }
}

/// The walk's fuel: one step per cell of the grid, plus one to leave
/// the start, rows too large to count skipped.
pub open spec fn budget_from(grid: Seq<Seq<MapNode>>, y: int, acc: int) -> int
    decreases grid.len() - y,
{
    if y < 0 || y >= grid.len() {
        acc
    } else {
        budget_from(grid, y + 1, if acc + grid[y].len() <= usize::MAX {
            acc + grid[y].len()
        } else {
            acc
        })
    }
}

/// A first step away from `(x, y)` heading `d` both stays on the
/// machine and lands on a connecting pipe.
pub open spec fn step_ok(grid: Seq<Seq<MapNode>>, x: int, y: int, d: Direction) -> bool {
    &&& spec_next(grid, x, y, d) is Some
    &&& (d is East ==> x + 1 <= usize::MAX)
    &&& (d is South ==> y + 1 <= usize::MAX)
}

/// The walkers that can leave the start, tried east, south, west,
/// north.
pub open spec fn start_walkers(grid: Seq<Seq<MapNode>>, start: (usize, usize)) -> Seq<Critter> {
    let x = start.0 as int;
    let y = start.1 as int;
    (if step_ok(grid, x, y, Direction::East) {
        seq![Critter { pos: start, direction: Direction::East }]
    } else {
        Seq::empty()
    }) + (if step_ok(grid, x, y, Direction::South) {
        seq![Critter { pos: start, direction: Direction::South }]
    } else {
        Seq::empty()
    }) + (if step_ok(grid, x, y, Direction::West) {
        seq![Critter { pos: start, direction: Direction::West }]
    } else {
        Seq::empty()
    }) + (if step_ok(grid, x, y, Direction::North) {
        seq![Critter { pos: start, direction: Direction::North }]
    } else {
        Seq::empty()
    })
}

/// How many steps a closed walk can need at most: one per cell, plus
/// one to leave the start.
fn cell_budget(grid: &Vec<Vec<MapNode>>) -> (r: usize)
    ensures
        r == budget_from(grid@.map_values(|row: Vec<MapNode>| row@), 0, 1),
{
    let ghost gv = grid@.map_values(|row: Vec<MapNode>| row@);
    let mut total: usize = 1;
    let mut y: usize = 0;
    while y < grid.len()
        invariant
            0 <= y <= gv.len(),
            gv == grid@.map_values(|row: Vec<MapNode>| row@),
            gv.len() == grid@.len(),
            budget_from(gv, 0, 1) == budget_from(gv, y as int, total as int),
        decreases gv.len() - y,
    {
        proof {
            assert(gv[y as int] == grid@[y as int]@);
        }
        let row_len = grid[y].len();
        if usize::MAX - total >= row_len {
            total = total + row_len;
        }
        y = y + 1;
    }
    total
}

fn contains_pos(route: &Vec<(usize, usize)>, pos: (usize, usize)) -> (r: bool)
    ensures
        r == route@.contains(pos),
{
    let mut i: usize = 0;
    while i < route.len()
        invariant
            0 <= i <= route@.len(),
            forall|k: int| 0 <= k < i ==> route@[k] != pos,
        decreases route@.len() - i,
    {
        if route[i].0 == pos.0 && route[i].1 == pos.1 {
            return true;
        }
        i = i + 1;
    }
    proof {
        assert(!route@.contains(pos));
    }
    false
}

fn moving_off_message() -> String {
    "moving off the map".to_owned()
}

fn no_step_message() -> String {
    "could not move to the next node".to_owned()
}

fn could_not_move_message() -> String {
    "could not move critter".to_owned()
}

fn no_loop_message() -> String {
    "the walk never returned to the start".to_owned()
}

} // verus!
