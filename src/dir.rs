use vstd::prelude::*;

verus! {

/// One of the four compass directions on a grid whose `y` grows downwards.
#[derive(Clone, Copy, Debug, PartialEq, Eq, Structural)]
pub enum Direction {
    Up,
    Down,
    Left,
    Right,
}

impl Direction {
    /// The direction a quarter turn clockwise.
    pub open spec fn right_of(self) -> Direction {
        match self {
            Direction::Up => Direction::Right,
            Direction::Right => Direction::Down,
            Direction::Down => Direction::Left,
            Direction::Left => Direction::Up,
        }
    }

    /// The direction a quarter turn anticlockwise.
    pub open spec fn left_of(self) -> Direction {
        match self {
            Direction::Up => Direction::Left,
            Direction::Left => Direction::Down,
            Direction::Down => Direction::Right,
            Direction::Right => Direction::Up,
        }
    }

    /// The direction a half turn away.
    pub open spec fn opposite_of(self) -> Direction {
        match self {
            Direction::Up => Direction::Down,
            Direction::Down => Direction::Up,
            Direction::Left => Direction::Right,
            Direction::Right => Direction::Left,
        }
    }

    /// The position of the direction in clockwise order starting from `Right`.
    pub open spec fn index_of(self) -> int {
        match self {
            Direction::Right => 0,
            Direction::Down => 1,
            Direction::Left => 2,
            Direction::Up => 3,
        }
    }

    /// The direction at position `i` (taken modulo four) of that order.
    pub open spec fn at_index(i: int) -> Direction {
        if i % 4 == 0 {
            Direction::Right
        } else if i % 4 == 1 {
            Direction::Down
        } else if i % 4 == 2 {
            Direction::Left
        } else {
            Direction::Up
        }
    }

    pub fn rotate_right(self) -> (r: Direction)
        ensures
            r == self.right_of(),
    {
        match self {
            Direction::Up => Direction::Right,
            Direction::Right => Direction::Down,
            Direction::Down => Direction::Left,
            Direction::Left => Direction::Up,
        }
    }

    pub fn rotate_left(self) -> (r: Direction)
        ensures
            r == self.left_of(),
    {
        match self {
            Direction::Up => Direction::Left,
            Direction::Left => Direction::Down,
            Direction::Down => Direction::Right,
            Direction::Right => Direction::Up,
        }
    }

    pub fn opposite(self) -> (r: Direction)
        ensures
            r == self.opposite_of(),
    {
        match self {
            Direction::Up => Direction::Down,
            Direction::Down => Direction::Up,
            Direction::Left => Direction::Right,
            Direction::Right => Direction::Left,
        }
    }

    pub fn from_index(i: usize) -> (r: Direction)
        ensures
            r == Direction::at_index(i as int),
    {
        if i % 4 == 0 {
            Direction::Right
        } else if i % 4 == 1 {
            Direction::Down
        } else if i % 4 == 2 {
            Direction::Left
        } else {
            Direction::Up
        }
    }
}

/// The position of `dir` in clockwise order starting from `Right`.
pub fn dir_to_usize(dir: Direction) -> (r: usize)
    ensures
        r == dir.index_of(),
        r < 4,
        Direction::at_index(r as int) == dir,
{
    match dir {
        Direction::Up => 3,
        Direction::Down => 1,
        Direction::Left => 2,
        Direction::Right => 0,
    }
}

/// The cell one step from `cell` in direction `dir`, on a grid of `len` cells
/// stored row by row, `width` to a row; `None` where the step leaves the grid.
pub open spec fn cell_step_spec(cell: int, dir: Direction, width: int, len: int) -> Option<int> {
    match dir {
        Direction::Up => if cell >= width { Some(cell - width) } else { None },
        Direction::Down => if cell + width < len { Some(cell + width) } else { None },
        Direction::Left => if cell % width > 0 { Some(cell - 1) } else { None },
        Direction::Right => if cell % width + 1 < width && cell + 1 < len { Some(cell + 1) } else { None },
    }
}

pub fn cell_step(cell: usize, dir: Direction, width: usize, len: usize) -> (r: Option<usize>)
    requires
        width > 0,
        cell < len,
    ensures
        r matches Some(c) ==> c < len && cell_step_spec(cell as int, dir, width as int, len as int) == Some(c as int),
        r is None ==> cell_step_spec(cell as int, dir, width as int, len as int) is None,
{
    match dir {
        Direction::Up => if cell >= width { Some(cell - width) } else { None },
        Direction::Down => if len - cell > width { Some(cell + width) } else { None },
        Direction::Left => if cell % width > 0 {
            assert(cell % width <= cell) by (nonlinear_arith)
                requires
                    width > 0,
            ;
            Some(cell - 1)
        } else {
            None
        },
        Direction::Right => if cell % width + 1 < width && len - cell > 1 { Some(cell + 1) } else { None },
    }
}

} // verus!
