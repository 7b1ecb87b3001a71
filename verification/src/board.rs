//! The board: a square grid of points with bounds-checked access.

use vstd::prelude::*;
use vstd::std_specs::cmp::PartialEqSpecImpl;
use crate::stone::{Point, Stone};
use crate::grid::{Grid, Coord, valid_grid, on_board, cell, place, empty_grid, neighbor};

verus! {

/// Why an operation of the engine was refused.
#[derive(Copy, Clone, PartialEq, Eq, Debug, Structural)]
pub enum GoError {
    /// A coordinate lies outside the board.
    OutOfRange,
    /// The target intersection already holds a stone.
    PointOccupied,
    /// The move would leave the mover's own group without liberties.
    Suicide,
    /// The move would recreate an earlier position of the game.
    Repetition,
    /// There is no move to take back.
    NoHistory,
    /// A group was asked for at an intersection that holds no stone.
    PointEmpty,
    /// No intersection is free for a generated move.
    BoardFull,
}

/// A square Go board.
pub struct Board {
    matrix: Vec<Vec<Point>>,
    size: usize,
}

impl View for Board {
    type V = Grid;

    closed spec fn view(&self) -> Grid {
        Seq::new(self.matrix@.len(), |x: int| self.matrix@[x]@)
    }
}

impl Board {
    /// The board is square, of the side it was made with.
    pub closed spec fn wf(&self) -> bool {
        &&& self.matrix@.len() == self.size
        &&& valid_grid(self@)
    }

    /// The side that the board was made with.
    pub closed spec fn side(&self) -> nat {
        self.size as nat
    }

    /// A well-formed board is as wide as the side it was made with.
    pub proof fn lemma_side(&self)
        requires
            self.wf(),
        ensures
            self.side() == self@.len(),
            self@.len() <= usize::MAX,
            valid_grid(self@),
    {
    }

    /// The side length of the board.
    pub fn size(&self) -> (n: usize)
        requires
            self.wf(),
        ensures
            n == self@.len(),
            valid_grid(self@),
    {
        self.size
    }

    /// The point at column `x`, row `y`.
    pub fn get(&self, x: usize, y: usize) -> (r: Result<Point, GoError>)
        requires
            self.wf(),
        ensures
            r == (if on_board(self@.len(), (x, y)) {
                Ok::<Point, GoError>(cell(self@, (x, y)))
            } else {
                Err::<Point, GoError>(GoError::OutOfRange)
            }),
    {
        if x < self.size && y < self.size {
            assert(self@[x as int].len() == self.size);
            Ok(self.matrix[x][y])
        } else {
            Err(GoError::OutOfRange)
        }
    }

    /// Replaces the point at column `x`, row `y`.
    pub fn set(&mut self, x: usize, y: usize, p: Point) -> (r: Result<(), GoError>)
        requires
            old(self).wf(),
        ensures
            final(self).wf(),
            on_board(old(self)@.len(), (x, y)) ==> r is Ok && final(self)@ == place(old(self)@, (x, y), p),
            !on_board(old(self)@.len(), (x, y)) ==> r == Err::<(), GoError>(GoError::OutOfRange)
                && final(self)@ == old(self)@,
    {
        if x < self.size && y < self.size {
            assert(self@[x as int].len() == self.size);
            self.matrix[x][y] = p;
            assert(self@ =~= place(old(self)@, (x, y), p));
            Ok(())
        } else {
            Err(GoError::OutOfRange)
        }
    }

    /// A board of side `board_size` with no stone on it.
    pub fn make_empty_board(board_size: usize) -> (b: Board)
        requires
            0 < board_size,
            board_size * board_size <= i32::MAX,
        ensures
            b.wf(),
            b@ == empty_grid(board_size as nat),
    {
        let mut matrix: Vec<Vec<Point>> = Vec::new();
        let mut x: usize = 0;
        while x < board_size
            invariant
                x <= board_size,
                matrix@.len() == x,
                forall|i: int| 0 <= i < x ==> (#[trigger] matrix@[i])@ == Seq::new(
                    board_size as nat,
                    |y: int| Point::Empty,
                ),
            decreases board_size - x,
        {
            let mut column: Vec<Point> = Vec::new();
            let mut y: usize = 0;
            while y < board_size
                invariant
                    y <= board_size,
                    column@.len() == y,
                    forall|j: int| 0 <= j < y ==> column@[j] == Point::Empty,
                decreases board_size - y,
            {
                column.push(Point::Empty);
                y += 1;
            }
            assert(column@ =~= Seq::new(board_size as nat, |y: int| Point::Empty));
            matrix.push(column);
            x += 1;
        }
        let b = Board { matrix, size: board_size };
        assert(b@ =~= empty_grid(board_size as nat));
        b
    }

    /// Empties the point at column `x`, row `y`.
    pub fn remove_stone(&mut self, x: usize, y: usize) -> (r: Result<(), GoError>)
        requires
            old(self).wf(),
        ensures
            final(self).wf(),
            on_board(old(self)@.len(), (x, y)) ==> r is Ok && final(self)@ == place(
                old(self)@,
                (x, y),
                Point::Empty,
            ),
            !on_board(old(self)@.len(), (x, y)) ==> r == Err::<(), GoError>(GoError::OutOfRange)
                && final(self)@ == old(self)@,
    {
        self.set(x, y, Point::Empty)
    }

    /// Puts `stone` at column `x`, row `y`, whatever the point held.
    pub fn add_stone(&mut self, x: usize, y: usize, stone: Stone) -> (r: Result<(), GoError>)
        requires
            old(self).wf(),
        ensures
            final(self).wf(),
            on_board(old(self)@.len(), (x, y)) ==> r is Ok && final(self)@ == place(
                old(self)@,
                (x, y),
                stone.point(),
            ),
            !on_board(old(self)@.len(), (x, y)) ==> r == Err::<(), GoError>(GoError::OutOfRange)
                && final(self)@ == old(self)@,
    {
        self.set(
            x,
            y,
            match stone {
                Stone::Black => Point::Black,
                Stone::White => Point::White,
            },
        )
    }

    /// The neighbours of `(x, y)` that lie on the board: left, right, top, bottom.
    pub fn get_neighbors(&self, x: usize, y: usize) -> (r: [Option<Coord>; 4])
        requires
            self.wf(),
        ensures
            forall|k: int| 0 <= k < 4 ==> r@[k] == neighbor(self@.len(), (x, y), k),
    {
        let n = self.size;
        let left = if 0 < x && x <= n && y < n {
            Some((x - 1, y))
        } else {
            None
        };
        let top = if 0 < y && y <= n && x < n {
            Some((x, y - 1))
        } else {
            None
        };
        let right = if x < n - 1 && y < n {
            Some((x + 1, y))
        } else {
            None
        };
        let bottom = if y < n - 1 && x < n {
            Some((x, y + 1))
        } else {
            None
        };
        [left, right, top, bottom]
    }
}

impl Clone for Board {
    /// A copy that holds the same position.
    fn clone(&self) -> (r: Self)
        ensures
            r@ == self@,
            r.side() == self.side(),
            self.wf() ==> r.wf(),
    {
        let mut matrix: Vec<Vec<Point>> = Vec::new();
        let mut x: usize = 0;
        while x < self.matrix.len()
            invariant
                x <= self.matrix@.len(),
                matrix@.len() == x,
                forall|i: int| 0 <= i < x ==> (#[trigger] matrix@[i])@ == self.matrix@[i]@,
            decreases self.matrix@.len() - x,
        {
            let mut column: Vec<Point> = Vec::new();
            let mut y: usize = 0;
            while y < self.matrix[x].len()
                invariant
                    x < self.matrix@.len(),
                    y <= self.matrix@[x as int]@.len(),
                    column@.len() == y,
                    forall|j: int| 0 <= j < y ==> column@[j] == self.matrix@[x as int]@[j],
                decreases self.matrix@[x as int]@.len() - y,
            {
                column.push(self.matrix[x][y]);
                y += 1;
            }
            assert(column@ =~= self.matrix@[x as int]@);
            matrix.push(column);
            x += 1;
        }
        let r = Board { matrix, size: self.size };
        assert(r@ =~= self@);
        r
    }
}

impl PartialEq for Board {
    /// Whether two boards have the same side and hold the same position.
    fn eq(&self, other: &Board) -> (r: bool) {
        if self.size != other.size || self.matrix.len() != other.matrix.len() {
            assert(self.side() != other.side() || self@.len() != other@.len());
            return false;
        }
        let mut x: usize = 0;
        while x < self.matrix.len()
            invariant
                self.matrix@.len() == other.matrix@.len(),
                x <= self.matrix@.len(),
                forall|i: int| 0 <= i < x ==> (#[trigger] self.matrix@[i])@ == other.matrix@[i]@,
            decreases self.matrix@.len() - x,
        {
            if self.matrix[x].len() != other.matrix[x].len() {
                assert(self@[x as int].len() != other@[x as int].len());
                return false;
            }
            let mut y: usize = 0;
            while y < self.matrix[x].len()
                invariant
                    x < self.matrix@.len(),
                    self.matrix@.len() == other.matrix@.len(),
                    self.matrix@[x as int]@.len() == other.matrix@[x as int]@.len(),
                    y <= self.matrix@[x as int]@.len(),
                    forall|j: int|
                        0 <= j < y ==> self.matrix@[x as int]@[j] == other.matrix@[x as int]@[j],
                decreases self.matrix@[x as int]@.len() - y,
            {
                if self.matrix[x][y] != other.matrix[x][y] {
                    assert(self@[x as int][y as int] != other@[x as int][y as int]);
                    return false;
                }
                y += 1;
            }
            assert(self.matrix@[x as int]@ =~= other.matrix@[x as int]@);
            x += 1;
        }
        assert(self@ =~= other@);
        true
    }
}

impl PartialEqSpecImpl for Board {
    open spec fn obeys_eq_spec() -> bool {
        true
    }

    open spec fn eq_spec(&self, other: &Board) -> bool {
        self.side() == other.side() && self@ == other@
    }
}

impl Stone {
    /// The point that holds this stone.
    pub open spec fn point(self) -> Point {
        match self {
            Stone::Black => Point::Black,
            Stone::White => Point::White,
        }
    }
}

} // verus!
