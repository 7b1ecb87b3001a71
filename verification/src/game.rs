//! The game as a state machine over positions: what a move, an undo and a
//! set-up edit make of a state, and the laws that follow.

use vstd::prelude::*;
use crate::stone::{Point, Turn};
use crate::board::GoError;
use crate::capture::lemma_captured_groups;
use crate::grid::{
    Grid, Coord, valid_grid, on_board, cell, place, clear, empty_grid, liberties_of, captured,
    scanned, first_empty,
};

verus! {

impl Turn {
    /// The colour of the stones that this player places.
    pub open spec fn point(self) -> Point {
        match self {
            Turn::Black => Point::Black,
            Turn::White => Point::White,
        }
    }

    /// The other player.
    pub open spec fn other(self) -> Turn {
        match self {
            Turn::Black => Turn::White,
            Turn::White => Turn::Black,
        }
    }
}

/// What the history keeps of the state before a move, with that move.
pub struct Snapshot {
    pub board: Grid,
    pub black_captures: int,
    pub white_captures: int,
    pub turn: Turn,
    pub gomove: Coord,
}

/// A state of the game.
pub struct Game {
    pub board: Grid,
    pub turn: Turn,
    pub black_captures: int,
    pub white_captures: int,
    /// The states before each move played, the latest last.
    pub history: Seq<Snapshot>,
}

impl Game {
    /// A state that an engine can hold: boards of one size throughout, and
    /// capture counts that are not negative.
    pub open spec fn valid(self) -> bool {
        &&& valid_grid(self.board)
        &&& self.black_captures >= 0
        &&& self.white_captures >= 0
        &&& forall|i: int|
            0 <= i < self.history.len() ==> {
                &&& valid_grid((#[trigger] self.history[i]).board)
                &&& self.history[i].board.len() == self.board.len()
                &&& self.history[i].black_captures >= 0
                &&& self.history[i].white_captures >= 0
            }
    }

    /// The state at the start of a game on a board of side `n`.
    pub open spec fn fresh(n: nat) -> Game {
        Game {
            board: empty_grid(n),
            turn: Turn::Black,
            black_captures: 0,
            white_captures: 0,
            history: Seq::empty(),
        }
    }

    /// Both capture counts can grow by a whole board and still be held.
    pub open spec fn room_to_count(self) -> bool {
        &&& self.black_captures + self.board.len() * self.board.len() <= i32::MAX
        &&& self.white_captures + self.board.len() * self.board.len() <= i32::MAX
    }

    /// Both capture counts can grow by two whole boards and still be held: there
    /// is room for a move and for the reply to it.
    pub open spec fn room_for_reply(self) -> bool {
        &&& self.black_captures + self.board.len() * self.board.len() + self.board.len()
            * self.board.len() <= i32::MAX
        &&& self.white_captures + self.board.len() * self.board.len() + self.board.len()
            * self.board.len() <= i32::MAX
    }

    /// The position with the mover's stone put at `c`, before captures.
    pub open spec fn placed(self, c: Coord) -> Grid {
        place(self.board, c, self.turn.point())
    }

    /// The stones that the mover's stone at `c` captures.
    pub open spec fn taken(self, c: Coord) -> Set<Coord> {
        captured(self.placed(c), c)
    }

    /// The position that a move at `c` leads to: the stone placed, the captured
    /// stones removed.
    pub open spec fn candidate(self, c: Coord) -> Grid {
        clear(self.placed(c), self.taken(c))
    }

    /// The position `g` stood on the board before one of the moves played.
    pub open spec fn repeats(self, g: Grid) -> bool {
        exists|i: int| 0 <= i < self.history.len() && (#[trigger] self.history[i]).board == g
    }

    /// What the history keeps of this state when a move at `c` follows.
    pub open spec fn snapshot(self, c: Coord) -> Snapshot {
        Snapshot {
            board: self.board,
            black_captures: self.black_captures,
            white_captures: self.white_captures,
            turn: self.turn,
            gomove: c,
        }
    }

    /// The state after a move at `c`, or why the move is refused.
    pub open spec fn moved(self, c: Coord) -> Result<Game, GoError> {
        if !on_board(self.board.len(), c) {
            Err(GoError::OutOfRange)
        } else if cell(self.board, c) != Point::Empty {
            Err(GoError::PointOccupied)
        } else if liberties_of(self.candidate(c), c).len() == 0 {
            Err(GoError::Suicide)
        } else if self.repeats(self.candidate(c)) {
            Err(GoError::Repetition)
        } else {
            Ok(
                Game {
                    board: self.candidate(c),
                    turn: self.turn.other(),
                    black_captures: if self.turn == Turn::Black {
                        self.black_captures + self.taken(c).len()
                    } else {
                        self.black_captures
                    },
                    white_captures: if self.turn == Turn::White {
                        self.white_captures + self.taken(c).len()
                    } else {
                        self.white_captures
                    },
                    history: self.history.push(self.snapshot(c)),
                },
            )
        }
    }

    /// The state after a move at the first empty point of the board, or why that
    /// move is refused; on a board without an empty point no move is made.
    pub open spec fn computer_moved(self) -> Result<Game, GoError> {
        if exists|c: Coord| first_empty(self.board, c) {
            self.moved(choose|c: Coord| first_empty(self.board, c))
        } else {
            Err(GoError::BoardFull)
        }
    }

    /// The state after the latest move is taken back, or this state where
    /// there is no move.
    pub open spec fn stepped_back(self) -> Game {
        match self.undone() {
            Some(before) => before,
            None => self,
        }
    }

    /// The state after the latest move is taken back; `None` without a move.
    pub open spec fn undone(self) -> Option<Game> {
        if self.history.len() == 0 {
            None
        } else {
            Some(
                Game {
                    board: self.history.last().board,
                    turn: self.history.last().turn,
                    black_captures: self.history.last().black_captures,
                    white_captures: self.history.last().white_captures,
                    history: self.history.drop_last(),
                },
            )
        }
    }

    /// The state with the point at `c` set to `p` by hand, where `c` is on the
    /// board, and the history dropped.
    pub open spec fn edited(self, c: Coord, p: Point) -> Game {
        Game {
            board: if on_board(self.board.len(), c) {
                place(self.board, c, p)
            } else {
                self.board
            },
            history: Seq::empty(),
            ..self
        }
    }

    /// The state with the turn passed to the other player by hand, and the
    /// history dropped.
    pub open spec fn turn_switched(self) -> Game {
        Game { turn: self.turn.other(), history: Seq::empty(), ..self }
    }

    /// The state with the capture count of `turn` set to `n` by hand, and the
    /// history dropped.
    pub open spec fn recounted(self, turn: Turn, n: int) -> Game {
        Game {
            black_captures: if turn == Turn::Black {
                n
            } else {
                self.black_captures
            },
            white_captures: if turn == Turn::White {
                n
            } else {
                self.white_captures
            },
            history: Seq::empty(),
            ..self
        }
    }

    /// The state after each of `moves` in turn, if none of them is refused.
    pub open spec fn played(self, moves: Seq<Coord>) -> Option<Game>
        decreases moves.len(),
    {
        if moves.len() == 0 {
            Some(self)
        } else {
            match self.played(moves.drop_last()) {
                Some(before) => match before.moved(moves.last()) {
                    Ok(after) => Some(after),
                    Err(_) => None,
                },
                None => None,
            }
        }
    }

    /// The state after `k` moves are taken back, if there are that many.
    pub open spec fn undone_times(self, k: nat) -> Option<Game>
        decreases k,
    {
        if k == 0 {
            Some(self)
        } else {
            match self.undone() {
                Some(before) => before.undone_times((k - 1) as nat),
                None => None,
            }
        }
    }
}

/// A move onto a point that is not empty is refused as occupied.
pub proof fn lemma_occupied_refused(s: Game, c: Coord)
    requires
        on_board(s.board.len(), c),
        cell(s.board, c) != Point::Empty,
    ensures
        s.moved(c) == Err::<Game, GoError>(GoError::PointOccupied),
{
}

/// A move that captures nothing and leaves the group of its own stone without
/// a liberty is refused as suicide.
pub proof fn lemma_suicide_refused(s: Game, c: Coord)
    requires
        valid_grid(s.board),
        on_board(s.board.len(), c),
        cell(s.board, c) == Point::Empty,
        s.taken(c) == Set::<Coord>::empty(),
        liberties_of(s.placed(c), c).len() == 0,
    ensures
        s.moved(c) == Err::<Game, GoError>(GoError::Suicide),
{
    assert(s.candidate(c) =~~= s.placed(c));
}

/// A move that is played empties exactly the points of the stones it captures,
/// leaves every other point as the placement made it, and adds the number of
/// captured stones to the mover's count and to no other.
pub proof fn lemma_capture_counted(s: Game, c: Coord)
    requires
        valid_grid(s.board),
        s.moved(c) is Ok,
    ensures
        ({
            let next = s.moved(c)->Ok_0;
            &&& forall|d: Coord|
                on_board(s.board.len(), d) ==> #[trigger] cell(next.board, d) == if s.taken(
                    c,
                ).contains(d) {
                    Point::Empty
                } else {
                    cell(s.placed(c), d)
                }
            &&& s.turn == Turn::Black ==> next.black_captures == s.black_captures + s.taken(
                c,
            ).len() && next.white_captures == s.white_captures
            &&& s.turn == Turn::White ==> next.white_captures == s.white_captures + s.taken(
                c,
            ).len() && next.black_captures == s.black_captures
        }),
{
    let next = s.moved(c)->Ok_0;
    assert(s.placed(c).len() == s.board.len());
    assert forall|d: Coord| on_board(s.board.len(), d) implies #[trigger] cell(next.board, d)
        == if s.taken(c).contains(d) {
        Point::Empty
    } else {
        cell(s.placed(c), d)
    } by {
        assert(s.placed(c)[d.0 as int].len() == s.board.len());
    }
}

/// A move leads from a valid state to a valid state.
pub proof fn lemma_moved_valid(s: Game, c: Coord)
    requires
        s.valid(),
        s.moved(c) is Ok,
    ensures
        s.moved(c)->Ok_0.valid(),
{
    let next = s.moved(c)->Ok_0;
    assert(next.board.len() == s.board.len());
    assert forall|x: int| 0 <= x < next.board.len() implies (#[trigger] next.board[x]).len()
        == next.board.len() by {
        assert(s.placed(c)[x].len() == s.board[x].len());
    }
    assert forall|i: int| 0 <= i < next.history.len() implies {
        &&& valid_grid((#[trigger] next.history[i]).board)
        &&& next.history[i].board.len() == next.board.len()
        &&& next.history[i].black_captures >= 0
        &&& next.history[i].white_captures >= 0
    } by {
        if i < s.history.len() {
            assert(next.history[i] == s.history[i]);
        }
    }
}

/// A board has at most one first empty point.
pub proof fn lemma_first_empty_unique(g: Grid, c: Coord, d: Coord)
    requires
        first_empty(g, c),
        first_empty(g, d),
    ensures
        c == d,
{
    if c != d {
        if scanned(g.len(), d.0 as int, d.1 as int).contains(c) {
        } else {
            assert(scanned(g.len(), c.0 as int, c.1 as int).contains(d));
        }
    }
}

/// A move takes at most a whole board of stones: where there was room for a
/// move and its reply, there is room for a move after it.
pub proof fn lemma_room_after_move(s: Game, c: Coord)
    requires
        s.valid(),
        s.room_for_reply(),
        s.moved(c) is Ok,
    ensures
        s.moved(c)->Ok_0.room_to_count(),
        s.taken(c).finite(),
        s.taken(c).len() <= s.board.len() * s.board.len(),
{
    let g = s.placed(c);
    assert(g.len() == s.board.len());
    assert(valid_grid(g)) by {
        assert forall|i: int| 0 <= i < g.len() implies (#[trigger] g[i]).len() == g.len() by {
            assert(s.board[i].len() == s.board.len());
        }
    }
    assert(cell(g, c) == s.turn.point()) by {
        assert(s.board[c.0 as int].len() == s.board.len());
    }
    lemma_captured_groups(g, c, 4, s.turn.other().point());
    assert(s.moved(c)->Ok_0.board.len() == s.board.len());
}

/// Taking back a move that was just played gives the state before it.
pub proof fn lemma_undo_of_move(s: Game, c: Coord)
    requires
        s.moved(c) is Ok,
    ensures
        s.moved(c)->Ok_0.undone() == Some(s),
{
    let next = s.moved(c)->Ok_0;
    assert(next.history.drop_last() =~= s.history);
}

/// Taking back one move more is taking back one move after the others.
pub proof fn lemma_undone_once_more(s: Game, k: nat)
    ensures
        s.undone_times(k + 1) == match s.undone_times(k) {
            Some(before) => before.undone(),
            None => None,
        },
    decreases k,
{
    if k > 0 {
        match s.undone() {
            Some(before) => {
                lemma_undone_once_more(before, (k - 1) as nat);
            },
            None => {},
        }
    } else {
        match s.undone() {
            Some(before) => {
                assert(before.undone_times(0) == Some(before));
            },
            None => {},
        }
    }
}

/// After any number of moves played one after another, taking back as many
/// moves restores the state from which they started, board, turn, counts and
/// history; where that state had no history, one undo more finds no move.
pub proof fn lemma_undo_restores(s: Game, moves: Seq<Coord>)
    requires
        s.played(moves) is Some,
    ensures
        s.played(moves)->0.undone_times(moves.len()) == Some(s),
        s.played(moves)->0.history.len() == s.history.len() + moves.len(),
        s.history.len() == 0 ==> s.played(moves)->0.undone_times(moves.len() + 1) is None,
    decreases moves.len(),
{
    if moves.len() > 0 {
        let before = s.played(moves.drop_last())->0;
        lemma_undo_restores(s, moves.drop_last());
        lemma_undo_of_move(before, moves.last());
    }
    lemma_undone_once_more(s.played(moves)->0, moves.len());
}

/// After a set-up edit of a point, of the turn or of a capture count there is
/// no move to take back.
pub proof fn lemma_setup_clears_history(s: Game, c: Coord, p: Point, turn: Turn, n: int)
    ensures
        s.edited(c, p).undone() is None,
        s.turn_switched().undone() is None,
        s.recounted(turn, n).undone() is None,
{
}

} // verus!
