//! The game engine: the current position, whose turn it is, the capture
//! counts and the history of the moves played.

use vstd::prelude::*;
use crate::stone::{Point, Stone, Turn};
use crate::board::{Board, GoError};
use crate::game::{Game, Snapshot, lemma_moved_valid, lemma_first_empty_unique};
use crate::capture::lemma_captured_groups;
use crate::grid::{
    Coord, valid_grid, on_board, cell, clear, scanned, first_empty, liberties_of, black_territory,
    white_territory, neutral_points, black_area, white_area, lemma_cells_bounded,
};

verus! {

/// The state before a move, kept with the move that followed it.
pub struct HistoryItem {
    board: Board,
    black_captures: i32,
    white_captures: i32,
    turn: Turn,
    gomove: (usize, usize),
}

/// The moves played so far, the latest last.
pub struct History {
    items: Vec<HistoryItem>,
}

/// A game of Go in progress.
pub struct Model {
    board: Board,
    turn: Turn,
    history: History,
    black_captures: i32,
    white_captures: i32,
}

impl View for HistoryItem {
    type V = Snapshot;

    closed spec fn view(&self) -> Snapshot {
        Snapshot {
            board: self.board@,
            black_captures: self.black_captures as int,
            white_captures: self.white_captures as int,
            turn: self.turn,
            gomove: self.gomove,
        }
    }
}

impl HistoryItem {
    /// The board of the item is well formed.
    pub closed spec fn wf(&self) -> bool {
        self.board.wf()
    }

    /// An item that keeps `board`, the two counts and the turn as they were
    /// before the move `gomove`.
    pub fn new(
        board: Board,
        black_captures: i32,
        white_captures: i32,
        turn: Turn,
        gomove: (usize, usize),
    ) -> (r: HistoryItem)
        requires
            board.wf(),
        ensures
            r.wf(),
            r@ == (Snapshot {
                board: board@,
                black_captures: black_captures as int,
                white_captures: white_captures as int,
                turn,
                gomove,
            }),
    {
        HistoryItem { board, black_captures, white_captures, turn, gomove }
    }
}

impl HistoryItem {
    /// The position before the move.
    pub fn board(&self) -> (r: &Board)
        requires
            self.wf(),
        ensures
            r.wf(),
            r@ == self@.board,
    {
        &self.board
    }

    /// The number of stones that Black had captured before the move.
    pub fn black_captures(&self) -> (n: i32)
        ensures
            n == self@.black_captures,
    {
        self.black_captures
    }

    /// The number of stones that White had captured before the move.
    pub fn white_captures(&self) -> (n: i32)
        ensures
            n == self@.white_captures,
    {
        self.white_captures
    }

    /// The player who made the move.
    pub fn turn(&self) -> (t: Turn)
        ensures
            t == self@.turn,
    {
        self.turn
    }

    /// The point of the move.
    pub fn gomove(&self) -> (c: (usize, usize))
        ensures
            c == self@.gomove,
    {
        self.gomove
    }
}

impl Clone for HistoryItem {
    fn clone(&self) -> (r: Self)
        ensures
            r@ == self@,
            self.wf() ==> r.wf(),
    {
        HistoryItem {
            board: self.board.clone(),
            black_captures: self.black_captures,
            white_captures: self.white_captures,
            turn: self.turn,
            gomove: self.gomove,
        }
    }
}

impl View for History {
    type V = Seq<Snapshot>;

    closed spec fn view(&self) -> Seq<Snapshot> {
        Seq::new(self.items@.len(), |i: int| self.items@[i]@)
    }
}

impl History {
    /// Every item of the history is well formed.
    pub closed spec fn wf(&self) -> bool {
        forall|i: int| 0 <= i < self.items@.len() ==> (#[trigger] self.items@[i]).wf()
    }

    /// A history without moves.
    pub fn new() -> (r: History)
        ensures
            r.wf(),
            r@ == Seq::<Snapshot>::empty(),
    {
        let r = History { items: Vec::new() };
        assert(r@ =~= Seq::<Snapshot>::empty());
        r
    }

    /// The number of moves played.
    pub fn get_move_count(&self) -> (n: usize)
        ensures
            n == self@.len(),
    {
        self.items.len()
    }

    /// Adds the latest move.
    pub fn push(&mut self, item: HistoryItem)
        requires
            old(self).wf(),
            item.wf(),
        ensures
            final(self).wf(),
            final(self)@ == old(self)@.push(item@),
    {
        self.items.push(item);
        assert(self@ =~= old(self)@.push(item@));
    }

    /// Takes off the latest move, if there is one.
    pub fn pop(&mut self) -> (r: Option<HistoryItem>)
        requires
            old(self).wf(),
        ensures
            final(self).wf(),
            match r {
                Some(item) => {
                    &&& old(self)@.len() > 0
                    &&& item.wf()
                    &&& item@ == old(self)@.last()
                    &&& final(self)@ == old(self)@.drop_last()
                },
                None => old(self)@.len() == 0 && final(self)@ == old(self)@,
            },
    {
        let r = self.items.pop();
        proof {
            if r is Some {
                assert(self@ =~= old(self)@.drop_last());
                assert(old(self).items@[old(self).items@.len() - 1].wf());
            } else {
                assert(self@ =~= old(self)@);
            }
        }
        r
    }

    /// The `k`-th item counted from the latest move backwards.
    pub fn in_reverse(&self, k: usize) -> (r: &HistoryItem)
        requires
            self.wf(),
            k < self@.len(),
        ensures
            r.wf(),
            r@ == self@[self@.len() - 1 - k],
    {
        &self.items[self.items.len() - 1 - k]
    }

    /// The latest move, if there is one.
    pub fn last(&self) -> (r: Option<&HistoryItem>)
        requires
            self.wf(),
        ensures
            match r {
                Some(item) => self@.len() > 0 && item.wf() && item@ == self@.last(),
                None => self@.len() == 0,
            },
    {
        if self.items.len() == 0 {
            None
        } else {
            Some(&self.items[self.items.len() - 1])
        }
    }
}

impl Clone for History {
    fn clone(&self) -> (r: Self)
        ensures
            r@ == self@,
            self.wf() ==> r.wf(),
    {
        let mut items: Vec<HistoryItem> = Vec::new();
        let mut i: usize = 0;
        while i < self.items.len()
            invariant
                i <= self.items@.len(),
                items@.len() == i,
                forall|j: int| 0 <= j < i ==> (#[trigger] items@[j])@ == self.items@[j]@,
                self.wf() ==> forall|j: int| 0 <= j < i ==> (#[trigger] items@[j]).wf(),
            decreases self.items@.len() - i,
        {
            let item = self.items[i].clone();
            items.push(item);
            i += 1;
        }
        let r = History { items };
        assert(r@ =~= self@);
        r
    }
}

impl View for Model {
    type V = Game;

    closed spec fn view(&self) -> Game {
        Game {
            board: self.board@,
            turn: self.turn,
            black_captures: self.black_captures as int,
            white_captures: self.white_captures as int,
            history: self.history@,
        }
    }
}

impl Model {
    /// The engine holds a valid state on well-formed boards.
    pub closed spec fn wf(&self) -> bool {
        &&& self.board.wf()
        &&& self.history.wf()
        &&& self@.valid()
    }

    /// A well-formed engine is in a valid state.
    pub proof fn lemma_valid(&self)
        requires
            self.wf(),
        ensures
            self@.valid(),
    {
    }

    /// A new game on an empty board of side `board_size`; Black moves first.
    pub fn make_model(board_size: usize) -> (r: Model)
        requires
            0 < board_size,
            board_size * board_size <= i32::MAX,
        ensures
            r.wf(),
            r@ == Game::fresh(board_size as nat),
    {
        let m = Model {
            board: Board::make_empty_board(board_size),
            turn: Turn::Black,
            history: History::new(),
            black_captures: 0,
            white_captures: 0,
        };
        proof {
            m.board.lemma_side();
        }
        m
    }

    /// The current position.
    pub fn get_board(&self) -> (r: &Board)
        requires
            self.wf(),
        ensures
            r.wf(),
            r@ == self@.board,
    {
        &self.board
    }

    /// The side length of the board.
    pub fn get_board_size(&self) -> (n: usize)
        requires
            self.wf(),
        ensures
            n == self@.board.len(),
    {
        self.board.size()
    }

    /// The player who moves next.
    pub fn get_turn(&self) -> (t: Turn)
        ensures
            t == self@.turn,
    {
        self.turn
    }

    /// The number of stones that Black has captured.
    pub fn get_black_captures(&self) -> (n: i32)
        ensures
            n == self@.black_captures,
    {
        self.black_captures
    }

    /// The number of stones that White has captured.
    pub fn get_white_captures(&self) -> (n: i32)
        ensures
            n == self@.white_captures,
    {
        self.white_captures
    }

    /// Passes the turn to the other player by hand; the history is dropped.
    pub fn setup_switch_turn(&mut self) -> (r: Result<(), GoError>)
        requires
            old(self).wf(),
        ensures
            final(self).wf(),
            r is Ok,
            final(self)@ == old(self)@.turn_switched(),
            final(self)@.history.len() == 0,
    {
        self.switch_turn();
        self.reset_history_during_setup();
        Ok(())
    }

    fn switch_turn(&mut self)
        ensures
            final(self).turn == old(self).turn.other(),
            final(self).board == old(self).board,
            final(self).history == old(self).history,
            final(self).black_captures == old(self).black_captures,
            final(self).white_captures == old(self).white_captures,
    {
        self.turn = match self.turn {
            Turn::Black => Turn::White,
            Turn::White => Turn::Black,
        };
    }

    /// Puts `stone` at `(x, y)` by hand, with no rule applied; the history is
    /// dropped, also where the point is off the board.
    pub fn setup_add_stone(&mut self, x: usize, y: usize, stone: Stone) -> (r: Result<(), GoError>)
        requires
            old(self).wf(),
        ensures
            final(self).wf(),
            final(self)@ == old(self)@.edited((x, y), stone.point()),
            final(self)@.history.len() == 0,
            on_board(old(self)@.board.len(), (x, y)) ==> r is Ok,
            !on_board(old(self)@.board.len(), (x, y)) ==> r == Err::<(), GoError>(
                GoError::OutOfRange,
            ),
    {
        let r = self.board.add_stone(x, y, stone);
        self.reset_history_during_setup();
        proof {
            self.board.lemma_side();
        }
        r
    }

    /// Empties the point at `(x, y)` by hand; the history is dropped, also
    /// where the point is off the board.
    pub fn setup_remove_stone(&mut self, x: usize, y: usize) -> (r: Result<(), GoError>)
        requires
            old(self).wf(),
        ensures
            final(self).wf(),
            final(self)@ == old(self)@.edited((x, y), Point::Empty),
            final(self)@.history.len() == 0,
            on_board(old(self)@.board.len(), (x, y)) ==> r is Ok,
            !on_board(old(self)@.board.len(), (x, y)) ==> r == Err::<(), GoError>(
                GoError::OutOfRange,
            ),
    {
        let r = self.board.remove_stone(x, y);
        self.reset_history_during_setup();
        proof {
            self.board.lemma_side();
        }
        r
    }

    /// Sets the capture count of `turn` to `n` by hand; the history is dropped.
    pub fn setup_set_captures(&mut self, turn: Turn, n: i32) -> (r: Result<(), GoError>)
        requires
            old(self).wf(),
            n >= 0,
        ensures
            final(self).wf(),
            r is Ok,
            final(self)@ == old(self)@.recounted(turn, n as int),
            final(self)@.history.len() == 0,
    {
        match turn {
            Turn::Black => {
                self.black_captures = n;
            },
            Turn::White => {
                self.white_captures = n;
            },
        }
        self.reset_history_during_setup();
        Ok(())
    }

    fn reset_history_during_setup(&mut self)
        ensures
            final(self).history@ == Seq::<Snapshot>::empty(),
            final(self).history.wf(),
            final(self).board == old(self).board,
            final(self).turn == old(self).turn,
            final(self).black_captures == old(self).black_captures,
            final(self).white_captures == old(self).white_captures,
    {
        self.history = History::new();
    }

    /// Plays the stone of the player to move at `(x, y)`. The move is refused,
    /// and nothing changes, where the point is off the board or occupied, where
    /// after captures the stone's group is left without a liberty, or where the
    /// position after the move stood on the board before an earlier move.
    /// Otherwise the state before the move goes to the history, the captured
    /// stones leave the board and are counted for the mover, and the turn passes.
    pub fn make_move(&mut self, x: usize, y: usize) -> (r: Result<(), GoError>)
        requires
            old(self).wf(),
            old(self)@.room_to_count(),
        ensures
            final(self).wf(),
            match old(self)@.moved((x, y)) {
                Ok(next) => r is Ok && final(self)@ == next,
                Err(e) => r == Err::<(), GoError>(e) && final(self)@ == old(self)@,
            },
            on_board(old(self)@.board.len(), (x, y)) && cell(old(self)@.board, (x, y))
                != Point::Empty ==> r == Err::<(), GoError>(GoError::PointOccupied)
                && final(self)@ == old(self)@,
            on_board(old(self)@.board.len(), (x, y)) && cell(old(self)@.board, (x, y))
                == Point::Empty && old(self)@.taken((x, y)) == Set::<Coord>::empty()
                && liberties_of(old(self)@.placed((x, y)), (x, y)).len() == 0 ==> r == Err::<
                (),
                GoError,
            >(GoError::Suicide) && final(self)@ == old(self)@,
            r is Ok ==> {
                &&& final(self)@.board == clear(
                    old(self)@.placed((x, y)),
                    old(self)@.taken((x, y)),
                )
                &&& old(self)@.turn == Turn::Black ==> final(self)@.black_captures
                    == old(self)@.black_captures + old(self)@.taken((x, y)).len()
                &&& old(self)@.turn == Turn::White ==> final(self)@.white_captures
                    == old(self)@.white_captures + old(self)@.taken((x, y)).len()
            },
    {
        let ghost s = self@;
        let ghost c: Coord = (x, y);
        proof {
            self.board.lemma_side();
            if on_board(s.board.len(), c) && cell(s.board, c) == Point::Empty && s.taken(c)
                == Set::<Coord>::empty() {
                assert(s.candidate(c) =~~= s.placed(c));
            }
        }
        let point = self.board.get(x, y)?;
        if point == Point::Empty {
            let mut new_board = self.board.clone();
            new_board.set(
                x,
                y,
                match self.turn {
                    Turn::Black => Point::Black,
                    Turn::White => Point::White,
                },
            )?;
            assert(new_board@ == s.placed(c));
            assert(cell(s.placed(c), c) == s.turn.point()) by {
                assert(s.board[x as int].len() == s.board.len());
            }
            let captures = new_board.capture_stones(x, y)?;
            proof {
                new_board.lemma_side();
                assert(valid_grid(s.placed(c))) by {
                    assert forall|i: int| 0 <= i < s.placed(c).len() implies (
                    #[trigger] s.placed(c)[i]).len() == s.placed(c).len() by {
                        assert(s.board[i].len() == s.board.len());
                    }
                }
                lemma_captured_groups(s.placed(c), c, 4, s.turn.other().point());
                assert(!s.taken(c).contains(c));
                assert(cell(s.candidate(c), c) == s.turn.point()) by {
                    assert(s.placed(c)[x as int].len() == s.board.len());
                }
            }
            if new_board.is_suicide(x, y)? {
                Err(GoError::Suicide)
            } else if self.is_repetition(&new_board) {
                Err(GoError::Repetition)
            } else {
                proof {
                    lemma_moved_valid(s, c);
                }
                self.history.push(
                    HistoryItem {
                        board: self.board.clone(),
                        black_captures: self.black_captures,
                        white_captures: self.white_captures,
                        turn: self.get_turn(),
                        gomove: (x, y),
                    },
                );
                self.board = new_board;
                match self.turn {
                    Turn::Black => {
                        self.black_captures += captures;
                    },
                    Turn::White => {
                        self.white_captures += captures;
                    },
                }
                self.switch_turn();
                Ok(())
            }
        } else {
            Err(GoError::PointOccupied)
        }
    }

    /// Plays for the player to move at the first empty point of the board,
    /// columns first and each column from the top, and reports what that move
    /// reports; on a board without an empty point nothing is played.
    pub fn make_move_computer(&mut self) -> (r: Result<(), GoError>)
        requires
            old(self).wf(),
            old(self)@.room_to_count(),
        ensures
            final(self).wf(),
            match old(self)@.computer_moved() {
                Ok(next) => r is Ok && final(self)@ == next,
                Err(e) => r == Err::<(), GoError>(e) && final(self)@ == old(self)@,
            },
            (forall|c: Coord|
                on_board(old(self)@.board.len(), c) ==> #[trigger] cell(old(self)@.board, c)
                    != Point::Empty) ==> r == Err::<(), GoError>(GoError::BoardFull)
                && final(self)@ == old(self)@,
    {
        let size = self.get_board_size();
        let ghost g = self@.board;
        let mut x: usize = 0;
        while x < size
            invariant
                self.wf(),
                self@ == old(self)@,
                self@.room_to_count(),
                g == self@.board,
                size == g.len(),
                x <= size,
                forall|d: Coord| #[trigger] scanned(size as nat, x as int, 0).contains(d) ==> cell(
                    g,
                    d,
                ) != Point::Empty,
            decreases size - x,
        {
            let mut y: usize = 0;
            while y < size
                invariant
                    self.wf(),
                    self@ == old(self)@,
                    self@.room_to_count(),
                    g == self@.board,
                    size == g.len(),
                    x < size,
                    y <= size,
                    forall|d: Coord|
                        #[trigger] scanned(size as nat, x as int, y as int).contains(d) ==> cell(
                            g,
                            d,
                        ) != Point::Empty,
                decreases size - y,
            {
                if let Ok(point) = self.board.get(x, y) {
                    if let Point::Empty = point {
                        proof {
                            assert(first_empty(g, (x, y)));
                            let c = choose|c: Coord| first_empty(g, c);
                            lemma_first_empty_unique(g, c, (x, y));
                        }
                        return self.make_move(x, y);
                    }
                }
                proof {
                    assert forall|d: Coord| #[trigger] scanned(
                        size as nat,
                        x as int,
                        y + 1,
                    ).contains(d) implies cell(g, d) != Point::Empty by {
                        if d != (x, y) {
                            assert(scanned(size as nat, x as int, y as int).contains(d));
                        }
                    }
                }
                y += 1;
            }
            proof {
                assert forall|d: Coord| #[trigger] scanned(size as nat, x + 1, 0).contains(
                    d,
                ) implies cell(g, d) != Point::Empty by {
                    assert(scanned(size as nat, x as int, size as int).contains(d));
                }
            }
            x += 1;
        }
        proof {
            assert forall|c: Coord| !first_empty(g, c) by {
                if on_board(size as nat, c) {
                    assert(scanned(size as nat, size as int, 0).contains(c));
                }
            }
        }
        Err(GoError::BoardFull)
    }

    fn is_repetition(&self, board: &Board) -> (r: bool)
        requires
            self.wf(),
            board.wf(),
        ensures
            r == self@.repeats(board@),
    {
        let count = self.history.get_move_count();
        let mut k: usize = 0;
        while k < count
            invariant
                self.wf(),
                board.wf(),
                count == self@.history.len(),
                k <= count,
                forall|i: int| count - k <= i < count ==> (#[trigger] self@.history[i]).board != board@,
            decreases count - k,
        {
            let item = self.history.in_reverse(k);
            proof {
                item.board.lemma_side();
                board.lemma_side();
            }
            if item.board == *board {
                assert(self@.history[count - 1 - k].board == board@);
                return true;
            }
            k += 1;
        }
        false
    }

    /// The territory score of Black and of White: for each, the empty points
    /// that are its territory and the stones it has captured.
    pub fn calculate_territory_score(&self) -> (r: (i32, i32))
        requires
            self.wf(),
            self@.room_to_count(),
        ensures
            r.0 == black_territory(self@.board).len() + self@.black_captures,
            r.1 == white_territory(self@.board).len() + self@.white_captures,
    {
        let (black, white, _neutral) = self.board.calculate_territory_score();
        proof {
            self.board.lemma_side();
            lemma_cells_bounded(self@.board.len(), black_territory(self@.board));
            lemma_cells_bounded(self@.board.len(), white_territory(self@.board));
        }
        (black + self.black_captures, white + self.white_captures)
    }

    /// The area score of Black and of White: for each, its stones on the board
    /// and its territory. The two areas and the neutral points make up the
    /// whole board.
    pub fn calculate_area_score(&self) -> (r: (i32, i32))
        requires
            self.wf(),
        ensures
            r.0 == black_area(self@.board),
            r.1 == white_area(self@.board),
            r.0 + r.1 + neutral_points(self@.board).len() == self@.board.len() * self@.board.len(),
    {
        self.board.calculate_area_score()
    }

    /// Takes back the latest move: board, capture counts and turn are again
    /// what they were before it. Without a move to take back nothing changes.
    pub fn try_undo(&mut self) -> (r: Result<(), GoError>)
        requires
            old(self).wf(),
        ensures
            final(self).wf(),
            match old(self)@.undone() {
                Some(before) => r is Ok && final(self)@ == before,
                None => r == Err::<(), GoError>(GoError::NoHistory) && final(self)@ == old(self)@,
            },
    {
        match self.history.pop() {
            Some(item) => {
                proof {
                    item.board.lemma_side();
                    assert(old(self)@.history[old(self)@.history.len() - 1] == item@);
                }
                self.board = item.board;
                self.black_captures = item.black_captures;
                self.white_captures = item.white_captures;
                self.turn = item.turn;
                Ok(())
            },
            None => Err(GoError::NoHistory),
        }
    }

    /// Takes back the latest move and says whether there was one.
    pub fn undo(&mut self) -> (r: bool)
        requires
            old(self).wf(),
        ensures
            final(self).wf(),
            match old(self)@.undone() {
                Some(before) => r && final(self)@ == before,
                None => !r && final(self)@ == old(self)@,
            },
    {
        self.try_undo().is_ok()
    }

    /// The number of moves played and not taken back.
    pub fn get_move_count(&self) -> (n: usize)
        ensures
            n == self@.history.len(),
    {
        self.history.get_move_count()
    }

    /// The point of the latest move, if there is one.
    pub fn get_last_move(&self) -> (r: Option<(usize, usize)>)
        requires
            self.wf(),
        ensures
            r == if self@.history.len() > 0 {
                Some(self@.history.last().gomove)
            } else {
                None
            },
    {
        if let Some(item) = self.history.last() {
            Some(item.gomove)
        } else {
            None
        }
    }
}

impl Clone for Model {
    fn clone(&self) -> (r: Self)
        ensures
            r@ == self@,
            self.wf() ==> r.wf(),
    {
        Self {
            board: self.board.clone(),
            turn: self.turn,
            history: self.history.clone(),
            black_captures: self.black_captures,
            white_captures: self.white_captures,
        }
    }
}

} // verus!
