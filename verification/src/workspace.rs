//! A workspace: one game with the way it is played and looked at, and what a
//! click on its board or a press of its buttons does.

use vstd::prelude::*;
use crate::stone::{Point, Stone, Turn};
use crate::board::GoError;
use crate::game::{Game, lemma_room_after_move};
use crate::model::Model;
use crate::grid::{Coord, on_board, black_territory, white_territory, black_area, white_area};
use crate::text::{chars_of, push_chars};

verus! {

/// What is done in a workspace.
#[derive(Copy, Clone, PartialEq, Eq, Debug, Structural)]
pub enum WorkspaceMode {
    /// Stones are put and removed by hand.
    Setup,
    /// The game is played.
    Game,
    /// The position is looked at and scored.
    Analysis,
}

/// Who plays.
#[derive(Copy, Clone, PartialEq, Eq, Debug, Structural)]
pub enum GameMode {
    HumanVsHuman,
    /// The human plays the given colour, the computer the other.
    HumanVsComputer(Turn),
}

/// What became of a click on the board.
#[derive(Copy, Clone, PartialEq, Eq, Debug, Structural)]
pub enum Outcome {
    /// The click means nothing in this mode.
    Nothing,
    /// What the click asked for was done.
    Done,
    /// The edit or the move of the human was refused.
    Refused(GoError),
    /// The move of the human was played, the reply of the computer refused.
    ComputerRefused(GoError),
    /// The move of the human was played and left the turn with the human, so
    /// that the computer did not reply.
    NotComputersTurn,
}

/// The four scores that a workspace shows.
pub struct Scores {
    pub black_territory: int,
    pub white_territory: int,
    pub black_area: int,
    pub white_area: int,
}

/// A workspace as a value.
pub struct WorkspaceState {
    pub name: Seq<char>,
    pub game: Game,
    pub mode: WorkspaceMode,
    pub game_mode: GameMode,
    /// The colour that a click puts on the board in set-up.
    pub stone: Stone,
    /// The scores as they were last calculated.
    pub scores: Scores,
}

impl Game {
    /// The state after a click of the left button at `c`, and what became of
    /// the click. In set-up `stone` is put there. In a game the stone of the
    /// player to move is played there, and against the computer, which has the
    /// turn then, the computer replies.
    pub open spec fn left_clicked(
        self,
        mode: WorkspaceMode,
        game_mode: GameMode,
        stone: Stone,
        c: Coord,
    ) -> (Game, Outcome) {
        match mode {
            WorkspaceMode::Setup => (
                self.edited(c, stone.point()),
                if on_board(self.board.len(), c) {
                    Outcome::Done
                } else {
                    Outcome::Refused(GoError::OutOfRange)
                },
            ),
            WorkspaceMode::Game => match self.moved(c) {
                Err(e) => (self, Outcome::Refused(e)),
                Ok(next) => match game_mode {
                    GameMode::HumanVsHuman => (next, Outcome::Done),
                    GameMode::HumanVsComputer(human) => if human != next.turn {
                        match next.computer_moved() {
                            Ok(after) => (after, Outcome::Done),
                            Err(e) => (next, Outcome::ComputerRefused(e)),
                        }
                    } else {
                        (next, Outcome::NotComputersTurn)
                    },
                },
            },
            WorkspaceMode::Analysis => (self, Outcome::Nothing),
        }
    }

    /// The state after a click of the right button at `c`, and what became of
    /// the click: in set-up the point is emptied.
    pub open spec fn right_clicked(self, mode: WorkspaceMode, c: Coord) -> (Game, Outcome) {
        match mode {
            WorkspaceMode::Setup => (
                self.edited(c, Point::Empty),
                if on_board(self.board.len(), c) {
                    Outcome::Done
                } else {
                    Outcome::Refused(GoError::OutOfRange)
                },
            ),
            _ => (self, Outcome::Nothing),
        }
    }

    /// The state after the undo button: between humans one move is taken back.
    /// Against the computer two are, so that the human moves again; where the
    /// computer began, only if there are two.
    pub open spec fn undo_pressed(self, game_mode: GameMode) -> Game {
        match game_mode {
            GameMode::HumanVsHuman => self.stepped_back(),
            GameMode::HumanVsComputer(Turn::Black) => self.stepped_back().stepped_back(),
            GameMode::HumanVsComputer(Turn::White) => if self.history.len() >= 2 {
                self.stepped_back().stepped_back()
            } else {
                self
            },
        }
    }

    /// The scores of the position: territory with captures, and area.
    pub open spec fn scores(self) -> Scores {
        Scores {
            black_territory: black_territory(self.board).len() + self.black_captures,
            white_territory: white_territory(self.board).len() + self.white_captures,
            black_area: black_area(self.board) as int,
            white_area: white_area(self.board) as int,
        }
    }
}

/// One game with the way it is played and looked at.
pub struct Workspace {
    name: String,
    model: Model,
    mode: WorkspaceMode,
    game_mode: GameMode,
    stone: Stone,
    black_territory_score: i32,
    white_territory_score: i32,
    black_area_score: i32,
    white_area_score: i32,
}

impl View for Workspace {
    type V = WorkspaceState;

    closed spec fn view(&self) -> WorkspaceState {
        WorkspaceState {
            name: self.name@,
            game: self.model@,
            mode: self.mode,
            game_mode: self.game_mode,
            stone: self.stone,
            scores: Scores {
                black_territory: self.black_territory_score as int,
                white_territory: self.white_territory_score as int,
                black_area: self.black_area_score as int,
                white_area: self.white_area_score as int,
            },
        }
    }
}

impl Workspace {
    /// The game of the workspace is well formed.
    pub closed spec fn wf(&self) -> bool {
        self.model.wf()
    }

    /// A well-formed workspace holds a valid game.
    pub proof fn lemma_valid(&self)
        requires
            self.wf(),
        ensures
            self@.game.valid(),
    {
        self.model.lemma_valid();
    }

    /// A workspace named `name` with a new game on a board of side
    /// `board_size`, in game mode, with the black stone for set-up and all
    /// scores at zero. Where the computer has Black it makes the first move;
    /// the second part of the result says if that move was refused.
    pub fn new(name: String, board_size: usize, game_mode: GameMode) -> (r: (Workspace, Outcome))
        requires
            0 < board_size,
            board_size * board_size <= i32::MAX,
        ensures
            r.0.wf(),
            r.0@.name == name@,
            r.0@.mode == WorkspaceMode::Game,
            r.0@.game_mode == game_mode,
            r.0@.stone == Stone::Black,
            r.0@.scores == (Scores {
                black_territory: 0,
                white_territory: 0,
                black_area: 0,
                white_area: 0,
            }),
            game_mode != GameMode::HumanVsComputer(Turn::White) ==> r.0@.game == Game::fresh(
                board_size as nat,
            ) && r.1 == Outcome::Done,
            game_mode == GameMode::HumanVsComputer(Turn::White) ==> match Game::fresh(
                board_size as nat,
            ).computer_moved() {
                Ok(after) => r.0@.game == after && r.1 == Outcome::Done,
                Err(e) => r.0@.game == Game::fresh(board_size as nat) && r.1
                    == Outcome::ComputerRefused(e),
            },
    {
        let model = Model::make_model(board_size);
        let mut w = Workspace {
            name: name,
            model: model,
            mode: WorkspaceMode::Game,
            game_mode: game_mode,
            stone: Stone::Black,
            black_territory_score: 0,
            white_territory_score: 0,
            black_area_score: 0,
            white_area_score: 0,
        };
        let mut outcome = Outcome::Done;
        if let GameMode::HumanVsComputer(Turn::White) = w.game_mode {
            assert(w.model@.board.len() == board_size);
            let r = w.model.make_move_computer();
            if let Err(e) = r {
                outcome = Outcome::ComputerRefused(e);
            }
        }
        (w, outcome)
    }

    /// The name of the workspace.
    pub fn name(&self) -> (r: &str)
        ensures
            r@ == self@.name,
    {
        self.name.as_str()
    }

    /// The game of the workspace.
    pub fn model(&self) -> (r: &Model)
        requires
            self.wf(),
        ensures
            r.wf(),
            r@ == self@.game,
    {
        &self.model
    }

    /// What is done in the workspace.
    pub fn mode(&self) -> (r: WorkspaceMode)
        ensures
            r == self@.mode,
    {
        self.mode
    }

    /// Who plays.
    pub fn game_mode(&self) -> (r: GameMode)
        ensures
            r == self@.game_mode,
    {
        self.game_mode
    }

    /// The colour that a click puts on the board in set-up.
    pub fn stone(&self) -> (r: Stone)
        ensures
            r == self@.stone,
    {
        self.stone
    }

    /// The territory scores of Black and of White as last calculated.
    pub fn territory_score(&self) -> (r: (i32, i32))
        ensures
            r.0 == self@.scores.black_territory,
            r.1 == self@.scores.white_territory,
    {
        (self.black_territory_score, self.white_territory_score)
    }

    /// The area scores of Black and of White as last calculated.
    pub fn area_score(&self) -> (r: (i32, i32))
        ensures
            r.0 == self@.scores.black_area,
            r.1 == self@.scores.white_area,
    {
        (self.black_area_score, self.white_area_score)
    }

    /// Changes what is done in the workspace.
    pub fn set_mode(&mut self, mode: WorkspaceMode)
        ensures
            final(self)@ == (WorkspaceState { mode, ..old(self)@ }),
            old(self).wf() ==> final(self).wf(),
    {
        self.mode = mode;
    }

    /// Changes the colour that a click puts on the board in set-up.
    pub fn set_stone(&mut self, stone: Stone)
        ensures
            final(self)@ == (WorkspaceState { stone, ..old(self)@ }),
            old(self).wf() ==> final(self).wf(),
    {
        self.stone = stone;
    }

    /// A press of the button that passes the turn in set-up.
    pub fn switch_turn(&mut self)
        requires
            old(self).wf(),
        ensures
            final(self).wf(),
            final(self)@ == (WorkspaceState { game: old(self)@.game.turn_switched(), ..old(self)@ }),
    {
        let _ = self.model.setup_switch_turn();
    }

    /// A click of the left button on the point `(x, y)`.
    pub fn handle_left_click_board(&mut self, x: usize, y: usize) -> (r: Outcome)
        requires
            old(self).wf(),
            old(self)@.mode == WorkspaceMode::Game ==> old(self)@.game.room_for_reply(),
        ensures
            final(self).wf(),
            (final(self)@.game, r) == old(self)@.game.left_clicked(
                old(self)@.mode,
                old(self)@.game_mode,
                old(self)@.stone,
                (x, y),
            ),
            final(self)@ == (WorkspaceState { game: final(self)@.game, ..old(self)@ }),
    {
        let game_mode = self.game_mode;
        proof {
            self.model.lemma_valid();
        }
        match self.mode {
            WorkspaceMode::Setup => {
                let stone = self.stone;
                match self.model.setup_add_stone(x, y, stone) {
                    Ok(()) => Outcome::Done,
                    Err(e) => Outcome::Refused(e),
                }
            },
            WorkspaceMode::Game => {
                let ghost before = self.model@;
                match self.model.make_move(x, y) {
                    Ok(()) => {
                        proof {
                            lemma_room_after_move(before, (x, y));
                        }
                        if let GameMode::HumanVsComputer(turn) = game_mode {
                            let model_turn = self.model.get_turn();
                            if turn != model_turn {
                                match self.model.make_move_computer() {
                                    Ok(()) => Outcome::Done,
                                    Err(e) => Outcome::ComputerRefused(e),
                                }
                            } else {
                                Outcome::NotComputersTurn
                            }
                        } else {
                            Outcome::Done
                        }
                    },
                    Err(e) => Outcome::Refused(e),
                }
            },
            WorkspaceMode::Analysis => Outcome::Nothing,
        }
    }

    /// A click of the right button on the point `(x, y)`.
    pub fn handle_right_click_board(&mut self, x: usize, y: usize) -> (r: Outcome)
        requires
            old(self).wf(),
        ensures
            final(self).wf(),
            (final(self)@.game, r) == old(self)@.game.right_clicked(old(self)@.mode, (x, y)),
            final(self)@ == (WorkspaceState { game: final(self)@.game, ..old(self)@ }),
    {
        match self.mode {
            WorkspaceMode::Setup => {
                match self.model.setup_remove_stone(x, y) {
                    Ok(()) => Outcome::Done,
                    Err(e) => Outcome::Refused(e),
                }
            },
            WorkspaceMode::Game => Outcome::Nothing,
            WorkspaceMode::Analysis => Outcome::Nothing,
        }
    }

    /// A press of the undo button; returns how many moves were taken back.
    pub fn undo(&mut self) -> (r: usize)
        requires
            old(self).wf(),
        ensures
            final(self).wf(),
            final(self)@.game == old(self)@.game.undo_pressed(old(self)@.game_mode),
            final(self)@ == (WorkspaceState { game: final(self)@.game, ..old(self)@ }),
            r == old(self)@.game.history.len() - final(self)@.game.history.len(),
    {
        let mut taken: usize = 0;
        match self.game_mode {
            GameMode::HumanVsHuman => {
                if self.model.undo() {
                    taken += 1;
                }
            },
            GameMode::HumanVsComputer(Turn::Black) => {
                if self.model.undo() {
                    taken += 1;
                }
                if self.model.undo() {
                    taken += 1;
                }
            },
            GameMode::HumanVsComputer(Turn::White) => {
                if self.model.get_move_count() >= 2 {
                    self.model.undo();
                    self.model.undo();
                    taken = 2;
                }
            },
        }
        taken
    }

    /// A press of the score button: the territory and area scores of the
    /// position are calculated and kept.
    pub fn calculate_score(&mut self)
        requires
            old(self).wf(),
            old(self)@.game.room_to_count(),
        ensures
            final(self).wf(),
            final(self)@ == (WorkspaceState {
                scores: old(self)@.game.scores(),
                ..old(self)@
            }),
    {
        let (ts_black, ts_white) = self.model.calculate_territory_score();
        let (as_black, as_white) = self.model.calculate_area_score();
        self.black_territory_score = ts_black;
        self.white_territory_score = ts_white;
        self.black_area_score = as_black;
        self.white_area_score = as_white;
    }
}

impl Clone for Workspace {
    /// A copy of the workspace, with `-Clone` added to its name.
    fn clone(&self) -> (r: Self)
        ensures
            r@ == (WorkspaceState { name: self@.name + "-Clone"@, ..self@ }),
            self.wf() ==> r.wf(),
    {
        let mut new_name = self.name.clone();
        push_chars(&mut new_name, &chars_of("-Clone"));
        Self {
            name: new_name,
            model: self.model.clone(),
            mode: self.mode,
            game_mode: self.game_mode,
            stone: self.stone,
            black_territory_score: self.black_territory_score,
            white_territory_score: self.white_territory_score,
            black_area_score: self.black_area_score,
            white_area_score: self.white_area_score,
        }
    }
}

/// The workspaces that are open, in the order of their tabs, and the one that
/// is shown.
pub struct Workspaces {
    workspaces: Vec<Workspace>,
    wspc: Option<usize>,
}

impl Workspaces {
    /// The workspaces as values, in the order of their tabs.
    pub closed spec fn items(&self) -> Seq<WorkspaceState> {
        Seq::new(self.workspaces@.len(), |i: int| self.workspaces@[i]@)
    }

    /// The index of the workspace that is shown, if one is.
    pub closed spec fn selected(&self) -> Option<usize> {
        self.wspc
    }

    /// Every workspace is well formed, and the one shown is among them.
    pub closed spec fn wf(&self) -> bool {
        &&& forall|i: int| 0 <= i < self.workspaces@.len() ==> (#[trigger] self.workspaces@[i]).wf()
        &&& match self.wspc {
            Some(n) => n < self.workspaces@.len(),
            None => true,
        }
    }

    /// The workspace shown is one of the workspaces.
    pub proof fn lemma_selected(&self)
        requires
            self.wf(),
        ensures
            match self.selected() {
                Some(n) => n < self.items().len(),
                None => true,
            },
    {
    }

    /// No workspace.
    pub fn new() -> (r: Workspaces)
        ensures
            r.wf(),
            r.items() == Seq::<WorkspaceState>::empty(),
            r.selected() is None,
    {
        let r = Workspaces { workspaces: Vec::new(), wspc: None };
        assert(r.items() =~= Seq::<WorkspaceState>::empty());
        r
    }

    /// The number of workspaces.
    pub fn len(&self) -> (n: usize)
        ensures
            n == self.items().len(),
    {
        self.workspaces.len()
    }

    /// The index of the workspace that is shown, if one is.
    pub fn get_selected(&self) -> (r: Option<usize>)
        ensures
            r == self.selected(),
    {
        self.wspc
    }

    /// Shows the workspace with index `n`, if there is one, and says if there is.
    pub fn select(&mut self, n: usize) -> (r: bool)
        requires
            old(self).wf(),
        ensures
            final(self).wf(),
            final(self).items() == old(self).items(),
            r == (n < old(self).items().len()),
            final(self).selected() == if r {
                Some(n)
            } else {
                old(self).selected()
            },
    {
        if n < self.workspaces.len() {
            self.wspc = Some(n);
            true
        } else {
            false
        }
    }

    /// The workspace with index `n`.
    pub fn get(&self, n: usize) -> (r: &Workspace)
        requires
            self.wf(),
            n < self.items().len(),
        ensures
            r.wf(),
            r@ == self.items()[n as int],
    {
        &self.workspaces[n]
    }

    /// The workspace that is shown, if one is.
    pub fn get_workspace(&self) -> (r: Option<&Workspace>)
        requires
            self.wf(),
        ensures
            match (r, self.selected()) {
                (Some(w), Some(n)) => n < self.items().len() && w.wf() && w@ == self.items()[n as int],
                (None, None) => true,
                _ => false,
            },
    {
        match self.wspc {
            Some(n) => Some(&self.workspaces[n]),
            None => None,
        }
    }

    /// The workspace that is shown, if one is, to be changed in place.
    pub fn get_workspace_mut(&mut self) -> (r: Option<&mut Workspace>)
        requires
            old(self).wf(),
        ensures
            final(self).selected() == old(self).selected(),
            match (r, old(self).selected()) {
                (Some(w), Some(n)) => {
                    &&& n < old(self).items().len()
                    &&& w.wf()
                    &&& w@ == old(self).items()[n as int]
                    &&& final(self).items() == old(self).items().update(n as int, final(w)@)
                    &&& final(w).wf() ==> final(self).wf()
                },
                (None, None) => *final(self) == *old(self),
                _ => false,
            },
    {
        match self.wspc {
            Some(n) => {
                let w = &mut self.workspaces[n];
                Some(w)
            },
            None => None,
        }
    }

    /// Opens `w` as a new workspace behind the one that is shown, or as the
    /// last where none is shown, and shows it.
    pub fn new_workspace(&mut self, w: Workspace)
        requires
            old(self).wf(),
            w.wf(),
        ensures
            final(self).wf(),
            match old(self).selected() {
                Some(n) => final(self).items() == old(self).items().insert(n + 1, w@) && final(self).selected() == Some((n + 1) as usize),
                None => final(self).items() == old(self).items().push(w@) && final(self).selected()
                    == Some(0usize),
            },
    {
        if let Some(n) = self.wspc {
            let count = self.workspaces.len();
            assert(n < count);
            self.workspaces.insert(n + 1, w);
            self.wspc = Some(n + 1);
            assert(self.items() =~= old(self).items().insert(n + 1, w@));
        } else {
            self.workspaces.push(w);
            self.wspc = Some(0);
            assert(self.items() =~= old(self).items().push(w@));
        }
    }

    /// Opens a copy of the workspace that is shown behind it, and shows the
    /// copy; says if a workspace was shown.
    pub fn clone_workspace(&mut self) -> (r: bool)
        requires
            old(self).wf(),
        ensures
            final(self).wf(),
            r == old(self).selected() is Some,
            match old(self).selected() {
                Some(n) => final(self).items() == old(self).items().insert(
                    n + 1,
                    (WorkspaceState {
                        name: old(self).items()[n as int].name + "-Clone"@,
                        ..old(self).items()[n as int]
                    }),
                ) && final(self).selected() == Some((n + 1) as usize),
                None => final(self).items() == old(self).items() && final(self).selected() is None,
            },
    {
        if let Some(n) = self.wspc {
            let count = self.workspaces.len();
            assert(n < count);
            let copy = self.workspaces[n].clone();
            self.workspaces.insert(n + 1, copy);
            self.wspc = Some(n + 1);
            assert(self.items() =~= old(self).items().insert(n + 1, copy@));
            true
        } else {
            false
        }
    }

    /// Closes the workspace that is shown and shows the one before it, or the
    /// first, or none where it was the only one; says if a workspace was shown.
    pub fn quit_workspace(&mut self) -> (r: bool)
        requires
            old(self).wf(),
        ensures
            final(self).wf(),
            r == old(self).selected() is Some,
            match old(self).selected() {
                Some(n) => final(self).items() == old(self).items().remove(n as int) && final(self).selected() == if old(self).items().len() == 1 {
                    None
                } else if n == 0 {
                    Some(0usize)
                } else {
                    Some((n - 1) as usize)
                },
                None => final(self).items() == old(self).items() && final(self).selected() is None,
            },
    {
        if let Some(n) = self.wspc {
            if self.workspaces.len() == 1 {
                self.wspc = None;
            } else if n == 0 {
            } else {
                self.wspc = Some(n - 1);
            }
            let _ = self.workspaces.remove(n);
            assert(self.items() =~= old(self).items().remove(n as int));
            true
        } else {
            false
        }
    }
}

} // verus!
