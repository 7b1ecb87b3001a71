use cango::board::GoError;
use cango::stone::{Point, Stone, Turn};
use cango::workspace::{GameMode, Outcome, Workspace, WorkspaceMode, Workspaces};

fn human() -> Workspace {
    Workspace::new("W1".to_string(), 3, GameMode::HumanVsHuman).0
}

#[test]
fn new_workspace_starts_in_game_mode() {
    let (w, outcome) = Workspace::new("W1".to_string(), 5, GameMode::HumanVsHuman);
    assert_eq!(outcome, Outcome::Done);
    assert_eq!(w.name(), "W1");
    assert_eq!(w.mode(), WorkspaceMode::Game);
    assert_eq!(w.game_mode(), GameMode::HumanVsHuman);
    assert_eq!(w.stone(), Stone::Black);
    assert_eq!(w.territory_score(), (0, 0));
    assert_eq!(w.area_score(), (0, 0));
    assert_eq!(w.model().get_board_size(), 5);
    assert_eq!(w.model().get_move_count(), 0);
}

#[test]
fn computer_with_black_makes_the_first_move() {
    let (w, outcome) = Workspace::new("W".to_string(), 3, GameMode::HumanVsComputer(Turn::White));
    assert_eq!(outcome, Outcome::Done);
    assert_eq!(w.model().get_move_count(), 1);
    assert_eq!(w.model().get_last_move(), Some((0, 0)));
    assert_eq!(w.model().get_board().get(0, 0), Ok(Point::Black));
    assert_eq!(w.model().get_turn(), Turn::White);
    let (w, outcome) = Workspace::new("W".to_string(), 3, GameMode::HumanVsComputer(Turn::Black));
    assert_eq!(outcome, Outcome::Done);
    assert_eq!(w.model().get_move_count(), 0);
}

#[test]
fn left_click_in_set_up_puts_the_chosen_stone() {
    let mut w = human();
    w.set_mode(WorkspaceMode::Setup);
    w.set_stone(Stone::White);
    assert_eq!(w.handle_left_click_board(1, 1), Outcome::Done);
    assert_eq!(w.model().get_board().get(1, 1), Ok(Point::White));
    assert_eq!(w.model().get_turn(), Turn::Black);
    assert_eq!(w.model().get_move_count(), 0);
    assert_eq!(w.handle_left_click_board(1, 3), Outcome::Refused(GoError::OutOfRange));
    assert_eq!(w.handle_right_click_board(1, 1), Outcome::Done);
    assert_eq!(w.model().get_board().get(1, 1), Ok(Point::Empty));
    assert_eq!(w.handle_right_click_board(3, 1), Outcome::Refused(GoError::OutOfRange));
}

#[test]
fn left_click_in_a_game_between_humans_plays_one_move() {
    let mut w = human();
    assert_eq!(w.handle_left_click_board(1, 1), Outcome::Done);
    assert_eq!(w.model().get_move_count(), 1);
    assert_eq!(w.model().get_turn(), Turn::White);
    assert_eq!(w.handle_left_click_board(1, 1), Outcome::Refused(GoError::PointOccupied));
    assert_eq!(w.model().get_move_count(), 1);
    assert_eq!(w.handle_right_click_board(1, 1), Outcome::Nothing);
    assert_eq!(w.model().get_board().get(1, 1), Ok(Point::Black));
}

#[test]
fn left_click_against_the_computer_brings_its_reply() {
    let (mut w, _) = Workspace::new("W".to_string(), 3, GameMode::HumanVsComputer(Turn::Black));
    assert_eq!(w.handle_left_click_board(1, 1), Outcome::Done);
    assert_eq!(w.model().get_move_count(), 2);
    assert_eq!(w.model().get_board().get(1, 1), Ok(Point::Black));
    assert_eq!(w.model().get_board().get(0, 0), Ok(Point::White));
    assert_eq!(w.model().get_turn(), Turn::Black);
    assert_eq!(w.handle_left_click_board(0, 0), Outcome::Refused(GoError::PointOccupied));
    assert_eq!(w.model().get_move_count(), 2);
}

#[test]
fn reply_of_the_computer_can_be_refused() {
    // After Black at (1,0) the first empty point is (0,0), where White has no liberty.
    let (mut w, _) = Workspace::new("W".to_string(), 3, GameMode::HumanVsComputer(Turn::Black));
    w.set_mode(WorkspaceMode::Setup);
    assert_eq!(w.handle_left_click_board(0, 1), Outcome::Done);
    w.set_mode(WorkspaceMode::Game);
    assert_eq!(w.handle_left_click_board(1, 0), Outcome::ComputerRefused(GoError::Suicide));
    assert_eq!(w.model().get_move_count(), 1);
    assert_eq!(w.model().get_turn(), Turn::White);
}

#[test]
fn computer_does_not_reply_out_of_turn() {
    let (mut w, _) = Workspace::new("W".to_string(), 3, GameMode::HumanVsComputer(Turn::Black));
    w.set_mode(WorkspaceMode::Setup);
    w.switch_turn();
    w.set_mode(WorkspaceMode::Game);
    // The human has Black, but White is to move: after the move it is Black's turn.
    assert_eq!(w.handle_left_click_board(1, 1), Outcome::NotComputersTurn);
    assert_eq!(w.model().get_board().get(1, 1), Ok(Point::White));
    assert_eq!(w.model().get_move_count(), 1);
}

#[test]
fn clicks_mean_nothing_in_analysis() {
    let mut w = human();
    w.set_mode(WorkspaceMode::Analysis);
    assert_eq!(w.handle_left_click_board(1, 1), Outcome::Nothing);
    assert_eq!(w.handle_right_click_board(1, 1), Outcome::Nothing);
    assert_eq!(w.model().get_board().get(1, 1), Ok(Point::Empty));
    assert_eq!(w.model().get_move_count(), 0);
}

#[test]
fn undo_between_humans_takes_back_one_move() {
    let mut w = human();
    assert_eq!(w.undo(), 0);
    w.handle_left_click_board(0, 0);
    w.handle_left_click_board(1, 1);
    assert_eq!(w.undo(), 1);
    assert_eq!(w.model().get_move_count(), 1);
    assert_eq!(w.undo(), 1);
    assert_eq!(w.undo(), 0);
}

#[test]
fn undo_against_the_computer_takes_back_two_moves() {
    let (mut w, _) = Workspace::new("W".to_string(), 3, GameMode::HumanVsComputer(Turn::Black));
    w.handle_left_click_board(1, 1);
    assert_eq!(w.model().get_move_count(), 2);
    assert_eq!(w.undo(), 2);
    assert_eq!(w.model().get_move_count(), 0);
    assert_eq!(w.undo(), 0);
    // One move alone is taken back too where the human began.
    w.set_mode(WorkspaceMode::Setup);
    w.handle_left_click_board(0, 1);
    w.set_mode(WorkspaceMode::Game);
    assert_eq!(w.handle_left_click_board(1, 0), Outcome::ComputerRefused(GoError::Suicide));
    assert_eq!(w.undo(), 1);
    assert_eq!(w.model().get_move_count(), 0);
}

#[test]
fn undo_keeps_the_first_move_of_the_computer() {
    let (mut w, _) = Workspace::new("W".to_string(), 3, GameMode::HumanVsComputer(Turn::White));
    assert_eq!(w.model().get_move_count(), 1);
    assert_eq!(w.undo(), 0);
    assert_eq!(w.model().get_move_count(), 1);
    assert_eq!(w.handle_left_click_board(1, 1), Outcome::Done);
    assert_eq!(w.model().get_move_count(), 3);
    assert_eq!(w.undo(), 2);
    assert_eq!(w.model().get_move_count(), 1);
}

#[test]
fn switch_turn_passes_the_turn_and_drops_the_history() {
    let mut w = human();
    w.handle_left_click_board(0, 0);
    w.switch_turn();
    assert_eq!(w.model().get_turn(), Turn::Black);
    assert_eq!(w.model().get_move_count(), 0);
}

#[test]
fn calculate_score_keeps_all_four_scores() {
    let mut w = human();
    w.handle_left_click_board(1, 1);
    w.calculate_score();
    assert_eq!(w.territory_score(), (8, 0));
    assert_eq!(w.area_score(), (9, 0));
    w.handle_left_click_board(0, 0);
    assert_eq!(w.area_score(), (9, 0));
    w.calculate_score();
    assert_eq!(w.territory_score(), (0, 0));
    assert_eq!(w.area_score(), (1, 1));
}

#[test]
fn clone_adds_to_the_name_and_keeps_the_rest() {
    let mut w = human();
    w.handle_left_click_board(1, 1);
    w.set_mode(WorkspaceMode::Analysis);
    w.set_stone(Stone::White);
    w.calculate_score();
    let copy = w.clone();
    assert_eq!(copy.name(), "W1-Clone");
    assert_eq!(copy.mode(), WorkspaceMode::Analysis);
    assert_eq!(copy.stone(), Stone::White);
    assert_eq!(copy.area_score(), (9, 0));
    assert_eq!(copy.model().get_move_count(), 1);
    assert_eq!(copy.clone().name(), "W1-Clone-Clone");
}

fn names(list: &Workspaces) -> Vec<String> {
    (0..list.len()).map(|n| list.get(n).name().to_string()).collect()
}

fn named(name: &str) -> Workspace {
    Workspace::new(name.to_string(), 2, GameMode::HumanVsHuman).0
}

#[test]
fn new_workspace_opens_behind_the_one_shown() {
    let mut list = Workspaces::new();
    assert_eq!(list.len(), 0);
    assert_eq!(list.get_selected(), None);
    assert!(list.get_workspace().is_none());
    list.new_workspace(named("a"));
    assert_eq!(list.get_selected(), Some(0));
    list.new_workspace(named("b"));
    list.new_workspace(named("c"));
    assert_eq!(names(&list), vec!["a", "b", "c"]);
    assert_eq!(list.get_selected(), Some(2));
    assert!(list.select(0));
    list.new_workspace(named("d"));
    assert_eq!(names(&list), vec!["a", "d", "b", "c"]);
    assert_eq!(list.get_selected(), Some(1));
    assert_eq!(list.get_workspace().unwrap().name(), "d");
    assert!(!list.select(4));
    assert_eq!(list.get_selected(), Some(1));
}

#[test]
fn clone_workspace_opens_the_copy_behind_it() {
    let mut list = Workspaces::new();
    assert!(!list.clone_workspace());
    list.new_workspace(named("a"));
    list.new_workspace(named("b"));
    list.select(0);
    assert!(list.clone_workspace());
    assert_eq!(names(&list), vec!["a", "a-Clone", "b"]);
    assert_eq!(list.get_selected(), Some(1));
}

#[test]
fn quit_workspace_shows_the_one_before() {
    let mut list = Workspaces::new();
    assert!(!list.quit_workspace());
    for name in ["a", "b", "c"] {
        list.new_workspace(named(name));
    }
    assert!(list.quit_workspace());
    assert_eq!(names(&list), vec!["a", "b"]);
    assert_eq!(list.get_selected(), Some(1));
    list.select(0);
    assert!(list.quit_workspace());
    assert_eq!(names(&list), vec!["b"]);
    assert_eq!(list.get_selected(), Some(0));
    assert!(list.quit_workspace());
    assert_eq!(list.len(), 0);
    assert_eq!(list.get_selected(), None);
    assert!(list.get_workspace_mut().is_none());
}

#[test]
fn workspace_shown_is_changed_in_place() {
    let mut list = Workspaces::new();
    list.new_workspace(named("a"));
    list.new_workspace(named("b"));
    list.select(0);
    let w = list.get_workspace_mut().unwrap();
    assert_eq!(w.handle_left_click_board(1, 1), Outcome::Done);
    assert_eq!(list.get(0).model().get_move_count(), 1);
    assert_eq!(list.get(1).model().get_move_count(), 0);
}
