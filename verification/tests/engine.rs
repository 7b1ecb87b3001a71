use cango::board::{Board, GoError};
use cango::model::{History, HistoryItem, Model};
use cango::stone::{opposite, Point, Stone, Turn};

fn position(model: &Model) -> Vec<Vec<Point>> {
    let n = model.get_board_size();
    let mut out = Vec::new();
    for x in 0..n {
        let mut column = Vec::new();
        for y in 0..n {
            column.push(model.get_board().get(x, y).unwrap());
        }
        out.push(column);
    }
    out
}

fn sorted(mut v: Vec<(usize, usize)>) -> Vec<(usize, usize)> {
    v.sort();
    v
}

#[test]
fn new_game_is_empty_and_black_moves_first() {
    let model = Model::make_model(3);
    assert_eq!(model.get_board_size(), 3);
    assert_eq!(model.get_turn(), Turn::Black);
    assert_eq!(model.get_black_captures(), 0);
    assert_eq!(model.get_white_captures(), 0);
    assert_eq!(model.get_move_count(), 0);
    assert_eq!(model.get_last_move(), None);
    assert_eq!(position(&model), vec![vec![Point::Empty; 3]; 3]);
}

#[test]
fn opposite_of_each_point() {
    assert_eq!(opposite(Point::Black), Some(Point::White));
    assert_eq!(opposite(Point::White), Some(Point::Black));
    assert_eq!(opposite(Point::Empty), None);
}

#[test]
fn get_outside_the_board_is_out_of_range() {
    let board = Board::make_empty_board(3);
    assert_eq!(board.get(2, 2), Ok(Point::Empty));
    assert_eq!(board.get(3, 0), Err(GoError::OutOfRange));
    assert_eq!(board.get(0, 3), Err(GoError::OutOfRange));
    assert_eq!(board.get(usize::MAX, usize::MAX), Err(GoError::OutOfRange));
}

#[test]
fn set_and_remove_change_one_point() {
    let mut board = Board::make_empty_board(3);
    assert_eq!(board.set(1, 2, Point::White), Ok(()));
    assert_eq!(board.get(1, 2), Ok(Point::White));
    assert_eq!(board.get(2, 1), Ok(Point::Empty));
    assert_eq!(board.add_stone(1, 2, Stone::Black), Ok(()));
    assert_eq!(board.get(1, 2), Ok(Point::Black));
    assert_eq!(board.remove_stone(1, 2), Ok(()));
    assert_eq!(board.get(1, 2), Ok(Point::Empty));
    assert_eq!(board.set(3, 0, Point::Black), Err(GoError::OutOfRange));
    assert_eq!(board.add_stone(0, 3, Stone::Black), Err(GoError::OutOfRange));
    assert_eq!(board.remove_stone(7, 7), Err(GoError::OutOfRange));
    assert!(board == Board::make_empty_board(3));
}

#[test]
fn neighbors_of_corner_edge_and_centre() {
    let board = Board::make_empty_board(3);
    assert_eq!(board.get_neighbors(0, 0), [None, Some((1, 0)), None, Some((0, 1))]);
    assert_eq!(board.get_neighbors(2, 2), [Some((1, 2)), None, Some((2, 1)), None]);
    assert_eq!(board.get_neighbors(1, 0), [Some((0, 0)), Some((2, 0)), None, Some((1, 1))]);
    assert_eq!(
        board.get_neighbors(1, 1),
        [Some((0, 1)), Some((2, 1)), Some((1, 0)), Some((1, 2))]
    );
    let single = Board::make_empty_board(1);
    assert_eq!(single.get_neighbors(0, 0), [None, None, None, None]);
}

#[test]
fn neighbors_are_only_points_of_the_board() {
    let board = Board::make_empty_board(3);
    assert_eq!(board.get_neighbors(3, 0), [Some((2, 0)), None, None, None]);
    assert_eq!(board.get_neighbors(0, 3), [None, None, Some((0, 2)), None]);
    assert_eq!(board.get_neighbors(5, 5), [None, None, None, None]);
}

#[test]
fn clone_and_equality_follow_the_position() {
    let mut a = Board::make_empty_board(3);
    a.set(1, 1, Point::Black).unwrap();
    let b = a.clone();
    assert!(a == b);
    a.set(0, 0, Point::White).unwrap();
    assert!(a != b);
    assert!(Board::make_empty_board(2) != Board::make_empty_board(3));
}

#[test]
fn spread_of_a_group_and_its_border() {
    let mut board = Board::make_empty_board(3);
    board.set(0, 0, Point::Black).unwrap();
    board.set(1, 0, Point::Black).unwrap();
    board.set(2, 0, Point::White).unwrap();
    let (area, perimeter) = board.spread(0, 0).unwrap();
    assert_eq!(area[0], (0, 0));
    assert_eq!(sorted(area), vec![(0, 0), (1, 0)]);
    assert_eq!(sorted(perimeter), vec![(0, 1), (1, 1), (2, 0)]);
    assert_eq!(board.spread(3, 3), Err(GoError::OutOfRange));
}

#[test]
fn spread_of_empty_points_lists_each_once() {
    let mut board = Board::make_empty_board(3);
    board.set(1, 1, Point::Black).unwrap();
    let (area, perimeter) = board.spread(0, 0).unwrap();
    assert_eq!(area.len(), 8);
    assert_eq!(
        sorted(area),
        vec![(0, 0), (0, 1), (0, 2), (1, 0), (1, 2), (2, 0), (2, 1), (2, 2)]
    );
    assert_eq!(perimeter, vec![(1, 1)]);
    let (area, perimeter) = Board::make_empty_board(2).spread(1, 1).unwrap();
    assert_eq!(sorted(area), vec![(0, 0), (0, 1), (1, 0), (1, 1)]);
    assert_eq!(perimeter, vec![]);
}

#[test]
fn liberties_count_distinct_empty_neighbours() {
    let mut board = Board::make_empty_board(3);
    board.set(0, 0, Point::White).unwrap();
    let (lib, group) = board.liberties(0, 0).unwrap();
    assert_eq!(lib, 2);
    assert_eq!(group, vec![(0, 0)]);
    board.set(1, 0, Point::Black).unwrap();
    assert_eq!(board.liberties(0, 0).unwrap().0, 1);
    let (lib, group) = board.liberties(1, 0).unwrap();
    assert_eq!(lib, 2);
    assert_eq!(group, vec![(1, 0)]);
    board.set(1, 1, Point::Black).unwrap();
    let (lib, group) = board.liberties(1, 0).unwrap();
    assert_eq!(lib, 4);
    assert_eq!(sorted(group), vec![(1, 0), (1, 1)]);
    assert_eq!(board.liberties(2, 2), Err(GoError::PointEmpty));
    assert_eq!(board.liberties(3, 2), Err(GoError::OutOfRange));
}

#[test]
fn is_suicide_tells_a_group_without_liberties() {
    let mut board = Board::make_empty_board(3);
    board.set(1, 0, Point::Black).unwrap();
    board.set(0, 1, Point::Black).unwrap();
    board.set(0, 0, Point::White).unwrap();
    assert_eq!(board.is_suicide(0, 0), Ok(true));
    assert_eq!(board.is_suicide(1, 0), Ok(false));
    assert_eq!(board.is_suicide(2, 2), Err(GoError::PointEmpty));
    assert_eq!(board.is_suicide(0, 9), Err(GoError::OutOfRange));
}

#[test]
fn capture_stones_removes_every_dead_neighbouring_group() {
    let mut board = Board::make_empty_board(3);
    board.set(0, 0, Point::White).unwrap();
    board.set(2, 0, Point::White).unwrap();
    board.set(0, 1, Point::Black).unwrap();
    board.set(2, 1, Point::Black).unwrap();
    board.set(1, 0, Point::Black).unwrap();
    assert_eq!(board.capture_stones(1, 0), Ok(2));
    assert_eq!(board.get(0, 0), Ok(Point::Empty));
    assert_eq!(board.get(2, 0), Ok(Point::Empty));
    assert_eq!(board.get(1, 0), Ok(Point::Black));
    assert_eq!(board.get(0, 1), Ok(Point::Black));
    assert_eq!(board.capture_stones(1, 0), Ok(0));
    assert_eq!(board.capture_stones(1, 1), Err(GoError::PointEmpty));
    assert_eq!(board.capture_stones(1, 3), Err(GoError::OutOfRange));
}

#[test]
fn capture_stones_takes_a_group_that_touches_two_sides_once() {
    // White group (0,0),(0,1),(1,1) bends around the new black stone at (1,0).
    let mut board = Board::make_empty_board(3);
    board.set(0, 0, Point::White).unwrap();
    board.set(0, 1, Point::White).unwrap();
    board.set(1, 1, Point::White).unwrap();
    board.set(0, 2, Point::Black).unwrap();
    board.set(1, 2, Point::Black).unwrap();
    board.set(2, 1, Point::Black).unwrap();
    board.set(1, 0, Point::Black).unwrap();
    assert_eq!(board.capture_stones(1, 0), Ok(3));
    assert_eq!(board.count_stones(), (4, 0));
}

#[test]
fn capture_stones_leaves_groups_with_a_liberty() {
    let mut board = Board::make_empty_board(3);
    board.set(0, 0, Point::White).unwrap();
    board.set(1, 0, Point::Black).unwrap();
    let before = board.clone();
    assert_eq!(board.capture_stones(1, 0), Ok(0));
    assert!(board == before);
}

#[test]
fn scenario_capture() {
    let mut model = Model::make_model(3);
    assert_eq!(model.setup_add_stone(0, 0, Stone::White), Ok(()));
    assert_eq!(model.get_board().liberties(0, 0).unwrap().0, 2);
    assert_eq!(model.make_move(1, 0), Ok(()));
    assert_eq!(model.get_board().liberties(0, 0).unwrap().0, 1);
    assert_eq!(model.get_turn(), Turn::White);
    assert_eq!(model.make_move(2, 2), Ok(()));
    assert_eq!(model.make_move(0, 1), Ok(()));
    assert_eq!(model.get_board().get(0, 0), Ok(Point::Empty));
    assert_eq!(model.get_black_captures(), 1);
    assert_eq!(model.get_white_captures(), 0);
    assert_eq!(model.get_turn(), Turn::White);
    assert_eq!(model.get_move_count(), 3);
    assert_eq!(model.get_last_move(), Some((0, 1)));
}

#[test]
fn scenario_suicide() {
    let mut model = Model::make_model(3);
    assert_eq!(model.setup_add_stone(1, 0, Stone::Black), Ok(()));
    assert_eq!(model.setup_add_stone(0, 1, Stone::Black), Ok(()));
    assert_eq!(model.setup_switch_turn(), Ok(()));
    assert_eq!(model.get_turn(), Turn::White);
    let before = position(&model);
    assert_eq!(model.make_move(0, 0), Err(GoError::Suicide));
    assert_eq!(position(&model), before);
    assert_eq!(model.get_turn(), Turn::White);
    assert_eq!(model.get_move_count(), 0);
    assert_eq!(model.get_white_captures(), 0);
}

#[test]
fn scenario_scoring() {
    let mut model = Model::make_model(3);
    assert_eq!(model.calculate_area_score(), (0, 0));
    assert_eq!(model.get_board().count_territories(), (0, 0, 9));
    assert_eq!(model.setup_add_stone(1, 1, Stone::Black), Ok(()));
    assert_eq!(model.calculate_area_score(), (9, 0));
    assert_eq!(model.get_board().count_territories(), (8, 0, 0));
    assert_eq!(model.get_board().count_stones(), (1, 0));
}

#[test]
fn occupied_point_is_refused_and_nothing_changes() {
    let mut model = Model::make_model(3);
    assert_eq!(model.make_move(1, 1), Ok(()));
    let before = position(&model);
    assert_eq!(model.make_move(1, 1), Err(GoError::PointOccupied));
    assert_eq!(position(&model), before);
    assert_eq!(model.get_turn(), Turn::White);
    assert_eq!(model.get_move_count(), 1);
}

#[test]
fn move_outside_the_board_is_out_of_range() {
    let mut model = Model::make_model(3);
    assert_eq!(model.make_move(3, 0), Err(GoError::OutOfRange));
    assert_eq!(model.make_move(0, 3), Err(GoError::OutOfRange));
    assert_eq!(model.get_turn(), Turn::Black);
    assert_eq!(model.get_move_count(), 0);
}

fn ko_position() -> Model {
    // y=0: . B W .
    // y=1: B W . W
    // y=2: . B W .
    // y=3: . . . .
    let mut model = Model::make_model(4);
    for (x, y) in [(1, 0), (0, 1), (1, 2)] {
        model.setup_add_stone(x, y, Stone::Black).unwrap();
    }
    for (x, y) in [(2, 0), (1, 1), (3, 1), (2, 2)] {
        model.setup_add_stone(x, y, Stone::White).unwrap();
    }
    model
}

#[test]
fn capture_is_resolved_before_the_suicide_test() {
    let mut model = ko_position();
    assert_eq!(model.make_move(2, 1), Ok(()));
    assert_eq!(model.get_board().get(1, 1), Ok(Point::Empty));
    assert_eq!(model.get_board().get(2, 1), Ok(Point::Black));
    assert_eq!(model.get_black_captures(), 1);
}

#[test]
fn recreating_an_earlier_position_is_repetition() {
    let mut model = ko_position();
    assert_eq!(model.make_move(2, 1), Ok(()));
    let before = position(&model);
    assert_eq!(model.make_move(1, 1), Err(GoError::Repetition));
    assert_eq!(position(&model), before);
    assert_eq!(model.get_turn(), Turn::White);
    assert_eq!(model.get_white_captures(), 0);
    assert_eq!(model.get_move_count(), 1);
}

#[test]
fn repetition_looks_at_the_whole_history() {
    let mut model = ko_position();
    assert_eq!(model.make_move(2, 1), Ok(()));
    assert_eq!(model.make_move(3, 3), Ok(()));
    assert_eq!(model.make_move(0, 3), Ok(()));
    // White retakes the ko: the position differs from every earlier one.
    assert_eq!(model.make_move(1, 1), Ok(()));
    assert_eq!(model.get_white_captures(), 1);
    assert_eq!(model.get_move_count(), 4);
}

#[test]
fn undo_restores_board_counts_and_turn() {
    let mut model = Model::make_model(3);
    model.setup_add_stone(0, 0, Stone::White).unwrap();
    let start = position(&model);
    assert_eq!(model.make_move(1, 0), Ok(()));
    assert_eq!(model.make_move(2, 2), Ok(()));
    let middle = position(&model);
    assert_eq!(model.make_move(0, 1), Ok(()));
    assert_eq!(model.get_black_captures(), 1);
    assert!(model.undo());
    assert_eq!(position(&model), middle);
    assert_eq!(model.get_black_captures(), 0);
    assert_eq!(model.get_turn(), Turn::Black);
    assert_eq!(model.get_last_move(), Some((2, 2)));
    assert!(model.undo());
    assert!(model.undo());
    assert_eq!(position(&model), start);
    assert_eq!(model.get_turn(), Turn::Black);
    assert_eq!(model.get_move_count(), 0);
    assert!(!model.undo());
    assert_eq!(position(&model), start);
    assert_eq!(model.try_undo(), Err(GoError::NoHistory));
}

#[test]
fn try_undo_takes_back_one_move() {
    let mut model = Model::make_model(2);
    assert_eq!(model.make_move(0, 0), Ok(()));
    assert_eq!(model.try_undo(), Ok(()));
    assert_eq!(model.get_board().get(0, 0), Ok(Point::Empty));
    assert_eq!(model.get_turn(), Turn::Black);
    assert_eq!(model.try_undo(), Err(GoError::NoHistory));
}

#[test]
fn every_setup_edit_drops_the_history() {
    let mut model = Model::make_model(3);
    model.make_move(0, 0).unwrap();
    model.setup_add_stone(2, 2, Stone::White).unwrap();
    assert_eq!(model.get_move_count(), 0);
    assert!(!model.undo());

    model.make_move(1, 1).unwrap();
    model.setup_remove_stone(2, 2).unwrap();
    assert_eq!(model.get_board().get(2, 2), Ok(Point::Empty));
    assert!(!model.undo());

    model.make_move(0, 1).unwrap();
    model.setup_switch_turn().unwrap();
    assert!(!model.undo());

    model.make_move(0, 2).unwrap();
    model.setup_set_captures(Turn::White, 4).unwrap();
    assert_eq!(model.get_white_captures(), 4);
    assert!(!model.undo());

    model.make_move(1, 0).unwrap();
    assert_eq!(model.setup_add_stone(3, 3, Stone::Black), Err(GoError::OutOfRange));
    assert_eq!(model.setup_remove_stone(3, 3), Err(GoError::OutOfRange));
    assert_eq!(model.get_last_move(), None);
    assert!(!model.undo());
}

#[test]
fn setup_switch_turn_flips_the_turn() {
    let mut model = Model::make_model(3);
    model.setup_switch_turn().unwrap();
    assert_eq!(model.get_turn(), Turn::White);
    model.setup_switch_turn().unwrap();
    assert_eq!(model.get_turn(), Turn::Black);
}

#[test]
fn undo_assigns_the_turn_of_the_snapshot() {
    let mut model = Model::make_model(3);
    model.setup_switch_turn().unwrap();
    assert_eq!(model.make_move(0, 0), Ok(()));
    assert_eq!(model.get_board().get(0, 0), Ok(Point::White));
    assert_eq!(model.get_turn(), Turn::Black);
    assert!(model.undo());
    assert_eq!(model.get_turn(), Turn::White);
}

#[test]
fn territory_score_adds_the_captures() {
    let mut model = Model::make_model(3);
    model.setup_add_stone(1, 1, Stone::Black).unwrap();
    model.setup_set_captures(Turn::Black, 2).unwrap();
    model.setup_set_captures(Turn::White, 5).unwrap();
    assert_eq!(model.calculate_territory_score(), (10, 5));
    assert_eq!(model.calculate_area_score(), (9, 0));
}

#[test]
fn regions_between_both_colours_are_neutral() {
    // x=0 column black, x=2 column white, middle column empty.
    let mut model = Model::make_model(3);
    for y in 0..3 {
        model.setup_add_stone(0, y, Stone::Black).unwrap();
        model.setup_add_stone(2, y, Stone::White).unwrap();
    }
    assert_eq!(model.get_board().count_stones(), (3, 3));
    assert_eq!(model.get_board().count_territories(), (0, 0, 3));
    assert_eq!(model.get_board().calculate_territory_score(), (0, 0, 3));
    assert_eq!(model.calculate_area_score(), (3, 3));
    assert_eq!(model.calculate_territory_score(), (0, 0));
}

#[test]
fn each_region_goes_to_the_colour_around_it() {
    // 5x5: a black wall on column 1 and a white wall on column 3.
    let mut model = Model::make_model(5);
    for y in 0..5 {
        model.setup_add_stone(1, y, Stone::Black).unwrap();
        model.setup_add_stone(3, y, Stone::White).unwrap();
    }
    let board = model.get_board();
    assert_eq!(board.count_territories(), (5, 5, 5));
    let (black, white) = board.calculate_area_score();
    assert_eq!((black, white), (10, 10));
    let (_, _, neutral) = board.count_territories();
    assert_eq!(black + white + neutral, 25);
}

#[test]
fn areas_and_neutral_points_fill_the_board_after_play() {
    let mut model = ko_position();
    model.make_move(2, 1).unwrap();
    model.make_move(3, 3).unwrap();
    let (black, white) = model.calculate_area_score();
    let (_, _, neutral) = model.get_board().count_territories();
    assert_eq!(black + white + neutral, 16);
}

#[test]
fn computer_plays_the_first_empty_point() {
    let mut model = Model::make_model(2);
    assert_eq!(model.make_move_computer(), Ok(()));
    assert_eq!(model.get_last_move(), Some((0, 0)));
    assert_eq!(model.make_move_computer(), Ok(()));
    assert_eq!(model.get_last_move(), Some((0, 1)));
    assert_eq!(model.get_board().get(0, 1), Ok(Point::White));
}

#[test]
fn computer_reports_what_the_move_reports() {
    // The first empty point is (0,0), where White would have no liberty.
    let mut model = Model::make_model(3);
    model.setup_add_stone(1, 0, Stone::Black).unwrap();
    model.setup_add_stone(0, 1, Stone::Black).unwrap();
    model.setup_switch_turn().unwrap();
    assert_eq!(model.make_move_computer(), Err(GoError::Suicide));
    assert_eq!(model.get_move_count(), 0);
}

#[test]
fn computer_finds_no_point_on_a_full_board() {
    let mut model = Model::make_model(2);
    for x in 0..2 {
        for y in 0..2 {
            model.setup_add_stone(x, y, Stone::Black).unwrap();
        }
    }
    assert_eq!(model.make_move_computer(), Err(GoError::BoardFull));
    assert_eq!(model.get_turn(), Turn::Black);
}

#[test]
fn clone_of_a_game_is_independent() {
    let mut model = Model::make_model(3);
    model.make_move(1, 1).unwrap();
    let copy = model.clone();
    model.make_move(0, 0).unwrap();
    assert_eq!(copy.get_move_count(), 1);
    assert_eq!(copy.get_turn(), Turn::White);
    assert_eq!(copy.get_board().get(0, 0), Ok(Point::Empty));
    assert_eq!(copy.get_board().get(1, 1), Ok(Point::Black));
    assert_eq!(model.get_move_count(), 2);
}

#[test]
fn board_knows_its_side() {
    assert_eq!(Board::make_empty_board(1).size(), 1);
    assert_eq!(Board::make_empty_board(19).size(), 19);
}

#[test]
fn history_keeps_the_latest_move_last() {
    let mut history = History::new();
    assert_eq!(history.get_move_count(), 0);
    assert!(history.last().is_none());
    assert!(history.pop().is_none());
    let mut board = Board::make_empty_board(2);
    history.push(HistoryItem::new(board.clone(), 0, 0, Turn::Black, (0, 0)));
    board.set(0, 0, Point::Black).unwrap();
    history.push(HistoryItem::new(board.clone(), 1, 2, Turn::White, (1, 1)));
    assert_eq!(history.get_move_count(), 2);
    let copy = history.clone();
    assert!(history.last().is_some());
    assert!(history.pop().is_some());
    assert_eq!(history.get_move_count(), 1);
    assert!(history.pop().is_some());
    assert!(history.pop().is_none());
    assert_eq!(copy.get_move_count(), 2);
    let latest = copy.in_reverse(0);
    assert!(*latest.board() == board);
    assert_eq!(latest.black_captures(), 1);
    assert_eq!(latest.white_captures(), 2);
    assert_eq!(latest.turn(), Turn::White);
    assert_eq!(latest.gomove(), (1, 1));
    let first = copy.in_reverse(1);
    assert!(*first.board() == Board::make_empty_board(2));
    assert_eq!(first.turn(), Turn::Black);
    assert_eq!(first.gomove(), (0, 0));
    assert_eq!(copy.last().unwrap().gomove(), (1, 1));
}
