use peg_solitaire::game::{
    AutomatedGame, ClickOutcome, Game, GameManager, GameMode, GameRecorder, ManualGame, MoveRecord,
};
use peg_solitaire::grid::{Cell, Grid};

fn pegs(cells: &[Cell]) -> usize {
    cells.iter().filter(|c| c.has_peg).count()
}

#[test]
fn recorder_starts_off_and_empty() {
    let recorder = GameRecorder::new();
    assert!(!recorder.enabled);
    assert!(recorder.moves.is_empty());
    assert_eq!(recorder.export_to_string(), "");
}

#[test]
fn recorder_off_records_nothing() {
    let mut recorder = GameRecorder::new();
    recorder.record((1, 3), (3, 3));
    assert!(recorder.moves.is_empty());
}

#[test]
fn recorder_numbers_moves_from_one() {
    let mut recorder = GameRecorder::new();
    recorder.enabled = true;
    recorder.record((1, 3), (3, 3));
    recorder.record((4, 3), (2, 3));
    assert_eq!(recorder.moves.len(), 2);
    assert_eq!(recorder.moves[0].move_number, 1);
    assert_eq!(recorder.moves[1].move_number, 2);
    assert_eq!(recorder.moves[1].start, (4, 3));
    assert_eq!(recorder.moves[1].end, (2, 3));
    recorder.clear();
    assert!(recorder.moves.is_empty());
    assert!(recorder.enabled);
    recorder.record((0, 0), (0, 2));
    assert_eq!(recorder.moves[0].move_number, 1);
}

#[test]
fn recording_as_text() {
    let mut recorder = GameRecorder::new();
    recorder.enabled = true;
    recorder.record((1, 3), (3, 3));
    assert_eq!(recorder.export_to_string(), "(1, (1, 3), (3, 3))");
    recorder.moves.push(MoveRecord { move_number: 4294967295, start: (-5, 0), end: (i32::MAX, i32::MIN) });
    assert_eq!(
        recorder.export_to_string(),
        "(1, (1, 3), (3, 3))\n(4294967295, (-5, 0), (2147483647, -2147483648))"
    );
}

#[test]
fn manual_game_starts_fresh() {
    let game = ManualGame::new(7);
    assert_eq!(game.get_board_size(), 7);
    assert_eq!(game.get_grid().cells.len(), 33);
    assert!(game.selected_start.is_none() && game.selected_end.is_none());
    assert!(!game.is_game_over());
}

#[test]
fn manual_game_move_clears_the_picks() {
    let mut game = ManualGame::new(7);
    game.selected_start = Some((3, 1));
    game.selected_end = Some((3, 3));
    game.make_move((3, 1), (3, 3));
    assert!(game.selected_start.is_none() && game.selected_end.is_none());
    assert_eq!(pegs(&game.get_grid().cells), 31);
}

#[test]
fn manual_game_reset_and_grid_mut() {
    let mut game = ManualGame::new(7);
    game.get_grid_mut().cells.clear();
    assert!(game.get_grid().cells.is_empty());
    game.selected_start = Some((0, 0));
    game.reset();
    assert_eq!(game.get_grid().cells.len(), 33);
    assert!(game.selected_start.is_none());
}

#[test]
fn clicks_make_a_move() {
    let mut game = ManualGame::new(7);
    assert_eq!(game.click_cell(0, 0), ClickOutcome::Ignored);
    assert_eq!(game.click_cell(3, 3), ClickOutcome::Ignored);
    assert_eq!(game.click_cell(3, 1), ClickOutcome::StartSelected);
    assert_eq!(game.selected_start, Some((3, 1)));
    assert_eq!(game.click_cell(3, 3), ClickOutcome::Moved { game_over: false });
    assert!(game.selected_start.is_none() && game.selected_end.is_none());
    assert!(game.get_grid().get_cell(3, 3).unwrap().has_peg);
    assert!(!game.get_grid().get_cell(3, 2).unwrap().has_peg);
    assert!(!game.get_grid().get_cell(3, 1).unwrap().has_peg);
}

#[test]
fn clicks_on_a_refused_move_drop_the_picks() {
    let mut game = ManualGame::new(7);
    assert_eq!(game.click_cell(3, 0), ClickOutcome::StartSelected);
    assert_eq!(game.click_cell(3, 3), ClickOutcome::Rejected);
    assert!(game.selected_start.is_none() && game.selected_end.is_none());
    assert_eq!(pegs(&game.get_grid().cells), 32);
}

#[test]
fn click_with_a_missing_start_keeps_both_picks() {
    let mut game = ManualGame::new(7);
    game.selected_start = Some((0, 0));
    assert_eq!(game.click_cell(3, 3), ClickOutcome::EndSelected);
    assert_eq!(game.selected_start, Some((0, 0)));
    assert_eq!(game.selected_end, Some((3, 3)));
    assert_eq!(game.click_cell(3, 1), ClickOutcome::Ignored);
}

#[test]
fn last_move_ends_the_game() {
    let mut game = ManualGame {
        grid: Grid {
            cells: vec![
                Cell { x: 0, y: 0, has_peg: true },
                Cell { x: 1, y: 0, has_peg: true },
                Cell { x: 2, y: 0, has_peg: false },
            ],
        },
        board_size: 3,
        selected_start: None,
        selected_end: None,
    };
    assert_eq!(game.click_cell(0, 0), ClickOutcome::StartSelected);
    assert_eq!(game.click_cell(2, 0), ClickOutcome::Moved { game_over: true });
    assert!(game.is_game_over());
    assert_eq!(pegs(&game.get_grid().cells), 1);
}

#[test]
fn automated_game_makes_a_listed_move() {
    let mut game = AutomatedGame::new(7);
    let open = game.grid.get_all_valid_moves();
    assert!(game.make_auto_move());
    assert_eq!(pegs(&game.grid.cells), 31);
    assert!(game.grid.get_cell(3, 3).unwrap().has_peg);
    let made = open
        .iter()
        .filter(|(start, _)| !game.grid.get_cell(start.0, start.1).unwrap().has_peg)
        .count();
    assert_eq!(made, 1);
}

#[test]
fn automated_game_plays_until_no_move_is_left() {
    let mut game = AutomatedGame::new(7);
    let mut moves = 0;
    while game.make_auto_move() {
        moves += 1;
        assert_eq!(pegs(&game.grid.cells), 32 - moves);
    }
    assert!(game.is_game_over());
    assert!(!game.make_auto_move());
    assert_eq!(pegs(&game.grid.cells), 32 - moves);
}

#[test]
fn automated_game_randomize_and_reset() {
    let mut game = AutomatedGame::new(7);
    game.randomize();
    assert_eq!(pegs(&game.get_grid().cells), 32);
    assert_eq!(game.get_board_size(), 7);
    game.board_size = 5;
    game.reset();
    assert_eq!(game.get_grid().cells.len(), 21);
    assert_eq!(pegs(&game.get_grid().cells), 20);
}

#[test]
fn manager_manual_game() {
    let mut manager = GameManager::new_manual(7);
    assert_eq!(manager.board_size(), 7);
    assert!(matches!(manager.as_game(), GameMode::Manual(_)));
    manager.recorder.enabled = true;
    manager.make_move((3, 1), (3, 3));
    assert_eq!(manager.recorder.moves.len(), 1);
    assert_eq!(manager.recorder.export_to_string(), "(1, (3, 1), (3, 3))");
    assert_eq!(pegs(&manager.as_game().get_grid().cells), 31);
    // a game played by hand makes no automatic move
    assert!(!manager.make_auto_move());
    assert_eq!(manager.recorder.moves.len(), 1);
    manager.reset();
    assert!(manager.recorder.moves.is_empty());
    assert_eq!(pegs(&manager.as_game().get_grid().cells), 32);
}

#[test]
fn manager_automated_game_records_auto_moves() {
    let mut manager = GameManager::new_automated(7);
    assert!(matches!(manager.as_game(), GameMode::Automated(_)));
    manager.recorder.enabled = true;
    assert!(manager.make_auto_move());
    assert_eq!(manager.recorder.moves.len(), 1);
    assert_eq!(manager.recorder.moves[0].end, (3, 3));
    assert_eq!(pegs(&manager.as_game().get_grid().cells), 31);
}

#[test]
fn manager_board_size_then_reset() {
    let mut manager = GameManager::new_manual(7);
    manager.set_board_size(9);
    assert_eq!(manager.board_size(), 9);
    assert_eq!(manager.as_game().get_grid().cells.len(), 33);
    manager.as_game_mut().reset();
    assert_eq!(manager.as_game().get_grid().cells.len(), 45);
    assert_eq!(manager.as_game().get_board_size(), 9);
}

#[test]
fn manager_game_through_the_trait() {
    let mut manager = GameManager::new_automated(5);
    assert!(!manager.as_game().is_game_over());
    manager.as_game_mut().make_move((2, 0), (2, 2));
    assert_eq!(pegs(&manager.as_game().get_grid().cells), 19);
    manager.as_game_mut().randomize();
    assert_eq!(pegs(&manager.as_game().get_grid().cells), 19);
    let fresh: GameMode = Game::new(3);
    assert!(matches!(fresh, GameMode::Manual(_)));
}
