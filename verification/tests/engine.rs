use minesweeper::cell::{Cell, CellDisplay};
use minesweeper::game::{ConfigError, GameState};
use minesweeper::session::MinesweeperApp;

fn blank_cell() -> Cell {
    Cell { is_mine: false, is_flagged: false, is_revealed: false, adjacent_mines: 0 }
}

fn build_board(width: usize, height: usize, mines: &[(usize, usize)]) -> GameState {
    let mut grid = Vec::new();
    for _ in 0..width * height {
        grid.push(blank_cell());
    }
    for &(x, y) in mines {
        grid[y * width + x].is_mine = true;
    }
    for y in 0..height {
        for x in 0..width {
            let adj = GameState::count_adjacent_mines(&grid, x, y, width, height);
            grid[y * width + x].adjacent_mines = adj;
        }
    }
    GameState {
        grid,
        game_over: false,
        game_won: false,
        width,
        height,
        mines_count: mines.len(),
        mines_left: mines.len() as i32,
    }
}

fn app_with_board(gs: GameState) -> MinesweeperApp {
    MinesweeperApp { score: 0, difficulty: 2, game_state: gs }
}

#[test]
fn new_board_is_well_formed() {
    let gs = GameState::new(9, 9, 10);
    assert!(gs.is_well_formed());
    assert_eq!(gs.width, 9);
    assert_eq!(gs.height, 9);
    assert_eq!(gs.mines_count, 10);
    assert_eq!(gs.mines_left, 10);
    assert!(!gs.game_over);
    assert!(!gs.game_won);
    let mines = gs.grid.iter().filter(|c| c.is_mine).count();
    assert_eq!(mines, 10);
    for c in &gs.grid {
        assert!(!c.is_revealed);
        assert!(!c.is_flagged);
    }
    for y in 0..9 {
        for x in 0..9 {
            let expected = GameState::count_adjacent_mines(&gs.grid, x, y, 9, 9);
            assert_eq!(gs.grid[y * 9 + x].adjacent_mines, expected);
        }
    }
}

#[test]
fn new_board_places_exact_mine_count_even_when_almost_full() {
    let gs = GameState::new(2, 1, 1);
    assert!(gs.is_well_formed());
    let mines = gs.grid.iter().filter(|c| c.is_mine).count();
    assert_eq!(mines, 1);
}

#[test]
fn try_new_rejects_impossible_configurations() {
    assert_eq!(GameState::try_new(3, 3, 9).unwrap_err(), ConfigError::InvalidConfiguration);
    assert_eq!(GameState::try_new(0, 0, 0).unwrap_err(), ConfigError::InvalidConfiguration);
    assert_eq!(GameState::try_new(5, 0, 0).unwrap_err(), ConfigError::InvalidConfiguration);
    let gs = GameState::try_new(3, 3, 8).unwrap();
    assert!(gs.is_well_formed());
    assert_eq!(gs.mines_count, 8);
}

#[test]
fn three_by_three_single_center_mine_adjacency() {
    let gs = build_board(3, 3, &[(1, 1)]);
    assert!(gs.is_well_formed());
    for y in 0..3 {
        for x in 0..3 {
            if (x, y) == (1, 1) {
                assert!(gs.grid[y * 3 + x].is_mine);
            } else {
                assert!(!gs.grid[y * 3 + x].is_mine);
                assert_eq!(gs.grid[y * 3 + x].adjacent_mines, 1);
            }
        }
    }
}

#[test]
fn corner_click_next_to_mine_reveals_exactly_one_cell() {
    let mut gs = build_board(3, 3, &[(1, 1)]);
    gs.reveal_cell(0, 0, true);
    assert!(gs.grid[0].is_revealed);
    assert_eq!(gs.count_revealed_cells(), 1);
    assert!(!gs.game_over);
}

#[test]
fn reveal_is_idempotent() {
    let mut gs = build_board(3, 3, &[(1, 1)]);
    gs.reveal_cell(0, 0, true);
    let once = gs.clone();
    gs.reveal_cell(0, 0, true);
    assert_eq!(gs, once);
}

#[test]
fn flood_fill_reveals_zero_region_and_border_but_no_mine() {
    let mut gs = build_board(5, 5, &[(4, 4)]);
    gs.reveal_cell(0, 0, true);
    for y in 0..5 {
        for x in 0..5 {
            if (x, y) == (4, 4) {
                assert!(!gs.grid[y * 5 + x].is_revealed);
            } else {
                assert!(gs.grid[y * 5 + x].is_revealed);
            }
        }
    }
    assert!(!gs.game_over);
    assert!(gs.is_well_formed());
}

#[test]
fn clicking_a_mine_loses_and_freezes_the_game() {
    let mut app = app_with_board(build_board(3, 3, &[(1, 1)]));
    app.click(1, 1);
    assert!(app.game_state.game_over);
    assert!(app.game_state.grid[4].is_revealed);
    assert_eq!(app.score, 0);
    let frozen = app.clone();
    app.click(0, 0);
    assert_eq!(app, frozen);
    app.game_state.toggle_flag(0, 0);
    assert_eq!(app, frozen);
}

#[test]
fn indirect_reveal_of_a_mine_does_not_lose() {
    let mut gs = build_board(3, 3, &[(1, 1)]);
    gs.reveal_cell(1, 1, false);
    assert!(gs.grid[4].is_revealed);
    assert!(!gs.game_over);
}

#[test]
fn revealing_all_safe_cells_wins_and_scores_once() {
    let mut app = app_with_board(build_board(5, 5, &[(4, 4)]));
    app.click(0, 0);
    assert!(app.game_state.game_won);
    assert!(!app.game_state.game_over);
    assert_eq!(app.score, 1);
    app.click(0, 0);
    assert_eq!(app.score, 1);
    app.check_win();
    assert_eq!(app.score, 1);
    assert!(app.game_state.game_won);
}

#[test]
fn flagging_moves_the_counter_both_ways() {
    let mut gs = build_board(3, 3, &[(1, 1)]);
    assert_eq!(gs.mines_left, 1);
    gs.toggle_flag(0, 0);
    assert!(gs.grid[0].is_flagged);
    assert_eq!(gs.mines_left, 0);
    gs.toggle_flag(0, 0);
    assert!(!gs.grid[0].is_flagged);
    assert_eq!(gs.mines_left, 1);
}

#[test]
fn over_flagging_drives_the_counter_negative() {
    let mut gs = build_board(3, 3, &[(1, 1)]);
    gs.toggle_flag(0, 0);
    gs.toggle_flag(1, 0);
    assert_eq!(gs.mines_left, -1);
}

#[test]
fn revealing_a_flagged_cell_restores_the_counter_and_keeps_the_flag_bit() {
    let mut gs = build_board(3, 3, &[(1, 1)]);
    gs.toggle_flag(0, 0);
    assert_eq!(gs.mines_left, 0);
    gs.reveal_cell(0, 0, true);
    assert!(gs.grid[0].is_revealed);
    assert!(gs.grid[0].is_flagged);
    assert_eq!(gs.mines_left, 1);
}

#[test]
fn flag_on_revealed_cell_is_a_no_op() {
    let mut gs = build_board(3, 3, &[(1, 1)]);
    gs.reveal_cell(0, 0, true);
    let before = gs.clone();
    gs.toggle_flag(0, 0);
    assert_eq!(gs, before);
}

#[test]
fn switching_difficulty_discards_the_board_and_keeps_the_score() {
    let mut app = MinesweeperApp::default();
    assert_eq!(app.difficulty, 2);
    assert_eq!(app.game_state.width, 40);
    assert_eq!(app.game_state.height, 16);
    assert_eq!(app.game_state.mines_count, 99);
    app.score = 5;
    app.game_state.reveal_cell(0, 0, true);
    app.easy();
    assert_eq!(app.difficulty, 0);
    assert_eq!(app.score, 5);
    assert_eq!(app.game_state.width, 9);
    assert_eq!(app.game_state.height, 9);
    assert_eq!(app.game_state.mines_count, 10);
    assert_eq!(app.game_state.mines_left, 10);
    assert!(!app.game_state.game_over);
    assert!(!app.game_state.game_won);
    assert!(app.game_state.grid.iter().all(|c| !c.is_revealed && !c.is_flagged));
    app.medium();
    assert_eq!(app.difficulty, 1);
    assert_eq!((app.game_state.width, app.game_state.height, app.game_state.mines_count), (16, 16, 40));
    app.hard();
    assert_eq!(app.difficulty, 2);
    assert_eq!((app.game_state.width, app.game_state.height, app.game_state.mines_count), (40, 16, 99));
    assert_eq!(app.score, 5);
}

#[test]
fn restart_rebuilds_a_fresh_board_with_the_same_preset() {
    let mut app = app_with_board(build_board(3, 3, &[(1, 1)]));
    app.score = 3;
    app.click(0, 0);
    assert!(app.restart().is_ok());
    assert_eq!(app.score, 3);
    assert_eq!(app.game_state.width, 3);
    assert_eq!(app.game_state.height, 3);
    assert_eq!(app.game_state.mines_count, 1);
    assert!(!app.game_state.game_over);
    assert!(!app.game_state.game_won);
    assert!(app.game_state.grid.iter().all(|c| !c.is_revealed && !c.is_flagged));
}

#[test]
fn restart_of_an_empty_state_is_rejected() {
    let mut app = MinesweeperApp { score: 2, difficulty: 2, game_state: GameState::default() };
    let before = app.game_state.clone();
    assert_eq!(app.restart().unwrap_err(), ConfigError::InvalidConfiguration);
    assert_eq!(app.game_state, before);
    assert_eq!(app.score, 2);
}

#[test]
fn reset_score_clears_only_the_score() {
    let mut app = app_with_board(build_board(3, 3, &[(1, 1)]));
    app.score = 7;
    let board = app.game_state.clone();
    app.reset_score();
    assert_eq!(app.score, 0);
    assert_eq!(app.game_state, board);
}

#[test]
fn cell_display_reports_all_four_states() {
    let mut gs = build_board(3, 3, &[(1, 1)]);
    assert_eq!(gs.cell_display(0, 0), CellDisplay::HiddenUnflagged);
    gs.toggle_flag(0, 0);
    assert_eq!(gs.cell_display(0, 0), CellDisplay::HiddenFlagged);
    gs.reveal_cell(2, 2, true);
    assert_eq!(gs.cell_display(2, 2), CellDisplay::RevealedNumber(1));
    gs.reveal_cell(1, 1, false);
    assert_eq!(gs.cell_display(1, 1), CellDisplay::RevealedMine);
}

#[test]
fn default_cell_is_blank() {
    let c = Cell::default();
    assert_eq!(c, blank_cell());
}

#[test]
fn default_game_state_is_empty_and_valid() {
    let gs = GameState::default();
    assert!(gs.is_well_formed());
    assert_eq!(gs.width, 0);
    assert_eq!(gs.height, 0);
    assert_eq!(gs.mines_count, 0);
    assert_eq!(gs.mines_left, 0);
    assert!(gs.grid.is_empty());
}

#[test]
fn validation_rejects_corrupted_snapshots() {
    let mut wrong_adjacency = build_board(3, 3, &[(1, 1)]);
    wrong_adjacency.grid[0].adjacent_mines = 5;
    assert!(!wrong_adjacency.is_well_formed());

    let mut wrong_mine_total = build_board(3, 3, &[(1, 1)]);
    wrong_mine_total.mines_count = 2;
    assert!(!wrong_mine_total.is_well_formed());

    let mut wrong_counter = build_board(3, 3, &[(1, 1)]);
    wrong_counter.mines_left = 9;
    assert!(!wrong_counter.is_well_formed());

    let mut wrong_len = build_board(3, 3, &[(1, 1)]);
    wrong_len.grid.pop();
    assert!(!wrong_len.is_well_formed());

    let mut half_cascade = build_board(5, 5, &[(4, 4)]);
    half_cascade.grid[0].is_revealed = true;
    assert!(!half_cascade.is_well_formed());

    let mut finished_cascade = build_board(5, 5, &[(4, 4)]);
    finished_cascade.reveal_cell(0, 0, true);
    assert!(finished_cascade.is_well_formed());
}

#[test]
fn flood_fill_stays_inside_its_own_region() {
    // a 7 by 1 strip with a mine in the middle has two separate
    // zero-adjacency regions; a click in one must not touch the other
    let mut gs = build_board(7, 1, &[(3, 0)]);
    gs.reveal_cell(0, 0, true);
    assert!(gs.grid[0].is_revealed);
    assert!(gs.grid[1].is_revealed);
    assert!(gs.grid[2].is_revealed);
    assert!(!gs.grid[3].is_revealed);
    assert!(!gs.grid[4].is_revealed);
    assert!(!gs.grid[5].is_revealed);
    assert!(!gs.grid[6].is_revealed);
    assert_eq!(gs.count_revealed_cells(), 3);
}

#[test]
fn win_without_any_cascade() {
    let mut app = app_with_board(build_board(2, 1, &[(1, 0)]));
    app.click(0, 0);
    assert!(app.game_state.game_won);
    assert!(!app.game_state.game_over);
    assert_eq!(app.score, 1);
}

#[test]
fn cascade_reveals_flagged_cells_and_restores_their_counter_share() {
    let mut gs = build_board(5, 5, &[(4, 4)]);
    gs.toggle_flag(2, 2);
    assert_eq!(gs.mines_left, 0);
    gs.reveal_cell(0, 0, true);
    assert!(gs.grid[2 * 5 + 2].is_revealed);
    assert!(gs.grid[2 * 5 + 2].is_flagged);
    assert_eq!(gs.mines_left, 1);
}
