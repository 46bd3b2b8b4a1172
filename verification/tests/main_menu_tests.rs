use unholy_force::app::MainMenuCommand;
use unholy_force::app_stage::AppStageStatus;
use unholy_force::main_menu::{button_hitbox, check_condition, menu_status, tile_position, ButtonState, MenuButton};

#[test]
fn hitbox_leaves_out_the_border_tiles() {
    assert_eq!(tile_position([2, 3], [8, 8]), (16, 24));
    assert_eq!(button_hitbox([2, 3], [5, 3], [8, 8]), ((24, 32), (48, 40)));
    assert_eq!(button_hitbox([0, 0], [1, 1], [16, 16]), ((16, 16), (0, 0)));
}

#[test]
fn button_conditions() {
    assert!(check_condition("save_exists", true));
    assert!(!check_condition("save_exists", false));
    assert!(!check_condition("donate_active", true));
    assert!(!check_condition("anything", true));
}

#[test]
fn button_states() {
    assert_eq!(ButtonState::of(true, true), ButtonState::Clicked);
    assert_eq!(ButtonState::of(true, false), ButtonState::Hover);
    assert_eq!(ButtonState::of(false, true), ButtonState::Idle);
    assert_eq!(ButtonState::Clicked.key(), "clicked");
    assert_eq!(ButtonState::Hover.key(), "hover");
    assert_eq!(ButtonState::Idle.key(), "idle");
}

#[test]
fn release_clicks_the_first_shown_button_under_the_mouse() {
    let buttons = vec![
        MenuButton { command: MainMenuCommand::OpenOldGame, shown: false, hovered: true },
        MenuButton { command: MainMenuCommand::OpenEditor, shown: true, hovered: false },
        MenuButton { command: MainMenuCommand::Exit, shown: true, hovered: true },
        MenuButton { command: MainMenuCommand::Donate, shown: true, hovered: true },
    ];
    assert_eq!(menu_status(true, &buttons), AppStageStatus::Complete(MainMenuCommand::Exit));
    assert_eq!(menu_status(false, &buttons), AppStageStatus::Continue);
    assert_eq!(menu_status(true, &buttons[..2].to_vec()), AppStageStatus::Continue);
    assert_eq!(menu_status(true, &Vec::new()), AppStageStatus::Continue);
}
