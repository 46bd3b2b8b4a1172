use unholy_force::app::{App, MainMenuCommand};
use unholy_force::app_stage::{AppStage, AppStageStatus};
use unholy_force::errors::GameError;

#[test]
fn app_starts_in_main_menu() {
    let app = App::new();
    assert_eq!(app.current_stage(), AppStage::MainMenu);
    assert_eq!(app.render(), AppStage::MainMenu);
}

#[test]
fn main_menu_moves_to_chosen_stage() {
    let mut app = App::new();
    assert_eq!(app.process(AppStageStatus::Complete(MainMenuCommand::OpenEditor)), AppStageStatus::Continue);
    assert_eq!(app.current_stage(), AppStage::Editor);

    let mut app = App::new();
    assert_eq!(app.process(AppStageStatus::Complete(MainMenuCommand::StartNewGame)), AppStageStatus::Continue);
    assert_eq!(app.current_stage(), AppStage::Game);

    let mut app = App::new();
    app.process(AppStageStatus::Complete(MainMenuCommand::OpenOldGame));
    assert_eq!(app.current_stage(), AppStage::OldGame);
}

#[test]
fn main_menu_exit_completes() {
    let mut app = App::new();
    assert_eq!(app.process(AppStageStatus::Complete(MainMenuCommand::Exit)), AppStageStatus::Complete(()));
    assert_eq!(app.current_stage(), AppStage::MainMenu);
}

#[test]
fn main_menu_links_stay_in_menu() {
    let mut app = App::new();
    assert_eq!(app.process(AppStageStatus::Continue), AppStageStatus::Continue);
    assert_eq!(app.process(AppStageStatus::Complete(MainMenuCommand::VisitGithub)), AppStageStatus::Continue);
    assert_eq!(app.process(AppStageStatus::Complete(MainMenuCommand::Donate)), AppStageStatus::Continue);
    assert_eq!(app.current_stage(), AppStage::MainMenu);
}

#[test]
fn main_menu_urls() {
    assert_eq!(MainMenuCommand::VisitGithub.url(), Some("https://github.com/madwareru/unholy-force"));
    assert_eq!(MainMenuCommand::VisitTelegram.url(), Some("https://t.me/obscure_computer_science"));
    assert_eq!(
        MainMenuCommand::LeaveFeedback.url(),
        Some("https://github.com/madwareru/unholy-force/issues/new/choose")
    );
    assert_eq!(MainMenuCommand::Donate.url(), None);
    assert_eq!(MainMenuCommand::Exit.url(), None);
}

#[test]
fn game_error_message() {
    assert_eq!(GameError::Unknown.message(), "unknown game error");
}
