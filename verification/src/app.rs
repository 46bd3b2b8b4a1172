use vstd::prelude::*;
use crate::app_stage::{AppStage, AppStageStatus};

verus! {

/// The entries of the main menu.
#[derive(Clone, Copy, Debug, PartialEq, Eq, Structural)]
pub enum MainMenuCommand {
    OpenOldGame,
    StartNewGame,
    OpenEditor,
    Exit,
    VisitGithub,
    VisitGamedev,
    VisitTelegram,
    VisitVK,
    VisitMastodon,
    LeaveFeedback,
    Donate,
}

/// The page that a main menu entry opens in the web browser, if any.
pub open spec fn command_url(cmd: MainMenuCommand) -> Option<Seq<char>> {
    match cmd {
        MainMenuCommand::VisitGithub => Some("https://github.com/madwareru/unholy-force"@),
        MainMenuCommand::VisitGamedev => Some("https://gamedev.ru/users/?id=41788"@),
        MainMenuCommand::VisitTelegram => Some("https://t.me/obscure_computer_science"@),
        MainMenuCommand::VisitVK => Some("https://vk.com/madware"@),
        MainMenuCommand::VisitMastodon => Some("https://mastodon.gamedev.place/@madware"@),
        MainMenuCommand::LeaveFeedback => Some(
            "https://github.com/madwareru/unholy-force/issues/new/choose"@,
        ),
        _ => None,
    }
}

/// The stage that a main menu entry leads to: `None` leaves the application,
/// `Some(stage)` goes on with `stage` (the main menu itself for the entries that
/// only open a page or do nothing).
pub open spec fn command_stage(cmd: MainMenuCommand) -> Option<AppStage> {
    match cmd {
        MainMenuCommand::OpenOldGame => Some(AppStage::OldGame),
        MainMenuCommand::StartNewGame => Some(AppStage::Game),
        MainMenuCommand::OpenEditor => Some(AppStage::Editor),
        MainMenuCommand::Exit => None,
        _ => Some(AppStage::MainMenu),
    }
}

/// Law: only the exit entry leaves the application, and every entry that opens a page
/// keeps the main menu.
pub proof fn lemma_only_exit_leaves(cmd: MainMenuCommand)
    ensures
        command_stage(cmd) is None <==> cmd == MainMenuCommand::Exit,
        command_url(cmd) is Some ==> command_stage(cmd) == Some(AppStage::MainMenu),
{
}

impl MainMenuCommand {
    /// The page that this entry opens in the web browser, if any.
    pub fn url(&self) -> (res: Option<&'static str>)
        ensures
            res is Some <==> command_url(*self) is Some,
            res is Some ==> res.unwrap()@ == command_url(*self).unwrap(),
    {
        match self {
            MainMenuCommand::VisitGithub => Some("https://github.com/madwareru/unholy-force"),
            MainMenuCommand::VisitGamedev => Some("https://gamedev.ru/users/?id=41788"),
            MainMenuCommand::VisitTelegram => Some("https://t.me/obscure_computer_science"),
            MainMenuCommand::VisitVK => Some("https://vk.com/madware"),
            MainMenuCommand::VisitMastodon => Some("https://mastodon.gamedev.place/@madware"),
            MainMenuCommand::LeaveFeedback => Some(
                "https://github.com/madwareru/unholy-force/issues/new/choose",
            ),
            _ => None,
        }
    }
}

/// The application: which stage it is in.
pub struct App {
    app_stage: AppStage,
}

impl App {
    /// The stage the application is in.
    pub closed spec fn stage(&self) -> AppStage {
        self.app_stage
    }

    /// The application starts in the main menu.
    pub fn new() -> (res: Self)
        ensures
            res.stage() == AppStage::MainMenu,
    {
        App { app_stage: AppStage::MainMenu }
    }

    /// The stage the application is in.
    pub fn current_stage(&self) -> (res: AppStage)
        ensures
            res == self.stage(),
    {
        self.app_stage
    }

    /// The stage to draw this frame; only the main menu can be drawn.
    pub fn render(&self) -> (res: AppStage)
        requires
            self.stage() == AppStage::MainMenu,
        ensures
            res == AppStage::MainMenu,
    {
        self.app_stage
    }

    /// The stage that follows the main menu's status of this frame: `None` leaves the
    /// application.
    fn process_main_menu(&self, menu_status: AppStageStatus<MainMenuCommand>) -> (res: Option<
        AppStage,
    >)
        ensures
            res == match menu_status {
                AppStageStatus::Continue => Some(self.stage()),
                AppStageStatus::Complete(cmd) => match command_stage(cmd) {
                    Some(AppStage::MainMenu) => Some(self.stage()),
                    other => other,
                },
            },
    {
        match menu_status {
            AppStageStatus::Continue => {},
            AppStageStatus::Complete(command) => {
                match command {
                    MainMenuCommand::OpenOldGame => {
                        return Some(AppStage::OldGame);
                    },
                    MainMenuCommand::StartNewGame => {
                        return Some(AppStage::Game);
                    },
                    MainMenuCommand::OpenEditor => {
                        return Some(AppStage::Editor);
                    },
                    MainMenuCommand::Exit => {
                        return None;
                    },
                    _ => {},
                }
            },
        }
        Some(self.app_stage)
    }

    /// Processes one frame of the main menu, given the menu's status: moves to the chosen
    /// stage, or completes when the menu asks to leave. The pages that menu entries open
    /// are given by [`MainMenuCommand::url`].
    pub fn process(&mut self, menu_status: AppStageStatus<MainMenuCommand>) -> (res:
        AppStageStatus<()>)
        requires
            old(self).stage() == AppStage::MainMenu,
        ensures
            match menu_status {
                AppStageStatus::Complete(cmd) => match command_stage(cmd) {
                    None => res == AppStageStatus::<()>::Complete(()) && final(self).stage()
                        == old(self).stage(),
                    Some(stage) => res == AppStageStatus::<()>::Continue && final(self).stage()
                        == stage,
                },
                AppStageStatus::Continue => res == AppStageStatus::<()>::Continue
                    && final(self).stage() == old(self).stage(),
            },
    {
        match self.app_stage {
            AppStage::MainMenu => {
                match self.process_main_menu(menu_status) {
                    Some(result_stage) => {
                        self.app_stage = result_stage;
                    },
                    None => {
                        return AppStageStatus::Complete(());
                    },
                }
            },
            _ => {},
        }
        AppStageStatus::Continue
    }
}

} // verus!
