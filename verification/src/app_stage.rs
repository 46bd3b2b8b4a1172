use vstd::prelude::*;

verus! {

/// What a stage of the application tells after one step.
#[derive(Clone, Copy, Debug, PartialEq, Eq, Structural)]
pub enum AppStageStatus<R> {
    /// The stage goes on.
    Continue,
    /// The stage is over, with a result.
    Complete(R),
}

/// The stages the application moves between.
#[derive(Clone, Copy, Debug, PartialEq, Eq, Structural)]
pub enum AppStage {
    MainMenu,
    Game,
    OldGame,
    Editor,
}

/// One stage of the application: it is processed, then drawn, once per frame.
pub trait AppStageLogic {
    type R;

    fn process(&mut self) -> AppStageStatus<Self::R>;

    fn render(&mut self);
}

} // verus!
