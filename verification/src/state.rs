use vstd::prelude::*;

verus! {

/// The screens of the surrounding application's session: plain data that the
/// application moves between as the user navigates menus. The transitions
/// themselves are driven by input handling and so live with the application.
#[derive(Clone, PartialEq)]
pub enum GameState {
    MainMenu,
    NewGameEnterWidth(NewGameState),
    NewGameEnterHeight(NewGameState),
    NewGameEnterName(NewGameState),
    LoadGame,
    Playing,
}

/// Partially typed form data collected while setting up a new maze.
#[derive(Clone, PartialEq)]
pub struct NewGameState {
    pub width_input: String,
    pub height_input: String,
    pub name_input: String,
}

} // verus!
