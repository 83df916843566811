//! The screens of the game, and the rules of the player's turn.
use vstd::prelude::*;

pub mod game;

verus! {

/// The screens of the game, one of which is running at any time.
pub enum GameState {
    Game,
    GameOver,
    MainMenu,
}

/// What a screen asks for when it ends.
pub enum StateChange {
    Replace(GameState),
    Quit,
}

} // verus!
