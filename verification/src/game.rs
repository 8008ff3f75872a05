//! Whether the game runs or shows its menu.

use vstd::prelude::*;

verus! {

/// The two states of the game.
#[derive(Clone, Copy, Debug, PartialEq, Eq, Structural, Hash)]
pub enum GameState {
    Menu,
    InGame,
}

impl Default for GameState {
    /// The game starts running.
    fn default() -> (r: GameState)
        ensures
            r == GameState::InGame,
    {
        GameState::InGame
    }
}

/// Pauses a running game when the escape key goes down.
pub fn pause_game(state: GameState, escape_just_pressed: bool) -> (r: GameState)
    ensures
        r == if state == GameState::InGame && escape_just_pressed {
            GameState::Menu
        } else {
            state
        },
{
    match state {
        GameState::InGame => if escape_just_pressed {
            GameState::Menu
        } else {
            state
        },
        GameState::Menu => state,
    }
}

/// Resumes a paused game when the escape key goes down.
pub fn resume_game(state: GameState, escape_just_pressed: bool) -> (r: GameState)
    ensures
        r == if state == GameState::Menu && escape_just_pressed {
            GameState::InGame
        } else {
            state
        },
{
    match state {
        GameState::Menu => if escape_just_pressed {
            GameState::InGame
        } else {
            state
        },
        GameState::InGame => state,
    }
}

} // verus!
