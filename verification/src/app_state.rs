//! The coarse mode a game session is in.

use vstd::prelude::*;

verus! {

/// Whether the session sits in the main menu or in play; it starts in
/// the menu.
#[derive(Clone, Copy, Hash, PartialEq, Eq, Structural, Debug)]
pub enum AppState {
    MainMenu,
    InGame,
}

impl Default for AppState {
    fn default() -> (r: AppState)
        ensures
            r == AppState::MainMenu,
    {
        AppState::MainMenu
    }
}

} // verus!
