//! The states that a game passes through.

use vstd::prelude::*;

verus! {

/// Where a game stands: being played, in its menu, or won.
#[allow(non_camel_case_types)]
#[derive(Debug, Clone, Copy, PartialEq, Eq, Structural)]
pub enum GameState {
    GAME_ACTIVE,
    GAME_MENU,
    GAME_WIN,
}

} // verus!
