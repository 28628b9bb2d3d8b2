//! The play-time budget attached to a game of a given size.

use vstd::prelude::*;

verus! {

/// A game's time budget in seconds.
#[derive(Debug, Clone, Copy, PartialEq, Eq, Structural)]
pub struct GameTime(pub u64);

impl GameTime {
    /// One minute per grid row beyond the first, for the supported sizes
    /// 3 through 7; anything else has no defined budget.
    pub fn from_game_size(size: usize) -> (r: Option<GameTime>)
        ensures
            r is Some <==> 3 <= size <= 7,
            r matches Some(t) ==> t.0 == (size - 1) * 60,
    {
        if size < 3 || size > 7 {
            None
        } else {
            Some(GameTime((size as u64 - 1) * 60))
        }
    }
}

impl Default for GameTime {
    /// The budget used when no size-derived one is requested.
    fn default() -> (r: GameTime)
        ensures
            r.0 == 120,
    {
        GameTime(120)
    }
}

} // verus!
