//! Media control actions a caller can ask the remote player to perform.

use vstd::prelude::*;

verus! {

/// One media control action.  The surrounding application carries it to the
/// remote player and performs it there.
#[derive(Debug, Clone)]
pub enum MediaAction {
    /// Toggle between playing and paused.
    PlayPause,
    /// Skip to the next track.
    Next,
    /// Return to the previous track.
    Previous,
    /// Set the player volume.
    SetVolume(i32),
    /// Switch to another player on the device.
    SelectPlayer(String),
}

} // verus!
