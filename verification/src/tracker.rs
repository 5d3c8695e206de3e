//! Tracking-pass modes.

use vstd::prelude::*;

verus! {

/// How hard one tracking pass searches.
#[derive(Clone, Copy, Debug, PartialEq, Eq, Structural)]
pub enum TrackMode {
    /// The usual pass: tight coarse search around the predicted pose.
    Normal,
    /// One wider coarse search after a failed normal pass.
    Recovery,
}

impl TrackMode {
    /// The pass to try after this one failed: a normal pass falls back to a
    /// single recovery pass, and a failed recovery pass means the marker is
    /// lost.
    pub fn fallback(self) -> (next: Option<TrackMode>)
        ensures
            next == (match self {
                TrackMode::Normal => Some(TrackMode::Recovery),
                TrackMode::Recovery => None::<TrackMode>,
            }),
    {
        match self {
            TrackMode::Normal => Some(TrackMode::Recovery),
            TrackMode::Recovery => None,
        }
    }
}

} // verus!
