//! What can go wrong in one run.

use vstd::prelude::*;

verus! {

/// The ways a run fails.
#[derive(Debug, PartialEq, Eq, Structural)]
pub enum WallpaperError {
    /// No wallpaper directory has been configured yet.
    ConfigurationMissing,
    /// The wallpaper directory could not be listed.
    DirectoryUnreadable,
    /// The wallpaper directory holds no candidate image.
    NoCandidates,
    /// The desktop refused the new wallpaper; holds the exit code of the
    /// command, where it had one.
    ApplyFailed(Option<i32>),
}

} // verus!
