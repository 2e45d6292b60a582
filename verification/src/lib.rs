//! Local file-management core of a desktop game-modification manager.
//!
//! The core tracks per-game mod state and installs mod packages by
//! extracting archives into a managed directory tree.  All tree mutation,
//! status-record merging and archive-entry confinement logic is verified
//! against an in-memory model of the managed directory tree; the host
//! shell mirrors the model operations onto the real disk.

use vstd::prelude::*;

pub mod archive;
pub mod clock;
pub mod digest;
pub mod errors;
pub mod text;
pub mod locate;
pub mod status;
pub mod tree;

verus! {

} // verus!
