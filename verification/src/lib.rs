//! Engine library of the clash automation client: JSONC pipeline editing,
//! event bookkeeping, frame-corpus helpers and the session model.

pub mod diff;
pub mod events;
pub mod frames;
pub mod json;
pub mod jsonc;
pub mod pipeline;
pub mod runner;
pub mod scan;
pub mod session;
pub mod text;
pub mod trial;

pub use events::EventBus;
pub use runner::DeviceTarget;

use vstd::prelude::*;

verus! {

/// Width of the one logical coordinate space: the framework matches against
/// a screenshot downscaled to short side 720, and every template and region
/// in the pipeline assets is authored there.
pub const MATCH_WIDTH: u32 = 1280;

/// Height of the logical coordinate space.
pub const MATCH_HEIGHT: u32 = 720;

/// The logical coordinate space, width by height.
pub const MATCH_SIZE: (u32, u32) = (MATCH_WIDTH, MATCH_HEIGHT);

} // verus!
