//! Find which layers of a container image change the output of a fixed
//! command.
//!
//! The crate generalizes binary search from finding a single transition
//! point to finding all transition points in an ordered sequence of layers
//! whose probe output is assumed to be piecewise-constant: the engine probes
//! the two extreme layers first, and when they disagree it recursively
//! bisects the interior, pruning every sub-range whose two bracketing
//! outputs already agree.
//!
//! Running the command against one materialized layer is abstracted as a
//! [`ContainerAction`]: a deterministic probe from an image name to the
//! observed output. The engine itself performs no I/O.

pub mod engine;
pub mod history;
pub mod laws;
pub mod model;
pub mod trunc;

pub use engine::bisect;
pub use engine::find_transitions;
pub use engine::get_changes;
pub use engine::BisectError;
pub use engine::ContainerAction;
pub use engine::Layer;
pub use engine::LayerResult;
pub use engine::Transition;
pub use history::usable_layers;
pub use history::BisectOptions;
pub use history::HistoryEntry;
pub use trunc::truncate;
