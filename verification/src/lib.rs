//! The reduction of a process-table snapshot to the rows a process viewer shows:
//! records are filtered by name, collapsed to one representative per name,
//! given their usage figures and ordered by the chosen figure.
//!
//! All percentages are fixed-point integers, so that every rule of the reduction
//! is stated and proved over exact arithmetic.

pub mod coalesce;
pub mod controller;
pub mod ranking;
pub mod record;
pub mod reducer;
pub mod session;
pub mod snapshot;
pub mod text;
pub mod usage;

pub use controller::{kill_process, KillDecision};
pub use record::{ProcessInfo, RawProcessRecord, SortKey};
pub use reducer::{get_processes, reduce};
pub use snapshot::Snapshot;
