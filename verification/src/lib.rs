//! Monitor affinity resolution.
//!
//! Given a snapshot of the monitors attached to a display and an ordered list
//! of affinities ("primary", "largest", "not-leftmost", ...), the library
//! narrows the snapshot term by term to the monitors that match, orders the
//! survivors by name, and turns a command template into one process
//! description per selected monitor.
//!
//! The functions are verified against contracts stated over the mathematical
//! views of their arguments. Two calls into std that have no model are
//! trusted, and say so where they stand: appending a character to a string,
//! and writing a string as a quoted literal.

pub mod affinity;
pub mod command;
pub mod laws;
pub mod monitor;
pub mod parse;
pub mod resolve;
pub mod sorting;
pub mod text;

pub use affinity::{Affinity, AffinityPair};
pub use command::{Config, ProcessSpec};
pub use monitor::{Monitor, MonitorView};
pub use parse::ParseError;
pub use resolve::get_monitors_for_affinities;
