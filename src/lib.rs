//! Time-aligned merging of concurrently tailed log streams.
//!
//! Lines are captured per source with a millisecond timestamp, kept in a
//! registry in registration order, and finally aligned on a fixed-step
//! virtual clock into a report whose cells carry the latest line of each
//! source at or before each step.

mod clock;
pub mod log;
pub mod registry;
pub mod report;

pub use log::{Log, LogLine};
pub use registry::{Event, Flow, IngestError, Registry, RegistryError};
pub use report::{Report, ReportError};
