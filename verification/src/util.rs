//! Small helpers around the tracker.
pub mod libmount_monitor;
pub mod line_count_writer;

pub use libmount_monitor::{Event, EventKind, Timeout};
pub use line_count_writer::LineCountWriter;
