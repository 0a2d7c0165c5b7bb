//! A live model of the network namespaces of a Linux host.
//!
//! The crate holds the decision logic of a namespace tracker: the inventory of
//! namespaces and of the processes that inhabit them, the differ that turns
//! mount-table rescans into per-mountpoint changes, the decoding of the records
//! that the event sources deliver, and the search that maps a freshly assigned
//! namespace id to the namespace that carries it.  Every function states what it
//! computes over mathematical views of its arguments.
pub mod id_search;
pub mod invariants;
pub mod inventory;
pub mod mount_monitor;
pub mod net_device;
pub mod netns;
pub mod netns_tracker;
pub mod nsid_monitor;
pub mod paths;
pub mod procfs;
pub mod rescan_laws;
pub mod search;
pub mod syscall_monitor;
pub mod text;
pub mod util;
