//! Per-process and global bandwidth limits on a Linux host: the traffic-control
//! hierarchy (one HTB tree per direction, downloads shaped through a redirect device),
//! the allocation of its identifiers, the control protocol, and the engine that keeps
//! port filters in step with the live connections of each program.
//!
//! The library decides and formats; it runs no command itself. Its callers run the
//! commands it asks for and hand back what they printed.
use vstd::prelude::*;

pub mod engine;
pub mod ids;
pub mod ipc;
pub mod scan;
pub mod tc;
pub mod text;

verus! {

} // verus!
