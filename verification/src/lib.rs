//! A verified core for a single-host container manager.
//!
//! The library models the manager's persistent tracking registry (a
//! line-delimited text store of container records), the supervisor's
//! per-tick restart decisions, cgroup-v2 resource sampling arithmetic,
//! and the pure decisions of the launch protocol. Everything that touches
//! the kernel (forks, namespaces, mounts, signals, file reads and writes)
//! lives outside the library and hands it plain values.

use vstd::prelude::*;

pub mod api;
pub mod cgroup;
pub mod config;
pub mod custom;
pub mod lifecycle;
pub mod registry;
pub mod runtime;
pub mod supervisor;
pub mod text;
pub mod tracking;

verus! {

} // verus!
