//! Tunable constants: filesystem roots and resource defaults.

use vstd::prelude::*;

verus! {

/// Base URL the image cache downloads missing tarballs from.
pub const BASE_URL: &'static str = "https://files.ewenmacculloch.com";

/// Base directory where container root filesystems are stored.
pub const QUBE_CONTAINERS_BASE: &'static str = "/var/tmp/Qube_containers";

/// Cgroup-v2 subtree that holds one node per container.
pub const CGROUP_ROOT: &'static str = "/sys/fs/cgroup/QubeContainers";

/// Memory limit written to `memory.max`, in MiB.
pub const MEMORY_MAX_MB: u64 = 2048;

/// Swap limit written to `memory.swap.max`, in MiB.
pub const MEMORY_SWAP_MAX_MB: u64 = 1024;

/// CPU quota in microseconds per period (200% of one core).
pub const CPU_QUOTA_US: u64 = 200000;

/// CPU period in microseconds.
pub const CPU_PERIOD_US: u64 = 100000;

/// Directory that holds the tracking registry.
pub const TRACKING_DIR: &'static str = "/var/lib/Qube";

/// The registry file: one line per container record.
pub const CONTAINER_LIST_FILE: &'static str = "/var/lib/Qube/containers.txt";

} // verus!
