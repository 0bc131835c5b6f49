//! The launch protocol's decisions: decoding the PID that the setup
//! child reports over the pipe, the per-launch configuration derived
//! from a record, and the registry bookkeeping of a successful launch.
//! The forks, namespace calls and mounts themselves happen outside the
//! library and hand their outcomes in as plain values.

use vstd::prelude::*;

use vstd::bytes::{
    lemma_auto_spec_u32_to_from_le_bytes, spec_u32_from_le_bytes, spec_u32_to_le_bytes,
    u32_from_le_bytes, u32_to_le_bytes,
};
use vstd::slice::slice_subrange;

use crate::lifecycle::rootfs_spec;
use crate::registry::{count_name, unique_names, upsert_entry, upsert_model, lemma_upsert_exactly_one};
use crate::tracking::{ContainerEntry, EntryModel};

verus! {

// ---------------------------------------------------------------------------
// The pipe handshake
// ---------------------------------------------------------------------------

/// What a pipe read of `n` bytes means: fewer than four bytes is a
/// failed launch; otherwise the first four bytes are the container's
/// PID, little endian.
pub open spec fn handshake_pid_spec(bytes: Seq<u8>, n: int) -> Option<i32> {
    if n >= 4 && bytes.len() >= 4 {
        Some(spec_u32_from_le_bytes(bytes.subrange(0, 4)) as i32)
    } else {
        None
    }
}

/// Decode the setup child's report: the buffer the parent read and how
/// many bytes arrived before the pipe closed.
pub fn pid_from_handshake(buf: &[u8], n: usize) -> (r: Option<i32>)
    requires
        n <= buf@.len(),
    ensures
        r == handshake_pid_spec(buf@, n as int),
{
    if n < 4 {
        None
    } else {
        let four = slice_subrange(buf, 0, 4);
        Some(u32_from_le_bytes(four) as i32)
    }
}

/// Encode a PID the way the setup child writes it into the pipe.
pub fn handshake_bytes(pid: i32) -> (r: Vec<u8>)
    ensures
        r@.len() == 4,
        handshake_pid_spec(r@, 4) == Some(pid),
{
    let r = u32_to_le_bytes(pid as u32);
    proof {
        lemma_auto_spec_u32_to_from_le_bytes();
        assert(r@.subrange(0, 4) =~= r@);
        assert(((pid as u32) as i32) == pid) by (bit_vector);
    }
    r
}

/// A reported PID decodes to the PID that was written: the handshake
/// loses nothing.
pub proof fn lemma_handshake_roundtrip(pid: i32)
    ensures
        handshake_pid_spec(spec_u32_to_le_bytes(pid as u32), 4) == Some(pid),
{
    lemma_auto_spec_u32_to_from_le_bytes();
    let bytes = spec_u32_to_le_bytes(pid as u32);
    assert(bytes.subrange(0, 4) =~= bytes);
    assert(((pid as u32) as i32) == pid) by (bit_vector);
}

// ---------------------------------------------------------------------------
// The launch configuration
// ---------------------------------------------------------------------------

/// Everything the setup child needs to know before the double fork.
pub struct LaunchConfig {
    /// The hostname set inside the fresh UTS namespace.
    pub hostname: String,
    /// Whether the network namespace is unshared too.
    pub unshare_network: bool,
    /// The directory the child changes into and chroots to.
    pub rootfs: String,
    /// The working directory inside the chroot.
    pub exec_dir: String,
    /// Whether stdio is redirected to the null device before exec.
    pub detach_stdio: bool,
}

/// The configuration a record launches with: the network namespace is
/// private exactly when the record is isolated, and stdio stays on the
/// terminal only in debug runs.
pub fn launch_config(e: &ContainerEntry, debug: bool) -> (c: LaunchConfig)
    ensures
        c.hostname@ == seq!['Q', 'u', 'b', 'e'],
        c.unshare_network == e@.isolated,
        c.rootfs@ == rootfs_spec(e@.name),
        c.exec_dir@ == seq!['/', 'h', 'o', 'm', 'e'],
        c.detach_stdio == !debug,
{
    let hostname = String::from_str("Qube");
    let exec_dir = String::from_str("/home");
    proof {
        reveal_strlit("Qube");
        reveal_strlit("/home");
        assert(hostname@ =~= seq!['Q', 'u', 'b', 'e']);
        assert(exec_dir@ =~= seq!['/', 'h', 'o', 'm', 'e']);
    }
    LaunchConfig {
        hostname,
        unshare_network: e.isolated,
        rootfs: crate::lifecycle::get_rootfs(e.name.as_str()),
        exec_dir,
        detach_stdio: !debug,
    }
}

// ---------------------------------------------------------------------------
// Registry bookkeeping of a successful launch
// ---------------------------------------------------------------------------

/// The record as one single registry write leaves it after a launch:
/// the new PID, a fresh timestamp, everything else untouched.
pub open spec fn launched(e: EntryModel, pid: int, now: int) -> EntryModel {
    EntryModel { pid: pid, timestamp: now, ..e }
}

/// Record a successful launch: one upsert that writes the new PID and
/// refreshes the timestamp in the same step.
pub fn record_launch(entries: &mut Vec<ContainerEntry>, e: &ContainerEntry, new_pid: i32, now: u64)
    ensures
        final(entries).deep_view() == upsert_model(
            old(entries).deep_view(),
            launched(e@, new_pid as int, now as int),
        ),
{
    let mut u = e.duplicate();
    u.pid = new_pid;
    u.timestamp = now;
    proof {
        assert(u@ =~~= launched(e@, new_pid as int, now as int));
    }
    upsert_entry(entries, u);
}

/// After a successful launch the registry holds exactly one record
/// under the container's name, and it carries the new PID and the fresh
/// timestamp.
pub proof fn lemma_launch_exactly_one(s: Seq<EntryModel>, e: EntryModel, pid: int, now: int)
    requires
        unique_names(s),
    ensures
        count_name(upsert_model(s, launched(e, pid, now)), e.name) == 1,
        forall|i: int|
            0 <= i < upsert_model(s, launched(e, pid, now)).len() && (#[trigger] upsert_model(
                s,
                launched(e, pid, now),
            )[i]).name == e.name ==> upsert_model(s, launched(e, pid, now))[i].pid == pid
                && upsert_model(s, launched(e, pid, now))[i].timestamp == now,
{
    lemma_upsert_exactly_one(s, launched(e, pid, now));
}

} // verus!
