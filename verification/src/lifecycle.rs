//! Lifecycle decisions: where a container's files live, how an id is
//! generated and resolved, how a record moves between the queued,
//! running, stopped and deleted states, and what the listing shows.

use vstd::prelude::*;

use vstd::pervasive::VecAdditionalExecFns;

use rand::Rng;

use crate::config::{BASE_URL, CGROUP_ROOT, QUBE_CONTAINERS_BASE};
use crate::text::{push_char, u64_dec, u64_to_string};
use crate::tracking::{ContainerEntry, EntryModel};

verus! {

// ---------------------------------------------------------------------------
// Paths
// ---------------------------------------------------------------------------

/// The directory of one container: `<base>/<cid>`.
pub open spec fn container_dir_spec(cid: Seq<char>) -> Seq<char> {
    QUBE_CONTAINERS_BASE@ + seq!['/'] + cid
}

/// The root filesystem of one container: `<base>/<cid>/rootfs`.
pub open spec fn rootfs_spec(cid: Seq<char>) -> Seq<char> {
    container_dir_spec(cid) + seq!['/', 'r', 'o', 'o', 't', 'f', 's']
}

pub fn container_dir(cid: &str) -> (r: String)
    ensures
        r@ == container_dir_spec(cid@),
{
    let mut r = String::from_str(QUBE_CONTAINERS_BASE);
    push_char(&mut r, '/');
    r.append(cid);
    proof {
        assert(r@ =~= container_dir_spec(cid@));
    }
    r
}

/// Where a container's extracted root filesystem lives.
pub fn get_rootfs(cid: &str) -> (r: String)
    ensures
        r@ == rootfs_spec(cid@),
{
    let mut r = container_dir(cid);
    r.append("/rootfs");
    proof {
        reveal_strlit("/rootfs");
        assert(r@ =~= rootfs_spec(cid@));
    }
    r
}

/// The image cache directory: `<base>/images`.
pub open spec fn images_dir_spec() -> Seq<char> {
    QUBE_CONTAINERS_BASE@ + seq!['/', 'i', 'm', 'a', 'g', 'e', 's']
}

pub fn images_dir() -> (r: String)
    ensures
        r@ == images_dir_spec(),
{
    let mut r = String::from_str(QUBE_CONTAINERS_BASE);
    r.append("/images");
    proof {
        reveal_strlit("/images");
        assert(r@ =~= images_dir_spec());
    }
    r
}

/// Where a cached image tarball lives: `<base>/images/<image>`.
pub open spec fn image_path_spec(image: Seq<char>) -> Seq<char> {
    images_dir_spec() + seq!['/'] + image
}

pub fn image_path(image: &str) -> (r: String)
    ensures
        r@ == image_path_spec(image@),
{
    let mut r = images_dir();
    push_char(&mut r, '/');
    r.append(image);
    proof {
        assert(r@ =~= image_path_spec(image@));
    }
    r
}

/// The URL a missing image is fetched from: `<BASE_URL>/files/<image>`.
pub open spec fn image_url_spec(image: Seq<char>) -> Seq<char> {
    BASE_URL@ + seq!['/', 'f', 'i', 'l', 'e', 's', '/'] + image
}

pub fn image_url(image: &str) -> (r: String)
    ensures
        r@ == image_url_spec(image@),
{
    let mut r = String::from_str(BASE_URL);
    r.append("/files/");
    r.append(image);
    proof {
        reveal_strlit("/files/");
        assert(r@ =~= image_url_spec(image@));
    }
    r
}

/// The cgroup node removed when a container is deleted.
pub open spec fn cgroup_dir_spec(name: Seq<char>) -> Seq<char> {
    CGROUP_ROOT@ + seq!['/'] + name
}

/// The two directories that deletion clears: the container's directory
/// under the base and its cgroup node. Deleting a name twice clears the
/// same two paths; the second pass finds them already gone.
pub fn delete_paths(name: &str) -> (r: (String, String))
    ensures
        r.0@ == container_dir_spec(name@),
        r.1@ == cgroup_dir_spec(name@),
{
    let dir = container_dir(name);
    let mut cg = String::from_str(CGROUP_ROOT);
    push_char(&mut cg, '/');
    cg.append(name);
    proof {
        assert(cg@ =~= cgroup_dir_spec(name@));
    }
    (dir, cg)
}

/// A guest path with its leading slashes removed, as it is grafted
/// under the rootfs.
pub open spec fn strip_leading_slashes(s: Seq<char>) -> Seq<char>
    decreases s.len(),
{
    if s.len() > 0 && s.first() == '/' {
        strip_leading_slashes(s.drop_first())
    } else {
        s
    }
}

/// Where a bind volume is mounted inside the rootfs:
/// `<rootfs>/<guest-without-leading-slashes>`.
pub fn volume_dest_path(cid: &str, guest: &str) -> (r: String)
    ensures
        r@ == rootfs_spec(cid@) + seq!['/'] + strip_leading_slashes(guest@),
{
    let n = guest.unicode_len();
    let mut a: usize = 0;
    proof {
        assert(guest@.subrange(0, n as int) =~= guest@);
    }
    while a < n && guest.get_char(a) == '/'
        invariant
            0 <= a <= n,
            n == guest@.len(),
            strip_leading_slashes(guest@) == strip_leading_slashes(
                guest@.subrange(a as int, n as int),
            ),
        decreases n - a,
    {
        proof {
            let rem = guest@.subrange(a as int, n as int);
            assert(rem.first() == guest@[a as int]);
            assert(rem.drop_first() =~= guest@.subrange(a + 1, n as int));
        }
        a += 1;
    }
    proof {
        let rem = guest@.subrange(a as int, n as int);
        if rem.len() > 0 {
            assert(rem.first() == guest@[a as int]);
        }
        assert(strip_leading_slashes(guest@) == rem);
    }
    let stripped = guest.substring_char(a, n);
    let mut r = get_rootfs(cid);
    push_char(&mut r, '/');
    r.append(stripped);
    proof {
        assert(r@ =~= rootfs_spec(cid@) + seq!['/'] + strip_leading_slashes(guest@));
    }
    r
}

/// Where a snapshot tarball is written: `<dir>/snapshot-<name>.tar.gz`.
pub open spec fn snapshot_path_spec(dir: Seq<char>, name: Seq<char>) -> Seq<char> {
    dir + seq!['/', 's', 'n', 'a', 'p', 's', 'h', 'o', 't', '-'] + name + seq![
        '.',
        't',
        'a',
        'r',
        '.',
        'g',
        'z',
    ]
}

pub fn snapshot_path(dir: &str, name: &str) -> (r: String)
    ensures
        r@ == snapshot_path_spec(dir@, name@),
{
    let mut r = String::from_str(dir);
    r.append("/snapshot-");
    r.append(name);
    r.append(".tar.gz");
    proof {
        reveal_strlit("/snapshot-");
        reveal_strlit(".tar.gz");
        assert(r@ =~= snapshot_path_spec(dir@, name@));
    }
    r
}

// ---------------------------------------------------------------------------
// Container ids
// ---------------------------------------------------------------------------

/// An ASCII letter or digit.
pub open spec fn is_alnum(c: char) -> bool {
    ('a' <= c && c <= 'z') || ('A' <= c && c <= 'Z') || ('0' <= c && c <= '9')
}

/// The prefix of every generated container id.
pub open spec fn qube_prefix() -> Seq<char> {
    seq!['Q', 'u', 'b', 'e', '-']
}

/// Relies on rand's `thread_rng` sampled through the `Alphanumeric`
/// distribution: every sampled character is an ASCII letter or digit.
#[verifier::external_body]
fn random_alphanumeric(len: usize) -> (r: String)
    ensures
        r@.len() == len,
        forall|i: int| 0 <= i < r@.len() ==> is_alnum(#[trigger] r@[i]),
{
    rand::thread_rng().sample_iter(&rand::distributions::Alphanumeric).take(len).map(
        char::from,
    ).collect()
}

/// A fresh container id: `Qube-` and six random letters or digits.
pub fn generate_container_id() -> (r: String)
    ensures
        r@.len() == 11,
        r@.subrange(0, 5) == qube_prefix(),
        forall|i: int| 5 <= i < 11 ==> is_alnum(#[trigger] r@[i]),
{
    let mut r = String::from_str("Qube-");
    proof {
        reveal_strlit("Qube-");
        assert(r@ =~= qube_prefix());
    }
    let suffix = random_alphanumeric(6);
    r.append(suffix.as_str());
    proof {
        assert(r@.subrange(0, 5) =~= qube_prefix());
        assert(forall|i: int| 5 <= i < 11 ==> r@[i] == suffix@[i - 5]);
    }
    r
}

// ---------------------------------------------------------------------------
// The listing's view of one record
// ---------------------------------------------------------------------------

/// What the listing shows for one record.
#[derive(Clone, Copy, Debug, PartialEq, Eq, Structural)]
pub enum ContainerStatus {
    /// A positive PID whose process directory exists.
    Running,
    /// Stopped by the user (`pid == -2`).
    Stopped,
    /// Everything else: exited or waiting to start.
    Exited,
}

/// The status shown for a record, from its PID and whether
/// `/proc/<pid>` exists.
pub fn container_status(pid: i32, proc_exists: bool) -> (s: ContainerStatus)
    ensures
        s == ContainerStatus::Running <==> pid > 0 && proc_exists,
        s == ContainerStatus::Stopped <==> !(pid > 0 && proc_exists) && pid == -2,
        s == ContainerStatus::Exited <==> !(pid > 0 && proc_exists) && pid != -2,
{
    if pid > 0 && proc_exists {
        ContainerStatus::Running
    } else if pid == -2 {
        ContainerStatus::Stopped
    } else {
        ContainerStatus::Exited
    }
}

/// The listing's uptime text: days, hours, minutes and seconds, the
/// leading zero units dropped.
pub open spec fn uptime_text_spec(u: int) -> Seq<char> {
    let secs = u % 60;
    let mins = (u / 60) % 60;
    let hours = (u / 3600) % 24;
    let days = u / 86400;
    if days > 0 {
        u64_dec(days as nat) + seq!['d', ' '] + u64_dec(hours as nat) + seq!['h', ' '] + u64_dec(
            mins as nat,
        ) + seq!['m', ' '] + u64_dec(secs as nat) + seq!['s']
    } else if hours > 0 {
        u64_dec(hours as nat) + seq!['h', ' '] + u64_dec(mins as nat) + seq!['m', ' '] + u64_dec(
            secs as nat,
        ) + seq!['s']
    } else if mins > 0 {
        u64_dec(mins as nat) + seq!['m', ' '] + u64_dec(secs as nat) + seq!['s']
    } else {
        u64_dec(secs as nat) + seq!['s']
    }
}

/// Render a process uptime in seconds the way the listing shows it.
pub fn format_uptime(u: u64) -> (r: String)
    ensures
        r@ == uptime_text_spec(u as int),
{
    let secs: u64 = u % 60;
    let mins: u64 = (u / 60) % 60;
    let hours: u64 = (u / 3600) % 24;
    let days: u64 = u / 86400;
    let mut r = String::new();
    if days > 0 {
        let t = u64_to_string(days);
        r.append(t.as_str());
        push_char(&mut r, 'd');
        push_char(&mut r, ' ');
    }
    if days > 0 || hours > 0 {
        let t = u64_to_string(hours);
        r.append(t.as_str());
        push_char(&mut r, 'h');
        push_char(&mut r, ' ');
    }
    if days > 0 || hours > 0 || mins > 0 {
        let t = u64_to_string(mins);
        r.append(t.as_str());
        push_char(&mut r, 'm');
        push_char(&mut r, ' ');
    }
    let t = u64_to_string(secs);
    r.append(t.as_str());
    push_char(&mut r, 's');
    proof {
        assert(r@ =~= uptime_text_spec(u as int));
    }
    r
}

// ---------------------------------------------------------------------------
// State transitions
// ---------------------------------------------------------------------------

/// The record `e` rewritten to carry `pid` and `timestamp`.
pub open spec fn with_pid(e: EntryModel, pid: int, now: int) -> EntryModel {
    EntryModel { pid: pid, timestamp: now, ..e }
}

/// Mark the first record with this PID as stopped by the user: its
/// `pid` becomes `-2`, its timestamp is refreshed, everything else is
/// kept — including the record itself, so the user can start it again.
pub open spec fn stop_model(s: Seq<EntryModel>, pid: int, now: int) -> Seq<EntryModel>
    decreases s.len(),
{
    if s.len() == 0 {
        Seq::empty()
    } else if s.first().pid == pid {
        seq![with_pid(s.first(), -2, now)] + s.drop_first()
    } else {
        seq![s.first()] + stop_model(s.drop_first(), pid, now)
    }
}

/// What `stop` reports.
#[derive(Clone, Copy, Debug, PartialEq, Eq, Structural)]
pub enum StopOutcome {
    /// A record carried the PID and is now marked stopped.
    Stopped,
    /// No record carries the PID.
    NotFound,
}

/// User stop: mark the record with this PID sticky-stopped. The caller
/// sends the kill signal; the registry keeps the record so the
/// container can be started again.
pub fn stop_transition(entries: &mut Vec<ContainerEntry>, pid: i32, now: u64) -> (r: StopOutcome)
    ensures
        final(entries).deep_view() == stop_model(old(entries).deep_view(), pid as int, now as int),
        r == StopOutcome::Stopped <==> exists|i: int|
            0 <= i < old(entries)@.len() && (#[trigger] old(entries)@[i])@.pid == pid as int,
{
    let ghost s = entries.deep_view();
    let mut i: usize = 0;
    while i < entries.len()
        invariant
            0 <= i <= entries@.len(),
            entries@ == old(entries)@,
            s == entries.deep_view(),
            forall|j: int| 0 <= j < i ==> (#[trigger] entries@[j])@.pid != pid as int,
        decreases entries@.len() - i,
    {
        if entries[i].pid == pid {
            proof {
                lemma_stop_at_index(s, pid as int, now as int, i as int);
                assert(entries@[i as int]@ == s[i as int]);
            }
            let mut e = entries[i].duplicate();
            e.pid = -2;
            e.timestamp = now;
            entries.set(i, e);
            proof {
                assert forall|j: int|
                    0 <= j < entries@.len() implies entries.deep_view()[j] == stop_model(
                    s,
                    pid as int,
                    now as int,
                )[j] by {
                    if j == i {
                        assert(entries@[j]@ =~~= with_pid(s[j], -2, now as int));
                    } else {
                        assert(entries@[j] == old(entries)@[j]);
                        assert(old(entries)@[j]@ == s[j]);
                    }
                }
                assert(entries.deep_view() =~= stop_model(s, pid as int, now as int));
                assert(old(entries)@[i as int]@.pid == pid as int);
            }
            return StopOutcome::Stopped;
        }
        i += 1;
    }
    proof {
        lemma_stop_absent(s, pid as int, now as int);
        assert(entries.deep_view() =~= stop_model(s, pid as int, now as int));
    }
    StopOutcome::NotFound
}

/// Stopping where the first PID match sits at `i` updates there.
proof fn lemma_stop_at_index(s: Seq<EntryModel>, pid: int, now: int, i: int)
    requires
        0 <= i < s.len(),
        s[i].pid == pid,
        forall|j: int| 0 <= j < i ==> (#[trigger] s[j]).pid != pid,
    ensures
        stop_model(s, pid, now) == s.update(i, with_pid(s[i], -2, now)),
    decreases i,
{
    if i == 0 {
        assert(stop_model(s, pid, now) =~= s.update(0, with_pid(s[0], -2, now)));
    } else {
        assert(s.drop_first()[i - 1].pid == pid);
        assert(forall|j: int|
            0 <= j < i - 1 ==> (#[trigger] s.drop_first()[j]).pid == s[j + 1].pid);
        lemma_stop_at_index(s.drop_first(), pid, now, i - 1);
        assert(stop_model(s, pid, now) =~= s.update(i, with_pid(s[i], -2, now)));
    }
}

/// Stopping changes one record's PID and timestamp and nothing else:
/// the registry keeps its length and its names, so stopping preserves
/// name uniqueness.
pub proof fn lemma_stop_keeps_names(s: Seq<EntryModel>, pid: int, now: int)
    ensures
        stop_model(s, pid, now).len() == s.len(),
        forall|i: int|
            0 <= i < s.len() ==> (#[trigger] stop_model(s, pid, now)[i]).name == s[i].name,
    decreases s.len(),
{
    if s.len() > 0 {
        lemma_stop_keeps_names(s.drop_first(), pid, now);
        let r = stop_model(s, pid, now);
        assert forall|i: int| 0 <= i < s.len() implies (#[trigger] r[i]).name == s[i].name by {
            if s.first().pid == pid {
                if i > 0 {
                    assert(r[i] == s.drop_first()[i - 1]);
                }
            } else {
                if i > 0 {
                    assert(r[i] == stop_model(s.drop_first(), pid, now)[i - 1]);
                    assert(s.drop_first()[i - 1].name == s[i].name);
                }
            }
        }
    }
}

/// Stopping keeps every name unique.
pub proof fn lemma_stop_preserves_unique(s: Seq<EntryModel>, pid: int, now: int)
    requires
        crate::registry::unique_names(s),
    ensures
        crate::registry::unique_names(stop_model(s, pid, now)),
{
    lemma_stop_keeps_names(s, pid, now);
}

/// Stopping a PID no record carries changes nothing.
proof fn lemma_stop_absent(s: Seq<EntryModel>, pid: int, now: int)
    requires
        forall|j: int| 0 <= j < s.len() ==> (#[trigger] s[j]).pid != pid,
    ensures
        stop_model(s, pid, now) == s,
    decreases s.len(),
{
    if s.len() > 0 {
        assert(forall|j: int|
            0 <= j < s.drop_first().len() ==> (#[trigger] s.drop_first()[j]).pid == s[j + 1].pid);
        lemma_stop_absent(s.drop_first(), pid, now);
        assert(stop_model(s, pid, now) =~= s);
    }
}

/// What `start` reports.
#[derive(Clone, Copy, Debug, PartialEq, Eq, Structural)]
pub enum StartOutcome {
    /// The container is already running; nothing to do.
    AlreadyRunning,
    /// The record is already queued for the supervisor.
    AlreadyQueued,
    /// The record was requeued; the supervisor will launch it.
    Queued,
}

/// User start of the record at `idx`: running and queued records are
/// left alone; anything else is requeued with `pid == -1` and a fresh
/// timestamp, which also opens its grace window.
pub fn start_transition(entries: &mut Vec<ContainerEntry>, idx: usize, proc_alive: bool, now: u64)
    -> (r: StartOutcome)
    requires
        idx < old(entries)@.len(),
    ensures
        final(entries)@.len() == old(entries)@.len(),
        forall|j: int|
            0 <= j < final(entries)@.len() && j != idx ==> final(entries)@[j] == old(entries)@[j],
        r == StartOutcome::AlreadyRunning <==> old(entries)@[idx as int]@.pid > 0 && proc_alive,
        r == StartOutcome::AlreadyQueued <==> !(old(entries)@[idx as int]@.pid > 0 && proc_alive)
            && old(entries)@[idx as int]@.pid == -1,
        r == StartOutcome::AlreadyRunning || r == StartOutcome::AlreadyQueued ==> final(entries)@[
            idx as int
        ] == old(entries)@[idx as int],
        r == StartOutcome::Queued ==> final(entries)@[idx as int]@ == with_pid(
            old(entries)@[idx as int]@,
            -1,
            now as int,
        ),
{
    if entries[idx].pid > 0 && proc_alive {
        StartOutcome::AlreadyRunning
    } else if entries[idx].pid == -1 {
        StartOutcome::AlreadyQueued
    } else {
        let mut e = entries[idx].duplicate();
        e.pid = -1;
        e.timestamp = now;
        entries.set(idx, e);
        proof {
            assert(entries@[idx as int]@ =~~= with_pid(old(entries)@[idx as int]@, -1, now as int));
        }
        StartOutcome::Queued
    }
}

} // verus!
