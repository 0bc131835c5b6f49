//! The cgroup-v2 controller's arithmetic: what limit values are written
//! per container, and how `memory.current`, `memory.max`,
//! `/proc/<pid>/stat` and `/proc/uptime` text turn into usage numbers.
//! Reading and writing the files themselves happens outside the library.

use vstd::prelude::*;

use crate::config::{CGROUP_ROOT, CPU_PERIOD_US, CPU_QUOTA_US, MEMORY_MAX_MB, MEMORY_SWAP_MAX_MB};
use crate::text::{
    is_prefix_of, parse_u64_spec, parse_u64_str, push_char, split_on, split_str, str_starts_with,
    u64_dec, u64_to_string,
};

verus! {

// ---------------------------------------------------------------------------
// Limits
// ---------------------------------------------------------------------------

/// The memory limit in bytes written to `memory.max`.
pub open spec fn memory_max_bytes_spec() -> int {
    MEMORY_MAX_MB * 1024 * 1024
}

/// The swap limit in bytes written to `memory.swap.max`.
pub open spec fn memory_swap_max_bytes_spec() -> int {
    MEMORY_SWAP_MAX_MB * 1024 * 1024
}

pub fn memory_max_bytes() -> (r: u64)
    ensures
        r == memory_max_bytes_spec(),
{
    MEMORY_MAX_MB * 1024 * 1024
}

pub fn memory_swap_max_bytes() -> (r: u64)
    ensures
        r == memory_swap_max_bytes_spec(),
{
    MEMORY_SWAP_MAX_MB * 1024 * 1024
}

/// The cgroup node of a container: `<cgroup_root>/<name>`.
pub open spec fn cgroup_path_spec(name: Seq<char>) -> Seq<char> {
    CGROUP_ROOT@ + seq!['/'] + name
}

pub fn cgroup_path(name: &str) -> (r: String)
    ensures
        r@ == cgroup_path_spec(name@),
{
    let mut r = String::from_str(CGROUP_ROOT);
    push_char(&mut r, '/');
    r.append(name);
    proof {
        assert(r@ =~= cgroup_path_spec(name@));
    }
    r
}

/// The value written to `cpu.max`: quota and period, space-separated.
pub open spec fn cpu_limit_value_spec() -> Seq<char> {
    u64_dec(CPU_QUOTA_US as nat) + seq![' '] + u64_dec(CPU_PERIOD_US as nat)
}

pub fn cpu_limit_value() -> (r: String)
    ensures
        r@ == cpu_limit_value_spec(),
{
    let mut r = u64_to_string(CPU_QUOTA_US);
    push_char(&mut r, ' ');
    let period = u64_to_string(CPU_PERIOD_US);
    r.append(period.as_str());
    proof {
        assert(r@ =~= cpu_limit_value_spec());
    }
    r
}

/// One file write of the per-container limit setup.
pub struct LimitWrite {
    pub path: String,
    pub value: String,
}

/// The three limit writes that set up a container's cgroup node, in
/// order: `memory.max`, `memory.swap.max`, `cpu.max`. Each write is
/// best-effort; a failure leaves the container running without that
/// limit.
pub fn cgroup_limit_writes(name: &str) -> (r: Vec<LimitWrite>)
    ensures
        r@.len() == 3,
        r@[0].path@ == cgroup_path_spec(name@) + "/memory.max"@,
        r@[0].value@ == u64_dec(memory_max_bytes_spec() as nat),
        r@[1].path@ == cgroup_path_spec(name@) + "/memory.swap.max"@,
        r@[1].value@ == u64_dec(memory_swap_max_bytes_spec() as nat),
        r@[2].path@ == cgroup_path_spec(name@) + "/cpu.max"@,
        r@[2].value@ == cpu_limit_value_spec(),
{
    let base = cgroup_path(name);
    let mut mem = base.clone();
    mem.append("/memory.max");
    let mut swap = base.clone();
    swap.append("/memory.swap.max");
    let mut cpu = base.clone();
    cpu.append("/cpu.max");
    let mut r: Vec<LimitWrite> = Vec::new();
    r.push(LimitWrite { path: mem, value: u64_to_string(memory_max_bytes()) });
    r.push(LimitWrite { path: swap, value: u64_to_string(memory_swap_max_bytes()) });
    r.push(LimitWrite { path: cpu, value: cpu_limit_value() });
    r
}

// ---------------------------------------------------------------------------
// Trimming and whitespace fields
// ---------------------------------------------------------------------------

/// The whitespace characters the samplers tolerate around numbers.
pub open spec fn is_ws(c: char) -> bool {
    c == ' ' || c == '\n' || c == '\t' || c == '\r'
}

pub open spec fn trim_start_spec(s: Seq<char>) -> Seq<char>
    decreases s.len(),
{
    if s.len() > 0 && is_ws(s.first()) {
        trim_start_spec(s.drop_first())
    } else {
        s
    }
}

pub open spec fn trim_end_spec(s: Seq<char>) -> Seq<char>
    decreases s.len(),
{
    if s.len() > 0 && is_ws(s.last()) {
        trim_end_spec(s.drop_last())
    } else {
        s
    }
}

/// The text with surrounding whitespace removed.
pub open spec fn trim_spec(s: Seq<char>) -> Seq<char> {
    trim_end_spec(trim_start_spec(s))
}

pub fn trim_str<'a>(s: &'a str) -> (r: &'a str)
    ensures
        r@ == trim_spec(s@),
{
    let n = s.unicode_len();
    let mut a: usize = 0;
    proof {
        assert(s@.subrange(0, n as int) =~= s@);
    }
    while a < n && is_ws_char(s.get_char(a))
        invariant
            0 <= a <= n,
            n == s@.len(),
            trim_start_spec(s@) == trim_start_spec(s@.subrange(a as int, n as int)),
        decreases n - a,
    {
        proof {
            let rem = s@.subrange(a as int, n as int);
            assert(rem.first() == s@[a as int]);
            assert(rem.drop_first() =~= s@.subrange(a + 1, n as int));
        }
        a += 1;
    }
    proof {
        let rem = s@.subrange(a as int, n as int);
        if rem.len() > 0 {
            assert(rem.first() == s@[a as int]);
        }
        assert(trim_start_spec(s@) == rem);
    }
    let mut b: usize = n;
    while b > a && is_ws_char(s.get_char(b - 1))
        invariant
            a <= b <= n,
            n == s@.len(),
            trim_start_spec(s@) == s@.subrange(a as int, n as int),
            trim_end_spec(s@.subrange(a as int, n as int)) == trim_end_spec(
                s@.subrange(a as int, b as int),
            ),
        decreases b,
    {
        proof {
            let cur = s@.subrange(a as int, b as int);
            assert(cur.last() == s@[b - 1]);
            assert(cur.drop_last() =~= s@.subrange(a as int, b - 1));
        }
        b -= 1;
    }
    proof {
        let cur = s@.subrange(a as int, b as int);
        if cur.len() > 0 {
            assert(cur.last() == s@[b - 1]);
        }
        assert(trim_spec(s@) == cur);
    }
    s.substring_char(a, b)
}

fn is_ws_char(c: char) -> (r: bool)
    ensures
        r == is_ws(c),
{
    c == ' ' || c == '\n' || c == '\t' || c == '\r'
}

/// The non-empty space-separated fields of a line, in order.
pub open spec fn nonempty_pieces(pieces: Seq<Seq<char>>) -> Seq<Seq<char>>
    decreases pieces.len(),
{
    if pieces.len() == 0 {
        Seq::empty()
    } else {
        nonempty_pieces(pieces.drop_last()) + (if pieces.last().len() > 0 {
            seq![pieces.last()]
        } else {
            Seq::<Seq<char>>::empty()
        })
    }
}

/// How the samplers read a `/proc` line: split on spaces, empty pieces
/// dropped.
pub open spec fn space_fields(s: Seq<char>) -> Seq<Seq<char>> {
    nonempty_pieces(split_on(s, ' '))
}

pub fn split_space_fields(s: &str) -> (r: Vec<String>)
    ensures
        r.deep_view() == space_fields(s@),
{
    let pieces = split_str(s, ' ');
    let ghost pieces_spec = split_on(s@, ' ');
    let mut r: Vec<String> = Vec::new();
    let mut i: usize = 0;
    while i < pieces.len()
        invariant
            0 <= i <= pieces@.len(),
            pieces.deep_view() == pieces_spec,
            pieces_spec == split_on(s@, ' '),
            r@.len() == nonempty_pieces(pieces_spec.subrange(0, i as int)).len(),
            forall|j: int|
                0 <= j < r@.len() ==> (#[trigger] r@[j])@ == nonempty_pieces(
                    pieces_spec.subrange(0, i as int),
                )[j],
        decreases pieces@.len() - i,
    {
        let ghost prefix = pieces_spec.subrange(0, i as int);
        proof {
            assert(pieces_spec.subrange(0, i + 1).drop_last() =~~= prefix);
            assert(pieces_spec.subrange(0, i + 1).last() == pieces_spec[i as int]);
            assert(pieces@[i as int]@ == pieces.deep_view()[i as int]);
        }
        if pieces[i].as_str().unicode_len() > 0 {
            r.push(pieces[i].clone());
        }
        i += 1;
    }
    proof {
        assert(pieces_spec.subrange(0, pieces@.len() as int) =~~= pieces_spec);
        assert forall|j: int|
            0 <= j < r@.len() implies r.deep_view()[j] == space_fields(s@)[j] by {
            assert(r@[j]@ == nonempty_pieces(pieces_spec)[j]);
        }
        assert(r.deep_view() =~= space_fields(s@));
    }
    r
}

// ---------------------------------------------------------------------------
// Memory statistics
// ---------------------------------------------------------------------------

/// Usage read from a container's cgroup node.
#[derive(Clone, Copy, Debug, PartialEq, Eq, Structural)]
pub struct MemoryStats {
    pub current_bytes: u64,
    pub max_bytes: u64,
}

/// What a cgroup memory file's text means: a number after trimming, or
/// nothing (`memory.max` holds the word `max` when unlimited).
pub open spec fn parse_memory_value_spec(t: Seq<char>) -> Option<u64> {
    parse_u64_spec(trim_spec(t))
}

pub fn parse_memory_value(t: &str) -> (r: Option<u64>)
    ensures
        r == parse_memory_value_spec(t@),
{
    parse_u64_str(trim_str(t))
}

impl MemoryStats {
    /// Build the sample from the texts of `memory.current` and
    /// `memory.max`. A file that does not parse counts as zero; a
    /// current reading above a parsed limit is clamped to it, so that
    /// whenever both files are present, `current_bytes <= max_bytes`.
    pub fn from_files(current_text: &str, max_text: &str) -> (r: MemoryStats)
        ensures
            r.max_bytes as int == (match parse_memory_value_spec(max_text@) {
                Some(m) => m as int,
                None => 0,
            }),
            parse_memory_value_spec(current_text@) is None ==> r.current_bytes == 0,
            parse_memory_value_spec(current_text@) is Some && parse_memory_value_spec(
                max_text@,
            ) is None ==> r.current_bytes == parse_memory_value_spec(current_text@)->Some_0,
            parse_memory_value_spec(current_text@) is Some && parse_memory_value_spec(
                max_text@,
            ) is Some ==> r.current_bytes <= r.max_bytes && r.current_bytes == (
            if parse_memory_value_spec(current_text@)->Some_0 <= parse_memory_value_spec(
                max_text@,
            )->Some_0 {
                parse_memory_value_spec(current_text@)->Some_0
            } else {
                parse_memory_value_spec(max_text@)->Some_0
            }),
    {
        let cur = parse_memory_value(current_text);
        let max = parse_memory_value(max_text);
        let max_bytes = match max {
            Some(m) => m,
            None => 0,
        };
        let current_bytes = match (cur, max) {
            (Some(c), Some(m)) => if c <= m {
                c
            } else {
                m
            },
            (Some(c), None) => c,
            (None, _) => 0,
        };
        MemoryStats { current_bytes, max_bytes }
    }
}

// ---------------------------------------------------------------------------
// CPU usage from /proc
// ---------------------------------------------------------------------------

/// Centiseconds read from `/proc/uptime` text: the first field, seconds
/// before the dot, up to two digits after it.
pub open spec fn uptime_centis_spec(t: Seq<char>) -> Option<u64> {
    let fs = space_fields(t);
    if fs.len() == 0 {
        None
    } else {
        let parts = split_on(fs[0], '.');
        let frac: Option<u64> = if parts.len() == 1 {
            Some(0u64)
        } else if parts[1].len() >= 2 {
            match parse_u64_spec(parts[1].subrange(0, 2)) {
                Some(f) => Some(f),
                None => None,
            }
        } else if parts[1].len() == 1 {
            match parse_u64_spec(parts[1]) {
                Some(d) => if d * 10 <= u64::MAX {
                    Some((d * 10) as u64)
                } else {
                    None
                },
                None => None,
            }
        } else {
            Some(0u64)
        };
        match (parse_u64_spec(parts[0]), frac) {
            (Some(secs), Some(f)) => if secs * 100 + f <= u64::MAX {
                Some((secs * 100 + f) as u64)
            } else {
                None
            },
            _ => None,
        }
    }
}

/// Read `/proc/uptime` text as centiseconds of system uptime.
pub fn uptime_centis(t: &str) -> (r: Option<u64>)
    ensures
        r == uptime_centis_spec(t@),
{
    let fields = split_space_fields(t);
    if fields.len() == 0 {
        return None;
    }
    let parts = split_str(fields[0].as_str(), '.');
    proof {
        assert(fields@[0]@ == fields.deep_view()[0]);
        assert(parts.deep_view() == split_on(space_fields(t@)[0], '.'));
    }
    let frac: Option<u64> = if parts.len() == 1 {
        Some(0)
    } else {
        let p1 = parts[1].as_str();
        let p1len = p1.unicode_len();
        proof {
            assert(parts@[1]@ == parts.deep_view()[1]);
        }
        if p1len >= 2 {
            let two = p1.substring_char(0, 2);
            parse_u64_str(two)
        } else if p1len == 1 {
            match parse_u64_str(p1) {
                Some(d) => d.checked_mul(10),
                None => None,
            }
        } else {
            Some(0)
        }
    };
    proof {
        assert(parts@[0]@ == parts.deep_view()[0]);
    }
    match (parse_u64_str(parts[0].as_str()), frac) {
        (Some(secs), Some(f)) => {
            match secs.checked_mul(100) {
                Some(m) => m.checked_add(f),
                None => None,
            }
        },
        _ => None,
    }
}

/// CPU ticks of a process out of `/proc/<pid>/stat` text: `utime`,
/// `stime` and `starttime` (fields 14, 15 and 22 of the line; an
/// unreadable number counts as zero, as the sampler tolerates).
pub open spec fn stat_ticks_spec(t: Seq<char>) -> Option<(int, int)> {
    let fs = space_fields(t);
    if fs.len() >= 22 {
        let utime = parse_field_or_zero(fs[13]);
        let stime = parse_field_or_zero(fs[14]);
        let starttime = parse_field_or_zero(fs[21]);
        Some((utime + stime, starttime))
    } else {
        None
    }
}

pub open spec fn parse_field_or_zero(f: Seq<char>) -> int {
    match parse_u64_spec(f) {
        Some(v) => v as int,
        None => 0,
    }
}

/// CPU usage percent from stat and uptime text, at 100 ticks per second:
/// `100 * (utime + stime) / (uptime - starttime)` in centiseconds,
/// clamped to 400, zero when the process uptime is not positive or a
/// file does not read.
pub open spec fn cpu_percent_spec(stat: Seq<char>, uptime: Seq<char>) -> int {
    match (stat_ticks_spec(stat), uptime_centis_spec(uptime)) {
        (Some(ticks), Some(up)) => {
            let total = ticks.0;
            let starttime = ticks.1;
            if up > starttime {
                let pct = 100 * total / (up - starttime);
                if pct > 400 {
                    400
                } else {
                    pct
                }
            } else {
                0
            }
        },
        _ => 0,
    }
}

fn parse_field_u64(f: &String) -> (r: u64)
    ensures
        r as int == parse_field_or_zero(f@),
{
    match parse_u64_str(f.as_str()) {
        Some(v) => v,
        None => 0,
    }
}

/// Sample a process's CPU usage percent from the text of its stat file
/// and of `/proc/uptime`. The result always lies in `[0, 400]`.
pub fn cpu_percent_from(stat: &str, uptime: &str) -> (r: u64)
    ensures
        r as int == cpu_percent_spec(stat@, uptime@),
        r <= 400,
{
    let fields = split_space_fields(stat);
    if fields.len() < 22 {
        return 0;
    }
    let up = match uptime_centis(uptime) {
        Some(u) => u,
        None => {
            return 0;
        },
    };
    proof {
        assert(fields@[13]@ == fields.deep_view()[13]);
        assert(fields@[14]@ == fields.deep_view()[14]);
        assert(fields@[21]@ == fields.deep_view()[21]);
    }
    let utime = parse_field_u64(&fields[13]);
    let stime = parse_field_u64(&fields[14]);
    let starttime = parse_field_u64(&fields[21]);
    let total: u128 = utime as u128 + stime as u128;
    if up <= starttime {
        return 0;
    }
    let pu: u128 = (up - starttime) as u128;
    let pct: u128 = total * 100 / pu;
    if pct > 400 {
        400
    } else {
        pct as u64
    }
}

/// Seconds a process has been up, from its stat text and `/proc/uptime`
/// text: system uptime minus the process start time, floored at zero.
/// Nothing is returned when the stat line is too short to hold a start
/// time.
pub open spec fn process_uptime_spec(stat: Seq<char>, uptime: Seq<char>) -> Option<int> {
    let fs = space_fields(stat);
    if fs.len() <= 21 {
        None
    } else {
        let starttime = parse_field_or_zero(fs[21]);
        let up = (match uptime_centis_spec(uptime) {
            Some(u) => u as int,
            None => 0,
        });
        if up > starttime {
            Some((up - starttime) / 100)
        } else {
            Some(0)
        }
    }
}

pub fn process_uptime_from(stat: &str, uptime: &str) -> (r: Option<u64>)
    ensures
        match r {
            Some(v) => process_uptime_spec(stat@, uptime@) == Some(v as int),
            None => process_uptime_spec(stat@, uptime@) is None,
        },
{
    let fields = split_space_fields(stat);
    if fields.len() <= 21 {
        return None;
    }
    proof {
        assert(fields@[21]@ == fields.deep_view()[21]);
    }
    let starttime = parse_field_u64(&fields[21]);
    let up = match uptime_centis(uptime) {
        Some(u) => u,
        None => 0,
    };
    if up > starttime {
        Some((up - starttime) / 100)
    } else {
        Some(0)
    }
}

/// Resident-set bytes out of `/proc/<pid>/status` text: the first
/// `VmRSS:` line whose second field reads as a number, scaled from
/// kilobytes to bytes; zero when none does.
pub open spec fn vmrss_prefix() -> Seq<char> {
    seq!['V', 'm', 'R', 'S', 'S', ':']
}

pub open spec fn vmrss_line_value(l: Seq<char>) -> Option<u64> {
    let fs = space_fields(l);
    if is_prefix_of(vmrss_prefix(), l) && fs.len() >= 2 {
        match parse_u64_spec(fs[1]) {
            Some(kb) => if kb * 1024 <= u64::MAX {
                Some((kb * 1024) as u64)
            } else {
                None
            },
            None => None,
        }
    } else {
        None
    }
}

pub open spec fn vmrss_of_lines(lines: Seq<Seq<char>>) -> int
    decreases lines.len(),
{
    if lines.len() == 0 {
        0
    } else {
        match vmrss_line_value(lines.first()) {
            Some(v) => v as int,
            None => vmrss_of_lines(lines.drop_first()),
        }
    }
}

pub open spec fn vmrss_bytes_spec(t: Seq<char>) -> int {
    vmrss_of_lines(split_on(t, '\n'))
}

pub fn vmrss_bytes_from_status(status: &str) -> (r: u64)
    ensures
        r as int == vmrss_bytes_spec(status@),
{
    proof {
        reveal_strlit("VmRSS:");
        assert("VmRSS:"@ =~= vmrss_prefix());
    }
    let lines = split_str(status, '\n');
    let ghost lines_spec = split_on(status@, '\n');
    let mut i: usize = 0;
    proof {
        assert(lines_spec.subrange(0, lines_spec.len() as int) =~~= lines_spec);
    }
    while i < lines.len()
        invariant
            0 <= i <= lines@.len(),
            lines.deep_view() == lines_spec,
            lines_spec == split_on(status@, '\n'),
            "VmRSS:"@ == vmrss_prefix(),
            vmrss_of_lines(lines_spec) == vmrss_of_lines(
                lines_spec.subrange(i as int, lines_spec.len() as int),
            ),
        decreases lines@.len() - i,
    {
        let ghost rem = lines_spec.subrange(i as int, lines_spec.len() as int);
        proof {
            assert(rem.first() == lines_spec[i as int]);
            assert(rem.drop_first() =~~= lines_spec.subrange(i + 1, lines_spec.len() as int));
            assert(lines@[i as int]@ == lines.deep_view()[i as int]);
        }
        let line = lines[i].as_str();
        if str_starts_with(line, "VmRSS:") {
            let fs = split_space_fields(line);
            if fs.len() >= 2 {
                proof {
                    assert(fs@[1]@ == fs.deep_view()[1]);
                }
                match parse_u64_str(fs[1].as_str()) {
                    Some(kb) => {
                        match kb.checked_mul(1024) {
                            Some(v) => {
                                return v;
                            },
                            None => {},
                        }
                    },
                    None => {},
                }
            }
        }
        i += 1;
    }
    0
}

} // verus!
