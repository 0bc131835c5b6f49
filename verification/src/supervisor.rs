//! The supervisor's per-tick decisions: which records to leave alone,
//! which to restart, which merely to reap, plus the startup sweep that
//! picks orphaned container directories, and the reading of
//! `/proc/<pid>/status` text that decides liveness.

use vstd::prelude::*;

use crate::registry::has_name;
use crate::text::{contains_char, is_prefix_of, split_on, split_str, str_eq, str_starts_with};
use crate::tracking::{ContainerEntry, EntryModel};

verus! {

// ---------------------------------------------------------------------------
// One record, one tick
// ---------------------------------------------------------------------------

/// What the supervisor does with one record on one tick.
#[derive(Clone, Copy, Debug, PartialEq, Eq, Structural)]
pub enum TickAction {
    /// Leave the record untouched.
    Skip,
    /// Remove the stale record and launch the container again.
    Restart,
    /// Remove the stale record; with no command saved it cannot restart.
    Reap,
}

/// A freshly queued record (`pid == -1`) younger than five seconds is
/// left alone, so a registration is never raced.
pub open spec fn in_grace(e: EntryModel, now: int) -> bool {
    e.pid == -1 && now < e.timestamp + 5
}

/// The tick leaves the record untouched: stopped by the user, inside the
/// grace window, or alive.
pub open spec fn tick_skips(e: EntryModel, now: int, alive: bool) -> bool {
    e.pid == -2 || in_grace(e, now) || alive
}

/// The decision for one record.
pub open spec fn tick_action_spec(e: EntryModel, now: int, alive: bool) -> TickAction {
    if tick_skips(e, now, alive) {
        TickAction::Skip
    } else if e.command.len() > 0 {
        TickAction::Restart
    } else {
        TickAction::Reap
    }
}

/// Decide one record of the tick's registry snapshot. `alive` is whether
/// `/proc/<pid>/status` showed a live, non-zombie process.
pub fn tick_decision(e: &ContainerEntry, now: u64, alive: bool) -> (a: TickAction)
    ensures
        a == tick_action_spec(e@, now as int, alive),
{
    if e.pid == -2 {
        TickAction::Skip
    } else if e.pid == -1 && (now <= e.timestamp || now - e.timestamp < 5) {
        TickAction::Skip
    } else if alive {
        TickAction::Skip
    } else if e.command.len() > 0 {
        TickAction::Restart
    } else {
        TickAction::Reap
    }
}

/// A record the user stopped is never acted on.
///
/// Whatever the clock and the liveness probe say, a record with
/// `pid == -2` is skipped by the tick.
pub proof fn lemma_stopped_is_skipped(e: EntryModel, now: int, alive: bool)
    requires
        e.pid == -2,
    ensures
        tick_action_spec(e, now, alive) == TickAction::Skip,
{
}

/// A record queued within the last five seconds is never acted on.
pub proof fn lemma_grace_is_skipped(e: EntryModel, now: int, alive: bool)
    requires
        e.pid == -1,
        now < e.timestamp + 5,
    ensures
        tick_action_spec(e, now, alive) == TickAction::Skip,
{
}

// ---------------------------------------------------------------------------
// One tick over the whole registry snapshot
// ---------------------------------------------------------------------------

/// The records a tick leaves in the registry: exactly those it skips,
/// unchanged and in order.
pub open spec fn tick_kept(s: Seq<EntryModel>, now: int, alive: Seq<bool>) -> Seq<EntryModel>
    decreases s.len(),
{
    if s.len() == 0 || alive.len() != s.len() {
        Seq::empty()
    } else {
        (if tick_skips(s.first(), now, alive.first()) {
            seq![s.first()]
        } else {
            Seq::empty()
        }) + tick_kept(s.drop_first(), now, alive.drop_first())
    }
}

/// The records a tick restarts: dead, outside every skip rule, with a
/// saved command.
pub open spec fn tick_restarts(s: Seq<EntryModel>, now: int, alive: Seq<bool>) -> Seq<EntryModel>
    decreases s.len(),
{
    if s.len() == 0 || alive.len() != s.len() {
        Seq::empty()
    } else {
        (if tick_action_spec(s.first(), now, alive.first()) == TickAction::Restart {
            seq![s.first()]
        } else {
            Seq::empty()
        }) + tick_restarts(s.drop_first(), now, alive.drop_first())
    }
}

proof fn lemma_tick_push(s: Seq<EntryModel>, now: int, alive: Seq<bool>, e: EntryModel, a: bool)
    requires
        s.len() == alive.len(),
    ensures
        tick_kept(s.push(e), now, alive.push(a)) == tick_kept(s, now, alive) + (if tick_skips(
            e,
            now,
            a,
        ) {
            seq![e]
        } else {
            Seq::<EntryModel>::empty()
        }),
        tick_restarts(s.push(e), now, alive.push(a)) == tick_restarts(s, now, alive) + (
        if tick_action_spec(e, now, a) == TickAction::Restart {
            seq![e]
        } else {
            Seq::<EntryModel>::empty()
        }),
    decreases s.len(),
{
    if s.len() == 0 {
        assert(s.push(e).first() == e);
        assert(alive.push(a).first() == a);
        assert(s.push(e).drop_first() =~~= Seq::<EntryModel>::empty());
        assert(alive.push(a).drop_first() =~= Seq::<bool>::empty());
        assert(tick_kept(Seq::<EntryModel>::empty(), now, Seq::<bool>::empty())
            =~~= Seq::<EntryModel>::empty());
        assert(tick_restarts(Seq::<EntryModel>::empty(), now, Seq::<bool>::empty())
            =~~= Seq::<EntryModel>::empty());
        assert(tick_kept(s.push(e), now, alive.push(a)) =~~= tick_kept(s, now, alive) + (
        if tick_skips(e, now, a) {
            seq![e]
        } else {
            Seq::<EntryModel>::empty()
        }));
        assert(tick_restarts(s.push(e), now, alive.push(a)) =~~= tick_restarts(s, now, alive) + (
        if tick_action_spec(e, now, a) == TickAction::Restart {
            seq![e]
        } else {
            Seq::<EntryModel>::empty()
        }));
    } else {
        assert(s.push(e).first() == s.first());
        assert(alive.push(a).first() == alive.first());
        assert(s.push(e).drop_first() =~~= s.drop_first().push(e));
        assert(alive.push(a).drop_first() =~= alive.drop_first().push(a));
        lemma_tick_push(s.drop_first(), now, alive.drop_first(), e, a);
        assert(tick_kept(s.push(e), now, alive.push(a)) =~~= tick_kept(s, now, alive) + (
        if tick_skips(e, now, a) {
            seq![e]
        } else {
            Seq::<EntryModel>::empty()
        }));
        assert(tick_restarts(s.push(e), now, alive.push(a)) =~~= tick_restarts(s, now, alive) + (
        if tick_action_spec(e, now, a) == TickAction::Restart {
            seq![e]
        } else {
            Seq::<EntryModel>::empty()
        }));
    }
}

/// Run one supervisor tick over a registry snapshot. `alive[i]` reports
/// the liveness probe of `entries[i]`. Returns the records that stay and
/// the records to launch again; launching rewrites each of the latter
/// through the registry update path with its fresh PID.
pub fn supervisor_tick(entries: &Vec<ContainerEntry>, now: u64, alive: &Vec<bool>) -> (r: (
    Vec<ContainerEntry>,
    Vec<ContainerEntry>,
))
    requires
        alive@.len() == entries@.len(),
    ensures
        r.0.deep_view() == tick_kept(entries.deep_view(), now as int, alive@),
        r.1.deep_view() == tick_restarts(entries.deep_view(), now as int, alive@),
{
    let mut kept: Vec<ContainerEntry> = Vec::new();
    let mut restarts: Vec<ContainerEntry> = Vec::new();
    let mut i: usize = 0;
    while i < entries.len()
        invariant
            0 <= i <= entries@.len(),
            alive@.len() == entries@.len(),
            kept@.len() == tick_kept(
                entries.deep_view().subrange(0, i as int),
                now as int,
                alive@.subrange(0, i as int),
            ).len(),
            forall|j: int|
                0 <= j < kept@.len() ==> (#[trigger] kept@[j])@ == tick_kept(
                    entries.deep_view().subrange(0, i as int),
                    now as int,
                    alive@.subrange(0, i as int),
                )[j],
            restarts@.len() == tick_restarts(
                entries.deep_view().subrange(0, i as int),
                now as int,
                alive@.subrange(0, i as int),
            ).len(),
            forall|j: int|
                0 <= j < restarts@.len() ==> (#[trigger] restarts@[j])@ == tick_restarts(
                    entries.deep_view().subrange(0, i as int),
                    now as int,
                    alive@.subrange(0, i as int),
                )[j],
        decreases entries@.len() - i,
    {
        let ghost prefix = entries.deep_view().subrange(0, i as int);
        let ghost aprefix = alive@.subrange(0, i as int);
        proof {
            assert(entries.deep_view().subrange(0, i + 1) =~~= prefix.push(
                entries.deep_view()[i as int],
            ));
            assert(alive@.subrange(0, i + 1) =~= aprefix.push(alive@[i as int]));
            lemma_tick_push(prefix, now as int, aprefix, entries.deep_view()[i as int],
                alive@[i as int]);
            assert(entries@[i as int]@ == entries.deep_view()[i as int]);
        }
        let action = tick_decision(&entries[i], now, alive[i]);
        match action {
            TickAction::Skip => {
                kept.push(entries[i].duplicate());
            },
            TickAction::Restart => {
                restarts.push(entries[i].duplicate());
            },
            TickAction::Reap => {},
        }
        i += 1;
    }
    proof {
        assert(entries.deep_view().subrange(0, entries@.len() as int) =~~= entries.deep_view());
        assert(alive@.subrange(0, entries@.len() as int) =~= alive@);
        assert forall|j: int|
            0 <= j < kept@.len() implies kept.deep_view()[j] == tick_kept(
            entries.deep_view(),
            now as int,
            alive@,
        )[j] by {
            assert(kept@[j]@ == tick_kept(entries.deep_view(), now as int, alive@)[j]);
        }
        assert(kept.deep_view() =~= tick_kept(entries.deep_view(), now as int, alive@));
        assert forall|j: int|
            0 <= j < restarts@.len() implies restarts.deep_view()[j] == tick_restarts(
            entries.deep_view(),
            now as int,
            alive@,
        )[j] by {
            assert(restarts@[j]@ == tick_restarts(entries.deep_view(), now as int, alive@)[j]);
        }
        assert(restarts.deep_view() =~= tick_restarts(entries.deep_view(), now as int, alive@));
    }
    (kept, restarts)
}

// ---------------------------------------------------------------------------
// Laws: the stopped sentinel is sticky, the grace window is respected
// ---------------------------------------------------------------------------

/// One tick keeps every user-stopped record untouched and restarts no
/// user-stopped record.
pub proof fn lemma_stopped_survives_tick(
    s: Seq<EntryModel>,
    now: int,
    alive: Seq<bool>,
    e: EntryModel,
)
    requires
        s.len() == alive.len(),
        s.contains(e),
        e.pid == -2,
    ensures
        tick_kept(s, now, alive).contains(e),
        forall|i: int|
            0 <= i < tick_restarts(s, now, alive).len() ==> (#[trigger] tick_restarts(
                s,
                now,
                alive,
            )[i]).pid != -2,
    decreases s.len(),
{
    lemma_no_stopped_restarts(s, now, alive);
    let i = choose|i: int| 0 <= i < s.len() && s[i] == e;
    if i == 0 {
        assert(tick_kept(s, now, alive)[0] == e);
        assert(tick_kept(s, now, alive).contains(e));
    } else {
        assert(s.drop_first()[i - 1] == e);
        assert(s.drop_first().contains(e));
        lemma_stopped_survives_tick(s.drop_first(), now, alive.drop_first(), e);
        let tail = tick_kept(s.drop_first(), now, alive.drop_first());
        let k = choose|k: int| 0 <= k < tail.len() && tail[k] == e;
        if tick_skips(s.first(), now, alive.first()) {
            assert(tick_kept(s, now, alive)[k + 1] == e);
        } else {
            assert(tick_kept(s, now, alive)[k] == e);
        }
        assert(tick_kept(s, now, alive).contains(e));
    }
}

/// No restarted record carries the stopped sentinel.
proof fn lemma_no_stopped_restarts(s: Seq<EntryModel>, now: int, alive: Seq<bool>)
    ensures
        forall|i: int|
            0 <= i < tick_restarts(s, now, alive).len() ==> (#[trigger] tick_restarts(
                s,
                now,
                alive,
            )[i]).pid != -2,
    decreases s.len(),
{
    let r = tick_restarts(s, now, alive);
    if s.len() == 0 || alive.len() != s.len() {
    } else {
        lemma_no_stopped_restarts(s.drop_first(), now, alive.drop_first());
        let tail = tick_restarts(s.drop_first(), now, alive.drop_first());
        assert forall|i: int| 0 <= i < r.len() implies (#[trigger] r[i]).pid != -2 by {
            if tick_action_spec(s.first(), now, alive.first()) == TickAction::Restart {
                if i > 0 {
                    assert(r[i] == tail[i - 1]);
                }
            } else {
                assert(r[i] == tail[i]);
            }
        }
    }
}

/// A record inside its grace window survives the tick untouched and is
/// not restarted.
pub proof fn lemma_grace_survives_tick(
    s: Seq<EntryModel>,
    now: int,
    alive: Seq<bool>,
    e: EntryModel,
)
    requires
        s.len() == alive.len(),
        s.contains(e),
        e.pid == -1,
        now < e.timestamp + 5,
    ensures
        tick_kept(s, now, alive).contains(e),
        forall|i: int|
            0 <= i < tick_restarts(s, now, alive).len() ==> !in_grace(
                #[trigger] tick_restarts(s, now, alive)[i],
                now,
            ),
    decreases s.len(),
{
    lemma_no_grace_restarts(s, now, alive);
    let i = choose|i: int| 0 <= i < s.len() && s[i] == e;
    if i == 0 {
        assert(tick_kept(s, now, alive)[0] == e);
        assert(tick_kept(s, now, alive).contains(e));
    } else {
        assert(s.drop_first()[i - 1] == e);
        assert(s.drop_first().contains(e));
        lemma_grace_survives_tick(s.drop_first(), now, alive.drop_first(), e);
        let tail = tick_kept(s.drop_first(), now, alive.drop_first());
        let k = choose|k: int| 0 <= k < tail.len() && tail[k] == e;
        if tick_skips(s.first(), now, alive.first()) {
            assert(tick_kept(s, now, alive)[k + 1] == e);
        } else {
            assert(tick_kept(s, now, alive)[k] == e);
        }
        assert(tick_kept(s, now, alive).contains(e));
    }
}

proof fn lemma_no_grace_restarts(s: Seq<EntryModel>, now: int, alive: Seq<bool>)
    ensures
        forall|i: int|
            0 <= i < tick_restarts(s, now, alive).len() ==> !in_grace(
                #[trigger] tick_restarts(s, now, alive)[i],
                now,
            ),
    decreases s.len(),
{
    let r = tick_restarts(s, now, alive);
    if s.len() == 0 || alive.len() != s.len() {
    } else {
        lemma_no_grace_restarts(s.drop_first(), now, alive.drop_first());
        let tail = tick_restarts(s.drop_first(), now, alive.drop_first());
        assert forall|i: int| 0 <= i < r.len() implies !in_grace(#[trigger] r[i], now) by {
            if tick_action_spec(s.first(), now, alive.first()) == TickAction::Restart {
                if i > 0 {
                    assert(r[i] == tail[i - 1]);
                }
            } else {
                assert(r[i] == tail[i]);
            }
        }
    }
}

/// Every record the tick keeps was in the snapshot, under its name.
proof fn lemma_tick_kept_names(s: Seq<EntryModel>, now: int, alive: Seq<bool>)
    ensures
        forall|i: int|
            0 <= i < tick_kept(s, now, alive).len() ==> has_name(
                s,
                (#[trigger] tick_kept(s, now, alive)[i]).name,
            ),
    decreases s.len(),
{
    let r = tick_kept(s, now, alive);
    if s.len() > 0 && alive.len() == s.len() {
        lemma_tick_kept_names(s.drop_first(), now, alive.drop_first());
        let tail = tick_kept(s.drop_first(), now, alive.drop_first());
        assert forall|i: int| 0 <= i < r.len() implies has_name(s, (#[trigger] r[i]).name) by {
            if tick_skips(s.first(), now, alive.first()) {
                if i == 0 {
                    assert(r[0] == s.first());
                    assert(s[0].name == r[0].name);
                } else {
                    assert(r[i] == tail[i - 1]);
                    let k = choose|k: int|
                        0 <= k < s.drop_first().len() && (#[trigger] s.drop_first()[k]).name
                            == r[i].name;
                    assert(s[k + 1].name == r[i].name);
                }
            } else {
                assert(r[i] == tail[i]);
                let k = choose|k: int|
                    0 <= k < s.drop_first().len() && (#[trigger] s.drop_first()[k]).name
                        == r[i].name;
                assert(s[k + 1].name == r[i].name);
            }
        }
    }
}

/// A tick keeps every name unique: the registry invariant survives the
/// supervisor.
pub proof fn lemma_tick_kept_unique(s: Seq<EntryModel>, now: int, alive: Seq<bool>)
    requires
        crate::registry::unique_names(s),
    ensures
        crate::registry::unique_names(tick_kept(s, now, alive)),
    decreases s.len(),
{
    let r = tick_kept(s, now, alive);
    if s.len() > 0 && alive.len() == s.len() {
        assert(crate::registry::unique_names(s.drop_first())) by {
            assert(forall|i: int|
                0 <= i < s.drop_first().len() ==> s.drop_first()[i] == #[trigger] s[i + 1]);
        }
        lemma_tick_kept_unique(s.drop_first(), now, alive.drop_first());
        lemma_tick_kept_names(s.drop_first(), now, alive.drop_first());
        let tail = tick_kept(s.drop_first(), now, alive.drop_first());
        assert forall|i: int, j: int|
            0 <= i < j < r.len() implies (#[trigger] r[i]).name != (#[trigger] r[j]).name by {
            if tick_skips(s.first(), now, alive.first()) {
                assert(r[j] == tail[j - 1]);
                if i == 0 {
                    assert(r[0] == s.first());
                    if r[j].name == s[0].name {
                        let k = choose|k: int|
                            0 <= k < s.drop_first().len() && (#[trigger] s.drop_first()[k]).name
                                == tail[j - 1].name;
                        assert(s[k + 1].name == s[0].name);
                    }
                } else {
                    assert(r[i] == tail[i - 1]);
                }
            } else {
                assert(r[i] == tail[i]);
                assert(r[j] == tail[j]);
            }
        }
    }
}

/// One step of the supervisor loop's effect on the registry: the records
/// kept by the tick at `now` under the liveness probe `alive`.
#[verifier::ext_equal]
pub ghost struct TickInput {
    pub now: int,
    pub alive: Seq<bool>,
}

/// The registry after a whole sequence of ticks, each with its own clock
/// reading and probe results.
pub open spec fn run_ticks(s: Seq<EntryModel>, inputs: Seq<TickInput>) -> Seq<EntryModel>
    decreases inputs.len(),
{
    if inputs.len() == 0 {
        s
    } else {
        run_ticks(tick_kept(s, inputs.first().now, inputs.first().alive), inputs.drop_first())
    }
}

/// A user-stopped record survives any number of supervisor ticks,
/// whatever each tick's clock and liveness probes say.
pub proof fn lemma_stopped_survives_all_ticks(
    s: Seq<EntryModel>,
    inputs: Seq<TickInput>,
    e: EntryModel,
)
    requires
        s.contains(e),
        e.pid == -2,
        forall|k: int|
            0 <= k < inputs.len() ==> (#[trigger] inputs[k]).alive.len()
                == run_ticks(s, inputs.subrange(0, k)).len(),
    ensures
        run_ticks(s, inputs).contains(e),
    decreases inputs.len(),
{
    if inputs.len() > 0 {
        assert(inputs.subrange(0, 0) =~~= Seq::<TickInput>::empty());
        assert(run_ticks(s, inputs.subrange(0, 0)) == s);
        assert(inputs[0].alive.len() == s.len());
        lemma_stopped_survives_tick(s, inputs.first().now, inputs.first().alive, e);
        let s1 = tick_kept(s, inputs.first().now, inputs.first().alive);
        assert forall|k: int|
            0 <= k < inputs.drop_first().len() implies (#[trigger] inputs.drop_first()[k]).alive.len()
                == run_ticks(s1, inputs.drop_first().subrange(0, k)).len() by {
            assert(inputs.drop_first()[k] == inputs[k + 1]);
            assert(inputs.subrange(0, k + 1).first() == inputs.first());
            assert(inputs.subrange(0, k + 1).drop_first() =~~= inputs.drop_first().subrange(0, k));
            assert(run_ticks(s, inputs.subrange(0, k + 1)) == run_ticks(
                s1,
                inputs.drop_first().subrange(0, k),
            ));
        }
        lemma_stopped_survives_all_ticks(s1, inputs.drop_first(), e);
    }
}

// ---------------------------------------------------------------------------
// Orphan directories
// ---------------------------------------------------------------------------

/// The name of the image cache directory, which the sweep never touches.
pub open spec fn images_dir_name() -> Seq<char> {
    seq!['i', 'm', 'a', 'g', 'e', 's']
}

/// Of the directories under the container base, those that belong to no
/// record and are not the image cache: the startup sweep removes them.
pub open spec fn orphan_model(s: Seq<EntryModel>, dirs: Seq<Seq<char>>) -> Seq<Seq<char>>
    decreases dirs.len(),
{
    if dirs.len() == 0 {
        Seq::empty()
    } else {
        orphan_model(s, dirs.drop_last()) + (if dirs.last() == images_dir_name() || has_name(
            s,
            dirs.last(),
        ) {
            Seq::<Seq<char>>::empty()
        } else {
            seq![dirs.last()]
        })
    }
}

/// Pick the orphaned directories out of a directory listing of the
/// container base, in listing order.
pub fn orphan_directories(entries: &Vec<ContainerEntry>, dir_names: &Vec<String>) -> (r: Vec<
    String,
>)
    ensures
        r.deep_view() == orphan_model(entries.deep_view(), dir_names.deep_view()),
{
    let mut r: Vec<String> = Vec::new();
    let mut i: usize = 0;
    proof {
        reveal_strlit("images");
        assert("images"@ =~= images_dir_name());
    }
    while i < dir_names.len()
        invariant
            0 <= i <= dir_names@.len(),
            "images"@ == images_dir_name(),
            r@.len() == orphan_model(
                entries.deep_view(),
                dir_names.deep_view().subrange(0, i as int),
            ).len(),
            forall|j: int|
                0 <= j < r@.len() ==> (#[trigger] r@[j])@ == orphan_model(
                    entries.deep_view(),
                    dir_names.deep_view().subrange(0, i as int),
                )[j],
        decreases dir_names@.len() - i,
    {
        let ghost prefix = dir_names.deep_view().subrange(0, i as int);
        proof {
            assert(dir_names.deep_view().subrange(0, i + 1).drop_last() =~~= prefix);
            assert(dir_names.deep_view().subrange(0, i + 1).last() == dir_names.deep_view()[
                i as int
            ]);
            assert(dir_names@[i as int]@ == dir_names.deep_view()[i as int]);
        }
        let is_images = str_eq(dir_names[i].as_str(), "images");
        let found = crate::registry::find_name_index(entries, &dir_names[i]);
        let tracked_here = found.is_some();
        proof {
            if tracked_here {
                let k = found->Some_0 as int;
                assert(entries@[k]@.name == dir_names.deep_view()[i as int]);
                assert(entries.deep_view()[k].name == dir_names.deep_view()[i as int]);
                assert(has_name(entries.deep_view(), dir_names.deep_view()[i as int]));
            } else {
                if has_name(entries.deep_view(), dir_names.deep_view()[i as int]) {
                    let k = choose|k: int|
                        0 <= k < entries.deep_view().len() && (#[trigger] entries.deep_view()[k]).name
                            == dir_names.deep_view()[i as int];
                    assert(entries@[k]@.name == dir_names.deep_view()[i as int]);
                }
            }
        }
        if !is_images && !tracked_here {
            r.push(dir_names[i].clone());
        }
        i += 1;
    }
    proof {
        assert(dir_names.deep_view().subrange(0, dir_names@.len() as int) =~~= dir_names.deep_view());
        assert forall|j: int|
            0 <= j < r@.len() implies r.deep_view()[j] == orphan_model(
            entries.deep_view(),
            dir_names.deep_view(),
        )[j] by {
            assert(r@[j]@ == orphan_model(entries.deep_view(), dir_names.deep_view())[j]);
        }
        assert(r.deep_view() =~= orphan_model(entries.deep_view(), dir_names.deep_view()));
    }
    r
}

/// The sweep names only directories that no record owns, and never the
/// image cache.
pub proof fn lemma_orphans_sound(s: Seq<EntryModel>, dirs: Seq<Seq<char>>)
    ensures
        forall|j: int|
            0 <= j < orphan_model(s, dirs).len() ==> !has_name(
                s,
                #[trigger] orphan_model(s, dirs)[j],
            ) && orphan_model(s, dirs)[j] != images_dir_name() && dirs.contains(
                orphan_model(s, dirs)[j],
            ),
    decreases dirs.len(),
{
    let r = orphan_model(s, dirs);
    if dirs.len() > 0 {
        lemma_orphans_sound(s, dirs.drop_last());
        let head = orphan_model(s, dirs.drop_last());
        assert forall|j: int|
            0 <= j < r.len() implies !has_name(s, #[trigger] r[j]) && r[j] != images_dir_name()
                && dirs.contains(r[j]) by {
            if j < head.len() {
                assert(r[j] == head[j]);
                let k = choose|k: int| 0 <= k < dirs.drop_last().len() && dirs.drop_last()[k] == r[j];
                assert(dirs[k] == r[j]);
            } else {
                assert(r[j] == dirs.last());
                assert(dirs[dirs.len() - 1] == r[j]);
            }
        }
    }
}

/// Every untracked directory other than the image cache is swept.
pub proof fn lemma_orphans_complete(s: Seq<EntryModel>, dirs: Seq<Seq<char>>, d: Seq<char>)
    requires
        dirs.contains(d),
        d != images_dir_name(),
        !has_name(s, d),
    ensures
        orphan_model(s, dirs).contains(d),
    decreases dirs.len(),
{
    let r = orphan_model(s, dirs);
    let i = choose|i: int| 0 <= i < dirs.len() && dirs[i] == d;
    if i == dirs.len() - 1 {
        assert(r[r.len() - 1] == d);
        assert(r.contains(d));
    } else {
        assert(dirs.drop_last()[i] == d);
        assert(dirs.drop_last().contains(d));
        lemma_orphans_complete(s, dirs.drop_last(), d);
        let head = orphan_model(s, dirs.drop_last());
        let k = choose|k: int| 0 <= k < head.len() && head[k] == d;
        assert(r[k] == d);
        assert(r.contains(d));
    }
}

// ---------------------------------------------------------------------------
// Liveness from /proc/<pid>/status text
// ---------------------------------------------------------------------------

/// The prefix that marks the state line of a status file.
pub open spec fn state_line_prefix() -> Seq<char> {
    seq!['S', 't', 'a', 't', 'e', ':']
}

/// The first line starting with `State:`, if any.
pub open spec fn find_state_line(lines: Seq<Seq<char>>) -> Option<Seq<char>>
    decreases lines.len(),
{
    if lines.len() == 0 {
        None
    } else if is_prefix_of(state_line_prefix(), lines.first()) {
        Some(lines.first())
    } else {
        find_state_line(lines.drop_first())
    }
}

/// What `/proc/<pid>/status` text says about the process: alive when its
/// state line exists and does not mark a zombie.
pub open spec fn alive_from_status(t: Seq<char>) -> bool {
    match find_state_line(split_on(t, '\n')) {
        Some(l) => !l.contains('Z'),
        None => false,
    }
}

/// Read liveness out of status-file text.
pub fn status_shows_alive(status: &str) -> (r: bool)
    ensures
        r == alive_from_status(status@),
{
    proof {
        reveal_strlit("State:");
        assert("State:"@ =~= state_line_prefix());
    }
    let lines = split_str(status, '\n');
    let ghost lines_spec = split_on(status@, '\n');
    let mut i: usize = 0;
    proof {
        assert(lines_spec.subrange(0, lines_spec.len() as int) =~~= lines_spec);
    }
    while i < lines.len()
        invariant
            0 <= i <= lines@.len(),
            lines.deep_view() == lines_spec,
            lines_spec == split_on(status@, '\n'),
            "State:"@ == state_line_prefix(),
            find_state_line(lines_spec) == find_state_line(
                lines_spec.subrange(i as int, lines_spec.len() as int),
            ),
        decreases lines@.len() - i,
    {
        let ghost rem = lines_spec.subrange(i as int, lines_spec.len() as int);
        proof {
            assert(rem.first() == lines_spec[i as int]);
            assert(rem.drop_first() =~~= lines_spec.subrange(i + 1, lines_spec.len() as int));
            assert(lines@[i as int]@ == lines.deep_view()[i as int]);
        }
        if str_starts_with(lines[i].as_str(), "State:") {
            let zombie = contains_char(lines[i].as_str(), 'Z');
            return !zombie;
        }
        i += 1;
    }
    proof {
        assert(lines_spec.subrange(lines_spec.len() as int, lines_spec.len() as int)
            =~~= Seq::<Seq<char>>::empty());
    }
    false
}

} // verus!
