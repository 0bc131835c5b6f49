//! Operations on the in-memory registry state: upsert by name, removal
//! by name or PID, and lookup by identifier, together with the laws they
//! obey (name uniqueness, exactly-one-record-per-name after an update,
//! independence of upserts under distinct names).

use vstd::prelude::*;

use vstd::pervasive::VecAdditionalExecFns;

use crate::text::{parse_i32_spec, parse_i32_str};
use crate::tracking::{ContainerEntry, EntryModel};

verus! {

// ---------------------------------------------------------------------------
// Specifications
// ---------------------------------------------------------------------------

/// Some record in `s` carries the name `n`.
pub open spec fn has_name(s: Seq<EntryModel>, n: Seq<char>) -> bool {
    exists|i: int| 0 <= i < s.len() && (#[trigger] s[i]).name == n
}

/// How many records in `s` carry the name `n`.
pub open spec fn count_name(s: Seq<EntryModel>, n: Seq<char>) -> int
    decreases s.len(),
{
    if s.len() == 0 {
        0
    } else {
        (if s.first().name == n {
            1int
        } else {
            0int
        }) + count_name(s.drop_first(), n)
    }
}

/// Every name appears on at most one record.
pub open spec fn unique_names(s: Seq<EntryModel>) -> bool {
    forall|i: int, j: int| 0 <= i < j < s.len() ==> (#[trigger] s[i]).name != (#[trigger] s[j]).name
}

/// Replace the first record named like `e`, or append `e` if none is.
pub open spec fn upsert_model(s: Seq<EntryModel>, e: EntryModel) -> Seq<EntryModel>
    decreases s.len(),
{
    if s.len() == 0 {
        seq![e]
    } else if s.first().name == e.name {
        seq![e] + s.drop_first()
    } else {
        seq![s.first()] + upsert_model(s.drop_first(), e)
    }
}

/// Drop every record named `n`, keeping the others in order.
pub open spec fn remove_name_model(s: Seq<EntryModel>, n: Seq<char>) -> Seq<EntryModel>
    decreases s.len(),
{
    if s.len() == 0 {
        Seq::empty()
    } else {
        (if s.first().name == n {
            Seq::empty()
        } else {
            seq![s.first()]
        }) + remove_name_model(s.drop_first(), n)
    }
}

/// Drop every record whose PID is `p`, keeping the others in order.
pub open spec fn remove_pid_model(s: Seq<EntryModel>, p: int) -> Seq<EntryModel>
    decreases s.len(),
{
    if s.len() == 0 {
        Seq::empty()
    } else {
        (if s.first().pid == p {
            Seq::empty()
        } else {
            seq![s.first()]
        }) + remove_pid_model(s.drop_first(), p)
    }
}

// ---------------------------------------------------------------------------
// Laws of upsert
// ---------------------------------------------------------------------------

/// A registry without the name counts zero records of it.
proof fn lemma_count_zero(s: Seq<EntryModel>, n: Seq<char>)
    requires
        forall|i: int| 0 <= i < s.len() ==> (#[trigger] s[i]).name != n,
    ensures
        count_name(s, n) == 0,
    decreases s.len(),
{
    if s.len() > 0 {
        assert(forall|i: int|
            0 <= i < s.drop_first().len() ==> s.drop_first()[i] == #[trigger] s[i + 1]);
        lemma_count_zero(s.drop_first(), n);
    }
}

/// Every record of an upsert result either is the new record's name or
/// was named so before.
proof fn lemma_upsert_names(s: Seq<EntryModel>, e: EntryModel)
    ensures
        forall|i: int|
            0 <= i < upsert_model(s, e).len() ==> (#[trigger] upsert_model(s, e)[i]).name == e.name
                || has_name(s, upsert_model(s, e)[i].name),
    decreases s.len(),
{
    let r = upsert_model(s, e);
    if s.len() == 0 {
    } else if s.first().name == e.name {
        assert forall|i: int|
            0 <= i < r.len() implies (#[trigger] r[i]).name == e.name || has_name(
            s,
            r[i].name,
        ) by {
            if i > 0 {
                assert(r[i] == s.drop_first()[i - 1]);
                assert(s[i] == r[i]);
            }
        }
    } else {
        lemma_upsert_names(s.drop_first(), e);
        assert forall|i: int|
            0 <= i < r.len() implies (#[trigger] r[i]).name == e.name || has_name(
            s,
            r[i].name,
        ) by {
            if i == 0 {
                assert(r[0] == s[0]);
            } else {
                assert(r[i] == upsert_model(s.drop_first(), e)[i - 1]);
                if r[i].name != e.name {
                    let j = choose|j: int|
                        0 <= j < s.drop_first().len() && (#[trigger] s.drop_first()[j]).name
                            == r[i].name;
                    assert(s[j + 1].name == r[i].name);
                }
            }
        }
    }
}

/// Upserting a record keeps every name unique.
///
/// The registry invariant: at most one record per name survives any
/// update.
pub proof fn lemma_upsert_preserves_unique(s: Seq<EntryModel>, e: EntryModel)
    requires
        unique_names(s),
    ensures
        unique_names(upsert_model(s, e)),
    decreases s.len(),
{
    let r = upsert_model(s, e);
    if s.len() == 0 {
    } else if s.first().name == e.name {
        assert forall|i: int, j: int|
            0 <= i < j < r.len() implies (#[trigger] r[i]).name != (#[trigger] r[j]).name by {
            assert(r[j] == s.drop_first()[j - 1]);
            assert(r[j] == s[j]);
            if i == 0 {
                assert(s[0].name != s[j].name);
            } else {
                assert(r[i] == s[i]);
            }
        }
    } else {
        assert(unique_names(s.drop_first())) by {
            assert(forall|i: int|
                0 <= i < s.drop_first().len() ==> s.drop_first()[i] == #[trigger] s[i + 1]);
        }
        lemma_upsert_preserves_unique(s.drop_first(), e);
        lemma_upsert_names(s.drop_first(), e);
        let tail = upsert_model(s.drop_first(), e);
        assert forall|i: int, j: int|
            0 <= i < j < r.len() implies (#[trigger] r[i]).name != (#[trigger] r[j]).name by {
            if i == 0 {
                assert(r[j] == tail[j - 1]);
                if r[j].name == s[0].name {
                    assert(tail[j - 1].name == e.name || has_name(s.drop_first(), tail[j - 1].name));
                    if tail[j - 1].name != e.name {
                        let k = choose|k: int|
                            0 <= k < s.drop_first().len() && (#[trigger] s.drop_first()[k]).name
                                == tail[j - 1].name;
                        assert(s[k + 1].name == s[0].name);
                    }
                }
            } else {
                assert(r[i] == tail[i - 1]);
                assert(r[j] == tail[j - 1]);
            }
        }
    }
}

/// After an upsert into a registry with unique names, exactly one record
/// carries the new record's name, and it is the new record.
pub proof fn lemma_upsert_exactly_one(s: Seq<EntryModel>, e: EntryModel)
    requires
        unique_names(s),
    ensures
        count_name(upsert_model(s, e), e.name) == 1,
        forall|i: int|
            0 <= i < upsert_model(s, e).len() && (#[trigger] upsert_model(s, e)[i]).name == e.name
                ==> upsert_model(s, e)[i] == e,
        upsert_model(s, e).contains(e),
    decreases s.len(),
{
    let r = upsert_model(s, e);
    if s.len() == 0 {
        assert(count_name(r.drop_first(), e.name) == 0) by {
            assert(r.drop_first() =~= Seq::<EntryModel>::empty());
        }
        assert(r[0] == e);
        assert(r.contains(e));
    } else if s.first().name == e.name {
        assert(r.first() == e);
        assert(r.drop_first() =~= s.drop_first());
        assert(forall|i: int|
            0 <= i < s.drop_first().len() ==> s.drop_first()[i] == #[trigger] s[i + 1]);
        lemma_count_zero(s.drop_first(), e.name);
        assert(count_name(r, e.name) == 1);
        assert forall|i: int| 0 <= i < r.len() && (#[trigger] r[i]).name == e.name implies r[i]
            == e by {
            if i > 0 {
                assert(r[i] == s[i]);
                assert(s[0].name != s[i].name);
            }
        }
        assert(r[0] == e);
        assert(r.contains(e));
    } else {
        assert(unique_names(s.drop_first())) by {
            assert(forall|i: int|
                0 <= i < s.drop_first().len() ==> s.drop_first()[i] == #[trigger] s[i + 1]);
        }
        lemma_upsert_exactly_one(s.drop_first(), e);
        let tail = upsert_model(s.drop_first(), e);
        assert(r.first() == s[0]);
        assert(r.drop_first() =~= tail);
        assert(count_name(r, e.name) == count_name(tail, e.name));
        assert forall|i: int| 0 <= i < r.len() && (#[trigger] r[i]).name == e.name implies r[i]
            == e by {
            if i > 0 {
                assert(r[i] == tail[i - 1]);
            }
        }
        let k = choose|k: int| 0 <= k < tail.len() && tail[k] == e;
        assert(r[k + 1] == e);
        assert(r.contains(e));
    }
}

/// An upsert never disturbs a record of another name.
pub proof fn lemma_upsert_keeps_others(s: Seq<EntryModel>, e: EntryModel, x: EntryModel)
    requires
        s.contains(x),
        x.name != e.name,
    ensures
        upsert_model(s, e).contains(x),
    decreases s.len(),
{
    let r = upsert_model(s, e);
    let i = choose|i: int| 0 <= i < s.len() && s[i] == x;
    if s.first().name == e.name {
        assert(i != 0);
        assert(r[i] == s.drop_first()[i - 1]);
        assert(r[i] == s[i]);
        assert(r.contains(x));
    } else {
        if i == 0 {
            assert(r[0] == x);
            assert(r.contains(x));
        } else {
            assert(s.drop_first()[i - 1] == x);
            assert(s.drop_first().contains(x));
            lemma_upsert_keeps_others(s.drop_first(), e, x);
            let tail = upsert_model(s.drop_first(), e);
            let k = choose|k: int| 0 <= k < tail.len() && tail[k] == x;
            assert(r[k + 1] == x);
            assert(r.contains(x));
        }
    }
}

/// Upserting two records with distinct names, in either order one after
/// the other, leaves both present.
pub proof fn lemma_concurrent_upserts(s: Seq<EntryModel>, a: EntryModel, b: EntryModel)
    requires
        unique_names(s),
        a.name != b.name,
    ensures
        upsert_model(upsert_model(s, a), b).contains(a),
        upsert_model(upsert_model(s, a), b).contains(b),
{
    lemma_upsert_exactly_one(s, a);
    lemma_upsert_preserves_unique(s, a);
    lemma_upsert_keeps_others(upsert_model(s, a), b, a);
    lemma_upsert_exactly_one(upsert_model(s, a), b);
}

// ---------------------------------------------------------------------------
// Laws of removal
// ---------------------------------------------------------------------------

/// After removal no record of that name remains.
pub proof fn lemma_remove_name_gone(s: Seq<EntryModel>, n: Seq<char>)
    ensures
        !has_name(remove_name_model(s, n), n),
    decreases s.len(),
{
    let r = remove_name_model(s, n);
    if s.len() > 0 {
        lemma_remove_name_gone(s.drop_first(), n);
        let tail = remove_name_model(s.drop_first(), n);
        if has_name(r, n) {
            let i = choose|i: int| 0 <= i < r.len() && (#[trigger] r[i]).name == n;
            if s.first().name == n {
                assert(r[i] == tail[i]);
            } else {
                if i == 0 {
                    assert(r[0] == s.first());
                } else {
                    assert(r[i] == tail[i - 1]);
                }
            }
        }
    }
}

/// Removal keeps every record of another name.
pub proof fn lemma_remove_name_keeps_others(s: Seq<EntryModel>, n: Seq<char>, x: EntryModel)
    requires
        s.contains(x),
        x.name != n,
    ensures
        remove_name_model(s, n).contains(x),
    decreases s.len(),
{
    let r = remove_name_model(s, n);
    let i = choose|i: int| 0 <= i < s.len() && s[i] == x;
    if i == 0 {
        assert(s.first() == x);
        assert(r[0] == x);
        assert(r.contains(x));
    } else {
        assert(s.drop_first()[i - 1] == x);
        assert(s.drop_first().contains(x));
        lemma_remove_name_keeps_others(s.drop_first(), n, x);
        let tail = remove_name_model(s.drop_first(), n);
        let k = choose|k: int| 0 <= k < tail.len() && tail[k] == x;
        if s.first().name == n {
            assert(r[k] == x);
        } else {
            assert(r[k + 1] == x);
        }
        assert(r.contains(x));
    }
}

/// Every record the removal keeps was in the registry, under its name.
proof fn lemma_remove_name_names(s: Seq<EntryModel>, n: Seq<char>)
    ensures
        forall|i: int|
            0 <= i < remove_name_model(s, n).len() ==> has_name(
                s,
                (#[trigger] remove_name_model(s, n)[i]).name,
            ),
    decreases s.len(),
{
    let r = remove_name_model(s, n);
    if s.len() > 0 {
        lemma_remove_name_names(s.drop_first(), n);
        let tail = remove_name_model(s.drop_first(), n);
        assert forall|i: int| 0 <= i < r.len() implies has_name(s, (#[trigger] r[i]).name) by {
            if s.first().name == n {
                assert(r[i] == tail[i]);
                let k = choose|k: int|
                    0 <= k < s.drop_first().len() && (#[trigger] s.drop_first()[k]).name
                        == r[i].name;
                assert(s[k + 1].name == r[i].name);
            } else {
                if i == 0 {
                    assert(r[0] == s.first());
                    assert(s[0].name == r[0].name);
                } else {
                    assert(r[i] == tail[i - 1]);
                    let k = choose|k: int|
                        0 <= k < s.drop_first().len() && (#[trigger] s.drop_first()[k]).name
                            == r[i].name;
                    assert(s[k + 1].name == r[i].name);
                }
            }
        }
    }
}

/// Removal keeps every name unique.
pub proof fn lemma_remove_name_preserves_unique(s: Seq<EntryModel>, n: Seq<char>)
    requires
        unique_names(s),
    ensures
        unique_names(remove_name_model(s, n)),
    decreases s.len(),
{
    let r = remove_name_model(s, n);
    if s.len() > 0 {
        assert(unique_names(s.drop_first())) by {
            assert(forall|i: int|
                0 <= i < s.drop_first().len() ==> s.drop_first()[i] == #[trigger] s[i + 1]);
        }
        lemma_remove_name_preserves_unique(s.drop_first(), n);
        lemma_remove_name_names(s.drop_first(), n);
        let tail = remove_name_model(s.drop_first(), n);
        assert forall|i: int, j: int|
            0 <= i < j < r.len() implies (#[trigger] r[i]).name != (#[trigger] r[j]).name by {
            if s.first().name == n {
                assert(r[i] == tail[i]);
                assert(r[j] == tail[j]);
            } else {
                assert(r[j] == tail[j - 1]);
                if i == 0 {
                    assert(r[0] == s.first());
                    if r[j].name == s[0].name {
                        let k = choose|k: int|
                            0 <= k < s.drop_first().len() && (#[trigger] s.drop_first()[k]).name
                                == tail[j - 1].name;
                        assert(s[k + 1].name == s[0].name);
                    }
                } else {
                    assert(r[i] == tail[i - 1]);
                }
            }
        }
    }
}

/// Removing a name twice is the same as removing it once: the deletion
/// of a record is idempotent at the registry.
pub proof fn lemma_remove_name_idempotent(s: Seq<EntryModel>, n: Seq<char>)
    ensures
        remove_name_model(remove_name_model(s, n), n) == remove_name_model(s, n),
    decreases s.len(),
{
    let r = remove_name_model(s, n);
    if s.len() == 0 {
        assert(remove_name_model(r, n) =~~= r);
    } else {
        lemma_remove_name_idempotent(s.drop_first(), n);
        let tail = remove_name_model(s.drop_first(), n);
        if s.first().name == n {
            assert(r =~~= tail);
        } else {
            assert(r.first() == s.first());
            assert(r.drop_first() =~~= tail);
            assert(remove_name_model(r, n) =~~= seq![r.first()] + remove_name_model(tail, n));
            assert(remove_name_model(r, n) =~~= r);
        }
    }
}

// ---------------------------------------------------------------------------
// Executable operations
// ---------------------------------------------------------------------------

/// Index of the first record named `name`, if any.
pub fn find_name_index(entries: &Vec<ContainerEntry>, name: &String) -> (r: Option<usize>)
    ensures
        match r {
            Some(i) => i < entries@.len() && entries@[i as int]@.name == name@ && forall|j: int|
                0 <= j < i ==> (#[trigger] entries@[j])@.name != name@,
            None => forall|j: int|
                0 <= j < entries@.len() ==> (#[trigger] entries@[j])@.name != name@,
        },
{
    let mut i: usize = 0;
    while i < entries.len()
        invariant
            0 <= i <= entries@.len(),
            forall|j: int| 0 <= j < i ==> (#[trigger] entries@[j])@.name != name@,
        decreases entries@.len() - i,
    {
        if entries[i].name.eq(name) {
            return Some(i);
        }
        i += 1;
    }
    None
}

/// Replace the record named like `e` or append `e`: the registry's
/// read-modify-write update.
pub fn upsert_entry(entries: &mut Vec<ContainerEntry>, e: ContainerEntry)
    ensures
        final(entries).deep_view() == upsert_model(old(entries).deep_view(), e@),
{
    let ghost s = entries.deep_view();
    let ghost ev = e@;
    match find_name_index(entries, &e.name) {
        Some(i) => {
            proof {
                lemma_upsert_at_index(s, ev, i as int);
            }
            entries.set(i, e);
            proof {
                assert forall|j: int|
                    0 <= j < entries@.len() implies entries.deep_view()[j] == upsert_model(
                    s,
                    ev,
                )[j] by {
                    if j == i {
                        assert(entries@[j]@ == ev);
                    } else {
                        assert(entries@[j] == old(entries)@[j]);
                    }
                }
                assert(entries.deep_view() =~= upsert_model(s, ev));
            }
        },
        None => {
            proof {
                lemma_upsert_append(s, ev);
            }
            entries.push(e);
            proof {
                assert forall|j: int|
                    0 <= j < entries@.len() implies entries.deep_view()[j] == upsert_model(
                    s,
                    ev,
                )[j] by {
                    if j < entries@.len() - 1 {
                        assert(entries@[j] == old(entries)@[j]);
                    } else {
                        assert(entries@[j]@ == ev);
                    }
                }
                assert(entries.deep_view() =~= upsert_model(s, ev));
            }
        },
    }
}

/// Upserting where the first match sits at index `i` is updating there.
proof fn lemma_upsert_at_index(s: Seq<EntryModel>, e: EntryModel, i: int)
    requires
        0 <= i < s.len(),
        s[i].name == e.name,
        forall|j: int| 0 <= j < i ==> (#[trigger] s[j]).name != e.name,
    ensures
        upsert_model(s, e) == s.update(i, e),
    decreases i,
{
    if i == 0 {
        assert(upsert_model(s, e) =~= s.update(0, e));
    } else {
        assert(s.drop_first()[i - 1].name == e.name);
        assert(forall|j: int|
            0 <= j < i - 1 ==> (#[trigger] s.drop_first()[j]).name == s[j + 1].name);
        lemma_upsert_at_index(s.drop_first(), e, i - 1);
        assert(upsert_model(s, e) =~= s.update(i, e));
    }
}

/// Upserting a fresh name appends.
proof fn lemma_upsert_append(s: Seq<EntryModel>, e: EntryModel)
    requires
        forall|j: int| 0 <= j < s.len() ==> (#[trigger] s[j]).name != e.name,
    ensures
        upsert_model(s, e) == s.push(e),
    decreases s.len(),
{
    if s.len() == 0 {
        assert(upsert_model(s, e) =~= s.push(e));
    } else {
        assert(forall|j: int|
            0 <= j < s.drop_first().len() ==> (#[trigger] s.drop_first()[j]).name == s[j
                + 1].name);
        lemma_upsert_append(s.drop_first(), e);
        assert(upsert_model(s, e) =~= s.push(e));
    }
}

/// Keep only the records not named `name`: the filter-and-rewrite used
/// by deletion.
pub fn remove_entries_by_name(entries: &Vec<ContainerEntry>, name: &String) -> (r: Vec<
    ContainerEntry,
>)
    ensures
        r.deep_view() == remove_name_model(entries.deep_view(), name@),
{
    let mut r: Vec<ContainerEntry> = Vec::new();
    let mut i: usize = 0;
    while i < entries.len()
        invariant
            0 <= i <= entries@.len(),
            r@.len() == remove_name_model(entries.deep_view().subrange(0, i as int), name@).len(),
            forall|j: int|
                0 <= j < r@.len() ==> (#[trigger] r@[j])@ == remove_name_model(
                    entries.deep_view().subrange(0, i as int),
                    name@,
                )[j],
        decreases entries@.len() - i,
    {
        let ghost prefix = entries.deep_view().subrange(0, i as int);
        proof {
            assert(entries.deep_view().subrange(0, i + 1) =~~= prefix.push(
                entries.deep_view()[i as int],
            ));
            lemma_remove_name_push(prefix, entries.deep_view()[i as int], name@);
            assert(entries@[i as int]@ == entries.deep_view()[i as int]);
        }
        if !entries[i].name.eq(name) {
            r.push(entries[i].duplicate());
        }
        i += 1;
    }
    proof {
        assert(entries.deep_view().subrange(0, entries@.len() as int) =~~= entries.deep_view());
        assert forall|j: int|
            0 <= j < r@.len() implies r.deep_view()[j] == remove_name_model(
            entries.deep_view(),
            name@,
        )[j] by {
            assert(r@[j]@ == remove_name_model(entries.deep_view(), name@)[j]);
        }
        assert(r.deep_view() =~= remove_name_model(entries.deep_view(), name@));
    }
    r
}

/// Keep only the records whose PID is not `pid`.
pub fn remove_entries_by_pid(entries: &Vec<ContainerEntry>, pid: i32) -> (r: Vec<ContainerEntry>)
    ensures
        r.deep_view() == remove_pid_model(entries.deep_view(), pid as int),
{
    let mut r: Vec<ContainerEntry> = Vec::new();
    let mut i: usize = 0;
    while i < entries.len()
        invariant
            0 <= i <= entries@.len(),
            r@.len() == remove_pid_model(
                entries.deep_view().subrange(0, i as int),
                pid as int,
            ).len(),
            forall|j: int|
                0 <= j < r@.len() ==> (#[trigger] r@[j])@ == remove_pid_model(
                    entries.deep_view().subrange(0, i as int),
                    pid as int,
                )[j],
        decreases entries@.len() - i,
    {
        let ghost prefix = entries.deep_view().subrange(0, i as int);
        proof {
            assert(entries.deep_view().subrange(0, i + 1) =~~= prefix.push(
                entries.deep_view()[i as int],
            ));
            lemma_remove_pid_push(prefix, entries.deep_view()[i as int], pid as int);
            assert(entries@[i as int]@ == entries.deep_view()[i as int]);
        }
        if entries[i].pid != pid {
            r.push(entries[i].duplicate());
        }
        i += 1;
    }
    proof {
        assert(entries.deep_view().subrange(0, entries@.len() as int) =~~= entries.deep_view());
        assert forall|j: int|
            0 <= j < r@.len() implies r.deep_view()[j] == remove_pid_model(
            entries.deep_view(),
            pid as int,
        )[j] by {
            assert(r@[j]@ == remove_pid_model(entries.deep_view(), pid as int)[j]);
        }
        assert(r.deep_view() =~= remove_pid_model(entries.deep_view(), pid as int));
    }
    r
}

proof fn lemma_remove_name_push(s: Seq<EntryModel>, e: EntryModel, n: Seq<char>)
    ensures
        remove_name_model(s.push(e), n) == remove_name_model(s, n) + (if e.name == n {
            Seq::<EntryModel>::empty()
        } else {
            seq![e]
        }),
    decreases s.len(),
{
    if s.len() == 0 {
        assert(s.push(e).first() == e);
        assert(s.push(e).drop_first() =~~= Seq::<EntryModel>::empty());
        assert(remove_name_model(Seq::<EntryModel>::empty(), n) =~~= Seq::<EntryModel>::empty());
        assert(remove_name_model(s.push(e), n) =~~= remove_name_model(s, n) + (if e.name == n {
            Seq::<EntryModel>::empty()
        } else {
            seq![e]
        }));
    } else {
        assert(s.push(e).first() == s.first());
        assert(s.push(e).drop_first() =~~= s.drop_first().push(e));
        lemma_remove_name_push(s.drop_first(), e, n);
        assert(remove_name_model(s.push(e), n) =~~= remove_name_model(s, n) + (if e.name == n {
            Seq::<EntryModel>::empty()
        } else {
            seq![e]
        }));
    }
}

proof fn lemma_remove_pid_push(s: Seq<EntryModel>, e: EntryModel, p: int)
    ensures
        remove_pid_model(s.push(e), p) == remove_pid_model(s, p) + (if e.pid == p {
            Seq::<EntryModel>::empty()
        } else {
            seq![e]
        }),
    decreases s.len(),
{
    if s.len() == 0 {
        assert(s.push(e).first() == e);
        assert(s.push(e).drop_first() =~~= Seq::<EntryModel>::empty());
        assert(remove_pid_model(Seq::<EntryModel>::empty(), p) =~~= Seq::<EntryModel>::empty());
        assert(remove_pid_model(s.push(e), p) =~~= remove_pid_model(s, p) + (if e.pid == p {
            Seq::<EntryModel>::empty()
        } else {
            seq![e]
        }));
    } else {
        assert(s.push(e).first() == s.first());
        assert(s.push(e).drop_first() =~~= s.drop_first().push(e));
        lemma_remove_pid_push(s.drop_first(), e, p);
        assert(remove_pid_model(s.push(e), p) =~~= remove_pid_model(s, p) + (if e.pid == p {
            Seq::<EntryModel>::empty()
        } else {
            seq![e]
        }));
    }
}

/// Find a record the way the store resolves an identifier: by exact name
/// first, else, where the identifier reads as a number, by PID.
pub fn find_entry(entries: &Vec<ContainerEntry>, identifier: &String) -> (r: Option<usize>)
    ensures
        match r {
            Some(i) => i < entries@.len() && ((entries@[i as int]@.name == identifier@ && forall|
                j: int,
            |
                0 <= j < i ==> (#[trigger] entries@[j])@.name != identifier@) || (!has_name(
                entries.deep_view(),
                identifier@,
            ) && parse_i32_spec(identifier@) is Some && entries@[i as int]@.pid == parse_i32_spec(
                identifier@,
            )->Some_0 as int && forall|j: int|
                0 <= j < i ==> (#[trigger] entries@[j])@.pid != parse_i32_spec(
                    identifier@,
                )->Some_0 as int)),
            None => !has_name(entries.deep_view(), identifier@) && forall|j: int|
                0 <= j < entries@.len() ==> !(parse_i32_spec(identifier@) is Some
                    && (#[trigger] entries@[j])@.pid == parse_i32_spec(identifier@)->Some_0 as int),
        },
{
    match find_name_index(entries, identifier) {
        Some(i) => Some(i),
        None => {
            proof {
                assert(!has_name(entries.deep_view(), identifier@)) by {
                    if has_name(entries.deep_view(), identifier@) {
                        let k = choose|k: int|
                            0 <= k < entries.deep_view().len() && (#[trigger] entries.deep_view()[k]).name
                                == identifier@;
                        assert(entries@[k]@.name == identifier@);
                    }
                }
            }
            match parse_i32_str(identifier.as_str()) {
                Some(pid) => {
                    let mut i: usize = 0;
                    while i < entries.len()
                        invariant
                            0 <= i <= entries@.len(),
                            parse_i32_spec(identifier@) == Some(pid),
                            !has_name(entries.deep_view(), identifier@),
                            forall|j: int|
                                0 <= j < i ==> (#[trigger] entries@[j])@.pid != pid as int,
                        decreases entries@.len() - i,
                    {
                        if entries[i].pid == pid {
                            return Some(i);
                        }
                        i += 1;
                    }
                    None
                },
                None => None,
            }
        },
    }
}

} // verus!
