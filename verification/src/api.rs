//! The data the control plane exchanges with the core: the request
//! parameter, the errors an identifier can raise, and the volume
//! overview assembled from the registry. The HTTP server itself is an
//! external collaborator; it hands these values in and out.

use vstd::prelude::*;

use crate::text::{u64_dec, u64_to_string, push_char};
use crate::tracking::{ContainerEntry, EntryModel};

verus! {

/// The body of a control-plane request: a name or a PID in text.
pub struct CommandParams {
    pub container_id: String,
}

/// Why a control-plane request is rejected.
#[derive(Clone, Copy, Debug, PartialEq, Eq, Structural)]
pub enum ContainerError {
    /// The identifier is not a name or number the registry could hold.
    InvalidContainerId,
    /// No record matches the identifier.
    ContainerNotFound,
}

/// One bind mount as the control plane reports it.
pub struct VolumeInfo {
    pub name: String,
    pub host_path: String,
    pub container_path: String,
    pub container: String,
}

/// Mathematical model of one reported bind mount.
#[verifier::ext_equal]
pub ghost struct VolumeInfoModel {
    pub name: Seq<char>,
    pub host_path: Seq<char>,
    pub container_path: Seq<char>,
    pub container: Seq<char>,
}

impl View for VolumeInfo {
    type V = VolumeInfoModel;

    open spec fn view(&self) -> VolumeInfoModel {
        VolumeInfoModel {
            name: self.name@,
            host_path: self.host_path@,
            container_path: self.container_path@,
            container: self.container@,
        }
    }
}

impl DeepView for VolumeInfo {
    type V = VolumeInfoModel;

    open spec fn deep_view(&self) -> VolumeInfoModel {
        self.view()
    }
}

/// The report of one record's volume at index `i`: named `vol-<i>`,
/// tagged with the owning container.
pub open spec fn volume_info_model(e: EntryModel, i: int) -> VolumeInfoModel {
    VolumeInfoModel {
        name: seq!['v', 'o', 'l', '-'] + u64_dec(i as nat),
        host_path: e.volumes[i].host,
        container_path: e.volumes[i].guest,
        container: e.name,
    }
}

pub open spec fn entry_volume_infos(e: EntryModel) -> Seq<VolumeInfoModel> {
    Seq::new(e.volumes.len(), |i: int| volume_info_model(e, i))
}

/// Every bind mount of every record, in registry order.
pub open spec fn volumes_overview_model(s: Seq<EntryModel>) -> Seq<VolumeInfoModel>
    decreases s.len(),
{
    if s.len() == 0 {
        Seq::empty()
    } else {
        volumes_overview_model(s.drop_last()) + entry_volume_infos(s.last())
    }
}

/// Assemble the volume overview the control plane serves.
pub fn list_volumes(entries: &Vec<ContainerEntry>) -> (r: Vec<VolumeInfo>)
    ensures
        r.deep_view() == volumes_overview_model(entries.deep_view()),
{
    let mut r: Vec<VolumeInfo> = Vec::new();
    let mut i: usize = 0;
    while i < entries.len()
        invariant
            0 <= i <= entries@.len(),
            r@.len() == volumes_overview_model(entries.deep_view().subrange(0, i as int)).len(),
            forall|j: int|
                0 <= j < r@.len() ==> (#[trigger] r@[j])@ == volumes_overview_model(
                    entries.deep_view().subrange(0, i as int),
                )[j],
        decreases entries@.len() - i,
    {
        let ghost prefix = entries.deep_view().subrange(0, i as int);
        let ghost em = entries.deep_view()[i as int];
        proof {
            assert(entries.deep_view().subrange(0, i + 1).drop_last() =~~= prefix);
            assert(entries.deep_view().subrange(0, i + 1).last() == em);
            assert(entries@[i as int]@ == em);
        }
        let ghost base = volumes_overview_model(prefix).len() as int;
        let mut k: usize = 0;
        let vols_len = entries[i].volumes.len();
        while k < vols_len
            invariant
                0 <= k <= vols_len,
                i < entries@.len(),
                vols_len == em.volumes.len(),
                em == entries.deep_view()[i as int],
                em == entries@[i as int]@,
                base == volumes_overview_model(prefix).len(),
                r@.len() == base + k,
                forall|j: int|
                    0 <= j < base ==> (#[trigger] r@[j])@ == volumes_overview_model(prefix)[j],
                forall|j: int|
                    0 <= j < k ==> (#[trigger] r@[base + j])@ == volume_info_model(em, j),
            decreases vols_len - k,
        {
            let mut name = String::from_str("vol-");
            let idx_text = u64_to_string(k as u64);
            name.append(idx_text.as_str());
            proof {
                reveal_strlit("vol-");
                assert(name@ =~= seq!['v', 'o', 'l', '-'] + u64_dec(k as nat));
            }
            let info = VolumeInfo {
                name,
                host_path: entries[i].volumes[k].host.clone(),
                container_path: entries[i].volumes[k].guest.clone(),
                container: entries[i].name.clone(),
            };
            proof {
                assert(entries@[i as int].volumes@[k as int]@ == em.volumes[k as int]);
                assert(info@ =~~= volume_info_model(em, k as int));
            }
            r.push(info);
            k += 1;
        }
        proof {
            let whole = volumes_overview_model(entries.deep_view().subrange(0, i + 1));
            assert(whole =~~= volumes_overview_model(prefix) + entry_volume_infos(em));
            assert forall|j: int| 0 <= j < r@.len() implies (#[trigger] r@[j])@ == whole[j] by {
                if j < base {
                    assert(r@[j]@ == volumes_overview_model(prefix)[j]);
                } else {
                    let jj = j - base;
                    assert(r@[base + jj]@ == volume_info_model(em, jj));
                    assert(whole[j] == entry_volume_infos(em)[jj]);
                }
            }
        }
        i += 1;
    }
    proof {
        assert(entries.deep_view().subrange(0, entries@.len() as int) =~~= entries.deep_view());
        assert forall|j: int|
            0 <= j < r@.len() implies r.deep_view()[j] == volumes_overview_model(
            entries.deep_view(),
        )[j] by {
            assert(r@[j]@ == volumes_overview_model(entries.deep_view())[j]);
        }
        assert(r.deep_view() =~= volumes_overview_model(entries.deep_view()));
    }
    r
}

} // verus!
