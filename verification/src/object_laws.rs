//! What is read of an object.
use crate::object_reader::Host;
use crate::tracks::{all_names, track_curve, EffectHandle, ObjectHandle, Track};
use vstd::prelude::*;

verus! {

impl Host {
    /// The tracks that a track shares its curve with, as the host and the track say it: the
    /// host's group, unless there is none or the track says that it is alone.
    pub open spec fn companions(self, handle: EffectHandle, item: Seq<char>) -> Seq<Seq<char>> {
        let group = (self.group)((self.name)(handle), item);
        let said = (self.group_num)(handle, item)->0;
        if group is Some && (said is None || said->0 >= 2) {
            group->0
        } else {
            seq![item]
        }
    }

    /// Whether a group of tracks is that of an item, with the curve of its first track.
    pub open spec fn is_group_of(
        self,
        handle: EffectHandle,
        item: Seq<char>,
        track: Track,
    ) -> bool {
        let names = self.companions(handle, item);
        &&& (self.group_num)(handle, item) is Some
        &&& track.names == names
        &&& track.curve == track_curve((self.points)(handle, names[0]))
    }
}

/// Every item that is a track is in a group that was read before it, or has its own group
/// read. Groups that were read stay as they are.
pub proof fn law_every_track_is_in_a_group(host: Host, handle: EffectHandle, n: nat, i: int)
    requires
        0 <= i < n,
    ensures
        ({
            let item = (host.items)((host.name)(handle))[i];
            let before = host.tracks(handle, i as nat);
            let all = host.tracks(handle, n);
            &&& before.len() <= all.len()
            &&& forall|k: int| 0 <= k < before.len() ==> all[k] == before[k]
            &&& (host.group_num)(handle, item) is Some ==> {
                ||| all_names(before).contains(item)
                ||| before.len() < all.len() && host.is_group_of(
                    handle,
                    item,
                    all[before.len() as int],
                )
            }
        }),
    decreases n,
{
    if i < n - 1 {
        law_every_track_is_in_a_group(host, handle, (n - 1) as nat, i);
    }
}

/// Every group that is read is that of an item which is a track and is in no group that was
/// read before it.
pub proof fn law_every_group_is_that_of_a_track(host: Host, handle: EffectHandle, n: nat, k: int)
    requires
        0 <= k < host.tracks(handle, n).len(),
    ensures
        exists|i: int|
            #![trigger (host.items)((host.name)(handle))[i]]
            0 <= i < n && host.is_group_of(
                handle,
                (host.items)((host.name)(handle))[i],
                host.tracks(handle, n)[k],
            ) && !all_names(host.tracks(handle, n).take(k)).contains(
                (host.items)((host.name)(handle))[i],
            ),
    decreases n,
{
    if n > 0 {
        let before = host.tracks(handle, (n - 1) as nat);
        let all = host.tracks(handle, n);
        if k < before.len() {
            law_every_group_is_that_of_a_track(host, handle, (n - 1) as nat, k);
            assert(all.take(k) =~= before.take(k));
        } else {
            let item = (host.items)((host.name)(handle))[n - 1];
            assert(all.take(k) =~= before);
            assert(host.is_group_of(handle, item, all[k]));
        }
    }
}

/// An object is read with all its effects in order, each with its handle, its name, and the
/// groups among all its items.
pub proof fn law_every_effect_is_read(host: Host, object: ObjectHandle, i: int)
    requires
        0 <= i < host.effects.len(),
    ensures
        ({
            let r = host.object(object);
            let handle = host.effects[i];
            &&& r.handle == object
            &&& r.effects.len() == host.effects.len()
            &&& r.effects[i].handle == handle
            &&& r.effects[i].name == (host.name)(handle)
            &&& r.effects[i].tracks == host.tracks(
                handle,
                (host.items)((host.name)(handle)).len(),
            )
        }),
{
}

} // verus!
