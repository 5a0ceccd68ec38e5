//! The table that maps GPU instance ids to the dense slots of the per-instance
//! data the mesh renderer uploads: registering appends a slot, unregistering
//! fills the hole with the last slot.

use vstd::prelude::*;

verus! {

/// The marker of an instance id that has no slot.
pub const NO_SLOT: u32 = 0xffff_ffff;

/// Per-instance data: which instance it belongs to and its render state.
#[derive(Clone, Copy, Debug, PartialEq, Eq, Structural, Default)]
pub struct GpuInstanceData {
    pub gpu_instance_id: u32,
    pub state_id: u32,
}

/// Dense per-instance data, and for each instance id the slot that holds its
/// data (or `NO_SLOT`).
pub struct InstanceTable {
    instance_data_indices: Vec<u32>,
    gpu_instance_data: Vec<GpuInstanceData>,
}

impl InstanceTable {
    /// The slot of each instance id.
    pub closed spec fn indices(self) -> Seq<u32> {
        self.instance_data_indices@
    }

    /// The instance ids, in slot order.
    pub closed spec fn ids(self) -> Seq<u32> {
        self.gpu_instance_data@.map_values(|d: GpuInstanceData| d.gpu_instance_id)
    }

    /// The render state of each slot.
    pub closed spec fn states(self) -> Seq<u32> {
        self.gpu_instance_data@.map_values(|d: GpuInstanceData| d.state_id)
    }

    /// Whether `id` has a slot.
    pub open spec fn is_registered(self, id: u32) -> bool {
        id < self.indices().len() && self.indices()[id as int] != NO_SLOT
    }

    /// The table's invariant: a registered id's slot holds that id's data,
    /// each slot's id points back at the slot, and the slots fit below the
    /// marker.
    pub open spec fn wf(self) -> bool {
        &&& self.ids().len() < NO_SLOT
        &&& self.states().len() == self.ids().len()
        &&& forall|i: int|
            0 <= i < self.indices().len() && #[trigger] self.indices()[i] != NO_SLOT ==> self.indices()[i]
                < self.ids().len() && self.ids()[self.indices()[i] as int] == i
        &&& forall|k: int|
            0 <= k < self.ids().len() ==> (#[trigger] self.ids()[k]) < self.indices().len()
                && self.indices()[self.ids()[k] as int] == k
    }

    /// An empty table.
    pub fn new() -> (t: Self)
        ensures
            t.wf(),
            t.ids() == Seq::<u32>::empty(),
            forall|id: u32| !t.is_registered(id),
    {
        InstanceTable { instance_data_indices: Vec::new(), gpu_instance_data: Vec::new() }
    }

    /// The number of registered instances.
    pub fn len(&self) -> (r: usize)
        ensures
            r == self.ids().len(),
    {
        self.gpu_instance_data.len()
    }

    /// The slot of `id`, if it has one.
    pub fn slot_of(&self, id: u32) -> (r: Option<u32>)
        requires
            self.wf(),
        ensures
            r matches Some(s) ==> self.is_registered(id) && s == self.indices()[id as int] && s
                < self.ids().len() && self.ids()[s as int] == id,
            r is None ==> !self.is_registered(id),
    {
        if (id as usize) < self.instance_data_indices.len() {
            let s = self.instance_data_indices[id as usize];
            if s != NO_SLOT {
                return Some(s);
            }
        }
        None
    }

    /// The data held by slot `slot`.
    pub fn data_at(&self, slot: usize) -> (r: GpuInstanceData)
        requires
            slot < self.ids().len(),
        ensures
            r.gpu_instance_id == self.ids()[slot as int],
            r.state_id == self.states()[slot as int],
    {
        self.gpu_instance_data[slot]
    }

    /// Gives instance `id` the next slot, with render state 0. The id must
    /// not be registered yet.
    pub fn register_element(&mut self, id: u32)
        requires
            old(self).wf(),
            !old(self).is_registered(id),
            old(self).ids().len() + 1 < NO_SLOT,
            id < usize::MAX,
        ensures
            final(self).wf(),
            final(self).ids() == old(self).ids().push(id),
            final(self).states() == old(self).states().push(0),
            final(self).indices()[id as int] == old(self).ids().len(),
            forall|x: u32| #[trigger] final(self).is_registered(x) <==> old(self).is_registered(x) || x == id,
    {
        let ghost t0 = *self;
        let new_index = self.gpu_instance_data.len() as u32;
        let idx = id as usize;
        if idx >= self.instance_data_indices.len() {
            let mut k = self.instance_data_indices.len();
            while k <= idx
                invariant
                    idx < usize::MAX,
                    t0.instance_data_indices@.len() <= k <= idx + 1,
                    self.instance_data_indices@.len() == k,
                    self.gpu_instance_data@ == t0.gpu_instance_data@,
                    forall|i: int|
                        0 <= i < t0.instance_data_indices@.len() ==> self.instance_data_indices@[i]
                            == t0.instance_data_indices@[i],
                    forall|i: int|
                        t0.instance_data_indices@.len() <= i < k ==> self.instance_data_indices@[i] == NO_SLOT,
                decreases idx + 1 - k,
            {
                self.instance_data_indices.push(NO_SLOT);
                k = k + 1;
            }
        }
        let ghost t1 = *self;
        self.instance_data_indices.set(idx, new_index);
        self.gpu_instance_data.push(GpuInstanceData { gpu_instance_id: id, state_id: 0 });
        proof {
            let ind0 = t0.instance_data_indices@;
            let ind = self.instance_data_indices@;
            assert(self.ids() =~= t0.ids().push(id));
            assert(self.states() =~= t0.states().push(0));
            assert forall|i: int| 0 <= i < ind.len() && #[trigger] ind[i] != NO_SLOT implies ind[i] < self.ids().len()
                && self.ids()[ind[i] as int] == i by {
                if i != idx {
                    assert(i < ind0.len());
                    assert(ind[i] == ind0[i]);
                }
            }
            assert forall|k: int| 0 <= k < self.ids().len() implies (#[trigger] self.ids()[k]) < ind.len()
                && ind[self.ids()[k] as int] == k by {
                if k < t0.ids().len() {
                    assert(self.ids()[k] == t0.ids()[k]);
                    let j = t0.ids()[k] as int;
                    assert(ind0[j] == k);
                    assert(j != idx);
                }
            }
            assert forall|x: u32| #[trigger] self.is_registered(x) <==> t0.is_registered(x) || x == id by {
                if x != id && (x as int) < ind.len() && !((x as int) < ind0.len()) {
                    assert(ind[x as int] == NO_SLOT);
                }
            }
        }
    }

    /// Releases the slot of instance `id`, which must be registered; the data
    /// of the last slot moves into the freed one.
    pub fn unregister_element(&mut self, id: u32) -> (removed: GpuInstanceData)
        requires
            old(self).wf(),
            old(self).is_registered(id),
        ensures
            final(self).wf(),
            ({
                let s = old(self).indices()[id as int] as int;
                let last = old(self).ids().len() - 1;
                &&& removed.gpu_instance_id == id
                &&& removed.state_id == old(self).states()[s]
                &&& final(self).ids() == old(self).ids().update(s, old(self).ids()[last]).drop_last()
                &&& final(self).states() == old(self).states().update(s, old(self).states()[last]).drop_last()
            }),
            forall|x: u32| #[trigger] final(self).is_registered(x) <==> old(self).is_registered(x) && x != id,
    {
        let ghost t0 = *self;
        let idx = id as usize;
        let removed_index = self.instance_data_indices[idx] as usize;
        self.instance_data_indices.set(idx, NO_SLOT);
        let removed_instance = self.gpu_instance_data.swap_remove(removed_index);
        if removed_index < self.gpu_instance_data.len() {
            let moved_instance_id = self.gpu_instance_data[removed_index].gpu_instance_id;
            proof {
                let last = t0.ids().len() - 1;
                assert(self.gpu_instance_data@[removed_index as int] == t0.gpu_instance_data@[last]);
                assert(t0.ids()[last] == moved_instance_id);
            }
            self.instance_data_indices.set(moved_instance_id as usize, removed_index as u32);
        }
        proof {
            let ind0 = t0.instance_data_indices@;
            let ind = self.instance_data_indices@;
            let s = removed_index as int;
            let last = t0.ids().len() - 1;
            assert(self.ids() =~= t0.ids().update(s, t0.ids()[last]).drop_last());
            assert(self.states() =~= t0.states().update(s, t0.states()[last]).drop_last());
            assert forall|i: int| 0 <= i < ind.len() && #[trigger] ind[i] != NO_SLOT implies ind[i] < self.ids().len()
                && self.ids()[ind[i] as int] == i by {
                if s < last && i == t0.ids()[last] as int {
                } else {
                    assert(ind[i] == ind0[i]);
                    assert(i != idx);
                    assert(ind0[i] != s);
                    if ind0[i] == last {
                        assert(t0.ids()[last] == i);
                    }
                }
            }
            assert forall|k: int| 0 <= k < self.ids().len() implies (#[trigger] self.ids()[k]) < ind.len()
                && ind[self.ids()[k] as int] == k by {
                if k == s {
                    assert(self.ids()[k] == t0.ids()[last]);
                } else {
                    assert(self.ids()[k] == t0.ids()[k]);
                    assert(t0.ids()[k] != id);
                }
            }
            assert forall|x: u32| #[trigger] self.is_registered(x) <==> t0.is_registered(x) && x != id by {
                if s < last && x == t0.ids()[last] {
                    assert(ind[x as int] == s);
                } else if (x as int) < ind.len() {
                    assert(x != id ==> ind[x as int] == ind0[x as int]);
                }
            }
        }
        removed_instance
    }
}

/// Registering an instance and then unregistering it gives the slots back as
/// they were: the same ids and render states, in the same order (the new
/// instance had the last slot, so nothing moves).
pub proof fn lemma_register_unregister_restores(ids: Seq<u32>, states: Seq<u32>, id: u32)
    requires
        states.len() == ids.len(),
    ensures
        ({
            let ids1 = ids.push(id);
            let states1 = states.push(0);
            let s = ids.len() as int;
            let last = ids1.len() - 1;
            &&& ids1.update(s, ids1[last]).drop_last() == ids
            &&& states1.update(s, states1[last]).drop_last() == states
        }),
{
    let ids1 = ids.push(id);
    let states1 = states.push(0);
    let s = ids.len() as int;
    assert(ids1.update(s, ids1[s]).drop_last() =~= ids);
    assert(states1.update(s, states1[s]).drop_last() =~= states);
}

} // verus!
