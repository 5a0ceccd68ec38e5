//! The bookkeeping of the asset registry: the counter that lets readers share
//! the registry and a writer have it alone, the options it is created from,
//! and how the results of the loader change what is loaded.

use crate::resource_type::ResourceType;
use vstd::prelude::*;

verus! {

/// Counter of the accesses to the registry's contents: the number of readers,
/// or -1 while a writer holds it.
pub struct AccessGuard {
    count: isize,
}

impl AccessGuard {
    #[verifier::type_invariant]
    spec fn inv(self) -> bool {
        self.count >= -1
    }

    /// The counter: readers from 0 up, or -1 for a writer.
    pub closed spec fn state(self) -> int {
        self.count as int
    }

    /// A counter with no access.
    pub fn new() -> (g: Self)
        ensures
            g.state() == 0,
    {
        AccessGuard { count: 0 }
    }

    /// The counter's value.
    pub fn value(&self) -> (r: isize)
        ensures
            r == self.state(),
            r >= -1,
    {
        proof {
            use_type_invariant(self);
        }
        self.count
    }

    /// A reader begins: there must be no writer.
    pub fn acquire_read(&mut self)
        requires
            old(self).state() >= 0,
            old(self).state() < isize::MAX,
        ensures
            final(self).state() == old(self).state() + 1,
    {
        self.count = self.count + 1;
    }

    /// A reader ends: there must be one.
    pub fn release_read(&mut self)
        requires
            old(self).state() > 0,
        ensures
            final(self).state() == old(self).state() - 1,
    {
        self.count = self.count - 1;
    }

    /// A writer begins: there must be no access at all.
    pub fn acquire_write(&mut self)
        requires
            old(self).state() == 0,
        ensures
            final(self).state() == -1,
    {
        self.count = -1;
    }

    /// The writer ends: there must be one.
    pub fn release_write(&mut self)
        requires
            old(self).state() == -1,
        ensures
            final(self).state() == 0,
    {
        self.count = 0;
    }
}

/// A borrowed reference to a resource, counted as a reader of the registry
/// while it lives.
pub struct Ref<'a, T> {
    resource: &'a T,
}

impl<'a, T> Ref<'a, T> {
    /// Takes a reference to `resource` and counts one more reader.
    pub fn new(resource: &'a T, guard: &mut AccessGuard) -> (r: Self)
        requires
            old(guard).state() >= 0,
            old(guard).state() < isize::MAX,
        ensures
            final(guard).state() == old(guard).state() + 1,
            *r.get_spec() == *resource,
    {
        guard.acquire_read();
        Ref { resource }
    }

    /// The referenced resource.
    pub fn get(&self) -> (r: &'a T)
        ensures
            *r == *self.get_spec(),
    {
        self.resource
    }

    pub closed spec fn get_spec(&self) -> &'a T {
        self.resource
    }

    /// Gives the reference back, counting one reader less.
    pub fn release(self, guard: &mut AccessGuard)
        requires
            old(guard).state() > 0,
        ensures
            final(guard).state() == old(guard).state() - 1,
    {
        guard.release_read();
    }
}

/// Where the registry reads resources from.
#[derive(Clone, Debug, PartialEq, Eq)]
pub enum DeviceSpec {
    /// The files of a directory.
    Dir(String),
}

/// Options which configure the creation of an asset registry: the devices it
/// reads from, in order, and the resource types it has a loader for.
pub struct AssetRegistryOptions {
    loaders: Vec<ResourceType>,
    devices: Vec<DeviceSpec>,
}

impl AssetRegistryOptions {
    /// The resource types with a loader.
    pub closed spec fn loader_types(self) -> Set<ResourceType> {
        self.loaders@.to_set()
    }

    /// The devices, in the order they were added.
    pub closed spec fn devices(self) -> Seq<DeviceSpec> {
        self.devices@
    }

    /// A blank set of options.
    pub fn new() -> (r: Self)
        ensures
            r.loader_types() == Set::<ResourceType>::empty(),
            r.devices() == Seq::<DeviceSpec>::empty(),
    {
        let r = AssetRegistryOptions { loaders: Vec::new(), devices: Vec::new() };
        assert(r.loader_types() =~= Set::<ResourceType>::empty());
        r
    }

    /// The devices, in the order they were added.
    pub fn device_list(&self) -> (r: &Vec<DeviceSpec>)
        ensures
            r@ == self.devices(),
    {
        &self.devices
    }

    /// Whether a loader is enabled for `kind`.
    pub fn has_loader(&self, kind: ResourceType) -> (r: bool)
        ensures
            r == self.loader_types().contains(kind),
    {
        let mut i: usize = 0;
        while i < self.loaders.len()
            invariant
                i <= self.loaders@.len(),
                forall|k: int| 0 <= k < i ==> self.loaders@[k] != kind,
            decreases self.loaders@.len() - i,
        {
            if self.loaders[i] == kind {
                proof {
                    assert(self.loaders@.contains(kind));
                }
                return true;
            }
            i = i + 1;
        }
        false
    }

    /// Mounts a device that reads resources from the directory `path`.
    pub fn add_device_dir(self, path: String) -> (r: Self)
        ensures
            r.devices() == self.devices().push(DeviceSpec::Dir(path)),
            r.loader_types() == self.loader_types(),
    {
        let mut r = self;
        r.devices.push(DeviceSpec::Dir(path));
        r
    }

    /// Enables the resources of type `kind` by adding a loader for it; a
    /// type given twice has one loader.
    pub fn add_loader(self, kind: ResourceType) -> (r: Self)
        ensures
            r.loader_types() == self.loader_types().insert(kind),
            r.devices() == self.devices(),
    {
        let mut r = self;
        let mut i: usize = 0;
        while i < r.loaders.len()
            invariant
                i <= r.loaders@.len(),
                r.loaders@ == self.loaders@,
                r.devices@ == self.devices@,
                forall|k: int| 0 <= k < i ==> r.loaders@[k] != kind,
            decreases r.loaders@.len() - i,
        {
            if r.loaders[i] == kind {
                proof {
                    assert(self.loaders@[i as int] == kind);
                    assert(self.loaders@.to_set().insert(kind) =~= self.loaders@.to_set());
                }
                return r;
            }
            i = i + 1;
        }
        let ghost before = r.loaders@;
        r.loaders.push(kind);
        proof {
            assert(r.loaders@.to_set() =~= before.to_set().insert(kind)) by {
                assert forall|x: ResourceType| #[trigger] r.loaders@.to_set().contains(x) <==> before.to_set().insert(kind).contains(x) by {
                    if r.loaders@.contains(x) && x != kind {
                        let k = choose|k: int| 0 <= k < r.loaders@.len() && r.loaders@[k] == x;
                        assert(before[k] == x);
                    }
                    if before.contains(x) {
                        let k = choose|k: int| 0 <= k < before.len() && before[k] == x;
                        assert(r.loaders@[k] == x);
                    }
                    if x == kind {
                        assert(r.loaders@[r.loaders@.len() - 1] == x);
                    }
                }
            }
        }
        r
    }
}

/// Identifier of a resource: its type and its number within the type.
#[derive(Clone, Copy, Debug, PartialEq, Eq, Structural)]
pub struct ResourceId {
    pub kind: ResourceType,
    pub id: u64,
}

impl ResourceId {
    pub fn new(kind: ResourceType, id: u64) -> (r: Self)
        ensures
            r.kind == kind,
            r.id == id,
    {
        ResourceId { kind, id }
    }
}

/// A resource loading event, emitted when a resource is loaded, unloaded, or
/// its loading fails.
#[derive(Clone, Copy, Debug, PartialEq, Eq, Structural)]
pub enum ResourceLoadEvent {
    /// Successful resource load.
    Loaded(ResourceId),
    /// Resource unload.
    Unloaded(ResourceId),
    /// A loading attempt has failed.
    LoadError(ResourceId),
}

/// What the loader reports back.
#[derive(Clone, Copy, Debug, PartialEq, Eq, Structural)]
pub enum LoaderResult {
    Loaded(ResourceId),
    Unloaded(ResourceId),
    LoadError(ResourceId),
}

/// The event announced for a result of the loader.
pub open spec fn event_of(r: LoaderResult) -> ResourceLoadEvent {
    match r {
        LoaderResult::Loaded(id) => ResourceLoadEvent::Loaded(id),
        LoaderResult::Unloaded(id) => ResourceLoadEvent::Unloaded(id),
        LoaderResult::LoadError(id) => ResourceLoadEvent::LoadError(id),
    }
}

/// The loaded resources and the failed loads after `results`, applied in
/// order to `loaded` and `failed`.
pub open spec fn apply_results(
    loaded: Set<ResourceId>,
    failed: Set<ResourceId>,
    results: Seq<LoaderResult>,
) -> (Set<ResourceId>, Set<ResourceId>)
    decreases results.len(),
{
    if results.len() == 0 {
        (loaded, failed)
    } else {
        let (l, f) = apply_results(loaded, failed, results.drop_last());
        match results.last() {
            LoaderResult::Loaded(id) => (l.insert(id), f),
            LoaderResult::Unloaded(id) => (l.remove(id), f),
            LoaderResult::LoadError(id) => (l, f.insert(id)),
        }
    }
}

/// Which resources are loaded and which failed to load.
pub struct AssetStates {
    loaded: Vec<ResourceId>,
    failed: Vec<ResourceId>,
}

fn set_insert(v: &mut Vec<ResourceId>, x: ResourceId)
    requires
        old(v)@.no_duplicates(),
    ensures
        final(v)@.no_duplicates(),
        final(v)@.to_set() == old(v)@.to_set().insert(x),
{
    let mut i: usize = 0;
    while i < v.len()
        invariant
            i <= v@.len(),
            v@ == old(v)@,
            old(v)@.no_duplicates(),
            forall|k: int| 0 <= k < i ==> v@[k] != x,
        decreases v@.len() - i,
    {
        if v[i] == x {
            proof {
                assert(v@.to_set().insert(x) =~= v@.to_set());
            }
            return;
        }
        i = i + 1;
    }
    v.push(x);
    proof {
        let o = old(v)@;
        let n = v@;
        assert(n.to_set() =~= o.to_set().insert(x)) by {
            assert forall|y: ResourceId| #[trigger] n.to_set().contains(y) <==> o.to_set().insert(x).contains(y) by {
                if n.contains(y) && y != x {
                    let k = choose|k: int| 0 <= k < n.len() && n[k] == y;
                    assert(o[k] == y);
                }
                if o.contains(y) {
                    let k = choose|k: int| 0 <= k < o.len() && o[k] == y;
                    assert(n[k] == y);
                }
                if y == x {
                    assert(n[n.len() - 1] == y);
                }
            }
        }
        assert forall|a: int, b: int| 0 <= a < b < n.len() implies n[a] != n[b] by {
            if b == n.len() - 1 {
                assert(n[a] == o[a]);
            }
        }
    }
}

fn set_remove(v: &mut Vec<ResourceId>, x: ResourceId)
    requires
        old(v)@.no_duplicates(),
    ensures
        final(v)@.no_duplicates(),
        final(v)@.to_set() == old(v)@.to_set().remove(x),
{
    let mut i: usize = 0;
    while i < v.len()
        invariant
            i <= v@.len(),
            v@ == old(v)@,
            old(v)@.no_duplicates(),
            forall|k: int| 0 <= k < i ==> v@[k] != x,
        decreases v@.len() - i,
    {
        if v[i] == x {
            let ghost o = v@;
            v.swap_remove(i);
            proof {
                let n = v@;
                let last = o.len() - 1;
                assert forall|k: int| 0 <= k < n.len() implies #[trigger] n[k] == (if k == i && i < last { o[last] } else { o[k] }) by {
                }
                assert(n.to_set() =~= o.to_set().remove(x)) by {
                    assert forall|y: ResourceId| #[trigger] n.to_set().contains(y) <==> o.to_set().remove(x).contains(y) by {
                        if n.contains(y) {
                            let k = choose|k: int| 0 <= k < n.len() && n[k] == y;
                            if k == i && i < last {
                                assert(o[last] == y);
                                assert(y != x);
                            } else {
                                assert(o[k] == y);
                                assert(k != i);
                            }
                        }
                        if o.contains(y) && y != x {
                            let k = choose|k: int| 0 <= k < o.len() && o[k] == y;
                            if k == last && i < last {
                                assert(n[i as int] == y);
                            } else {
                                assert(k != i);
                                assert(n[k] == y);
                            }
                        }
                    }
                }
                assert forall|a: int, b: int| 0 <= a < b < n.len() implies n[a] != n[b] by {
                    if a == i && i < last {
                        assert(n[a] == o[last]);
                        assert(n[b] == o[b]);
                    } else if b == i && i < last {
                        assert(n[b] == o[last]);
                        assert(n[a] == o[a]);
                    } else {
                        assert(n[a] == o[a]);
                        assert(n[b] == o[b]);
                    }
                }
            }
            return;
        }
        i = i + 1;
    }
    proof {
        assert(v@.to_set().remove(x) =~= v@.to_set());
    }
}

impl AssetStates {
    #[verifier::type_invariant]
    spec fn inv(self) -> bool {
        self.loaded@.no_duplicates() && self.failed@.no_duplicates()
    }

    /// The loaded resources.
    pub closed spec fn loaded_set(self) -> Set<ResourceId> {
        self.loaded@.to_set()
    }

    /// The resources whose loading failed.
    pub closed spec fn failed_set(self) -> Set<ResourceId> {
        self.failed@.to_set()
    }

    /// Nothing loaded and nothing failed.
    pub fn new() -> (r: Self)
        ensures
            r.loaded_set() == Set::<ResourceId>::empty(),
            r.failed_set() == Set::<ResourceId>::empty(),
    {
        let r = AssetStates { loaded: Vec::new(), failed: Vec::new() };
        assert(r.loaded_set() =~= Set::<ResourceId>::empty());
        assert(r.failed_set() =~= Set::<ResourceId>::empty());
        r
    }

    /// Whether `id` is loaded.
    pub fn is_loaded(&self, id: ResourceId) -> (r: bool)
        ensures
            r == self.loaded_set().contains(id),
    {
        let mut i: usize = 0;
        while i < self.loaded.len()
            invariant
                i <= self.loaded@.len(),
                forall|k: int| 0 <= k < i ==> self.loaded@[k] != id,
            decreases self.loaded@.len() - i,
        {
            if self.loaded[i] == id {
                proof {
                    assert(self.loaded@.contains(id));
                }
                return true;
            }
            i = i + 1;
        }
        false
    }

    /// Whether the loading of `id` failed.
    pub fn is_err(&self, id: ResourceId) -> (r: bool)
        ensures
            r == self.failed_set().contains(id),
    {
        let mut i: usize = 0;
        while i < self.failed.len()
            invariant
                i <= self.failed@.len(),
                forall|k: int| 0 <= k < i ==> self.failed@[k] != id,
            decreases self.failed@.len() - i,
        {
            if self.failed[i] == id {
                proof {
                    assert(self.failed@.contains(id));
                }
                return true;
            }
            i = i + 1;
        }
        false
    }

    /// Forgets the resources whose handles were all dropped, then applies the
    /// loader's results in order; returns the event of each result, in the
    /// same order. The update holds the registry alone: no reader nor writer
    /// may hold `guard` when it starts, and it leaves `guard` free again.
    pub fn update(
        &mut self,
        guard: &mut AccessGuard,
        dropped: &Vec<ResourceId>,
        results: &Vec<LoaderResult>,
    ) -> (events: Vec<ResourceLoadEvent>)
        requires
            old(guard).state() == 0,
        ensures
            final(guard).state() == 0,
            ({
                let gone = dropped@.to_set();
                let after = apply_results(
                    old(self).loaded_set().difference(gone),
                    old(self).failed_set().difference(gone),
                    results@,
                );
                &&& final(self).loaded_set() == after.0
                &&& final(self).failed_set() == after.1
            }),
            events@ == results@.map_values(|r: LoaderResult| event_of(r)),
    {
        proof {
            use_type_invariant(&*self);
        }
        guard.acquire_write();
        let mut loaded: Vec<ResourceId> = Vec::new();
        let mut failed: Vec<ResourceId> = Vec::new();
        std::mem::swap(&mut loaded, &mut self.loaded);
        std::mem::swap(&mut failed, &mut self.failed);
        let ghost l0 = loaded@.to_set();
        let ghost f0 = failed@.to_set();
        let mut i: usize = 0;
        while i < dropped.len()
            invariant
                i <= dropped@.len(),
                loaded@.no_duplicates(),
                failed@.no_duplicates(),
                loaded@.to_set() == l0.difference(dropped@.take(i as int).to_set()),
                failed@.to_set() == f0.difference(dropped@.take(i as int).to_set()),
            decreases dropped@.len() - i,
        {
            let id = dropped[i];
            set_remove(&mut failed, id);
            set_remove(&mut loaded, id);
            proof {
                let t = dropped@.take(i + 1);
                assert(t.to_set() =~= dropped@.take(i as int).to_set().insert(id)) by {
                    assert(t =~= dropped@.take(i as int).push(id));
                    dropped@.take(i as int).lemma_push_to_set_commute(id);
                }
                assert(loaded@.to_set() =~= l0.difference(t.to_set()));
                assert(failed@.to_set() =~= f0.difference(t.to_set()));
            }
            i = i + 1;
        }
        proof {
            assert(dropped@.take(dropped@.len() as int) =~= dropped@);
        }
        let ghost l1 = loaded@.to_set();
        let ghost f1 = failed@.to_set();
        let mut events: Vec<ResourceLoadEvent> = Vec::new();
        let mut j: usize = 0;
        while j < results.len()
            invariant
                j <= results@.len(),
                loaded@.no_duplicates(),
                failed@.no_duplicates(),
                (loaded@.to_set(), failed@.to_set()) == apply_results(l1, f1, results@.take(j as int)),
                events@ == results@.take(j as int).map_values(|r: LoaderResult| event_of(r)),
            decreases results@.len() - j,
        {
            let ghost before = (loaded@.to_set(), failed@.to_set());
            match results[j] {
                LoaderResult::Loaded(id) => {
                    set_insert(&mut loaded, id);
                    events.push(ResourceLoadEvent::Loaded(id));
                },
                LoaderResult::Unloaded(id) => {
                    set_remove(&mut loaded, id);
                    events.push(ResourceLoadEvent::Unloaded(id));
                },
                LoaderResult::LoadError(id) => {
                    set_insert(&mut failed, id);
                    events.push(ResourceLoadEvent::LoadError(id));
                },
            }
            proof {
                let t = results@.take(j + 1);
                assert(t.drop_last() =~= results@.take(j as int));
                assert(t.last() == results@[j as int]);
                assert(events@ =~= t.map_values(|r: LoaderResult| event_of(r)));
            }
            j = j + 1;
        }
        proof {
            assert(results@.take(results@.len() as int) =~= results@);
        }
        self.loaded = loaded;
        self.failed = failed;
        guard.release_write();
        events
    }
}

/// The last result of the loader about `id` that loads or unloads it, if
/// any: `true` for a load.
pub open spec fn last_load_state(results: Seq<LoaderResult>, id: ResourceId) -> Option<bool>
    decreases results.len(),
{
    if results.len() == 0 {
        None
    } else {
        match results.last() {
            LoaderResult::Loaded(x) if x == id => Some(true),
            LoaderResult::Unloaded(x) if x == id => Some(false),
            _ => last_load_state(results.drop_last(), id),
        }
    }
}

/// Whether one of the loader's results reports that loading `id` failed.
pub open spec fn reports_failure(results: Seq<LoaderResult>, id: ResourceId) -> bool {
    exists|k: int| 0 <= k < results.len() && results[k] == LoaderResult::LoadError(id)
}

/// After the loader's results, a resource is loaded exactly when the last
/// result that loads or unloads it loads it, or, with no such result, when
/// it was loaded before; it has failed when it had failed before or a
/// result reports a failure.
pub proof fn lemma_last_result_wins(
    loaded: Set<ResourceId>,
    failed: Set<ResourceId>,
    results: Seq<LoaderResult>,
    id: ResourceId,
)
    ensures
        apply_results(loaded, failed, results).0.contains(id) == match last_load_state(results, id) {
            Some(b) => b,
            None => loaded.contains(id),
        },
        apply_results(loaded, failed, results).1.contains(id) == (failed.contains(id) || reports_failure(
            results,
            id,
        )),
    decreases results.len(),
{
    if results.len() > 0 {
        let init = results.drop_last();
        lemma_last_result_wins(loaded, failed, init, id);
        if reports_failure(results, id) && !reports_failure(init, id) {
            let k = choose|k: int| 0 <= k < results.len() && results[k] == LoaderResult::LoadError(id);
            if k < init.len() {
                assert(init[k] == results[k]);
            }
        }
        if reports_failure(init, id) {
            let k = choose|k: int| 0 <= k < init.len() && init[k] == LoaderResult::LoadError(id);
            assert(results[k] == init[k]);
        }
    }
}

} // verus!
