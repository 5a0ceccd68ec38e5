//! Keeping the children lists of an entity hierarchy in step with the
//! parents that the entities name.

use std::collections::HashMap;
use vstd::prelude::*;

verus! {

broadcast use {
    vstd::std_specs::hash::group_hash_axioms,
    vstd::std_specs::hash::axiom_u64_obeys_hash_table_key_model,
    vstd::std_specs::hash::axiom_random_state_builds_valid_hashers,
};

/// `s` without the occurrences of `x`, the others in their order.
pub open spec fn without(s: Seq<u64>, x: u64) -> Seq<u64>
    decreases s.len(),
{
    if s.len() == 0 {
        s
    } else if s.last() == x {
        without(s.drop_last(), x)
    } else {
        without(s.drop_last(), x).push(s.last())
    }
}

/// The `Children` components of a hierarchy: for each entity that has one,
/// its children in order.
pub struct ChildrenTable {
    children: HashMap<u64, Vec<u64>>,
}

/// An entity that lost its `Parent` but still has a `PreviousParent`.
#[derive(Clone, Copy, Debug, PartialEq, Eq, Structural)]
pub struct RemovedParent {
    pub entity: u64,
    pub previous_parent: u64,
}

/// An entity whose `Parent` changed: its new parent, and its
/// `PreviousParent` if it has one.
#[derive(Clone, Copy, Debug, PartialEq, Eq, Structural)]
pub struct ParentChange {
    pub entity: u64,
    pub parent: u64,
    pub previous_parent: Option<u64>,
}

/// What the hierarchy update leaves to the command buffer: the entities
/// whose `PreviousParent` goes, the `PreviousParent` each changed entity now
/// has, and the `Children` components to add to parents that had none, with
/// their children in order.
pub struct HierarchyCommands {
    pub remove_previous_parent: Vec<u64>,
    pub previous_parent_updates: Vec<(u64, u64)>,
    pub insert_children: Vec<(u64, Vec<u64>)>,
}

/// The state of an update: the children lists, and the commands so far.
pub struct HierarchyState {
    pub children: Map<u64, Seq<u64>>,
    pub removed: Seq<u64>,
    pub previous: Seq<(u64, u64)>,
    pub additions: Seq<(u64, Seq<u64>)>,
}

/// The index of the last entry of `adds` for `parent`, or -1.
pub open spec fn find_entry(adds: Seq<(u64, Seq<u64>)>, parent: u64) -> int
    decreases adds.len(),
{
    if adds.len() == 0 {
        -1
    } else if adds.last().0 == parent {
        adds.len() - 1
    } else {
        find_entry(adds.drop_last(), parent)
    }
}

/// `entity` appended to the new children of `parent`, whose entry is made
/// when it has none yet.
pub open spec fn add_to(adds: Seq<(u64, Seq<u64>)>, parent: u64, entity: u64) -> Seq<(u64, Seq<u64>)> {
    let i = find_entry(adds, parent);
    if i < 0 {
        adds.push((parent, seq![entity]))
    } else {
        adds.update(i, (parent, adds[i].1.push(entity)))
    }
}

/// An entity lost its parent: it leaves the children of its previous
/// parent, if that one has a `Children` component, and then loses its
/// `PreviousParent`.
pub open spec fn removal_step(st: HierarchyState, r: RemovedParent) -> HierarchyState {
    if st.children.contains_key(r.previous_parent) {
        HierarchyState {
            children: st.children.insert(r.previous_parent, without(st.children[r.previous_parent], r.entity)),
            removed: st.removed.push(r.entity),
            ..st
        }
    } else {
        st
    }
}

/// An entity's parent changed. Nothing happens when it names its previous
/// parent again. Otherwise it leaves the children of its previous parent,
/// its `PreviousParent` becomes the new parent, and it joins the children
/// of the new parent (once), or the children to be added to a parent with
/// no `Children` component yet.
pub open spec fn change_step(st: HierarchyState, c: ParentChange) -> HierarchyState {
    if c.previous_parent == Some(c.parent) {
        st
    } else {
        let ch1 = match c.previous_parent {
            Some(p) => if st.children.contains_key(p) {
                st.children.insert(p, without(st.children[p], c.entity))
            } else {
                st.children
            },
            None => st.children,
        };
        let previous = st.previous.push((c.entity, c.parent));
        if ch1.contains_key(c.parent) {
            let ch2 = if ch1[c.parent].contains(c.entity) {
                ch1
            } else {
                ch1.insert(c.parent, ch1[c.parent].push(c.entity))
            };
            HierarchyState { children: ch2, previous, ..st }
        } else {
            HierarchyState { children: ch1, previous, additions: add_to(st.additions, c.parent, c.entity), ..st }
        }
    }
}

pub open spec fn after_removals(st: HierarchyState, rs: Seq<RemovedParent>) -> HierarchyState
    decreases rs.len(),
{
    if rs.len() == 0 {
        st
    } else {
        removal_step(after_removals(st, rs.drop_last()), rs.last())
    }
}

pub open spec fn after_changes(st: HierarchyState, cs: Seq<ParentChange>) -> HierarchyState
    decreases cs.len(),
{
    if cs.len() == 0 {
        st
    } else {
        change_step(after_changes(st, cs.drop_last()), cs.last())
    }
}

pub open spec fn initial_state(children: Map<u64, Seq<u64>>) -> HierarchyState {
    HierarchyState { children, removed: Seq::empty(), previous: Seq::empty(), additions: Seq::empty() }
}

/// The whole update: first the entities that lost their parent, then those
/// whose parent changed, each in the order given.
pub open spec fn parent_update(
    children: Map<u64, Seq<u64>>,
    removed: Seq<RemovedParent>,
    changed: Seq<ParentChange>,
) -> HierarchyState {
    after_changes(after_removals(initial_state(children), removed), changed)
}

fn without_entity(v: &Vec<u64>, x: u64) -> (r: Vec<u64>)
    ensures
        r@ == without(v@, x),
{
    let mut r: Vec<u64> = Vec::new();
    let n = v.len();
    for i in 0..n
        invariant
            n == v@.len(),
            r@ == without(v@.take(i as int), x),
    {
        proof {
            assert(v@.take(i + 1).drop_last() =~= v@.take(i as int));
            assert(v@.take(i + 1).last() == v@[i as int]);
        }
        if v[i] != x {
            r.push(v[i]);
        }
    }
    proof {
        assert(v@.take(n as int) =~= v@);
    }
    r
}

fn contains_entity(v: &Vec<u64>, x: u64) -> (r: bool)
    ensures
        r == v@.contains(x),
{
    let n = v.len();
    for i in 0..n
        invariant
            n == v@.len(),
            forall|k: int| 0 <= k < i ==> v@[k] != x,
    {
        if v[i] == x {
            return true;
        }
    }
    false
}

fn copy_entities(v: &Vec<u64>) -> (r: Vec<u64>)
    ensures
        r@ == v@,
{
    let mut r: Vec<u64> = Vec::new();
    let n = v.len();
    for i in 0..n
        invariant
            n == v@.len(),
            r@ == v@.take(i as int),
    {
        r.push(v[i]);
        proof {
            assert(v@.take(i + 1) =~= v@.take(i as int).push(v@[i as int]));
        }
    }
    proof {
        assert(v@.take(n as int) =~= v@);
    }
    r
}

impl ChildrenTable {
    /// For each entity with a `Children` component, its children.
    pub closed spec fn lists(self) -> Map<u64, Seq<u64>> {
        self.children@.map_values(|v: Vec<u64>| v@)
    }

    /// No `Children` component yet.
    pub fn new() -> (r: Self)
        ensures
            r.lists() == Map::<u64, Seq<u64>>::empty(),
    {
        let r = ChildrenTable { children: HashMap::new() };
        assert(r.lists() =~= Map::<u64, Seq<u64>>::empty());
        r
    }

    /// Gives `parent` a `Children` component holding `children`.
    pub fn set_children(&mut self, parent: u64, children: Vec<u64>)
        ensures
            final(self).lists() == old(self).lists().insert(parent, children@),
    {
        let ghost c = children@;
        self.children.insert(parent, children);
        assert(self.lists() =~= old(self).lists().insert(parent, c));
    }

    /// The children of `parent`, when it has a `Children` component.
    pub fn children_of(&self, parent: u64) -> (r: Option<Vec<u64>>)
        ensures
            r matches Some(v) ==> self.lists().contains_key(parent) && v@ == self.lists()[parent],
            r is None ==> !self.lists().contains_key(parent),
    {
        match self.children.get(&parent) {
            Some(v) => Some(copy_entities(v)),
            None => None,
        }
    }

    /// Takes `entity` out of the children of `parent`, when `parent` has a
    /// `Children` component; says whether it has one.
    pub fn remove_child(&mut self, parent: u64, entity: u64) -> (r: bool)
        ensures
            r == old(self).lists().contains_key(parent),
            r ==> final(self).lists() == old(self).lists().insert(parent, without(old(self).lists()[parent], entity)),
            !r ==> final(self).lists() == old(self).lists(),
    {
        match self.children.remove(&parent) {
            Some(v) => {
                let w = without_entity(&v, entity);
                let ghost wv = w@;
                self.children.insert(parent, w);
                assert(self.lists() =~= old(self).lists().insert(parent, wv));
                true
            },
            None => {
                assert(self.lists() =~= old(self).lists());
                false
            },
        }
    }

    /// Appends `entity` to the children of `parent` unless it is there
    /// already; `parent` has a `Children` component.
    pub fn add_child(&mut self, parent: u64, entity: u64)
        requires
            old(self).lists().contains_key(parent),
        ensures
            old(self).lists()[parent].contains(entity) ==> final(self).lists() == old(self).lists(),
            !old(self).lists()[parent].contains(entity) ==> final(self).lists() == old(self).lists().insert(
                parent,
                old(self).lists()[parent].push(entity),
            ),
    {
        match self.children.remove(&parent) {
            Some(v) => {
                let mut w = v;
                if !contains_entity(&w, entity) {
                    w.push(entity);
                }
                let ghost wv = w@;
                self.children.insert(parent, w);
                assert(self.lists() =~= old(self).lists().insert(parent, wv));
                proof {
                    if old(self).lists()[parent].contains(entity) {
                        assert(self.lists() =~= old(self).lists());
                    }
                }
            },
            None => {},
        }
    }
}

fn find_addition(adds: &Vec<(u64, Vec<u64>)>, parent: u64) -> (r: Option<usize>)
    ensures
        r matches Some(i) ==> i < adds@.len() && i as int == find_entry(adds_view(adds@), parent),
        r is None ==> find_entry(adds_view(adds@), parent) == -1,
{
    let n = adds.len();
    let mut found: Option<usize> = None;
    for i in 0..n
        invariant
            n == adds@.len(),
            found matches Some(k) ==> k < i && k as int == find_entry(adds_view(adds@.take(i as int)), parent),
            found is None ==> find_entry(adds_view(adds@.take(i as int)), parent) == -1,
    {
        proof {
            assert(adds_view(adds@.take(i + 1)).drop_last() =~= adds_view(adds@.take(i as int)));
        }
        if adds[i].0 == parent {
            found = Some(i);
        }
    }
    proof {
        assert(adds@.take(n as int) =~= adds@);
    }
    found
}

/// The parents and children of new `Children` components, as values.
pub open spec fn adds_view(adds: Seq<(u64, Vec<u64>)>) -> Seq<(u64, Seq<u64>)> {
    adds.map_values(|e: (u64, Vec<u64>)| (e.0, e.1@))
}

proof fn lemma_find_entry_matches(adds: Seq<(u64, Seq<u64>)>, parent: u64)
    ensures
        -1 <= find_entry(adds, parent) < adds.len(),
        find_entry(adds, parent) >= 0 ==> adds[find_entry(adds, parent)].0 == parent,
    decreases adds.len(),
{
    if adds.len() > 0 {
        lemma_find_entry_matches(adds.drop_last(), parent);
    }
}

fn push_addition(adds: &mut Vec<(u64, Vec<u64>)>, parent: u64, entity: u64)
    ensures
        adds_view(final(adds)@) == add_to(adds_view(old(adds)@), parent, entity),
{
    match find_addition(adds, parent) {
        Some(i) => {
            let ghost before = adds@;
            proof {
                lemma_find_entry_matches(adds_view(before), parent);
            }
            let (p, mut l) = adds.remove(i);
            assert(p == parent);
            assert(l@ == adds_view(before)[i as int].1);
            l.push(entity);
            let ghost lv = l@;
            adds.insert(i, (p, l));
            assert(adds@ =~= before.update(i as int, (p, adds@[i as int].1)));
            assert(adds_view(adds@) =~= add_to(adds_view(old(adds)@), parent, entity));
        },
        None => {
            let mut l: Vec<u64> = Vec::new();
            l.push(entity);
            adds.push((parent, l));
            assert(adds_view(adds@) =~= add_to(adds_view(old(adds)@), parent, entity));
        },
    }
}

/// Brings the children lists in step with the parents after a change of the
/// hierarchy: the entities that lost their parent leave their previous
/// parent's children and lose their `PreviousParent`; then each entity whose
/// parent changed leaves its previous parent's children and joins its new
/// parent's. What cannot be done on the table is returned as commands.
pub fn parent_update_system(
    table: &mut ChildrenTable,
    removed: &Vec<RemovedParent>,
    changed: &Vec<ParentChange>,
) -> (r: HierarchyCommands)
    ensures
        final(table).lists() == parent_update(old(table).lists(), removed@, changed@).children,
        r.remove_previous_parent@ == parent_update(old(table).lists(), removed@, changed@).removed,
        r.previous_parent_updates@ == parent_update(old(table).lists(), removed@, changed@).previous,
        adds_view(r.insert_children@) == parent_update(old(table).lists(), removed@, changed@).additions,
{
    let mut remove_previous_parent: Vec<u64> = Vec::new();
    let mut previous_parent_updates: Vec<(u64, u64)> = Vec::new();
    let mut insert_children: Vec<(u64, Vec<u64>)> = Vec::new();
    let ghost init = initial_state(table.lists());
    let nr = removed.len();
    for i in 0..nr
        invariant
            nr == removed@.len(),
            ({
                let st = after_removals(init, removed@.take(i as int));
                &&& table.lists() == st.children
                &&& remove_previous_parent@ == st.removed
                &&& previous_parent_updates@ == st.previous
                &&& adds_view(insert_children@) == st.additions
            }),
    {
        proof {
            assert(removed@.take(i + 1).drop_last() =~= removed@.take(i as int));
            assert(removed@.take(i + 1).last() == removed@[i as int]);
        }
        let rp = removed[i];
        if table.remove_child(rp.previous_parent, rp.entity) {
            remove_previous_parent.push(rp.entity);
        }
    }
    proof {
        assert(removed@.take(nr as int) =~= removed@);
    }
    let ghost mid = after_removals(init, removed@);
    let nc = changed.len();
    for i in 0..nc
        invariant
            nc == changed@.len(),
            ({
                let st = after_changes(mid, changed@.take(i as int));
                &&& table.lists() == st.children
                &&& remove_previous_parent@ == st.removed
                &&& previous_parent_updates@ == st.previous
                &&& adds_view(insert_children@) == st.additions
            }),
    {
        proof {
            assert(changed@.take(i + 1).drop_last() =~= changed@.take(i as int));
            assert(changed@.take(i + 1).last() == changed@[i as int]);
        }
        let c = changed[i];
        let same = match c.previous_parent {
            Some(p) => p == c.parent,
            None => false,
        };
        if !same {
            match c.previous_parent {
                Some(p) => {
                    table.remove_child(p, c.entity);
                },
                None => {},
            }
            previous_parent_updates.push((c.entity, c.parent));
            let has_children = match table.children.get(&c.parent) {
                Some(_) => true,
                None => false,
            };
            if has_children {
                table.add_child(c.parent, c.entity);
            } else {
                push_addition(&mut insert_children, c.parent, c.entity);
            }
        }
    }
    proof {
        assert(changed@.take(nc as int) =~= changed@);
    }
    HierarchyCommands { remove_previous_parent, previous_parent_updates, insert_children }
}

/// Every children list holds each child once.
pub open spec fn lists_distinct(m: Map<u64, Seq<u64>>) -> bool {
    forall|p: u64| m.contains_key(p) ==> (#[trigger] m[p]).no_duplicates()
}

proof fn lemma_without(s: Seq<u64>, x: u64)
    ensures
        !without(s, x).contains(x),
        forall|y: u64| y != x ==> (without(s, x).contains(y) <==> s.contains(y)),
        s.no_duplicates() ==> without(s, x).no_duplicates(),
    decreases s.len(),
{
    if s.len() > 0 {
        let t = s.drop_last();
        lemma_without(t, x);
        assert forall|y: u64| y != x implies (without(s, x).contains(y) <==> s.contains(y)) by {
            if s.contains(y) {
                let k = choose|k: int| 0 <= k < s.len() && s[k] == y;
                let w = without(t, x);
                if k < s.len() - 1 {
                    assert(t[k] == y);
                    assert(t.contains(y));
                    assert(w.contains(y));
                    let j = choose|j: int| 0 <= j < w.len() && w[j] == y;
                    if s.last() != x {
                        assert(w.push(s.last())[j] == y);
                    }
                } else {
                    assert(s.last() == y);
                    assert(w.push(s.last())[w.len() as int] == y);
                }
                assert(without(s, x).contains(y));
            }
            if without(s, x).contains(y) && s.last() != x {
                let w = without(t, x);
                let k = choose|k: int| 0 <= k < w.push(s.last()).len() && w.push(s.last())[k] == y;
                if k < w.len() {
                    assert(w[k] == y);
                    assert(t.contains(y));
                    let j = choose|j: int| 0 <= j < t.len() && t[j] == y;
                    assert(s[j] == y);
                } else {
                    assert(s[s.len() - 1] == y);
                }
            }
            if without(s, x).contains(y) && s.last() == x {
                assert(t.contains(y));
                let j = choose|j: int| 0 <= j < t.len() && t[j] == y;
                assert(s[j] == y);
            }
        }
        if s.last() != x {
            let w = without(t, x);
            assert(!w.contains(x));
            assert forall|k: int| 0 <= k < w.push(s.last()).len() implies w.push(s.last())[k] != x by {
                if k < w.len() {
                    assert(w[k] == w.push(s.last())[k]);
                }
            }
            if s.no_duplicates() {
                assert(t.no_duplicates()) by {
                    assert forall|i: int, j: int| 0 <= i < t.len() && 0 <= j < t.len() && i != j implies t[i] != t[j] by {
                        assert(t[i] == s[i] && t[j] == s[j]);
                    }
                }
                assert(!t.contains(s.last())) by {
                    if t.contains(s.last()) {
                        let j = choose|j: int| 0 <= j < t.len() && t[j] == s.last();
                        assert(s[j] == s[s.len() - 1]);
                    }
                }
                assert(!w.contains(s.last()));
                assert forall|i: int, j: int| 0 <= i < w.push(s.last()).len() && 0 <= j < w.push(s.last()).len() && i != j
                    implies w.push(s.last())[i] != w.push(s.last())[j] by {
                    if i < w.len() && j < w.len() {
                    } else if i < w.len() {
                        assert(w.push(s.last())[i] == w[i]);
                    } else if j < w.len() {
                        assert(w.push(s.last())[j] == w[j]);
                    }
                }
            }
        } else {
            if s.no_duplicates() {
                assert(t.no_duplicates()) by {
                    assert forall|i: int, j: int| 0 <= i < t.len() && 0 <= j < t.len() && i != j implies t[i] != t[j] by {
                        assert(t[i] == s[i] && t[j] == s[j]);
                    }
                }
            }
        }
    }
}

proof fn lemma_push_new_distinct(s: Seq<u64>, x: u64)
    requires
        s.no_duplicates(),
        !s.contains(x),
    ensures
        s.push(x).no_duplicates(),
{
    assert forall|i: int, j: int| 0 <= i < s.push(x).len() && 0 <= j < s.push(x).len() && i != j
        implies s.push(x)[i] != s.push(x)[j] by {
        if i < s.len() && j < s.len() {
        } else if i < s.len() {
            assert(s.push(x)[i] == s[i]);
        } else if j < s.len() {
            assert(s.push(x)[j] == s[j]);
        }
    }
}

proof fn lemma_steps_keep_distinct(st: HierarchyState, rs: Seq<RemovedParent>, cs: Seq<ParentChange>)
    requires
        lists_distinct(st.children),
    ensures
        lists_distinct(after_removals(st, rs).children),
        after_removals(st, rs).children.dom() == st.children.dom(),
        lists_distinct(after_changes(st, cs).children),
        after_changes(st, cs).children.dom() == st.children.dom(),
    decreases rs.len() + cs.len(),
{
    if rs.len() > 0 {
        lemma_steps_keep_distinct(st, rs.drop_last(), Seq::empty());
        let a = after_removals(st, rs.drop_last());
        let r = rs.last();
        if a.children.contains_key(r.previous_parent) {
            lemma_without(a.children[r.previous_parent], r.entity);
            assert(after_removals(st, rs).children.dom() =~= st.children.dom());
        }
    }
    if cs.len() > 0 {
        lemma_steps_keep_distinct(st, Seq::empty(), cs.drop_last());
        let a = after_changes(st, cs.drop_last());
        let c = cs.last();
        if c.previous_parent != Some(c.parent) {
            let ch1 = match c.previous_parent {
                Some(p) => if a.children.contains_key(p) {
                    a.children.insert(p, without(a.children[p], c.entity))
                } else {
                    a.children
                },
                None => a.children,
            };
            match c.previous_parent {
                Some(p) => if a.children.contains_key(p) {
                    lemma_without(a.children[p], c.entity);
                },
                None => {},
            }
            assert(lists_distinct(ch1));
            assert(ch1.dom() =~= st.children.dom());
            if ch1.contains_key(c.parent) && !ch1[c.parent].contains(c.entity) {
                lemma_push_new_distinct(ch1[c.parent], c.entity);
                assert(ch1.insert(c.parent, ch1[c.parent].push(c.entity)).dom() =~= st.children.dom());
            }
        }
    }
}

/// The update keeps every children list free of repeats, and gives no
/// parent a `Children` component on the table (new ones are commands).
pub proof fn lemma_update_keeps_children_distinct(
    children: Map<u64, Seq<u64>>,
    removed: Seq<RemovedParent>,
    changed: Seq<ParentChange>,
)
    requires
        lists_distinct(children),
    ensures
        lists_distinct(parent_update(children, removed, changed).children),
        parent_update(children, removed, changed).children.dom() == children.dom(),
{
    let st = initial_state(children);
    lemma_steps_keep_distinct(st, removed, Seq::empty());
    lemma_steps_keep_distinct(after_removals(st, removed), Seq::empty(), changed);
}

/// An entity whose parent changed leaves the children of its previous
/// parent, and is among the children of its new parent afterwards: in the
/// parent's `Children` component when it has one, otherwise in the
/// children to be added to it.
pub proof fn lemma_change_moves_child(st: HierarchyState, c: ParentChange)
    requires
        c.previous_parent != Some(c.parent),
    ensures
        c.previous_parent matches Some(p) ==> (st.children.contains_key(p) ==> !change_step(st, c).children[p].contains(
            c.entity,
        )),
        st.children.contains_key(c.parent) ==> change_step(st, c).children[c.parent].contains(c.entity),
        !st.children.contains_key(c.parent) ==> {
            let adds = change_step(st, c).additions;
            &&& find_entry(adds, c.parent) >= 0
            &&& adds[find_entry(adds, c.parent)].1.contains(c.entity)
        },
{
    let ch1 = match c.previous_parent {
        Some(p) => if st.children.contains_key(p) {
            st.children.insert(p, without(st.children[p], c.entity))
        } else {
            st.children
        },
        None => st.children,
    };
    match c.previous_parent {
        Some(p) => if st.children.contains_key(p) {
            lemma_without(st.children[p], c.entity);
        },
        None => {},
    }
    if ch1.contains_key(c.parent) && !ch1[c.parent].contains(c.entity) {
        assert(ch1[c.parent].push(c.entity)[ch1[c.parent].len() as int] == c.entity);
    }
    if !st.children.contains_key(c.parent) {
        let a = st.additions;
        lemma_find_entry_matches(a, c.parent);
        let i = find_entry(a, c.parent);
        let adds = add_to(a, c.parent, c.entity);
        if i < 0 {
            assert(adds.last() == (c.parent, seq![c.entity]));
            lemma_find_entry_last(adds, c.parent);
            assert(seq![c.entity][0] == c.entity);
        } else {
            lemma_find_entry_update(a, c.parent, i, (c.parent, a[i].1.push(c.entity)));
            assert(a[i].1.push(c.entity)[a[i].1.len() as int] == c.entity);
        }
    }
}

proof fn lemma_find_entry_last(adds: Seq<(u64, Seq<u64>)>, parent: u64)
    requires
        adds.len() > 0,
        adds.last().0 == parent,
    ensures
        find_entry(adds, parent) == adds.len() - 1,
{
}

proof fn lemma_find_entry_update(adds: Seq<(u64, Seq<u64>)>, parent: u64, i: int, e: (u64, Seq<u64>))
    requires
        0 <= i < adds.len(),
        find_entry(adds, parent) == i,
        e.0 == parent,
    ensures
        find_entry(adds.update(i, e), parent) == i,
    decreases adds.len(),
{
    if i < adds.len() - 1 {
        assert(adds.update(i, e).drop_last() =~= adds.drop_last().update(i, e));
        lemma_find_entry_update(adds.drop_last(), parent, i, e);
    }
}

/// An entity that lost its parent leaves the children of its previous
/// parent, and its `PreviousParent` is removed, when that parent has a
/// `Children` component; otherwise nothing changes.
pub proof fn lemma_removal_drops_child(st: HierarchyState, r: RemovedParent)
    ensures
        st.children.contains_key(r.previous_parent) ==> {
            &&& !removal_step(st, r).children[r.previous_parent].contains(r.entity)
            &&& removal_step(st, r).removed == st.removed.push(r.entity)
        },
        !st.children.contains_key(r.previous_parent) ==> removal_step(st, r) == st,
{
    if st.children.contains_key(r.previous_parent) {
        lemma_without(st.children[r.previous_parent], r.entity);
    }
}

proof fn lemma_without_keeps_others(s: Seq<u64>, x: u64, y: u64)
    requires
        x != y,
    ensures
        without(s, x).contains(y) <==> s.contains(y),
{
    lemma_without(s, x);
}

proof fn lemma_push_keeps_others(s: Seq<u64>, x: u64, y: u64)
    requires
        x != y,
    ensures
        s.push(x).contains(y) <==> s.contains(y),
{
    if s.contains(y) {
        let k = choose|k: int| 0 <= k < s.len() && s[k] == y;
        assert(s.push(x)[k] == y);
    }
    if s.push(x).contains(y) {
        let k = choose|k: int| 0 <= k < s.push(x).len() && s.push(x)[k] == y;
        assert(s[k] == y);
    }
}

/// Whether `y` is among the children of each parent is the same in `a` and
/// `b`, which have the same parents.
pub open spec fn same_membership(a: Map<u64, Seq<u64>>, b: Map<u64, Seq<u64>>, y: u64) -> bool {
    &&& a.dom() == b.dom()
    &&& forall|p: u64| a.contains_key(p) ==> (#[trigger] a[p].contains(y) <==> b[p].contains(y))
}

proof fn lemma_change_step_other(st: HierarchyState, c: ParentChange, y: u64)
    requires
        c.entity != y,
    ensures
        same_membership(st.children, change_step(st, c).children, y),
{
    let n = change_step(st, c).children;
    if c.previous_parent != Some(c.parent) {
        let ch1 = match c.previous_parent {
            Some(p) => if st.children.contains_key(p) {
                st.children.insert(p, without(st.children[p], c.entity))
            } else {
                st.children
            },
            None => st.children,
        };
        assert(ch1.dom() =~= st.children.dom());
        assert forall|q: u64| st.children.contains_key(q) implies (#[trigger] st.children[q].contains(y)
            <==> ch1[q].contains(y)) by {
            match c.previous_parent {
                Some(p) => if st.children.contains_key(p) && q == p {
                    lemma_without_keeps_others(st.children[p], c.entity, y);
                },
                None => {},
            }
        }
        if ch1.contains_key(c.parent) && !ch1[c.parent].contains(c.entity) {
            lemma_push_keeps_others(ch1[c.parent], c.entity, y);
            assert(n.dom() =~= st.children.dom());
        }
        assert forall|q: u64| st.children.contains_key(q) implies (#[trigger] st.children[q].contains(y)
            <==> n[q].contains(y)) by {
            assert(st.children[q].contains(y) <==> ch1[q].contains(y));
        }
    }
}

proof fn lemma_changes_other(st: HierarchyState, cs: Seq<ParentChange>, y: u64)
    requires
        forall|i: int| 0 <= i < cs.len() ==> (#[trigger] cs[i]).entity != y,
    ensures
        same_membership(st.children, after_changes(st, cs).children, y),
    decreases cs.len(),
{
    if cs.len() > 0 {
        lemma_changes_other(st, cs.drop_last(), y);
        lemma_change_step_other(after_changes(st, cs.drop_last()), cs.last(), y);
        assert(cs[cs.len() - 1].entity != y);
    }
}

proof fn lemma_removals_dom(st: HierarchyState, rs: Seq<RemovedParent>)
    ensures
        after_removals(st, rs).children.dom() == st.children.dom(),
    decreases rs.len(),
{
    if rs.len() > 0 {
        lemma_removals_dom(st, rs.drop_last());
        let a = after_removals(st, rs.drop_last());
        assert(removal_step(a, rs.last()).children.dom() =~= a.children.dom());
    }
}

proof fn lemma_change_step_dom(st: HierarchyState, c: ParentChange)
    ensures
        change_step(st, c).children.dom() == st.children.dom(),
{
    if c.previous_parent != Some(c.parent) {
        let ch1 = match c.previous_parent {
            Some(p) => if st.children.contains_key(p) {
                st.children.insert(p, without(st.children[p], c.entity))
            } else {
                st.children
            },
            None => st.children,
        };
        assert(ch1.dom() =~= st.children.dom());
        if ch1.contains_key(c.parent) && !ch1[c.parent].contains(c.entity) {
            assert(ch1.insert(c.parent, ch1[c.parent].push(c.entity)).dom() =~= st.children.dom());
        }
    }
}

proof fn lemma_changes_dom(st: HierarchyState, cs: Seq<ParentChange>)
    ensures
        after_changes(st, cs).children.dom() == st.children.dom(),
    decreases cs.len(),
{
    if cs.len() > 0 {
        lemma_changes_dom(st, cs.drop_last());
        lemma_change_step_dom(after_changes(st, cs.drop_last()), cs.last());
    }
}

proof fn lemma_changes_split(st: HierarchyState, a: Seq<ParentChange>, b: Seq<ParentChange>)
    ensures
        after_changes(st, a + b) == after_changes(after_changes(st, a), b),
    decreases b.len(),
{
    if b.len() == 0 {
        assert(a + b =~= a);
    } else {
        lemma_changes_split(st, a, b.drop_last());
        assert((a + b).drop_last() =~= a + b.drop_last());
        assert((a + b).last() == b.last());
    }
}

proof fn lemma_removals_split(st: HierarchyState, a: Seq<RemovedParent>, b: Seq<RemovedParent>)
    ensures
        after_removals(st, a + b) == after_removals(after_removals(st, a), b),
    decreases b.len(),
{
    if b.len() == 0 {
        assert(a + b =~= a);
    } else {
        lemma_removals_split(st, a, b.drop_last());
        assert((a + b).drop_last() =~= a + b.drop_last());
        assert((a + b).last() == b.last());
    }
}

proof fn lemma_removal_step_other(st: HierarchyState, r: RemovedParent, y: u64)
    requires
        r.entity != y,
    ensures
        same_membership(st.children, removal_step(st, r).children, y),
{
    if st.children.contains_key(r.previous_parent) {
        lemma_without_keeps_others(st.children[r.previous_parent], r.entity, y);
        assert(removal_step(st, r).children.dom() =~= st.children.dom());
    }
}

proof fn lemma_removals_other(st: HierarchyState, rs: Seq<RemovedParent>, y: u64)
    requires
        forall|i: int| 0 <= i < rs.len() ==> (#[trigger] rs[i]).entity != y,
    ensures
        same_membership(st.children, after_removals(st, rs).children, y),
    decreases rs.len(),
{
    if rs.len() > 0 {
        lemma_removals_other(st, rs.drop_last(), y);
        lemma_removal_step_other(after_removals(st, rs.drop_last()), rs.last(), y);
        assert(rs[rs.len() - 1].entity != y);
    }
}

/// When each entity appears once among the changes, every entity whose
/// parent changed ends up among the children of its new parent, if that
/// parent had a `Children` component, and no longer among those of its
/// previous parent.
pub proof fn lemma_update_settles_changed(
    children: Map<u64, Seq<u64>>,
    removed: Seq<RemovedParent>,
    changed: Seq<ParentChange>,
    k: int,
)
    requires
        0 <= k < changed.len(),
        forall|i: int, j: int| 0 <= i < j < changed.len() ==> (#[trigger] changed[i]).entity != (#[trigger] changed[j]).entity,
        changed[k].previous_parent != Some(changed[k].parent),
    ensures
        children.contains_key(changed[k].parent) ==> parent_update(children, removed, changed).children[changed[k].parent].contains(
            changed[k].entity,
        ),
        changed[k].previous_parent matches Some(p) ==> (children.contains_key(p) ==> !parent_update(
            children,
            removed,
            changed,
        ).children[p].contains(changed[k].entity)),
{
    let mid = after_removals(initial_state(children), removed);
    lemma_removals_dom(initial_state(children), removed);
    let c = changed[k];
    let before = after_changes(mid, changed.take(k));
    lemma_changes_dom(mid, changed.take(k));
    let at = change_step(before, c);
    assert(changed.take(k + 1).drop_last() =~= changed.take(k));
    assert(changed.take(k + 1).last() == c);
    assert(after_changes(mid, changed.take(k + 1)) == at);
    lemma_change_moves_child(before, c);
    let rest = changed.skip(k + 1);
    assert(changed.take(k + 1) + rest =~= changed);
    lemma_changes_split(mid, changed.take(k + 1), rest);
    assert forall|i: int| 0 <= i < rest.len() implies (#[trigger] rest[i]).entity != c.entity by {
        assert(rest[i] == changed[k + 1 + i]);
    }
    lemma_changes_other(at, rest, c.entity);
}

/// When the entities that lost their parent appear once among them and
/// among no change, each of them ends up out of the children of its previous
/// parent.
pub proof fn lemma_update_settles_removed(
    children: Map<u64, Seq<u64>>,
    removed: Seq<RemovedParent>,
    changed: Seq<ParentChange>,
    k: int,
)
    requires
        0 <= k < removed.len(),
        forall|i: int, j: int| 0 <= i < j < removed.len() ==> (#[trigger] removed[i]).entity != (#[trigger] removed[j]).entity,
        forall|i: int| 0 <= i < changed.len() ==> (#[trigger] changed[i]).entity != removed[k].entity,
    ensures
        children.contains_key(removed[k].previous_parent) ==> !parent_update(children, removed, changed).children[removed[k].previous_parent].contains(
            removed[k].entity,
        ),
{
    let init = initial_state(children);
    let r = removed[k];
    let before = after_removals(init, removed.take(k));
    lemma_removals_dom(init, removed.take(k));
    assert(removed.take(k + 1).drop_last() =~= removed.take(k));
    assert(removed.take(k + 1).last() == r);
    let at = removal_step(before, r);
    lemma_removal_drops_child(before, r);
    let rest = removed.skip(k + 1);
    assert(removed.take(k + 1) + rest =~= removed);
    lemma_removals_split(init, removed.take(k + 1), rest);
    assert forall|i: int| 0 <= i < rest.len() implies (#[trigger] rest[i]).entity != r.entity by {
        assert(rest[i] == removed[k + 1 + i]);
    }
    lemma_removals_other(at, rest, r.entity);
    lemma_changes_other(after_removals(init, removed), changed, r.entity);
    if children.contains_key(r.previous_parent) {
        assert(at.children.dom() =~= before.children.dom().insert(r.previous_parent));
    }
}

} // verus!
