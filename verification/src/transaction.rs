//! Operations of data transactions.

use crate::resource_type::ResourceType;
use crate::text::{chars_of, push_char};
use vstd::prelude::*;

verus! {

/// A resource: its type and its identifier.
#[derive(Clone, Copy, Debug, PartialEq, Eq, Structural)]
pub struct ResourceTypeAndId {
    pub kind: ResourceType,
    pub id: u128,
}

/// Clones a resource, under a new identifier and optionally a new parent.
#[derive(Debug)]
pub struct CloneResourceOperation {
    source_resource_id: ResourceTypeAndId,
    clone_resource_id: ResourceTypeAndId,
    target_parent_id: Option<ResourceTypeAndId>,
}

impl CloneResourceOperation {
    pub closed spec fn source(self) -> ResourceTypeAndId {
        self.source_resource_id
    }

    pub closed spec fn clone_id(self) -> ResourceTypeAndId {
        self.clone_resource_id
    }

    pub closed spec fn target_parent(self) -> Option<ResourceTypeAndId> {
        self.target_parent_id
    }

    /// Creates the operation that clones `source_resource_id` as
    /// `clone_resource_id`, under `target_parent_id` if given.
    pub fn new(
        source_resource_id: ResourceTypeAndId,
        clone_resource_id: ResourceTypeAndId,
        target_parent_id: Option<ResourceTypeAndId>,
    ) -> (r: Box<Self>)
        ensures
            r.source() == source_resource_id,
            r.clone_id() == clone_resource_id,
            r.target_parent() == target_parent_id,
    {
        Box::new(CloneResourceOperation { source_resource_id, clone_resource_id, target_parent_id })
    }

    /// The resource cloned.
    pub fn source_resource_id(&self) -> (r: ResourceTypeAndId)
        ensures
            r == self.source(),
    {
        self.source_resource_id
    }

    /// The identifier of the clone.
    pub fn clone_resource_id(&self) -> (r: ResourceTypeAndId)
        ensures
            r == self.clone_id(),
    {
        self.clone_resource_id
    }

    /// The resource that undoing the operation deletes from the project: the
    /// clone.
    pub fn rollback_resource_id(&self) -> (r: ResourceTypeAndId)
        ensures
            r == self.clone_id(),
    {
        self.clone_resource_id
    }

    /// The parent of the clone, if it gets one.
    pub fn target_parent_id(&self) -> (r: Option<ResourceTypeAndId>)
        ensures
            r == self.target_parent(),
    {
        self.target_parent_id
    }
}

/// The text after the last `/` of a resource path; the whole path when it
/// has none.
pub open spec fn entity_name_of(path: Seq<char>) -> Seq<char>
    decreases path.len(),
{
    if path.len() == 0 {
        Seq::empty()
    } else if path.last() == '/' {
        Seq::empty()
    } else {
        entity_name_of(path.drop_last()).push(path.last())
    }
}

/// The name given to the Name component of a clone: the last segment of the
/// clone's resource path.
pub fn clone_entity_name(path: &String) -> (r: String)
    ensures
        r@ == entity_name_of(path@),
{
    let cs = chars_of(path);
    let mut name = String::new();
    let n = cs.len();
    for i in 0..n
        invariant
            n == cs@.len(),
            cs@ == path@,
            name@ == entity_name_of(cs@.take(i as int)),
    {
        proof {
            assert(cs@.take(i + 1).drop_last() =~= cs@.take(i as int));
            assert(cs@.take(i + 1).last() == cs@[i as int]);
        }
        let c = cs[i];
        if c == '/' {
            name = String::new();
        } else {
            push_char(&mut name, c);
        }
    }
    proof {
        assert(cs@.take(n as int) =~= cs@);
    }
    name
}

/// Why the name field of a clone could not be set.
#[derive(Clone, Copy, Debug, PartialEq, Eq, Structural)]
pub enum NameFieldError {
    /// The resource has no field of that name.
    FieldNotFoundOnStruct,
    /// The resource has no `Name` component.
    ArrayKeyNotFound,
    /// Any other reflection failure.
    Other,
}

/// Whether failing to name the clone fails the operation: a clone without a
/// name field or a `Name` component is left unnamed; any other failure is
/// an error.
pub fn name_error_is_fatal(e: NameFieldError) -> (r: bool)
    ensures
        r == (e == NameFieldError::Other),
{
    match e {
        NameFieldError::FieldNotFoundOnStruct => false,
        NameFieldError::ArrayKeyNotFound => false,
        NameFieldError::Other => true,
    }
}

} // verus!
