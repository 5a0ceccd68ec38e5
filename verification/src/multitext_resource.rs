//! A test resource holding a list of texts, and its processor.

use vstd::prelude::*;

verus! {

/// A resource holding a list of texts.
#[derive(Clone, Debug)]
pub struct MultiTextResource {
    pub text_list: Vec<String>,
}

/// Creates, reads and writes `MultiTextResource`s.
pub struct MultiTextResourceProc {}

impl MultiTextResourceProc {
    /// A new resource, with no text.
    pub fn new_resource(&mut self) -> (r: MultiTextResource)
        ensures
            r.text_list@.len() == 0,
    {
        MultiTextResource { text_list: Vec::new() }
    }

    /// The resources this one needs built first: none.
    pub fn extract_build_dependencies(&mut self, resource: &MultiTextResource) -> (r: Vec<u64>)
        ensures
            r@.len() == 0,
    {
        Vec::new()
    }
}

} // verus!
