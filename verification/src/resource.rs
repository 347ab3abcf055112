//! The resources that a run creates, by index.
use vstd::prelude::*;

use crate::wasi_spec::value::WasiValue;

verus! {

/// A resource, and the state the fuzzer keeps for it.
#[derive(PartialEq, Eq, Debug)]
pub struct Resource {
    pub state: WasiValue,
}

/// The resources, indexed by when they were created.
#[derive(PartialEq, Eq, Debug)]
pub struct Resources(Vec<Resource>);

/// A resource's index.
#[derive(PartialEq, Eq, PartialOrd, Ord, Hash, Clone, Copy, Debug)]
pub struct ResourceIdx(pub usize);

/// A value as the fuzzer sees it: a resource it tracks, or a plain value.
#[derive(PartialEq, Eq, Debug)]
pub enum HighLevelValue {
    Resource(ResourceIdx),
    Concrete(WasiValue),
}

impl Resources {
    pub closed spec fn view(&self) -> Seq<Resource> {
        self.0@
    }

    /// No resources.
    pub fn new() -> (r: Self)
        ensures
            r.view().len() == 0,
    {
        Resources(Vec::new())
    }

    /// How many resources there are.
    pub fn len(&self) -> (r: usize)
        ensures
            r == self.view().len(),
    {
        self.0.len()
    }

    /// Adds a resource; its index is the number of resources before it.
    pub fn push(&mut self, resource: Resource) -> (r: ResourceIdx)
        ensures
            final(self).view() == old(self).view().push(resource),
            r.0 == old(self).view().len(),
    {
        self.0.push(resource);
        ResourceIdx(self.0.len() - 1)
    }

    /// The resource at index `i`, if there is one.
    pub fn get(&self, i: ResourceIdx) -> (r: Option<&Resource>)
        ensures
            r == (if i.0 < self.view().len() {
                Some(&self.view()[i.0 as int])
            } else {
                None::<&Resource>
            }),
    {
        if i.0 < self.0.len() {
            Some(&self.0[i.0])
        } else {
            None
        }
    }

    /// The resource at index `i`, to change, if there is one.
    pub fn get_mut(&mut self, i: ResourceIdx) -> (r: Option<&mut Resource>)
        ensures
            (i.0 < old(self).view().len()) <==> r is Some,
            r matches Some(res) ==> {
                &&& *res == old(self).view()[i.0 as int]
                &&& final(self).view() == old(self).view().update(i.0 as int, *final(res))
            },
            r is None ==> final(self).view() == old(self).view(),
    {
        if i.0 < self.0.len() {
            Some(&mut self.0[i.0])
        } else {
            None
        }
    }
}

/// A resource pushed is found at the index `push` gave, and the resources
/// before it stay where they were.
pub proof fn lemma_push_then_get(before: Resources, after: Resources, resource: Resource, i: ResourceIdx, j: int)
    requires
        after.view() == before.view().push(resource),
        i.0 == before.view().len(),
        0 <= j < before.view().len(),
    ensures
        after.view()[i.0 as int] == resource,
        after.view()[j] == before.view()[j],
        after.view().len() == i.0 + 1,
{
}

} // verus!
