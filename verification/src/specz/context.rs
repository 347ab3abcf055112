//! What the solver's runtime knows of the resources of a run.
use vstd::prelude::*;

use std::collections::BTreeMap;

use crate::wasi::value::WasiValue;

verus! {

/// The runtime's value for each resource, with the bytes behind it where it
/// has any, and the host directory that the run's base directory is.
#[derive(PartialEq, Eq, Debug)]
pub struct Context {
    pub resources: BTreeMap<usize, (WasiValue, Option<Vec<u8>>)>,
    pub base_dir_host_path: String,
}

impl Context {
    /// No resources, and the base directory at `base_dir_host_path`.
    pub fn new(base_dir_host_path: String) -> (r: Self)
        ensures
            r.resources@ == Map::<usize, (WasiValue, Option<Vec<u8>>)>::empty(),
            r.base_dir_host_path == base_dir_host_path,
    {
        Context { resources: BTreeMap::new(), base_dir_host_path }
    }
}

} // verus!
