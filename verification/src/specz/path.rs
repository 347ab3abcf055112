//! A path parameter that the solver builds out of segments.
use vstd::prelude::*;

verus! {

/// A path parameter, by name, made of a given number of segments.
#[derive(PartialEq, Eq, Debug)]
pub struct PathParam {
    name: String,
    n_segments: usize,
}

impl PathParam {
    pub closed spec fn spec_name(&self) -> Seq<char> {
        self.name@
    }

    pub closed spec fn spec_n_segments(&self) -> nat {
        self.n_segments as nat
    }

    pub fn new(name: String, n_segments: usize) -> (r: Self)
        ensures
            r.spec_name() == name@,
            r.spec_n_segments() == n_segments,
    {
        PathParam { name, n_segments }
    }
}

} // verus!
