use vstd::prelude::*;

verus! {

/// The identifier of an e-class (and of an entry of the union-find).
#[derive(Debug, Clone, Copy, Default, Ord, PartialOrd, Eq, PartialEq, Hash, Structural)]
pub struct Id(pub usize);

impl From<usize> for Id {
    fn from(n: usize) -> (r: Id)
        ensures
            r.0 == n,
    {
        Id(n)
    }
}

impl vstd::std_specs::convert::FromSpecImpl<usize> for Id {
    open spec fn obeys_from_spec() -> bool {
        true
    }

    open spec fn from_spec(v: usize) -> Id {
        Id(v)
    }
}

impl From<Id> for usize {
    fn from(id: Id) -> (r: usize)
        ensures
            r == id.0,
    {
        id.0
    }
}

impl vstd::std_specs::convert::FromSpecImpl<Id> for usize {
    open spec fn obeys_from_spec() -> bool {
        true
    }

    open spec fn from_spec(v: Id) -> usize {
        v.0
    }
}

} // verus!
