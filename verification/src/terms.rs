//! Terms: an operator with argument ids.
use vstd::prelude::*;
use crate::id::Id;
use crate::enode::ids_equal;

verus! {

/// A term: a head and the ids of its arguments.
#[derive(Debug, Default, Hash)]
pub struct Term {
    pub head: String,
    pub args: Vec<Id>,
}

impl Term {
    /// A term with the given head and no arguments.
    pub fn new(string: String) -> (t: Term)
        ensures
            t.head@ == string@,
            t.args@.len() == 0,
    {
        let test = Term { head: string.clone(), args: Vec::new() };
        return test;
    }
}

impl PartialEq for Term {
    fn eq(&self, other: &Term) -> (r: bool) {
        let same_head = self.head == other.head;
        same_head && ids_equal(&self.args, &other.args)
    }
}

impl Eq for Term {
}

impl vstd::std_specs::cmp::PartialEqSpecImpl for Term {
    open spec fn obeys_eq_spec() -> bool {
        true
    }

    open spec fn eq_spec(&self, other: &Term) -> bool {
        self.head@ == other.head@ && self.args@.map_values(|i: Id| i.0) == other.args@.map_values(
            |i: Id| i.0,
        )
    }
}

impl Clone for Term {
    fn clone(&self) -> (t: Term)
        ensures
            t.head@ == self.head@,
            t.args@ == self.args@,
    {
        let args = self.args.clone();
        assert(args@ =~= self.args@);
        Term { head: self.head.clone(), args }
    }
}

} // verus!
