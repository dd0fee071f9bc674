use vstd::prelude::*;
use crate::id::Id;

verus! {

/// An e-node: an operator (or a leaf symbol) applied to e-class ids.
#[derive(Debug, Default, Hash)]
pub struct Enode {
    pub head: String,
    pub args: Vec<Id>,
}

/// The mathematical value of an e-node: its head and its argument ids.
pub type EnodeV = (Seq<char>, Seq<usize>);

/// The ids of a sequence of `Id`s.
pub open spec fn ids_view(s: Seq<Id>) -> Seq<usize> {
    s.map_values(|i: Id| i.0)
}

impl View for Enode {
    type V = EnodeV;

    open spec fn view(&self) -> EnodeV {
        (self.head@, ids_view(self.args@))
    }
}

/// Compares two vectors of ids entry by entry.
pub fn ids_equal(a: &Vec<Id>, b: &Vec<Id>) -> (r: bool)
    ensures
        r == (ids_view(a@) == ids_view(b@)),
{
    if a.len() != b.len() {
        assert(ids_view(a@).len() != ids_view(b@).len());
        return false;
    }
    let mut i: usize = 0;
    while i < a.len()
        invariant
            a.len() == b.len(),
            i <= a.len(),
            forall|k: int| 0 <= k < i ==> a@[k].0 == b@[k].0,
        decreases a.len() - i,
    {
        if a[i].0 != b[i].0 {
            assert(ids_view(a@)[i as int] != ids_view(b@)[i as int]);
            return false;
        }
        i = i + 1;
    }
    assert(ids_view(a@) =~= ids_view(b@));
    true
}

impl PartialEq for Enode {
    fn eq(&self, other: &Enode) -> (r: bool) {
        let same_head = self.head == other.head;
        same_head && ids_equal(&self.args, &other.args)
    }
}

impl Eq for Enode {
}

impl vstd::std_specs::cmp::PartialEqSpecImpl for Enode {
    open spec fn obeys_eq_spec() -> bool {
        true
    }

    open spec fn eq_spec(&self, other: &Enode) -> bool {
        self@ == other@
    }
}

impl Enode {
    /// A leaf e-node: the given head and no arguments.
    pub fn new(string: String) -> (n: Enode)
        ensures
            n.head == string,
            n@ == (string@, Seq::<usize>::empty()),
    {
        let test = Enode { head: string.clone(), args: Vec::new() };
        assert(ids_view(test.args@) =~= Seq::<usize>::empty());
        return test;
    }

    /// The number of arguments.
    pub fn len(&self) -> (n: usize)
        ensures
            n == self.args@.len(),
            n == self@.1.len(),
    {
        return self.args.len();
    }
}

impl Clone for Enode {
    fn clone(&self) -> (n: Enode)
        ensures
            n@ == self@,
    {
        let args = self.args.clone();
        assert(ids_view(args@) =~= ids_view(self.args@));
        Enode { head: self.head.clone(), args }
    }
}

} // verus!
