use vstd::prelude::*;
use indexmap::IndexSet;
use crate::id::Id;
use crate::enode::{Enode, EnodeV};
use crate::maps::{node_set_items, node_set_new, node_set_insert, node_set_clone};

verus! {

/// An e-class: the e-nodes it holds, and the parent e-nodes (with their
/// e-class ids) that have it as an argument.
#[derive(Debug)]
pub struct EClass {
    pub nodes: IndexSet<Enode>,
    pub parents: Vec<(Enode, Id)>,
}

/// The value of a parent entry.
pub open spec fn parent_view(p: (Enode, Id)) -> (EnodeV, usize) {
    (p.0@, p.1.0)
}

/// The values of parent entries.
pub open spec fn parents_view(s: Seq<(Enode, Id)>) -> Seq<(EnodeV, usize)> {
    s.map_values(|p: (Enode, Id)| parent_view(p))
}

/// The value of an e-class: its e-nodes in order and its parent entries.
pub type EClassV = (Seq<EnodeV>, Seq<(EnodeV, usize)>);

impl View for EClass {
    type V = EClassV;

    open spec fn view(&self) -> EClassV {
        (node_set_items(self.nodes), parents_view(self.parents@))
    }
}

/// A copy of a vector of parent entries.
pub fn clone_parents(v: &Vec<(Enode, Id)>) -> (r: Vec<(Enode, Id)>)
    ensures
        parents_view(r@) == parents_view(v@),
{
    let mut r: Vec<(Enode, Id)> = Vec::new();
    let mut i: usize = 0;
    while i < v.len()
        invariant
            i <= v.len(),
            r@.len() == i,
            parents_view(r@) == parents_view(v@).take(i as int),
        decreases v.len() - i,
    {
        let p = (v[i].0.clone(), v[i].1);
        assert(parent_view(p) == parent_view(v@[i as int]));
        let ghost prev = r@;
        r.push(p);
        assert(r@ == prev.push(p));
        i = i + 1;
        assert forall|k: int| 0 <= k < i implies #[trigger] parents_view(r@)[k] == parents_view(v@)[k] by {
            if k < i - 1 {
                assert(r@[k] == prev[k]);
                assert(parents_view(prev)[k] == parents_view(v@).take(i - 1)[k]);
            } else {
                assert(r@[k] == p);
            }
        }
        assert(parents_view(r@) =~= parents_view(v@).take(i as int));
    }
    assert(parents_view(v@).take(i as int) =~= parents_view(v@));
    r
}

impl EClass {
    /// An e-class holding the single e-node `node` and no parents.
    pub fn new(node: Enode) -> (c: EClass)
        ensures
            c@ == (seq![node@], Seq::<(EnodeV, usize)>::empty()),
    {
        let mut termvec = node_set_new();
        node_set_insert(&mut termvec, node);
        let res = EClass { nodes: termvec, parents: Vec::<(Enode, Id)>::new() };
        assert(res@.0 =~= seq![node@]);
        assert(res@.1 =~= Seq::<(EnodeV, usize)>::empty());
        return res;
    }
}

impl Clone for EClass {
    fn clone(&self) -> (c: EClass)
        ensures
            c@ == self@,
    {
        EClass { nodes: node_set_clone(&self.nodes), parents: clone_parents(&self.parents) }
    }
}

} // verus!
