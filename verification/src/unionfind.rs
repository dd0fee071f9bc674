use vstd::prelude::*;
use crate::id::Id;

verus! {

/// A union-find over the ids `0 .. size()`.
///
/// Each entry points at a parent; an entry that points at itself is the
/// canonical representative (the root) of its set.  A ghost rank, which
/// strictly grows along every parent edge, witnesses that parent chains
/// end in a root.
#[derive(Clone)]
pub struct UnionFind {
    parents: Vec<Id>,
    rank: Ghost<Seq<nat>>,
    max_rank: Ghost<nat>,
}

impl UnionFind {
    /// The parent pointers, as plain indices.
    pub closed spec fn parent_seq(&self) -> Seq<usize> {
        self.parents@.map_values(|p: Id| p.0)
    }

    /// Number of entries.
    pub open spec fn spec_size(&self) -> nat {
        self.parent_seq().len()
    }

    /// The parent of entry `i`.
    pub open spec fn parent_of(&self, i: int) -> int {
        self.parent_seq()[i] as int
    }

    /// Whether `i` is the representative of its set.
    pub open spec fn is_root(&self, i: int) -> bool {
        0 <= i < self.spec_size() && self.parent_of(i) == i
    }

    /// Well-formedness: parents are in range and the ghost rank grows
    /// strictly along every parent edge.
    pub closed spec fn wf(&self) -> bool {
        &&& self.parents@.len() <= usize::MAX
        &&& self.rank@.len() == self.parents@.len()
        &&& forall|i: int| 0 <= i < self.parents@.len() ==> #[trigger] self.parents@[i].0 < self.parents@.len()
        &&& forall|i: int|
            0 <= i < self.parents@.len() && #[trigger] self.parents@[i].0 != i ==> self.rank@[i]
                < self.rank@[self.parents@[i].0 as int]
        &&& forall|i: int| 0 <= i < self.rank@.len() ==> #[trigger] self.rank@[i] <= self.max_rank@
    }

    /// How far the rank of `i` is below the largest rank.
    pub closed spec fn rank_gap(&self, i: int) -> int {
        self.max_rank@ - self.rank@[i]
    }

    /// The representative reached by following parent pointers from `i`.
    pub closed spec fn root(&self, i: int) -> int
        decreases self.rank_gap(i),
    {
        if 0 <= i < self.parents@.len() {
            let p = self.parents@[i].0 as int;
            if p != i && 0 <= p < self.parents@.len() && p < self.rank@.len() && i < self.rank@.len()
                && self.rank@[i] < self.rank@[p] && self.rank@[p] <= self.max_rank@ {
                self.root(p)
            } else {
                i
            }
        } else {
            i
        }
    }

    /// The parent pointers after pointing every entry of the set of `r`
    /// directly at `r`.
    pub open spec fn compressed(&self, r: int) -> Seq<usize> {
        Seq::new(self.spec_size(), |i: int| if self.root(i) == r { r as usize } else { self.parent_seq()[i] })
    }

    /// Two entries are in one set when they have the same representative.
    pub open spec fn same_set(&self, i: int, j: int) -> bool {
        self.root(i) == self.root(j)
    }

    proof fn lemma_root_step(&self, i: int)
        requires
            self.wf(),
            0 <= i < self.spec_size(),
        ensures
            self.parent_of(i) == i ==> self.root(i) == i,
            self.parent_of(i) != i ==> self.root(i) == self.root(self.parent_of(i)),
    {
        let p = self.parents@[i].0 as int;
        assert(self.parents@[i].0 < self.parents@.len());
        if p != i {
            assert(self.rank@[i] < self.rank@[p]);
            assert(self.rank@[p] <= self.max_rank@);
        }
    }

    /// The representative of an entry is in range, is a root, and is its
    /// own representative.
    pub proof fn lemma_root_is_root(&self, i: int)
        requires
            self.wf(),
            0 <= i < self.spec_size(),
        ensures
            0 <= self.root(i) < self.spec_size(),
            self.spec_size() <= usize::MAX,
            self.is_root(self.root(i)),
            self.root(self.root(i)) == self.root(i),
    {
        self.lemma_root(i);
    }

    /// An entry is a root exactly when it is its own representative.
    pub proof fn lemma_is_root_iff(&self, i: int)
        requires
            self.wf(),
            0 <= i < self.spec_size(),
        ensures
            self.is_root(i) <==> self.root(i) == i,
    {
        self.lemma_root_step(i);
        self.lemma_root(i);
    }

    proof fn lemma_root(&self, i: int)
        requires
            self.wf(),
            0 <= i < self.spec_size(),
        ensures
            0 <= self.root(i) < self.spec_size(),
            self.is_root(self.root(i)),
            self.root(self.root(i)) == self.root(i),
            self.root(i) != i ==> self.rank@[i] < self.rank@[self.root(i)],
        decreases self.max_rank@ - self.rank@[i],
    {
        self.lemma_root_step(i);
        let p = self.parents@[i].0 as int;
        assert(self.parents@[i].0 < self.parents@.len());
        if p != i {
            assert(self.rank@[i] < self.rank@[p]);
            assert(self.rank@[p] <= self.max_rank@);
            self.lemma_root(p);
        } else {
        }
        self.lemma_root_step(self.root(i));
    }

    /// Roots are unchanged between two well-formed union-finds of equal size
    /// when every entry of the second is a root exactly where it is a root of
    /// the first, and otherwise points into its own set of the first.
    proof fn lemma_roots_preserved(old_uf: &Self, new_uf: &Self, i: int)
        requires
            old_uf.wf(),
            new_uf.wf(),
            new_uf.spec_size() == old_uf.spec_size(),
            0 <= i < new_uf.spec_size(),
            forall|j: int|
                0 <= j < new_uf.spec_size() && #[trigger] new_uf.parent_of(j) == j ==> old_uf.root(j)
                    == j,
            forall|j: int|
                0 <= j < new_uf.spec_size() && #[trigger] new_uf.parent_of(j) != j ==> old_uf.root(
                    new_uf.parent_of(j),
                ) == old_uf.root(j),
        ensures
            new_uf.root(i) == old_uf.root(i),
        decreases new_uf.max_rank@ - new_uf.rank@[i],
    {
        new_uf.lemma_root_step(i);
        let p = new_uf.parent_of(i);
        if p != i {
            assert(new_uf.parents@[i].0 != i);
            assert(new_uf.parents@[i].0 < new_uf.parents@.len());
            assert(new_uf.rank@[p] <= new_uf.max_rank@);
            Self::lemma_roots_preserved(old_uf, new_uf, p);
        }
    }

    /// Roots of a union-find are kept by one that extends it with new entries
    /// that are their own roots.
    proof fn lemma_roots_extended(old_uf: &Self, new_uf: &Self, i: int)
        requires
            old_uf.wf(),
            new_uf.wf(),
            old_uf.spec_size() <= new_uf.spec_size(),
            forall|j: int| 0 <= j < old_uf.spec_size() ==> #[trigger] new_uf.parents@[j] == old_uf.parents@[j],
            0 <= i < old_uf.spec_size(),
        ensures
            new_uf.root(i) == old_uf.root(i),
        decreases old_uf.max_rank@ - old_uf.rank@[i],
    {
        old_uf.lemma_root_step(i);
        new_uf.lemma_root_step(i);
        assert(new_uf.parents@[i] == old_uf.parents@[i]);
        let p = old_uf.parent_of(i);
        if p != i {
            assert(old_uf.parents@[i].0 != i);
            assert(old_uf.parents@[i].0 < old_uf.parents@.len());
            assert(old_uf.rank@[p] <= old_uf.max_rank@);
            Self::lemma_roots_extended(old_uf, new_uf, p);
        }
    }

    /// After a union of the sets of `a` and `b` (as `union` leaves the
    /// representatives), `a` and `b` are in one set, and two entries are in
    /// one set exactly when they were before, or each was with `a` or `b`.
    pub proof fn lemma_union_joins(old_uf: &Self, new_uf: &Self, a: int, b: int, i: int, j: int)
        requires
            old_uf.wf(),
            0 <= a < old_uf.spec_size(),
            0 <= b < old_uf.spec_size(),
            0 <= i < old_uf.spec_size(),
            0 <= j < old_uf.spec_size(),
            new_uf.spec_size() == old_uf.spec_size(),
            forall|k: int|
                0 <= k < old_uf.spec_size() ==> #[trigger] new_uf.root(k) == (if old_uf.root(k) == old_uf.root(b) {
                    old_uf.root(a)
                } else {
                    old_uf.root(k)
                }),
        ensures
            new_uf.same_set(a, b),
            new_uf.same_set(i, j) <==> (old_uf.same_set(i, j) || ((old_uf.same_set(i, a) || old_uf.same_set(i, b))
                && (old_uf.same_set(j, a) || old_uf.same_set(j, b)))),
    {
        old_uf.lemma_root(a);
        old_uf.lemma_root(b);
        assert(new_uf.root(a) == old_uf.root(a) || new_uf.root(a) == old_uf.root(a));
        assert(new_uf.root(b) == old_uf.root(a));
        assert(new_uf.root(i) == (if old_uf.root(i) == old_uf.root(b) { old_uf.root(a) } else { old_uf.root(i) }));
        assert(new_uf.root(j) == (if old_uf.root(j) == old_uf.root(b) { old_uf.root(a) } else { old_uf.root(j) }));
    }

    /// A new entry (as `new_set` adds it) is in a set of its own.
    pub proof fn lemma_new_set_alone(old_uf: &Self, new_uf: &Self, id: int, i: int)
        requires
            old_uf.wf(),
            id == old_uf.spec_size(),
            new_uf.root(id) == id,
            forall|k: int| 0 <= k < old_uf.spec_size() ==> #[trigger] new_uf.root(k) == old_uf.root(k),
            0 <= i < old_uf.spec_size(),
        ensures
            !new_uf.same_set(i, id),
            !new_uf.same_set(id, i),
    {
        old_uf.lemma_root(i);
        assert(new_uf.root(i) == old_uf.root(i));
    }

    /// An empty union-find.
    fn new() -> (uf: UnionFind)
        ensures
            uf.wf(),
            uf.spec_size() == 0,
    {
        UnionFind { parents: Vec::new(), rank: Ghost(Seq::empty()), max_rank: Ghost(0) }
    }

    /// Adds a new entry that forms a set of its own and returns its id,
    /// which is the previous size.
    pub fn new_set(&mut self) -> (id: Id)
        requires
            old(self).wf(),
        ensures
            final(self).wf(),
            id.0 == old(self).spec_size(),
            final(self).spec_size() == old(self).spec_size() + 1,
            final(self).parent_seq() == old(self).parent_seq().push(id.0),
            final(self).is_root(id.0 as int),
            final(self).root(id.0 as int) == id.0,
            forall|i: int|
                0 <= i < old(self).spec_size() ==> #[trigger] final(self).root(i) == old(self).root(i),
    {
        let ghost old_uf = *self;
        let id = Id::from(self.parents.len());
        self.parents.push(id);
        let new_len = self.parents.len();
        proof {
            assert(new_len == self.parents@.len());
            self.rank@ = self.rank@.push(0);
            assert(self.parent_seq() =~= old_uf.parent_seq().push(id.0));
            assert forall|i: int| 0 <= i < self.rank@.len() implies #[trigger] self.rank@[i]
                <= self.max_rank@ by {
                if i < old_uf.rank@.len() {
                    assert(self.rank@[i] == old_uf.rank@[i]);
                }
            }
            assert forall|i: int|
                0 <= i < self.parents@.len() && #[trigger] self.parents@[i].0 != i implies self.rank@[i]
                < self.rank@[self.parents@[i].0 as int] by {
                assert(i < old_uf.parents@.len());
                assert(old_uf.parents@[i] == self.parents@[i]);
            }
            assert forall|i: int| 0 <= i < self.parents@.len() implies #[trigger] self.parents@[i].0
                < self.parents@.len() by {
                if i < old_uf.parents@.len() {
                    assert(old_uf.parents@[i] == self.parents@[i]);
                }
            }
            assert forall|i: int| 0 <= i < old_uf.spec_size() implies #[trigger] self.root(i)
                == old_uf.root(i) by {
                Self::lemma_roots_extended(&old_uf, self, i);
            }
            self.lemma_root_step(id.0 as int);
        }
        return id;
    }

    /// The number of entries.
    pub fn size(&self) -> (n: usize)
        ensures
            n == self.spec_size(),
    {
        return self.parents.len();
    }

    /// The number of entries.
    pub fn len(&self) -> (n: usize)
        ensures
            n == self.spec_size(),
    {
        return self.parents.len();
    }

    /// A copy of the parent pointers.
    pub fn parents(&self) -> (r: Vec<Id>)
        ensures
            r@.map_values(|p: Id| p.0) == self.parent_seq(),
    {
        self.parents.clone()
    }

    /// The parent of an entry.
    fn parent(&self, query: Id) -> (p: Id)
        requires
            self.wf(),
            query.0 < self.spec_size(),
        ensures
            p.0 == self.parent_of(query.0 as int),
            p.0 < self.spec_size(),
    {
        assert(self.parents@[query.0 as int].0 < self.parents@.len());
        return self.parents[usize::from(query)];
    }

    /// A mutable reference to the parent of an entry.
    fn parent_mut(&mut self, query: Id) -> (p: &mut Id)
        requires
            query.0 < old(self).spec_size(),
        ensures
            *p == old(self).parents@[query.0 as int],
            final(self).parents@ == old(self).parents@.update(query.0 as int, *final(p)),
            final(self).rank == old(self).rank,
            final(self).max_rank == old(self).max_rank,
    {
        &mut self.parents[usize::from(query)]
    }

    /// The representative of the set of `current`; the union-find is not
    /// changed.
    pub fn find(&self, current: Id) -> (r: Id)
        requires
            self.wf(),
            current.0 < self.spec_size(),
        ensures
            r.0 == self.root(current.0 as int),
            self.is_root(r.0 as int),
    {
        let mut current = current;
        let ghost start = current.0 as int;
        proof {
            self.lemma_root(start);
        }
        while current != self.parent(current)
            invariant
                self.wf(),
                current.0 < self.spec_size(),
                self.root(current.0 as int) == self.root(start),
            decreases self.max_rank@ - self.rank@[current.0 as int],
        {
            proof {
                self.lemma_root_step(current.0 as int);
                assert(self.parents@[current.0 as int].0 != current.0);
                assert(self.rank@[self.parents@[current.0 as int].0 as int] <= self.max_rank@);
            }
            current = self.parent(current);
        }
        proof {
            self.lemma_root_step(current.0 as int);
        }
        return current;
    }

    /// The representative of the set of `current`; then every entry of that
    /// set is pointed directly at it.  Sets and their representatives are
    /// unchanged.
    pub fn find_mut(&mut self, current: Id) -> (r: Id)
        requires
            old(self).wf(),
            current.0 < old(self).spec_size(),
        ensures
            final(self).wf(),
            r.0 == old(self).root(current.0 as int),
            final(self).is_root(r.0 as int),
            final(self).spec_size() == old(self).spec_size(),
            forall|i: int| #[trigger] final(self).root(i) == old(self).root(i),
            final(self).parent_seq() == old(self).compressed(r.0 as int),
    {
        let ghost old_uf = *self;
        let r = self.find(current);
        let n = self.parents.len();
        let mut i: usize = 0;
        proof {
            old_uf.lemma_root(current.0 as int);
            assert(self.parent_seq() =~= Seq::new(
                n as nat,
                |j: int| if j < 0 && old_uf.root(j) == r.0 { r.0 } else { old_uf.parent_seq()[j] },
            ));
        }
        while i < n
            invariant
                self.wf(),
                old_uf.wf(),
                n == old_uf.spec_size(),
                self.spec_size() == old_uf.spec_size(),
                self.rank == old_uf.rank,
                self.max_rank == old_uf.max_rank,
                i <= n,
                r.0 == old_uf.root(current.0 as int),
                old_uf.is_root(r.0 as int),
                forall|k: int| #[trigger] self.root(k) == old_uf.root(k),
                self.parent_seq() == Seq::new(
                    n as nat,
                    |j: int| if j < i && old_uf.root(j) == r.0 { r.0 } else { old_uf.parent_seq()[j] },
                ),
            decreases n - i,
        {
            let ri = self.find(Id(i));
            if ri == r {
                let ghost before = *self;
                *self.parent_mut(Id(i)) = r;
                proof {
                    let c = i as int;
                    let rr = r.0 as int;
                    before.lemma_root(c);
                    old_uf.lemma_root(c);
                    assert(before.root(c) == rr);
                    assert forall|k: int| 0 <= k < self.parents@.len() implies #[trigger] self.parents@[k].0
                        < self.parents@.len() by {
                        if k != c {
                            assert(self.parents@[k] == before.parents@[k]);
                        }
                    }
                    assert forall|k: int|
                        0 <= k < self.parents@.len() && #[trigger] self.parents@[k].0 != k implies self.rank@[k]
                        < self.rank@[self.parents@[k].0 as int] by {
                        if k != c {
                            assert(self.parents@[k] == before.parents@[k]);
                        }
                    }
                    assert forall|j: int|
                        0 <= j < self.spec_size() && #[trigger] self.parent_of(j) == j implies before.root(j)
                        == j by {
                        if j != c {
                            assert(self.parents@[j] == before.parents@[j]);
                            before.lemma_root_step(j);
                        }
                    }
                    assert forall|j: int|
                        0 <= j < self.spec_size() && #[trigger] self.parent_of(j) != j implies before.root(
                        self.parent_of(j),
                    ) == before.root(j) by {
                        before.lemma_root_step(j);
                        if j == c {
                            before.lemma_root(rr);
                        } else {
                            assert(self.parents@[j] == before.parents@[j]);
                        }
                    }
                    assert forall|k: int| #[trigger] self.root(k) == old_uf.root(k) by {
                        if 0 <= k < self.spec_size() {
                            Self::lemma_roots_preserved(&before, self, k);
                        }
                    }
                    assert(self.parents@ == before.parents@.update(c, r));
                    assert(self.parent_seq() =~= before.parent_seq().update(c, r.0));
                    assert(old_uf.root(c) == rr);
                    assert(self.parent_seq() =~= Seq::new(
                        n as nat,
                        |j: int| if j < i + 1 && old_uf.root(j) == r.0 { r.0 } else { old_uf.parent_seq()[j] },
                    ));
                }
            } else {
                proof {
                    assert(ri.0 != r.0);
                    assert(old_uf.root(i as int) != r.0 as int);
                    assert(self.parent_seq() =~= Seq::new(
                        n as nat,
                        |j: int| if j < i + 1 && old_uf.root(j) == r.0 { r.0 } else { old_uf.parent_seq()[j] },
                    ));
                }
            }
            i = i + 1;
        }
        proof {
            assert(self.parent_seq() =~= old_uf.compressed(r.0 as int));
            old_uf.lemma_root(r.0 as int);
            self.lemma_root(r.0 as int);
        }
        return r;
    }

    /// Merges the sets of `id1` and `id2` by pointing the representative of
    /// `id2` at the representative of `id1`, which is returned.
    pub fn union(&mut self, id1: Id, id2: Id) -> (r: Id)
        requires
            old(self).wf(),
            id1.0 < old(self).spec_size(),
            id2.0 < old(self).spec_size(),
        ensures
            final(self).wf(),
            r.0 == old(self).root(id1.0 as int),
            final(self).spec_size() == old(self).spec_size(),
            forall|i: int|
                0 <= i < old(self).spec_size() ==> #[trigger] final(self).root(i) == (if old(self).root(i)
                    == old(self).root(id2.0 as int) {
                    old(self).root(id1.0 as int)
                } else {
                    old(self).root(i)
                }),
            final(self).parent_seq() == old(self).parent_seq().update(
                old(self).root(id2.0 as int),
                old(self).root(id1.0 as int) as usize,
            ),
    {
        let ghost old_uf = *self;
        let root1 = self.find(id1);
        let root2 = self.find(id2);
        proof {
            old_uf.lemma_root(id1.0 as int);
            old_uf.lemma_root(id2.0 as int);
        }
        *self.parent_mut(root2) = root1;
        proof {
            let r1 = root1.0 as int;
            let r2 = root2.0 as int;
            if r1 != r2 {
                let nr = if old_uf.rank@[r1] < old_uf.rank@[r2] + 1 {
                    old_uf.rank@[r2] + 1
                } else {
                    old_uf.rank@[r1]
                };
                self.rank@ = old_uf.rank@.update(r1, nr as nat);
                self.max_rank@ = if nr > old_uf.max_rank@ {
                    nr as nat
                } else {
                    old_uf.max_rank@
                };
            }
            assert forall|i: int| 0 <= i < self.parents@.len() implies #[trigger] self.parents@[i].0
                < self.parents@.len() by {
                if i != r2 {
                    assert(self.parents@[i] == old_uf.parents@[i]);
                }
            }
            assert forall|i: int|
                0 <= i < self.parents@.len() && #[trigger] self.parents@[i].0 != i implies self.rank@[i]
                < self.rank@[self.parents@[i].0 as int] by {
                if i != r2 {
                    assert(self.parents@[i] == old_uf.parents@[i]);
                    assert(i != r1);
                }
            }
            assert forall|i: int| 0 <= i < self.rank@.len() implies #[trigger] self.rank@[i]
                <= self.max_rank@ by {
                assert(old_uf.rank@[i] <= old_uf.max_rank@);
            }
            assert forall|i: int| 0 <= i < old_uf.spec_size() implies #[trigger] self.root(i) == (if old_uf.root(
                i,
            ) == old_uf.root(id2.0 as int) {
                old_uf.root(id1.0 as int)
            } else {
                old_uf.root(i)
            }) by {
                Self::lemma_union_roots(&old_uf, self, r1, r2, i);
            }
            assert(self.parent_seq() =~= old_uf.parent_seq().update(r2, root1.0));
        }
        return root1;
    }

    proof fn lemma_union_roots(old_uf: &Self, new_uf: &Self, r1: int, r2: int, i: int)
        requires
            old_uf.wf(),
            new_uf.wf(),
            old_uf.is_root(r1),
            old_uf.is_root(r2),
            new_uf.spec_size() == old_uf.spec_size(),
            new_uf.parents@ == old_uf.parents@.update(r2, Id(r1 as usize)),
            0 <= i < old_uf.spec_size(),
        ensures
            new_uf.root(i) == (if old_uf.root(i) == r2 {
                r1
            } else {
                old_uf.root(i)
            }),
        decreases old_uf.max_rank@ - old_uf.rank@[i],
    {
        old_uf.lemma_root_step(i);
        new_uf.lemma_root_step(i);
        new_uf.lemma_root_step(r1);
        let p = old_uf.parent_of(i);
        if p != i {
            assert(i != r2);
            assert(new_uf.parents@[i] == old_uf.parents@[i]);
            assert(old_uf.parents@[i].0 != i);
            assert(old_uf.parents@[i].0 < old_uf.parents@.len());
            assert(old_uf.rank@[p] <= old_uf.max_rank@);
            Self::lemma_union_roots(old_uf, new_uf, r1, r2, p);
        } else if i == r2 {
        } else {
            assert(new_uf.parents@[i] == old_uf.parents@[i]);
        }
    }

    /// Whether two entries are in the same set.
    pub fn in_same_set(&self, id1: Id, id2: Id) -> (b: bool)
        requires
            self.wf(),
            id1.0 < self.spec_size(),
            id2.0 < self.spec_size(),
        ensures
            b == self.same_set(id1.0 as int, id2.0 as int),
    {
        return self.find(id1) == self.find(id2);
    }

    /// Points every entry directly at its representative; sets and
    /// representatives are unchanged.
    pub fn canonicalize(&mut self)
        requires
            old(self).wf(),
        ensures
            final(self).wf(),
            final(self).spec_size() == old(self).spec_size(),
            forall|i: int| #[trigger] final(self).root(i) == old(self).root(i),
            forall|i: int|
                0 <= i < final(self).spec_size() ==> #[trigger] final(self).parent_of(i)
                    == final(self).root(i),
    {
        let ghost old_uf = *self;
        let n = self.parents.len();
        for i in 0..n
            invariant
                n == self.spec_size(),
                self.wf(),
                old_uf.wf(),
                self.spec_size() == old_uf.spec_size(),
                self.rank == old_uf.rank,
                self.max_rank == old_uf.max_rank,
                forall|k: int| #[trigger] self.root(k) == old_uf.root(k),
                forall|k: int| 0 <= k < i ==> #[trigger] self.parent_of(k) == self.root(k),
        {
            let ghost before = *self;
            let r = self.find(Id(i));
            proof {
                before.lemma_root(i as int);
            }
            *self.parent_mut(Id(i)) = r;
            proof {
                let c = i as int;
                assert forall|j: int| 0 <= j < self.parents@.len() implies #[trigger] self.parents@[j].0
                    < self.parents@.len() by {
                    if j != c {
                        assert(self.parents@[j] == before.parents@[j]);
                    }
                }
                assert forall|j: int|
                    0 <= j < self.parents@.len() && #[trigger] self.parents@[j].0 != j implies self.rank@[j]
                    < self.rank@[self.parents@[j].0 as int] by {
                    if j != c {
                        assert(self.parents@[j] == before.parents@[j]);
                    }
                }
                assert forall|j: int|
                    0 <= j < self.spec_size() && #[trigger] self.parent_of(j) == j implies before.root(j)
                    == j by {
                    if j != c {
                        assert(self.parents@[j] == before.parents@[j]);
                        before.lemma_root_step(j);
                    }
                }
                assert forall|j: int|
                    0 <= j < self.spec_size() && #[trigger] self.parent_of(j) != j implies before.root(
                    self.parent_of(j),
                ) == before.root(j) by {
                    before.lemma_root_step(j);
                    if j != c {
                        assert(self.parents@[j] == before.parents@[j]);
                    }
                }
                assert forall|k: int| #[trigger] self.root(k) == old_uf.root(k) by {
                    if 0 <= k < self.spec_size() {
                        Self::lemma_roots_preserved(&before, self, k);
                    }
                }
                assert forall|k: int| 0 <= k < i + 1 implies #[trigger] self.parent_of(k) == self.root(
                    k,
                ) by {
                    assert(self.root(k) == old_uf.root(k));
                    assert(before.root(k) == old_uf.root(k));
                    if k != c {
                        assert(self.parents@[k] == before.parents@[k]);
                        assert(before.parent_of(k) == before.root(k));
                    }
                }
            }
        }
    }
}

impl Default for UnionFind {
    fn default() -> (uf: UnionFind)
        ensures
            uf.wf(),
            uf.spec_size() == 0,
    {
        UnionFind::new()
    }
}

} // verus!
