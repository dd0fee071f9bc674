//! The insertion-ordered maps and sets of the `indexmap` crate, as the
//! e-graph uses them, with their contents modelled as sequences of entries.
use vstd::prelude::*;
use indexmap::IndexMap;
use indexmap::IndexSet;
use std::hash::BuildHasherDefault;
use fxhash::FxHasher;
use crate::id::Id;
use crate::enode::{Enode, EnodeV};
use crate::eclass::{EClass, EClassV};
use crate::pattern::{Pattern, PatternV};

verus! {

/// The hasher builder of the e-graph's maps.
pub type FxBuildHasher = BuildHasherDefault<FxHasher>;

#[verifier::external_type_specification]
#[verifier::external_body]
pub struct ExFxHasher(FxHasher);

#[verifier::external_type_specification]
#[verifier::external_body]
#[verifier::reject_recursive_types(H)]
pub struct ExBuildHasherDefault<H>(BuildHasherDefault<H>);

#[verifier::external_type_specification]
#[verifier::external_body]
#[verifier::reject_recursive_types(K)]
#[verifier::reject_recursive_types(V)]
#[verifier::reject_recursive_types(S)]
pub struct ExIndexMap<K, V, S>(IndexMap<K, V, S>);

#[verifier::external_type_specification]
#[verifier::external_body]
#[verifier::reject_recursive_types(T)]
#[verifier::reject_recursive_types(S)]
pub struct ExIndexSet<T, S>(IndexSet<T, S>);

/// Map from e-nodes to e-class ids.
pub type NodeMap = IndexMap<Enode, Id, FxBuildHasher>;

/// Map from e-class ids to e-classes.
pub type ClassMap = IndexMap<Id, EClass, FxBuildHasher>;

/// Map from patterns (variables) to the e-nodes they matched.
pub type PatternMap = IndexMap<Pattern, Enode, FxBuildHasher>;

/// Whether the entries hold the key `k`.
pub open spec fn has_key<K, V>(e: Seq<(K, V)>, k: K) -> bool {
    exists|i: int| 0 <= i < e.len() && e[i].0 == k
}

/// The position of key `k` among the entries, or -1.
pub open spec fn key_index<K, V>(e: Seq<(K, V)>, k: K) -> int {
    if has_key(e, k) {
        choose|i: int| 0 <= i < e.len() && e[i].0 == k
    } else {
        -1
    }
}

/// No key occurs twice.
pub open spec fn keys_distinct<K, V>(e: Seq<(K, V)>) -> bool {
    forall|i: int, j: int| 0 <= i < e.len() && 0 <= j < e.len() && i != j ==> e[i].0 != e[j].0
}

/// The value stored under key `k`.
pub open spec fn get_value<K, V>(e: Seq<(K, V)>, k: K) -> Option<V> {
    if has_key(e, k) {
        Some(e[key_index(e, k)].1)
    } else {
        None
    }
}

/// Inserting: an existing key keeps its place and takes the new value; a
/// new key goes last.
pub open spec fn insert_entry<K, V>(e: Seq<(K, V)>, k: K, v: V) -> Seq<(K, V)> {
    if has_key(e, k) {
        e.update(key_index(e, k), (k, v))
    } else {
        e.push((k, v))
    }
}

/// Removing by swapping with the last entry and popping it.
pub open spec fn swap_remove_entry<K, V>(e: Seq<(K, V)>, k: K) -> Seq<(K, V)> {
    if has_key(e, k) {
        e.update(key_index(e, k), e.last()).drop_last()
    } else {
        e
    }
}

/// The keys of the entries.
pub open spec fn entry_keys<K, V>(e: Seq<(K, V)>) -> Seq<K> {
    e.map_values(|p: (K, V)| p.0)
}

/// The entries of a map from e-nodes to ids, in the map's order.
pub uninterp spec fn node_map_entries(m: NodeMap) -> Seq<(EnodeV, usize)>;

/// The entries of a map from ids to e-classes, in the map's order.
pub uninterp spec fn class_map_entries(m: ClassMap) -> Seq<(usize, EClassV)>;

/// The entries of a map from patterns to e-nodes, in the map's order.
pub uninterp spec fn pattern_map_entries(m: PatternMap) -> Seq<(PatternV, EnodeV)>;

/// The items of a set of e-nodes, in the set's order.
pub uninterp spec fn node_set_items(s: IndexSet<Enode>) -> Seq<EnodeV>;

pub proof fn lemma_key_index<K, V>(e: Seq<(K, V)>, k: K)
    requires
        keys_distinct(e),
    ensures
        has_key(e, k) ==> 0 <= key_index(e, k) < e.len() && e[key_index(e, k)].0 == k,
        has_key(e, k) ==> forall|i: int| 0 <= i < e.len() && e[i].0 == k ==> i == key_index(e, k),
        !has_key(e, k) ==> forall|i: int| 0 <= i < e.len() ==> e[i].0 != k,
{
}

/// Inserting and removing keep keys distinct.
pub proof fn lemma_distinct_kept<K, V>(e: Seq<(K, V)>, k: K, v: V)
    requires
        keys_distinct(e),
    ensures
        keys_distinct(insert_entry(e, k, v)),
        keys_distinct(swap_remove_entry(e, k)),
        insert_entry(e, k, v).len() == if has_key(e, k) { e.len() } else { e.len() + 1 },
        swap_remove_entry(e, k).len() == if has_key(e, k) { e.len() - 1 } else { e.len() as int },
{
    lemma_key_index(e, k);
    let e2 = swap_remove_entry(e, k);
    if has_key(e, k) {
        let idx = key_index(e, k);
        assert forall|i: int, j: int| 0 <= i < e2.len() && 0 <= j < e2.len() && i != j implies e2[i].0
            != e2[j].0 by {
            let ii = if i == idx { e.len() - 1 } else { i };
            let jj = if j == idx { e.len() - 1 } else { j };
            assert(e2[i] == e[ii]);
            assert(e2[j] == e[jj]);
        }
    }
}

/// A property of every entry survives inserting an entry that has it and
/// removing an entry.
pub proof fn lemma_entries_keep<K, V>(e: Seq<(K, V)>, k: K, v: V, p: spec_fn((K, V)) -> bool)
    requires
        keys_distinct(e),
        forall|i: int| 0 <= i < e.len() ==> #[trigger] p(e[i]),
    ensures
        p((k, v)) ==> forall|i: int| 0 <= i < insert_entry(e, k, v).len() ==> #[trigger] p(insert_entry(e, k, v)[i]),
        forall|i: int| 0 <= i < swap_remove_entry(e, k).len() ==> #[trigger] p(swap_remove_entry(e, k)[i]),
{
    lemma_key_index(e, k);
    if has_key(e, k) {
        let idx = key_index(e, k);
        let e2 = swap_remove_entry(e, k);
        assert forall|i: int| 0 <= i < e2.len() implies #[trigger] p(e2[i]) by {
            if i == idx {
                assert(e2[i] == e[e.len() - 1]);
            } else {
                assert(e2[i] == e[i]);
            }
        }
        if p((k, v)) {
            let e1 = insert_entry(e, k, v);
            assert forall|i: int| 0 <= i < e1.len() implies #[trigger] p(e1[i]) by {
                if i != idx {
                    assert(e1[i] == e[i]);
                }
            }
        }
    } else {
        if p((k, v)) {
            let e1 = insert_entry(e, k, v);
            assert forall|i: int| 0 <= i < e1.len() implies #[trigger] p(e1[i]) by {
                if i < e.len() {
                    assert(e1[i] == e[i]);
                }
            }
        }
    }
}

/// Which keys are present after inserting or removing.
pub proof fn lemma_keys_after<K, V>(e: Seq<(K, V)>, k: K, v: V, x: K)
    requires
        keys_distinct(e),
    ensures
        has_key(insert_entry(e, k, v), x) <==> (has_key(e, x) || x == k),
        has_key(swap_remove_entry(e, k), x) <==> (has_key(e, x) && x != k),
        forall|i: int| 0 <= i < swap_remove_entry(e, k).len() ==> #[trigger] swap_remove_entry(e, k)[i].0 != k,
{
    lemma_key_index(e, k);
    lemma_key_index(e, x);
    if has_key(e, k) {
        let idx = key_index(e, k);
        let e1 = insert_entry(e, k, v);
        let e2 = swap_remove_entry(e, k);
        if has_key(e, x) && x != k {
            let jx = key_index(e, x);
            assert(e1[jx].0 == x);
            if jx == e.len() - 1 {
                assert(e2[idx].0 == x);
            } else {
                assert(e2[jx].0 == x);
            }
        }
        if x == k {
            assert(e1[idx].0 == x);
        }
        assert forall|i: int| 0 <= i < e2.len() implies #[trigger] e2[i].0 != k by {
            if i == idx {
                assert(e2[i] == e[e.len() - 1]);
            } else {
                assert(e2[i] == e[i]);
            }
        }
        if has_key(e2, x) {
            let i = choose|i: int| 0 <= i < e2.len() && e2[i].0 == x;
            if i == idx {
                assert(e2[i] == e[e.len() - 1]);
            } else {
                assert(e2[i] == e[i]);
            }
        }
        if has_key(e1, x) {
            let i = choose|i: int| 0 <= i < e1.len() && e1[i].0 == x;
            if i != idx {
                assert(e1[i] == e[i]);
            }
        }
    } else {
        let e1 = insert_entry(e, k, v);
        if has_key(e, x) {
            let jx = key_index(e, x);
            assert(e1[jx].0 == x);
        }
        if x == k {
            assert(e1[e.len() as int].0 == x);
        }
        if has_key(e1, x) {
            let i = choose|i: int| 0 <= i < e1.len() && e1[i].0 == x;
            if i < e.len() {
                assert(e1[i] == e[i]);
            }
        }
    }
}

/// What is stored under a key after removing.
pub proof fn lemma_get_after_swap_remove<K, V>(e: Seq<(K, V)>, k: K, x: K)
    requires
        keys_distinct(e),
    ensures
        get_value(swap_remove_entry(e, k), x) == if x == k {
            None
        } else {
            get_value(e, x)
        },
{
    lemma_key_index(e, k);
    lemma_key_index(e, x);
    lemma_keys_after(e, k, e[0].1, x);
    let e2 = swap_remove_entry(e, k);
    if has_key(e, k) {
        let idx = key_index(e, k);
        assert(keys_distinct(e2)) by {
            assert forall|i: int, j: int| 0 <= i < e2.len() && 0 <= j < e2.len() && i != j implies e2[i].0 != e2[j].0 by {
                let ii = if i == idx { e.len() - 1 } else { i };
                let jj = if j == idx { e.len() - 1 } else { j };
                assert(e2[i] == e[ii]);
                assert(e2[j] == e[jj]);
            }
        }
        lemma_key_index(e2, x);
        if x != k && has_key(e, x) {
            let jx = key_index(e, x);
            let i2 = key_index(e2, x);
            let ii = if i2 == idx { e.len() - 1 } else { i2 };
            assert(e2[i2] == e[ii]);
        }
    }
}

/// What is stored under a key after inserting.
pub proof fn lemma_get_after_insert<K, V>(e: Seq<(K, V)>, k: K, v: V, x: K)
    requires
        keys_distinct(e),
    ensures
        get_value(insert_entry(e, k, v), x) == if x == k {
            Some(v)
        } else {
            get_value(e, x)
        },
{
    lemma_key_index(e, k);
    lemma_key_index(e, x);
    lemma_distinct_kept(e, k, v);
    lemma_keys_after(e, k, v, x);
    let e1 = insert_entry(e, k, v);
    lemma_key_index(e1, x);
    if x == k {
        if has_key(e, k) {
            assert(e1[key_index(e, k)].0 == k);
        } else {
            assert(e1[e.len() as int].0 == k);
        }
    } else if has_key(e, x) {
        let jx = key_index(e, x);
        assert(e1[jx] == e[jx]);
    }
}

/// An empty map from e-nodes to ids.
///
/// Calls `IndexMap::default`; the contract claims the new map is empty.
#[verifier::external_body]
pub(crate) fn node_map_new() -> (m: NodeMap)
    ensures
        node_map_entries(m) == Seq::<(EnodeV, usize)>::empty(),
{
    IndexMap::default()
}

/// The id stored under `k`.
///
/// Calls `IndexMap::get`; the contract claims it returns the value of the
/// entry whose key equals `k` (e-node equality is equality of views, as the
/// `PartialEq` of `Enode` proves), or `None` when there is none.
#[verifier::external_body]
pub(crate) fn node_map_get(m: &NodeMap, k: &Enode) -> (r: Option<Id>)
    ensures
        r matches Some(id) ==> get_value(node_map_entries(*m), k@) == Some(id.0),
        r is None ==> get_value(node_map_entries(*m), k@) is None,
{
    m.get(k).copied()
}

/// Whether `k` is a key.
///
/// Calls `IndexMap::contains_key`; the contract claims it tells whether an
/// entry's key equals `k`.
#[verifier::external_body]
pub(crate) fn node_map_contains(m: &NodeMap, k: &Enode) -> (b: bool)
    ensures
        b == has_key(node_map_entries(*m), k@),
{
    m.contains_key(k)
}

/// Inserts `k` with value `v`.
///
/// Calls `IndexMap::insert`; the contract claims that an existing key keeps
/// its place and takes the new value, a new key is appended, and the old
/// value is returned.
#[verifier::external_body]
pub(crate) fn node_map_insert(m: &mut NodeMap, k: Enode, v: Id) -> (r: Option<Id>)
    ensures
        node_map_entries(*final(m)) == insert_entry(node_map_entries(*old(m)), k@, v.0),
        r matches Some(id) ==> get_value(node_map_entries(*old(m)), k@) == Some(id.0),
        r is None ==> get_value(node_map_entries(*old(m)), k@) is None,
{
    m.insert(k, v)
}

/// Removes `k` by swapping its entry with the last one.
///
/// Calls `IndexMap::swap_remove`; the contract claims the entry is replaced
/// by the last entry, which is popped, and that the removed value is
/// returned (`None` and no change when the key is absent).
#[verifier::external_body]
pub(crate) fn node_map_swap_remove(m: &mut NodeMap, k: &Enode) -> (r: Option<Id>)
    ensures
        node_map_entries(*final(m)) == swap_remove_entry(node_map_entries(*old(m)), k@),
        r matches Some(id) ==> get_value(node_map_entries(*old(m)), k@) == Some(id.0),
        r is None ==> get_value(node_map_entries(*old(m)), k@) is None,
{
    m.swap_remove(k)
}

/// The number of entries.
///
/// Calls `IndexMap::len`; the contract claims it is the number of entries.
#[verifier::external_body]
pub(crate) fn node_map_len(m: &NodeMap) -> (n: usize)
    ensures
        n == node_map_entries(*m).len(),
{
    m.len()
}

/// The entry at position `i`.
///
/// Calls `IndexMap::get_index`; the contract claims it returns the `i`-th
/// entry in the map's order.
#[verifier::external_body]
pub(crate) fn node_map_get_index(m: &NodeMap, i: usize) -> (r: (&Enode, Id))
    requires
        i < node_map_entries(*m).len(),
    ensures
        (r.0@, r.1.0) == node_map_entries(*m)[i as int],
{
    let (k, v) = m.get_index(i).unwrap();
    (k, *v)
}

/// An empty set of e-nodes.
///
/// Calls `IndexSet::new`; the contract claims the set is empty.
#[verifier::external_body]
pub(crate) fn node_set_new() -> (s: IndexSet<Enode>)
    ensures
        node_set_items(s) == Seq::<EnodeV>::empty(),
{
    IndexSet::new()
}

/// Adds `n` unless an equal e-node is already there.
///
/// Calls `IndexSet::insert`; the contract claims a new item is appended and
/// an existing one leaves the set unchanged, and that the result tells
/// whether the item was new.
#[verifier::external_body]
pub(crate) fn node_set_insert(s: &mut IndexSet<Enode>, n: Enode) -> (b: bool)
    ensures
        b == !node_set_items(*old(s)).contains(n@),
        node_set_items(*final(s)) == if b {
            node_set_items(*old(s)).push(n@)
        } else {
            node_set_items(*old(s))
        },
{
    s.insert(n)
}

/// The number of items.
///
/// Calls `IndexSet::len`; the contract claims it is the number of items.
#[verifier::external_body]
pub(crate) fn node_set_len(s: &IndexSet<Enode>) -> (n: usize)
    ensures
        n == node_set_items(*s).len(),
{
    s.len()
}

/// The item at position `i`.
///
/// Calls `IndexSet::get_index`; the contract claims it returns the `i`-th
/// item in the set's order.
#[verifier::external_body]
pub(crate) fn node_set_get_index(s: &IndexSet<Enode>, i: usize) -> (r: &Enode)
    requires
        i < node_set_items(*s).len(),
    ensures
        r@ == node_set_items(*s)[i as int],
{
    s.get_index(i).unwrap()
}

/// A copy of the set.
///
/// Calls `IndexSet::clone`; the contract claims the copy holds the same
/// items in the same order.
#[verifier::external_body]
pub(crate) fn node_set_clone(s: &IndexSet<Enode>) -> (r: IndexSet<Enode>)
    ensures
        node_set_items(r) == node_set_items(*s),
{
    s.clone()
}

/// A copy of the memo.
///
/// Calls `IndexMap::clone`, which clones the entries in order; the
/// contract claims the copy has the same entries, by view, in the same
/// order.
#[verifier::external_body]
pub(crate) fn node_map_clone(m: &NodeMap) -> (r: NodeMap)
    ensures
        node_map_entries(r) == node_map_entries(*m),
{
    m.clone()
}

/// A copy of the map from ids to e-classes.
///
/// Calls `IndexMap::clone`, which clones the entries in order; the
/// contract claims the copy has the same entries, by view, in the same
/// order.
#[verifier::external_body]
pub(crate) fn class_map_clone(m: &ClassMap) -> (r: ClassMap)
    ensures
        class_map_entries(r) == class_map_entries(*m),
{
    m.clone()
}

/// An empty map from ids to e-classes.
///
/// Calls `IndexMap::default`; the contract claims the new map is empty.
#[verifier::external_body]
pub(crate) fn class_map_new() -> (m: ClassMap)
    ensures
        class_map_entries(m) == Seq::<(usize, EClassV)>::empty(),
{
    IndexMap::default()
}

/// The e-class stored under `k`.
///
/// Calls `IndexMap::get`; the contract claims it returns the value of the
/// entry whose key is `k`, or `None` when there is none.
#[verifier::external_body]
pub(crate) fn class_map_get<'a>(m: &'a ClassMap, k: &Id) -> (r: Option<&'a EClass>)
    ensures
        r matches Some(c) ==> get_value(class_map_entries(*m), k.0) == Some(c@),
        r is None ==> get_value(class_map_entries(*m), k.0) is None,
{
    m.get(k)
}

/// The position of key `k`.
///
/// Calls `IndexMap::get_index_of`; the contract claims it returns the
/// position of the entry whose key is `k`, or `None` when there is none.
#[verifier::external_body]
pub(crate) fn class_map_get_index_of(m: &ClassMap, k: &Id) -> (r: Option<usize>)
    ensures
        r matches Some(i) ==> i < class_map_entries(*m).len() && class_map_entries(*m)[i as int].0 == k.0,
        r is None ==> !has_key(class_map_entries(*m), k.0),
{
    m.get_index_of(k)
}

/// The entry at position `i`.
///
/// Calls `IndexMap::get_index`; the contract claims it returns the `i`-th
/// entry in the map's order.
#[verifier::external_body]
pub(crate) fn class_map_get_index<'a>(m: &'a ClassMap, i: usize) -> (r: (Id, &'a EClass))
    requires
        i < class_map_entries(*m).len(),
    ensures
        (r.0.0, r.1@) == class_map_entries(*m)[i as int],
{
    let (k, v) = m.get_index(i).unwrap();
    (*k, v)
}

/// A mutable reference to the e-class at position `i`.
///
/// Calls `IndexMap::get_index_mut`; the contract claims the reference is to
/// the value of the `i`-th entry, and that what is written through it
/// becomes that entry's value, the key and the other entries unchanged.
#[verifier::external_body]
pub(crate) fn class_map_get_index_mut<'a>(m: &'a mut ClassMap, i: usize) -> (r: &'a mut EClass)
    requires
        i < class_map_entries(*old(m)).len(),
    ensures
        r@ == class_map_entries(*old(m))[i as int].1,
        class_map_entries(*final(m)) == class_map_entries(*old(m)).update(
            i as int,
            (class_map_entries(*old(m))[i as int].0, final(r)@),
        ),
{
    m.get_index_mut(i).unwrap().1
}

/// Inserts `c` under `k`.
///
/// Calls `IndexMap::insert`; the contract claims that an existing key keeps
/// its place and takes the new value and a new key is appended.
#[verifier::external_body]
pub(crate) fn class_map_insert(m: &mut ClassMap, k: Id, c: EClass)
    ensures
        class_map_entries(*final(m)) == insert_entry(class_map_entries(*old(m)), k.0, c@),
{
    m.insert(k, c);
}

/// Removes key `k` by swapping its entry with the last one.
///
/// Calls `IndexMap::swap_remove`; the contract claims the entry is replaced
/// by the last entry, which is popped (no change when the key is absent).
#[verifier::external_body]
pub(crate) fn class_map_swap_remove(m: &mut ClassMap, k: &Id)
    ensures
        class_map_entries(*final(m)) == swap_remove_entry(class_map_entries(*old(m)), k.0),
{
    m.swap_remove(k);
}

/// The number of entries.
///
/// Calls `IndexMap::len`; the contract claims it is the number of entries.
#[verifier::external_body]
pub(crate) fn class_map_len(m: &ClassMap) -> (n: usize)
    ensures
        n == class_map_entries(*m).len(),
{
    m.len()
}

/// An empty map from patterns to e-nodes.
///
/// Calls `IndexMap::default`; the contract claims the new map is empty.
#[verifier::external_body]
pub(crate) fn pattern_map_new() -> (m: PatternMap)
    ensures
        pattern_map_entries(m) == Seq::<(PatternV, EnodeV)>::empty(),
{
    IndexMap::default()
}

/// The e-node stored under `k`.
///
/// Calls `IndexMap::get`; the contract claims it returns the value of the
/// entry whose key equals `k` (pattern equality is equality of views, as
/// the `PartialEq` of `Pattern` proves), or `None`.
#[verifier::external_body]
pub(crate) fn pattern_map_get<'a>(m: &'a PatternMap, k: &Pattern) -> (r: Option<&'a Enode>)
    ensures
        r matches Some(n) ==> get_value(pattern_map_entries(*m), k@) == Some(n@),
        r is None ==> get_value(pattern_map_entries(*m), k@) is None,
{
    m.get(k)
}

/// Whether `k` is a key.
///
/// Calls `IndexMap::contains_key`; the contract claims it tells whether an
/// entry's key equals `k`.
#[verifier::external_body]
pub(crate) fn pattern_map_contains(m: &PatternMap, k: &Pattern) -> (b: bool)
    ensures
        b == has_key(pattern_map_entries(*m), k@),
{
    m.contains_key(k)
}

/// Inserts `k` with value `v`.
///
/// Calls `IndexMap::insert`; the contract claims that an existing key keeps
/// its place and takes the new value and a new key is appended.
#[verifier::external_body]
pub(crate) fn pattern_map_insert(m: &mut PatternMap, k: Pattern, v: Enode)
    ensures
        pattern_map_entries(*final(m)) == insert_entry(pattern_map_entries(*old(m)), k@, v@),
{
    m.insert(k, v);
}

/// The number of entries.
///
/// Calls `IndexMap::len`; the contract claims it is the number of entries.
#[verifier::external_body]
pub(crate) fn pattern_map_len(m: &PatternMap) -> (n: usize)
    ensures
        n == pattern_map_entries(*m).len(),
{
    m.len()
}

/// The entry at position `i`.
///
/// Calls `IndexMap::get_index`; the contract claims it returns the `i`-th
/// entry in the map's order.
#[verifier::external_body]
pub(crate) fn pattern_map_get_index<'a>(m: &'a PatternMap, i: usize) -> (r: (&'a Pattern, &'a Enode))
    requires
        i < pattern_map_entries(*m).len(),
    ensures
        (r.0@, r.1@) == pattern_map_entries(*m)[i as int],
{
    m.get_index(i).unwrap()
}

} // verus!
