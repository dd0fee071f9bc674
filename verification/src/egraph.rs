use vstd::prelude::*;
use crate::id::Id;
use crate::enode::{Enode, EnodeV, ids_view};
use crate::eclass::{EClass, EClassV, parents_view, parent_view, clone_parents};
use crate::unionfind::UnionFind;
use crate::maps::{
    NodeMap, ClassMap, has_key, key_index, keys_distinct, get_value, insert_entry,
    swap_remove_entry, node_map_entries, lemma_keys_after, lemma_get_after_insert, entry_keys, class_map_entries, lemma_key_index, lemma_distinct_kept,
    lemma_get_after_swap_remove, node_map_new, node_map_get, node_map_contains, node_map_insert, node_map_swap_remove,
    node_map_len, node_map_get_index, class_map_new, class_map_get, class_map_get_index_of,
    class_map_get_index, class_map_get_index_mut, class_map_insert, class_map_swap_remove,
    class_map_len, node_set_items, node_set_len, node_set_get_index, node_set_new, node_set_insert,
    node_set_clone, node_map_clone, class_map_clone, lemma_entries_keep, PatternMap, pattern_map_entries, pattern_map_new,
    pattern_map_get, pattern_map_contains, pattern_map_insert, pattern_map_len, pattern_map_get_index,
};
use crate::pattern::{Pattern, PatternV, Rule};
use crate::util::has_unique_elements;
use crate::sexp::{Sexp, SexpV, sexp_text, trim_quotes, trim_quote_chars};

verus! {

/// The steps of building the instance of a pattern: nothing for a
/// variable; for an operator pattern, the steps of each argument built,
/// the e-graphs before and after each of them, and their ids.
pub enum BuildTrace {
    Var,
    Term(Seq<BuildTrace>, Seq<EGraph>, Seq<usize>),
}

/// The plain value of an optional id.
pub open spec fn opt_id(r: Option<Id>) -> Option<usize> {
    match r {
        Some(id) => Some(id.0),
        None => None,
    }
}

/// How many of `mg` hold.
pub open spec fn count_true(mg: Seq<bool>) -> nat
    decreases mg.len(),
{
    if mg.len() == 0 {
        0
    } else {
        count_true(mg.drop_last()) + if mg.last() {
            1nat
        } else {
            0nat
        }
    }
}

/// `x`, but at most `i32::MAX`.
pub open spec fn capped(x: int) -> int {
    if x <= i32::MAX {
        x
    } else {
        i32::MAX as int
    }
}

/// The first `k` matches `ms` applied in order, the `q`-th leading from
/// `gs[q]` to `gs[q + 1]` and merging two e-classes when `mg[q]` holds.
pub open spec fn steps_applied(
    gs: Seq<EGraph>,
    mg: Seq<bool>,
    ms: Seq<Option<Seq<(PatternV, EnodeV)>>>,
    lhs: PatternV,
    rhs: PatternV,
    buf: Seq<(EnodeV, usize)>,
    k: nat,
) -> bool {
    &&& gs.len() == k + 1
    &&& mg.len() == k
    &&& k <= ms.len()
    &&& forall|q: int| 0 <= q < k ==> #[trigger] gs[q].match_step(&gs[q + 1], ms[q], lhs, rhs, buf, mg[q])
}

proof fn lemma_steps_push(
    gs: Seq<EGraph>,
    mg: Seq<bool>,
    ms: Seq<Option<Seq<(PatternV, EnodeV)>>>,
    lhs: PatternV,
    rhs: PatternV,
    buf: Seq<(EnodeV, usize)>,
    k: nat,
    g: EGraph,
    merged: bool,
)
    requires
        steps_applied(gs, mg, ms, lhs, rhs, buf, k),
        k < ms.len(),
        gs[k as int].match_step(&g, ms[k as int], lhs, rhs, buf, merged),
    ensures
        steps_applied(gs.push(g), mg.push(merged), ms, lhs, rhs, buf, k + 1),
{
    let gs2 = gs.push(g);
    let mg2 = mg.push(merged);
    assert forall|q: int| 0 <= q < k + 1 implies #[trigger] gs2[q].match_step(&gs2[q + 1], ms[q], lhs, rhs, buf, mg2[q]) by {
        if q < k {
            assert(gs2[q] == gs[q]);
            assert(gs2[q + 1] == gs[q + 1]);
            assert(mg2[q] == mg[q]);
            assert(gs[q].match_step(&gs[q + 1], ms[q], lhs, rhs, buf, mg[q]));
        } else {
            assert(gs2[q] == gs[q]);
            assert(gs2[q + 1] == g);
        }
    }
}

proof fn lemma_count_push(mg: Seq<bool>, b: bool)
    ensures
        count_true(mg.push(b)) == count_true(mg) + if b {
            1int
        } else {
            0int
        },
{
    assert(mg.push(b).drop_last() =~= mg);
}

/// The edits of the rules added up one by one, staying at `i32::MAX` once
/// they reach it.
pub open spec fn capped_sum(es: Seq<int>) -> int
    decreases es.len(),
{
    if es.len() == 0 {
        0
    } else {
        let a = capped_sum(es.drop_last());
        if a + es.last() > i32::MAX {
            i32::MAX as int
        } else {
            a + es.last()
        }
    }
}

/// The first `k` rules of `rs` applied in order, each followed by a
/// rebuild: rule `i` leads from `hs[i]` to `mids[i]` with edits `es[i]`,
/// and the rebuild from `mids[i]` to `hs[i + 1]`.
pub open spec fn rules_applied(
    hs: Seq<EGraph>,
    mids: Seq<EGraph>,
    es: Seq<int>,
    rs: Seq<Rule>,
    k: nat,
) -> bool {
    &&& hs.len() == k + 1
    &&& mids.len() == k
    &&& es.len() == k
    &&& k <= rs.len()
    &&& forall|i: int|
        0 <= i < k ==> #[trigger] hs[i].rule_applied(&mids[i], rs[i].lhs@, rs[i].rhs@, es[i]) && mids[i].rebuilt(
            &hs[i + 1],
        )
}

/// `n` rounds of the rule set `rs`, round `i` leading from `gs[i]` to
/// `gs[i + 1]` with edits `es[i]`.
pub open spec fn rounds_applied(gs: Seq<EGraph>, es: Seq<int>, rs: Seq<Rule>, n: nat) -> bool {
    &&& gs.len() == n + 1
    &&& es.len() == n
    &&& forall|i: int| 0 <= i < n ==> #[trigger] gs[i].ruleset_applied(&gs[i + 1], rs, es[i])
}

proof fn lemma_rules_push(
    hs: Seq<EGraph>,
    mids: Seq<EGraph>,
    es: Seq<int>,
    rs: Seq<Rule>,
    k: nat,
    h: EGraph,
    m: EGraph,
    e: int,
)
    requires
        rules_applied(hs, mids, es, rs, k),
        k < rs.len(),
        hs[k as int].rule_applied(&m, rs[k as int].lhs@, rs[k as int].rhs@, e),
        m.rebuilt(&h),
    ensures
        rules_applied(hs.push(h), mids.push(m), es.push(e), rs, k + 1),
{
    let hs2 = hs.push(h);
    let mids2 = mids.push(m);
    let es2 = es.push(e);
    assert forall|i: int| 0 <= i < k + 1 implies #[trigger] hs2[i].rule_applied(
        &mids2[i],
        rs[i].lhs@,
        rs[i].rhs@,
        es2[i],
    ) && mids2[i].rebuilt(&hs2[i + 1]) by {
        if i < k {
            assert(hs2[i] == hs[i] && mids2[i] == mids[i] && es2[i] == es[i] && hs2[i + 1] == hs[i + 1]);
            assert(hs[i].rule_applied(&mids[i], rs[i].lhs@, rs[i].rhs@, es[i]));
        } else {
            assert(hs2[i] == hs[i] && mids2[i] == m && es2[i] == e && hs2[i + 1] == h);
        }
    }
}

/// Passes towards congruence, `ps[i]` leading to `ps[i + 1]` by one pass
/// (see `congruence_step`), every pass but the last merging two e-classes
/// (and so adding a pending union).
pub open spec fn passes_merging(ps: Seq<EGraph>) -> bool {
    &&& ps.len() >= 1
    &&& forall|i: int|
        0 <= i < ps.len() - 1 ==> #[trigger] ps[i].congruence_step(&ps[i + 1]) && ps[i + 1].dirty().len()
            > ps[i].dirty().len()
}

/// The parents of the e-classes with keys `ids` re-canonicalized in turn,
/// `gs[j]` leading to `gs[j + 1]` (see `parents_fixed`).
pub open spec fn parents_chain(gs: Seq<EGraph>, ids: Seq<usize>) -> bool {
    &&& gs.len() == ids.len() + 1
    &&& forall|j: int| 0 <= j < ids.len() ==> #[trigger] gs[j].parents_fixed(&gs[j + 1], ids[j])
}

/// Rounds of `rebuild`, `hs[i]` leading to `hs[i + 1]`.
pub open spec fn rounds_chain(hs: Seq<EGraph>) -> bool {
    &&& hs.len() >= 1
    &&& forall|i: int| 0 <= i < hs.len() - 1 ==> #[trigger] hs[i].rebuild_round(&hs[i + 1])
}

proof fn lemma_passes_push(ps: Seq<EGraph>, g: EGraph)
    requires
        passes_merging(ps),
        ps.last().congruence_step(&g),
        g.dirty().len() > ps.last().dirty().len(),
    ensures
        passes_merging(ps.push(g)),
{
    let ps2 = ps.push(g);
    assert forall|i: int| 0 <= i < ps2.len() - 1 implies #[trigger] ps2[i].congruence_step(&ps2[i + 1])
        && ps2[i + 1].dirty().len() > ps2[i].dirty().len() by {
        if i < ps.len() - 1 {
            assert(ps2[i] == ps[i] && ps2[i + 1] == ps[i + 1]);
        } else {
            assert(ps2[i] == ps.last() && ps2[i + 1] == g);
        }
    }
}

proof fn lemma_parents_push(gs: Seq<EGraph>, ids: Seq<usize>, g: EGraph, id: usize)
    requires
        parents_chain(gs, ids),
        gs.last().parents_fixed(&g, id),
    ensures
        parents_chain(gs.push(g), ids.push(id)),
{
    let gs2 = gs.push(g);
    let ids2 = ids.push(id);
    assert forall|j: int| 0 <= j < ids2.len() implies #[trigger] gs2[j].parents_fixed(&gs2[j + 1], ids2[j]) by {
        if j < ids.len() {
            assert(gs2[j] == gs[j] && gs2[j + 1] == gs[j + 1] && ids2[j] == ids[j]);
        } else {
            assert(gs2[j] == gs.last() && gs2[j + 1] == g && ids2[j] == id);
        }
    }
}

proof fn lemma_rounds_push(hs: Seq<EGraph>, g: EGraph)
    requires
        rounds_chain(hs),
        hs.last().rebuild_round(&g),
    ensures
        rounds_chain(hs.push(g)),
{
    let hs2 = hs.push(g);
    assert forall|i: int| 0 <= i < hs2.len() - 1 implies #[trigger] hs2[i].rebuild_round(&hs2[i + 1]) by {
        if i < hs.len() - 1 {
            assert(hs2[i] == hs[i] && hs2[i + 1] == hs[i + 1]);
            assert(hs[i].rebuild_round(&hs[i + 1]));
        } else {
            assert(hs2[i] == hs.last() && hs2[i + 1] == g);
        }
    }
    assert(hs2.len() >= 1);
    assert(rounds_chain(hs2));
}

/// Every argument of the e-node is an id below `n`.
pub open spec fn node_ok(e: EnodeV, n: nat) -> bool {
    forall|j: int| 0 <= j < e.1.len() ==> #[trigger] e.1[j] < n
}

/// Every parent entry mentions only ids below `n`.
pub open spec fn parents_ok(ps: Seq<(EnodeV, usize)>, n: nat) -> bool {
    forall|j: int| 0 <= j < ps.len() ==> node_ok(#[trigger] ps[j].0, n) && ps[j].1 < n
}

/// Every e-node and parent entry of the e-class mentions only ids below `n`.
pub open spec fn class_ok(c: EClassV, n: nat) -> bool {
    &&& forall|j: int| 0 <= j < c.0.len() ==> node_ok(#[trigger] c.0[j], n)
    &&& parents_ok(c.1, n)
}

/// The items of `items` followed by those of `more` that are not already
/// there, in order, each once: what inserting `more` one by one into an
/// insertion-ordered set holding `items` gives.
pub open spec fn set_extend(items: Seq<EnodeV>, more: Seq<EnodeV>) -> Seq<EnodeV>
    decreases more.len(),
{
    if more.len() == 0 {
        items
    } else {
        let s = set_extend(items, more.drop_last());
        if s.contains(more.last()) {
            s
        } else {
            s.push(more.last())
        }
    }
}

/// The e-nodes of all the e-classes, in order.
pub open spec fn flat_nodes(entries: Seq<(usize, EClassV)>) -> Seq<EnodeV>
    decreases entries.len(),
{
    if entries.len() == 0 {
        Seq::empty()
    } else {
        flat_nodes(entries.drop_last()) + entries.last().1.0
    }
}

/// The e-nodes of all the e-classes, each with the id of its e-class, in
/// order.
pub open spec fn flat_pairs(entries: Seq<(usize, EClassV)>) -> Seq<(usize, EnodeV)>
    decreases entries.len(),
{
    if entries.len() == 0 {
        Seq::empty()
    } else {
        flat_pairs(entries.drop_last()) + entries.last().1.0.map_values(|x: EnodeV| (entries.last().0, x))
    }
}

/// Whether `p` is an e-class id with one of that e-class's e-nodes.
pub open spec fn pair_in(entries: Seq<(usize, EClassV)>, p: (usize, EnodeV)) -> bool {
    exists|i: int, j: int|
        0 <= i < entries.len() && 0 <= j < entries[i].1.0.len() && p == (entries[i].0, entries[i].1.0[j])
}

/// The `j`-th e-node of the `i`-th e-class occurs, with the id of its
/// e-class, in `flat_pairs`.
pub open spec fn pair_listed(entries: Seq<(usize, EClassV)>, i: int, j: int) -> bool {
    exists|k: int| 0 <= k < flat_pairs(entries).len() && flat_pairs(entries)[k] == (entries[i].0, entries[i].1.0[j])
}

/// Every pair of `flat_pairs` is an e-class id with one of that e-class's
/// e-nodes.
pub proof fn lemma_flat_pairs(entries: Seq<(usize, EClassV)>)
    ensures
        forall|k: int| 0 <= k < flat_pairs(entries).len() ==> pair_in(entries, #[trigger] flat_pairs(entries)[k]),
    decreases entries.len(),
{
    if entries.len() > 0 {
        let init = entries.drop_last();
        lemma_flat_pairs(init);
        let last = entries.last();
        let tail = last.1.0.map_values(|x: EnodeV| (last.0, x));
        let f = flat_pairs(entries);
        assert(f == flat_pairs(init) + tail);
        assert forall|k: int| 0 <= k < f.len() implies pair_in(entries, #[trigger] f[k]) by {
            if k < flat_pairs(init).len() {
                assert(f[k] == flat_pairs(init)[k]);
                assert(pair_in(init, flat_pairs(init)[k]));
                let (i, j) = choose|i: int, j: int|
                    0 <= i < init.len() && 0 <= j < init[i].1.0.len() && flat_pairs(init)[k] == (
                        init[i].0,
                        init[i].1.0[j],
                    );
                assert(entries[i] == init[i]);
            } else {
                let j = k - flat_pairs(init).len();
                assert(f[k] == tail[j]);
                assert(f[k] == (entries[entries.len() - 1].0, entries[entries.len() - 1].1.0[j]));
            }
        }
    }
}

/// When every e-class holds an e-node, there are at least as many e-nodes
/// as e-classes.
pub proof fn lemma_flat_nodes_len(entries: Seq<(usize, EClassV)>)
    requires
        forall|i: int| 0 <= i < entries.len() ==> #[trigger] entries[i].1.0.len() > 0,
    ensures
        flat_nodes(entries).len() >= entries.len(),
    decreases entries.len(),
{
    if entries.len() > 0 {
        let init = entries.drop_last();
        assert forall|i: int| 0 <= i < init.len() implies #[trigger] init[i].1.0.len() > 0 by {
            assert(init[i] == entries[i]);
        }
        lemma_flat_nodes_len(init);
        assert(entries.last() == entries[entries.len() - 1]);
    }
}

/// `flat_nodes` depends only on the e-nodes of each e-class.
pub proof fn lemma_flat_nodes_same(a: Seq<(usize, EClassV)>, b: Seq<(usize, EClassV)>)
    requires
        a.len() == b.len(),
        forall|i: int| 0 <= i < a.len() ==> #[trigger] a[i].1.0 == b[i].1.0,
    ensures
        flat_nodes(a) == flat_nodes(b),
    decreases a.len(),
{
    if a.len() > 0 {
        assert forall|i: int| 0 <= i < a.len() - 1 implies #[trigger] a.drop_last()[i].1.0 == b.drop_last()[i].1.0 by {
            assert(a.drop_last()[i] == a[i]);
            assert(b.drop_last()[i] == b[i]);
        }
        lemma_flat_nodes_same(a.drop_last(), b.drop_last());
        assert(a.last().1.0 == b.last().1.0);
    }
}

/// The e-nodes of the first `i` e-classes are those of the first `i - 1`
/// followed by those of the `i`-th, and never more than all of them.
pub proof fn lemma_flat_nodes_prefix(entries: Seq<(usize, EClassV)>, i: int)
    requires
        0 < i <= entries.len(),
    ensures
        flat_nodes(entries.take(i)) == flat_nodes(entries.take(i - 1)) + entries[i - 1].1.0,
        flat_nodes(entries.take(i)).len() <= flat_nodes(entries).len(),
    decreases entries.len(),
{
    assert(entries.take(i).drop_last() =~= entries.take(i - 1));
    if i < entries.len() {
        lemma_flat_nodes_prefix(entries.drop_last(), i);
        assert(entries.drop_last().take(i) =~= entries.take(i));
    } else {
        assert(entries.take(i) =~= entries);
    }
}

/// Every e-node of well-formed e-classes mentions only ids below `n`.
pub proof fn lemma_flat_nodes_ok(entries: Seq<(usize, EClassV)>, n: nat)
    requires
        forall|i: int| 0 <= i < entries.len() ==> class_ok(#[trigger] entries[i].1, n),
    ensures
        forall|k: int| 0 <= k < flat_nodes(entries).len() ==> node_ok(#[trigger] flat_nodes(entries)[k], n),
    decreases entries.len(),
{
    if entries.len() > 0 {
        let init = entries.drop_last();
        assert forall|i: int| 0 <= i < init.len() implies class_ok(#[trigger] init[i].1, n) by {
            assert(init[i] == entries[i]);
        }
        lemma_flat_nodes_ok(init, n);
        let last = entries.last().1.0;
        assert(class_ok(entries[entries.len() - 1].1, n));
        assert forall|k: int| 0 <= k < flat_nodes(entries).len() implies node_ok(#[trigger] flat_nodes(entries)[k], n) by {
            if k < flat_nodes(init).len() {
                assert(flat_nodes(entries)[k] == flat_nodes(init)[k]);
            } else {
                assert(flat_nodes(entries)[k] == last[k - flat_nodes(init).len()]);
            }
        }
    }
}

#[verifier::spinoff_prover]
proof fn lemma_class_parent_ok(c: EClassV, n: nat, j: int)
    requires
        class_ok(c, n),
        0 <= j < c.1.len(),
    ensures
        node_ok(c.1[j].0, n),
        c.1[j].1 < n,
{
    assert(parents_ok(c.1, n));
    assert(node_ok(c.1[j].0, n));
    assert(c.1[j].1 < n);
}

/// Whether the parent entry `(n, id)` is among `v`.
pub fn parents_contain(v: &Vec<(Enode, Id)>, n: &Enode, id: Id) -> (b: bool)
    ensures
        b == parents_view(v@).contains((n@, id.0)),
{
    let mut i: usize = 0;
    while i < v.len()
        invariant
            i <= v.len(),
            forall|k: int| 0 <= k < i ==> #[trigger] parents_view(v@)[k] != (n@, id.0),
        decreases v.len() - i,
    {
        if v[i].0 == *n && v[i].1 == id {
            assert(parents_view(v@)[i as int] == (n@, id.0));
            return true;
        }
        i = i + 1;
    }
    false
}

/// Adds the bindings `es`, in order, to the bindings `acc`: a new pattern
/// is bound, an equal binding is kept, and a conflicting binding gives
/// `None`.
pub open spec fn merge_into(
    acc: Option<Seq<(PatternV, EnodeV)>>,
    es: Seq<(PatternV, EnodeV)>,
) -> Option<Seq<(PatternV, EnodeV)>>
    decreases es.len(),
{
    if es.len() == 0 {
        acc
    } else {
        match merge_into(acc, es.drop_last()) {
            None => None,
            Some(a) => {
                let k = es.last().0;
                let v = es.last().1;
                if has_key(a, k) {
                    if get_value(a, k) == Some(v) {
                        Some(a)
                    } else {
                        None
                    }
                } else {
                    Some(a.push((k, v)))
                }
            },
        }
    }
}

/// The bindings of all of `ds`, merged in order, or `None` on a conflict.
pub open spec fn merge_all(ds: Seq<Seq<(PatternV, EnodeV)>>) -> Option<Seq<(PatternV, EnodeV)>>
    decreases ds.len(),
{
    if ds.len() == 0 {
        Some(Seq::empty())
    } else {
        merge_into(merge_all(ds.drop_last()), ds.last())
    }
}

/// Adding the bindings `es` to consistent bindings `a`: a result, when
/// there is one, keeps every binding of `a`, holds every binding of `es`,
/// binds nothing twice, and holds nothing else.
proof fn lemma_merge_into_facts(a: Seq<(PatternV, EnodeV)>, es: Seq<(PatternV, EnodeV)>)
    requires
        keys_distinct(a),
    ensures
        merge_into(Some(a), es) matches Some(m) ==> {
            &&& keys_distinct(m)
            &&& forall|k: PatternV| has_key(a, k) ==> #[trigger] get_value(m, k) == get_value(a, k)
            &&& forall|q: int| 0 <= q < es.len() ==> get_value(m, #[trigger] es[q].0) == Some(es[q].1)
            &&& forall|t: int| 0 <= t < m.len() ==> a.contains(#[trigger] m[t]) || es.contains(m[t])
        },
    decreases es.len(),
{
    if es.len() > 0 {
        let es0 = es.drop_last();
        lemma_merge_into_facts(a, es0);
        if let Some(a1) = merge_into(Some(a), es0) {
            let k = es.last().0;
            let v = es.last().1;
            lemma_key_index(a1, k);
            if has_key(a1, k) {
                if get_value(a1, k) == Some(v) {
                    let m = a1;
                    assert forall|q: int| 0 <= q < es.len() implies get_value(m, #[trigger] es[q].0) == Some(es[q].1) by {
                        if q < es.len() - 1 {
                            assert(es[q] == es0[q]);
                        }
                    }
                    assert forall|t: int| 0 <= t < m.len() implies a.contains(#[trigger] m[t]) || es.contains(m[t]) by {
                        if es0.contains(m[t]) {
                            let w = choose|w: int| 0 <= w < es0.len() && es0[w] == m[t];
                            assert(es[w] == m[t]);
                        }
                    }
                }
            } else {
                let m = a1.push((k, v));
                assert(insert_entry(a1, k, v) == m);
                lemma_distinct_kept(a1, k, v);
                assert forall|x: PatternV| has_key(a, x) implies #[trigger] get_value(m, x) == get_value(a, x) by {
                    lemma_get_after_insert(a1, k, v, x);
                    assert(get_value(a1, x) == get_value(a, x));
                    assert(get_value(a, x) is Some);
                }
                assert forall|q: int| 0 <= q < es.len() implies get_value(m, #[trigger] es[q].0) == Some(es[q].1) by {
                    lemma_get_after_insert(a1, k, v, es[q].0);
                    if q < es.len() - 1 {
                        assert(es[q] == es0[q]);
                        assert(get_value(a1, es0[q].0) == Some(es0[q].1));
                        if es[q].0 == k {
                            assert(has_key(a1, k));
                        }
                    }
                }
                assert forall|t: int| 0 <= t < m.len() implies a.contains(#[trigger] m[t]) || es.contains(m[t]) by {
                    if t < a1.len() {
                        assert(m[t] == a1[t]);
                        if es0.contains(a1[t]) {
                            let w = choose|w: int| 0 <= w < es0.len() && es0[w] == a1[t];
                            assert(es[w] == m[t]);
                        }
                    } else {
                        assert(es[es.len() - 1] == m[t]);
                    }
                }
            }
        }
    } else {
        assert(merge_into(Some(a), es) == Some(a));
    }
}

proof fn lemma_merge_into_from_none(es: Seq<(PatternV, EnodeV)>)
    ensures
        merge_into(None, es) is None,
    decreases es.len(),
{
    if es.len() > 0 {
        lemma_merge_into_from_none(es.drop_last());
    }
}

/// Whether the binding `x` is one of the bindings of `ds`.
pub open spec fn bound_in(ds: Seq<Seq<(PatternV, EnodeV)>>, x: (PatternV, EnodeV)) -> bool {
    exists|i: int| 0 <= i < ds.len() && ds[i].contains(x)
}

/// Merging bindings is consistent: when the bindings of `ds` merge, every
/// binding of every one of them is in the result, which binds each
/// pattern once and holds nothing else.
pub proof fn lemma_merge_all_consistent(ds: Seq<Seq<(PatternV, EnodeV)>>)
    ensures
        merge_all(ds) matches Some(m) ==> {
            &&& keys_distinct(m)
            &&& forall|i: int, q: int|
                0 <= i < ds.len() && 0 <= q < ds[i].len() ==> get_value(m, #[trigger] ds[i][q].0) == Some(
                    ds[i][q].1,
                )
            &&& forall|t: int| 0 <= t < m.len() ==> #[trigger] bound_in(ds, m[t])
        },
    decreases ds.len(),
{
    if ds.len() > 0 {
        let ds0 = ds.drop_last();
        lemma_merge_all_consistent(ds0);
        match merge_all(ds0) {
            None => {
                lemma_merge_into_from_none(ds.last());
            },
            Some(a) => {
                lemma_merge_into_facts(a, ds.last());
                assert(merge_all(ds) == merge_into(Some(a), ds.last()));
                if let Some(m) = merge_all(ds) {
                    assert forall|i: int, q: int|
                        0 <= i < ds.len() && 0 <= q < ds[i].len() implies get_value(m, #[trigger] ds[i][q].0) == Some(
                        ds[i][q].1,
                    ) by {
                        if i < ds.len() - 1 {
                            assert(ds[i] == ds0[i]);
                            assert(get_value(a, ds0[i][q].0) == Some(ds0[i][q].1));
                            assert(has_key(a, ds[i][q].0));
                        } else {
                            assert(ds[i] == ds.last());
                        }
                    }
                    assert forall|t: int| 0 <= t < m.len() implies #[trigger] bound_in(ds, m[t]) by {
                        if a.contains(m[t]) {
                            let w = choose|w: int| 0 <= w < a.len() && a[w] == m[t];
                            assert(bound_in(ds0, a[w]));
                            let i = choose|i: int| 0 <= i < ds0.len() && ds0[i].contains(a[w]);
                            assert(ds[i] == ds0[i]);
                        } else {
                            assert(ds[ds.len() - 1].contains(m[t]));
                        }
                    }
                }
            },
        }
    }
}

/// Two bindings of one pattern to different e-nodes, anywhere among
/// `ds`, make the merge fail.
pub proof fn lemma_merge_all_conflict(ds: Seq<Seq<(PatternV, EnodeV)>>, i1: int, q1: int, i2: int, q2: int)
    requires
        0 <= i1 < ds.len(),
        0 <= q1 < ds[i1].len(),
        0 <= i2 < ds.len(),
        0 <= q2 < ds[i2].len(),
        ds[i1][q1].0 == ds[i2][q2].0,
        ds[i1][q1].1 != ds[i2][q2].1,
    ensures
        merge_all(ds) is None,
{
    lemma_merge_all_consistent(ds);
}

/// Whether no two bindings of `ds` bind one pattern to different e-nodes.
pub open spec fn bindings_agree(ds: Seq<Seq<(PatternV, EnodeV)>>) -> bool {
    forall|i1: int, q1: int, i2: int, q2: int|
        0 <= i1 < ds.len() && 0 <= q1 < ds[i1].len() && 0 <= i2 < ds.len() && 0 <= q2 < ds[i2].len()
            && #[trigger] ds[i1][q1].0 == #[trigger] ds[i2][q2].0 ==> ds[i1][q1].1 == ds[i2][q2].1
}

proof fn lemma_merge_into_complete(a: Seq<(PatternV, EnodeV)>, es: Seq<(PatternV, EnodeV)>)
    requires
        keys_distinct(a),
        forall|t: int, q: int|
            0 <= t < a.len() && 0 <= q < es.len() && #[trigger] a[t].0 == #[trigger] es[q].0 ==> a[t].1 == es[q].1,
        forall|q1: int, q2: int|
            0 <= q1 < es.len() && 0 <= q2 < es.len() && #[trigger] es[q1].0 == #[trigger] es[q2].0 ==> es[q1].1
                == es[q2].1,
    ensures
        merge_into(Some(a), es) is Some,
    decreases es.len(),
{
    if es.len() > 0 {
        let es0 = es.drop_last();
        assert forall|t: int, q: int|
            0 <= t < a.len() && 0 <= q < es0.len() && #[trigger] a[t].0 == #[trigger] es0[q].0 implies a[t].1
                == es0[q].1 by {
            assert(es0[q] == es[q]);
        }
        assert forall|q1: int, q2: int|
            0 <= q1 < es0.len() && 0 <= q2 < es0.len() && #[trigger] es0[q1].0 == #[trigger] es0[q2].0 implies es0[q1].1
                == es0[q2].1 by {
            assert(es0[q1] == es[q1]);
            assert(es0[q2] == es[q2]);
        }
        lemma_merge_into_complete(a, es0);
        lemma_merge_into_facts(a, es0);
        let a1 = merge_into(Some(a), es0)->Some_0;
        let k = es.last().0;
        let v = es.last().1;
        lemma_key_index(a1, k);
        if has_key(a1, k) {
            let x = a1[key_index(a1, k)];
            assert(a.contains(x) || es0.contains(x));
            if a.contains(x) {
                let t = choose|t: int| 0 <= t < a.len() && a[t] == x;
                assert(a[t].0 == es[es.len() - 1].0);
            } else {
                let q = choose|q: int| 0 <= q < es0.len() && es0[q] == x;
                assert(es[q] == x);
                assert(es[q].0 == es[es.len() - 1].0);
            }
            assert(get_value(a1, k) == Some(v));
        }
    }
}

/// Bindings that agree always merge: together with
/// `lemma_merge_all_conflict`, merging succeeds exactly when no two
/// bindings bind one pattern to different e-nodes.
pub proof fn lemma_merge_all_agree(ds: Seq<Seq<(PatternV, EnodeV)>>)
    requires
        bindings_agree(ds),
    ensures
        merge_all(ds) is Some,
    decreases ds.len(),
{
    if ds.len() > 0 {
        let ds0 = ds.drop_last();
        assert forall|i1: int, q1: int, i2: int, q2: int|
            0 <= i1 < ds0.len() && 0 <= q1 < ds0[i1].len() && 0 <= i2 < ds0.len() && 0 <= q2 < ds0[i2].len()
                && #[trigger] ds0[i1][q1].0 == #[trigger] ds0[i2][q2].0 implies ds0[i1][q1].1 == ds0[i2][q2].1 by {
            assert(ds0[i1] == ds[i1]);
            assert(ds0[i2] == ds[i2]);
        }
        lemma_merge_all_agree(ds0);
        lemma_merge_all_consistent(ds0);
        let a = merge_all(ds0)->Some_0;
        let es = ds.last();
        let n = ds.len() - 1;
        assert forall|t: int, q: int|
            0 <= t < a.len() && 0 <= q < es.len() && #[trigger] a[t].0 == #[trigger] es[q].0 implies a[t].1 == es[q].1 by {
            assert(bound_in(ds0, a[t]));
            let i = choose|i: int| 0 <= i < ds0.len() && ds0[i].contains(a[t]);
            let w = choose|w: int| 0 <= w < ds0[i].len() && ds0[i][w] == a[t];
            assert(ds[i] == ds0[i]);
            assert(ds[i][w] == a[t]);
            assert(ds[n][q] == es[q]);
            assert(ds[i][w].0 == ds[n][q].0);
        }
        assert forall|q1: int, q2: int|
            0 <= q1 < es.len() && 0 <= q2 < es.len() && #[trigger] es[q1].0 == #[trigger] es[q2].0 implies es[q1].1
                == es[q2].1 by {
            assert(ds[n][q1] == es[q1]);
            assert(ds[n][q2] == es[q2]);
            assert(ds[n][q1].0 == ds[n][q2].0);
        }
        lemma_merge_into_complete(a, es);
    }
}

/// The binding a variable pattern gets from the first `j` of `nodes`: the
/// variable bound to the last of them, or no binding when `j` is zero.
pub open spec fn var_binding(p: PatternV, nodes: Seq<EnodeV>, j: nat) -> Seq<(PatternV, EnodeV)> {
    if j == 0 {
        Seq::empty()
    } else {
        seq![(p, nodes[j - 1])]
    }
}

/// The entries of an optional map from patterns to e-nodes.
pub open spec fn opt_entries(r: Option<PatternMap>) -> Option<Seq<(PatternV, EnodeV)>> {
    match r {
        Some(m) => Some(pattern_map_entries(m)),
        None => None,
    }
}

/// The entries of a sequence of maps from patterns to e-nodes.
pub open spec fn maps_entries(v: Seq<PatternMap>) -> Seq<Seq<(PatternV, EnodeV)>> {
    v.map_values(|d: PatternMap| pattern_map_entries(d))
}

/// The bindings' e-nodes are all keys of `sub`.
pub open spec fn values_in(d: Seq<(PatternV, EnodeV)>, sub: Seq<(EnodeV, usize)>) -> bool {
    forall|q: int| 0 <= q < d.len() ==> has_key(sub, #[trigger] d[q].1)
}

/// Whether every variable of `p` is bound in `tr`: then the instance of
/// `p` can be built.
pub open spec fn vars_bound(p: PatternV, tr: Seq<(PatternV, EnodeV)>) -> bool
    decreases p, 0nat,
{
    match p {
        PatternV::Var(_) => has_key(tr, p),
        PatternV::Term(_, ps) => args_bound(ps, tr, ps.len()),
    }
}

/// Whether every variable of the first `k` of `ps` is bound in `tr`.
pub open spec fn args_bound(ps: Seq<PatternV>, tr: Seq<(PatternV, EnodeV)>, k: nat) -> bool
    decreases ps, k,
{
    if k == 0 || k > ps.len() {
        true
    } else {
        args_bound(ps, tr, (k - 1) as nat) && vars_bound(ps[k - 1], tr)
    }
}

proof fn lemma_args_unbound(ps: Seq<PatternV>, tr: Seq<(PatternV, EnodeV)>, m: nat, k: nat)
    requires
        1 <= m <= k <= ps.len(),
        !args_bound(ps, tr, m),
    ensures
        !args_bound(ps, tr, k),
    decreases k,
{
    if m < k {
        lemma_args_unbound(ps, tr, m, (k - 1) as nat);
    }
}

/// Every key of `a` is a key of `b`.
pub open spec fn keys_kept(a: Seq<(EnodeV, usize)>, b: Seq<(EnodeV, usize)>) -> bool {
    forall|k: EnodeV| has_key(a, k) ==> #[trigger] has_key(b, k)
}

/// A map from e-nodes to ids below `n`, with distinct keys.
pub open spec fn sub_ok(e: Seq<(EnodeV, usize)>, n: nat) -> bool {
    &&& keys_distinct(e)
    &&& forall|q: int| 0 <= q < e.len() ==> #[trigger] e[q].1 < n
}

proof fn lemma_merge_into_values(
    acc: Option<Seq<(PatternV, EnodeV)>>,
    es: Seq<(PatternV, EnodeV)>,
    sub: Seq<(EnodeV, usize)>,
)
    requires
        acc matches Some(a) ==> values_in(a, sub),
        values_in(es, sub),
    ensures
        merge_into(acc, es) matches Some(m) ==> values_in(m, sub),
    decreases es.len(),
{
    if es.len() > 0 {
        let init = es.drop_last();
        assert forall|q: int| 0 <= q < init.len() implies has_key(sub, #[trigger] init[q].1) by {
            assert(init[q] == es[q]);
        }
        lemma_merge_into_values(acc, init, sub);
        if let Some(a) = merge_into(acc, init) {
            let k = es.last().0;
            let v = es.last().1;
            assert(has_key(sub, es[es.len() - 1].1));
            if !has_key(a, k) {
                let a2 = a.push((k, v));
                assert forall|q: int| 0 <= q < a2.len() implies has_key(sub, #[trigger] a2[q].1) by {
                    if q < a.len() {
                        assert(a2[q] == a[q]);
                    }
                }
            }
        }
    }
}

proof fn lemma_merge_all_values(ds: Seq<Seq<(PatternV, EnodeV)>>, sub: Seq<(EnodeV, usize)>)
    requires
        forall|i: int| 0 <= i < ds.len() ==> values_in(#[trigger] ds[i], sub),
    ensures
        merge_all(ds) matches Some(m) ==> values_in(m, sub),
    decreases ds.len(),
{
    if ds.len() > 0 {
        let init = ds.drop_last();
        assert forall|i: int| 0 <= i < init.len() implies values_in(#[trigger] init[i], sub) by {
            assert(init[i] == ds[i]);
        }
        lemma_merge_all_values(init, sub);
        assert(values_in(ds[ds.len() - 1], sub));
        lemma_merge_into_values(merge_all(init), ds.last(), sub);
    }
}

proof fn lemma_values_in_kept(d: Seq<(PatternV, EnodeV)>, a: Seq<(EnodeV, usize)>, b: Seq<(EnodeV, usize)>)
    requires
        values_in(d, a),
        keys_kept(a, b),
    ensures
        values_in(d, b),
{
    assert forall|q: int| 0 <= q < d.len() implies has_key(b, #[trigger] d[q].1) by {
        assert(has_key(a, d[q].1));
    }
}

/// The head an expression gives an e-node: its printed text without
/// surrounding double quotes.
pub open spec fn head_of(x: SexpV) -> Seq<char> {
    trim_quotes(sexp_text(x))
}

/// Whether an expression can be inserted: every list in it has a first
/// item.
pub open spec fn insertable(x: SexpV) -> bool
    decreases x, 0nat,
{
    match x {
        SexpV::List(v) => v.len() >= 1 && items_insertable(v, v.len()),
        _ => true,
    }
}

/// Whether the items of `v` from the second to the `n`-th can be inserted.
pub open spec fn items_insertable(v: Seq<SexpV>, n: nat) -> bool
    decreases v, n,
{
    if n <= 1 || n > v.len() {
        true
    } else {
        items_insertable(v, (n - 1) as nat) && insertable(v[n - 1])
    }
}

proof fn lemma_items_insertable(v: Seq<SexpV>, n: nat, k: int)
    requires
        items_insertable(v, n),
        n <= v.len(),
        1 <= k < n,
    ensures
        insertable(v[k]),
    decreases n,
{
    if k < n - 1 {
        lemma_items_insertable(v, (n - 1) as nat, k);
    }
}

/// Whether an expression can be inserted (see `insertable`).
pub fn is_insertable(x: &Sexp) -> (b: bool)
    ensures
        b == insertable(x@),
    decreases x,
{
    match x {
        Sexp::List(l) => {
            if l.len() == 0 {
                return false;
            }
            let ghost vv = x@->List_0;
            let mut i: usize = 1;
            while i < l.len()
                invariant
                    *x == Sexp::List(*l),
                    vv == x@->List_0,
                    vv.len() == l@.len(),
                    1 <= i <= l.len(),
                    items_insertable(vv, i as nat),
                decreases l.len() - i,
            {
                proof {
                    assert(decreases_to!(*x => (*x)->List_0));
                    assert((*x)->List_0 == *l);
                    assert(decreases_to!(*l => l@));
                    assert(decreases_to!(l@ => l@[i as int]));
                    assert(vv[i as int] == l@[i as int]@);
                }
                if !is_insertable(&l[i]) {
                    proof {
                        if insertable(x@) {
                            lemma_items_insertable(vv, vv.len(), i as int);
                        }
                    }
                    return false;
                }
                i = i + 1;
            }
            true
        },
        _ => true,
    }
}

/// Whether `cost` gives what `f` returns, on every string.
pub open spec fn cost_agrees<F: Fn(&String) -> i32>(f: F, cost: spec_fn(Seq<char>) -> i32) -> bool {
    forall|s: &String, c: i32| #[trigger] call_ensures(f, (s,), c) ==> c == cost(s@)
}

/// `x` wrapped around into the range of `i32`, as two's complement
/// addition wraps.
pub open spec fn wrap_i32(x: int) -> int {
    (x + 0x8000_0000) % 0x1_0000_0000 - 0x8000_0000
}

proof fn lemma_wrap_in_range(x: int)
    requires
        i32::MIN <= x <= i32::MAX,
    ensures
        wrap_i32(x) == x,
{
    vstd::arithmetic::div_mod::lemma_small_mod((x + 0x8000_0000) as nat, 0x1_0000_0000);
}

proof fn lemma_wrapping_add_is_wrap(a: i32, b: i32)
    ensures
        vstd::wrapping::i32_specs::wrapping_add(a, b) as int == wrap_i32(a + b),
{
    let x = a + b;
    let m: int = 0x1_0000_0000;
    if x > i32::MAX {
        vstd::arithmetic::div_mod::lemma_mod_sub_multiples_vanish(x + 0x8000_0000, m);
        lemma_wrap_in_range(x - m);
        assert((x - m + 0x8000_0000) % m == (x + 0x8000_0000) % m) by {
            assert((-m + (x + 0x8000_0000)) % m == (x + 0x8000_0000) % m);
            assert(-m + (x + 0x8000_0000) == x - m + 0x8000_0000);
        }
    } else if x < i32::MIN {
        vstd::arithmetic::div_mod::lemma_mod_add_multiples_vanish(x + 0x8000_0000, m);
        lemma_wrap_in_range(x + m);
        assert((x + m + 0x8000_0000) % m == (x + 0x8000_0000) % m) by {
            assert((m + (x + 0x8000_0000)) % m == (x + 0x8000_0000) % m);
            assert(m + (x + 0x8000_0000) == x + m + 0x8000_0000);
        }
    } else {
        lemma_wrap_in_range(x);
    }
}

proof fn lemma_wrap_twice(x: int, y: int)
    ensures
        wrap_i32(wrap_i32(x) + y) == wrap_i32(x + y),
{
    let m: int = 0x1_0000_0000;
    vstd::arithmetic::div_mod::lemma_add_mod_noop_right(y, x + 0x8000_0000, m);
    assert(wrap_i32(x) + y + 0x8000_0000 == y + (x + 0x8000_0000) % m);
    assert(y + (x + 0x8000_0000) == x + y + 0x8000_0000);
}

/// The first entry of least cost.
pub open spec fn first_min(s: Seq<(i32, Seq<char>)>) -> Option<(i32, Seq<char>)>
    decreases s.len(),
{
    if s.len() == 0 {
        None
    } else {
        match first_min(s.drop_last()) {
            Some(x) => if s.last().0 < x.0 {
                Some(s.last())
            } else {
                Some(x)
            },
            None => Some(s.last()),
        }
    }
}

/// The values of cost and text pairs.
pub open spec fn results_view(s: Seq<(i32, String)>) -> Seq<(i32, Seq<char>)> {
    s.map_values(|p: (i32, String)| (p.0, p.1@))
}

/// The text of an optional cost and text pair.
pub open spec fn opt_text(r: Option<(i32, Seq<char>)>) -> Option<Seq<char>> {
    match r {
        Some(p) => Some(p.1),
        None => None,
    }
}

/// The value of an optional string.
pub open spec fn opt_string(r: Option<String>) -> Option<Seq<char>> {
    match r {
        Some(t) => Some(t@),
        None => None,
    }
}

/// The e-nodes of parent entries.
pub open spec fn parent_nodes(ps: Seq<(EnodeV, usize)>) -> Seq<EnodeV> {
    ps.map_values(|p: (EnodeV, usize)| p.0)
}

/// The e-nodes of id and e-node pairs.
pub open spec fn pair_nodes(ps: Seq<(usize, EnodeV)>) -> Seq<EnodeV> {
    ps.map_values(|p: (usize, EnodeV)| p.1)
}

/// The results of matching, as values.
pub open spec fn opt_maps_view(v: Seq<Option<PatternMap>>) -> Seq<Option<Seq<(PatternV, EnodeV)>>> {
    v.map_values(|r: Option<PatternMap>| opt_entries(r))
}

/// How many of `keys` are not in `visited`.
pub open spec fn unvisited_count(keys: Seq<usize>, visited: Seq<usize>) -> nat
    decreases keys.len(),
{
    if keys.len() == 0 {
        0
    } else {
        unvisited_count(keys.drop_last(), visited) + if visited.contains(keys.last()) {
            0nat
        } else {
            1nat
        }
    }
}

proof fn lemma_unvisited_absent(keys: Seq<usize>, visited: Seq<usize>, k: usize)
    requires
        !keys.contains(k),
    ensures
        unvisited_count(keys, visited.push(k)) == unvisited_count(keys, visited),
    decreases keys.len(),
{
    if keys.len() > 0 {
        let init = keys.drop_last();
        assert(!init.contains(k)) by {
            if init.contains(k) {
                let i = choose|i: int| 0 <= i < init.len() && init[i] == k;
                assert(keys[i] == k);
            }
        }
        lemma_unvisited_absent(init, visited, k);
        assert(keys.last() != k) by {
            assert(keys[keys.len() - 1] == keys.last());
        }
        assert(visited.push(k).contains(keys.last()) == visited.contains(keys.last())) by {
            if visited.push(k).contains(keys.last()) {
                let i = choose|i: int| 0 <= i < visited.push(k).len() && visited.push(k)[i] == keys.last();
                assert(i < visited.len());
                assert(visited[i] == keys.last());
            }
            if visited.contains(keys.last()) {
                let i = choose|i: int| 0 <= i < visited.len() && visited[i] == keys.last();
                assert(visited.push(k)[i] == keys.last());
            }
        }
    }
}

/// Visiting a key not yet visited leaves one fewer unvisited.
proof fn lemma_unvisited_step(keys: Seq<usize>, visited: Seq<usize>, k: usize)
    requires
        keys.no_duplicates(),
        keys.contains(k),
        !visited.contains(k),
    ensures
        unvisited_count(keys, visited.push(k)) + 1 == unvisited_count(keys, visited),
    decreases keys.len(),
{
    let init = keys.drop_last();
    assert(visited.push(k).contains(k)) by {
        assert(visited.push(k)[visited.len() as int] == k);
    }
    if keys.last() == k {
        assert(!init.contains(k)) by {
            if init.contains(k) {
                let i = choose|i: int| 0 <= i < init.len() && init[i] == k;
                assert(keys[i] == keys[keys.len() - 1]);
            }
        }
        lemma_unvisited_absent(init, visited, k);
    } else {
        assert(init.contains(k)) by {
            let i = choose|i: int| 0 <= i < keys.len() && keys[i] == k;
            assert(i != keys.len() - 1);
            assert(init[i] == k);
        }
        assert(init.no_duplicates()) by {
            assert forall|i: int, j: int| 0 <= i < init.len() && 0 <= j < init.len() && i != j implies init[i] != init[j] by {
                assert(init[i] == keys[i] && init[j] == keys[j]);
            }
        }
        lemma_unvisited_step(init, visited, k);
        assert(visited.push(k).contains(keys.last()) == visited.contains(keys.last())) by {
            if visited.push(k).contains(keys.last()) {
                let i = choose|i: int| 0 <= i < visited.push(k).len() && visited.push(k)[i] == keys.last();
                assert(i < visited.len());
                assert(visited[i] == keys.last());
            }
            if visited.contains(keys.last()) {
                let i = choose|i: int| 0 <= i < visited.len() && visited[i] == keys.last();
                assert(visited.push(k)[i] == keys.last());
            }
        }
    }
}

/// Whether `v` holds `id`.
pub fn contains_id(v: &Vec<Id>, id: Id) -> (b: bool)
    ensures
        b == ids_view(v@).contains(id.0),
{
    let mut i: usize = 0;
    while i < v.len()
        invariant
            i <= v.len(),
            forall|k: int| 0 <= k < i ==> #[trigger] ids_view(v@)[k] != id.0,
        decreases v.len() - i,
    {
        if v[i].0 == id.0 {
            assert(ids_view(v@)[i as int] == id.0);
            return true;
        }
        i = i + 1;
    }
    false
}

/// A cost function: every operator costs 1.
pub fn ret_1(_s: &String) -> (c: i32)
    ensures
        c == 1,
{
    return 1;
}

/// The cost that `ret_logical` gives an operator.
pub open spec fn logical_cost(s: Seq<char>) -> i32 {
    if s == "+"@ {
        2
    } else if s == "/"@ {
        4
    } else if s == "*"@ {
        3
    } else if s == "<<"@ {
        2
    } else if s == "succ"@ {
        0
    } else if s == "n"@ {
        2
    } else {
        1
    }
}

/// Every head costs one.
pub open spec fn unit_costs() -> spec_fn(Seq<char>) -> i32 {
    |s: Seq<char>| 1i32
}

/// The head costs of `ret_logical`.
pub open spec fn logical_costs() -> spec_fn(Seq<char>) -> i32 {
    |s: Seq<char>| logical_cost(s)
}

/// A cost function by operator: `+`, `n` and `<<` cost 2, `/` costs 4,
/// `*` costs 3, `succ` costs 0, and anything else 1.
pub fn ret_logical(s: &String) -> (c: i32)
    ensures
        c == logical_cost(s@),
{
    return if *s == String::from_str("+") {
        2
    } else if *s == String::from_str("/") {
        4
    } else if *s == String::from_str("*") {
        3
    } else if *s == String::from_str("<<") {
        2
    } else if *s == String::from_str("succ") {
        0
    } else if *s == String::from_str("n") {
        2
    } else {
        1
    };
}

/// An e-graph: a union-find over e-class ids, a memo from e-nodes to the
/// id of the e-class they were added to, and the e-classes themselves,
/// keyed by their canonical id.
pub struct EGraph {
    pub(crate) unionfind: UnionFind,
    pub(crate) memo: NodeMap,
    pub(crate) classes: ClassMap,
    dirty_unions: Vec<Id>,
}

impl EGraph {
    /// The union-find.
    pub closed spec fn uf(&self) -> UnionFind {
        self.unionfind
    }

    /// The memo's entries, in order.
    pub closed spec fn memo_entries(&self) -> Seq<(EnodeV, usize)> {
        node_map_entries(self.memo)
    }

    /// The e-classes, in order, under their ids.
    pub closed spec fn class_entries(&self) -> Seq<(usize, EClassV)> {
        class_map_entries(self.classes)
    }

    /// The ids of the unions not yet repaired by `rebuild`.
    pub closed spec fn dirty(&self) -> Seq<usize> {
        ids_view(self.dirty_unions@)
    }

    /// Number of ids handed out.
    pub open spec fn size(&self) -> nat {
        self.uf().spec_size()
    }

    /// The canonical id of `i`.
    pub open spec fn root(&self, i: int) -> int {
        self.uf().root(i)
    }

    /// The e-node with every argument replaced by its canonical id.
    pub open spec fn canon(&self, e: EnodeV) -> EnodeV {
        (e.0, e.1.map_values(|a: usize| self.root(a as int) as usize))
    }

    /// The union-find is well formed, and the memo has distinct keys and
    /// mentions only ids that exist.
    pub open spec fn ids_ok(&self) -> bool {
        &&& self.uf().wf()
        &&& keys_distinct(self.memo_entries())
        &&& forall|i: int|
            0 <= i < self.memo_entries().len() ==> #[trigger] self.memo_entries()[i].1 < self.size()
                && node_ok(self.memo_entries()[i].0, self.size())
    }

    /// The e-classes are keyed exactly by the canonical ids, mention only
    /// ids that exist, and each holds at least one e-node.
    pub open spec fn classes_ok(&self) -> bool {
        &&& keys_distinct(self.class_entries())
        &&& forall|i: int|
            0 <= i < self.class_entries().len() ==> #[trigger] self.class_entries()[i].0 < self.size()
                && self.uf().is_root(self.class_entries()[i].0 as int) && class_ok(
                self.class_entries()[i].1,
                self.size(),
            )
        &&& forall|r: int|
            0 <= r < self.size() && #[trigger] self.uf().is_root(r) ==> has_key(
                self.class_entries(),
                r as usize,
            )
        &&& forall|i: int| 0 <= i < self.class_entries().len() ==> #[trigger] self.class_entries()[i].1.0.len() > 0
    }

    /// Well-formedness of an e-graph.
    pub open spec fn wf(&self) -> bool {
        self.ids_ok() && self.classes_ok()
    }

    /// Whether `i` is the id of an e-class.
    pub open spec fn is_class(&self, i: int) -> bool {
        0 <= i && has_key(self.class_entries(), i as usize)
    }

    /// The e-classes stay valid when the union-find keeps its size and its
    /// representatives.
    proof fn lemma_classes_ok_transfer(old_g: &Self, new_g: &Self)
        requires
            old_g.classes_ok(),
            old_g.uf().wf(),
            new_g.uf().wf(),
            new_g.size() == old_g.size(),
            forall|i: int| #[trigger] new_g.uf().root(i) == old_g.uf().root(i),
            new_g.class_entries() == old_g.class_entries(),
        ensures
            new_g.classes_ok(),
    {
        assert forall|r: int| 0 <= r < new_g.size() implies #[trigger] new_g.uf().is_root(r)
            == old_g.uf().is_root(r) by {
            new_g.uf().lemma_is_root_iff(r);
            old_g.uf().lemma_is_root_iff(r);
        }
        assert forall|i: int| 0 <= i < new_g.class_entries().len() implies #[trigger] new_g.class_entries()[i].0
            < new_g.size() && new_g.uf().is_root(new_g.class_entries()[i].0 as int) && class_ok(
            new_g.class_entries()[i].1,
            new_g.size(),
        ) by {
            assert(old_g.class_entries()[i].0 < old_g.size());
            assert(old_g.uf().is_root(old_g.class_entries()[i].0 as int));
        }
        assert forall|r: int| 0 <= r < new_g.size() && #[trigger] new_g.uf().is_root(r) implies has_key(
            new_g.class_entries(),
            r as usize,
        ) by {
            assert(old_g.uf().is_root(r));
        }
    }

    /// Create a new empty e-graph.
    pub fn new() -> (g: EGraph)
        ensures
            g.wf(),
            g.size() == 0,
            g.memo_entries() == Seq::<(EnodeV, usize)>::empty(),
            g.class_entries() == Seq::<(usize, EClassV)>::empty(),
            g.dirty() == Seq::<usize>::empty(),
            g.congruent(),
    {
        proof {
            reveal(EGraph::congruent);
        }
        let g = EGraph {
            unionfind: UnionFind::default(),
            memo: node_map_new(),
            classes: class_map_new(),
            dirty_unions: Vec::<Id>::new(),
        };
        assert(g.dirty() =~= Seq::<usize>::empty());
        return g;
    }

    /// The size of the union-find: the number of ids handed out.
    pub fn uf_len(&self) -> (n: usize)
        ensures
            n == self.size(),
    {
        return self.unionfind.len();
    }

    /// The number of e-classes.
    pub fn n_eclasses(&self) -> (n: usize)
        ensures
            n == self.class_entries().len(),
    {
        return class_map_len(&self.classes);
    }

    /// The e-class with id `id`.
    pub fn get_eclass(&self, id: &Id) -> (r: Option<&EClass>)
        ensures
            r matches Some(c) ==> get_value(self.class_entries(), id.0) == Some(c@),
            r is None ==> get_value(self.class_entries(), id.0) is None,
            self.wf() ==> (r is Some <==> id.0 < self.size() && self.uf().is_root(id.0 as int)),
            self.wf() ==> (r matches Some(c) ==> c@.0.len() > 0),
    {
        let r = class_map_get(&self.classes, id);
        proof {
            if self.wf() {
                lemma_key_index(self.class_entries(), id.0);
                if has_key(self.class_entries(), id.0) {
                    let q = key_index(self.class_entries(), id.0);
                    assert(self.class_entries()[q].0 < self.size());
                    assert(self.class_entries()[q].1.0.len() > 0);
                }
            }
        }
        return r;
    }

    /// A copy of the e-class with id `id`.
    pub fn get_eclass_cpy(&self, id: Id) -> (r: Option<EClass>)
        ensures
            r matches Some(c) ==> get_value(self.class_entries(), id.0) == Some(c@),
            r is None ==> get_value(self.class_entries(), id.0) is None,
    {
        if let Some(c) = class_map_get(&self.classes, &id) {
            return Some(c.clone());
        }
        return None;
    }

    /// The canonical id of `id`; the e-graph is unchanged.
    pub fn find(&self, id: Id) -> (r: Id)
        requires
            self.uf().wf(),
            id.0 < self.size(),
        ensures
            r.0 == self.root(id.0 as int),
            self.uf().is_root(r.0 as int),
    {
        return self.unionfind.find(id);
    }

    /// The canonical id of `id`; every entry of its set in the union-find is
    /// then pointed directly at it, while the representatives, the memo and
    /// the e-classes are unchanged.
    pub fn find_mut(&mut self, id: &Id) -> (r: Id)
        requires
            old(self).uf().wf(),
            id.0 < old(self).size(),
        ensures
            final(self).uf().wf(),
            r.0 == old(self).root(id.0 as int),
            final(self).uf().is_root(r.0 as int),
            final(self).size() == old(self).size(),
            forall|i: int| #[trigger] final(self).root(i) == old(self).root(i),
            final(self).memo_entries() == old(self).memo_entries(),
            final(self).class_entries() == old(self).class_entries(),
            final(self).dirty() == old(self).dirty(),
            old(self).ids_ok() ==> final(self).ids_ok(),
            old(self).classes_ok() ==> final(self).classes_ok(),
            old(self).congruent() ==> final(self).congruent(),
            final(self).uf().parent_seq() == old(self).uf().compressed(r.0 as int),
            old(self).wf() ==> old(self).present_kept(&*final(self)),
    {
        let ghost old_g = *self;
        let r = self.unionfind.find_mut(*id);
        proof {
            if old_g.wf() {
                Self::lemma_present_grow(&old_g, self);
            }
            if old_g.classes_ok() {
                Self::lemma_classes_ok_transfer(&old_g, self);
            }
            if old_g.congruent() {
                Self::lemma_congruent_kept(&old_g, self);
            }
        }
        return r;
    }

    /// The e-node with its arguments replaced by their canonical ids.
    pub fn canonicalize_args(&self, term: &Enode) -> (r: Enode)
        requires
            self.uf().wf(),
            node_ok(term@, self.size()),
        ensures
            r@ == self.canon(term@),
            node_ok(r@, self.size()),
    {
        let mut new = term.clone();
        new.args = Vec::<Id>::new();
        let mut i: usize = 0;
        while i < term.args.len()
            invariant
                self.uf().wf(),
                node_ok(term@, self.size()),
                i <= term.args.len(),
                new.head@ == term.head@,
                new.args@.len() == i,
                ids_view(new.args@) == self.canon(term@).1.take(i as int),
            decreases term.args.len() - i,
        {
            assert(term@.1[i as int] < self.size());
            let c = self.unionfind.find(term.args[i]);
            let ghost prev = new.args@;
            new.args.push(c);
            i = i + 1;
            assert(ids_view(new.args@) =~= self.canon(term@).1.take(i as int)) by {
                assert(new.args@ == prev.push(c));
                assert forall|k: int| 0 <= k < i implies #[trigger] ids_view(new.args@)[k] == self.canon(
                    term@,
                ).1[k] by {
                    if k < i - 1 {
                        assert(new.args@[k] == prev[k]);
                        assert(ids_view(prev)[k] == self.canon(term@).1.take(i - 1)[k]);
                    }
                }
            }
        }
        assert(self.canon(term@).1.take(i as int) =~= self.canon(term@).1);
        proof {
            assert forall|j: int| 0 <= j < new@.1.len() implies #[trigger] new@.1[j] < self.size() by {
                assert(term@.1[j] < self.size());
                self.uf().lemma_root_is_root(term@.1[j] as int);
            }
        }
        return new;
    }

    /// The memo after re-canonicalizing the entry of `e`, if there is one:
    /// the entry is removed and its canonical form is stored under the
    /// canonical id.
    pub open spec fn memo_after_canon(&self, e: EnodeV) -> Seq<(EnodeV, usize)> {
        match get_value(self.memo_entries(), e) {
            Some(id) => insert_entry(
                swap_remove_entry(self.memo_entries(), e),
                self.canon(e),
                self.root(id as int) as usize,
            ),
            None => self.memo_entries(),
        }
    }

    proof fn lemma_canon_same(old_g: &Self, new_g: &Self, e: EnodeV)
        requires
            forall|i: int| #[trigger] new_g.root(i) == old_g.root(i),
        ensures
            new_g.canon(e) == old_g.canon(e),
    {
        assert(new_g.canon(e).1 =~= old_g.canon(e).1);
    }

    /// Canonicalizes an e-node and, when it has a memo entry, replaces that
    /// entry by the canonical e-node under the canonical id.  The e-classes
    /// are not updated.
    fn canonicalize_and_update_in_memo(&mut self, n: &Enode) -> (r: Enode)
        requires
            old(self).ids_ok(),
            node_ok(n@, old(self).size()),
        ensures
            final(self).ids_ok(),
            r@ == old(self).canon(n@),
            node_ok(r@, old(self).size()),
            final(self).size() == old(self).size(),
            forall|i: int| #[trigger] final(self).root(i) == old(self).root(i),
            final(self).memo_entries() == old(self).memo_after_canon(n@),
            final(self).class_entries() == old(self).class_entries(),
            final(self).dirty() == old(self).dirty(),
            old(self).classes_ok() ==> final(self).classes_ok(),
    {
        let ghost old_g = *self;
        proof {
            lemma_key_index(old_g.memo_entries(), n@);
        }
        if let Some(old_cid) = node_map_swap_remove(&mut self.memo, n) {
            proof {
                let idx = key_index(old_g.memo_entries(), n@);
                assert(old_g.memo_entries()[idx].1 < old_g.size());
            }
            let ghost g1 = *self;
            assert(g1.uf() == old_g.uf());
            let new_cid = self.find_mut(&old_cid);
            assert(forall|i: int| #[trigger] self.root(i) == old_g.root(i)) by {
                assert forall|i: int| #[trigger] self.root(i) == old_g.root(i) by {
                    assert(self.root(i) == g1.root(i));
                }
            }
            let newn = self.canonicalize_args(n);
            let ghost mid = self.memo_entries();
            let ghost g2 = *self;
            let newn2 = newn.clone();
            node_map_insert(&mut self.memo, newn2, new_cid);
            proof {
                assert(self.unionfind == g2.unionfind);
                Self::lemma_canon_same(&old_g, &g2, n@);
                assert(newn@ == old_g.canon(n@));
                assert(get_value(old_g.memo_entries(), n@) == Some(old_cid.0));
                assert(new_cid.0 == old_g.root(old_cid.0 as int));
                assert forall|i: int| #[trigger] self.root(i) == old_g.root(i) by {
                    assert(self.root(i) == g2.root(i));
                }
                Self::lemma_canon_same(&old_g, self, n@);
                let sz = self.size();
                let pred = |p: (EnodeV, usize)| p.1 < sz && node_ok(p.0, sz);
                lemma_distinct_kept(old_g.memo_entries(), n@, 0usize);
                assert forall|i: int| 0 <= i < old_g.memo_entries().len() implies #[trigger] pred(
                    old_g.memo_entries()[i],
                ) by {
                    assert(old_g.memo_entries()[i].1 < old_g.size());
                }
                lemma_entries_keep(old_g.memo_entries(), n@, 0usize, pred);
                assert(mid == swap_remove_entry(old_g.memo_entries(), n@));
                lemma_distinct_kept(mid, newn@, new_cid.0);
                assert forall|i: int| 0 <= i < mid.len() implies #[trigger] pred(mid[i]) by {
                }
                lemma_entries_keep(mid, newn@, new_cid.0, pred);
                assert forall|i: int| 0 <= i < self.memo_entries().len() implies #[trigger] self.memo_entries()[i].1
                    < self.size() && node_ok(self.memo_entries()[i].0, self.size()) by {
                    assert(pred(self.memo_entries()[i]));
                }
            }
            return newn;
        } else {
            return self.canonicalize_args(n);
        }
    }

    /// Whether some e-node of the `i`-th e-class has canonical form `c`.
    pub open spec fn class_holds_canon(&self, i: int, c: EnodeV) -> bool {
        exists|j: int|
            0 <= j < self.class_entries()[i].1.0.len() && #[trigger] self.canon(
                self.class_entries()[i].1.0[j],
            ) == c
    }

    /// Whether some e-class holds an e-node with canonical form `c`.
    pub open spec fn some_class_holds(&self, c: EnodeV) -> bool {
        exists|i: int| 0 <= i < self.class_entries().len() && #[trigger] self.class_holds_canon(i, c)
    }

    /// The position of the first e-class that holds an e-node with
    /// canonical form `c`.
    pub open spec fn first_class_holding(&self, c: EnodeV) -> int {
        choose|i: int|
            0 <= i < self.class_entries().len() && self.class_holds_canon(i, c) && forall|k: int|
                0 <= k < i ==> !#[trigger] self.class_holds_canon(k, c)
    }

    /// What `lookup` finds for `e`: the canonical id stored in the memo
    /// under `e`, else under its canonical form, else the id of the first
    /// e-class holding an e-node with the same canonical form.
    pub open spec fn lookup_spec(&self, e: EnodeV) -> Option<usize> {
        match get_value(self.memo_entries(), e) {
            Some(id) => Some(self.root(id as int) as usize),
            None => match get_value(self.memo_entries(), self.canon(e)) {
                Some(id) => Some(self.root(id as int) as usize),
                None => if self.some_class_holds(self.canon(e)) {
                    Some(self.class_entries()[self.first_class_holding(self.canon(e))].0)
                } else {
                    None
                },
            },
        }
    }

    /// Finds the id of the e-class of an e-node: through the memo, then
    /// the memo under its canonical form, then by searching every e-class.
    /// Returns `None` when no e-class holds it.
    pub fn lookup(&self, enode: &Enode) -> (r: Option<Id>)
        requires
            self.wf(),
            node_ok(enode@, self.size()),
        ensures
            r matches Some(id) ==> self.lookup_spec(enode@) == Some(id.0),
            r is None ==> self.lookup_spec(enode@) is None,
            r matches Some(id) ==> id.0 < self.size() && self.uf().is_root(id.0 as int),
    {
        proof {
            lemma_key_index(self.memo_entries(), enode@);
        }
        if let Some(id) = node_map_get(&self.memo, enode) {
            proof {
                assert(self.memo_entries()[key_index(self.memo_entries(), enode@)].1 < self.size());
            }
            return Some(self.find(id));
        }
        let cenode = self.canonicalize_args(enode);
        proof {
            lemma_key_index(self.memo_entries(), cenode@);
        }
        if let Some(id) = node_map_get(&self.memo, &cenode) {
            proof {
                assert(self.memo_entries()[key_index(self.memo_entries(), cenode@)].1 < self.size());
            }
            return Some(self.find(id));
        }
        let n_classes = class_map_len(&self.classes);
        let mut i: usize = 0;
        while i < n_classes
            invariant
                self.wf(),
                n_classes == self.class_entries().len(),
                i <= n_classes,
                cenode@ == self.canon(enode@),
                get_value(self.memo_entries(), enode@) is None,
                get_value(self.memo_entries(), cenode@) is None,
                forall|k: int| 0 <= k < i ==> !#[trigger] self.class_holds_canon(k, cenode@),
            decreases n_classes - i,
        {
            let (cid, cls) = class_map_get_index(&self.classes, i);
            let n_nodes = node_set_len(&cls.nodes);
            proof {
                assert(self.class_entries()[i as int].0 < self.size());
                assert(self.uf().is_root(cid.0 as int));
                assert(class_ok(cls@, self.size()));
            }
            let mut j: usize = 0;
            while j < n_nodes
                invariant
                    self.uf().wf(),
                    class_ok(cls@, self.size()),
                    n_classes == self.class_entries().len(),
                    i < n_classes,
                    cls@ == self.class_entries()[i as int].1,
                    n_nodes == cls@.0.len(),
                    j <= n_nodes,
                    cid.0 == self.class_entries()[i as int].0,
                    cid.0 < self.size(),
                    self.uf().is_root(cid.0 as int),
                    cenode@ == self.canon(enode@),
                    get_value(self.memo_entries(), enode@) is None,
                    get_value(self.memo_entries(), cenode@) is None,
                    forall|k: int| 0 <= k < i ==> !#[trigger] self.class_holds_canon(k, cenode@),
                    forall|jj: int| 0 <= jj < j ==> #[trigger] self.canon(cls@.0[jj]) != cenode@,
                decreases n_nodes - j,
            {
                let n = node_set_get_index(&cls.nodes, j);
                proof {
                    assert(node_ok(cls@.0[j as int], self.size()));
                }
                let n = self.canonicalize_args(n);
                if n == cenode {
                    proof {
                        assert(self.class_holds_canon(i as int, cenode@));
                        assert(self.some_class_holds(cenode@));
                        let f = self.first_class_holding(cenode@);
                        assert(f == i);
                    }
                    return Some(cid);
                }
                j = j + 1;
            }
            i = i + 1;
        }
        return None;
    }

    /// How many of the ids in `args` have canonical id `k`.
    pub open spec fn count_children(&self, args: Seq<usize>, k: usize) -> nat
        decreases args.len(),
    {
        if args.len() == 0 {
            0
        } else {
            self.count_children(args.drop_last(), k) + if self.root(args.last() as int) == k as int {
                1nat
            } else {
                0nat
            }
        }
    }

    /// The e-classes with, for every argument of `e` in `args`, the parent
    /// entry `(e, id)` appended to the e-class of that argument.
    pub open spec fn with_parent_added(
        &self,
        entries: Seq<(usize, EClassV)>,
        e: EnodeV,
        id: usize,
        args: Seq<usize>,
    ) -> Seq<(usize, EClassV)> {
        entries.map_values(
            |p: (usize, EClassV)|
                (p.0, (p.1.0, p.1.1 + Seq::new(self.count_children(args, p.0), |_i: int| (e, id)))),
        )
    }

    proof fn lemma_parent_added_step(
        &self,
        entries: Seq<(usize, EClassV)>,
        e: EnodeV,
        id: usize,
        args: Seq<usize>,
        k: int,
        idx: int,
    )
        requires
            keys_distinct(entries),
            0 <= k < args.len(),
            0 <= idx < entries.len(),
            entries[idx].0 as int == self.root(args[k] as int),
        ensures
            ({
                let before = self.with_parent_added(entries, e, id, args.take(k));
                self.with_parent_added(entries, e, id, args.take(k + 1)) == before.update(
                    idx,
                    (before[idx].0, (before[idx].1.0, before[idx].1.1.push((e, id)))),
                )
            }),
    {
        let before = self.with_parent_added(entries, e, id, args.take(k));
        let after = self.with_parent_added(entries, e, id, args.take(k + 1));
        assert(args.take(k + 1).drop_last() =~= args.take(k));
        assert(args.take(k + 1).last() == args[k]);
        let target = before.update(idx, (before[idx].0, (before[idx].1.0, before[idx].1.1.push((e, id)))));
        assert forall|i: int| 0 <= i < entries.len() implies #[trigger] after[i] == target[i] by {
            let key = entries[i].0;
            let c0 = self.count_children(args.take(k), key);
            let c1 = self.count_children(args.take(k + 1), key);
            if i == idx {
                assert(c1 == c0 + 1);
                assert(Seq::new(c1, |_i: int| (e, id)) =~= Seq::new(c0, |_i: int| (e, id)).push((e, id)));
                assert(entries[i].1.1 + Seq::new(c1, |_i: int| (e, id)) =~= (entries[i].1.1 + Seq::new(
                    c0,
                    |_i: int| (e, id),
                )).push((e, id)));
            } else {
                assert(entries[i].0 != entries[idx].0);
                assert(c1 == c0);
            }
        }
        assert(after =~= target);
    }

    /// What adding the e-node `e` does, returning `id`: when lookup finds
    /// it, nothing changes but the union-find's paths; otherwise `id` is a
    /// new e-class holding `e`, recorded in the memo and, as a parent, in
    /// the e-class of each argument.
    pub open spec fn pushed(&self, new: &Self, e: EnodeV, id: usize) -> bool {
        &&& new.wf()
        &&& new.dirty() == self.dirty()
        &&& self.lookup_spec(e) matches Some(x) ==> {
            &&& id == x
            &&& new.size() == self.size()
            &&& forall|i: int| #[trigger] new.root(i) == self.root(i)
            &&& new.memo_entries() == self.memo_entries()
            &&& new.class_entries() == self.class_entries()
        }
        &&& self.lookup_spec(e) is None ==> {
            &&& id == self.size()
            &&& new.size() == self.size() + 1
            &&& forall|i: int| 0 <= i < self.size() ==> #[trigger] new.root(i) == self.root(i)
            &&& new.root(id as int) == id
            &&& new.memo_entries() == insert_entry(self.memo_entries(), e, id)
            &&& new.class_entries() == self.with_parent_added(self.class_entries(), e, id, e.1).push(
                (id, (seq![e], Seq::<(EnodeV, usize)>::empty())),
            )
        }
    }

    /// Adds an e-node to the e-graph unless an equal e-node (up to
    /// canonical arguments) is already there, and returns the canonical id
    /// of its e-class.  A new e-node gets a new e-class with a new id, and
    /// is recorded as a parent of the e-classes of its arguments.
    pub fn push_eclass(&mut self, enode: &mut Enode) -> (id: Id)
        requires
            old(self).wf(),
            node_ok(old(enode)@, old(self).size()),
        ensures
            final(self).wf(),
            final(enode)@ == old(enode)@,
            final(self).dirty() == old(self).dirty(),
            old(self).lookup_spec(old(enode)@) matches Some(x) ==> {
                &&& id.0 == x
                &&& final(self).size() == old(self).size()
                &&& forall|i: int| #[trigger] final(self).root(i) == old(self).root(i)
                &&& final(self).memo_entries() == old(self).memo_entries()
                &&& final(self).class_entries() == old(self).class_entries()
            },
            old(self).lookup_spec(old(enode)@) is None ==> {
                &&& id.0 == old(self).size()
                &&& final(self).size() == old(self).size() + 1
                &&& forall|i: int|
                    0 <= i < old(self).size() ==> #[trigger] final(self).root(i) == old(self).root(i)
                &&& final(self).root(id.0 as int) == id.0
                &&& final(self).memo_entries() == insert_entry(
                    old(self).memo_entries(),
                    old(enode)@,
                    id.0,
                )
                &&& final(self).class_entries() == old(self).with_parent_added(
                    old(self).class_entries(),
                    old(enode)@,
                    id.0,
                    old(enode)@.1,
                ).push((id.0, (seq![old(enode)@], Seq::<(EnodeV, usize)>::empty())))
            },
            id.0 < final(self).size(),
            final(self).uf().is_root(id.0 as int),
            final(self).size() >= old(self).size(),
            final(self).size() - final(self).class_entries().len() == old(self).size()
                - old(self).class_entries().len(),
            final(self).lookup_spec(old(enode)@) == Some(id.0),
            forall|x: EnodeV|
                node_ok(x, old(self).size()) && #[trigger] old(self).lookup_spec(x) is Some
                    ==> final(self).lookup_spec(x) == old(self).lookup_spec(x),
            old(self).congruent() ==> final(self).congruent(),
            flat_nodes(final(self).class_entries()).len() - final(self).class_entries().len() == flat_nodes(
                old(self).class_entries(),
            ).len() - old(self).class_entries().len(),
            old(self).pushed(&*final(self), old(enode)@, id.0),
            old(self).present_kept(&*final(self)),
            old(self).lookup_spec(old(enode)@) is None ==> final(self).present(old(enode)@),
    {
        let ghost old_g = *self;
        let found = self.lookup(enode);
        if let Some(id) = found {
            let r = self.find_mut(&id);
            proof {
                old_g.uf().lemma_is_root_iff(id.0 as int);
                assert forall|x: EnodeV| #[trigger] self.lookup_spec(x) == old_g.lookup_spec(x) by {
                    Self::lemma_lookup_same(&old_g, self, x);
                }
                if old_g.congruent() {
                    Self::lemma_congruent_kept(&old_g, self);
                }
                Self::lemma_present_grow(&old_g, self);
            }
            return r;
        }
        let ghost e = enode@;
        let id = self.unionfind.new_set();
        let eclass = EClass::new(enode.clone());
        let key = enode.clone();
        node_map_insert(&mut self.memo, key, id);
        let ghost g1 = *self;
        proof {
            assert forall|i: int| 0 <= i < old_g.size() implies #[trigger] self.root(i) == old_g.root(i) by {
            }
            assert(old_g.with_parent_added(old_g.class_entries(), e, id.0, e.1.take(0))
                =~= old_g.class_entries()) by {
                assert forall|i: int| 0 <= i < old_g.class_entries().len() implies #[trigger] old_g.with_parent_added(
                    old_g.class_entries(),
                    e,
                    id.0,
                    e.1.take(0),
                )[i] == old_g.class_entries()[i] by {
                    let c = old_g.class_entries()[i].1;
                    assert(c.1 + Seq::new(0, |_i: int| (e, id.0)) =~= c.1);
                }
            }
        }
        let n_args = enode.args.len();
        let mut k: usize = 0;
        while k < n_args
            invariant
                old_g.wf(),
                n_args == e.1.len(),
                enode@ == e,
                node_ok(e, old_g.size()),
                k <= n_args,
                self.uf() == g1.uf(),
                self.uf().wf(),
                self.size() == old_g.size() + 1,
                forall|i: int| 0 <= i < old_g.size() ==> #[trigger] self.root(i) == old_g.root(i),
                forall|i: int| 0 <= i < old_g.size() ==> #[trigger] g1.root(i) == old_g.root(i),
                self.memo_entries() == g1.memo_entries(),
                self.dirty() == old_g.dirty(),
                self.class_entries() == old_g.with_parent_added(old_g.class_entries(), e, id.0, e.1.take(k as int)),
            decreases n_args - k,
        {
            assert(e.1[k as int] < old_g.size());
            let child = self.find(enode.args[k]);
            proof {
                old_g.uf().lemma_root_is_root(e.1[k as int] as int);
                let r = old_g.root(e.1[k as int] as int);
                assert(old_g.uf().is_root(r));
                assert(has_key(old_g.class_entries(), r as usize));
                let j = choose|j: int| 0 <= j < old_g.class_entries().len() && old_g.class_entries()[j].0 == r as usize;
                assert(self.class_entries()[j].0 == old_g.class_entries()[j].0);
                assert(has_key(self.class_entries(), child.0));
            }
            let idx_opt = class_map_get_index_of(&self.classes, &child);
            let idx = idx_opt.unwrap();
            let ghost before = self.class_entries();
            let parent_entry = (enode.clone(), id);
            let c = class_map_get_index_mut(&mut self.classes, idx);
            c.parents.push(parent_entry);
            proof {
                assert(before[idx as int].0 == old_g.class_entries()[idx as int].0);
                old_g.lemma_parent_added_step(old_g.class_entries(), e, id.0, e.1, k as int, idx as int);
                let b = old_g.with_parent_added(old_g.class_entries(), e, id.0, e.1.take(k as int));
                assert(b == before);
                assert(parents_view(c.parents@) =~= before[idx as int].1.1.push((e, id.0)));
            }
            proof {
                assert forall|i: int| 0 <= i < old_g.size() implies #[trigger] self.root(i) == old_g.root(i) by {
                    assert(g1.root(i) == old_g.root(i));
                }
            }
            k = k + 1;
        }
        proof {
            assert(e.1.take(n_args as int) =~= e.1);
        }
        let ghost before_insert = self.class_entries();
        class_map_insert(&mut self.classes, id, eclass);
        proof {
            self.lemma_push_eclass_wf(&old_g, e, id.0, before_insert);
            if old_g.congruent() {
                Self::lemma_push_congruent(&old_g, self, e, id.0);
            }
            let w = old_g.with_parent_added(old_g.class_entries(), e, id.0, e.1);
            assert forall|i: int| 0 <= i < w.len() implies #[trigger] w[i].1.0 == old_g.class_entries()[i].1.0 by {
            }
            lemma_flat_nodes_same(w, old_g.class_entries());
            assert(self.class_entries().drop_last() =~= w);
            assert(flat_nodes(self.class_entries()) == flat_nodes(w) + seq![e]);
            assert forall|i: int| 0 <= i < old_g.class_entries().len() implies #[trigger] self.class_entries()[i].1.0
                == old_g.class_entries()[i].1.0 by {
                assert(self.class_entries()[i] == w[i]);
            }
            Self::lemma_present_grow(&old_g, self);
            let last = self.class_entries().len() - 1;
            assert(self.class_entries()[last].1.0[0] == e);
            assert(self.class_holds_canon(last, self.canon(e)));
            Self::lemma_lookup_after_push(&old_g, self, e, id.0, e);
            assert forall|x: EnodeV|
                node_ok(x, old_g.size()) && #[trigger] old_g.lookup_spec(x) is Some implies self.lookup_spec(x)
                == old_g.lookup_spec(x) by {
                Self::lemma_lookup_after_push(&old_g, self, e, id.0, x);
            }
        }
        return id;
    }

    /// Adding an e-class for an e-node that `lookup` does not find keeps
    /// the e-graph congruent.
    proof fn lemma_push_congruent(old_g: &Self, new_g: &Self, e: EnodeV, id: usize)
        requires
            old_g.wf(),
            old_g.congruent(),
            old_g.lookup_spec(e) is None,
            node_ok(e, old_g.size()),
            new_g.class_entries() == old_g.with_parent_added(old_g.class_entries(), e, id, e.1).push(
                (id, (seq![e], Seq::<(EnodeV, usize)>::empty())),
            ),
            forall|i: int| 0 <= i < old_g.size() ==> #[trigger] new_g.root(i) == old_g.root(i),
        ensures
            new_g.congruent(),
    {
        reveal(EGraph::congruent);
        let oce = old_g.class_entries();
        let nce = new_g.class_entries();
        let n = oce.len();
        assert forall|x: EnodeV| node_ok(x, old_g.size()) implies #[trigger] new_g.canon(x) == old_g.canon(x) by {
            assert(new_g.canon(x).1 =~= old_g.canon(x).1);
        }
        assert forall|i: int| 0 <= i < n implies #[trigger] nce[i].1.0 == oce[i].1.0 by {
            assert(nce[i] == old_g.with_parent_added(oce, e, id, e.1)[i]);
        }
        assert(nce[n as int].1.0 == seq![e]);
        assert forall|i1: int, j1: int, i2: int, j2: int|
            0 <= i1 < nce.len() && 0 <= j1 < nce[i1].1.0.len() && 0 <= i2 < nce.len() && 0 <= j2 < nce[i2].1.0.len()
                && #[trigger] new_g.canon(nce[i1].1.0[j1]) == #[trigger] new_g.canon(nce[i2].1.0[j2]) implies i1
            == i2 by {
            if i1 < n {
                assert(class_ok(oce[i1].1, old_g.size()));
                assert(node_ok(oce[i1].1.0[j1], old_g.size()));
                assert(new_g.canon(nce[i1].1.0[j1]) == old_g.canon(oce[i1].1.0[j1]));
            }
            if i2 < n {
                assert(class_ok(oce[i2].1, old_g.size()));
                assert(node_ok(oce[i2].1.0[j2], old_g.size()));
                assert(new_g.canon(nce[i2].1.0[j2]) == old_g.canon(oce[i2].1.0[j2]));
            }
            if i1 < n && i2 < n {
                assert(old_g.canon(oce[i1].1.0[j1]) == old_g.canon(oce[i2].1.0[j2]));
            } else if i1 < n && i2 == n {
                assert(nce[i2].1.0[j2] == e);
                assert(new_g.canon(e) == old_g.canon(e));
                assert(old_g.class_holds_canon(i1, old_g.canon(e)));
                assert(old_g.some_class_holds(old_g.canon(e)));
            } else if i2 < n && i1 == n {
                assert(nce[i1].1.0[j1] == e);
                assert(new_g.canon(e) == old_g.canon(e));
                assert(old_g.class_holds_canon(i2, old_g.canon(e)));
                assert(old_g.some_class_holds(old_g.canon(e)));
            }
        }
    }

    /// The canonical form of an e-node whose arguments are canonical is
    /// itself.
    proof fn lemma_canon_idem(&self, e: EnodeV)
        requires
            self.uf().wf(),
            node_ok(e, self.size()),
        ensures
            self.canon(self.canon(e)) == self.canon(e),
            node_ok(self.canon(e), self.size()),
    {
        assert forall|j: int| 0 <= j < e.1.len() implies #[trigger] self.canon(self.canon(e)).1[j] == self.canon(e).1[j]
            && self.canon(e).1[j] < self.size() by {
            assert(e.1[j] < self.size());
            self.uf().lemma_root_is_root(e.1[j] as int);
            let r = self.root(e.1[j] as int);
            assert(self.canon(e).1[j] == r as usize);
            assert(r as usize as int == r);
        }
        assert(self.canon(self.canon(e)).1 =~= self.canon(e).1);
    }

    /// Whether some e-class before the `n`-th holds an e-node with
    /// canonical form `c`, then a first one does.
    proof fn lemma_first_holder(&self, c: EnodeV, n: int)
        requires
            0 <= n <= self.class_entries().len(),
        ensures
            (exists|i: int| 0 <= i < n && #[trigger] self.class_holds_canon(i, c)) ==> exists|i: int|
                0 <= i < n && self.class_holds_canon(i, c) && forall|k: int|
                    0 <= k < i ==> !#[trigger] self.class_holds_canon(k, c),
        decreases n,
    {
        if n > 0 {
            self.lemma_first_holder(c, n - 1);
            if exists|i: int| 0 <= i < n && #[trigger] self.class_holds_canon(i, c) {
                if !exists|i: int| 0 <= i < n - 1 && #[trigger] self.class_holds_canon(i, c) {
                    let i = choose|i: int| 0 <= i < n && #[trigger] self.class_holds_canon(i, c);
                    assert(i == n - 1);
                    assert forall|k: int| 0 <= k < n - 1 implies !#[trigger] self.class_holds_canon(k, c) by {
                    }
                }
            }
        }
    }

    /// The first e-class holding an e-node with canonical form `c` is the
    /// one at `i0` when `i0` holds one and no earlier e-class does.
    proof fn lemma_first_class_at(&self, c: EnodeV, i0: int)
        requires
            0 <= i0 < self.class_entries().len(),
            self.class_holds_canon(i0, c),
            forall|k: int| 0 <= k < i0 ==> !#[trigger] self.class_holds_canon(k, c),
        ensures
            self.some_class_holds(c),
            self.first_class_holding(c) == i0,
    {
        let f = self.first_class_holding(c);
        assert(self.class_holds_canon(f, c) && forall|k: int| 0 <= k < f ==> !#[trigger] self.class_holds_canon(k, c));
        if f < i0 {
            assert(!self.class_holds_canon(f, c));
        }
        if f > i0 {
            assert(!self.class_holds_canon(i0, c));
        }
    }

    /// What lookup finds depends only on the representatives, the memo and
    /// the e-classes.
    proof fn lemma_lookup_same(a: &Self, b: &Self, e: EnodeV)
        requires
            forall|i: int| #[trigger] a.root(i) == b.root(i),
            a.memo_entries() == b.memo_entries(),
            a.class_entries() == b.class_entries(),
        ensures
            b.lookup_spec(e) == a.lookup_spec(e),
    {
        Self::lemma_canon_same(a, b, e);
        let c = a.canon(e);
        assert forall|i: int| #[trigger] b.class_holds_canon(i, c) == a.class_holds_canon(i, c) by {
            let ns = a.class_entries()[i].1.0;
            if a.class_holds_canon(i, c) {
                let j = choose|j: int| 0 <= j < ns.len() && #[trigger] a.canon(ns[j]) == c;
                Self::lemma_canon_same(a, b, ns[j]);
                assert(b.canon(b.class_entries()[i].1.0[j]) == c);
            }
            if b.class_holds_canon(i, c) {
                let j = choose|j: int| 0 <= j < ns.len() && #[trigger] b.canon(ns[j]) == c;
                Self::lemma_canon_same(a, b, ns[j]);
                assert(a.canon(a.class_entries()[i].1.0[j]) == c);
            }
        }
        if a.some_class_holds(c) {
            a.lemma_first_holder(c, a.class_entries().len() as int);
            let i0 = choose|i: int|
                0 <= i < a.class_entries().len() && a.class_holds_canon(i, c) && forall|k: int|
                    0 <= k < i ==> !#[trigger] a.class_holds_canon(k, c);
            a.lemma_first_class_at(c, i0);
            b.lemma_first_class_at(c, i0);
        }
    }

    /// The canonical form of an e-node over old ids is the same in an
    /// e-graph that keeps the representatives of the old ids.
    proof fn lemma_canon_kept(old_g: &Self, new_g: &Self, n: EnodeV)
        requires
            node_ok(n, old_g.size()),
            forall|i: int| 0 <= i < old_g.size() ==> #[trigger] new_g.root(i) == old_g.root(i),
        ensures
            new_g.canon(n) == old_g.canon(n),
    {
        assert forall|q: int| 0 <= q < n.1.len() implies #[trigger] new_g.root(n.1[q] as int) == old_g.root(
            n.1[q] as int,
        ) by {
            assert(n.1[q] < old_g.size());
        }
        assert(new_g.canon(n).1 =~= old_g.canon(n).1);
    }

    /// The first e-class holding canonical form `c` stays the first when
    /// e-classes keep their e-nodes and keys, the representatives of old
    /// ids are kept, and an e-class not holding `c` is appended.
    proof fn lemma_class_search_kept(old_g: &Self, new_g: &Self, c: EnodeV)
        requires
            old_g.classes_ok(),
            old_g.some_class_holds(c),
            forall|i: int| 0 <= i < old_g.size() ==> #[trigger] new_g.root(i) == old_g.root(i),
            new_g.class_entries().len() == old_g.class_entries().len() + 1,
            forall|i: int|
                0 <= i < old_g.class_entries().len() ==> (#[trigger] new_g.class_entries()[i]).0
                    == old_g.class_entries()[i].0 && new_g.class_entries()[i].1.0 == old_g.class_entries()[i].1.0,
            !new_g.class_holds_canon(old_g.class_entries().len() as int, c),
        ensures
            new_g.some_class_holds(c),
            new_g.class_entries()[new_g.first_class_holding(c)].0 == old_g.class_entries()[old_g.first_class_holding(
                c,
            )].0,
    {
        let oe = old_g.class_entries();
        let ne = new_g.class_entries();
        assert forall|i: int| 0 <= i < oe.len() implies #[trigger] new_g.class_holds_canon(i, c)
            == old_g.class_holds_canon(i, c) by {
            let ns = oe[i].1.0;
            assert(ne[i].1.0 == ns);
            assert(oe[i].0 < old_g.size());
            assert(class_ok(oe[i].1, old_g.size()));
            if old_g.class_holds_canon(i, c) {
                let j = choose|j: int| 0 <= j < ns.len() && #[trigger] old_g.canon(ns[j]) == c;
                Self::lemma_canon_kept(old_g, new_g, ns[j]);
                assert(new_g.canon(new_g.class_entries()[i].1.0[j]) == c);
            }
            if new_g.class_holds_canon(i, c) {
                let j = choose|j: int| 0 <= j < ns.len() && #[trigger] new_g.canon(new_g.class_entries()[i].1.0[j]) == c;
                Self::lemma_canon_kept(old_g, new_g, ns[j]);
                assert(old_g.canon(ns[j]) == c);
            }
        }
        old_g.lemma_first_holder(c, oe.len() as int);
        let i0 = choose|i: int|
            0 <= i < oe.len() && old_g.class_holds_canon(i, c) && forall|k: int|
                0 <= k < i ==> !#[trigger] old_g.class_holds_canon(k, c);
        old_g.lemma_first_class_at(c, i0);
        assert forall|k: int| 0 <= k < i0 implies !#[trigger] new_g.class_holds_canon(k, c) by {
            assert(!old_g.class_holds_canon(k, c));
        }
        new_g.lemma_first_class_at(c, i0);
    }

    /// After an e-node that lookup does not find is pushed as a new
    /// e-class, lookup finds it there, and finds every e-node over the old
    /// ids that it found before where it found it before.
    proof fn lemma_lookup_after_push(old_g: &Self, new_g: &Self, e2: EnodeV, id: usize, e: EnodeV)
        requires
            old_g.wf(),
            new_g.uf().wf(),
            node_ok(e2, old_g.size()),
            old_g.lookup_spec(e2) is None,
            id == old_g.size(),
            new_g.size() == old_g.size() + 1,
            forall|i: int| 0 <= i < old_g.size() ==> #[trigger] new_g.root(i) == old_g.root(i),
            new_g.root(id as int) == id,
            new_g.memo_entries() == insert_entry(old_g.memo_entries(), e2, id),
            new_g.class_entries() == old_g.with_parent_added(old_g.class_entries(), e2, id, e2.1).push(
                (id, (seq![e2], Seq::<(EnodeV, usize)>::empty())),
            ),
            e == e2 || (node_ok(e, old_g.size()) && old_g.lookup_spec(e) is Some),
        ensures
            e == e2 ==> new_g.lookup_spec(e) == Some(id),
            e != e2 ==> new_g.lookup_spec(e) == old_g.lookup_spec(e),
    {
        let om = old_g.memo_entries();
        lemma_get_after_insert(om, e2, id, e);
        if e == e2 {
            return;
        }
        old_g.lemma_canon_idem(e);
        old_g.lemma_canon_idem(e2);
        let c = old_g.canon(e);
        lemma_get_after_insert(om, e2, id, c);
        Self::lemma_canon_kept(old_g, new_g, e);
        lemma_key_index(om, e);
        if get_value(om, e) is Some {
            assert(om[key_index(om, e)].1 < old_g.size());
            return;
        }
        lemma_key_index(om, c);
        if get_value(om, c) is Some {
            assert(c != e2);
            assert(om[key_index(om, c)].1 < old_g.size());
            return;
        }
        assert(old_g.some_class_holds(c));
        assert(c != e2);
        let oe = old_g.class_entries();
        let ne = new_g.class_entries();
        assert(!new_g.class_holds_canon(oe.len() as int, c)) by {
            if new_g.class_holds_canon(oe.len() as int, c) {
                assert(ne[oe.len() as int].1.0 == seq![e2]);
                assert(new_g.canon(e2) == c);
                Self::lemma_canon_kept(old_g, new_g, e2);
                assert(old_g.canon(e2) == c);
                assert(old_g.lookup_spec(e2) is Some);
            }
        }
        assert forall|i: int| 0 <= i < oe.len() implies (#[trigger] ne[i]).0 == oe[i].0 && ne[i].1.0 == oe[i].1.0 by {
        }
        Self::lemma_class_search_kept(old_g, new_g, c);
    }

    proof fn lemma_push_eclass_wf(&self, old_g: &Self, e: EnodeV, id: usize, before: Seq<(usize, EClassV)>)
        requires
            old_g.wf(),
            node_ok(e, old_g.size()),
            id == old_g.size(),
            self.uf().wf(),
            self.size() == old_g.size() + 1,
            forall|i: int| 0 <= i < old_g.size() ==> #[trigger] self.root(i) == old_g.root(i),
            self.uf().is_root(id as int),
            self.memo_entries() == insert_entry(old_g.memo_entries(), e, id),
            before == old_g.with_parent_added(old_g.class_entries(), e, id, e.1),
            self.class_entries() == insert_entry(before, id, (seq![e], Seq::<(EnodeV, usize)>::empty())),
        ensures
            self.wf(),
            self.class_entries() == before.push((id, (seq![e], Seq::<(EnodeV, usize)>::empty()))),
    {
        let sz = self.size();
        let old_sz = old_g.size();
        let new_class: EClassV = (seq![e], Seq::<(EnodeV, usize)>::empty());
        // memo
        let pred = |p: (EnodeV, usize)| p.1 < sz && node_ok(p.0, sz);
        assert forall|i: int| 0 <= i < old_g.memo_entries().len() implies #[trigger] pred(
            old_g.memo_entries()[i],
        ) by {
            assert(old_g.memo_entries()[i].1 < old_sz);
        }
        lemma_entries_keep(old_g.memo_entries(), e, id, pred);
        lemma_distinct_kept(old_g.memo_entries(), e, id);
        assert forall|i: int| 0 <= i < self.memo_entries().len() implies #[trigger] self.memo_entries()[i].1
            < self.size() && node_ok(self.memo_entries()[i].0, self.size()) by {
            assert(pred(self.memo_entries()[i]));
        }
        // classes: keys are unchanged and below the new id
        assert(before.len() == old_g.class_entries().len());
        assert forall|i: int| 0 <= i < before.len() implies #[trigger] before[i].0 == old_g.class_entries()[i].0 by {
        }
        assert forall|i: int| 0 <= i < before.len() implies #[trigger] before[i].0 < id by {
            assert(old_g.class_entries()[i].0 < old_sz);
        }
        assert(!has_key(before, id));
        assert(self.class_entries() == before.push((id, new_class)));
        assert forall|r: int| 0 <= r < old_sz implies #[trigger] self.uf().is_root(r) == old_g.uf().is_root(r) by {
            assert(self.root(r) == old_g.root(r));
            self.uf().lemma_is_root_iff(r);
            old_g.uf().lemma_is_root_iff(r);
        }
        let ce = self.class_entries();
        assert forall|i: int, j: int| 0 <= i < ce.len() && 0 <= j < ce.len() && i != j implies ce[i].0 != ce[j].0 by {
            if i < before.len() && j < before.len() {
                assert(old_g.class_entries()[i].0 != old_g.class_entries()[j].0);
            }
        }
        assert forall|i: int| 0 <= i < ce.len() implies #[trigger] ce[i].0 < self.size() && self.uf().is_root(
            ce[i].0 as int,
        ) && class_ok(ce[i].1, self.size()) by {
            if i < before.len() {
                let oc = old_g.class_entries()[i];
                assert(oc.0 < old_sz);
                assert(old_g.uf().is_root(oc.0 as int));
                assert(class_ok(oc.1, old_sz));
                let c = ce[i].1;
                let extra = Seq::new(old_g.count_children(e.1, oc.0), |_i: int| (e, id));
                assert(c == (oc.1.0, oc.1.1 + extra));
                assert forall|j: int| 0 <= j < c.0.len() implies node_ok(#[trigger] c.0[j], sz) by {
                    assert(node_ok(oc.1.0[j], old_sz));
                }
                assert forall|j: int| 0 <= j < c.1.len() implies node_ok(#[trigger] c.1[j].0, sz) && c.1[j].1 < sz by {
                    if j < oc.1.1.len() {
                        assert(node_ok(oc.1.1[j].0, old_sz));
                    } else {
                        assert(c.1[j] == extra[j - oc.1.1.len()]);
                    }
                }
            } else {
                assert(ce[i] == (id, new_class));
                assert forall|j: int| 0 <= j < new_class.0.len() implies node_ok(#[trigger] new_class.0[j], sz) by {
                }
            }
        }
        assert forall|r: int| 0 <= r < self.size() && #[trigger] self.uf().is_root(r) implies has_key(
            ce,
            r as usize,
        ) by {
            if r < old_sz {
                assert(old_g.uf().is_root(r));
                assert(has_key(old_g.class_entries(), r as usize));
                let j = choose|j: int| 0 <= j < old_g.class_entries().len() && old_g.class_entries()[j].0 == r as usize;
                assert(ce[j].0 == r as usize);
            } else {
                assert(ce[before.len() as int].0 == r as usize);
            }
        }
    }

    /// One memo update of `canonicalize_and_update_in_memo`, with the
    /// representatives of this e-graph.
    pub open spec fn memo_step(&self, memo: Seq<(EnodeV, usize)>, e: EnodeV) -> Seq<(EnodeV, usize)> {
        match get_value(memo, e) {
            Some(id) => insert_entry(swap_remove_entry(memo, e), self.canon(e), self.root(id as int) as usize),
            None => memo,
        }
    }

    /// The memo updates for the e-nodes `nodes`, in order.
    pub open spec fn memo_fold(&self, memo: Seq<(EnodeV, usize)>, nodes: Seq<EnodeV>) -> Seq<(EnodeV, usize)>
        decreases nodes.len(),
    {
        if nodes.len() == 0 {
            memo
        } else {
            self.memo_step(self.memo_fold(memo, nodes.drop_last()), nodes.last())
        }
    }

    /// The canonical forms of `nodes`.
    pub open spec fn canon_all(&self, nodes: Seq<EnodeV>) -> Seq<EnodeV> {
        nodes.map_values(|n: EnodeV| self.canon(n))
    }

    /// The e-class that `union` stores under the surviving id: the e-nodes of
    /// both classes, made canonical with the representatives of this
    /// e-graph, without repeats; then the parents of both.
    pub open spec fn merged_class(&self, to: EClassV, from: EClassV) -> EClassV {
        (
            set_extend(Seq::empty(), self.canon_all(set_extend(to.0, from.0))),
            to.1 + from.1,
        )
    }

    proof fn lemma_memo_step_same(a: &Self, b: &Self, memo: Seq<(EnodeV, usize)>, e: EnodeV)
        requires
            forall|i: int| #[trigger] a.root(i) == b.root(i),
        ensures
            a.memo_step(memo, e) == b.memo_step(memo, e),
    {
        Self::lemma_canon_same(a, b, e);
    }

    /// Merges the e-classes `id1` and `id2` (which must be e-class ids;
    /// they are not canonicalized here).  Returns `None`, leaving the
    /// e-graph as it was, when the two ids are equal or already in one
    /// e-class; otherwise `id1` becomes the representative of both, the
    /// e-class of `id1` takes the e-nodes (re-canonicalized, also in the
    /// memo) and parents of both, and the e-class of `id2` is removed.
    pub fn union(&mut self, id1: Id, id2: Id) -> (r: Option<Id>)
        requires
            old(self).wf(),
            id1 == id2 || (id1.0 < old(self).size() && id2.0 < old(self).size() && (old(self).root(
                id1.0 as int,
            ) == old(self).root(id2.0 as int) || (old(self).is_class(id1.0 as int) && old(
                self,
            ).is_class(id2.0 as int)))),
        ensures
            final(self).wf(),
            final(self).size() == old(self).size(),
            old(self).present_kept(&*final(self)),
            old(self).settled() ==> final(self).settled(),
            id1 == id2 || old(self).root(id1.0 as int) == old(self).root(id2.0 as int) ==> r is None
                && *final(self) == *old(self),
            id1 != id2 && old(self).is_class(id1.0 as int) && old(self).is_class(id2.0 as int) ==> {
                &&& r == Some(id1)
                &&& forall|i: int|
                    0 <= i < old(self).size() ==> #[trigger] final(self).root(i) == if old(self).root(i)
                        == id2.0 as int {
                        id1.0 as int
                    } else {
                        old(self).root(i)
                    }
                &&& final(self).dirty() == old(self).dirty().push(id1.0)
                &&& final(self).memo_entries() == final(self).memo_fold(
                    old(self).memo_entries(),
                    set_extend(
                        get_value(old(self).class_entries(), id1.0).unwrap().0,
                        get_value(old(self).class_entries(), id2.0).unwrap().0,
                    ),
                )
                &&& final(self).class_entries() == swap_remove_entry(
                    insert_entry(
                        old(self).class_entries(),
                        id1.0,
                        final(self).merged_class(
                            get_value(old(self).class_entries(), id1.0).unwrap(),
                            get_value(old(self).class_entries(), id2.0).unwrap(),
                        ),
                    ),
                    id2.0,
                )
                &&& final(self).class_entries().len() == old(self).class_entries().len() - 1
            },
    {
        if id1 == id2 {
            proof {
                reveal(EGraph::present_kept);
            }
            return None;
        }
        let root1 = self.find(id1);
        let root2 = self.find(id2);
        if root1 == root2 {
            proof {
                reveal(EGraph::present_kept);
                if self.is_class(id1.0 as int) && self.is_class(id2.0 as int) {
                    lemma_key_index(self.class_entries(), id1.0);
                    lemma_key_index(self.class_entries(), id2.0);
                    self.uf().lemma_is_root_iff(id1.0 as int);
                    self.uf().lemma_is_root_iff(id2.0 as int);
                }
            }
            return None;
        }
        let ghost old_g = *self;
        proof {
            lemma_key_index(old_g.class_entries(), id1.0);
            lemma_key_index(old_g.class_entries(), id2.0);
            let i1 = key_index(old_g.class_entries(), id1.0);
            let i2 = key_index(old_g.class_entries(), id2.0);
            assert(old_g.class_entries()[i1].0 < old_g.size());
            assert(old_g.class_entries()[i2].0 < old_g.size());
            assert(old_g.uf().is_root(id1.0 as int));
            assert(old_g.uf().is_root(id2.0 as int));
            old_g.uf().lemma_is_root_iff(id1.0 as int);
            old_g.uf().lemma_is_root_iff(id2.0 as int);
        }
        let id3 = self.unionfind.union(id1, id2);
        self.dirty_unions.push(id3);
        let to_id = id1;
        let from_id = id2;
        let from = class_map_get(&self.classes, &id2).unwrap().clone();
        let mut to = class_map_get(&self.classes, &id1).unwrap().clone();
        let ghost g_u = *self;
        let ghost to0 = to@;
        let ghost from0 = from@;
        // move the e-nodes of `from` into `to`
        let n_from = node_set_len(&from.nodes);
        let mut j: usize = 0;
        while j < n_from
            invariant
                n_from == from@.0.len(),
                j <= n_from,
                from@ == from0,
                to@.1 == to0.1,
                to@.0 == set_extend(to0.0, from0.0.take(j as int)),
            decreases n_from - j,
        {
            let t = node_set_get_index(&from.nodes, j).clone();
            let ghost before = to@.0;
            node_set_insert(&mut to.nodes, t);
            proof {
                assert(from0.0.take(j + 1).drop_last() =~= from0.0.take(j as int));
            }
            j = j + 1;
        }
        proof {
            assert(from0.0.take(n_from as int) =~= from0.0);
        }
        let mut from_parents = from.parents;
        to.parents.append(&mut from_parents);
        assert(parents_view(to.parents@) =~= to0.1 + from0.1);
        let nodes_temp = node_set_clone(&to.nodes);
        let ghost all_nodes = node_set_items(nodes_temp);
        to.nodes = node_set_new();
        proof {
            assert forall|i: int| 0 <= i < old_g.size() implies #[trigger] g_u.root(i) == if old_g.root(i)
                == id2.0 as int {
                id1.0 as int
            } else {
                old_g.root(i)
            } by {
            }
            Self::lemma_set_extend_ok(to0.0, from0.0, g_u.size());
            assert(g_u.uf().wf());
            assert(g_u.memo_entries() == old_g.memo_entries());
            assert(g_u.size() == old_g.size());
            assert(g_u.ids_ok());
            assert(g_u.memo_fold(old_g.memo_entries(), all_nodes.take(0)) == old_g.memo_entries());
            assert(set_extend(Seq::empty(), g_u.canon_all(all_nodes.take(0))) =~= node_set_items(to.nodes));
        }
        // re-canonicalize every e-node, in the memo and in `to`
        let n_all = node_set_len(&nodes_temp);
        let mut k: usize = 0;
        while k < n_all
            invariant
                n_all == all_nodes.len(),
                node_set_items(nodes_temp) == all_nodes,
                k <= n_all,
                forall|j: int| 0 <= j < all_nodes.len() ==> node_ok(#[trigger] all_nodes[j], g_u.size()),
                self.ids_ok(),
                g_u.uf().wf(),
                self.size() == g_u.size(),
                forall|i: int| #[trigger] self.root(i) == g_u.root(i),
                self.class_entries() == g_u.class_entries(),
                self.dirty() == g_u.dirty(),
                self.memo_entries() == g_u.memo_fold(old_g.memo_entries(), all_nodes.take(k as int)),
                to@.1 == to0.1 + from0.1,
                to@.0 == set_extend(Seq::empty(), g_u.canon_all(all_nodes.take(k as int))),
            decreases n_all - k,
        {
            let t = node_set_get_index(&nodes_temp, k);
            let ghost g_before = *self;
            let n = self.canonicalize_and_update_in_memo(t);
            proof {
                Self::lemma_canon_same(&g_before, &g_u, all_nodes[k as int]);
                Self::lemma_memo_step_same(&g_before, &g_u, g_before.memo_entries(), all_nodes[k as int]);
                assert(all_nodes.take(k + 1).drop_last() =~= all_nodes.take(k as int));
                assert(g_u.canon_all(all_nodes.take(k + 1)).drop_last() =~= g_u.canon_all(all_nodes.take(k as int)));
                assert forall|i: int| #[trigger] self.root(i) == g_u.root(i) by {
                    assert(self.root(i) == g_before.root(i));
                }
            }
            node_set_insert(&mut to.nodes, n.clone());
            k = k + 1;
        }
        proof {
            assert(all_nodes.take(n_all as int) =~= all_nodes);
        }
        let ghost g_m = *self;
        proof {
            assert(all_nodes == set_extend(to0.0, from0.0));
            Self::lemma_merged_same(&g_m, &g_u, to0, from0);
            assert(to@ == g_u.merged_class(to0, from0));
            assert(g_u.class_entries() == old_g.class_entries());
        }
        class_map_insert(&mut self.classes, to_id, to);
        class_map_swap_remove(&mut self.classes, &from_id);
        proof {
            self.lemma_union_wf(&old_g, &g_m, id1.0, id2.0, to0, from0);
            assert(self.uf() == g_m.uf());
            assert forall|i: int| #[trigger] self.root(i) == g_u.root(i) by {
                assert(self.root(i) == g_m.root(i));
            }
            Self::lemma_memo_fold_same(self, &g_u, old_g.memo_entries(), all_nodes);
            Self::lemma_merged_same(self, &g_m, to0, from0);
            assert(self.dirty() =~= old_g.dirty().push(id1.0));
        }
        proof {
            Self::lemma_present_union(&old_g, self, id1.0, id2.0);
        }
        return Some(id3);
    }

    proof fn lemma_set_extend_ok(items: Seq<EnodeV>, more: Seq<EnodeV>, n: nat)
        requires
            forall|j: int| 0 <= j < items.len() ==> node_ok(#[trigger] items[j], n),
            forall|j: int| 0 <= j < more.len() ==> node_ok(#[trigger] more[j], n),
        ensures
            forall|j: int| 0 <= j < set_extend(items, more).len() ==> node_ok(#[trigger] set_extend(items, more)[j], n),
        decreases more.len(),
    {
        if more.len() > 0 {
            let m2 = more.drop_last();
            assert forall|j: int| 0 <= j < m2.len() implies node_ok(#[trigger] m2[j], n) by {
                assert(m2[j] == more[j]);
            }
            Self::lemma_set_extend_ok(items, m2, n);
            let s = set_extend(items, m2);
            assert(node_ok(more[more.len() - 1], n));
            if !s.contains(more.last()) {
                let s2 = s.push(more.last());
                assert forall|j: int| 0 <= j < s2.len() implies node_ok(#[trigger] s2[j], n) by {
                    if j < s.len() {
                        assert(s2[j] == s[j]);
                    }
                }
            }
        }
    }

    proof fn lemma_memo_fold_same(a: &Self, b: &Self, memo: Seq<(EnodeV, usize)>, nodes: Seq<EnodeV>)
        requires
            forall|i: int| #[trigger] a.root(i) == b.root(i),
        ensures
            a.memo_fold(memo, nodes) == b.memo_fold(memo, nodes),
        decreases nodes.len(),
    {
        if nodes.len() > 0 {
            Self::lemma_memo_fold_same(a, b, memo, nodes.drop_last());
            Self::lemma_memo_step_same(a, b, a.memo_fold(memo, nodes.drop_last()), nodes.last());
        }
    }

    proof fn lemma_merged_same(a: &Self, b: &Self, to: EClassV, from: EClassV)
        requires
            forall|i: int| #[trigger] a.root(i) == b.root(i),
        ensures
            a.merged_class(to, from) == b.merged_class(to, from),
    {
        let ns = set_extend(to.0, from.0);
        assert forall|j: int| 0 <= j < ns.len() implies #[trigger] a.canon_all(ns)[j] == b.canon_all(ns)[j] by {
            Self::lemma_canon_same(a, b, ns[j]);
        }
        assert(a.canon_all(ns) =~= b.canon_all(ns));
    }

    proof fn lemma_union_wf(
        &self,
        old_g: &Self,
        g_m: &Self,
        id1: usize,
        id2: usize,
        to0: EClassV,
        from0: EClassV,
    )
        requires
            old_g.wf(),
            id1 != id2,
            old_g.is_class(id1 as int),
            old_g.is_class(id2 as int),
            get_value(old_g.class_entries(), id1) == Some(to0),
            get_value(old_g.class_entries(), id2) == Some(from0),
            g_m.ids_ok(),
            g_m.size() == old_g.size(),
            forall|i: int|
                0 <= i < old_g.size() ==> #[trigger] g_m.root(i) == if old_g.root(i) == id2 as int {
                    id1 as int
                } else {
                    old_g.root(i)
                },
            g_m.class_entries() == old_g.class_entries(),
            self.uf() == g_m.uf(),
            self.memo_entries() == g_m.memo_entries(),
            self.class_entries() == swap_remove_entry(
                insert_entry(old_g.class_entries(), id1, g_m.merged_class(to0, from0)),
                id2,
            ),
        ensures
            self.wf(),
            self.class_entries().len() == old_g.class_entries().len() - 1,
    {
        let sz = self.size();
        let oe = old_g.class_entries();
        let merged = g_m.merged_class(to0, from0);
        lemma_key_index(oe, id1);
        lemma_key_index(oe, id2);
        let i1 = key_index(oe, id1);
        let i2 = key_index(oe, id2);
        assert(oe[i1].0 < sz && old_g.uf().is_root(id1 as int) && class_ok(to0, sz));
        assert(oe[i2].0 < sz && old_g.uf().is_root(id2 as int) && class_ok(from0, sz));
        old_g.uf().lemma_is_root_iff(id1 as int);
        old_g.uf().lemma_is_root_iff(id2 as int);
        // the merged class is valid
        Self::lemma_set_extend_ok(to0.0, from0.0, sz);
        let ns = g_m.canon_all(set_extend(to0.0, from0.0));
        assert forall|j: int| 0 <= j < ns.len() implies node_ok(#[trigger] ns[j], sz) by {
            let x = set_extend(to0.0, from0.0)[j];
            assert(node_ok(x, sz));
            assert forall|q: int| 0 <= q < ns[j].1.len() implies #[trigger] ns[j].1[q] < sz by {
                assert(x.1[q] < sz);
                g_m.uf().lemma_root_is_root(x.1[q] as int);
            }
        }
        Self::lemma_set_extend_ok(Seq::empty(), ns, sz);
        assert forall|j: int| 0 <= j < merged.1.len() implies node_ok(#[trigger] merged.1[j].0, sz)
            && merged.1[j].1 < sz by {
            if j < to0.1.len() {
                assert(merged.1[j] == to0.1[j]);
                lemma_class_parent_ok(to0, sz, j);
            } else {
                assert(merged.1[j] == from0.1[j - to0.1.len()]);
                lemma_class_parent_ok(from0, sz, j - to0.1.len());
            }
        }
        assert(class_ok(merged, sz));
        // which ids are roots now
        assert forall|r: int| 0 <= r < sz implies #[trigger] self.uf().is_root(r) == (old_g.uf().is_root(r)
            && r != id2) by {
            self.uf().lemma_is_root_iff(r);
            old_g.uf().lemma_is_root_iff(r);
            assert(self.root(r) == g_m.root(r));
            old_g.uf().lemma_root_is_root(r);
        }
        // keys
        let e1 = insert_entry(oe, id1, merged);
        lemma_distinct_kept(oe, id1, merged);
        lemma_distinct_kept(e1, id2, merged);
        assert(has_key(oe, id1));
        assert(has_key(e1, id2)) by {
            lemma_keys_after(oe, id1, merged, id2);
        }
        let p_new = |p: (usize, EClassV)| p.0 < sz && (self.uf().is_root(p.0 as int) || p.0 == id2) && (p.0 == id2 || class_ok(p.1, sz));
        assert forall|i: int| 0 <= i < oe.len() implies #[trigger] p_new(oe[i]) by {
            assert(oe[i].0 < sz);
            assert(old_g.uf().is_root(oe[i].0 as int));
        }
        assert(p_new((id1, merged)));
        lemma_entries_keep(oe, id1, merged, p_new);
        lemma_entries_keep(e1, id2, merged, p_new);
        lemma_keys_after(e1, id2, merged, id2);
        let ce = self.class_entries();
        assert forall|i: int| 0 <= i < ce.len() implies #[trigger] ce[i].0 < self.size() && self.uf().is_root(
            ce[i].0 as int,
        ) && class_ok(ce[i].1, self.size()) by {
            assert(p_new(ce[i]));
            assert(ce[i].0 != id2);
        }
        assert forall|r: int| 0 <= r < self.size() && #[trigger] self.uf().is_root(r) implies has_key(
            ce,
            r as usize,
        ) by {
            assert(old_g.uf().is_root(r));
            assert(has_key(oe, r as usize));
            lemma_keys_after(oe, id1, merged, r as usize);
            lemma_keys_after(e1, id2, merged, r as usize);
        }
    }

    /// After merging two e-classes (as `union` leaves the representatives),
    /// both ids have the first as their representative.
    pub proof fn lemma_union_same_class(old_g: &Self, new_g: &Self, id1: usize, id2: usize)
        requires
            old_g.wf(),
            old_g.is_class(id1 as int),
            old_g.is_class(id2 as int),
            forall|i: int|
                0 <= i < old_g.size() ==> #[trigger] new_g.root(i) == if old_g.root(i) == id2 as int {
                    id1 as int
                } else {
                    old_g.root(i)
                },
        ensures
            new_g.root(id1 as int) == id1,
            new_g.root(id2 as int) == id1,
    {
        lemma_key_index(old_g.class_entries(), id1);
        lemma_key_index(old_g.class_entries(), id2);
        let k1 = key_index(old_g.class_entries(), id1);
        let k2 = key_index(old_g.class_entries(), id2);
        assert(old_g.class_entries()[k1].0 < old_g.size());
        assert(old_g.class_entries()[k2].0 < old_g.size());
        assert(old_g.uf().is_root(id1 as int));
        assert(old_g.uf().is_root(id2 as int));
        old_g.uf().lemma_is_root_iff(id1 as int);
        old_g.uf().lemma_is_root_iff(id2 as int);
    }

    /// Every e-class holds at least one e-node, so a well-formed e-graph
    /// has at least as many e-nodes as e-classes.
    pub proof fn lemma_enodes_cover_classes(g: &Self)
        requires
            g.wf(),
        ensures
            flat_nodes(g.class_entries()).len() >= g.class_entries().len(),
            forall|i: int| 0 <= i < g.class_entries().len() ==> #[trigger] g.class_entries()[i].1.0.len() > 0,
    {
        lemma_flat_nodes_len(g.class_entries());
    }

    /// The e-classes are the sets of the union-find: there is one e-class
    /// per representative.
    pub proof fn lemma_one_class_per_root(g: &Self)
        requires
            g.wf(),
        ensures
            entry_keys(g.class_entries()).to_set() == Set::new(|r: usize| r < g.size() && g.uf().is_root(r as int)),
            g.class_entries().len() == Set::new(|r: usize| r < g.size() && g.uf().is_root(r as int)).len(),
    {
        let ce = g.class_entries();
        let ks = entry_keys(ce);
        let roots = Set::new(|r: usize| r < g.size() && g.uf().is_root(r as int));
        assert(ks.no_duplicates()) by {
            assert forall|i: int, j: int| 0 <= i < ks.len() && 0 <= j < ks.len() && i != j implies ks[i] != ks[j] by {
                assert(ks[i] == ce[i].0);
                assert(ks[j] == ce[j].0);
            }
        }
        ks.unique_seq_to_set();
        assert forall|r: usize| ks.to_set().contains(r) <==> #[trigger] roots.contains(r) by {
            if ks.to_set().contains(r) {
                let i = choose|i: int| 0 <= i < ks.len() && ks[i] == r;
                assert(ce[i].0 == r);
                assert(ce[i].0 < g.size() && g.uf().is_root(ce[i].0 as int));
            }
            if roots.contains(r) {
                assert(has_key(ce, r));
                let i = choose|i: int| 0 <= i < ce.len() && ce[i].0 == r;
                assert(ks[i] == r);
            }
        }
        assert(ks.to_set() =~= roots);
    }

    /// Whether some e-class holds an e-node with the canonical form of `e`
    /// (then `lookup` finds `e`).
    pub open spec fn present(&self, e: EnodeV) -> bool {
        self.some_class_holds(self.canon(e))
    }

    /// Every e-node over the ids of `self` present in `self` is present in
    /// `new`.
    #[verifier::opaque]
    pub open spec fn present_kept(&self, new: &Self) -> bool {
        forall|e: EnodeV| node_ok(e, self.size()) && #[trigger] self.present(e) ==> new.present(e)
    }

    /// A present e-node is found by `lookup`.
    pub proof fn lemma_present_found(&self, e: EnodeV)
        requires
            self.present(e),
        ensures
            self.lookup_spec(e) is Some,
    {
    }

    /// An e-node present in `g1` (as `push_eclass` leaves a new one), over
    /// the ids of `g1`, is found by `lookup` in every later e-graph `g2`
    /// that keeps present e-nodes present.
    pub proof fn lemma_stays_findable(g1: &Self, g2: &Self, e: EnodeV)
        requires
            node_ok(e, g1.size()),
            g1.present(e),
            g1.present_kept(g2),
        ensures
            g2.present(e),
            g2.lookup_spec(e) is Some,
    {
        reveal(EGraph::present_kept);
        g2.lemma_present_found(e);
    }

    proof fn lemma_set_extend_contains(items: Seq<EnodeV>, more: Seq<EnodeV>, x: EnodeV)
        requires
            items.contains(x) || more.contains(x),
        ensures
            set_extend(items, more).contains(x),
        decreases more.len(),
    {
        if more.len() > 0 {
            let m2 = more.drop_last();
            if items.contains(x) || m2.contains(x) {
                Self::lemma_set_extend_contains(items, m2, x);
                let s2 = set_extend(items, m2);
                let k = choose|k: int| 0 <= k < s2.len() && s2[k] == x;
                if !s2.contains(more.last()) {
                    assert(s2.push(more.last())[k] == x);
                }
            } else {
                let k = choose|k: int| 0 <= k < more.len() && more[k] == x;
                if k < more.len() - 1 {
                    assert(m2[k] == x);
                }
                assert(x == more.last());
                let s2 = set_extend(items, m2);
                if !s2.contains(more.last()) {
                    assert(s2.push(more.last())[s2.len() as int] == x);
                }
            }
        }
    }

    /// Merging two e-classes (as `union` does) keeps every present e-node
    /// present.
    proof fn lemma_present_union(a: &Self, b: &Self, id1: usize, id2: usize)
        requires
            a.wf(),
            b.wf(),
            id1 != id2,
            a.is_class(id1 as int),
            a.is_class(id2 as int),
            b.size() == a.size(),
            forall|i: int|
                0 <= i < a.size() ==> #[trigger] b.root(i) == if a.root(i) == id2 as int {
                    id1 as int
                } else {
                    a.root(i)
                },
            b.class_entries() == swap_remove_entry(
                insert_entry(
                    a.class_entries(),
                    id1,
                    b.merged_class(
                        get_value(a.class_entries(), id1).unwrap(),
                        get_value(a.class_entries(), id2).unwrap(),
                    ),
                ),
                id2,
            ),
        ensures
            a.present_kept(b),
    {
        reveal(EGraph::present_kept);
        let ace = a.class_entries();
        let bce = b.class_entries();
        let to = get_value(ace, id1).unwrap();
        let from = get_value(ace, id2).unwrap();
        let merged = b.merged_class(to, from);
        let ins = insert_entry(ace, id1, merged);
        lemma_distinct_kept(ace, id1, merged);
        assert forall|x: EnodeV| node_ok(x, a.size()) implies #[trigger] b.canon(a.canon(x)) == b.canon(x) by {
            assert forall|t: int| 0 <= t < x.1.len() implies #[trigger] b.canon(a.canon(x)).1[t] == b.canon(x).1[t] by {
                assert(x.1[t] < a.size());
                a.uf().lemma_root_is_root(x.1[t] as int);
                let r = a.root(x.1[t] as int);
                assert(a.root(r) == r);
            }
            assert(b.canon(a.canon(x)).1 =~= b.canon(x).1);
        }
        assert forall|e: EnodeV| node_ok(e, a.size()) && #[trigger] a.present(e) implies b.present(e) by {
            let c = a.canon(e);
            let i = choose|i: int| 0 <= i < ace.len() && #[trigger] a.class_holds_canon(i, c);
            let j = choose|j: int| 0 <= j < ace[i].1.0.len() && #[trigger] a.canon(ace[i].1.0[j]) == c;
            let n = ace[i].1.0[j];
            let k = ace[i].0;
            assert(ace[i].0 < a.size());
            assert(class_ok(ace[i].1, a.size()));
            assert(node_ok(n, a.size()));
            assert(b.canon(a.canon(n)) == b.canon(n));
            assert(b.canon(a.canon(e)) == b.canon(e));
            assert(a.canon(n) == a.canon(e));
            assert(b.canon(n) == b.canon(e));
            lemma_key_index(ace, k);
            assert(key_index(ace, k) == i);
            lemma_get_after_insert(ace, id1, merged, k);
            lemma_get_after_swap_remove(ins, id2, k);
            lemma_get_after_insert(ace, id1, merged, id1);
            lemma_get_after_swap_remove(ins, id2, id1);
            if k != id1 && k != id2 {
                assert(get_value(bce, k) == Some(ace[i].1));
                lemma_key_index(bce, k);
                let i2 = key_index(bce, k);
                assert(bce[i2].1 == ace[i].1);
                assert(bce[i2].1.0[j] == n);
                assert(b.class_holds_canon(i2, b.canon(e)));
            } else {
                if k == id1 {
                    assert(to == ace[i].1);
                    assert(to.0.contains(n)) by { assert(to.0[j] == n); }
                } else {
                    assert(from == ace[i].1);
                    assert(from.0.contains(n)) by { assert(from.0[j] == n); }
                }
                Self::lemma_set_extend_contains(to.0, from.0, n);
                let se = set_extend(to.0, from.0);
                let q = choose|q: int| 0 <= q < se.len() && se[q] == n;
                let ca = b.canon_all(se);
                let m = b.canon(n);
                assert(ca[q] == m);
                assert(ca.contains(m));
                Self::lemma_set_extend_contains(Seq::empty(), ca, m);
                let ns = merged.0;
                assert(ns == set_extend(Seq::empty(), ca));
                let j2 = choose|j2: int| 0 <= j2 < ns.len() && ns[j2] == m;
                assert(get_value(bce, id1) == Some(merged));
                lemma_key_index(bce, id1);
                let i2 = key_index(bce, id1);
                assert(bce[i2].1 == merged);
                assert(node_ok(n, b.size()));
                b.lemma_canon_idem(n);
                assert(b.canon(ns[j2]) == b.canon(e));
                assert(b.class_holds_canon(i2, b.canon(e)));
            }
        }
    }

    /// An e-node kept present from `a` to `b` and from `b` to `c` is kept
    /// present from `a` to `c`: so an e-node pushed once stays findable by
    /// `lookup` through any run of the operations that keep present e-nodes
    /// present (all the operations that change the e-graph).
    pub proof fn lemma_present_kept_trans(a: &Self, b: &Self, c: &Self)
        requires
            a.present_kept(b),
            b.present_kept(c),
            b.size() >= a.size(),
        ensures
            a.present_kept(c),
    {
        reveal(EGraph::present_kept);
        assert forall|e: EnodeV| node_ok(e, a.size()) && #[trigger] a.present(e) implies c.present(e) by {
            assert(b.present(e));
            assert(node_ok(e, b.size()));
        }
    }

    /// With the same representatives on the old ids, and the old e-classes
    /// holding the same e-nodes, present e-nodes stay present.
    proof fn lemma_present_grow(a: &Self, b: &Self)
        requires
            a.wf(),
            b.size() >= a.size(),
            forall|i: int| 0 <= i < a.size() ==> #[trigger] b.root(i) == a.root(i),
            b.class_entries().len() >= a.class_entries().len(),
            forall|i: int| 0 <= i < a.class_entries().len() ==> #[trigger] b.class_entries()[i].1.0 == a.class_entries()[i].1.0,
        ensures
            a.present_kept(b),
    {
        reveal(EGraph::present_kept);
        assert forall|x: EnodeV| node_ok(x, a.size()) implies #[trigger] b.canon(x) == a.canon(x) by {
            assert(b.canon(x).1 =~= a.canon(x).1);
        }
        assert forall|e: EnodeV| node_ok(e, a.size()) && #[trigger] a.present(e) implies b.present(e) by {
            let c = a.canon(e);
            let i = choose|i: int| 0 <= i < a.class_entries().len() && #[trigger] a.class_holds_canon(i, c);
            let j = choose|j: int|
                0 <= j < a.class_entries()[i].1.0.len() && #[trigger] a.canon(a.class_entries()[i].1.0[j]) == c;
            let n = a.class_entries()[i].1.0[j];
            assert(a.class_entries()[i].0 < a.size());
            assert(class_ok(a.class_entries()[i].1, a.size()));
            assert(node_ok(n, a.size()));
            assert(b.class_entries()[i].1.0[j] == n);
            assert(b.canon(n) == b.canon(e));
            assert(b.class_holds_canon(i, b.canon(e)));
        }
    }

    /// The ids of the e-classes, in order.
    fn get_ids(&self) -> (r: Vec<Id>)
        ensures
            ids_view(r@) == entry_keys(self.class_entries()),
    {
        let mut r = Vec::<Id>::new();
        let n = class_map_len(&self.classes);
        let mut i: usize = 0;
        while i < n
            invariant
                n == self.class_entries().len(),
                i <= n,
                ids_view(r@) == entry_keys(self.class_entries()).take(i as int),
            decreases n - i,
        {
            let (id, _) = class_map_get_index(&self.classes, i);
            let ghost prev = r@;
            r.push(id);
            i = i + 1;
            assert(ids_view(r@) =~= entry_keys(self.class_entries()).take(i as int)) by {
                assert(r@ == prev.push(id));
                assert(ids_view(r@) =~= ids_view(prev).push(id.0));
            }
        }
        assert(entry_keys(self.class_entries()).take(n as int) =~= entry_keys(self.class_entries()));
        return r;
    }

    /// Every e-node of every e-class, in order.
    fn enodes(&self) -> (r: Vec<Enode>)
        ensures
            r@.map_values(|n: Enode| n@) == flat_nodes(self.class_entries()),
    {
        let mut r = Vec::<Enode>::new();
        let n = class_map_len(&self.classes);
        let mut i: usize = 0;
        while i < n
            invariant
                n == self.class_entries().len(),
                i <= n,
                r@.map_values(|n: Enode| n@) == flat_nodes(self.class_entries().take(i as int)),
            decreases n - i,
        {
            let (_, cls) = class_map_get_index(&self.classes, i);
            let m = node_set_len(&cls.nodes);
            let ghost base = r@.map_values(|n: Enode| n@);
            let mut j: usize = 0;
            while j < m
                invariant
                    m == cls@.0.len(),
                    j <= m,
                    r@.map_values(|n: Enode| n@) == base + cls@.0.take(j as int),
                decreases m - j,
            {
                let x = node_set_get_index(&cls.nodes, j).clone();
                let ghost prev = r@;
                r.push(x);
                j = j + 1;
                assert(r@.map_values(|n: Enode| n@) =~= base + cls@.0.take(j as int)) by {
                    assert(r@ == prev.push(x));
                    assert(r@.map_values(|n: Enode| n@) =~= prev.map_values(|n: Enode| n@).push(x@));
                    assert(cls@.0.take(j as int) =~= cls@.0.take(j - 1).push(cls@.0[j - 1]));
                }
            }
            proof {
                assert(cls@.0.take(m as int) =~= cls@.0);
                assert(self.class_entries().take(i + 1).drop_last() =~= self.class_entries().take(i as int));
            }
            i = i + 1;
        }
        assert(self.class_entries().take(n as int) =~= self.class_entries());
        return r;
    }

    /// Every e-node of every e-class with the id of its e-class, in order.
    fn id_enode_pairs(&self) -> (r: Vec<(Id, Enode)>)
        ensures
            r@.map_values(|p: (Id, Enode)| (p.0.0, p.1@)) == flat_pairs(self.class_entries()),
    {
        let mut r = Vec::<(Id, Enode)>::new();
        let n = class_map_len(&self.classes);
        let mut i: usize = 0;
        while i < n
            invariant
                n == self.class_entries().len(),
                i <= n,
                r@.map_values(|p: (Id, Enode)| (p.0.0, p.1@)) == flat_pairs(self.class_entries().take(i as int)),
            decreases n - i,
        {
            let (id, cls) = class_map_get_index(&self.classes, i);
            let m = node_set_len(&cls.nodes);
            let ghost base = r@.map_values(|p: (Id, Enode)| (p.0.0, p.1@));
            let ghost tagged = cls@.0.map_values(|x: EnodeV| (id.0, x));
            let mut j: usize = 0;
            while j < m
                invariant
                    m == cls@.0.len(),
                    j <= m,
                    tagged == cls@.0.map_values(|x: EnodeV| (id.0, x)),
                    r@.map_values(|p: (Id, Enode)| (p.0.0, p.1@)) == base + tagged.take(j as int),
                decreases m - j,
            {
                let x = node_set_get_index(&cls.nodes, j).clone();
                let ghost prev = r@;
                r.push((id, x));
                j = j + 1;
                assert(r@.map_values(|p: (Id, Enode)| (p.0.0, p.1@)) =~= base + tagged.take(j as int)) by {
                    assert(r@ == prev.push((id, x)));
                    assert(r@.map_values(|p: (Id, Enode)| (p.0.0, p.1@)) =~= prev.map_values(
                        |p: (Id, Enode)| (p.0.0, p.1@),
                    ).push((id.0, x@)));
                    assert(tagged.take(j as int) =~= tagged.take(j - 1).push(tagged[j - 1]));
                }
            }
            proof {
                assert(tagged.take(m as int) =~= tagged);
                assert(self.class_entries().take(i + 1).drop_last() =~= self.class_entries().take(i as int));
            }
            i = i + 1;
        }
        assert(self.class_entries().take(n as int) =~= self.class_entries());
        return r;
    }

    /// The position of the first of the first `k` pairs whose e-node has
    /// canonical form `c`, or -1.
    pub open spec fn first_canon(&self, ps: Seq<(usize, EnodeV)>, c: EnodeV, k: nat) -> int
        decreases k,
    {
        if k == 0 || k > ps.len() {
            -1
        } else {
            let f = self.first_canon(ps, c, (k - 1) as nat);
            if f >= 0 {
                f
            } else if self.canon(ps[k - 1].1) == c {
                k - 1
            } else {
                -1
            }
        }
    }

    /// The position of the first among the first `k` pairs whose e-node
    /// has the canonical form of an earlier pair's e-node while the two
    /// pairs lie in different e-classes.
    pub open spec fn first_repeat(&self, ps: Seq<(usize, EnodeV)>, k: nat) -> Option<int>
        decreases k,
    {
        if k == 0 || k > ps.len() {
            None
        } else {
            match self.first_repeat(ps, (k - 1) as nat) {
                Some(q) => Some(q),
                None => {
                    let f = self.first_canon(ps, self.canon(ps[k - 1].1), (k - 1) as nat);
                    if f >= 0 && self.root(ps[f].0 as int) != self.root(ps[k - 1].0 as int) {
                        Some(k - 1)
                    } else {
                        None
                    }
                },
            }
        }
    }

    /// What `first_canon` finds: the first of the first `k` pairs with
    /// canonical form `c`, or none of them has it.
    proof fn lemma_first_canon(&self, ps: Seq<(usize, EnodeV)>, c: EnodeV, k: nat)
        requires
            k <= ps.len(),
        ensures
            self.first_canon(ps, c, k) >= 0 ==> {
                let f = self.first_canon(ps, c, k);
                &&& f < k
                &&& self.canon(ps[f].1) == c
            },
            self.first_canon(ps, c, k) < 0 ==> forall|i: int| 0 <= i < k ==> #[trigger] self.canon(ps[i].1) != c,
        decreases k,
    {
        if k > 0 {
            self.lemma_first_canon(ps, c, (k - 1) as nat);
        }
    }

    /// With no repeat across e-classes among the first `k` pairs, any two
    /// of them with the same canonical form lie in the same e-class.
    proof fn lemma_no_repeat(&self, ps: Seq<(usize, EnodeV)>, k: nat)
        requires
            k <= ps.len(),
            self.first_repeat(ps, k) is None,
        ensures
            forall|a: int, b: int|
                0 <= a < k && 0 <= b < k && #[trigger] self.canon(ps[a].1) == #[trigger] self.canon(ps[b].1)
                    ==> self.root(ps[a].0 as int) == self.root(ps[b].0 as int),
        decreases k,
    {
        if k > 0 {
            let k1 = (k - 1) as nat;
            self.lemma_no_repeat(ps, k1);
            let c = self.canon(ps[k1 as int].1);
            self.lemma_first_canon(ps, c, k1);
            let f = self.first_canon(ps, c, k1);
            assert forall|a: int, b: int|
                0 <= a < k && 0 <= b < k && #[trigger] self.canon(ps[a].1) == #[trigger] self.canon(ps[b].1)
                    implies self.root(ps[a].0 as int) == self.root(ps[b].0 as int) by {
                if a == k1 && b < k1 {
                    assert(self.canon(ps[f].1) == self.canon(ps[b].1));
                } else if b == k1 && a < k1 {
                    assert(self.canon(ps[f].1) == self.canon(ps[a].1));
                }
            }
        }
    }

    /// Every e-node of every e-class occurs, with the id of its e-class,
    /// in `flat_pairs`.
    proof fn lemma_flat_pairs_cover(entries: Seq<(usize, EClassV)>)
        ensures
            forall|i: int, j: int|
                0 <= i < entries.len() && 0 <= j < entries[i].1.0.len() ==> #[trigger] pair_listed(entries, i, j),
        decreases entries.len(),
    {
        if entries.len() > 0 {
            let init = entries.drop_last();
            Self::lemma_flat_pairs_cover(init);
            let last = entries.last();
            let tail = last.1.0.map_values(|x: EnodeV| (last.0, x));
            let f = flat_pairs(entries);
            assert(f == flat_pairs(init) + tail);
            assert forall|i: int, j: int| 0 <= i < entries.len() && 0 <= j < entries[i].1.0.len() implies #[trigger] pair_listed(
                entries,
                i,
                j,
            ) by {
                if i < init.len() {
                    assert(entries[i] == init[i]);
                    assert(pair_listed(init, i, j));
                    let k = choose|k: int|
                        0 <= k < flat_pairs(init).len() && flat_pairs(init)[k] == (init[i].0, init[i].1.0[j]);
                    assert(f[k] == flat_pairs(init)[k]);
                    assert(0 <= k < f.len() && f[k] == (entries[i].0, entries[i].1.0[j]));
                } else {
                    assert(entries[i] == last);
                    let k = flat_pairs(init).len() + j;
                    assert(f[k] == tail[j]);
                    assert(tail[j] == (last.0, last.1.0[j]));
                    assert(0 <= k < f.len() && f[k] == (entries[i].0, entries[i].1.0[j]));
                }
            }
        }
    }

    /// No canonical form is held by e-nodes of two different e-classes.
    #[verifier::opaque]
    pub open spec fn congruent(&self) -> bool {
        let ce = self.class_entries();
        forall|i1: int, j1: int, i2: int, j2: int|
            0 <= i1 < ce.len() && 0 <= j1 < ce[i1].1.0.len() && 0 <= i2 < ce.len() && 0 <= j2 < ce[i2].1.0.len()
                && #[trigger] self.canon(ce[i1].1.0[j1]) == #[trigger] self.canon(ce[i2].1.0[j2]) ==> i1 == i2
    }

    /// With no pending unions, the e-graph is congruent.
    pub open spec fn settled(&self) -> bool {
        self.dirty().len() == 0 ==> self.congruent()
    }

    /// An e-graph in which no repeat across e-classes occurs among all its
    /// e-nodes is congruent.
    proof fn lemma_congruent_of_no_repeat(&self)
        requires
            self.wf(),
            self.first_repeat(flat_pairs(self.class_entries()), flat_pairs(self.class_entries()).len()) is None,
        ensures
            self.congruent(),
    {
        reveal(EGraph::congruent);
        let ce = self.class_entries();
        let ps = flat_pairs(ce);
        self.lemma_no_repeat(ps, ps.len());
        Self::lemma_flat_pairs_cover(ce);
        assert forall|i1: int, j1: int, i2: int, j2: int|
            0 <= i1 < ce.len() && 0 <= j1 < ce[i1].1.0.len() && 0 <= i2 < ce.len() && 0 <= j2 < ce[i2].1.0.len()
                && #[trigger] self.canon(ce[i1].1.0[j1]) == #[trigger] self.canon(ce[i2].1.0[j2]) implies i1
            == i2 by {
            assert(pair_listed(ce, i1, j1));
            assert(pair_listed(ce, i2, j2));
            let ka = choose|k: int| 0 <= k < ps.len() && ps[k] == (ce[i1].0, ce[i1].1.0[j1]);
            let kb = choose|k: int| 0 <= k < ps.len() && ps[k] == (ce[i2].0, ce[i2].1.0[j2]);
            assert(self.canon(ps[ka].1) == self.canon(ps[kb].1));
            assert(self.root(ps[ka].0 as int) == self.root(ps[kb].0 as int));
            assert(ce[i1].0 < self.size() && self.uf().is_root(ce[i1].0 as int));
            assert(ce[i2].0 < self.size() && self.uf().is_root(ce[i2].0 as int));
            self.uf().lemma_is_root_iff(ce[i1].0 as int);
            self.uf().lemma_is_root_iff(ce[i2].0 as int);
            assert(ce[i1].0 == ce[i2].0);
        }
    }

    /// Congruence depends only on the e-nodes of the e-classes and on the
    /// representatives.
    proof fn lemma_congruent_kept(a: &Self, b: &Self)
        requires
            a.congruent(),
            b.class_entries().len() == a.class_entries().len(),
            forall|i: int|
                0 <= i < a.class_entries().len() ==> #[trigger] b.class_entries()[i].1.0 == a.class_entries()[i].1.0,
            forall|i: int| #[trigger] b.root(i) == a.root(i),
        ensures
            b.congruent(),
    {
        reveal(EGraph::congruent);
        assert forall|e: EnodeV| #[trigger] b.canon(e) == a.canon(e) by {
            assert(b.canon(e).1 =~= a.canon(e).1);
        }
        let ce = b.class_entries();
        assert forall|i1: int, j1: int, i2: int, j2: int|
            0 <= i1 < ce.len() && 0 <= j1 < ce[i1].1.0.len() && 0 <= i2 < ce.len() && 0 <= j2 < ce[i2].1.0.len()
                && #[trigger] b.canon(ce[i1].1.0[j1]) == #[trigger] b.canon(ce[i2].1.0[j2]) implies i1 == i2 by {
            assert(ce[i1].1.0 == a.class_entries()[i1].1.0);
            assert(ce[i2].1.0 == a.class_entries()[i2].1.0);
            assert(a.canon(a.class_entries()[i1].1.0[j1]) == a.canon(a.class_entries()[i2].1.0[j2]));
        }
    }

    proof fn lemma_first_repeat_stays(&self, ps: Seq<(usize, EnodeV)>, k: nat, m: nat, q: int)
        requires
            k <= m <= ps.len(),
            self.first_repeat(ps, k) == Some(q),
        ensures
            self.first_repeat(ps, m) == Some(q),
        decreases m,
    {
        if k < m {
            self.lemma_first_repeat_stays(ps, k, (m - 1) as nat, q);
        }
    }

    /// What restoring congruence over all e-nodes makes of this e-graph:
    /// the memo entries of the e-nodes of all e-classes, in order, are
    /// re-canonicalized up to the first e-node whose canonical form repeats
    /// that of an earlier e-node of another e-class; there the e-class of
    /// the earlier one is merged with its own (as `union` does); with no
    /// such repeat nothing else changes.
    pub open spec fn congruence_step(&self, new: &Self) -> bool {
        let ps = flat_pairs(self.class_entries());
        match self.first_repeat(ps, ps.len()) {
            None => {
                &&& new.memo_entries() == self.memo_fold(self.memo_entries(), pair_nodes(ps))
                &&& new.class_entries() == self.class_entries()
                &&& new.dirty() == self.dirty()
                &&& forall|i: int| #[trigger] new.root(i) == self.root(i)
            },
            Some(q) => {
                let j = self.first_canon(ps, self.canon(ps[q].1), q as nat);
                let s = self.root(ps[j].0 as int) as usize;
                let r = self.root(ps[q].0 as int) as usize;
                let memo1 = self.memo_fold(self.memo_entries(), pair_nodes(ps).take(q + 1));
                &&& s != r
                &&& forall|i: int|
                    0 <= i < self.size() ==> #[trigger] new.root(i) == if self.root(i) == r as int {
                        s as int
                    } else {
                        self.root(i)
                    }
                &&& new.dirty() == self.dirty().push(s)
                &&& new.memo_entries() == new.memo_fold(
                    memo1,
                    set_extend(
                        get_value(self.class_entries(), s).unwrap().0,
                        get_value(self.class_entries(), r).unwrap().0,
                    ),
                )
                &&& new.class_entries() == swap_remove_entry(
                    insert_entry(
                        self.class_entries(),
                        s,
                        new.merged_class(
                            get_value(self.class_entries(), s).unwrap(),
                            get_value(self.class_entries(), r).unwrap(),
                        ),
                    ),
                    r,
                )
            },
        }
    }

    /// One pass towards congruence: with every union-find path compressed,
    /// walks all e-nodes, canonicalizing them (also in the memo); at the
    /// first two e-nodes of different e-classes with the same canonical form
    /// it merges their e-classes and stops.  When it finds none, the e-graph
    /// is congruent.
    fn congruence_pass(&mut self)
        requires
            old(self).wf(),
        ensures
            final(self).wf(),
            final(self).size() == old(self).size(),
            forall|i: int, j: int|
                0 <= i < old(self).size() && 0 <= j < old(self).size() && old(self).root(i) == old(self).root(j)
                    ==> #[trigger] final(self).root(i) == #[trigger] final(self).root(j),
            (final(self).dirty() == old(self).dirty() && final(self).class_entries().len()
                == old(self).class_entries().len() && final(self).congruent()) || (final(self).dirty().len()
                == old(self).dirty().len() + 1 && final(self).class_entries().len() == old(self).class_entries().len()
                - 1),
            old(self).congruence_step(&*final(self)),
            old(self).present_kept(&*final(self)),
    {
        let ghost old_g = *self;
        self.unionfind.canonicalize();
        proof {
            Self::lemma_classes_ok_transfer(&old_g, self);
            Self::lemma_present_grow(&old_g, self);
        }
        let l = self.id_enode_pairs();
        let ghost g0 = *self;
        proof {
            lemma_flat_pairs(g0.class_entries());
            assert forall|q: int| 0 <= q < l@.len() implies #[trigger] l@[q].0.0 < self.size() && node_ok(
                l@[q].1@,
                self.size(),
            ) by {
                let f = flat_pairs(g0.class_entries());
                assert(l@.map_values(|p: (Id, Enode)| (p.0.0, p.1@))[q] == f[q]);
                assert(pair_in(g0.class_entries(), f[q]));
                let (ci, cj) = choose|ci: int, cj: int|
                    0 <= ci < g0.class_entries().len() && 0 <= cj < g0.class_entries()[ci].1.0.len() && f[q] == (
                        g0.class_entries()[ci].0,
                        g0.class_entries()[ci].1.0[cj],
                    );
                assert(g0.class_entries()[ci].0 < g0.size());
                assert(class_ok(g0.class_entries()[ci].1, g0.size()));
            }
        }
        let ghost ps = flat_pairs(old_g.class_entries());
        let mut seen = node_map_new();
        let n = l.len();
        let mut k: usize = 0;
        let mut merged = false;
        proof {
            assert(g0.class_entries() == old_g.class_entries());
            assert(pair_nodes(ps).take(0) =~= Seq::<EnodeV>::empty());
            assert forall|x: EnodeV| #[trigger] get_value(node_map_entries(seen), x) == if old_g.first_canon(ps, x, 0) >= 0 {
                Some(old_g.root(ps[old_g.first_canon(ps, x, 0)].0 as int) as usize)
            } else {
                None
            } by {
            }
        }
        while k < n && !merged
            invariant
                self.wf(),
                old_g.wf(),
                n == l@.len(),
                k <= n,
                self.size() == old_g.size(),
                forall|q: int| 0 <= q < n ==> #[trigger] l@[q].0.0 < self.size() && node_ok(l@[q].1@, self.size()),
                keys_distinct(node_map_entries(seen)),
                !merged ==> forall|i: int| #[trigger] self.root(i) == old_g.root(i),
                !merged ==> self.class_entries().len() == old_g.class_entries().len(),
                !merged ==> self.dirty() == old_g.dirty(),
                !merged ==> forall|q: int|
                    0 <= q < node_map_entries(seen).len() ==> #[trigger] node_map_entries(seen)[q].1 < self.size()
                        && self.uf().is_root(node_map_entries(seen)[q].1 as int),
                merged ==> forall|i: int, j: int|
                    0 <= i < old_g.size() && 0 <= j < old_g.size() && old_g.root(i) == old_g.root(j)
                        ==> #[trigger] self.root(i) == #[trigger] self.root(j),
                merged ==> self.dirty().len() == old_g.dirty().len() + 1 && self.class_entries().len()
                    == old_g.class_entries().len() - 1,
                ps == flat_pairs(old_g.class_entries()),
                l@.map_values(|p: (Id, Enode)| (p.0.0, p.1@)) == ps,
                merged ==> old_g.congruence_step(self),
                old_g.present_kept(self),
                !merged ==> old_g.first_repeat(ps, k as nat) is None,
                !merged ==> self.class_entries() == old_g.class_entries(),
                !merged ==> self.memo_entries() == old_g.memo_fold(old_g.memo_entries(), pair_nodes(ps).take(k as int)),
                !merged ==> forall|x: EnodeV|
                    #[trigger] get_value(node_map_entries(seen), x) == if old_g.first_canon(ps, x, k as nat) >= 0 {
                        Some(old_g.root(ps[old_g.first_canon(ps, x, k as nat)].0 as int) as usize)
                    } else {
                        None
                    },
            decreases n - k,
        {
            let ghost g_k = *self;
            let ghost memo_k = self.memo_entries();
            let id = self.find(l[k].0);
            let nn = self.canonicalize_and_update_in_memo(&l[k].1);
            proof {
                assert(l@.map_values(|p: (Id, Enode)| (p.0.0, p.1@))[k as int] == ps[k as int]);
                let pn = pair_nodes(ps);
                assert(pn.take(k + 1).drop_last() =~= pn.take(k as int));
                assert(pn.take(k + 1).last() == ps[k as int].1);
                Self::lemma_memo_step_same(&g_k, &old_g, memo_k, ps[k as int].1);
                Self::lemma_canon_same(&g_k, &old_g, ps[k as int].1);
                assert(nn@ == old_g.canon(ps[k as int].1));
                assert(id.0 == old_g.root(ps[k as int].0 as int));
                assert forall|i: int| #[trigger] self.root(i) == old_g.root(i) by {
                    assert(self.root(i) == g_k.root(i));
                }
                Self::lemma_present_grow(&old_g, self);
                assert(self.uf().is_root(id.0 as int)) by {
                    self.uf().lemma_is_root_iff(id.0 as int);
                    g_k.uf().lemma_is_root_iff(id.0 as int);
                    assert(self.root(id.0 as int) == g_k.root(id.0 as int));
                }
                assert forall|q: int| 0 <= q < node_map_entries(seen).len() implies #[trigger] self.uf().is_root(
                    node_map_entries(seen)[q].1 as int,
                ) by {
                    let x = node_map_entries(seen)[q].1 as int;
                    assert(g_k.uf().is_root(x));
                    self.uf().lemma_is_root_iff(x);
                    g_k.uf().lemma_is_root_iff(x);
                    assert(self.root(x) == g_k.root(x));
                }
                lemma_key_index(node_map_entries(seen), nn@);
            }
            if node_map_contains(&seen, &nn) {
                let id2 = node_map_get(&seen, &nn).unwrap();
                proof {
                    let q = key_index(node_map_entries(seen), nn@);
                    assert(node_map_entries(seen)[q].1 < self.size());
                    assert(self.uf().is_root(id2.0 as int));
                    assert(self.is_class(id2.0 as int));
                    assert(self.is_class(id.0 as int));
                }
                let ghost g_b = *self;
                let ghost f = old_g.first_canon(ps, nn@, k as nat);
                proof {
                    assert(get_value(node_map_entries(seen), nn@) == Some(id2.0));
                    assert(f >= 0);
                    assert(id2.0 == old_g.root(ps[f].0 as int) as usize);
                    old_g.lemma_first_canon(ps, nn@, k as nat);
                    assert(l@.map_values(|p: (Id, Enode)| (p.0.0, p.1@))[f] == ps[f]);
                }
                if id2 != id {
                    proof {
                        assert(ps[f].0 < old_g.size());
                        assert(ps[k as int].0 < old_g.size());
                        old_g.uf().lemma_root_is_root(ps[f].0 as int);
                        old_g.uf().lemma_root_is_root(ps[k as int].0 as int);
                        assert(old_g.first_repeat(ps, (k + 1) as nat) == Some(k as int));
                        old_g.lemma_first_repeat_stays(ps, (k + 1) as nat, ps.len(), k as int);
                        assert(g_b.memo_entries() == old_g.memo_fold(old_g.memo_entries(), pair_nodes(ps).take(k + 1)));
                    }
                    self.union(id2, id);
                    merged = true;
                    proof {
                        Self::lemma_present_kept_trans(&old_g, &g_b, self);
                        assert forall|i: int, j: int|
                            0 <= i < old_g.size() && 0 <= j < old_g.size() && old_g.root(i) == old_g.root(j)
                                implies #[trigger] self.root(i) == #[trigger] self.root(j) by {
                            assert(g_b.root(i) == old_g.root(i));
                            assert(g_b.root(j) == old_g.root(j));
                        }
                        assert(self.dirty().len() == old_g.dirty().len() + 1);
                    }
                } else {
                    proof {
                        assert(ps[f].0 < old_g.size());
                        assert(ps[k as int].0 < old_g.size());
                        old_g.uf().lemma_root_is_root(ps[f].0 as int);
                        old_g.uf().lemma_root_is_root(ps[k as int].0 as int);
                        assert(old_g.root(ps[f].0 as int) == old_g.root(ps[k as int].0 as int));
                        assert(old_g.first_repeat(ps, (k + 1) as nat) is None);
                        assert forall|x: EnodeV| #[trigger] get_value(node_map_entries(seen), x) == if old_g.first_canon(
                            ps,
                            x,
                            (k + 1) as nat,
                        ) >= 0 {
                            Some(old_g.root(ps[old_g.first_canon(ps, x, (k + 1) as nat)].0 as int) as usize)
                        } else {
                            None
                        } by {
                        }
                    }
                }
            } else {
                let key = nn.clone();
                proof {
                    lemma_distinct_kept(node_map_entries(seen), nn@, id.0);
                    let sz = self.size();
                    let u = self.uf();
                    let pred = |p: (EnodeV, usize)| p.1 < sz && u.is_root(p.1 as int);
                    assert forall|q: int| 0 <= q < node_map_entries(seen).len() implies #[trigger] pred(
                        node_map_entries(seen)[q],
                    ) by {
                        assert(self.uf().is_root(node_map_entries(seen)[q].1 as int));
                    }
                    lemma_entries_keep(node_map_entries(seen), nn@, id.0, pred);
                }
                let ghost seen0 = node_map_entries(seen);
                node_map_insert(&mut seen, key, id);
                proof {
                    assert(old_g.first_canon(ps, nn@, k as nat) < 0);
                    assert(old_g.first_repeat(ps, (k + 1) as nat) is None);
                    assert forall|x: EnodeV| #[trigger] get_value(node_map_entries(seen), x) == if old_g.first_canon(
                        ps,
                        x,
                        (k + 1) as nat,
                    ) >= 0 {
                        Some(old_g.root(ps[old_g.first_canon(ps, x, (k + 1) as nat)].0 as int) as usize)
                    } else {
                        None
                    } by {
                        lemma_get_after_insert(seen0, nn@, id.0, x);
                        assert(get_value(seen0, x) == if old_g.first_canon(ps, x, k as nat) >= 0 {
                            Some(old_g.root(ps[old_g.first_canon(ps, x, k as nat)].0 as int) as usize)
                        } else {
                            None
                        });
                    }
                    let sz = self.size();
                    let u = self.uf();
                    let pred = |p: (EnodeV, usize)| p.1 < sz && u.is_root(p.1 as int);
                    assert forall|q: int| 0 <= q < node_map_entries(seen).len() implies #[trigger] node_map_entries(
                        seen,
                    )[q].1 < self.size() && self.uf().is_root(node_map_entries(seen)[q].1 as int) by {
                        assert(pred(node_map_entries(seen)[q]));
                    }
                }
            }
            k = k + 1;
        }
        proof {
            if !merged {
                assert forall|i: int, j: int|
                    0 <= i < old_g.size() && 0 <= j < old_g.size() && old_g.root(i) == old_g.root(j)
                        implies #[trigger] self.root(i) == #[trigger] self.root(j) by {
                }
                assert(ps.len() == n);
                assert(pair_nodes(ps).take(n as int) =~= pair_nodes(ps));
                old_g.lemma_congruent_of_no_repeat();
                Self::lemma_congruent_kept(&old_g, self);
            }
        }
    }

    /// What restoring congruence does: passes (see `congruence_step`)
    /// until one merges nothing.
    pub open spec fn congruence_fixed(&self, new: &Self) -> bool {
        exists|ps: Seq<EGraph>|
            #[trigger] passes_merging(ps) && ps[0] == *self && ps.last().congruence_step(new) && new.dirty()
                == ps.last().dirty()
    }

    /// Restores congruence over the whole e-graph: repeats the pass of
    /// `congruence_pass` until it finds no two e-nodes of different
    /// e-classes with the same canonical form.  E-classes only merge.
    fn force_fix_congruence(&mut self)
        requires
            old(self).wf(),
        ensures
            final(self).wf(),
            final(self).size() == old(self).size(),
            forall|i: int, j: int|
                0 <= i < old(self).size() && 0 <= j < old(self).size() && old(self).root(i) == old(self).root(j)
                    ==> #[trigger] final(self).root(i) == #[trigger] final(self).root(j),
            final(self).congruent(),
            (final(self).dirty() == old(self).dirty() && final(self).class_entries().len()
                == old(self).class_entries().len()) || (final(self).dirty().len() > old(self).dirty().len()
                && final(self).class_entries().len() < old(self).class_entries().len()),
            old(self).congruence_fixed(&*final(self)),
            old(self).present_kept(&*final(self)),
    {
        let ghost old_g = *self;
        let ghost mut ps: Seq<EGraph> = seq![old_g];
        assert(ps.last() == old_g);
        proof {
            Self::lemma_present_grow(&old_g, &old_g);
        }
        loop
            invariant_except_break
                passes_merging(ps),
                ps[0] == old_g,
                ps.last() == *self,
            invariant
                self.wf(),
                old_g.wf(),
                self.size() == old_g.size(),
                old_g.present_kept(self),
                forall|i: int, j: int|
                    0 <= i < old_g.size() && 0 <= j < old_g.size() && old_g.root(i) == old_g.root(j)
                        ==> #[trigger] self.root(i) == #[trigger] self.root(j),
                (self.dirty() == old_g.dirty() && self.class_entries().len() == old_g.class_entries().len()) || (
                self.dirty().len() > old_g.dirty().len() && self.class_entries().len()
                    < old_g.class_entries().len()),
            ensures
                self.wf(),
                self.size() == old_g.size(),
                forall|i: int, j: int|
                    0 <= i < old_g.size() && 0 <= j < old_g.size() && old_g.root(i) == old_g.root(j)
                        ==> #[trigger] self.root(i) == #[trigger] self.root(j),
                self.congruent(),
                (self.dirty() == old_g.dirty() && self.class_entries().len() == old_g.class_entries().len()) || (
                self.dirty().len() > old_g.dirty().len() && self.class_entries().len()
                    < old_g.class_entries().len()),
                old_g.congruence_fixed(self),
                old_g.present_kept(self),
            decreases self.class_entries().len(),
        {
            let ghost g0 = *self;
            let before = self.dirty_unions.len();
            self.congruence_pass();
            proof {
                Self::lemma_present_kept_trans(&old_g, &g0, self);
                assert(self.dirty().len() == self.dirty_unions@.len());
                assert(g0.dirty().len() == before);
                assert forall|i: int, j: int|
                    0 <= i < old_g.size() && 0 <= j < old_g.size() && old_g.root(i) == old_g.root(j)
                        implies #[trigger] self.root(i) == #[trigger] self.root(j) by {
                    assert(g0.root(i) == g0.root(j));
                }
            }
            if self.dirty_unions.len() == before {
                proof {
                    assert(ps.last() == g0);
                    assert(old_g.congruence_fixed(self));
                }
                break;
            }
            proof {
                lemma_passes_push(ps, *self);
                ps = ps.push(*self);
                assert(ps.last() == *self);
                assert(ps[0] == old_g);
            }
        }
    }

    /// The parent entries kept from the first `k` of `ps` when they are
    /// re-canonicalized one by one from the memo `memo`: each becomes its
    /// canonical e-node with the canonical id, and is kept once, when the
    /// memo (as canonicalizing the entries so far leaves it) holds that
    /// e-node.
    pub open spec fn fixed_parents(&self, ps: Seq<(EnodeV, usize)>, memo: Seq<(EnodeV, usize)>, k: nat) -> Seq<
        (EnodeV, usize),
    >
        decreases k,
    {
        if k == 0 || k > ps.len() {
            Seq::empty()
        } else {
            let prev = self.fixed_parents(ps, memo, (k - 1) as nat);
            let e = (self.canon(ps[k - 1].0), self.root(ps[k - 1].1 as int) as usize);
            if has_key(self.memo_fold(memo, parent_nodes(ps).take(k as int)), e.0) && !prev.contains(e) {
                prev.push(e)
            } else {
                prev
            }
        }
    }

    /// The parent entry has canonical arguments and a canonical id.
    pub open spec fn entry_canonical(&self, p: (EnodeV, usize)) -> bool {
        self.canon(p.0) == p.0 && self.uf().is_root(p.1 as int)
    }

    /// Every parent entry of `v` has canonical arguments and a canonical id.
    pub open spec fn parents_canonical_in(&self, v: EClassV) -> bool {
        forall|k: int| 0 <= k < v.1.len() ==> #[trigger] self.entry_canonical(v.1[k])
    }

    /// Every parent entry of every e-class has canonical arguments and a
    /// canonical id.
    pub open spec fn parents_canonical(&self) -> bool {
        forall|i: int| 0 <= i < self.class_entries().len() ==> #[trigger] self.parents_canonical_in(self.class_entries()[i].1)
    }

    /// Canonical parent entries stay canonical while the representatives
    /// stay the same.
    proof fn lemma_parents_canonical_kept(a: &Self, b: &Self, v: EClassV)
        requires
            a.uf().wf(),
            b.uf().wf(),
            b.size() == a.size(),
            forall|i: int| #[trigger] b.root(i) == a.root(i),
            a.parents_canonical_in(v),
        ensures
            b.parents_canonical_in(v),
    {
        assert forall|k: int| 0 <= k < v.1.len() implies #[trigger] b.entry_canonical(v.1[k]) by {
            let x = v.1[k];
            assert(a.entry_canonical(x));
            Self::lemma_canon_same(a, b, x.0);
            assert(b.canon(x.0) == x.0);
            let i = x.1 as int;
            assert(0 <= i < a.size());
            a.uf().lemma_is_root_iff(i);
            b.uf().lemma_is_root_iff(i);
            assert(b.root(i) == a.root(i));
            assert(b.uf().is_root(i));
        }
    }

    proof fn lemma_fixed_parents_canonical(&self, ps: Seq<(EnodeV, usize)>, memo: Seq<(EnodeV, usize)>, k: nat)
        requires
            self.uf().wf(),
            parents_ok(ps, self.size()),
        ensures
            forall|m: int|
                0 <= m < self.fixed_parents(ps, memo, k).len() ==> #[trigger] self.entry_canonical(
                    self.fixed_parents(ps, memo, k)[m],
                ),
        decreases k,
    {
        if !(k == 0 || k > ps.len()) {
            self.lemma_fixed_parents_canonical(ps, memo, (k - 1) as nat);
            let prev = self.fixed_parents(ps, memo, (k - 1) as nat);
            let x = ps[k - 1];
            assert(node_ok(x.0, self.size()) && x.1 < self.size());
            self.lemma_canon_idem(x.0);
            self.uf().lemma_root_is_root(x.1 as int);
            let e = (self.canon(x.0), self.root(x.1 as int) as usize);
            assert(self.root(x.1 as int) as usize as int == self.root(x.1 as int));
            let f = self.fixed_parents(ps, memo, k);
            assert(self.entry_canonical(e));
            if has_key(self.memo_fold(memo, parent_nodes(ps).take(k as int)), e.0) && !prev.contains(e) {
                assert(f == prev.push(e));
                assert forall|m: int| 0 <= m < f.len() implies #[trigger] self.entry_canonical(f[m]) by {
                    if m < prev.len() {
                        assert(f[m] == prev[m]);
                        assert(self.entry_canonical(prev[m]));
                    } else {
                        assert(f[m] == e);
                    }
                }
            } else {
                assert(f == prev);
            }
        }
    }

    /// What re-canonicalizing the parents of the e-class of `id` does (see
    /// `force_fix_parents`).
    pub open spec fn parents_fixed(&self, new: &Self, id: usize) -> bool {
        let c = self.root(id as int) as usize;
        let cls = get_value(self.class_entries(), c)->Some_0;
        &&& new.wf()
        &&& new.size() == self.size()
        &&& forall|i: int| #[trigger] new.root(i) == self.root(i)
        &&& new.dirty() == self.dirty()
        &&& new.memo_entries() == self.memo_fold(self.memo_entries(), parent_nodes(cls.1))
        &&& new.class_entries() == insert_entry(
            self.class_entries(),
            c,
            (cls.0, self.fixed_parents(cls.1, self.memo_entries(), cls.1.len())),
        )
    }

    /// Re-canonicalizes the parent entries of the e-class of `id`: each
    /// parent e-node is canonicalized (also in the memo) with the canonical
    /// id of its e-class, and kept once, if the memo holds it.
    #[verifier::spinoff_prover]
    fn force_fix_parents(&mut self, id: &Id)
        requires
            old(self).wf(),
            id.0 < old(self).size(),
        ensures
            final(self).wf(),
            final(self).size() == old(self).size(),
            forall|i: int| #[trigger] final(self).root(i) == old(self).root(i),
            final(self).dirty() == old(self).dirty(),
            final(self).class_entries().len() == old(self).class_entries().len(),
            forall|i: int|
                0 <= i < old(self).class_entries().len() ==> #[trigger] final(self).class_entries()[i].1.0 == old(
                    self,
                ).class_entries()[i].1.0,
            final(self).parents_canonical_in(get_value(final(self).class_entries(), old(self).root(id.0 as int) as usize)->Some_0),
            old(self).parents_fixed(&*final(self), id.0),
            old(self).present_kept(&*final(self)),
            ({
                let c = old(self).root(id.0 as int) as usize;
                let cls = get_value(old(self).class_entries(), c)->Some_0;
                &&& final(self).memo_entries() == old(self).memo_fold(old(self).memo_entries(), parent_nodes(cls.1))
                &&& final(self).class_entries() == insert_entry(
                    old(self).class_entries(),
                    c,
                    (cls.0, old(self).fixed_parents(cls.1, old(self).memo_entries(), cls.1.len())),
                )
            }),
    {
        let ghost old_g = *self;
        let ghost id0 = id.0;
        let id = self.find_mut(id);
        proof {
            assert(self.is_class(id.0 as int));
            lemma_key_index(self.class_entries(), id.0);
            let q = key_index(self.class_entries(), id.0);
            assert(self.class_entries()[q].0 < self.size());
        }
        let mut cls = self.get_eclass(&id).unwrap().clone();
        let ghost c0 = cls@;
        let ghost g1 = *self;
        let ps = clone_parents(&cls.parents);
        let mut new_parents = Vec::<(Enode, Id)>::new();
        let np = ps.len();
        let mut q: usize = 0;
        while q < np
            invariant
                self.wf(),
                np == ps@.len(),
                q <= np,
                class_ok(c0, self.size()),
                parents_view(ps@) == c0.1,
                cls@ == c0,
                self.uf().is_root(id.0 as int),
                id.0 < self.size(),
                self.size() == old_g.size(),
                forall|i: int| #[trigger] self.root(i) == old_g.root(i),
                self.class_entries() == g1.class_entries(),
                self.dirty() == old_g.dirty(),
                get_value(self.class_entries(), id.0) == Some(c0),
                parents_ok(parents_view(new_parents@), old_g.size()),
                old_g.wf(),
                id.0 == old_g.root(id0 as int),
                get_value(old_g.class_entries(), id.0) == Some(c0),
                self.memo_entries() == old_g.memo_fold(old_g.memo_entries(), parent_nodes(c0.1).take(q as int)),
                parents_view(new_parents@) == old_g.fixed_parents(c0.1, old_g.memo_entries(), q as nat),
            decreases np - q,
        {
            assert(c0.1.len() == np);
            assert(parent_view(ps@[q as int]) == c0.1[q as int]);
            proof {
                lemma_class_parent_ok(c0, self.size(), q as int);
            }
            let ghost g_a = *self;
            let newp = self.canonicalize_and_update_in_memo(&ps[q].0);
            let ghost g_b = *self;
            let pid = self.find_mut(&ps[q].1);
            proof {
                let pn = parent_nodes(c0.1);
                assert(pn.take(q + 1).drop_last() =~= pn.take(q as int));
                assert(pn.take(q + 1).last() == c0.1[q as int].0);
                assert(ps@[q as int].0@ == c0.1[q as int].0);
                Self::lemma_memo_step_same(&g_a, &old_g, g_a.memo_entries(), c0.1[q as int].0);
                assert(g_b.memo_entries() == old_g.memo_fold(old_g.memo_entries(), pn.take(q + 1)));
                Self::lemma_canon_same(&g_a, &old_g, c0.1[q as int].0);
                assert forall|i: int| #[trigger] self.root(i) == old_g.root(i) by {
                    assert(self.root(i) == g_b.root(i));
                    assert(g_b.root(i) == g_a.root(i));
                }
                assert(self.uf().is_root(id.0 as int)) by {
                    self.uf().lemma_is_root_iff(id.0 as int);
                    g_a.uf().lemma_is_root_iff(id.0 as int);
                    assert(self.root(id.0 as int) == g_a.root(id.0 as int));
                }
            }
            assert(node_ok(newp@, old_g.size()));
            assert(pid.0 < old_g.size());
            let ghost prev0 = new_parents@;
            let ghost entry_v = (newp@, pid.0);
            proof {
                assert(entry_v == (old_g.canon(c0.1[q as int].0), old_g.root(c0.1[q as int].1 as int) as usize));
            }
            if node_map_contains(&self.memo, &newp) {
                if !parents_contain(&new_parents, &newp, pid) {
                    let ghost prev = new_parents@;
                    let ghost entry = (newp, pid);
                    new_parents.push((newp, pid));
                    proof {
                        let pv = parents_view(new_parents@);
                        assert forall|j: int| 0 <= j < pv.len() implies node_ok(#[trigger] pv[j].0, old_g.size())
                            && pv[j].1 < old_g.size() by {
                            if j < prev.len() {
                                assert(new_parents@[j] == prev[j]);
                                assert(pv[j] == parents_view(prev)[j]);
                            } else {
                                assert(new_parents@[j] == entry);
                                assert(pv[j] == entry_v);
                            }
                        }
                        assert(parents_view(new_parents@) =~= parents_view(prev).push(entry_v));
                    }
                }
            }
            q = q + 1;
        }
        proof {
            assert(parent_nodes(c0.1).take(np as int) =~= parent_nodes(c0.1));
        }
        let ghost pvf = parents_view(new_parents@);
        cls.parents = new_parents;
        assert(cls@.1 == pvf);
        assert(cls@.0 == c0.0);
        let ghost before = self.class_entries();
        let ghost g_end = *self;
        class_map_insert(&mut self.classes, id, cls);
        proof {
            assert forall|i: int| #[trigger] self.root(i) == old_g.root(i) by {
                assert(self.root(i) == g_end.root(i));
            }
            let sz = self.size();
            let u = self.uf();
            assert(class_ok(cls@, sz));
            let pred = |p: (usize, EClassV)| p.0 < sz && u.is_root(p.0 as int) && class_ok(p.1, sz);
            assert forall|j: int| 0 <= j < before.len() implies #[trigger] pred(before[j]) by {
                assert(before[j].0 < sz);
            }
            lemma_entries_keep(before, id.0, cls@, pred);
            lemma_distinct_kept(before, id.0, cls@);
            assert(has_key(before, id.0));
            let ce = self.class_entries();
            assert forall|j: int| 0 <= j < ce.len() implies #[trigger] ce[j].0 < self.size() && self.uf().is_root(
                ce[j].0 as int,
            ) && class_ok(ce[j].1, self.size()) by {
                assert(pred(ce[j]));
            }
            assert forall|r: int| 0 <= r < self.size() && #[trigger] self.uf().is_root(r) implies has_key(
                ce,
                r as usize,
            ) by {
                assert(has_key(before, r as usize));
                lemma_keys_after(before, id.0, cls@, r as usize);
            }
            let kq = key_index(before, id.0);
            lemma_key_index(before, id.0);
            assert(before[kq].1 == c0);
            assert forall|i: int| 0 <= i < old_g.class_entries().len() implies #[trigger] ce[i].1.0
                == old_g.class_entries()[i].1.0 by {
                assert(before[i] == g1.class_entries()[i]);
            }
            assert forall|i: int| 0 <= i < ce.len() implies #[trigger] ce[i].1.0.len() > 0 by {
                assert(ce[i].1.0 == old_g.class_entries()[i].1.0);
                assert(old_g.class_entries()[i].1.0.len() > 0);
            }
            assert(keys_distinct(ce));
            assert(self.classes_ok());
            assert(self.ids_ok());
            assert(class_ok(c0, old_g.size()));
            old_g.lemma_fixed_parents_canonical(c0.1, old_g.memo_entries(), c0.1.len());
            lemma_key_index(ce, id.0);
            assert(get_value(ce, id.0) == Some(cls@));
            Self::lemma_present_grow(&old_g, self);
            assert forall|k: int| 0 <= k < cls@.1.len() implies #[trigger] self.entry_canonical(cls@.1[k]) by {
                assert(old_g.entry_canonical(cls@.1[k]));
                Self::lemma_canon_same(&old_g, self, cls@.1[k].0);
                assert(cls@.1[k].1 < old_g.size());
                old_g.uf().lemma_is_root_iff(cls@.1[k].1 as int);
                self.uf().lemma_is_root_iff(cls@.1[k].1 as int);
            }
        }
    }

    /// One round of `rebuild`, from an e-graph with pending unions: they
    /// are dropped, congruence is restored (see `congruence_fixed`), then
    /// the parents of every e-class are re-canonicalized in the order of
    /// the e-classes.
    pub open spec fn rebuild_round(&self, new: &Self) -> bool {
        exists|c1: EGraph, c2: EGraph, gs: Seq<EGraph>| #[trigger] self.round_path(new, c1, c2, gs)
    }

    /// A round of `rebuild` through `c1` (pending unions dropped), `c2`
    /// (congruence restored) and the e-graphs `gs` of the parent repairs.
    pub open spec fn round_path(&self, new: &Self, c1: EGraph, c2: EGraph, gs: Seq<EGraph>) -> bool {
        &&& self.dirty().len() > 0
        &&& c1.uf() == self.uf()
        &&& c1.memo_entries() == self.memo_entries()
        &&& c1.class_entries() == self.class_entries()
        &&& c1.dirty() == Seq::<usize>::empty()
        &&& c1.congruence_fixed(&c2)
        &&& parents_chain(gs, entry_keys(c2.class_entries()))
        &&& gs[0] == c2
        &&& gs.last() == *new
    }

    /// What `rebuild` does: rounds (see `rebuild_round`) until there are no
    /// pending unions.
    pub open spec fn rebuild_done(&self, new: &Self) -> bool {
        exists|hs: Seq<EGraph>|
            #[trigger] rounds_chain(hs) && hs[0] == *self && hs.last() == *new && new.dirty().len() == 0
    }

    /// Calls repair on the dirty unions: while there are any, restores
    /// congruence over the whole e-graph and re-canonicalizes the parents of
    /// every e-class (see `rebuild_done`).
    pub fn rebuild(&mut self)
        requires
            old(self).wf(),
        ensures
            final(self).wf(),
            final(self).dirty() == Seq::<usize>::empty(),
            final(self).size() == old(self).size(),
            final(self).class_entries().len() <= old(self).class_entries().len(),
            forall|i: int, j: int|
                0 <= i < old(self).size() && 0 <= j < old(self).size() && old(self).root(i) == old(self).root(j)
                    ==> #[trigger] final(self).root(i) == #[trigger] final(self).root(j),
            old(self).dirty().len() > 0 ==> final(self).congruent(),
            old(self).dirty().len() > 0 ==> final(self).parents_canonical(),
            old(self).settled() ==> final(self).congruent(),
            old(self).dirty().len() == 0 ==> *final(self) == *old(self),
            old(self).rebuilt(&*final(self)),
            old(self).present_kept(&*final(self)),
    {
        let ghost old_g = *self;
        let ghost mut iterated = false;
        let ghost mut hs: Seq<EGraph> = seq![old_g];
        proof {
            Self::lemma_present_grow(&old_g, &old_g);
        }
        while self.dirty_unions.len() > 0
            invariant
                self.wf(),
                old_g.wf(),
                rounds_chain(hs),
                hs[0] == old_g,
                hs.last() == *self,
                iterated ==> self.parents_canonical(),
                old_g.present_kept(self),
                old_g.dirty().len() > 0 ==> iterated || self.dirty().len() > 0,
                old_g.dirty().len() > 0 || old_g.congruent() ==> self.settled(),
                old_g.dirty().len() == 0 ==> *self == old_g,
                self.size() == old_g.size(),
                self.class_entries().len() <= old_g.class_entries().len(),
                forall|i: int, j: int|
                    0 <= i < old_g.size() && 0 <= j < old_g.size() && old_g.root(i) == old_g.root(j)
                        ==> #[trigger] self.root(i) == #[trigger] self.root(j),
            decreases 2 * self.class_entries().len() + if self.dirty().len() > 0 {
                1int
            } else {
                0int
            },
        {
            let ghost g0 = *self;
            self.dirty_unions = Vec::<Id>::new();
            assert(self.dirty() =~= Seq::<usize>::empty());
            let ghost g1 = *self;
            assert(g1.uf() == g0.uf() && g1.memo_entries() == g0.memo_entries() && g1.class_entries()
                == g0.class_entries());
            assert(g1.ids_ok());
            assert(g1.classes_ok());
            proof {
                Self::lemma_present_grow(&g0, &g1);
            }
            self.force_fix_congruence();
            let ghost g2 = *self;
            proof {
                Self::lemma_present_kept_trans(&old_g, &g0, &g1);
                Self::lemma_present_kept_trans(&old_g, &g1, &g2);
                Self::lemma_present_grow(&g2, &g2);
            }
            let ids = self.get_ids();
            proof {
                assert(ids_view(ids@).len() == ids@.len());
                assert(entry_keys(self.class_entries()).len() == self.class_entries().len());
                assert forall|j: int| 0 <= j < ids@.len() implies #[trigger] ids@[j].0 < self.size() by {
                    assert(ids_view(ids@)[j] == ids@[j].0);
                    assert(ids_view(ids@)[j] == entry_keys(self.class_entries())[j]);
                    assert(self.class_entries()[j].0 < self.size());
                }
            }
            let m = ids.len();
            let mut j: usize = 0;
            let ghost mut gs: Seq<EGraph> = seq![g2];
            let ghost keys = entry_keys(g2.class_entries());
            while j < m
                invariant
                    self.wf(),
                    old_g.wf(),
                    keys == ids_view(ids@),
                    parents_chain(gs, keys.take(j as int)),
                    gs[0] == g2,
                    gs.last() == *self,
                    m == ids@.len(),
                    j <= m,
                    forall|t: int| 0 <= t < m ==> #[trigger] ids@[t].0 < self.size(),
                    self.size() == old_g.size(),
                    self.dirty() == g2.dirty(),
                    g2.present_kept(self),
                    g2.size() == old_g.size(),
                    self.class_entries().len() == g2.class_entries().len(),
                    forall|i: int| #[trigger] self.root(i) == g2.root(i),
                    g2.congruent() ==> self.congruent(),
                    entry_keys(self.class_entries()) == ids_view(ids@),
                    forall|t: int| 0 <= t < j ==> #[trigger] self.parents_canonical_in(self.class_entries()[t].1),
                decreases m - j,
            {
                let ghost g3 = *self;
                proof {
                    assert(ids_view(ids@)[j as int] == ids@[j as int].0);
                    assert(entry_keys(g3.class_entries()).len() == g3.class_entries().len());
                    assert(entry_keys(g3.class_entries())[j as int] == g3.class_entries()[j as int].0);
                    assert(g3.class_entries()[j as int].0 == ids@[j as int].0);
                    assert(g3.class_entries()[j as int].0 < g3.size());
                    assert(g3.uf().is_root(ids@[j as int].0 as int));
                    g3.uf().lemma_is_root_iff(ids@[j as int].0 as int);
                    lemma_key_index(g3.class_entries(), ids@[j as int].0);
                    assert(key_index(g3.class_entries(), ids@[j as int].0) == j);
                }
                self.force_fix_parents(&ids[j]);
                proof {
                    Self::lemma_present_kept_trans(&g2, &g3, self);
                    assert forall|i: int| #[trigger] self.root(i) == g2.root(i) by {
                        assert(self.root(i) == g3.root(i));
                    }
                    let c = ids@[j as int].0;
                    assert(self.class_entries() == g3.class_entries().update(j as int, (c, self.class_entries()[j as int].1)));
                    assert(entry_keys(self.class_entries()) =~= entry_keys(g3.class_entries()));
                    assert forall|t: int| 0 <= t < j + 1 implies #[trigger] self.parents_canonical_in(
                        self.class_entries()[t].1,
                    ) by {
                        if t < j {
                            assert(self.class_entries()[t] == g3.class_entries()[t]);
                            Self::lemma_parents_canonical_kept(&g3, self, g3.class_entries()[t].1);
                        } else {
                            lemma_key_index(self.class_entries(), c);
                        }
                    }
                    if g2.congruent() {
                        assert forall|i: int| #[trigger] self.root(i) == g3.root(i) by {
                        }
                        Self::lemma_congruent_kept(&g3, self);
                    }
                    assert(keys[j as int] == ids@[j as int].0);
                    lemma_parents_push(gs, keys.take(j as int), *self, ids@[j as int].0);
                    assert(keys.take(j as int).push(ids@[j as int].0) =~= keys.take(j + 1));
                    gs = gs.push(*self);
                }
                j = j + 1;
            }
            proof {
                assert forall|i: int, jj: int|
                    0 <= i < old_g.size() && 0 <= jj < old_g.size() && old_g.root(i) == old_g.root(jj)
                        implies #[trigger] self.root(i) == #[trigger] self.root(jj) by {
                    assert(g0.root(i) == g0.root(jj));
                    assert(g1.root(i) == g0.root(i));
                    assert(g1.root(jj) == g0.root(jj));
                    assert(g2.root(i) == g2.root(jj));
                    assert(self.root(i) == g2.root(i));
                    assert(self.root(jj) == g2.root(jj));
                }
                assert(self.dirty().len() == self.dirty_unions@.len());
                assert forall|i: int| 0 <= i < self.class_entries().len() implies #[trigger] self.parents_canonical_in(
                    self.class_entries()[i].1,
                ) by {
                }
                iterated = true;
                Self::lemma_present_kept_trans(&old_g, &g2, self);
                assert(keys.take(m as int) =~= keys);
                assert(g0.rebuild_round(self)) by {
                    assert(parents_chain(gs, entry_keys(g2.class_entries())));
                    assert(g0.round_path(self, g1, g2, gs));
                }
                lemma_rounds_push(hs, *self);
                hs = hs.push(*self);
            }
        }
        assert(self.dirty() =~= Seq::<usize>::empty());
    }

    /// Merges the bindings of `dicts` in order; returns `None` when two of
    /// them bind the same pattern to different e-nodes.
    fn merge_consistent(dicts: Vec<PatternMap>) -> (r: Option<PatternMap>)
        ensures
            r matches Some(m) ==> merge_all(dicts@.map_values(|d: PatternMap| pattern_map_entries(d)))
                == Some(pattern_map_entries(m)),
            r is None ==> merge_all(dicts@.map_values(|d: PatternMap| pattern_map_entries(d))) is None,
            r matches Some(m) ==> forall|i: int, q: int|
                0 <= i < dicts@.len() && 0 <= q < pattern_map_entries(dicts@[i]).len() ==> get_value(
                    pattern_map_entries(m),
                    #[trigger] pattern_map_entries(dicts@[i])[q].0,
                ) == Some(pattern_map_entries(dicts@[i])[q].1),
    {
        let ghost ds = dicts@.map_values(|d: PatternMap| pattern_map_entries(d));
        let mut newd = pattern_map_new();
        let nd = dicts.len();
        let mut i: usize = 0;
        while i < nd
            invariant
                nd == dicts@.len(),
                ds == dicts@.map_values(|d: PatternMap| pattern_map_entries(d)),
                i <= nd,
                merge_all(ds.take(i as int)) == Some(pattern_map_entries(newd)),
            decreases nd - i,
        {
            let d = &dicts[i];
            let ghost start = pattern_map_entries(newd);
            let ghost de = pattern_map_entries(*d);
            assert(ds[i as int] == de);
            let m = pattern_map_len(d);
            let mut j: usize = 0;
            while j < m
                invariant
                    m == de.len(),
                    de == pattern_map_entries(*d),
                    j <= m,
                    nd == dicts@.len(),
                    ds == dicts@.map_values(|d: PatternMap| pattern_map_entries(d)),
                    i < nd,
                    ds[i as int] == de,
                    merge_all(ds.take(i as int)) == Some(start),
                    merge_into(Some(start), de.take(j as int)) == Some(pattern_map_entries(newd)),
                decreases m - j,
            {
                let (k, v) = pattern_map_get_index(d, j);
                proof {
                    assert(de.take(j + 1).drop_last() =~= de.take(j as int));
                    assert(de.take(j + 1).last() == de[j as int]);
                }
                if pattern_map_contains(&newd, k) {
                    let cur = pattern_map_get(&newd, k).unwrap();
                    if *cur != *v {
                        proof {
                            assert(merge_into(Some(start), de.take(j + 1)) is None);
                            Self::lemma_merge_into_none(Some(start), de, j + 1);
                            assert(de.take(m as int) =~= de);
                            assert(ds.take(i + 1).drop_last() =~= ds.take(i as int));
                            Self::lemma_merge_all_none(ds, i + 1);
                            assert(ds.take(nd as int) =~= ds);
                        }
                        return None;
                    }
                } else {
                    let ghost before = pattern_map_entries(newd);
                    pattern_map_insert(&mut newd, k.clone(), v.clone());
                    proof {
                        assert(insert_entry(before, k@, v@) == before.push((k@, v@)));
                    }
                }
                j = j + 1;
            }
            proof {
                assert(de.take(m as int) =~= de);
                assert(ds.take(i + 1).drop_last() =~= ds.take(i as int));
                assert(ds[i as int] == de);
            }
            i = i + 1;
        }
        proof {
            assert(ds.take(nd as int) =~= ds);
            lemma_merge_all_consistent(ds);
            assert forall|i: int, q: int|
                0 <= i < dicts@.len() && 0 <= q < pattern_map_entries(dicts@[i]).len() implies get_value(
                    pattern_map_entries(newd),
                    #[trigger] pattern_map_entries(dicts@[i])[q].0,
                ) == Some(pattern_map_entries(dicts@[i])[q].1) by {
                assert(ds[i] == pattern_map_entries(dicts@[i]));
                assert(get_value(pattern_map_entries(newd), ds[i][q].0) == Some(ds[i][q].1));
            }
        }
        return Some(newd);
    }

    proof fn lemma_merge_into_none(acc: Option<Seq<(PatternV, EnodeV)>>, es: Seq<(PatternV, EnodeV)>, j: int)
        requires
            0 <= j <= es.len(),
            merge_into(acc, es.take(j)) is None,
        ensures
            merge_into(acc, es) is None,
        decreases es.len() - j,
    {
        if j < es.len() {
            assert(es.take(j + 1).drop_last() =~= es.take(j));
            Self::lemma_merge_into_none(acc, es, j + 1);
        } else {
            assert(es.take(j) =~= es);
        }
    }

    proof fn lemma_merge_all_none(ds: Seq<Seq<(PatternV, EnodeV)>>, i: int)
        requires
            0 <= i <= ds.len(),
            merge_all(ds.take(i)) is None,
        ensures
            merge_all(ds) is None,
        decreases ds.len() - i,
    {
        if i < ds.len() {
            assert(ds.take(i + 1).drop_last() =~= ds.take(i));
            Self::lemma_merge_into_none_acc(ds[i], ds[i].len() as int);
            assert(ds[i].take(ds[i].len() as int) =~= ds[i]);
            Self::lemma_merge_all_none(ds, i + 1);
        } else {
            assert(ds.take(i) =~= ds);
        }
    }

    proof fn lemma_merge_into_none_acc(es: Seq<(PatternV, EnodeV)>, j: int)
        requires
            0 <= j <= es.len(),
        ensures
            merge_into(None, es.take(j)) is None,
        decreases j,
    {
        if j > 0 {
            assert(es.take(j).drop_last() =~= es.take(j - 1));
            Self::lemma_merge_into_none_acc(es, j - 1);
        }
    }

    /// The e-class of an argument id, as a value.
    pub open spec fn arg_class(&self, a: usize) -> EClassV {
        get_value(self.class_entries(), self.root(a as int) as usize)->Some_0
    }

    /// `sub` with each of the first `j` of `nodes` recorded under the id
    /// lookup finds for it.
    pub open spec fn sub_with(&self, sub: Seq<(EnodeV, usize)>, nodes: Seq<EnodeV>, j: nat) -> Seq<(EnodeV, usize)>
        decreases j,
    {
        if j == 0 || j > nodes.len() {
            sub
        } else {
            insert_entry(
                self.sub_with(sub, nodes, (j - 1) as nat),
                nodes[j - 1],
                self.lookup_spec(nodes[j - 1])->Some_0,
            )
        }
    }

    /// What matching `p` against the e-class value `c` gives, with the
    /// record `sub` as it is left: a variable is bound to the last e-node
    /// and every e-node is recorded; an operator pattern is tried on the
    /// e-nodes in order (see `term_from`).
    pub open spec fn match_spec(&self, c: EClassV, p: PatternV, sub: Seq<(EnodeV, usize)>) -> (
        Option<Seq<(PatternV, EnodeV)>>,
        Seq<(EnodeV, usize)>,
    )
        decreases p, 2nat, 0int,
    {
        match p {
            PatternV::Var(_) => (Some(var_binding(p, c.0, c.0.len())), self.sub_with(sub, c.0, c.0.len())),
            PatternV::Term(h, ps) => self.term_from(c.0, h, ps, sub, 0),
        }
    }

    /// Trying the operator pattern `h` over `ps` on `nodes` from the `j`-th
    /// on: an e-node of another head or arity is skipped; otherwise every
    /// argument's e-class is matched against its sub-pattern, and when all
    /// match, their bindings merged are the result; else the next e-node
    /// is tried.  `None` when no e-node is left.
    pub open spec fn term_from(
        &self,
        nodes: Seq<EnodeV>,
        h: Seq<char>,
        ps: Seq<PatternV>,
        sub: Seq<(EnodeV, usize)>,
        j: nat,
    ) -> (Option<Seq<(PatternV, EnodeV)>>, Seq<(EnodeV, usize)>)
        decreases ps, 1nat, nodes.len() - j,
    {
        if j >= nodes.len() {
            (None, sub)
        } else {
            let t = nodes[j as int];
            if t.0 != h || t.1.len() != ps.len() {
                self.term_from(nodes, h, ps, sub, j + 1)
            } else {
                let (ds, s2) = self.args_from(t, ps, sub, ps.len());
                if ds.len() == ps.len() {
                    (merge_all(ds), s2)
                } else {
                    self.term_from(nodes, h, ps, s2, j + 1)
                }
            }
        }
    }

    /// Matching the first `k` arguments of `t` (their e-classes) against
    /// the sub-patterns `ps`, in order: the bindings of those that match,
    /// and the record `sub` as it is left.
    pub open spec fn args_from(&self, t: EnodeV, ps: Seq<PatternV>, sub: Seq<(EnodeV, usize)>, k: nat) -> (
        Seq<Seq<(PatternV, EnodeV)>>,
        Seq<(EnodeV, usize)>,
    )
        decreases ps, 0nat, k,
    {
        if k == 0 || k > ps.len() {
            (Seq::empty(), sub)
        } else {
            let (ds, s1) = self.args_from(t, ps, sub, (k - 1) as nat);
            let (d, s2) = self.match_spec(self.arg_class(t.1[k - 1]), ps[k - 1], s1);
            (
                match d {
                    Some(x) => ds.push(x),
                    None => ds,
                },
                s2,
            )
        }
    }

    /// What matching `p` against the single e-node `n` gives, with the
    /// record `sub` as it is left (see `match_spec`).
    pub open spec fn match_node_spec(&self, n: EnodeV, p: PatternV, sub: Seq<(EnodeV, usize)>) -> (
        Option<Seq<(PatternV, EnodeV)>>,
        Seq<(EnodeV, usize)>,
    ) {
        match p {
            PatternV::Var(_) => (Some(seq![(p, n)]), insert_entry(sub, n, self.lookup_spec(n)->Some_0)),
            PatternV::Term(h, ps) => if n.0 != h || n.1.len() != ps.len() {
                (None, sub)
            } else {
                let (ds, s2) = self.args_from(n, ps, sub, ps.len());
                if ds.len() == ps.len() {
                    (merge_all(ds), s2)
                } else {
                    (None, s2)
                }
            },
        }
    }

    /// Whether the pattern `p` matches the e-class of the `k`-th argument
    /// of `t`, from some record.
    pub open spec fn arg_matches(&self, t: EnodeV, p: PatternV, k: int) -> bool {
        exists|s: Seq<(EnodeV, usize)>| (#[trigger] self.match_spec(self.arg_class(t.1[k]), p, s)).0 is Some
    }

    /// Whether `t` has the head `h`, one argument per pattern of `ps`, and
    /// the e-class of each argument matches its pattern.
    pub open spec fn node_fits(&self, t: EnodeV, h: Seq<char>, ps: Seq<PatternV>) -> bool {
        &&& t.0 == h
        &&& t.1.len() == ps.len()
        &&& forall|k: int| 0 <= k < ps.len() ==> #[trigger] self.arg_matches(t, ps[k], k)
    }

    proof fn lemma_args_from_all(&self, t: EnodeV, ps: Seq<PatternV>, sub: Seq<(EnodeV, usize)>, k: nat)
        requires
            k <= ps.len(),
        ensures
            self.args_from(t, ps, sub, k).0.len() <= k,
            self.args_from(t, ps, sub, k).0.len() == k ==> forall|i: int|
                0 <= i < k ==> #[trigger] self.arg_matches(t, ps[i], i),
        decreases k,
    {
        if k > 0 {
            self.lemma_args_from_all(t, ps, sub, (k - 1) as nat);
            let (ds, s1) = self.args_from(t, ps, sub, (k - 1) as nat);
            let (d, s2) = self.match_spec(self.arg_class(t.1[k - 1]), ps[k - 1], s1);
            if self.args_from(t, ps, sub, k).0.len() == k {
                assert(d is Some);
                assert(self.match_spec(self.arg_class(t.1[k - 1]), ps[k - 1], s1).0 is Some);
                assert(self.arg_matches(t, ps[k - 1], k - 1));
            }
        }
    }

    proof fn lemma_term_from_fits(
        &self,
        nodes: Seq<EnodeV>,
        h: Seq<char>,
        ps: Seq<PatternV>,
        sub: Seq<(EnodeV, usize)>,
        j: nat,
    )
        ensures
            self.term_from(nodes, h, ps, sub, j).0 is Some ==> exists|jj: int|
                j <= jj < nodes.len() && #[trigger] self.node_fits(nodes[jj], h, ps),
        decreases nodes.len() - j,
    {
        if j < nodes.len() {
            let t = nodes[j as int];
            if !(t.0 == h && t.1.len() == ps.len()) {
                self.lemma_term_from_fits(nodes, h, ps, sub, j + 1);
            } else {
                let (ds, s2) = self.args_from(t, ps, sub, ps.len());
                self.lemma_args_from_all(t, ps, sub, ps.len());
                if ds.len() == ps.len() {
                    assert(self.node_fits(nodes[j as int], h, ps));
                } else {
                    self.lemma_term_from_fits(nodes, h, ps, s2, j + 1);
                }
            }
        }
    }

    /// An operator pattern matches an e-class only through an e-node of
    /// that e-class with the pattern's head and arity, whose arguments'
    /// e-classes each match the corresponding sub-pattern (so, at every
    /// depth, heads and arities agree; a constant matches only an e-class
    /// holding that constant).
    pub proof fn lemma_match_needs_head(&self, c: EClassV, h: Seq<char>, ps: Seq<PatternV>, sub: Seq<(EnodeV, usize)>)
        ensures
            self.match_spec(c, PatternV::Term(h, ps), sub).0 is Some ==> exists|j: int|
                0 <= j < c.0.len() && #[trigger] self.node_fits(c.0[j], h, ps),
    {
        self.lemma_term_from_fits(c.0, h, ps, sub, 0);
    }

    /// Matching an operator pattern against one e-node succeeds only when
    /// the e-node has the pattern's head and arity and its arguments'
    /// e-classes match the sub-patterns.
    pub proof fn lemma_match_node_needs_head(&self, n: EnodeV, h: Seq<char>, ps: Seq<PatternV>, sub: Seq<(EnodeV, usize)>)
        ensures
            self.match_node_spec(n, PatternV::Term(h, ps), sub).0 is Some ==> self.node_fits(n, h, ps),
    {
        if n.0 == h && n.1.len() == ps.len() {
            self.lemma_args_from_all(n, ps, sub, ps.len());
        }
    }

    /// Every e-node of an e-class is found by `lookup`.
    proof fn lemma_class_node_found(&self, i: int, j: int)
        requires
            self.wf(),
            0 <= i < self.class_entries().len(),
            0 <= j < self.class_entries()[i].1.0.len(),
        ensures
            node_ok(self.class_entries()[i].1.0[j], self.size()),
            self.lookup_spec(self.class_entries()[i].1.0[j]) is Some,
    {
        let t = self.class_entries()[i].1.0[j];
        assert(self.class_entries()[i].0 < self.size());
        assert(class_ok(self.class_entries()[i].1, self.size()));
        assert(self.canon(self.class_entries()[i].1.0[j]) == self.canon(t));
        assert(self.class_holds_canon(i, self.canon(t)));
        assert(self.some_class_holds(self.canon(t)));
    }

    proof fn lemma_insert_keys_kept(e: Seq<(EnodeV, usize)>, k: EnodeV, v: usize)
        requires
            keys_distinct(e),
        ensures
            keys_kept(e, insert_entry(e, k, v)),
            has_key(insert_entry(e, k, v), k),
    {
        assert forall|x: EnodeV| has_key(e, x) implies #[trigger] has_key(insert_entry(e, k, v), x) by {
            lemma_keys_after(e, k, v, x);
        }
        lemma_keys_after(e, k, v, k);
    }

    /// Matches the pattern `p` against the e-nodes of the e-class `cls`.
    /// A variable matches (and is bound to the last e-node); an operator
    /// pattern is tried on the first e-node with the same head and arity,
    /// whose arguments' e-classes must all match the sub-patterns, the
    /// bindings being merged consistently.  Every e-node bound is recorded
    /// in `sub` with the id of its e-class.
    pub(crate) fn match_pattern(&self, cls: &EClass, p: &Pattern, sub: &mut NodeMap) -> (r: Option<PatternMap>)
        requires
            self.wf(),
            class_ok(cls@, self.size()),
            p is PatVar ==> forall|j: int| 0 <= j < cls@.0.len() ==> #[trigger] self.lookup_spec(cls@.0[j]) is Some,
            keys_distinct(node_map_entries(*old(sub))),
        ensures
            (opt_entries(r), node_map_entries(*final(sub))) == self.match_spec(cls@, p@, node_map_entries(*old(sub))),
            keys_distinct(node_map_entries(*final(sub))),
            sub_ok(node_map_entries(*old(sub)), self.size()) ==> sub_ok(node_map_entries(*final(sub)), self.size()),
            keys_kept(node_map_entries(*old(sub)), node_map_entries(*final(sub))),
            r matches Some(d) ==> values_in(pattern_map_entries(d), node_map_entries(*final(sub))),
        decreases p,
    {
        let cn = node_set_len(&cls.nodes);
        match p {
            Pattern::PatVar(s) => {
                let mut m = pattern_map_new();
                let mut j: usize = 0;
                while j < cn
                    invariant
                        self.wf(),
                        class_ok(cls@, self.size()),
                        cn == cls@.0.len(),
                        j <= cn,
                        keys_distinct(node_map_entries(*sub)),
                        sub_ok(node_map_entries(*old(sub)), self.size()) ==> sub_ok(node_map_entries(*sub), self.size()),
                        keys_kept(node_map_entries(*old(sub)), node_map_entries(*sub)),
                        values_in(pattern_map_entries(m), node_map_entries(*sub)),
                        *p == Pattern::PatVar(*s),
                        forall|i: int| 0 <= i < cls@.0.len() ==> #[trigger] self.lookup_spec(cls@.0[i]) is Some,
                        pattern_map_entries(m) == var_binding(p@, cls@.0, j as nat),
                        node_map_entries(*sub) == self.sub_with(node_map_entries(*old(sub)), cls@.0, j as nat),
                    decreases cn - j,
                {
                    let t = node_set_get_index(&cls.nodes, j);
                    proof {
                        assert(node_ok(cls@.0[j as int], self.size()));
                        assert(self.lookup_spec(cls@.0[j as int]) is Some);
                    }
                    let ghost m0 = pattern_map_entries(m);
                    pattern_map_insert(&mut m, Pattern::PatVar(s.clone()), t.clone());
                    proof {
                        let pv = Pattern::PatVar(*s)@;
                        assert(pv == p@);
                        if j > 0 {
                            assert(m0[0].0 == pv);
                            assert(has_key(m0, pv));
                            lemma_key_index(m0, pv);
                            assert(key_index(m0, pv) == 0);
                        }
                        assert(pattern_map_entries(m) =~= var_binding(p@, cls@.0, (j + 1) as nat));
                    }
                    let id = self.lookup(t).unwrap();
                    let ghost s0 = node_map_entries(*sub);
                    node_map_insert(sub, t.clone(), id);
                    proof {
                        let s1 = node_map_entries(*sub);
                        Self::lemma_insert_keys_kept(s0, t@, id.0);
                        lemma_distinct_kept(s0, t@, id.0);
                        let sz = self.size();
                        if sub_ok(s0, sz) {
                            let pred = |e: (EnodeV, usize)| e.1 < sz;
                            lemma_entries_keep(s0, t@, id.0, pred);
                            assert forall|q: int| 0 <= q < s1.len() implies #[trigger] s1[q].1 < sz by {
                                assert(pred(s1[q]));
                            }
                        }
                        let m1 = pattern_map_entries(m);
                        assert forall|q: int| 0 <= q < m1.len() implies has_key(s1, #[trigger] m1[q].1) by {
                            let pv = Pattern::PatVar(*s)@;
                            let hasv = |e: (PatternV, EnodeV)| has_key(s1, e.1);
                            if has_key(m0, pv) {
                                if q == key_index(m0, pv) {
                                } else {
                                    assert(m1[q] == m0[q]);
                                    assert(has_key(s0, m0[q].1));
                                }
                            } else {
                                if q < m0.len() {
                                    assert(m1[q] == m0[q]);
                                    assert(has_key(s0, m0[q].1));
                                }
                            }
                        }
                    }
                    j = j + 1;
                }
                return Some(m);
            },
            Pattern::PatTerm(p_head, p_args) => {
                let ghost ps = p@->Term_1;
                let mut j: usize = 0;
                while j < cn
                    invariant
                        self.wf(),
                        *p == Pattern::PatTerm(*p_head, *p_args),
                        class_ok(cls@, self.size()),
                        cn == cls@.0.len(),
                        j <= cn,
                        keys_distinct(node_map_entries(*sub)),
                        sub_ok(node_map_entries(*old(sub)), self.size()) ==> sub_ok(node_map_entries(*sub), self.size()),
                        keys_kept(node_map_entries(*old(sub)), node_map_entries(*sub)),
                        p@ == PatternV::Term(p_head@, ps),
                        ps.len() == p_args@.len(),
                        forall|q: int| 0 <= q < ps.len() ==> #[trigger] ps[q] == p_args@[q]@,
                        self.term_from(cls@.0, p_head@, ps, node_map_entries(*sub), j as nat) == self.match_spec(
                            cls@,
                            p@,
                            node_map_entries(*old(sub)),
                        ),
                    decreases cn - j,
                {
                    let t = node_set_get_index(&cls.nodes, j);
                    proof {
                        assert(node_ok(cls@.0[j as int], self.size()));
                    }
                    if t.head != *p_head || t.len() != p_args.len() {
                        j = j + 1;
                        continue;
                    }
                    let ghost sub_start = node_map_entries(*sub);
                    let mut subres: Vec<PatternMap> = Vec::new();
                    let mut matching: usize = 0;
                    let tl = t.len();
                    let mut k: usize = 0;
                    while k < tl
                        invariant
                            self.wf(),
                            *p == Pattern::PatTerm(*p_head, *p_args),
                            tl == t@.1.len(),
                            tl == p_args@.len(),
                            node_ok(t@, self.size()),
                            k <= tl,
                            matching <= k,
                            matching == subres@.len(),
                            keys_distinct(node_map_entries(*sub)),
                            sub_ok(node_map_entries(*old(sub)), self.size()) ==> sub_ok(node_map_entries(*sub), self.size()),
                            keys_kept(node_map_entries(*old(sub)), node_map_entries(*sub)),
                            forall|q: int| 0 <= q < subres@.len() ==> values_in(
                                #[trigger] pattern_map_entries(subres@[q]),
                                node_map_entries(*sub),
                            ),
                            ps.len() == p_args@.len(),
                            forall|q: int| 0 <= q < ps.len() ==> #[trigger] ps[q] == p_args@[q]@,
                            self.args_from(t@, ps, sub_start, k as nat) == (maps_entries(subres@), node_map_entries(*sub)),
                        decreases tl - k,
                    {
                        assert(t@.1[k as int] < self.size());
                        assert(t.args@[k as int].0 == t@.1[k as int]);
                        let new = self.find(t.args[k]);
                        proof {
                            assert(self.is_class(new.0 as int));
                            lemma_key_index(self.class_entries(), new.0);
                        }
                        let c = self.get_eclass_cpy(new).unwrap();
                        proof {
                            let q = key_index(self.class_entries(), new.0);
                            assert(self.class_entries()[q].1 == c@);
                            assert(self.class_entries()[q].0 < self.size());
                            assert forall|j: int| 0 <= j < c@.0.len() implies #[trigger] self.lookup_spec(c@.0[j]) is Some by {
                                self.lemma_class_node_found(q, j);
                            }
                            assert(decreases_to!(*p => (*p)->PatTerm_1));
                            assert(decreases_to!(*p_args => p_args@));
                            assert(decreases_to!(p_args@ => p_args@[k as int]));
                        }
                        let ghost s0 = node_map_entries(*sub);
                        let ghost prev_res = subres@;
                        let d = self.match_pattern(&c, &p_args[k], sub);
                        proof {
                            assert(c@ == self.arg_class(t@.1[k as int]));
                            assert(ps[k as int] == p_args@[k as int]@);
                            let s1 = node_map_entries(*sub);
                            assert forall|q: int| 0 <= q < subres@.len() implies values_in(
                                #[trigger] pattern_map_entries(subres@[q]),
                                s1,
                            ) by {
                                lemma_values_in_kept(pattern_map_entries(subres@[q]), s0, s1);
                            }
                            assert forall|x: EnodeV| has_key(node_map_entries(*old(sub)), x) implies #[trigger] has_key(
                                s1,
                                x,
                            ) by {
                                assert(has_key(s0, x));
                            }
                        }
                        if let Some(d) = d {
                            let ghost prev = subres@;
                            subres.push(d);
                            matching = matching + 1;
                            proof {
                                assert forall|q: int| 0 <= q < subres@.len() implies values_in(
                                    #[trigger] pattern_map_entries(subres@[q]),
                                    node_map_entries(*sub),
                                ) by {
                                    if q < prev.len() {
                                        assert(subres@[q] == prev[q]);
                                    }
                                }
                                assert(maps_entries(subres@) =~= maps_entries(prev).push(pattern_map_entries(d)));
                            }
                        }
                        k = k + 1;
                    }
                    proof {
                        assert(tl as nat == ps.len());
                        assert(maps_entries(subres@).len() == matching);
                    }
                    if matching == tl {
                        let ghost ds = subres@.map_values(|d: PatternMap| pattern_map_entries(d));
                        proof {
                            assert forall|i: int| 0 <= i < ds.len() implies values_in(#[trigger] ds[i], node_map_entries(*sub)) by {
                                assert(ds[i] == pattern_map_entries(subres@[i]));
                            }
                            lemma_merge_all_values(ds, node_map_entries(*sub));
                        }
                        return EGraph::merge_consistent(subres);
                    }
                    j = j + 1;
                }
                return None;
            },
        }
    }

    /// Matches the pattern `p` against the single e-node `n` (its
    /// arguments' e-classes against the sub-patterns), as `match_pattern`
    /// does for each e-node of an e-class.
    pub(crate) fn match_pattern_with_enode(&self, n: &Enode, p: &Pattern, sub: &mut NodeMap) -> (r: Option<PatternMap>)
        requires
            self.wf(),
            node_ok(n@, self.size()),
            p is PatVar ==> self.lookup_spec(n@) is Some,
            keys_distinct(node_map_entries(*old(sub))),
        ensures
            (opt_entries(r), node_map_entries(*final(sub))) == self.match_node_spec(n@, p@, node_map_entries(*old(sub))),
            keys_distinct(node_map_entries(*final(sub))),
            sub_ok(node_map_entries(*old(sub)), self.size()) ==> sub_ok(node_map_entries(*final(sub)), self.size()),
            keys_kept(node_map_entries(*old(sub)), node_map_entries(*final(sub))),
            r matches Some(d) ==> values_in(pattern_map_entries(d), node_map_entries(*final(sub))),
    {
        match p {
            Pattern::PatVar(s) => {
                let mut m = pattern_map_new();
                pattern_map_insert(&mut m, Pattern::PatVar(s.clone()), n.clone());
                let id = self.lookup(n).unwrap();
                let ghost s0 = node_map_entries(*sub);
                node_map_insert(sub, n.clone(), id);
                proof {
                    let s1 = node_map_entries(*sub);
                    Self::lemma_insert_keys_kept(s0, n@, id.0);
                    lemma_distinct_kept(s0, n@, id.0);
                    let sz = self.size();
                    if sub_ok(s0, sz) {
                        let pred = |e: (EnodeV, usize)| e.1 < sz;
                        lemma_entries_keep(s0, n@, id.0, pred);
                        assert forall|q: int| 0 <= q < s1.len() implies #[trigger] s1[q].1 < sz by {
                            assert(pred(s1[q]));
                        }
                    }
                    let m1 = pattern_map_entries(m);
                    assert(m1 == seq![(Pattern::PatVar(*s)@, n@)]);
                    assert(Pattern::PatVar(*s)@ == p@);
                    assert forall|q: int| 0 <= q < m1.len() implies has_key(s1, #[trigger] m1[q].1) by {
                    }
                }
                return Some(m);
            },
            Pattern::PatTerm(p_head, p_args) => {
                let ghost ps = p@->Term_1;
                let ghost sub_start = node_map_entries(*sub);
                if n.head != *p_head || n.len() != p_args.len() {
                    return None;
                }
                let mut subres: Vec<PatternMap> = Vec::new();
                let mut matching: usize = 0;
                let tl = n.len();
                let mut k: usize = 0;
                while k < tl
                    invariant
                        self.wf(),
                        tl == n@.1.len(),
                        tl == p_args@.len(),
                        node_ok(n@, self.size()),
                        k <= tl,
                        matching <= k,
                        matching == subres@.len(),
                        keys_distinct(node_map_entries(*sub)),
                        sub_ok(node_map_entries(*old(sub)), self.size()) ==> sub_ok(node_map_entries(*sub), self.size()),
                        keys_kept(node_map_entries(*old(sub)), node_map_entries(*sub)),
                        forall|q: int| 0 <= q < subres@.len() ==> values_in(
                            #[trigger] pattern_map_entries(subres@[q]),
                            node_map_entries(*sub),
                        ),
                        ps.len() == p_args@.len(),
                        forall|q: int| 0 <= q < ps.len() ==> #[trigger] ps[q] == p_args@[q]@,
                        self.args_from(n@, ps, sub_start, k as nat) == (maps_entries(subres@), node_map_entries(*sub)),
                    decreases tl - k,
                {
                    assert(n@.1[k as int] < self.size());
                    assert(n.args@[k as int].0 == n@.1[k as int]);
                    let new = self.find(n.args[k]);
                    proof {
                        assert(self.is_class(new.0 as int));
                        lemma_key_index(self.class_entries(), new.0);
                    }
                    let c = self.get_eclass_cpy(new).unwrap();
                    proof {
                        let q = key_index(self.class_entries(), new.0);
                        assert(self.class_entries()[q].1 == c@);
                        assert(self.class_entries()[q].0 < self.size());
                        assert(class_ok(c@, self.size()));
                        assert forall|j: int| 0 <= j < c@.0.len() implies #[trigger] self.lookup_spec(c@.0[j]) is Some by {
                            self.lemma_class_node_found(q, j);
                        }
                    }
                    let ghost s0 = node_map_entries(*sub);
                    let d = self.match_pattern(&c, &p_args[k], sub);
                    proof {
                        assert(c@ == self.arg_class(n@.1[k as int]));
                        assert(ps[k as int] == p_args@[k as int]@);
                        let s1 = node_map_entries(*sub);
                        assert forall|q: int| 0 <= q < subres@.len() implies values_in(
                            #[trigger] pattern_map_entries(subres@[q]),
                            s1,
                        ) by {
                            lemma_values_in_kept(pattern_map_entries(subres@[q]), s0, s1);
                        }
                        assert forall|x: EnodeV| has_key(node_map_entries(*old(sub)), x) implies #[trigger] has_key(
                            s1,
                            x,
                        ) by {
                            assert(has_key(s0, x));
                        }
                    }
                    if let Some(d) = d {
                        let ghost prev = subres@;
                        subres.push(d);
                        matching = matching + 1;
                        proof {
                            assert forall|q: int| 0 <= q < subres@.len() implies values_in(
                                #[trigger] pattern_map_entries(subres@[q]),
                                node_map_entries(*sub),
                            ) by {
                                if q < prev.len() {
                                    assert(subres@[q] == prev[q]);
                                }
                            }
                            assert(maps_entries(subres@) =~= maps_entries(prev).push(pattern_map_entries(d)));
                        }
                    }
                    k = k + 1;
                }
                proof {
                    assert(tl as nat == ps.len());
                    assert(maps_entries(subres@).len() == matching);
                }
                if matching == tl {
                    let ghost ds = subres@.map_values(|d: PatternMap| pattern_map_entries(d));
                    proof {
                        assert forall|i: int| 0 <= i < ds.len() implies values_in(#[trigger] ds[i], node_map_entries(*sub)) by {
                            assert(ds[i] == pattern_map_entries(subres@[i]));
                        }
                        lemma_merge_all_values(ds, node_map_entries(*sub));
                    }
                    return EGraph::merge_consistent(subres);
                }
                return None;
            },
        }
    }

    /// The id the instance of `p` stands for under the bindings `tr` and
    /// the record `sub`: a variable gives the id recorded for the e-node it
    /// is bound to; an operator pattern gives what lookup finds for its
    /// head applied to the ids of its sub-patterns.  `None` when a variable
    /// is unbound or lookup finds nothing.
    pub open spec fn pattern_id(&self, p: PatternV, tr: Seq<(PatternV, EnodeV)>, sub: Seq<(EnodeV, usize)>) -> Option<
        usize,
    >
        decreases p, 0nat,
    {
        match p {
            PatternV::Var(_) => match get_value(tr, p) {
                Some(t) => get_value(sub, t),
                None => None,
            },
            PatternV::Term(h, ps) => match self.pattern_ids(ps, tr, sub, ps.len()) {
                Some(ids) => self.lookup_spec((h, ids)),
                None => None,
            },
        }
    }

    /// The ids of the instances of the first `k` of `ps`.
    pub open spec fn pattern_ids(
        &self,
        ps: Seq<PatternV>,
        tr: Seq<(PatternV, EnodeV)>,
        sub: Seq<(EnodeV, usize)>,
        k: nat,
    ) -> Option<Seq<usize>>
        decreases ps, k,
    {
        if k == 0 || k > ps.len() {
            Some(Seq::empty())
        } else {
            match (self.pattern_ids(ps, tr, sub, (k - 1) as nat), self.pattern_id(ps[k - 1], tr, sub)) {
                (Some(ids), Some(i)) => Some(ids.push(i)),
                _ => None,
            }
        }
    }

    proof fn lemma_pattern_id_range(&self, p: PatternV, tr: Seq<(PatternV, EnodeV)>, sub: Seq<(EnodeV, usize)>)
        requires
            self.wf(),
            sub_ok(sub, self.size()),
        ensures
            self.pattern_id(p, tr, sub) matches Some(x) ==> x < self.size(),
        decreases p, 0nat,
    {
        match p {
            PatternV::Var(_) => {
                if let Some(t) = get_value(tr, p) {
                    lemma_key_index(sub, t);
                    if has_key(sub, t) {
                        assert(sub[key_index(sub, t)].1 < self.size());
                    }
                }
            },
            PatternV::Term(h, ps) => {
                self.lemma_pattern_ids_range(ps, tr, sub, ps.len());
                if let Some(ids) = self.pattern_ids(ps, tr, sub, ps.len()) {
                    assert(node_ok((h, ids), self.size()));
                    self.lemma_lookup_range((h, ids));
                }
            },
        }
    }

    proof fn lemma_pattern_ids_range(&self, ps: Seq<PatternV>, tr: Seq<(PatternV, EnodeV)>, sub: Seq<(EnodeV, usize)>, k: nat)
        requires
            self.wf(),
            sub_ok(sub, self.size()),
        ensures
            self.pattern_ids(ps, tr, sub, k) matches Some(ids) ==> forall|j: int|
                0 <= j < ids.len() ==> #[trigger] ids[j] < self.size(),
        decreases ps, k,
    {
        if !(k == 0 || k > ps.len()) {
            self.lemma_pattern_ids_range(ps, tr, sub, (k - 1) as nat);
            self.lemma_pattern_id_range(ps[k - 1], tr, sub);
            if let Some(ids) = self.pattern_ids(ps, tr, sub, k) {
                let prev = self.pattern_ids(ps, tr, sub, (k - 1) as nat)->Some_0;
                let last = self.pattern_id(ps[k - 1], tr, sub)->Some_0;
                assert(ids == prev.push(last));
                assert forall|j: int| 0 <= j < ids.len() implies #[trigger] ids[j] < self.size() by {
                    if j < prev.len() {
                        assert(ids[j] == prev[j]);
                        assert(prev[j] < self.size());
                    }
                }
            }
        }
    }

    proof fn lemma_pattern_id_kept(&self, g2: &Self, p: PatternV, tr: Seq<(PatternV, EnodeV)>, sub: Seq<(EnodeV, usize)>)
        requires
            self.wf(),
            sub_ok(sub, self.size()),
            self.lookups_kept(g2),
            self.pattern_id(p, tr, sub) is Some,
        ensures
            g2.pattern_id(p, tr, sub) == self.pattern_id(p, tr, sub),
        decreases p, 0nat,
    {
        match p {
            PatternV::Var(_) => {},
            PatternV::Term(h, ps) => {
                self.lemma_pattern_ids_kept(g2, ps, tr, sub, ps.len());
                self.lemma_pattern_ids_range(ps, tr, sub, ps.len());
                let ids = self.pattern_ids(ps, tr, sub, ps.len())->Some_0;
                assert(node_ok((h, ids), self.size()));
            },
        }
    }

    proof fn lemma_pattern_ids_kept(
        &self,
        g2: &Self,
        ps: Seq<PatternV>,
        tr: Seq<(PatternV, EnodeV)>,
        sub: Seq<(EnodeV, usize)>,
        k: nat,
    )
        requires
            self.wf(),
            sub_ok(sub, self.size()),
            self.lookups_kept(g2),
            self.pattern_ids(ps, tr, sub, k) is Some,
        ensures
            g2.pattern_ids(ps, tr, sub, k) == self.pattern_ids(ps, tr, sub, k),
        decreases ps, k,
    {
        if !(k == 0 || k > ps.len()) {
            self.lemma_pattern_ids_kept(g2, ps, tr, sub, (k - 1) as nat);
            self.lemma_pattern_id_kept(g2, ps[k - 1], tr, sub);
        }
    }

    proof fn lemma_pattern_ids_none(&self, ps: Seq<PatternV>, tr: Seq<(PatternV, EnodeV)>, sub: Seq<(EnodeV, usize)>, m: nat, k: nat)
        requires
            1 <= m <= k <= ps.len(),
            self.pattern_ids(ps, tr, sub, m) is None,
        ensures
            self.pattern_ids(ps, tr, sub, k) is None,
        decreases k,
    {
        if m < k {
            self.lemma_pattern_ids_none(ps, tr, sub, m, (k - 1) as nat);
        }
    }

    proof fn lemma_sub_ok_grow(e: Seq<(EnodeV, usize)>, a: nat, b: nat)
        requires
            sub_ok(e, a),
            a <= b,
        ensures
            sub_ok(e, b),
    {
        assert forall|q: int| 0 <= q < e.len() implies #[trigger] e[q].1 < b by {
            assert(e[q].1 < a);
        }
    }

    /// What building the instance of `p` under the bindings `tr` and the
    /// record `sub` does, with result `r`, as the steps in `t` record it: a
    /// variable changes nothing and gives the id recorded for the e-node it
    /// is bound to; an operator pattern builds the instances of its
    /// arguments in order (the e-graphs in between and their ids are those
    /// of `t`), stopping with `None` at the first that fails, then adds the
    /// e-node of its head over their ids (see `pushed`).
    pub open spec fn instance_added(
        &self,
        new: &Self,
        p: PatternV,
        tr: Seq<(PatternV, EnodeV)>,
        sub: Seq<(EnodeV, usize)>,
        r: Option<usize>,
        t: BuildTrace,
    ) -> bool
        decreases p, 0nat,
    {
        match p {
            PatternV::Var(_) => t is Var && *new == *self && r == self.pattern_id(p, tr, sub),
            PatternV::Term(h, ps) => match t {
                BuildTrace::Var => false,
                BuildTrace::Term(ts, gs, ids) => {
                    let k = ids.len();
                    &&& gs.len() == k + 1 && k <= ps.len()
                    &&& ts.len() == if k < ps.len() {
                        k + 1
                    } else {
                        k
                    }
                    &&& gs[0] == *self
                    &&& self.args_built(ts, gs, ids, ps, tr, sub, k)
                    &&& if k < ps.len() {
                        &&& gs[k as int].instance_added(new, ps[k as int], tr, sub, None, ts[k as int])
                        &&& r is None
                    } else {
                        r matches Some(id) && gs[k as int].pushed(new, (h, ids), id)
                    }
                },
            },
        }
    }

    /// The first `k` arguments were built with results `ids`, the `j`-th
    /// leading from `gs[j]` to `gs[j + 1]` by the steps `ts[j]`.
    pub open spec fn args_built(
        &self,
        ts: Seq<BuildTrace>,
        gs: Seq<EGraph>,
        ids: Seq<usize>,
        ps: Seq<PatternV>,
        tr: Seq<(PatternV, EnodeV)>,
        sub: Seq<(EnodeV, usize)>,
        k: nat,
    ) -> bool
        decreases ps, k,
    {
        if k == 0 || k > ps.len() {
            true
        } else {
            &&& self.args_built(ts, gs, ids, ps, tr, sub, (k - 1) as nat)
            &&& gs[k - 1].instance_added(&gs[k as int], ps[k - 1], tr, sub, Some(ids[k - 1]), ts[k - 1])
        }
    }

    /// `args_built` looks only at the first `k` steps.
    proof fn lemma_args_built_prefix(
        &self,
        ts: Seq<BuildTrace>,
        gs: Seq<EGraph>,
        ids: Seq<usize>,
        ts2: Seq<BuildTrace>,
        gs2: Seq<EGraph>,
        ids2: Seq<usize>,
        ps: Seq<PatternV>,
        tr: Seq<(PatternV, EnodeV)>,
        sub: Seq<(EnodeV, usize)>,
        k: nat,
    )
        requires
            self.args_built(ts, gs, ids, ps, tr, sub, k),
            k <= ts.len(),
            k <= ts2.len(),
            k < gs.len(),
            k < gs2.len(),
            k <= ids.len(),
            k <= ids2.len(),
            forall|j: int| 0 <= j < k ==> ts2[j] == ts[j] && ids2[j] == ids[j],
            forall|j: int| 0 <= j <= k ==> gs2[j] == gs[j],
        ensures
            self.args_built(ts2, gs2, ids2, ps, tr, sub, k),
        decreases k,
    {
        if k > 0 && k <= ps.len() {
            self.lemma_args_built_prefix(ts, gs, ids, ts2, gs2, ids2, ps, tr, sub, (k - 1) as nat);
            assert(gs2[k - 1] == gs[k - 1]);
            assert(gs2[k as int] == gs[k as int]);
        }
    }

    /// Adds the instance of `p` under the bindings `bindings` to the
    /// e-graph and returns the canonical id of its e-class: a variable
    /// gives the id recorded in `sub` for the e-node it is bound to
    /// (`None` when it is unbound); an operator pattern pushes the e-node of
    /// its head applied to the ids of its instantiated sub-patterns.
    fn instantiate(&mut self, p: &Pattern, bindings: &PatternMap, sub: &NodeMap) -> (r: Option<Id>)
        requires
            old(self).wf(),
            sub_ok(node_map_entries(*sub), old(self).size()),
            values_in(pattern_map_entries(*bindings), node_map_entries(*sub)),
        ensures
            final(self).wf(),
            final(self).size() >= old(self).size(),
            forall|i: int| 0 <= i < old(self).size() ==> #[trigger] final(self).root(i) == old(self).root(i),
            final(self).size() - final(self).class_entries().len() == old(self).size()
                - old(self).class_entries().len(),
            final(self).dirty() == old(self).dirty(),
            r matches Some(id) ==> id.0 < final(self).size(),
            r is Some <==> vars_bound(p@, pattern_map_entries(*bindings)),
            old(self).congruent() ==> final(self).congruent(),
            p is PatVar ==> *final(self) == *old(self),
            p is PatVar ==> (r is Some <==> has_key(pattern_map_entries(*bindings), p@)),
            p is PatVar ==> (r matches Some(id) ==> get_value(
                node_map_entries(*sub),
                get_value(pattern_map_entries(*bindings), p@).unwrap(),
            ) == Some(id.0)),
            match r {
                Some(id) => final(self).pattern_id(p@, pattern_map_entries(*bindings), node_map_entries(*sub))
                    == Some(id.0),
                None => final(self).pattern_id(p@, pattern_map_entries(*bindings), node_map_entries(*sub)) is None,
            },
            old(self).lookups_kept(&*final(self)),
            old(self).present_kept(&*final(self)),
            exists|t: BuildTrace|
                #[trigger] old(self).instance_added(
                    &*final(self),
                    p@,
                    pattern_map_entries(*bindings),
                    node_map_entries(*sub),
                    opt_id(r),
                    t,
                ),
        decreases p,
    {
        match p {
            Pattern::PatVar(s) => {
                let key = Pattern::PatVar(s.clone());
                if let Some(t) = pattern_map_get(bindings, &key) {
                    proof {
                        let te = pattern_map_entries(*bindings);
                        let q = key_index(te, p@);
                        assert(has_key(node_map_entries(*sub), te[q].1));
                        lemma_key_index(node_map_entries(*sub), t@);
                    }
                    let tid = node_map_get(sub, t);
                    proof {
                        Self::lemma_present_grow(self, self);
                        assert(self.pattern_id(p@, pattern_map_entries(*bindings), node_map_entries(*sub)) == Some(
                            tid.unwrap().0,
                        ));
                        assert(self.instance_added(
                            self,
                            p@,
                            pattern_map_entries(*bindings),
                            node_map_entries(*sub),
                            Some(tid.unwrap().0),
                            BuildTrace::Var,
                        ));
                    }
                    return Some(tid.unwrap());
                } else {
                    proof {
                        Self::lemma_present_grow(self, self);
                        assert(self.pattern_id(p@, pattern_map_entries(*bindings), node_map_entries(*sub)) is None);
                        assert(self.instance_added(
                            self,
                            p@,
                            pattern_map_entries(*bindings),
                            node_map_entries(*sub),
                            None,
                            BuildTrace::Var,
                        ));
                    }
                    return None;
                }
            },
            Pattern::PatTerm(p_head, p_args) => {
                let ghost old_g = *self;
                let ghost ps = p@->Term_1;
                let ghost tr = pattern_map_entries(*bindings);
                let ghost se = node_map_entries(*sub);
                let mut t = Enode::new(p_head.clone());
                proof {
                    Self::lemma_present_grow(&old_g, &old_g);
                    assert(t@.1 =~= Seq::<usize>::empty());
                    assert forall|x: EnodeV| node_ok(x, old_g.size()) && #[trigger] old_g.lookup_spec(x) is Some implies self.lookup_spec(x) == old_g.lookup_spec(x) by {
                    }
                }
                let na = p_args.len();
                let mut k: usize = 0;
                let ghost mut ts: Seq<BuildTrace> = Seq::empty();
                let ghost mut gs: Seq<EGraph> = seq![old_g];
                while k < na
                    invariant
                        *p == Pattern::PatTerm(*p_head, *p_args),
                        na == p_args@.len(),
                        k <= na,
                        old_g == *old(self),
                        self.wf(),
                        old_g.wf(),
                        self.size() >= old_g.size(),
                        forall|i: int| 0 <= i < old_g.size() ==> #[trigger] self.root(i) == old_g.root(i),
                        self.size() - self.class_entries().len() == old_g.size() - old_g.class_entries().len(),
                        self.dirty() == old_g.dirty(),
                        sub_ok(node_map_entries(*sub), self.size()),
                        values_in(pattern_map_entries(*bindings), node_map_entries(*sub)),
                        node_ok(t@, self.size()),
                        ps == p@->Term_1,
                        ps.len() == p_args@.len(),
                        forall|q: int| 0 <= q < ps.len() ==> #[trigger] ps[q] == p_args@[q]@,
                        t@.0 == p_head@,
                        self.pattern_ids(ps, tr, se, k as nat) == Some(t@.1),
                        gs.len() == k + 1,
                        ts.len() == k,
                        t@.1.len() == k,
                        gs[0] == old_g,
                        gs[k as int] == *self,
                        old_g.args_built(ts, gs, t@.1, ps, tr, se, k as nat),
                        args_bound(ps, tr, k as nat),
                        old_g.congruent() ==> self.congruent(),
                        old_g.lookups_kept(self),
                        old_g.present_kept(self),
                        tr == pattern_map_entries(*bindings),
                        se == node_map_entries(*sub),
                    decreases na - k,
                {
                    proof {
                        assert(decreases_to!(*p => (*p)->PatTerm_1));
                        assert(decreases_to!(*p_args => p_args@));
                        assert(decreases_to!(p_args@ => p_args@[k as int]));
                    }
                    let ghost g0 = *self;
                    let ghost g0_ids = t@.1;
                    let res = self.instantiate(&p_args[k], bindings, sub);
                    proof {
                        Self::lemma_sub_ok_grow(node_map_entries(*sub), g0.size(), self.size());
                        assert forall|i: int| 0 <= i < old_g.size() implies #[trigger] self.root(i) == old_g.root(i) by {
                            assert(self.root(i) == g0.root(i));
                        }
                        g0.lemma_pattern_ids_kept(self, ps, tr, se, k as nat);
                        Self::lemma_lookups_kept_trans(&old_g, &g0, self);
                        Self::lemma_present_kept_trans(&old_g, &g0, self);
                        assert(ps[k as int] == p_args@[k as int]@);
                    }
                    if let Some(id) = res {
                        let ghost prev = t@;
                        t.args.push(id);
                        proof {
                            assert(t@.1 =~= prev.1.push(id.0));
                            let tj = choose|tj: BuildTrace| g0.instance_added(self, ps[k as int], tr, se, Some(id.0), tj);
                            let ts2 = ts.push(tj);
                            let gs2 = gs.push(*self);
                            old_g.lemma_args_built_prefix(ts, gs, prev.1, ts2, gs2, t@.1, ps, tr, se, k as nat);
                            assert(gs2[k as int] == g0);
                            assert(old_g.args_built(ts2, gs2, t@.1, ps, tr, se, (k + 1) as nat));
                            ts = ts2;
                            gs = gs2;
                            assert forall|j: int| 0 <= j < t@.1.len() implies #[trigger] t@.1[j] < self.size() by {
                                if j < prev.1.len() {
                                    assert(t@.1[j] == prev.1[j]);
                                }
                            }
                            assert(t@.1 =~= prev.1.push(id.0));
                        }
                    } else {
                        proof {
                            assert(self.pattern_ids(ps, tr, se, (k + 1) as nat) is None);
                            self.lemma_pattern_ids_none(ps, tr, se, (k + 1) as nat, ps.len());
                            assert(!args_bound(ps, tr, (k + 1) as nat));
                            lemma_args_unbound(ps, tr, (k + 1) as nat, ps.len());
                            let tj = choose|tj: BuildTrace| g0.instance_added(self, ps[k as int], tr, se, None, tj);
                            let ts2 = ts.push(tj);
                            old_g.lemma_args_built_prefix(ts, gs, g0_ids, ts2, gs, g0_ids, ps, tr, se, k as nat);
                            assert(p@ == PatternV::Term(p_head@, ps));
                            assert(old_g.instance_added(self, p@, tr, se, None, BuildTrace::Term(ts2, gs, g0_ids)));
                        }
                        return None;
                    }
                    k = k + 1;
                }
                let ghost g1 = *self;
                let ghost tv = t@;
                let id = self.push_eclass(&mut t);
                proof {
                    assert(g1.pushed(self, (p_head@, tv.1), id.0));
                    assert(p@ == PatternV::Term(p_head@, ps));
                    assert(old_g.instance_added(self, p@, tr, se, Some(id.0), BuildTrace::Term(ts, gs, tv.1)));
                    assert forall|i: int| 0 <= i < old_g.size() implies #[trigger] self.root(i) == old_g.root(i) by {
                        assert(self.root(i) == g1.root(i));
                    }
                    assert(g1.lookups_kept(self));
                    g1.lemma_pattern_ids_kept(self, ps, tr, se, ps.len());
                    Self::lemma_lookups_kept_trans(&old_g, &g1, self);
                    Self::lemma_present_kept_trans(&old_g, &g1, self);
                }
                return Some(id);
            },
        }
    }

    /// How many merges an e-graph has seen: ids handed out minus e-classes.
    pub open spec fn merges(&self) -> int {
        self.size() - self.class_entries().len()
    }

    /// Two ids in one e-class stay in one e-class.
    pub open spec fn coarsens(&self, old_g: &Self) -> bool {
        forall|i: int, j: int|
            0 <= i < old_g.size() && 0 <= j < old_g.size() && old_g.root(i) == old_g.root(j)
                ==> #[trigger] self.root(i) == #[trigger] self.root(j)
    }

    /// Matching `p` against each of `nodes`, in order, from the record
    /// `sub`: the results, and the record as it is left.
    pub open spec fn match_all(&self, nodes: Seq<EnodeV>, p: PatternV, sub: Seq<(EnodeV, usize)>) -> (
        Seq<Option<Seq<(PatternV, EnodeV)>>>,
        Seq<(EnodeV, usize)>,
    )
        decreases nodes.len(),
    {
        if nodes.len() == 0 {
            (Seq::empty(), sub)
        } else {
            let prev = self.match_all(nodes.drop_last(), p, sub);
            let cur = self.match_node_spec(nodes.last(), p, prev.1);
            (prev.0.push(cur.0), cur.1)
        }
    }

    proof fn lemma_match_all_len(&self, nodes: Seq<EnodeV>, p: PatternV, sub: Seq<(EnodeV, usize)>)
        ensures
            self.match_all(nodes, p, sub).0.len() == nodes.len(),
        decreases nodes.len(),
    {
        if nodes.len() > 0 {
            self.lemma_match_all_len(nodes.drop_last(), p, sub);
        }
    }

    /// Whether the instances of `lhs` and `rhs` under the bindings `tr`
    /// and the record `sub`, where lookup finds both in this e-graph, are in
    /// one e-class of `g`.
    pub open spec fn instances_merged(
        &self,
        g: &Self,
        lhs: PatternV,
        rhs: PatternV,
        tr: Seq<(PatternV, EnodeV)>,
        sub: Seq<(EnodeV, usize)>,
    ) -> bool {
        self.pattern_id(lhs, tr, sub) is Some && self.pattern_id(rhs, tr, sub) is Some ==> g.root(
            self.pattern_id(lhs, tr, sub)->Some_0 as int,
        ) == g.root(self.pattern_id(rhs, tr, sub)->Some_0 as int)
    }

    proof fn lemma_coarsens_trans(a: &Self, b: &Self, c: &Self)
        requires
            b.coarsens(a),
            c.coarsens(b),
            a.size() <= b.size(),
        ensures
            c.coarsens(a),
    {
        assert forall|i: int, j: int|
            0 <= i < a.size() && 0 <= j < a.size() && a.root(i) == a.root(j) implies #[trigger] c.root(i)
            == #[trigger] c.root(j) by {
            assert(b.root(i) == b.root(j));
        }
    }

    /// The same e-classes, memo, pending unions and representatives.
    pub open spec fn same_view(&self, new: &Self) -> bool {
        &&& new.size() == self.size()
        &&& forall|i: int| #[trigger] new.root(i) == self.root(i)
        &&& new.memo_entries() == self.memo_entries()
        &&& new.class_entries() == self.class_entries()
        &&& new.dirty() == self.dirty()
    }

    /// What merging the e-classes of `i1` and `i2` does, as `union` does on
    /// their representatives; `merged` tells whether they differed.
    pub open spec fn unioned(&self, new: &Self, i1: usize, i2: usize, merged: bool) -> bool {
        let a = self.root(i1 as int) as usize;
        let b = self.root(i2 as int) as usize;
        &&& new.wf()
        &&& merged == (a != b)
        &&& a == b ==> self.same_view(new)
        &&& a != b ==> {
            &&& new.size() == self.size()
            &&& forall|i: int|
                0 <= i < self.size() ==> #[trigger] new.root(i) == if self.root(i) == b as int {
                    a as int
                } else {
                    self.root(i)
                }
            &&& new.dirty() == self.dirty().push(a)
            &&& new.memo_entries() == new.memo_fold(
                self.memo_entries(),
                set_extend(
                    get_value(self.class_entries(), a).unwrap().0,
                    get_value(self.class_entries(), b).unwrap().0,
                ),
            )
            &&& new.class_entries() == swap_remove_entry(
                insert_entry(
                    self.class_entries(),
                    a,
                    new.merged_class(
                        get_value(self.class_entries(), a).unwrap(),
                        get_value(self.class_entries(), b).unwrap(),
                    ),
                ),
                b,
            )
        }
    }

    /// One way of applying a match: the instance of `lhs` is built (to
    /// `g1`, result `r1`); if it was, the instance of `rhs` is built (to
    /// `g2`, result `r2`); if both were, their e-classes are merged.
    pub open spec fn merge_path(
        &self,
        new: &Self,
        lhs: PatternV,
        rhs: PatternV,
        tr: Seq<(PatternV, EnodeV)>,
        sub: Seq<(EnodeV, usize)>,
        merged: bool,
        g1: EGraph,
        t1: BuildTrace,
        r1: Option<usize>,
        g2: EGraph,
        t2: BuildTrace,
        r2: Option<usize>,
    ) -> bool {
        &&& self.instance_added(&g1, lhs, tr, sub, r1, t1)
        &&& match r1 {
            None => *new == g1 && !merged,
            Some(i1) => {
                &&& g1.instance_added(&g2, rhs, tr, sub, r2, t2)
                &&& match r2 {
                    None => *new == g2 && !merged,
                    Some(i2) => g2.unioned(new, i1, i2, merged),
                }
            },
        }
    }

    /// What applying a match with bindings `tr` does: build the instances of
    /// `lhs` and `rhs` and merge their e-classes.
    pub open spec fn merge_applied(
        &self,
        new: &Self,
        lhs: PatternV,
        rhs: PatternV,
        tr: Seq<(PatternV, EnodeV)>,
        sub: Seq<(EnodeV, usize)>,
        merged: bool,
    ) -> bool {
        exists|g1: EGraph, t1: BuildTrace, r1: Option<usize>, g2: EGraph, t2: BuildTrace, r2: Option<usize>|
            #[trigger] self.merge_path(new, lhs, rhs, tr, sub, merged, g1, t1, r1, g2, t2, r2)
    }

    /// Adds the instances of `lhs` and `rhs` under the bindings and the
    /// record `sub`, and merges their e-classes.  Returns whether two
    /// different e-classes were merged.  When lookup finds both instances
    /// in the e-graph as it was, their e-classes end up merged.
    fn merge_instances(&mut self, lhs: &Pattern, rhs: &Pattern, bindings: &PatternMap, sub: &NodeMap) -> (merged:
        bool)
        requires
            old(self).wf(),
            sub_ok(node_map_entries(*sub), old(self).size()),
            values_in(pattern_map_entries(*bindings), node_map_entries(*sub)),
        ensures
            final(self).wf(),
            final(self).size() >= old(self).size(),
            final(self).coarsens(&*old(self)),
            final(self).dirty().len() >= old(self).dirty().len(),
            old(self).settled() ==> final(self).settled(),
            final(self).merges() == old(self).merges() + if merged {
                1int
            } else {
                0int
            },
            lhs@ == rhs@ ==> !merged,
            old(self).merge_applied(
                &*final(self),
                lhs@,
                rhs@,
                pattern_map_entries(*bindings),
                node_map_entries(*sub),
                merged,
            ),
            old(self).instances_merged(
                &*final(self),
                lhs@,
                rhs@,
                pattern_map_entries(*bindings),
                node_map_entries(*sub),
            ),
            old(self).present_kept(&*final(self)),
    {
        let ghost g0 = *self;
        let ghost tr = pattern_map_entries(*bindings);
        let ghost se = node_map_entries(*sub);
        proof {
            g0.lemma_pattern_id_range(lhs@, tr, se);
            g0.lemma_pattern_id_range(rhs@, tr, se);
        }
        let res1 = self.instantiate(lhs, bindings, sub);
        let ghost g1 = *self;
        let ghost t1 = choose|t: BuildTrace| g0.instance_added(&g1, lhs@, tr, se, opt_id(res1), t);
        if let Some(id1) = res1 {
            proof {
                Self::lemma_sub_ok_grow(node_map_entries(*sub), g0.size(), self.size());
            }
            proof {
                if g0.pattern_id(lhs@, tr, se) is Some {
                    g0.lemma_pattern_id_kept(&g1, lhs@, tr, se);
                }
            }
            let res2 = self.instantiate(rhs, bindings, sub);
            let ghost g2 = *self;
            let ghost t2 = choose|t: BuildTrace| g1.instance_added(&g2, rhs@, tr, se, opt_id(res2), t);
            if let Some(id2) = res2 {
                let ghost i1 = id1.0;
                let ghost i2 = id2.0;
                proof {
                    if g0.pattern_id(rhs@, tr, se) is Some {
                        Self::lemma_lookups_kept_trans(&g0, &g1, &g2);
                        g0.lemma_pattern_id_kept(&g2, rhs@, tr, se);
                    }
                    if lhs@ == rhs@ {
                        Self::lemma_sub_ok_grow(se, g0.size(), g1.size());
                        g1.lemma_pattern_id_kept(&g2, lhs@, tr, se);
                        assert(id1 == id2);
                    }
                }
                let id1 = self.find_mut(&id1);
                let ghost g3 = *self;
                let id2 = self.find_mut(&id2);
                let ghost g4 = *self;
                proof {
                    assert(self.is_class(id1.0 as int)) by {
                        self.uf().lemma_is_root_iff(id1.0 as int);
                        g3.uf().lemma_is_root_iff(id1.0 as int);
                        assert(self.root(id1.0 as int) == g3.root(id1.0 as int));
                    }
                    assert(self.is_class(id2.0 as int));
                }
                let merged = self.union(id1, id2);
                proof {
                    Self::lemma_present_kept_trans(&g0, &g1, &g2);
                    Self::lemma_present_kept_trans(&g0, &g2, &g3);
                    Self::lemma_present_kept_trans(&g0, &g3, &g4);
                    Self::lemma_present_kept_trans(&g0, &g4, self);
                    if g0.settled() && self.dirty().len() == 0 {
                        assert(g4.dirty() == g0.dirty());
                        assert(g0.congruent());
                        assert(g4.congruent());
                        assert(*self == g4);
                    }
                    assert forall|a: int, b: int|
                        0 <= a < g0.size() && 0 <= b < g0.size() && g0.root(a) == g0.root(b)
                            implies #[trigger] self.root(a) == #[trigger] self.root(b) by {
                        assert(g1.root(a) == g0.root(a));
                        assert(g1.root(b) == g0.root(b));
                        assert(g2.root(a) == g1.root(a));
                        assert(g2.root(b) == g1.root(b));
                        assert(g3.root(a) == g2.root(a));
                        assert(g3.root(b) == g2.root(b));
                        assert(g4.root(a) == g3.root(a));
                        assert(g4.root(b) == g3.root(b));
                    }
                    if g0.pattern_id(lhs@, tr, se) is Some && g0.pattern_id(rhs@, tr, se) is Some {
                        let i1 = g0.pattern_id(lhs@, tr, se)->Some_0;
                        let i2 = g0.pattern_id(rhs@, tr, se)->Some_0;
                        assert(i1 == id1.0 || g3.root(i1 as int) == id1.0);
                        assert(g4.root(i1 as int) == id1.0);
                        assert(g4.root(i2 as int) == id2.0);
                        assert(self.root(i1 as int) == self.root(i2 as int));
                    }
                }
                proof {
                    assert(g2.same_view(&g4)) by {
                        assert forall|i: int| #[trigger] g4.root(i) == g2.root(i) by {
                            assert(g3.root(i) == g2.root(i));
                        }
                    }
                    assert(id1.0 == g2.root(i1 as int));
                    assert(g2.unioned(self, i1, i2, merged.is_some())) by {
                        if id1 == id2 {
                            assert forall|i: int| #[trigger] self.root(i) == g2.root(i) by {
                                assert(g4.root(i) == g2.root(i));
                            }
                        }
                    }
                    assert(g0.merge_path(self, lhs@, rhs@, tr, se, merged.is_some(), g1, t1, Some(i1), g2, t2, Some(i2)));
                }
                return merged.is_some();
            } else {
                proof {
                    Self::lemma_present_kept_trans(&g0, &g1, &g2);
                    assert forall|a: int, b: int|
                        0 <= a < g0.size() && 0 <= b < g0.size() && g0.root(a) == g0.root(b)
                            implies #[trigger] self.root(a) == #[trigger] self.root(b) by {
                        assert(g1.root(a) == g0.root(a));
                        assert(g1.root(b) == g0.root(b));
                    }
                    if g0.pattern_id(rhs@, tr, se) is Some {
                        Self::lemma_lookups_kept_trans(&g0, &g1, self);
                        g0.lemma_pattern_id_kept(self, rhs@, tr, se);
                    }
                    assert(g0.merge_path(self, lhs@, rhs@, tr, se, false, g1, t1, Some(id1.0), g2, t2, None));
                }
            }
        } else {
            proof {
                assert forall|a: int, b: int|
                    0 <= a < g0.size() && 0 <= b < g0.size() && g0.root(a) == g0.root(b)
                        implies #[trigger] self.root(a) == #[trigger] self.root(b) by {
                }
                if g0.pattern_id(lhs@, tr, se) is Some {
                    g0.lemma_pattern_id_kept(self, lhs@, tr, se);
                }
                assert(g0.merge_path(self, lhs@, rhs@, tr, se, false, g1, t1, None, g1, BuildTrace::Var, None));
            }
        }
        false
    }

    /// One step of applying the matches: no match leaves the e-graph as it
    /// is; a match with bindings `tr` is applied (see `merge_applied`).
    pub open spec fn match_step(
        &self,
        new: &Self,
        m: Option<Seq<(PatternV, EnodeV)>>,
        lhs: PatternV,
        rhs: PatternV,
        buf: Seq<(EnodeV, usize)>,
        merged: bool,
    ) -> bool {
        match m {
            None => *new == *self && !merged,
            Some(tr) => self.merge_applied(new, lhs, rhs, tr, buf, merged),
        }
    }

    /// What applying the rule `lhs -> rhs` does, with result `edits`: every
    /// e-node is matched against `lhs` (in the order of `match_all`, which
    /// also fills the record `buf`); then the matches are applied in order,
    /// through the e-graphs `gs`, and `edits` counts those that merged two
    /// e-classes, at most `i32::MAX`.
    pub open spec fn rule_applied(&self, new: &Self, lhs: PatternV, rhs: PatternV, edits: int) -> bool {
        let (ms, buf) = self.match_all(flat_nodes(self.class_entries()), lhs, Seq::empty());
        exists|gs: Seq<EGraph>, mg: Seq<bool>|
            #[trigger] steps_applied(gs, mg, ms, lhs, rhs, buf, ms.len()) && gs[0] == *self && gs.last() == *new
                && edits == capped(count_true(mg) as int)
    }

    /// Matches `r.lhs` against every e-node; then, for every match in turn,
    /// adds the instances of `r.lhs` and `r.rhs` and merges their e-classes.
    /// Returns
    /// the number of merges that joined two different e-classes (at most
    /// `i32::MAX`), never more than there are e-nodes, and none for a rule
    /// whose sides are equal (see `rule_applied`).
    pub fn rewrite_lhs_to_rhs(&mut self, r: &Rule) -> (edits: i32)
        requires
            old(self).wf(),
        ensures
            final(self).wf(),
            final(self).size() >= old(self).size(),
            final(self).coarsens(&*old(self)),
            final(self).dirty().len() >= old(self).dirty().len(),
            old(self).settled() ==> final(self).settled(),
            0 <= edits,
            edits <= flat_nodes(old(self).class_entries()).len(),
            r.lhs@ == r.rhs@ ==> edits == 0,
            edits as int == if final(self).merges() - old(self).merges() <= i32::MAX {
                final(self).merges() - old(self).merges()
            } else {
                i32::MAX as int
            },
            old(self).rule_applied(&*final(self), r.lhs@, r.rhs@, edits as int),
            old(self).present_kept(&*final(self)),
    {
        let ghost old_g = *self;
        let mut bufdict = node_map_new();
        let lhs = r.lhs.clone();
        let rhs = r.rhs.clone();
        let mut edits: i32 = 0;
        let mut matchvec: Vec<Option<PatternMap>> = Vec::new();
        let nc = class_map_len(&self.classes);
        let mut i: usize = 0;
        proof {
            assert(opt_maps_view(matchvec@) =~= Seq::<Option<Seq<(PatternV, EnodeV)>>>::empty());
            assert(flat_nodes(self.class_entries().take(0)) =~= Seq::<EnodeV>::empty());
        }
        while i < nc
            invariant
                self.wf(),
                *self == old_g,
                nc == self.class_entries().len(),
                i <= nc,
                sub_ok(node_map_entries(bufdict), self.size()),
                forall|q: int| 0 <= q < matchvec@.len() ==> (#[trigger] matchvec@[q] matches Some(d) ==> values_in(
                    pattern_map_entries(d),
                    node_map_entries(bufdict),
                )),
                lhs@ == r.lhs@,
                (opt_maps_view(matchvec@), node_map_entries(bufdict)) == old_g.match_all(
                    flat_nodes(old_g.class_entries().take(i as int)),
                    lhs@,
                    Seq::empty(),
                ),
            decreases nc - i,
        {
            let (_, cls) = class_map_get_index(&self.classes, i);
            let m = node_set_len(&cls.nodes);
            let ghost base = flat_nodes(old_g.class_entries().take(i as int));
            let mut j: usize = 0;
            proof {
                assert(base + cls@.0.take(0) =~= base);
            }
            while j < m
                invariant
                    self.wf(),
                    *self == old_g,
                    nc == self.class_entries().len(),
                    i < nc,
                    cls@ == self.class_entries()[i as int].1,
                    m == cls@.0.len(),
                    j <= m,
                    sub_ok(node_map_entries(bufdict), self.size()),
                    forall|q: int| 0 <= q < matchvec@.len() ==> (#[trigger] matchvec@[q] matches Some(d) ==> values_in(
                        pattern_map_entries(d),
                        node_map_entries(bufdict),
                    )),
                    lhs@ == r.lhs@,
                    (opt_maps_view(matchvec@), node_map_entries(bufdict)) == old_g.match_all(
                        base + cls@.0.take(j as int),
                        lhs@,
                        Seq::empty(),
                    ),
                decreases m - j,
            {
                let n = node_set_get_index(&cls.nodes, j);
                proof {
                    self.lemma_class_node_found(i as int, j as int);
                }
                let ghost b0 = node_map_entries(bufdict);
                let res = self.match_pattern_with_enode(n, &lhs, &mut bufdict);
                let ghost prev = matchvec@;
                matchvec.push(res);
                proof {
                    let b1 = node_map_entries(bufdict);
                    assert forall|q: int| 0 <= q < matchvec@.len() implies (#[trigger] matchvec@[q] matches Some(d) ==> values_in(
                        pattern_map_entries(d),
                        b1,
                    )) by {
                        if q < prev.len() {
                            assert(matchvec@[q] == prev[q]);
                            if let Some(d) = matchvec@[q] {
                                lemma_values_in_kept(pattern_map_entries(d), b0, b1);
                            }
                        }
                    }
                    let ns = base + cls@.0.take(j + 1);
                    assert(ns.drop_last() =~= base + cls@.0.take(j as int));
                    assert(ns.last() == n@);
                    assert(opt_maps_view(matchvec@) =~= opt_maps_view(prev).push(opt_entries(res)));
                }
                j = j + 1;
            }
            proof {
                assert(cls@.0.take(m as int) =~= cls@.0);
                lemma_flat_nodes_prefix(old_g.class_entries(), i + 1);
            }
            i = i + 1;
        }
        let ghost ms = opt_maps_view(matchvec@);
        let ghost buf = node_map_entries(bufdict);
        proof {
            assert(old_g.class_entries().take(nc as int) =~= old_g.class_entries());
        }
        let nm = matchvec.len();
        let mut q: usize = 0;
        let ghost mut gs: Seq<EGraph> = seq![old_g];
        let ghost mut mg: Seq<bool> = Seq::empty();
        proof {
            Self::lemma_present_grow(&old_g, &old_g);
        }
        while q < nm
            invariant
                self.wf(),
                old_g.wf(),
                old_g == *old(self),
                nm == matchvec@.len(),
                q <= nm,
                self.size() >= old_g.size(),
                self.coarsens(&old_g),
                old_g.present_kept(self),
                self.dirty().len() >= old_g.dirty().len(),
                old_g.settled() ==> self.settled(),
                sub_ok(node_map_entries(bufdict), self.size()),
                forall|k: int| 0 <= k < matchvec@.len() ==> (#[trigger] matchvec@[k] matches Some(d) ==> values_in(
                    pattern_map_entries(d),
                    node_map_entries(bufdict),
                )),
                0 <= edits,
                edits as int == if self.merges() - old_g.merges() <= i32::MAX {
                    self.merges() - old_g.merges()
                } else {
                    i32::MAX as int
                },
                ms == opt_maps_view(matchvec@),
                ms.len() == nm,
                buf == node_map_entries(bufdict),
                sub_ok(buf, old_g.size()),
                lhs@ == r.lhs@,
                rhs@ == r.rhs@,
                edits <= q,
                lhs@ == rhs@ ==> self.merges() == old_g.merges(),
                steps_applied(gs, mg, ms, lhs@, rhs@, buf, q as nat),
                (ms, buf) == old_g.match_all(flat_nodes(old_g.class_entries()), lhs@, Seq::empty()),
                gs[0] == old_g,
                gs[q as int] == *self,
                edits as int == capped(count_true(mg) as int),
            decreases nm - q,
        {
            let ghost g0 = *self;
            if let Some(bindings) = &matchvec[q] {
                let ghost tr = pattern_map_entries(*bindings);
                proof {
                    assert(ms[q as int] == opt_entries(matchvec@[q as int]));
                    assert(ms[q as int] == Some(tr));
                }
                let merged = self.merge_instances(&lhs, &rhs, bindings, &bufdict);
                if merged {
                    if edits < i32::MAX {
                        edits = edits + 1;
                    }
                }
                proof {
                    Self::lemma_sub_ok_grow(node_map_entries(bufdict), g0.size(), self.size());
                    Self::lemma_coarsens_trans(&old_g, &g0, self);
                    Self::lemma_present_kept_trans(&old_g, &g0, self);
                    assert(g0.match_step(self, ms[q as int], lhs@, rhs@, buf, merged));
                    lemma_steps_push(gs, mg, ms, lhs@, rhs@, buf, q as nat, *self, merged);
                    lemma_count_push(mg, merged);
                    gs = gs.push(*self);
                    mg = mg.push(merged);
                }
            } else {
                proof {
                    assert(ms[q as int] == opt_entries(matchvec@[q as int]));
                    assert(ms[q as int] is None);
                    assert(g0.match_step(self, ms[q as int], lhs@, rhs@, buf, false));
                    lemma_steps_push(gs, mg, ms, lhs@, rhs@, buf, q as nat, *self, false);
                    lemma_count_push(mg, false);
                    gs = gs.push(*self);
                    mg = mg.push(false);
                }
            }
            q = q + 1;
        }
        proof {
            old_g.lemma_match_all_len(flat_nodes(old_g.class_entries()), lhs@, Seq::empty());
            assert(steps_applied(gs, mg, ms, lhs@, rhs@, buf, ms.len()));
            assert(gs.last() == *self);
            let mm = old_g.match_all(flat_nodes(old_g.class_entries()), r.lhs@, Seq::empty());
            assert(mm.0 == ms && mm.1 == buf);
            assert(steps_applied(gs, mg, mm.0, r.lhs@, r.rhs@, mm.1, mm.0.len()));
            assert(old_g.rule_applied(self, r.lhs@, r.rhs@, edits as int));
        }
        return edits;
    }

    /// What `rebuild` is proved to do (see its contract).
    pub open spec fn rebuilt(&self, new: &Self) -> bool {
        &&& new.wf()
        &&& new.dirty() == Seq::<usize>::empty()
        &&& new.size() == self.size()
        &&& new.class_entries().len() <= self.class_entries().len()
        &&& forall|i: int, j: int|
            0 <= i < self.size() && 0 <= j < self.size() && self.root(i) == self.root(j) ==> #[trigger] new.root(i)
                == #[trigger] new.root(j)
        &&& self.dirty().len() > 0 ==> new.congruent() && new.parents_canonical()
        &&& self.settled() ==> new.congruent()
        &&& self.dirty().len() == 0 ==> *new == *self
        &&& self.rebuild_done(new)
    }

    /// What applying the rules of `rs` in order, each followed by a
    /// rebuild, does: `edits` is their edits added up, at most `i32::MAX`.
    pub open spec fn ruleset_applied(&self, new: &Self, rs: Seq<Rule>, edits: int) -> bool {
        exists|hs: Seq<EGraph>, mids: Seq<EGraph>, es: Seq<int>|
            #[trigger] rules_applied(hs, mids, es, rs, rs.len()) && hs[0] == *self && hs.last() == *new && edits
                == capped_sum(es)
    }

    /// Applies every rule of `rs` in turn, rebuilding after each, and
    /// returns the sum of their edits (at most `i32::MAX`).
    pub fn rewrite_ruleset(&mut self, rs: &Vec<Rule>) -> (edits: i32)
        requires
            old(self).wf(),
        ensures
            final(self).wf(),
            final(self).size() >= old(self).size(),
            final(self).coarsens(&*old(self)),
            final(self).dirty() == Seq::<usize>::empty() || rs@.len() == 0,
            rs@.len() == 0 ==> *final(self) == *old(self) && edits == 0,
            rs@.len() > 0 && (old(self).settled() || old(self).dirty().len() > 0) ==> final(self).congruent(),
            0 <= edits,
            edits as int <= final(self).merges() - old(self).merges(),
            old(self).ruleset_applied(&*final(self), rs@, edits as int),
            old(self).present_kept(&*final(self)),
    {
        let ghost old_g = *self;
        let mut edits: i32 = 0;
        proof {
            Self::lemma_present_grow(&old_g, &old_g);
        }
        let n = rs.len();
        let mut k: usize = 0;
        let ghost mut hs: Seq<EGraph> = seq![old_g];
        let ghost mut mids: Seq<EGraph> = Seq::empty();
        let ghost mut es: Seq<int> = Seq::empty();
        while k < n
            invariant
                self.wf(),
                old_g.wf(),
                n == rs@.len(),
                k <= n,
                self.size() >= old_g.size(),
                self.coarsens(&old_g),
                old_g.present_kept(self),
                k > 0 ==> self.dirty() == Seq::<usize>::empty(),
                k == 0 ==> *self == old_g && edits == 0,
                k > 0 && (old_g.settled() || old_g.dirty().len() > 0) ==> self.congruent(),
                0 <= edits,
                edits as int <= self.merges() - old_g.merges(),
                rules_applied(hs, mids, es, rs@, k as nat),
                hs[0] == old_g,
                hs[k as int] == *self,
                edits as int == capped_sum(es),
            decreases n - k,
        {
            let ghost g0 = *self;
            let e = self.rewrite_lhs_to_rhs(&rs[k]);
            let ghost g1 = *self;
            if e as i64 + edits as i64 > i32::MAX as i64 {
                edits = i32::MAX;
            } else {
                edits = edits + e;
            }
            self.rebuild();
            proof {
                Self::lemma_present_kept_trans(&old_g, &g0, &g1);
                Self::lemma_present_kept_trans(&old_g, &g1, self);
                if old_g.settled() || old_g.dirty().len() > 0 {
                    assert(g0.settled() || g0.dirty().len() > 0);
                    assert(g1.settled() || g1.dirty().len() > 0);
                    assert(self.congruent());
                }
                assert forall|a: int, b: int|
                    0 <= a < old_g.size() && 0 <= b < old_g.size() && old_g.root(a) == old_g.root(b)
                        implies #[trigger] self.root(a) == #[trigger] self.root(b) by {
                    assert(g0.root(a) == g0.root(b));
                    assert(g1.root(a) == g1.root(b));
                }
                let hs2 = hs.push(*self);
                let mids2 = mids.push(g1);
                let es2 = es.push(e as int);
                lemma_rules_push(hs, mids, es, rs@, k as nat, *self, g1, e as int);
                assert(es2.drop_last() =~= es);
                hs = hs2;
                mids = mids2;
                es = es2;
            }
            k = k + 1;
        }
        proof {
            assert(rules_applied(hs, mids, es, rs@, rs@.len()));
            assert(hs.last() == *self);
        }
        return edits;
    }

    /// Whether `h` is the head of an e-node of some e-class.
    pub open spec fn has_head(&self, h: Seq<char>) -> bool {
        exists|i: int, j: int|
            0 <= i < self.class_entries().len() && 0 <= j < self.class_entries()[i].1.0.len()
                && #[trigger] self.class_entries()[i].1.0[j].0 == h
    }

    /// Applies the rule set `n` times over (as `rewrite_ruleset` does).
    pub fn rewrite_rounds(&mut self, rs: &Vec<Rule>, n: u32)
        requires
            old(self).wf(),
        ensures
            final(self).wf(),
            final(self).size() >= old(self).size(),
            final(self).coarsens(&*old(self)),
            n == 0 || rs@.len() == 0 ==> *final(self) == *old(self),
            n > 0 && rs@.len() > 0 ==> final(self).dirty() == Seq::<usize>::empty(),
            n > 0 && rs@.len() > 0 && (old(self).settled() || old(self).dirty().len() > 0)
                ==> final(self).congruent(),
            exists|gs: Seq<EGraph>, es: Seq<int>|
                #[trigger] rounds_applied(gs, es, rs@, n as nat) && gs[0] == *old(self) && gs.last() == *final(self),
            old(self).present_kept(&*final(self)),
    {
        let ghost old_g = *self;
        proof {
            Self::lemma_present_grow(&old_g, &old_g);
        }
        let mut i: u32 = 0;
        let ghost mut gs: Seq<EGraph> = seq![old_g];
        let ghost mut es: Seq<int> = Seq::empty();
        while i < n
            invariant
                self.wf(),
                old_g.wf(),
                i <= n,
                self.size() >= old_g.size(),
                self.coarsens(&old_g),
                old_g.present_kept(self),
                i == 0 || rs@.len() == 0 ==> *self == old_g,
                i > 0 && rs@.len() > 0 ==> self.dirty() == Seq::<usize>::empty(),
                i > 0 && rs@.len() > 0 && (old_g.settled() || old_g.dirty().len() > 0) ==> self.congruent(),
                rounds_applied(gs, es, rs@, i as nat),
                gs[0] == old_g,
                gs[i as int] == *self,
            decreases n - i,
        {
            let ghost g0 = *self;
            let e = self.rewrite_ruleset(rs);
            proof {
                Self::lemma_coarsens_trans(&old_g, &g0, self);
                Self::lemma_present_kept_trans(&old_g, &g0, self);
                if rs@.len() > 0 && (old_g.settled() || old_g.dirty().len() > 0) {
                    assert(g0.settled() || g0.dirty().len() > 0);
                }
                let gs2 = gs.push(*self);
                let es2 = es.push(e as int);
                assert forall|j: int| 0 <= j < i + 1 implies #[trigger] gs2[j].ruleset_applied(&gs2[j + 1], rs@, es2[j]) by {
                    if j < i {
                        assert(gs2[j] == gs[j] && gs2[j + 1] == gs[j + 1] && es2[j] == es[j]);
                        assert(gs[j].ruleset_applied(&gs[j + 1], rs@, es[j]));
                    } else {
                        assert(gs2[j] == g0 && gs2[j + 1] == *self && es2[j] == e as int);
                    }
                }
                gs = gs2;
                es = es2;
            }
            i = i + 1;
        }
        proof {
            assert(rounds_applied(gs, es, rs@, n as nat));
            assert(gs.last() == *self);
        }
    }

    /// The e-nodes of the e-class with key `c`.
    pub open spec fn class_nodes(&self, c: usize) -> Seq<EnodeV> {
        get_value(self.class_entries(), c).unwrap().0
    }

    /// The extraction from the e-class of `cid` when the e-classes
    /// `visited` may not be entered again, under the head costs `cost`:
    /// `None` when that e-class is visited, else the first cheapest among
    /// what its e-nodes give (see `node_extract`), with it visited too.
    pub open spec fn best_extract(&self, visited: Seq<usize>, cid: usize, cost: spec_fn(Seq<char>) -> i32) -> Option<
        (i32, Seq<char>),
    >
        decreases unvisited_count(entry_keys(self.class_entries()), visited), 2nat, 0nat,
    {
        let c = self.root(cid as int) as usize;
        let v2 = visited.push(c);
        if has_key(self.class_entries(), c) && !visited.contains(c) && unvisited_count(
            entry_keys(self.class_entries()),
            v2,
        ) < unvisited_count(entry_keys(self.class_entries()), visited) {
            first_min(self.node_results(v2, c, self.class_nodes(c).len(), cost))
        } else {
            None
        }
    }

    /// What the first `j` e-nodes of the e-class `c` give, in order,
    /// leaving out those that give nothing.
    pub open spec fn node_results(&self, visited: Seq<usize>, c: usize, j: nat, cost: spec_fn(Seq<char>) -> i32) -> Seq<
        (i32, Seq<char>),
    >
        decreases unvisited_count(entry_keys(self.class_entries()), visited) + 1, 1nat, j,
    {
        if j == 0 || j > self.class_nodes(c).len() {
            Seq::empty()
        } else {
            self.node_results(visited, c, (j - 1) as nat, cost) + match self.node_extract(
                visited,
                self.class_nodes(c)[j - 1],
                cost,
            ) {
                Some(x) => seq![x],
                None => Seq::empty(),
            }
        }
    }

    /// What an e-node gives: a leaf its head's cost and its head; another
    /// e-node, when every argument extracts, its head's cost plus theirs
    /// (wrapping around) and `(head arg ...)`.
    pub open spec fn node_extract(&self, visited: Seq<usize>, n: EnodeV, cost: spec_fn(Seq<char>) -> i32) -> Option<
        (i32, Seq<char>),
    >
        decreases unvisited_count(entry_keys(self.class_entries()), visited) + 1, 0nat, n.1.len() + 1,
    {
        if n.1.len() == 0 {
            Some((cost(n.0), n.0))
        } else {
            match self.args_result(visited, n, n.1.len(), cost) {
                Some((a, t)) => Some((a, t + seq![')'])),
                None => None,
            }
        }
    }

    /// The cost and the open text `(head arg ...` of an e-node over its
    /// first `k` arguments, when each of them extracts.
    pub open spec fn args_result(&self, visited: Seq<usize>, n: EnodeV, k: nat, cost: spec_fn(Seq<char>) -> i32) -> Option<
        (i32, Seq<char>),
    >
        decreases unvisited_count(entry_keys(self.class_entries()), visited) + 1, 0nat, k,
    {
        if k == 0 || k > n.1.len() {
            Some((cost(n.0), seq!['('] + n.0))
        } else {
            match (self.args_result(visited, n, (k - 1) as nat, cost), self.best_extract(visited, n.1[k - 1], cost)) {
                (Some((a, t)), Some((b, u))) => Some(
                    (vstd::wrapping::i32_specs::wrapping_add(a, b), t + seq![' '] + u),
                ),
                _ => None,
            }
        }
    }

    /// The costs the first `k` arguments of `n` extract to, added up.
    pub open spec fn arg_costs(&self, visited: Seq<usize>, n: EnodeV, k: nat, cost: spec_fn(Seq<char>) -> i32) -> int
        decreases k,
    {
        if k == 0 || k > n.1.len() {
            0
        } else {
            self.arg_costs(visited, n, (k - 1) as nat, cost) + match self.best_extract(visited, n.1[k - 1], cost) {
                Some((b, _)) => b as int,
                None => 0int,
            }
        }
    }

    proof fn lemma_args_result_adds_up(&self, visited: Seq<usize>, n: EnodeV, k: nat, cost: spec_fn(Seq<char>) -> i32)
        requires
            k <= n.1.len(),
        ensures
            self.args_result(visited, n, k, cost) matches Some((a, _)) ==> {
                &&& a as int == wrap_i32(cost(n.0) + self.arg_costs(visited, n, k, cost))
                &&& forall|i: int| 0 <= i < k ==> #[trigger] self.best_extract(visited, n.1[i], cost) is Some
            },
        decreases k,
    {
        if k == 0 {
            lemma_wrap_in_range(cost(n.0) as int);
        } else {
            self.lemma_args_result_adds_up(visited, n, (k - 1) as nat, cost);
            if let Some((a, _)) = self.args_result(visited, n, k, cost) {
                let (a0, _) = self.args_result(visited, n, (k - 1) as nat, cost)->Some_0;
                let (b, _) = self.best_extract(visited, n.1[k - 1], cost)->Some_0;
                lemma_wrapping_add_is_wrap(a0, b);
                lemma_wrap_twice(cost(n.0) + self.arg_costs(visited, n, (k - 1) as nat, cost), b as int);
            }
        }
    }

    /// What an e-node extracts to costs its head's cost plus the costs its
    /// arguments extract to, added up (wrapping around as `i32` addition
    /// does), and comes only when every argument extracts.
    pub proof fn lemma_node_cost_adds_up(&self, visited: Seq<usize>, n: EnodeV, cost: spec_fn(Seq<char>) -> i32)
        ensures
            self.node_extract(visited, n, cost) matches Some((c, _)) ==> {
                &&& c as int == wrap_i32(cost(n.0) + self.arg_costs(visited, n, n.1.len(), cost))
                &&& forall|i: int| 0 <= i < n.1.len() ==> #[trigger] self.best_extract(visited, n.1[i], cost) is Some
            },
    {
        if n.1.len() == 0 {
            lemma_wrap_in_range(cost(n.0) as int);
        } else {
            self.lemma_args_result_adds_up(visited, n, n.1.len(), cost);
        }
    }

    /// Without wrapping around (the costs are not negative and their sum
    /// fits in `i32`), an e-node costs exactly its head's cost plus the
    /// costs of its arguments: for unit costs, the number of heads of the
    /// term it extracts to.
    pub proof fn lemma_node_cost_sum(&self, visited: Seq<usize>, n: EnodeV, cost: spec_fn(Seq<char>) -> i32)
        requires
            i32::MIN <= cost(n.0) + self.arg_costs(visited, n, n.1.len(), cost) <= i32::MAX,
        ensures
            self.node_extract(visited, n, cost) matches Some((c, _)) ==> c as int == cost(n.0) + self.arg_costs(
                visited,
                n,
                n.1.len(),
                cost,
            ),
    {
        self.lemma_node_cost_adds_up(visited, n, cost);
        lemma_wrap_in_range(cost(n.0) + self.arg_costs(visited, n, n.1.len(), cost));
    }

    proof fn lemma_first_min(s: Seq<(i32, Seq<char>)>)
        ensures
            s.len() > 0 <==> first_min(s) is Some,
            first_min(s) matches Some(x) ==> s.contains(x) && forall|i: int| 0 <= i < s.len() ==> x.0 <= #[trigger] s[i].0,
        decreases s.len(),
    {
        if s.len() > 0 {
            let s0 = s.drop_last();
            Self::lemma_first_min(s0);
            let x = first_min(s)->Some_0;
            assert forall|i: int| 0 <= i < s.len() implies x.0 <= #[trigger] s[i].0 by {
                if i < s.len() - 1 {
                    assert(s[i] == s0[i]);
                }
            }
            if s0.len() > 0 && !(s.last().0 < first_min(s0)->Some_0.0) {
                let w = choose|w: int| 0 <= w < s0.len() && s0[w] == x;
                assert(s[w] == x);
            } else {
                assert(s[s.len() - 1] == x);
            }
        }
    }

    proof fn lemma_node_results(&self, visited: Seq<usize>, c: usize, j: nat, cost: spec_fn(Seq<char>) -> i32)
        requires
            j <= self.class_nodes(c).len(),
        ensures
            forall|q: int|
                0 <= q < j ==> (#[trigger] self.node_extract(visited, self.class_nodes(c)[q], cost) matches Some(x)
                    ==> self.node_results(visited, c, j, cost).contains(x)),
            forall|y: (i32, Seq<char>)|
                #[trigger] self.node_results(visited, c, j, cost).contains(y) ==> exists|q: int|
                    0 <= q < j && self.node_extract(visited, self.class_nodes(c)[q], cost) == Some(y),
        decreases j,
    {
        if j > 0 {
            self.lemma_node_results(visited, c, (j - 1) as nat, cost);
            let prev = self.node_results(visited, c, (j - 1) as nat, cost);
            let cur = self.node_results(visited, c, j, cost);
            let last = self.node_extract(visited, self.class_nodes(c)[j - 1], cost);
            assert forall|q: int|
                0 <= q < j implies (#[trigger] self.node_extract(visited, self.class_nodes(c)[q], cost) matches Some(x)
                ==> cur.contains(x)) by {
                if let Some(x) = self.node_extract(visited, self.class_nodes(c)[q], cost) {
                    if q < j - 1 {
                        let w = choose|w: int| 0 <= w < prev.len() && prev[w] == x;
                        assert(cur[w] == x);
                    } else {
                        assert(cur[prev.len() as int] == x);
                    }
                }
            }
            assert forall|y: (i32, Seq<char>)| #[trigger] cur.contains(y) implies exists|q: int|
                0 <= q < j && self.node_extract(visited, self.class_nodes(c)[q], cost) == Some(y) by {
                let w = choose|w: int| 0 <= w < cur.len() && cur[w] == y;
                if w < prev.len() {
                    assert(prev[w] == y);
                    assert(prev.contains(y));
                } else {
                    assert(last == Some(y));
                }
            }
        } else {
            assert(self.node_results(visited, c, j, cost) =~= Seq::<(i32, Seq<char>)>::empty());
        }
    }

    /// What an e-class extracts to is what one of its e-nodes extracts to,
    /// and costs no more than what any other of its e-nodes extracts to:
    /// the cheapest term (the shortest one, for unit costs).
    pub proof fn lemma_extract_cheapest(&self, visited: Seq<usize>, cid: usize, cost: spec_fn(Seq<char>) -> i32)
        ensures
            self.best_extract(visited, cid, cost) matches Some((c, t)) ==> {
                let r = self.root(cid as int) as usize;
                let v2 = visited.push(r);
                &&& exists|j: int|
                    0 <= j < self.class_nodes(r).len() && #[trigger] self.node_extract(v2, self.class_nodes(r)[j], cost)
                        == Some((c, t))
                &&& forall|j: int|
                    0 <= j < self.class_nodes(r).len() ==> (#[trigger] self.node_extract(
                        v2,
                        self.class_nodes(r)[j],
                        cost,
                    ) matches Some((c2, _)) ==> c <= c2)
            },
    {
        let r = self.root(cid as int) as usize;
        let v2 = visited.push(r);
        if let Some((c, t)) = self.best_extract(visited, cid, cost) {
            let rs = self.node_results(v2, r, self.class_nodes(r).len(), cost);
            assert(first_min(rs) == Some((c, t)));
            Self::lemma_first_min(rs);
            self.lemma_node_results(v2, r, self.class_nodes(r).len(), cost);
            assert(rs.contains((c, t)));
            assert forall|j: int| 0 <= j < self.class_nodes(r).len() implies (#[trigger] self.node_extract(
                v2,
                self.class_nodes(r)[j],
                cost,
            ) matches Some((c2, _)) ==> c <= c2) by {
                if let Some(x) = self.node_extract(v2, self.class_nodes(r)[j], cost) {
                    assert(rs.contains(x));
                    let w = choose|w: int| 0 <= w < rs.len() && rs[w] == x;
                    assert(c <= rs[w].0);
                }
            }
        }
    }

    proof fn lemma_args_result_none(&self, visited: Seq<usize>, n: EnodeV, m: nat, k: nat, cost: spec_fn(Seq<char>) -> i32)
        requires
            m <= k <= n.1.len(),
            self.args_result(visited, n, m, cost) is None,
        ensures
            self.args_result(visited, n, k, cost) is None,
        decreases k,
    {
        if m < k {
            self.lemma_args_result_none(visited, n, m, (k - 1) as nat, cost);
        }
    }

    proof fn lemma_keys_no_dup(&self)
        requires
            keys_distinct(self.class_entries()),
        ensures
            entry_keys(self.class_entries()).no_duplicates(),
    {
        let ks = entry_keys(self.class_entries());
        assert forall|i: int, j: int| 0 <= i < ks.len() && 0 <= j < ks.len() && i != j implies ks[i] != ks[j] by {
            assert(ks[i] == self.class_entries()[i].0);
            assert(ks[j] == self.class_entries()[j].0);
        }
    }

    /// Depth-first extraction with a list of visited e-classes that may not
    /// be entered again: for every e-node of the e-class of `cid` whose
    /// arguments all extract, its cost is its head's cost plus those of its
    /// arguments (wrapping around on overflow) and its text is the head, or
    /// `(head arg ...)`; the first cheapest is returned.  Whether a result
    /// comes does not depend on the costs; which one comes is stated for a
    /// cost function that gives equal strings equal costs.
    #[verifier::spinoff_prover]
    #[verifier::rlimit(40)]
    pub fn extract<F: Fn(&String) -> i32>(&self, visited: &Vec<Id>, cid: Id, cost_function: &F) -> (r: Option<(i32, String)>)
        requires
            self.wf(),
            cid.0 < self.size(),
            forall|s: &String| self.has_head(s@) ==> #[trigger] call_requires(*cost_function, (s,)),
        ensures
            forall|cost: spec_fn(Seq<char>) -> i32|
                (r is Some <==> #[trigger] self.best_extract(ids_view(visited@), cid.0, cost) is Some),
            forall|cost: spec_fn(Seq<char>) -> i32|
                cost_agrees(*cost_function, cost) ==> (match r {
                    Some((c, t)) => #[trigger] self.best_extract(ids_view(visited@), cid.0, cost) == Some((c, t@)),
                    None => self.best_extract(ids_view(visited@), cid.0, cost) is None,
                }),
        decreases unvisited_count(entry_keys(self.class_entries()), ids_view(visited@)),
    {
        let c_id = self.find(cid);
        proof {
            assert(self.is_class(c_id.0 as int));
            lemma_key_index(self.class_entries(), c_id.0);
            assert(self.root(cid.0 as int) as usize == c_id.0);
        }
        let class = self.get_eclass(&c_id).unwrap();
        let mut evaluation: Vec<(i32, String)> = Vec::new();
        if contains_id(visited, c_id) {
            return None;
        }
        let ghost keys = entry_keys(self.class_entries());
        let ghost vis = ids_view(visited@);
        let mut visited2 = visited.clone();
        visited2.push(c_id);
        proof {
            assert(ids_view(visited2@) =~= vis.push(c_id.0)) by {
                assert forall|i: int| 0 <= i < visited@.len() implies #[trigger] visited2@[i].0 == visited@[i].0 by {
                }
            }
            self.lemma_keys_no_dup();
            let q = key_index(self.class_entries(), c_id.0);
            assert(keys[q] == c_id.0);
            lemma_unvisited_step(keys, vis, c_id.0);
            assert(class@ == get_value(self.class_entries(), c_id.0).unwrap());
            assert(class_ok(class@, self.size()));
        }
        let ghost v2 = ids_view(visited2@);
        let nodes = node_set_clone(&class.nodes);
        let nn = node_set_len(&nodes);
        let mut j: usize = 0;
        proof {
            assert(results_view(evaluation@) =~= Seq::<(i32, Seq<char>)>::empty());
        }
        while j < nn
            invariant
                self.wf(),
                nn == class@.0.len(),
                node_set_items(nodes) == class@.0,
                class@.0 == self.class_nodes(c_id.0),
                has_key(self.class_entries(), c_id.0),
                class_ok(class@, self.size()),
                v2 == ids_view(visited2@),
                keys == entry_keys(self.class_entries()),
                unvisited_count(keys, v2) < unvisited_count(keys, ids_view(visited@)),
                forall|s: &String| self.has_head(s@) ==> #[trigger] call_requires(*cost_function, (s,)),
                j <= nn,
                forall|cost: spec_fn(Seq<char>) -> i32|
                    #[trigger] self.node_results(v2, c_id.0, j as nat, cost).len() == evaluation@.len(),
                forall|cost: spec_fn(Seq<char>) -> i32|
                    cost_agrees(*cost_function, cost) ==> #[trigger] self.node_results(v2, c_id.0, j as nat, cost)
                        == results_view(evaluation@),
            decreases nn - j,
        {
            let n = node_set_get_index(&nodes, j).clone();
            proof {
                assert(node_ok(class@.0[j as int], self.size()));
            }
            assert(n@ == self.class_nodes(c_id.0)[j as int]);
            proof {
                let q = key_index(self.class_entries(), c_id.0);
                lemma_key_index(self.class_entries(), c_id.0);
                assert(self.class_nodes(c_id.0) == self.class_entries()[q].1.0);
                assert(self.class_entries()[q].1.0[j as int] == n@);
                assert(self.class_entries()[q].1.0[j as int].0 == n.head@);
                assert(self.has_head(n.head@));
            }
            let ghost before = evaluation@;
            let mut cost = cost_function(&n.head);
            if n.len() == 0 {
                evaluation.push((cost, n.head));
                proof {
                    assert(evaluation@ == before.push((cost, n.head)));
                    assert forall|cs: spec_fn(Seq<char>) -> i32| #[trigger] self.node_results(
                        v2,
                        c_id.0,
                        (j + 1) as nat,
                        cs,
                    ).len() == evaluation@.len() by {
                        assert(self.node_results(v2, c_id.0, j as nat, cs).len() == before.len());
                        assert(self.node_extract(v2, n@, cs) is Some);
                        assert(self.node_results(v2, c_id.0, (j + 1) as nat, cs) == self.node_results(
                            v2,
                            c_id.0,
                            j as nat,
                            cs,
                        ) + seq![self.node_extract(v2, n@, cs)->Some_0]);
                    }
                    assert forall|cs: spec_fn(Seq<char>) -> i32|
                        cost_agrees(*cost_function, cs) implies #[trigger] self.node_results(
                        v2,
                        c_id.0,
                        (j + 1) as nat,
                        cs,
                    ) == results_view(evaluation@) by {
                        assert(self.node_results(v2, c_id.0, j as nat, cs) == results_view(before));
                        assert(cost == cs(n@.0));
                        assert(self.node_extract(v2, n@, cs) == Some((cost, n@.0)));
                        assert(results_view(evaluation@) =~= results_view(before).push((cost, n@.0)));
                    }
                }
                j = j + 1;
                continue;
            }
            let ghost head_cost = cost;
            let mut text = String::new();
            text.append("(");
            text.append(n.head.as_str());
            proof {
                reveal_strlit("(");
            }
            let mut eval = true;
            let na = n.len();
            let mut k: usize = 0;
            while k < na
                invariant
                    self.wf(),
                    na == n@.1.len(),
                    node_ok(n@, self.size()),
                    v2 == ids_view(visited2@),
                    keys == entry_keys(self.class_entries()),
                    unvisited_count(keys, v2) < unvisited_count(keys, ids_view(visited@)),
                    forall|s: &String| self.has_head(s@) ==> #[trigger] call_requires(*cost_function, (s,)),
                    k <= na,
                    eval ==> forall|cs: spec_fn(Seq<char>) -> i32| #[trigger] self.args_result(v2, n@, k as nat, cs) is Some,
                    eval ==> forall|cs: spec_fn(Seq<char>) -> i32|
                        cost_agrees(*cost_function, cs) ==> #[trigger] self.args_result(v2, n@, k as nat, cs) == Some(
                            (cost, text@),
                        ),
                    !eval ==> forall|cs: spec_fn(Seq<char>) -> i32| #[trigger] self.args_result(v2, n@, na as nat, cs) is None,
                    k < na ==> eval,
                    eval ==> head_cost == cost || k > 0,
                    k == 0 ==> cost == head_cost && text@ == seq!['('] + n@.0,
                    call_ensures(*cost_function, (&n.head,), head_cost),
                decreases na - k,
            {
                assert(n@.1[k as int] < self.size());
                assert(n.args@[k as int].0 == n@.1[k as int]);
                let ghost t0 = text@;
                let ghost c0 = cost;
                match self.extract(&visited2, n.args[k], cost_function) {
                    Some((res, s)) => {
                        cost = cost.wrapping_add(res);
                        text.append(" ");
                        text.append(s.as_str());
                        proof {
                            reveal_strlit(" ");
                            assert forall|cs: spec_fn(Seq<char>) -> i32| #[trigger] self.args_result(
                                v2,
                                n@,
                                (k + 1) as nat,
                                cs,
                            ) is Some by {
                                assert(self.best_extract(v2, n@.1[k as int], cs) is Some);
                                assert(self.args_result(v2, n@, k as nat, cs) is Some);
                            }
                            assert forall|cs: spec_fn(Seq<char>) -> i32|
                                cost_agrees(*cost_function, cs) implies #[trigger] self.args_result(
                                v2,
                                n@,
                                (k + 1) as nat,
                                cs,
                            ) == Some((cost, text@)) by {
                                assert(self.best_extract(v2, n@.1[k as int], cs) == Some((res, s@)));
                                if k == 0 {
                                    assert(head_cost == cs(n@.0));
                                }
                                assert(self.args_result(v2, n@, k as nat, cs) == Some((c0, t0)));
                                assert(text@ =~= t0 + seq![' '] + s@);
                            }
                        }
                    },
                    None => {
                        proof {
                            assert forall|cs: spec_fn(Seq<char>) -> i32| #[trigger] self.args_result(
                                v2,
                                n@,
                                na as nat,
                                cs,
                            ) is None by {
                                assert(self.best_extract(v2, n@.1[k as int], cs) is None);
                                assert(self.args_result(v2, n@, (k + 1) as nat, cs) is None);
                                self.lemma_args_result_none(v2, n@, (k + 1) as nat, na as nat, cs);
                            }
                        }
                        eval = false;
                        k = na;
                        continue;
                    },
                }
                k = k + 1;
            }
            if eval {
                let ghost t1 = text@;
                text.append(")");
                proof {
                    reveal_strlit(")");
                    assert(text@ =~= t1 + seq![')']);
                }
                evaluation.push((cost, text));
            }
            proof {
                assert forall|cs: spec_fn(Seq<char>) -> i32| #[trigger] self.node_results(
                    v2,
                    c_id.0,
                    (j + 1) as nat,
                    cs,
                ).len() == evaluation@.len() by {
                    assert(self.node_results(v2, c_id.0, j as nat, cs).len() == before.len());
                    if eval {
                        assert(self.args_result(v2, n@, na as nat, cs) is Some);
                        assert(self.node_extract(v2, n@, cs) is Some);
                    } else {
                        assert(self.node_extract(v2, n@, cs) is None);
                    }
                }
                assert forall|cs: spec_fn(Seq<char>) -> i32|
                    cost_agrees(*cost_function, cs) implies #[trigger] self.node_results(
                    v2,
                    c_id.0,
                    (j + 1) as nat,
                    cs,
                ) == results_view(evaluation@) by {
                    assert(self.node_results(v2, c_id.0, j as nat, cs) == results_view(before));
                    if eval {
                        assert(self.args_result(v2, n@, na as nat, cs) == Some((cost, text@.drop_last())));
                        assert(text@.drop_last() + seq![')'] =~= text@);
                        assert(self.node_extract(v2, n@, cs) == Some((cost, text@)));
                        assert(results_view(evaluation@) =~= results_view(before).push((cost, text@)));
                    } else {
                        assert(self.node_extract(v2, n@, cs) is None);
                        assert(results_view(evaluation@) =~= results_view(before));
                    }
                }
            }
            j = j + 1;
        }
        proof {
            assert(!vis.contains(c_id.0));
            assert(has_key(self.class_entries(), c_id.0));
            assert(self.root(cid.0 as int) as usize == c_id.0);
            assert(v2 == vis.push(c_id.0));
            assert forall|cs: spec_fn(Seq<char>) -> i32| #[trigger] self.best_extract(vis, cid.0, cs) == first_min(
                self.node_results(v2, c_id.0, nn as nat, cs),
            ) by {
            }
        }
        if evaluation.len() == 0 {
            proof {
                assert forall|cs: spec_fn(Seq<char>) -> i32| #[trigger] self.best_extract(vis, cid.0, cs) is None by {
                    assert(self.node_results(v2, c_id.0, nn as nat, cs).len() == 0);
                }
            }
            return None;
        }
        let mut best: usize = 0;
        let mut e: usize = 1;
        proof {
            let rv = results_view(evaluation@);
            assert(rv.take(1).drop_last() =~= Seq::<(i32, Seq<char>)>::empty());
            assert(rv.take(1).len() == 1);
            assert(rv.take(1).last() == rv[0]);
            assert(first_min(Seq::<(i32, Seq<char>)>::empty()) is None);
        }
        while e < evaluation.len()
            invariant
                0 < evaluation@.len(),
                best < e <= evaluation@.len(),
                first_min(results_view(evaluation@).take(e as int)) == Some(results_view(evaluation@)[best as int]),
            decreases evaluation@.len() - e,
        {
            proof {
                let rv = results_view(evaluation@);
                assert(rv.take(e + 1).drop_last() =~= rv.take(e as int));
                assert(rv.take(e + 1).last() == rv[e as int]);
            }
            if evaluation[e].0 < evaluation[best].0 {
                best = e;
            }
            e = e + 1;
        }
        let c = evaluation[best].0;
        let text = evaluation[best].1.clone();
        proof {
            assert(results_view(evaluation@).take(evaluation@.len() as int) =~= results_view(evaluation@));
            assert forall|cs: spec_fn(Seq<char>) -> i32| #[trigger] self.best_extract(vis, cid.0, cs) is Some by {
                assert(self.node_results(v2, c_id.0, nn as nat, cs).len() > 0);
            }
        }
        return Some((c, text));
    }

    /// Extracts the cheapest term, as text, of the e-class of `root_id`
    /// under `cost_function` (see `extract`).
    pub fn extract_best<F: Fn(&String) -> i32>(&self, root_id: Id, cost_function: &F) -> (r: Option<String>)
        requires
            self.wf(),
            root_id.0 < self.size(),
            forall|s: &String| self.has_head(s@) ==> #[trigger] call_requires(*cost_function, (s,)),
        ensures
            forall|cost: spec_fn(Seq<char>) -> i32|
                (r is Some <==> #[trigger] self.best_extract(Seq::empty(), root_id.0, cost) is Some),
            forall|cost: spec_fn(Seq<char>) -> i32|
                cost_agrees(*cost_function, cost) ==> opt_string(r) == opt_text(
                    #[trigger] self.best_extract(Seq::empty(), root_id.0, cost),
                ),
    {
        let canonical_root_id = self.find(root_id);
        let visited = Vec::<Id>::new();
        proof {
            assert(ids_view(visited@) =~= Seq::<usize>::empty());
            self.uf().lemma_root_is_root(root_id.0 as int);
            assert(self.root(canonical_root_id.0 as int) == self.root(root_id.0 as int));
            assert forall|cs: spec_fn(Seq<char>) -> i32| #[trigger] self.best_extract(Seq::empty(), root_id.0, cs)
                == self.best_extract(ids_view(visited@), canonical_root_id.0, cs) by {
            }
        }
        let found = self.extract(&visited, canonical_root_id, cost_function);
        if let Some((_, res)) = found {
            return Some(res);
        }
        return None;
    }

    /// Extracts the term with the fewest operators from the e-class of
    /// `root_id`: the extraction with every head costing one.
    pub fn extract_shortest(&self, root_id: Id) -> (r: Option<String>)
        requires
            self.wf(),
            root_id.0 < self.size(),
        ensures
            opt_string(r) == opt_text(self.best_extract(Seq::empty(), root_id.0, unit_costs())),
    {
        let cost_function = &ret_1;
        let r = self.extract_best(root_id, cost_function);
        proof {
            assert(cost_agrees(ret_1, unit_costs()));
            assert(cost_agrees(*cost_function, unit_costs()));
        }
        return r;
    }

    /// Extracts the cheapest term under `ret_logical` from the e-class of
    /// `root_id`.
    pub fn extract_logical(&self, root_id: Id) -> (r: Option<String>)
        requires
            self.wf(),
            root_id.0 < self.size(),
        ensures
            opt_string(r) == opt_text(self.best_extract(Seq::empty(), root_id.0, logical_costs())),
    {
        let cost_function = &ret_logical;
        let r = self.extract_best(root_id, cost_function);
        proof {
            assert(cost_agrees(ret_logical, logical_costs()));
            assert(cost_agrees(*cost_function, logical_costs()));
        }
        return r;
    }

    /// Whether two e-nodes of the memo have ids in the same set.  Both must
    /// be in the memo.
    pub fn in_same_class(&self, t1: &Enode, t2: &Enode) -> (b: bool)
        requires
            self.ids_ok(),
            has_key(self.memo_entries(), t1@),
            has_key(self.memo_entries(), t2@),
        ensures
            b == (self.root(get_value(self.memo_entries(), t1@)->Some_0 as int) == self.root(
                get_value(self.memo_entries(), t2@)->Some_0 as int,
            )),
    {
        proof {
            lemma_key_index(self.memo_entries(), t1@);
            lemma_key_index(self.memo_entries(), t2@);
        }
        if let Some(id1) = node_map_get(&self.memo, t1) {
            if let Some(id2) = node_map_get(&self.memo, t2) {
                proof {
                    assert(self.memo_entries()[key_index(self.memo_entries(), t1@)].1 < self.size());
                    assert(self.memo_entries()[key_index(self.memo_entries(), t2@)].1 < self.size());
                }
                return self.unionfind.in_same_set(id1, id2);
            }
        }
        return false;
    }

    /// The number of e-nodes over all e-classes.
    pub fn n_enodes(&self) -> (n: usize)
        requires
            flat_nodes(self.class_entries()).len() <= usize::MAX,
        ensures
            n == flat_nodes(self.class_entries()).len(),
            self.wf() ==> n >= self.class_entries().len(),
    {
        proof {
            if self.wf() {
                Self::lemma_enodes_cover_classes(self);
            }
        }
        let mut r: usize = 0;
        let k = class_map_len(&self.classes);
        let mut i: usize = 0;
        while i < k
            invariant
                k == self.class_entries().len(),
                i <= k,
                flat_nodes(self.class_entries()).len() <= usize::MAX,
                r == flat_nodes(self.class_entries().take(i as int)).len(),
            decreases k - i,
        {
            let (_, cls) = class_map_get_index(&self.classes, i);
            proof {
                assert(self.class_entries().take(i + 1).drop_last() =~= self.class_entries().take(i as int));
                lemma_flat_nodes_prefix(self.class_entries(), i + 1);
            }
            r = r + node_set_len(&cls.nodes);
            i = i + 1;
        }
        assert(self.class_entries().take(k as int) =~= self.class_entries());
        return r;
    }

    /// Whether no e-node occurs twice over all e-classes.
    pub fn is_congruent(&self) -> (b: bool)
        ensures
            b == flat_nodes(self.class_entries()).no_duplicates(),
    {
        let nodes = self.enodes();
        return has_unique_elements(nodes);
    }

    /// Whether every key of the memo has canonical arguments.
    pub fn is_canonical_in_memo(&self) -> (b: bool)
        requires
            self.ids_ok(),
        ensures
            b == forall|i: int|
                0 <= i < self.memo_entries().len() ==> #[trigger] self.canon(self.memo_entries()[i].0)
                    == self.memo_entries()[i].0,
    {
        let k = node_map_len(&self.memo);
        let mut i: usize = 0;
        while i < k
            invariant
                self.ids_ok(),
                k == self.memo_entries().len(),
                i <= k,
                forall|j: int|
                    0 <= j < i ==> #[trigger] self.canon(self.memo_entries()[j].0) == self.memo_entries()[j].0,
            decreases k - i,
        {
            let (n, _) = node_map_get_index(&self.memo, i);
            proof {
                assert(self.memo_entries()[i as int].1 < self.size());
                assert(node_ok(self.memo_entries()[i as int].0, self.size()));
            }
            let ci = self.canonicalize_args(n);
            if ci != *n {
                return false;
            }
            i = i + 1;
        }
        return true;
    }

    /// Whether every e-node of every e-class has canonical arguments.
    pub fn is_canonical_full(&self) -> (b: bool)
        requires
            self.wf(),
        ensures
            b == forall|k: int|
                0 <= k < flat_nodes(self.class_entries()).len() ==> #[trigger] self.canon(
                    flat_nodes(self.class_entries())[k],
                ) == flat_nodes(self.class_entries())[k],
    {
        let nodes = self.enodes();
        let ghost fl = flat_nodes(self.class_entries());
        proof {
            assert forall|i: int| 0 <= i < self.class_entries().len() implies class_ok(
                #[trigger] self.class_entries()[i].1,
                self.size(),
            ) by {
                assert(self.class_entries()[i].0 < self.size());
            }
            lemma_flat_nodes_ok(self.class_entries(), self.size());
        }
        let mut i: usize = 0;
        while i < nodes.len()
            invariant
                self.wf(),
                fl == flat_nodes(self.class_entries()),
                nodes@.map_values(|n: Enode| n@) == fl,
                forall|k: int| 0 <= k < fl.len() ==> node_ok(#[trigger] fl[k], self.size()),
                i <= nodes.len(),
                forall|j: int| 0 <= j < i ==> #[trigger] self.canon(fl[j]) == fl[j],
            decreases nodes.len() - i,
        {
            assert(nodes@[i as int]@ == fl[i as int]);
            let ci = self.canonicalize_args(&nodes[i]);
            if ci != nodes[i] {
                return false;
            }
            i = i + 1;
        }
        return true;
    }

    /// Adds the leaf e-node with head `x` (no arguments) as `push_eclass`
    /// does, and returns the canonical id of its e-class.
    pub fn push_leaf(&mut self, x: String) -> (id: Id)
        requires
            old(self).wf(),
        ensures
            final(self).wf(),
            final(self).dirty() == old(self).dirty(),
            old(self).lookup_spec((x@, Seq::<usize>::empty())) matches Some(v) ==> {
                &&& id.0 == v
                &&& final(self).size() == old(self).size()
                &&& forall|i: int| #[trigger] final(self).root(i) == old(self).root(i)
                &&& final(self).memo_entries() == old(self).memo_entries()
                &&& final(self).class_entries() == old(self).class_entries()
            },
            old(self).lookup_spec((x@, Seq::<usize>::empty())) is None ==> {
                &&& id.0 == old(self).size()
                &&& final(self).size() == old(self).size() + 1
                &&& forall|i: int|
                    0 <= i < old(self).size() ==> #[trigger] final(self).root(i) == old(self).root(i)
                &&& final(self).root(id.0 as int) == id.0
                &&& final(self).memo_entries() == insert_entry(
                    old(self).memo_entries(),
                    (x@, Seq::<usize>::empty()),
                    id.0,
                )
                &&& final(self).class_entries() == old(self).class_entries().push(
                    (id.0, (seq![(x@, Seq::<usize>::empty())], Seq::<(EnodeV, usize)>::empty())),
                )
            },
            id.0 < final(self).size(),
            final(self).uf().is_root(id.0 as int),
            final(self).size() >= old(self).size(),
            final(self).lookup_spec((x@, Seq::<usize>::empty())) == Some(id.0),
            forall|e: EnodeV|
                node_ok(e, old(self).size()) && #[trigger] old(self).lookup_spec(e) is Some
                    ==> final(self).lookup_spec(e) == old(self).lookup_spec(e),
            old(self).congruent() ==> final(self).congruent(),
            flat_nodes(final(self).class_entries()).len() - flat_nodes(old(self).class_entries()).len()
                == final(self).class_entries().len() - old(self).class_entries().len(),
            old(self).pushed(&*final(self), (x@, Seq::<usize>::empty()), id.0),
            old(self).present_kept(&*final(self)),
    {
        let mut t = Enode::new(x);
        let ghost e = t@;
        let ghost old_g = *self;
        let id = self.push_eclass(&mut t);
        proof {
            if old_g.lookup_spec(e) is None {
                assert(old_g.with_parent_added(old_g.class_entries(), e, id.0, e.1) =~= old_g.class_entries())
                    by {
                    assert forall|i: int| 0 <= i < old_g.class_entries().len() implies #[trigger] old_g.with_parent_added(
                        old_g.class_entries(),
                        e,
                        id.0,
                        e.1,
                    )[i] == old_g.class_entries()[i] by {
                        let p = old_g.class_entries()[i];
                        assert(old_g.count_children(e.1, p.0) == 0);
                        assert(p.1.1 + Seq::new(0, |_i: int| (e, id.0)) =~= p.1.1);
                    }
                }
            }
        }
        return id;
    }

    /// The id of the e-class an expression stands for: an atom (or the
    /// empty expression) is the leaf e-node of its head; a list is the head
    /// of its first item applied to the ids of its other items.  `None`
    /// when lookup finds no such e-node.
    pub open spec fn term_id(&self, x: SexpV) -> Option<usize>
        decreases x, 0nat,
    {
        match x {
            SexpV::List(v) => if v.len() >= 1 {
                match self.items_ids(v, v.len()) {
                    Some(ids) => self.lookup_spec((head_of(v[0]), ids)),
                    None => None,
                }
            } else {
                None
            },
            _ => self.lookup_spec((head_of(x), Seq::empty())),
        }
    }

    /// The ids of the items of `v` from the second to the `n`-th.
    pub open spec fn items_ids(&self, v: Seq<SexpV>, n: nat) -> Option<Seq<usize>>
        decreases v, n,
    {
        if n <= 1 || n > v.len() {
            Some(Seq::empty())
        } else {
            match (self.items_ids(v, (n - 1) as nat), self.term_id(v[n - 1])) {
                (Some(ids), Some(i)) => Some(ids.push(i)),
                _ => None,
            }
        }
    }

    /// Whether `g2` finds every e-node over the ids of `self` that `self`
    /// finds, where `self` finds it.
    pub open spec fn lookups_kept(&self, g2: &Self) -> bool {
        forall|x: EnodeV|
            node_ok(x, self.size()) && #[trigger] self.lookup_spec(x) is Some ==> g2.lookup_spec(x)
                == self.lookup_spec(x)
    }

    /// What lookup finds is an id that exists.
    proof fn lemma_lookup_range(&self, e: EnodeV)
        requires
            self.wf(),
            node_ok(e, self.size()),
        ensures
            self.lookup_spec(e) matches Some(x) ==> x < self.size(),
    {
        let m = self.memo_entries();
        lemma_key_index(m, e);
        self.lemma_canon_idem(e);
        let c = self.canon(e);
        lemma_key_index(m, c);
        if get_value(m, e) is Some {
            assert(m[key_index(m, e)].1 < self.size());
            self.uf().lemma_root_is_root(m[key_index(m, e)].1 as int);
        } else if get_value(m, c) is Some {
            assert(m[key_index(m, c)].1 < self.size());
            self.uf().lemma_root_is_root(m[key_index(m, c)].1 as int);
        } else if self.some_class_holds(c) {
            self.lemma_first_holder(c, self.class_entries().len() as int);
            let i0 = choose|i: int|
                0 <= i < self.class_entries().len() && self.class_holds_canon(i, c) && forall|k: int|
                    0 <= k < i ==> !#[trigger] self.class_holds_canon(k, c);
            self.lemma_first_class_at(c, i0);
            assert(self.class_entries()[i0].0 < self.size());
        }
    }

    /// The id an expression stands for exists.
    proof fn lemma_term_id_range(&self, x: SexpV)
        requires
            self.wf(),
        ensures
            self.term_id(x) matches Some(i) ==> i < self.size(),
        decreases x, 0nat,
    {
        match x {
            SexpV::List(v) => {
                if v.len() >= 1 {
                    self.lemma_items_ids_range(v, v.len());
                    if let Some(ids) = self.items_ids(v, v.len()) {
                        assert(node_ok((head_of(v[0]), ids), self.size()));
                        self.lemma_lookup_range((head_of(v[0]), ids));
                    }
                }
            },
            _ => {
                self.lemma_lookup_range((head_of(x), Seq::empty()));
            },
        }
    }

    /// The ids of the items of a list exist.
    proof fn lemma_items_ids_range(&self, v: Seq<SexpV>, n: nat)
        requires
            self.wf(),
        ensures
            self.items_ids(v, n) matches Some(ids) ==> forall|j: int| 0 <= j < ids.len() ==> #[trigger] ids[j]
                < self.size(),
        decreases v, n,
    {
        if !(n <= 1 || n > v.len()) {
            self.lemma_items_ids_range(v, (n - 1) as nat);
            self.lemma_term_id_range(v[n - 1]);
            if let Some(ids) = self.items_ids(v, n) {
                let prev = self.items_ids(v, (n - 1) as nat)->Some_0;
                let last = self.term_id(v[n - 1])->Some_0;
                assert(ids == prev.push(last));
                assert(last < self.size());
                assert forall|j: int| 0 <= j < ids.len() implies #[trigger] ids[j] < self.size() by {
                    if j < prev.len() {
                        assert(ids[j] == prev[j]);
                        assert(prev[j] < self.size());
                    } else {
                        assert(ids[j] == last);
                    }
                }
            }
        }
    }

    /// An expression stands for the same id in an e-graph that keeps what
    /// lookup finds.
    proof fn lemma_term_id_kept(&self, g2: &Self, x: SexpV)
        requires
            self.wf(),
            self.lookups_kept(g2),
            self.term_id(x) is Some,
        ensures
            g2.term_id(x) == self.term_id(x),
        decreases x, 0nat,
    {
        match x {
            SexpV::List(v) => {
                self.lemma_items_ids_kept(g2, v, v.len());
                self.lemma_items_ids_range(v, v.len());
                let ids = self.items_ids(v, v.len())->Some_0;
                assert(node_ok((head_of(v[0]), ids), self.size()));
                assert(self.lookup_spec((head_of(v[0]), ids)) is Some);
            },
            _ => {
                assert(node_ok((head_of(x), Seq::<usize>::empty()), self.size()));
            },
        }
    }

    /// The items of a list stand for the same ids in an e-graph that keeps
    /// what lookup finds.
    /// Where the ids of the items are all found, each item's is.
    proof fn lemma_items_ids_some(&self, v: Seq<SexpV>, n: nat, k: int)
        requires
            self.items_ids(v, n) is Some,
            1 <= k < n <= v.len(),
        ensures
            self.term_id(v[k]) is Some,
        decreases n,
    {
        if k < n - 1 {
            self.lemma_items_ids_some(v, (n - 1) as nat, k);
        }
    }

    proof fn lemma_items_ids_kept(&self, g2: &Self, v: Seq<SexpV>, n: nat)
        requires
            self.wf(),
            self.lookups_kept(g2),
            self.items_ids(v, n) is Some,
        ensures
            g2.items_ids(v, n) == self.items_ids(v, n),
        decreases v, n,
    {
        if !(n <= 1 || n > v.len()) {
            self.lemma_items_ids_kept(g2, v, (n - 1) as nat);
            self.lemma_term_id_kept(g2, v[n - 1]);
        }
    }

    /// Keeping what lookup finds carries over a chain of e-graphs that do
    /// not shrink.
    proof fn lemma_lookups_kept_trans(g1: &Self, g2: &Self, g3: &Self)
        requires
            g1.lookups_kept(g2),
            g2.lookups_kept(g3),
            g1.size() <= g2.size(),
        ensures
            g1.lookups_kept(g3),
    {
        assert forall|x: EnodeV| node_ok(x, g1.size()) && #[trigger] g1.lookup_spec(x) is Some implies g3.lookup_spec(x)
            == g1.lookup_spec(x) by {
            assert(g2.lookup_spec(x) == g1.lookup_spec(x));
            assert(node_ok(x, g2.size()));
        }
    }

    /// What inserting the expression `x` does, with result `r`, as the
    /// steps in `t` record it: a list inserts its items after the first in
    /// order (the e-graphs in between and their ids are those of `t`), then
    /// adds the e-node of its first item's text over their ids; an atom adds
    /// its leaf e-node (see `pushed`).
    pub open spec fn term_added(&self, new: &Self, x: SexpV, r: usize, t: BuildTrace) -> bool
        decreases x, 0nat,
    {
        match x {
            SexpV::List(v) => v.len() >= 1 && match t {
                BuildTrace::Var => false,
                BuildTrace::Term(ts, gs, ids) => {
                    &&& ids.len() == v.len() - 1
                    &&& ts.len() == ids.len()
                    &&& gs.len() == v.len()
                    &&& gs[0] == *self
                    &&& self.items_built(ts, gs, ids, v, (v.len() - 1) as nat)
                    &&& gs.last().pushed(new, (head_of(v[0]), ids), r)
                },
            },
            _ => t is Var && self.pushed(new, (head_of(x), Seq::empty()), r),
        }
    }

    /// The first `k` items after the first of `v` were inserted with
    /// results `ids`, the `j`-th leading from `gs[j]` to `gs[j + 1]` by the
    /// steps `ts[j]`.
    pub open spec fn items_built(
        &self,
        ts: Seq<BuildTrace>,
        gs: Seq<EGraph>,
        ids: Seq<usize>,
        v: Seq<SexpV>,
        k: nat,
    ) -> bool
        decreases v, k,
    {
        if k == 0 || k >= v.len() {
            true
        } else {
            &&& self.items_built(ts, gs, ids, v, (k - 1) as nat)
            &&& gs[k - 1].term_added(&gs[k as int], v[k as int], ids[k - 1], ts[k - 1])
        }
    }

    /// `items_built` looks only at the first `k` steps.
    proof fn lemma_items_built_prefix(
        &self,
        ts: Seq<BuildTrace>,
        gs: Seq<EGraph>,
        ids: Seq<usize>,
        ts2: Seq<BuildTrace>,
        gs2: Seq<EGraph>,
        ids2: Seq<usize>,
        v: Seq<SexpV>,
        k: nat,
    )
        requires
            self.items_built(ts, gs, ids, v, k),
            k <= ts.len(),
            k <= ts2.len(),
            k < gs.len(),
            k < gs2.len(),
            k <= ids.len(),
            k <= ids2.len(),
            forall|j: int| 0 <= j < k ==> ts2[j] == ts[j] && ids2[j] == ids[j],
            forall|j: int| 0 <= j <= k ==> gs2[j] == gs[j],
        ensures
            self.items_built(ts2, gs2, ids2, v, k),
        decreases k,
    {
        if k > 0 && k < v.len() {
            self.lemma_items_built_prefix(ts, gs, ids, ts2, gs2, ids2, v, (k - 1) as nat);
            assert(gs2[k - 1] == gs[k - 1]);
            assert(gs2[k as int] == gs[k as int]);
        }
    }

    fn insert_term(&mut self, f: &Sexp) -> (id: Id)
        requires
            old(self).wf(),
            insertable(f@),
        ensures
            final(self).wf(),
            final(self).dirty() == old(self).dirty(),
            final(self).size() >= old(self).size(),
            forall|i: int| 0 <= i < old(self).size() ==> #[trigger] final(self).root(i) == old(self).root(i),
            id.0 < final(self).size(),
            final(self).uf().is_root(id.0 as int),
            final(self).term_id(f@) == Some(id.0),
            old(self).lookups_kept(&*final(self)),
            old(self).congruent() ==> final(self).congruent(),
            final(self).size() - old(self).size() == final(self).class_entries().len() - old(self).class_entries().len(),
            flat_nodes(final(self).class_entries()).len() - flat_nodes(old(self).class_entries()).len()
                == final(self).class_entries().len() - old(self).class_entries().len(),
            old(self).term_id(f@) is Some ==> {
                &&& final(self).size() == old(self).size()
                &&& final(self).class_entries() == old(self).class_entries()
                &&& final(self).memo_entries() == old(self).memo_entries()
            },
            exists|t: BuildTrace| #[trigger] old(self).term_added(&*final(self), f@, id.0, t),
            old(self).present_kept(&*final(self)),
        decreases f,
    {
        let ghost old_g = *self;
        proof {
            Self::lemma_present_grow(&old_g, &old_g);
        }
        match f {
            Sexp::List(list) => {
                let ghost vv = f@->List_0;
                assert(vv[0] == list@[0]@);
                let first = list[0].to_string();
                let op = trim_quote_chars(first.as_str());
                let mut term = Enode::new(op);
                let mut i: usize = 1;
                let ghost mut ts: Seq<BuildTrace> = Seq::empty();
                let ghost mut gs: Seq<EGraph> = seq![old_g];
                proof {
                    assert(term.args@.len() == 0);
                    assert(ids_view(term.args@) =~= Seq::<usize>::empty());
                    assert forall|x: EnodeV| node_ok(x, old_g.size()) && #[trigger] old_g.lookup_spec(x) is Some implies self.lookup_spec(x) == old_g.lookup_spec(x) by {
                    }
                }
                while i < list.len()
                    invariant
                        *f == Sexp::List(*list),
                        vv == f@->List_0,
                        vv.len() == list@.len(),
                        vv.len() >= 1,
                        items_insertable(vv, vv.len()),
                        1 <= i <= list.len(),
                        old_g.wf(),
                        self.wf(),
                        self.dirty() == old_g.dirty(),
                        self.size() >= old_g.size(),
                        forall|k: int| 0 <= k < old_g.size() ==> #[trigger] self.root(k) == old_g.root(k),
                        old_g.lookups_kept(self),
                        old_g.present_kept(self),
                        old_g.congruent() ==> self.congruent(),
                        self.size() - old_g.size() == self.class_entries().len() - old_g.class_entries().len(),
                        flat_nodes(self.class_entries()).len() - flat_nodes(old_g.class_entries()).len()
                            == self.class_entries().len() - old_g.class_entries().len(),
                        old_g.term_id(f@) is Some ==> {
                            &&& self.size() == old_g.size()
                            &&& self.class_entries() == old_g.class_entries()
                            &&& self.memo_entries() == old_g.memo_entries()
                        },
                        term@.0 == head_of(vv[0]),
                        self.items_ids(vv, i as nat) == Some(term@.1),
                        gs.len() == i,
                        ts.len() == i - 1,
                        term@.1.len() == i - 1,
                        gs[0] == old_g,
                        gs[i - 1] == *self,
                        old_g.items_built(ts, gs, term@.1, vv, (i - 1) as nat),
                    decreases list.len() - i,
                {
                    proof {
                        assert(decreases_to!(*f => (*f)->List_0));
                        assert((*f)->List_0 == *list);
                        assert(decreases_to!(*list => list@));
                        assert(decreases_to!(list@ => list@[i as int]));
                        assert(vv[i as int] == list@[i as int]@);
                        lemma_items_insertable(vv, vv.len(), i as int);
                    }
                    let ghost g0 = *self;
                    let ghost prev = term@.1;
                    proof {
                        if old_g.term_id(f@) is Some {
                            old_g.lemma_items_ids_some(vv, vv.len(), i as int);
                            old_g.lemma_term_id_kept(&g0, vv[i as int]);
                        }
                    }
                    let id = self.insert_term(&list[i]);
                    proof {
                        g0.lemma_items_ids_kept(self, vv, i as nat);
                        Self::lemma_lookups_kept_trans(&old_g, &g0, self);
                        Self::lemma_present_kept_trans(&old_g, &g0, self);
                        assert forall|k: int| 0 <= k < old_g.size() implies #[trigger] self.root(k) == old_g.root(k) by {
                            assert(g0.root(k) == old_g.root(k));
                        }
                    }
                    let ghost before_args = term.args@;
                    term.args.push(id);
                    proof {
                        assert(term.args@ == before_args.push(id));
                        assert(ids_view(term.args@) =~= prev.push(id.0));
                        let tj = choose|tj: BuildTrace| g0.term_added(self, vv[i as int], id.0, tj);
                        let ts2 = ts.push(tj);
                        let gs2 = gs.push(*self);
                        old_g.lemma_items_built_prefix(ts, gs, prev, ts2, gs2, term@.1, vv, (i - 1) as nat);
                        assert(gs2[i - 1] == g0);
                        assert(old_g.items_built(ts2, gs2, term@.1, vv, i as nat));
                        ts = ts2;
                        gs = gs2;
                    }
                    i = i + 1;
                }
                proof {
                    self.lemma_items_ids_range(vv, vv.len());
                    assert(vv.len() as nat == i as nat);
                    let ids = self.items_ids(vv, vv.len())->Some_0;
                    assert(term@.1 == ids);
                    assert forall|j: int| 0 <= j < term@.1.len() implies #[trigger] term@.1[j] < self.size() by {
                        assert(ids[j] < self.size());
                    }
                }
                let ghost g1 = *self;
                proof {
                    if old_g.term_id(f@) is Some {
                        old_g.lemma_items_ids_kept(&g1, vv, vv.len());
                        old_g.lemma_items_ids_range(vv, vv.len());
                        assert(old_g.lookup_spec(term@) is Some);
                        assert(node_ok(term@, old_g.size()));
                        assert(g1.lookup_spec(term@) is Some);
                    }
                }
                let ghost tv = term@;
                let r = self.push_eclass(&mut term);
                proof {
                    assert(g1.pushed(self, (head_of(vv[0]), tv.1), r.0));
                    assert(gs.last() == g1);
                    assert(old_g.term_added(self, f@, r.0, BuildTrace::Term(ts, gs, tv.1)));
                    assert(g1.lookups_kept(self));
                    g1.lemma_items_ids_kept(self, vv, vv.len());
                    Self::lemma_lookups_kept_trans(&old_g, &g1, self);
                    Self::lemma_present_kept_trans(&old_g, &g1, self);
                    assert forall|k: int| 0 <= k < old_g.size() implies #[trigger] self.root(k) == old_g.root(k) by {
                        assert(g1.root(k) == old_g.root(k));
                    }
                }
                return r;
            },
            _ => {
                let t = f.to_string();
                let s = trim_quote_chars(t.as_str());
                let r = self.push_leaf(s);
                proof {
                    assert(old_g.lookups_kept(self));
                    assert(s@ == head_of(f@));
                    assert(old_g.term_added(self, f@, r.0, BuildTrace::Var));
                }
                return r;
            },
        }
    }

    /// Inserting an expression that is already there (as `insert_sexpr`
    /// leaves the e-graph twice over) gives back the same id.
    pub proof fn lemma_insert_again(g1: &Self, g2: &Self, x: SexpV, id1: usize, id2: usize)
        requires
            g1.wf(),
            g1.term_id(x) == Some(id1),
            g1.lookups_kept(g2),
            g2.term_id(x) == Some(id2),
        ensures
            id1 == id2,
    {
        g1.lemma_term_id_kept(g2, x);
    }

    /// Inserts an expression, bottom up: each list becomes the e-node of
    /// its first item's text (without surrounding double quotes) applied to
    /// the e-classes of its other items, each atom a leaf e-node, merging
    /// with e-nodes already there (see `term_added`).  Returns the canonical
    /// id of the e-class of the whole expression.  Every id it hands out
    /// starts an e-class of one e-node; an expression that is already there
    /// adds nothing.
    pub fn insert_sexpr(&mut self, f: Sexp) -> (id: Id)
        requires
            old(self).wf(),
            insertable(f@),
        ensures
            final(self).wf(),
            final(self).dirty() == old(self).dirty(),
            final(self).size() >= old(self).size(),
            forall|i: int| 0 <= i < old(self).size() ==> #[trigger] final(self).root(i) == old(self).root(i),
            id.0 < final(self).size(),
            final(self).uf().is_root(id.0 as int),
            final(self).term_id(f@) == Some(id.0),
            old(self).lookups_kept(&*final(self)),
            old(self).congruent() ==> final(self).congruent(),
            final(self).size() - old(self).size() == final(self).class_entries().len() - old(self).class_entries().len(),
            flat_nodes(final(self).class_entries()).len() - flat_nodes(old(self).class_entries()).len()
                == final(self).class_entries().len() - old(self).class_entries().len(),
            old(self).term_id(f@) is Some ==> {
                &&& final(self).size() == old(self).size()
                &&& final(self).class_entries() == old(self).class_entries()
                &&& final(self).memo_entries() == old(self).memo_entries()
            },
            exists|t: BuildTrace| #[trigger] old(self).term_added(&*final(self), f@, id.0, t),
            old(self).present_kept(&*final(self)),
    {
        self.insert_term(&f)
    }

    /// The memo's entries, in order.
    pub fn memo_pairs(&self) -> (r: Vec<(Enode, Id)>)
        ensures
            r@.map_values(|p: (Enode, Id)| (p.0@, p.1.0)) == self.memo_entries(),
    {
        let mut r: Vec<(Enode, Id)> = Vec::new();
        let k = node_map_len(&self.memo);
        let mut i: usize = 0;
        while i < k
            invariant
                k == self.memo_entries().len(),
                i <= k,
                r@.map_values(|p: (Enode, Id)| (p.0@, p.1.0)) == self.memo_entries().take(i as int),
            decreases k - i,
        {
            let (n, id) = node_map_get_index(&self.memo, i);
            let ghost prev = r@;
            let nc = n.clone();
            r.push((nc, id));
            i = i + 1;
            assert(r@.map_values(|p: (Enode, Id)| (p.0@, p.1.0)) =~= self.memo_entries().take(i as int)) by {
                assert(r@ == prev.push((nc, id)));
                assert(r@.map_values(|p: (Enode, Id)| (p.0@, p.1.0)) =~= prev.map_values(
                    |p: (Enode, Id)| (p.0@, p.1.0),
                ).push(self.memo_entries()[i - 1]));
            }
        }
        assert(self.memo_entries().take(k as int) =~= self.memo_entries());
        return r;
    }

    /// The e-classes, in order, each as its id, its e-nodes and its parent
    /// entries.
    pub fn class_list(&self) -> (r: Vec<(Id, Vec<Enode>, Vec<(Enode, Id)>)>)
        ensures
            r@.len() == self.class_entries().len(),
            forall|i: int|
                0 <= i < r@.len() ==> (#[trigger] r@[i]).0.0 == self.class_entries()[i].0 && r@[i].1@.map_values(
                    |n: Enode| n@,
                ) == self.class_entries()[i].1.0 && parents_view(r@[i].2@) == self.class_entries()[i].1.1,
    {
        let mut r: Vec<(Id, Vec<Enode>, Vec<(Enode, Id)>)> = Vec::new();
        let k = class_map_len(&self.classes);
        let mut i: usize = 0;
        while i < k
            invariant
                k == self.class_entries().len(),
                i <= k,
                r@.len() == i,
                forall|j: int|
                    0 <= j < i ==> (#[trigger] r@[j]).0.0 == self.class_entries()[j].0 && r@[j].1@.map_values(
                        |n: Enode| n@,
                    ) == self.class_entries()[j].1.0 && parents_view(r@[j].2@) == self.class_entries()[j].1.1,
            decreases k - i,
        {
            let (id, cls) = class_map_get_index(&self.classes, i);
            let m = node_set_len(&cls.nodes);
            let mut ns: Vec<Enode> = Vec::new();
            let mut j: usize = 0;
            while j < m
                invariant
                    m == cls@.0.len(),
                    j <= m,
                    ns@.map_values(|n: Enode| n@) == cls@.0.take(j as int),
                decreases m - j,
            {
                let x = node_set_get_index(&cls.nodes, j).clone();
                let ghost prev = ns@;
                ns.push(x);
                j = j + 1;
                assert(ns@.map_values(|n: Enode| n@) =~= cls@.0.take(j as int)) by {
                    assert(ns@ == prev.push(x));
                    assert(ns@.map_values(|n: Enode| n@) =~= prev.map_values(|n: Enode| n@).push(x@));
                }
            }
            assert(cls@.0.take(m as int) =~= cls@.0);
            let ps = clone_parents(&cls.parents);
            r.push((id, ns, ps));
            i = i + 1;
        }
        return r;
    }

    /// The ids of the unions not yet repaired.
    pub fn dirty_ids(&self) -> (r: Vec<Id>)
        ensures
            ids_view(r@) == self.dirty(),
    {
        let r = self.dirty_unions.clone();
        assert(ids_view(r@) =~= ids_view(self.dirty_unions@));
        r
    }

    /// The parent pointers of the union-find.
    pub fn uf_parents(&self) -> (r: Vec<Id>)
        ensures
            r@.map_values(|p: Id| p.0) == self.uf().parent_seq(),
    {
        self.unionfind.parents()
    }
}

impl Clone for EGraph {
    /// A copy with the same memo, e-classes and pending unions.
    fn clone(&self) -> (g: EGraph)
        ensures
            g.memo_entries() == self.memo_entries(),
            g.class_entries() == self.class_entries(),
            g.dirty() == self.dirty(),
    {
        let mut dirty = Vec::<Id>::new();
        let mut i: usize = 0;
        while i < self.dirty_unions.len()
            invariant
                i <= self.dirty_unions@.len(),
                dirty@ == self.dirty_unions@.take(i as int),
            decreases self.dirty_unions@.len() - i,
        {
            dirty.push(self.dirty_unions[i]);
            i = i + 1;
            assert(dirty@ =~= self.dirty_unions@.take(i as int));
        }
        assert(dirty@ =~= self.dirty_unions@);
        EGraph {
            unionfind: self.unionfind.clone(),
            memo: node_map_clone(&self.memo),
            classes: class_map_clone(&self.classes),
            dirty_unions: dirty,
        }
    }
}

} // verus!
