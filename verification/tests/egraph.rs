use egs::egraph::{ret_1, ret_logical};
use egs::pattern::{parse_ruleset, try_parse_ruleset};
use egs::sexp::parse_sexp;
use egs::{EClass, EGraph, Enode, Id, Rule};

fn term(s: &str) -> egs::Sexp {
    parse_sexp(s).ok().unwrap()
}

fn node(head: &str, args: Vec<usize>) -> Enode {
    let mut n = Enode::new(String::from(head));
    for a in args {
        n.args.push(Id(a));
    }
    n
}

fn rule(lhs: &str, rhs: &str) -> Rule {
    Rule::new_rule(term(lhs), term(rhs)).unwrap()
}

#[test]
fn empty_graph() {
    let g = EGraph::new();
    assert_eq!(g.uf_len(), 0);
    assert_eq!(g.n_eclasses(), 0);
    assert_eq!(g.n_enodes(), 0);
    assert!(g.is_congruent());
    assert!(g.dirty_ids().is_empty());
}

#[test]
fn push_leaf_then_lookup_finds_it() {
    let mut g = EGraph::new();
    let a = g.push_leaf(String::from("a"));
    assert_eq!(a, Id(0));
    assert_eq!(g.lookup(&Enode::new(String::from("a"))), Some(Id(0)));
    assert_eq!(g.lookup(&Enode::new(String::from("b"))), None);
    // pushing it again finds the same e-class and adds nothing
    assert_eq!(g.push_leaf(String::from("a")), Id(0));
    assert_eq!(g.uf_len(), 1);
    assert_eq!(g.n_eclasses(), 1);
}

#[test]
fn push_eclass_records_parents() {
    let mut g = EGraph::new();
    let a = g.push_leaf(String::from("a"));
    let mut f = node("f", vec![a.0, a.0]);
    let id = g.push_eclass(&mut f);
    assert_eq!(id, Id(1));
    let classes = g.class_list();
    assert_eq!(classes.len(), 2);
    assert_eq!(classes[0].0, Id(0));
    assert_eq!(classes[0].2.len(), 2);
    assert_eq!(classes[0].2[0].1, Id(1));
    assert_eq!(classes[1].1, vec![node("f", vec![0, 0])]);
    assert!(classes[1].2.is_empty());
}

#[test]
fn insert_sexpr_builds_the_term_bottom_up() {
    let mut g = EGraph::new();
    let root = g.insert_sexpr(term("(+ a (* a 2))"));
    // a = 0, (* a 2): 2 = 1, * = 2, + = 3
    assert_eq!(root, Id(3));
    assert_eq!(g.uf_len(), 4);
    assert_eq!(g.n_eclasses(), 4);
    assert_eq!(g.n_enodes(), 4);
    assert_eq!(g.lookup(&node("*", vec![0, 1])), Some(Id(2)));
    assert_eq!(g.lookup(&node("+", vec![0, 2])), Some(Id(3)));
    let memo = g.memo_pairs();
    assert_eq!(memo.len(), 4);
    assert_eq!(memo[3], (node("+", vec![0, 2]), Id(3)));
}

#[test]
fn insert_same_term_twice_gives_same_id() {
    let mut g = EGraph::new();
    let r1 = g.insert_sexpr(term("(f a (g b))"));
    let size = g.uf_len();
    let r2 = g.insert_sexpr(term("(f a (g b))"));
    assert_eq!(r1, r2);
    assert_eq!(g.uf_len(), size);
    // a shared subterm is not inserted again
    let r3 = g.insert_sexpr(term("(h (g b))"));
    assert_eq!(r3, Id(size));
    assert_eq!(g.uf_len(), size + 1);
}

#[test]
fn insert_strips_quotes_from_heads() {
    let mut g = EGraph::new();
    let r = g.insert_sexpr(term("\"a b\""));
    assert_eq!(g.lookup(&Enode::new(String::from("a b"))), Some(r));
}

#[test]
fn union_merges_two_classes() {
    let mut g = EGraph::new();
    g.insert_sexpr(term("(+ a b)"));
    assert_eq!(g.n_eclasses(), 3);
    assert_eq!(g.union(Id(0), Id(0)), None);
    assert_eq!(g.union(Id(0), Id(1)), Some(Id(0)));
    assert_eq!(g.find(Id(1)), Id(0));
    assert_eq!(g.n_eclasses(), 2);
    assert_eq!(g.dirty_ids(), vec![Id(0)]);
    assert!(g.get_eclass(&Id(1)).is_none());
    let merged = g.get_eclass_cpy(Id(0)).unwrap();
    assert_eq!(merged.nodes.len(), 2);
    assert!(g.in_same_class(&Enode::new(String::from("a")), &Enode::new(String::from("b"))));
    // the parent e-node keeps its old arguments until rebuilding
    assert!(!g.is_canonical_full());
    assert!(!g.is_canonical_in_memo());
    g.rebuild();
    assert!(g.dirty_ids().is_empty());
    assert!(g.is_canonical_in_memo());
}

#[test]
fn rebuild_restores_congruence() {
    let mut g = EGraph::new();
    let fa = g.insert_sexpr(term("(f a)"));
    let fb = g.insert_sexpr(term("(f b)"));
    assert_eq!((fa, fb), (Id(1), Id(3)));
    assert!(g.is_congruent());
    g.union(Id(0), Id(2));
    g.rebuild();
    assert_eq!(g.find(fa), g.find(fb));
    assert_eq!(g.lookup(&node("f", vec![2])), g.lookup(&node("f", vec![0])));
    assert_eq!(g.n_eclasses(), 2);
    assert!(g.dirty_ids().is_empty());
}

#[test]
fn rewrite_with_identity_rule_merges_term_with_argument() {
    let mut g = EGraph::new();
    let root = g.insert_sexpr(term("(+ a 0)"));
    let rules = vec![rule("(+ P_x 0)", "P_x")];
    assert_eq!(g.rewrite_ruleset(&rules), 1);
    assert_eq!(g.find(root), g.find(Id(0)));
    // nothing is left to merge
    assert_eq!(g.rewrite_ruleset(&rules), 0);
    assert_eq!(g.extract_logical(root), Some(String::from("a")));
    assert_eq!(g.extract_shortest(root), Some(String::from("a")));
}

#[test]
fn rewrite_lhs_to_rhs_counts_merges() {
    let mut g = EGraph::new();
    let root = g.insert_sexpr(term("(* (* x 2) 2)"));
    let r = rule("(* P_x 2)", "(<< P_x 1)");
    assert_eq!(g.rewrite_lhs_to_rhs(&r), 2);
    g.rebuild();
    assert_eq!(g.extract_logical(root), Some(String::from("(<< (<< x 1) 1)")));
}

#[test]
fn extract_prefers_cheapest_term() {
    let mut g = EGraph::new();
    let root = g.insert_sexpr(term("(* a 2)"));
    let other = g.insert_sexpr(term("(<< a 1)"));
    assert_eq!(g.extract_logical(root), Some(String::from("(* a 2)")));
    g.union(root, other);
    g.rebuild();
    // "*" costs 3 and "<<" costs 2
    assert_eq!(g.extract_logical(root), Some(String::from("(<< a 1)")));
    // with unit costs the first of the equally cheap terms is taken
    assert_eq!(g.extract_shortest(root), Some(String::from("(* a 2)")));
    assert_eq!(g.extract_best(root, &ret_1), Some(String::from("(* a 2)")));
}

#[test]
fn extract_fails_on_a_cycle_only_class() {
    let mut g = EGraph::new();
    let a = g.insert_sexpr(term("a"));
    let fa = g.insert_sexpr(term("(f a)"));
    assert_eq!(g.extract_shortest(fa), Some(String::from("(f a)")));
    g.union(a, fa);
    g.rebuild();
    // the class holds a and (f class): a is still extractable
    assert_eq!(g.extract_shortest(fa), Some(String::from("a")));
    let mut g2 = EGraph::new();
    let x = g2.push_leaf(String::from("x"));
    let mut fx = node("f", vec![x.0]);
    let fid = g2.push_eclass(&mut fx);
    let visited = vec![x];
    assert_eq!(g2.extract(&visited, fid, &ret_1), None);
    assert_eq!(g2.extract(&Vec::new(), fid, &ret_1), Some((2, String::from("(f x)"))));
}

#[test]
fn cost_functions() {
    assert_eq!(ret_1(&String::from("anything")), 1);
    assert_eq!(ret_logical(&String::from("+")), 2);
    assert_eq!(ret_logical(&String::from("/")), 4);
    assert_eq!(ret_logical(&String::from("*")), 3);
    assert_eq!(ret_logical(&String::from("<<")), 2);
    assert_eq!(ret_logical(&String::from("succ")), 0);
    assert_eq!(ret_logical(&String::from("n")), 2);
    assert_eq!(ret_logical(&String::from("a")), 1);
}

#[test]
fn uf_parents_and_canonical_checks() {
    let mut g = EGraph::new();
    g.insert_sexpr(term("(g x y)"));
    assert_eq!(g.uf_parents(), vec![Id(0), Id(1), Id(2)]);
    assert!(g.is_canonical_in_memo());
    assert!(g.is_canonical_full());
    assert_eq!(g.canonicalize_args(&node("g", vec![0, 1])), node("g", vec![0, 1]));
    let mut h = g.find_mut(&Id(2));
    assert_eq!(h, Id(2));
    h = g.find(Id(1));
    assert_eq!(h, Id(1));
}

#[test]
fn eclass_new_holds_one_node() {
    let c = EClass::new(Enode::new(String::from("a")));
    assert_eq!(c.nodes.len(), 1);
    assert!(c.parents.is_empty());
}

#[test]
fn ruleset_text_gives_rules_in_order() {
    let text = "(+ P_x 0) -> P_x\n\n(* P_x 1) -> P_x\r\nnot a rule\n(* P_x 2) -> (<< P_x 1) -> ignored\n";
    let rules = try_parse_ruleset(text).unwrap();
    assert_eq!(rules.len(), 3);
    assert_eq!(rules[0].lhs, egs::pattern::new_pattern(term("(+ P_x 0)")).unwrap());
    assert_eq!(rules[1].rhs, egs::Pattern::PatVar(String::from("P_x")));
    assert_eq!(rules[2].rhs, egs::pattern::new_pattern(term("(<< P_x 1)")).unwrap());
    assert_eq!(parse_ruleset(text).len(), 3);
    // a side that reads but denotes no pattern is refused
    assert!(try_parse_ruleset("(+ P_x 0) -> ((a) b)\n").is_none());
}

#[test]
fn extract_right_after_insert_gives_the_term() {
    let mut g = EGraph::new();
    let root = g.insert_sexpr(term("(+ a (* b 2))"));
    assert_eq!(g.extract_shortest(root), Some(String::from("(+ a (* b 2))")));
    assert_eq!(g.extract_logical(root), Some(String::from("(+ a (* b 2))")));
}

#[test]
fn rebuild_merges_past_a_repeat_within_a_class() {
    let mut g = EGraph::new();
    let ga = g.insert_sexpr(term("(g a)"));
    let gb = g.insert_sexpr(term("(g b)"));
    g.union(ga, gb);
    g.rebuild();
    let ha = g.insert_sexpr(term("(h a)"));
    let hb = g.insert_sexpr(term("(h b)"));
    g.union(Id(0), Id(2));
    g.rebuild();
    // the class of (g a) now holds two e-nodes with one canonical form;
    // rebuilding goes on past them and merges (h a) with (h b)
    assert_eq!(g.find(ga), g.find(gb));
    assert_eq!(g.find(ha), g.find(hb));
    assert!(g.is_congruent());
    assert!(g.is_canonical_in_memo());
}

#[test]
fn insert_shares_repeated_subterms() {
    let mut g = EGraph::new();
    let id = g.insert_sexpr(term("(+ a a)"));
    assert_eq!(id, Id(1));
    assert_eq!(g.n_eclasses(), 2);
    assert_eq!(g.n_enodes(), 2);
    assert_eq!(g.lookup(&Enode::new(String::from("a"))), Some(Id(0)));
    assert_eq!(g.lookup(&node("+", vec![0, 0])), Some(Id(1)));
    // inserting it again adds nothing
    assert_eq!(g.insert_sexpr(term("(+ a a)")), Id(1));
    assert_eq!(g.uf_len(), 2);
    assert_eq!(g.n_eclasses(), 2);
}

#[test]
fn every_class_holds_an_enode() {
    let mut g = EGraph::new();
    g.insert_sexpr(term("(f (g a) b)"));
    g.insert_sexpr(term("(f (g b) a)"));
    g.union(Id(0), Id(3));
    g.rebuild();
    assert!(g.n_enodes() >= g.n_eclasses());
    for (_, nodes, _) in g.class_list() {
        assert!(!nodes.is_empty());
    }
}

#[test]
fn rebuild_without_pending_unions_changes_nothing() {
    let mut g = EGraph::new();
    g.insert_sexpr(term("(f a b)"));
    let before = g.class_list();
    let memo = g.memo_pairs();
    g.rebuild();
    assert_eq!(g.class_list(), before);
    assert_eq!(g.memo_pairs(), memo);
    assert!(g.dirty_ids().is_empty());
}

#[test]
fn rebuild_merges_every_congruent_pair() {
    let mut g = EGraph::new();
    let fa = g.insert_sexpr(term("(f a)"));
    let fb = g.insert_sexpr(term("(f b)"));
    let ga = g.insert_sexpr(term("(g a)"));
    let gb = g.insert_sexpr(term("(g b)"));
    let a = g.lookup(&Enode::new(String::from("a"))).unwrap();
    let b = g.lookup(&Enode::new(String::from("b"))).unwrap();
    g.union(a, b);
    g.rebuild();
    assert_eq!(g.find(fa), g.find(fb));
    assert_eq!(g.find(ga), g.find(gb));
    assert_ne!(g.find(fa), g.find(ga));
    assert!(g.is_congruent());
}

#[test]
fn empty_ruleset_changes_nothing() {
    let mut g = EGraph::new();
    g.insert_sexpr(term("(f a)"));
    let before = g.class_list();
    let rules: Vec<Rule> = Vec::new();
    assert_eq!(g.rewrite_ruleset(&rules), 0);
    assert_eq!(g.class_list(), before);
}

#[test]
fn rewrite_adds_a_new_right_side_and_merges_it() {
    let mut g = EGraph::new();
    let root = g.insert_sexpr(term("(+ x y)"));
    let r = rule("(+ P_a P_b)", "(+ P_b P_a)");
    let edits = g.rewrite_lhs_to_rhs(&r);
    assert_eq!(edits, 1);
    let swapped = g.lookup(&node("+", vec![1, 0])).unwrap();
    assert_eq!(g.find(swapped), g.find(root));
}

#[test]
fn rewrite_with_unbound_right_side_does_nothing() {
    let mut g = EGraph::new();
    g.insert_sexpr(term("(f a)"));
    let r = rule("(f P_x)", "(g P_y)");
    assert_eq!(g.rewrite_lhs_to_rhs(&r), 0);
    assert_eq!(g.n_eclasses(), 2);
    assert_eq!(g.uf_len(), 2);
}

#[test]
fn in_same_class_of_memo_terms() {
    let mut g = EGraph::new();
    g.insert_sexpr(term("(f a)"));
    g.insert_sexpr(term("b"));
    let a = Enode::new(String::from("a"));
    let b = Enode::new(String::from("b"));
    assert!(!g.in_same_class(&a, &b));
    g.union(Id(0), Id(2));
    assert!(g.in_same_class(&a, &b));
    assert!(g.in_same_class(&a, &a));
}

#[test]
fn clone_keeps_the_graph() {
    let mut g = EGraph::new();
    g.insert_sexpr(term("(f a b)"));
    let h = g.clone();
    assert_eq!(h.class_list(), g.class_list());
    assert_eq!(h.memo_pairs(), g.memo_pairs());
    assert_eq!(h.uf_parents(), g.uf_parents());
}

#[test]
fn rewrite_rounds_apply_the_rules_and_rebuild() {
    let mut g = EGraph::new();
    let root = g.insert_sexpr(term("(+ x y)"));
    let rules = vec![rule("(+ P_a P_b)", "(+ P_b P_a)")];
    let before = g.class_list();
    g.rewrite_rounds(&rules, 0);
    assert_eq!(g.class_list(), before);
    g.rewrite_rounds(&rules, 2);
    assert!(g.dirty_ids().is_empty());
    assert!(g.is_congruent());
    let swapped = g.lookup(&node("+", vec![1, 0])).unwrap();
    assert_eq!(g.find(swapped), g.find(root));
}

#[test]
fn rebuild_leaves_parent_entries_canonical() {
    let mut g = EGraph::new();
    g.insert_sexpr(term("(f (g a) b)"));
    g.insert_sexpr(term("(f (g b) a)"));
    let a = g.lookup(&Enode::new(String::from("a"))).unwrap();
    let b = g.lookup(&Enode::new(String::from("b"))).unwrap();
    g.union(a, b);
    g.rebuild();
    for (_, _, parents) in g.class_list() {
        for (p, id) in parents {
            assert_eq!(g.canonicalize_args(&p), p);
            assert_eq!(g.find(id), id);
        }
    }
}

#[test]
fn rule_with_equal_sides_counts_nothing() {
    let mut g = EGraph::new();
    g.insert_sexpr(term("(+ x (+ y z))"));
    let r = rule("(+ P_a P_b)", "(+ P_a P_b)");
    assert_eq!(g.rewrite_lhs_to_rhs(&r), 0);
    assert_eq!(g.n_eclasses(), 5);
    assert!(g.dirty_ids().is_empty());
}

#[test]
fn rewrite_adds_the_new_right_side_of_each_match() {
    let mut g = EGraph::new();
    assert_eq!(g.push_leaf(String::from("a")), Id(0));
    assert_eq!(g.push_leaf(String::from("2")), Id(1));
    let mut times = node("*", vec![0, 1]);
    assert_eq!(g.push_eclass(&mut times), Id(2));
    let r = rule("(* P_x 2)", "(<< P_x 1)");
    assert_eq!(g.rewrite_lhs_to_rhs(&r), 1);
    assert_eq!(g.find(Id(4)), Id(2));
    assert_eq!(g.lookup(&node("<<", vec![0, 3])), Some(Id(2)));
    assert_eq!(g.n_eclasses(), 4);
    assert_eq!(g.n_enodes(), 5);
    assert_eq!(g.uf_len(), 5);
}

#[test]
fn rewrite_merges_at_every_match() {
    let mut g = EGraph::new();
    let fa = g.insert_sexpr(term("(f a)"));
    let fb = g.insert_sexpr(term("(f b)"));
    let r = rule("(f P_x)", "(g P_x)");
    assert_eq!(g.rewrite_lhs_to_rhs(&r), 2);
    let ga = g.lookup(&node("g", vec![0])).unwrap();
    let gb = g.lookup(&node("g", vec![2])).unwrap();
    assert_eq!(g.find(ga), g.find(fa));
    assert_eq!(g.find(gb), g.find(fb));
}

#[test]
fn ruleset_applies_every_rule_in_order() {
    let mut g = EGraph::new();
    let root = g.insert_sexpr(term("(f a)"));
    let rules = vec![rule("(f P_x)", "(g P_x)"), rule("(g P_x)", "(h P_x)")];
    assert_eq!(g.rewrite_ruleset(&rules), 2);
    let h = g.lookup(&node("h", vec![0])).unwrap();
    assert_eq!(g.find(h), g.find(root));
    assert!(g.dirty_ids().is_empty());
    // a second pass finds nothing new
    assert_eq!(g.rewrite_ruleset(&rules), 0);
}

#[test]
fn find_mut_on_the_graph_points_the_set_at_its_root() {
    let mut g = EGraph::new();
    g.insert_sexpr(term("a"));
    g.insert_sexpr(term("b"));
    g.insert_sexpr(term("c"));
    g.union(Id(1), Id(2));
    g.union(Id(0), Id(1));
    assert_eq!(g.find_mut(&Id(2)), Id(0));
    assert_eq!(g.uf_parents(), vec![Id(0), Id(0), Id(0)]);
}

#[test]
fn union_of_two_ids_already_in_one_class_gives_none() {
    let mut g = EGraph::new();
    g.insert_sexpr(term("a"));
    g.insert_sexpr(term("b"));
    g.insert_sexpr(term("c"));
    assert_eq!(g.union(Id(0), Id(1)), Some(Id(0)));
    assert_eq!(g.union(Id(0), Id(2)), Some(Id(0)));
    let classes = g.n_eclasses();
    let dirty = g.dirty_ids();
    // 1 and 2 now share the e-class of 0
    assert_eq!(g.union(Id(1), Id(2)), None);
    assert_eq!(g.union(Id(0), Id(1)), None);
    assert_eq!(g.n_eclasses(), classes);
    assert_eq!(g.dirty_ids(), dirty);
}

#[test]
fn a_pushed_enode_stays_findable_through_unions_and_rebuilds() {
    let mut g = EGraph::new();
    let fa = g.insert_sexpr(term("(f a)"));
    g.insert_sexpr(term("(g b)"));
    let before = node("f", vec![0]);
    assert_eq!(g.lookup(&before), Some(fa));
    g.union(Id(2), Id(0));
    assert!(g.lookup(&before).is_some());
    g.rebuild();
    assert!(g.lookup(&before).is_some());
    assert_eq!(g.lookup(&node("f", vec![2])), g.lookup(&before));
    let rules = vec![rule("(f P_x)", "(h P_x)")];
    g.rewrite_ruleset(&rules);
    assert!(g.lookup(&before).is_some());
    assert_eq!(g.lookup(&before), g.lookup(&node("h", vec![2])));
}
