use egs::{Id, UnionFind};

fn ids(v: Vec<usize>) -> Vec<Id> {
    v.into_iter().map(Id::from).collect()
}

#[test]
fn union_find() {
    let n = 10;
    let mut uf = UnionFind::default();
    println!("base set:                   {:?}", uf.parents());
    for _ in 0..n {
        uf.new_set();
    }

    // test the initial condition of everyone in their own set
    println!("after adding some nodes:    {:?}", uf.parents());

    // build up one set
    uf.union(Id::from(0), Id::from(1));
    uf.union(Id::from(0), Id::from(2));
    uf.union(Id::from(0), Id::from(3));
    println!("after making 1 set:         {:?}", uf.parents());

    // build up another set
    uf.union(Id::from(6), Id::from(7));
    uf.union(Id::from(6), Id::from(8));
    uf.union(Id::from(6), Id::from(9));
    println!("after making 1 more set:    {:?}", uf.parents());

    uf.union(Id::from(2), Id::from(9));
    println!("after union:                {:?}", uf.parents());

    // this compresses all paths
    for i in 0..n {
        uf.find_mut(Id::from(i));
    }

    println!("after compression:          {:?}", uf.parents());

    // indexes:           0, 1, 2, 3, 4, 5, 6, 7, 8, 9
    assert_eq!(uf.parents(), ids(vec![0, 0, 0, 0, 4, 5, 0, 0, 0, 0]));
}

#[test]
fn new_set_returns_next_id_alone() {
    let mut uf = UnionFind::default();
    assert_eq!(uf.size(), 0);
    let a = uf.new_set();
    let b = uf.new_set();
    assert_eq!(a, Id(0));
    assert_eq!(b, Id(1));
    assert_eq!(uf.len(), 2);
    assert!(!uf.in_same_set(a, b));
    assert!(uf.in_same_set(b, b));
    assert_eq!(uf.find(b), b);
}

#[test]
fn union_joins_exactly_the_two_sets() {
    let mut uf = UnionFind::default();
    for _ in 0..6 {
        uf.new_set();
    }
    assert_eq!(uf.union(Id(0), Id(1)), Id(0));
    assert_eq!(uf.union(Id(2), Id(3)), Id(2));
    assert!(uf.in_same_set(Id(0), Id(1)));
    assert!(!uf.in_same_set(Id(1), Id(3)));
    // joining the sets of 1 and 3 joins all four, and leaves 4 and 5 alone
    assert_eq!(uf.union(Id(1), Id(3)), Id(0));
    assert!(uf.in_same_set(Id(0), Id(2)));
    assert!(uf.in_same_set(Id(1), Id(3)));
    assert!(!uf.in_same_set(Id(3), Id(4)));
    assert!(!uf.in_same_set(Id(4), Id(5)));
    assert_eq!(uf.find(Id(3)), Id(0));
}

#[test]
fn find_is_idempotent_and_find_mut_keeps_sets() {
    let mut uf = UnionFind::default();
    for _ in 0..5 {
        uf.new_set();
    }
    uf.union(Id(1), Id(2));
    uf.union(Id(0), Id(1));
    uf.union(Id(4), Id(3));
    for i in 0..5 {
        let r = uf.find(Id(i));
        assert_eq!(uf.find(r), r);
    }
    let before: Vec<Id> = (0..5).map(|i| uf.find(Id(i))).collect();
    for i in 0..5 {
        assert_eq!(uf.find_mut(Id(i)), before[i]);
    }
    let after: Vec<Id> = (0..5).map(|i| uf.find(Id(i))).collect();
    assert_eq!(before, after);
    assert_eq!(after, ids(vec![0, 0, 0, 4, 4]));
}

#[test]
fn canonicalize_points_every_entry_at_its_root() {
    let mut uf = UnionFind::default();
    for _ in 0..4 {
        uf.new_set();
    }
    uf.union(Id(2), Id(3));
    uf.union(Id(1), Id(2));
    uf.union(Id(0), Id(1));
    assert_eq!(uf.parents(), ids(vec![0, 0, 1, 2]));
    uf.canonicalize();
    assert_eq!(uf.parents(), ids(vec![0, 0, 0, 0]));
}

#[test]
fn id_converts_both_ways() {
    let id = Id::from(7usize);
    assert_eq!(id, Id(7));
    assert_eq!(usize::from(id), 7);
}

#[test]
fn find_mut_points_the_whole_set_at_its_root() {
    let mut uf = UnionFind::default();
    for _ in 0..4 {
        uf.new_set();
    }
    uf.union(Id::from(2), Id::from(3));
    uf.union(Id::from(1), Id::from(2));
    uf.union(Id::from(0), Id::from(1));
    assert_eq!(uf.find_mut(Id::from(3)), Id::from(0));
    assert_eq!(uf.parents(), ids(vec![0, 0, 0, 0]));
    for i in 0..4 {
        assert_eq!(uf.find(Id::from(i)), Id::from(0));
    }
}
