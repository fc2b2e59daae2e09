use tsp::unionfind::UnionFind;

#[test]
fn test_unionfind() {
    let mut uf = UnionFind::new(5);
    uf.unite(0, 1);
    uf.unite(1, 2);
    for i in 0..5 {
        println!("Root of {} is {}", i, uf.root(i));
    }
    assert_eq!(uf.root(0), uf.root(1));
    assert_eq!(uf.root(1), uf.root(2));
    assert_ne!(uf.root(0), uf.root(3));
    assert_ne!(uf.root(3), uf.root(4));
}

#[test]
fn unionfind_same_and_size() {
    let mut uf = UnionFind::new(6);
    for i in 0..6 {
        assert_eq!(uf.size(i), 1);
        assert_eq!(uf.root(i), i);
    }
    uf.unite(0, 1);
    assert!(uf.same(0, 1));
    assert!(!uf.same(0, 2));
    assert_eq!(uf.size(0), 2);
    assert_eq!(uf.size(1), 2);
    assert_eq!(uf.size(2), 1);
    uf.unite(2, 3);
    uf.unite(1, 3);
    assert!(uf.same(0, 3));
    assert!(uf.same(2, 1));
    assert_eq!(uf.size(3), 4);
    assert!(!uf.same(0, 5));
    assert_eq!(uf.size(5), 1);
}

#[test]
fn unionfind_root_is_its_own_root() {
    let mut uf = UnionFind::new(4);
    uf.unite(0, 1);
    uf.unite(1, 2);
    for i in 0..4 {
        let r = uf.root(i);
        assert_eq!(uf.root(r), r);
    }
}

#[test]
fn unionfind_unite_is_idempotent_on_connected() {
    let mut uf = UnionFind::new(4);
    uf.unite(0, 1);
    let r = uf.root(0);
    let s = uf.size(0);
    uf.unite(1, 0);
    assert_eq!(uf.root(0), r);
    assert_eq!(uf.size(0), s);
}

#[test]
fn unionfind_union_by_size() {
    let mut uf = UnionFind::new(5);
    uf.unite(0, 1);
    uf.unite(0, 2);
    // the singleton 3 joins the larger component: its root is kept
    let big_root = uf.root(0);
    uf.unite(3, 0);
    assert_eq!(uf.root(3), big_root);
    assert_eq!(uf.size(3), 4);
}

#[test]
fn unionfind_add_attaches_under_second() {
    let mut uf = UnionFind::new(4);
    uf.add(0, 1);
    // the component of the first argument is merged into the second's
    assert!(uf.same(0, 1));
    assert_eq!(uf.root(0), 1);
    assert_eq!(uf.size(0), 2);
    uf.add(2, 3);
    uf.add(0, 2);
    assert!(uf.same(1, 3));
    assert_eq!(uf.size(1), 4);
}
