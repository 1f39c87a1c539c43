use gdsverify::lvs::union_find::UnionFind;

#[test]
fn fresh_sets_are_singletons() {
    let mut uf = UnionFind::new(4);
    for x in 0..4u32 {
        assert_eq!(uf.find(x), x);
    }
}

#[test]
fn union_merges_exactly_two_classes() {
    let mut uf = UnionFind::new(6);
    uf.union(0, 1);
    uf.union(2, 3);
    uf.union(1, 3);
    let r = uf.find(0);
    assert_eq!(uf.find(1), r);
    assert_eq!(uf.find(2), r);
    assert_eq!(uf.find(3), r);
    assert_ne!(uf.find(4), r);
    assert_ne!(uf.find(5), r);
    assert_ne!(uf.find(4), uf.find(5));
}

#[test]
fn repeated_unions_keep_one_representative() {
    let mut uf = UnionFind::new(64);
    for x in 1..64u32 {
        uf.union(x - 1, x);
        uf.union(x, 0);
    }
    let r = uf.find(63);
    for x in 0..64u32 {
        assert_eq!(uf.find(x), r);
    }
}
