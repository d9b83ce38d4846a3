use via::dsu::Dsu;

#[test]
fn union_find_merges_and_finds() {
    let mut d = Dsu::new(6);
    for i in 0..6 {
        assert_eq!(d.find(i), i);
    }
    d.union(0, 1);
    d.union(2, 3);
    d.union(1, 3);
    let r = d.find(0);
    assert_eq!(d.find(1), r);
    assert_eq!(d.find(2), r);
    assert_eq!(d.find(3), r);
    assert_ne!(d.find(4), r);
    assert_ne!(d.find(4), d.find(5));
    // The second argument's set takes the first argument's representative.
    let mut d = Dsu::new(3);
    d.union(2, 0);
    assert_eq!(d.find(0), 2);
    d.union(1, 0);
    assert_eq!(d.find(2), 1);
}
