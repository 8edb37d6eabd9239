use image_dedup::disjoint::DisjointSets;

#[test]
fn classes_merge_and_stay() {
    let mut sets = DisjointSets::new(6);
    for x in 0..6 {
        assert_eq!(sets.find(x), x);
    }
    sets.union(0, 1);
    sets.union(2, 3);
    assert_eq!(sets.find(0), sets.find(1));
    assert!(sets.find(1) != sets.find(2));
    sets.union(1, 3);
    assert_eq!(sets.find(0), sets.find(2));
    sets.union(0, 2);
    assert!(sets.find(4) != sets.find(0));
    assert!(sets.find(4) != sets.find(5));
}
