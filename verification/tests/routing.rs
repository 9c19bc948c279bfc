use vnf_placement::routing::RoutingTable;

#[test]
fn test_rt_consider() {
    let mut rt_a = RoutingTable::new();
    let mut rt_b = RoutingTable::new();
    let mut rt_c = RoutingTable::new();
    let mut rt_d = RoutingTable::new();

    // Single server
    rt_a.consider(0, 1, 1);
    rt_a.consider(0, 2, 1);
    rt_a.consider(0, 3, 1);
    rt_a.consider(0, 1, 4);
    rt_a.consider(0, 6, 5);

    // Different servers, mergeable
    rt_b.consider(0, 1, 1);
    rt_b.consider(1, 1, 2);
    rt_b.consider(2, 1, 3);
    rt_b.consider(3, 1, 2);

    // Different servers, different distances, mergeable
    rt_c.consider(0, 1, 1);
    rt_c.consider(0, 2, 1);
    rt_c.consider(0, 3, 3);

    rt_c.consider(1, 1, 2);
    rt_c.consider(1, 2, 2);
    rt_c.consider(1, 4, 4);

    rt_c.consider(2, 1, 3);
    rt_c.consider(2, 2, 3);
    rt_c.consider(2, 5, 5);

    rt_c.consider(3, 1, 2);
    rt_c.consider(3, 2, 2);
    rt_c.consider(3, 6, 6);

    // Different servers, must be unmerged
    rt_d.consider(0, 1, 1);
    rt_d.consider(0, 2, 1);
    rt_d.consider(0, 3, 3);

    rt_d.consider(1, 1, 2);
    rt_d.consider(1, 2, 2);
    rt_d.consider(1, 4, 2);

    rt_d.consider(2, 1, 3);
    rt_d.consider(2, 2, 3);
    rt_d.consider(2, 5, 5);

    rt_d.consider(3, 1, 2);
    rt_d.consider(3, 2, 2);
    rt_d.consider(3, 6, 2);

    // Single server
    assert_eq!(rt_a.ranges.len(), rt_a.values.len());
    assert_eq!(rt_a.ranges.len(), 1);

    assert_eq!(rt_a.ranges[0].start, 0);
    assert_eq!(rt_a.ranges[0].end, 1);
    assert_eq!(rt_a.values[0], vec![1, 2, 3]);

    // Different servers, mergeable
    assert_eq!(rt_b.ranges.len(), rt_b.values.len());
    assert_eq!(rt_b.ranges.len(), 1);

    assert_eq!(rt_b.ranges[0].start, 0);
    assert_eq!(rt_b.ranges[0].end, 4);
    assert_eq!(rt_b.values[0], vec![1]);

    // Different servers, different distances, mergeable
    assert_eq!(rt_c.ranges.len(), rt_c.values.len());
    assert_eq!(rt_c.ranges.len(), 1);

    assert_eq!(rt_c.ranges[0].start, 0);
    assert_eq!(rt_c.ranges[0].end, 4);
    assert_eq!(rt_c.values[0], vec![1, 2]);

    // Different servers, must be unmerged
    assert_eq!(rt_d.ranges.len(), rt_d.values.len());
    assert_eq!(rt_d.ranges.len(), 4);

    assert_eq!(rt_d.ranges[0].start, 0);
    assert_eq!(rt_d.ranges[0].end, 1);
    assert_eq!(rt_d.values[0], vec![1, 2]);

    assert_eq!(rt_d.ranges[1].start, 1);
    assert_eq!(rt_d.ranges[1].end, 2);
    assert_eq!(rt_d.values[1], vec![1, 2, 4]);

    assert_eq!(rt_d.ranges[2].start, 2);
    assert_eq!(rt_d.ranges[2].end, 3);
    assert_eq!(rt_d.values[2], vec![1, 2]);

    assert_eq!(rt_d.ranges[3].start, 3);
    assert_eq!(rt_d.ranges[3].end, 4);
    assert_eq!(rt_d.values[3], vec![1, 2, 6]);
}

#[test]
fn a_shorter_route_takes_the_place_of_longer_ones() {
    let mut rt = RoutingTable::new();

    rt.consider(0, 1, 5);
    rt.consider(0, 3, 5);
    assert_eq!(*rt.find(0), vec![1, 3]);

    // Only the next hops at the least distance are kept.
    rt.consider(0, 2, 3);
    assert_eq!(*rt.find(0), vec![2]);
    rt.consider(0, 4, 4);
    assert_eq!(*rt.find(0), vec![2]);
    rt.consider(0, 5, 3);
    assert_eq!(*rt.find(0), vec![2, 5]);

    // A destination that shared a run with its predecessor gets a run of its own.
    rt.consider(1, 2, 7);
    rt.consider(1, 5, 7);
    assert_eq!(rt.len(), 1);
    rt.consider(1, 9, 6);
    assert_eq!(rt.len(), 2);
    assert_eq!(*rt.find(0), vec![2, 5]);
    assert_eq!(*rt.find(1), vec![9]);
}
