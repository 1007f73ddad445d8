use ipv4_aggregator::aggregate::collect_networks;
use ipv4_aggregator::classify::mark_class_c_nets;
use ipv4_aggregator::network::IpV4Network;

fn net(a: [u8; 4], p: u8) -> IpV4Network {
    IpV4Network::from_address_cidr(&a, p)
}

fn same_set(mut got: Vec<IpV4Network>, mut want: Vec<IpV4Network>) {
    let key = |n: &IpV4Network| (n.net, n.mask);
    got.sort_by_key(key);
    want.sort_by_key(key);
    assert_eq!(got, want);
}

#[test]
fn classifier_keeps_busy_class_c_nets() {
    let addrs = vec![[10, 0, 0, 1], [10, 0, 0, 2], [10, 0, 0, 3], [10, 1, 1, 1]];
    same_set(mark_class_c_nets(&addrs, 3), vec![net([10, 0, 0, 0], 24)]);
    same_set(mark_class_c_nets(&addrs, 1), vec![net([10, 0, 0, 0], 24), net([10, 1, 1, 0], 24)]);
    same_set(mark_class_c_nets(&addrs, 0), vec![net([10, 0, 0, 0], 24), net([10, 1, 1, 0], 24)]);
    same_set(mark_class_c_nets(&addrs, 4), vec![]);
}

#[test]
fn three_addresses_stay_one_class_c_net() {
    let addrs = vec![[10, 0, 0, 1], [10, 0, 0, 2], [10, 0, 0, 3], [10, 1, 1, 1]];
    let class_c = mark_class_c_nets(&addrs, 3);
    same_set(class_c.clone(), vec![net([10, 0, 0, 0], 24)]);
    same_set(collect_networks(&class_c, 51, 100), vec![net([10, 0, 0, 0], 24)]);
}

#[test]
fn full_slash16_collapses() {
    let mut addrs = Vec::new();
    for c in 0..=255u8 {
        addrs.push([10, 0, c, 7]);
    }
    let class_c = mark_class_c_nets(&addrs, 1);
    assert_eq!(class_c.len(), 256);
    same_set(collect_networks(&class_c, 51, 100), vec![net([10, 0, 0, 0], 16)]);
}

#[test]
fn empty_input_gives_empty_output() {
    let class_c = mark_class_c_nets(&Vec::new(), 3);
    assert!(class_c.is_empty());
    assert!(collect_networks(&class_c, 51, 100).is_empty());
    assert!(collect_networks(&Vec::new(), 0, 1).is_empty());
}

#[test]
fn half_coverage_meets_half_threshold() {
    let class_c = vec![net([10, 0, 0, 0], 24)];
    let out = collect_networks(&class_c, 1, 2);
    same_set(out, vec![net([10, 0, 0, 0], 23)]);
}

#[test]
fn half_coverage_misses_higher_threshold() {
    let class_c = vec![net([10, 0, 0, 0], 24)];
    let out = collect_networks(&class_c, 51, 100);
    same_set(out, vec![net([10, 0, 0, 0], 24)]);
}

#[test]
fn widest_qualifying_supernet_wins() {
    // Two neighbouring /24s: the /23 is full, the /22 is half covered.
    let class_c = vec![net([10, 0, 0, 0], 24), net([10, 0, 1, 0], 24), net([10, 9, 9, 0], 24)];
    let out = collect_networks(&class_c, 1, 2);
    same_set(out, vec![net([10, 0, 0, 0], 22), net([10, 9, 8, 0], 23)]);
}

#[test]
fn aggregating_again_changes_nothing() {
    let class_c = vec![net([10, 0, 0, 0], 24), net([10, 0, 1, 0], 24), net([172, 16, 5, 0], 24)];
    let once = collect_networks(&class_c, 51, 100);
    same_set(once.clone(), vec![net([10, 0, 0, 0], 23), net([172, 16, 5, 0], 24)]);
    let twice = collect_networks(&once, 51, 100);
    same_set(twice, once);
}

#[test]
fn duplicate_addresses_are_not_listed_twice_when_passed_as_set() {
    let addrs = vec![[192, 168, 1, 1], [192, 168, 1, 2]];
    same_set(mark_class_c_nets(&addrs, 2), vec![net([192, 168, 1, 0], 24)]);
    same_set(mark_class_c_nets(&addrs, 3), vec![]);
}
