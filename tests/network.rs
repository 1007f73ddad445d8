use ipv4_aggregator::network::IpV4Network;

#[test]
fn test_ip_net_creation() {
    let net16 = IpV4Network { net: [192, 168, 0, 0], mask: [255, 255, 0, 0] };
    let net24 = IpV4Network { net: [192, 168, 34, 0], mask: [255, 255, 255, 0] };

    assert_eq!(net16.mask_in_cidr_notation(), 16);
    assert_eq!(net24.mask_in_cidr_notation(), 24);
    assert!(net16.contains_subnet(&net24));
    assert_eq!(net16.address_space_size(), 256 * 256);
    assert_eq!(net24.address_space_size(), 256);
    assert_eq!(IpV4Network::from_address(&[192, 168, 34, 2], &[255, 255, 255, 0]), net24);
    assert_eq!(IpV4Network::from_address_cidr(&[192, 168, 34, 2], 24), net24);
    assert_eq!(IpV4Network::num_high_one_bits(0b1111_1100), 6);
    assert_eq!(IpV4Network::num_high_one_bits(0b1110_0000), 3);
}

#[test]
fn from_address_clears_host_bits() {
    let n = IpV4Network::from_address(&[10, 1, 2, 3], &[255, 255, 240, 0]);
    assert_eq!(n.net, [10, 1, 0, 0]);
    assert_eq!(n.mask, [255, 255, 240, 0]);
    let again = IpV4Network::from_address(&n.net, &n.mask);
    assert_eq!(again, n);
}

#[test]
fn prefix_lengths_of_masks() {
    let len = |m: [u8; 4]| IpV4Network { net: [0, 0, 0, 0], mask: m }.mask_in_cidr_notation();
    assert_eq!(len([255, 255, 255, 255]), 32);
    assert_eq!(len([0, 0, 0, 0]), 0);
    assert_eq!(len([255, 255, 255, 0]), 24);
    assert_eq!(len([255, 255, 0, 0]), 16);
    assert_eq!(len([255, 254, 0, 0]), 15);
    assert_eq!(len([255, 0, 255, 0]), 8);
}

#[test]
fn leading_ones_of_bytes() {
    assert_eq!(IpV4Network::num_high_one_bits(0), 0);
    assert_eq!(IpV4Network::num_high_one_bits(255), 8);
    assert_eq!(IpV4Network::num_high_one_bits(128), 1);
    assert_eq!(IpV4Network::num_high_one_bits(0b1010_0000), 1);
    assert_eq!(IpV4Network::num_high_one_bits(1), 0);
}

#[test]
fn masks_from_prefix_lengths() {
    assert_eq!(IpV4Network::mask_from_cidr(0), [0, 0, 0, 0]);
    assert_eq!(IpV4Network::mask_from_cidr(1), [128, 0, 0, 0]);
    assert_eq!(IpV4Network::mask_from_cidr(22), [255, 255, 252, 0]);
    assert_eq!(IpV4Network::mask_from_cidr(23), [255, 255, 254, 0]);
    assert_eq!(IpV4Network::mask_from_cidr(24), [255, 255, 255, 0]);
    assert_eq!(IpV4Network::mask_from_cidr(31), [255, 255, 255, 254]);
    assert_eq!(IpV4Network::mask_from_cidr(32), [255, 255, 255, 255]);
}

#[test]
fn address_space_sizes() {
    let size = |p: u8| IpV4Network::from_address_cidr(&[10, 0, 0, 0], p).address_space_size();
    assert_eq!(size(24), 256);
    assert_eq!(size(16), 65536);
    assert_eq!(size(32), 1);
    assert_eq!(size(0), 1u64 << 32);
    assert_eq!(size(8), 1 << 24);
}

#[test]
fn containment_relations() {
    let a = IpV4Network::from_address_cidr(&[10, 0, 0, 0], 8);
    let b = IpV4Network::from_address_cidr(&[10, 1, 0, 0], 16);
    let c = IpV4Network::from_address_cidr(&[10, 1, 2, 0], 24);
    let other = IpV4Network::from_address_cidr(&[10, 2, 2, 0], 24);
    assert!(a.contains_subnet(&a));
    assert!(c.contains_subnet(&c));
    assert!(a.contains_subnet(&b));
    assert!(b.contains_subnet(&c));
    assert!(a.contains_subnet(&c));
    assert!(!b.contains_subnet(&a));
    assert!(!c.contains_subnet(&b));
    assert!(!b.contains_subnet(&other));
    assert!(!c.contains_subnet(&other));
    assert!(a.contains_subnet(&other));
}
