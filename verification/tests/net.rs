use simple_mdns::net::{ipv4, prefix_len_from_mask, subnet_contains, InterfaceBinding};

#[test]
fn ipv4_packs_octets() {
    assert_eq!(ipv4(10, 0, 0, 5), 0x0A000005);
    assert_eq!(ipv4(255, 255, 255, 0), 0xFFFFFF00);
    assert_eq!(ipv4(0, 0, 0, 0), 0);
}

#[test]
fn prefix_length_of_contiguous_masks() {
    assert_eq!(prefix_len_from_mask(0), Some(0));
    assert_eq!(prefix_len_from_mask(0x80000000), Some(1));
    assert_eq!(prefix_len_from_mask(0xFFFF0000), Some(16));
    assert_eq!(prefix_len_from_mask(0xFFFFFF00), Some(24));
    assert_eq!(prefix_len_from_mask(0xFFFFFFFE), Some(31));
    assert_eq!(prefix_len_from_mask(0xFFFFFFFF), Some(32));
}

#[test]
fn non_contiguous_masks_have_no_prefix_length() {
    assert_eq!(prefix_len_from_mask(0xFF00FF00), None);
    assert_eq!(prefix_len_from_mask(0x00FFFFFF), None);
    assert_eq!(prefix_len_from_mask(1), None);
}

#[test]
fn subnet_membership() {
    let b = InterfaceBinding { addr: ipv4(10, 0, 0, 5), prefix_len: 24 };
    assert!(subnet_contains(&b, ipv4(10, 0, 0, 9)));
    assert!(subnet_contains(&b, ipv4(10, 0, 0, 255)));
    assert!(!subnet_contains(&b, ipv4(10, 0, 1, 9)));
    assert!(!subnet_contains(&b, ipv4(192, 168, 1, 1)));
    let wide = InterfaceBinding { addr: ipv4(10, 0, 0, 5), prefix_len: 8 };
    assert!(subnet_contains(&wide, ipv4(10, 200, 3, 4)));
    assert!(!subnet_contains(&wide, ipv4(11, 0, 0, 5)));
}
