use vlsm_calculator::net::Ipv4Net;
use vlsm_calculator::vlsm::{AllocationError, Vlsm};

fn net(base: u32, prefix: u8) -> Ipv4Net {
    Ipv4Net::new(base, prefix).expect("well-formed network")
}

fn size_of(n: &Ipv4Net) -> u64 {
    1u64 << (32 - n.prefix)
}

#[test]
fn three_subnets_in_a_slash_24() {
    let parent = net(0xC0A8_0000, 24); // 192.168.0.0/24
    let subnets = parent.allocate(&vec![50, 20, 10], false).unwrap();
    assert_eq!(subnets.len(), 3);
    assert_eq!(subnets[0], Ipv4Net { base: 0xC0A8_0000, prefix: 26 }); // 192.168.0.0/26
    assert_eq!(subnets[1], Ipv4Net { base: 0xC0A8_0040, prefix: 27 }); // 192.168.0.64/27
    assert_eq!(subnets[2], Ipv4Net { base: 0xC0A8_0060, prefix: 28 }); // 192.168.0.96/28
}

#[test]
fn returned_ranges_are_disjoint_and_contained() {
    let parent = net(0xC0A8_0000, 24);
    let subnets = parent.allocate(&vec![50, 20, 10], false).unwrap();
    let parent_start = parent.base as u64;
    let parent_end = parent_start + size_of(&parent);
    for a in subnets.iter() {
        let start = a.base as u64;
        let end = start + size_of(a);
        assert!(parent_start <= start && end <= parent_end);
    }
    for (i, a) in subnets.iter().enumerate() {
        for (j, b) in subnets.iter().enumerate() {
            if i != j {
                let (a0, a1) = (a.base as u64, a.base as u64 + size_of(a));
                let (b0, b1) = (b.base as u64, b.base as u64 + size_of(b));
                assert!(a1 <= b0 || b1 <= a0);
            }
        }
    }
}

#[test]
fn exact_fit_with_reservation() {
    // 4 addresses, one requirement of 2 hosts plus network/broadcast: fits exactly.
    let parent = net(0x0A00_0000, 30); // 10.0.0.0/30
    let subnets = parent.allocate(&vec![2], true).unwrap();
    assert_eq!(subnets, vec![Ipv4Net { base: 0x0A00_0000, prefix: 30 }]);
}

#[test]
fn reservation_overflows_a_slash_30() {
    // 3 hosts plus network/broadcast need 8 addresses; the parent has 4.
    let parent = net(0x0A00_0000, 30);
    let err = parent.allocate(&vec![3], true).unwrap_err();
    assert_eq!(err, AllocationError::InsufficientSpace { parent, requested_total: 8 });
}

#[test]
fn requirement_exceeding_parent_space_fails() {
    // 300 hosts need a 512-address block; the parent holds 256.
    let parent = net(0xC0A8_0000, 24);
    let err = parent.allocate(&vec![300], false).unwrap_err();
    assert_eq!(err, AllocationError::InsufficientSpace { parent, requested_total: 512 });
}

#[test]
fn empty_requirements_yield_empty_result() {
    let parent = net(0xC0A8_0000, 24);
    let subnets = parent.allocate(&vec![], false).unwrap();
    assert!(subnets.is_empty());
}

#[test]
fn requirement_too_large_for_any_prefix() {
    // u32::MAX hosts plus the two reserved addresses exceed the 32-bit space.
    let parent = net(0x0000_0000, 0);
    let err = parent.allocate(&vec![u32::MAX], true).unwrap_err();
    assert_eq!(err, AllocationError::RequirementTooLarge { requirement: u32::MAX });
}

#[test]
fn whole_address_space_in_one_block() {
    let parent = net(0x0000_0000, 0);
    let subnets = parent.allocate(&vec![u32::MAX], false).unwrap();
    assert_eq!(subnets, vec![Ipv4Net { base: 0, prefix: 0 }]);
}

#[test]
fn input_order_is_insignificant() {
    let parent = net(0xC0A8_0000, 24);
    let shuffled = parent.allocate(&vec![10, 50, 20], false).unwrap();
    let sorted = parent.allocate(&vec![50, 20, 10], false).unwrap();
    assert_eq!(shuffled, sorted);
    for w in shuffled.windows(2) {
        assert!(size_of(&w[0]) >= size_of(&w[1]));
    }
}

#[test]
fn identical_calls_give_identical_results() {
    let parent = net(0xC0A8_0000, 24);
    let first = parent.allocate(&vec![50, 20, 10], true);
    let second = parent.allocate(&vec![50, 20, 10], true);
    assert_eq!(first, second);
}

#[test]
fn sub_multiset_of_a_feasible_request_is_feasible() {
    let parent = net(0xC0A8_0000, 24);
    assert!(parent.allocate(&vec![50, 20, 10], false).is_ok());
    assert!(parent.allocate(&vec![50, 10], false).is_ok());
}

#[test]
fn reservation_can_widen_a_block() {
    let parent = net(0xC0A8_0000, 24);
    let without = parent.allocate(&vec![63], false).unwrap();
    let with = parent.allocate(&vec![63], true).unwrap();
    // 63 hosts fit a /26; 63 + 2 effective hosts need a /25.
    assert_eq!(without[0].prefix, 26);
    assert_eq!(with[0].prefix, 25);
    assert!(with[0].prefix <= without[0].prefix);
}

#[test]
fn reservation_can_fail_where_plain_allocation_fits() {
    let parent = net(0xC0A8_0000, 26); // 64 addresses
    assert!(parent.allocate(&vec![63], false).is_ok());
    assert!(parent.allocate(&vec![63], true).is_err());
}

#[test]
fn descending_placement_packs_mixed_sizes() {
    let parent = net(0xC0A8_0000, 24);
    let subnets = parent.allocate(&vec![2, 100], false).unwrap();
    assert_eq!(subnets[0], Ipv4Net { base: 0xC0A8_0000, prefix: 25 }); // 128 addresses
    assert_eq!(subnets[1], Ipv4Net { base: 0xC0A8_0080, prefix: 31 }); // 2 addresses
}

#[test]
fn trait_method_matches_inherent_allocation() {
    let parent = net(0x0A00_0000, 16);
    let via_trait = parent.vlsm(&vec![500, 2], true);
    let direct = parent.allocate(&vec![500, 2], true);
    assert_eq!(via_trait, direct);
}

#[test]
fn new_rejects_bad_networks() {
    assert!(Ipv4Net::new(0xC0A8_0000, 33).is_none());
    assert!(Ipv4Net::new(0xC0A8_0001, 24).is_none()); // host bits set
    assert!(Ipv4Net::new(0xC0A8_0001, 32).is_some());
    assert!(Ipv4Net::new(0, 0).is_some());
}

#[test]
fn network_size_by_prefix() {
    assert_eq!(net(0xC0A8_0000, 24).size(), 256);
    assert_eq!(net(0, 0).size(), 1u64 << 32);
    assert_eq!(net(0xC0A8_0001, 32).size(), 1);
}
