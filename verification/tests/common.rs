use counting_networks::networks::bitonic::BitonicConfiguration;
use counting_networks::networks::common::{Balancer, Network, NetworkError, WireSegment};
use std::sync::atomic::AtomicBool;

#[test]
fn a_bitonic_network_by_its_kind() {
    let network: Network<usize, BitonicConfiguration> =
        Network::new((0..8).collect::<Vec<_>>()).unwrap();
    for n in 0..20 {
        assert_eq!(network.traverse(5), &(n % 8));
    }
    let made: Result<Network<u8, BitonicConfiguration>, NetworkError> =
        Network::new(vec![0; 6]);
    assert_eq!(made.err(), Some(NetworkError::UnsupportedWidth));
}

#[test]
fn a_set_bit_stands_for_the_lower_wire() {
    assert_eq!(Balancer::index_of(false), 0);
    assert_eq!(Balancer::index_of(true), 1);
}

#[test]
fn a_set_bit_leads_to_the_lower_wire() {
    let balancer = Balancer {
        value: AtomicBool::new(false),
        next_segments: [3, 8],
    };
    assert_eq!(balancer.successor(false), 3);
    assert_eq!(balancer.successor(true), 8);
    // asking does not flip the bit
    assert_eq!(balancer.next_segment(), 3);
}

#[test]
fn a_balancer_alternates() {
    let balancer = Balancer {
        value: AtomicBool::new(false),
        next_segments: [3, 8],
    };
    assert_eq!(balancer.toggle_up(), 0);
    assert_eq!(balancer.toggle_up(), 1);
    assert_eq!(balancer.toggle_up(), 0);
    assert_eq!(balancer.next_segment(), 8);
    assert_eq!(balancer.next_segment(), 3);
    assert_eq!(balancer.next_segment(), 8);
    let segment = WireSegment::Balancer(balancer);
    assert!(matches!(segment, WireSegment::Balancer(_)));
    assert!(matches!(WireSegment::End(2), WireSegment::End(2)));
}
