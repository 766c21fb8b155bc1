use counting_networks::networks::bitonic::BitonicConfiguration;
use counting_networks::networks::schedule::{
    construct_bitonic, merge_networks, merge_wires, split_even_odd,
};

#[test]
fn even_and_odd_places() {
    assert_eq!(split_even_odd(&vec![]), (vec![], vec![]));
    assert_eq!(split_even_odd(&vec![7]), (vec![7], vec![]));
    assert_eq!(split_even_odd(&vec![4, 5, 6, 7]), (vec![4, 6], vec![5, 7]));
    assert_eq!(split_even_odd(&vec![0, 1, 2, 3, 4]), (vec![0, 2, 4], vec![1, 3]));
}

#[test]
fn wires_joined_place_by_place() {
    let mut balancers = vec![(9, 10)];
    let wires = merge_wires(&vec![0, 2], &vec![5, 7], &mut balancers);
    assert_eq!(balancers, vec![(9, 10), (0, 5), (2, 7)]);
    assert_eq!(wires, vec![0, 5, 2, 7]);

    let mut balancers = Vec::new();
    let wires = merge_wires(&vec![0, 1, 2], &vec![3, 4, 5], &mut balancers);
    assert_eq!(balancers, vec![(0, 3), (1, 4), (2, 5)]);
    assert_eq!(wires, vec![0, 3, 1, 4, 2, 5]);

    let mut balancers = Vec::new();
    let wires = merge_wires(&vec![3], &vec![8], &mut balancers);
    assert_eq!(balancers, vec![(3, 8)]);
    assert_eq!(wires, vec![3, 8]);

    // the upper wire stays the upper one, whatever its number
    let mut balancers = Vec::new();
    let wires = merge_wires(&vec![7, 1], &vec![5, 6], &mut balancers);
    assert_eq!(balancers, vec![(7, 5), (1, 6)]);
    assert_eq!(wires, vec![7, 5, 1, 6]);

    // the lists are joined as far as both go
    let mut balancers = Vec::new();
    let wires = merge_wires(&vec![0, 1, 2], &vec![4], &mut balancers);
    assert_eq!(balancers, vec![(0, 4)]);
    assert_eq!(wires, vec![0, 4]);
    let mut balancers = Vec::new();
    let wires = merge_wires(&vec![], &vec![4], &mut balancers);
    assert_eq!(balancers, vec![]);
    assert_eq!(wires, vec![]);
}

#[test]
fn merge_of_eight_wires() {
    let mut balancers = Vec::new();
    let wires = merge_networks(vec![0, 1, 2, 3], vec![4, 5, 6, 7], &mut balancers);
    assert_eq!(wires, vec![0, 1, 2, 3, 4, 5, 6, 7]);
    assert_eq!(
        balancers,
        vec![
            (0, 7),
            (2, 5),
            (0, 2),
            (5, 7),
            (1, 6),
            (3, 4),
            (1, 3),
            (4, 6),
            (0, 1),
            (2, 3),
            (4, 5),
            (6, 7),
        ]
    );
}

#[test]
fn merge_of_two_wires_is_one_balancer() {
    let mut balancers = Vec::new();
    let wires = merge_networks(vec![4], vec![9], &mut balancers);
    assert_eq!(balancers, vec![(4, 9)]);
    assert_eq!(wires, vec![4, 9]);
}

#[test]
fn bitonic_on_shifted_wires() {
    assert_eq!(construct_bitonic(1, 5), vec![]);
    assert_eq!(construct_bitonic(2, 5), vec![(5, 6)]);
    assert_eq!(
        construct_bitonic(4, 4),
        vec![(4, 5), (6, 7), (4, 7), (5, 6), (4, 5), (6, 7)]
    );
}

#[test]
fn both_generators_agree() {
    for width in [1usize, 2, 4, 8, 16, 32, 64, 128] {
        assert_eq!(
            construct_bitonic(width, 0),
            BitonicConfiguration(width).into_iter().collect()
        );
    }
}
