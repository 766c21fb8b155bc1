use counting_networks::networks::bitonic::{BitonicConfiguration, BitonicNetwork};
use counting_networks::networks::common::NetworkError;

fn send_only<T: Send>(_: T) {}

fn sync_only<T: Sync>(_: T) {}

/// Split[4]: (0..4)
///      - Split[2]: (0..2)
///          - Merge[2]: [0, 1]
///              - Output (0, 1)
///      - Split[2]: (2..4)
///          - Merge[2]: [2, 3]
///              - Output (2, 3)
///      - Merge[4]: [0, 1, 2, 3]
///          - Merge[2]: [0, 3]
///              - Output (0, 3)
///          - Merge[2]: [1, 2]
///              - Output (1, 2)
///          - Output (0, 1)
///          - Output (2, 3)
#[test]
fn bitonic_4_configuration() {
    let config = BitonicConfiguration(4);

    let balancers: Vec<_> = config.into_iter().collect();

    assert_eq!(
        &balancers,
        &[(0, 1), (2, 3), (0, 3), (1, 2), (0, 1), (2, 3)]
    )
}

#[test]
fn bitonic_8_configuration() {
    let config = BitonicConfiguration(8);

    let balancers: Vec<_> = config.into_iter().collect();

    assert_eq!(
        &balancers,
        &[
            (0, 1),
            (2, 3),
            (0, 3),
            (1, 2),
            (0, 1),
            (2, 3),
            (4, 5),
            (6, 7),
            (4, 7),
            (5, 6),
            (4, 5),
            (6, 7),
            (0, 7),
            (2, 5),
            (0, 2),
            (5, 7),
            (1, 6),
            (3, 4),
            (1, 3),
            (4, 6),
            (0, 1),
            (2, 3),
            (4, 5),
            (6, 7),
        ]
    )
}

#[test]
fn bitonic_is_send() {
    send_only(BitonicNetwork::new(vec![1; 4]).unwrap());
}

#[test]
fn bitonic_is_sync() {
    sync_only(BitonicNetwork::new(vec![1; 4]).unwrap());
}

#[test]
fn bitonic_initialize_network() {
    const WIDTH: usize = 16;

    let network = BitonicNetwork::new(vec![1; WIDTH]).unwrap();

    assert_eq!(network.width(), WIDTH);
}

#[test]
#[should_panic]
fn bitonic_initialize_network_bad_width() {
    let _ = BitonicNetwork::new(vec![1, 2, 3]).unwrap();
}

#[test]
fn bitonic_traverse_network() {
    const WIDTH: usize = 16;
    let outputs = (1..(WIDTH + 1)).collect::<Vec<_>>();
    let network = BitonicNetwork::new(outputs).unwrap();

    for output in 1..(WIDTH + 1) {
        assert_eq!(network.traverse(0), &output);
    }
}

#[test]
fn bitonic_network_is_send() {
    send_only(BitonicNetwork::new(vec![1; 4]).unwrap());
}

#[test]
fn bitonic_network_is_sync() {
    sync_only(BitonicNetwork::new(vec![1; 4]).unwrap());
}

#[test]
fn bitonic_network_initialize_network() {
    const WIDTH: usize = 16;

    let network = BitonicNetwork::new(vec![1; WIDTH]).unwrap();

    assert_eq!(network.width(), WIDTH);
}

#[test]
#[should_panic]
fn bitonic_network_initialize_network_bad_width() {
    let _ = BitonicNetwork::new(vec![1, 2, 3]).unwrap();
}

#[test]
fn bitonic_network_traverse_network() {
    const WIDTH: usize = 16;
    let outputs = (1..(WIDTH + 1)).collect::<Vec<_>>();
    let network = BitonicNetwork::new(outputs).unwrap();

    for output in 1..(WIDTH + 1) {
        assert_eq!(network.traverse(11), &output);
    }
}

#[test]
fn width_must_be_a_power_of_two() {
    for width in 0..70usize {
        let made = BitonicNetwork::new(vec![0u8; width]);
        if width == 0 {
            assert_eq!(made.err(), Some(NetworkError::NoOutputs));
        } else if width.is_power_of_two() {
            assert_eq!(made.unwrap().width(), width);
        } else {
            assert_eq!(made.err(), Some(NetworkError::UnsupportedWidth));
        }
    }
}

#[test]
fn outputs_keep_their_order() {
    let network = BitonicNetwork::new(vec![1, 2, 3, 4]).unwrap();
    assert_eq!(network.width(), 4);
    assert_eq!(network.outputs(), &[1, 2, 3, 4]);
}

#[test]
fn traverse_walks_the_outputs_in_turn() {
    let network = BitonicNetwork::new(vec![1, 2, 3, 4]).unwrap();
    assert_eq!(network.traverse(7), &1);
    assert_eq!(network.traverse(7), &2);
    assert_eq!(network.traverse(7), &3);
    assert_eq!(network.traverse(7), &4);
    assert_eq!(network.traverse(7), &1);
}

#[test]
fn every_caller_alone_walks_the_outputs_in_turn() {
    for width in [1usize, 2, 4, 8, 16, 32, 64] {
        for token in 0..(width as u64) {
            let outputs = (0..width).collect::<Vec<_>>();
            let network = BitonicNetwork::new(outputs).unwrap();
            for n in 0..(3 * width + 1) {
                assert_eq!(network.traverse(token), &(n % width));
            }
        }
    }
}

#[test]
fn step_property_for_one_caller() {
    let width = 8usize;
    let network = BitonicNetwork::new((0..width).collect::<Vec<_>>()).unwrap();
    let mut arrived = vec![0usize; width];
    for _ in 0..21 {
        arrived[*network.traverse(13)] += 1;
        for i in 0..width {
            for j in (i + 1)..width {
                assert!(arrived[i] >= arrived[j]);
                assert!(arrived[i] - arrived[j] <= 1);
            }
        }
    }
    assert_eq!(arrived, vec![3, 3, 3, 3, 3, 2, 2, 2]);
}

#[test]
fn callers_on_different_wires_share_the_turns() {
    let network = BitonicNetwork::new(vec![0, 1, 2, 3]).unwrap();
    let tokens = [0u64, 3, 1, 1, 2, 0, 3, 2, 1];
    for (n, token) in tokens.iter().enumerate() {
        assert_eq!(network.traverse(*token), &(n % 4));
    }
}

#[test]
fn callers_on_different_wires_of_a_wide_network() {
    let network = BitonicNetwork::new((0..8).collect::<Vec<usize>>()).unwrap();
    assert_eq!(network.traverse(0), &0);
    assert_eq!(network.traverse(0), &1);
    assert_eq!(network.traverse(0), &2);
    assert_eq!(network.traverse(2), &3);
    assert_eq!(network.traverse(5), &4);
    assert_eq!(network.traverse(7), &5);
    assert_eq!(network.traverse(1), &6);
}

#[test]
fn tokens_leave_in_turn_whatever_their_wires() {
    for width in [1usize, 2, 4, 8, 16, 32, 64] {
        let network = BitonicNetwork::new((0..width).collect::<Vec<_>>()).unwrap();
        let mut arrived = vec![0usize; width];
        let mut token: u64 = 2024;
        for n in 0..(7 * width + 3) {
            token = token.wrapping_mul(6364136223846793005).wrapping_add(1442695040888963407);
            let output = *network.traverse(token >> 33);
            assert_eq!(output, n % width);
            arrived[output] += 1;
            for i in 0..width {
                for j in (i + 1)..width {
                    assert!(arrived[i] >= arrived[j]);
                    assert!(arrived[i] - arrived[j] <= 1);
                }
            }
        }
    }
}

#[test]
fn token_is_taken_modulo_the_width() {
    let one = BitonicNetwork::new((0..8).collect::<Vec<usize>>()).unwrap();
    let other = BitonicNetwork::new((0..8).collect::<Vec<usize>>()).unwrap();
    for token in [0u64, 0, 0, 2, 5, 7, 7, 1, 3, 3, 6, 4] {
        assert_eq!(one.traverse(token), other.traverse(token + 8 * 1000));
    }
}

#[test]
fn networks_over_the_same_outputs_behave_the_same() {
    let one = BitonicNetwork::new(vec!['a', 'b', 'c', 'd', 'e', 'f', 'g', 'h']).unwrap();
    let other = BitonicNetwork::new(vec!['a', 'b', 'c', 'd', 'e', 'f', 'g', 'h']).unwrap();
    assert_eq!(one.width(), other.width());
    assert_eq!(one.outputs(), other.outputs());
    for token in [4u64, 1, 1, 6, 2, 9, 9, 0, 3, 12, 5, 7, 7, 7] {
        assert_eq!(one.traverse(token), other.traverse(token));
    }
}

#[test]
fn number_of_layers() {
    assert_eq!(BitonicNetwork::new(vec![0; 1]).unwrap().num_layers(), 0);
    assert_eq!(BitonicNetwork::new(vec![0; 2]).unwrap().num_layers(), 1);
    assert_eq!(BitonicNetwork::new(vec![0; 4]).unwrap().num_layers(), 3);
    assert_eq!(BitonicNetwork::new(vec![0; 8]).unwrap().num_layers(), 6);
    assert_eq!(BitonicNetwork::new(vec![0; 16]).unwrap().num_layers(), 10);
}

#[test]
fn number_of_balancers() {
    for (width, layers) in [(1usize, 0usize), (2, 1), (4, 3), (8, 6), (16, 10), (32, 15)] {
        let balancers = BitonicConfiguration(width).into_iter().collect();
        assert_eq!(balancers.len(), width / 2 * layers);
        for (upper, lower) in balancers.iter() {
            assert!(upper < lower);
            assert!(*lower < width);
        }
        for wire in 0..width {
            let on_wire = balancers.iter().filter(|(upper, lower)| *upper == wire || *lower == wire);
            assert_eq!(on_wire.count(), layers);
        }
        // every balancer stands equally deep on its two wires
        let mut depth = vec![0usize; width];
        for (upper, lower) in balancers.iter() {
            assert_eq!(depth[*upper], depth[*lower]);
            depth[*upper] += 1;
            depth[*lower] += 1;
        }
    }
}

#[test]
fn bitonic_2_configuration() {
    assert_eq!(BitonicConfiguration(2).into_iter().collect(), vec![(0, 1)]);
    assert_eq!(BitonicConfiguration(1).into_iter().collect(), vec![]);
}

#[test]
fn generator_gives_one_balancer_at_a_time() {
    let mut balancers = BitonicConfiguration(4).into_iter();
    assert_eq!(balancers.next(), Some((0, 1)));
    assert_eq!(balancers.next(), Some((2, 3)));
    assert_eq!(balancers.next(), Some((0, 3)));
    assert_eq!(balancers.next(), Some((1, 2)));
    assert_eq!(balancers.next(), Some((0, 1)));
    assert_eq!(balancers.next(), Some((2, 3)));
    assert_eq!(balancers.next(), None);
    assert_eq!(balancers.next(), None);
}

#[test]
fn networks_are_equal_when_their_outputs_are() {
    let one = BitonicNetwork::new(vec![1, 2, 3, 4]).unwrap();
    let same = BitonicNetwork::new(vec![1, 2, 3, 4]).unwrap();
    let other = BitonicNetwork::new(vec![1, 2, 3, 5]).unwrap();
    let wider = BitonicNetwork::new(vec![1, 2, 3, 4, 5, 6, 7, 8]).unwrap();
    assert!(one == same);
    assert!(one != other);
    assert!(one != wider);
    // the bits of the balancers do not count
    one.traverse(0);
    assert!(one == same);
}

#[test]
fn a_copy_is_a_new_network() {
    let network = BitonicNetwork::new(vec![1, 2, 3, 4]).unwrap();
    assert_eq!(network.traverse(0), &1);
    assert_eq!(network.traverse(0), &2);
    let copy = network.clone();
    assert_eq!(copy.width(), 4);
    assert_eq!(copy.outputs(), &[1, 2, 3, 4]);
    assert_eq!(copy.traverse(0), &1);
    assert_eq!(network.traverse(0), &3);
}

#[test]
fn a_network_at_rest_has_every_bit_clear() {
    let network = BitonicNetwork::new(vec![0; 8]).unwrap();
    // eight outputs and twenty-four balancers
    assert_eq!(network.toggles_at_rest(), vec![false; 32]);
    let network = BitonicNetwork::new(vec![0; 1]).unwrap();
    assert_eq!(network.toggles_at_rest(), vec![false; 1]);
}

#[test]
fn traversing_with_given_bits() {
    let network = BitonicNetwork::new(vec!['a', 'b', 'c', 'd']).unwrap();
    // places 0 to 3 are the outputs; the balancers (0,1), (2,3), (0,3),
    // (1,2), (0,1), (2,3) are laid from the last one to the first, at the
    // places 4 to 9
    let mut toggles = network.toggles_at_rest();
    assert_eq!(network.traverse_with(0, &mut toggles), &'a');
    assert_eq!(
        toggles,
        vec![false, false, false, false, false, true, false, true, false, true]
    );
    assert_eq!(network.traverse_with(0, &mut toggles), &'b');
    assert_eq!(
        toggles,
        vec![false, false, false, false, false, false, true, true, false, false]
    );
    // a token on wire 3 with all bits set goes down all the way
    let mut toggles = vec![true; 10];
    assert_eq!(network.traverse_with(3, &mut toggles), &'d');
    assert_eq!(
        toggles,
        vec![true, true, true, true, false, true, true, false, false, true]
    );
    // the balancers of the network have not been touched
    assert_eq!(network.traverse(0), &'a');
}

#[test]
fn the_number_of_the_output_reached() {
    let network = BitonicNetwork::new(vec!['a', 'b', 'c', 'd', 'e', 'f', 'g', 'h']).unwrap();
    let mut toggles = network.toggles_at_rest();
    for (n, token) in [3u64, 3, 6, 0, 1, 7, 7, 2, 5, 4, 4].iter().enumerate() {
        assert_eq!(network.exit_with(*token, &mut toggles), n % 8);
    }
    let mut toggles = vec![true; 32];
    assert_eq!(network.exit_with(0, &mut toggles), 7);
}

#[test]
fn the_network_goes_as_its_bits_say() {
    for width in [1usize, 2, 4, 8, 16, 32] {
        let network = BitonicNetwork::new((0..width).collect::<Vec<_>>()).unwrap();
        let mut toggles = network.toggles_at_rest();
        let mut token: u64 = 12345;
        for _ in 0..(20 * width) {
            token = token.wrapping_mul(6364136223846793005).wrapping_add(1442695040888963407);
            let caller = token >> 33;
            let expected = *network.traverse_with(caller, &mut toggles);
            assert_eq!(network.traverse(caller), &expected);
        }
    }
}
