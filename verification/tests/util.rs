use counting_networks::util::{
    generate_cochain, log2, num_layers, power_of_two, A_COCHAIN, B_COCHAIN, E_COCHAIN, O_COCHAIN,
};

#[test]
fn check_even_cochains() {
    let chain_1 = generate_cochain(0..20, &E_COCHAIN);
    assert!(chain_1.iter().all(|&x| x % 2 == 0));
    assert_eq!(chain_1.len(), 10);

    let chain_2 = generate_cochain(0..1, &E_COCHAIN);
    assert!(chain_2.iter().all(|&x| x % 2 == 0));
    assert_eq!(chain_2.len(), 1);

    let chain_3 = generate_cochain(0..13, &E_COCHAIN);
    assert!(chain_3.iter().all(|&x| x % 2 == 0));
    assert_eq!(chain_3.len(), 7);
}

#[test]
fn check_odd_cochain() {
    let chain_1 = generate_cochain(0..20, &O_COCHAIN);
    assert!(chain_1.iter().all(|&x| x % 2 != 0));
    assert_eq!(chain_1.len(), 10);

    let chain_2 = generate_cochain(0..1, &O_COCHAIN);
    assert!(chain_2.iter().all(|&x| x % 2 != 0));
    assert_eq!(chain_2.len(), 0);

    let chain_3 = generate_cochain(0..13, &O_COCHAIN);
    assert!(chain_3.iter().all(|&x| x % 2 != 0));
    assert_eq!(chain_3.len(), 6);
}

#[test]
#[allow(non_snake_case)]
fn check_A_cochain() {
    let chain_1 = generate_cochain(0..20, &A_COCHAIN);
    assert_eq!(chain_1, &[0, 3, 4, 7, 8, 11, 12, 15, 16, 19]);

    let chain_1 = generate_cochain(0..1, &A_COCHAIN);
    assert_eq!(chain_1, &[0]);

    let chain_1 = generate_cochain(0..14, &A_COCHAIN);
    assert_eq!(chain_1, &[0, 3, 4, 7, 8, 11, 12]);
}

#[test]
#[allow(non_snake_case)]
fn check_B_cochain() {
    let chain_1 = generate_cochain(0..20, &B_COCHAIN);
    assert_eq!(chain_1, &[1, 2, 5, 6, 9, 10, 13, 14, 17, 18]);

    let chain_1 = generate_cochain(0..1, &B_COCHAIN);
    assert_eq!(chain_1, &[]);

    let chain_1 = generate_cochain(0..14, &B_COCHAIN);
    assert_eq!(chain_1, &[1, 2, 5, 6, 9, 10, 13]);
}

#[test]
fn powers_of_two() {
    assert!(!power_of_two(0));
    assert!(power_of_two(1));
    assert!(power_of_two(2));
    assert!(!power_of_two(3));
    assert!(power_of_two(64));
    assert!(!power_of_two(96));
    assert!(power_of_two(1 << 20));
    assert!(!power_of_two(usize::MAX));
}

#[test]
fn logarithms_and_layers() {
    assert_eq!(log2(0), 0);
    assert_eq!(log2(1), 0);
    assert_eq!(log2(2), 1);
    assert_eq!(log2(8), 3);
    assert_eq!(log2(9), 3);
    assert_eq!(num_layers(1), 0);
    assert_eq!(num_layers(2), 1);
    assert_eq!(num_layers(4), 3);
    assert_eq!(num_layers(8), 6);
    assert_eq!(num_layers(16), 10);
}
