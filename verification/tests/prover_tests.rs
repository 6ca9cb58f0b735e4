use distaff::prover::{evaluations_to_leaves, evaluations_to_leaves_in};

#[test]
fn leaves_hold_two_values_each() {
    let a: u128 = 0x0102_0304_0506_0708_090a_0b0c_0d0e_0f10;
    let b: u128 = u128::MAX - 5;
    let leaves = evaluations_to_leaves(vec![a, b, 1, 2]);
    assert_eq!(leaves.len(), 2);
    // the values are laid out as this machine holds them in memory
    let mut first = [0u8; 32];
    first[..16].copy_from_slice(&a.to_ne_bytes());
    first[16..].copy_from_slice(&b.to_ne_bytes());
    assert_eq!(leaves[0], first);
    let mut second = [0u8; 32];
    second[..16].copy_from_slice(&1u128.to_ne_bytes());
    second[16..].copy_from_slice(&2u128.to_ne_bytes());
    assert_eq!(leaves[1], second);
}

#[test]
fn leaves_in_either_byte_order() {
    let a: u128 = 0x0102_0304_0506_0708_090a_0b0c_0d0e_0f10;
    let little = evaluations_to_leaves_in(vec![a, 2], true);
    let mut expected = [0u8; 32];
    expected[..16].copy_from_slice(&a.to_le_bytes());
    expected[16] = 2;
    assert_eq!(little, vec![expected]);
    let big = evaluations_to_leaves_in(vec![a, 2], false);
    let mut expected = [0u8; 32];
    expected[..16].copy_from_slice(&a.to_be_bytes());
    expected[31] = 2;
    assert_eq!(big, vec![expected]);
}

#[test]
fn no_values_no_leaves() {
    assert_eq!(evaluations_to_leaves(Vec::new()).len(), 0);
}
