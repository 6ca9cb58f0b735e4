use distaff::ops::{bit_not, bit_xor, mod1, rtl32_var, rtr32_var, truncate};
use distaff::vm::run;

const FUEL: u64 = 1_000_000;

fn test_helper(program_str: String, expected_outputs: Vec<u128>) {
    let outputs = run(&program_str, expected_outputs.len(), FUEL);
    assert_eq!(Some(expected_outputs), outputs);
}

#[test]
fn test_bit_xor() {
    let program_str = format!("
    begin
        push.11
        push.200
        {}
    end
    ", bit_xor(8));

    let expected_outputs = vec![195];
    test_helper(program_str, expected_outputs);
}

#[test]
fn test_mod1() {
    let program_str = format!("
    begin
        push.11
        push.10
        {}
    end
    ", mod1(32));

    let expected_outputs = vec![1];
    test_helper(program_str, expected_outputs);

    let program_str1 = format!("
    begin
        push.10
        push.10
        {}
    end
    ", mod1(32));

    let expected_outputs = vec![0];
    test_helper(program_str1, expected_outputs);
}

#[test]
fn test_rtr32_var() {
    let program_str = format!("
    begin
        push.10
        push.2
        {}
    end
    ", rtr32_var(4));

    let expected_outputs = vec![2147483650];
    test_helper(program_str, expected_outputs);
}

#[test]
fn test_rtl32_var() {
    let program_str = format!("
    begin
        push.2147483650
        push.2
        {}
    end
    ", rtl32_var(4));

    let expected_outputs = vec![10];
    test_helper(program_str, expected_outputs);
}

#[test]
fn test_truncate() {
    let program_str = format!("
    begin
        push.11
        {}
    end
    ", truncate(3, 3));

    let expected_outputs = vec![3];
    test_helper(program_str, expected_outputs);
}

#[test]
fn test_bit_not() {
    let program_str = format!("
    begin
        push.11
        {}
    end
    ", bit_not(4));

    let expected_outputs = vec![4];
    test_helper(program_str, expected_outputs);
}
