use distaff::ops::{
    bit_and, bit_not, bit_or, bit_xor, mod1, pow2_u128, rtl32_var, rtl64_var, rtl_const, rtr32_var, rtr64_var, rtr_const,
    rtr_var_helper, separate_last_bit, shl, shr, truncate,
};
use distaff::parse::{read_lines, read_words};
use distaff::program::{render, Line, Word};
use distaff::vm::run;

const FUEL: u64 = 1_000_000;

/// Runs `begin`, pushes of `inputs` (first pushed first), the snippet, `end`.
fn run_snippet(inputs: &[u128], snippet: &str, num_outputs: usize) -> Option<Vec<u128>> {
    let mut program = String::from("\n    begin");
    for v in inputs {
        program.push_str(&format!("\n        push.{}", v));
    }
    program.push_str("\n        ");
    program.push_str(snippet);
    program.push_str("\n    end\n    ");
    run(&program, num_outputs, FUEL)
}

// ----- the text of the snippets

#[test]
fn separate_last_bit_text() {
    assert_eq!(
        separate_last_bit(3),
        "\n    dup.1\n    isodd.4\n    swap.1\n    pick.1\n    sub\n    push.2\n    div\n    "
    );
    assert_eq!(separate_last_bit(0), separate_last_bit(4));
    assert_eq!(&separate_last_bit(12)[15..23], "isodd.12");
    assert_eq!(
        separate_last_bit(9),
        "\n    dup.1\n    isodd.9\n    swap.1\n    pick.1\n    sub\n    push.2\n    div\n    "
    );
}

#[test]
fn shl_text() {
    assert_eq!(shl(7, 1), "\n    push.2\n    mul\n    ");
    assert_eq!(shl(7, 3), "\n    repeat.3\n    push.2\n    mul\n    end\n    ");
}

#[test]
fn shr_text() {
    let expected_one = format!("\n    {}\n    swap.1\n    drop.1\n    ", separate_last_bit(5));
    assert_eq!(shr(5, 1), expected_one);
    let expected_more = format!(
        "\n    repeat.2\n        {}\n        swap.1\n        drop.1\n    end\n    ",
        separate_last_bit(5)
    );
    assert_eq!(shr(5, 2), expected_more);
}

#[test]
fn truncate_text() {
    let expected = format!(
        "\n    push.0\n    \n    swap.1\n    {}\n    push.0\n    swap.2\n    push.1\n    mul\n    add\n    swap.1\n    drop.1\n    \n    swap.1\n    drop.1\n    ",
        separate_last_bit(6)
    );
    assert_eq!(truncate(6, 1), expected);
    assert_eq!(truncate(6, 0), "\n    push.0\n    \n    swap.1\n    drop.1\n    ");
}

#[test]
fn bit_not_text() {
    let expected = format!("\n    {}\n    push.{}\n    swap.1\n    sub\n    ", truncate(3, 3), 7);
    assert_eq!(bit_not(3), expected);
}

#[test]
fn mod1_text() {
    assert_eq!(
        mod1(7),
        "\n    dup.2\n    lt.128\n    while.true\n        swap.1\n        dup.2\n        swap.1\n        sub\n        swap.1\n        drop.1\n        swap.1\n        dup.2\n        lt.128\n    end\n    pick.1\n    ne\n    mul\n    "
    );
}

#[test]
fn rtr_const_text() {
    let one = format!(
        "\n    {}\n    swap.1\n    push.{}\n    mul\n    add\n    ",
        separate_last_bit(32),
        2147483648u128
    );
    assert_eq!(rtr_const(32, 1), one);
    let more = format!(
        "\n    repeat.3\n        {}\n        swap.1\n        push.8\n        mul\n        add\n    end\n    ",
        separate_last_bit(4)
    );
    assert_eq!(rtr_const(4, 3), more);
    assert_eq!(rtl_const(4, 1), rtr_const(4, 3));
    // the exponent n - 1 is taken as a 32-bit count
    let wide = format!(
        "\n    {}\n    swap.1\n    push.8\n    mul\n    add\n    ",
        separate_last_bit(4294967300)
    );
    assert_eq!(rtr_const(4294967300, 1), wide);
}

#[test]
fn rtr_var_helper_text() {
    let expected = format!(
        "\n    dup.1\n    push.0\n    lt.{}\n    while.true\n        swap.1\n        {}\n        swap.1\n        push.1\n        sub\n        dup.1\n        push.0\n        lt.{}\n    end\n    drop.1\n    ",
        32,
        rtr_const(32, 1),
        32
    );
    assert_eq!(rtr_var_helper(32), expected);
}

#[test]
fn bit_xor_text_has_one_step_per_bit() {
    let text = bit_xor(3);
    assert_eq!(text.matches("ne").count(), 3);
    assert!(text.starts_with("\n    push.0\n    \n    swap.1\n    "));
    assert!(text.ends_with("\n    swap.1\n    drop.1\n    swap.1\n    drop.1\n    "));
    assert!(text.contains("\n    push.4\n"));
}

#[test]
fn pow2_values() {
    assert_eq!(pow2_u128(0), 1);
    assert_eq!(pow2_u128(10), 1024);
    assert_eq!(pow2_u128(127), 1u128 << 127);
}

// ----- what the snippets compute

#[test]
fn separate_last_bit_splits_1001() {
    // 1001 => 100 1 (top first)
    assert_eq!(run_snippet(&[9], &separate_last_bit(4), 2), Some(vec![4, 1]));
}

#[test]
fn truncating_twice_is_truncating_once() {
    let twice = format!("{}{}", truncate(8, 5), truncate(8, 5));
    assert_eq!(run_snippet(&[0b1101_0110], &twice, 1), Some(vec![0b10110]));
    assert_eq!(run_snippet(&[0b1101_0110], &truncate(8, 5), 1), Some(vec![0b10110]));
}

#[test]
fn truncate_keeps_low_bits() {
    // truncate(2): 1011 => 11
    assert_eq!(run_snippet(&[11], &truncate(4, 2), 1), Some(vec![3]));
    assert_eq!(run_snippet(&[0b1101_0110], &truncate(8, 5), 1), Some(vec![0b10110]));
    assert_eq!(run_snippet(&[255], &truncate(8, 0), 1), Some(vec![0]));
    assert_eq!(run_snippet(&[9], &truncate(4, 5), 1), Some(vec![9]));
}

#[test]
fn truncate_refuses_a_wider_value() {
    // the parity test of the snippet reads a 4-bit value; 20 has 5 bits
    assert_eq!(run_snippet(&[20], &truncate(4, 2), 1), None);
}

#[test]
fn bit_not_flips_bits() {
    assert_eq!(run_snippet(&[0], &bit_not(8), 1), Some(vec![255]));
    assert_eq!(run_snippet(&[0b1010], &bit_not(4), 1), Some(vec![0b0101]));
}

#[test]
fn bitwise_operations() {
    // 1010 1101 => 0111
    assert_eq!(run_snippet(&[0b1101, 0b1010], &bit_xor(4), 1), Some(vec![0b0111]));
    assert_eq!(run_snippet(&[11, 200], &bit_and(8), 1), Some(vec![11 & 200]));
    assert_eq!(run_snippet(&[11, 200], &bit_or(8), 1), Some(vec![11 | 200]));
    assert_eq!(run_snippet(&[0xdead, 0xbeef], &bit_xor(16), 1), Some(vec![0xdead ^ 0xbeef]));
}

#[test]
fn shifts() {
    // 1101 => 11010
    assert_eq!(run_snippet(&[13], &shl(4, 1), 1), Some(vec![26]));
    assert_eq!(run_snippet(&[13], &shl(4, 3), 1), Some(vec![104]));
    // 1101 => 110
    assert_eq!(run_snippet(&[13], &shr(4, 1), 1), Some(vec![6]));
    assert_eq!(run_snippet(&[13], &shr(4, 2), 1), Some(vec![3]));
    assert_eq!(run_snippet(&[13], &shr(4, 0), 1), Some(vec![13]));
}

#[test]
fn shl_overflow_stops_the_run() {
    assert_eq!(run_snippet(&[1u128 << 127], &shl(128, 1), 1), None);
}

#[test]
fn constant_rotations() {
    // 1101 => 1110
    assert_eq!(run_snippet(&[0b1101], &rtr_const(4, 1), 1), Some(vec![0b1110]));
    assert_eq!(run_snippet(&[0b1101], &rtr_const(4, 2), 1), Some(vec![0b0111]));
    assert_eq!(run_snippet(&[0b1101], &rtr_const(4, 4), 1), Some(vec![0b1101]));
    // rtl(4, 1): 1101 => 1011
    assert_eq!(run_snippet(&[0b1101], &rtl_const(4, 1), 1), Some(vec![0b1011]));
}

#[test]
fn variable_rotations_with_six_bit_counts() {
    // 64-bit rotations: 1010 >>> 2 puts the low bits 10 at the top of 64 bits
    assert_eq!(run_snippet(&[10, 2], &rtr64_var(5), 1), Some(vec![9223372036854775810]));
    assert_eq!(run_snippet(&[2147483650, 2], &rtl64_var(5), 1), Some(vec![8589934600]));
    assert_eq!(run_snippet(&[9223372036854775810, 2], &rtl64_var(5), 1), Some(vec![10]));
    // a count of 34 rotates a 64-bit value by 34 (it is not taken modulo 32)
    assert_eq!(run_snippet(&[10, 34], &rtr64_var(6), 1), Some(vec![10737418240]));
    // a count of 66 rotates as a count of 2 does
    assert_eq!(run_snippet(&[10, 66], &rtr64_var(7), 1), Some(vec![9223372036854775810]));
    assert_eq!(run_snippet(&[1, 0], &rtl64_var(5), 1), Some(vec![1]));
    assert_eq!(run_snippet(&[2147483648, 1], &rtl64_var(6), 1), Some(vec![4294967296]));
    assert_eq!(run_snippet(&[1, 1], &rtr64_var(6), 1), Some(vec![9223372036854775808]));
    assert_eq!(run_snippet(&[9223372036854775808, 1], &rtl64_var(6), 1), Some(vec![1]));
    let program = format!("begin push.2147483648 push.1 {} end", rtl64_var(6));
    assert_eq!(run(&program, 1, FUEL), Some(vec![4294967296]));
    let program = format!("begin push.1 push.1 {} end", rtr64_var(6));
    assert_eq!(run(&program, 1, FUEL), Some(vec![9223372036854775808]));
}

#[test]
fn constant_rotations_compose() {
    let both = format!("{}{}", rtr_const(4, 1), rtr_const(4, 2));
    assert_eq!(run_snippet(&[0b1101], &both, 1), Some(vec![0b1011]));
    assert_eq!(run_snippet(&[0b1101], &rtr_const(4, 3), 1), Some(vec![0b1011]));
    // counts that differ by the width rotate alike
    assert_eq!(run_snippet(&[0b1101], &rtr_const(4, 5), 1), Some(vec![0b1110]));
    assert_eq!(run_snippet(&[0b1101], &rtr_const(4, 1), 1), Some(vec![0b1110]));
}

#[test]
fn left_rotations_undo_right_rotations() {
    let back = format!("{}{}", rtr_const(4, 1), rtl_const(4, 1));
    assert_eq!(run_snippet(&[0b1101], &back, 1), Some(vec![0b1101]));
    let back = format!("{}\n    push.2{}", rtr32_var(5), rtl32_var(5));
    assert_eq!(run_snippet(&[10, 2], &back, 1), Some(vec![10]));
    let back = format!("{}\n    push.37{}", rtr64_var(6), rtl64_var(6));
    assert_eq!(run_snippet(&[0xdead_beef_1234_5678, 37], &back, 1), Some(vec![0xdead_beef_1234_5678]));
}

#[test]
fn loops_take_exactly_their_rounds() {
    // three rounds of rotation for a count of 3
    let helper = format!("\n    begin\n    push.1\n    push.3{}\n    end", rtr_var_helper(4));
    assert_eq!(run(&helper, 1, 3), Some(vec![0b0010]));
    assert_eq!(run(&helper, 1, 2), None);
    // 23 mod 5 subtracts 5 four times
    let rem = format!("\n    begin\n    push.23\n    push.5{}\n    end", mod1(32));
    assert_eq!(run(&rem, 1, 4), Some(vec![3]));
    assert_eq!(run(&rem, 1, 3), None);
}

#[test]
fn rtr_var_helper_counts_down() {
    assert_eq!(run_snippet(&[0b0001, 3], &rtr_var_helper(4), 1), Some(vec![0b0010]));
}

#[test]
fn remainder() {
    assert_eq!(run_snippet(&[23, 5], &mod1(32), 1), Some(vec![3]));
    assert_eq!(run_snippet(&[3, 5], &mod1(32), 1), Some(vec![3]));
    assert_eq!(run_snippet(&[0, 5], &mod1(32), 1), Some(vec![0]));
    assert_eq!(run_snippet(&[20, 5], &mod1(32), 1), Some(vec![0]));
}

#[test]
fn remainder_of_zero_by_zero_is_zero() {
    assert_eq!(run_snippet(&[0, 0], &mod1(32), 1), Some(vec![0]));
}

#[test]
fn remainder_by_zero_runs_out_of_fuel() {
    let program = format!("\n    begin\n        push.7\n        push.0\n        {}\n    end\n    ", mod1(32));
    assert_eq!(run(&program, 1, 100), None);
}

// ----- the machine

#[test]
fn run_refuses_bad_programs() {
    assert_eq!(run("\n    begin\n        add\n    end\n    ", 1, FUEL), None);
    assert_eq!(run("\n    push.1\n    ", 1, FUEL), None);
    assert_eq!(run("\n    begin\n        push.1\n        frobnicate\n    end", 1, FUEL), None);
    assert_eq!(run("\n    begin\n        push.1\n    end", 2, FUEL), None);
    assert_eq!(run("\n    begin\n        push.1\n    end\n    push.2", 1, FUEL), None);
    assert_eq!(run("\n    begin\n        push.340282366920938463463374607431768211456\n    end", 1, FUEL), None);
}

#[test]
fn run_reads_words_on_one_line() {
    assert_eq!(run("begin push.1 push.2 add end", 1, FUEL), Some(vec![3]));
    assert_eq!(run("begin\tpush.5\r\n  push.7 sub\nend", 1, FUEL), None);
    assert_eq!(run("begin\tpush.7\r\n  push.5 sub\nend", 1, FUEL), Some(vec![2]));
    assert_eq!(run("begin\n    push.1\n    end", 1, FUEL), Some(vec![1]));
    assert_eq!(run("  begin push.1 end  ", 1, FUEL), Some(vec![1]));
    // a word that is not an instruction, and two words run together
    assert_eq!(run("begin push.1 push.2 addd end", 1, FUEL), None);
    assert_eq!(run("begin push.1push.2 end", 1, FUEL), None);
    // the snippets work laid out on one line too
    let one_line = format!("begin push.13 {} end", shr(4, 2).replace('\n', " "));
    assert_eq!(run(&one_line, 1, FUEL), Some(vec![3]));
}

#[test]
fn read_words_splits_at_gaps() {
    let text: Vec<char> = "\n    begin\n\n        push.1 push.2\tadd\n    end".chars().collect();
    assert_eq!(
        read_words(&text),
        Some(vec![Word::Begin, Word::Blank, Word::Push(1), Word::Push(2), Word::Add, Word::End])
    );
    let text: Vec<char> = "push.1 \n".chars().collect();
    assert_eq!(read_words(&text), Some(vec![Word::Push(1), Word::Blank]));
    let text: Vec<char> = "".chars().collect();
    assert_eq!(read_words(&text), Some(vec![]));
    let text: Vec<char> = "push.x".chars().collect();
    assert_eq!(read_words(&text), None);
}

#[test]
fn run_gives_top_first() {
    assert_eq!(run("\n    begin\n        push.1\n        push.2\n        push.3\n    end", 3, FUEL), Some(vec![3, 2, 1]));
}

#[test]
fn run_stays_in_the_field() {
    // the largest field element, 2^128 - 45 * 2^40
    assert_eq!(
        run("\n    begin\n        push.340282366920938463463374557953744961536\n    end", 1, FUEL),
        Some(vec![340282366920938463463374557953744961536])
    );
    // the order of the field is no element of it
    assert_eq!(run("\n    begin\n        push.340282366920938463463374557953744961537\n    end", 1, FUEL), None);
    assert_eq!(run("\n    begin\n        push.340282366920938463463374607431768211455\n    end", 1, FUEL), None);
    // a sum that reaches the order stops the run
    assert_eq!(
        run("\n    begin\n        push.340282366920938463463374557953744961536\n        push.1\n        add\n    end", 1, FUEL),
        None
    );
    assert_eq!(
        run("\n    begin\n        push.340282366920938463463374557953744961535\n        push.1\n        add\n    end", 1, FUEL),
        Some(vec![340282366920938463463374557953744961536])
    );
    // a product that reaches the order stops the run
    assert_eq!(run_snippet(&[1u128 << 127], &shl(128, 1), 1), None);
    assert_eq!(run_snippet(&[1u128 << 126], &shl(128, 1), 1), Some(vec![1u128 << 127]));
}

#[test]
fn run_stack_words() {
    let program = "\n    begin\n        push.1\n        push.2\n        push.3\n        push.4\n        roll.4\n        swap.2\n        pick.1\n        dup.2\n        drop.1\n    end";
    // 1 2 3 4 -> roll.4 -> 2 3 4 1 -> swap.2 -> 4 1 2 3 -> pick.1 -> 4 1 2 3 2 -> dup.2 -> ... 3 2 3 2 -> drop.1
    assert_eq!(run(program, 7, FUEL), None);
    assert_eq!(run(program, 6, FUEL), Some(vec![3, 2, 3, 2, 1, 4]));
}

#[test]
fn read_back_rendered_lines() {
    let lines = vec![
        Line { indent: 4, word: Word::Begin },
        Line { indent: 8, word: Word::Push(12345) },
        Line { indent: 8, word: Word::Repeat(3) },
        Line { indent: 12, word: Word::IsOdd(32) },
        Line { indent: 8, word: Word::End },
        Line { indent: 0, word: Word::Blank },
        Line { indent: 4, word: Word::WhileTrue },
        Line { indent: 4, word: Word::End },
    ];
    let text = render(&lines);
    assert_eq!(
        text,
        "\n    begin\n        push.12345\n        repeat.3\n            isodd.32\n        end\n\n    while.true\n    end"
    );
    let chars: Vec<char> = text.chars().collect();
    assert_eq!(read_lines(&chars), Some(lines));
}
