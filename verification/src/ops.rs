//! Generators of assembly snippets for bit-level operations on the values of a
//! stack machine: truncation, bitwise not/and/or/xor, shifts, rotations and remainder.
//!
//! Each generator returns the text of its snippet; the snippet's lines are described
//! by a spec function `*_prog`, and `program::text_of` gives their text.
use vstd::prelude::*;
use vstd::arithmetic::power2::{pow2, lemma_pow2_unfold, lemma_pow2_strictly_increases, lemma2_to64, lemma_pow2_adds, lemma_pow2_pos};
use crate::program::{Word, Line, ln, text_of, render};

verus! {

/// The bitwise operation that `bit_op` combines two values with.
#[derive(Clone, Copy, Debug, PartialEq, Eq, Structural)]
pub enum BitOp {
    And,
    Or,
    Xor,
}

/// The instruction that combines two bits for a bitwise operation (`ne` for xor).
pub open spec fn bit_word(op: BitOp) -> Word {
    match op {
        BitOp::And => Word::And,
        BitOp::Or => Word::Or,
        BitOp::Xor => Word::Ne,
    }
}

pub proof fn lemma_pow2_127()
    ensures
        pow2(127) == 0x8000_0000_0000_0000_0000_0000_0000_0000,
{
    lemma2_to64();
    lemma_pow2_adds(32, 31);
    lemma_pow2_adds(64, 63);
}

/// `2` to the power `e`.
pub fn pow2_u128(e: usize) -> (r: u128)
    requires
        e < 128,
    ensures
        r as nat == pow2(e as nat),
{
    let mut r: u128 = 1;
    let mut i: usize = 0;
    proof {
        lemma2_to64();
        lemma_pow2_127();
    }
    while i < e
        invariant
            i <= e < 128,
            r as nat == pow2(i as nat),
            pow2(127) == 0x8000_0000_0000_0000_0000_0000_0000_0000,
        decreases e - i,
    {
        proof {
            lemma_pow2_unfold((i + 1) as nat);
            if i + 1 < 127 {
                lemma_pow2_strictly_increases((i + 1) as nat, 127);
            }
        }
        r = r * 2;
        i = i + 1;
    }
    r
}

fn push_lines(out: &mut Vec<Line>, ls: &[Line])
    ensures
        final(out)@ == old(out)@ + ls@,
{
    let mut i: usize = 0;
    while i < ls.len()
        invariant
            i <= ls.len(),
            out@ == old(out)@ + ls@.subrange(0, i as int),
        decreases ls.len() - i,
    {
        out.push(ls[i]);
        i = i + 1;
        assert(out@ =~= old(out)@ + ls@.subrange(0, i as int));
    }
    assert(ls@.subrange(0, ls.len() as int) =~= ls@);
}

// ---------------------------------------------------------------------------------------
// separate_last_bit

/// The bit width that `separate_last_bit` reads its operand with: `n`, but at least 4.
pub open spec fn slb_size(n: usize) -> usize {
    if n < 4 {
        4
    } else {
        n
    }
}

/// `[x] => [x / 2, x % 2]` (top first): splits off the lowest bit of an `n`-bit value.
pub open spec fn slb_prog(n: usize) -> Seq<Line> {
    seq![
        ln(4, Word::Dup(1)),
        ln(4, Word::IsOdd(slb_size(n))),
        ln(4, Word::Swap(1)),
        ln(4, Word::Pick(1)),
        ln(4, Word::Sub),
        ln(4, Word::Push(2)),
        ln(4, Word::Div),
        ln(4, Word::Blank),
    ]
}

fn slb_lines(out: &mut Vec<Line>, n: usize)
    ensures
        final(out)@ == old(out)@ + slb_prog(n),
{
    let size: usize = if n < 4 { 4 } else { n };
    let a = [
        Line { indent: 4, word: Word::Dup(1) },
        Line { indent: 4, word: Word::IsOdd(size) },
        Line { indent: 4, word: Word::Swap(1) },
        Line { indent: 4, word: Word::Pick(1) },
        Line { indent: 4, word: Word::Sub },
        Line { indent: 4, word: Word::Push(2) },
        Line { indent: 4, word: Word::Div },
        Line { indent: 4, word: Word::Blank },
    ];
    assert(a@ =~= slb_prog(n));
    push_lines(out, &a);
}

/// The snippet that separates the lowest bit of an `n`-bit value from the rest.
pub fn separate_last_bit(n: usize) -> (s: String)
    ensures
        s@ == text_of(slb_prog(n)),
{
    let mut v: Vec<Line> = Vec::new();
    slb_lines(&mut v, n);
    assert(v@ =~= slb_prog(n));
    render(&v)
}

// ---------------------------------------------------------------------------------------
// truncate

/// One step of `truncate`: moves bit `i` of the value into the accumulator.
pub open spec fn truncate_step(n: usize, i: nat) -> Seq<Line> {
    seq![ln(4, Word::Swap(1)), ln(4, Word::Blank)] + slb_prog((n - i) as usize) + seq![
        ln(4, Word::Push(0)),
        ln(4, Word::Swap(2)),
        ln(4, Word::Push(pow2(i) as u128)),
        ln(4, Word::Mul),
        ln(4, Word::Add),
        ln(4, Word::Swap(1)),
        ln(4, Word::Drop(1)),
        ln(4, Word::Blank),
    ]
}

/// The first `c` steps of `truncate`.
pub open spec fn truncate_steps(n: usize, c: nat) -> Seq<Line>
    decreases c,
{
    if c == 0 {
        Seq::empty()
    } else {
        truncate_steps(n, (c - 1) as nat) + truncate_step(n, (c - 1) as nat)
    }
}

/// `[x] => [x % 2^count]`: keeps the lowest `count` bits of an `n`-bit value.
pub open spec fn truncate_prog(n: usize, count: usize) -> Seq<Line> {
    seq![ln(4, Word::Push(0)), ln(4, Word::Blank)] + truncate_steps(n, count as nat) + seq![
        ln(4, Word::Swap(1)),
        ln(4, Word::Drop(1)),
        ln(4, Word::Blank),
    ]
}

#[verifier::rlimit(40)]
fn truncate_step_lines(out: &mut Vec<Line>, n: usize, i: usize)
    requires
        i <= n,
        i < 128,
    ensures
        final(out)@ == old(out)@ + truncate_step(n, i as nat),
{
    let a = [Line { indent: 4, word: Word::Swap(1) }, Line { indent: 4, word: Word::Blank }];
    push_lines(out, &a);
    slb_lines(out, n - i);
    let p = pow2_u128(i);
    let b = [
        Line { indent: 4, word: Word::Push(0) },
        Line { indent: 4, word: Word::Swap(2) },
        Line { indent: 4, word: Word::Push(p) },
        Line { indent: 4, word: Word::Mul },
        Line { indent: 4, word: Word::Add },
        Line { indent: 4, word: Word::Swap(1) },
        Line { indent: 4, word: Word::Drop(1) },
        Line { indent: 4, word: Word::Blank },
    ];
    push_lines(out, &b);
    assert(final(out)@ =~= old(out)@ + truncate_step(n, i as nat));
}

fn truncate_lines(out: &mut Vec<Line>, n: usize, count: usize)
    requires
        count <= n + 1,
        count <= 128,
    ensures
        final(out)@ == old(out)@ + truncate_prog(n, count),
{
    let a = [Line { indent: 4, word: Word::Push(0) }, Line { indent: 4, word: Word::Blank }];
    push_lines(out, &a);
    let ghost start = out@;
    let mut i: usize = 0;
    while i < count
        invariant
            i <= count <= n + 1,
            count <= 128,
            out@ == start + truncate_steps(n, i as nat),
        decreases count - i,
    {
        truncate_step_lines(out, n, i);
        assert(truncate_steps(n, (i + 1) as nat) == truncate_steps(n, i as nat) + truncate_step(n, i as nat));
        i = i + 1;
        assert(out@ =~= start + truncate_steps(n, i as nat));
    }
    let b = [
        Line { indent: 4, word: Word::Swap(1) },
        Line { indent: 4, word: Word::Drop(1) },
        Line { indent: 4, word: Word::Blank },
    ];
    push_lines(out, &b);
    assert(final(out)@ =~= old(out)@ + truncate_prog(n, count));
}

/// `truncate(2)` turns `1011` into `11`: the snippet that keeps the lowest `count` bits
/// of the `n`-bit value on top of the stack.
pub fn truncate(n: usize, count: usize) -> (s: String)
    requires
        count <= n + 1,
        count <= 128,
    ensures
        s@ == text_of(truncate_prog(n, count)),
{
    let mut v: Vec<Line> = Vec::new();
    truncate_lines(&mut v, n, count);
    assert(v@ =~= truncate_prog(n, count));
    render(&v)
}

// ---------------------------------------------------------------------------------------
// bit_not

/// `[x] => [2^n - 1 - (x % 2^n)]`: flips the lowest `n` bits of an `n`-bit value.
pub open spec fn bit_not_prog(n: usize) -> Seq<Line> {
    seq![ln(4, Word::Blank)] + truncate_prog(n, n) + seq![
        ln(4, Word::Push((pow2(n as nat) - 1) as u128)),
        ln(4, Word::Swap(1)),
        ln(4, Word::Sub),
        ln(4, Word::Blank),
    ]
}

/// The snippet that flips the `n` bits of the `n`-bit value on top of the stack.
pub fn bit_not(n: usize) -> (s: String)
    requires
        n < 128,
    ensures
        s@ == text_of(bit_not_prog(n)),
{
    let mut v: Vec<Line> = Vec::new();
    v.push(Line { indent: 4, word: Word::Blank });
    truncate_lines(&mut v, n, n);
    let p = pow2_u128(n);
    proof {
        lemma_pow2_pos(n as nat);
    }
    let b = [
        Line { indent: 4, word: Word::Push(p - 1) },
        Line { indent: 4, word: Word::Swap(1) },
        Line { indent: 4, word: Word::Sub },
        Line { indent: 4, word: Word::Blank },
    ];
    push_lines(&mut v, &b);
    assert(v@ =~= bit_not_prog(n));
    render(&v)
}

// ---------------------------------------------------------------------------------------
// bit_op

/// One step of `bit_op`: combines bit `i` of both values into the accumulator.
pub open spec fn bit_op_step(n: usize, op: BitOp, i: nat) -> Seq<Line> {
    seq![ln(4, Word::Swap(1)), ln(4, Word::Blank)] + slb_prog((n - i) as usize) + seq![
        ln(4, Word::Roll(4)),
        ln(4, Word::Blank),
    ] + slb_prog((n - i) as usize) + seq![
        ln(4, Word::Swap(1)),
        ln(4, Word::Roll(4)),
        ln(4, bit_word(op)),
        ln(4, Word::Push(pow2(i) as u128)),
        ln(4, Word::Mul),
        ln(4, Word::Roll(4)),
        ln(4, Word::Add),
        ln(4, Word::Blank),
    ]
}

/// The first `c` steps of `bit_op`.
pub open spec fn bit_op_steps(n: usize, op: BitOp, c: nat) -> Seq<Line>
    decreases c,
{
    if c == 0 {
        Seq::empty()
    } else {
        bit_op_steps(n, op, (c - 1) as nat) + bit_op_step(n, op, (c - 1) as nat)
    }
}

/// `[y, x] => [x op y]`: combines two `n`-bit values bit by bit.
pub open spec fn bit_op_prog(n: usize, op: BitOp) -> Seq<Line> {
    seq![ln(4, Word::Push(0)), ln(4, Word::Blank)] + bit_op_steps(n, op, n as nat) + seq![
        ln(4, Word::Swap(1)),
        ln(4, Word::Drop(1)),
        ln(4, Word::Swap(1)),
        ln(4, Word::Drop(1)),
        ln(4, Word::Blank),
    ]
}

#[verifier::rlimit(40)]
fn bit_op_step_lines(out: &mut Vec<Line>, n: usize, op: BitOp, i: usize)
    requires
        i < n,
        i < 128,
    ensures
        final(out)@ == old(out)@ + bit_op_step(n, op, i as nat),
{
    let act = match op {
        BitOp::And => Word::And,
        BitOp::Or => Word::Or,
        BitOp::Xor => Word::Ne,
    };
    let a = [Line { indent: 4, word: Word::Swap(1) }, Line { indent: 4, word: Word::Blank }];
    push_lines(out, &a);
    slb_lines(out, n - i);
    let b = [Line { indent: 4, word: Word::Roll(4) }, Line { indent: 4, word: Word::Blank }];
    push_lines(out, &b);
    slb_lines(out, n - i);
    let p = pow2_u128(i);
    let c = [
        Line { indent: 4, word: Word::Swap(1) },
        Line { indent: 4, word: Word::Roll(4) },
        Line { indent: 4, word: act },
        Line { indent: 4, word: Word::Push(p) },
        Line { indent: 4, word: Word::Mul },
        Line { indent: 4, word: Word::Roll(4) },
        Line { indent: 4, word: Word::Add },
        Line { indent: 4, word: Word::Blank },
    ];
    push_lines(out, &c);
    assert(final(out)@ =~= old(out)@ + bit_op_step(n, op, i as nat));
}

/// The snippet that combines the two `n`-bit values on top of the stack bit by bit.
fn bit_op(n: usize, op: BitOp) -> (s: String)
    requires
        n <= 128,
    ensures
        s@ == text_of(bit_op_prog(n, op)),
{
    let mut v: Vec<Line> = Vec::new();
    let a = [Line { indent: 4, word: Word::Push(0) }, Line { indent: 4, word: Word::Blank }];
    push_lines(&mut v, &a);
    let ghost start = v@;
    let mut i: usize = 0;
    while i < n
        invariant
            i <= n <= 128,
            v@ == start + bit_op_steps(n, op, i as nat),
        decreases n - i,
    {
        bit_op_step_lines(&mut v, n, op, i);
        assert(bit_op_steps(n, op, (i + 1) as nat) == bit_op_steps(n, op, i as nat) + bit_op_step(n, op, i as nat));
        i = i + 1;
        assert(v@ =~= start + bit_op_steps(n, op, i as nat));
    }
    let b = [
        Line { indent: 4, word: Word::Swap(1) },
        Line { indent: 4, word: Word::Drop(1) },
        Line { indent: 4, word: Word::Swap(1) },
        Line { indent: 4, word: Word::Drop(1) },
        Line { indent: 4, word: Word::Blank },
    ];
    push_lines(&mut v, &b);
    assert(v@ =~= bit_op_prog(n, op));
    render(&v)
}

/// The snippet that xors the two `n`-bit values on top of the stack.
pub fn bit_xor(n: usize) -> (s: String)
    requires
        n <= 128,
    ensures
        s@ == text_of(bit_op_prog(n, BitOp::Xor)),
{
    bit_op(n, BitOp::Xor)
}

/// The snippet that ands the two `n`-bit values on top of the stack.
pub fn bit_and(n: usize) -> (s: String)
    requires
        n <= 128,
    ensures
        s@ == text_of(bit_op_prog(n, BitOp::And)),
{
    bit_op(n, BitOp::And)
}

/// The snippet that ors the two `n`-bit values on top of the stack.
pub fn bit_or(n: usize) -> (s: String)
    requires
        n <= 128,
    ensures
        s@ == text_of(bit_op_prog(n, BitOp::Or)),
{
    bit_op(n, BitOp::Or)
}

// ---------------------------------------------------------------------------------------
// shifts

/// `[x] => [x * 2^count]`.
pub open spec fn shl_prog(count: usize) -> Seq<Line> {
    if count == 1 {
        seq![ln(4, Word::Push(2)), ln(4, Word::Mul), ln(4, Word::Blank)]
    } else {
        seq![
            ln(4, Word::Repeat(count)),
            ln(4, Word::Push(2)),
            ln(4, Word::Mul),
            ln(4, Word::End),
            ln(4, Word::Blank),
        ]
    }
}

/// `1101` becomes `11010`: the snippet that shifts the value on top of the stack left by
/// `count` bits (the bit width `n` plays no part).
pub fn shl(n: usize, count: usize) -> (s: String)
    ensures
        s@ == text_of(shl_prog(count)),
{
    let mut v: Vec<Line> = Vec::new();
    if count == 1 {
        let a = [
            Line { indent: 4, word: Word::Push(2) },
            Line { indent: 4, word: Word::Mul },
            Line { indent: 4, word: Word::Blank },
        ];
        push_lines(&mut v, &a);
    } else {
        let a = [
            Line { indent: 4, word: Word::Repeat(count) },
            Line { indent: 4, word: Word::Push(2) },
            Line { indent: 4, word: Word::Mul },
            Line { indent: 4, word: Word::End },
            Line { indent: 4, word: Word::Blank },
        ];
        push_lines(&mut v, &a);
    }
    assert(v@ =~= shl_prog(count));
    render(&v)
}

/// `[x] => [x / 2^count]` for an `n`-bit value.
pub open spec fn shr_prog(n: usize, count: usize) -> Seq<Line> {
    if count == 1 {
        seq![ln(4, Word::Blank)] + slb_prog(n) + seq![
            ln(4, Word::Swap(1)),
            ln(4, Word::Drop(1)),
            ln(4, Word::Blank),
        ]
    } else {
        seq![ln(4, Word::Repeat(count)), ln(8, Word::Blank)] + slb_prog(n) + seq![
            ln(8, Word::Swap(1)),
            ln(8, Word::Drop(1)),
            ln(4, Word::End),
            ln(4, Word::Blank),
        ]
    }
}

/// `1101` becomes `110`: the snippet that shifts the `n`-bit value on top of the stack
/// right by `count` bits.
pub fn shr(n: usize, count: usize) -> (s: String)
    ensures
        s@ == text_of(shr_prog(n, count)),
{
    let mut v: Vec<Line> = Vec::new();
    if count == 1 {
        v.push(Line { indent: 4, word: Word::Blank });
        slb_lines(&mut v, n);
        let a = [
            Line { indent: 4, word: Word::Swap(1) },
            Line { indent: 4, word: Word::Drop(1) },
            Line { indent: 4, word: Word::Blank },
        ];
        push_lines(&mut v, &a);
    } else {
        let a = [Line { indent: 4, word: Word::Repeat(count) }, Line { indent: 8, word: Word::Blank }];
        push_lines(&mut v, &a);
        slb_lines(&mut v, n);
        let b = [
            Line { indent: 8, word: Word::Swap(1) },
            Line { indent: 8, word: Word::Drop(1) },
            Line { indent: 4, word: Word::End },
            Line { indent: 4, word: Word::Blank },
        ];
        push_lines(&mut v, &b);
    }
    assert(v@ =~= shr_prog(n, count));
    render(&v)
}

// ---------------------------------------------------------------------------------------
// remainder

/// `[y, x] => [x % y]`.
pub open spec fn mod1_prog() -> Seq<Line> {
    seq![
        ln(4, Word::Dup(2)),
        ln(4, Word::Lt(128)),
        ln(4, Word::WhileTrue),
        ln(8, Word::Swap(1)),
        ln(8, Word::Dup(2)),
        ln(8, Word::Swap(1)),
        ln(8, Word::Sub),
        ln(8, Word::Swap(1)),
        ln(8, Word::Drop(1)),
        ln(8, Word::Swap(1)),
        ln(8, Word::Dup(2)),
        ln(8, Word::Lt(128)),
        ln(4, Word::End),
        ln(4, Word::Pick(1)),
        ln(4, Word::Ne),
        ln(4, Word::Mul),
        ln(4, Word::Blank),
    ]
}

/// The snippet that replaces the divisor on top of the stack and the dividend under it by
/// the remainder (the bit width `n` plays no part).
pub fn mod1(n: usize) -> (s: String)
    ensures
        s@ == text_of(mod1_prog()),
{
    let a = [
        Line { indent: 4, word: Word::Dup(2) },
        Line { indent: 4, word: Word::Lt(128) },
        Line { indent: 4, word: Word::WhileTrue },
        Line { indent: 8, word: Word::Swap(1) },
        Line { indent: 8, word: Word::Dup(2) },
        Line { indent: 8, word: Word::Swap(1) },
        Line { indent: 8, word: Word::Sub },
        Line { indent: 8, word: Word::Swap(1) },
        Line { indent: 8, word: Word::Drop(1) },
        Line { indent: 8, word: Word::Swap(1) },
        Line { indent: 8, word: Word::Dup(2) },
        Line { indent: 8, word: Word::Lt(128) },
        Line { indent: 4, word: Word::End },
        Line { indent: 4, word: Word::Pick(1) },
        Line { indent: 4, word: Word::Ne },
        Line { indent: 4, word: Word::Mul },
        Line { indent: 4, word: Word::Blank },
    ];
    let mut v: Vec<Line> = Vec::new();
    push_lines(&mut v, &a);
    assert(v@ =~= mod1_prog());
    render(&v)
}

// ---------------------------------------------------------------------------------------
// rotations by a constant

/// The exponent of the power of two that the constant rotation pushes for width `n`:
/// `n - 1`, taken as a 32-bit count.
pub open spec fn top_exp(n: usize) -> nat {
    ((n - 1) as nat) % 0x1_0000_0000
}

/// The widths the constant rotation accepts: at least 1, and `2^top_exp(n)` fits in
/// 128 bits.
pub open spec fn rot_width_ok(n: usize) -> bool {
    1 <= n && top_exp(n) < 128
}

/// `[x] => [x rotated right by count bits]` for an `n`-bit value.
pub open spec fn rtr_const_prog(n: usize, count: usize) -> Seq<Line> {
    if count == 1 {
        seq![ln(4, Word::Blank)] + slb_prog(n) + seq![
            ln(4, Word::Swap(1)),
            ln(4, Word::Push(pow2(top_exp(n)) as u128)),
            ln(4, Word::Mul),
            ln(4, Word::Add),
            ln(4, Word::Blank),
        ]
    } else {
        seq![ln(4, Word::Repeat(count)), ln(8, Word::Blank)] + slb_prog(n) + seq![
            ln(8, Word::Swap(1)),
            ln(8, Word::Push(pow2(top_exp(n)) as u128)),
            ln(8, Word::Mul),
            ln(8, Word::Add),
            ln(4, Word::End),
            ln(4, Word::Blank),
        ]
    }
}

fn rtr_const_lines(v: &mut Vec<Line>, n: usize, count: usize)
    requires
        rot_width_ok(n),
    ensures
        final(v)@ == old(v)@ + rtr_const_prog(n, count),
{
    let e = ((n - 1) as u64 % 0x1_0000_0000u64) as usize;
    let p = pow2_u128(e);
    if count == 1 {
        v.push(Line { indent: 4, word: Word::Blank });
        slb_lines(v, n);
        let a = [
            Line { indent: 4, word: Word::Swap(1) },
            Line { indent: 4, word: Word::Push(p) },
            Line { indent: 4, word: Word::Mul },
            Line { indent: 4, word: Word::Add },
            Line { indent: 4, word: Word::Blank },
        ];
        push_lines(v, &a);
    } else {
        let a = [Line { indent: 4, word: Word::Repeat(count) }, Line { indent: 8, word: Word::Blank }];
        push_lines(v, &a);
        slb_lines(v, n);
        let b = [
            Line { indent: 8, word: Word::Swap(1) },
            Line { indent: 8, word: Word::Push(p) },
            Line { indent: 8, word: Word::Mul },
            Line { indent: 8, word: Word::Add },
            Line { indent: 4, word: Word::End },
            Line { indent: 4, word: Word::Blank },
        ];
        push_lines(v, &b);
    }
    assert(final(v)@ =~= old(v)@ + rtr_const_prog(n, count));
}

/// `1101` becomes `1110`: the snippet that rotates the `n`-bit value on top of the stack
/// right by `count` bits. The power `2^(n - 1)` that it pushes has its exponent taken as a
/// 32-bit count, and must fit in 128 bits.
pub fn rtr_const(n: usize, count: usize) -> (s: String)
    requires
        rot_width_ok(n),
    ensures
        s@ == text_of(rtr_const_prog(n, count)),
{
    let mut v: Vec<Line> = Vec::new();
    rtr_const_lines(&mut v, n, count);
    assert(v@ =~= rtr_const_prog(n, count));
    render(&v)
}

/// `rtl(4, 1)` turns `1101` into `1011`: the snippet that rotates the `n`-bit value on top
/// of the stack left by `count` bits, as a right rotation by `n - count`.
pub fn rtl_const(n: usize, count: usize) -> (s: String)
    requires
        rot_width_ok(n),
        count <= n,
    ensures
        s@ == text_of(rtr_const_prog(n, (n - count) as usize)),
{
    rtr_const(n, n - count)
}

// ---------------------------------------------------------------------------------------
// rotations by a count on the stack

/// `[c, x] => [x rotated right by c bits]` for an `n`-bit value, one bit per round.
pub open spec fn rtr_var_helper_prog(n: usize) -> Seq<Line> {
    seq![
        ln(4, Word::Dup(1)),
        ln(4, Word::Push(0)),
        ln(4, Word::Lt(n)),
        ln(4, Word::WhileTrue),
        ln(8, Word::Swap(1)),
        ln(8, Word::Blank),
    ] + rtr_const_prog(n, 1) + seq![
        ln(8, Word::Swap(1)),
        ln(8, Word::Push(1)),
        ln(8, Word::Sub),
        ln(8, Word::Dup(1)),
        ln(8, Word::Push(0)),
        ln(8, Word::Lt(n)),
        ln(4, Word::End),
        ln(4, Word::Drop(1)),
        ln(4, Word::Blank),
    ]
}

fn rtr_var_helper_lines(v: &mut Vec<Line>, n: usize)
    requires
        rot_width_ok(n),
    ensures
        final(v)@ == old(v)@ + rtr_var_helper_prog(n),
{
    let a = [
        Line { indent: 4, word: Word::Dup(1) },
        Line { indent: 4, word: Word::Push(0) },
        Line { indent: 4, word: Word::Lt(n) },
        Line { indent: 4, word: Word::WhileTrue },
        Line { indent: 8, word: Word::Swap(1) },
        Line { indent: 8, word: Word::Blank },
    ];
    push_lines(v, &a);
    rtr_const_lines(v, n, 1);
    let b = [
        Line { indent: 8, word: Word::Swap(1) },
        Line { indent: 8, word: Word::Push(1) },
        Line { indent: 8, word: Word::Sub },
        Line { indent: 8, word: Word::Dup(1) },
        Line { indent: 8, word: Word::Push(0) },
        Line { indent: 8, word: Word::Lt(n) },
        Line { indent: 4, word: Word::End },
        Line { indent: 4, word: Word::Drop(1) },
        Line { indent: 4, word: Word::Blank },
    ];
    push_lines(v, &b);
    assert(final(v)@ =~= old(v)@ + rtr_var_helper_prog(n));
}

/// The snippet that rotates the `n`-bit value under the count on top of the stack right
/// by that count (its one-bit rotation is that of `rtr_const(n, 1)`).
pub fn rtr_var_helper(n: usize) -> (s: String)
    requires
        rot_width_ok(n),
    ensures
        s@ == text_of(rtr_var_helper_prog(n)),
{
    let mut v: Vec<Line> = Vec::new();
    rtr_var_helper_lines(&mut v, n);
    assert(v@ =~= rtr_var_helper_prog(n));
    render(&v)
}

/// The snippet of the variable rotations: `bits` bits of the count are kept, and for a
/// left rotation (`turn` is `Some(w)`) the count `c` becomes `w - c`; then the
/// `width`-bit value under it is rotated right by the count.
pub open spec fn rot_var_prog(n: usize, bits: usize, width: usize, turn: Option<u128>) -> Seq<Line> {
    seq![ln(4, Word::Blank)] + truncate_prog(n, bits) + match turn {
        Some(w) => seq![ln(4, Word::Push(w)), ln(4, Word::Swap(1)), ln(4, Word::Sub), ln(4, Word::Blank)],
        None => seq![ln(4, Word::Blank)],
    } + rtr_var_helper_prog(width) + seq![ln(4, Word::Blank)]
}

fn rot_var(n: usize, bits: usize, width: usize, turn: Option<u128>) -> (s: String)
    requires
        bits <= n + 1,
        bits <= 128,
        1 <= width <= 128,
    ensures
        s@ == text_of(rot_var_prog(n, bits, width, turn)),
{
    let mut v: Vec<Line> = Vec::new();
    v.push(Line { indent: 4, word: Word::Blank });
    truncate_lines(&mut v, n, bits);
    match turn {
        Some(w) => {
            let a = [
                Line { indent: 4, word: Word::Push(w) },
                Line { indent: 4, word: Word::Swap(1) },
                Line { indent: 4, word: Word::Sub },
                Line { indent: 4, word: Word::Blank },
            ];
            push_lines(&mut v, &a);
        },
        None => {
            v.push(Line { indent: 4, word: Word::Blank });
        },
    }
    proof {
        vstd::arithmetic::div_mod::lemma_small_mod((width - 1) as nat, 0x1_0000_0000);
    }
    rtr_var_helper_lines(&mut v, width);
    v.push(Line { indent: 4, word: Word::Blank });
    assert(v@ =~= rot_var_prog(n, bits, width, turn));
    render(&v)
}

/// `x <<< count` for a 32-bit `x` under a count of `n` bits on top of the stack.
pub fn rtl32_var(n: usize) -> (s: String)
    requires
        n >= 4,
    ensures
        s@ == text_of(rot_var_prog(n, 5, 32, Some(32))),
{
    rot_var(n, 5, 32, Some(32))
}

/// `x >>> count` for a 32-bit `x` under a count of `n` bits on top of the stack.
pub fn rtr32_var(n: usize) -> (s: String)
    requires
        n >= 4,
    ensures
        s@ == text_of(rot_var_prog(n, 5, 32, None)),
{
    rot_var(n, 5, 32, None)
}

/// `x <<< count` for a 64-bit `x` under a count of `n` bits on top of the stack: the
/// count `c` (taken modulo 64) becomes `64 - c`, and the value is rotated right by that.
pub fn rtl64_var(n: usize) -> (s: String)
    requires
        n >= 5,
    ensures
        s@ == text_of(rot_var_prog(n, 6, 64, Some(64))),
{
    rot_var(n, 6, 64, Some(64))
}

/// `x >>> count` for a 64-bit `x` under a count of `n` bits on top of the stack (the
/// count is taken modulo 64).
pub fn rtr64_var(n: usize) -> (s: String)
    requires
        n >= 5,
    ensures
        s@ == text_of(rot_var_prog(n, 6, 64, None)),
{
    rot_var(n, 6, 64, None)
}

} // verus!
