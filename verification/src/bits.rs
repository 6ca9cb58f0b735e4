//! Arithmetic on the values the snippets compute: powers of two, rotations, and bitwise
//! operations taken bit by bit.
use vstd::prelude::*;
use vstd::arithmetic::power2::{pow2, lemma_pow2_unfold, lemma_pow2_pos, lemma_pow2_strictly_increases, lemma_pow2_adds, lemma2_to64};
use vstd::arithmetic::div_mod::{lemma_div_denominator, lemma_mod_breakdown, lemma_fundamental_div_mod,
    lemma_multiply_divide_lt, lemma_fundamental_div_mod_converse};
use crate::ops::{BitOp, lemma_pow2_127};
use crate::vm::fits;

verus! {

pub proof fn lemma_pow2_le(a: nat, b: nat)
    requires
        a <= b,
    ensures
        pow2(a) <= pow2(b),
{
    if a < b {
        lemma_pow2_strictly_increases(a, b);
    }
}

pub proof fn lemma_pow2_128()
    ensures
        pow2(127) == 0x8000_0000_0000_0000_0000_0000_0000_0000,
        pow2(128) == 0x1_0000_0000_0000_0000_0000_0000_0000_0000,
        pow2(0) == 1,
        pow2(1) == 2,
{
    lemma_pow2_127();
    lemma_pow2_unfold(128);
    lemma2_to64();
}

/// Dropping the lowest `i` bits of an `n`-bit value leaves an `(n - i)`-bit value.
pub proof fn lemma_div_pow2_fits(x: nat, n: nat, i: nat)
    requires
        x < pow2(n),
        i <= n,
    ensures
        x / pow2(i) < pow2((n - i) as nat),
{
    lemma_pow2_adds((n - i) as nat, i);
    lemma_pow2_pos(i);
    lemma_multiply_divide_lt(x as int, pow2(i) as int, pow2((n - i) as nat) as int);
}

/// The next bit: `x / 2^(i+1)` and `x % 2^(i+1)` from `x / 2^i` and `x % 2^i`.
pub proof fn lemma_next_bit(x: nat, i: nat)
    ensures
        x / pow2(i + 1) == (x as nat / pow2(i)) / 2,
        x % pow2(i + 1) == x % pow2(i) + ((x as nat / pow2(i)) % 2) * pow2(i),
        x % pow2(i) < pow2(i),
{
    lemma_pow2_pos(i);
    lemma_pow2_unfold(i + 1);
    lemma_div_denominator(x as int, pow2(i) as int, 2);
    lemma_mod_breakdown(x as int, pow2(i) as int, 2);
    assert(pow2(i) * 2 == pow2(i + 1));
    assert(pow2(i) * ((x as nat / pow2(i)) % 2) == ((x as nat / pow2(i)) % 2) * pow2(i)) by (nonlinear_arith);
}

/// `x`, an `n`-bit value, rotated right by `c` bits.
pub open spec fn rotr(x: nat, n: nat, c: nat) -> nat {
    let k = c % n;
    x / pow2(k) + (x % pow2(k)) * pow2((n - k) as nat)
}

/// `x`, an `n`-bit value, rotated left by `c` bits.
pub open spec fn rotl(x: nat, n: nat, c: nat) -> nat {
    let k = c % n;
    (x % pow2((n - k) as nat)) * pow2(k) + x / pow2((n - k) as nat)
}

/// `y`, an `n`-bit value, rotated right by one bit.
pub open spec fn rot1(y: nat, n: nat) -> nat {
    y / 2 + (y % 2) * pow2((n - 1) as nat)
}

pub proof fn lemma_rotr_zero(x: nat, n: nat)
    requires
        n >= 1,
    ensures
        rotr(x, n, 0) == x,
{
    lemma_pow2_128();
    assert(0nat % n == 0) by (nonlinear_arith)
        requires n >= 1;
    assert(x / 1 == x);
    assert(x % 1 == 0);
    assert(x / pow2(0) == x);
    assert((x % pow2(0)) * pow2(n) == 0);
}

/// A rotated `n`-bit value is an `n`-bit value.
pub proof fn lemma_rotr_bound(x: nat, n: nat, c: nat)
    requires
        n >= 1,
        x < pow2(n),
    ensures
        rotr(x, n, c) < pow2(n),
{
    let k = c % n;
    lemma_div_pow2_fits(x, n, k);
    lemma_pow2_pos(k);
    lemma_pow2_adds((n - k) as nat, k);
    let a = x / pow2(k);
    let b = x % pow2(k);
    let p = pow2((n - k) as nat);
    let q = pow2(k);
    assert(a + b * p < p * q) by (nonlinear_arith)
        requires a < p, b < q, 0 <= b;
    assert(p * q == pow2(n));
}

/// Rotating right by one more bit is rotating the rotated value by one bit.
#[verifier::rlimit(40)]
pub proof fn lemma_rotr_step(x: nat, n: nat, c: nat)
    requires
        n >= 1,
        x < pow2(n),
    ensures
        rot1(rotr(x, n, c), n) == rotr(x, n, c + 1),
{
    let k = c % n;
    let q = c / n;
    lemma_fundamental_div_mod(c as int, n as int);
    let m = (n - k) as nat;
    let a = x / pow2(k);
    let b = x % pow2(k);
    lemma_pow2_pos(k);
    lemma_pow2_unfold(m);
    let t = b * pow2((m - 1) as nat);
    assert(b * pow2(m) == 2 * t) by (nonlinear_arith)
        requires pow2(m) == 2 * pow2((m - 1) as nat), t == b * pow2((m - 1) as nat);
    let y = rotr(x, n, c);
    assert(y == a + 2 * t);
    assert(y / 2 == a / 2 + t && y % 2 == a % 2);
    lemma_next_bit(x, k);
    if k + 1 < n {
        lemma_fundamental_div_mod_converse((c + 1) as int, n as int, q as int, (k + 1) as int);
        assert((c + 1) % n == k + 1);
        lemma_pow2_adds(k, (m - 1) as nat);
        assert(k + (m - 1) == n - 1);
        assert((b + (a % 2) * pow2(k)) * pow2((m - 1) as nat) == t + (a % 2) * pow2((n - 1) as nat))
            by (nonlinear_arith)
            requires
                t == b * pow2((m - 1) as nat),
                pow2(k) * pow2((m - 1) as nat) == pow2((n - 1) as nat);
    } else {
        assert(c + 1 == (q + 1) * n) by (nonlinear_arith)
            requires c == n * q + k, k + 1 == n;
        lemma_fundamental_div_mod_converse((c + 1) as int, n as int, (q + 1) as int, 0);
        assert((c + 1) % n == 0);
        assert(m == 1);
        lemma_pow2_128();
        assert(x / 1 == x);
        assert(x % 1 == 0);
        assert(rotr(x, n, c + 1) == x / pow2(0) + (x % pow2(0)) * pow2(n));
        assert(rotr(x, n, c + 1) == x);
        lemma_pow2_128();
        assert(t == b);
        lemma_div_pow2_fits(x, n, k);
        assert(a < 2);
        lemma_fundamental_div_mod(x as int, pow2(k) as int);
        assert(x == a * pow2(k) + b);
        assert(a * pow2(k) == (a % 2) * pow2((n - 1) as nat));
    }
}

/// Rotating left by `c` bits is rotating right by `n - c` bits.
pub proof fn lemma_rotl_is_rotr(x: nat, n: nat, c: nat)
    requires
        n >= 1,
        c <= n,
        x < pow2(n),
    ensures
        rotr(x, n, (n - c) as nat) == rotl(x, n, c),
{
    lemma_pow2_128();
    if c == 0 || c == n {
        assert(c % n == 0) by (nonlinear_arith)
            requires n >= 1, c == 0 || c == n;
        assert(((n - c) as nat) % n == 0) by (nonlinear_arith)
            requires n >= 1, c == 0 || c == n;
        lemma_rotr_zero(x, n);
        assert(rotr(x, n, (n - c) as nat) == rotr(x, n, 0));
        vstd::arithmetic::div_mod::lemma_small_mod(x, pow2(n));
        vstd::arithmetic::div_mod::lemma_basic_div(x as int, pow2(n) as int);
        assert(rotl(x, n, c) == (x % pow2(n)) * pow2(0) + x / pow2(n));
        assert(x * 1 == x);
    } else {
        vstd::arithmetic::div_mod::lemma_small_mod(c, n);
        vstd::arithmetic::div_mod::lemma_small_mod((n - c) as nat, n);
        let k2 = (n - c) as nat;
        assert(k2 % n == k2);
        assert((n - k2) as nat == c);
        assert(rotr(x, n, k2) == x / pow2(k2) + (x % pow2(k2)) * pow2(c));
        assert(rotl(x, n, c) == (x % pow2(k2)) * pow2(c) + x / pow2(k2));
    }
}

/// Rotations depend on the count modulo the width only.
pub proof fn lemma_rot_mod(x: nat, n: nat, c1: nat, c2: nat)
    requires
        c1 % n == c2 % n,
    ensures
        rotr(x, n, c1) == rotr(x, n, c2),
        rotl(x, n, c1) == rotl(x, n, c2),
{
}

/// Rotating right by `a` bits and then by `b` bits is rotating right by `a + b` bits.
pub proof fn lemma_rotr_add(x: nat, n: nat, a: nat, b: nat)
    requires
        n >= 1,
        x < pow2(n),
    ensures
        rotr(rotr(x, n, a), n, b) == rotr(x, n, a + b),
    decreases b,
{
    lemma_rotr_bound(x, n, a);
    if b == 0 {
        lemma_rotr_zero(rotr(x, n, a), n);
    } else {
        let b1 = (b - 1) as nat;
        lemma_rotr_add(x, n, a, b1);
        lemma_rotr_step(rotr(x, n, a), n, b1);
        lemma_rotr_step(x, n, a + b1);
        assert(a + b1 + 1 == a + b);
    }
}

/// Counts that differ by `n` rotate alike.
pub proof fn lemma_rotr_period(x: nat, n: nat, c: nat)
    requires
        n >= 1,
    ensures
        rotr(x, n, c + n) == rotr(x, n, c),
{
    vstd::arithmetic::div_mod::lemma_mod_add_multiples_vanish(c as int, n as int);
    lemma_rot_mod(x, n, c + n, c);
}

/// Rotating left by `c` bits undoes rotating right by `c` bits.
pub proof fn lemma_rotl_rotr(x: nat, n: nat, c: nat)
    requires
        n >= 1,
        x < pow2(n),
    ensures
        rotl(rotr(x, n, c), n, c) == x,
{
    let k = c % n;
    let y = rotr(x, n, c);
    lemma_rotr_bound(x, n, c);
    vstd::arithmetic::div_mod::lemma_mod_bound(c as int, n as int);
    vstd::arithmetic::div_mod::lemma_mod_twice(c as int, n as int);
    lemma_rot_mod(y, n, c, k);
    lemma_rotl_is_rotr(y, n, k);
    lemma_rotr_add(x, n, c, (n - k) as nat);
    lemma_fundamental_div_mod(c as int, n as int);
    let q = c / n;
    assert(c + (n - k) == (q + 1) * n) by (nonlinear_arith)
        requires c == n * q + k;
    vstd::arithmetic::div_mod::lemma_mod_multiples_basic((q + 1) as int, n as int);
    lemma_rot_mod(x, n, c + (n - k) as nat, 0);
    vstd::arithmetic::div_mod::lemma_small_mod(0, n);
    lemma_rotr_zero(x, n);
}

/// A bitwise operation on two bits.
pub open spec fn bit_fn(op: BitOp, a: nat, b: nat) -> nat {
    match op {
        BitOp::And => if a == 1 && b == 1 { 1 } else { 0 },
        BitOp::Or => if a == 1 || b == 1 { 1 } else { 0 },
        BitOp::Xor => if a != b { 1 } else { 0 },
    }
}

/// The `n`-bit value whose bit `i` is `op` applied to bit `i` of `x` and bit `i` of `y`.
pub open spec fn bitwise(op: BitOp, x: nat, y: nat, n: nat) -> nat
    decreases n,
{
    if n == 0 {
        0
    } else {
        bitwise(op, x, y, (n - 1) as nat) + bit_fn(op, (x / pow2((n - 1) as nat)) % 2, (y / pow2(
            (n - 1) as nat,
        )) % 2) * pow2((n - 1) as nat)
    }
}

pub proof fn lemma_bitwise_bound(op: BitOp, x: nat, y: nat, n: nat)
    ensures
        bitwise(op, x, y, n) < pow2(n),
    decreases n,
{
    lemma_pow2_128();
    if n > 0 {
        lemma_bitwise_bound(op, x, y, (n - 1) as nat);
        lemma_pow2_unfold(n);
        let b = bit_fn(op, (x / pow2((n - 1) as nat)) % 2, (y / pow2((n - 1) as nat)) % 2);
        assert(b * pow2((n - 1) as nat) <= pow2((n - 1) as nat)) by (nonlinear_arith)
            requires b <= 1;
    }
}

/// Bitwise operations do not care which operand comes first.
pub proof fn lemma_bit_fn_symmetric(op: BitOp, a: nat, b: nat)
    ensures
        bit_fn(op, a, b) == bit_fn(op, b, a),
{
}

/// The bitwise operation of Rust on two `u128` values.
pub open spec fn native(op: BitOp, x: u128, y: u128) -> u128 {
    match op {
        BitOp::And => x & y,
        BitOp::Or => x | y,
        BitOp::Xor => x ^ y,
    }
}

proof fn lemma_native_half(op: BitOp, a: u128, b: u128)
    ensures
        native(op, a, b) / 2 == native(op, a / 2, b / 2),
        native(op, a, b) % 2 == bit_fn(op, a as nat % 2, b as nat % 2),
{
    match op {
        BitOp::And => {
            assert((a & b) / 2 == (a / 2) & (b / 2)) by (bit_vector);
            assert((a & b) % 2 == if a % 2 == 1 && b % 2 == 1 { 1u128 } else { 0u128 }) by (bit_vector);
        },
        BitOp::Or => {
            assert((a | b) / 2 == (a / 2) | (b / 2)) by (bit_vector);
            assert((a | b) % 2 == if a % 2 == 1 || b % 2 == 1 { 1u128 } else { 0u128 }) by (bit_vector);
        },
        BitOp::Xor => {
            assert((a ^ b) / 2 == (a / 2) ^ (b / 2)) by (bit_vector);
            assert((a ^ b) % 2 == if a % 2 != b % 2 { 1u128 } else { 0u128 }) by (bit_vector);
        },
    }
}

/// Dropping the lowest `k` bits of a bitwise result is the bitwise result of the operands
/// without their lowest `k` bits.
#[verifier::rlimit(40)]
pub proof fn lemma_native_div(op: BitOp, x: u128, y: u128, k: nat)
    ensures
        native(op, x, y) as nat / pow2(k) == native(op, (x as nat / pow2(k)) as u128, (y as nat / pow2(k)) as u128) as nat,
        x as nat / pow2(k) <= x,
        y as nat / pow2(k) <= y,
    decreases k,
{
    lemma_pow2_128();
    lemma_pow2_pos(k);
    vstd::arithmetic::div_mod::lemma_div_is_ordered_by_denominator(x as int, 1, pow2(k) as int);
    vstd::arithmetic::div_mod::lemma_div_is_ordered_by_denominator(y as int, 1, pow2(k) as int);
    if k == 0 {
        assert(x as nat / 1 == x && y as nat / 1 == y && native(op, x, y) as nat / 1 == native(op, x, y));
    } else {
        let j = (k - 1) as nat;
        lemma_native_div(op, x, y, j);
        let a = (x as nat / pow2(j)) as u128;
        let b = (y as nat / pow2(j)) as u128;
        lemma_native_half(op, a, b);
        lemma_next_bit(x as nat, j);
        lemma_next_bit(y as nat, j);
        lemma_next_bit(native(op, x, y) as nat, j);
    }
}

/// Taken bit by bit, the bitwise operation of Rust gives `bitwise`.
pub proof fn lemma_bitwise_native(op: BitOp, x: u128, y: u128, n: nat)
    ensures
        bitwise(op, x as nat, y as nat, n) == native(op, x, y) as nat % pow2(n),
    decreases n,
{
    lemma_pow2_128();
    if n == 0 {
        assert(native(op, x, y) as nat % 1 == 0);
    } else {
        let k = (n - 1) as nat;
        lemma_bitwise_native(op, x, y, k);
        lemma_next_bit(native(op, x, y) as nat, k);
        lemma_native_div(op, x, y, k);
        lemma_native_half(op, (x as nat / pow2(k)) as u128, (y as nat / pow2(k)) as u128);
    }
}

/// Bitwise operations on `n`-bit values give `n`-bit values.
pub proof fn lemma_native_fits(op: BitOp, x: u128, y: u128, n: usize)
    requires
        fits(x, n),
        fits(y, n),
    ensures
        fits(native(op, x, y), n),
{
    lemma_pow2_pos(n as nat);
    lemma_native_div(op, x, y, n as nat);
    vstd::arithmetic::div_mod::lemma_basic_div(x as int, pow2(n as nat) as int);
    vstd::arithmetic::div_mod::lemma_basic_div(y as int, pow2(n as nat) as int);
    assert(native(op, 0, 0) == 0) by {
        assert(0u128 & 0u128 == 0u128) by (bit_vector);
        assert(0u128 | 0u128 == 0u128) by (bit_vector);
        assert(0u128 ^ 0u128 == 0u128) by (bit_vector);
    }
    let z = native(op, x, y) as nat;
    assert((x as nat / pow2(n as nat)) as u128 == 0u128);
    assert((y as nat / pow2(n as nat)) as u128 == 0u128);
    assert(z / pow2(n as nat) == 0);
    vstd::arithmetic::div_mod::lemma_fundamental_div_mod(z as int, pow2(n as nat) as int);
    vstd::arithmetic::div_mod::lemma_mod_pos_bound(z as int, pow2(n as nat) as int);
    assert(z == pow2(n as nat) * 0 + z % pow2(n as nat));
}

} // verus!
