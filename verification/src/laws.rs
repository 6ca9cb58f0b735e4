//! What the generated snippets compute on the stack machine of `vm`: each `law_*` says,
//! with `moves`, how the snippet of a generator changes the stack wherever it stands in a
//! program.
use vstd::prelude::*;
use vstd::arithmetic::power2::{pow2, lemma_pow2_unfold, lemma_pow2_pos, lemma_pow2_strictly_increases, lemma2_to64};
use vstd::arithmetic::div_mod::{lemma_fundamental_div_mod, lemma_fundamental_div_mod_converse};
use crate::program::{Word, Line, ln, word_text, text_of, line_text, lemma_text_of_append};
use crate::decimal::dec;
use crate::ops::{
    slb_size, slb_prog, top_exp, truncate_step, truncate_steps, truncate_prog, bit_not_prog, shl_prog,
    shr_prog, rtr_const_prog, rtr_var_helper_prog, rot_var_prog, mod1_prog, BitOp, bit_word,
    bit_op_step, bit_op_steps, bit_op_prog,
};
use crate::vm::{MODULUS, binary, is_plain, fits, flag, words_of};
use crate::moves::{
    moves, flat, stops_below, never_ends, lemma_stops_after, lemma_stops_before, lemma_while_needs_fuel,
    lemma_while_never_ends, lemma_moves_empty, lemma_moves_fuel, lemma_moves_append, lemma_moves_step,
    lemma_moves_push, lemma_moves_blank_after, lemma_words_of_append, lemma_step_push,
    lemma_step_blank, lemma_step_dup1, lemma_step_dup2, lemma_step_swap1, lemma_step_swap2,
    lemma_step_pick1, lemma_step_roll4, lemma_step_drop1, lemma_step_isodd, lemma_step_binary,
    lemma_moves_repeat, lemma_moves_while,
};
use crate::bits::{
    lemma_pow2_le, lemma_pow2_128, lemma_div_pow2_fits, lemma_next_bit, rotr, rotl, rot1,
    lemma_rotr_zero, lemma_rotr_bound, lemma_rotr_add, lemma_rotr_period, lemma_rotl_rotr, lemma_rotr_step, lemma_rotl_is_rotr, lemma_rot_mod, bit_fn,
    bitwise, lemma_bitwise_bound, lemma_bit_fn_symmetric, native, lemma_bitwise_native,
    lemma_native_fits,
};

verus! {

/// `separate_last_bit(n)` turns an `n`-bit value `x` (at least 4 bits wide) into `x % 2`
/// with `x / 2` on top of it.
#[verifier::rlimit(40)]
pub proof fn law_separate_last_bit(n: usize, r: Seq<u128>, x: u128)
    requires
        fits(x, slb_size(n)),
    ensures
        moves(words_of(slb_prog(n)), r.push(x), r.push(x % 2).push(x / 2), 0),
{
    let w0: Seq<Word> = Seq::empty();
    let s0 = r.push(x);
    lemma_moves_empty(s0);
    lemma_step_dup1(r, x);
    lemma_moves_push(w0, Word::Dup(1), s0, s0, r.push(x).push(x), 0);
    let w1 = w0.push(Word::Dup(1));
    lemma_step_isodd(r.push(x), x, slb_size(n));
    lemma_moves_push(w1, Word::IsOdd(slb_size(n)), s0, r.push(x).push(x), r.push(x).push(x % 2), 0);
    let w2 = w1.push(Word::IsOdd(slb_size(n)));
    lemma_step_swap1(r, x, x % 2);
    lemma_moves_push(w2, Word::Swap(1), s0, r.push(x).push(x % 2), r.push(x % 2).push(x), 0);
    let w3 = w2.push(Word::Swap(1));
    lemma_step_pick1(r, x % 2, x);
    lemma_moves_push(w3, Word::Pick(1), s0, r.push(x % 2).push(x), r.push(x % 2).push(x).push(x % 2), 0);
    let w4 = w3.push(Word::Pick(1));
    let d = (x - x % 2) as u128;
    lemma_step_binary(Word::Sub, r.push(x % 2), x, x % 2, d);
    lemma_moves_push(w4, Word::Sub, s0, r.push(x % 2).push(x).push(x % 2), r.push(x % 2).push(d), 0);
    let w5 = w4.push(Word::Sub);
    lemma_step_push(r.push(x % 2).push(d), 2);
    lemma_moves_push(w5, Word::Push(2), s0, r.push(x % 2).push(d), r.push(x % 2).push(d).push(2), 0);
    let w6 = w5.push(Word::Push(2));
    assert(d % 2 == 0 && d / 2 == x / 2);
    lemma_step_binary(Word::Div, r.push(x % 2), d, 2, x / 2);
    lemma_moves_push(w6, Word::Div, s0, r.push(x % 2).push(d).push(2), r.push(x % 2).push(x / 2), 0);
    let w7 = w6.push(Word::Div);
    lemma_step_blank(r.push(x % 2).push(x / 2));
    lemma_moves_push(w7, Word::Blank, s0, r.push(x % 2).push(x / 2), r.push(x % 2).push(x / 2), 0);
    let w8 = w7.push(Word::Blank);
    assert(words_of(slb_prog(n)) =~= w8);
}

/// The text of `separate_last_bit(n)` reads its operand at `max(n, 4)` bits: for `n` under
/// 4 it is the text for 4, and otherwise its second line is `isodd.n` (after the first
/// line `dup.1`, each line being a newline and four spaces before the word).
pub proof fn law_separate_last_bit_text(n: usize)
    ensures
        n < 4 ==> text_of(slb_prog(n)) == text_of(slb_prog(4)),
        n >= 4 ==> text_of(slb_prog(n)).subrange(15, 21 + dec(n as nat).len() as int)
            == seq!['i', 's', 'o', 'd', 'd', '.'] + dec(n as nat),
{
    if n >= 4 {
        let l0 = ln(4, Word::Dup(1));
        let l1 = ln(4, Word::IsOdd(n));
        let a = seq![l0, l1];
        let b = slb_prog(n).subrange(2, 8);
        assert(slb_prog(n) =~= a + b);
        lemma_text_of_append(a, b);
        assert(a.drop_last() =~= seq![l0]);
        assert(seq![l0].drop_last() =~= Seq::<Line>::empty());
        assert(text_of(Seq::<Line>::empty()) =~= Seq::<char>::empty());
        assert(seq![l0].last() == l0);
        assert(text_of(seq![l0]) == text_of(Seq::<Line>::empty()) + line_text(l0));
        assert(text_of(seq![l0]) =~= line_text(l0));
        assert(a.last() == l1);
        assert(text_of(a) =~= line_text(l0) + line_text(l1));
        let t0 = line_text(l0);
        let t1 = line_text(l1);
        let d = dec(n as nat);
        assert(dec(1) == seq!['1']);
        assert(t0.len() == 10);
        assert(t1 =~= seq!['\n', ' ', ' ', ' ', ' ', 'i', 's', 'o', 'd', 'd', '.'] + d);
        let t = text_of(slb_prog(n));
        assert(t =~= t0 + t1 + text_of(b));
        assert(t.subrange(15, 21 + d.len() as int) =~= seq!['i', 's', 'o', 'd', 'd', '.'] + d);
    } else {
        assert(slb_prog(n) == slb_prog(4));
    }
}

/// One step of `truncate`: with `h` (the bits not yet read) under `acc` (the `i` bits read
/// so far), bit `i` moves from `h` into `acc`.
#[verifier::rlimit(40)]
pub proof fn lemma_truncate_step(n: usize, i: nat, r: Seq<u128>, h: u128, acc: u128)
    requires
        i <= n,
        i < 128,
        fits(h, slb_size((n - i) as usize)),
        acc < pow2(i),
        acc + (h % 2) * pow2(i) < MODULUS,
    ensures
        acc + (h % 2) * pow2(i) <= u128::MAX,
        moves(words_of(truncate_step(n, i)), r.push(h).push(acc),
            r.push(h / 2).push((acc + (h % 2) * pow2(i)) as u128), 0),
{
    lemma_pow2_128();
    lemma_pow2_le(i, 127);
    lemma_pow2_unfold(i + 1);
    lemma_pow2_le(i + 1, 128);
    let pp = pow2(i) as u128;
    let b = h % 2;
    let acc2 = (acc + b * pow2(i)) as u128;
    assert(b * pow2(i) <= pow2(i)) by (nonlinear_arith)
        requires b <= 1;
    // swap.1, blank
    let a0: Seq<Word> = Seq::empty();
    let s0 = r.push(h).push(acc);
    lemma_moves_empty(s0);
    lemma_step_swap1(r, h, acc);
    lemma_moves_push(a0, Word::Swap(1), s0, s0, r.push(acc).push(h), 0);
    lemma_step_blank(r.push(acc).push(h));
    lemma_moves_push(a0.push(Word::Swap(1)), Word::Blank, s0, r.push(acc).push(h), r.push(acc).push(h), 0);
    let a2 = a0.push(Word::Swap(1)).push(Word::Blank);
    // separate_last_bit
    law_separate_last_bit((n - i) as usize, r.push(acc), h);
    let s1 = r.push(acc).push(b).push(h / 2);
    lemma_moves_append(a2, words_of(slb_prog((n - i) as usize)), s0, r.push(acc).push(h), s1, 0);
    // the rest
    let c0: Seq<Word> = Seq::empty();
    lemma_moves_empty(s1);
    lemma_step_push(s1, 0);
    lemma_moves_push(c0, Word::Push(0), s1, s1, s1.push(0), 0);
    let c1 = c0.push(Word::Push(0));
    lemma_step_swap2(r, acc, b, h / 2, 0);
    let s2 = r.push(h / 2).push(0).push(acc).push(b);
    lemma_moves_push(c1, Word::Swap(2), s1, s1.push(0), s2, 0);
    let c2 = c1.push(Word::Swap(2));
    lemma_step_push(s2, pp);
    lemma_moves_push(c2, Word::Push(pp), s1, s2, s2.push(pp), 0);
    let c3 = c2.push(Word::Push(pp));
    let prod = (b * pow2(i)) as u128;
    lemma_step_binary(Word::Mul, r.push(h / 2).push(0).push(acc), b, pp, prod);
    let s3 = r.push(h / 2).push(0).push(acc).push(prod);
    lemma_moves_push(c3, Word::Mul, s1, s2.push(pp), s3, 0);
    let c4 = c3.push(Word::Mul);
    lemma_step_binary(Word::Add, r.push(h / 2).push(0), acc, prod, acc2);
    let s4 = r.push(h / 2).push(0).push(acc2);
    lemma_moves_push(c4, Word::Add, s1, s3, s4, 0);
    let c5 = c4.push(Word::Add);
    lemma_step_swap1(r.push(h / 2), 0, acc2);
    let s5 = r.push(h / 2).push(acc2).push(0);
    lemma_moves_push(c5, Word::Swap(1), s1, s4, s5, 0);
    let c6 = c5.push(Word::Swap(1));
    lemma_step_drop1(r.push(h / 2).push(acc2), 0);
    let s6 = r.push(h / 2).push(acc2);
    lemma_moves_push(c6, Word::Drop(1), s1, s5, s6, 0);
    let c7 = c6.push(Word::Drop(1));
    lemma_step_blank(s6);
    lemma_moves_push(c7, Word::Blank, s1, s6, s6, 0);
    let c8 = c7.push(Word::Blank);
    lemma_moves_append(a2 + words_of(slb_prog((n - i) as usize)), c8, s0, s1, s6, 0);
    let tail = seq![
        ln(4, Word::Push(0)),
        ln(4, Word::Swap(2)),
        ln(4, Word::Push(pow2(i) as u128)),
        ln(4, Word::Mul),
        ln(4, Word::Add),
        ln(4, Word::Swap(1)),
        ln(4, Word::Drop(1)),
        ln(4, Word::Blank),
    ];
    let head = seq![ln(4, Word::Swap(1)), ln(4, Word::Blank)];
    assert(truncate_step(n, i) == head + slb_prog((n - i) as usize) + tail);
    lemma_words_of_append(head, slb_prog((n - i) as usize));
    lemma_words_of_append(head + slb_prog((n - i) as usize), tail);
    assert(words_of(head) =~= a2);
    assert(words_of(tail) =~= c8);
}

/// The first `c` steps of `truncate` turn `x` under the empty accumulator into
/// `x / 2^c` under `x % 2^c`.
pub proof fn lemma_truncate_steps(n: usize, c: nat, r: Seq<u128>, x: u128)
    requires
        c <= n + 1,
        c <= 128,
        fits(x, slb_size(n)),
        c < 128 || x < MODULUS,
    ensures
        moves(words_of(truncate_steps(n, c)), r.push(x).push(0),
            r.push((x as nat / pow2(c)) as u128).push((x as nat % pow2(c)) as u128), 0),
    decreases c,
{
    lemma_pow2_128();
    if c == 0 {
        lemma_moves_empty(r.push(x).push(0));
        assert(words_of(truncate_steps(n, 0)) =~= Seq::<Word>::empty());
    } else {
        let i = (c - 1) as nat;
        lemma_truncate_steps(n, i, r, x);
        lemma_pow2_pos(i);
        let h = (x as nat / pow2(i)) as u128;
        let acc = (x as nat % pow2(i)) as u128;
        lemma_next_bit(x as nat, i);
        lemma_div_pow2_fits(x as nat, slb_size(n) as nat, i);
        lemma_pow2_le((slb_size(n) - i) as nat, slb_size((n - i) as usize) as nat);
        assert(x as nat / pow2(i) <= x) by {
            vstd::arithmetic::div_mod::lemma_div_is_ordered_by_denominator(x as int, 1, pow2(i) as int);
        }
        assert(h as nat == x as nat / pow2(i));
        lemma_pow2_le(i, 127);
        assert(acc as nat == x as nat % pow2(i));
        assert(acc + (h % 2) * pow2(i) < MODULUS) by {
            lemma_pow2_pos(c);
            vstd::arithmetic::div_mod::lemma_mod_bound(x as int, pow2(c) as int);
            vstd::arithmetic::div_mod::lemma_mod_decreases(x as nat, pow2(c));
            if c < 128 {
                lemma_pow2_le(c, 127);
            }
            assert(pow2(i + 1) == pow2(c));
        }
        lemma_truncate_step(n, i, r, h, acc);
        assert(pow2(i + 1) == pow2(c));
        assert((h / 2) as nat == x as nat / pow2(c));
        assert((acc + (h % 2) * pow2(i)) as nat == x as nat % pow2(c));
        lemma_moves_append(words_of(truncate_steps(n, i)), words_of(truncate_step(n, i)),
            r.push(x).push(0), r.push(h).push(acc), r.push(h / 2).push((acc + (h % 2) * pow2(i)) as u128), 0);
        lemma_words_of_append(truncate_steps(n, i), truncate_step(n, i));
        assert(i + 1 == c);
    }
}

/// The snippet of `truncate(n, count)` replaces the value on top of the stack (of `n`
/// bits, or of 4 bits where `n` is smaller) by its lowest `count` bits.
#[verifier::rlimit(40)]
pub proof fn law_truncate(n: usize, count: usize, r: Seq<u128>, x: u128)
    requires
        count <= n + 1,
        count <= 128,
        fits(x, slb_size(n)),
        count < 128 || x < MODULUS,
    ensures
        moves(words_of(truncate_prog(n, count)), r.push(x), r.push((x as nat % pow2(count as nat)) as u128), 0),
{
    lemma_pow2_128();
    let c = count as nat;
    lemma_pow2_pos(c);
    let h = (x as nat / pow2(c)) as u128;
    let acc = (x as nat % pow2(c)) as u128;
    let a0: Seq<Word> = Seq::empty();
    let s0 = r.push(x);
    lemma_moves_empty(s0);
    lemma_step_push(s0, 0);
    lemma_moves_push(a0, Word::Push(0), s0, s0, s0.push(0), 0);
    lemma_step_blank(s0.push(0));
    lemma_moves_push(a0.push(Word::Push(0)), Word::Blank, s0, s0.push(0), s0.push(0), 0);
    let a2 = a0.push(Word::Push(0)).push(Word::Blank);
    lemma_truncate_steps(n, c, r, x);
    lemma_moves_append(a2, words_of(truncate_steps(n, c)), s0, s0.push(0), r.push(h).push(acc), 0);
    let s1 = r.push(h).push(acc);
    let b0: Seq<Word> = Seq::empty();
    lemma_moves_empty(s1);
    lemma_step_swap1(r, h, acc);
    lemma_moves_push(b0, Word::Swap(1), s1, s1, r.push(acc).push(h), 0);
    lemma_step_drop1(r.push(acc), h);
    lemma_moves_push(b0.push(Word::Swap(1)), Word::Drop(1), s1, r.push(acc).push(h), r.push(acc), 0);
    lemma_step_blank(r.push(acc));
    lemma_moves_push(b0.push(Word::Swap(1)).push(Word::Drop(1)), Word::Blank, s1, r.push(acc), r.push(acc), 0);
    let b3 = b0.push(Word::Swap(1)).push(Word::Drop(1)).push(Word::Blank);
    lemma_moves_append(a2 + words_of(truncate_steps(n, c)), b3, s0, s1, r.push(acc), 0);
    let head = seq![ln(4, Word::Push(0)), ln(4, Word::Blank)];
    let tail = seq![ln(4, Word::Swap(1)), ln(4, Word::Drop(1)), ln(4, Word::Blank)];
    lemma_words_of_append(head, truncate_steps(n, c));
    lemma_words_of_append(head + truncate_steps(n, c), tail);
    assert(words_of(head) =~= a2);
    assert(words_of(tail) =~= b3);
}

/// Truncating twice is truncating once: `truncate(n, count)` twice over moves a value the
/// machine can hold (a field element) as `truncate(n, count)` once does.
pub proof fn law_truncate_twice(n: usize, count: usize, r: Seq<u128>, x: u128)
    requires
        count <= n + 1,
        count <= 128,
        fits(x, slb_size(n)),
        x < MODULUS,
    ensures
        moves(words_of(truncate_prog(n, count)) + words_of(truncate_prog(n, count)), r.push(x),
            r.push((x as nat % pow2(count as nat)) as u128), 0),
{
    lemma_pow2_pos(count as nat);
    let t = x as nat % pow2(count as nat);
    vstd::arithmetic::div_mod::lemma_mod_decreases(x as nat, pow2(count as nat));
    law_truncate(n, count, r, x);
    law_truncate(n, count, r, t as u128);
    vstd::arithmetic::div_mod::lemma_mod_twice(x as int, pow2(count as nat) as int);
    lemma_moves_append(words_of(truncate_prog(n, count)), words_of(truncate_prog(n, count)), r.push(x),
        r.push(t as u128), r.push(t as u128), 0);
}

/// The snippet of `bit_not(n)` replaces the value `x` on top of the stack (of `n` bits, or
/// of 4 bits where `n` is smaller) by `2^n - 1 - (x % 2^n)`: its lowest `n` bits, each
/// flipped.
#[verifier::rlimit(40)]
pub proof fn law_bit_not(n: usize, r: Seq<u128>, x: u128)
    requires
        n < 128,
        fits(x, slb_size(n)),
    ensures
        moves(words_of(bit_not_prog(n)), r.push(x),
            r.push((pow2(n as nat) - 1 - x as nat % pow2(n as nat)) as u128), 0),
{
    lemma_pow2_128();
    lemma_pow2_le(n as nat, 127);
    lemma_pow2_pos(n as nat);
    let m = (pow2(n as nat) - 1) as u128;
    let s0 = r.push(x);
    let a0: Seq<Word> = Seq::empty();
    lemma_moves_empty(s0);
    lemma_step_blank(s0);
    lemma_moves_push(a0, Word::Blank, s0, s0, s0, 0);
    let a1 = a0.push(Word::Blank);
    law_truncate(n, n, r, x);
    let t = (x as nat % pow2(n as nat)) as u128;
    let s1 = r.push(t);
    lemma_moves_append(a1, words_of(truncate_prog(n, n)), s0, s0, s1, 0);
    let b0: Seq<Word> = Seq::empty();
    lemma_moves_empty(s1);
    lemma_step_push(s1, m);
    lemma_moves_push(b0, Word::Push(m), s1, s1, s1.push(m), 0);
    lemma_step_swap1(r, t, m);
    lemma_moves_push(b0.push(Word::Push(m)), Word::Swap(1), s1, s1.push(m), r.push(m).push(t), 0);
    let d = (m - t) as u128;
    lemma_step_binary(Word::Sub, r, m, t, d);
    lemma_moves_push(b0.push(Word::Push(m)).push(Word::Swap(1)), Word::Sub, s1, r.push(m).push(t), r.push(d), 0);
    lemma_step_blank(r.push(d));
    let b3 = b0.push(Word::Push(m)).push(Word::Swap(1)).push(Word::Sub);
    lemma_moves_push(b3, Word::Blank, s1, r.push(d), r.push(d), 0);
    let b4 = b3.push(Word::Blank);
    lemma_moves_append(a1 + words_of(truncate_prog(n, n)), b4, s0, s1, r.push(d), 0);
    let head = seq![ln(4, Word::Blank)];
    let tail = seq![
        ln(4, Word::Push((pow2(n as nat) - 1) as u128)),
        ln(4, Word::Swap(1)),
        ln(4, Word::Sub),
        ln(4, Word::Blank),
    ];
    lemma_words_of_append(head, truncate_prog(n, n));
    lemma_words_of_append(head + truncate_prog(n, n), tail);
    assert(words_of(head) =~= a1);
    assert(words_of(tail) =~= b4);
}

proof fn lemma_double(r: Seq<u128>, v: u128)
    requires
        v * 2 < MODULUS,
    ensures
        moves(seq![Word::Push(2), Word::Mul], r.push(v), r.push((v * 2) as u128), 0),
{
    let a0: Seq<Word> = Seq::empty();
    lemma_moves_empty(r.push(v));
    lemma_step_push(r.push(v), 2);
    lemma_moves_push(a0, Word::Push(2), r.push(v), r.push(v), r.push(v).push(2), 0);
    lemma_step_binary(Word::Mul, r, v, 2, (v * 2) as u128);
    lemma_moves_push(a0.push(Word::Push(2)), Word::Mul, r.push(v), r.push(v).push(2), r.push((v * 2) as u128), 0);
    assert(a0.push(Word::Push(2)).push(Word::Mul) =~= seq![Word::Push(2), Word::Mul]);
}

/// The snippet of `shl(n, count)` multiplies the value on top of the stack by `2^count`
/// (when the product is a field element).
pub proof fn law_shl(n: usize, count: usize, r: Seq<u128>, x: u128)
    requires
        x * pow2(count as nat) < MODULUS,
    ensures
        moves(words_of(shl_prog(count)), r.push(x), r.push((x * pow2(count as nat)) as u128), 0),
{
    lemma_pow2_128();
    let c = count as nat;
    if count == 1 {
        lemma_double(r, x);
        lemma_moves_blank_after(seq![Word::Push(2), Word::Mul], r.push(x), r.push((x * 2) as u128), 0);
        assert(words_of(shl_prog(count)) =~= seq![Word::Push(2), Word::Mul].push(Word::Blank));
    } else {
        let body = seq![Word::Push(2), Word::Mul];
        let states = |i: nat| r.push((x * pow2(i)) as u128);
        assert forall|i: nat| i < count implies #[trigger] moves(body, states(i), states(i + 1), 0) by {
            lemma_pow2_unfold(i + 1);
            lemma_pow2_le(i + 1, c);
            assert(x * pow2(i + 1) <= x * pow2(c)) by (nonlinear_arith)
                requires pow2(i + 1) <= pow2(c);
            assert(x * pow2(i + 1) == 2 * (x * pow2(i))) by (nonlinear_arith)
                requires pow2(i + 1) == 2 * pow2(i);
            let v = (x * pow2(i)) as u128;
            assert(v == x * pow2(i));
            lemma_double(r, v);
            assert(states(i + 1) == r.push((v * 2) as u128));
        }
        assert(flat(body));
        lemma_moves_repeat(body, count, states, 0);
        assert(states(0) == r.push(x));
        let f = seq![Word::Repeat(count)] + body + seq![Word::End];
        lemma_moves_blank_after(f, states(0), states(c), 0);
        assert(words_of(shl_prog(count)) =~= f.push(Word::Blank));
    }
}

proof fn lemma_halve(n: usize, r: Seq<u128>, v: u128)
    requires
        fits(v, slb_size(n)),
    ensures
        moves(words_of(slb_prog(n)) + seq![Word::Swap(1), Word::Drop(1)], r.push(v), r.push(v / 2), 0),
{
    law_separate_last_bit(n, r, v);
    let s1 = r.push(v % 2).push(v / 2);
    let a0: Seq<Word> = Seq::empty();
    lemma_moves_empty(s1);
    lemma_step_swap1(r, v % 2, v / 2);
    lemma_moves_push(a0, Word::Swap(1), s1, s1, r.push(v / 2).push(v % 2), 0);
    lemma_step_drop1(r.push(v / 2), v % 2);
    lemma_moves_push(a0.push(Word::Swap(1)), Word::Drop(1), s1, r.push(v / 2).push(v % 2), r.push(v / 2), 0);
    assert(a0.push(Word::Swap(1)).push(Word::Drop(1)) =~= seq![Word::Swap(1), Word::Drop(1)]);
    lemma_moves_append(words_of(slb_prog(n)), seq![Word::Swap(1), Word::Drop(1)], r.push(v), s1, r.push(v / 2), 0);
}

/// The snippet of `shr(n, count)` divides the value on top of the stack (of `n` bits, or of
/// 4 bits where `n` is smaller) by `2^count`, dropping the lowest `count` bits.
#[verifier::rlimit(40)]
pub proof fn law_shr(n: usize, count: usize, r: Seq<u128>, x: u128)
    requires
        fits(x, slb_size(n)),
    ensures
        moves(words_of(shr_prog(n, count)), r.push(x), r.push((x as nat / pow2(count as nat)) as u128), 0),
{
    lemma_pow2_128();
    lemma_pow2_le(n as nat, slb_size(n) as nat);
    let c = count as nat;
    let body = words_of(slb_prog(n)) + seq![Word::Swap(1), Word::Drop(1)];
    if count == 1 {
        lemma_halve(n, r, x);
        let f = seq![Word::Blank] + body;
        lemma_step_blank(r.push(x));
        lemma_moves_step(Word::Blank, r.push(x), r.push(x));
        lemma_moves_append(seq![Word::Blank], body, r.push(x), r.push(x), r.push(x / 2), 0);
        lemma_moves_blank_after(f, r.push(x), r.push(x / 2), 0);
        let head = seq![ln(4, Word::Blank)];
        let tail = seq![ln(4, Word::Swap(1)), ln(4, Word::Drop(1)), ln(4, Word::Blank)];
        lemma_words_of_append(head, slb_prog(n));
        lemma_words_of_append(head + slb_prog(n), tail);
        assert(words_of(head) =~= seq![Word::Blank]);
        assert(words_of(tail) =~= seq![Word::Swap(1), Word::Drop(1), Word::Blank]);
        assert(shr_prog(n, count) == head + slb_prog(n) + tail);
        assert(words_of(shr_prog(n, count)) =~= f.push(Word::Blank));
    } else {
        let half = body;
        let body = seq![Word::Blank] + half;
        let states = |i: nat| r.push((x as nat / pow2(i)) as u128);
        assert forall|i: nat| i < count implies #[trigger] moves(body, states(i), states(i + 1), 0) by {
            lemma_pow2_pos(i);
            let v = (x as nat / pow2(i)) as u128;
            assert(x as nat / pow2(i) <= x) by {
                vstd::arithmetic::div_mod::lemma_div_is_ordered_by_denominator(x as int, 1, pow2(i) as int);
            }
            lemma_halve(n, r, v);
            lemma_step_blank(r.push(v));
            lemma_moves_step(Word::Blank, r.push(v), r.push(v));
            lemma_moves_append(seq![Word::Blank], half, r.push(v), r.push(v), r.push(v / 2), 0);
            lemma_next_bit(x as nat, i);
        }
        assert(flat(body)) by {
            assert forall|i: int| 0 <= i < body.len() implies is_plain(#[trigger] body[i]) by {
                if 1 <= i < 9 {
                    assert(body[i] == slb_prog(n)[i - 1].word);
                }
            }
        }
        lemma_moves_repeat(body, count, states, 0);
        lemma_pow2_unfold(1);
        assert(states(0) == r.push(x));
        let f = seq![Word::Repeat(count)] + body + seq![Word::End];
        lemma_moves_blank_after(f, states(0), states(c), 0);
        let head = seq![ln(4, Word::Repeat(count)), ln(8, Word::Blank)];
        let tail = seq![ln(8, Word::Swap(1)), ln(8, Word::Drop(1)), ln(4, Word::End), ln(4, Word::Blank)];
        lemma_words_of_append(head, slb_prog(n));
        lemma_words_of_append(head + slb_prog(n), tail);
        assert(words_of(head) =~= seq![Word::Repeat(count), Word::Blank]);
        assert(f == seq![Word::Repeat(count), Word::Blank] + words_of(slb_prog(n)) + seq![Word::Swap(1), Word::Drop(1), Word::End]);
        assert(words_of(tail) =~= seq![Word::Swap(1), Word::Drop(1), Word::End, Word::Blank]);
        assert(shr_prog(n, count) == head + slb_prog(n) + tail);
        assert(words_of(shr_prog(n, count)) =~= f.push(Word::Blank));
    }
}

#[verifier::rlimit(40)]
proof fn lemma_rot1_body(n: usize, r: Seq<u128>, v: u128)
    requires
        1 <= n <= 128,
        fits(v, n),
        n < 128 || rot1(v as nat, n as nat) < MODULUS,
    ensures
        rot1(v as nat, n as nat) <= u128::MAX,
        moves(words_of(slb_prog(n)) + seq![Word::Swap(1), Word::Push(pow2((n - 1) as nat) as u128), Word::Mul, Word::Add],
            r.push(v), r.push(rot1(v as nat, n as nat) as u128), 0),
{
    lemma_pow2_128();
    lemma_pow2_le(n as nat, slb_size(n) as nat);
    lemma_pow2_le((n - 1) as nat, 127);
    lemma_pow2_unfold(n as nat);
    let pp = pow2((n - 1) as nat) as u128;
    law_separate_last_bit(n, r, v);
    let s1 = r.push(v % 2).push(v / 2);
    let b = v % 2;
    let h = v / 2;
    assert(h < pow2((n - 1) as nat));
    let prod = (b * pow2((n - 1) as nat)) as u128;
    assert(b * pow2((n - 1) as nat) <= pow2((n - 1) as nat)) by (nonlinear_arith)
        requires b <= 1;
    let sum = (h + b * pow2((n - 1) as nat)) as u128;
    assert(h + b * pow2((n - 1) as nat) == rot1(v as nat, n as nat));
    if n < 128 {
        lemma_pow2_le(n as nat, 127);
    }
    let a0: Seq<Word> = Seq::empty();
    lemma_moves_empty(s1);
    lemma_step_swap1(r, b, h);
    lemma_moves_push(a0, Word::Swap(1), s1, s1, r.push(h).push(b), 0);
    let a1 = a0.push(Word::Swap(1));
    lemma_step_push(r.push(h).push(b), pp);
    lemma_moves_push(a1, Word::Push(pp), s1, r.push(h).push(b), r.push(h).push(b).push(pp), 0);
    let a2 = a1.push(Word::Push(pp));
    lemma_step_binary(Word::Mul, r.push(h), b, pp, prod);
    lemma_moves_push(a2, Word::Mul, s1, r.push(h).push(b).push(pp), r.push(h).push(prod), 0);
    let a3 = a2.push(Word::Mul);
    lemma_step_binary(Word::Add, r, h, prod, sum);
    lemma_moves_push(a3, Word::Add, s1, r.push(h).push(prod), r.push(sum), 0);
    let a4 = a3.push(Word::Add);
    assert(a4 =~= seq![Word::Swap(1), Word::Push(pp), Word::Mul, Word::Add]);
    lemma_moves_append(words_of(slb_prog(n)), a4, r.push(v), s1, r.push(sum), 0);
}

/// Every rotation of the `n`-bit `x` right by at most `c` bits is a field element (always
/// so below 128 bits).
pub open spec fn rotations_in_field(x: nat, n: nat, c: nat) -> bool {
    n < 128 || forall|i: nat| i <= c ==> #[trigger] rotr(x, n, i) < MODULUS
}

/// One round of the rotation: a blank line, then the one-bit rotation.
pub open spec fn rot_round(n: usize) -> Seq<Word> {
    seq![Word::Blank] + words_of(slb_prog(n)) + seq![
        Word::Swap(1),
        Word::Push(pow2((n - 1) as nat) as u128),
        Word::Mul,
        Word::Add,
    ]
}

#[verifier::rlimit(40)]
proof fn lemma_rot_round(n: usize, r: Seq<u128>, x: u128, i: nat)
    requires
        1 <= n <= 128,
        fits(x, n),
        n < 128 || rotr(x as nat, n as nat, i + 1) < MODULUS,
    ensures
        rotr(x as nat, n as nat, i) < pow2(n as nat),
        moves(rot_round(n), r.push(rotr(x as nat, n as nat, i) as u128),
            r.push(rotr(x as nat, n as nat, i + 1) as u128), 0),
{
    lemma_pow2_128();
    lemma_pow2_le(n as nat, 128);
    lemma_rotr_bound(x as nat, n as nat, i);
    lemma_rotr_bound(x as nat, n as nat, i + 1);
    let pp = pow2((n - 1) as nat) as u128;
    let body1 = words_of(slb_prog(n)) + seq![Word::Swap(1), Word::Push(pp), Word::Mul, Word::Add];
    let v = rotr(x as nat, n as nat, i) as u128;
    lemma_rotr_step(x as nat, n as nat, i);
    lemma_rot1_body(n, r, v);
    lemma_step_blank(r.push(v));
    lemma_moves_step(Word::Blank, r.push(v), r.push(v));
    lemma_moves_append(seq![Word::Blank], body1, r.push(v), r.push(v), r.push(rotr(x as nat, n as nat, i + 1) as u128), 0);
    assert(rot_round(n) =~= seq![Word::Blank] + body1);
}

proof fn lemma_rot_round_flat(n: usize)
    ensures
        flat(rot_round(n)),
{
    let body = rot_round(n);
    assert forall|i: int| 0 <= i < body.len() implies is_plain(#[trigger] body[i]) by {
        if 1 <= i < 9 {
            assert(body[i] == slb_prog(n)[i - 1].word);
        }
    }
}

proof fn lemma_rtr_const_words(n: usize, count: usize)
    requires
        1 <= n <= 128,
    ensures
        count == 1 ==> words_of(rtr_const_prog(n, count)) == rot_round(n).push(Word::Blank),
        count != 1 ==> words_of(rtr_const_prog(n, count)) == (seq![Word::Repeat(count)] + rot_round(n)
            + seq![Word::End]).push(Word::Blank),
{
    vstd::arithmetic::div_mod::lemma_small_mod((n - 1) as nat, 0x1_0000_0000);
    assert(top_exp(n) == n - 1);
    let pp = pow2((n - 1) as nat) as u128;
    if count == 1 {
        let head = seq![ln(4, Word::Blank)];
        let tail = seq![ln(4, Word::Swap(1)), ln(4, Word::Push(pp)), ln(4, Word::Mul), ln(4, Word::Add), ln(4, Word::Blank)];
        assert(rtr_const_prog(n, count) == head + slb_prog(n) + tail);
        lemma_words_of_append(head, slb_prog(n));
        lemma_words_of_append(head + slb_prog(n), tail);
        assert(words_of(head) =~= seq![Word::Blank]);
        assert(words_of(tail) =~= seq![Word::Swap(1), Word::Push(pp), Word::Mul, Word::Add, Word::Blank]);
        assert(words_of(rtr_const_prog(n, count)) =~= rot_round(n).push(Word::Blank));
    } else {
        let head = seq![ln(4, Word::Repeat(count)), ln(8, Word::Blank)];
        let tail = seq![ln(8, Word::Swap(1)), ln(8, Word::Push(pp)), ln(8, Word::Mul), ln(8, Word::Add), ln(4, Word::End), ln(4, Word::Blank)];
        assert(rtr_const_prog(n, count) == head + slb_prog(n) + tail);
        lemma_words_of_append(head, slb_prog(n));
        lemma_words_of_append(head + slb_prog(n), tail);
        assert(words_of(head) =~= seq![Word::Repeat(count), Word::Blank]);
        assert(words_of(tail) =~= seq![Word::Swap(1), Word::Push(pp), Word::Mul, Word::Add, Word::End, Word::Blank]);
        assert(words_of(rtr_const_prog(n, count)) =~= (seq![Word::Repeat(count)] + rot_round(n)
            + seq![Word::End]).push(Word::Blank));
    }
}

/// The snippet of `rtr_const(n, count)` rotates the `n`-bit value on top of the stack right
/// by `count` bits (one bit at a time, so at 128 bits each step must stay in the field).
pub proof fn law_rtr_const(n: usize, count: usize, r: Seq<u128>, x: u128)
    requires
        1 <= n <= 128,
        fits(x, n),
        rotations_in_field(x as nat, n as nat, count as nat),
    ensures
        rotr(x as nat, n as nat, count as nat) <= u128::MAX,
        moves(words_of(rtr_const_prog(n, count)), r.push(x), r.push(rotr(x as nat, n as nat, count as nat) as u128), 0),
{
    lemma_pow2_128();
    lemma_pow2_le(n as nat, 128);
    lemma_rotr_bound(x as nat, n as nat, count as nat);
    let body = rot_round(n);
    let states = |i: nat| r.push(rotr(x as nat, n as nat, i) as u128);
    assert forall|i: nat| i < count implies #[trigger] moves(body, states(i), states(i + 1), 0) by {
        if n == 128 {
            assert(rotr(x as nat, n as nat, i + 1) < MODULUS);
        }
        lemma_rot_round(n, r, x, i);
    }
    lemma_rotr_zero(x as nat, n as nat);
    assert(states(0) == r.push(x));
    lemma_rtr_const_words(n, count);
    if count == 1 {
        assert(moves(body, states(0), states(1), 0));
        lemma_moves_blank_after(body, states(0), states(1), 0);
    } else {
        lemma_rot_round_flat(n);
        lemma_moves_repeat(body, count, states, 0);
        let f = seq![Word::Repeat(count)] + body + seq![Word::End];
        lemma_moves_blank_after(f, states(0), states(count as nat), 0);
    }
}

/// The snippet of `rtl_const(n, count)` rotates the `n`-bit value on top of the stack left
/// by `count` bits.
pub proof fn law_rtl_const(n: usize, count: usize, r: Seq<u128>, x: u128)
    requires
        1 <= n <= 128,
        count <= n,
        fits(x, n),
        rotations_in_field(x as nat, n as nat, (n - count) as nat),
    ensures
        rotl(x as nat, n as nat, count as nat) <= u128::MAX,
        moves(words_of(rtr_const_prog(n, (n - count) as usize)), r.push(x),
            r.push(rotl(x as nat, n as nat, count as nat) as u128), 0),
{
    law_rtr_const(n, (n - count) as usize, r, x);
    lemma_rotl_is_rotr(x as nat, n as nat, count as nat);
}

/// Constant rotations compose by adding their counts: `rtr_const(n, a)` followed by
/// `rtr_const(n, b)` moves the stack as `rtr_const(n, a + b)` does, to the value rotated
/// right by `a + b` bits.
pub proof fn law_rtr_const_compose(n: usize, a: usize, b: usize, r: Seq<u128>, x: u128)
    requires
        1 <= n <= 128,
        fits(x, n),
        a + b <= usize::MAX,
        rotations_in_field(x as nat, n as nat, (a + b) as nat),
    ensures
        moves(words_of(rtr_const_prog(n, a)) + words_of(rtr_const_prog(n, b)), r.push(x),
            r.push(rotr(x as nat, n as nat, (a + b) as nat) as u128), 0),
        moves(words_of(rtr_const_prog(n, (a + b) as usize)), r.push(x),
            r.push(rotr(x as nat, n as nat, (a + b) as nat) as u128), 0),
{
    lemma_pow2_128();
    lemma_pow2_le(n as nat, 128);
    law_rtr_const(n, a, r, x);
    let y = rotr(x as nat, n as nat, a as nat);
    lemma_rotr_bound(x as nat, n as nat, a as nat);
    assert forall|i: nat| i <= b implies #[trigger] rotr(y, n as nat, i) == rotr(x as nat, n as nat, (a + i) as nat) by {
        lemma_rotr_add(x as nat, n as nat, a as nat, i);
    }
    assert(rotations_in_field(y, n as nat, b as nat)) by {
        if n == 128 {
            assert forall|i: nat| i <= b implies #[trigger] rotr(y, n as nat, i) < MODULUS by {
                assert(rotr(y, n as nat, i) == rotr(x as nat, n as nat, (a + i) as nat));
                assert(rotr(x as nat, n as nat, (a + i) as nat) < MODULUS);
            }
        }
    }
    law_rtr_const(n, b, r, y as u128);
    lemma_rotr_add(x as nat, n as nat, a as nat, b as nat);
    lemma_moves_append(words_of(rtr_const_prog(n, a)), words_of(rtr_const_prog(n, b)), r.push(x),
        r.push(y as u128), r.push(rotr(x as nat, n as nat, (a + b) as nat) as u128), 0);
    law_rtr_const(n, (a + b) as usize, r, x);
}

/// Counts of constant rotations that differ by `n` move the stack alike:
/// `rtr_const(n, c + n)` rotates right by `c` bits.
pub proof fn law_rtr_const_period(n: usize, c: usize, r: Seq<u128>, x: u128)
    requires
        1 <= n <= 128,
        fits(x, n),
        c + n <= usize::MAX,
        rotations_in_field(x as nat, n as nat, (c + n) as nat),
    ensures
        moves(words_of(rtr_const_prog(n, (c + n) as usize)), r.push(x),
            r.push(rotr(x as nat, n as nat, c as nat) as u128), 0),
{
    law_rtr_const(n, (c + n) as usize, r, x);
    lemma_rotr_period(x as nat, n as nat, c as nat);
}

/// `rtl_const(n, c)` undoes `rtr_const(n, c)`: the two snippets one after the other leave
/// the stack as it was.
pub proof fn law_rtl_const_undoes_rtr_const(n: usize, c: usize, r: Seq<u128>, x: u128)
    requires
        1 <= n <= 128,
        c <= n,
        fits(x, n),
        rotations_in_field(x as nat, n as nat, n as nat),
    ensures
        moves(words_of(rtr_const_prog(n, c)) + words_of(rtr_const_prog(n, (n - c) as usize)), r.push(x), r.push(x), 0),
{
    law_rtr_const_compose(n, c, (n - c) as usize, r, x);
    lemma_rotr_period(x as nat, n as nat, 0);
    lemma_rotr_zero(x as nat, n as nat);
    assert((c + (n - c)) as nat == 0 + n);
}

/// One round of the loop of `rtr_var_helper`: rotates by one bit and counts down.
pub open spec fn var_round(n: usize) -> Seq<Word> {
    seq![Word::Swap(1), Word::Blank] + rot_round(n) + seq![
        Word::Blank,
        Word::Swap(1),
        Word::Push(1),
        Word::Sub,
        Word::Dup(1),
        Word::Push(0),
        Word::Lt(n),
    ]
}

/// The stack of `rtr_var_helper` after `i` rounds: the value rotated by `i` bits, the
/// rounds left, and whether any are left.
pub open spec fn var_state(r: Seq<u128>, x: u128, n: usize, c: u128, i: nat) -> Seq<u128> {
    r.push(rotr(x as nat, n as nat, i) as u128).push((c - i) as u128).push(flag(0 < c - i))
}

#[verifier::rlimit(40)]
proof fn lemma_var_round(n: usize, r: Seq<u128>, x: u128, c: u128, i: nat)
    requires
        1 <= n <= 128,
        fits(x, n),
        fits(c, n),
        i < c,
        rotations_in_field(x as nat, n as nat, c as nat),
    ensures
        moves(var_round(n), var_state(r, x, n, c, i).drop_last(), var_state(r, x, n, c, i + 1), 0),
{
    lemma_pow2_128();
    lemma_pow2_le(n as nat, 128);
    lemma_pow2_pos(n as nat);
    if n == 128 {
        assert(rotr(x as nat, n as nat, i + 1) < MODULUS);
    }
    lemma_rot_round(n, r, x, i);
    lemma_rotr_bound(x as nat, n as nat, i + 1);
    let xi = rotr(x as nat, n as nat, i) as u128;
    let xj = rotr(x as nat, n as nat, i + 1) as u128;
    let ci = (c - i) as u128;
    let cj = (c - i - 1) as u128;
    let s0 = r.push(xi).push(ci);
    assert(var_state(r, x, n, c, i).drop_last() == s0);
    // swap.1
    lemma_step_swap1(r, xi, ci);
    lemma_moves_step(Word::Swap(1), s0, r.push(ci).push(xi));
    lemma_moves_blank_after(seq![Word::Swap(1)], s0, r.push(ci).push(xi), 0);
    assert(seq![Word::Swap(1)].push(Word::Blank) =~= seq![Word::Swap(1), Word::Blank]);
    // one-bit rotation
    lemma_rot_round(n, r.push(ci), x, i);
    lemma_moves_append(seq![Word::Swap(1), Word::Blank], rot_round(n), s0, r.push(ci).push(xi), r.push(ci).push(xj), 0);
    let f1 = seq![Word::Swap(1), Word::Blank] + rot_round(n);
    let s1 = r.push(ci).push(xj);
    lemma_step_blank(s1);
    lemma_moves_push(f1, Word::Blank, s0, s1, s1, 0);
    let f2 = f1.push(Word::Blank);
    lemma_step_swap1(r, ci, xj);
    let s2 = r.push(xj).push(ci);
    lemma_moves_push(f2, Word::Swap(1), s0, s1, s2, 0);
    let f3 = f2.push(Word::Swap(1));
    lemma_step_push(s2, 1);
    lemma_moves_push(f3, Word::Push(1), s0, s2, s2.push(1), 0);
    let f4 = f3.push(Word::Push(1));
    lemma_step_binary(Word::Sub, r.push(xj), ci, 1, cj);
    let s3 = r.push(xj).push(cj);
    lemma_moves_push(f4, Word::Sub, s0, s2.push(1), s3, 0);
    let f5 = f4.push(Word::Sub);
    lemma_step_dup1(r.push(xj), cj);
    lemma_moves_push(f5, Word::Dup(1), s0, s3, s3.push(cj), 0);
    let f6 = f5.push(Word::Dup(1));
    lemma_step_push(s3.push(cj), 0);
    lemma_moves_push(f6, Word::Push(0), s0, s3.push(cj), s3.push(cj).push(0), 0);
    let f7 = f6.push(Word::Push(0));
    assert(fits(0, n) && fits(cj, n));
    lemma_step_binary(Word::Lt(n), s3, cj, 0, flag(0 < cj));
    lemma_moves_push(f7, Word::Lt(n), s0, s3.push(cj).push(0), s3.push(flag(0 < cj)), 0);
    let f8 = f7.push(Word::Lt(n));
    assert(f8 =~= var_round(n));
    assert(var_state(r, x, n, c, i + 1) == s3.push(flag(0 < cj)));
}

/// The snippet of `rtr_var_helper(n)` rotates the `n`-bit value under the count `c` on top
/// of the stack right by `c` bits, one bit per round of its loop: it takes exactly `c`
/// rounds, so `c` fuel and no less (at 128 bits each step must stay in the field).
#[verifier::rlimit(40)]
pub proof fn law_rtr_var_helper(n: usize, r: Seq<u128>, x: u128, c: u128)
    requires
        1 <= n <= 128,
        fits(x, n),
        fits(c, n),
        rotations_in_field(x as nat, n as nat, c as nat),
    ensures
        rotr(x as nat, n as nat, c as nat) <= u128::MAX,
        moves(words_of(rtr_var_helper_prog(n)), r.push(x).push(c),
            r.push(rotr(x as nat, n as nat, c as nat) as u128), c as nat),
        stops_below(words_of(rtr_var_helper_prog(n)), r.push(x).push(c), c as nat),
{
    lemma_pow2_128();
    lemma_pow2_le(n as nat, 128);
    lemma_pow2_pos(n as nat);
    lemma_rotr_bound(x as nat, n as nat, c as nat);
    lemma_rotr_zero(x as nat, n as nat);
    let states = |i: nat| var_state(r, x, n, c, i);
    // before the loop
    let s0 = r.push(x).push(c);
    let a0: Seq<Word> = Seq::empty();
    lemma_moves_empty(s0);
    lemma_step_dup1(r.push(x), c);
    lemma_moves_push(a0, Word::Dup(1), s0, s0, s0.push(c), 0);
    lemma_step_push(s0.push(c), 0);
    lemma_moves_push(a0.push(Word::Dup(1)), Word::Push(0), s0, s0.push(c), s0.push(c).push(0), 0);
    assert(fits(0, n));
    lemma_step_binary(Word::Lt(n), s0, c, 0, flag(0 < c));
    let a2 = a0.push(Word::Dup(1)).push(Word::Push(0));
    lemma_moves_push(a2, Word::Lt(n), s0, s0.push(c).push(0), s0.push(flag(0 < c)), 0);
    let a3 = a2.push(Word::Lt(n));
    assert(states(0) == s0.push(flag(0 < c)));
    lemma_moves_fuel(a3, s0, states(0), 0, c as nat);
    // the loop
    let body = var_round(n);
    assert forall|i: nat| i <= c implies (#[trigger] states(i)).len() >= 1 by {}
    assert forall|i: nat| i < c implies (#[trigger] states(i)).last() == 1 by {}
    assert forall|i: nat| i < c implies #[trigger] moves(body, states(i).drop_last(), states(i + 1), 0) by {
        lemma_var_round(n, r, x, c, i);
    }
    assert(states(c as nat).last() == 0);
    assert(flat(body)) by {
        lemma_rot_round_flat(n);
        assert forall|i: int| 0 <= i < body.len() implies is_plain(#[trigger] body[i]) by {
            if 2 <= i < 2 + rot_round(n).len() {
                assert(body[i] == rot_round(n)[i - 2]);
            }
        }
    }
    lemma_moves_while(body, c as nat, states);
    let lp = seq![Word::WhileTrue] + body + seq![Word::End];
    lemma_while_needs_fuel(body, c as nat, states);
    lemma_stops_after(a3, lp, s0, states(0), c as nat);
    lemma_stops_before(a3 + lp, seq![Word::Drop(1), Word::Blank], s0, c as nat);
    assert((a3 + lp) + seq![Word::Drop(1), Word::Blank] =~= (a3 + lp).push(Word::Drop(1)).push(Word::Blank));
    lemma_moves_append(a3, lp, s0, states(0), states(c as nat).drop_last(), c as nat);
    // after the loop
    let xc = rotr(x as nat, n as nat, c as nat) as u128;
    assert(states(c as nat).drop_last() == r.push(xc).push(0));
    lemma_step_drop1(r.push(xc), 0);
    lemma_moves_push(a3 + lp, Word::Drop(1), s0, r.push(xc).push(0), r.push(xc), c as nat);
    lemma_moves_blank_after((a3 + lp).push(Word::Drop(1)), s0, r.push(xc), c as nat);
    // the words
    let pp = pow2((n - 1) as nat) as u128;
    let head = seq![
        ln(4, Word::Dup(1)),
        ln(4, Word::Push(0)),
        ln(4, Word::Lt(n)),
        ln(4, Word::WhileTrue),
        ln(8, Word::Swap(1)),
        ln(8, Word::Blank),
    ];
    let tail = seq![
        ln(8, Word::Swap(1)),
        ln(8, Word::Push(1)),
        ln(8, Word::Sub),
        ln(8, Word::Dup(1)),
        ln(8, Word::Push(0)),
        ln(8, Word::Lt(n)),
        ln(4, Word::End),
        ln(4, Word::Drop(1)),
        ln(4, Word::Blank),
    ];
    assert(rtr_var_helper_prog(n) == head + rtr_const_prog(n, 1) + tail);
    lemma_words_of_append(head, rtr_const_prog(n, 1));
    lemma_words_of_append(head + rtr_const_prog(n, 1), tail);
    lemma_rtr_const_words(n, 1);
    assert(words_of(head) =~= seq![Word::Dup(1), Word::Push(0), Word::Lt(n), Word::WhileTrue, Word::Swap(1), Word::Blank]);
    assert(words_of(tail) =~= seq![Word::Swap(1), Word::Push(1), Word::Sub, Word::Dup(1), Word::Push(0), Word::Lt(n),
        Word::End, Word::Drop(1), Word::Blank]);
    assert(words_of(rtr_var_helper_prog(n)) =~= (a3 + lp).push(Word::Drop(1)).push(Word::Blank));
}

/// The count that the variable rotations rotate right by: the lowest `bits` bits `c'` of
/// `c`, or `w - c'` for a left rotation.
pub open spec fn var_count(c: u128, bits: usize, turn: Option<u128>) -> nat {
    let k = c as nat % pow2(bits as nat);
    match turn {
        Some(w) => (w - k) as nat,
        None => k,
    }
}

/// The words between the truncation of the count and the rotation.
pub open spec fn turn_words(turn: Option<u128>) -> Seq<Word> {
    match turn {
        Some(w) => seq![Word::Push(w), Word::Swap(1), Word::Sub, Word::Blank],
        None => seq![Word::Blank],
    }
}

proof fn lemma_rot_var_words(n: usize, bits: usize, width: usize, turn: Option<u128>)
    ensures
        words_of(rot_var_prog(n, bits, width, turn)) == (seq![Word::Blank] + words_of(truncate_prog(n, bits))
            + turn_words(turn) + words_of(rtr_var_helper_prog(width))).push(Word::Blank),
{
    let head = seq![ln(4, Word::Blank)];
    let lmid = match turn {
        Some(w) => seq![ln(4, Word::Push(w)), ln(4, Word::Swap(1)), ln(4, Word::Sub), ln(4, Word::Blank)],
        None => seq![ln(4, Word::Blank)],
    };
    let ltail = seq![ln(4, Word::Blank)];
    let hp = rtr_var_helper_prog(width);
    assert(rot_var_prog(n, bits, width, turn) == head + truncate_prog(n, bits) + lmid + hp + ltail);
    lemma_words_of_append(head, truncate_prog(n, bits));
    lemma_words_of_append(head + truncate_prog(n, bits), lmid);
    lemma_words_of_append(head + truncate_prog(n, bits) + lmid, hp);
    lemma_words_of_append(head + truncate_prog(n, bits) + lmid + hp, ltail);
    assert(words_of(head) =~= seq![Word::Blank]);
    assert(words_of(lmid) =~= turn_words(turn));
    assert(words_of(ltail) =~= seq![Word::Blank]);
    assert(words_of(rot_var_prog(n, bits, width, turn)) =~= (seq![Word::Blank] + words_of(truncate_prog(n, bits))
        + turn_words(turn) + words_of(hp)).push(Word::Blank));
}

#[verifier::rlimit(40)]
proof fn lemma_turn(bits: usize, turn: Option<u128>, r: Seq<u128>, x: u128, c: u128)
    requires
        bits <= 31,
        turn matches Some(w) ==> w == pow2(bits as nat),
    ensures
        var_count(c, bits, turn) <= pow2(bits as nat),
        moves(turn_words(turn), r.push(x).push((c as nat % pow2(bits as nat)) as u128),
            r.push(x).push(var_count(c, bits, turn) as u128), 0),
{
    lemma_pow2_le(bits as nat, 31);
    lemma_pow2_le(bits as nat, 127);
    lemma_pow2_128();
    lemma_pow2_pos(bits as nat);
    let m = pow2(bits as nat);
    let k = (c as nat % m) as u128;
    let cnt = var_count(c, bits, turn);
    let s1 = r.push(x).push(k);
    let s2 = r.push(x).push(cnt as u128);
    match turn {
        Some(w) => {
            let a0: Seq<Word> = Seq::empty();
            lemma_moves_empty(s1);
            lemma_step_push(s1, w);
            lemma_moves_push(a0, Word::Push(w), s1, s1, s1.push(w), 0);
            lemma_step_swap1(r.push(x), k, w);
            lemma_moves_push(a0.push(Word::Push(w)), Word::Swap(1), s1, s1.push(w), r.push(x).push(w).push(k), 0);
            lemma_step_binary(Word::Sub, r.push(x), w, k, (w - k) as u128);
            lemma_moves_push(a0.push(Word::Push(w)).push(Word::Swap(1)), Word::Sub, s1, r.push(x).push(w).push(k), s2, 0);
            lemma_moves_blank_after(a0.push(Word::Push(w)).push(Word::Swap(1)).push(Word::Sub), s1, s2, 0);
            assert(a0.push(Word::Push(w)).push(Word::Swap(1)).push(Word::Sub).push(Word::Blank) =~= turn_words(turn));
        },
        None => {
            lemma_step_blank(s1);
            lemma_moves_step(Word::Blank, s1, s1);
        },
    }
}

/// The variable rotations: the count `c` is cut to `bits` bits and (for a left rotation)
/// turned into `2^bits - c`; then the `width`-bit value under it is rotated right by
/// that count, one bit per unit of fuel.
#[verifier::rlimit(40)]
pub proof fn lemma_rot_var(n: usize, bits: usize, width: usize, turn: Option<u128>, r: Seq<u128>, x: u128, c: u128)
    requires
        bits <= n + 1,
        bits < width < 128,
        bits <= 31,
        fits(c, n),
        fits(x, width),
        turn matches Some(w) ==> w == pow2(bits as nat),
    ensures
        var_count(c, bits, turn) <= pow2(bits as nat),
        moves(words_of(rot_var_prog(n, bits, width, turn)), r.push(x).push(c),
            r.push(rotr(x as nat, width as nat, var_count(c, bits, turn)) as u128), pow2(bits as nat)),
{
    lemma_pow2_128();
    lemma_pow2_le(bits as nat, 31);
    lemma_pow2_pos(bits as nat);
    lemma_pow2_strictly_increases(bits as nat, width as nat);
    let m = pow2(bits as nat);
    let k = (c as nat % m) as u128;
    let cnt = var_count(c, bits, turn);
    let s0 = r.push(x).push(c);
    lemma_step_blank(s0);
    lemma_moves_step(Word::Blank, s0, s0);
    lemma_pow2_le(n as nat, slb_size(n) as nat);
    law_truncate(n, bits, r.push(x), c);
    lemma_moves_append(seq![Word::Blank], words_of(truncate_prog(n, bits)), s0, s0, r.push(x).push(k), 0);
    let f1 = seq![Word::Blank] + words_of(truncate_prog(n, bits));
    let s2 = r.push(x).push(cnt as u128);
    lemma_turn(bits, turn, r, x, c);
    lemma_moves_append(f1, turn_words(turn), s0, r.push(x).push(k), s2, 0);
    let f2 = f1 + turn_words(turn);
    lemma_pow2_le(width as nat, 128);
    assert(cnt < pow2(width as nat));
    assert(cnt < pow2(128));
    assert((cnt as u128) as nat == cnt);
    let hw = words_of(rtr_var_helper_prog(width));
    law_rtr_var_helper(width, r, x, cnt as u128);
    lemma_moves_fuel(f2, s0, s2, 0, m);
    let xr = r.push(rotr(x as nat, width as nat, cnt) as u128);
    lemma_moves_fuel(hw, s2, xr, cnt, m);
    lemma_moves_append(f2, hw, s0, s2, xr, m);
    lemma_moves_blank_after(f2 + hw, s0, xr, m);
    lemma_rot_var_words(n, bits, width, turn);
}

/// The snippet of `rtr32_var(n)` rotates the 32-bit value under the `n`-bit count `c` on
/// top of the stack right by `c` bits.
pub proof fn law_rtr32_var(n: usize, r: Seq<u128>, x: u128, c: u128)
    requires
        n >= 4,
        fits(c, n),
        fits(x, 32),
    ensures
        moves(words_of(rot_var_prog(n, 5, 32, None)), r.push(x).push(c), r.push(rotr(x as nat, 32, c as nat) as u128), 32),
{
    lemma2_to64();
    lemma_rot_var(n, 5, 32, None, r, x, c);
    assert((c as nat % 32) % 32 == c as nat % 32);
    lemma_rot_mod(x as nat, 32, c as nat % 32, c as nat);
}

/// The snippet of `rtl32_var(n)` rotates the 32-bit value under the `n`-bit count `c` on
/// top of the stack left by `c` bits.
pub proof fn law_rtl32_var(n: usize, r: Seq<u128>, x: u128, c: u128)
    requires
        n >= 4,
        fits(c, n),
        fits(x, 32),
    ensures
        moves(words_of(rot_var_prog(n, 5, 32, Some(32))), r.push(x).push(c), r.push(rotl(x as nat, 32, c as nat) as u128), 32),
{
    lemma2_to64();
    lemma_rot_var(n, 5, 32, Some(32), r, x, c);
    lemma_rotl_is_rotr(x as nat, 32, c as nat % 32);
    assert((c as nat % 32) % 32 == c as nat % 32);
    lemma_rot_mod(x as nat, 32, c as nat % 32, c as nat);
}

/// The snippet of `rtr64_var(n)` rotates the 64-bit value under the `n`-bit count `c` on
/// top of the stack right by `c` bits.
pub proof fn law_rtr64_var(n: usize, r: Seq<u128>, x: u128, c: u128)
    requires
        n >= 5,
        fits(c, n),
        fits(x, 64),
    ensures
        moves(words_of(rot_var_prog(n, 6, 64, None)), r.push(x).push(c), r.push(rotr(x as nat, 64, c as nat) as u128), 64),
{
    lemma2_to64();
    lemma_rot_var(n, 6, 64, None, r, x, c);
    assert((c as nat % 64) % 64 == c as nat % 64);
    lemma_rot_mod(x as nat, 64, c as nat % 64, c as nat);
}

/// The snippet of `rtl64_var(n)` rotates the 64-bit value under the `n`-bit count `c` on
/// top of the stack left by `c` bits.
pub proof fn law_rtl64_var(n: usize, r: Seq<u128>, x: u128, c: u128)
    requires
        n >= 5,
        fits(c, n),
        fits(x, 64),
    ensures
        moves(words_of(rot_var_prog(n, 6, 64, Some(64))), r.push(x).push(c), r.push(rotl(x as nat, 64, c as nat) as u128), 64),
{
    lemma2_to64();
    lemma_rot_var(n, 6, 64, Some(64), r, x, c);
    lemma_rotl_is_rotr(x as nat, 64, c as nat % 64);
    assert((c as nat % 64) % 64 == c as nat % 64);
    lemma_rot_mod(x as nat, 64, c as nat % 64, c as nat);
}

/// `rtl32_var(n)` with the same count undoes `rtr32_var(n)`: rotating the 32-bit `x` right
/// by `c`, pushing `c` again and rotating left by `c` leaves the stack as it was.
pub proof fn law_rtl32_var_undoes_rtr32_var(n: usize, r: Seq<u128>, x: u128, c: u128)
    requires
        n >= 4,
        fits(c, n),
        c < MODULUS,
        fits(x, 32),
    ensures
        moves(words_of(rot_var_prog(n, 5, 32, None)) + seq![Word::Push(c)] + words_of(rot_var_prog(n, 5, 32, Some(32))),
            r.push(x).push(c), r.push(x), 32),
{
    lemma_var_undo(n, 5, 32, r, x, c);
}

/// `rtl64_var(n)` with the same count undoes `rtr64_var(n)`: rotating the 64-bit `x` right
/// by `c`, pushing `c` again and rotating left by `c` leaves the stack as it was.
pub proof fn law_rtl64_var_undoes_rtr64_var(n: usize, r: Seq<u128>, x: u128, c: u128)
    requires
        n >= 5,
        fits(c, n),
        c < MODULUS,
        fits(x, 64),
    ensures
        moves(words_of(rot_var_prog(n, 6, 64, None)) + seq![Word::Push(c)] + words_of(rot_var_prog(n, 6, 64, Some(64))),
            r.push(x).push(c), r.push(x), 64),
{
    lemma_var_undo(n, 6, 64, r, x, c);
}

proof fn lemma_var_undo(n: usize, bits: usize, width: usize, r: Seq<u128>, x: u128, c: u128)
    requires
        (bits == 5 && width == 32 && n >= 4) || (bits == 6 && width == 64 && n >= 5),
        fits(c, n),
        c < MODULUS,
        fits(x, width),
    ensures
        moves(words_of(rot_var_prog(n, bits, width, None)) + seq![Word::Push(c)]
            + words_of(rot_var_prog(n, bits, width, Some(width as u128))), r.push(x).push(c), r.push(x), width as nat),
{
    lemma2_to64();
    lemma_pow2_128();
    lemma_pow2_le(width as nat, 128);
    let w = width as nat;
    if bits == 5 {
        law_rtr32_var(n, r, x, c);
    } else {
        law_rtr64_var(n, r, x, c);
    }
    let y = rotr(x as nat, w, c as nat);
    lemma_rotr_bound(x as nat, w, c as nat);
    let yv = y as u128;
    let f1 = words_of(rot_var_prog(n, bits, width, None));
    lemma_step_push(r.push(yv), c);
    lemma_moves_push(f1, Word::Push(c), r.push(x).push(c), r.push(yv), r.push(yv).push(c), w);
    assert(f1.push(Word::Push(c)) =~= f1 + seq![Word::Push(c)]);
    if bits == 5 {
        law_rtl32_var(n, r, yv, c);
    } else {
        law_rtl64_var(n, r, yv, c);
    }
    lemma_rotl_rotr(x as nat, w, c as nat);
    lemma_moves_append(f1 + seq![Word::Push(c)], words_of(rot_var_prog(n, bits, width, Some(width as u128))),
        r.push(x).push(c), r.push(yv).push(c), r.push(x), w);
}

/// The body of the loop of `mod1`: subtracts the divisor once and tests again.
pub open spec fn mod_round() -> Seq<Word> {
    seq![
        Word::Swap(1),
        Word::Dup(2),
        Word::Swap(1),
        Word::Sub,
        Word::Swap(1),
        Word::Drop(1),
        Word::Swap(1),
        Word::Dup(2),
        Word::Lt(128),
    ]
}

/// The number of rounds of the loop of `mod1` for `x` and `y`.
pub open spec fn mod_rounds(x: nat, y: nat) -> nat {
    if x <= y {
        0
    } else {
        ((x - 1) as nat / y) as nat
    }
}

/// The stack of `mod1` after `i` rounds.
pub open spec fn mod_state(r: Seq<u128>, x: u128, y: u128, i: nat) -> Seq<u128> {
    r.push((x - i * y) as u128).push(y).push(flag(y < x - i * y))
}

proof fn lemma_fits_128(v: u128)
    ensures
        fits(v, 128),
{
    lemma_pow2_128();
}

#[verifier::rlimit(40)]
proof fn lemma_mod_round(r: Seq<u128>, xi: u128, y: u128)
    requires
        y < xi,
    ensures
        moves(mod_round(), r.push(xi).push(y), r.push((xi - y) as u128).push(y).push(flag(y < xi - y)), 0),
{
    let d = (xi - y) as u128;
    let s0 = r.push(xi).push(y);
    let a0: Seq<Word> = Seq::empty();
    lemma_moves_empty(s0);
    lemma_step_swap1(r, xi, y);
    let s1 = r.push(y).push(xi);
    lemma_moves_push(a0, Word::Swap(1), s0, s0, s1, 0);
    let a1 = a0.push(Word::Swap(1));
    lemma_step_dup2(r, y, xi);
    let s2 = s1.push(y).push(xi);
    lemma_moves_push(a1, Word::Dup(2), s0, s1, s2, 0);
    let a2 = a1.push(Word::Dup(2));
    lemma_step_swap1(s1, y, xi);
    let s3 = s1.push(xi).push(y);
    lemma_moves_push(a2, Word::Swap(1), s0, s2, s3, 0);
    let a3 = a2.push(Word::Swap(1));
    lemma_step_binary(Word::Sub, s1, xi, y, d);
    let s4 = s1.push(d);
    lemma_moves_push(a3, Word::Sub, s0, s3, s4, 0);
    let a4 = a3.push(Word::Sub);
    lemma_step_swap1(r.push(y), xi, d);
    let s5 = r.push(y).push(d).push(xi);
    lemma_moves_push(a4, Word::Swap(1), s0, s4, s5, 0);
    let a5 = a4.push(Word::Swap(1));
    lemma_step_drop1(r.push(y).push(d), xi);
    let s6 = r.push(y).push(d);
    lemma_moves_push(a5, Word::Drop(1), s0, s5, s6, 0);
    let a6 = a5.push(Word::Drop(1));
    lemma_step_swap1(r, y, d);
    let s7 = r.push(d).push(y);
    lemma_moves_push(a6, Word::Swap(1), s0, s6, s7, 0);
    let a7 = a6.push(Word::Swap(1));
    lemma_step_dup2(r, d, y);
    let s8 = s7.push(d).push(y);
    lemma_moves_push(a7, Word::Dup(2), s0, s7, s8, 0);
    let a8 = a7.push(Word::Dup(2));
    lemma_fits_128(d);
    lemma_fits_128(y);
    lemma_step_binary(Word::Lt(128), s7, d, y, flag(y < d));
    lemma_moves_push(a8, Word::Lt(128), s0, s8, s7.push(flag(y < d)), 0);
    assert(a8.push(Word::Lt(128)) =~= mod_round());
}

/// How the rounds of `mod1` go.
proof fn lemma_mod_rounds(x: nat, y: nat)
    requires
        y >= 1,
    ensures
        mod_rounds(x, y) <= x / y,
        mod_rounds(x, y) * y <= x,
        x - mod_rounds(x, y) * y <= y,
        x - mod_rounds(x, y) * y == y ==> x % y == 0,
        x - mod_rounds(x, y) * y < y ==> x % y == x - mod_rounds(x, y) * y,
{
    let k = mod_rounds(x, y);
    if x <= y {
        if x == y {
            vstd::arithmetic::div_mod::lemma_mod_self_0(y as int);
        } else {
            vstd::arithmetic::div_mod::lemma_small_mod(x, y);
        }
        assert(x / y >= 0);
    } else {
        let rr = ((x - 1) as nat) % y;
        lemma_fundamental_div_mod((x - 1) as int, y as int);
        assert(x - 1 == y * k + rr);
        assert(k * y == y * k) by (nonlinear_arith);
        assert(0 <= rr < y);
        if rr + 1 == y {
            assert(x == (k + 1) * y) by (nonlinear_arith)
                requires x - 1 == y * k + rr, rr + 1 == y;
            lemma_fundamental_div_mod_converse(x as int, y as int, (k + 1) as int, 0);
        } else {
            lemma_fundamental_div_mod_converse(x as int, y as int, k as int, (rr + 1) as int);
        }
        lemma_fundamental_div_mod(x as int, y as int);
        assert(k <= x / y) by (nonlinear_arith)
            requires x == y * (x / y) + x % y, x % y < y, x - 1 == y * k + rr, rr < y, 0 <= rr, y >= 1;
    }
}

proof fn lemma_mod_rounds_early(x: nat, y: nat, i: nat)
    requires
        y >= 1,
        i < mod_rounds(x, y),
    ensures
        x - i * y > y,
{
    let k = mod_rounds(x, y);
    lemma_mod_rounds(x, y);
    assert(i * y <= (k - 1) * y) by (nonlinear_arith)
        requires i <= k - 1, y >= 0;
    assert((k - 1) * y == k * y - y) by (nonlinear_arith);
    assert(x > y);
    let rr = ((x - 1) as nat) % y;
    lemma_fundamental_div_mod((x - 1) as int, y as int);
    assert(k * y == y * k) by (nonlinear_arith);
}

/// The snippet of `mod1(n)` replaces the divisor `y` on top of the stack and the dividend
/// `x` under it by `x % y`; its loop takes exactly `mod_rounds(x, y)` rounds (one for each
/// subtraction of `y` while more than `y` is left), so that much fuel and no less.
#[verifier::rlimit(40)]
pub proof fn law_mod1(n: usize, r: Seq<u128>, x: u128, y: u128)
    requires
        y >= 1,
        x < MODULUS,
    ensures
        moves(words_of(mod1_prog()), r.push(x).push(y), r.push(x % y), mod_rounds(x as nat, y as nat)),
        stops_below(words_of(mod1_prog()), r.push(x).push(y), mod_rounds(x as nat, y as nat)),
{
    let k = mod_rounds(x as nat, y as nat);
    lemma_mod_rounds(x as nat, y as nat);
    let states = |i: nat| mod_state(r, x, y, i);
    let fm = k;
    // before the loop
    let s0 = r.push(x).push(y);
    let a0: Seq<Word> = Seq::empty();
    lemma_moves_empty(s0);
    lemma_step_dup2(r, x, y);
    lemma_moves_push(a0, Word::Dup(2), s0, s0, s0.push(x).push(y), 0);
    lemma_fits_128(x);
    lemma_fits_128(y);
    lemma_step_binary(Word::Lt(128), s0, x, y, flag(y < x));
    lemma_moves_push(a0.push(Word::Dup(2)), Word::Lt(128), s0, s0.push(x).push(y), s0.push(flag(y < x)), 0);
    let a2 = a0.push(Word::Dup(2)).push(Word::Lt(128));
    assert(states(0) == s0.push(flag(y < x)));
    lemma_moves_fuel(a2, s0, states(0), 0, fm);
    // the loop
    assert forall|i: nat| i <= k implies (#[trigger] states(i)).len() >= 1 by {}
    assert forall|i: nat| i < k implies (#[trigger] states(i)).last() == 1 by {
        lemma_mod_rounds_early(x as nat, y as nat, i);
    }
    assert forall|i: nat| i < k implies #[trigger] moves(mod_round(), states(i).drop_last(), states(i + 1), 0) by {
        lemma_mod_rounds_early(x as nat, y as nat, i);
        assert(x - (i + 1) * y == x - i * y - y) by (nonlinear_arith);
        let xi = (x - i * y) as u128;
        lemma_mod_round(r, xi, y);
        assert(states(i).drop_last() == r.push(xi).push(y));
    }
    assert(states(k).last() == 0);
    assert(flat(mod_round()));
    lemma_moves_while(mod_round(), k, states);
    let lp = seq![Word::WhileTrue] + mod_round() + seq![Word::End];
    lemma_while_needs_fuel(mod_round(), k, states);
    lemma_stops_after(a2, lp, s0, states(0), k);
    lemma_moves_append(a2, lp, s0, states(0), states(k).drop_last(), fm);
    // after the loop
    let xk = (x - k * y) as u128;
    assert(states(k).drop_last() == r.push(xk).push(y));
    let b0 = a2 + lp;
    lemma_step_pick1(r, xk, y);
    lemma_moves_push(b0, Word::Pick(1), s0, r.push(xk).push(y), r.push(xk).push(y).push(xk), fm);
    let b1 = b0.push(Word::Pick(1));
    lemma_step_binary(Word::Ne, r.push(xk), y, xk, flag(xk != y));
    lemma_moves_push(b1, Word::Ne, s0, r.push(xk).push(y).push(xk), r.push(xk).push(flag(xk != y)), fm);
    let b2 = b1.push(Word::Ne);
    let res = (xk * flag(xk != y)) as u128;
    assert(res == x % y);
    lemma_step_binary(Word::Mul, r, xk, flag(xk != y), res);
    lemma_moves_push(b2, Word::Mul, s0, r.push(xk).push(flag(xk != y)), r.push(res), fm);
    let b3 = b2.push(Word::Mul);
    lemma_moves_blank_after(b3, s0, r.push(res), fm);
    assert(words_of(mod1_prog()) =~= b3.push(Word::Blank));
    let tail = seq![Word::Pick(1), Word::Ne, Word::Mul, Word::Blank];
    lemma_stops_before(a2 + lp, tail, s0, k);
    assert((a2 + lp) + tail =~= b3.push(Word::Blank));
}

/// `mod1(n)` with a divisor of 0: a dividend of 0 gives 0, and any other dividend keeps
/// its loop going for ever (it subtracts 0 each round), so the run stops for want of fuel
/// however much it is given.
#[verifier::rlimit(40)]
pub proof fn law_mod1_by_zero(r: Seq<u128>, x: u128)
    ensures
        x == 0 ==> moves(words_of(mod1_prog()), r.push(0).push(0), r.push(0), 0),
        x > 0 ==> never_ends(words_of(mod1_prog()), r.push(x).push(0)),
{
    let s0 = r.push(x).push(0);
    let a0: Seq<Word> = Seq::empty();
    lemma_moves_empty(s0);
    lemma_step_dup2(r, x, 0);
    lemma_moves_push(a0, Word::Dup(2), s0, s0, s0.push(x).push(0), 0);
    lemma_fits_128(x);
    lemma_fits_128(0);
    lemma_step_binary(Word::Lt(128), s0, x, 0, flag(0 < x));
    lemma_moves_push(a0.push(Word::Dup(2)), Word::Lt(128), s0, s0.push(x).push(0), s0.push(flag(0 < x)), 0);
    let a2 = a0.push(Word::Dup(2)).push(Word::Lt(128));
    let lp = seq![Word::WhileTrue] + mod_round() + seq![Word::End];
    let tail = seq![Word::Pick(1), Word::Ne, Word::Mul, Word::Blank];
    assert(flat(mod_round()));
    assert(words_of(mod1_prog()) =~= (a2 + lp) + tail);
    if x == 0 {
        let states = |i: nat| s0.push(0);
        lemma_moves_while(mod_round(), 0, states);
        assert(s0.push(0).drop_last() =~= s0);
        lemma_moves_append(a2, lp, s0, s0.push(0), s0, 0);
        let b0 = a2 + lp;
        lemma_step_pick1(r, 0, 0);
        lemma_moves_push(b0, Word::Pick(1), s0, s0, s0.push(0), 0);
        lemma_step_binary(Word::Ne, r.push(0), 0, 0, 0);
        lemma_moves_push(b0.push(Word::Pick(1)), Word::Ne, s0, s0.push(0), s0, 0);
        lemma_step_binary(Word::Mul, r, 0, 0, 0);
        lemma_moves_push(b0.push(Word::Pick(1)).push(Word::Ne), Word::Mul, s0, s0, r.push(0), 0);
        lemma_moves_blank_after(b0.push(Word::Pick(1)).push(Word::Ne).push(Word::Mul), s0, r.push(0), 0);
        assert(b0.push(Word::Pick(1)).push(Word::Ne).push(Word::Mul).push(Word::Blank) =~= b0 + tail);
    } else {
        lemma_mod_round(r, x, 0);
        assert((x - 0) as u128 == x);
        lemma_while_never_ends(mod_round(), s0);
        assert forall|bound: nat| #[trigger] stops_below(words_of(mod1_prog()), s0, bound) by {
            assert(stops_below(lp, s0.push(1), bound));
            lemma_stops_after(a2, lp, s0, s0.push(1), bound);
            lemma_stops_before(a2 + lp, tail, s0, bound);
        }
    }
}

/// The pair of values that `bit_op` carries after `i` steps, in the order it keeps them.
pub open spec fn bit_op_state(r: Seq<u128>, op: BitOp, x: u128, y: u128, i: nat) -> Seq<u128> {
    let xs = (x as nat / pow2(i)) as u128;
    let ys = (y as nat / pow2(i)) as u128;
    let acc = bitwise(op, x as nat, y as nat, i) as u128;
    if i % 2 == 0 {
        r.push(xs).push(ys).push(acc)
    } else {
        r.push(ys).push(xs).push(acc)
    }
}

proof fn lemma_bit_op_step_words(n: usize, op: BitOp, i: nat)
    ensures
        words_of(bit_op_step(n, op, i)) == seq![Word::Swap(1), Word::Blank] + words_of(slb_prog((n - i) as usize))
            + seq![Word::Roll(4), Word::Blank] + words_of(slb_prog((n - i) as usize)) + seq![
            Word::Swap(1),
            Word::Roll(4),
            bit_word(op),
            Word::Push(pow2(i) as u128),
            Word::Mul,
            Word::Roll(4),
            Word::Add,
            Word::Blank,
        ],
{
    let slb = slb_prog((n - i) as usize);
    let a = seq![ln(4, Word::Swap(1)), ln(4, Word::Blank)];
    let b = seq![ln(4, Word::Roll(4)), ln(4, Word::Blank)];
    let c = seq![
        ln(4, Word::Swap(1)),
        ln(4, Word::Roll(4)),
        ln(4, bit_word(op)),
        ln(4, Word::Push(pow2(i) as u128)),
        ln(4, Word::Mul),
        ln(4, Word::Roll(4)),
        ln(4, Word::Add),
        ln(4, Word::Blank),
    ];
    assert(bit_op_step(n, op, i) == a + slb + b + slb + c);
    lemma_words_of_append(a, slb);
    lemma_words_of_append(a + slb, b);
    lemma_words_of_append(a + slb + b, slb);
    lemma_words_of_append(a + slb + b + slb, c);
    assert(words_of(a) =~= seq![Word::Swap(1), Word::Blank]);
    assert(words_of(b) =~= seq![Word::Roll(4), Word::Blank]);
    assert(words_of(c) =~= seq![
        Word::Swap(1),
        Word::Roll(4),
        bit_word(op),
        Word::Push(pow2(i) as u128),
        Word::Mul,
        Word::Roll(4),
        Word::Add,
        Word::Blank,
    ]);
}

/// One step of `bit_op`: combines the lowest bits of the pair `pv`, `qv` into bit `i` of the
/// accumulator, and halves both (which leaves them in the other order).
#[verifier::rlimit(60)]
proof fn lemma_bit_op_step(n: usize, op: BitOp, i: nat, r: Seq<u128>, pv: u128, qv: u128, acc: u128)
    requires
        i < n,
        i < 128,
        fits(pv, slb_size((n - i) as usize)),
        fits(qv, slb_size((n - i) as usize)),
        acc < pow2(i),
        acc + bit_fn(op, pv as nat % 2, qv as nat % 2) * pow2(i) < MODULUS,
    ensures
        acc + bit_fn(op, pv as nat % 2, qv as nat % 2) * pow2(i) < pow2(i + 1),
        moves(words_of(bit_op_step(n, op, i)), r.push(pv).push(qv).push(acc),
            r.push(qv / 2).push(pv / 2).push((acc + bit_fn(op, pv as nat % 2, qv as nat % 2) * pow2(i)) as u128), 0),
{
    lemma_pow2_128();
    lemma_pow2_le(i, 127);
    lemma_pow2_unfold(i + 1);
    lemma_pow2_le(i + 1, 128);
    let m = (n - i) as usize;
    let pp = pow2(i) as u128;
    let v = bit_fn(op, pv as nat % 2, qv as nat % 2) as u128;
    assert(v * pow2(i) <= pow2(i)) by (nonlinear_arith)
        requires v <= 1;
    let prod = (v * pow2(i)) as u128;
    let acc2 = (acc + prod) as u128;
    let s0 = r.push(pv).push(qv).push(acc);
    // swap.1, blank
    let a0: Seq<Word> = Seq::empty();
    lemma_moves_empty(s0);
    lemma_step_swap1(r.push(pv), qv, acc);
    let s1 = r.push(pv).push(acc).push(qv);
    lemma_moves_push(a0, Word::Swap(1), s0, s0, s1, 0);
    lemma_moves_blank_after(a0.push(Word::Swap(1)), s0, s1, 0);
    let f1 = a0.push(Word::Swap(1)).push(Word::Blank);
    // split qv
    law_separate_last_bit(m, r.push(pv).push(acc), qv);
    let s2 = r.push(pv).push(acc).push(qv % 2).push(qv / 2);
    lemma_moves_append(f1, words_of(slb_prog(m)), s0, s1, s2, 0);
    let f2 = f1 + words_of(slb_prog(m));
    // roll.4, blank
    lemma_step_roll4(r, pv, acc, qv % 2, qv / 2);
    let s3 = r.push(acc).push(qv % 2).push(qv / 2).push(pv);
    lemma_moves_push(f2, Word::Roll(4), s0, s2, s3, 0);
    lemma_moves_blank_after(f2.push(Word::Roll(4)), s0, s3, 0);
    let f3 = f2.push(Word::Roll(4)).push(Word::Blank);
    // split pv
    law_separate_last_bit(m, r.push(acc).push(qv % 2).push(qv / 2), pv);
    let s4 = r.push(acc).push(qv % 2).push(qv / 2).push(pv % 2).push(pv / 2);
    lemma_moves_append(f3, words_of(slb_prog(m)), s0, s3, s4, 0);
    let f4 = f3 + words_of(slb_prog(m));
    // swap.1, roll.4
    lemma_step_swap1(r.push(acc).push(qv % 2).push(qv / 2), pv % 2, pv / 2);
    let s5 = r.push(acc).push(qv % 2).push(qv / 2).push(pv / 2).push(pv % 2);
    lemma_moves_push(f4, Word::Swap(1), s0, s4, s5, 0);
    let f5 = f4.push(Word::Swap(1));
    lemma_step_roll4(r.push(acc), qv % 2, qv / 2, pv / 2, pv % 2);
    let s6 = r.push(acc).push(qv / 2).push(pv / 2).push(pv % 2).push(qv % 2);
    lemma_moves_push(f5, Word::Roll(4), s0, s5, s6, 0);
    let f6 = f5.push(Word::Roll(4));
    // combine the bits
    let w = bit_word(op);
    assert(binary(w, pv % 2, qv % 2) == Some(v));
    lemma_step_binary(w, r.push(acc).push(qv / 2).push(pv / 2), pv % 2, qv % 2, v);
    let s7 = r.push(acc).push(qv / 2).push(pv / 2).push(v);
    lemma_moves_push(f6, w, s0, s6, s7, 0);
    let f7 = f6.push(w);
    lemma_step_push(s7, pp);
    lemma_moves_push(f7, Word::Push(pp), s0, s7, s7.push(pp), 0);
    let f8 = f7.push(Word::Push(pp));
    lemma_step_binary(Word::Mul, r.push(acc).push(qv / 2).push(pv / 2), v, pp, prod);
    let s8 = r.push(acc).push(qv / 2).push(pv / 2).push(prod);
    lemma_moves_push(f8, Word::Mul, s0, s7.push(pp), s8, 0);
    let f9 = f8.push(Word::Mul);
    lemma_step_roll4(r, acc, qv / 2, pv / 2, prod);
    let s9 = r.push(qv / 2).push(pv / 2).push(prod).push(acc);
    lemma_moves_push(f9, Word::Roll(4), s0, s8, s9, 0);
    let f10 = f9.push(Word::Roll(4));
    lemma_step_binary(Word::Add, r.push(qv / 2).push(pv / 2), prod, acc, acc2);
    let s10 = r.push(qv / 2).push(pv / 2).push(acc2);
    lemma_moves_push(f10, Word::Add, s0, s9, s10, 0);
    let f11 = f10.push(Word::Add);
    lemma_moves_blank_after(f11, s0, s10, 0);
    lemma_bit_op_step_words(n, op, i);
    assert(words_of(bit_op_step(n, op, i)) =~= f11.push(Word::Blank));
}

#[verifier::rlimit(40)]
proof fn lemma_bit_op_steps(n: usize, op: BitOp, c: nat, r: Seq<u128>, x: u128, y: u128)
    requires
        c <= n,
        n <= 128,
        fits(x, n),
        fits(y, n),
        c < 128 || bitwise(op, x as nat, y as nat, c) < MODULUS,
    ensures
        moves(words_of(bit_op_steps(n, op, c)), bit_op_state(r, op, x, y, 0), bit_op_state(r, op, x, y, c), 0),
    decreases c,
{
    lemma_pow2_128();
    if c == 0 {
        lemma_moves_empty(bit_op_state(r, op, x, y, 0));
        assert(words_of(bit_op_steps(n, op, 0)) =~= Seq::<Word>::empty());
    } else {
        let i = (c - 1) as nat;
        lemma_bit_op_steps(n, op, i, r, x, y);
        lemma_pow2_pos(i);
        let xs = (x as nat / pow2(i)) as u128;
        let ys = (y as nat / pow2(i)) as u128;
        assert(x as nat / pow2(i) <= x) by {
            vstd::arithmetic::div_mod::lemma_div_is_ordered_by_denominator(x as int, 1, pow2(i) as int);
        }
        assert(y as nat / pow2(i) <= y) by {
            vstd::arithmetic::div_mod::lemma_div_is_ordered_by_denominator(y as int, 1, pow2(i) as int);
        }
        lemma_div_pow2_fits(x as nat, n as nat, i);
        lemma_div_pow2_fits(y as nat, n as nat, i);
        lemma_pow2_le((n - i) as nat, slb_size((n - i) as usize) as nat);
        lemma_bitwise_bound(op, x as nat, y as nat, i);
        lemma_bitwise_bound(op, x as nat, y as nat, c);
        lemma_pow2_le(c, 128);
        let acc = bitwise(op, x as nat, y as nat, i) as u128;
        lemma_next_bit(x as nat, i);
        lemma_next_bit(y as nat, i);
        assert(pow2(i + 1) == pow2(c));
        lemma_bit_fn_symmetric(op, xs as nat % 2, ys as nat % 2);
        assert(acc + bit_fn(op, xs as nat % 2, ys as nat % 2) * pow2(i) == bitwise(op, x as nat, y as nat, c));
        if c < 128 {
            lemma_pow2_le(c, 127);
        }
        if i % 2 == 0 {
            lemma_bit_op_step(n, op, i, r, xs, ys, acc);
            assert(bit_op_state(r, op, x, y, i) == r.push(xs).push(ys).push(acc));
            assert(bit_op_state(r, op, x, y, c) == r.push(ys / 2).push(xs / 2).push(
                (acc + bit_fn(op, xs as nat % 2, ys as nat % 2) * pow2(i)) as u128));
            lemma_moves_append(words_of(bit_op_steps(n, op, i)), words_of(bit_op_step(n, op, i)),
                bit_op_state(r, op, x, y, 0), bit_op_state(r, op, x, y, i), bit_op_state(r, op, x, y, c), 0);
        } else {
            lemma_bit_op_step(n, op, i, r, ys, xs, acc);
            assert(bit_op_state(r, op, x, y, i) == r.push(ys).push(xs).push(acc));
            assert(bit_op_state(r, op, x, y, c) == r.push(xs / 2).push(ys / 2).push(
                (acc + bit_fn(op, ys as nat % 2, xs as nat % 2) * pow2(i)) as u128));
            lemma_moves_append(words_of(bit_op_steps(n, op, i)), words_of(bit_op_step(n, op, i)),
                bit_op_state(r, op, x, y, 0), bit_op_state(r, op, x, y, i), bit_op_state(r, op, x, y, c), 0);
        }
        lemma_words_of_append(bit_op_steps(n, op, i), bit_op_step(n, op, i));
    }
}

/// The snippet of `bit_op(n, op)` (that is, of `bit_and`, `bit_or` and `bit_xor`) replaces
/// the `n`-bit values `y` on top of the stack and `x` under it by the value whose bit `i`
/// is `op` of bit `i` of `x` and bit `i` of `y` (at 128 bits, when that value is a field
/// element).
#[verifier::rlimit(40)]
pub proof fn law_bit_op(n: usize, op: BitOp, r: Seq<u128>, x: u128, y: u128)
    requires
        n <= 128,
        fits(x, n),
        fits(y, n),
        n < 128 || bitwise(op, x as nat, y as nat, n as nat) < MODULUS,
    ensures
        bitwise(op, x as nat, y as nat, n as nat) < pow2(n as nat),
        moves(words_of(bit_op_prog(n, op)), r.push(x).push(y),
            r.push(bitwise(op, x as nat, y as nat, n as nat) as u128), 0),
{
    lemma_pow2_128();
    lemma_bitwise_bound(op, x as nat, y as nat, n as nat);
    lemma_pow2_le(n as nat, 128);
    let s0 = r.push(x).push(y);
    let a0: Seq<Word> = Seq::empty();
    lemma_moves_empty(s0);
    lemma_step_push(s0, 0);
    lemma_moves_push(a0, Word::Push(0), s0, s0, s0.push(0), 0);
    lemma_moves_blank_after(a0.push(Word::Push(0)), s0, s0.push(0), 0);
    let f1 = a0.push(Word::Push(0)).push(Word::Blank);
    assert(x as nat / 1 == x && y as nat / 1 == y);
    assert(bit_op_state(r, op, x, y, 0) == s0.push(0));
    lemma_bit_op_steps(n, op, n as nat, r, x, y);
    let st = bit_op_state(r, op, x, y, n as nat);
    lemma_moves_append(f1, words_of(bit_op_steps(n, op, n as nat)), s0, s0.push(0), st, 0);
    let f2 = f1 + words_of(bit_op_steps(n, op, n as nat));
    let pv = st[st.len() - 3];
    let qv = st[st.len() - 2];
    let acc = bitwise(op, x as nat, y as nat, n as nat) as u128;
    assert(st == r.push(pv).push(qv).push(acc));
    lemma_step_swap1(r.push(pv), qv, acc);
    lemma_moves_push(f2, Word::Swap(1), s0, st, r.push(pv).push(acc).push(qv), 0);
    let f3 = f2.push(Word::Swap(1));
    lemma_step_drop1(r.push(pv).push(acc), qv);
    lemma_moves_push(f3, Word::Drop(1), s0, r.push(pv).push(acc).push(qv), r.push(pv).push(acc), 0);
    let f4 = f3.push(Word::Drop(1));
    lemma_step_swap1(r, pv, acc);
    lemma_moves_push(f4, Word::Swap(1), s0, r.push(pv).push(acc), r.push(acc).push(pv), 0);
    let f5 = f4.push(Word::Swap(1));
    lemma_step_drop1(r.push(acc), pv);
    lemma_moves_push(f5, Word::Drop(1), s0, r.push(acc).push(pv), r.push(acc), 0);
    let f6 = f5.push(Word::Drop(1));
    lemma_moves_blank_after(f6, s0, r.push(acc), 0);
    let head = seq![ln(4, Word::Push(0)), ln(4, Word::Blank)];
    let tail = seq![
        ln(4, Word::Swap(1)),
        ln(4, Word::Drop(1)),
        ln(4, Word::Swap(1)),
        ln(4, Word::Drop(1)),
        ln(4, Word::Blank),
    ];
    assert(bit_op_prog(n, op) == head + bit_op_steps(n, op, n as nat) + tail);
    lemma_words_of_append(head, bit_op_steps(n, op, n as nat));
    lemma_words_of_append(head + bit_op_steps(n, op, n as nat), tail);
    assert(words_of(head) =~= f1);
    assert(words_of(tail) =~= seq![Word::Swap(1), Word::Drop(1), Word::Swap(1), Word::Drop(1), Word::Blank]);
    assert(words_of(bit_op_prog(n, op)) =~= f6.push(Word::Blank));
}

/// The snippets of `bit_and(n)`, `bit_or(n)` and `bit_xor(n)` replace the `n`-bit values
/// `y` on top of the stack and `x` under it by `x & y`, `x | y` and `x ^ y` (at 128 bits,
/// when that value is a field element).
pub proof fn law_bitwise(n: usize, op: BitOp, r: Seq<u128>, x: u128, y: u128)
    requires
        n <= 128,
        fits(x, n),
        fits(y, n),
        n < 128 || native(op, x, y) < MODULUS,
    ensures
        moves(words_of(bit_op_prog(n, op)), r.push(x).push(y), r.push(native(op, x, y)), 0),
{
    lemma_bitwise_native(op, x, y, n as nat);
    lemma_native_fits(op, x, y, n);
    vstd::arithmetic::div_mod::lemma_small_mod(native(op, x, y) as nat, pow2(n as nat));
    law_bit_op(n, op, r, x, y);
    lemma_native_fits(op, x, y, n);
    vstd::arithmetic::div_mod::lemma_small_mod(native(op, x, y) as nat, pow2(n as nat));
}

/// What the machine's arithmetic instructions give, on the second value `b` and the top
/// value `a`: `add`, `sub` and `mul` give the exact sum, difference and product while it
/// is a field element, and `div` gives the quotient `q` with `q * a == b` (field division,
/// which the model runs only where it comes out even).
pub proof fn law_arithmetic_words(b: u128, a: u128)
    ensures
        binary(Word::Add, b, a) matches Some(v) ==> v == a + b,
        a + b < MODULUS ==> binary(Word::Add, b, a) is Some,
        binary(Word::Sub, b, a) matches Some(v) ==> v + a == b,
        a <= b ==> binary(Word::Sub, b, a) is Some,
        binary(Word::Mul, b, a) matches Some(v) ==> v == a * b,
        a * b < MODULUS ==> binary(Word::Mul, b, a) is Some,
        binary(Word::Div, b, a) matches Some(q) ==> a != 0 && q * a == b,
        a != 0 && b % a == 0 ==> binary(Word::Div, b, a) is Some,
{
    if a != 0 {
        vstd::arithmetic::div_mod::lemma_fundamental_div_mod(b as int, a as int);
        if b % a == 0 {
            assert((b / a) * a == b) by (nonlinear_arith)
                requires b == a * (b / a) + b % a, b % a == 0;
        }
    }
}

/// On bits, the machine's `and` is the product, its `or` is `a + b - a * b`, and its `ne`
/// (the word for xor) is the sum modulo 2; on anything but bits `and` and `or` stop.
pub proof fn law_bit_words(b: u128, a: u128)
    ensures
        a <= 1 && b <= 1 ==> binary(Word::And, b, a) == Some((a * b) as u128),
        a <= 1 && b <= 1 ==> binary(Word::And, b, a) == binary(Word::Mul, b, a),
        a <= 1 && b <= 1 ==> binary(Word::Or, b, a) == Some((a + b - a * b) as u128),
        a <= 1 && b <= 1 ==> binary(Word::Ne, b, a) == Some(((a + b) % 2) as u128),
        a > 1 || b > 1 ==> binary(Word::And, b, a) is None && binary(Word::Or, b, a) is None,
{
    if a <= 1 && b <= 1 {
        assert(a * b == if a == 1 && b == 1 { 1int } else { 0int }) by (nonlinear_arith)
            requires a <= 1, b <= 1;
    }
}

/// The machine's comparisons: `lt.k` on two `k`-bit values gives 1 when the top value is
/// the smaller and 0 otherwise (it stops on a wider value), and `ne` gives 1 exactly when
/// the two differ.
pub proof fn law_compare_words(b: u128, a: u128, k: usize)
    ensures
        fits(a, k) && fits(b, k) ==> binary(Word::Lt(k), b, a) == Some(if a < b { 1u128 } else { 0u128 }),
        !(fits(a, k) && fits(b, k)) ==> binary(Word::Lt(k), b, a) is None,
        binary(Word::Ne, b, a) == Some(if a != b { 1u128 } else { 0u128 }),
{
}

/// Each step of `bit_and`, `bit_or` and `bit_xor` combines the two bits with the word
/// `and`, `or` and `ne` respectively (the 23rd line of the step), and that word acts on
/// bits as the operation does.
pub proof fn law_bit_op_combining_word(n: usize, i: nat, a: u128, b: u128)
    ensures
        word_text(bit_op_step(n, BitOp::And, i)[22].word) == seq!['a', 'n', 'd'],
        word_text(bit_op_step(n, BitOp::Or, i)[22].word) == seq!['o', 'r'],
        word_text(bit_op_step(n, BitOp::Xor, i)[22].word) == seq!['n', 'e'],
        a <= 1 && b <= 1 ==> binary(bit_op_step(n, BitOp::And, i)[22].word, b, a) == Some((a * b) as u128),
        a <= 1 && b <= 1 ==> binary(bit_op_step(n, BitOp::Or, i)[22].word, b, a) == Some((a + b - a * b) as u128),
        a <= 1 && b <= 1 ==> binary(bit_op_step(n, BitOp::Xor, i)[22].word, b, a) == Some(((a + b) % 2) as u128),
{
    law_bit_words(b, a);
}

} // verus!
