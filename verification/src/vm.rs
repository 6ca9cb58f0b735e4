//! A model of the stack machine that runs the generated snippets, with an interpreter.
//!
//! The machine computes in the prime field of order `MODULUS`. The model takes its values
//! as the integers `0 .. MODULUS` and computes exactly: a push of a number outside the
//! field, an addition or multiplication whose exact result reaches `MODULUS`, a
//! subtraction that would go below 0, a division that does not come out even, a comparison
//! or parity test on a value wider than the instruction's bit width, a binary `and`/`or`/
//! `while` flag that is not 0 or 1, and a pop from an empty stack all stop the run. So the
//! model never reduces modulo `MODULUS`: wherever it gives a result, that result is the
//! field's. The top of the stack is the last element of the sequence.
use vstd::prelude::*;
use vstd::arithmetic::power2::{pow2, lemma_pow2_unfold, lemma_pow2_strictly_increases};
use crate::ops::{pow2_u128, lemma_pow2_127};
use crate::program::{Word, Line};
use crate::parse::{parse_words, read_words};

verus! {

/// The order of the field the machine computes in: `2^128 - 45 * 2^40 + 1`.
pub const MODULUS: u128 = 340282366920938463463374557953744961537u128;

/// `x` has at most `k` bits.
pub open spec fn fits(x: u128, k: usize) -> bool {
    (x as nat) < pow2(k as nat)
}

pub open spec fn flag(b: bool) -> u128 {
    if b {
        1
    } else {
        0
    }
}

/// An instruction that neither opens nor closes a block.
pub open spec fn is_plain(w: Word) -> bool {
    !(w is Begin || w is End || w is Repeat || w is WhileTrue)
}

/// The effect of a plain instruction on the stack (`None`: the run stops).
pub open spec fn step(w: Word, s: Seq<u128>) -> Option<Seq<u128>> {
    let n = s.len() as int;
    match w {
        Word::Blank => Some(s),
        Word::Push(v) => if v < MODULUS {
            Some(s.push(v))
        } else {
            None
        },
        Word::Dup(k) => if 1 <= k <= n {
            Some(s + s.subrange(n - k, n))
        } else {
            None
        },
        Word::Swap(k) => if 1 <= k && 2 * k <= n {
            Some(s.subrange(0, n - 2 * k) + s.subrange(n - k, n) + s.subrange(n - 2 * k, n - k))
        } else {
            None
        },
        Word::Pick(k) => if k < n {
            Some(s.push(s[n - 1 - k]))
        } else {
            None
        },
        Word::Roll(k) => if 1 <= k <= n {
            Some(s.subrange(0, n - k) + s.subrange(n - k + 1, n) + seq![s[n - k]])
        } else {
            None
        },
        Word::Drop(k) => if k <= n {
            Some(s.subrange(0, n - k))
        } else {
            None
        },
        Word::IsOdd(k) => if n >= 1 && fits(s[n - 1], k) {
            Some(s.drop_last().push(s[n - 1] % 2))
        } else {
            None
        },
        Word::Add | Word::Sub | Word::Mul | Word::Div | Word::Ne | Word::And | Word::Or | Word::Lt(_) => {
            if n >= 2 {
                let a = s[n - 1];
                let b = s[n - 2];
                let rest = s.subrange(0, n - 2);
                match binary(w, b, a) {
                    Some(r) => Some(rest.push(r)),
                    None => None,
                }
            } else {
                None
            }
        },
        _ => None,
    }
}

/// A binary instruction on the second value `b` and the top value `a`.
pub open spec fn binary(w: Word, b: u128, a: u128) -> Option<u128> {
    match w {
        Word::Add => if b + a < MODULUS {
            Some((b + a) as u128)
        } else {
            None
        },
        Word::Sub => if a <= b {
            Some((b - a) as u128)
        } else {
            None
        },
        Word::Mul => if b * a < MODULUS {
            Some((b * a) as u128)
        } else {
            None
        },
        Word::Div => if a != 0 && b % a == 0 {
            Some(b / a)
        } else {
            None
        },
        Word::Ne => Some(flag(a != b)),
        Word::And => if a <= 1 && b <= 1 {
            Some(flag(a == 1 && b == 1))
        } else {
            None
        },
        Word::Or => if a <= 1 && b <= 1 {
            Some(flag(a == 1 || b == 1))
        } else {
            None
        },
        Word::Lt(k) => if fits(a, k) && fits(b, k) {
            Some(flag(a < b))
        } else {
            None
        },
        _ => None,
    }
}

/// The position of the `end` that closes a block whose body starts at `pc`, with `depth`
/// blocks opened inside it and not yet closed.
pub open spec fn block_end(p: Seq<Word>, pc: int, depth: nat) -> Option<int>
    decreases p.len() - pc,
{
    if pc < 0 || pc >= p.len() {
        None
    } else {
        match p[pc] {
            Word::End => if depth == 0 {
                Some(pc)
            } else {
                block_end(p, pc + 1, (depth - 1) as nat)
            },
            Word::Begin | Word::Repeat(_) | Word::WhileTrue => block_end(p, pc + 1, depth + 1),
            _ => block_end(p, pc + 1, depth),
        }
    }
}

/// Runs `p` from position `pc` on stack `s` up to the first `end` that closes nothing
/// opened after `pc`, or to the end of `p`; gives that position and the stack there.
/// `fuel` bounds the rounds of `while` loops.
pub open spec fn run_from(p: Seq<Word>, pc: int, s: Seq<u128>, fuel: nat) -> Option<(int, Seq<u128>)>
    decreases fuel, p.len() - pc, 0nat,
{
    if pc < 0 {
        None
    } else if pc >= p.len() {
        Some((pc, s))
    } else {
        match p[pc] {
            Word::End => Some((pc, s)),
            Word::Begin => None,
            Word::Repeat(k) => match block_end(p, pc + 1, 0) {
                Some(e) => if pc < e < p.len() {
                    match run_repeat(p, pc + 1, e, k as nat, s, fuel) {
                        Some(t) => run_from(p, e + 1, t, fuel),
                        None => None,
                    }
                } else {
                    None
                },
                None => None,
            },
            Word::WhileTrue => if s.len() >= 1 && s.last() <= 1 {
                match block_end(p, pc + 1, 0) {
                    Some(e) => if pc < e < p.len() {
                        if s.last() == 1 {
                            match run_while(p, pc + 1, e, s.drop_last(), fuel) {
                                Some(t) => run_from(p, e + 1, t, fuel),
                                None => None,
                            }
                        } else {
                            run_from(p, e + 1, s.drop_last(), fuel)
                        }
                    } else {
                        None
                    },
                    None => None,
                }
            } else {
                None
            },
            w => match step(w, s) {
                Some(t) => run_from(p, pc + 1, t, fuel),
                None => None,
            },
        }
    }
}

/// Runs the body at `b`, which ends at `e`, `k` times.
pub open spec fn run_repeat(p: Seq<Word>, b: int, e: int, k: nat, s: Seq<u128>, fuel: nat) -> Option<Seq<u128>>
    decreases fuel, p.len() - b, k,
{
    if k == 0 {
        Some(s)
    } else {
        match run_from(p, b, s, fuel) {
            Some((e2, t)) => if e2 == e {
                run_repeat(p, b, e, (k - 1) as nat, t, fuel)
            } else {
                None
            },
            None => None,
        }
    }
}

/// Runs the body at `b`, which ends at `e`, then pops a flag, and goes round again while
/// the flag is 1; each round takes one unit of `fuel`.
pub open spec fn run_while(p: Seq<Word>, b: int, e: int, s: Seq<u128>, fuel: nat) -> Option<Seq<u128>>
    decreases fuel, p.len() - b, 1nat,
{
    if fuel == 0 {
        None
    } else {
        match run_from(p, b, s, (fuel - 1) as nat) {
            Some((e2, t)) => if e2 == e && t.len() >= 1 && t.last() <= 1 {
                if t.last() == 1 {
                    run_while(p, b, e, t.drop_last(), (fuel - 1) as nat)
                } else {
                    Some(t.drop_last())
                }
            } else {
                None
            },
            None => None,
        }
    }
}

/// The position of the first word at or after `i` that is not blank (`p.len()` if none).
pub open spec fn skip_blanks(p: Seq<Word>, i: int) -> int
    decreases p.len() - i,
{
    if 0 <= i < p.len() && p[i] == Word::Blank {
        skip_blanks(p, i + 1)
    } else {
        i
    }
}

/// Runs a program `begin ... end` (blank lines around it allowed) from an empty stack;
/// gives the final stack.
pub open spec fn run_program(p: Seq<Word>, fuel: nat) -> Option<Seq<u128>> {
    let b = skip_blanks(p, 0);
    if b < p.len() && p[b] == Word::Begin {
        match run_from(p, b + 1, Seq::empty(), fuel) {
            Some((e, t)) => if e < p.len() && skip_blanks(p, e + 1) == p.len() {
                Some(t)
            } else {
                None
            },
            None => None,
        }
    } else {
        None
    }
}

/// The words of a sequence of lines.
pub open spec fn words_of(lines: Seq<Line>) -> Seq<Word> {
    lines.map_values(|l: Line| l.word)
}

/// The top `k` values of a stack, top first.
pub open spec fn outputs(s: Seq<u128>, k: nat) -> Seq<u128> {
    Seq::new(k, |i: int| s[s.len() - 1 - i])
}

// ---------------------------------------------------------------------------------------
// interpreter

fn exec_fits(x: u128, k: usize) -> (b: bool)
    ensures
        b == fits(x, k),
{
    if k >= 128 {
        proof {
            lemma_pow2_127();
            lemma_pow2_unfold(128);
            if k > 128 {
                lemma_pow2_strictly_increases(128, k as nat);
            }
        }
        true
    } else {
        x < pow2_u128(k)
    }
}

fn exec_binary(w: Word, b: u128, a: u128) -> (r: Option<u128>)
    ensures
        r == binary(w, b, a),
{
    match w {
        Word::Add => match b.checked_add(a) {
            Some(v) => if v < MODULUS {
                Some(v)
            } else {
                None
            },
            None => None,
        },
        Word::Sub => if a <= b {
            Some(b - a)
        } else {
            None
        },
        Word::Mul => match b.checked_mul(a) {
            Some(v) => if v < MODULUS {
                Some(v)
            } else {
                None
            },
            None => None,
        },
        Word::Div => if a != 0 && b % a == 0 {
            Some(b / a)
        } else {
            None
        },
        Word::Ne => Some(if a != b { 1 } else { 0 }),
        Word::And => if a <= 1 && b <= 1 {
            Some(if a == 1 && b == 1 { 1 } else { 0 })
        } else {
            None
        },
        Word::Or => if a <= 1 && b <= 1 {
            Some(if a == 1 || b == 1 { 1 } else { 0 })
        } else {
            None
        },
        Word::Lt(k) => if exec_fits(a, k) && exec_fits(b, k) {
            Some(if a < b { 1 } else { 0 })
        } else {
            None
        },
        _ => None,
    }
}

/// Applies a plain instruction to the stack; `false` when the run stops there.
#[verifier::rlimit(40)]
fn exec_step(w: Word, s: &mut Vec<u128>) -> (ok: bool)
    requires
        is_plain(w),
    ensures
        ok == step(w, old(s)@) is Some,
        ok ==> final(s)@ == step(w, old(s)@).unwrap(),
{
    let n = s.len();
    match w {
        Word::Blank => true,
        Word::Push(v) => {
            if v >= MODULUS {
                return false;
            }
            s.push(v);
            true
        },
        Word::Dup(k) => {
            if k < 1 || k > n {
                return false;
            }
            let base = n - k;
            let mut i: usize = 0;
            while i < k
                invariant
                    base + k == n == old(s)@.len(),
                    i <= k,
                    s@ == old(s)@ + old(s)@.subrange(base as int, base + i),
                decreases k - i,
            {
                let v = s[base + i];
                s.push(v);
                i = i + 1;
                assert(s@ =~= old(s)@ + old(s)@.subrange(base as int, base + i));
            }
            true
        },
        Word::Swap(k) => {
            if k < 1 || k > n / 2 {
                return false;
            }
            let mut top = s.split_off(n - k);
            let mut mid = s.split_off(n - 2 * k);
            s.append(&mut top);
            s.append(&mut mid);
            true
        },
        Word::Pick(k) => {
            if k >= n {
                return false;
            }
            let v = s[n - 1 - k];
            s.push(v);
            true
        },
        Word::Roll(k) => {
            if k < 1 || k > n {
                return false;
            }
            let v = s.remove(n - k);
            s.push(v);
            assert(s@ =~= old(s)@.subrange(0, n - k) + old(s)@.subrange(n - k + 1, n as int) + seq![old(s)@[n - k]]);
            true
        },
        Word::Drop(k) => {
            if k > n {
                return false;
            }
            s.truncate(n - k);
            true
        },
        Word::IsOdd(k) => {
            if n < 1 {
                return false;
            }
            let x = s[n - 1];
            if !exec_fits(x, k) {
                return false;
            }
            s.pop();
            s.push(x % 2);
            true
        },
        _ => {
            if n < 2 {
                return false;
            }
            let a = s[n - 1];
            let b = s[n - 2];
            match exec_binary(w, b, a) {
                Some(r) => {
                    s.truncate(n - 2);
                    s.push(r);
                    true
                },
                None => false,
            }
        },
    }
}

/// The position of the `end` that closes the block whose body starts at `b`.
fn find_block_end(p: &Vec<Word>, b: usize) -> (r: Option<usize>)
    ensures
        r matches Some(e) ==> block_end(p@, b as int, 0) == Some(e as int),
        r is None ==> block_end(p@, b as int, 0) is None,
{
    let mut i = b;
    let mut depth: usize = 0;
    while i < p.len()
        invariant
            b <= i,
            depth <= i - b,
            block_end(p@, b as int, 0) == block_end(p@, i as int, depth as nat),
        decreases p.len() - i,
    {
        match p[i] {
            Word::End => {
                if depth == 0 {
                    return Some(i);
                }
                depth = depth - 1;
            },
            Word::Begin | Word::Repeat(_) | Word::WhileTrue => {
                depth = depth + 1;
            },
            _ => {},
        }
        i = i + 1;
    }
    None
}

/// Runs `p` from `pc0` as `run_from` does.
#[verifier::rlimit(40)]
fn exec_from(p: &Vec<Word>, pc0: usize, s: &mut Vec<u128>, fuel: u64) -> (r: Option<usize>)
    ensures
        match run_from(p@, pc0 as int, old(s)@, fuel as nat) {
            Some((e, t)) => r == Some(e as usize) && final(s)@ == t && e == r.unwrap() as int,
            None => r is None,
        },
    decreases p.len() - pc0,
{
    if pc0 >= p.len() {
        return Some(pc0);
    }
    let mut pc = pc0;
    loop
        invariant
            pc0 <= pc <= p.len(),
            run_from(p@, pc0 as int, old(s)@, fuel as nat) == run_from(p@, pc as int, s@, fuel as nat),
        decreases p.len() - pc,
    {
        if pc >= p.len() {
            return Some(pc);
        }
        match p[pc] {
            Word::End => {
                return Some(pc);
            },
            Word::Begin => {
                return None;
            },
            Word::Repeat(k) => {
                let e = match find_block_end(p, pc + 1) {
                    Some(e) => e,
                    None => {
                        return None;
                    },
                };
                if !(pc < e && e < p.len()) {
                    return None;
                }
                let ghost s_start = s@;
                let mut j: usize = 0;
                while j < k
                    invariant
                        pc0 <= pc < e < p.len(),
                        j <= k,
                        p@[pc as int] == Word::Repeat(k),
                        block_end(p@, pc + 1, 0) == Some(e as int),
                        run_from(p@, pc0 as int, old(s)@, fuel as nat) == run_from(p@, pc as int, s_start, fuel as nat),
                        run_repeat(p@, pc + 1, e as int, k as nat, s_start, fuel as nat)
                            == run_repeat(p@, pc + 1, e as int, (k - j) as nat, s@, fuel as nat),
                    decreases k - j,
                {
                    match exec_from(p, pc + 1, s, fuel) {
                        Some(e2) => {
                            if e2 != e {
                                return None;
                            }
                        },
                        None => {
                            return None;
                        },
                    }
                    j = j + 1;
                }
                pc = e + 1;
            },
            Word::WhileTrue => {
                let n = s.len();
                if n < 1 || s[n - 1] > 1 {
                    return None;
                }
                let e = match find_block_end(p, pc + 1) {
                    Some(e) => e,
                    None => {
                        return None;
                    },
                };
                if !(pc < e && e < p.len()) {
                    return None;
                }
                let ghost s_before = s@;
                let first = s.pop();
                if first == Some(1u128) {
                    let ghost s_start = s@;
                    let mut f = fuel;
                    loop
                        invariant_except_break
                            run_while(p@, pc + 1, e as int, s_start, fuel as nat)
                                == run_while(p@, pc + 1, e as int, s@, f as nat),
                        invariant
                            pc0 <= pc < e < p.len(),
                            f <= fuel,
                            p@[pc as int] == Word::WhileTrue,
                            block_end(p@, pc + 1, 0) == Some(e as int),
                            s_before.len() >= 1 && s_before.last() == 1 && s_start == s_before.drop_last(),
                            run_from(p@, pc0 as int, old(s)@, fuel as nat) == run_from(p@, pc as int, s_before, fuel as nat),
                        ensures
                            run_while(p@, pc + 1, e as int, s_start, fuel as nat) == Some(s@),
                        decreases f,
                    {
                        if f == 0 {
                            return None;
                        }
                        match exec_from(p, pc + 1, s, f - 1) {
                            Some(e2) => {
                                if e2 != e {
                                    return None;
                                }
                            },
                            None => {
                                return None;
                            },
                        }
                        let m = s.len();
                        if m < 1 || s[m - 1] > 1 {
                            return None;
                        }
                        let c = s.pop();
                        f = f - 1;
                        if c == Some(0u128) {
                            break;
                        }
                    }
                }
                pc = e + 1;
            },
            w => {
                if !exec_step(w, s) {
                    return None;
                }
                pc = pc + 1;
            },
        }
    }
}

/// What running the program text `t` gives: the top `k` values of the final stack, top
/// first (`None`: the text is not a program, the run stops, or fewer than `k` values remain).
pub open spec fn run_text(t: Seq<char>, k: nat, fuel: nat) -> Option<Seq<u128>> {
    match parse_words(t, false) {
        Some(p) => match run_program(p, fuel) {
            Some(s) => if k <= s.len() {
                Some(outputs(s, k))
            } else {
                None
            },
            None => None,
        },
        None => None,
    }
}

fn find_non_blank(p: &Vec<Word>, i0: usize) -> (r: usize)
    requires
        i0 <= p.len(),
    ensures
        r as int == skip_blanks(p@, i0 as int),
{
    let mut i = i0;
    while i < p.len() && p[i] == Word::Blank
        invariant
            i0 <= i <= p.len(),
            skip_blanks(p@, i0 as int) == skip_blanks(p@, i as int),
        decreases p.len() - i,
    {
        i = i + 1;
    }
    i
}

fn chars_of(s: &str) -> (v: Vec<char>)
    ensures
        v@ == s@,
{
    let mut v: Vec<char> = Vec::new();
    for c in it: s.chars()
        invariant
            v@ == it.seq().take(it.index() as int),
    {
        v.push(c);
    }
    v
}

/// Runs the program text `program` (`begin`, instructions, `end`, as words between
/// spaces, tabs, carriage returns and newlines) from an empty stack, with at most `fuel`
/// rounds of `while` loops, and gives the top `num_outputs` values of the final stack, top
/// first.
#[verifier::rlimit(40)]
pub fn run(program: &str, num_outputs: usize, fuel: u64) -> (r: Option<Vec<u128>>)
    ensures
        r matches Some(v) ==> run_text(program@, num_outputs as nat, fuel as nat) == Some(v@),
        r is None ==> run_text(program@, num_outputs as nat, fuel as nat) is None,
{
    let chars = chars_of(program);
    let words = match read_words(&chars) {
        Some(ws) => ws,
        None => {
            return None;
        },
    };
    let b = find_non_blank(&words, 0);
    if b >= words.len() || words[b] != Word::Begin {
        return None;
    }
    let mut stack: Vec<u128> = Vec::new();
    match exec_from(&words, b + 1, &mut stack, fuel) {
        Some(e) => {
            if e >= words.len() || find_non_blank(&words, e + 1) != words.len() {
                return None;
            }
        },
        None => {
            return None;
        },
    }
    let n = stack.len();
    if num_outputs > n {
        return None;
    }
    let mut out: Vec<u128> = Vec::new();
    let mut j: usize = 0;
    while j < num_outputs
        invariant
            j <= num_outputs <= n == stack@.len(),
            forall|q: int| 0 <= q < j ==> out@[q] == stack@[n - 1 - q],
            out@.len() == j,
        decreases num_outputs - j,
    {
        out.push(stack[n - 1 - j]);
        j = j + 1;
    }
    assert(out@ =~= outputs(stack@, num_outputs as nat));
    Some(out)
}

} // verus!
