//! Running snippets wherever they stand in a program.
//!
//! `moves(f, s, t, m)` says: wherever the words `f` stand in a program, running from the
//! first of them with stack `s` (and at least `m` units of fuel) goes on from the word
//! after them with stack `t`. Snippets are shown to move stacks by composing single
//! instructions, `repeat` blocks and `while` loops.
use vstd::prelude::*;
use crate::program::{Word, Line, text_of};
use crate::vm::{MODULUS, step, binary, is_plain, run_from, run_repeat, run_while, block_end, fits, words_of, run_program,
    run_text, skip_blanks, outputs};
use crate::parse::{lemma_parse_words_text_of, blank_if};

verus! {

/// Wherever the words `f` stand in a program, running from the first of them with stack
/// `s` and at least `fuel_min` fuel goes on from the word after them with stack `t`.
pub open spec fn moves(f: Seq<Word>, s: Seq<u128>, t: Seq<u128>, fuel_min: nat) -> bool {
    forall|p: Seq<Word>, pc: int, fuel: nat|
        #![trigger run_from(p, pc, s, fuel)]
        0 <= pc && pc + f.len() <= p.len() && fuel_min <= fuel && p.subrange(pc, pc + f.len()) == f
            ==> run_from(p, pc, s, fuel) == run_from(p, pc + f.len(), t, fuel)
}

/// No word of `f` opens or closes a block.
pub open spec fn flat(f: Seq<Word>) -> bool {
    forall|i: int| 0 <= i < f.len() ==> is_plain(#[trigger] f[i])
}

pub proof fn lemma_moves_empty(s: Seq<u128>)
    ensures
        moves(Seq::empty(), s, s, 0),
{
}

pub proof fn lemma_moves_fuel(f: Seq<Word>, s: Seq<u128>, t: Seq<u128>, m: nat, m2: nat)
    requires
        moves(f, s, t, m),
        m <= m2,
    ensures
        moves(f, s, t, m2),
{
}

pub proof fn lemma_moves_append(f: Seq<Word>, g: Seq<Word>, s: Seq<u128>, t: Seq<u128>, u: Seq<u128>, m: nat)
    requires
        moves(f, s, t, m),
        moves(g, t, u, m),
    ensures
        moves(f + g, s, u, m),
{
    assert forall|p: Seq<Word>, pc: int, fuel: nat|
        0 <= pc && pc + (f + g).len() <= p.len() && m <= fuel && p.subrange(pc, pc + (f + g).len()) == f + g
        implies #[trigger] run_from(p, pc, s, fuel) == run_from(p, pc + (f + g).len(), u, fuel) by {
        assert(p.subrange(pc, pc + f.len()) =~= f) by {
            assert forall|i: int| 0 <= i < f.len() implies p.subrange(pc, pc + f.len())[i] == f[i] by {
                assert(p.subrange(pc, pc + (f + g).len())[i] == (f + g)[i]);
            }
        }
        assert(p.subrange(pc + f.len(), pc + f.len() + g.len()) =~= g) by {
            assert forall|i: int| 0 <= i < g.len() implies p.subrange(pc + f.len(), pc + f.len() + g.len())[i] == g[i] by {
                assert(p.subrange(pc, pc + (f + g).len())[f.len() + i] == (f + g)[f.len() + i]);
            }
        }
        assert(run_from(p, pc, s, fuel) == run_from(p, pc + f.len(), t, fuel));
        assert(run_from(p, pc + f.len(), t, fuel) == run_from(p, pc + f.len() + g.len(), u, fuel));
    }
}

pub proof fn lemma_moves_step(w: Word, s: Seq<u128>, t: Seq<u128>)
    requires
        is_plain(w),
        step(w, s) == Some(t),
    ensures
        moves(seq![w], s, t, 0),
{
    assert forall|p: Seq<Word>, pc: int, fuel: nat|
        0 <= pc && pc + 1 <= p.len() && p.subrange(pc, pc + 1) == seq![w]
        implies #[trigger] run_from(p, pc, s, fuel) == run_from(p, pc + 1, t, fuel) by {
        assert(p[pc] == p.subrange(pc, pc + 1)[0]);
    }
}

/// Extends a run by one plain word.
pub proof fn lemma_moves_push(f: Seq<Word>, w: Word, s: Seq<u128>, t: Seq<u128>, u: Seq<u128>, m: nat)
    requires
        moves(f, s, t, m),
        is_plain(w),
        step(w, t) == Some(u),
    ensures
        moves(f.push(w), s, u, m),
{
    lemma_moves_step(w, t, u);
    lemma_moves_fuel(seq![w], t, u, 0, m);
    lemma_moves_append(f, seq![w], s, t, u, m);
    assert(f + seq![w] =~= f.push(w));
}

pub proof fn lemma_moves_blank_after(f: Seq<Word>, s: Seq<u128>, t: Seq<u128>, m: nat)
    requires
        moves(f, s, t, m),
    ensures
        moves(f.push(Word::Blank), s, t, m),
{
    lemma_step_blank(t);
    lemma_moves_push(f, Word::Blank, s, t, t, m);
}

pub proof fn lemma_words_of_append(a: Seq<Line>, b: Seq<Line>)
    ensures
        words_of(a + b) == words_of(a) + words_of(b),
{
    assert(words_of(a + b) =~= words_of(a) + words_of(b));
}

pub proof fn lemma_step_push(r: Seq<u128>, v: u128)
    requires
        v < MODULUS,
    ensures
        step(Word::Push(v), r) == Some(r.push(v)),
{
}

pub proof fn lemma_step_blank(r: Seq<u128>)
    ensures
        step(Word::Blank, r) == Some(r),
{
}

pub proof fn lemma_step_dup1(r: Seq<u128>, a: u128)
    ensures
        step(Word::Dup(1), r.push(a)) == Some(r.push(a).push(a)),
{
    let s = r.push(a);
    assert(s + s.subrange(s.len() - 1, s.len() as int) =~= r.push(a).push(a));
}

pub proof fn lemma_step_dup2(r: Seq<u128>, a: u128, b: u128)
    ensures
        step(Word::Dup(2), r.push(a).push(b)) == Some(r.push(a).push(b).push(a).push(b)),
{
    let s = r.push(a).push(b);
    assert(s + s.subrange(s.len() - 2, s.len() as int) =~= r.push(a).push(b).push(a).push(b));
}

pub proof fn lemma_step_swap1(r: Seq<u128>, a: u128, b: u128)
    ensures
        step(Word::Swap(1), r.push(a).push(b)) == Some(r.push(b).push(a)),
{
    let s = r.push(a).push(b);
    let n = s.len() as int;
    assert(s.subrange(0, n - 2) + s.subrange(n - 1, n) + s.subrange(n - 2, n - 1) =~= r.push(b).push(a));
}

pub proof fn lemma_step_swap2(r: Seq<u128>, a: u128, b: u128, c: u128, d: u128)
    ensures
        step(Word::Swap(2), r.push(a).push(b).push(c).push(d)) == Some(r.push(c).push(d).push(a).push(b)),
{
    let s = r.push(a).push(b).push(c).push(d);
    let n = s.len() as int;
    assert(s.subrange(0, n - 4) + s.subrange(n - 2, n) + s.subrange(n - 4, n - 2) =~= r.push(c).push(d).push(a).push(b));
}

pub proof fn lemma_step_pick1(r: Seq<u128>, a: u128, b: u128)
    ensures
        step(Word::Pick(1), r.push(a).push(b)) == Some(r.push(a).push(b).push(a)),
{
}

pub proof fn lemma_step_roll4(r: Seq<u128>, a: u128, b: u128, c: u128, d: u128)
    ensures
        step(Word::Roll(4), r.push(a).push(b).push(c).push(d)) == Some(r.push(b).push(c).push(d).push(a)),
{
    let s = r.push(a).push(b).push(c).push(d);
    let n = s.len() as int;
    assert(s.subrange(0, n - 4) + s.subrange(n - 3, n) + seq![s[n - 4]] =~= r.push(b).push(c).push(d).push(a));
}

pub proof fn lemma_step_drop1(r: Seq<u128>, a: u128)
    ensures
        step(Word::Drop(1), r.push(a)) == Some(r),
{
    let s = r.push(a);
    assert(s.subrange(0, s.len() - 1) =~= r);
}

pub proof fn lemma_step_isodd(r: Seq<u128>, x: u128, k: usize)
    requires
        fits(x, k),
    ensures
        step(Word::IsOdd(k), r.push(x)) == Some(r.push(x % 2)),
{
    assert(r.push(x).drop_last() =~= r);
}

pub proof fn lemma_step_binary(w: Word, r: Seq<u128>, b: u128, a: u128, v: u128)
    requires
        w is Add || w is Sub || w is Mul || w is Div || w is Ne || w is And || w is Or || w is Lt,
        binary(w, b, a) == Some(v),
    ensures
        step(w, r.push(b).push(a)) == Some(r.push(v)),
{
    let s = r.push(b).push(a);
    assert(s.subrange(0, s.len() - 2) =~= r);
}

proof fn lemma_block_end_flat(p: Seq<Word>, b: int, e: int)
    requires
        0 <= b <= e < p.len(),
        forall|i: int| b <= i < e ==> is_plain(#[trigger] p[i]),
        p[e] == Word::End,
    ensures
        block_end(p, b, 0) == Some(e),
    decreases e - b,
{
    if b < e {
        assert(is_plain(p[b]));
        lemma_block_end_flat(p, b + 1, e);
    }
}

/// Where a block `kw body end` stands at `pc`, its parts stand at the expected places.
proof fn lemma_block_parts(p: Seq<Word>, pc: int, kw: Word, body: Seq<Word>)
    requires
        flat(body),
        0 <= pc,
        pc + (seq![kw] + body + seq![Word::End]).len() <= p.len(),
        p.subrange(pc, pc + (seq![kw] + body + seq![Word::End]).len()) == seq![kw] + body + seq![Word::End],
    ensures
        p[pc] == kw,
        p.subrange(pc + 1, pc + 1 + body.len()) == body,
        p[pc + 1 + body.len()] == Word::End,
        block_end(p, pc + 1, 0) == Some(pc + 1 + body.len()),
{
    let f = seq![kw] + body + seq![Word::End];
    let e = pc + 1 + body.len();
    assert(p[pc] == p.subrange(pc, pc + f.len())[0]);
    assert(p[e] == p.subrange(pc, pc + f.len())[1 + body.len() as int]);
    assert(p.subrange(pc + 1, e) =~= body) by {
        assert forall|i: int| 0 <= i < body.len() implies p.subrange(pc + 1, e)[i] == body[i] by {
            assert(p.subrange(pc, pc + f.len())[1 + i] == f[1 + i]);
        }
    }
    assert forall|i: int| pc + 1 <= i < e implies is_plain(#[trigger] p[i]) by {
        assert(p[i] == p.subrange(pc + 1, e)[i - pc - 1]);
    }
    lemma_block_end_flat(p, pc + 1, e);
}

proof fn lemma_run_repeat_states(
    p: Seq<Word>,
    b: int,
    body: Seq<Word>,
    k: nat,
    j: nat,
    states: spec_fn(nat) -> Seq<u128>,
    m: nat,
    fuel: nat,
)
    requires
        0 <= b,
        b + body.len() < p.len(),
        p.subrange(b, b + body.len()) == body,
        p[b + body.len()] == Word::End,
        m <= fuel,
        j <= k,
        forall|i: nat| i < k ==> #[trigger] moves(body, states(i), states(i + 1), m),
    ensures
        run_repeat(p, b, b + body.len(), (k - j) as nat, states(j), fuel) == Some(states(k)),
    decreases k - j,
{
    if j < k {
        assert(moves(body, states(j), states(j + 1), m));
        assert(run_from(p, b, states(j), fuel) == run_from(p, b + body.len(), states(j + 1), fuel));
        lemma_run_repeat_states(p, b, body, k, j + 1, states, m, fuel);
        assert((k - j - 1) as nat == (k - (j + 1)) as nat);
    }
}

/// `repeat.k body end` runs a flat body `k` times.
pub proof fn lemma_moves_repeat(body: Seq<Word>, k: usize, states: spec_fn(nat) -> Seq<u128>, m: nat)
    requires
        flat(body),
        forall|i: nat| i < k ==> #[trigger] moves(body, states(i), states(i + 1), m),
    ensures
        moves(seq![Word::Repeat(k)] + body + seq![Word::End], states(0), states(k as nat), m),
{
    let f = seq![Word::Repeat(k)] + body + seq![Word::End];
    assert forall|p: Seq<Word>, pc: int, fuel: nat|
        0 <= pc && pc + f.len() <= p.len() && m <= fuel && p.subrange(pc, pc + f.len()) == f
        implies #[trigger] run_from(p, pc, states(0), fuel) == run_from(p, pc + f.len(), states(k as nat), fuel) by {
        lemma_block_parts(p, pc, Word::Repeat(k), body);
        lemma_run_repeat_states(p, pc + 1, body, k as nat, 0, states, m, fuel);
    }
}

proof fn lemma_run_while_states(
    p: Seq<Word>,
    b: int,
    body: Seq<Word>,
    k: nat,
    j: nat,
    states: spec_fn(nat) -> Seq<u128>,
    fuel: nat,
)
    requires
        0 <= b,
        b + body.len() < p.len(),
        p.subrange(b, b + body.len()) == body,
        p[b + body.len()] == Word::End,
        j < k,
        k - j <= fuel,
        forall|i: nat| i <= k ==> (#[trigger] states(i)).len() >= 1,
        forall|i: nat| i < k ==> (#[trigger] states(i)).last() == 1,
        forall|i: nat| i < k ==> #[trigger] moves(body, states(i).drop_last(), states(i + 1), 0),
        states(k).last() == 0,
    ensures
        run_while(p, b, b + body.len(), states(j).drop_last(), fuel) == Some(states(k).drop_last()),
    decreases k - j,
{
    assert(moves(body, states(j).drop_last(), states(j + 1), 0));
    assert(run_from(p, b, states(j).drop_last(), (fuel - 1) as nat)
        == run_from(p, b + body.len(), states(j + 1), (fuel - 1) as nat));
    assert(states(j + 1).len() >= 1);
    if j + 1 < k {
        assert(states(j + 1).last() == 1);
        lemma_run_while_states(p, b, body, k, j + 1, states, (fuel - 1) as nat);
    }
}

/// `while.true body end` runs a flat body while the flag on top is 1: here, for `k` rounds.
pub proof fn lemma_moves_while(body: Seq<Word>, k: nat, states: spec_fn(nat) -> Seq<u128>)
    requires
        flat(body),
        forall|i: nat| i <= k ==> (#[trigger] states(i)).len() >= 1,
        forall|i: nat| i < k ==> (#[trigger] states(i)).last() == 1,
        forall|i: nat| i < k ==> #[trigger] moves(body, states(i).drop_last(), states(i + 1), 0),
        states(k).last() == 0,
    ensures
        moves(seq![Word::WhileTrue] + body + seq![Word::End], states(0), states(k).drop_last(), k),
{
    let f = seq![Word::WhileTrue] + body + seq![Word::End];
    assert(states(0).len() >= 1);
    assert forall|p: Seq<Word>, pc: int, fuel: nat|
        0 <= pc && pc + f.len() <= p.len() && k <= fuel && p.subrange(pc, pc + f.len()) == f
        implies #[trigger] run_from(p, pc, states(0), fuel) == run_from(p, pc + f.len(), states(k).drop_last(), fuel) by {
        lemma_block_parts(p, pc, Word::WhileTrue, body);
        if k > 0 {
            assert(states(0).last() == 1);
            lemma_run_while_states(p, pc + 1, body, k, 0, states, fuel);
        }
    }
}

/// Wherever the words `f` stand in a program, a run from the first of them with stack `s`
/// and less than `bound` fuel stops without a result.
pub open spec fn stops_below(f: Seq<Word>, s: Seq<u128>, bound: nat) -> bool {
    forall|p: Seq<Word>, pc: int, fuel: nat|
        #![trigger run_from(p, pc, s, fuel)]
        0 <= pc && pc + f.len() <= p.len() && fuel < bound && p.subrange(pc, pc + f.len()) == f
            ==> run_from(p, pc, s, fuel) is None
}

/// Wherever the words `f` stand in a program, a run from the first of them with stack `s`
/// stops without a result, however much fuel it is given: it never ends.
pub open spec fn never_ends(f: Seq<Word>, s: Seq<u128>) -> bool {
    forall|bound: nat| #[trigger] stops_below(f, s, bound)
}

/// Words that move `s` to `t`, then words that stop from `t`: together they stop from `s`.
pub proof fn lemma_stops_after(f: Seq<Word>, g: Seq<Word>, s: Seq<u128>, t: Seq<u128>, bound: nat)
    requires
        moves(f, s, t, 0),
        stops_below(g, t, bound),
    ensures
        stops_below(f + g, s, bound),
{
    assert forall|p: Seq<Word>, pc: int, fuel: nat|
        0 <= pc && pc + (f + g).len() <= p.len() && fuel < bound && p.subrange(pc, pc + (f + g).len()) == f + g
        implies #[trigger] run_from(p, pc, s, fuel) is None by {
        assert(p.subrange(pc, pc + f.len()) =~= f) by {
            assert forall|i: int| 0 <= i < f.len() implies p.subrange(pc, pc + f.len())[i] == f[i] by {
                assert(p.subrange(pc, pc + (f + g).len())[i] == (f + g)[i]);
            }
        }
        assert(p.subrange(pc + f.len(), pc + f.len() + g.len()) =~= g) by {
            assert forall|i: int| 0 <= i < g.len() implies p.subrange(pc + f.len(), pc + f.len() + g.len())[i] == g[i] by {
                assert(p.subrange(pc, pc + (f + g).len())[f.len() + i] == (f + g)[f.len() + i]);
            }
        }
        assert(run_from(p, pc, s, fuel) == run_from(p, pc + f.len(), t, fuel));
        assert(run_from(p, pc + f.len(), t, fuel) is None);
    }
}

/// Words that stop from `s` stop from `s` whatever follows them.
pub proof fn lemma_stops_before(f: Seq<Word>, g: Seq<Word>, s: Seq<u128>, bound: nat)
    requires
        stops_below(f, s, bound),
    ensures
        stops_below(f + g, s, bound),
{
    assert forall|p: Seq<Word>, pc: int, fuel: nat|
        0 <= pc && pc + (f + g).len() <= p.len() && fuel < bound && p.subrange(pc, pc + (f + g).len()) == f + g
        implies #[trigger] run_from(p, pc, s, fuel) is None by {
        assert(p.subrange(pc, pc + f.len()) =~= f) by {
            assert forall|i: int| 0 <= i < f.len() implies p.subrange(pc, pc + f.len())[i] == f[i] by {
                assert(p.subrange(pc, pc + (f + g).len())[i] == (f + g)[i]);
            }
        }
    }
}

proof fn lemma_run_while_short(
    p: Seq<Word>,
    b: int,
    body: Seq<Word>,
    k: nat,
    j: nat,
    states: spec_fn(nat) -> Seq<u128>,
    fuel: nat,
)
    requires
        0 <= b,
        b + body.len() < p.len(),
        p.subrange(b, b + body.len()) == body,
        p[b + body.len()] == Word::End,
        j < k,
        fuel < k - j,
        forall|i: nat| i <= k ==> (#[trigger] states(i)).len() >= 1,
        forall|i: nat| i < k ==> (#[trigger] states(i)).last() == 1,
        forall|i: nat| i < k ==> #[trigger] moves(body, states(i).drop_last(), states(i + 1), 0),
    ensures
        run_while(p, b, b + body.len(), states(j).drop_last(), fuel) is None,
    decreases fuel,
{
    if fuel > 0 {
        assert(moves(body, states(j).drop_last(), states(j + 1), 0));
        assert(run_from(p, b, states(j).drop_last(), (fuel - 1) as nat)
            == run_from(p, b + body.len(), states(j + 1), (fuel - 1) as nat));
        assert(states(j + 1).len() >= 1);
        assert(states(j + 1).last() == 1);
        lemma_run_while_short(p, b, body, k, j + 1, states, (fuel - 1) as nat);
    }
}

/// The loop of `lemma_moves_while` takes all of its `k` rounds of fuel: with less, the run
/// stops.
pub proof fn lemma_while_needs_fuel(body: Seq<Word>, k: nat, states: spec_fn(nat) -> Seq<u128>)
    requires
        flat(body),
        forall|i: nat| i <= k ==> (#[trigger] states(i)).len() >= 1,
        forall|i: nat| i < k ==> (#[trigger] states(i)).last() == 1,
        forall|i: nat| i < k ==> #[trigger] moves(body, states(i).drop_last(), states(i + 1), 0),
    ensures
        stops_below(seq![Word::WhileTrue] + body + seq![Word::End], states(0), k),
{
    let f = seq![Word::WhileTrue] + body + seq![Word::End];
    assert forall|p: Seq<Word>, pc: int, fuel: nat|
        0 <= pc && pc + f.len() <= p.len() && fuel < k && p.subrange(pc, pc + f.len()) == f
        implies #[trigger] run_from(p, pc, states(0), fuel) is None by {
        lemma_block_parts(p, pc, Word::WhileTrue, body);
        assert(states(0).last() == 1);
        lemma_run_while_short(p, pc + 1, body, k, 0, states, fuel);
    }
}

proof fn lemma_run_while_forever(p: Seq<Word>, b: int, body: Seq<Word>, s: Seq<u128>, fuel: nat)
    requires
        0 <= b,
        b + body.len() < p.len(),
        p.subrange(b, b + body.len()) == body,
        p[b + body.len()] == Word::End,
        moves(body, s, s.push(1), 0),
    ensures
        run_while(p, b, b + body.len(), s, fuel) is None,
    decreases fuel,
{
    if fuel > 0 {
        assert(run_from(p, b, s, (fuel - 1) as nat) == run_from(p, b + body.len(), s.push(1), (fuel - 1) as nat));
        assert(s.push(1).drop_last() =~= s);
        lemma_run_while_forever(p, b, body, s, (fuel - 1) as nat);
    }
}

/// A `while.true` loop whose flat body brings the stack `s` back to `s` with the flag 1 on
/// top never ends when entered with `s` under the flag 1.
pub proof fn lemma_while_never_ends(body: Seq<Word>, s: Seq<u128>)
    requires
        flat(body),
        moves(body, s, s.push(1), 0),
    ensures
        never_ends(seq![Word::WhileTrue] + body + seq![Word::End], s.push(1)),
{
    let f = seq![Word::WhileTrue] + body + seq![Word::End];
    assert forall|bound: nat| #[trigger] stops_below(f, s.push(1), bound) by {
        assert forall|p: Seq<Word>, pc: int, fuel: nat|
            0 <= pc && pc + f.len() <= p.len() && fuel < bound && p.subrange(pc, pc + f.len()) == f
            implies #[trigger] run_from(p, pc, s.push(1), fuel) is None by {
            lemma_block_parts(p, pc, Word::WhileTrue, body);
            assert(s.push(1).drop_last() =~= s);
            lemma_run_while_forever(p, pc + 1, body, s, fuel);
        }
    }
}

/// A program `begin f end` gives the stack that `f` leaves when started on the empty stack.
pub proof fn law_run_program(f: Seq<Word>, t: Seq<u128>, m: nat, fuel: nat)
    requires
        moves(f, Seq::empty(), t, m),
        m <= fuel,
    ensures
        run_program(seq![Word::Begin] + f + seq![Word::End], fuel) == Some(t),
{
    let p = seq![Word::Begin] + f + seq![Word::End];
    assert(p[0] == Word::Begin);
    assert(skip_blanks(p, 0) == 0);
    assert(p.subrange(1, 1 + f.len() as int) =~= f);
    assert(run_from(p, 1, Seq::empty(), fuel) == run_from(p, 1 + f.len() as int, t, fuel));
    assert(p[1 + f.len() as int] == Word::End);
    assert(skip_blanks(p, p.len() as int) == p.len());
}

/// The text of lines whose words are `begin f end` runs to the stack that `f` leaves when
/// started on the empty stack: reading the text back gives the lines' words, and running
/// them gives that stack, whose top `k` values are the outputs.
pub proof fn law_run_text(lines: Seq<Line>, f: Seq<Word>, t: Seq<u128>, m: nat, k: nat, fuel: nat)
    requires
        words_of(lines) == seq![Word::Begin] + f + seq![Word::End],
        moves(f, Seq::empty(), t, m),
        m <= fuel,
        k <= t.len(),
    ensures
        run_text(text_of(lines), k, fuel) == Some(outputs(t, k)),
{
    lemma_parse_words_text_of(lines, false);
    assert(blank_if(false) + words_of(lines) =~= words_of(lines));
    law_run_program(f, t, m, fuel);
}

} // verus!
