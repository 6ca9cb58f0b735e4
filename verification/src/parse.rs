//! Reading assembly text back into lines, and into its words.
use vstd::prelude::*;
use crate::decimal::{dec, dec_value, lemma_dec_value_of_dec, digit_char};
use crate::program::{Word, Line, ln, word_text, line_text, text_of, spaces, with_param, lemma_text_of_append};
use crate::vm::words_of;

verus! {

pub open spec fn lit_begin() -> Seq<char> { seq!['b', 'e', 'g', 'i', 'n'] }
pub open spec fn lit_end() -> Seq<char> { seq!['e', 'n', 'd'] }
pub open spec fn lit_add() -> Seq<char> { seq!['a', 'd', 'd'] }
pub open spec fn lit_sub() -> Seq<char> { seq!['s', 'u', 'b'] }
pub open spec fn lit_mul() -> Seq<char> { seq!['m', 'u', 'l'] }
pub open spec fn lit_div() -> Seq<char> { seq!['d', 'i', 'v'] }
pub open spec fn lit_ne() -> Seq<char> { seq!['n', 'e'] }
pub open spec fn lit_and() -> Seq<char> { seq!['a', 'n', 'd'] }
pub open spec fn lit_or() -> Seq<char> { seq!['o', 'r'] }
pub open spec fn lit_while() -> Seq<char> { seq!['w', 'h', 'i', 'l', 'e', '.', 't', 'r', 'u', 'e'] }
pub open spec fn pre_push() -> Seq<char> { seq!['p', 'u', 's', 'h', '.'] }
pub open spec fn pre_dup() -> Seq<char> { seq!['d', 'u', 'p', '.'] }
pub open spec fn pre_swap() -> Seq<char> { seq!['s', 'w', 'a', 'p', '.'] }
pub open spec fn pre_pick() -> Seq<char> { seq!['p', 'i', 'c', 'k', '.'] }
pub open spec fn pre_roll() -> Seq<char> { seq!['r', 'o', 'l', 'l', '.'] }
pub open spec fn pre_drop() -> Seq<char> { seq!['d', 'r', 'o', 'p', '.'] }
pub open spec fn pre_isodd() -> Seq<char> { seq!['i', 's', 'o', 'd', 'd', '.'] }
pub open spec fn pre_lt() -> Seq<char> { seq!['l', 't', '.'] }
pub open spec fn pre_repeat() -> Seq<char> { seq!['r', 'e', 'p', 'e', 'a', 't', '.'] }

/// `w` is `pre` followed by at least one more character.
pub open spec fn has_prefix(w: Seq<char>, pre: Seq<char>) -> bool {
    pre.len() < w.len() && w.take(pre.len() as int) == pre
}

/// The number written after `pre` in `w`, if it is one and fits in `usize`.
pub open spec fn usize_param(w: Seq<char>, pre: Seq<char>) -> Option<usize> {
    match dec_value(w.skip(pre.len() as int)) {
        Some(v) => if v <= usize::MAX {
            Some(v as usize)
        } else {
            None
        },
        None => None,
    }
}

/// The word with a number: `pre` and the number, which must fit in `usize`.
pub open spec fn param_word(w: Seq<char>, pre: Seq<char>, make: spec_fn(usize) -> Word) -> Option<Word> {
    match usize_param(w, pre) {
        Some(k) => Some(make(k)),
        None => None,
    }
}

/// The word whose text is `w`.
pub open spec fn parse_word(w: Seq<char>) -> Option<Word> {
    if w.len() == 0 {
        Some(Word::Blank)
    } else {
        let c = w[0];
        if c == 'a' {
            if w == lit_add() {
                Some(Word::Add)
            } else if w == lit_and() {
                Some(Word::And)
            } else {
                None
            }
        } else if c == 'b' {
            if w == lit_begin() {
                Some(Word::Begin)
            } else {
                None
            }
        } else if c == 'd' {
            if w == lit_div() {
                Some(Word::Div)
            } else if has_prefix(w, pre_dup()) {
                param_word(w, pre_dup(), |k: usize| Word::Dup(k))
            } else if has_prefix(w, pre_drop()) {
                param_word(w, pre_drop(), |k: usize| Word::Drop(k))
            } else {
                None
            }
        } else if c == 'e' {
            if w == lit_end() {
                Some(Word::End)
            } else {
                None
            }
        } else if c == 'i' {
            if has_prefix(w, pre_isodd()) {
                param_word(w, pre_isodd(), |k: usize| Word::IsOdd(k))
            } else {
                None
            }
        } else if c == 'l' {
            if has_prefix(w, pre_lt()) {
                param_word(w, pre_lt(), |k: usize| Word::Lt(k))
            } else {
                None
            }
        } else if c == 'm' {
            if w == lit_mul() {
                Some(Word::Mul)
            } else {
                None
            }
        } else if c == 'n' {
            if w == lit_ne() {
                Some(Word::Ne)
            } else {
                None
            }
        } else if c == 'o' {
            if w == lit_or() {
                Some(Word::Or)
            } else {
                None
            }
        } else if c == 'p' {
            if has_prefix(w, pre_push()) {
                match dec_value(w.skip(5)) {
                    Some(v) => if v <= u128::MAX {
                        Some(Word::Push(v as u128))
                    } else {
                        None
                    },
                    None => None,
                }
            } else if has_prefix(w, pre_pick()) {
                param_word(w, pre_pick(), |k: usize| Word::Pick(k))
            } else {
                None
            }
        } else if c == 'r' {
            if has_prefix(w, pre_roll()) {
                param_word(w, pre_roll(), |k: usize| Word::Roll(k))
            } else if has_prefix(w, pre_repeat()) {
                param_word(w, pre_repeat(), |k: usize| Word::Repeat(k))
            } else {
                None
            }
        } else if c == 's' {
            if w == lit_sub() {
                Some(Word::Sub)
            } else if has_prefix(w, pre_swap()) {
                param_word(w, pre_swap(), |k: usize| Word::Swap(k))
            } else {
                None
            }
        } else if c == 'w' {
            if w == lit_while() {
                Some(Word::WhileTrue)
            } else {
                None
            }
        } else {
            None
        }
    }
}

/// The number of characters of `t` before its first newline (all of them if it has none).
pub open spec fn line_len(t: Seq<char>) -> nat
    decreases t.len(),
{
    if t.len() == 0 || t[0] == '\n' {
        0
    } else {
        1 + line_len(t.drop_first())
    }
}

/// The number of spaces that `t` starts with.
pub open spec fn leading_spaces(t: Seq<char>) -> nat
    decreases t.len(),
{
    if t.len() == 0 || t[0] != ' ' {
        0
    } else {
        1 + leading_spaces(t.drop_first())
    }
}

pub proof fn lemma_line_len_bound(t: Seq<char>)
    ensures
        line_len(t) <= t.len(),
    decreases t.len(),
{
    if t.len() > 0 && t[0] != '\n' {
        lemma_line_len_bound(t.drop_first());
    }
}

pub proof fn lemma_leading_spaces_bound(t: Seq<char>)
    ensures
        leading_spaces(t) <= t.len(),
    decreases t.len(),
{
    if t.len() > 0 && t[0] == ' ' {
        lemma_leading_spaces_bound(t.drop_first());
    }
}

/// A line without its newline: indentation, then a word.
pub open spec fn parse_line(b: Seq<char>) -> Option<Line> {
    let k = leading_spaces(b);
    match parse_word(b.skip(k as int)) {
        Some(w) => if k <= usize::MAX {
            Some(ln(k as usize, w))
        } else {
            None
        },
        None => None,
    }
}

/// The lines of a text made of lines, each a newline, spaces and a word.
pub open spec fn parse_lines(t: Seq<char>) -> Option<Seq<Line>>
    decreases t.len(),
{
    if t.len() == 0 {
        Some(Seq::empty())
    } else if t[0] != '\n' {
        None
    } else {
        let rest = t.drop_first();
        let k = line_len(rest);
        proof {
            lemma_line_len_bound(rest);
        }
        match parse_line(rest.take(k as int)) {
            Some(l) => match parse_lines(rest.skip(k as int)) {
                Some(ls) => Some(seq![l] + ls),
                None => None,
            },
            None => None,
        }
    }
}

/// A character that separates words on a line: a space, a tab or a carriage return.
pub open spec fn is_gap(c: char) -> bool {
    c == ' ' || c == '\t' || c == '\r'
}

/// The number of characters at the start of `t` before a gap or a newline: the length of
/// the word there.
pub open spec fn token_len(t: Seq<char>) -> nat
    decreases t.len(),
{
    if t.len() == 0 || is_gap(t[0]) || t[0] == '\n' {
        0
    } else {
        1 + token_len(t.drop_first())
    }
}

pub proof fn lemma_token_len_bound(t: Seq<char>)
    ensures
        token_len(t) <= t.len(),
    decreases t.len(),
{
    if t.len() > 0 && !is_gap(t[0]) && t[0] != '\n' {
        lemma_token_len_bound(t.drop_first());
    }
}

/// `seq![Word::Blank]` if `b`, else nothing.
pub open spec fn blank_if(b: bool) -> Seq<Word> {
    if b {
        seq![Word::Blank]
    } else {
        Seq::empty()
    }
}

/// `acc` followed by the words of `rest`, if `rest` parses.
pub open spec fn prepend_words(acc: Seq<Word>, rest: Option<Seq<Word>>) -> Option<Seq<Word>> {
    match rest {
        Some(r) => Some(acc + r),
        None => None,
    }
}

/// The words of assembly text: each run of characters between gaps and newlines is one
/// word, and a line (begun by a newline) on which no word stands is a blank word. `blank`
/// says that the text is the rest of such a line with no word on it so far; what stands
/// before the first newline of a whole text (`blank` false) gives its words only.
pub open spec fn parse_words(t: Seq<char>, blank: bool) -> Option<Seq<Word>>
    decreases t.len(),
{
    if t.len() == 0 {
        Some(blank_if(blank))
    } else if t[0] == '\n' {
        prepend_words(blank_if(blank), parse_words(t.drop_first(), true))
    } else if is_gap(t[0]) {
        parse_words(t.drop_first(), blank)
    } else {
        let k = token_len(t);
        proof {
            lemma_token_len_bound(t);
        }
        if k == 0 {
            None
        } else {
            match parse_word(t.take(k as int)) {
                Some(w) => prepend_words(seq![w], parse_words(t.skip(k as int), false)),
                None => None,
            }
        }
    }
}

/// The text of `name.v` starts with `name.` and continues with the decimal notation of `v`.
proof fn lemma_param_text(name: Seq<char>, v: nat)
    ensures
        has_prefix(with_param(name, v), name.push('.')),
        with_param(name, v).skip(name.len() + 1int) == dec(v),
        with_param(name, v).len() == name.len() + 1 + dec(v).len(),
        with_param(name, v)[0] == (if name.len() > 0 { name[0] } else { '.' }),
{
    lemma_dec_value_of_dec(v);
    let t = with_param(name, v);
    assert(t.take(name.len() + 1int) =~= name.push('.'));
    assert(t.skip(name.len() + 1int) =~= dec(v));
}

proof fn lemma_parse_param(name: Seq<char>, pre: Seq<char>, k: usize, make: spec_fn(usize) -> Word)
    requires
        pre == name.push('.'),
    ensures
        has_prefix(with_param(name, k as nat), pre),
        param_word(with_param(name, k as nat), pre, make) == Some(make(k)),
{
    lemma_param_text(name, k as nat);
    lemma_dec_value_of_dec(k as nat);
}

proof fn lemma_pw_push(v: u128)
    ensures
        parse_word(word_text(Word::Push(v))) == Some(Word::Push(v)),
{
    lemma_param_text(seq!['p', 'u', 's', 'h'], v as nat);
    assert(seq!['p', 'u', 's', 'h'].push('.') =~= pre_push());
    lemma_dec_value_of_dec(v as nat);
}

proof fn lemma_pw_dup(k: usize)
    ensures
        parse_word(word_text(Word::Dup(k))) == Some(Word::Dup(k)),
{
    let t = word_text(Word::Dup(k));
    assert(seq!['d', 'u', 'p'].push('.') =~= pre_dup());
    lemma_parse_param(seq!['d', 'u', 'p'], pre_dup(), k, |k: usize| Word::Dup(k));
    lemma_param_text(seq!['d', 'u', 'p'], k as nat);
    assert(t.len() != 3);
}

proof fn lemma_pw_drop(k: usize)
    ensures
        parse_word(word_text(Word::Drop(k))) == Some(Word::Drop(k)),
{
    let t = word_text(Word::Drop(k));
    assert(seq!['d', 'r', 'o', 'p'].push('.') =~= pre_drop());
    lemma_parse_param(seq!['d', 'r', 'o', 'p'], pre_drop(), k, |k: usize| Word::Drop(k));
    lemma_param_text(seq!['d', 'r', 'o', 'p'], k as nat);
    assert(t.len() != 3);
    assert(t.take(4)[1] != pre_dup()[1]);
}

proof fn lemma_pw_swap(k: usize)
    ensures
        parse_word(word_text(Word::Swap(k))) == Some(Word::Swap(k)),
{
    let t = word_text(Word::Swap(k));
    assert(seq!['s', 'w', 'a', 'p'].push('.') =~= pre_swap());
    lemma_parse_param(seq!['s', 'w', 'a', 'p'], pre_swap(), k, |k: usize| Word::Swap(k));
    lemma_param_text(seq!['s', 'w', 'a', 'p'], k as nat);
    assert(t.len() != 3);
}

proof fn lemma_pw_pick(k: usize)
    ensures
        parse_word(word_text(Word::Pick(k))) == Some(Word::Pick(k)),
{
    let t = word_text(Word::Pick(k));
    assert(seq!['p', 'i', 'c', 'k'].push('.') =~= pre_pick());
    lemma_parse_param(seq!['p', 'i', 'c', 'k'], pre_pick(), k, |k: usize| Word::Pick(k));
    lemma_param_text(seq!['p', 'i', 'c', 'k'], k as nat);
    assert(t.take(5)[1] != pre_push()[1]);
}

proof fn lemma_pw_roll(k: usize)
    ensures
        parse_word(word_text(Word::Roll(k))) == Some(Word::Roll(k)),
{
    let t = word_text(Word::Roll(k));
    assert(seq!['r', 'o', 'l', 'l'].push('.') =~= pre_roll());
    lemma_parse_param(seq!['r', 'o', 'l', 'l'], pre_roll(), k, |k: usize| Word::Roll(k));
    lemma_param_text(seq!['r', 'o', 'l', 'l'], k as nat);
}

proof fn lemma_pw_repeat(k: usize)
    ensures
        parse_word(word_text(Word::Repeat(k))) == Some(Word::Repeat(k)),
{
    let t = word_text(Word::Repeat(k));
    assert(seq!['r', 'e', 'p', 'e', 'a', 't'].push('.') =~= pre_repeat());
    lemma_parse_param(seq!['r', 'e', 'p', 'e', 'a', 't'], pre_repeat(), k, |k: usize| Word::Repeat(k));
    lemma_param_text(seq!['r', 'e', 'p', 'e', 'a', 't'], k as nat);
    assert(t.take(5)[1] != pre_roll()[1]);
}

proof fn lemma_pw_isodd(k: usize)
    ensures
        parse_word(word_text(Word::IsOdd(k))) == Some(Word::IsOdd(k)),
{
    let t = word_text(Word::IsOdd(k));
    assert(seq!['i', 's', 'o', 'd', 'd'].push('.') =~= pre_isodd());
    lemma_parse_param(seq!['i', 's', 'o', 'd', 'd'], pre_isodd(), k, |k: usize| Word::IsOdd(k));
    lemma_param_text(seq!['i', 's', 'o', 'd', 'd'], k as nat);
}

proof fn lemma_pw_lt(k: usize)
    ensures
        parse_word(word_text(Word::Lt(k))) == Some(Word::Lt(k)),
{
    let t = word_text(Word::Lt(k));
    assert(seq!['l', 't'].push('.') =~= pre_lt());
    lemma_parse_param(seq!['l', 't'], pre_lt(), k, |k: usize| Word::Lt(k));
    lemma_param_text(seq!['l', 't'], k as nat);
}

proof fn lemma_pw_plain(w: Word)
    requires
        !(w is Push || w is Dup || w is Drop || w is Swap || w is Pick || w is Roll || w is Repeat
            || w is IsOdd || w is Lt),
    ensures
        parse_word(word_text(w)) == Some(w),
{
    let t = word_text(w);
    if w is And {
        assert(t[1] != lit_add()[1]);
    }
}

/// Reading back the text of a word gives the word.
pub proof fn lemma_parse_word_text(w: Word)
    ensures
        parse_word(word_text(w)) == Some(w),
{
    match w {
        Word::Push(v) => lemma_pw_push(v),
        Word::Dup(k) => lemma_pw_dup(k),
        Word::Drop(k) => lemma_pw_drop(k),
        Word::Swap(k) => lemma_pw_swap(k),
        Word::Pick(k) => lemma_pw_pick(k),
        Word::Roll(k) => lemma_pw_roll(k),
        Word::Repeat(k) => lemma_pw_repeat(k),
        Word::IsOdd(k) => lemma_pw_isodd(k),
        Word::Lt(k) => lemma_pw_lt(k),
        _ => lemma_pw_plain(w),
    }
}

proof fn lemma_dec_digits(v: nat)
    ensures
        forall|i: int| 0 <= i < dec(v).len() ==> '0' <= #[trigger] dec(v)[i] <= '9',
    decreases v,
{
    let c = digit_char(v % 10);
    assert(c as nat == v % 10 + 48);
    assert('0' <= c <= '9');
    if v >= 10 {
        lemma_dec_digits(v / 10);
        assert forall|i: int| 0 <= i < dec(v).len() implies '0' <= #[trigger] dec(v)[i] <= '9' by {
            if i < dec(v).len() - 1 {
                assert(dec(v)[i] == dec(v / 10)[i]);
            }
        }
    }
}

/// A word's text holds no newline and no space.
proof fn lemma_word_text_chars(w: Word)
    ensures
        forall|i: int| 0 <= i < word_text(w).len() ==> #[trigger] word_text(w)[i] != '\n' && word_text(w)[i] != ' ',
{
    match w {
        Word::Push(v) => lemma_dec_digits(v as nat),
        Word::Dup(k) => lemma_dec_digits(k as nat),
        Word::Drop(k) => lemma_dec_digits(k as nat),
        Word::Swap(k) => lemma_dec_digits(k as nat),
        Word::Pick(k) => lemma_dec_digits(k as nat),
        Word::Roll(k) => lemma_dec_digits(k as nat),
        Word::Repeat(k) => lemma_dec_digits(k as nat),
        Word::IsOdd(k) => lemma_dec_digits(k as nat),
        Word::Lt(k) => lemma_dec_digits(k as nat),
        _ => {},
    }
}

proof fn lemma_line_len_prefix(a: Seq<char>, b: Seq<char>)
    requires
        forall|i: int| 0 <= i < a.len() ==> #[trigger] a[i] != '\n',
        b.len() == 0 || b[0] == '\n',
    ensures
        line_len(a + b) == a.len(),
    decreases a.len(),
{
    if a.len() == 0 {
        assert(a + b =~= b);
    } else {
        assert((a + b).drop_first() =~= a.drop_first() + b);
        lemma_line_len_prefix(a.drop_first(), b);
    }
}

proof fn lemma_leading_spaces_prefix(k: nat, w: Seq<char>)
    requires
        w.len() == 0 || w[0] != ' ',
    ensures
        leading_spaces(spaces(k) + w) == k,
    decreases k,
{
    if k == 0 {
        assert(spaces(k) + w =~= w);
    } else {
        assert((spaces(k) + w).drop_first() =~= spaces((k - 1) as nat) + w);
        lemma_leading_spaces_prefix((k - 1) as nat, w);
    }
}

proof fn lemma_text_of_first(ls: Seq<Line>)
    requires
        ls.len() > 0,
    ensures
        text_of(ls) == line_text(ls[0]) + text_of(ls.drop_first()),
{
    assert(ls =~= seq![ls[0]] + ls.drop_first());
    lemma_text_of_append(seq![ls[0]], ls.drop_first());
    assert(seq![ls[0]].drop_last() =~= Seq::<Line>::empty());
    assert(text_of(Seq::<Line>::empty()) + line_text(ls[0]) =~= line_text(ls[0]));
    assert(text_of(seq![ls[0]]) == line_text(ls[0]));
}

/// Reading back the text of a line gives the line.
pub proof fn lemma_parse_line_text(l: Line)
    ensures
        parse_line(spaces(l.indent as nat) + word_text(l.word)) == Some(l),
{
    let wt = word_text(l.word);
    lemma_word_text_chars(l.word);
    if wt.len() > 0 {
        assert(wt[0] != ' ');
    }
    let b = spaces(l.indent as nat) + wt;
    lemma_leading_spaces_prefix(l.indent as nat, wt);
    assert(b.skip(l.indent as int) =~= wt);
    lemma_parse_word_text(l.word);
}

/// Reading back the text of lines gives the lines: `read_lines` undoes `render`.
#[verifier::rlimit(40)]
pub proof fn lemma_parse_text_of(ls: Seq<Line>)
    ensures
        parse_lines(text_of(ls)) == Some(ls),
    decreases ls.len(),
{
    if ls.len() == 0 {
    } else {
        let l = ls[0];
        let rest = ls.drop_first();
        lemma_text_of_first(ls);
        lemma_parse_text_of(rest);
        let rt = text_of(rest);
        if rest.len() > 0 {
            lemma_text_of_first(rest);
            assert(rt[0] == '\n');
        }
        let body = spaces(l.indent as nat) + word_text(l.word);
        let t = text_of(ls);
        assert(t =~= seq!['\n'] + body + rt);
        assert(t.drop_first() =~= body + rt);
        lemma_word_text_chars(l.word);
        assert forall|i: int| 0 <= i < body.len() implies #[trigger] body[i] != '\n' by {
            if i >= l.indent {
                assert(body[i] == word_text(l.word)[i - l.indent]);
            }
        }
        lemma_line_len_prefix(body, rt);
        assert((body + rt).take(body.len() as int) =~= body);
        assert((body + rt).skip(body.len() as int) =~= rt);
        lemma_parse_line_text(l);
        assert(seq![l] + rest =~= ls);
    }
}

proof fn lemma_word_text_no_gap(w: Word)
    ensures
        forall|i: int| 0 <= i < word_text(w).len() ==> !is_gap(#[trigger] word_text(w)[i]) && word_text(w)[i] != '\n',
{
    match w {
        Word::Push(v) => lemma_dec_digits(v as nat),
        Word::Dup(k) => lemma_dec_digits(k as nat),
        Word::Drop(k) => lemma_dec_digits(k as nat),
        Word::Swap(k) => lemma_dec_digits(k as nat),
        Word::Pick(k) => lemma_dec_digits(k as nat),
        Word::Roll(k) => lemma_dec_digits(k as nat),
        Word::Repeat(k) => lemma_dec_digits(k as nat),
        Word::IsOdd(k) => lemma_dec_digits(k as nat),
        Word::Lt(k) => lemma_dec_digits(k as nat),
        _ => {},
    }
}

proof fn lemma_token_len_prefix(a: Seq<char>, b: Seq<char>)
    requires
        forall|i: int| 0 <= i < a.len() ==> !is_gap(#[trigger] a[i]) && a[i] != '\n',
        b.len() == 0 || b[0] == '\n',
    ensures
        token_len(a + b) == a.len(),
    decreases a.len(),
{
    if a.len() == 0 {
        assert(a + b =~= b);
    } else {
        assert((a + b).drop_first() =~= a.drop_first() + b);
        lemma_token_len_prefix(a.drop_first(), b);
    }
}

proof fn lemma_parse_words_spaces(k: nat, t: Seq<char>)
    ensures
        parse_words(spaces(k) + t, true) == parse_words(t, true),
    decreases k,
{
    if k == 0 {
        assert(spaces(k) + t =~= t);
    } else {
        assert((spaces(k) + t).drop_first() =~= spaces((k - 1) as nat) + t);
        lemma_parse_words_spaces((k - 1) as nat, t);
    }
}

/// The words of the text of lines: a blank word for a blank line, the line's word for any
/// other (after what `blank` adds).
pub proof fn lemma_parse_words_text_of(ls: Seq<Line>, blank: bool)
    ensures
        parse_words(text_of(ls), blank) == Some(blank_if(blank) + words_of(ls)),
    decreases ls.len(),
{
    if ls.len() == 0 {
        assert(blank_if(blank) + words_of(ls) =~= blank_if(blank));
    } else {
        let l = ls[0];
        let rest = ls.drop_first();
        lemma_text_of_first(ls);
        let rt = text_of(rest);
        if rest.len() > 0 {
            lemma_text_of_first(rest);
            assert(rt[0] == '\n');
        }
        let wt = word_text(l.word);
        let t = text_of(ls);
        assert(t =~= seq!['\n'] + (spaces(l.indent as nat) + (wt + rt)));
        assert(t.drop_first() =~= spaces(l.indent as nat) + (wt + rt));
        lemma_parse_words_spaces(l.indent as nat, wt + rt);
        assert(words_of(ls) =~= seq![l.word] + words_of(rest));
        if l.word == Word::Blank {
            assert(wt + rt =~= rt);
            lemma_parse_words_text_of(rest, true);
            assert(blank_if(blank) + (blank_if(true) + words_of(rest)) =~= blank_if(blank) + words_of(ls));
        } else {
            lemma_word_text_no_gap(l.word);
            lemma_parse_word_text(l.word);
            assert(wt.len() > 0) by {
                if wt.len() == 0 {
                    assert(parse_word(wt) == Some(Word::Blank));
                }
            }
            lemma_token_len_prefix(wt, rt);
            assert((wt + rt)[0] == wt[0]);
            assert((wt + rt).take(wt.len() as int) =~= wt);
            assert((wt + rt).skip(wt.len() as int) =~= rt);
            lemma_parse_words_text_of(rest, false);
            assert(seq![l.word] + (blank_if(false) + words_of(rest)) =~= words_of(ls));
            assert(blank_if(blank) + words_of(ls) =~= blank_if(blank) + words_of(ls));
        }
    }
}

/// A prefix of a well-formed number is a well-formed number that is no larger.
proof fn lemma_dec_value_prefix(s: Seq<char>, j: int)
    requires
        0 <= j <= s.len(),
        dec_value(s) is Some,
    ensures
        dec_value(s.take(j)) is Some,
        dec_value(s.take(j)).unwrap() <= dec_value(s).unwrap(),
    decreases s.len(),
{
    if j == s.len() {
        assert(s.take(j) =~= s);
    } else {
        lemma_dec_value_prefix(s.drop_last(), j);
        assert(s.drop_last().take(j) =~= s.take(j));
    }
}

// ---------------------------------------------------------------------------------------
// executable parser

/// The chars `t[a..b]` are exactly `lit`.
fn eq_lit(t: &Vec<char>, a: usize, b: usize, lit: &[char]) -> (r: bool)
    requires
        a <= b <= t.len(),
    ensures
        r == (t@.subrange(a as int, b as int) == lit@),
{
    if b - a != lit.len() {
        return false;
    }
    let mut i: usize = 0;
    while i < lit.len()
        invariant
            b - a == lit.len(),
            a <= b <= t.len(),
            i <= lit.len(),
            forall|j: int| 0 <= j < i ==> t@[a + j] == lit@[j],
        decreases lit.len() - i,
    {
        if t[a + i] != lit[i] {
            assert(t@.subrange(a as int, b as int)[i as int] != lit@[i as int]);
            return false;
        }
        i = i + 1;
    }
    assert(t@.subrange(a as int, b as int) =~= lit@);
    true
}

/// The chars `t[a..b]` are `lit` followed by at least one more character.
fn prefix_lit(t: &Vec<char>, a: usize, b: usize, lit: &[char]) -> (r: bool)
    requires
        a <= b <= t.len(),
    ensures
        r == has_prefix(t@.subrange(a as int, b as int), lit@),
{
    if b - a <= lit.len() {
        return false;
    }
    let r = eq_lit(t, a, a + lit.len(), lit);
    assert(t@.subrange(a as int, b as int).take(lit.len() as int) =~= t@.subrange(a as int, a + lit.len()));
    r
}

/// The number written as the chars `t[a..b]`; `None` when they are not a number or the
/// number does not fit in `u128`.
#[verifier::rlimit(40)]
fn read_dec(t: &Vec<char>, a: usize, b: usize) -> (r: Option<u128>)
    requires
        a <= b <= t.len(),
    ensures
        r matches Some(v) ==> dec_value(t@.subrange(a as int, b as int)) == Some(v as nat),
        r is None ==> (dec_value(t@.subrange(a as int, b as int)) is None || dec_value(
            t@.subrange(a as int, b as int),
        ).unwrap() > u128::MAX),
{
    let ghost w = t@.subrange(a as int, b as int);
    let mut v: u128 = 0;
    let mut i: usize = a;
    assert(w.take(0) =~= Seq::<char>::empty());
    while i < b
        invariant
            a <= i <= b <= t.len(),
            w == t@.subrange(a as int, b as int),
            dec_value(w.take(i - a)) == Some(v as nat),
        decreases b - i,
    {
        let c = t[i];
        let ghost pre = w.take(i - a + 1);
        assert(pre.drop_last() =~= w.take(i - a));
        assert(pre.last() == c);
        if !('0' <= c && c <= '9') {
            proof {
                if dec_value(w) is Some {
                    lemma_dec_value_prefix(w, i - a + 1);
                }
            }
            return None;
        }
        let d = (c as u32 - 48) as u128;
        assert(d == (c as nat - 48));
        if v > (u128::MAX - d) / 10 {
            proof {
                assert(v * 10 + d > u128::MAX) by (nonlinear_arith)
                    requires v > (u128::MAX - d) / 10, d <= 9;
                if dec_value(w) is Some {
                    lemma_dec_value_prefix(w, i - a + 1);
                }
            }
            return None;
        }
        assert(v * 10 + d <= u128::MAX) by (nonlinear_arith)
            requires v <= (u128::MAX - d) / 10, d <= 9;
        v = v * 10 + d;
        i = i + 1;
    }
    assert(w.take(b - a) =~= w);
    Some(v)
}

/// The number after `pre` in the chars `t[a..b]`, if it fits in `usize`.
fn read_usize_param(t: &Vec<char>, a: usize, b: usize, pre_len: usize, pre: Ghost<Seq<char>>) -> (r: Option<usize>)
    requires
        a <= b <= t.len(),
        pre_len == pre@.len(),
        has_prefix(t@.subrange(a as int, b as int), pre@),
    ensures
        r == usize_param(t@.subrange(a as int, b as int), pre@),
{
    let w = Ghost(t@.subrange(a as int, b as int));
    assert(w@.skip(pre_len as int) =~= t@.subrange(a + pre_len, b as int));
    match read_dec(t, a + pre_len, b) {
        Some(v) => if v <= usize::MAX as u128 {
            Some(v as usize)
        } else {
            None
        },
        None => None,
    }
}

/// The word written as the chars `t[a..b]`.
#[verifier::rlimit(40)]
fn read_word(t: &Vec<char>, a: usize, b: usize) -> (r: Option<Word>)
    requires
        a <= b <= t.len(),
    ensures
        r == parse_word(t@.subrange(a as int, b as int)),
{
    let ghost w = t@.subrange(a as int, b as int);
    if a == b {
        return Some(Word::Blank);
    }
    let c = t[a];
    assert(w[0] == c);
    if c == 'a' {
        if eq_lit(t, a, b, &['a', 'd', 'd']) {
            Some(Word::Add)
        } else if eq_lit(t, a, b, &['a', 'n', 'd']) {
            Some(Word::And)
        } else {
            None
        }
    } else if c == 'b' {
        if eq_lit(t, a, b, &['b', 'e', 'g', 'i', 'n']) {
            Some(Word::Begin)
        } else {
            None
        }
    } else if c == 'd' {
        if eq_lit(t, a, b, &['d', 'i', 'v']) {
            Some(Word::Div)
        } else if prefix_lit(t, a, b, &['d', 'u', 'p', '.']) {
            match read_usize_param(t, a, b, 4, Ghost(pre_dup())) {
                Some(k) => Some(Word::Dup(k)),
                None => None,
            }
        } else if prefix_lit(t, a, b, &['d', 'r', 'o', 'p', '.']) {
            match read_usize_param(t, a, b, 5, Ghost(pre_drop())) {
                Some(k) => Some(Word::Drop(k)),
                None => None,
            }
        } else {
            None
        }
    } else if c == 'e' {
        if eq_lit(t, a, b, &['e', 'n', 'd']) {
            Some(Word::End)
        } else {
            None
        }
    } else if c == 'i' {
        if prefix_lit(t, a, b, &['i', 's', 'o', 'd', 'd', '.']) {
            match read_usize_param(t, a, b, 6, Ghost(pre_isodd())) {
                Some(k) => Some(Word::IsOdd(k)),
                None => None,
            }
        } else {
            None
        }
    } else if c == 'l' {
        if prefix_lit(t, a, b, &['l', 't', '.']) {
            match read_usize_param(t, a, b, 3, Ghost(pre_lt())) {
                Some(k) => Some(Word::Lt(k)),
                None => None,
            }
        } else {
            None
        }
    } else if c == 'm' {
        if eq_lit(t, a, b, &['m', 'u', 'l']) {
            Some(Word::Mul)
        } else {
            None
        }
    } else if c == 'n' {
        if eq_lit(t, a, b, &['n', 'e']) {
            Some(Word::Ne)
        } else {
            None
        }
    } else if c == 'o' {
        if eq_lit(t, a, b, &['o', 'r']) {
            Some(Word::Or)
        } else {
            None
        }
    } else if c == 'p' {
        if prefix_lit(t, a, b, &['p', 'u', 's', 'h', '.']) {
            assert(w.skip(5) =~= t@.subrange(a + 5, b as int));
            match read_dec(t, a + 5, b) {
                Some(v) => Some(Word::Push(v)),
                None => None,
            }
        } else if prefix_lit(t, a, b, &['p', 'i', 'c', 'k', '.']) {
            match read_usize_param(t, a, b, 5, Ghost(pre_pick())) {
                Some(k) => Some(Word::Pick(k)),
                None => None,
            }
        } else {
            None
        }
    } else if c == 'r' {
        if prefix_lit(t, a, b, &['r', 'o', 'l', 'l', '.']) {
            match read_usize_param(t, a, b, 5, Ghost(pre_roll())) {
                Some(k) => Some(Word::Roll(k)),
                None => None,
            }
        } else if prefix_lit(t, a, b, &['r', 'e', 'p', 'e', 'a', 't', '.']) {
            match read_usize_param(t, a, b, 7, Ghost(pre_repeat())) {
                Some(k) => Some(Word::Repeat(k)),
                None => None,
            }
        } else {
            None
        }
    } else if c == 's' {
        if eq_lit(t, a, b, &['s', 'u', 'b']) {
            Some(Word::Sub)
        } else if prefix_lit(t, a, b, &['s', 'w', 'a', 'p', '.']) {
            match read_usize_param(t, a, b, 5, Ghost(pre_swap())) {
                Some(k) => Some(Word::Swap(k)),
                None => None,
            }
        } else {
            None
        }
    } else if c == 'w' {
        if eq_lit(t, a, b, &['w', 'h', 'i', 'l', 'e', '.', 't', 'r', 'u', 'e']) {
            Some(Word::WhileTrue)
        } else {
            None
        }
    } else {
        None
    }
}

/// `acc` followed by the lines of `rest`, if `rest` parses.
pub open spec fn prepend(acc: Seq<Line>, rest: Option<Seq<Line>>) -> Option<Seq<Line>> {
    match rest {
        Some(r) => Some(acc + r),
        None => None,
    }
}

/// Reads the line that starts (with its newline) at `i`; gives it and where the next
/// line starts.
#[verifier::rlimit(40)]
fn read_line(t: &Vec<char>, i: usize) -> (r: Option<(Line, usize)>)
    requires
        i < t.len(),
        t@[i as int] == '\n',
    ensures
        r matches Some((l, j)) ==> i < j <= t.len() && parse_lines(t@.skip(i as int)) == prepend(
            seq![l],
            parse_lines(t@.skip(j as int)),
        ),
        r is None ==> parse_lines(t@.skip(i as int)) is None,
{
    let ghost rest_text = t@.skip(i as int);
    assert(rest_text[0] == '\n');
    let mut j = i + 1;
    assert(rest_text.drop_first() =~= t@.skip(i + 1));
    while j < t.len() && t[j] != '\n'
        invariant
            i < j <= t.len(),
            line_len(t@.skip(i + 1)) == (j - i - 1) + line_len(t@.skip(j as int)),
        decreases t.len() - j,
    {
        assert(t@.skip(j as int).drop_first() =~= t@.skip(j + 1));
        j = j + 1;
    }
    assert(line_len(t@.skip(j as int)) == 0);
    let ghost rest = rest_text.drop_first();
    assert(rest.take(j - i - 1) =~= t@.subrange(i + 1, j as int));
    assert(rest.skip(j - i - 1) =~= t@.skip(j as int));
    let mut c = i + 1;
    while c < j && t[c] == ' '
        invariant
            i < c <= j <= t.len(),
            leading_spaces(t@.subrange(i + 1, j as int)) == (c - i - 1) + leading_spaces(
                t@.subrange(c as int, j as int),
            ),
        decreases j - c,
    {
        assert(t@.subrange(c as int, j as int).drop_first() =~= t@.subrange(c + 1, j as int));
        c = c + 1;
    }
    assert(leading_spaces(t@.subrange(c as int, j as int)) == 0);
    assert(t@.subrange(i + 1, j as int).skip(c - i - 1) =~= t@.subrange(c as int, j as int));
    match read_word(t, c, j) {
        Some(w) => Some((Line { indent: c - i - 1, word: w }, j)),
        None => None,
    }
}

/// Reads text made of lines back into lines, as `parse_lines` does.
#[verifier::rlimit(40)]
pub fn read_lines(t: &Vec<char>) -> (r: Option<Vec<Line>>)
    ensures
        r matches Some(v) ==> parse_lines(t@) == Some(v@),
        r is None ==> parse_lines(t@) is None,
{
    let mut acc: Vec<Line> = Vec::new();
    let mut i: usize = 0;
    assert(t@.skip(0) =~= t@);
    assert(acc@ + Seq::<Line>::empty() =~= acc@);
    while i < t.len()
        invariant
            i <= t.len(),
            parse_lines(t@) == prepend(acc@, parse_lines(t@.skip(i as int))),
        decreases t.len() - i,
    {
        if t[i] != '\n' {
            assert(t@.skip(i as int)[0] == t@[i as int]);
            return None;
        }
        let (l, j) = match read_line(t, i) {
            Some(lj) => lj,
            None => {
                return None;
            },
        };
        proof {
            match parse_lines(t@.skip(j as int)) {
                Some(x) => {
                    assert(acc@ + (seq![l] + x) =~= acc@.push(l) + x);
                },
                None => {},
            }
        }
        acc.push(l);
        i = j;
    }
    assert(t@.skip(i as int) =~= Seq::<char>::empty());
    assert(acc@ + Seq::<Line>::empty() =~= acc@);
    Some(acc)
}

/// Reads assembly text into its words, as `parse_words` does for a whole text: words may
/// stand one to a line or several to a line, between spaces, tabs and carriage returns.
#[verifier::rlimit(40)]
pub fn read_words(t: &Vec<char>) -> (r: Option<Vec<Word>>)
    ensures
        r matches Some(v) ==> parse_words(t@, false) == Some(v@),
        r is None ==> parse_words(t@, false) is None,
{
    let mut acc: Vec<Word> = Vec::new();
    let mut blank = false;
    let mut i: usize = 0;
    assert(t@.skip(0) =~= t@);
    assert(acc@ + Seq::<Word>::empty() =~= acc@);
    while i < t.len()
        invariant
            i <= t.len(),
            parse_words(t@, false) == prepend_words(acc@, parse_words(t@.skip(i as int), blank)),
        decreases t.len() - i,
    {
        let ghost rest = t@.skip(i as int);
        assert(rest[0] == t@[i as int]);
        assert(rest.drop_first() =~= t@.skip(i + 1));
        let c = t[i];
        if c == '\n' {
            proof {
                match parse_words(t@.skip(i + 1), true) {
                    Some(x) => {
                        assert(acc@ + (blank_if(blank) + x) =~= (acc@ + blank_if(blank)) + x);
                    },
                    None => {},
                }
            }
            if blank {
                acc.push(Word::Blank);
            }
            blank = true;
            i = i + 1;
        } else if c == ' ' || c == '\t' || c == '\r' {
            i = i + 1;
        } else {
            let mut j = i;
            while j < t.len() && t[j] != ' ' && t[j] != '\t' && t[j] != '\r' && t[j] != '\n'
                invariant
                    i <= j <= t.len(),
                    token_len(t@.skip(i as int)) == (j - i) + token_len(t@.skip(j as int)),
                decreases t.len() - j,
            {
                assert(t@.skip(j as int)[0] == t@[j as int]);
                assert(t@.skip(j as int).drop_first() =~= t@.skip(j + 1));
                j = j + 1;
            }
            if j < t.len() {
                assert(t@.skip(j as int)[0] == t@[j as int]);
            }
            assert(token_len(t@.skip(j as int)) == 0);
            assert(j > i);
            assert(rest.take(j - i) =~= t@.subrange(i as int, j as int));
            assert(rest.skip(j - i) =~= t@.skip(j as int));
            match read_word(t, i, j) {
                Some(w) => {
                    proof {
                        match parse_words(t@.skip(j as int), false) {
                            Some(x) => {
                                assert(acc@ + (seq![w] + x) =~= acc@.push(w) + x);
                            },
                            None => {},
                        }
                    }
                    acc.push(w);
                    blank = false;
                    i = j;
                },
                None => {
                    return None;
                },
            }
        }
    }
    assert(t@.skip(i as int) =~= Seq::<char>::empty());
    if blank {
        acc.push(Word::Blank);
    }
    Some(acc)
}

} // verus!
