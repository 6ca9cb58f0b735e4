use vstd::prelude::*;
use crate::decimal::{dec, write_dec};

verus! {

/// One word of the stack-machine assembly that the generators emit.
///
/// `Blank` stands for a line that holds only indentation.
#[derive(Clone, Copy, Debug, PartialEq, Eq, Structural)]
pub enum Word {
    Blank,
    Begin,
    End,
    Push(u128),
    Dup(usize),
    Swap(usize),
    Pick(usize),
    Roll(usize),
    Drop(usize),
    Add,
    Sub,
    Mul,
    Div,
    IsOdd(usize),
    Ne,
    And,
    Or,
    Lt(usize),
    Repeat(usize),
    WhileTrue,
}

/// One line of assembly text: a newline, `indent` spaces, then the word.
#[derive(Clone, Copy, Debug, PartialEq, Eq, Structural)]
pub struct Line {
    pub indent: usize,
    pub word: Word,
}

pub open spec fn ln(indent: usize, word: Word) -> Line {
    Line { indent, word }
}

pub open spec fn with_param(name: Seq<char>, v: nat) -> Seq<char> {
    name + seq!['.'] + dec(v)
}

/// The text of a word.
pub open spec fn word_text(w: Word) -> Seq<char> {
    match w {
        Word::Blank => Seq::empty(),
        Word::Begin => seq!['b', 'e', 'g', 'i', 'n'],
        Word::End => seq!['e', 'n', 'd'],
        Word::Push(v) => with_param(seq!['p', 'u', 's', 'h'], v as nat),
        Word::Dup(k) => with_param(seq!['d', 'u', 'p'], k as nat),
        Word::Swap(k) => with_param(seq!['s', 'w', 'a', 'p'], k as nat),
        Word::Pick(k) => with_param(seq!['p', 'i', 'c', 'k'], k as nat),
        Word::Roll(k) => with_param(seq!['r', 'o', 'l', 'l'], k as nat),
        Word::Drop(k) => with_param(seq!['d', 'r', 'o', 'p'], k as nat),
        Word::Add => seq!['a', 'd', 'd'],
        Word::Sub => seq!['s', 'u', 'b'],
        Word::Mul => seq!['m', 'u', 'l'],
        Word::Div => seq!['d', 'i', 'v'],
        Word::IsOdd(k) => with_param(seq!['i', 's', 'o', 'd', 'd'], k as nat),
        Word::Ne => seq!['n', 'e'],
        Word::And => seq!['a', 'n', 'd'],
        Word::Or => seq!['o', 'r'],
        Word::Lt(k) => with_param(seq!['l', 't'], k as nat),
        Word::Repeat(k) => with_param(seq!['r', 'e', 'p', 'e', 'a', 't'], k as nat),
        Word::WhileTrue => seq!['w', 'h', 'i', 'l', 'e', '.', 't', 'r', 'u', 'e'],
    }
}

/// `k` spaces.
pub open spec fn spaces(k: nat) -> Seq<char> {
    Seq::new(k, |i: int| ' ')
}

/// The text of a line.
pub open spec fn line_text(l: Line) -> Seq<char> {
    seq!['\n'] + spaces(l.indent as nat) + word_text(l.word)
}

/// The text of a sequence of lines: the lines' texts one after the other.
pub open spec fn text_of(lines: Seq<Line>) -> Seq<char>
    decreases lines.len(),
{
    if lines.len() == 0 {
        Seq::empty()
    } else {
        text_of(lines.drop_last()) + line_text(lines.last())
    }
}

/// The text of two sequences of lines, one after the other, is the concatenation of their texts.
pub proof fn lemma_text_of_append(a: Seq<Line>, b: Seq<Line>)
    ensures
        text_of(a + b) == text_of(a) + text_of(b),
    decreases b.len(),
{
    if b.len() == 0 {
        assert(a + b =~= a);
        assert(text_of(a) + text_of(b) =~= text_of(a));
    } else {
        lemma_text_of_append(a, b.drop_last());
        assert((a + b).drop_last() =~= a + b.drop_last());
        assert((a + b).last() == b.last());
        assert(text_of(a) + text_of(b) =~= text_of(a) + text_of(b.drop_last()) + line_text(b.last()));
    }
}

fn push_chars(out: &mut Vec<char>, s: &[char])
    ensures
        final(out)@ == old(out)@ + s@,
{
    let mut i: usize = 0;
    while i < s.len()
        invariant
            i <= s.len(),
            out@ == old(out)@ + s@.subrange(0, i as int),
        decreases s.len() - i,
    {
        out.push(s[i]);
        i = i + 1;
        assert(out@ =~= old(out)@ + s@.subrange(0, i as int));
    }
    assert(s@.subrange(0, s.len() as int) =~= s@);
}

fn push_name_param(out: &mut Vec<char>, name: &[char], v: u128)
    ensures
        final(out)@ == old(out)@ + with_param(name@, v as nat),
{
    push_chars(out, name);
    out.push('.');
    write_dec(out, v);
    assert(final(out)@ =~= old(out)@ + with_param(name@, v as nat));
}

fn push_word(out: &mut Vec<char>, w: Word)
    ensures
        final(out)@ == old(out)@ + word_text(w),
{
    match w {
        Word::Blank => {
            assert(old(out)@ + word_text(w) =~= old(out)@);
        },
        Word::Begin => {
            let a = ['b', 'e', 'g', 'i', 'n'];
            assert(a@ =~= word_text(w));
            push_chars(out, &a);
        },
        Word::End => {
            let a = ['e', 'n', 'd'];
            assert(a@ =~= word_text(w));
            push_chars(out, &a);
        },
        Word::Push(v) => {
            let a = ['p', 'u', 's', 'h'];
            assert(a@ =~= seq!['p', 'u', 's', 'h']);
            push_name_param(out, &a, v);
        },
        Word::Dup(k) => {
            let a = ['d', 'u', 'p'];
            assert(a@ =~= seq!['d', 'u', 'p']);
            push_name_param(out, &a, k as u128);
        },
        Word::Swap(k) => {
            let a = ['s', 'w', 'a', 'p'];
            assert(a@ =~= seq!['s', 'w', 'a', 'p']);
            push_name_param(out, &a, k as u128);
        },
        Word::Pick(k) => {
            let a = ['p', 'i', 'c', 'k'];
            assert(a@ =~= seq!['p', 'i', 'c', 'k']);
            push_name_param(out, &a, k as u128);
        },
        Word::Roll(k) => {
            let a = ['r', 'o', 'l', 'l'];
            assert(a@ =~= seq!['r', 'o', 'l', 'l']);
            push_name_param(out, &a, k as u128);
        },
        Word::Drop(k) => {
            let a = ['d', 'r', 'o', 'p'];
            assert(a@ =~= seq!['d', 'r', 'o', 'p']);
            push_name_param(out, &a, k as u128);
        },
        Word::Add => {
            let a = ['a', 'd', 'd'];
            assert(a@ =~= word_text(w));
            push_chars(out, &a);
        },
        Word::Sub => {
            let a = ['s', 'u', 'b'];
            assert(a@ =~= word_text(w));
            push_chars(out, &a);
        },
        Word::Mul => {
            let a = ['m', 'u', 'l'];
            assert(a@ =~= word_text(w));
            push_chars(out, &a);
        },
        Word::Div => {
            let a = ['d', 'i', 'v'];
            assert(a@ =~= word_text(w));
            push_chars(out, &a);
        },
        Word::IsOdd(k) => {
            let a = ['i', 's', 'o', 'd', 'd'];
            assert(a@ =~= seq!['i', 's', 'o', 'd', 'd']);
            push_name_param(out, &a, k as u128);
        },
        Word::Ne => {
            let a = ['n', 'e'];
            assert(a@ =~= word_text(w));
            push_chars(out, &a);
        },
        Word::And => {
            let a = ['a', 'n', 'd'];
            assert(a@ =~= word_text(w));
            push_chars(out, &a);
        },
        Word::Or => {
            let a = ['o', 'r'];
            assert(a@ =~= word_text(w));
            push_chars(out, &a);
        },
        Word::Lt(k) => {
            let a = ['l', 't'];
            assert(a@ =~= seq!['l', 't']);
            push_name_param(out, &a, k as u128);
        },
        Word::Repeat(k) => {
            let a = ['r', 'e', 'p', 'e', 'a', 't'];
            assert(a@ =~= seq!['r', 'e', 'p', 'e', 'a', 't']);
            push_name_param(out, &a, k as u128);
        },
        Word::WhileTrue => {
            let a = ['w', 'h', 'i', 'l', 'e', '.', 't', 'r', 'u', 'e'];
            assert(a@ =~= word_text(w));
            push_chars(out, &a);
        },
    }
}

/// Appends the text of one line to `out`.
pub fn push_line(out: &mut Vec<char>, l: Line)
    ensures
        final(out)@ == old(out)@ + line_text(l),
{
    out.push('\n');
    let mut i: usize = 0;
    while i < l.indent
        invariant
            i <= l.indent,
            out@ == old(out)@ + seq!['\n'] + spaces(i as nat),
        decreases l.indent - i,
    {
        out.push(' ');
        i = i + 1;
        assert(out@ =~= old(out)@ + seq!['\n'] + spaces(i as nat));
    }
    push_word(out, l.word);
    assert(final(out)@ =~= old(out)@ + line_text(l));
}

/// `String::from_iter` over `char`s: the string consists of exactly the given characters,
/// in the given order.
#[verifier::external_body]
fn string_from_chars(chars: &Vec<char>) -> (s: String)
    ensures
        s@ == chars@,
{
    String::from_iter(chars.iter())
}

/// The text of a program.
pub fn render(lines: &Vec<Line>) -> (s: String)
    ensures
        s@ == text_of(lines@),
{
    let mut out: Vec<char> = Vec::new();
    let mut i: usize = 0;
    while i < lines.len()
        invariant
            i <= lines.len(),
            out@ == text_of(lines@.subrange(0, i as int)),
        decreases lines.len() - i,
    {
        push_line(&mut out, lines[i]);
        proof {
            let pre = lines@.subrange(0, i as int);
            let next = lines@.subrange(0, i + 1);
            assert(next.drop_last() =~= pre);
        }
        i = i + 1;
    }
    assert(lines@.subrange(0, lines.len() as int) =~= lines@);
    string_from_chars(&out)
}

} // verus!
