use vstd::prelude::*;

verus! {

/// The character of the decimal digit `d` (for `d < 10`).
pub open spec fn digit_char(d: nat) -> char {
    (d + 48) as char
}

/// The decimal notation of `v`: most significant digit first, no leading zeros,
/// a single `0` for zero.
pub open spec fn dec(v: nat) -> Seq<char>
    decreases v,
{
    if v < 10 {
        seq![digit_char(v)]
    } else {
        dec(v / 10).push(digit_char(v % 10))
    }
}

/// The value of a sequence of decimal digits, most significant first
/// (`None` if some character is not a digit).
pub open spec fn dec_value(s: Seq<char>) -> Option<nat>
    decreases s.len(),
{
    if s.len() == 0 {
        Some(0)
    } else {
        let c = s.last();
        if '0' <= c && c <= '9' {
            match dec_value(s.drop_last()) {
                Some(v) => Some(v * 10 + (c as nat - 48) as nat),
                None => None,
            }
        } else {
            None
        }
    }
}

/// Reading back the decimal notation of a number gives that number.
pub proof fn lemma_dec_value_of_dec(v: nat)
    ensures
        dec(v).len() > 0,
        dec_value(dec(v)) == Some(v),
    decreases v,
{
    let c = digit_char(v % 10);
    assert(c as nat == v % 10 + 48);
    assert('0' <= c && c <= '9');
    if v >= 10 {
        lemma_dec_value_of_dec(v / 10);
        assert(dec(v).drop_last() =~= dec(v / 10));
        assert(dec(v).last() == c);
        assert(dec_value(dec(v)) == Some((v / 10) * 10 + (c as nat - 48) as nat));
    } else {
        assert(dec(v).drop_last() =~= Seq::<char>::empty());
        assert(dec(v).last() == c);
        assert(dec_value(Seq::<char>::empty()) == Some(0nat));
        assert(dec_value(dec(v)) == Some(0nat * 10 + (c as nat - 48) as nat));
    }
}

/// Appends the decimal notation of `v` to `out`.
pub fn write_dec(out: &mut Vec<char>, v: u128)
    ensures
        final(out)@ == old(out)@ + dec(v as nat),
    decreases v,
{
    if v >= 10 {
        write_dec(out, v / 10);
    }
    let d: u8 = (v % 10) as u8;
    let c: char = (d + 48) as char;
    proof {
        assert(c == digit_char((v % 10) as nat));
    }
    out.push(c);
    proof {
        if v >= 10 {
            assert(dec(v as nat) == dec((v / 10) as nat).push(digit_char((v % 10) as nat)));
        } else {
            assert(dec(v as nat) == seq![digit_char(v as nat)]);
        }
    }
    assert(final(out)@ =~= old(out)@ + dec(v as nat));
}

} // verus!
