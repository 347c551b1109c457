//! Unsigned decimal numbers as ASCII digits.

use vstd::prelude::*;

verus! {

/// `b` is one of the ASCII digits `0` to `9`.
pub open spec fn is_digit(b: u8) -> bool {
    0x30 <= b <= 0x39
}

/// `s` is a decimal number: one digit or more, and nothing else.
pub open spec fn is_decimal(s: Seq<u8>) -> bool {
    &&& s.len() > 0
    &&& forall|i: int| 0 <= i < s.len() ==> is_digit(#[trigger] s[i])
}

/// The number that the digits of `s` write, the first digit weighing most.
pub open spec fn decimal_value(s: Seq<u8>) -> nat
    decreases s.len(),
{
    if s.len() == 0 {
        0
    } else {
        10 * decimal_value(s.drop_last()) + (s.last() - 0x30) as nat
    }
}

/// The digits that write `n`, without a sign and without leading zeros.
pub open spec fn decimal_digits(n: nat) -> Seq<u8>
    decreases n,
{
    if n < 10 {
        seq![(0x30 + n) as u8]
    } else {
        decimal_digits(n / 10).push((0x30 + n % 10) as u8)
    }
}

/// The digits of a number are a decimal number, and they write that number.
pub proof fn lemma_digits_roundtrip(n: nat)
    ensures
        is_decimal(decimal_digits(n)),
        decimal_value(decimal_digits(n)) == n,
    decreases n,
{
    let d = decimal_digits(n);
    if n < 10 {
        assert(d.drop_last() =~= Seq::<u8>::empty());
        assert(decimal_value(d.drop_last()) == 0);
    } else {
        lemma_digits_roundtrip(n / 10);
        assert(d.drop_last() =~= decimal_digits(n / 10));
        assert forall|i: int| 0 <= i < d.len() implies is_digit(#[trigger] d[i]) by {
            if i < d.len() - 1 {
                assert(d[i] == decimal_digits(n / 10)[i]);
            }
        }
    }
}

/// `atoi::atoi::<u64>`, on a text that is a decimal number: the number
/// written, or `None` where it does not fit in 64 bits.
#[verifier::external_body]
pub(crate) fn atoi_u64(text: &[u8]) -> (r: Option<u64>)
    requires
        is_decimal(text@),
    ensures
        r == (if decimal_value(text@) <= u64::MAX {
            Some(decimal_value(text@) as u64)
        } else {
            None
        }),
{
    atoi::atoi::<u64>(text)
}

/// Whether `text` is a decimal number.
pub fn all_digits(text: &[u8]) -> (r: bool)
    ensures
        r == is_decimal(text@),
{
    if text.len() == 0 {
        return false;
    }
    let mut i: usize = 0;
    while i < text.len()
        invariant
            i <= text.len(),
            forall|j: int| 0 <= j < i ==> is_digit(#[trigger] text@[j]),
        decreases text.len() - i,
    {
        let b: u8 = text[i];
        if b < 0x30 || b > 0x39 {
            return false;
        }
        i = i + 1;
    }
    true
}

/// Appends the digits of `val` to `out`.
pub fn push_decimal(out: &mut Vec<u8>, val: u64)
    ensures
        final(out)@ == old(out)@ + decimal_digits(val as nat),
{
    let mut digits: Vec<u8> = Vec::new();
    let mut rest: u64 = val;
    // The digits come out last one first.
    while rest >= 10
        invariant
            decimal_digits(val as nat) == decimal_digits(rest as nat) + digits@.reverse(),
        decreases rest,
    {
        let d: u8 = (rest % 10) as u8;
        proof {
            let before = digits@;
            let after = before.push((0x30 + d) as u8);
            assert(after.reverse() =~= seq![(0x30 + d) as u8] + before.reverse());
            assert(decimal_digits(rest as nat) == decimal_digits((rest / 10) as nat).push(
                (0x30 + d) as u8,
            ));
            assert(decimal_digits((rest / 10) as nat).push((0x30 + d) as u8) + before.reverse()
                =~= decimal_digits((rest / 10) as nat) + after.reverse());
        }
        digits.push(0x30 + d);
        rest = rest / 10;
    }
    let last: u8 = rest as u8;
    out.push(0x30 + last);
    let ghost start = out@;
    let mut i: usize = digits.len();
    while i > 0
        invariant
            i <= digits.len(),
            out@ == start + digits@.reverse().subrange(0, digits.len() - i),
        decreases i,
    {
        i = i - 1;
        proof {
            let r = digits@.reverse();
            assert(r[digits.len() - 1 - i] == digits@[i as int]);
            assert(r.subrange(0, digits.len() - i) =~= r.subrange(0, digits.len() - i - 1).push(
                digits@[i as int],
            ));
        }
        out.push(digits[i]);
    }
    proof {
        let r = digits@.reverse();
        assert(r.subrange(0, digits.len() as int) =~= r);
        assert(start == old(out)@ + decimal_digits(rest as nat));
        assert(out@ =~= old(out)@ + (decimal_digits(rest as nat) + r));
    }
}

} // verus!
