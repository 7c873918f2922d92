//! Numbers as decimal text.
use vstd::prelude::*;

verus! {

/// The decimal digits of `n` as ASCII bytes, without leading zeros.
pub open spec fn decimal(n: nat) -> Seq<u8>
    decreases n,
{
    if n < 10 {
        seq![(48 + n) as u8]
    } else {
        decimal(n / 10).push((48 + n % 10) as u8)
    }
}

/// The digits of `n` below the `k` lowest, followed by the `k` lowest in
/// `low`, are the digits of `n`.
spec fn splits(n: nat, rest: nat, low: Seq<u8>) -> bool {
    decimal(n) == if rest == 0 && low.len() > 0 {
        low
    } else {
        decimal(rest) + low
    }
}

/// Appends the decimal digits of `n` to `out`.
pub fn push_decimal(out: &mut Vec<u8>, n: u64)
    ensures
        final(out)@ == old(out)@ + decimal(n as nat),
{
    // The digits from the lowest up.
    let mut reversed: Vec<u8> = Vec::new();
    let mut rest: u64 = n;
    reversed.push(48u8 + (rest % 10) as u8);
    rest = rest / 10;
    assert(splits(n as nat, rest as nat, reversed@.reverse())) by {
        assert(reversed@.reverse() == seq![(48 + n % 10) as u8]);
        if n >= 10 {
            assert(decimal(n as nat) == decimal((n / 10) as nat).push((48 + n % 10) as u8));
            assert(decimal(rest as nat) + reversed@.reverse() == decimal(rest as nat).push(
                (48 + n % 10) as u8,
            ));
        }
    }
    while rest > 0
        invariant
            reversed@.len() > 0,
            splits(n as nat, rest as nat, reversed@.reverse()),
        decreases rest,
    {
        let ghost low = reversed@.reverse();
        let ghost before = rest;
        let digit: u8 = 48u8 + (rest % 10) as u8;
        reversed.push(digit);
        rest = rest / 10;
        proof {
            assert(reversed@.reverse() == seq![digit] + low);
            if before >= 10 {
                assert(decimal(before as nat) == decimal(rest as nat).push(digit));
                assert(decimal(before as nat) + low == decimal(rest as nat) + (seq![digit] + low));
            } else {
                assert(decimal(before as nat) == seq![digit]);
            }
        }
    }
    let ghost digits = reversed@.reverse();
    let mut k: usize = reversed.len();
    while k > 0
        invariant
            k <= reversed@.len(),
            digits == reversed@.reverse(),
            out@ == old(out)@ + digits.take(reversed@.len() - k),
        decreases k,
    {
        k -= 1;
        out.push(reversed[k]);
        proof {
            let m = reversed@.len() - k;
            assert(digits.take(m) == digits.take(m - 1).push(digits[m - 1]));
            assert(digits[m - 1] == reversed@[k as int]);
        }
    }
    assert(digits.take(reversed@.len() as int) == digits);
}

} // verus!
