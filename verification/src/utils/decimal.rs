//! Canonical decimal text for the runtime's integers.

use vstd::prelude::*;

verus! {

/// The decimal digits of `n`, most significant first, as ASCII bytes.
pub open spec fn dec_digits(n: nat) -> Seq<u8>
    decreases n,
{
    if n < 10 {
        seq![(48 + n) as u8]
    } else {
        dec_digits(n / 10).push((48 + n % 10) as u8)
    }
}

/// The canonical decimal text of a signed integer: a minus sign followed by
/// the digits of the magnitude, or just the digits.
pub open spec fn dec_text(n: int) -> Seq<u8> {
    if n < 0 {
        seq![45u8] + dec_digits((-n) as nat)
    } else {
        dec_digits(n as nat)
    }
}

/// The decimal text of an unsigned 64-bit integer.
pub fn u64_text(n: u64) -> (text: Vec<u8>)
    ensures
        text@ == dec_digits(n as nat),
{
    let mut digits: Vec<u8> = Vec::new();
    let mut m = n;
    while m >= 10
        invariant
            dec_digits(n as nat) == dec_digits(m as nat) + digits@.reverse(),
        decreases m,
    {
        digits.push(48 + (m % 10) as u8);
        m = m / 10;
        proof {
            assert(dec_digits(n as nat) =~= dec_digits(m as nat) + digits@.reverse());
        }
    }
    digits.push(48 + m as u8);
    proof {
        assert(dec_digits(n as nat) =~= digits@.reverse());
    }
    let mut text: Vec<u8> = Vec::new();
    let count = digits.len();
    let mut k: usize = 0;
    while k < count
        invariant
            k <= count,
            count == digits@.len(),
            text@ == digits@.reverse().take(k as int),
        decreases count - k,
    {
        text.push(digits[count - 1 - k]);
        k = k + 1;
        proof {
            assert(text@ =~= digits@.reverse().take(k as int));
        }
    }
    proof {
        assert(text@ =~= dec_digits(n as nat));
    }
    text
}

/// The canonical decimal text of a signed 64-bit integer.
pub fn i64_text(n: i64) -> (text: Vec<u8>)
    ensures
        text@ == dec_text(n as int),
{
    if n >= 0 {
        let text = u64_text(n as u64);
        text
    } else {
        let magnitude: u64 = ((-(n + 1)) as u64) + 1;
        proof {
            assert(magnitude as nat == (-(n as int)) as nat);
        }
        let mut text: Vec<u8> = Vec::new();
        text.push(45);
        let mut digits = u64_text(magnitude);
        text.append(&mut digits);
        proof {
            assert(text@ =~= dec_text(n as int));
        }
        text
    }
}

} // verus!
