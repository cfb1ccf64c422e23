//! Decimal text of 64-bit signed integers, computed in integer arithmetic
//! throughout.

use vstd::prelude::*;

verus! {

/// `-`, the sign of a negative number.
pub const MINUS: u8 = 0x2d;

/// `0`, the first of the ten digits.
pub const ZERO: u8 = 0x30;

/// The ASCII digit for `d`, which is less than ten.
pub open spec fn digit(d: nat) -> u8
    recommends
        d < 10,
{
    (ZERO + d) as u8
}

/// The decimal digits of `n`, most significant first, without leading zeros;
/// zero is the single digit `0`.
pub open spec fn decimal_digits(n: nat) -> Seq<u8>
    decreases n,
{
    if n < 10 {
        seq![digit(n)]
    } else {
        decimal_digits(n / 10).push(digit(n % 10))
    }
}

/// The decimal text of `n`: a `-` if `n` is negative, then the digits of its
/// magnitude.
pub open spec fn decimal(n: int) -> Seq<u8> {
    if n < 0 {
        seq![MINUS] + decimal_digits((-n) as nat)
    } else {
        decimal_digits(n as nat)
    }
}

/// Every byte of a decimal text is a digit or the sign, hence ASCII.
pub proof fn lemma_decimal_digits_ascii(n: nat)
    ensures
        decimal_digits(n).len() >= 1,
        forall|i: int|
            0 <= i < decimal_digits(n).len() ==> ZERO <= #[trigger] decimal_digits(n)[i] < ZERO
                + 10,
    decreases n,
{
    if n >= 10 {
        lemma_decimal_digits_ascii(n / 10);
    }
}

/// Appends the decimal text of `n` to `w`.
pub fn write_decimal(w: &mut Vec<u8>, n: i64) -> (written: usize)
    ensures
        final(w)@ == old(w)@ + decimal(n as int),
        written == decimal(n as int).len(),
{
    let start: usize = w.len();
    let magnitude: u64 = if n < 0 {
        (-(n + 1)) as u64 + 1
    } else {
        n as u64
    };
    if n < 0 {
        w.push(MINUS);
    }
    let ghost base = w@;
    // The digits come out least significant first: collect, then copy in
    // reverse.
    let mut low: Vec<u8> = Vec::new();
    low.push(ZERO + (magnitude % 10) as u8);
    let mut rest: u64 = magnitude / 10;
    let ghost mut tail: Seq<u8> = seq![digit((magnitude % 10) as nat)];
    while rest > 0
        invariant
            low@.len() == tail.len(),
            tail.len() >= 1,
            forall|j: int| 0 <= j < tail.len() ==> low@[j] == tail[tail.len() - 1 - j],
            decimal_digits(magnitude as nat) == (if rest > 0 {
                decimal_digits(rest as nat)
            } else {
                Seq::<u8>::empty()
            }) + tail,
        decreases rest,
    {
        let d: u8 = (rest % 10) as u8;
        proof {
            let shorter = if rest / 10 > 0 {
                decimal_digits((rest / 10) as nat)
            } else {
                Seq::<u8>::empty()
            };
            assert(decimal_digits(rest as nat) =~= shorter.push(digit(d as nat)));
            assert(shorter.push(digit(d as nat)) + tail =~= shorter + (seq![digit(d as nat)]
                + tail));
            tail = seq![digit(d as nat)] + tail;
        }
        low.push(ZERO + d);
        rest = rest / 10;
    }
    proof {
        assert(decimal_digits(magnitude as nat) =~= tail);
    }
    let mut k: usize = low.len();
    while k > 0
        invariant
            k <= low@.len(),
            low@.len() == tail.len(),
            forall|j: int| 0 <= j < tail.len() ==> low@[j] == tail[tail.len() - 1 - j],
            w@ == base + tail.take(tail.len() - k),
        decreases k,
    {
        k -= 1;
        w.push(low[k]);
        proof {
            assert(tail.take(tail.len() - k) =~= tail.take(tail.len() - k - 1).push(
                tail[tail.len() - k - 1],
            ));
        }
    }
    proof {
        assert(tail.take(tail.len() as int) =~= tail);
        assert(w@ =~= old(w)@ + decimal(n as int));
    }
    w.len() - start
}

} // verus!
