//! Decimal digits of fixed width.
use vstd::prelude::*;

verus! {

/// `10^n`.
pub open spec fn pow10(n: nat) -> nat
    decreases n,
{
    if n == 0 {
        1
    } else {
        10 * pow10((n - 1) as nat)
    }
}

/// The decimal digit of `value` that counts `10^place`.
pub open spec fn digit(value: nat, place: nat) -> nat {
    (value / pow10(place)) % 10
}

/// The ASCII character of a decimal digit.
pub open spec fn digit_char(d: nat) -> u8 {
    (0x30 + d) as u8
}

/// The last `N` decimal digits of `value` as ASCII characters, the one that
/// counts most first.
pub fn decimal<const N: usize>(value: u64) -> (r: [u8; N])
    ensures
        forall|i: int|
            0 <= i < N ==> #[trigger] r@[i] == digit_char(
                digit(value as nat, (N - 1 - i) as nat),
            ),
{
    let mut r: [u8; N] = [0x30; N];
    let mut rest: u64 = value;
    let mut k: usize = 0;
    assert(pow10(0) == 1);
    while k < N
        invariant
            k <= N,
            rest == value as nat / pow10(k as nat),
            forall|i: int|
                N - k <= i < N ==> #[trigger] r@[i] == digit_char(
                    digit(value as nat, (N - 1 - i) as nat),
                ),
        decreases N - k,
    {
        proof {
            lemma_pow10_pos(k as nat);
            vstd::arithmetic::div_mod::lemma_div_denominator(
                value as int,
                pow10(k as nat) as int,
                10,
            );
            assert(pow10(k as nat) * 10 == pow10((k + 1) as nat));
        }
        r[N - 1 - k] = 0x30 + (rest % 10) as u8;
        rest = rest / 10;
        k = k + 1;
    }
    r
}

/// `10^n > 0`.
pub proof fn lemma_pow10_pos(n: nat)
    ensures
        pow10(n) > 0,
    decreases n,
{
    if n > 0 {
        lemma_pow10_pos((n - 1) as nat);
    }
}

} // verus!
