//! The square root of a floating-point value, rounded to nearest.
use crate::ieee::{Format, Unpacked, Value};
use crate::rounding::{
    bit_length,
    lemma_pow2_128,
    lemma_pow2_double,
    lemma_pow2_increases,
    lemma_scale_bounds,
    pow2_u128,
};
use vstd::arithmetic::power2::{lemma2_to64, lemma2_to64_rest, lemma_pow2_adds, pow2};
use vstd::prelude::*;

verus! {

/// `n * 2^q` is the square root of `mant * 2^exp`, cut to the digits of the
/// format: `n` has all its digits and `n^2 <= mant * 2^(exp - 2q) < (n + 1)^2`.
pub open spec fn is_root(fmt: Format, mant: nat, exp: int, n: nat, q: int) -> bool {
    let k = exp - 2 * q;
    &&& k >= 0
    &&& pow2((fmt.precision() - 1) as nat) <= n < pow2(fmt.precision())
    &&& n * n <= mant * pow2(k as nat) < (n + 1) * (n + 1)
}

/// The value of the format nearest to the square root of `mant * 2^exp`, from
/// the root cut to the digits of the format: the next value where the root
/// lies beyond the middle, `(n + 1/2)^2 < mant * 2^(exp - 2q)`. The root of a
/// value of the format never lies in the middle.
pub open spec fn root_value(fmt: Format, mant: nat, exp: int, n: nat, q: int) -> Value {
    let m = if mant * pow2((exp - 2 * q) as nat) > n * n + n {
        n + 1
    } else {
        n
    };
    if m == pow2(fmt.precision()) {
        Value::Fin { neg: false, mant: pow2((fmt.precision() - 1) as nat), exp: q + 1 }
    } else {
        Value::Fin { neg: false, mant: m, exp: q }
    }
}

/// The square root of a value, rounded to the format: a NaN for a NaN and
/// for what is below zero, the value itself for a zero of either sign and for
/// infinity.
pub open spec fn root_spec(fmt: Format, x: Value) -> Value {
    match x {
        Value::Nan => Value::Nan,
        Value::Inf { neg } => if neg {
            Value::Nan
        } else {
            x
        },
        Value::Fin { neg, mant, exp } => if mant == 0 {
            x
        } else if neg {
            Value::Nan
        } else {
            let (n, q) = choose|n: nat, q: int| is_root(fmt, mant, exp, n, q);
            root_value(fmt, mant, exp, n, q)
        },
    }
}

/// `x^2 <= y^2` for `x <= y`.
proof fn lemma_square_increases(x: nat, y: nat)
    requires
        x <= y,
    ensures
        x * x <= y * y,
{
    assert(x * x <= y * y) by (nonlinear_arith)
        requires
            x <= y,
    ;
}

/// `(2^i)^2 == 2^(2i)`.
proof fn lemma_pow2_square(i: nat)
    ensures
        pow2(i) * pow2(i) == pow2(2 * i),
{
    lemma_pow2_adds(i, i);
}

/// A value has one root cut to the digits of the format.
pub proof fn lemma_root_unique(
    fmt: Format,
    mant: nat,
    exp: int,
    n1: nat,
    q1: int,
    n2: nat,
    q2: int,
)
    requires
        is_root(fmt, mant, exp, n1, q1),
        is_root(fmt, mant, exp, n2, q2),
    ensures
        n1 == n2,
        q1 == q2,
{
    lemma_root_order(fmt, mant, exp, n1, q1, n2, q2);
    lemma_root_order(fmt, mant, exp, n2, q2, n1, q1);
}

/// Of two cut roots of a value the second is not above the first.
proof fn lemma_root_order(fmt: Format, mant: nat, exp: int, n1: nat, q1: int, n2: nat, q2: int)
    requires
        is_root(fmt, mant, exp, n1, q1),
        is_root(fmt, mant, exp, n2, q2),
    ensures
        q2 <= q1,
        q1 == q2 ==> n2 <= n1,
{
    let p = fmt.precision();
    let half = pow2((p - 1) as nat);
    let top = pow2(p);
    lemma_pow2_double((p - 1) as nat);
    if q1 < q2 {
        let k2 = (exp - 2 * q2) as nat;
        let j = (2 * (q2 - q1)) as nat;
        lemma_pow2_adds(k2, j);
        lemma_pow2_increases(2, j);
        lemma2_to64();
        let x2 = mant * pow2(k2);
        let x1 = mant * pow2((exp - 2 * q1) as nat);
        assert(x1 == x2 * pow2(j)) by (nonlinear_arith)
            requires
                x1 == mant * pow2((exp - 2 * q1) as nat),
                x2 == mant * pow2(k2),
                pow2((exp - 2 * q1) as nat) == pow2(k2) * pow2(j),
        ;
        lemma_square_increases(half, n2);
        lemma_square_increases(n1 + 1, top);
        assert(top * top == 4 * (half * half)) by (nonlinear_arith)
            requires
                top == 2 * half,
        ;
        assert(x2 * pow2(j) >= (half * half) * 4) by (nonlinear_arith)
            requires
                x2 >= half * half,
                pow2(j) >= 4,
        ;
    } else if q1 == q2 && n1 < n2 {
        lemma_square_increases(n1 + 1, n2);
    }
}

/// The greatest `n` with `n^2 <= x`, for `x < 2^(2p)`.
fn whole_root(x: u128, p: u32) -> (n: u128)
    requires
        1 <= p <= 53,
        x < pow2(2 * p as nat),
    ensures
        n * n <= x < (n + 1) * (n + 1),
        n < pow2(p as nat),
{
    let mut n: u128 = 0;
    let mut i: u32 = p;
    proof {
        lemma2_to64();
        lemma2_to64_rest();
        lemma_pow2_128();
        lemma_pow2_square(p as nat);
        lemma_pow2_increases(2 * p as nat, 106);
        lemma_pow2_increases(106, 127);
        lemma_pow2_increases(p as nat, 53);
    }
    while i > 0
        invariant
            i <= p,
            1 <= p <= 53,
            n * n <= x < (n + pow2(i as nat)) * (n + pow2(i as nat)),
            n + pow2(i as nat) <= pow2(p as nat),
            pow2(p as nat) <= 0x20_0000_0000_0000,
        decreases i,
    {
        i = i - 1;
        let c: u128 = pow2_u128(i);
        proof {
            lemma_pow2_double(i as nat);
        }
        let t: u128 = n + c;
        proof {
            lemma_square_increases(t as nat, pow2(p as nat));
            assert(pow2(p as nat) * pow2(p as nat) <= 0x20_0000_0000_0000 * 0x20_0000_0000_0000)
                by (nonlinear_arith)
                requires
                    pow2(p as nat) <= 0x20_0000_0000_0000,
            ;
        }
        if t * t <= x {
            n = t;
        }
    }
    proof {
        lemma2_to64();
    }
    n
}

/// The square root of a value of a format, rounded to nearest.
pub fn root(fmt: Format, x: Unpacked) -> (r: Unpacked)
    requires
        x@.in_format(fmt),
    ensures
        r@ == root_spec(fmt, x@),
        r@.in_format(fmt),
{
    match x {
        Unpacked::Nan => Unpacked::Nan,
        Unpacked::Inf { neg } => {
            if neg {
                Unpacked::Nan
            } else {
                x
            }
        },
        Unpacked::Fin { neg, mant, exp } => {
            if mant == 0 {
                x
            } else if neg {
                Unpacked::Nan
            } else {
                let p: u32 = fmt.digits();
                proof {
                    lemma2_to64();
                    lemma2_to64_rest();
                    lemma_pow2_128();
                }
                // all digits in the significand
                let len: u32 = bit_length(mant as u128);
                proof {
                    crate::rounding::lemma_pow2_order((len - 1) as nat, p as nat);
                }
                let shift: u32 = p - len;
                let ghost full = mant as nat * pow2(shift as nat);
                proof {
                    lemma_scale_bounds(mant as nat, len as nat, shift as nat);
                    lemma_scale_bounds(mant as nat, (len - 1) as nat, shift as nat);
                    lemma_pow2_increases(p as nat, 53);
                }
                let m: u128 = (mant as u128) * pow2_u128(shift);
                let e: i32 = exp - shift as i32;
                // an even exponent under the root
                let k: u32 = if (e - (p as i32 - 1)) % 2 == 0 {
                    p - 1
                } else {
                    p
                };
                let q: i32 = (e - k as i32) / 2;
                assert(e - k == 2 * q);
                proof {
                    lemma_scale_bounds(m as nat, p as nat, k as nat);
                    lemma_scale_bounds(m as nat, (p - 1) as nat, k as nat);
                    lemma_pow2_increases((p + k) as nat, 2 * p as nat);
                    lemma_pow2_increases((2 * p - 2) as nat, (p - 1 + k) as nat);
                    lemma_pow2_increases(2 * p as nat, 106);
                    lemma_pow2_increases(106, 127);
                }
                let under: u128 = m * pow2_u128(k);
                let n: u128 = whole_root(under, p);
                proof {
                    // the root has all its digits
                    let half = pow2((p - 1) as nat);
                    lemma_pow2_square((p - 1) as nat);
                    assert(2 * ((p - 1) as nat) == (2 * p - 2) as nat);
                    if n < half {
                        lemma_square_increases((n + 1) as nat, half);
                    }
                    // the same under the root, from the value as it came
                    lemma_pow2_adds(shift as nat, k as nat);
                    assert(under == mant as nat * pow2((exp - 2 * q) as nat)) by (nonlinear_arith)
                        requires
                            under == m * pow2(k as nat),
                            m == mant as nat * pow2(shift as nat),
                            pow2((exp - 2 * q) as nat) == pow2(shift as nat) * pow2(k as nat),
                    ;
                    assert(is_root(fmt, mant as nat, exp as int, n as nat, q as int));
                    let (n0, q0) = choose|n0: nat, q0: int|
                        is_root(fmt, mant as nat, exp as int, n0, q0);
                    lemma_root_unique(fmt, mant as nat, exp as int, n as nat, q as int, n0, q0);
                    lemma_square_increases(n as nat, pow2(p as nat));
                    lemma_pow2_square(p as nat);
                    lemma_pow2_double((p - 1) as nat);
                }
                let up: bool = under > n * n + n;
                let rounded: u128 = if up {
                    n + 1
                } else {
                    n
                };
                if rounded == pow2_u128(p) {
                    Unpacked::Fin { neg: false, mant: (rounded / 2) as u64, exp: q + 1 }
                } else {
                    Unpacked::Fin { neg: false, mant: rounded as u64, exp: q }
                }
            }
        },
    }
}

} // verus!
