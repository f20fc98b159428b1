//! Binary floating-point values and their arithmetic, over integers.
//!
//! A finite value is `mant * 2^exp` with a sign. Every operation returns the
//! exact result rounded to the nearest value of the format, ties to the value
//! with the even significand, as IEEE 754 asks of its default rounding.
use crate::rounding::{
    den_at,
    floor_at,
    is_quantum,
    lemma_nearest_even_of,
    lemma_pow2_128,
    lemma_pow2_double,
    lemma_pow2_increases,
    lemma_quantum_is,
    lemma_scale_bounds,
    nearest_at,
    num_at,
    pow2_u128,
    quantum,
    round_ratio,
    EXP_LIMIT,
};
use vstd::arithmetic::power2::{lemma2_to64, lemma2_to64_rest, lemma_pow2_pos, pow2};
use vstd::prelude::*;

verus! {

/// The two formats.
#[derive(Clone, Copy, Debug)]
pub enum Format {
    /// 24 binary digits, with exponents from -149 to 104.
    Single,
    /// 53 binary digits, with exponents from -1074 to 971.
    Double,
}

impl Format {
    /// Number of binary digits of a significand.
    pub open spec fn precision(self) -> nat {
        match self {
            Format::Single => 24,
            Format::Double => 53,
        }
    }

    /// Exponent of the last place of the values nearest to zero.
    pub open spec fn emin(self) -> int {
        match self {
            Format::Single => -149,
            Format::Double => -1074,
        }
    }

    /// Exponent of the last place of the greatest finite values.
    pub open spec fn emax(self) -> int {
        match self {
            Format::Single => 104,
            Format::Double => 971,
        }
    }

    /// Number of binary digits of a significand.
    pub fn digits(self) -> (p: u32)
        ensures
            p == self.precision(),
    {
        match self {
            Format::Single => 24,
            Format::Double => 53,
        }
    }

    /// Exponent of the last place of the values nearest to zero.
    pub fn least_exp(self) -> (e: i32)
        ensures
            e == self.emin(),
    {
        match self {
            Format::Single => -149,
            Format::Double => -1074,
        }
    }

    /// Exponent of the last place of the greatest finite values.
    pub fn greatest_exp(self) -> (e: i32)
        ensures
            e == self.emax(),
    {
        match self {
            Format::Single => 104,
            Format::Double => 971,
        }
    }
}

/// What a floating-point datum stands for.
pub enum Value {
    /// Not a number.
    Nan,
    /// Infinity, with its sign.
    Inf { neg: bool },
    /// `mant * 2^exp`, negated where `neg`; zero has a sign too.
    Fin { neg: bool, mant: nat, exp: int },
}

impl Value {
    /// Whether the value is not a number.
    pub open spec fn is_nan(self) -> bool {
        self is Nan
    }

    /// Whether the value is neither an infinity nor a NaN.
    pub open spec fn is_finite(self) -> bool {
        self is Fin
    }

    /// Whether the value is a zero of either sign.
    pub open spec fn is_zero(self) -> bool {
        self is Fin && self->mant == 0
    }

    /// The sign; false for a NaN.
    pub open spec fn sign(self) -> bool {
        match self {
            Value::Nan => false,
            Value::Inf { neg } => neg,
            Value::Fin { neg, .. } => neg,
        }
    }

    /// Zero of a format.
    pub open spec fn zero(fmt: Format, neg: bool) -> Value {
        Value::Fin { neg, mant: 0, exp: fmt.emin() }
    }

    /// The value is one of the format, written in the format's one way:
    /// the significand has all its digits unless the exponent is the least.
    pub open spec fn in_format(self, fmt: Format) -> bool {
        match self {
            Value::Fin { mant, exp, .. } => {
                &&& mant < pow2(fmt.precision())
                &&& fmt.emin() <= exp <= fmt.emax()
                &&& mant < pow2((fmt.precision() - 1) as nat) ==> exp == fmt.emin()
            },
            _ => true,
        }
    }
}

/// A floating-point datum taken apart.
#[derive(Clone, Copy, Debug)]
pub enum Unpacked {
    /// Not a number.
    Nan,
    /// Infinity, with its sign.
    Inf { neg: bool },
    /// `mant * 2^exp`, negated where `neg`.
    Fin { neg: bool, mant: u64, exp: i32 },
}

impl View for Unpacked {
    type V = Value;

    open spec fn view(&self) -> Value {
        match *self {
            Unpacked::Nan => Value::Nan,
            Unpacked::Inf { neg } => Value::Inf { neg },
            Unpacked::Fin { neg, mant, exp } => Value::Fin {
                neg,
                mant: mant as nat,
                exp: exp as int,
            },
        }
    }
}

/// The value of the format nearest to `(a / b) * 2^e`, negated where `neg`:
/// the multiple of the quantum that is nearest, of two that are equally near
/// the even one, and infinity where that is beyond the format.
pub open spec fn rounded(fmt: Format, neg: bool, a: nat, b: nat, e: int) -> Value {
    let p = fmt.precision();
    if a == 0 {
        Value::zero(fmt, neg)
    } else {
        let q = quantum(a, b, e, p, fmt.emin());
        let m = nearest_at(a, b, e - q);
        if m == pow2(p) {
            if q + 1 > fmt.emax() {
                Value::Inf { neg }
            } else {
                Value::Fin { neg, mant: pow2((p - 1) as nat), exp: q + 1 }
            }
        } else {
            if q > fmt.emax() {
                Value::Inf { neg }
            } else {
                Value::Fin { neg, mant: m, exp: q }
            }
        }
    }
}

/// Rounds `(a / b) * 2^e` to the format.
pub fn round(fmt: Format, neg: bool, a: u128, b: u64, e: i32) -> (r: Unpacked)
    requires
        b > 0,
        -EXP_LIMIT <= e <= EXP_LIMIT,
    ensures
        r@ == rounded(fmt, neg, a as nat, b as nat, e as int),
        r@.in_format(fmt),
{
    let p: u32 = fmt.digits();
    let emin: i32 = fmt.least_exp();
    let emax: i32 = fmt.greatest_exp();
    proof {
        lemma2_to64();
        lemma2_to64_rest();
    }
    if a == 0 {
        return Unpacked::Fin { neg, mant: 0, exp: emin };
    }
    let (m, q) = round_ratio(a, b, e, p, emin);
    proof {
        lemma_quantum_is(a as nat, b as nat, e as int, p as nat, emin as int, q as int);
        lemma_pow2_double((p - 1) as nat);
    }
    let top: u64 = pow2_u128(p) as u64;
    if m == top {
        if q + 1 > emax {
            Unpacked::Inf { neg }
        } else {
            Unpacked::Fin { neg, mant: top / 2, exp: q + 1 }
        }
    } else {
        if q > emax {
            Unpacked::Inf { neg }
        } else {
            Unpacked::Fin { neg, mant: m, exp: q }
        }
    }
}

/// The product of two values, rounded to the format.
pub open spec fn product_spec(fmt: Format, x: Value, y: Value) -> Value {
    if x.is_nan() || y.is_nan() {
        Value::Nan
    } else if (x is Inf && y.is_zero()) || (x.is_zero() && y is Inf) {
        Value::Nan
    } else if x is Inf || y is Inf {
        Value::Inf { neg: x.sign() != y.sign() }
    } else {
        rounded(fmt, x.sign() != y.sign(), x->mant * y->mant, 1, x->exp + y->exp)
    }
}

/// The quotient of two values, rounded to the format.
pub open spec fn quotient_spec(fmt: Format, x: Value, y: Value) -> Value {
    if x.is_nan() || y.is_nan() {
        Value::Nan
    } else if (x is Inf && y is Inf) || (x.is_zero() && y.is_zero()) {
        Value::Nan
    } else if x is Inf || y.is_zero() {
        Value::Inf { neg: x.sign() != y.sign() }
    } else if y is Inf {
        Value::zero(fmt, x.sign() != y.sign())
    } else {
        rounded(fmt, x.sign() != y.sign(), x->mant, y->mant, x->exp - y->exp)
    }
}

/// A natural number, rounded to the format.
pub open spec fn from_nat_spec(fmt: Format, n: nat) -> Value {
    rounded(fmt, false, n, 1, 0)
}

/// A value of any format, rounded to the format `fmt`.
pub open spec fn convert_spec(fmt: Format, x: Value) -> Value {
    match x {
        Value::Fin { neg, mant, exp } => rounded(fmt, neg, mant, 1, exp),
        _ => x,
    }
}

/// `x * y < 2^(2p)` for `x, y < 2^p`.
proof fn lemma_product_bound(x: nat, y: nat, p: nat)
    requires
        x < pow2(p),
        y < pow2(p),
    ensures
        x * y < pow2(p + p),
{
    lemma_scale_bounds(x, p, p);
    lemma_pow2_pos(p);
    assert(x * y <= x * pow2(p)) by (nonlinear_arith)
        requires
            y <= pow2(p),
    ;
}

/// Multiplies two values of a format.
pub fn product(fmt: Format, x: Unpacked, y: Unpacked) -> (r: Unpacked)
    requires
        x@.in_format(fmt),
        y@.in_format(fmt),
    ensures
        r@ == product_spec(fmt, x@, y@),
        r@.in_format(fmt),
{
    match x {
        Unpacked::Nan => Unpacked::Nan,
        Unpacked::Inf { neg: n1 } => match y {
            Unpacked::Nan => Unpacked::Nan,
            Unpacked::Inf { neg: n2 } => Unpacked::Inf { neg: n1 != n2 },
            Unpacked::Fin { neg: n2, mant: m2, exp: _ } => {
                if m2 == 0 {
                    Unpacked::Nan
                } else {
                    Unpacked::Inf { neg: n1 != n2 }
                }
            },
        },
        Unpacked::Fin { neg: n1, mant: m1, exp: e1 } => match y {
            Unpacked::Nan => Unpacked::Nan,
            Unpacked::Inf { neg: n2 } => {
                if m1 == 0 {
                    Unpacked::Nan
                } else {
                    Unpacked::Inf { neg: n1 != n2 }
                }
            },
            Unpacked::Fin { neg: n2, mant: m2, exp: e2 } => {
                proof {
                    lemma_product_bound(m1 as nat, m2 as nat, fmt.precision());
                    lemma_pow2_increases(fmt.precision() + fmt.precision(), 127);
                    lemma_pow2_128();
                }
                let a: u128 = (m1 as u128) * (m2 as u128);
                round(fmt, n1 != n2, a, 1, e1 + e2)
            },
        },
    }
}

/// Divides a value of a format by another.
pub fn quotient(fmt: Format, x: Unpacked, y: Unpacked) -> (r: Unpacked)
    requires
        x@.in_format(fmt),
        y@.in_format(fmt),
    ensures
        r@ == quotient_spec(fmt, x@, y@),
        r@.in_format(fmt),
{
    match x {
        Unpacked::Nan => Unpacked::Nan,
        Unpacked::Inf { neg: n1 } => match y {
            Unpacked::Nan => Unpacked::Nan,
            Unpacked::Inf { neg: _ } => Unpacked::Nan,
            Unpacked::Fin { neg: n2, mant: _, exp: _ } => Unpacked::Inf { neg: n1 != n2 },
        },
        Unpacked::Fin { neg: n1, mant: m1, exp: e1 } => match y {
            Unpacked::Nan => Unpacked::Nan,
            Unpacked::Inf { neg: n2 } => Unpacked::Fin {
                neg: n1 != n2,
                mant: 0,
                exp: fmt.least_exp(),
            },
            Unpacked::Fin { neg: n2, mant: m2, exp: e2 } => {
                if m2 == 0 {
                    if m1 == 0 {
                        Unpacked::Nan
                    } else {
                        Unpacked::Inf { neg: n1 != n2 }
                    }
                } else {
                    round(fmt, n1 != n2, m1 as u128, m2, e1 - e2)
                }
            },
        },
    }
}

/// Converts a natural number to the format.
pub fn from_u128(fmt: Format, n: u128) -> (r: Unpacked)
    ensures
        r@ == from_nat_spec(fmt, n as nat),
        r@.in_format(fmt),
{
    round(fmt, false, n, 1, 0)
}

/// Converts a value to the format `fmt`.
pub fn convert(fmt: Format, x: Unpacked) -> (r: Unpacked)
    requires
        x@ is Fin ==> -EXP_LIMIT <= x@->exp <= EXP_LIMIT,
    ensures
        r@ == convert_spec(fmt, x@),
        r@.in_format(fmt),
{
    match x {
        Unpacked::Fin { neg, mant, exp } => round(fmt, neg, mant as u128, 1, exp),
        Unpacked::Inf { neg } => Unpacked::Inf { neg },
        Unpacked::Nan => Unpacked::Nan,
    }
}

/// The smaller of two integers.
pub open spec fn least(a: int, b: int) -> int {
    if a <= b {
        a
    } else {
        b
    }
}

/// The significand of a finite value with its sign.
pub open spec fn signed_mant(x: Value) -> int {
    if x.sign() {
        -(x->mant as int)
    } else {
        x->mant as int
    }
}

/// The exact sum of two finite values, counted in units of two to the
/// smaller of their exponents.
pub open spec fn exact_sum(x: Value, y: Value) -> int {
    let e = least(x->exp, y->exp);
    signed_mant(x) * pow2((x->exp - e) as nat) + signed_mant(y) * pow2((y->exp - e) as nat)
}

/// The value with the other sign; a NaN stays a NaN.
pub open spec fn negated(x: Value) -> Value {
    match x {
        Value::Nan => Value::Nan,
        Value::Inf { neg } => Value::Inf { neg: !neg },
        Value::Fin { neg, mant, exp } => Value::Fin { neg: !neg, mant, exp },
    }
}

/// The value without its sign; a NaN stays a NaN.
pub open spec fn magnitude(x: Value) -> Value {
    match x {
        Value::Nan => Value::Nan,
        Value::Inf { neg } => Value::Inf { neg: false },
        Value::Fin { neg, mant, exp } => Value::Fin { neg: false, mant, exp },
    }
}

/// The sum of two values, rounded to the format. An exact zero is negative
/// only where both terms are.
pub open spec fn sum_spec(fmt: Format, x: Value, y: Value) -> Value {
    if x.is_nan() || y.is_nan() {
        Value::Nan
    } else if x is Inf && y is Inf {
        if x.sign() == y.sign() {
            x
        } else {
            Value::Nan
        }
    } else if x is Inf {
        x
    } else if y is Inf {
        y
    } else {
        let a = exact_sum(x, y);
        let e = least(x->exp, y->exp);
        if a == 0 {
            Value::zero(fmt, x.sign() && y.sign())
        } else if a < 0 {
            rounded(fmt, true, (-a) as nat, 1, e)
        } else {
            rounded(fmt, false, a as nat, 1, e)
        }
    }
}

/// The difference of two values, rounded to the format.
pub open spec fn difference_spec(fmt: Format, x: Value, y: Value) -> Value {
    sum_spec(fmt, x, negated(y))
}

/// A sum does not depend on the order of its terms.
pub proof fn lemma_sum_commutes(fmt: Format, x: Value, y: Value)
    ensures
        sum_spec(fmt, x, y) == sum_spec(fmt, y, x),
{
}

/// `n * 2^d + r`, counted in units of `2^d`, has floor `n` and, where
/// `2 * r < 2^d`, rounds to `n`; where `2 * r > 2^d`, to `n + 1`.
proof fn lemma_units(n: nat, r: nat, d: nat)
    requires
        r < pow2(d),
    ensures
        floor_at(n * pow2(d) + r, 1, -(d as int)) == n,
        2 * r < pow2(d) ==> nearest_at(n * pow2(d) + r, 1, -(d as int)) == n,
        2 * r > pow2(d) ==> nearest_at(n * pow2(d) + r, 1, -(d as int)) == n + 1,
{
    lemma2_to64();
    let x = n * pow2(d) + r;
    let k = -(d as int);
    assert(den_at(1, k) == pow2(d)) by {
        if d > 0 {
            assert(1 * pow2(d) == pow2(d));
        }
    }
    assert(num_at(x, k) == x) by {
        if d == 0 {
            assert(x * pow2(0) == x);
        }
    }
    lemma_nearest_even_of(x, pow2(d), n, r);
}

/// Where the exponents of two terms differ by at least two more than the
/// precision, the sum rounds to the term with the greater exponent.
proof fn lemma_far_sum(fmt: Format, x: Value, y: Value)
    requires
        x is Fin,
        y is Fin,
        x.in_format(fmt),
        y.in_format(fmt),
        x->exp - y->exp >= fmt.precision() + 2,
    ensures
        sum_spec(fmt, x, y) == x,
{
    lemma2_to64();
    lemma2_to64_rest();
    let p = fmt.precision();
    let emin = fmt.emin();
    let m1 = x->mant;
    let m2 = y->mant;
    let e1 = x->exp;
    let e2 = y->exp;
    let d = (e1 - e2) as nat;
    let big = pow2(d);
    let top = pow2(p);
    let half = pow2((p - 1) as nat);
    lemma_pow2_double((p - 1) as nat);
    lemma_pow2_increases(p + 2, d);
    lemma_pow2_double(p);
    lemma_pow2_double(p + 1);
    lemma_pow2_pos((p - 1) as nat);
    assert(4 * top <= big);
    assert(half <= m1 < top);
    assert(m2 < top);
    assert(least(e1, e2) == e2);
    assert(pow2((e2 - e2) as nat) == 1);
    let a = exact_sum(x, y);
    assert(a == signed_mant(x) * big + signed_mant(y)) by {
        assert(signed_mant(y) * 1 == signed_mant(y));
    }
    assert(m1 * big >= big) by (nonlinear_arith)
        requires
            m1 >= 1,
            big >= 0,
    ;
    lemma_units_sign(x, e2);
    if x.sign() == y.sign() || m2 == 0 {
        // the magnitude is m1 * 2^d + m2
        let mag = m1 * big + m2;
        assert(mag == if a < 0 { -a } else { a });
        lemma_units(m1, m2, d);
        assert(is_quantum(mag, 1, e2, p, emin, e1));
        lemma_quantum_is(mag, 1, e2, p, emin, e1);
    } else {
        // the magnitude is m1 * 2^d - m2, with 0 < m2
        let mag = (m1 * big - m2) as nat;
        assert(mag == if a < 0 { -a } else { a });
        if m1 > half {
            let n = (m1 - 1) as nat;
            let r = (big - m2) as nat;
            assert(mag == n * big + r) by (nonlinear_arith)
                requires
                    mag == m1 * big - m2,
                    n == m1 - 1,
                    r == big - m2,
            ;
            lemma_units(n, r, d);
            assert(is_quantum(mag, 1, e2, p, emin, e1));
            lemma_quantum_is(mag, 1, e2, p, emin, e1);
        } else {
            let small = pow2((d - 1) as nat);
            lemma_pow2_double((d - 1) as nat);
            let n = (top - 1) as nat;
            let r = (small - m2) as nat;
            assert(mag == n * small + r) by (nonlinear_arith)
                requires
                    mag == m1 * big - m2,
                    big == 2 * small,
                    top == 2 * m1,
                    n == top - 1,
                    r == small - m2,
            ;
            lemma_units(n, r, (d - 1) as nat);
            assert(e2 - (e1 - 1) == -((d - 1) as nat as int));
            assert(is_quantum(mag, 1, e2, p, emin, e1 - 1));
            lemma_quantum_is(mag, 1, e2, p, emin, e1 - 1);
        }
    }
}

/// Adds two finite values, the first with the greater exponent.
fn sum_ordered(fmt: Format, n1: bool, m1: u64, e1: i32, n2: bool, m2: u64, e2: i32) -> (r:
    Unpacked)
    requires
        (Unpacked::Fin { neg: n1, mant: m1, exp: e1 })@.in_format(fmt),
        (Unpacked::Fin { neg: n2, mant: m2, exp: e2 })@.in_format(fmt),
        e1 >= e2,
    ensures
        r@ == sum_spec(
            fmt,
            (Unpacked::Fin { neg: n1, mant: m1, exp: e1 })@,
            (Unpacked::Fin { neg: n2, mant: m2, exp: e2 })@,
        ),
        r@.in_format(fmt),
{
    let ghost x = (Unpacked::Fin { neg: n1, mant: m1, exp: e1 })@;
    let ghost y = (Unpacked::Fin { neg: n2, mant: m2, exp: e2 })@;
    let d: i32 = e1 - e2;
    if d > 64 {
        proof {
            lemma_far_sum(fmt, x, y);
        }
        return Unpacked::Fin { neg: n1, mant: m1, exp: e1 };
    }
    proof {
        lemma2_to64();
        lemma2_to64_rest();
        lemma_pow2_128();
        lemma_scale_bounds(m1 as nat, fmt.precision(), d as nat);
        lemma_pow2_increases(fmt.precision() + d as nat, 117);
        lemma_pow2_increases(117, 126);
        lemma_pow2_increases(fmt.precision(), 126);
        lemma_pow2_double(126);
        assert(least(e1 as int, e2 as int) == e2);
        assert(pow2((e2 - e2) as nat) == 1);
        assert(signed_mant(y) * 1 == signed_mant(y));
        lemma_units_sign(x, e2 as int);
    }
    let big: u128 = (m1 as u128) * pow2_u128(d as u32);
    let small: u128 = m2 as u128;
    if n1 == n2 {
        round(fmt, n1, big + small, 1, e2)
    } else if big > small {
        round(fmt, n1, big - small, 1, e2)
    } else if big < small {
        round(fmt, n2, small - big, 1, e2)
    } else {
        Unpacked::Fin { neg: false, mant: 0, exp: fmt.least_exp() }
    }
}

/// Adds two values of a format.
pub fn sum(fmt: Format, x: Unpacked, y: Unpacked) -> (r: Unpacked)
    requires
        x@.in_format(fmt),
        y@.in_format(fmt),
    ensures
        r@ == sum_spec(fmt, x@, y@),
        r@.in_format(fmt),
{
    match x {
        Unpacked::Nan => Unpacked::Nan,
        Unpacked::Inf { neg: n1 } => match y {
            Unpacked::Nan => Unpacked::Nan,
            Unpacked::Inf { neg: n2 } => {
                if n1 == n2 {
                    x
                } else {
                    Unpacked::Nan
                }
            },
            Unpacked::Fin { neg: _, mant: _, exp: _ } => x,
        },
        Unpacked::Fin { neg: n1, mant: m1, exp: e1 } => match y {
            Unpacked::Nan => Unpacked::Nan,
            Unpacked::Inf { neg: _ } => y,
            Unpacked::Fin { neg: n2, mant: m2, exp: e2 } => {
                if e1 >= e2 {
                    sum_ordered(fmt, n1, m1, e1, n2, m2, e2)
                } else {
                    proof {
                        lemma_sum_commutes(fmt, x@, y@);
                    }
                    sum_ordered(fmt, n2, m2, e2, n1, m1, e1)
                }
            },
        },
    }
}

/// The value with the other sign.
pub fn negate(x: Unpacked) -> (r: Unpacked)
    ensures
        r@ == negated(x@),
{
    match x {
        Unpacked::Nan => Unpacked::Nan,
        Unpacked::Inf { neg } => Unpacked::Inf { neg: !neg },
        Unpacked::Fin { neg, mant, exp } => Unpacked::Fin { neg: !neg, mant, exp },
    }
}

/// Subtracts a value of a format from another.
pub fn difference(fmt: Format, x: Unpacked, y: Unpacked) -> (r: Unpacked)
    requires
        x@.in_format(fmt),
        y@.in_format(fmt),
    ensures
        r@ == difference_spec(fmt, x@, y@),
        r@.in_format(fmt),
{
    sum(fmt, x, negate(y))
}

/// A finite value counted in units of `2^e`, for `e` not above its exponent.
pub open spec fn units_at(x: Value, e: int) -> int {
    signed_mant(x) * pow2((x->exp - e) as nat)
}

/// `x < y` as numbers. Nothing is less than a NaN, nor a NaN less than
/// anything; the two zeros are equal.
pub open spec fn less_spec(x: Value, y: Value) -> bool {
    if x.is_nan() || y.is_nan() {
        false
    } else if x is Inf {
        x.sign() && !(y is Inf && y.sign())
    } else if y is Inf {
        !y.sign()
    } else {
        let e = least(x->exp, y->exp);
        units_at(x, e) < units_at(y, e)
    }
}

/// `x == y` as numbers. A NaN equals nothing; the two zeros are equal.
pub open spec fn equal_spec(x: Value, y: Value) -> bool {
    if x.is_nan() || y.is_nan() {
        false
    } else if x is Inf || y is Inf {
        x == y
    } else {
        let e = least(x->exp, y->exp);
        units_at(x, e) == units_at(y, e)
    }
}

/// The count of a finite value in units is that of its magnitude, with the
/// value's sign; the count of a magnitude is not negative, and zero for a
/// zero only.
pub proof fn lemma_units_sign(x: Value, e: int)
    requires
        x is Fin,
        e <= x->exp,
    ensures
        units_at(x, e) == (if x.sign() {
            -units_at(magnitude(x), e)
        } else {
            units_at(magnitude(x), e)
        }),
        units_at(magnitude(x), e) == x->mant * pow2((x->exp - e) as nat),
        units_at(magnitude(x), e) >= 0,
        units_at(magnitude(x), e) == 0 <==> x->mant == 0,
{
    let c = pow2((x->exp - e) as nat) as int;
    let m = x->mant as int;
    lemma_pow2_pos((x->exp - e) as nat);
    assert((-m) * c == -(m * c)) by (nonlinear_arith);
    assert(m * c >= 0 && (m > 0 ==> m * c > 0) && (m == 0 ==> m * c == 0)) by (nonlinear_arith)
        requires
            m >= 0,
            c > 0,
    ;
}

/// The exact difference of two finite values is the difference of their
/// counts in units.
pub proof fn lemma_exact_difference(x: Value, y: Value)
    requires
        x is Fin,
        y is Fin,
    ensures
        exact_sum(x, negated(y)) == units_at(x, least(x->exp, y->exp)) - units_at(
            y,
            least(x->exp, y->exp),
        ),
{
    let e = least(x->exp, y->exp);
    lemma_units_sign(y, e);
    lemma_units_sign(negated(y), e);
}

/// How a finite value stands to zero: it is at most zero where it has the
/// sign or is a zero, and above zero where it has no sign and is no zero.
pub proof fn lemma_order_with_zero(x: Value, zero: Value)
    requires
        x is Fin,
        zero.is_zero(),
    ensures
        at_most(x, zero) <==> x.sign() || x->mant == 0,
        less_spec(zero, x) <==> !x.sign() && x->mant > 0,
{
    let e = least(x->exp, zero->exp);
    lemma_units_sign(x, e);
    lemma_units_sign(zero, e);
}

/// `x <= y` as numbers; false where either is a NaN.
pub open spec fn at_most(x: Value, y: Value) -> bool {
    less_spec(x, y) || equal_spec(x, y)
}

/// Counting in smaller units multiplies by a power of two.
pub proof fn lemma_units_rescale(x: Value, e: int, e2: int)
    requires
        x is Fin,
        e2 <= e <= x->exp,
    ensures
        units_at(x, e2) == units_at(x, e) * pow2((e - e2) as nat),
{
    vstd::arithmetic::power2::lemma_pow2_adds((x->exp - e) as nat, (e - e2) as nat);
    let s = signed_mant(x);
    let c = pow2((x->exp - e) as nat) as int;
    let d = pow2((e - e2) as nat) as int;
    assert(s * (c * d) == (s * c) * d) by (nonlinear_arith);
}

/// Two finite values compare as their counts in any unit that both have.
pub proof fn lemma_order_at(x: Value, y: Value, e: int)
    requires
        x is Fin,
        y is Fin,
        e <= x->exp,
        e <= y->exp,
    ensures
        less_spec(x, y) <==> units_at(x, e) < units_at(y, e),
        equal_spec(x, y) <==> units_at(x, e) == units_at(y, e),
{
    let e0 = least(x->exp, y->exp);
    lemma_units_rescale(x, e0, e);
    lemma_units_rescale(y, e0, e);
    let d = pow2((e0 - e) as nat) as int;
    lemma_pow2_pos((e0 - e) as nat);
    let a = units_at(x, e0);
    let b = units_at(y, e0);
    assert((a < b <==> a * d < b * d) && (a == b <==> a * d == b * d)) by (nonlinear_arith)
        requires
            d > 0,
    ;
}

/// The order of finite values is total.
pub proof fn lemma_order_total(x: Value, y: Value)
    requires
        x is Fin,
        y is Fin,
    ensures
        less_spec(x, y) || equal_spec(x, y) || less_spec(y, x),
        equal_spec(x, x),
        !(less_spec(x, y) && less_spec(y, x)),
{
}

/// The order of finite values is transitive.
pub proof fn lemma_order_transitive(x: Value, y: Value, z: Value)
    requires
        x is Fin,
        y is Fin,
        z is Fin,
    ensures
        less_spec(x, y) && at_most(y, z) ==> less_spec(x, z),
        at_most(x, y) && less_spec(y, z) ==> less_spec(x, z),
        at_most(x, y) && at_most(y, z) ==> at_most(x, z),
{
    let e = least(x->exp, least(y->exp, z->exp));
    lemma_order_at(x, y, e);
    lemma_order_at(y, z, e);
    lemma_order_at(x, z, e);
}

/// Among the values of a format, the greater exponent has the greater
/// magnitude.
proof fn lemma_exponent_orders(fmt: Format, x: Value, y: Value)
    requires
        x is Fin,
        y is Fin,
        x.in_format(fmt),
        y.in_format(fmt),
        x->exp < y->exp,
    ensures
        x->mant * pow2(0) < y->mant * pow2((y->exp - x->exp) as nat),
{
    lemma2_to64();
    let p = fmt.precision();
    let d = (y->exp - x->exp) as nat;
    lemma_pow2_double((p - 1) as nat);
    lemma_pow2_increases(1, d);
    let h = pow2((p - 1) as nat) as int;
    let m2 = y->mant as int;
    let c = pow2(d) as int;
    assert(h * 2 <= m2 * c) by (nonlinear_arith)
        requires
            h <= m2,
            2 <= c,
            0 <= h,
    ;
    assert(x->mant * 1 == x->mant);
}

/// Whether the magnitude of one finite value is less than that of another.
fn magnitude_less(fmt: Format, m1: u64, e1: i32, m2: u64, e2: i32) -> (r: bool)
    requires
        (Unpacked::Fin { neg: false, mant: m1, exp: e1 })@.in_format(fmt),
        (Unpacked::Fin { neg: false, mant: m2, exp: e2 })@.in_format(fmt),
    ensures
        r == less_spec(
            (Unpacked::Fin { neg: false, mant: m1, exp: e1 })@,
            (Unpacked::Fin { neg: false, mant: m2, exp: e2 })@,
        ),
{
    let ghost x = (Unpacked::Fin { neg: false, mant: m1, exp: e1 })@;
    let ghost y = (Unpacked::Fin { neg: false, mant: m2, exp: e2 })@;
    proof {
        lemma2_to64();
    }
    if e1 == e2 {
        proof {
            assert(m1 * 1 == m1);
            assert(m2 * 1 == m2);
        }
        m1 < m2
    } else if e1 < e2 {
        proof {
            lemma_exponent_orders(fmt, x, y);
        }
        true
    } else {
        proof {
            lemma_exponent_orders(fmt, y, x);
        }
        false
    }
}

/// Whether `x < y`.
pub fn less(fmt: Format, x: Unpacked, y: Unpacked) -> (r: bool)
    requires
        x@.in_format(fmt),
        y@.in_format(fmt),
    ensures
        r == less_spec(x@, y@),
{
    match x {
        Unpacked::Nan => false,
        Unpacked::Inf { neg: n1 } => match y {
            Unpacked::Nan => false,
            Unpacked::Inf { neg: n2 } => n1 && !n2,
            Unpacked::Fin { neg: _, mant: _, exp: _ } => n1,
        },
        Unpacked::Fin { neg: n1, mant: m1, exp: e1 } => match y {
            Unpacked::Nan => false,
            Unpacked::Inf { neg: n2 } => !n2,
            Unpacked::Fin { neg: n2, mant: m2, exp: e2 } => {
                proof {
                    let e = least(e1 as int, e2 as int);
                    lemma_units_sign(x@, e);
                    lemma_units_sign(y@, e);
                }
                if n1 && !n2 {
                    m1 != 0 || m2 != 0
                } else if !n1 && n2 {
                    false
                } else if !n1 {
                    magnitude_less(fmt, m1, e1, m2, e2)
                } else {
                    magnitude_less(fmt, m2, e2, m1, e1)
                }
            },
        },
    }
}

/// Whether `x == y`.
pub fn equal(fmt: Format, x: Unpacked, y: Unpacked) -> (r: bool)
    requires
        x@.in_format(fmt),
        y@.in_format(fmt),
    ensures
        r == equal_spec(x@, y@),
{
    match x {
        Unpacked::Nan => false,
        Unpacked::Inf { neg: n1 } => match y {
            Unpacked::Inf { neg: n2 } => n1 == n2,
            _ => false,
        },
        Unpacked::Fin { neg: n1, mant: m1, exp: e1 } => match y {
            Unpacked::Fin { neg: n2, mant: m2, exp: e2 } => {
                proof {
                    let e = least(e1 as int, e2 as int);
                    lemma2_to64();
                    lemma_units_sign(x@, e);
                    lemma_units_sign(y@, e);
                    if e1 < e2 {
                        lemma_exponent_orders(fmt, x@, y@);
                    } else if e2 < e1 {
                        lemma_exponent_orders(fmt, y@, x@);
                    } else {
                        assert(m1 * 1 == m1);
                        assert(m2 * 1 == m2);
                    }
                }
                if m1 == 0 && m2 == 0 {
                    true
                } else {
                    n1 == n2 && m1 == m2 && e1 == e2
                }
            },
            _ => false,
        },
    }
}

/// The whole part of a value, kept within `0..=max`: zero for a NaN and for
/// what is negative, `max` for what is greater.
pub open spec fn truncated(x: Value, max: nat) -> nat {
    match x {
        Value::Nan => 0,
        Value::Inf { neg } => if neg {
            0
        } else {
            max
        },
        Value::Fin { neg, mant, exp } => {
            let n = floor_at(mant, 1, exp);
            if neg {
                0
            } else if n > max {
                max
            } else {
                n
            }
        },
    }
}

/// The whole part of a value, kept within `0..=max`.
pub fn truncate(x: Unpacked, max: u128) -> (r: u128)
    requires
        x@ is Fin ==> -EXP_LIMIT <= x@->exp <= EXP_LIMIT,
    ensures
        r == truncated(x@, max as nat),
{
    match x {
        Unpacked::Nan => 0,
        Unpacked::Inf { neg } => {
            if neg {
                0
            } else {
                max
            }
        },
        Unpacked::Fin { neg, mant, exp } => {
            proof {
                lemma2_to64();
                lemma2_to64_rest();
                lemma_pow2_128();
            }
            if neg {
                0
            } else if exp >= 0 {
                let ghost whole = mant as nat * pow2(exp as nat);
                assert(floor_at(mant as nat, 1, exp as int) == whole);
                if mant == 0 {
                    assert(whole == 0) by (nonlinear_arith)
                        requires
                            whole == 0 * pow2(exp as nat),
                    ;
                    0
                } else if exp >= 128 {
                    proof {
                        lemma_pow2_increases(128, exp as nat);
                        assert(whole >= pow2(exp as nat)) by (nonlinear_arith)
                            requires
                                whole == mant as nat * pow2(exp as nat),
                                mant >= 1,
                        ;
                    }
                    max
                } else {
                    let scale: u128 = pow2_u128(exp as u32);
                    proof {
                        lemma_pow2_pos(exp as nat);
                    }
                    let room: u128 = max / scale;
                    proof {
                        vstd::arithmetic::div_mod::lemma_fundamental_div_mod(
                            max as int,
                            scale as int,
                        );
                        vstd::arithmetic::div_mod::lemma_mod_bound(max as int, scale as int);
                    }
                    if mant as u128 > room {
                        proof {
                            assert(mant * scale >= (room + 1) * scale) by (nonlinear_arith)
                                requires
                                    mant >= room + 1,
                                    scale > 0,
                            ;
                            assert((room + 1) * scale == scale * room + scale) by (nonlinear_arith);
                        }
                        max
                    } else {
                        proof {
                            assert(mant * scale <= room * scale) by (nonlinear_arith)
                                requires
                                    mant <= room,
                                    scale > 0,
                            ;
                            assert(room * scale == scale * room) by (nonlinear_arith);
                        }
                        (mant as u128) * scale
                    }
                }
            } else {
                let ghost unit = pow2((-exp) as nat);
                proof {
                    lemma_pow2_pos((-exp) as nat);
                    assert(1 * unit == unit);
                    assert(floor_at(mant as nat, 1, exp as int) == mant as nat / unit);
                }
                if exp <= -64 {
                    proof {
                        lemma_pow2_increases(64, (-exp) as nat);
                        vstd::arithmetic::div_mod::lemma_basic_div(mant as int, unit as int);
                    }
                    0
                } else {
                    let n: u128 = (mant as u128) / pow2_u128((-exp) as u32);
                    if n > max {
                        max
                    } else {
                        n
                    }
                }
            }
        },
    }
}

/// The whole part of a value with its sign, kept within `-bound - 1..=bound`:
/// zero for a NaN.
pub open spec fn truncated_signed(x: Value, bound: nat) -> int {
    if x.sign() {
        -(truncated(magnitude(x), bound + 1) as int)
    } else {
        truncated(x, bound) as int
    }
}

/// The whole part of a value with its sign, kept within the range of `i64`.
pub fn truncate_i64(x: Unpacked) -> (r: i64)
    requires
        x@ is Fin ==> -EXP_LIMIT <= x@->exp <= EXP_LIMIT,
    ensures
        r == truncated_signed(x@, i64::MAX as nat),
{
    match x {
        Unpacked::Nan => 0,
        Unpacked::Inf { neg } => {
            if neg {
                i64::MIN
            } else {
                i64::MAX
            }
        },
        Unpacked::Fin { neg, mant, exp } => {
            if neg {
                let whole: u128 = truncate(
                    Unpacked::Fin { neg: false, mant, exp },
                    0x8000_0000_0000_0000,
                );
                if whole == 0x8000_0000_0000_0000 {
                    i64::MIN
                } else {
                    -(whole as i64)
                }
            } else {
                truncate(x, 0x7fff_ffff_ffff_ffff) as i64
            }
        },
    }
}

} // verus!
