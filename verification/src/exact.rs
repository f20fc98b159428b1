//! When rounding changes nothing: a number that the format has is its own
//! rounding. From that, what sums with zero, differences of equal numbers,
//! quotients by one and products of few digits are.
use crate::ieee::{
    difference_spec,
    equal_spec,
    from_nat_spec,
    least,
    lemma_exact_difference,
    lemma_order_at,
    lemma_units_sign,
    magnitude,
    quotient_spec,
    rounded,
    sum_spec,
    units_at,
    Format,
    Value,
};
use crate::rounding::{
    den_at,
    floor_at,
    is_quantum,
    lemma_floor_at_grows,
    lemma_nearest_even_of,
    lemma_pow2_double,
    lemma_pow2_increases,
    lemma_quantum_exists,
    lemma_quantum_is,
    lemma_whole_number,
    nearest_at,
    nearest_even,
    num_at,
    quantum,
};
use vstd::arithmetic::power2::{lemma2_to64, lemma_pow2_adds, lemma_pow2_pos, pow2};
use vstd::prelude::*;

verus! {

/// The number `a * 2^e`.
pub open spec fn dyadic(a: nat, e: int) -> Value {
    Value::Fin { neg: false, mant: a, exp: e }
}

/// A multiple of the unit, counted in units, is itself, whole.
proof fn lemma_whole_units(m: nat, a: nat, k: int)
    requires
        k >= 0 ==> m == a * pow2(k as nat),
        k < 0 ==> a == m * pow2((-k) as nat),
    ensures
        floor_at(a, 1, k) == m,
        nearest_at(a, 1, k) == m,
{
    lemma2_to64();
    if k >= 0 {
        assert(num_at(a, k) == m);
        lemma_nearest_even_of(m, 1, m, 0);
    } else {
        let d = pow2((-k) as nat);
        lemma_pow2_pos((-k) as nat);
        assert(den_at(1, k) == d) by {
            assert(1 * d == d);
        }
        lemma_nearest_even_of(a, d, m, 0);
    }
}

/// A number that the format has is its own rounding.
pub proof fn lemma_rounded_representable(fmt: Format, v: Value, a: nat, e: int)
    requires
        v is Fin,
        v.in_format(fmt),
        equal_spec(magnitude(v), dyadic(a, e)),
    ensures
        rounded(fmt, v.sign(), a, 1, e) == v,
{
    lemma2_to64();
    let m = v->mant;
    let q = v->exp;
    let g = least(q, e);
    lemma_pow2_pos((q - g) as nat);
    lemma_pow2_pos((e - g) as nat);
    assert(units_at(magnitude(v), g) == m * pow2((q - g) as nat));
    assert(units_at(dyadic(a, e), g) == a * pow2((e - g) as nat));
    if a == 0 {
        assert(0 * pow2((e - g) as nat) == 0);
        assert(m == 0) by (nonlinear_arith)
            requires
                m * pow2((q - g) as nat) == 0,
                pow2((q - g) as nat) > 0,
        ;
        lemma_pow2_pos((fmt.precision() - 1) as nat);
        assert(v == Value::zero(fmt, v.sign()));
    } else {
        if e >= q {
            assert(m * 1 == m);
        } else {
            assert(a * 1 == a);
        }
        lemma_whole_units(m, a, e - q);
        assert(is_quantum(a, 1, e, fmt.precision(), fmt.emin(), q));
        lemma_quantum_is(a, 1, e, fmt.precision(), fmt.emin(), q);
    }
}

/// A number of no more digits than the format has, with an exponent that
/// the format has, is rounded to itself.
pub proof fn lemma_rounded_exact(fmt: Format, neg: bool, a: nat, e: int)
    requires
        a < pow2(fmt.precision()),
        fmt.emin() <= e <= fmt.emax(),
    ensures
        rounded(fmt, neg, a, 1, e) is Fin,
        rounded(fmt, neg, a, 1, e).sign() == neg,
        rounded(fmt, neg, a, 1, e).in_format(fmt),
        equal_spec(magnitude(rounded(fmt, neg, a, 1, e)), dyadic(a, e)),
{
    lemma2_to64();
    let p = fmt.precision();
    let emin = fmt.emin();
    if a == 0 {
        let g = least(emin, e);
        assert(0 * pow2((emin - g) as nat) == 0);
        assert(0 * pow2((e - g) as nat) == 0);
    } else {
        lemma_quantum_exists(a, 1, e, p, emin);
        let q = quantum(a, 1, e, p, emin);
        assert(floor_at(a, 1, 0) == a) by {
            assert(a * pow2(0) == a);
        }
        if q > e {
            // the value would have more digits than `a` has
            lemma_floor_at_grows(a, 1, e - q, (q - e) as nat);
            lemma_pow2_increases(1, (q - e) as nat);
            lemma_pow2_double((p - 1) as nat);
            let f = floor_at(a, 1, e - q) as int;
            let c = pow2((q - e) as nat) as int;
            let h = pow2((p - 1) as nat) as int;
            assert(h * 2 <= f * c) by (nonlinear_arith)
                requires
                    h <= f,
                    2 <= c,
                    0 <= h,
            ;
        }
        let m = a * pow2((e - q) as nat);
        lemma_whole_units(m, a, e - q);
        assert(m * 1 == m);
    }
}

/// Doubling the number is counting it in half the unit.
proof fn lemma_floor_at_double(a: nat, k: int)
    ensures
        floor_at(2 * a, 1, k) == floor_at(a, 1, k + 1),
{
    lemma2_to64();
    if k >= 0 {
        lemma_pow2_double(k as nat);
        assert((2 * a) * pow2(k as nat) == a * pow2((k + 1) as nat)) by (nonlinear_arith)
            requires
                pow2((k + 1) as nat) == 2 * pow2(k as nat),
        ;
    } else {
        let d = pow2((-k - 1) as nat);
        lemma_pow2_pos((-k - 1) as nat);
        lemma_pow2_double((-k - 1) as nat);
        assert(den_at(1, k) == 2 * d) by {
            assert(1 * pow2((-k) as nat) == pow2((-k) as nat));
        }
        assert(den_at(1, k + 1) == d) by {
            assert(1 * d == d);
        }
        assert(num_at(a, k + 1) == a) by {
            assert(a * pow2(0) == a);
        }
        vstd::arithmetic::div_mod::lemma_div_multiples_vanish_quotient(2, a as int, d as int);
    }
}

/// Multiplying the number by `2^d` is counting it in a unit `2^d` times
/// smaller.
pub proof fn lemma_floor_at_rescale(a: nat, d: nat, k: int)
    ensures
        floor_at(a * pow2(d), 1, k) == floor_at(a, 1, k + d),
    decreases d,
{
    lemma2_to64();
    if d == 0 {
        assert(a * 1 == a);
    } else {
        lemma_pow2_double((d - 1) as nat);
        assert(a * pow2(d) == (2 * a) * pow2((d - 1) as nat)) by (nonlinear_arith)
            requires
                pow2(d) == 2 * pow2((d - 1) as nat),
        ;
        lemma_floor_at_rescale(2 * a, (d - 1) as nat, k);
        lemma_floor_at_double(a, k + d - 1);
    }
}

/// Equal numbers have equal whole parts.
pub proof fn lemma_floor_of_equals(a: nat, e: int, b: nat, f: int)
    requires
        equal_spec(dyadic(a, e), dyadic(b, f)),
    ensures
        floor_at(a, 1, e) == floor_at(b, 1, f),
{
    let g = least(e, f);
    lemma_floor_at_rescale(a, (e - g) as nat, g);
    lemma_floor_at_rescale(b, (f - g) as nat, g);
}

/// Equality of numbers is symmetric.
pub proof fn lemma_equal_symmetric(x: Value, y: Value)
    requires
        equal_spec(x, y),
    ensures
        equal_spec(y, x),
{
}

/// Equality of numbers is transitive.
pub proof fn lemma_equal_transitive(x: Value, y: Value, z: Value)
    requires
        x is Fin,
        y is Fin,
        z is Fin,
        equal_spec(x, y),
        equal_spec(y, z),
    ensures
        equal_spec(x, z),
{
    let g = least(x->exp, least(y->exp, z->exp));
    lemma_order_at(x, y, g);
    lemma_order_at(y, z, g);
    lemma_order_at(x, z, g);
}

/// The products of equal numbers are equal.
pub proof fn lemma_product_of_equals(a1: nat, e1: int, b1: nat, f1: int, a2: nat, e2: int, b2:
    nat, f2: int)
    requires
        equal_spec(dyadic(a1, e1), dyadic(b1, f1)),
        equal_spec(dyadic(a2, e2), dyadic(b2, f2)),
    ensures
        equal_spec(dyadic(a1 * a2, e1 + e2), dyadic(b1 * b2, f1 + f2)),
{
    let g1 = least(e1, f1);
    let g2 = least(e2, f2);
    let g = g1 + g2;
    lemma_pow2_adds((e1 - g1) as nat, (e2 - g2) as nat);
    lemma_pow2_adds((f1 - g1) as nat, (f2 - g2) as nat);
    let c1 = pow2((e1 - g1) as nat) as int;
    let c2 = pow2((e2 - g2) as nat) as int;
    let d1 = pow2((f1 - g1) as nat) as int;
    let d2 = pow2((f2 - g2) as nat) as int;
    assert(a1 * c1 == b1 * d1);
    assert(a2 * c2 == b2 * d2);
    assert((a1 * a2) * (c1 * c2) == (b1 * b2) * (d1 * d2)) by (nonlinear_arith)
        requires
            a1 * c1 == b1 * d1,
            a2 * c2 == b2 * d2,
    ;
    assert((e1 + e2 - g) as nat == (e1 - g1) as nat + (e2 - g2) as nat);
    assert((f1 + f2 - g) as nat == (f1 - g1) as nat + (f2 - g2) as nat);
    lemma_order_at(dyadic(a1 * a2, e1 + e2), dyadic(b1 * b2, f1 + f2), g);
}

/// A common factor of the two sides of a ratio changes neither its floor
/// nor its rounding.
pub proof fn lemma_nearest_even_scale(x: nat, y: nat, c: nat)
    requires
        y > 0,
        c > 0,
    ensures
        (c * x) / (c * y) == x / y,
        nearest_even(c * x, c * y) == nearest_even(x, y),
{
    vstd::arithmetic::div_mod::lemma_div_multiples_vanish_quotient(c as int, x as int, y as int);
    vstd::arithmetic::div_mod::lemma_truncate_middle(x as int, c as int, y as int);
    let r = x % y;
    assert((2 * (c * r) > c * y) == (2 * r > y) && (2 * (c * r) == c * y) == (2 * r == y))
        by (nonlinear_arith)
        requires
            c > 0,
    ;
}

/// A ratio over `2^j` is the number counted in a unit `2^j` times greater.
pub proof fn lemma_ratio_by_power(a: nat, j: nat, k: int)
    ensures
        floor_at(a, pow2(j), k + j) == floor_at(a, 1, k),
        nearest_at(a, pow2(j), k + j) == nearest_at(a, 1, k),
{
    lemma2_to64();
    lemma_pow2_pos(j);
    if k >= 0 {
        let c = pow2(j);
        let x = a * pow2(k as nat);
        lemma_pow2_adds(k as nat, j);
        assert(a * pow2((k + j) as nat) == c * x) by (nonlinear_arith)
            requires
                pow2((k + j) as nat) == pow2(k as nat) * c,
                x == a * pow2(k as nat),
        ;
        assert(c * 1 == c);
        lemma_nearest_even_scale(x, 1, c);
    } else if k + j >= 0 {
        let c = pow2((k + j) as nat);
        let y = pow2((-k) as nat);
        lemma_pow2_pos((k + j) as nat);
        lemma_pow2_pos((-k) as nat);
        lemma_pow2_adds((k + j) as nat, (-k) as nat);
        assert(a * c == c * a) by (nonlinear_arith);
        assert(1 * y == y);
        lemma_nearest_even_scale(a, y, c);
    } else {
        lemma_pow2_adds(j, (-k - j) as nat);
        assert(1 * pow2((-k) as nat) == pow2((-k) as nat));
    }
}

/// Rounding a ratio over `2^j` is rounding the number with an exponent
/// lower by `j`.
pub proof fn lemma_rounded_by_power(fmt: Format, neg: bool, a: nat, j: nat, e: int)
    ensures
        rounded(fmt, neg, a, pow2(j), e + j) == rounded(fmt, neg, a, 1, e),
{
    lemma2_to64();
    lemma_pow2_pos(j);
    if a > 0 {
        let p = fmt.precision();
        let emin = fmt.emin();
        lemma_quantum_exists(a, 1, e, p, emin);
        let q = quantum(a, 1, e, p, emin);
        lemma_ratio_by_power(a, j, e - q);
        assert(is_quantum(a, pow2(j), e + j, p, emin, q));
        lemma_quantum_is(a, pow2(j), e + j, p, emin, q);
    }
}

/// What is above zero does not round to zero, where its exponent is one of
/// the format.
pub proof fn lemma_rounded_nonzero(fmt: Format, neg: bool, a: nat, e: int)
    requires
        a > 0,
        e >= fmt.emin(),
    ensures
        !rounded(fmt, neg, a, 1, e).is_zero(),
        !rounded(fmt, neg, a, 1, e).is_nan(),
{
    lemma2_to64();
    let p = fmt.precision();
    let emin = fmt.emin();
    lemma_quantum_exists(a, 1, e, p, emin);
    let q = quantum(a, 1, e, p, emin);
    lemma_pow2_pos((p - 1) as nat);
    lemma_pow2_pos(p);
    if q == emin {
        lemma_pow2_pos((e - q) as nat);
        assert(a * pow2((e - q) as nat) >= 1) by (nonlinear_arith)
            requires
                a >= 1,
                pow2((e - q) as nat) >= 1,
        ;
        lemma_nearest_even_of(a * pow2((e - q) as nat), 1, a * pow2((e - q) as nat), 0);
    }
}

/// The difference of equal numbers is zero.
pub proof fn lemma_difference_of_equals(fmt: Format, x: Value, y: Value)
    requires
        x is Fin,
        y is Fin,
        equal_spec(x, y),
    ensures
        difference_spec(fmt, x, y).is_zero(),
        difference_spec(fmt, x, y).in_format(fmt),
{
    lemma_exact_difference(x, y);
    lemma_pow2_pos((fmt.precision() - 1) as nat);
    lemma_pow2_pos(fmt.precision());
}

/// Adding a zero changes no number; only a zero may change its sign.
pub proof fn lemma_sum_with_zero(fmt: Format, x: Value, z: Value)
    requires
        x is Fin,
        x.in_format(fmt),
        z.is_zero(),
        z.in_format(fmt),
    ensures
        sum_spec(fmt, x, z) is Fin,
        sum_spec(fmt, x, z).in_format(fmt),
        equal_spec(sum_spec(fmt, x, z), x),
        !x.is_zero() ==> sum_spec(fmt, x, z) == x,
        x.is_zero() ==> sum_spec(fmt, x, z).is_zero(),
{
    lemma2_to64();
    let p = fmt.precision();
    let emin = fmt.emin();
    lemma_pow2_pos((p - 1) as nat);
    lemma_pow2_pos(p);
    assert(z->exp == emin);
    let m = x->mant;
    lemma_units_sign(x, emin);
    lemma_units_sign(z, emin);
    let a = units_at(magnitude(x), emin) as nat;
    if m > 0 {
        assert(equal_spec(magnitude(x), dyadic(a, emin))) by {
            assert(a * pow2(0) == a);
        }
        lemma_rounded_representable(fmt, x, a, emin);
    } else {
        assert(x->exp == emin);
    }
}

/// The single-precision value of one.
pub proof fn lemma_one()
    ensures
        from_nat_spec(Format::Single, 1) == (Value::Fin { neg: false, mant: 0x80_0000, exp: -23 }),
{
    lemma2_to64();
    assert(1 * pow2(23) == 0x80_0000);
    assert(floor_at(1, 1, 23) == 0x80_0000);
    assert(is_quantum(1, 1, 0, 24, -149, -23));
    lemma_quantum_is(1, 1, 0, 24, -149, -23);
}

/// A number over one is itself.
pub proof fn lemma_quotient_by_one(x: Value)
    requires
        x is Fin,
        x.in_format(Format::Single),
    ensures
        quotient_spec(Format::Single, x, from_nat_spec(Format::Single, 1)) == x,
{
    lemma2_to64();
    lemma_one();
    let fmt = Format::Single;
    if x->mant > 0 {
        lemma_rounded_by_power(fmt, x.sign(), x->mant, 23, x->exp);
        assert(equal_spec(magnitude(x), dyadic(x->mant, x->exp)));
        lemma_rounded_representable(fmt, x, x->mant, x->exp);
    }
}

/// The difference of numbers that are not equal is not zero.
pub proof fn lemma_difference_of_unequals(fmt: Format, x: Value, y: Value)
    requires
        x is Fin,
        y is Fin,
        x->exp >= fmt.emin(),
        y->exp >= fmt.emin(),
        !equal_spec(x, y),
    ensures
        !difference_spec(fmt, x, y).is_zero(),
        !difference_spec(fmt, x, y).is_nan(),
{
    let e = least(x->exp, y->exp);
    lemma_exact_difference(x, y);
    let a = units_at(x, e) - units_at(y, e);
    if a < 0 {
        lemma_rounded_nonzero(fmt, true, (-a) as nat, e);
    } else {
        lemma_rounded_nonzero(fmt, false, a as nat, e);
    }
}

/// A natural number from two upwards, in single precision, is not one.
pub proof fn lemma_count_is_not_one(n: nat)
    requires
        n >= 2,
    ensures
        !equal_spec(from_nat_spec(Format::Single, n), from_nat_spec(Format::Single, 1)),
        from_nat_spec(Format::Single, n) is Fin ==> from_nat_spec(Format::Single, n)->exp >= -149,
        !from_nat_spec(Format::Single, n).is_nan(),
{
    lemma2_to64();
    lemma_one();
    let fmt = Format::Single;
    let c = from_nat_spec(fmt, n);
    let one = from_nat_spec(fmt, 1);
    lemma_quantum_exists(n, 1, 0, 24, -149);
    let q = quantum(n, 1, 0, 24, -149);
    if n < pow2(24) {
        lemma_rounded_exact(fmt, false, n, 0);
        if equal_spec(c, one) {
            lemma_equal_symmetric(c, dyadic(n, 0));
            lemma_equal_transitive(dyadic(n, 0), c, one);
            assert(n * pow2(23) == 0x80_0000 * pow2(0));
        }
    } else {
        if q <= 0 {
            lemma_pow2_pos((-q) as nat);
            assert(n * pow2((-q) as nat) >= n) by (nonlinear_arith)
                requires
                    pow2((-q) as nat) >= 1,
            ;
            lemma_whole_number(n, (-q) as nat);
        }
        if c is Fin {
            let d = (c->exp + 23) as nat;
            lemma_pow2_increases(24, d);
            assert(c->mant * pow2(d) >= 0x80_0000 * 0x100_0000) by (nonlinear_arith)
                requires
                    c->mant >= 0x80_0000,
                    pow2(d) >= 0x100_0000,
            ;
            assert(0x80_0000 * pow2(0) == 0x80_0000);
        }
    }
}

} // verus!
