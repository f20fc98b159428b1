//! Rounding keeps the order of what it rounds.
use crate::ieee::{
    at_most,
    least,
    lemma_order_at,
    lemma_units_sign,
    rounded,
    units_at,
    Format,
    Value,
};
use crate::rounding::{
    den_at,
    floor_at,
    is_quantum,
    lemma_floor_at_grows,
    lemma_pow2_double,
    lemma_pow2_increases,
    lemma_quantum_exists,
    lemma_quotient_bounds,
    nearest_at,
    nearest_even,
    num_at,
    quantum,
};
use vstd::arithmetic::div_mod::{lemma_fundamental_div_mod, lemma_mod_bound};
use vstd::arithmetic::power2::{lemma2_to64, lemma_pow2_adds, lemma_pow2_pos, pow2};
use vstd::prelude::*;

verus! {

/// `(a1 / b1) * 2^e1 <= (a2 / b2) * 2^e2`.
pub open spec fn ratio_at_most(a1: nat, b1: nat, e1: int, a2: nat, b2: nat, e2: int) -> bool {
    let g = least(e1, e2);
    (a1 * b2) * pow2((e1 - g) as nat) <= (a2 * b1) * pow2((e2 - g) as nat)
}

/// What is not negative of an integer.
pub open spec fn positive(k: int) -> nat {
    if k >= 0 {
        k as nat
    } else {
        0
    }
}

/// A common power of two on both sides changes no order.
proof fn lemma_scaled_order(x: nat, y: nat, u: nat, v: nat, t: nat)
    ensures
        (x * pow2(u) <= y * pow2(v)) <==> (x * pow2(u + t) <= y * pow2(v + t)),
{
    lemma_pow2_adds(u, t);
    lemma_pow2_adds(v, t);
    lemma_pow2_pos(t);
    let c = pow2(t) as int;
    let l = (x * pow2(u)) as int;
    let r = (y * pow2(v)) as int;
    assert(x * pow2(u + t) == l * c) by (nonlinear_arith)
        requires
            pow2(u + t) == pow2(u) * c,
            l == x * pow2(u),
    ;
    assert(y * pow2(v + t) == r * c) by (nonlinear_arith)
        requires
            pow2(v + t) == pow2(v) * c,
            r == y * pow2(v),
    ;
    assert((l <= r) <==> (l * c <= r * c)) by (nonlinear_arith)
        requires
            c > 0,
    ;
}

/// The two sides of a ratio at a scale, as powers of two times its terms.
proof fn lemma_sides(a: nat, b: nat, k: int)
    ensures
        num_at(a, k) == a * pow2(positive(k)),
        den_at(b, k) == b * pow2(positive(-k)),
{
    lemma2_to64();
    assert(a * 1 == a);
    assert(b * 1 == b);
}

/// Two values stand to each other as their fractions at any common unit.
proof fn lemma_fractions_order(a1: nat, b1: nat, e1: int, a2: nat, b2: nat, e2: int, q: int)
    ensures
        ratio_at_most(a1, b1, e1, a2, b2, e2) <==> num_at(a1, e1 - q) * den_at(b2, e2 - q)
            <= num_at(a2, e2 - q) * den_at(b1, e1 - q),
{
    let k1 = e1 - q;
    let k2 = e2 - q;
    let g = least(e1, e2);
    let u = positive(k1) + positive(-k2);
    let v = positive(k2) + positive(-k1);
    let u0 = (e1 - g) as nat;
    let v0 = (e2 - g) as nat;
    let t = (u - u0) as nat;
    lemma_sides(a1, b1, k1);
    lemma_sides(a2, b2, k2);
    lemma_pow2_adds(positive(k1), positive(-k2));
    lemma_pow2_adds(positive(k2), positive(-k1));
    let x = a1 * b2;
    let y = a2 * b1;
    assert(num_at(a1, k1) * den_at(b2, k2) == x * pow2(u)) by (nonlinear_arith)
        requires
            num_at(a1, k1) == a1 * pow2(positive(k1)),
            den_at(b2, k2) == b2 * pow2(positive(-k2)),
            pow2(u) == pow2(positive(k1)) * pow2(positive(-k2)),
            x == a1 * b2,
    ;
    assert(num_at(a2, k2) * den_at(b1, k1) == y * pow2(v)) by (nonlinear_arith)
        requires
            num_at(a2, k2) == a2 * pow2(positive(k2)),
            den_at(b1, k1) == b1 * pow2(positive(-k1)),
            pow2(v) == pow2(positive(k2)) * pow2(positive(-k1)),
            y == a2 * b1,
    ;
    assert(u == u0 + t && v == v0 + t);
    lemma_scaled_order(x, y, u0, v0, t);
}

/// Of two fractions in order, the floors and the nearest naturals are in
/// order.
proof fn lemma_nearest_even_grows(x1: nat, y1: nat, x2: nat, y2: nat)
    requires
        y1 > 0,
        y2 > 0,
        x1 * y2 <= x2 * y1,
    ensures
        x1 / y1 <= x2 / y2,
        nearest_even(x1, y1) <= nearest_even(x2, y2),
{
    let n1 = x1 / y1;
    let r1 = x1 % y1;
    let n2 = x2 / y2;
    let r2 = x2 % y2;
    lemma_fundamental_div_mod(x1 as int, y1 as int);
    lemma_fundamental_div_mod(x2 as int, y2 as int);
    lemma_mod_bound(x1 as int, y1 as int);
    lemma_mod_bound(x2 as int, y2 as int);
    // n1 * y2 <= x2
    assert(n1 * y2 <= x2) by (nonlinear_arith)
        requires
            x1 == y1 * n1 + r1,
            r1 >= 0,
            x1 * y2 <= x2 * y1,
            y1 > 0,
            n1 >= 0,
            y2 > 0,
    ;
    lemma_quotient_bounds(x2, y2, n1 as nat);
    if n1 == n2 {
        assert(r1 * y2 <= r2 * y1) by (nonlinear_arith)
            requires
                x1 == y1 * n1 + r1,
                x2 == y2 * n1 + r2,
                x1 * y2 <= x2 * y1,
        ;
        if 2 * r1 >= y1 {
            assert(2 * r2 >= y2 && (2 * r1 > y1 ==> 2 * r2 > y2)) by (nonlinear_arith)
                requires
                    r1 * y2 <= r2 * y1,
                    2 * r1 >= y1,
                    y1 > 0,
                    y2 > 0,
                    r1 >= 0,
                    r2 >= 0,
            ;
        }
    }
}

/// Of two values in order, the quanta are in order.
proof fn lemma_quantum_grows(
    a1: nat,
    b1: nat,
    e1: int,
    a2: nat,
    b2: nat,
    e2: int,
    p: nat,
    emin: int,
    q1: int,
    q2: int,
)
    requires
        b1 > 0,
        b2 > 0,
        p >= 1,
        ratio_at_most(a1, b1, e1, a2, b2, e2),
        is_quantum(a1, b1, e1, p, emin, q1),
        is_quantum(a2, b2, e2, p, emin, q2),
    ensures
        q1 <= q2,
{
    if q1 > q2 {
        let j = (q1 - q2) as nat;
        lemma_floor_at_grows(a2, b2, e2 - q1, j);
        lemma_pow2_increases(1, j);
        lemma2_to64();
        lemma_pow2_double((p - 1) as nat);
        lemma_fractions_order(a1, b1, e1, a2, b2, e2, q1);
        lemma_positive_sides(a1, b1, e1 - q1);
        lemma_positive_sides(a2, b2, e2 - q1);
        lemma_nearest_even_grows(
            num_at(a1, e1 - q1),
            den_at(b1, e1 - q1),
            num_at(a2, e2 - q1),
            den_at(b2, e2 - q1),
        );
        let f = floor_at(a2, b2, e2 - q1) as int;
        let c = pow2(j) as int;
        let h = pow2((p - 1) as nat) as int;
        assert(h * 2 <= f * c) by (nonlinear_arith)
            requires
                h <= f,
                2 <= c,
                0 <= h,
        ;
    }
}

/// The lower side of a ratio at a scale is above zero.
proof fn lemma_positive_sides(a: nat, b: nat, k: int)
    requires
        b > 0,
    ensures
        den_at(b, k) > 0,
{
    lemma_pow2_pos(positive(-k));
    lemma_sides(a, b, k);
    assert(b * pow2(positive(-k)) > 0) by (nonlinear_arith)
        requires
            b > 0,
            pow2(positive(-k)) > 0,
    ;
}

/// Rounding keeps the order: of two values above zero, the one that is not
/// greater is rounded to what is not greater. An infinity counts as above
/// every finite value.
pub proof fn lemma_rounded_grows(
    fmt: Format,
    a1: nat,
    b1: nat,
    e1: int,
    a2: nat,
    b2: nat,
    e2: int,
)
    requires
        a1 > 0,
        b1 > 0,
        b2 > 0,
        ratio_at_most(a1, b1, e1, a2, b2, e2),
    ensures
        at_most(rounded(fmt, false, a1, b1, e1), rounded(fmt, false, a2, b2, e2)),
{
    lemma2_to64();
    let p = fmt.precision();
    let emin = fmt.emin();
    let top = pow2(p);
    let half = pow2((p - 1) as nat);
    lemma_pow2_double((p - 1) as nat);
    lemma_pow2_pos((p - 1) as nat);
    // the second value is above zero too
    assert(a2 > 0) by {
        let g = least(e1, e2);
        lemma_pow2_pos((e1 - g) as nat);
        assert((a1 * b2) * pow2((e1 - g) as nat) > 0) by (nonlinear_arith)
            requires
                a1 > 0,
                b2 > 0,
                pow2((e1 - g) as nat) > 0,
        ;
        if a2 == 0 {
            assert((a2 * b1) * pow2((e2 - g) as nat) == 0) by (nonlinear_arith)
                requires
                    a2 == 0,
            ;
        }
    }
    lemma_quantum_exists(a1, b1, e1, p, emin);
    lemma_quantum_exists(a2, b2, e2, p, emin);
    let q1 = quantum(a1, b1, e1, p, emin);
    let q2 = quantum(a2, b2, e2, p, emin);
    lemma_quantum_grows(a1, b1, e1, a2, b2, e2, p, emin, q1, q2);
    let m1 = nearest_at(a1, b1, e1 - q1);
    let m2 = nearest_at(a2, b2, e2 - q2);
    let r1 = rounded(fmt, false, a1, b1, e1);
    let r2 = rounded(fmt, false, a2, b2, e2);
    assert(floor_at(a1, b1, e1 - q1) <= m1 <= floor_at(a1, b1, e1 - q1) + 1);
    assert(floor_at(a2, b2, e2 - q2) <= m2 <= floor_at(a2, b2, e2 - q2) + 1);
    if q1 == q2 {
        lemma_fractions_order(a1, b1, e1, a2, b2, e2, q1);
        lemma_positive_sides(a1, b1, e1 - q1);
        lemma_positive_sides(a2, b2, e2 - q1);
        lemma_nearest_even_grows(
            num_at(a1, e1 - q1),
            den_at(b1, e1 - q1),
            num_at(a2, e2 - q1),
            den_at(b2, e2 - q1),
        );
        assert(m1 <= m2);
        if r1 is Fin && r2 is Fin {
            lemma_units_of_rounded(fmt, r1, m1, q1);
            lemma_units_of_rounded(fmt, r2, m2, q1);
            lemma_order_at(r1, r2, q1);
        }
    } else {
        // the first is at most `2^p` units of `2^q1`, the second at least
        // `2^(p-1)` units of `2^q2`
        if r1 is Fin && r2 is Fin {
            let j = (q2 - q1) as nat;
            lemma_units_of_rounded(fmt, r1, m1, q1);
            lemma_units_of_rounded(fmt, r2, m2, q2);
            crate::ieee::lemma_units_rescale(r2, q2, q1);
            lemma_pow2_increases(1, j);
            assert(m2 * pow2(j) >= half * 2) by (nonlinear_arith)
                requires
                    m2 >= half,
                    pow2(j) >= 2,
                    half >= 0,
            ;
            lemma_order_at(r1, r2, q1);
        }
    }
}

/// What a value is rounded to, counted in units of the quantum, is the
/// nearest natural.
proof fn lemma_units_of_rounded(fmt: Format, r: Value, m: nat, q: int)
    requires
        r is Fin,
        !r.sign(),
        m <= pow2(fmt.precision()),
        fmt.precision() >= 1,
        r == (if m == pow2(fmt.precision()) {
            Value::Fin { neg: false, mant: pow2((fmt.precision() - 1) as nat), exp: q + 1 }
        } else {
            Value::Fin { neg: false, mant: m, exp: q }
        }),
    ensures
        q <= r->exp,
        units_at(r, q) == m,
{
    lemma2_to64();
    lemma_pow2_double((fmt.precision() - 1) as nat);
    assert(m * 1 == m);
    assert(pow2((fmt.precision() - 1) as nat) * 2 == pow2(fmt.precision()));
}

/// Of two values in order, the whole parts are in order.
pub proof fn lemma_floor_grows(a1: nat, b1: nat, e1: int, a2: nat, b2: nat, e2: int)
    requires
        b1 > 0,
        b2 > 0,
        ratio_at_most(a1, b1, e1, a2, b2, e2),
    ensures
        floor_at(a1, b1, e1) <= floor_at(a2, b2, e2),
{
    lemma_fractions_order(a1, b1, e1, a2, b2, e2, 0);
    lemma_positive_sides(a1, b1, e1);
    lemma_positive_sides(a2, b2, e2);
    lemma_nearest_even_grows(num_at(a1, e1), den_at(b1, e1), num_at(a2, e2), den_at(b2, e2));
}

/// Two finite values without a sign that are in order stay in order where
/// both are multiplied by `c`, divided by `b` and moved by `shift` binary
/// places.
pub proof fn lemma_ratio_of_values(x: Value, y: Value, c: nat, b: nat, shift: int)
    requires
        x is Fin,
        y is Fin,
        !x.sign(),
        !y.sign(),
        at_most(x, y),
    ensures
        ratio_at_most(x->mant * c, b, x->exp + shift, y->mant * c, b, y->exp + shift),
{
    let g = least(x->exp, y->exp);
    lemma_units_sign(x, g);
    lemma_units_sign(y, g);
    let l = x->mant * pow2((x->exp - g) as nat);
    let r = y->mant * pow2((y->exp - g) as nat);
    assert(l <= r);
    let u = pow2((x->exp - g) as nat);
    let v = pow2((y->exp - g) as nat);
    assert(((x->mant * c) * b) * u <= ((y->mant * c) * b) * v) by (nonlinear_arith)
        requires
            x->mant * u <= y->mant * v,
            c >= 0,
            b >= 0,
    ;
    assert(least(x->exp + shift, y->exp + shift) == g + shift);
}

} // verus!
