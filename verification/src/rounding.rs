//! Rounding a ratio of naturals, scaled by a power of two, to the nearest
//! multiple of a power of two with ties to the even multiple.
//!
//! The exact value is always `(a / b) * 2^k` for naturals `a`, `b > 0` and an
//! integer `k`. It is kept as the fraction `num_at(a, k) / den_at(b, k)`, so
//! that every statement is one about naturals.
use vstd::arithmetic::div_mod::{
    lemma_basic_div,
    lemma_div_denominator,
    lemma_div_is_ordered,
    lemma_div_multiples_vanish,
    lemma_div_multiples_vanish_quotient,
    lemma_fundamental_div_mod,
    lemma_fundamental_div_mod_converse,
    lemma_mod_bound,
    lemma_multiply_divide_lt,
    lemma_small_mod,
};
use vstd::arithmetic::power2::{
    lemma2_to64,
    lemma2_to64_rest,
    lemma_pow2_adds,
    lemma_pow2_pos,
    lemma_pow2_strictly_increases,
    lemma_pow2_unfold,
    pow2,
};
use vstd::prelude::*;

verus! {

/// Numerator of `(a / b) * 2^k`.
pub open spec fn num_at(a: nat, k: int) -> nat {
    if k >= 0 {
        a * pow2(k as nat)
    } else {
        a
    }
}

/// Denominator of `(a / b) * 2^k`.
pub open spec fn den_at(b: nat, k: int) -> nat {
    if k >= 0 {
        b
    } else {
        b * pow2((-k) as nat)
    }
}

/// `floor((a / b) * 2^k)`.
pub open spec fn floor_at(a: nat, b: nat, k: int) -> nat {
    (num_at(a, k) / den_at(b, k)) as nat
}

/// `x / y` rounded to the nearest natural; a tie goes to the even neighbour.
pub open spec fn nearest_even(x: nat, y: nat) -> nat {
    let n = x / y;
    let r = x % y;
    if 2 * r > y || (2 * r == y && n % 2 == 1) {
        (n + 1) as nat
    } else {
        n as nat
    }
}

/// The distance between two naturals.
pub open spec fn distance(a: nat, b: nat) -> nat {
    if a >= b {
        (a - b) as nat
    } else {
        (b - a) as nat
    }
}

/// No natural is nearer to `x / y` than `nearest_even(x, y)`, and one that is
/// as near is odd, or the same.
pub proof fn lemma_nearest_even_is_nearest(x: nat, y: nat, k: nat)
    requires
        y > 0,
    ensures
        distance(nearest_even(x, y) * y, x) <= distance(k * y, x),
        distance(nearest_even(x, y) * y, x) == distance(k * y, x) ==> k == nearest_even(x, y) || (
        k % 2 == 1 && nearest_even(x, y) % 2 == 0),
{
    let n = x / y;
    let r = x % y;
    lemma_fundamental_div_mod(x as int, y as int);
    lemma_mod_bound(x as int, y as int);
    assert(x == n * y + r) by (nonlinear_arith)
        requires
            x == y * n + r,
    ;
    assert((n + 1) * y == n * y + y) by (nonlinear_arith);
    if k <= n {
        let j = n - k;
        assert(k * y == n * y - j * y) by (nonlinear_arith)
            requires
                j == n - k,
        ;
        assert(j * y >= 0 && (j >= 1 ==> j * y >= y)) by (nonlinear_arith)
            requires
                j >= 0,
                y > 0,
        ;
    } else {
        let j = k - n - 1;
        assert(k * y == n * y + y + j * y) by (nonlinear_arith)
            requires
                j == k - n - 1,
        ;
        assert(j * y >= 0 && (j >= 1 ==> j * y >= y)) by (nonlinear_arith)
            requires
                j >= 0,
                y > 0,
        ;
    }
}

/// `(a / b) * 2^k` rounded to the nearest natural, ties to even.
pub open spec fn nearest_at(a: nat, b: nat, k: int) -> nat {
    nearest_even(num_at(a, k), den_at(b, k))
}

/// `n` is the number of binary digits of `x`: `2^(n-1) <= x < 2^n`, and 0 for 0.
pub open spec fn has_bit_length(x: nat, n: nat) -> bool {
    &&& x < pow2(n)
    &&& n > 0 ==> pow2((n - 1) as nat) <= x
}

/// `2^i <= 2^j` for `i <= j`.
pub proof fn lemma_pow2_increases(i: nat, j: nat)
    requires
        i <= j,
    ensures
        pow2(i) <= pow2(j),
{
    if i < j {
        lemma_pow2_strictly_increases(i, j);
    }
}

/// `2^i < 2^j` only for `i < j`.
pub proof fn lemma_pow2_order(i: nat, j: nat)
    requires
        pow2(i) < pow2(j),
    ensures
        i < j,
{
    if j <= i {
        lemma_pow2_increases(j, i);
    }
}

/// `2^(n+1) == 2 * 2^n`.
pub proof fn lemma_pow2_double(n: nat)
    ensures
        pow2(n + 1) == 2 * pow2(n),
{
    lemma_pow2_unfold(n + 1);
}

/// The value of `2^128`, one more than the largest `u128`.
pub proof fn lemma_pow2_128()
    ensures
        pow2(128) == 0x1_0000_0000_0000_0000_0000_0000_0000_0000,
        pow2(127) == 0x8000_0000_0000_0000_0000_0000_0000_0000,
{
    lemma2_to64();
    lemma2_to64_rest();
    lemma_pow2_adds(64, 64);
    lemma_pow2_adds(64, 63);
    assert(pow2(64) * pow2(64) == 0x1_0000_0000_0000_0000_0000_0000_0000_0000) by (nonlinear_arith)
        requires
            pow2(64) == 0x1_0000_0000_0000_0000,
    ;
    assert(pow2(64) * pow2(63) == 0x8000_0000_0000_0000_0000_0000_0000_0000) by (nonlinear_arith)
        requires
            pow2(64) == 0x1_0000_0000_0000_0000,
            pow2(63) == 0x8000_0000_0000_0000,
    ;
}

/// `x * 2^j < 2^(i+j)` for `x < 2^i`, and `2^(i+j) <= x * 2^j` for `2^i <= x`.
pub proof fn lemma_scale_bounds(x: nat, i: nat, j: nat)
    ensures
        x < pow2(i) ==> x * pow2(j) < pow2(i + j),
        pow2(i) <= x ==> pow2(i + j) <= x * pow2(j),
{
    lemma_pow2_adds(i, j);
    lemma_pow2_pos(j);
    let c = pow2(j) as int;
    let t = pow2(i) as int;
    let xi = x as int;
    if x < pow2(i) {
        assert(xi * c < t * c) by (nonlinear_arith)
            requires
                xi < t,
                c > 0,
        ;
    }
    if pow2(i) <= x {
        assert(t * c <= xi * c) by (nonlinear_arith)
            requires
                t <= xi,
                c > 0,
        ;
    }
}

/// Lowering the scale by one halves the floor.
pub proof fn lemma_floor_at_step(a: nat, b: nat, k: int)
    requires
        b > 0,
    ensures
        floor_at(a, b, k - 1) == floor_at(a, b, k) / 2,
{
    if k >= 1 {
        let x = a * pow2((k - 1) as nat);
        lemma_pow2_double((k - 1) as nat);
        assert(a * pow2(k as nat) == 2 * x) by (nonlinear_arith)
            requires
                pow2(k as nat) == 2 * pow2((k - 1) as nat),
                x == a * pow2((k - 1) as nat),
        ;
        lemma_div_denominator((2 * x) as int, b as int, 2);
        lemma_div_multiples_vanish_quotient(2, x as int, b as int);
        assert(b * 2 == 2 * b);
    } else {
        let d = den_at(b, k);
        lemma_pow2_pos((-k) as nat);
        assert(d > 0) by (nonlinear_arith)
            requires
                d == (if k >= 0 { b } else { b * pow2((-k) as nat) }),
                b > 0,
                pow2((-k) as nat) > 0,
        ;
        lemma_pow2_double((-k) as nat);
        if k == 0 {
            lemma2_to64();
            assert(den_at(b, k - 1) == d * 2);
        } else {
            assert(b * pow2((-k + 1) as nat) == d * 2) by (nonlinear_arith)
                requires
                    pow2((-k + 1) as nat) == 2 * pow2((-k) as nat),
                    d == b * pow2((-k) as nat),
            ;
        }
        lemma_div_denominator(a as int, d as int, 2);
    }
}

/// The floor does not decrease with the scale.
pub proof fn lemma_floor_at_monotone(a: nat, b: nat, k1: int, k2: int)
    requires
        b > 0,
        k1 <= k2,
    ensures
        floor_at(a, b, k1) <= floor_at(a, b, k2),
    decreases k2 - k1,
{
    if k1 < k2 {
        lemma_floor_at_monotone(a, b, k1, k2 - 1);
        lemma_floor_at_step(a, b, k2);
    }
}

/// Raising the scale by `j` multiplies the floor by at least `2^j`.
pub proof fn lemma_floor_at_grows(a: nat, b: nat, k: int, j: nat)
    requires
        b > 0,
    ensures
        floor_at(a, b, k) * pow2(j) <= floor_at(a, b, k + j),
    decreases j,
{
    if j == 0 {
        lemma2_to64();
    } else {
        lemma_floor_at_grows(a, b, k, (j - 1) as nat);
        lemma_floor_at_step(a, b, k + j);
        lemma_pow2_double((j - 1) as nat);
        let f = floor_at(a, b, k) as int;
        let g = floor_at(a, b, k + j - 1) as int;
        let c = pow2((j - 1) as nat) as int;
        assert(f * (2 * c) == 2 * (f * c)) by (nonlinear_arith);
    }
}

/// Largest magnitude of an exponent that the executable functions take.
pub const EXP_LIMIT: i32 = 0x10_0000;

/// `q` is the exponent of the last place of `(a / b) * 2^e` in a format with
/// `p` binary digits and least exponent `emin`: the least `q >= emin` for
/// which the value, counted in units of `2^q`, has at most `p` digits.
pub open spec fn is_quantum(a: nat, b: nat, e: int, p: nat, emin: int, q: int) -> bool {
    &&& q >= emin
    &&& floor_at(a, b, e - q) < pow2(p)
    &&& q > emin ==> floor_at(a, b, e - q) >= pow2((p - 1) as nat)
}

/// The exponent of the last place of `(a / b) * 2^e`.
pub open spec fn quantum(a: nat, b: nat, e: int, p: nat, emin: int) -> int {
    choose|q: int| is_quantum(a, b, e, p, emin, q)
}

/// A value has one quantum only.
pub proof fn lemma_quantum_unique(a: nat, b: nat, e: int, p: nat, emin: int, q1: int, q2: int)
    requires
        b > 0,
        p >= 1,
        is_quantum(a, b, e, p, emin, q1),
        is_quantum(a, b, e, p, emin, q2),
    ensures
        q1 == q2,
{
    lemma_quantum_order(a, b, e, p, emin, q1, q2);
    lemma_quantum_order(a, b, e, p, emin, q2, q1);
}

/// Of two quanta of a value the second is not above the first.
proof fn lemma_quantum_order(a: nat, b: nat, e: int, p: nat, emin: int, q1: int, q2: int)
    requires
        b > 0,
        p >= 1,
        is_quantum(a, b, e, p, emin, q1),
        is_quantum(a, b, e, p, emin, q2),
    ensures
        q2 <= q1,
{
    if q1 < q2 {
        let j = (q2 - q1) as nat;
        lemma_floor_at_grows(a, b, e - q2, j);
        lemma_pow2_increases(1, j);
        lemma2_to64();
        lemma_pow2_double((p - 1) as nat);
        let f = floor_at(a, b, e - q2) as int;
        let c = pow2(j) as int;
        let h = pow2((p - 1) as nat) as int;
        assert(h * 2 <= f * c) by (nonlinear_arith)
            requires
                h <= f,
                2 <= c,
                0 <= h,
        ;
    }
}

/// Every value has a quantum: from `q` upwards, where no exponent below `q`
/// is one.
proof fn lemma_quantum_search(a: nat, b: nat, e: int, p: nat, emin: int, q: int)
    requires
        b > 0,
        p >= 1,
        q >= emin,
        q > emin ==> floor_at(a, b, e - q + 1) >= pow2(p),
    ensures
        exists|r: int| is_quantum(a, b, e, p, emin, r),
    decreases floor_at(a, b, e - q),
{
    lemma_pow2_double((p - 1) as nat);
    lemma_pow2_pos(p);
    if floor_at(a, b, e - q) < pow2(p) {
        lemma_floor_at_step(a, b, e - q + 1);
        assert(is_quantum(a, b, e, p, emin, q));
    } else {
        lemma_floor_at_step(a, b, e - q);
        lemma_quantum_search(a, b, e, p, emin, q + 1);
    }
}

/// Every value has a quantum.
pub proof fn lemma_quantum_exists(a: nat, b: nat, e: int, p: nat, emin: int)
    requires
        b > 0,
        p >= 1,
    ensures
        is_quantum(a, b, e, p, emin, quantum(a, b, e, p, emin)),
{
    lemma_quantum_search(a, b, e, p, emin, emin);
}

/// Whatever exponent meets `is_quantum` is the quantum.
pub proof fn lemma_quantum_is(a: nat, b: nat, e: int, p: nat, emin: int, q: int)
    requires
        b > 0,
        p >= 1,
        is_quantum(a, b, e, p, emin, q),
    ensures
        quantum(a, b, e, p, emin) == q,
{
    lemma_quantum_unique(a, b, e, p, emin, q, quantum(a, b, e, p, emin));
}

/// `c <= x / y` where `c * y <= x`, and `x / y < c` where `x < c * y`.
pub proof fn lemma_quotient_bounds(x: nat, y: nat, c: nat)
    requires
        y > 0,
    ensures
        c * y <= x ==> c <= x / y,
        x < c * y ==> x / y < c,
{
    if c * y <= x {
        lemma_div_is_ordered((c * y) as int, x as int, y as int);
        lemma_div_multiples_vanish(c as int, y as int);
        assert(y * c == c * y) by (nonlinear_arith);
    }
    if x < c * y {
        assert(y * c == c * y) by (nonlinear_arith);
        lemma_multiply_divide_lt(x as int, y as int, c as int);
    }
}

/// `1 << n` is `2^n`.
proof fn lemma_shift_is_pow2(n: u32)
    requires
        n < 128,
    ensures
        (1u128 << n) == pow2(n as nat),
    decreases n,
{
    lemma2_to64();
    if n == 0 {
        assert((1u128 << 0u32) == 1) by (bit_vector);
    } else {
        lemma_shift_is_pow2((n - 1) as u32);
        let m: u32 = (n - 1) as u32;
        assert((1u128 << n) == 2 * (1u128 << m)) by (bit_vector)
            requires
                0 < n < 128,
                m == n - 1,
        ;
        lemma_pow2_double(m as nat);
    }
}

/// `2^n` for `n < 128`.
pub fn pow2_u128(n: u32) -> (r: u128)
    requires
        n < 128,
    ensures
        r == pow2(n as nat),
{
    proof {
        lemma_shift_is_pow2(n);
    }
    1u128 << n
}

/// Number of binary digits of `x`.
pub fn bit_length(x: u128) -> (n: u32)
    ensures
        n <= 128,
        has_bit_length(x as nat, n as nat),
{
    let mut n: u32 = 0;
    let mut y: u128 = x;
    proof {
        lemma2_to64();
    }
    while y > 0
        invariant
            n <= 128,
            y == x as nat / pow2(n as nat),
            n > 0 ==> pow2((n - 1) as nat) <= x,
        decreases y,
    {
        proof {
            lemma_pow2_pos(n as nat);
            lemma_pow2_double(n as nat);
            lemma_div_denominator(x as int, pow2(n as nat) as int, 2);
            assert(pow2(n as nat) * 2 == 2 * pow2(n as nat));
            // y >= 1, so 2^n <= x < 2^128
            lemma_quotient_bounds(x as nat, pow2(n as nat), 1);
            assert(pow2(n as nat) <= x);
            lemma_pow2_128();
            lemma_pow2_order(n as nat, 128);
        }
        y = y / 2;
        n = n + 1;
    }
    proof {
        lemma_pow2_pos(n as nat);
        lemma_quotient_bounds(x as nat, pow2(n as nat), 1);
    }
    n
}

/// `floor((a / b) * 2^s)` and whether rounding to nearest, ties to even,
/// gives the next natural instead.
pub fn divide_at(a: u128, b: u64, s: i32) -> (r: (u128, bool))
    requires
        b > 0,
        -128 < s < 128,
        num_at(a as nat, s as int) <= u128::MAX,
        den_at(b as nat, s as int) <= u128::MAX,
    ensures
        r.0 == floor_at(a as nat, b as nat, s as int),
        r.0 + (if r.1 { 1nat } else { 0nat }) == nearest_at(a as nat, b as nat, s as int),
{
    let x: u128 = if s >= 0 {
        a * pow2_u128(s as u32)
    } else {
        a
    };
    let y: u128 = if s >= 0 {
        b as u128
    } else {
        (b as u128) * pow2_u128((-s) as u32)
    };
    proof {
        lemma_pow2_pos((-s) as nat);
        assert(y > 0) by (nonlinear_arith)
            requires
                y == (if s >= 0 { b as int } else { b * pow2((-s) as nat) }),
                b > 0,
                pow2((-s) as nat) > 0,
        ;
    }
    let n: u128 = x / y;
    let r: u128 = x % y;
    let up: bool = r > y - r || (r == y - r && n % 2 == 1);
    (n, up)
}

/// With `s = p + lb - la`, the floor of `(a / b) * 2^s` has `p` or `p + 1` digits.
pub proof fn lemma_first_guess(a: nat, b: nat, la: nat, lb: nat, p: nat)
    requires
        a > 0,
        b > 0,
        p >= 1,
        has_bit_length(a, la),
        has_bit_length(b, lb),
    ensures
        pow2((p - 1) as nat) <= floor_at(a, b, p + lb - la) < pow2(p + 1),
{
    lemma2_to64();
    assert(la >= 1 && lb >= 1);
    let s = p + lb - la;
    let x = num_at(a, s);
    let y = den_at(b, s);
    let lo = pow2((p - 1) as nat);
    let hi = pow2(p + 1);
    if s >= 0 {
        lemma_scale_bounds(a, (la - 1) as nat, s as nat);
        lemma_scale_bounds(a, la, s as nat);
        // 2^(p+lb-1) <= x < 2^(p+lb)
        lemma_pow2_adds((p - 1) as nat, lb);
        lemma_pow2_adds(p + 1, (lb - 1) as nat);
        assert(lo * y <= lo * pow2(lb)) by (nonlinear_arith)
            requires
                y <= pow2(lb),
                lo >= 0,
        ;
        assert(hi * pow2((lb - 1) as nat) <= hi * y) by (nonlinear_arith)
            requires
                pow2((lb - 1) as nat) <= y,
                hi >= 0,
        ;
        assert((la - 1) as nat + s as nat == (p - 1) as nat + lb);
        assert(la + s as nat == p + 1 + (lb - 1) as nat);
    } else {
        let v = (-s) as nat;
        lemma_scale_bounds(b, lb, v);
        lemma_scale_bounds(b, (lb - 1) as nat, v);
        // 2^(la-p-1) <= y < 2^(la-p)
        lemma_pow2_adds((p - 1) as nat, lb + v);
        lemma_pow2_adds(p + 1, (lb - 1) as nat + v);
        assert(lo * y <= lo * pow2(lb + v)) by (nonlinear_arith)
            requires
                y <= pow2(lb + v),
                lo >= 0,
        ;
        assert(hi * pow2((lb - 1) as nat + v) <= hi * y) by (nonlinear_arith)
            requires
                pow2((lb - 1) as nat + v) <= y,
                hi >= 0,
        ;
        assert((p - 1) as nat + (lb + v) == (la - 1) as nat);
        assert(p + 1 + ((lb - 1) as nat + v) == la);
        lemma_pow2_pos(v);
        assert(y > 0) by (nonlinear_arith)
            requires
                y == b * pow2(v),
                b > 0,
                pow2(v) > 0,
        ;
    }
    lemma_quotient_bounds(x, y, lo);
    lemma_quotient_bounds(x, y, hi);
}

/// A value below half the unit rounds to zero.
pub proof fn lemma_rounds_to_zero(a: nat, b: nat, la: nat, lb: nat, s: int)
    requires
        b > 0,
        has_bit_length(a, la),
        has_bit_length(b, lb),
        s < 0,
        -s >= la - lb + 2,
    ensures
        floor_at(a, b, s) == 0,
        nearest_at(a, b, s) == 0,
{
    lemma2_to64();
    let v = (-s) as nat;
    let y = den_at(b, s);
    lemma_scale_bounds(b, (lb - 1) as nat, v);
    lemma_pow2_increases(la + 1, (lb - 1) as nat + v);
    lemma_pow2_double(la);
    assert(2 * a < y);
    lemma_basic_div(a as int, y as int);
    lemma_small_mod(a, y);
}

/// A value below one unit rounds to one unit where it is above half a unit,
/// else to zero.
pub proof fn lemma_below_one_unit(a: nat, b: nat, s: int, half: nat)
    requires
        s < 0,
        half == b * pow2((-s - 1) as nat),
        a < 2 * half,
    ensures
        floor_at(a, b, s) == 0,
        nearest_at(a, b, s) == (if a > half {
            1nat
        } else {
            0nat
        }),
{
    lemma_pow2_double((-s - 1) as nat);
    let y = den_at(b, s);
    assert(y == 2 * half) by (nonlinear_arith)
        requires
            y == b * pow2((-s) as nat),
            half == b * pow2((-s - 1) as nat),
            pow2((-s) as nat) == 2 * pow2((-s - 1) as nat),
    ;
    lemma_basic_div(a as int, y as int);
    lemma_small_mod(a, y);
}

/// Rounds `(a / b) * 2^e` to `p` binary digits, with least exponent `emin`:
/// returns the nearest multiple `m * 2^q` of the value's quantum `2^q`, ties
/// to the even multiple.
pub fn round_ratio(a: u128, b: u64, e: i32, p: u32, emin: i32) -> (r: (u64, i32))
    requires
        a > 0,
        b > 0,
        1 <= p <= 63,
        -EXP_LIMIT <= e <= EXP_LIMIT,
        -EXP_LIMIT <= emin <= EXP_LIMIT,
    ensures
        is_quantum(a as nat, b as nat, e as int, p as nat, emin as int, r.1 as int),
        r.0 == nearest_at(a as nat, b as nat, e - r.1),
        r.0 <= pow2(p as nat),
        r.1 == emin || r.1 <= e + 128,
{
    let la: u32 = bit_length(a);
    let lb: u32 = bit_length(b as u128);
    proof {
        lemma2_to64();
        lemma2_to64_rest();
        lemma_pow2_128();
        assert(la >= 1 && lb >= 1);
        lemma_pow2_order((lb - 1) as nat, 64);
        lemma_first_guess(a as nat, b as nat, la as nat, lb as nat, p as nat);
    }
    let s1: i32 = p as i32 + lb as i32 - la as i32;
    if e - s1 < emin {
        let s: i32 = e - emin;
        proof {
            lemma_floor_at_monotone(a as nat, b as nat, s as int, s1 - 1);
            lemma_floor_at_step(a as nat, b as nat, s1 as int);
            lemma_pow2_double(p as nat);
        }
        if s < 0 && -s >= la as i32 - lb as i32 + 2 {
            proof {
                lemma_rounds_to_zero(a as nat, b as nat, la as nat, lb as nat, s as int);
            }
            return (0, emin);
        }
        if s < 0 && lb as i32 - s > 128 {
            // the unit is beyond `u128`: the value is below one unit, and
            // above half of it or not
            proof {
                lemma_scale_bounds(b as nat, lb as nat, (-s - 1) as nat);
                lemma_scale_bounds(b as nat, (lb - 1) as nat, (-s - 1) as nat);
                lemma_pow2_increases((lb - s - 1) as nat, 128);
                lemma_pow2_increases(128, (lb - 1 - s - 1) as nat + 1);
                lemma_pow2_double((lb - 1 - s - 1) as nat);
            }
            let half: u128 = (b as u128) * pow2_u128((-s - 1) as u32);
            proof {
                lemma_below_one_unit(a as nat, b as nat, s as int, half as nat);
                lemma_pow2_pos(p as nat);
            }
            let m: u64 = if a > half {
                1
            } else {
                0
            };
            return (m, emin);
        }
        proof {
            if s >= 0 {
                lemma_scale_bounds(a as nat, la as nat, s as nat);
                lemma_pow2_increases((la + s) as nat, 127);
            } else {
                lemma_scale_bounds(b as nat, lb as nat, (-s) as nat);
                lemma_pow2_increases((lb - s) as nat, 128);
            }
        }
        let (n, up) = divide_at(a, b, s);
        let m: u64 = if up {
            (n + 1) as u64
        } else {
            n as u64
        };
        (m, emin)
    } else {
        proof {
            if s1 >= 0 {
                lemma_scale_bounds(a as nat, la as nat, s1 as nat);
                lemma_pow2_increases((la + s1) as nat, 127);
            } else {
                lemma_scale_bounds(b as nat, lb as nat, (-s1) as nat);
                lemma_pow2_increases((lb - s1) as nat, 127);
            }
            lemma_pow2_increases((p + 1) as nat, 64);
        }
        let (n1, up1) = divide_at(a, b, s1);
        if n1 >= pow2_u128(p) {
            proof {
                lemma_floor_at_step(a as nat, b as nat, s1 as int);
                lemma_pow2_double(p as nat);
                lemma_pow2_double((p - 1) as nat);
                if s1 - 1 >= 0 {
                    lemma_scale_bounds(a as nat, la as nat, (s1 - 1) as nat);
                    lemma_pow2_increases((la + s1 - 1) as nat, 127);
                } else {
                    lemma_scale_bounds(b as nat, lb as nat, (1 - s1) as nat);
                    lemma_pow2_increases((lb + 1 - s1) as nat, 128);
                }
            }
            let (n, up) = divide_at(a, b, s1 - 1);
            let m: u64 = if up {
                (n + 1) as u64
            } else {
                n as u64
            };
            (m, e - s1 + 1)
        } else {
            let m: u64 = if up1 {
                (n1 + 1) as u64
            } else {
                n1 as u64
            };
            (m, e - s1)
        }
    }
}

/// Floor and nearest natural of `x / y`, read off `x == n * y + r` with `r < y`.
pub proof fn lemma_nearest_even_of(x: nat, y: nat, n: nat, r: nat)
    requires
        y > 0,
        r < y,
        x == n * y + r,
    ensures
        x / y == n,
        x % y == r,
        nearest_even(x, y) == (if 2 * r > y || (2 * r == y && n % 2 == 1) {
            n + 1
        } else {
            n
        }),
{
    lemma_fundamental_div_mod_converse(x as int, y as int, n as int, r as int);
}

/// A whole number of units is its own floor and its own rounding.
pub proof fn lemma_whole_number(a: nat, k: nat)
    ensures
        floor_at(a, 1, k as int) == a * pow2(k),
        nearest_at(a, 1, k as int) == a * pow2(k),
{
    let x = a * pow2(k);
    assert(x == x * 1 + 0);
    lemma_nearest_even_of(x, 1, x, 0);
}

} // verus!
