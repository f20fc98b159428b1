//! A value as a percentage of its greatest, and the percentage as a gauge of
//! fixed width.
use crate::ieee::{
    at_most,
    from_nat_spec,
    lemma_order_transitive,
    lemma_order_with_zero,
    less_spec,
    product_spec,
    quotient_spec,
    truncated,
    units_at,
    Format,
    Value,
};
use crate::monotone::{lemma_floor_grows, lemma_ratio_of_values, lemma_rounded_grows};
use crate::rounding::{floor_at, is_quantum, lemma_quantum_is, lemma_quotient_bounds};
use crate::single::Single;
use vstd::arithmetic::power2::{lemma2_to64, lemma_pow2_adds, lemma_pow2_pos, pow2};
use vstd::prelude::*;

verus! {

/// The last step of the percentage: from the product to the whole number
/// within `0..=100`.
pub open spec fn pct_of_product(p: Value) -> nat {
    if at_most(p, Value::zero(Format::Single, false)) {
        0
    } else if at_most(from_nat_spec(Format::Single, 100), p) {
        100
    } else {
        truncated(p, 255)
    }
}

/// `value / max * 100` in single precision, without its fraction and kept
/// within `0..=100`; zero where `value` is not finite or `max` is not above
/// zero.
pub open spec fn pct_spec(value: Value, max: Value) -> nat {
    if !value.is_finite() || at_most(max, Value::zero(Format::Single, false)) {
        0
    } else {
        pct_of_product(
            product_spec(
                Format::Single,
                quotient_spec(Format::Single, value, max),
                from_nat_spec(Format::Single, 100),
            ),
        )
    }
}

/// The percentage is zero where the value is not finite, and where the
/// greatest value is zero, below zero or a NaN.
pub proof fn lemma_pct_guards(value: Value, max: Value)
    ensures
        !value.is_finite() ==> pct_spec(value, max) == 0,
        max.is_zero() || max.sign() || max.is_nan() ==> pct_spec(value, max) == 0,
{
    if max is Fin {
        lemma_order_with_zero(max, Value::zero(Format::Single, false));
    }
}

/// The single-precision value of 100.
proof fn lemma_hundred()
    ensures
        from_nat_spec(Format::Single, 100) == (Value::Fin {
            neg: false,
            mant: 0xc8_0000,
            exp: -17,
        }),
{
    lemma2_to64();
    assert(100 * pow2(17) == 0xc8_0000);
    assert(floor_at(100, 1, 17) == 0xc8_0000);
    assert(is_quantum(100, 1, 0, 24, -149, -17));
    lemma_quantum_is(100, 1, 0, 24, -149, -17);
}

/// A value that is not negative and below 100 has a whole part below 100.
proof fn lemma_whole_part_below_hundred(x: Value)
    requires
        x is Fin,
        !x.sign(),
        less_spec(x, from_nat_spec(Format::Single, 100)),
    ensures
        floor_at(x->mant, 1, x->exp) < 100,
{
    lemma_hundred();
    lemma2_to64();
    let m = x->mant;
    let e = x->exp;
    let h = Value::Fin { neg: false, mant: 0xc8_0000, exp: -17 };
    if e >= 0 {
        // m * 2^(e + 17) < 100 * 2^17
        lemma_pow2_adds(e as nat, 17);
        assert(units_at(h, -17) == 0xc8_0000);
        let c = pow2(e as nat);
        assert(m * c < 100) by (nonlinear_arith)
            requires
                m * (c * 0x2_0000) < 100 * 0x2_0000,
        ;
    } else {
        let c = pow2((-e) as nat);
        lemma_pow2_pos((-e) as nat);
        assert(1 * c == c);
        if e >= -17 {
            // m * 2^(e + 17) < 100 * 2^17, and 2^17 == 2^(e + 17) * 2^(-e)
            lemma_pow2_adds((e + 17) as nat, (-e) as nat);
            let d = pow2((e + 17) as nat);
            lemma_pow2_pos((e + 17) as nat);
            assert(units_at(h, -17) == 0xc8_0000);
            assert(m < 100 * c) by (nonlinear_arith)
                requires
                    m * d < 100 * 0x2_0000,
                    d * c == 0x2_0000,
                    d > 0,
                    c > 0,
            ;
        } else {
            // m < 100 * 2^17 * 2^(-17 - e), and 2^(-e) == 2^17 * 2^(-17 - e)
            lemma_pow2_adds(17, (-17 - e) as nat);
            let d = pow2((-17 - e) as nat);
            assert(units_at(x, e) == m) by {
                assert(m * 1 == m);
            }
            assert(m < 100 * c) by (nonlinear_arith)
                requires
                    m < 0xc8_0000 * d,
                    c == 0x2_0000 * d,
            ;
        }
        lemma_quotient_bounds(m, c, 100);
    }
}

/// The last step of the percentage keeps the order.
proof fn lemma_pct_of_product_grows(p1: Value, p2: Value)
    requires
        !p1.is_nan(),
        !p2.is_nan(),
        at_most(p1, p2),
    ensures
        pct_of_product(p1) <= pct_of_product(p2),
{
    let zero = Value::zero(Format::Single, false);
    let hundred = from_nat_spec(Format::Single, 100);
    lemma_hundred();
    lemma_order_with_zero(hundred, zero);
    if !at_most(p1, zero) {
        if p2 is Fin {
            // then the first is finite too, and above zero
            lemma_order_with_zero(p1, zero);
            lemma_order_transitive(zero, p1, p2);
            lemma_order_with_zero(p2, zero);
            lemma_order_transitive(hundred, p1, p2);
            if !at_most(hundred, p1) {
                crate::ieee::lemma_order_total(hundred, p1);
                lemma_whole_part_below_hundred(p1);
                if !at_most(hundred, p2) {
                    lemma_ratio_of_values(p1, p2, 1, 1, 0);
                    assert(p1->mant * 1 == p1->mant);
                    assert(p2->mant * 1 == p2->mant);
                    lemma_floor_grows(p1->mant, 1, p1->exp, p2->mant, 1, p2->exp);
                    crate::ieee::lemma_order_total(hundred, p2);
                    lemma_whole_part_below_hundred(p2);
                }
            }
        } else {
            if p1 is Fin && !at_most(hundred, p1) {
                lemma_order_with_zero(p1, zero);
                crate::ieee::lemma_order_total(hundred, p1);
                lemma_whole_part_below_hundred(p1);
            }
        }
    }
}

/// The percentage does not fall as the value grows.
pub proof fn lemma_pct_grows(v1: Value, v2: Value, max: Value)
    requires
        v1 is Fin,
        v2 is Fin,
        at_most(v1, v2),
    ensures
        pct_spec(v1, max) <= pct_spec(v2, max),
{
    let fmt = Format::Single;
    let zero = Value::zero(fmt, false);
    let hundred = from_nat_spec(fmt, 100);
    lemma_hundred();
    lemma_pow2_pos(23);
    lemma_pct_guards(v1, max);
    lemma_pct_guards(v2, max);
    let q1 = quotient_spec(fmt, v1, max);
    let q2 = quotient_spec(fmt, v2, max);
    let p1 = product_spec(fmt, q1, hundred);
    let p2 = product_spec(fmt, q2, hundred);
    if max is Inf && !max.sign() {
        // every quotient is a zero
        assert(0 * hundred->mant == 0);
        lemma_order_with_zero(p1, zero);
    } else if max is Fin && !at_most(max, zero) {
        lemma_order_with_zero(max, zero);
        lemma_order_with_zero(v1, zero);
        if at_most(v1, zero) {
            // the first quotient is below zero or a zero, and so is its product
            assert(0 * hundred->mant == 0);
            if p1 is Fin {
                lemma_order_with_zero(p1, zero);
            }
        } else {
            lemma_order_transitive(zero, v1, v2);
            lemma_order_with_zero(v2, zero);
            lemma_ratio_of_values(v1, v2, 1, max->mant, -max->exp);
            assert(v1->mant * 1 == v1->mant);
            assert(v2->mant * 1 == v2->mant);
            lemma_rounded_grows(
                fmt,
                v1->mant,
                max->mant,
                v1->exp - max->exp,
                v2->mant,
                max->mant,
                v2->exp - max->exp,
            );
            assert(at_most(q1, q2));
            if q2 is Fin {
                if q1->mant == 0 {
                    assert(0 * hundred->mant == 0);
                    lemma_order_with_zero(p1, zero);
                } else {
                    lemma_ratio_of_values(q1, q2, hundred->mant, 1, -17);
                    assert(q1->mant * hundred->mant > 0) by (nonlinear_arith)
                        requires
                            q1->mant > 0,
                            hundred->mant > 0,
                    ;
                    lemma_rounded_grows(
                        fmt,
                        q1->mant * hundred->mant,
                        1,
                        q1->exp - 17,
                        q2->mant * hundred->mant,
                        1,
                        q2->exp - 17,
                    );
                    lemma_pct_of_product_grows(p1, p2);
                }
            } else {
                lemma_pct_of_product_grows(p1, p2);
            }
        }
    }
}

/// `value` as a percentage of `max`: `value / max * 100` without its
/// fraction, kept within `0..=100`; zero where `value` is not finite or `max`
/// is not above zero.
pub fn pct(x: Single, max: Single) -> (r: u8)
    ensures
        r == pct_spec(x@, max@),
        r <= 100,
{
    if !x.is_finite() || max.le(Single::zero()) {
        return 0;
    }
    let hundred: Single = Single::from_u64(100);
    let p: Single = x.div(max).mul(hundred);
    if p.le(Single::zero()) {
        0
    } else if p.ge(hundred) {
        100
    } else {
        proof {
            if p@ is Fin {
                lemma_order_with_zero(p@, Value::zero(Format::Single, false));
                lemma_whole_part_below_hundred(p@);
            }
        }
        p.to_u8()
    }
}

/// Number of cells in a gauge.
pub const BAR_W: usize = 32;

/// Cell left of the cursor, `=`.
pub const FILLED: u8 = 0x3d;

/// Cell that marks the boundary between the filled and the empty part, `>`.
pub const CURSOR: u8 = 0x3e;

/// Cell right of the cursor, `.`.
pub const EMPTY: u8 = 0x2e;

/// Number of filled cells for a percentage: `floor(percent * (BAR_W - 1) / 100)`.
pub open spec fn filled_cells(percent: u8) -> int {
    (percent as int * (BAR_W as int - 1)) / 100
}

/// The byte a gauge shows at position `i`: filled before the cursor, but
/// never in the last place; the cursor behind the filled cells, where that is
/// within the width; empty elsewhere.
pub open spec fn bar_cell(percent: u8, i: int) -> u8 {
    let filled = filled_cells(percent);
    if i < filled && i < BAR_W as int - 1 {
        FILLED
    } else if i == filled {
        CURSOR
    } else {
        EMPTY
    }
}

/// The whole gauge for a percentage.
pub open spec fn bar(percent: u8) -> Seq<u8> {
    Seq::new(BAR_W as nat, |i: int| bar_cell(percent, i))
}

/// For a percentage up to 100 the gauge has one cursor, at the place that
/// follows the filled cells; what stands before it is filled, and what stands
/// behind it is empty.
pub proof fn lemma_bar_has_one_cursor(percent: u8)
    requires
        percent <= 100,
    ensures
        bar(percent).len() == BAR_W,
        0 <= filled_cells(percent) < BAR_W,
        forall|i: int|
            0 <= i < BAR_W ==> (#[trigger] bar(percent)[i] == CURSOR <==> i == filled_cells(
                percent,
            )),
        forall|i: int| 0 <= i < filled_cells(percent) ==> #[trigger] bar(percent)[i] == FILLED,
        forall|i: int| filled_cells(percent) < i < BAR_W ==> #[trigger] bar(percent)[i] == EMPTY,
{
}

/// Writes the gauge for `percent` into `buf` and returns it as text: the
/// filled cells, the cursor, then empty cells up to the width. Beyond 100 the
/// filled cells stop one short of the width, and from 104 on no cursor
/// follows them.
pub fn render_bar<'a>(percent: u8, buf: &'a mut [u8; BAR_W]) -> (text: &'a str)
    ensures
        final(buf)@ == bar(percent),
        text@ == bar_text(percent),
{
    let span: usize = BAR_W - 1;
    assert(percent * span <= 255 * 31) by (nonlinear_arith)
        requires
            percent <= 255,
            span == 31,
    ;
    let filled: usize = ((percent as usize) * span) / 100;
    let mut i: usize = 0;
    while i < BAR_W
        invariant
            i <= BAR_W,
            forall|j: int| 0 <= j < i ==> buf@[j] == EMPTY,
        decreases BAR_W - i,
    {
        buf[i] = EMPTY;
        i += 1;
    }
    if filled > 0 {
        let stop: usize = if filled < BAR_W - 1 { filled } else { BAR_W - 1 };
        let mut k: usize = 0;
        while k < stop
            invariant
                k <= stop,
                stop < BAR_W,
                forall|j: int| 0 <= j < k ==> buf@[j] == FILLED,
                forall|j: int| k <= j < BAR_W ==> buf@[j] == EMPTY,
            decreases stop - k,
        {
            buf[k] = FILLED;
            k += 1;
        }
        if filled < BAR_W {
            buf[filled] = CURSOR;
        }
    } else {
        buf[0] = CURSOR;
    }
    assert(buf@ =~= bar(percent));
    ascii_text(buf.as_slice())
}

/// The characters of an ASCII byte string.
pub open spec fn ascii_chars(bytes: Seq<u8>) -> Seq<char> {
    Seq::new(bytes.len(), |i: int| bytes[i] as char)
}

/// The gauge for a percentage as text.
pub open spec fn bar_text(percent: u8) -> Seq<char> {
    ascii_chars(bar(percent))
}

/// `core::str::from_utf8` on ASCII bytes: every byte below 128 is one
/// character of the same value, so the conversion succeeds and the text has
/// one character per byte.
#[verifier::external_body]
fn ascii_text(bytes: &[u8]) -> (text: &str)
    requires
        forall|i: int| 0 <= i < bytes@.len() ==> bytes@[i] < 128,
    ensures
        text@ == ascii_chars(bytes@),
{
    match core::str::from_utf8(bytes) {
        Ok(text) => text,
        Err(_) => "",
    }
}

/// One line of a display: a label, a value with its unit, the value as a
/// percentage and as a gauge.
#[derive(Clone, Copy, Debug)]
pub struct TermLine<'a> {
    pub label: &'a str,
    pub value: Single,
    pub unit: &'a str,
    pub percent: u8,
    pub bar: &'a str,
}

/// Puts one line of a display together: the percentage of `value` in `max`,
/// and its gauge, written into `buf`.
pub fn line<'a>(
    label: &'a str,
    value: Single,
    unit: &'a str,
    max: Single,
    buf: &'a mut [u8; BAR_W],
) -> (r: TermLine<'a>)
    ensures
        r.label == label,
        r.value == value,
        r.unit == unit,
        r.percent == pct_spec(value@, max@),
        r.bar@ == bar_text(r.percent),
        final(buf)@ == bar(r.percent),
{
    let percent: u8 = pct(value, max);
    let bar: &'a str = render_bar(percent, buf);
    TermLine { label, value, unit, percent, bar }
}

} // verus!
