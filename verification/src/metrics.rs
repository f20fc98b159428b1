//! Running statistics of one channel, and running totals of charge and
//! energy.
use crate::exact::{
    dyadic,
    lemma_count_is_not_one,
    lemma_difference_of_equals,
    lemma_difference_of_unequals,
    lemma_equal_symmetric,
    lemma_equal_transitive,
    lemma_floor_of_equals,
    lemma_product_of_equals,
    lemma_quotient_by_one,
    lemma_rounded_exact,
    lemma_rounded_nonzero,
    lemma_rounded_representable,
    lemma_sum_with_zero,
};
use crate::ieee::{
    at_most,
    convert,
    convert_spec,
    difference_spec,
    equal_spec,
    from_nat_spec,
    from_u128,
    lemma_order_total,
    lemma_order_transitive,
    lemma_order_with_zero,
    lemma_sum_commutes,
    less_spec,
    magnitude,
    negated,
    product,
    product_spec,
    quotient,
    quotient_spec,
    rounded,
    sum_spec,
    truncate,
    truncated,
    Format,
    Unpacked,
    Value,
};
use crate::root::root_spec;
use crate::rounding::{floor_at, lemma_pow2_increases};
use crate::single::Single;
use vstd::arithmetic::power2::{lemma2_to64, lemma2_to64_rest, lemma_pow2_pos, pow2};
use vstd::prelude::*;

verus! {

/// What a `RunningStats` holds, as values.
pub struct StatsView {
    pub n: nat,
    pub mean: Value,
    pub m2: Value,
    pub min: Value,
    pub max: Value,
}

/// The statistics before any sample: no sample, mean and squared deviations
/// zero, the least value infinity and the greatest negative infinity.
pub open spec fn empty_stats() -> StatsView {
    StatsView {
        n: 0,
        mean: Value::zero(Format::Single, false),
        m2: Value::zero(Format::Single, false),
        min: Value::Inf { neg: false },
        max: Value::Inf { neg: true },
    }
}

/// The statistics after one more sample `x`, by Welford's recurrence in single
/// precision. The count stays at the greatest `u64` once it is reached.
pub open spec fn stats_after(s: StatsView, x: Value) -> StatsView {
    let n = if s.n < u64::MAX {
        s.n + 1
    } else {
        s.n
    };
    let delta = difference_spec(Format::Single, x, s.mean);
    let mean = sum_spec(
        Format::Single,
        s.mean,
        quotient_spec(Format::Single, delta, from_nat_spec(Format::Single, n)),
    );
    let delta2 = difference_spec(Format::Single, x, mean);
    StatsView {
        n,
        mean,
        m2: sum_spec(Format::Single, s.m2, product_spec(Format::Single, delta, delta2)),
        min: if less_spec(x, s.min) {
            x
        } else {
            s.min
        },
        max: if less_spec(s.max, x) {
            x
        } else {
            s.max
        },
    }
}

/// The statistics of a sequence of samples, taken one after the other.
pub open spec fn stats_of(samples: Seq<Value>) -> StatsView
    decreases samples.len(),
{
    if samples.len() == 0 {
        empty_stats()
    } else {
        stats_after(stats_of(samples.drop_last()), samples.last())
    }
}

/// After at least one sample the least and the greatest value are each one
/// of the samples, so finite; and the count is the number of samples, up to
/// the greatest `u64`.
pub proof fn lemma_extremes_are_samples(samples: Seq<Value>)
    requires
        forall|j: int| 0 <= j < samples.len() ==> (#[trigger] samples[j]) is Fin,
    ensures
        samples.len() > 0 ==> stats_of(samples).min is Fin && stats_of(samples).max is Fin,
        samples.len() > 0 ==> exists|i: int|
            0 <= i < samples.len() && stats_of(samples).min == #[trigger] samples[i],
        samples.len() > 0 ==> exists|i: int|
            0 <= i < samples.len() && stats_of(samples).max == #[trigger] samples[i],
        stats_of(samples).n == (if samples.len() <= u64::MAX {
            samples.len()
        } else {
            u64::MAX as nat
        }),
        stats_of(samples).n == 0 ==> stats_of(samples) == empty_stats(),
    decreases samples.len(),
{
    if samples.len() > 0 {
        let before = samples.drop_last();
        let last = samples.len() - 1;
        lemma_extremes_are_samples(before);
        let s = stats_of(before);
        let t = stats_of(samples);
        if t.min == samples[last] {
        } else {
            let i = choose|i: int| 0 <= i < before.len() && s.min == #[trigger] before[i];
            assert(t.min == samples[i]);
        }
        if t.max == samples[last] {
        } else {
            let i = choose|i: int| 0 <= i < before.len() && s.max == #[trigger] before[i];
            assert(t.max == samples[i]);
        }
    }
}

/// The least value is at most every sample, and every sample at most the
/// greatest value.
pub proof fn lemma_extremes_bound_samples(samples: Seq<Value>, i: int)
    requires
        forall|j: int| 0 <= j < samples.len() ==> (#[trigger] samples[j]) is Fin,
        0 <= i < samples.len(),
    ensures
        at_most(stats_of(samples).min, samples[i]),
        at_most(samples[i], stats_of(samples).max),
    decreases samples.len(),
{
    let before = samples.drop_last();
    let x = samples.last();
    let s = stats_of(before);
    lemma_extremes_are_samples(before);
    if i == samples.len() - 1 {
        if before.len() > 0 {
            lemma_order_total(x, s.min);
            lemma_order_total(x, s.max);
        } else {
            lemma_order_total(x, x);
        }
    } else {
        lemma_extremes_bound_samples(before, i);
        lemma_order_transitive(x, s.min, samples[i]);
        lemma_order_transitive(samples[i], s.max, x);
    }
}

/// `n` samples that are all `x`.
pub open spec fn repeated(x: Value, n: nat) -> Seq<Value> {
    Seq::new(n, |i: int| x)
}

/// Of samples that are all the same, the mean is the sample and the squared
/// deviations are zero: what summing them first and the deviations
/// afterwards gives. The least and the greatest value are the sample too.
pub proof fn lemma_stats_of_equal_samples(x: Value, n: nat)
    requires
        x is Fin,
        x.in_format(Format::Single),
        n >= 1,
    ensures
        ({
            let s = stats_of(repeated(x, n));
            &&& s.mean is Fin
            &&& s.mean.in_format(Format::Single)
            &&& equal_spec(s.mean, x)
            &&& s.m2.is_zero()
            &&& s.m2.in_format(Format::Single)
            &&& s.min == x
            &&& s.max == x
            &&& s.n >= 1
        }),
    decreases n,
{
    lemma2_to64();
    let fmt = Format::Single;
    let zero = Value::zero(fmt, false);
    let samples = repeated(x, n);
    assert(samples.drop_last() =~= repeated(x, (n - 1) as nat));
    assert(samples.last() == x);
    let before = stats_of(repeated(x, (n - 1) as nat));
    if n > 1 {
        lemma_stats_of_equal_samples(x, (n - 1) as nat);
    }
    assert(before.mean is Fin && before.mean.in_format(fmt) && before.m2.is_zero()
        && before.m2.in_format(fmt)) by {
        lemma_pow2_pos(23);
    }
    let count = if before.n < u64::MAX {
        before.n + 1
    } else {
        before.n
    };
    let c = from_nat_spec(fmt, count);
    let delta = difference_spec(fmt, x, before.mean);
    let step = quotient_spec(fmt, delta, c);
    let mean = sum_spec(fmt, before.mean, step);
    // the change of the mean is zero, or the whole sample where nothing came before
    if n == 1 {
        assert(before == empty_stats());
        lemma_sum_with_zero(fmt, x, negated(zero));
        lemma_quotient_by_one(delta);
        lemma_sum_commutes(fmt, zero, delta);
        lemma_sum_with_zero(fmt, delta, zero);
        lemma_equal_transitive(mean, delta, x);
    } else {
        lemma_equal_symmetric(before.mean, x);
        lemma_difference_of_equals(fmt, x, before.mean);
        lemma_rounded_nonzero(fmt, false, count, 0);
        assert(step.is_zero() && step.in_format(fmt)) by {
            lemma_pow2_pos(23);
        }
        lemma_sum_with_zero(fmt, before.mean, step);
        lemma_equal_transitive(mean, before.mean, x);
    }
    lemma_equal_symmetric(mean, x);
    lemma_difference_of_equals(fmt, x, mean);
    let delta2 = difference_spec(fmt, x, mean);
    assert(delta->mant * 0 == 0);
    assert(0 * delta2->mant == 0);
    let square = crate::ieee::product_spec(fmt, delta, delta2);
    assert(square.is_zero() && square.in_format(fmt)) by {
        lemma_pow2_pos(23);
    }
    lemma_sum_with_zero(fmt, before.m2, square);
}

/// Of samples that are all the same, the variance and the standard deviation
/// are zero.
pub proof fn lemma_variance_of_equal_samples(x: Value, n: nat)
    requires
        x is Fin,
        x.in_format(Format::Single),
        n >= 1,
    ensures
        variance_spec(stats_of(repeated(x, n))).is_zero(),
        root_spec(Format::Single, variance_spec(stats_of(repeated(x, n)))).is_zero(),
{
    let fmt = Format::Single;
    let s = stats_of(repeated(x, n));
    lemma_stats_of_equal_samples(x, n);
    if s.n >= 2 {
        let c = from_nat_spec(fmt, s.n);
        let one = from_nat_spec(fmt, 1);
        crate::exact::lemma_one();
        lemma_count_is_not_one(s.n);
        if c is Fin {
            lemma_difference_of_unequals(fmt, c, one);
        }
    }
}

/// The sample variance: the squared deviations over one less than the count,
/// and zero for fewer than two samples.
pub open spec fn variance_spec(s: StatsView) -> Value {
    if s.n < 2 {
        Value::zero(Format::Single, false)
    } else {
        quotient_spec(
            Format::Single,
            s.m2,
            difference_spec(
                Format::Single,
                from_nat_spec(Format::Single, s.n),
                from_nat_spec(Format::Single, 1),
            ),
        )
    }
}

/// Count, mean, squared deviations from the mean, least and greatest value of
/// the samples of one channel.
#[derive(Clone, Copy, Debug)]
pub struct RunningStats {
    pub n: u64,
    pub mean: Single,
    pub m2: Single,
    pub min: Single,
    pub max: Single,
}

impl View for RunningStats {
    type V = StatsView;

    open spec fn view(&self) -> StatsView {
        StatsView {
            n: self.n as nat,
            mean: self.mean@,
            m2: self.m2@,
            min: self.min@,
            max: self.max@,
        }
    }
}

impl RunningStats {
    /// Statistics of no sample.
    pub fn new() -> (r: RunningStats)
        ensures
            r@ == empty_stats(),
    {
        RunningStats {
            n: 0,
            mean: Single::zero(),
            m2: Single::zero(),
            min: Single::infinity(),
            max: Single::neg_infinity(),
        }
    }

    /// Takes one more sample. A sample that is not finite is refused: the
    /// statistics stay as they are and the result is `false`.
    pub fn update(&mut self, x: Single) -> (accepted: bool)
        ensures
            accepted == x@.is_finite(),
            accepted ==> final(self)@ == stats_after(old(self)@, x@),
            !accepted ==> *final(self) == *old(self),
    {
        if !x.is_finite() {
            return false;
        }
        if self.n < u64::MAX {
            self.n = self.n + 1;
        }
        let count: Single = Single::from_u64(self.n);
        let delta: Single = x.sub(self.mean);
        self.mean = self.mean.add(delta.div(count));
        let delta2: Single = x.sub(self.mean);
        self.m2 = self.m2.add(delta.mul(delta2));
        if x.lt(self.min) {
            self.min = x;
        }
        if x.gt(self.max) {
            self.max = x;
        }
        true
    }

    /// The sample variance.
    pub fn variance(&self) -> (r: Single)
        ensures
            r@ == variance_spec(self@),
    {
        if self.n < 2 {
            Single::zero()
        } else {
            self.m2.div(Single::from_u64(self.n).sub(Single::from_u64(1)))
        }
    }

    /// The standard deviation: the square root of the sample variance.
    pub fn stddev(&self) -> (r: Single)
        ensures
            r@ == root_spec(Format::Single, variance_spec(self@)),
    {
        self.variance().sqrt()
    }
}

impl Default for RunningStats {
    fn default() -> (r: RunningStats)
        ensures
            r@ == empty_stats(),
    {
        RunningStats::new()
    }
}

/// The current that is integrated: zero where the magnitude of the reading
/// is below the cutoff, else the reading.
pub open spec fn gated(cutoff: nat, current: Value) -> Value {
    if less_spec(magnitude(current), from_nat_spec(Format::Single, cutoff)) {
        Value::zero(Format::Single, false)
    } else {
        current
    }
}

/// A rate held over `dt` milliseconds: the product in double precision.
pub open spec fn step_value(rate: Value, dt: nat) -> Value {
    product_spec(
        Format::Double,
        convert_spec(Format::Double, rate),
        from_nat_spec(Format::Double, dt),
    )
}

/// What a rate held over `dt` milliseconds adds to a total: the whole part of
/// the product; nothing where the product is negative or not finite.
pub open spec fn step_amount(rate: Value, dt: nat) -> nat {
    let step = step_value(rate, dt);
    if step.is_finite() {
        truncated(step, u128::MAX as nat)
    } else {
        0
    }
}

/// `total + amount`, held at `max`.
pub open spec fn clamped_sum(total: nat, amount: nat, max: nat) -> nat {
    if total + amount > max {
        max
    } else {
        total + amount
    }
}

/// A total never decreases, never passes `max`, and stays at `max` once there.
pub proof fn lemma_clamped_sum(total: nat, amount: nat, max: nat)
    requires
        total <= max,
    ensures
        total <= clamped_sum(total, amount, max) <= max,
        clamped_sum(total, amount, max) == max <==> total + amount >= max,
        clamped_sum(max, amount, max) == max,
{
}

/// A rate of zero adds nothing, whatever the time.
pub proof fn lemma_zero_rate_adds_nothing(dt: nat)
    ensures
        step_amount(Value::zero(Format::Single, false), dt) == 0,
{
    let zero = Value::zero(Format::Single, false);
    let wide = convert_spec(Format::Double, zero);
    assert(wide == Value::zero(Format::Double, false));
    let time = from_nat_spec(Format::Double, dt);
    let step = step_value(zero, dt);
    if time is Fin {
        assert(0 * time->mant == 0);
        assert(step == Value::zero(Format::Double, false));
        lemma_floor_of_zero(-1074);
    }
}

/// A rate that is below zero, infinite or a NaN adds nothing.
pub proof fn lemma_unusable_rate_adds_nothing(rate: Value, dt: nat)
    requires
        !rate.is_finite() || rate.sign(),
    ensures
        step_amount(rate, dt) == 0,
{
}

/// Where the rate is finite and not below zero, and its significand times
/// the time has no more than 53 binary digits, the product is exact: the
/// amount is the whole part of rate times time, held at the greatest `u128`.
pub proof fn lemma_step_is_exact(rate: Value, dt: nat)
    requires
        rate is Fin,
        rate.in_format(Format::Single),
        !rate.sign(),
        rate->mant * dt < pow2(53),
    ensures
        step_amount(rate, dt) == clamped_sum(
            0,
            floor_at(rate->mant * dt, 1, rate->exp),
            u128::MAX as nat,
        ),
{
    lemma2_to64();
    lemma2_to64_rest();
    let m = rate->mant;
    let e = rate->exp;
    if m == 0 {
        lemma_zero_rate_adds_nothing(dt);
        assert(0 * dt == 0);
        lemma_floor_of_zero(e);
    } else {
        assert(dt <= m * dt) by (nonlinear_arith)
            requires
                m >= 1,
        ;
        lemma_pow2_increases(24, 53);
        let double = Format::Double;
        let wide = convert_spec(double, rate);
        let time = from_nat_spec(double, dt);
        let whole = rounded(double, false, m * dt, 1, e);
        lemma_rounded_exact(double, false, m, e);
        lemma_rounded_exact(double, false, dt, 0);
        lemma_rounded_exact(double, false, m * dt, e);
        let w = wide->mant * time->mant;
        let f = wide->exp + time->exp;
        lemma_product_of_equals(wide->mant, wide->exp, m, e, time->mant, time->exp, dt, 0);
        lemma_equal_symmetric(dyadic(w, f), dyadic(m * dt, e));
        lemma_equal_transitive(magnitude(whole), dyadic(m * dt, e), dyadic(w, f));
        lemma_rounded_representable(double, whole, w, f);
        assert(step_value(rate, dt) == whole);
        lemma_floor_of_equals(whole->mant, whole->exp, m * dt, e);
    }
}

/// The greatest finite single-precision value.
pub open spec fn greatest_single() -> Value {
    Value::Fin { neg: false, mant: 0xff_ffff, exp: 104 }
}

/// Two readings at the greatest rate, each held for at least a millisecond
/// and less than `2^29`, bring any total to the greatest `u128`, where it
/// stays.
pub proof fn lemma_greatest_rate_saturates(total: nat, dt: nat)
    requires
        total <= u128::MAX,
        1 <= dt < pow2(29),
    ensures
        ({
            let amount = step_amount(greatest_single(), dt);
            let max = u128::MAX as nat;
            &&& clamped_sum(clamped_sum(total, amount, max), amount, max) == max
            &&& clamped_sum(max, amount, max) == max
        }),
{
    lemma2_to64();
    lemma2_to64_rest();
    let a = 0xff_ffff * dt;
    assert(0xff_ffff <= a < 0x100_0000 * pow2(29)) by (nonlinear_arith)
        requires
            a == 0xff_ffff * dt,
            1 <= dt < pow2(29),
    ;
    vstd::arithmetic::power2::lemma_pow2_adds(24, 29);
    lemma_step_is_exact(greatest_single(), dt);
    vstd::arithmetic::power2::lemma_pow2_adds(64, 40);
    assert(pow2(104) == 0x100_0000_0000_0000_0000_0000_0000) by (nonlinear_arith)
        requires
            pow2(104) == pow2(64) * pow2(40),
            pow2(64) == 0x1_0000_0000_0000_0000,
            pow2(40) == 0x100_0000_0000,
    ;
    crate::rounding::lemma_whole_number(a, 104);
    assert(a * pow2(104) >= 0xff_ffff * pow2(104)) by (nonlinear_arith)
        requires
            a >= 0xff_ffff,
    ;
}

/// Zero has no whole part.
proof fn lemma_floor_of_zero(e: int)
    ensures
        floor_at(0, 1, e) == 0,
{
    if e >= 0 {
        assert(0 * pow2(e as nat) == 0);
    } else {
        lemma_pow2_pos((-e) as nat);
        assert(1 * pow2((-e) as nat) == pow2((-e) as nat));
        vstd::arithmetic::div_mod::lemma_basic_div(0, pow2((-e) as nat) as int);
    }
}

/// A current whose magnitude is below the cutoff adds no charge, whatever
/// the time.
pub proof fn lemma_cutoff_gates(cutoff: nat, current: Value, dt: nat)
    requires
        less_spec(magnitude(current), from_nat_spec(Format::Single, cutoff)),
    ensures
        step_amount(gated(cutoff, current), dt) == 0,
{
    lemma_zero_rate_adds_nothing(dt);
}

/// A total divided by 3 600 000, in double precision, then rounded to single
/// precision: microampere-seconds as milliampere-hours, microwatt-seconds as
/// milliwatt-hours.
pub open spec fn per_hour_spec(total: nat) -> Value {
    convert_spec(
        Format::Single,
        quotient_spec(
            Format::Double,
            from_nat_spec(Format::Double, total),
            from_nat_spec(Format::Double, 3_600_000),
        ),
    )
}

/// Totals of charge in microampere-seconds and of energy in
/// microwatt-seconds, with the time covered in milliseconds.
///
/// Each reading is taken to hold for the whole interval that ends with it:
/// the totals sum rectangles, not trapezia. That is exact for a steady
/// signal and close where the intervals are short against the signal's
/// changes; a spike within an interval is counted too high where the
/// reading falls on it and too low where it does not. The totals meter what
/// was used: they never go down, a negative reading adds nothing, and a
/// reading that is not finite is refused as a whole.
pub struct Accumulators {
    charge_uas: u128,
    energy_uws: u128,
    pub uptime_ms: u64,
    /// Currents of a magnitude below this many milliamperes count as zero.
    pub current_cutoff_ma: u32,
}

impl Accumulators {
    /// The total charge, in microampere-seconds.
    pub closed spec fn charge(&self) -> nat {
        self.charge_uas as nat
    }

    /// The total energy, in microwatt-seconds.
    pub closed spec fn energy(&self) -> nat {
        self.energy_uws as nat
    }

    /// The time covered, in milliseconds.
    pub closed spec fn uptime(&self) -> nat {
        self.uptime_ms as nat
    }

    /// The cutoff, in milliamperes.
    pub closed spec fn cutoff(&self) -> nat {
        self.current_cutoff_ma as nat
    }

    /// Empty totals with the given cutoff.
    pub fn new(cutoff_ma: u32) -> (r: Accumulators)
        ensures
            r.charge() == 0,
            r.energy() == 0,
            r.uptime() == 0,
            r.cutoff() == cutoff_ma,
    {
        Accumulators { charge_uas: 0, energy_uws: 0, uptime_ms: 0, current_cutoff_ma: cutoff_ma }
    }

    /// The total charge, in microampere-seconds.
    pub fn charge_uas(&self) -> (q: u128)
        ensures
            q == self.charge(),
    {
        self.charge_uas
    }

    /// The total energy, in microwatt-seconds.
    pub fn energy_uws(&self) -> (e: u128)
        ensures
            e == self.energy(),
    {
        self.energy_uws
    }

    /// The time covered, in milliseconds.
    pub fn uptime_total_ms(&self) -> (t: u64)
        ensures
            t == self.uptime(),
    {
        self.uptime_ms
    }

    /// The cutoff, in milliamperes.
    pub fn cutoff_ma(&self) -> (c: u32)
        ensures
            c == self.cutoff(),
    {
        self.current_cutoff_ma
    }

    /// Takes one reading: a voltage in volts, a current in milliamperes and a
    /// power in milliwatts, held over the `dt_ms` milliseconds since the
    /// reading before. The time covered grows by `dt_ms` whatever the
    /// reading. A reading whose current or power is not finite is refused:
    /// the result is `false` and neither total changes. Else the charge
    /// grows by current times time, with currents below the cutoff taken as
    /// zero, and the energy by power times time; what is negative adds
    /// nothing, and a total that would pass its greatest value stays there.
    /// The voltage takes no part.
    pub fn update(&mut self, _v_v: Single, i_ma: Single, p_mw: Single, dt_ms: u32) -> (usable:
        bool)
        ensures
            usable == (i_ma@.is_finite() && p_mw@.is_finite()),
            final(self).cutoff() == old(self).cutoff(),
            final(self).uptime() == clamped_sum(old(self).uptime(), dt_ms as nat, u64::MAX as nat),
            usable ==> final(self).charge() == clamped_sum(
                old(self).charge(),
                step_amount(gated(old(self).cutoff(), i_ma@), dt_ms as nat),
                u128::MAX as nat,
            ),
            usable ==> final(self).energy() == clamped_sum(
                old(self).energy(),
                step_amount(p_mw@, dt_ms as nat),
                u128::MAX as nat,
            ),
            !usable ==> final(self).charge() == old(self).charge() && final(self).energy() == old(
                self,
            ).energy(),
            final(self).charge() >= old(self).charge(),
            final(self).energy() >= old(self).energy(),
            final(self).uptime() >= old(self).uptime(),
            less_spec(magnitude(i_ma@), from_nat_spec(Format::Single, old(self).cutoff()))
                ==> final(self).charge() == old(self).charge(),
    {
        proof {
            lemma_zero_rate_adds_nothing(dt_ms as nat);
        }
        self.uptime_ms = self.uptime_ms.saturating_add(dt_ms as u64);
        if !i_ma.is_finite() || !p_mw.is_finite() {
            return false;
        }
        let threshold: Single = Single::from_u64(self.current_cutoff_ma as u64);
        let i_eff: Single = if i_ma.abs().lt(threshold) {
            Single::zero()
        } else {
            i_ma
        };
        let dq: u128 = Self::step(i_eff, dt_ms);
        self.charge_uas = self.charge_uas.saturating_add(dq);
        let de: u128 = Self::step(p_mw, dt_ms);
        self.energy_uws = self.energy_uws.saturating_add(de);
        true
    }

    /// What a rate held over `dt_ms` milliseconds adds to a total.
    fn step(rate: Single, dt_ms: u32) -> (amount: u128)
        ensures
            amount == step_amount(rate@, dt_ms as nat),
    {
        let wide: Unpacked = convert(Format::Double, rate.unpack());
        let time: Unpacked = from_u128(Format::Double, dt_ms as u128);
        let step: Unpacked = product(Format::Double, wide, time);
        match step {
            Unpacked::Fin { neg: _, mant: _, exp: _ } => truncate(step, u128::MAX),
            _ => 0,
        }
    }

    /// The total charge in milliampere-hours.
    pub fn readout_charge_mah(&self) -> (r: Single)
        ensures
            r@ == per_hour_spec(self.charge()),
    {
        Self::per_hour(self.charge_uas)
    }

    /// The total energy in milliwatt-hours and in watt-hours, the second the
    /// first divided by 1000 in single precision.
    pub fn readout_energy(&self) -> (r: (Single, Single))
        ensures
            r.0@ == per_hour_spec(self.energy()),
            r.1@ == quotient_spec(
                Format::Single,
                per_hour_spec(self.energy()),
                from_nat_spec(Format::Single, 1000),
            ),
    {
        let mwh: Single = Self::per_hour(self.energy_uws);
        let wh: Single = mwh.div(Single::from_u64(1000));
        (mwh, wh)
    }

    /// A total divided by 3 600 000.
    fn per_hour(total: u128) -> (r: Single)
        ensures
            r@ == per_hour_spec(total as nat),
    {
        let wide: Unpacked = quotient(
            Format::Double,
            from_u128(Format::Double, total),
            from_u128(Format::Double, 3_600_000),
        );
        Single::pack(convert(Format::Single, wide))
    }
}

/// A capacity's share of an energy: the quotient where the capacity is above
/// zero, else zero.
pub open spec fn share_spec(energy: Value, capacity: Value) -> Value {
    if less_spec(Value::zero(Format::Single, false), capacity) {
        quotient_spec(Format::Single, energy, capacity)
    } else {
        Value::zero(Format::Single, false)
    }
}

/// A capacity that is zero, below zero or a NaN has the share zero.
pub proof fn lemma_share_guard(energy: Value, capacity: Value)
    requires
        capacity.is_zero() || capacity.sign() || capacity.is_nan(),
    ensures
        share_spec(energy, capacity) == Value::zero(Format::Single, false),
{
    if capacity is Fin {
        lemma_order_with_zero(capacity, Value::zero(Format::Single, false));
    }
}

/// How many AA and how many AAA cells hold the energy `wh`, from the energy
/// that one cell of either kind holds.
pub fn battery_equiv(wh: Single, e_aa_wh: Single, e_aaa_wh: Single) -> (r: (Single, Single))
    ensures
        r.0@ == share_spec(wh@, e_aa_wh@),
        r.1@ == share_spec(wh@, e_aaa_wh@),
{
    let aa: Single = if e_aa_wh.gt(Single::zero()) {
        wh.div(e_aa_wh)
    } else {
        Single::zero()
    };
    let aaa: Single = if e_aaa_wh.gt(Single::zero()) {
        wh.div(e_aaa_wh)
    } else {
        Single::zero()
    };
    (aa, aaa)
}

} // verus!
