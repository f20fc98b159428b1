use power_meter::metrics::{battery_equiv, Accumulators, RunningStats};
use power_meter::single::Single;

fn s(x: f32) -> Single {
    Single::from_bits(x.to_bits())
}

fn f(x: Single) -> f32 {
    f32::from_bits(x.to_bits())
}

fn same(got: Single, want: f32) -> bool {
    if want.is_nan() {
        f(got).is_nan()
    } else {
        got.to_bits() == want.to_bits()
    }
}

fn next(state: &mut u64) -> u32 {
    *state = state.wrapping_mul(6364136223846793005).wrapping_add(1442695040888963407);
    (*state >> 32) as u32
}

/// Welford's recurrence on the machine's single precision.
struct Oracle {
    n: u64,
    mean: f32,
    m2: f32,
    min: f32,
    max: f32,
}

impl Oracle {
    fn new() -> Self {
        Oracle { n: 0, mean: 0.0, m2: 0.0, min: f32::INFINITY, max: f32::NEG_INFINITY }
    }

    fn update(&mut self, x: f32) {
        self.n += 1;
        let delta = x - self.mean;
        self.mean += delta / self.n as f32;
        let delta2 = x - self.mean;
        self.m2 += delta * delta2;
        if x < self.min {
            self.min = x;
        }
        if x > self.max {
            self.max = x;
        }
    }

    fn variance(&self) -> f32 {
        if self.n < 2 {
            0.0
        } else {
            self.m2 / (self.n as f32 - 1.0)
        }
    }
}

fn agrees(stats: &RunningStats, oracle: &Oracle) {
    assert_eq!(stats.n, oracle.n);
    assert!(same(stats.mean, oracle.mean));
    assert!(same(stats.m2, oracle.m2));
    assert!(same(stats.min, oracle.min));
    assert!(same(stats.max, oracle.max));
    assert!(same(stats.variance(), oracle.variance()));
    assert!(same(stats.stddev(), libm::sqrtf(oracle.variance())));
}

#[test]
fn new_stats_are_empty() {
    let stats = RunningStats::new();
    assert_eq!(stats.n, 0);
    assert_eq!(f(stats.mean), 0.0);
    assert_eq!(f(stats.m2), 0.0);
    assert_eq!(f(stats.min), f32::INFINITY);
    assert_eq!(f(stats.max), f32::NEG_INFINITY);
    assert_eq!(f(stats.variance()), 0.0);
    assert_eq!(f(stats.stddev()), 0.0);
    let other = RunningStats::default();
    assert_eq!(other.n, 0);
    assert_eq!(f(other.min), f32::INFINITY);
    assert_eq!(f(other.max), f32::NEG_INFINITY);
}

#[test]
fn first_sample_sets_both_extremes() {
    let mut stats = RunningStats::new();
    assert!(stats.update(s(-3.25)));
    assert_eq!(stats.n, 1);
    assert_eq!(f(stats.mean), -3.25);
    assert_eq!(f(stats.min), -3.25);
    assert_eq!(f(stats.max), -3.25);
    assert_eq!(f(stats.variance()), 0.0);
}

#[test]
fn variance_of_a_known_set() {
    let mut stats = RunningStats::new();
    for x in [2.0f32, 4.0, 4.0, 4.0, 5.0, 5.0, 7.0, 9.0] {
        assert!(stats.update(s(x)));
    }
    assert_eq!(stats.n, 8);
    assert_eq!(f(stats.mean), 5.0);
    assert_eq!(f(stats.m2), 32.0);
    assert_eq!(f(stats.variance()), 32.0 / 7.0);
    assert_eq!(f(stats.stddev()), libm::sqrtf(32.0 / 7.0));
    assert_eq!(f(stats.min), 2.0);
    assert_eq!(f(stats.max), 9.0);
}

#[test]
fn stats_match_machine_arithmetic() {
    let mut state: u64 = 11;
    for round in 0..200 {
        let mut stats = RunningStats::new();
        let mut oracle = Oracle::new();
        for _ in 0..200 {
            let x = match round % 4 {
                0 => (next(&mut state) % 100000) as f32 / 7.0 - 5000.0,
                1 => 12000.0 + (next(&mut state) % 1000) as f32 * 0.001,
                2 => f32::from_bits(next(&mut state) & 0xbfff_ffff),
                _ => f32::from_bits(next(&mut state)),
            };
            let accepted = stats.update(s(x));
            assert_eq!(accepted, x.is_finite());
            if accepted {
                oracle.update(x);
            }
            agrees(&stats, &oracle);
        }
    }
}

#[test]
fn stats_match_two_pass_computation() {
    let mut state: u64 = 12;
    for round in 0..100 {
        let base = [0.0f64, 3.3, 5000.0, 120.5, -40.0][round % 5];
        let spread = [1.0f64, 0.05, 250.0, 12.0][round % 4];
        let samples: Vec<f32> = (0..500)
            .map(|_| (base + spread * (next(&mut state) % 20001) as f64 / 10000.0 - spread) as f32)
            .collect();
        let mut stats = RunningStats::new();
        for x in samples.iter() {
            assert!(stats.update(s(*x)));
        }
        let count = samples.len() as f64;
        let mean = samples.iter().map(|x| *x as f64).sum::<f64>() / count;
        let variance =
            samples.iter().map(|x| (*x as f64 - mean) * (*x as f64 - mean)).sum::<f64>() / (count - 1.0);
        let scale = mean.abs().max(spread);
        assert!((f(stats.mean) as f64 - mean).abs() <= 1e-4 * scale);
        assert!((f(stats.variance()) as f64 - variance).abs() <= 1e-4 * variance.max(scale * scale * 1e-3));
        let least = samples.iter().cloned().fold(f32::INFINITY, f32::min);
        let greatest = samples.iter().cloned().fold(f32::NEG_INFINITY, f32::max);
        assert_eq!(f(stats.min), least);
        assert_eq!(f(stats.max), greatest);
    }
}

#[test]
fn a_sample_that_is_not_finite_is_refused() {
    let mut stats = RunningStats::new();
    assert!(stats.update(s(1.0)));
    assert!(stats.update(s(3.0)));
    let before = stats;
    for x in [f32::NAN, f32::INFINITY, f32::NEG_INFINITY] {
        assert!(!stats.update(s(x)));
        assert_eq!(stats.n, before.n);
        assert_eq!(stats.mean.to_bits(), before.mean.to_bits());
        assert_eq!(stats.m2.to_bits(), before.m2.to_bits());
        assert_eq!(stats.min.to_bits(), before.min.to_bits());
        assert_eq!(stats.max.to_bits(), before.max.to_bits());
    }
    assert_eq!(f(stats.mean), 2.0);
    assert_eq!(f(stats.variance()), 2.0);
}

#[test]
fn count_stays_at_its_greatest() {
    let mut stats = RunningStats::new();
    stats.n = u64::MAX;
    assert!(stats.update(s(1.0)));
    assert_eq!(stats.n, u64::MAX);
}

/// The totals on the machine's double precision.
struct Totals {
    charge: u128,
    energy: u128,
    uptime: u64,
    cutoff: u32,
}

impl Totals {
    fn update(&mut self, i_ma: f32, p_mw: f32, dt_ms: u32) {
        self.uptime = self.uptime.saturating_add(dt_ms as u64);
        if !i_ma.is_finite() || !p_mw.is_finite() {
            return;
        }
        let i_eff = if i_ma.abs() < self.cutoff as f32 { 0.0 } else { i_ma };
        let dq = (i_eff as f64) * (dt_ms as f64);
        if dq.is_finite() && dq >= 0.0 {
            self.charge = self.charge.saturating_add(dq as u128);
        }
        let de = (p_mw as f64) * (dt_ms as f64);
        if de.is_finite() && de >= 0.0 {
            self.energy = self.energy.saturating_add(de as u128);
        }
    }
}

fn reading(state: &mut u64) -> f32 {
    match next(state) % 6 {
        0 => (next(state) % 4_000_000) as f32 / 1000.0,
        1 => -((next(state) % 4_000_000) as f32 / 1000.0),
        2 => f32::from_bits(next(state)),
        3 => f32::from_bits((next(state) & 0x007f_ffff) | 0x7e80_0000),
        4 => (next(state) % 64) as f32 / 4.0,
        _ => f32::from_bits(next(state) & 0x7fff_ffff),
    }
}

#[test]
fn new_totals_are_empty() {
    let acc = Accumulators::new(7);
    assert_eq!(acc.charge_uas(), 0);
    assert_eq!(acc.energy_uws(), 0);
    assert_eq!(acc.uptime_ms, 0);
    assert_eq!(acc.current_cutoff_ma, 7);
    assert_eq!(f(acc.readout_charge_mah()), 0.0);
    let (mwh, wh) = acc.readout_energy();
    assert_eq!(f(mwh), 0.0);
    assert_eq!(f(wh), 0.0);
}

#[test]
fn one_reading_end_to_end() {
    let mut acc = Accumulators::new(1);
    assert!(acc.update(s(5000.0 / 1000.0), s(500000.0 / 1000.0), s(2500000.0 / 1000.0), 500));
    assert_eq!(acc.charge_uas(), 250000);
    assert_eq!(acc.energy_uws(), 1250000);
    assert_eq!(acc.uptime_ms, 500);
}

#[test]
fn totals_match_machine_arithmetic() {
    let mut state: u64 = 13;
    for round in 0..300 {
        let cutoff = [0u32, 1, 5, 100, 16777217, u32::MAX][round % 6];
        let mut acc = Accumulators::new(cutoff);
        let mut oracle = Totals { charge: 0, energy: 0, uptime: 0, cutoff };
        for _ in 0..200 {
            let i_ma = reading(&mut state);
            let p_mw = reading(&mut state);
            let dt = match next(&mut state) % 4 {
                0 => next(&mut state),
                1 => 500,
                2 => next(&mut state) % 1000,
                _ => 0,
            };
            let usable = acc.update(s(f32::from_bits(next(&mut state))), s(i_ma), s(p_mw), dt);
            assert_eq!(usable, i_ma.is_finite() && p_mw.is_finite());
            oracle.update(i_ma, p_mw, dt);
            assert_eq!(acc.charge_uas(), oracle.charge, "{} mA over {} ms", i_ma, dt);
            assert_eq!(acc.energy_uws(), oracle.energy, "{} mW over {} ms", p_mw, dt);
            assert_eq!(acc.uptime_ms, oracle.uptime);
            assert_eq!(acc.current_cutoff_ma, cutoff);
        }
    }
}

#[test]
fn totals_never_decrease() {
    let mut state: u64 = 14;
    let mut acc = Accumulators::new(2);
    for _ in 0..20000 {
        let (charge, energy, uptime) = (acc.charge_uas(), acc.energy_uws(), acc.uptime_ms);
        acc.update(s(3.3), s(reading(&mut state)), s(reading(&mut state)), next(&mut state) % 5000);
        assert!(acc.charge_uas() >= charge);
        assert!(acc.energy_uws() >= energy);
        assert!(acc.uptime_ms >= uptime);
    }
}

#[test]
fn a_current_below_the_cutoff_adds_no_charge() {
    let mut acc = Accumulators::new(5);
    acc.update(s(5.0), s(100.0), s(500.0), 1000);
    let charge = acc.charge_uas();
    assert_eq!(charge, 100000);
    for i_ma in [0.0f32, 4.999, -4.999, 1.0e-30, -0.0, 3.0] {
        for dt in [0u32, 1, 500, u32::MAX] {
            let energy = acc.energy_uws();
            acc.update(s(5.0), s(i_ma), s(1.0), dt);
            assert_eq!(acc.charge_uas(), charge);
            assert_eq!(acc.energy_uws(), energy + dt as u128);
        }
    }
    acc.update(s(5.0), s(5.0), s(0.0), 10);
    assert_eq!(acc.charge_uas(), charge + 50);
    acc.update(s(5.0), s(-5.0), s(0.0), 10);
    assert_eq!(acc.charge_uas(), charge + 50);
}

#[test]
fn negative_and_unusable_readings_add_nothing() {
    let mut acc = Accumulators::new(0);
    for x in [-1.0f32, -2500.0, f32::NAN, f32::INFINITY, f32::NEG_INFINITY] {
        assert_eq!(acc.update(s(5.0), s(x), s(x), 500), x.is_finite());
        assert_eq!(acc.charge_uas(), 0);
        assert_eq!(acc.energy_uws(), 0);
    }
    assert_eq!(acc.uptime_ms, 2500);
    assert_eq!(acc.uptime_total_ms(), 2500);
    assert_eq!(acc.cutoff_ma(), 0);
}

#[test]
fn a_reading_that_is_not_finite_is_refused_as_a_whole() {
    let mut acc = Accumulators::new(0);
    for bad in [f32::NAN, f32::INFINITY, f32::NEG_INFINITY] {
        assert!(!acc.update(s(5.0), s(bad), s(1.0), 1000));
        assert_eq!(acc.charge_uas(), 0);
        assert_eq!(acc.energy_uws(), 0);
        assert!(!acc.update(s(5.0), s(2.0), s(bad), 1000));
        assert_eq!(acc.charge_uas(), 0);
        assert_eq!(acc.energy_uws(), 0);
        assert!(!acc.update(s(5.0), s(bad), s(bad), 1000));
        assert_eq!(acc.charge_uas(), 0);
        assert_eq!(acc.energy_uws(), 0);
    }
    assert_eq!(acc.uptime_ms, 9000);
    assert!(acc.update(s(f32::NAN), s(2.0), s(3.0), 500));
    assert_eq!(acc.charge_uas(), 1000);
    assert_eq!(acc.energy_uws(), 1500);
    assert!(!acc.update(s(5.0), s(f32::NAN), s(1.0), 1000));
    assert_eq!(acc.charge_uas(), 1000);
    assert_eq!(acc.energy_uws(), 1500);
    assert!(acc.update(s(5.0), s(1.0), s(1.0), 1000));
    assert_eq!(acc.charge_uas(), 2000);
    assert_eq!(acc.energy_uws(), 2500);
    assert_eq!(acc.uptime_ms, 11500);
}

#[test]
fn totals_stay_at_their_greatest() {
    let mut acc = Accumulators::new(0);
    let mut last = 0u128;
    for _ in 0..40 {
        acc.update(s(5.0), s(f32::MAX), s(f32::MAX), u32::MAX);
        assert!(acc.charge_uas() >= last);
        last = acc.charge_uas();
    }
    assert_eq!(acc.charge_uas(), u128::MAX);
    assert_eq!(acc.energy_uws(), u128::MAX);
    acc.update(s(5.0), s(1.0), s(1.0), 1);
    assert_eq!(acc.charge_uas(), u128::MAX);
    assert_eq!(acc.energy_uws(), u128::MAX);
    let mut acc = Accumulators::new(0);
    acc.uptime_ms = u64::MAX - 3;
    acc.update(s(5.0), s(1.0), s(1.0), 10);
    assert_eq!(acc.uptime_ms, u64::MAX);
}

#[test]
fn fractions_of_a_step_are_dropped() {
    let mut acc = Accumulators::new(0);
    acc.update(s(5.0), s(0.75), s(2.5), 3);
    assert_eq!(acc.charge_uas(), 2);
    assert_eq!(acc.energy_uws(), 7);
    acc.update(s(5.0), s(0.25), s(0.125), 3);
    assert_eq!(acc.charge_uas(), 2);
    assert_eq!(acc.energy_uws(), 7);
}

#[test]
fn readouts_match_machine_arithmetic() {
    let mut state: u64 = 15;
    let mut acc = Accumulators::new(0);
    for _ in 0..5000 {
        acc.update(s(5.0), s(reading(&mut state).abs()), s(reading(&mut state).abs()), next(&mut state) % 100000);
        let charge = acc.charge_uas();
        let energy = acc.energy_uws();
        let mah = (charge as f64 / 3_600_000.0) as f32;
        let mwh = (energy as f64 / 3_600_000.0) as f32;
        assert!(same(acc.readout_charge_mah(), mah));
        let (got_mwh, got_wh) = acc.readout_energy();
        assert!(same(got_mwh, mwh));
        assert!(same(got_wh, mwh / 1000.0));
        assert_eq!(acc.charge_uas(), charge);
        assert_eq!(acc.energy_uws(), energy);
    }
}

#[test]
fn readout_of_one_hour_at_one_milliampere() {
    let mut acc = Accumulators::new(0);
    for _ in 0..3600 {
        acc.update(s(5.0), s(1.0), s(5.0), 1000);
    }
    assert_eq!(acc.charge_uas(), 3_600_000);
    assert_eq!(f(acc.readout_charge_mah()), 1.0);
    let (mwh, wh) = acc.readout_energy();
    assert_eq!(f(mwh), 5.0);
    assert_eq!(f(wh), 0.005);
}

#[test]
fn battery_share_guards_against_zero() {
    let (aa, aaa) = battery_equiv(s(5.0), s(0.0), s(1.1));
    assert_eq!(f(aa), 0.0);
    assert_eq!(f(aaa), 5.0 / 1.1);
    let (aa, aaa) = battery_equiv(s(5.0), s(2.5), s(-1.0));
    assert_eq!(f(aa), 2.0);
    assert_eq!(f(aaa), 0.0);
    let (aa, aaa) = battery_equiv(s(5.0), s(f32::NAN), s(f32::INFINITY));
    assert_eq!(f(aa), 0.0);
    assert_eq!(f(aaa), 0.0);
    let (aa, aaa) = battery_equiv(s(-3.0), s(1.5), s(-0.0));
    assert_eq!(f(aa), -2.0);
    assert_eq!(aaa.to_bits(), 0.0f32.to_bits());
}

#[test]
fn battery_share_matches_machine_arithmetic() {
    let mut state: u64 = 16;
    for _ in 0..100000 {
        let wh = f32::from_bits(next(&mut state));
        let aa = reading(&mut state);
        let aaa = reading(&mut state);
        let (got_aa, got_aaa) = battery_equiv(s(wh), s(aa), s(aaa));
        assert!(same(got_aa, if aa > 0.0 { wh / aa } else { 0.0 }));
        assert!(same(got_aaa, if aaa > 0.0 { wh / aaa } else { 0.0 }));
    }
}

#[test]
fn equal_samples_have_their_mean_and_no_variance() {
    for x in [0.0f32, -0.0, 1.0, -3.3, 4.999, 12000.125, 1.0e-40, f32::MAX, f32::MIN, f32::MIN_POSITIVE] {
        let mut stats = RunningStats::new();
        for _ in 0..1000 {
            assert!(stats.update(s(x)));
            assert_eq!(f(stats.mean), x);
            assert_eq!(f(stats.m2), 0.0);
            assert_eq!(stats.min.to_bits(), x.to_bits());
            assert_eq!(stats.max.to_bits(), x.to_bits());
            assert_eq!(f(stats.variance()), 0.0);
            assert_eq!(f(stats.stddev()), 0.0);
        }
        assert_eq!(stats.n, 1000);
    }
}

#[test]
fn extremes_are_samples_that_bound_the_rest() {
    let mut state: u64 = 17;
    for _ in 0..200 {
        let samples: Vec<f32> = (0..50)
            .map(|_| f32::from_bits(next(&mut state)))
            .filter(|x| x.is_finite())
            .collect();
        let mut stats = RunningStats::new();
        for x in samples.iter() {
            assert!(stats.update(s(*x)));
        }
        if samples.is_empty() {
            continue;
        }
        assert!(samples.iter().any(|x| x.to_bits() == stats.min.to_bits()));
        assert!(samples.iter().any(|x| x.to_bits() == stats.max.to_bits()));
        for x in samples.iter() {
            assert!(f(stats.min) <= *x && *x <= f(stats.max));
        }
    }
}

#[test]
fn two_readings_at_the_greatest_rate_fill_the_totals() {
    for dt in [1u32, 2, 500, (1 << 29) - 1] {
        let mut acc = Accumulators::new(0);
        acc.update(s(5.0), s(f32::MAX), s(f32::MAX), dt);
        assert!(acc.charge_uas() >= 0xff_ffff << 104);
        acc.update(s(5.0), s(f32::MAX), s(f32::MAX), dt);
        assert_eq!(acc.charge_uas(), u128::MAX);
        assert_eq!(acc.energy_uws(), u128::MAX);
    }
}

#[test]
fn short_steps_are_exact() {
    let mut state: u64 = 18;
    for _ in 0..100000 {
        let whole = next(&mut state) % (1 << 24);
        let shift = next(&mut state) % 40;
        let rate = whole as f32 / (1u64 << shift) as f32;
        let dt = next(&mut state) % (1 << 29);
        let mut acc = Accumulators::new(0);
        acc.update(s(0.0), s(rate), s(rate), dt);
        let exact = (whole as u128 * dt as u128) >> shift;
        assert_eq!(acc.charge_uas(), exact);
        assert_eq!(acc.energy_uws(), exact);
    }
}
