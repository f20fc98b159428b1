use power_meter::digits::decimal;
use power_meter::monitor::{
    cap_whole, integrate, mean_of, saturating_product, saturating_sum, scale, time_step, MinuteWindow, Monitor,
};

fn next(state: &mut u64) -> u32 {
    *state = state.wrapping_mul(6364136223846793005).wrapping_add(1442695040888963407);
    (*state >> 32) as u32
}

fn text(digits: &[u8]) -> String {
    digits.iter().map(|d| *d as char).collect()
}

/// The loop written out with the machine's saturating arithmetic.
struct Oracle {
    energy: i64,
    last_p: i64,
    last_total: u64,
    min_v: i64,
    min_i: i64,
    min_energy: i64,
    min_duration: u64,
    minute_count: u64,
    last_v: i32,
    last_i: i32,
    last_printed: u64,
}

impl Oracle {
    fn new() -> Self {
        Oracle {
            energy: 0,
            last_p: 0,
            last_total: 0,
            min_v: 0,
            min_i: 0,
            min_energy: 0,
            min_duration: 0,
            minute_count: 0,
            last_v: 0,
            last_i: 0,
            last_printed: 0,
        }
    }

    fn turn(&mut self, dt: u64, elapsed: u64, reading: Option<(i32, i32, i32)>) -> Vec<String> {
        let mut out = Vec::new();
        self.energy = self.energy.saturating_add(self.last_p.saturating_mul(dt as i64));
        let second = elapsed / 1000;
        let mut remain = elapsed.saturating_sub(self.last_total);
        while remain > 0 {
            let this_min = self.last_total / 60_000;
            let boundary = (this_min + 1) * 60_000;
            let step = core::cmp::min(remain, boundary - self.last_total);
            self.min_energy = self.min_energy.saturating_add(self.last_p.saturating_mul(step as i64));
            self.min_v = self.min_v.saturating_add((self.last_v as i64).saturating_mul(step as i64));
            self.min_i = self.min_i.saturating_add((self.last_i as i64).saturating_mul(step as i64));
            self.min_duration = self.min_duration.saturating_add(step);
            self.last_total = self.last_total.saturating_add(step);
            remain -= step;
            if self.last_total % 60_000 == 0 {
                self.minute_count = self.minute_count.saturating_add(1);
                let avg_v = if self.min_duration > 0 { (self.min_v / self.min_duration as i64) as i32 } else { 0 };
                let avg_i = if self.min_duration > 0 { (self.min_i / self.min_duration as i64) as i32 } else { 0 };
                let v = if avg_v > 0 { avg_v as u32 } else { 0 };
                let v_int = core::cmp::min(v / 1000, 99);
                let i = if avg_i > 0 { avg_i as u32 } else { 0 };
                let i_x10 = i / 100;
                let i_int = core::cmp::min(i_x10 / 10, 9_999);
                let e_pos: u128 = if self.min_energy > 0 { self.min_energy as u128 } else { 0 };
                let pct = e_pos.saturating_mul(10_000) / 9_000_000_000_000u128;
                let pct_int = core::cmp::min((pct / 100) as u64, 999);
                out.push(format!(
                    "{:02} V={:02}.{:03} I={:04}.{:01} AA={:03}.{:02}",
                    core::cmp::min(self.minute_count, 99),
                    v_int,
                    v % 1000,
                    i_int,
                    i_x10 % 10,
                    pct_int,
                    pct % 100
                ));
                self.min_v = 0;
                self.min_i = 0;
                self.min_energy = 0;
                self.min_duration = 0;
            }
        }
        if let Some((v_mv, i_ua, p_uw)) = reading {
            let v = if v_mv > 0 { v_mv as u32 } else { 0 };
            let i = if i_ua > 0 { i_ua as u32 } else { 0 };
            let p = if p_uw > 0 { p_uw as u32 } else { 0 };
            self.last_p = p_uw as i64;
            self.last_v = v_mv;
            self.last_i = i_ua;
            if second > self.last_printed && second > 0 {
                let e_pos: u128 = if self.energy > 0 { self.energy as u128 } else { 0 };
                let mwh = e_pos.saturating_mul(100) / 3_600_000_000u128;
                let wh = e_pos.saturating_mul(100) / 3_600_000_000_000u128;
                let pct = e_pos.saturating_mul(10_000) / 9_000_000_000_000u128;
                out.push(format!(
                    "{:02}{:02}{:02} E={:05}.{:02} ({:03}.{:02}) V={:02}.{:03} I={:04}.{:01} P={:05}.{:01} AA={:03}.{:02}",
                    core::cmp::min(second / 3600, 99),
                    (second % 3600) / 60,
                    second % 60,
                    core::cmp::min((mwh / 100) as u64, 99_999),
                    mwh % 100,
                    core::cmp::min((wh / 100) as u64, 999),
                    wh % 100,
                    (v / 1000) % 100,
                    v % 1000,
                    (i / 1000) % 10_000,
                    (i / 100) % 10,
                    (p / 1000) % 100_000,
                    (p / 100) % 10,
                    core::cmp::min((pct / 100) as u64, 999),
                    pct % 100
                ));
                self.last_printed = second;
            }
        }
        out
    }
}

fn turn(monitor: &mut Monitor, dt: u64, elapsed: u64, reading: Option<(i32, i32, i32)>) -> Vec<String> {
    let mut out = Vec::new();
    monitor.advance(dt);
    while let Some(m) = monitor.close_minute(elapsed) {
        out.push(format!(
            "{} V={}.{} I={}.{} AA={}.{}",
            text(&m.minute),
            text(&m.volts[..2]),
            text(&m.volts[2..]),
            text(&m.milliamps[..4]),
            text(&m.milliamps[4..]),
            text(&m.aa_percent[..3]),
            text(&m.aa_percent[3..])
        ));
    }
    if let Some((v_mv, i_ua, p_uw)) = reading {
        if let Some(s) = monitor.sample(v_mv, i_ua, p_uw, elapsed) {
            out.push(format!(
                "{} E={}.{} ({}.{}) V={}.{} I={}.{} P={}.{} AA={}.{}",
                text(&s.time),
                text(&s.milliwatt_hours[..5]),
                text(&s.milliwatt_hours[5..]),
                text(&s.watt_hours[..3]),
                text(&s.watt_hours[3..]),
                text(&s.volts[..2]),
                text(&s.volts[2..]),
                text(&s.milliamps[..4]),
                text(&s.milliamps[4..]),
                text(&s.milliwatts[..5]),
                text(&s.milliwatts[5..]),
                text(&s.aa_percent[..3]),
                text(&s.aa_percent[3..])
            ));
        }
    }
    out
}

fn agree(monitor: &Monitor, oracle: &Oracle) {
    assert_eq!(monitor.energy_uwms, oracle.energy);
    assert_eq!(monitor.last_p_uw, oracle.last_p);
    assert_eq!(monitor.last_v_mv, oracle.last_v);
    assert_eq!(monitor.last_i_ua, oracle.last_i);
    assert_eq!(monitor.allotted_ms, oracle.last_total);
    assert_eq!(monitor.window.v_mv_ms, oracle.min_v);
    assert_eq!(monitor.window.i_ua_ms, oracle.min_i);
    assert_eq!(monitor.window.energy_uwms, oracle.min_energy);
    assert_eq!(monitor.window.duration_ms, oracle.min_duration);
    assert_eq!(monitor.minute_count, oracle.minute_count);
    assert_eq!(monitor.last_printed_sec, oracle.last_printed);
}

#[test]
fn digits_of_fixed_width() {
    assert_eq!(text(&decimal::<5>(12345)), "12345");
    assert_eq!(text(&decimal::<5>(42)), "00042");
    assert_eq!(text(&decimal::<3>(98765)), "765");
    assert_eq!(text(&decimal::<1>(0)), "0");
    assert_eq!(text(&decimal::<20>(u64::MAX)), "18446744073709551615");
    assert_eq!(text(&decimal::<22>(u64::MAX)), "0018446744073709551615");
    assert_eq!(decimal::<0>(7).len(), 0);
}

#[test]
fn saturating_arithmetic_matches_the_machine() {
    let mut state: u64 = 31;
    let pick = |state: &mut u64| -> i64 {
        match next(state) % 5 {
            0 => i64::MAX - (next(state) % 3) as i64,
            1 => i64::MIN + (next(state) % 3) as i64,
            2 => (next(state) as i64) - 0x8000_0000,
            3 => ((next(state) as i64) << 32) | next(state) as i64,
            _ => (next(state) % 7) as i64 - 3,
        }
    };
    for _ in 0..200000 {
        let a = pick(&mut state);
        let b = pick(&mut state);
        assert_eq!(saturating_sum(a, b), a.saturating_add(b));
        assert_eq!(saturating_product(a, b), a.saturating_mul(b));
        let ms = ((next(&mut state) as u64) << 16) | (next(&mut state) % 65536) as u64;
        assert_eq!(integrate(a, b, ms), a.saturating_add(b.saturating_mul(ms as i64)));
        let unit = 1 + next(&mut state) as u128 * 1000;
        let factor = [100u128, 10_000, u128::MAX][(next(&mut state) % 3) as usize];
        let expected = if a > 0 { (a as u128).saturating_mul(factor) / unit } else { 0 };
        assert_eq!(scale(a, factor, unit), expected);
    }
    assert_eq!(time_step(5), 5);
    assert_eq!(time_step(u64::MAX), i64::MAX);
    assert_eq!(cap_whole(12345, 99, 1000), 12345);
    assert_eq!(cap_whole(123456, 99, 1000), 99456);
    assert_eq!(cap_whole(u128::MAX, 999, 100), 99900 + (u128::MAX % 100) as u64);
}

#[test]
fn mean_rounds_towards_zero() {
    assert_eq!(mean_of(7, 2), 3);
    assert_eq!(mean_of(-7, 2), -3);
    assert_eq!(mean_of(0, 5), 0);
    assert_eq!(mean_of(9, 0), 0);
    assert_eq!(mean_of(i64::MIN, 1), i32::MIN);
    assert_eq!(mean_of(i64::MAX, 1), i32::MAX);
    assert_eq!(mean_of(i64::MIN, u64::MAX), -1);
    assert_eq!(mean_of(5000 * 60_000, 60_000), 5000);
}

#[test]
fn a_new_monitor_is_at_rest() {
    let mut monitor = Monitor::new();
    let mut oracle = Oracle::new();
    agree(&monitor, &oracle);
    assert!(monitor.close_minute(0).is_none());
    agree(&monitor, &oracle);
    assert!(turn(&mut monitor, 999, 999, Some((5000, 1000, 5000))).is_empty());
    assert!(oracle.turn(999, 999, Some((5000, 1000, 5000))).is_empty());
    agree(&monitor, &oracle);
    assert_eq!(monitor.energy_uwms, 0);
    assert_eq!(monitor.window.duration_ms, 999);
    assert_eq!(monitor.last_p_uw, 5000);
}

#[test]
fn one_minute_at_a_steady_reading() {
    let mut monitor = Monitor::new();
    let mut lines = Vec::new();
    let mut elapsed = 0u64;
    lines.extend(turn(&mut monitor, 0, 0, Some((5000, 500_000, 2_500_000))));
    for _ in 0..120 {
        elapsed += 500;
        lines.extend(turn(&mut monitor, 500, elapsed, Some((5000, 500_000, 2_500_000))));
    }
    assert_eq!(monitor.energy_uwms, 2_500_000 * 60_000);
    assert_eq!(monitor.minute_count, 1);
    assert_eq!(lines.len(), 61);
    assert_eq!(lines[0], "000001 E=00000.69 (000.00) V=05.000 I=0500.0 P=02500.0 AA=000.02");
    assert_eq!(lines[59], "01 V=05.000 I=0500.0 AA=001.66");
    assert_eq!(lines[60], "000100 E=00041.66 (000.04) V=05.000 I=0500.0 P=02500.0 AA=001.66");
}

#[test]
fn a_long_gap_closes_every_minute_it_spans() {
    let mut monitor = Monitor::new();
    assert!(monitor.sample(3300, 20_000, 66_000, 0).is_none());
    monitor.advance(200_000);
    let mut closed = Vec::new();
    while let Some(m) = monitor.close_minute(200_000) {
        closed.push(text(&m.minute));
    }
    assert_eq!(closed, ["01", "02", "03"]);
    assert_eq!(monitor.allotted_ms, 200_000);
    assert_eq!(monitor.window.duration_ms, 20_000);
    assert_eq!(monitor.window.v_mv_ms, 3300 * 20_000);
    assert!(monitor.close_minute(200_000).is_none());
    assert!(monitor.close_minute(100).is_none());
    assert_eq!(monitor.allotted_ms, 200_000);
}

#[test]
fn report_fields_are_held_at_their_greatest() {
    let window = MinuteWindow {
        v_mv_ms: 123_456 * 60_000,
        i_ua_ms: 12_345_678 * 60_000,
        energy_uwms: i64::MAX,
        duration_ms: 60_000,
    };
    let m = Monitor::minute_report(window, 250);
    assert_eq!(text(&m.minute), "99");
    assert_eq!(text(&m.volts), "99456");
    assert_eq!(text(&m.milliamps), "99996");
    assert_eq!(text(&m.aa_percent), "99952");
    let s = Monitor::status_report(i64::MAX, 123_456, 12_345_678, 123_456_789, 100 * 3600 + 61);
    assert_eq!(text(&s.time), "990101");
    assert_eq!(text(&s.milliwatt_hours), "9999901");
    assert_eq!(text(&s.watt_hours), "99978");
    assert_eq!(text(&s.volts), "23456");
    assert_eq!(text(&s.milliamps), "23456");
    assert_eq!(text(&s.milliwatts), "234567");
    assert_eq!(text(&s.aa_percent), "99952");
    let s = Monitor::status_report(-5, -1, -1, -1, 59);
    assert_eq!(text(&s.time), "000059");
    assert_eq!(text(&s.milliwatt_hours), "0000000");
    assert_eq!(text(&s.volts), "00000");
    assert_eq!(text(&s.milliamps), "00000");
    assert_eq!(text(&s.milliwatts), "000000");
}

#[test]
fn monitor_matches_the_loop_written_out() {
    let mut state: u64 = 32;
    for round in 0..200 {
        let mut monitor = Monitor::new();
        let mut oracle = Oracle::new();
        let mut elapsed = 0u64;
        for _ in 0..400 {
            let dt = match (round + next(&mut state) as usize) % 8 {
                0 => 0,
                1 => (next(&mut state) % 200_000) as u64,
                2 => (next(&mut state) % 3) as u64 + 59_999,
                _ => 500 + (next(&mut state) % 3) as u64,
            };
            elapsed += dt;
            let reading = match next(&mut state) % 5 {
                0 => None,
                1 => Some((next(&mut state) as i32, next(&mut state) as i32, next(&mut state) as i32)),
                _ => Some((
                    (next(&mut state) % 33_000) as i32,
                    (next(&mut state) % 3_300_000) as i32 - 100_000,
                    (next(&mut state) % 99_000_000) as i32 - 1_000_000,
                )),
            };
            assert_eq!(turn(&mut monitor, dt, elapsed, reading), oracle.turn(dt, elapsed, reading));
            agree(&monitor, &oracle);
        }
    }
}
