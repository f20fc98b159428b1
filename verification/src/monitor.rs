//! The decisions of a sampling loop: energy integrated over time, averages
//! weighted by time for each minute, and the digits of what is shown.
//!
//! The loop itself, which reads the clock and the sensor and writes the
//! reports, is the caller's. Between two readings the last one is taken to
//! hold, also over turns in which the sensor had nothing new or could not
//! be read.
use crate::digits::{decimal, digit, digit_char};
use vstd::prelude::*;

verus! {

/// Milliseconds in a minute.
pub const MINUTE_MS: u64 = 60_000;

/// Microwatt-milliseconds in a milliwatt-hour.
pub const UWMS_PER_MWH: u128 = 3_600_000_000;

/// Microwatt-milliseconds in a watt-hour.
pub const UWMS_PER_WH: u128 = 3_600_000_000_000;

/// Microwatt-milliseconds that one AA cell holds: 2.5 watt-hours.
pub const UWMS_PER_AA: u128 = 9_000_000_000_000;

/// `x`, held within the range of `i64`.
pub open spec fn clamp_i64(x: int) -> int {
    if x < i64::MIN {
        i64::MIN as int
    } else if x > i64::MAX {
        i64::MAX as int
    } else {
        x
    }
}

/// `x`, held within the range of `i32`.
pub open spec fn clamp_i32(x: int) -> int {
    if x < i32::MIN {
        i32::MIN as int
    } else if x > i32::MAX {
        i32::MAX as int
    } else {
        x
    }
}

/// The smaller of two naturals.
pub open spec fn lesser(a: nat, b: nat) -> nat {
    if a <= b {
        a
    } else {
        b
    }
}

/// A rate held over a time, added to a total; the product and the sum each
/// held within the range of `i64`.
pub open spec fn integrated(total: int, rate: int, ms: nat) -> int {
    clamp_i64(total + clamp_i64(rate * clamp_i64(ms as int)))
}

/// `x * factor / unit` with the product held within the range of `u128`,
/// for what is above zero; zero for the rest.
pub open spec fn scaled(x: int, factor: nat, unit: nat) -> nat {
    if x <= 0 {
        0
    } else {
        (lesser(x as nat * factor, u128::MAX as nat) / unit) as nat
    }
}

/// A number of `scale` parts whose whole part is held at `cap`.
pub open spec fn capped(x: nat, cap: nat, scale: nat) -> nat {
    lesser(x / scale, cap) * scale + x % scale
}

/// The quotient of two integers, rounded towards zero.
pub open spec fn quotient_towards_zero(a: int, b: int) -> int {
    if a >= 0 {
        a / b
    } else {
        -((-a) / b)
    }
}

/// The sum of two `i64`, held within its range.
pub fn saturating_sum(a: i64, b: i64) -> (r: i64)
    ensures
        r == clamp_i64(a + b),
{
    let wide: i128 = a as i128 + b as i128;
    if wide > i64::MAX as i128 {
        i64::MAX
    } else if wide < i64::MIN as i128 {
        i64::MIN
    } else {
        wide as i64
    }
}

/// The product of two `i64`, held within its range.
pub fn saturating_product(a: i64, b: i64) -> (r: i64)
    ensures
        r == clamp_i64(a * b),
{
    assert(-0x4000_0000_0000_0000_0000_0000_0000_0000 <= a * b
        <= 0x4000_0000_0000_0000_0000_0000_0000_0000) by (nonlinear_arith)
        requires
            -0x8000_0000_0000_0000 <= a <= 0x7fff_ffff_ffff_ffff,
            -0x8000_0000_0000_0000 <= b <= 0x7fff_ffff_ffff_ffff,
    ;
    let wide: i128 = (a as i128) * (b as i128);
    if wide > i64::MAX as i128 {
        i64::MAX
    } else if wide < i64::MIN as i128 {
        i64::MIN
    } else {
        wide as i64
    }
}

/// A time as an `i64`, held at the greatest.
pub fn time_step(ms: u64) -> (r: i64)
    ensures
        r == clamp_i64(ms as int),
{
    if ms > i64::MAX as u64 {
        i64::MAX
    } else {
        ms as i64
    }
}

/// Over no time nothing is added.
pub proof fn lemma_nothing_integrated(total: int, rate: int)
    requires
        i64::MIN <= total <= i64::MAX,
    ensures
        integrated(total, rate, 0) == total,
{
    assert(rate * 0 == 0);
}

/// Adds a rate held over a time to a total.
pub fn integrate(total: i64, rate: i64, ms: u64) -> (r: i64)
    ensures
        r == integrated(total as int, rate as int, ms as nat),
{
    saturating_sum(total, saturating_product(rate, time_step(ms)))
}

/// `x * factor / unit` for what is above zero.
pub fn scale(x: i64, factor: u128, unit: u128) -> (r: u128)
    requires
        unit > 0,
    ensures
        r == scaled(x as int, factor as nat, unit as nat),
{
    if x <= 0 {
        0
    } else {
        let positive: u128 = x as u128;
        let product: u128 = match positive.checked_mul(factor) {
            Some(p) => p,
            None => u128::MAX,
        };
        product / unit
    }
}

/// A number of `scale` parts whose whole part is held at `cap`.
pub fn cap_whole(x: u128, cap: u64, scale: u64) -> (r: u64)
    requires
        scale > 0,
        cap * scale + scale <= u64::MAX,
    ensures
        r == capped(x as nat, cap as nat, scale as nat),
{
    let whole: u128 = x / (scale as u128);
    let part: u64 = (x % (scale as u128)) as u64;
    let held: u64 = if whole > cap as u128 {
        cap
    } else {
        whole as u64
    };
    assert(held * scale <= cap * scale) by (nonlinear_arith)
        requires
            held <= cap,
            scale > 0,
    ;
    held * scale + part
}

/// What is above zero of an `i32`.
pub fn above_zero(x: i32) -> (r: u32)
    ensures
        r == (if x > 0 {
            x as int
        } else {
            0
        }),
{
    if x > 0 {
        x as u32
    } else {
        0
    }
}

/// The sums of one minute, each reading weighted by the time it held.
#[derive(Clone, Copy, Debug)]
pub struct MinuteWindow {
    /// Millivolts times milliseconds.
    pub v_mv_ms: i64,
    /// Microamperes times milliseconds.
    pub i_ua_ms: i64,
    /// Microwatts times milliseconds.
    pub energy_uwms: i64,
    /// Milliseconds summed so far.
    pub duration_ms: u64,
}

/// The digits of the report that closes a minute.
#[derive(Clone, Copy, Debug)]
pub struct MinuteReport {
    /// Which minute, two digits, held at 99.
    pub minute: [u8; 2],
    /// The mean voltage in volts: two digits, held at 99, and three decimals.
    pub volts: [u8; 5],
    /// The mean current in milliamperes: four digits, held at 9999, and one
    /// decimal.
    pub milliamps: [u8; 5],
    /// The minute's energy as a percentage of an AA cell: three digits, held
    /// at 999, and two decimals.
    pub aa_percent: [u8; 5],
}

/// The digits of the line that a reading is shown with.
#[derive(Clone, Copy, Debug)]
pub struct StatusReport {
    /// Hours, held at 99, minutes and seconds since the start, two digits
    /// each.
    pub time: [u8; 6],
    /// The energy so far in milliwatt-hours: five digits, held at 99999, and
    /// two decimals.
    pub milliwatt_hours: [u8; 7],
    /// The energy so far in watt-hours: three digits, held at 999, and two
    /// decimals.
    pub watt_hours: [u8; 5],
    /// The voltage in volts: two digits and three decimals.
    pub volts: [u8; 5],
    /// The current in milliamperes: four digits and one decimal.
    pub milliamps: [u8; 5],
    /// The power in milliwatts: five digits and one decimal.
    pub milliwatts: [u8; 6],
    /// The energy so far as a percentage of an AA cell: three digits, held
    /// at 999, and two decimals.
    pub aa_percent: [u8; 5],
}

/// The last `n` decimal digits of `value` as characters, the one that counts
/// most first.
pub open spec fn digits_of(value: nat, n: nat) -> Seq<u8> {
    Seq::new(n, |i: int| digit_char(digit(value, (n - 1 - i) as nat)))
}

/// The mean of a window's sum over its duration, rounded towards zero and
/// held within the range of `i32`; zero for an empty window.
pub open spec fn window_mean(sum: int, duration_ms: nat) -> int {
    if duration_ms > 0 {
        clamp_i32(quotient_towards_zero(sum, clamp_i64(duration_ms as int)))
    } else {
        0
    }
}

/// What is above zero of an integer.
pub open spec fn positive_part(x: int) -> nat {
    if x > 0 {
        x as nat
    } else {
        0
    }
}

/// The time since the start as one number: hours, held at 99, then minutes
/// and seconds, two digits each.
pub open spec fn clock_number(seconds: nat) -> nat {
    lesser(seconds / 3600, 99) * 10000 + (seconds % 3600) / 60 * 100 + seconds % 60
}

/// The report that closes a minute, from the window's sums.
pub open spec fn minute_report_spec(window: MinuteWindow, minute_count: nat) -> MinuteReportView {
    let v_mv = positive_part(window_mean(window.v_mv_ms as int, window.duration_ms as nat));
    let i_ua = positive_part(window_mean(window.i_ua_ms as int, window.duration_ms as nat));
    MinuteReportView {
        minute: digits_of(lesser(minute_count, 99), 2),
        volts: digits_of(capped(v_mv, 99, 1000), 5),
        milliamps: digits_of(capped(i_ua / 100, 9999, 10), 5),
        aa_percent: digits_of(
            capped(scaled(window.energy_uwms as int, 10_000, UWMS_PER_AA as nat), 999, 100),
            5,
        ),
    }
}

/// The line that a reading is shown with.
pub open spec fn status_report_spec(
    energy_uwms: int,
    v_mv: int,
    i_ua: int,
    p_uw: int,
    seconds: nat,
) -> StatusReportView {
    StatusReportView {
        time: digits_of(clock_number(seconds), 6),
        milliwatt_hours: digits_of(
            capped(scaled(energy_uwms, 100, UWMS_PER_MWH as nat), 99_999, 100),
            7,
        ),
        watt_hours: digits_of(capped(scaled(energy_uwms, 100, UWMS_PER_WH as nat), 999, 100), 5),
        volts: digits_of(positive_part(v_mv), 5),
        milliamps: digits_of(positive_part(i_ua) / 100, 5),
        milliwatts: digits_of(positive_part(p_uw) / 100, 6),
        aa_percent: digits_of(
            capped(scaled(energy_uwms, 10_000, UWMS_PER_AA as nat), 999, 100),
            5,
        ),
    }
}

/// A minute's report as sequences of characters.
pub struct MinuteReportView {
    pub minute: Seq<u8>,
    pub volts: Seq<u8>,
    pub milliamps: Seq<u8>,
    pub aa_percent: Seq<u8>,
}

/// A reading's report as sequences of characters.
pub struct StatusReportView {
    pub time: Seq<u8>,
    pub milliwatt_hours: Seq<u8>,
    pub watt_hours: Seq<u8>,
    pub volts: Seq<u8>,
    pub milliamps: Seq<u8>,
    pub milliwatts: Seq<u8>,
    pub aa_percent: Seq<u8>,
}

impl View for MinuteReport {
    type V = MinuteReportView;

    open spec fn view(&self) -> MinuteReportView {
        MinuteReportView {
            minute: self.minute@,
            volts: self.volts@,
            milliamps: self.milliamps@,
            aa_percent: self.aa_percent@,
        }
    }
}

impl View for StatusReport {
    type V = StatusReportView;

    open spec fn view(&self) -> StatusReportView {
        StatusReportView {
            time: self.time@,
            milliwatt_hours: self.milliwatt_hours@,
            watt_hours: self.watt_hours@,
            volts: self.volts@,
            milliamps: self.milliamps@,
            milliwatts: self.milliwatts@,
            aa_percent: self.aa_percent@,
        }
    }
}

/// The digits of a value.
fn digits<const N: usize>(value: u64) -> (r: [u8; N])
    ensures
        r@ == digits_of(value as nat, N as nat),
{
    let r: [u8; N] = decimal::<N>(value);
    assert(r@ =~= digits_of(value as nat, N as nat));
    r
}

/// The mean of a window's sum over its duration.
pub fn mean_of(sum: i64, duration_ms: u64) -> (r: i32)
    ensures
        r == window_mean(sum as int, duration_ms as nat),
{
    if duration_ms > 0 {
        let by: i128 = time_step(duration_ms) as i128;
        let mean: i128 = if sum >= 0 {
            (sum as i128) / by
        } else {
            -((-(sum as i128)) / by)
        };
        if mean > i32::MAX as i128 {
            i32::MAX
        } else if mean < i32::MIN as i128 {
            i32::MIN
        } else {
            mean as i32
        }
    } else {
        0
    }
}

/// The state of the loop between two turns.
#[derive(Clone, Copy, Debug)]
pub struct Monitor {
    /// The energy since the start, in microwatt-milliseconds.
    pub energy_uwms: i64,
    /// The last reading of the power, in microwatts.
    pub last_p_uw: i64,
    /// The last reading of the voltage, in millivolts.
    pub last_v_mv: i32,
    /// The last reading of the current, in microamperes.
    pub last_i_ua: i32,
    /// The time since the start that the minutes have taken in, in
    /// milliseconds.
    pub allotted_ms: u64,
    /// The sums of the minute that is open.
    pub window: MinuteWindow,
    /// The minutes closed so far.
    pub minute_count: u64,
    /// The second in which a reading was last shown.
    pub last_printed_sec: u64,
}

/// The time from `allotted_ms` to the end of its minute or to `elapsed_ms`,
/// whichever comes first: the next stretch that a minute takes in.
pub open spec fn next_stretch(allotted_ms: nat, elapsed_ms: nat) -> nat {
    if elapsed_ms <= allotted_ms {
        0
    } else {
        lesser(
            (elapsed_ms - allotted_ms) as nat,
            (MINUTE_MS - allotted_ms % (MINUTE_MS as nat)) as nat,
        )
    }
}

/// A window after the last readings held for one more stretch.
pub open spec fn window_after(window: MinuteWindow, m: Monitor, stretch: nat) -> MinuteWindow {
    MinuteWindow {
        v_mv_ms: integrated(window.v_mv_ms as int, m.last_v_mv as int, stretch) as i64,
        i_ua_ms: integrated(window.i_ua_ms as int, m.last_i_ua as int, stretch) as i64,
        energy_uwms: integrated(window.energy_uwms as int, m.last_p_uw as int, stretch) as i64,
        duration_ms: lesser(window.duration_ms as nat + stretch, u64::MAX as nat) as u64,
    }
}

/// The window before a minute's first stretch.
pub open spec fn empty_window() -> MinuteWindow {
    MinuteWindow { v_mv_ms: 0, i_ua_ms: 0, energy_uwms: 0, duration_ms: 0 }
}

impl Monitor {
    /// The state at the start.
    pub fn new() -> (r: Monitor)
        ensures
            r == (Monitor {
                energy_uwms: 0,
                last_p_uw: 0,
                last_v_mv: 0,
                last_i_ua: 0,
                allotted_ms: 0,
                window: empty_window(),
                minute_count: 0,
                last_printed_sec: 0,
            }),
    {
        Monitor {
            energy_uwms: 0,
            last_p_uw: 0,
            last_v_mv: 0,
            last_i_ua: 0,
            allotted_ms: 0,
            window: MinuteWindow { v_mv_ms: 0, i_ua_ms: 0, energy_uwms: 0, duration_ms: 0 },
            minute_count: 0,
            last_printed_sec: 0,
        }
    }

    /// Adds the last reading of the power, held over the `dt_ms`
    /// milliseconds since the turn before, to the energy.
    pub fn advance(&mut self, dt_ms: u64)
        ensures
            *final(self) == (Monitor {
                energy_uwms: integrated(
                    old(self).energy_uwms as int,
                    old(self).last_p_uw as int,
                    dt_ms as nat,
                ) as i64,
                ..*old(self)
            }),
    {
        self.energy_uwms = integrate(self.energy_uwms, self.last_p_uw, dt_ms);
    }

    /// Lets the open minute take in the time up to `elapsed_ms` milliseconds
    /// since the start, or up to the end of the minute where that comes
    /// first. Where the minute ends, it is closed: the result is its report,
    /// and the sums start again from zero. The caller repeats the call until
    /// it returns `None`.
    pub fn close_minute(&mut self, elapsed_ms: u64) -> (r: Option<MinuteReport>)
        ensures
            ({
                let stretch = next_stretch(old(self).allotted_ms as nat, elapsed_ms as nat);
                let allotted = old(self).allotted_ms + stretch;
                let closes = stretch > 0 && allotted % (MINUTE_MS as int) == 0;
                let window = window_after(old(self).window, *old(self), stretch);
                let count = lesser(old(self).minute_count as nat + 1, u64::MAX as nat);
                &&& final(self).allotted_ms == allotted
                &&& final(self).energy_uwms == old(self).energy_uwms
                &&& final(self).last_p_uw == old(self).last_p_uw
                &&& final(self).last_v_mv == old(self).last_v_mv
                &&& final(self).last_i_ua == old(self).last_i_ua
                &&& final(self).last_printed_sec == old(self).last_printed_sec
                &&& r is Some <==> closes
                &&& closes ==> final(self).window == empty_window() && final(self).minute_count
                    == count && r->0@ == minute_report_spec(window, count)
                &&& !closes ==> final(self).window == window && final(self).minute_count == old(
                    self,
                ).minute_count
            }),
            elapsed_ms <= old(self).allotted_ms ==> *final(self) == *old(self),
            old(self).allotted_ms <= elapsed_ms ==> final(self).allotted_ms <= elapsed_ms,
            r is None ==> final(self).allotted_ms >= elapsed_ms,
            r is Some ==> final(self).allotted_ms > old(self).allotted_ms,
    {
        if elapsed_ms <= self.allotted_ms {
            proof {
                lemma_nothing_integrated(self.window.v_mv_ms as int, self.last_v_mv as int);
                lemma_nothing_integrated(self.window.i_ua_ms as int, self.last_i_ua as int);
                lemma_nothing_integrated(self.window.energy_uwms as int, self.last_p_uw as int);
            }
            return None;
        }
        let remain: u64 = elapsed_ms - self.allotted_ms;
        let to_boundary: u64 = MINUTE_MS - self.allotted_ms % MINUTE_MS;
        let stretch: u64 = if remain < to_boundary {
            remain
        } else {
            to_boundary
        };
        self.window.energy_uwms = integrate(self.window.energy_uwms, self.last_p_uw, stretch);
        self.window.v_mv_ms = integrate(self.window.v_mv_ms, self.last_v_mv as i64, stretch);
        self.window.i_ua_ms = integrate(self.window.i_ua_ms, self.last_i_ua as i64, stretch);
        self.window.duration_ms = self.window.duration_ms.saturating_add(stretch);
        self.allotted_ms = self.allotted_ms + stretch;
        if self.allotted_ms % MINUTE_MS == 0 {
            self.minute_count = self.minute_count.saturating_add(1);
            let report: MinuteReport = Self::minute_report(self.window, self.minute_count);
            self.window = MinuteWindow { v_mv_ms: 0, i_ua_ms: 0, energy_uwms: 0, duration_ms: 0 };
            Some(report)
        } else {
            None
        }
    }

    /// The report that closes a minute.
    pub fn minute_report(window: MinuteWindow, minute_count: u64) -> (r: MinuteReport)
        ensures
            r@ == minute_report_spec(window, minute_count as nat),
    {
        let v_mv: u32 = above_zero(mean_of(window.v_mv_ms, window.duration_ms));
        let i_ua: u32 = above_zero(mean_of(window.i_ua_ms, window.duration_ms));
        let share: u128 = scale(window.energy_uwms, 10_000, UWMS_PER_AA);
        MinuteReport {
            minute: digits::<2>(
                if minute_count < 99 {
                    minute_count
                } else {
                    99
                },
            ),
            volts: digits::<5>(cap_whole(v_mv as u128, 99, 1000)),
            milliamps: digits::<5>(cap_whole((i_ua / 100) as u128, 9999, 10)),
            aa_percent: digits::<5>(cap_whole(share, 999, 100)),
        }
    }

    /// Takes a reading: millivolts, microamperes and microwatts, at
    /// `elapsed_ms` milliseconds since the start. The reading holds from now
    /// on. Where a whole second has begun since the last report, and it is
    /// not the first, the result is the line to show this reading with.
    pub fn sample(&mut self, v_mv: i32, i_ua: i32, p_uw: i32, elapsed_ms: u64) -> (r: Option<
        StatusReport,
    >)
        ensures
            ({
                let seconds = elapsed_ms / 1000;
                let due = seconds > old(self).last_printed_sec && seconds > 0;
                &&& *final(self) == (Monitor {
                    last_p_uw: p_uw as i64,
                    last_v_mv: v_mv,
                    last_i_ua: i_ua,
                    last_printed_sec: if due {
                        seconds
                    } else {
                        old(self).last_printed_sec
                    },
                    ..*old(self)
                })
                &&& r is Some <==> due
                &&& due ==> r->0@ == status_report_spec(
                    old(self).energy_uwms as int,
                    v_mv as int,
                    i_ua as int,
                    p_uw as int,
                    seconds as nat,
                )
            }),
    {
        self.last_p_uw = p_uw as i64;
        self.last_v_mv = v_mv;
        self.last_i_ua = i_ua;
        let seconds: u64 = elapsed_ms / 1000;
        if seconds > self.last_printed_sec && seconds > 0 {
            self.last_printed_sec = seconds;
            Some(Self::status_report(self.energy_uwms, v_mv, i_ua, p_uw, seconds))
        } else {
            None
        }
    }

    /// The line that a reading is shown with.
    pub fn status_report(energy_uwms: i64, v_mv: i32, i_ua: i32, p_uw: i32, seconds: u64) -> (r:
        StatusReport)
        ensures
            r@ == status_report_spec(
                energy_uwms as int,
                v_mv as int,
                i_ua as int,
                p_uw as int,
                seconds as nat,
            ),
    {
        let hours: u64 = if seconds / 3600 < 99 {
            seconds / 3600
        } else {
            99
        };
        let clock: u64 = hours * 10000 + (seconds % 3600) / 60 * 100 + seconds % 60;
        StatusReport {
            time: digits::<6>(clock),
            milliwatt_hours: digits::<7>(
                cap_whole(scale(energy_uwms, 100, UWMS_PER_MWH), 99_999, 100),
            ),
            watt_hours: digits::<5>(cap_whole(scale(energy_uwms, 100, UWMS_PER_WH), 999, 100)),
            volts: digits::<5>(above_zero(v_mv) as u64),
            milliamps: digits::<5>((above_zero(i_ua) / 100) as u64),
            milliwatts: digits::<6>((above_zero(p_uw) / 100) as u64),
            aa_percent: digits::<5>(cap_whole(scale(energy_uwms, 10_000, UWMS_PER_AA), 999, 100)),
        }
    }
}

} // verus!
