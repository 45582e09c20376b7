//! Power configuration.
//!
//! The integer side of the firmware's power controllers is decided here. Floating-point results are
//! passed in as the bit patterns of single precision numbers.
use crate::bytes;
use crate::bytes::{copy_in, fill, w16, w32, w64, w8, Field};
use crate::error::Error;
use crate::fw::{put64, MainConfig, BUNDLE_ADDRESS, BUNDLE_SIZE, MAIN_OFFSET};
use crate::platform::{put32, zeroed, Platform, ONE_POINT_ZERO_TWO};
use vstd::prelude::*;

verus! {

/// The words of the power properties that the description of the board has.
pub struct PowerWords {
    pub pwr_min_duty_cycle: Option<u32>,
    pub pwr_integral_min_clamp: Option<u32>,
    pub pwr_filter_time_constant: Option<u32>,
    pub pwr_integral_gain: Option<u32>,
    pub pwr_proportional_gain: Option<u32>,
    pub ppm_filter_time_constant_ms: Option<u32>,
    pub ppm_ki: Option<u32>,
    pub ppm_kp: Option<u32>,
    pub perf_base_pstate: Option<u32>,
    pub perf_tgt_utilization: Option<u32>,
    pub perf_dz: Option<u32>,
    pub perf_boost_min_util: Option<u32>,
    pub perf_integral_min_clamp: Option<u32>,
    pub perf_filter_time_constant: Option<u32>,
    pub perf_filter_time_constant2: Option<u32>,
    pub perf_integral_gain: Option<u32>,
    pub perf_integral_gain2: Option<u32>,
    pub perf_proportional_gain: Option<u32>,
    pub perf_proportional_gain2: Option<u32>,
    pub perf_boost_ce_step: Option<u32>,
    pub perf_reset_iters: Option<u32>,
    pub perf_filter_drop_threshold: Option<u32>,
    pub se_filter_time_constant: Option<u32>,
    pub se_filter_time_constant_1: Option<u32>,
    pub se_ki: Option<u32>,
    pub se_ki_1: Option<u32>,
    pub se_kp: Option<u32>,
    pub se_kp_1: Option<u32>,
    pub se_inactive_threshold: Option<u32>,
    pub se_engagement_criteria: Option<u32>,
    pub se_engagement_tolerance: Option<u32>,
    pub se_reset_tolerance: Option<u32>,
    pub se_reset_criteria: Option<u32>,
    pub avg_power_target_filter_tc: Option<u32>,
    pub avg_power_ki_only: Option<u32>,
    pub avg_power_ki: Option<u32>,
    pub avg_power_min_duty_cycle: Option<u32>,
    pub avg_power_kp: Option<u32>,
    pub avg_power_filter_tc_ms: Option<u32>,
    pub avg_power_input_filter_tc: Option<u32>,
    pub fast_die0_release_temp: Option<u32>,
    pub fast_die0_prop_tgt_delta: Option<u32>,
    pub fast_die0_integral_gain: Option<u32>,
    pub fast_die0_proportional_gain: Option<u32>,
    pub turbo_controller_input: Option<u32>,
}

/// A filter, without its floating-point coefficients.
#[derive(Clone, Copy, Debug, PartialEq, Eq)]
pub struct Filter {
    pub count: u32,
    pub count_x4: u32,
    pub duration: u32,
    pub clocks: u64,
}

/// The integers of the power configuration, and the gains that need no arithmetic.
pub struct PowerPlan {
    pub duty: u32,
    pub minimum: u32,
    pub pwr_count: u32,
    pub pwr_integral_gain: u32,
    pub pwr_proportional_gain: u32,
    pub ppm_ki: u32,
    pub ppm_kp: u32,
    pub dead_zone: u32,
    pub boost: u32,
    pub integral_minimum: u32,
    pub perf_count: u32,
    pub perf_count2: u32,
    pub perf_integral_gain: u32,
    pub perf_integral_gain2: u32,
    pub perf_proportional_gain: u32,
    pub perf_proportional_gain2: u32,
    pub boost_step: u32,
    pub reset_iters: u32,
    pub drop_threshold: u32,
    pub se_ki: u32,
    pub se_ki_1: u32,
    pub se_kp: u32,
    pub se_kp_1: u32,
    pub inactive_threshold: u32,
    pub engagement_criteria: u32,
    pub engagement_tolerance: u32,
    pub reset_tolerance: u32,
    pub reset_criteria: u32,
    pub avg_duty: u32,
    pub avg_kp: u32,
    pub release: u32,
    pub delta: u32,
    pub fast_ki: u32,
    pub fast_kp: u32,
    pub micros: u32,
    pub frames: u32,
    pub base_scaled: u32,
    pub target: u32,
    pub ppm: Filter,
    pub se: Filter,
    pub se_1: Filter,
    pub average_target: Filter,
    pub average: Filter,
    /// The integral gain of the average power controller.
    pub avg_ki: u32,
    /// Whether that gain is multiplied by the sample period.
    pub avg_ki_scaled: bool,
    pub turbo: Option<u32>,
}

/// The two coefficients of a filter over some number of samples: one less than the number over the
/// number, and one over the number.
#[derive(Clone, Copy, Debug, PartialEq, Eq)]
pub struct Coefficients {
    pub alpha: u32,
    pub inverse: u32,
}

/// The floating-point results of the power configuration, as bit patterns.
pub struct PowerFloats {
    /// The minimum of the integral term.
    pub minimum: u32,
    /// The maximum power.
    pub maximum: u32,
    /// Minus one thousand over the maximum power.
    pub slope: u32,
    /// The minimum duty cycle.
    pub duty: u32,
    pub pwr: Coefficients,
    /// The coefficients of five samples.
    pub five: Coefficients,
    pub ppm: Coefficients,
    /// The integral gain of the peak power controller times the sample period.
    pub ppm_ki: u32,
    pub perf: Coefficients,
    pub perf2: Coefficients,
    /// The minimum of the integral term of the performance controller.
    pub integral_minimum: u32,
    /// The distance of the base state to the highest one, over ninety-five.
    pub headroom: u32,
    pub se: Coefficients,
    pub se_1: Coefficients,
    /// The integral gains of the shader engine's controller times the sample period.
    pub se_ki: u32,
    pub se_ki_1: u32,
    /// The sample period in microseconds.
    pub micros: u32,
    pub average_target: Coefficients,
    pub average: Coefficients,
    /// The integral gain of the average power controller, scaled where the plan asks for it.
    pub avg_ki: u32,
    /// One hundred times the release temperature, where it is a word.
    pub release: Option<u32>,
    /// One hundred times the target distance, where it is a word.
    pub delta: Option<u32>,
    /// The integral gain of the temperature controller times the exact sample period.
    pub fast_ki: u32,
    /// The coefficients of two hundred samples.
    pub turbo: Coefficients,
    /// The coefficients of thirty-two samples.
    pub last: Coefficients,
}

/// The constants of the turbo controller.
pub struct Turbo {
    pub kp: u32,
    pub ki: u32,
    pub target: u32,
    pub delta: u32,
    pub threshold: u32,
}

/// A word, or its default.
#[verifier::allow_in_spec]
pub fn or(word: Option<u32>, default: u32) -> u32
    returns
        (match word {
            Some(value) => value,
            None => default,
        }),
{
    match word {
        Some(value) => value,
        None => default,
    }
}

/// A truth value as a byte.
#[verifier::allow_in_spec]
pub fn low_flag(set: bool) -> u8
    returns
        (if set {
            1u8
        } else {
            0u8
        }),
{
    if set {
        1
    } else {
        0
    }
}

/// Whether a bit pattern is a finite number.
pub open spec fn finite(value: u64) -> bool {
    (value / 0x80_0000) % 0x100 != 0xff
}

/// Whether all fields hold finite numbers.
pub open spec fn all_finite(fields: Seq<Field>) -> bool {
    forall|k: int| 0 <= k < fields.len() ==> finite((#[trigger] fields[k]).value)
}

/// Whether a filter over `count` samples of `period` milliseconds can be configured, where the
/// description asks for a filter of `request` milliseconds.
pub open spec fn filter_ok(count: u32, period: u32, request: Option<u32>) -> bool {
    &&& count > 0
    &&& count * 4 <= u32::MAX
    &&& count * period * 24000 <= u32::MAX
    &&& request matches Some(ms) ==> period > 0 && ms as int / period as int == count
}

/// The integers of a filter.
pub fn filter(count: u32, period: u32, request: Option<u32>) -> (out: Result<Filter, Error>)
    ensures
        match out {
            Err(e) => e == Error::EINVAL && !filter_ok(count, period, request),
            Ok(filter) => {
                &&& filter_ok(count, period, request)
                &&& filter.count == count
                &&& filter.count_x4 == count * 4
                &&& filter.duration == match request {
                    Some(ms) => ms as int,
                    None => count * period,
                }
                &&& filter.clocks == count * period * 24000
            },
        },
{
    if count == 0 {
        return Err(Error::EINVAL);
    }
    let count_x4: u32 = match count.checked_mul(4) {
        None => {
            return Err(Error::EINVAL);
        },
        Some(count_x4) => count_x4,
    };
    let duration: u32 = match count.checked_mul(period) {
        None => {
            assert(count * period <= count * period * 24000) by (nonlinear_arith);
            return Err(Error::EINVAL);
        },
        Some(duration) => duration,
    };
    let clocks: u32 = match duration.checked_mul(24000) {
        None => {
            return Err(Error::EINVAL);
        },
        Some(clocks) => clocks,
    };
    match request {
        None => Ok(Filter { count, count_x4, duration, clocks: clocks as u64 }),
        Some(ms) => {
            if period == 0 || ms / period != count {
                return Err(Error::EINVAL);
            }
            Ok(Filter { count, count_x4, duration: ms, clocks: clocks as u64 })
        },
    }
}

/// The constants of the turbo controller for an input.
#[verifier::allow_in_spec]
pub fn turbo_of(input: Option<u32>) -> Turbo
    returns
        (if input == Some(0u32) {
            Turbo { kp: 0x4396_0000, ki: 0x3fa6_6666, target: 9600, delta: 300, threshold: 0 }
        } else if input == Some(1u32) {
            Turbo { kp: 0x437a_0000, ki: 0x3f93_3333, target: 0, delta: 0, threshold: 700 }
        } else {
            Turbo { kp: 0x437a_0000, ki: 0x3f93_3333, target: 10150, delta: 0, threshold: 700 }
        }),
{
    match input {
        Some(0) => Turbo { kp: 0x4396_0000, ki: 0x3fa6_6666, target: 9600, delta: 300, threshold: 0 },
        Some(1) => Turbo { kp: 0x437a_0000, ki: 0x3f93_3333, target: 0, delta: 0, threshold: 700 },
        _ => Turbo { kp: 0x437a_0000, ki: 0x3f93_3333, target: 10150, delta: 0, threshold: 700 },
    }
}

/// The samples of the filter of the average power controller.
pub open spec fn average_count(words: PowerWords, period_ms: u32) -> u32 {
    match words.avg_power_filter_tc_ms {
        Some(ms) => ms / period_ms,
        None => or(words.avg_power_input_filter_tc, 248u32 / period_ms),
    }
}

/// Whether the integers of a power configuration are accepted. The clocks of a sample period fit in a
/// word.
pub open spec fn words_ok(words: PowerWords, maximum_power: u32, period_ms: u32) -> bool {
    let ppm_ms = or(words.ppm_filter_time_constant_ms, 16);
    let utilization = or(words.perf_tgt_utilization, 85);
    let base = or(words.perf_base_pstate, 1);
    &&& 0 < period_ms <= 178_956
    &&& or(words.pwr_min_duty_cycle, 40) <= 1000
    &&& or(words.pwr_integral_min_clamp, 0) <= maximum_power
    &&& or(words.pwr_filter_time_constant, 313) > 0
    &&& filter_ok(ppm_ms / period_ms, period_ms, Some(ppm_ms))
    &&& 0 < base < 11
    &&& utilization <= 100
    &&& or(words.perf_dz, 0) <= utilization
    &&& or(words.perf_boost_min_util, 95) <= 100
    &&& or(words.perf_integral_min_clamp, 0) <= 95
    &&& or(words.perf_filter_time_constant, 5) > 0
    &&& or(words.perf_filter_time_constant2, 200) > 0
    &&& filter_ok(or(words.se_filter_time_constant, 9), period_ms, None)
    &&& filter_ok(or(words.se_filter_time_constant_1, 3), period_ms, None)
    &&& filter_ok(or(words.avg_power_target_filter_tc, 1), period_ms, None)
    &&& or(words.avg_power_min_duty_cycle, 40) <= 1000
    &&& filter_ok(average_count(words, period_ms), period_ms, words.avg_power_filter_tc_ms)
    &&& or(words.fast_die0_release_temp, 80) <= 0xffff_ffffu32 / 100u32
    &&& or(words.fast_die0_prop_tgt_delta, 0) <= 0xffff_ffffu32 / 100u32
}

/// Whether a filter has the integers of a number of samples.
pub open spec fn is_filter(filter: Filter, count: u32, period: u32, request: Option<u32>) -> bool {
    &&& filter.count == count
    &&& filter.count_x4 == count * 4
    &&& filter.duration == match request {
        Some(ms) => ms as int,
        None => count * period,
    }
    &&& filter.clocks == count * period * 24000
}

impl PowerPlan {
    /// Whether the plan is the one for the words of a board.
    pub open spec fn reads(self, words: PowerWords, period_ms: u32) -> bool {
        let ppm_ms = or(words.ppm_filter_time_constant_ms, 16);
        &&& self.duty == or(words.pwr_min_duty_cycle, 40)
        &&& self.minimum == or(words.pwr_integral_min_clamp, 0)
        &&& self.pwr_count == or(words.pwr_filter_time_constant, 313)
        &&& self.pwr_integral_gain == or(words.pwr_integral_gain, 0x3ca5_9586)
        &&& self.pwr_proportional_gain == or(words.pwr_proportional_gain, 0x40a9_0fdb)
        &&& self.ppm_ki == or(words.ppm_ki, 0x4316_0000)
        &&& self.ppm_kp == or(words.ppm_kp, 0x3e80_0000)
        &&& self.dead_zone == or(words.perf_dz, 0)
        &&& self.boost == or(words.perf_boost_min_util, 95)
        &&& self.integral_minimum == or(words.perf_integral_min_clamp, 0)
        &&& self.perf_count == or(words.perf_filter_time_constant, 5)
        &&& self.perf_count2 == or(words.perf_filter_time_constant2, 200)
        &&& self.perf_integral_gain == or(words.perf_integral_gain, 0x3f4c_28f6)
        &&& self.perf_integral_gain2 == or(words.perf_integral_gain2, 0x3f4c_28f6)
        &&& self.perf_proportional_gain == or(words.perf_proportional_gain, 0x40ac_cccd)
        &&& self.perf_proportional_gain2 == or(words.perf_proportional_gain2, 0x40ac_cccd)
        &&& self.boost_step == or(words.perf_boost_ce_step, 50)
        &&& self.reset_iters == or(words.perf_reset_iters, 6)
        &&& self.drop_threshold == or(words.perf_filter_drop_threshold, 0)
        &&& self.se_ki == or(words.se_ki, 0xc248_0000)
        &&& self.se_ki_1 == or(words.se_ki_1, 0xc2c8_0000)
        &&& self.se_kp == or(words.se_kp, 0xc0a0_0000)
        &&& self.se_kp_1 == or(words.se_kp_1, 0xc0a0_0000)
        &&& self.inactive_threshold == or(words.se_inactive_threshold, 2500)
        &&& self.engagement_criteria == or(words.se_engagement_criteria, 600)
        &&& self.engagement_tolerance == or(words.se_engagement_tolerance, 2)
        &&& self.reset_tolerance == or(words.se_reset_tolerance, 4)
        &&& self.reset_criteria == or(words.se_reset_criteria, 50)
        &&& self.avg_duty == or(words.avg_power_min_duty_cycle, 40)
        &&& self.avg_kp == or(words.avg_power_kp, 0x401a_e148)
        &&& self.release == or(words.fast_die0_release_temp, 80)
        &&& self.delta == or(words.fast_die0_prop_tgt_delta, 0)
        &&& self.fast_ki == or(words.fast_die0_integral_gain, 0x4348_0000)
        &&& self.fast_kp == or(words.fast_die0_proportional_gain, 0x42f0_0000)
        &&& self.micros == period_ms * 1000
        &&& self.frames == (33 + period_ms / 2) / period_ms as int
        &&& self.base_scaled == 100 * or(words.perf_base_pstate, 1)
        &&& self.target == or(words.perf_tgt_utilization, 85) - or(words.perf_dz, 0)
        &&& is_filter(self.ppm, ppm_ms / period_ms, period_ms, Some(ppm_ms))
        &&& is_filter(self.se, or(words.se_filter_time_constant, 9), period_ms, None)
        &&& is_filter(self.se_1, or(words.se_filter_time_constant_1, 3), period_ms, None)
        &&& is_filter(self.average_target, or(words.avg_power_target_filter_tc, 1), period_ms, None)
        &&& is_filter(
            self.average,
            average_count(words, period_ms),
            period_ms,
            words.avg_power_filter_tc_ms,
        )
        &&& self.avg_ki == or(words.avg_power_ki_only, or(words.avg_power_ki, 0x4187_0000))
        &&& self.avg_ki_scaled == (words.avg_power_ki_only is Some || words.avg_power_ki is None)
        &&& self.turbo == words.turbo_controller_input
    }

    /// The integers of the power configuration of a board.
    pub fn new(words: &PowerWords, maximum_power: u32, period_ms: u32) -> (out: Result<Self, Error>)
        ensures
            match out {
                Ok(plan) => words_ok(*words, maximum_power, period_ms) && plan.reads(
                    *words,
                    period_ms,
                ),
                Err(e) => e == Error::EINVAL && !words_ok(*words, maximum_power, period_ms),
            },
    {
        if period_ms == 0 || period_ms > 178_956 {
            return Err(Error::EINVAL);
        }
        let ppm_ms: u32 = or(words.ppm_filter_time_constant_ms, 16);
        let utilization: u32 = or(words.perf_tgt_utilization, 85);
        let base: u32 = or(words.perf_base_pstate, 1);
        let dead_zone: u32 = or(words.perf_dz, 0);
        if or(words.pwr_min_duty_cycle, 40) > 1000 || or(words.pwr_integral_min_clamp, 0) > maximum_power
            || or(words.pwr_filter_time_constant, 313) == 0 || base == 0 || base >= 11 || utilization > 100
            || dead_zone > utilization || or(words.perf_boost_min_util, 95) > 100
            || or(words.perf_integral_min_clamp, 0) > 95
            || or(words.perf_filter_time_constant, 5) == 0
            || or(words.perf_filter_time_constant2, 200) == 0
            || or(words.avg_power_min_duty_cycle, 40) > 1000
            || or(words.fast_die0_release_temp, 80) > 0xffff_ffffu32 / 100u32
            || or(words.fast_die0_prop_tgt_delta, 0) > 0xffff_ffffu32 / 100u32 {
            return Err(Error::EINVAL);
        }
        let average_count: u32 = match words.avg_power_filter_tc_ms {
            Some(ms) => ms / period_ms,
            None => or(words.avg_power_input_filter_tc, 248u32 / period_ms),
        };
        let ppm: Filter = match filter(ppm_ms / period_ms, period_ms, Some(ppm_ms)) {
            Err(e) => {
                return Err(e);
            },
            Ok(filter) => filter,
        };
        let se: Filter = match filter(or(words.se_filter_time_constant, 9), period_ms, None) {
            Err(e) => {
                return Err(e);
            },
            Ok(filter) => filter,
        };
        let se_1: Filter = match filter(or(words.se_filter_time_constant_1, 3), period_ms, None) {
            Err(e) => {
                return Err(e);
            },
            Ok(filter) => filter,
        };
        let average_target: Filter = match filter(or(words.avg_power_target_filter_tc, 1), period_ms, None) {
            Err(e) => {
                return Err(e);
            },
            Ok(filter) => filter,
        };
        let average: Filter = match filter(average_count, period_ms, words.avg_power_filter_tc_ms) {
            Err(e) => {
                return Err(e);
            },
            Ok(filter) => filter,
        };
        Ok(
            PowerPlan {
                duty: or(words.pwr_min_duty_cycle, 40),
                minimum: or(words.pwr_integral_min_clamp, 0),
                pwr_count: or(words.pwr_filter_time_constant, 313),
                pwr_integral_gain: or(words.pwr_integral_gain, 0x3ca5_9586),
                pwr_proportional_gain: or(words.pwr_proportional_gain, 0x40a9_0fdb),
                ppm_ki: or(words.ppm_ki, 0x4316_0000),
                ppm_kp: or(words.ppm_kp, 0x3e80_0000),
                dead_zone: or(words.perf_dz, 0),
                boost: or(words.perf_boost_min_util, 95),
                integral_minimum: or(words.perf_integral_min_clamp, 0),
                perf_count: or(words.perf_filter_time_constant, 5),
                perf_count2: or(words.perf_filter_time_constant2, 200),
                perf_integral_gain: or(words.perf_integral_gain, 0x3f4c_28f6),
                perf_integral_gain2: or(words.perf_integral_gain2, 0x3f4c_28f6),
                perf_proportional_gain: or(words.perf_proportional_gain, 0x40ac_cccd),
                perf_proportional_gain2: or(words.perf_proportional_gain2, 0x40ac_cccd),
                boost_step: or(words.perf_boost_ce_step, 50),
                reset_iters: or(words.perf_reset_iters, 6),
                drop_threshold: or(words.perf_filter_drop_threshold, 0),
                se_ki: or(words.se_ki, 0xc248_0000),
                se_ki_1: or(words.se_ki_1, 0xc2c8_0000),
                se_kp: or(words.se_kp, 0xc0a0_0000),
                se_kp_1: or(words.se_kp_1, 0xc0a0_0000),
                inactive_threshold: or(words.se_inactive_threshold, 2500),
                engagement_criteria: or(words.se_engagement_criteria, 600),
                engagement_tolerance: or(words.se_engagement_tolerance, 2),
                reset_tolerance: or(words.se_reset_tolerance, 4),
                reset_criteria: or(words.se_reset_criteria, 50),
                avg_duty: or(words.avg_power_min_duty_cycle, 40),
                avg_kp: or(words.avg_power_kp, 0x401a_e148),
                release: or(words.fast_die0_release_temp, 80),
                delta: or(words.fast_die0_prop_tgt_delta, 0),
                fast_ki: or(words.fast_die0_integral_gain, 0x4348_0000),
                fast_kp: or(words.fast_die0_proportional_gain, 0x42f0_0000),
                micros: period_ms * 1000,
                frames: (33 + period_ms / 2) / period_ms,
                base_scaled: 100 * base,
                target: utilization - dead_zone,
                ppm,
                se,
                se_1,
                average_target,
                average,
                avg_ki: or(words.avg_power_ki_only, or(words.avg_power_ki, 0x4187_0000)),
                avg_ki_scaled: words.avg_power_ki_only.is_some() || words.avg_power_ki.is_none(),
                turbo: words.turbo_controller_input,
            },
        )
    }
}

/// Whether all fields hold finite numbers.
fn check_finite(fields: &[Field]) -> (out: bool)
    ensures
        out == all_finite(fields@),
{
    let mut k: usize = 0;
    while k < fields.len()
        invariant
            k <= fields@.len(),
            forall|j: int| 0 <= j < k ==> finite((#[trigger] fields@[j]).value),
        decreases fields@.len() - k,
    {
        if (fields[k].value / 0x80_0000) % 0x100 == 0xff {
            assert(!finite(fields@[k as int].value));
            return false;
        }
        k += 1;
    }
    true
}

/// The initial power slots: sixteen rows of thirty-two, each the largest signed sixteen bit number.
pub open spec fn power_slots(n: nat) -> Seq<Field> {
    Seq::new(n, |i: int| w16((0x6f6f + 2 * i) as usize, 0x7fff))
}

/// Stores the initial power slots.
fn put_slots(out: &mut [u8])
    requires
        old(out)@.len() >= 0xb758,
    ensures
        final(out)@ == bytes::overlay(old(out)@, power_slots(512)),
{
    let mut fields: Vec<Field> = Vec::new();
    let mut i: usize = 0;
    while i < 512
        invariant
            i <= 512,
            fields@ == power_slots(i as nat),
        decreases 512 - i,
    {
        fields.push(w16(0x6f6f + 2 * i, 0x7fff));
        i += 1;
        assert(fields@ =~= power_slots(i as nat));
    }
    fill(out, fields.as_slice());
}

impl Platform {
    /// The integers of the main power controller and of the peak power controller's limits.
    pub open spec fn main_words(self, plan: PowerPlan) -> Seq<Field> {
        seq![
            w32(0x5384, self.period_clocks),
            w32(0x5388, self.period_clocks),
            w32(0x5d38, 625),
            w32(0x5440, ONE_POINT_ZERO_TWO),
            w32(0x5444, ONE_POINT_ZERO_TWO),
            w32(0x5448, ONE_POINT_ZERO_TWO),
            w32(0x544c, ONE_POINT_ZERO_TWO),
            w32(0x5450, ONE_POINT_ZERO_TWO),
            w32(0x5454, ONE_POINT_ZERO_TWO),
            w32(0x5458, ONE_POINT_ZERO_TWO),
            w32(0x545c, ONE_POINT_ZERO_TWO),
            w32(0x5460, ONE_POINT_ZERO_TWO),
            w32(0x5464, ONE_POINT_ZERO_TWO),
            w32(0x5468, ONE_POINT_ZERO_TWO),
            w32(0x5d70, plan.duty),
            w32(0x5d74, 1000),
            w32(0x5d78, 1000),
            w32(0x5db8, 1000),
            w32(0x5d84, self.maximum_power),
            w32(0x7c48, self.maximum_power),
            w32(0x7c4c, self.maximum_power),
            w32(0x7c50, self.maximum_power),
            w32(0x7fc0, plan.duty),
            w32(0x7fc4, 1000),
            w32(0x757c, self.freq_a@[10]),
            w32(0x7590, plan.duty),
            w32(0x759c, 1000),
            w32(0x7bf0, 1000),
        ]
    }

    /// Stores the integers of the main power controller and of the peak power controller's limits.
    fn put_main_words(&self, out: &mut [u8], plan: &PowerPlan)
        requires
            old(out)@.len() >= 0xb758,
        ensures
            final(out)@ == bytes::overlay(old(out)@, self.main_words(*plan)),
    {
        let fields = [
            w32(0x5384, self.period_clocks),
            w32(0x5388, self.period_clocks),
            w32(0x5d38, 625),
            w32(0x5440, ONE_POINT_ZERO_TWO),
            w32(0x5444, ONE_POINT_ZERO_TWO),
            w32(0x5448, ONE_POINT_ZERO_TWO),
            w32(0x544c, ONE_POINT_ZERO_TWO),
            w32(0x5450, ONE_POINT_ZERO_TWO),
            w32(0x5454, ONE_POINT_ZERO_TWO),
            w32(0x5458, ONE_POINT_ZERO_TWO),
            w32(0x545c, ONE_POINT_ZERO_TWO),
            w32(0x5460, ONE_POINT_ZERO_TWO),
            w32(0x5464, ONE_POINT_ZERO_TWO),
            w32(0x5468, ONE_POINT_ZERO_TWO),
            w32(0x5d70, plan.duty),
            w32(0x5d74, 1000),
            w32(0x5d78, 1000),
            w32(0x5db8, 1000),
            w32(0x5d84, self.maximum_power),
            w32(0x7c48, self.maximum_power),
            w32(0x7c4c, self.maximum_power),
            w32(0x7c50, self.maximum_power),
            w32(0x7fc0, plan.duty),
            w32(0x7fc4, 1000),
            w32(0x757c, self.freq_a[10]),
            w32(0x7590, plan.duty),
            w32(0x759c, 1000),
            w32(0x7bf0, 1000),
        ];
        assert(fields@ =~= self.main_words(*plan));
        fill(out, &fields);
    }

    /// The integers of the peak power controller and of the performance controller.
    pub open spec fn perf_words(self, plan: PowerPlan) -> Seq<Field> {
        seq![
            w32(0x5df0, plan.ppm.count_x4),
            w32(0x5e28, plan.duty),
            w32(0x5e2c, 1000),
            w32(0x5e3c, self.maximum_power),
            w32(0x5e48, plan.ppm.duration),
            w64(0x5e50, plan.ppm.clocks),
            w32(0x5390, 4),
            w32(0x53e0, 4),
            w32(0x53ac, 1),
            w32(0x53b0, 1),
            w32(0x53ec, 1),
            w32(0x53f0, 1),
            w32(0x53d0, 100),
            w32(0x5410, 100),
            w32(0x53bc, 0),
            w32(0x53c0, plan.base_scaled),
            w32(0x53c4, 1),
            w32(0x53c8, 1000),
            w32(0x53fc, 0),
            w32(0x5400, plan.base_scaled),
            w32(0x5404, 1),
            w32(0x5408, 1000),
            w32(0x5ea8, plan.target),
            w32(0x5eb0, plan.boost),
            w32(0x5eb4, plan.boost_step),
            w32(0x5eb8, plan.reset_iters),
            w32(0x5ec0, 6),
            w32(0x5ec4, 1),
            w32(0x5ec8, plan.drop_threshold),
            w32(0x5ef8, plan.base_scaled),
            w32(0x5efc, 1000),
            w32(0x5f00, plan.base_scaled),
            w32(0x5f0c, plan.target),
            w32(0x5f14, plan.dead_zone),
            w32(0x5f40, plan.base_scaled),
        ]
    }

    /// Stores the integers of the peak power controller and of the performance controller.
    fn put_perf_words(&self, out: &mut [u8], plan: &PowerPlan)
        requires
            old(out)@.len() >= 0xb758,
        ensures
            final(out)@ == bytes::overlay(old(out)@, self.perf_words(*plan)),
    {
        let fields = [
            w32(0x5df0, plan.ppm.count_x4),
            w32(0x5e28, plan.duty),
            w32(0x5e2c, 1000),
            w32(0x5e3c, self.maximum_power),
            w32(0x5e48, plan.ppm.duration),
            w64(0x5e50, plan.ppm.clocks),
            w32(0x5390, 4),
            w32(0x53e0, 4),
            w32(0x53ac, 1),
            w32(0x53b0, 1),
            w32(0x53ec, 1),
            w32(0x53f0, 1),
            w32(0x53d0, 100),
            w32(0x5410, 100),
            w32(0x53bc, 0),
            w32(0x53c0, plan.base_scaled),
            w32(0x53c4, 1),
            w32(0x53c8, 1000),
            w32(0x53fc, 0),
            w32(0x5400, plan.base_scaled),
            w32(0x5404, 1),
            w32(0x5408, 1000),
            w32(0x5ea8, plan.target),
            w32(0x5eb0, plan.boost),
            w32(0x5eb4, plan.boost_step),
            w32(0x5eb8, plan.reset_iters),
            w32(0x5ec0, 6),
            w32(0x5ec4, 1),
            w32(0x5ec8, plan.drop_threshold),
            w32(0x5ef8, plan.base_scaled),
            w32(0x5efc, 1000),
            w32(0x5f00, plan.base_scaled),
            w32(0x5f0c, plan.target),
            w32(0x5f14, plan.dead_zone),
            w32(0x5f40, plan.base_scaled),
        ];
        assert(fields@ =~= self.perf_words(*plan));
        fill(out, &fields);
    }

    /// The integers of the shader engine's controller and of the average power controllers.
    pub open spec fn average_words(self, plan: PowerPlan) -> Seq<Field> {
        seq![
            w32(0x7f04, 100),
            w32(0x7f08, 1000),
            w32(0x7f0c, plan.base_scaled),
            w32(0x7f24, plan.se.duration),
            w32(0x7f28, plan.se_1.duration),
            w32(0x7f68, plan.micros),
            w32(0x7ecc, 50),
            w32(0x7ed0, 1),
            w32(0x7f18, 1400),
            w32(0x7f6c, plan.frames),
            w32(0x7f70, plan.inactive_threshold),
            w32(0x7f74, plan.engagement_criteria),
            w32(0x7f78, plan.engagement_tolerance),
            w32(0x7f7c, plan.reset_tolerance),
            w32(0x7f80, plan.reset_criteria),
            w64(0x7f2c, plan.se.clocks),
            w64(0x7f34, plan.se_1.clocks),
            w32(0x7c64, plan.average_target.count_x4),
            w32(0x7c68, plan.average_target.duration),
            w64(0x7c6c, plan.average_target.clocks),
            w32(0x7d74, plan.avg_duty),
            w32(0x7d78, 1000),
            w32(0x7d7c, 1000),
            w32(0x7d88, self.maximum_power),
            w32(0x7dbc, 1000),
            w32(0x7d3c, plan.average.count_x4),
            w32(0x7d94, plan.average.duration),
            w64(0x7d9c, plan.average.clocks),
        ]
    }

    /// Stores the integers of the shader engine's controller and of the average power controllers.
    fn put_average_words(&self, out: &mut [u8], plan: &PowerPlan)
        requires
            old(out)@.len() >= 0xb758,
        ensures
            final(out)@ == bytes::overlay(old(out)@, self.average_words(*plan)),
    {
        let fields = [
            w32(0x7f04, 100),
            w32(0x7f08, 1000),
            w32(0x7f0c, plan.base_scaled),
            w32(0x7f24, plan.se.duration),
            w32(0x7f28, plan.se_1.duration),
            w32(0x7f68, plan.micros),
            w32(0x7ecc, 50),
            w32(0x7ed0, 1),
            w32(0x7f18, 1400),
            w32(0x7f6c, plan.frames),
            w32(0x7f70, plan.inactive_threshold),
            w32(0x7f74, plan.engagement_criteria),
            w32(0x7f78, plan.engagement_tolerance),
            w32(0x7f7c, plan.reset_tolerance),
            w32(0x7f80, plan.reset_criteria),
            w64(0x7f2c, plan.se.clocks),
            w64(0x7f34, plan.se_1.clocks),
            w32(0x7c64, plan.average_target.count_x4),
            w32(0x7c68, plan.average_target.duration),
            w64(0x7c6c, plan.average_target.clocks),
            w32(0x7d74, plan.avg_duty),
            w32(0x7d78, 1000),
            w32(0x7d7c, 1000),
            w32(0x7d88, self.maximum_power),
            w32(0x7dbc, 1000),
            w32(0x7d3c, plan.average.count_x4),
            w32(0x7d94, plan.average.duration),
            w64(0x7d9c, plan.average.clocks),
        ];
        assert(fields@ =~= self.average_words(*plan));
        fill(out, &fields);
    }

    /// The integers of the temperature and turbo controllers.
    pub open spec fn thermal_words(self, plan: PowerPlan, release: u32, delta: u32) -> Seq<Field> {
        let turbo = turbo_of(plan.turbo);
        seq![
            w64(0x75e8, 0x6958),
            w32(0x75f0, release),
            w32(0x75f8, 4),
            w32(0x7630, plan.duty),
            w32(0x7634, 1000),
            w32(0x7638, 1000),
            w32(0x763c, delta),
            w32(0x7644, 11000),
            w32(0x7678, 1000),
            w8(0x7898, low_flag(plan.turbo is Some)),
            w8(0x7899, low_flag(plan.turbo == Some(1u32))),
            w32(0x7ad6, 900),
            w32(0x7ada, 1000),
            w32(0x7ade, 1000),
            w32(0x7aea, turbo.target),
            w32(0x7af2, turbo.delta),
            w32(0x7b1e, 1000),
            w32(0x7b3a, 200),
            w32(0x7b52, turbo.threshold),
            w32(0x81ac, 4),
            w32(0x81e4, 900),
            w32(0x81e8, 1000),
            w32(0x81ec, 1000),
            w32(0x81f8, 1000),
            w32(0x822c, 1000),
            w32(0xb6a0, 0x67305452),
            w32(0xb708, 0x67307430),
            w32(0xb70c, 0x67307431),
            w32(0xb710, 0x67304542),
            w32(0xb714, 0x6730454c),
        ]
    }

    /// Stores the integers of the temperature and turbo controllers.
    fn put_thermal_words(&self, out: &mut [u8], plan: &PowerPlan, release: u32, delta: u32)
        requires
            old(out)@.len() >= 0xb758,
        ensures
            final(out)@ == bytes::overlay(old(out)@, self.thermal_words(*plan, release, delta)),
    {
        let turbo = turbo_of(plan.turbo);
        let turbo_one: bool = match plan.turbo {
            Some(1) => true,
            _ => false,
        };
        let fields = [
            w64(0x75e8, 0x6958),
            w32(0x75f0, release),
            w32(0x75f8, 4),
            w32(0x7630, plan.duty),
            w32(0x7634, 1000),
            w32(0x7638, 1000),
            w32(0x763c, delta),
            w32(0x7644, 11000),
            w32(0x7678, 1000),
            w8(0x7898, low_flag(plan.turbo.is_some())),
            w8(0x7899, low_flag(turbo_one)),
            w32(0x7ad6, 900),
            w32(0x7ada, 1000),
            w32(0x7ade, 1000),
            w32(0x7aea, turbo.target),
            w32(0x7af2, turbo.delta),
            w32(0x7b1e, 1000),
            w32(0x7b3a, 200),
            w32(0x7b52, turbo.threshold),
            w32(0x81ac, 4),
            w32(0x81e4, 900),
            w32(0x81e8, 1000),
            w32(0x81ec, 1000),
            w32(0x81f8, 1000),
            w32(0x822c, 1000),
            w32(0xb6a0, 0x67305452),
            w32(0xb708, 0x67307430),
            w32(0xb70c, 0x67307431),
            w32(0xb710, 0x67304542),
            w32(0xb714, 0x6730454c),
        ];
        assert(fields@ =~= self.thermal_words(*plan, release, delta));
        fill(out, &fields);
    }

    /// Floating-point numbers of the configuration.
    pub open spec fn first_numbers(self, plan: PowerPlan, floats: PowerFloats) -> Seq<Field> {
        seq![
            w32(0x5d44, floats.pwr.alpha),
            w32(0x5d4c, floats.pwr.inverse),
            w32(0x5d54, plan.pwr_integral_gain),
            w32(0x5d5c, floats.minimum),
            w32(0x5d60, floats.maximum),
            w32(0x5d64, plan.pwr_proportional_gain),
            w32(0x5d6c, floats.slope),
            w32(0x7fb0, 0x4780_0000),
            w32(0x7fb4, 0),
            w32(0x7570, 0x4780_0000),
            w32(0x7574, floats.duty),
            w32(0x7578, 0x447a_0000),
            w32(0x7598, 0x42c8_0000),
            w32(0x75a4, floats.five.alpha),
            w32(0x75a8, floats.five.inverse),
            w32(0x5dfc, floats.ppm.alpha),
            w32(0x5e04, floats.ppm.inverse),
            w32(0x5e0c, floats.ppm_ki),
            w32(0x5e14, floats.minimum),
            w32(0x5e18, 0x4780_0000),
            w32(0x5e1c, plan.ppm_kp),
            w32(0x5394, 0x3f80_0000),
            w32(0x53e4, 0x3f80_0000),
            w32(0x5ecc, floats.perf.alpha),
            w32(0x5ed0, floats.perf2.alpha),
            w32(0x5ed4, floats.perf.inverse),
            w32(0x5ed8, floats.perf2.inverse),
            w32(0x5edc, plan.perf_integral_gain),
            w32(0x5ee0, plan.perf_integral_gain2),
            w32(0x5ee4, floats.integral_minimum),
            w32(0x5ee8, 0x42be_0000),
            w32(0x5eec, plan.perf_proportional_gain),
            w32(0x5ef0, plan.perf_proportional_gain2),
            w32(0x5ef4, floats.headroom),
            w32(0x7ed8, floats.se.alpha),
            w32(0x7edc, floats.se_1.alpha),
            w32(0x7ee0, floats.se.inverse),
            w32(0x7ee4, floats.se_1.inverse),
            w32(0x7ee8, floats.se_ki),
        ]
    }

    /// Stores floating-point numbers, if all are finite.
    fn put_first_numbers(&self, out: &mut [u8], plan: &PowerPlan, floats: &PowerFloats) -> (done: bool)
        requires
            old(out)@.len() >= 0xb758,
        ensures
            done == all_finite(self.first_numbers(*plan, *floats)),
            final(out)@ == if done {
                bytes::overlay(old(out)@, self.first_numbers(*plan, *floats))
            } else {
                old(out)@
            },
    {
        let fields = [
            w32(0x5d44, floats.pwr.alpha),
            w32(0x5d4c, floats.pwr.inverse),
            w32(0x5d54, plan.pwr_integral_gain),
            w32(0x5d5c, floats.minimum),
            w32(0x5d60, floats.maximum),
            w32(0x5d64, plan.pwr_proportional_gain),
            w32(0x5d6c, floats.slope),
            w32(0x7fb0, 0x4780_0000),
            w32(0x7fb4, 0),
            w32(0x7570, 0x4780_0000),
            w32(0x7574, floats.duty),
            w32(0x7578, 0x447a_0000),
            w32(0x7598, 0x42c8_0000),
            w32(0x75a4, floats.five.alpha),
            w32(0x75a8, floats.five.inverse),
            w32(0x5dfc, floats.ppm.alpha),
            w32(0x5e04, floats.ppm.inverse),
            w32(0x5e0c, floats.ppm_ki),
            w32(0x5e14, floats.minimum),
            w32(0x5e18, 0x4780_0000),
            w32(0x5e1c, plan.ppm_kp),
            w32(0x5394, 0x3f80_0000),
            w32(0x53e4, 0x3f80_0000),
            w32(0x5ecc, floats.perf.alpha),
            w32(0x5ed0, floats.perf2.alpha),
            w32(0x5ed4, floats.perf.inverse),
            w32(0x5ed8, floats.perf2.inverse),
            w32(0x5edc, plan.perf_integral_gain),
            w32(0x5ee0, plan.perf_integral_gain2),
            w32(0x5ee4, floats.integral_minimum),
            w32(0x5ee8, 0x42be_0000),
            w32(0x5eec, plan.perf_proportional_gain),
            w32(0x5ef0, plan.perf_proportional_gain2),
            w32(0x5ef4, floats.headroom),
            w32(0x7ed8, floats.se.alpha),
            w32(0x7edc, floats.se_1.alpha),
            w32(0x7ee0, floats.se.inverse),
            w32(0x7ee4, floats.se_1.inverse),
            w32(0x7ee8, floats.se_ki),
        ];
        assert(fields@ =~= self.first_numbers(*plan, *floats));
        if !check_finite(&fields) {
            return false;
        }
        fill(out, &fields);
        true
    }

    /// Floating-point numbers of the configuration.
    pub open spec fn second_numbers(self, plan: PowerPlan, floats: PowerFloats) -> Seq<Field> {
        let turbo = turbo_of(plan.turbo);
        seq![
            w32(0x7eec, floats.se_ki_1),
            w32(0x7ef0, 0),
            w32(0x7ef4, 0x4780_0000),
            w32(0x7ef8, plan.se_kp),
            w32(0x7efc, plan.se_kp_1),
            w32(0x7f40, 0x4780_0000),
            w32(0x7f14, floats.micros),
            w32(0x7c5c, floats.average_target.alpha),
            w32(0x7c60, floats.average_target.inverse),
            w32(0x7d58, floats.avg_ki),
            w32(0x7d60, 0),
            w32(0x7d64, 0x4780_0000),
            w32(0x7d68, plan.avg_kp),
            w32(0x7d70, 0),
            w32(0x7d84, floats.maximum),
            w32(0x7d48, floats.average.alpha),
            w32(0x7d50, floats.average.inverse),
            w32(0x7604, 0),
            w32(0x760c, 0x3f80_0000),
            w32(0x7614, floats.fast_ki),
            w32(0x761c, 0),
            w32(0x7620, 0x4780_0000),
            w32(0x7624, plan.fast_kp),
            w32(0x762c, 0),
            w32(0x7aaa, floats.turbo.alpha),
            w32(0x7ab2, floats.turbo.inverse),
            w32(0x7aba, turbo.ki),
            w32(0x7ac2, 0),
            w32(0x7ac6, 0x4780_0000),
            w32(0x7aca, turbo.kp),
            w32(0x7ad2, 0xbac8_0000),
            w32(0x7ae6, 0x453b_8000),
            w32(0x7b56, 0x4280_0000),
            w32(0x7b5a, 0x4780_0000),
            w32(0x81b8, floats.last.alpha),
            w32(0x81c0, floats.last.inverse),
            w32(0x81c8, 0x40a0_0000),
            w32(0x81d0, 0),
            w32(0x81d4, 0x4780_0000),
            w32(0x81d8, 0x4170_0000),
        ]
    }

    /// Stores floating-point numbers, if all are finite.
    fn put_second_numbers(&self, out: &mut [u8], plan: &PowerPlan, floats: &PowerFloats) -> (done: bool)
        requires
            old(out)@.len() >= 0xb758,
        ensures
            done == all_finite(self.second_numbers(*plan, *floats)),
            final(out)@ == if done {
                bytes::overlay(old(out)@, self.second_numbers(*plan, *floats))
            } else {
                old(out)@
            },
    {
        let turbo = turbo_of(plan.turbo);
        let fields = [
            w32(0x7eec, floats.se_ki_1),
            w32(0x7ef0, 0),
            w32(0x7ef4, 0x4780_0000),
            w32(0x7ef8, plan.se_kp),
            w32(0x7efc, plan.se_kp_1),
            w32(0x7f40, 0x4780_0000),
            w32(0x7f14, floats.micros),
            w32(0x7c5c, floats.average_target.alpha),
            w32(0x7c60, floats.average_target.inverse),
            w32(0x7d58, floats.avg_ki),
            w32(0x7d60, 0),
            w32(0x7d64, 0x4780_0000),
            w32(0x7d68, plan.avg_kp),
            w32(0x7d70, 0),
            w32(0x7d84, floats.maximum),
            w32(0x7d48, floats.average.alpha),
            w32(0x7d50, floats.average.inverse),
            w32(0x7604, 0),
            w32(0x760c, 0x3f80_0000),
            w32(0x7614, floats.fast_ki),
            w32(0x761c, 0),
            w32(0x7620, 0x4780_0000),
            w32(0x7624, plan.fast_kp),
            w32(0x762c, 0),
            w32(0x7aaa, floats.turbo.alpha),
            w32(0x7ab2, floats.turbo.inverse),
            w32(0x7aba, turbo.ki),
            w32(0x7ac2, 0),
            w32(0x7ac6, 0x4780_0000),
            w32(0x7aca, turbo.kp),
            w32(0x7ad2, 0xbac8_0000),
            w32(0x7ae6, 0x453b_8000),
            w32(0x7b56, 0x4280_0000),
            w32(0x7b5a, 0x4780_0000),
            w32(0x81b8, floats.last.alpha),
            w32(0x81c0, floats.last.inverse),
            w32(0x81c8, 0x40a0_0000),
            w32(0x81d0, 0),
            w32(0x81d4, 0x4780_0000),
            w32(0x81d8, 0x4170_0000),
        ];
        assert(fields@ =~= self.second_numbers(*plan, *floats));
        if !check_finite(&fields) {
            return false;
        }
        fill(out, &fields);
        true
    }

    /// A buffer with the power configuration stored.
    pub open spec fn with_power(self, base: Seq<u8>, plan: PowerPlan, floats: PowerFloats) -> Seq<u8> {
        let a = bytes::overlay(base, power_slots(512));
        let b = bytes::overlay(a, self.main_words(plan));
        let c = bytes::overlay(b, self.perf_words(plan));
        let d = bytes::overlay(c, self.average_words(plan));
        let e = bytes::overlay(
            d,
            self.thermal_words(plan, floats.release->0, floats.delta->0),
        );
        let f = bytes::overlay(e, self.first_numbers(plan, floats));
        bytes::overlay(f, self.second_numbers(plan, floats))
    }

    /// Whether the floating-point results can be stored: the two temperatures are words, and all
    /// numbers are finite.
    pub open spec fn floats_ok(self, plan: PowerPlan, floats: PowerFloats) -> bool {
        &&& floats.release is Some
        &&& floats.delta is Some
        &&& all_finite(self.first_numbers(plan, floats))
        &&& all_finite(self.second_numbers(plan, floats))
    }

    /// Stores the configuration of the power controllers. A buffer that is refused is left half
    /// written.
    pub fn power_data(&self, out: &mut [u8], plan: &PowerPlan, floats: &PowerFloats) -> (done: Result<
        (),
        Error,
    >)
        ensures
            final(out)@.len() == old(out)@.len(),
            match done {
                Ok(_) => {
                    &&& old(out)@.len() >= 0xb758
                    &&& self.floats_ok(*plan, *floats)
                    &&& final(out)@ == self.with_power(old(out)@, *plan, *floats)
                },
                Err(e) => e == Error::EINVAL && !(old(out)@.len() >= 0xb758 && self.floats_ok(
                    *plan,
                    *floats,
                )),
            },
    {
        if out.len() < 0xb758 {
            return Err(Error::EINVAL);
        }
        match (floats.release, floats.delta) {
            (Some(release), Some(delta)) => {
                put_slots(out);
                self.put_main_words(out, plan);
                self.put_perf_words(out, plan);
                self.put_average_words(out, plan);
                self.put_thermal_words(out, plan, release, delta);
                if !self.put_first_numbers(out, plan, floats) {
                    return Err(Error::EINVAL);
                }
                if !self.put_second_numbers(out, plan, floats) {
                    return Err(Error::EINVAL);
                }
                Ok(())
            },
            _ => Err(Error::EINVAL),
        }
    }

    /// The descriptor bundle around a main configuration.
    pub open spec fn bundle_image(
        self,
        main: MainConfig,
        entropy: u32,
        plan: PowerPlan,
        floats: PowerFloats,
    ) -> Seq<u8> {
        let a = bytes::place(bytes::zeros(BUNDLE_SIZE as nat), 0, self.hardware_image());
        let b = bytes::place(a, MAIN_OFFSET as int, main.image());
        let c = bytes::overlay(b, seq![w64(0x8ed0, 0xffff_fc20_000f_34c0)]);
        let d = bytes::overlay(c, seq![w64(0xb698, 0xffff_fc20_c050_0000)]);
        bytes::overlay(self.with_power(d, plan, floats), seq![w32(0xb754, entropy)])
    }

    /// The descriptor bundle, including the configuration of the firmware's power controllers.
    pub fn bundle(&self, entropy: u32, plan: &PowerPlan, floats: &PowerFloats) -> (out: Result<
        Vec<u8>,
        Error,
    >)
        requires
            self.wf(),
        ensures
            match out {
                Ok(bundle) => {
                    &&& self.floats_ok(*plan, *floats)
                    &&& bundle@.len() == BUNDLE_SIZE
                    &&& exists|main: MainConfig|
                        main.is_bootstrap(BUNDLE_ADDRESS) && bundle@ == #[trigger] self.bundle_image(
                            main,
                            entropy,
                            *plan,
                            *floats,
                        )
                },
                Err(e) => e == Error::EINVAL && !self.floats_ok(*plan, *floats),
            },
    {
        let mut buffer: Vec<u8> = zeroed(BUNDLE_SIZE);
        let out = buffer.as_mut_slice();
        let hwdata: Vec<u8> = self.hwdata();
        copy_in(out, 0, hwdata.as_slice());
        let config: MainConfig = MainConfig::bootstrap(BUNDLE_ADDRESS);
        let main: [u8; 0x500] = config.encode();
        copy_in(out, MAIN_OFFSET, &main);
        put64(out, 0x8ed0, 0xffff_fc20_000f_34c0);
        put64(out, 0xb698, 0xffff_fc20_c050_0000);
        match self.power_data(out, plan, floats) {
            Err(e) => {
                return Err(e);
            },
            Ok(()) => {},
        }
        put32(out, 0xb754, entropy);
        assert(out@ == self.bundle_image(config, entropy, *plan, *floats));
        Ok(buffer)
    }
}

} // verus!
