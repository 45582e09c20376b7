//! What the firmware reads of the configuration of its power controllers.
use crate::bytes;
use crate::fw;
use crate::fw::MainConfig;
use crate::platform::Platform;
use crate::power;
use crate::power::{Filter, PowerFloats, PowerPlan, PowerWords};
use vstd::prelude::*;

verus! {

/// Whether a byte of the configuration belongs to the initial slots.
pub open spec fn in_slots(i: int) -> bool {
    ||| 0x6f6f <= i < 0x736f
}

/// Whether a byte of the configuration belongs to the integers of the main power controller and of the limits of peak power.
pub open spec fn in_main(i: int) -> bool {
    ||| 0x5384 <= i < 0x538c
    ||| 0x5440 <= i < 0x546c
    ||| 0x5d38 <= i < 0x5d3c
    ||| 0x5d70 <= i < 0x5d7c
    ||| 0x5d84 <= i < 0x5d88
    ||| 0x5db8 <= i < 0x5dbc
    ||| 0x757c <= i < 0x7580
    ||| 0x7590 <= i < 0x7594
    ||| 0x759c <= i < 0x75a0
    ||| 0x7bf0 <= i < 0x7bf4
    ||| 0x7c48 <= i < 0x7c54
    ||| 0x7fc0 <= i < 0x7fc8
}

/// Whether a byte of the configuration belongs to the integers of the controllers of peak power and of performance.
pub open spec fn in_perf(i: int) -> bool {
    ||| 0x5390 <= i < 0x5394
    ||| 0x53ac <= i < 0x53b4
    ||| 0x53bc <= i < 0x53cc
    ||| 0x53d0 <= i < 0x53d4
    ||| 0x53e0 <= i < 0x53e4
    ||| 0x53ec <= i < 0x53f4
    ||| 0x53fc <= i < 0x540c
    ||| 0x5410 <= i < 0x5414
    ||| 0x5df0 <= i < 0x5df4
    ||| 0x5e28 <= i < 0x5e30
    ||| 0x5e3c <= i < 0x5e40
    ||| 0x5e48 <= i < 0x5e4c
    ||| 0x5e50 <= i < 0x5e58
    ||| 0x5ea8 <= i < 0x5eac
    ||| 0x5eb0 <= i < 0x5ebc
    ||| 0x5ec0 <= i < 0x5ecc
    ||| 0x5ef8 <= i < 0x5f04
    ||| 0x5f0c <= i < 0x5f10
    ||| 0x5f14 <= i < 0x5f18
    ||| 0x5f40 <= i < 0x5f44
}

/// Whether a byte of the configuration belongs to the integers of the controllers of the shader engine and of average power.
pub open spec fn in_average(i: int) -> bool {
    ||| 0x7c64 <= i < 0x7c74
    ||| 0x7d3c <= i < 0x7d40
    ||| 0x7d74 <= i < 0x7d80
    ||| 0x7d88 <= i < 0x7d8c
    ||| 0x7d94 <= i < 0x7d98
    ||| 0x7d9c <= i < 0x7da4
    ||| 0x7dbc <= i < 0x7dc0
    ||| 0x7ecc <= i < 0x7ed4
    ||| 0x7f04 <= i < 0x7f10
    ||| 0x7f18 <= i < 0x7f1c
    ||| 0x7f24 <= i < 0x7f3c
    ||| 0x7f68 <= i < 0x7f84
}

/// Whether a byte of the configuration belongs to the integers of the controllers of temperature and of turbo.
pub open spec fn in_thermal(i: int) -> bool {
    ||| 0x75e8 <= i < 0x75f4
    ||| 0x75f8 <= i < 0x75fc
    ||| 0x7630 <= i < 0x7640
    ||| 0x7644 <= i < 0x7648
    ||| 0x7678 <= i < 0x767c
    ||| 0x7898 <= i < 0x789a
    ||| 0x7ad6 <= i < 0x7ae2
    ||| 0x7aea <= i < 0x7aee
    ||| 0x7af2 <= i < 0x7af6
    ||| 0x7b1e <= i < 0x7b22
    ||| 0x7b3a <= i < 0x7b3e
    ||| 0x7b52 <= i < 0x7b56
    ||| 0x81ac <= i < 0x81b0
    ||| 0x81e4 <= i < 0x81f0
    ||| 0x81f8 <= i < 0x81fc
    ||| 0x822c <= i < 0x8230
    ||| 0xb6a0 <= i < 0xb6a4
    ||| 0xb708 <= i < 0xb718
}

/// Whether a byte of the configuration belongs to the numbers of the controllers of power and performance.
pub open spec fn in_first(i: int) -> bool {
    ||| 0x5394 <= i < 0x5398
    ||| 0x53e4 <= i < 0x53e8
    ||| 0x5d44 <= i < 0x5d48
    ||| 0x5d4c <= i < 0x5d50
    ||| 0x5d54 <= i < 0x5d58
    ||| 0x5d5c <= i < 0x5d68
    ||| 0x5d6c <= i < 0x5d70
    ||| 0x5dfc <= i < 0x5e00
    ||| 0x5e04 <= i < 0x5e08
    ||| 0x5e0c <= i < 0x5e10
    ||| 0x5e14 <= i < 0x5e20
    ||| 0x5ecc <= i < 0x5ef8
    ||| 0x7570 <= i < 0x757c
    ||| 0x7598 <= i < 0x759c
    ||| 0x75a4 <= i < 0x75ac
    ||| 0x7ed8 <= i < 0x7eec
    ||| 0x7fb0 <= i < 0x7fb8
}

/// Whether a byte of the configuration belongs to the numbers of the controllers of average power, temperature and turbo.
pub open spec fn in_second(i: int) -> bool {
    ||| 0x7604 <= i < 0x7608
    ||| 0x760c <= i < 0x7610
    ||| 0x7614 <= i < 0x7618
    ||| 0x761c <= i < 0x7628
    ||| 0x762c <= i < 0x7630
    ||| 0x7aaa <= i < 0x7aae
    ||| 0x7ab2 <= i < 0x7ab6
    ||| 0x7aba <= i < 0x7abe
    ||| 0x7ac2 <= i < 0x7ace
    ||| 0x7ad2 <= i < 0x7ad6
    ||| 0x7ae6 <= i < 0x7aea
    ||| 0x7b56 <= i < 0x7b5e
    ||| 0x7c5c <= i < 0x7c64
    ||| 0x7d48 <= i < 0x7d4c
    ||| 0x7d50 <= i < 0x7d54
    ||| 0x7d58 <= i < 0x7d5c
    ||| 0x7d60 <= i < 0x7d6c
    ||| 0x7d70 <= i < 0x7d74
    ||| 0x7d84 <= i < 0x7d88
    ||| 0x7eec <= i < 0x7f00
    ||| 0x7f14 <= i < 0x7f18
    ||| 0x7f40 <= i < 0x7f44
    ||| 0x81b8 <= i < 0x81bc
    ||| 0x81c0 <= i < 0x81c4
    ||| 0x81c8 <= i < 0x81cc
    ||| 0x81d0 <= i < 0x81dc
}

proof fn lemma_main_only(p: Platform, plan: PowerPlan, i: int)
    ensures
        bytes::touched(p.main_words(plan), 28, i) ==> in_main(i),
        p.main_words(plan).len() == 28,
{
    let fields = p.main_words(plan);
    reveal_with_fuel(bytes::touched, 14);
    assert(bytes::touched(fields, 12, i) ==> in_main(i));
    assert(bytes::touched(fields, 24, i) ==> in_main(i));
    assert(bytes::touched(fields, 28, i) ==> in_main(i));
}

proof fn lemma_perf_only(p: Platform, plan: PowerPlan, i: int)
    ensures
        bytes::touched(p.perf_words(plan), 35, i) ==> in_perf(i),
        p.perf_words(plan).len() == 35,
{
    let fields = p.perf_words(plan);
    reveal_with_fuel(bytes::touched, 14);
    assert(bytes::touched(fields, 12, i) ==> in_perf(i));
    assert(bytes::touched(fields, 24, i) ==> in_perf(i));
    assert(bytes::touched(fields, 35, i) ==> in_perf(i));
}

proof fn lemma_average_only(p: Platform, plan: PowerPlan, i: int)
    ensures
        bytes::touched(p.average_words(plan), 28, i) ==> in_average(i),
        p.average_words(plan).len() == 28,
{
    let fields = p.average_words(plan);
    reveal_with_fuel(bytes::touched, 14);
    assert(bytes::touched(fields, 12, i) ==> in_average(i));
    assert(bytes::touched(fields, 24, i) ==> in_average(i));
    assert(bytes::touched(fields, 28, i) ==> in_average(i));
}

proof fn lemma_thermal_only(p: Platform, plan: PowerPlan, release: u32, delta: u32, i: int)
    ensures
        bytes::touched(p.thermal_words(plan, release, delta), 30, i) ==> in_thermal(i),
        p.thermal_words(plan, release, delta).len() == 30,
{
    let fields = p.thermal_words(plan, release, delta);
    reveal_with_fuel(bytes::touched, 14);
    assert(bytes::touched(fields, 12, i) ==> in_thermal(i));
    assert(bytes::touched(fields, 24, i) ==> in_thermal(i));
    assert(bytes::touched(fields, 30, i) ==> in_thermal(i));
}

proof fn lemma_first_only(p: Platform, plan: PowerPlan, floats: PowerFloats, i: int)
    ensures
        bytes::touched(p.first_numbers(plan, floats), 39, i) ==> in_first(i),
        p.first_numbers(plan, floats).len() == 39,
{
    let fields = p.first_numbers(plan, floats);
    reveal_with_fuel(bytes::touched, 14);
    assert(bytes::touched(fields, 12, i) ==> in_first(i));
    assert(bytes::touched(fields, 24, i) ==> in_first(i));
    assert(bytes::touched(fields, 36, i) ==> in_first(i));
    assert(bytes::touched(fields, 39, i) ==> in_first(i));
}

proof fn lemma_second_only(p: Platform, plan: PowerPlan, floats: PowerFloats, i: int)
    ensures
        bytes::touched(p.second_numbers(plan, floats), 40, i) ==> in_second(i),
        p.second_numbers(plan, floats).len() == 40,
{
    let fields = p.second_numbers(plan, floats);
    reveal_with_fuel(bytes::touched, 14);
    assert(bytes::touched(fields, 12, i) ==> in_second(i));
    assert(bytes::touched(fields, 24, i) ==> in_second(i));
    assert(bytes::touched(fields, 36, i) ==> in_second(i));
    assert(bytes::touched(fields, 40, i) ==> in_second(i));
}

/// The configuration is stored in parts that lie apart: each part is read back, whatever is stored after it, and
/// the rest of the buffer is left as it was.
#[verifier::rlimit(50)]
proof fn lemma_parts_kept(p: Platform, base: Seq<u8>, plan: PowerPlan, floats: PowerFloats, i: int)
    requires
        0 <= i < base.len(),
    ensures
        ({
            let a = bytes::overlay(base, power::power_slots(512));
            let b = bytes::overlay(a, p.main_words(plan));
            let c = bytes::overlay(b, p.perf_words(plan));
            let d = bytes::overlay(c, p.average_words(plan));
            let e = bytes::overlay(d, p.thermal_words(plan, floats.release->0, floats.delta->0));
            let f = bytes::overlay(e, p.first_numbers(plan, floats));
            let all = p.with_power(base, plan, floats);
            &&& all.len() == base.len()
            &&& in_slots(i) ==> all[i] == a[i]
            &&& in_main(i) ==> all[i] == b[i]
            &&& in_perf(i) ==> all[i] == c[i]
            &&& in_average(i) ==> all[i] == d[i]
            &&& in_thermal(i) ==> all[i] == e[i]
            &&& in_first(i) ==> all[i] == f[i]
            &&& all == bytes::overlay(f, p.second_numbers(plan, floats))
            &&& !in_slots(i) && !in_main(i) && !in_perf(i) && !in_average(i) && !in_thermal(i) && !in_first(i)
                && !in_second(i) ==> all[i] == base[i]
        }),
{
    let slots = power::power_slots(512);
    let a = bytes::overlay(base, slots);
    let b = bytes::overlay(a, p.main_words(plan));
    let c = bytes::overlay(b, p.perf_words(plan));
    let d = bytes::overlay(c, p.average_words(plan));
    let e = bytes::overlay(d, p.thermal_words(plan, floats.release->0, floats.delta->0));
    let f = bytes::overlay(e, p.first_numbers(plan, floats));
    lemma_slots_only(512, i);
    lemma_main_only(p, plan, i);
    lemma_perf_only(p, plan, i);
    lemma_average_only(p, plan, i);
    lemma_thermal_only(p, plan, floats.release->0, floats.delta->0, i);
    lemma_first_only(p, plan, floats, i);
    lemma_second_only(p, plan, floats, i);
    if !in_slots(i) {
        bytes::lemma_untouched(base, slots, i);
    }
    if !in_main(i) {
        bytes::lemma_untouched(a, p.main_words(plan), i);
    }
    if !in_perf(i) {
        bytes::lemma_untouched(b, p.perf_words(plan), i);
    }
    if !in_average(i) {
        bytes::lemma_untouched(c, p.average_words(plan), i);
    }
    if !in_thermal(i) {
        bytes::lemma_untouched(d, p.thermal_words(plan, floats.release->0, floats.delta->0), i);
    }
    if !in_first(i) {
        bytes::lemma_untouched(e, p.first_numbers(plan, floats), i);
    }
    if !in_second(i) {
        bytes::lemma_untouched(f, p.second_numbers(plan, floats), i);
    }
}

proof fn lemma_slots_only(n: nat, i: int)
    requires
        n <= 512,
    ensures
        bytes::touched(power::power_slots(512), n as int, i) ==> in_slots(i),
        power::power_slots(512).len() == 512,
    decreases n,
{
    if n > 0 {
        lemma_slots_only((n - 1) as nat, i);
    }
}

/// What the configuration does not name is left as it was.
pub proof fn lemma_power_rest(p: Platform, base: Seq<u8>, plan: PowerPlan, floats: PowerFloats, i: int)
    requires
        0 <= i < base.len(),
        !in_slots(i),
        !in_main(i),
        !in_perf(i),
        !in_average(i),
        !in_thermal(i),
        !in_first(i),
        !in_second(i),
    ensures
        p.with_power(base, plan, floats).len() == base.len(),
        p.with_power(base, plan, floats)[i] == base[i],
{
    lemma_parts_kept(p, base, plan, floats, i);
}

/// All 512 slots start with the largest signed half word.
pub proof fn lemma_power_slot(p: Platform, base: Seq<u8>, plan: PowerPlan, floats: PowerFloats, k: int)
    requires
        base.len() >= 0xb758,
        0 <= k < 512,
    ensures
        ({
            let m = p.with_power(base, plan, floats);
            &&& m[0x6f6f + 2 * k] == 0xff
            &&& m[0x6f70 + 2 * k] == 0x7f
        }),
{
    let fields = power::power_slots(512);
    assert(fields[k] == bytes::w16((0x6f6f + 2 * k) as usize, 0x7fff));
    assert forall|j: int| k < j < fields.len() implies fields[k].offset + fields[k].width <= (
    #[trigger] fields[j]).offset by {}
    assert(bytes::survives(fields, k));
    bytes::lemma_bytes_survive(base, fields, k, 0x6f6f + 2 * k);
    bytes::lemma_bytes_survive(base, fields, k, 0x6f70 + 2 * k);
    lemma_parts_kept(p, base, plan, floats, 0x6f6f + 2 * k);
    lemma_parts_kept(p, base, plan, floats, 0x6f70 + 2 * k);
    assert(((0x7fffu64 >> 0u64) & 0xff) as u8 == 0xff && ((0x7fffu64 >> 8u64) & 0xff) as u8 == 0x7f)
        by (bit_vector);
}

#[verifier::rlimit(50)]
proof fn lemma_main_layer_0(base: Seq<u8>, p: Platform, plan: PowerPlan)
    requires
        base.len() >= 0xb758,
    ensures
        ({
            let m = bytes::overlay(base, p.main_words(plan));
            &&& bytes::u32_in(m, 0x5384) == p.period_clocks
            &&& bytes::u32_in(m, 0x5388) == p.period_clocks
            &&& bytes::u32_in(m, 0x5d38) == 625
            &&& bytes::u32_in(m, 0x5440) == 0x3f82_8f5c
            &&& bytes::u32_in(m, 0x5444) == 0x3f82_8f5c
            &&& bytes::u32_in(m, 0x5448) == 0x3f82_8f5c
            &&& bytes::u32_in(m, 0x544c) == 0x3f82_8f5c
            &&& bytes::u32_in(m, 0x5450) == 0x3f82_8f5c
            &&& bytes::u32_in(m, 0x5454) == 0x3f82_8f5c
            &&& bytes::u32_in(m, 0x5458) == 0x3f82_8f5c
            &&& bytes::u32_in(m, 0x545c) == 0x3f82_8f5c
            &&& bytes::u32_in(m, 0x5460) == 0x3f82_8f5c
            &&& bytes::u32_in(m, 0x5464) == 0x3f82_8f5c
            &&& bytes::u32_in(m, 0x5468) == 0x3f82_8f5c
            &&& bytes::u32_in(m, 0x5d70) == plan.duty
            &&& bytes::u32_in(m, 0x5d74) == 1000
            &&& bytes::u32_in(m, 0x5d78) == 1000
            &&& bytes::u32_in(m, 0x5db8) == 1000
            &&& bytes::u32_in(m, 0x5d84) == p.maximum_power
            &&& bytes::u32_in(m, 0x7c48) == p.maximum_power
        }),
{
    let fields = p.main_words(plan);
    assert(fields.len() == 28);
    reveal_with_fuel(bytes::held, 12);
    reveal_with_fuel(bytes::clear_of, 14);
    assert(bytes::clear_of(fields, 2, 14, 0x5384, 0x538c));
    assert(bytes::clear_of(fields, 2, 26, 0x5384, 0x538c));
    assert(bytes::clear_of(fields, 2, 28, 0x5384, 0x538c));
    bytes::lemma_clear_of(fields, 2, 28, 0x5384, 0x538c);
    bytes::lemma_held_u32(base, fields, 0x5384);
    bytes::lemma_held_u32(base, fields, 0x5388);
    assert(bytes::clear_of(fields, 3, 15, 0x5d38, 0x5d3c));
    assert(bytes::clear_of(fields, 3, 27, 0x5d38, 0x5d3c));
    assert(bytes::clear_of(fields, 3, 28, 0x5d38, 0x5d3c));
    bytes::lemma_clear_of(fields, 3, 28, 0x5d38, 0x5d3c);
    bytes::lemma_held_u32(base, fields, 0x5d38);
    assert(bytes::clear_of(fields, 13, 25, 0x5440, 0x5468));
    assert(bytes::clear_of(fields, 13, 28, 0x5440, 0x5468));
    bytes::lemma_clear_of(fields, 13, 28, 0x5440, 0x5468);
    bytes::lemma_held_u32(base, fields, 0x5440);
    bytes::lemma_held_u32(base, fields, 0x5444);
    bytes::lemma_held_u32(base, fields, 0x5448);
    bytes::lemma_held_u32(base, fields, 0x544c);
    bytes::lemma_held_u32(base, fields, 0x5450);
    bytes::lemma_held_u32(base, fields, 0x5454);
    bytes::lemma_held_u32(base, fields, 0x5458);
    bytes::lemma_held_u32(base, fields, 0x545c);
    bytes::lemma_held_u32(base, fields, 0x5460);
    bytes::lemma_held_u32(base, fields, 0x5464);
    assert(bytes::clear_of(fields, 19, 28, 0x5468, 0x5dbc));
    bytes::lemma_clear_of(fields, 19, 28, 0x5468, 0x5dbc);
    bytes::lemma_held_u32(base, fields, 0x5468);
    bytes::lemma_held_u32(base, fields, 0x5d70);
    bytes::lemma_held_u32(base, fields, 0x5d74);
    bytes::lemma_held_u32(base, fields, 0x5d78);
    bytes::lemma_held_u32(base, fields, 0x5db8);
    bytes::lemma_held_u32(base, fields, 0x5d84);
    assert(bytes::clear_of(fields, 20, 28, 0x7c48, 0x7c4c));
    bytes::lemma_clear_of(fields, 20, 28, 0x7c48, 0x7c4c);
    bytes::lemma_held_u32(base, fields, 0x7c48);
}

#[verifier::rlimit(50)]
proof fn lemma_main_layer_1(base: Seq<u8>, p: Platform, plan: PowerPlan)
    requires
        base.len() >= 0xb758,
    ensures
        ({
            let m = bytes::overlay(base, p.main_words(plan));
            &&& bytes::u32_in(m, 0x7c4c) == p.maximum_power
            &&& bytes::u32_in(m, 0x7c50) == p.maximum_power
            &&& bytes::u32_in(m, 0x7fc0) == plan.duty
            &&& bytes::u32_in(m, 0x7fc4) == 1000
            &&& bytes::u32_in(m, 0x757c) == p.freq_a@[10]
            &&& bytes::u32_in(m, 0x7590) == plan.duty
            &&& bytes::u32_in(m, 0x759c) == 1000
            &&& bytes::u32_in(m, 0x7bf0) == 1000
        }),
{
    let fields = p.main_words(plan);
    assert(fields.len() == 28);
    reveal_with_fuel(bytes::held, 12);
    bytes::lemma_held_u32(base, fields, 0x7c4c);
    bytes::lemma_held_u32(base, fields, 0x7c50);
    bytes::lemma_held_u32(base, fields, 0x7fc0);
    bytes::lemma_held_u32(base, fields, 0x7fc4);
    bytes::lemma_held_u32(base, fields, 0x757c);
    bytes::lemma_held_u32(base, fields, 0x7590);
    bytes::lemma_held_u32(base, fields, 0x759c);
    bytes::lemma_held_u32(base, fields, 0x7bf0);
}

/// The firmware reads back the integers of the main power controller and of the limits of peak power.
pub proof fn lemma_power_main(p: Platform, base: Seq<u8>, plan: PowerPlan, floats: PowerFloats)
    requires
        base.len() >= 0xb758,
    ensures
        ({
            let m = p.with_power(base, plan, floats);
            &&& bytes::u32_in(m, 0x5384) == p.period_clocks
            &&& bytes::u32_in(m, 0x5388) == p.period_clocks
            &&& bytes::u32_in(m, 0x5d38) == 625
            &&& bytes::u32_in(m, 0x5440) == 0x3f82_8f5c
            &&& bytes::u32_in(m, 0x5444) == 0x3f82_8f5c
            &&& bytes::u32_in(m, 0x5448) == 0x3f82_8f5c
            &&& bytes::u32_in(m, 0x544c) == 0x3f82_8f5c
            &&& bytes::u32_in(m, 0x5450) == 0x3f82_8f5c
            &&& bytes::u32_in(m, 0x5454) == 0x3f82_8f5c
            &&& bytes::u32_in(m, 0x5458) == 0x3f82_8f5c
            &&& bytes::u32_in(m, 0x545c) == 0x3f82_8f5c
            &&& bytes::u32_in(m, 0x5460) == 0x3f82_8f5c
            &&& bytes::u32_in(m, 0x5464) == 0x3f82_8f5c
            &&& bytes::u32_in(m, 0x5468) == 0x3f82_8f5c
            &&& bytes::u32_in(m, 0x5d70) == plan.duty
            &&& bytes::u32_in(m, 0x5d74) == 1000
            &&& bytes::u32_in(m, 0x5d78) == 1000
            &&& bytes::u32_in(m, 0x5db8) == 1000
            &&& bytes::u32_in(m, 0x5d84) == p.maximum_power
            &&& bytes::u32_in(m, 0x7c48) == p.maximum_power
        }),
{
    let a = bytes::overlay(base, power::power_slots(512));
    lemma_main_layer_0(a, p, plan);
    let part = bytes::overlay(a, p.main_words(plan));
    let all = p.with_power(base, plan, floats);
    assert forall|i: int| 0 <= i < 0xb758 && in_main(i) implies #[trigger] all[i] == part[i] by {
        lemma_parts_kept(p, base, plan, floats, i);
    }
}

/// The firmware reads back more of the integers of the main power controller and of the limits of peak power.
pub proof fn lemma_power_main_more(p: Platform, base: Seq<u8>, plan: PowerPlan, floats: PowerFloats)
    requires
        base.len() >= 0xb758,
    ensures
        ({
            let m = p.with_power(base, plan, floats);
            &&& bytes::u32_in(m, 0x7c4c) == p.maximum_power
            &&& bytes::u32_in(m, 0x7c50) == p.maximum_power
            &&& bytes::u32_in(m, 0x7fc0) == plan.duty
            &&& bytes::u32_in(m, 0x7fc4) == 1000
            &&& bytes::u32_in(m, 0x757c) == p.freq_a@[10]
            &&& bytes::u32_in(m, 0x7590) == plan.duty
            &&& bytes::u32_in(m, 0x759c) == 1000
            &&& bytes::u32_in(m, 0x7bf0) == 1000
        }),
{
    let a = bytes::overlay(base, power::power_slots(512));
    lemma_main_layer_1(a, p, plan);
    let part = bytes::overlay(a, p.main_words(plan));
    let all = p.with_power(base, plan, floats);
    assert forall|i: int| 0 <= i < 0xb758 && in_main(i) implies #[trigger] all[i] == part[i] by {
        lemma_parts_kept(p, base, plan, floats, i);
    }
}

#[verifier::rlimit(50)]
proof fn lemma_perf_layer_0(base: Seq<u8>, p: Platform, plan: PowerPlan)
    requires
        base.len() >= 0xb758,
    ensures
        ({
            let m = bytes::overlay(base, p.perf_words(plan));
            &&& bytes::u32_in(m, 0x5df0) == plan.ppm.count_x4
            &&& bytes::u32_in(m, 0x5e28) == plan.duty
            &&& bytes::u32_in(m, 0x5e2c) == 1000
            &&& bytes::u32_in(m, 0x5e3c) == p.maximum_power
            &&& bytes::u32_in(m, 0x5e48) == plan.ppm.duration
            &&& bytes::u64_in(m, 0x5e50) == plan.ppm.clocks
            &&& bytes::u32_in(m, 0x5390) == 4
            &&& bytes::u32_in(m, 0x53e0) == 4
            &&& bytes::u32_in(m, 0x53ac) == 1
            &&& bytes::u32_in(m, 0x53b0) == 1
            &&& bytes::u32_in(m, 0x53ec) == 1
            &&& bytes::u32_in(m, 0x53f0) == 1
            &&& bytes::u32_in(m, 0x53d0) == 100
            &&& bytes::u32_in(m, 0x5410) == 100
            &&& bytes::u32_in(m, 0x53bc) == 0
            &&& bytes::u32_in(m, 0x53c0) == plan.base_scaled
            &&& bytes::u32_in(m, 0x53c4) == 1
            &&& bytes::u32_in(m, 0x53c8) == 1000
            &&& bytes::u32_in(m, 0x53fc) == 0
            &&& bytes::u32_in(m, 0x5400) == plan.base_scaled
        }),
{
    let fields = p.perf_words(plan);
    assert(fields.len() == 35);
    reveal_with_fuel(bytes::held, 12);
    reveal_with_fuel(bytes::clear_of, 14);
    assert(bytes::clear_of(fields, 6, 18, 0x5df0, 0x5e58));
    assert(bytes::clear_of(fields, 6, 30, 0x5df0, 0x5e58));
    assert(bytes::clear_of(fields, 6, 35, 0x5df0, 0x5e58));
    bytes::lemma_clear_of(fields, 6, 35, 0x5df0, 0x5e58);
    bytes::lemma_held_u32(base, fields, 0x5df0);
    bytes::lemma_held_u32(base, fields, 0x5e28);
    bytes::lemma_held_u32(base, fields, 0x5e2c);
    bytes::lemma_held_u32(base, fields, 0x5e3c);
    bytes::lemma_held_u32(base, fields, 0x5e48);
    bytes::lemma_held_u64(base, fields, 0x5e50);
    assert(bytes::clear_of(fields, 7, 19, 0x5390, 0x5394));
    assert(bytes::clear_of(fields, 7, 31, 0x5390, 0x5394));
    assert(bytes::clear_of(fields, 7, 35, 0x5390, 0x5394));
    bytes::lemma_clear_of(fields, 7, 35, 0x5390, 0x5394);
    bytes::lemma_held_u32(base, fields, 0x5390);
    assert(bytes::clear_of(fields, 8, 20, 0x53e0, 0x53e4));
    assert(bytes::clear_of(fields, 8, 32, 0x53e0, 0x53e4));
    assert(bytes::clear_of(fields, 8, 35, 0x53e0, 0x53e4));
    bytes::lemma_clear_of(fields, 8, 35, 0x53e0, 0x53e4);
    bytes::lemma_held_u32(base, fields, 0x53e0);
    assert(bytes::clear_of(fields, 10, 22, 0x53ac, 0x53b4));
    assert(bytes::clear_of(fields, 10, 34, 0x53ac, 0x53b4));
    assert(bytes::clear_of(fields, 10, 35, 0x53ac, 0x53b4));
    bytes::lemma_clear_of(fields, 10, 35, 0x53ac, 0x53b4);
    bytes::lemma_held_u32(base, fields, 0x53ac);
    bytes::lemma_held_u32(base, fields, 0x53b0);
    assert(bytes::clear_of(fields, 13, 25, 0x53d0, 0x53f4));
    assert(bytes::clear_of(fields, 13, 35, 0x53d0, 0x53f4));
    bytes::lemma_clear_of(fields, 13, 35, 0x53d0, 0x53f4);
    bytes::lemma_held_u32(base, fields, 0x53ec);
    bytes::lemma_held_u32(base, fields, 0x53f0);
    bytes::lemma_held_u32(base, fields, 0x53d0);
    assert(bytes::clear_of(fields, 14, 26, 0x5410, 0x5414));
    assert(bytes::clear_of(fields, 14, 35, 0x5410, 0x5414));
    bytes::lemma_clear_of(fields, 14, 35, 0x5410, 0x5414);
    bytes::lemma_held_u32(base, fields, 0x5410);
    assert(bytes::clear_of(fields, 20, 32, 0x53bc, 0x5404));
    assert(bytes::clear_of(fields, 20, 35, 0x53bc, 0x5404));
    bytes::lemma_clear_of(fields, 20, 35, 0x53bc, 0x5404);
    bytes::lemma_held_u32(base, fields, 0x53bc);
    bytes::lemma_held_u32(base, fields, 0x53c0);
    bytes::lemma_held_u32(base, fields, 0x53c4);
    bytes::lemma_held_u32(base, fields, 0x53c8);
    bytes::lemma_held_u32(base, fields, 0x53fc);
    bytes::lemma_held_u32(base, fields, 0x5400);
}

#[verifier::rlimit(50)]
proof fn lemma_perf_layer_1(base: Seq<u8>, p: Platform, plan: PowerPlan)
    requires
        base.len() >= 0xb758,
    ensures
        ({
            let m = bytes::overlay(base, p.perf_words(plan));
            &&& bytes::u32_in(m, 0x5404) == 1
            &&& bytes::u32_in(m, 0x5408) == 1000
            &&& bytes::u32_in(m, 0x5ea8) == plan.target
            &&& bytes::u32_in(m, 0x5eb0) == plan.boost
            &&& bytes::u32_in(m, 0x5eb4) == plan.boost_step
            &&& bytes::u32_in(m, 0x5eb8) == plan.reset_iters
            &&& bytes::u32_in(m, 0x5ec0) == 6
            &&& bytes::u32_in(m, 0x5ec4) == 1
            &&& bytes::u32_in(m, 0x5ec8) == plan.drop_threshold
            &&& bytes::u32_in(m, 0x5ef8) == plan.base_scaled
            &&& bytes::u32_in(m, 0x5efc) == 1000
            &&& bytes::u32_in(m, 0x5f00) == plan.base_scaled
            &&& bytes::u32_in(m, 0x5f0c) == plan.target
            &&& bytes::u32_in(m, 0x5f14) == plan.dead_zone
            &&& bytes::u32_in(m, 0x5f40) == plan.base_scaled
        }),
{
    let fields = p.perf_words(plan);
    assert(fields.len() == 35);
    reveal_with_fuel(bytes::held, 12);
    reveal_with_fuel(bytes::clear_of, 14);
    assert(bytes::clear_of(fields, 30, 35, 0x5404, 0x5efc));
    bytes::lemma_clear_of(fields, 30, 35, 0x5404, 0x5efc);
    bytes::lemma_held_u32(base, fields, 0x5404);
    bytes::lemma_held_u32(base, fields, 0x5408);
    bytes::lemma_held_u32(base, fields, 0x5ea8);
    bytes::lemma_held_u32(base, fields, 0x5eb0);
    bytes::lemma_held_u32(base, fields, 0x5eb4);
    bytes::lemma_held_u32(base, fields, 0x5eb8);
    bytes::lemma_held_u32(base, fields, 0x5ec0);
    bytes::lemma_held_u32(base, fields, 0x5ec4);
    bytes::lemma_held_u32(base, fields, 0x5ec8);
    bytes::lemma_held_u32(base, fields, 0x5ef8);
    bytes::lemma_held_u32(base, fields, 0x5efc);
    bytes::lemma_held_u32(base, fields, 0x5f00);
    bytes::lemma_held_u32(base, fields, 0x5f0c);
    bytes::lemma_held_u32(base, fields, 0x5f14);
    bytes::lemma_held_u32(base, fields, 0x5f40);
}

/// The firmware reads back the integers of the controllers of peak power and of performance.
pub proof fn lemma_power_perf(p: Platform, base: Seq<u8>, plan: PowerPlan, floats: PowerFloats)
    requires
        base.len() >= 0xb758,
    ensures
        ({
            let m = p.with_power(base, plan, floats);
            &&& bytes::u32_in(m, 0x5df0) == plan.ppm.count_x4
            &&& bytes::u32_in(m, 0x5e28) == plan.duty
            &&& bytes::u32_in(m, 0x5e2c) == 1000
            &&& bytes::u32_in(m, 0x5e3c) == p.maximum_power
            &&& bytes::u32_in(m, 0x5e48) == plan.ppm.duration
            &&& bytes::u64_in(m, 0x5e50) == plan.ppm.clocks
            &&& bytes::u32_in(m, 0x5390) == 4
            &&& bytes::u32_in(m, 0x53e0) == 4
            &&& bytes::u32_in(m, 0x53ac) == 1
            &&& bytes::u32_in(m, 0x53b0) == 1
            &&& bytes::u32_in(m, 0x53ec) == 1
            &&& bytes::u32_in(m, 0x53f0) == 1
            &&& bytes::u32_in(m, 0x53d0) == 100
            &&& bytes::u32_in(m, 0x5410) == 100
            &&& bytes::u32_in(m, 0x53bc) == 0
            &&& bytes::u32_in(m, 0x53c0) == plan.base_scaled
            &&& bytes::u32_in(m, 0x53c4) == 1
            &&& bytes::u32_in(m, 0x53c8) == 1000
            &&& bytes::u32_in(m, 0x53fc) == 0
            &&& bytes::u32_in(m, 0x5400) == plan.base_scaled
        }),
{
    let a = bytes::overlay(base, power::power_slots(512));
    let b = bytes::overlay(a, p.main_words(plan));
    lemma_perf_layer_0(b, p, plan);
    let part = bytes::overlay(b, p.perf_words(plan));
    let all = p.with_power(base, plan, floats);
    assert forall|i: int| 0 <= i < 0xb758 && in_perf(i) implies #[trigger] all[i] == part[i] by {
        lemma_parts_kept(p, base, plan, floats, i);
    }
}

/// The firmware reads back more of the integers of the controllers of peak power and of performance.
pub proof fn lemma_power_perf_more(p: Platform, base: Seq<u8>, plan: PowerPlan, floats: PowerFloats)
    requires
        base.len() >= 0xb758,
    ensures
        ({
            let m = p.with_power(base, plan, floats);
            &&& bytes::u32_in(m, 0x5404) == 1
            &&& bytes::u32_in(m, 0x5408) == 1000
            &&& bytes::u32_in(m, 0x5ea8) == plan.target
            &&& bytes::u32_in(m, 0x5eb0) == plan.boost
            &&& bytes::u32_in(m, 0x5eb4) == plan.boost_step
            &&& bytes::u32_in(m, 0x5eb8) == plan.reset_iters
            &&& bytes::u32_in(m, 0x5ec0) == 6
            &&& bytes::u32_in(m, 0x5ec4) == 1
            &&& bytes::u32_in(m, 0x5ec8) == plan.drop_threshold
            &&& bytes::u32_in(m, 0x5ef8) == plan.base_scaled
            &&& bytes::u32_in(m, 0x5efc) == 1000
            &&& bytes::u32_in(m, 0x5f00) == plan.base_scaled
            &&& bytes::u32_in(m, 0x5f0c) == plan.target
            &&& bytes::u32_in(m, 0x5f14) == plan.dead_zone
            &&& bytes::u32_in(m, 0x5f40) == plan.base_scaled
        }),
{
    let a = bytes::overlay(base, power::power_slots(512));
    let b = bytes::overlay(a, p.main_words(plan));
    lemma_perf_layer_1(b, p, plan);
    let part = bytes::overlay(b, p.perf_words(plan));
    let all = p.with_power(base, plan, floats);
    assert forall|i: int| 0 <= i < 0xb758 && in_perf(i) implies #[trigger] all[i] == part[i] by {
        lemma_parts_kept(p, base, plan, floats, i);
    }
}

#[verifier::rlimit(50)]
proof fn lemma_average_layer_0(base: Seq<u8>, p: Platform, plan: PowerPlan)
    requires
        base.len() >= 0xb758,
    ensures
        ({
            let m = bytes::overlay(base, p.average_words(plan));
            &&& bytes::u32_in(m, 0x7f04) == 100
            &&& bytes::u32_in(m, 0x7f08) == 1000
            &&& bytes::u32_in(m, 0x7f0c) == plan.base_scaled
            &&& bytes::u32_in(m, 0x7f24) == plan.se.duration
            &&& bytes::u32_in(m, 0x7f28) == plan.se_1.duration
            &&& bytes::u32_in(m, 0x7f68) == plan.micros
            &&& bytes::u32_in(m, 0x7ecc) == 50
            &&& bytes::u32_in(m, 0x7ed0) == 1
            &&& bytes::u32_in(m, 0x7f18) == 1400
            &&& bytes::u32_in(m, 0x7f6c) == plan.frames
            &&& bytes::u32_in(m, 0x7f70) == plan.inactive_threshold
            &&& bytes::u32_in(m, 0x7f74) == plan.engagement_criteria
            &&& bytes::u32_in(m, 0x7f78) == plan.engagement_tolerance
            &&& bytes::u32_in(m, 0x7f7c) == plan.reset_tolerance
            &&& bytes::u32_in(m, 0x7f80) == plan.reset_criteria
            &&& bytes::u64_in(m, 0x7f2c) == plan.se.clocks
            &&& bytes::u64_in(m, 0x7f34) == plan.se_1.clocks
            &&& bytes::u32_in(m, 0x7c64) == plan.average_target.count_x4
            &&& bytes::u32_in(m, 0x7c68) == plan.average_target.duration
            &&& bytes::u64_in(m, 0x7c6c) == plan.average_target.clocks
        }),
{
    let fields = p.average_words(plan);
    assert(fields.len() == 28);
    reveal_with_fuel(bytes::held, 12);
    reveal_with_fuel(bytes::clear_of, 14);
    assert(bytes::clear_of(fields, 3, 15, 0x7f04, 0x7f10));
    assert(bytes::clear_of(fields, 3, 27, 0x7f04, 0x7f10));
    assert(bytes::clear_of(fields, 3, 28, 0x7f04, 0x7f10));
    bytes::lemma_clear_of(fields, 3, 28, 0x7f04, 0x7f10);
    bytes::lemma_held_u32(base, fields, 0x7f04);
    bytes::lemma_held_u32(base, fields, 0x7f08);
    bytes::lemma_held_u32(base, fields, 0x7f0c);
    assert(bytes::clear_of(fields, 5, 17, 0x7f24, 0x7f2c));
    assert(bytes::clear_of(fields, 5, 28, 0x7f24, 0x7f2c));
    bytes::lemma_clear_of(fields, 5, 28, 0x7f24, 0x7f2c);
    bytes::lemma_held_u32(base, fields, 0x7f24);
    bytes::lemma_held_u32(base, fields, 0x7f28);
    assert(bytes::clear_of(fields, 6, 18, 0x7f68, 0x7f6c));
    assert(bytes::clear_of(fields, 6, 28, 0x7f68, 0x7f6c));
    bytes::lemma_clear_of(fields, 6, 28, 0x7f68, 0x7f6c);
    bytes::lemma_held_u32(base, fields, 0x7f68);
    assert(bytes::clear_of(fields, 9, 21, 0x7ecc, 0x7f1c));
    assert(bytes::clear_of(fields, 9, 28, 0x7ecc, 0x7f1c));
    bytes::lemma_clear_of(fields, 9, 28, 0x7ecc, 0x7f1c);
    bytes::lemma_held_u32(base, fields, 0x7ecc);
    bytes::lemma_held_u32(base, fields, 0x7ed0);
    bytes::lemma_held_u32(base, fields, 0x7f18);
    assert(bytes::clear_of(fields, 17, 28, 0x7f2c, 0x7f84));
    bytes::lemma_clear_of(fields, 17, 28, 0x7f2c, 0x7f84);
    bytes::lemma_held_u32(base, fields, 0x7f6c);
    bytes::lemma_held_u32(base, fields, 0x7f70);
    bytes::lemma_held_u32(base, fields, 0x7f74);
    bytes::lemma_held_u32(base, fields, 0x7f78);
    bytes::lemma_held_u32(base, fields, 0x7f7c);
    bytes::lemma_held_u32(base, fields, 0x7f80);
    bytes::lemma_held_u64(base, fields, 0x7f2c);
    bytes::lemma_held_u64(base, fields, 0x7f34);
    assert(bytes::clear_of(fields, 20, 28, 0x7c64, 0x7c74));
    bytes::lemma_clear_of(fields, 20, 28, 0x7c64, 0x7c74);
    bytes::lemma_held_u32(base, fields, 0x7c64);
    bytes::lemma_held_u32(base, fields, 0x7c68);
    bytes::lemma_held_u64(base, fields, 0x7c6c);
}

#[verifier::rlimit(50)]
proof fn lemma_average_layer_1(base: Seq<u8>, p: Platform, plan: PowerPlan)
    requires
        base.len() >= 0xb758,
    ensures
        ({
            let m = bytes::overlay(base, p.average_words(plan));
            &&& bytes::u32_in(m, 0x7d74) == plan.avg_duty
            &&& bytes::u32_in(m, 0x7d78) == 1000
            &&& bytes::u32_in(m, 0x7d7c) == 1000
            &&& bytes::u32_in(m, 0x7d88) == p.maximum_power
            &&& bytes::u32_in(m, 0x7dbc) == 1000
            &&& bytes::u32_in(m, 0x7d3c) == plan.average.count_x4
            &&& bytes::u32_in(m, 0x7d94) == plan.average.duration
            &&& bytes::u64_in(m, 0x7d9c) == plan.average.clocks
        }),
{
    let fields = p.average_words(plan);
    assert(fields.len() == 28);
    reveal_with_fuel(bytes::held, 12);
    bytes::lemma_held_u32(base, fields, 0x7d74);
    bytes::lemma_held_u32(base, fields, 0x7d78);
    bytes::lemma_held_u32(base, fields, 0x7d7c);
    bytes::lemma_held_u32(base, fields, 0x7d88);
    bytes::lemma_held_u32(base, fields, 0x7dbc);
    bytes::lemma_held_u32(base, fields, 0x7d3c);
    bytes::lemma_held_u32(base, fields, 0x7d94);
    bytes::lemma_held_u64(base, fields, 0x7d9c);
}

/// The firmware reads back the integers of the controllers of the shader engine and of average power.
pub proof fn lemma_power_average(p: Platform, base: Seq<u8>, plan: PowerPlan, floats: PowerFloats)
    requires
        base.len() >= 0xb758,
    ensures
        ({
            let m = p.with_power(base, plan, floats);
            &&& bytes::u32_in(m, 0x7f04) == 100
            &&& bytes::u32_in(m, 0x7f08) == 1000
            &&& bytes::u32_in(m, 0x7f0c) == plan.base_scaled
            &&& bytes::u32_in(m, 0x7f24) == plan.se.duration
            &&& bytes::u32_in(m, 0x7f28) == plan.se_1.duration
            &&& bytes::u32_in(m, 0x7f68) == plan.micros
            &&& bytes::u32_in(m, 0x7ecc) == 50
            &&& bytes::u32_in(m, 0x7ed0) == 1
            &&& bytes::u32_in(m, 0x7f18) == 1400
            &&& bytes::u32_in(m, 0x7f6c) == plan.frames
            &&& bytes::u32_in(m, 0x7f70) == plan.inactive_threshold
            &&& bytes::u32_in(m, 0x7f74) == plan.engagement_criteria
            &&& bytes::u32_in(m, 0x7f78) == plan.engagement_tolerance
            &&& bytes::u32_in(m, 0x7f7c) == plan.reset_tolerance
            &&& bytes::u32_in(m, 0x7f80) == plan.reset_criteria
            &&& bytes::u64_in(m, 0x7f2c) == plan.se.clocks
            &&& bytes::u64_in(m, 0x7f34) == plan.se_1.clocks
            &&& bytes::u32_in(m, 0x7c64) == plan.average_target.count_x4
            &&& bytes::u32_in(m, 0x7c68) == plan.average_target.duration
            &&& bytes::u64_in(m, 0x7c6c) == plan.average_target.clocks
        }),
{
    let a = bytes::overlay(base, power::power_slots(512));
    let b = bytes::overlay(a, p.main_words(plan));
    let c = bytes::overlay(b, p.perf_words(plan));
    lemma_average_layer_0(c, p, plan);
    let part = bytes::overlay(c, p.average_words(plan));
    let all = p.with_power(base, plan, floats);
    assert forall|i: int| 0 <= i < 0xb758 && in_average(i) implies #[trigger] all[i] == part[i] by {
        lemma_parts_kept(p, base, plan, floats, i);
    }
}

/// The firmware reads back more of the integers of the controllers of the shader engine and of average power.
pub proof fn lemma_power_average_more(p: Platform, base: Seq<u8>, plan: PowerPlan, floats: PowerFloats)
    requires
        base.len() >= 0xb758,
    ensures
        ({
            let m = p.with_power(base, plan, floats);
            &&& bytes::u32_in(m, 0x7d74) == plan.avg_duty
            &&& bytes::u32_in(m, 0x7d78) == 1000
            &&& bytes::u32_in(m, 0x7d7c) == 1000
            &&& bytes::u32_in(m, 0x7d88) == p.maximum_power
            &&& bytes::u32_in(m, 0x7dbc) == 1000
            &&& bytes::u32_in(m, 0x7d3c) == plan.average.count_x4
            &&& bytes::u32_in(m, 0x7d94) == plan.average.duration
            &&& bytes::u64_in(m, 0x7d9c) == plan.average.clocks
        }),
{
    let a = bytes::overlay(base, power::power_slots(512));
    let b = bytes::overlay(a, p.main_words(plan));
    let c = bytes::overlay(b, p.perf_words(plan));
    lemma_average_layer_1(c, p, plan);
    let part = bytes::overlay(c, p.average_words(plan));
    let all = p.with_power(base, plan, floats);
    assert forall|i: int| 0 <= i < 0xb758 && in_average(i) implies #[trigger] all[i] == part[i] by {
        lemma_parts_kept(p, base, plan, floats, i);
    }
}

#[verifier::rlimit(50)]
proof fn lemma_thermal_layer_0(base: Seq<u8>, p: Platform, plan: PowerPlan, release: u32, delta: u32)
    requires
        base.len() >= 0xb758,
    ensures
        ({
            let turbo = power::turbo_of(plan.turbo);
            let m = bytes::overlay(base, p.thermal_words(plan, release, delta));
            &&& bytes::u64_in(m, 0x75e8) == 0x6958
            &&& bytes::u32_in(m, 0x75f0) == release
            &&& bytes::u32_in(m, 0x75f8) == 4
            &&& bytes::u32_in(m, 0x7630) == plan.duty
            &&& bytes::u32_in(m, 0x7634) == 1000
            &&& bytes::u32_in(m, 0x7638) == 1000
            &&& bytes::u32_in(m, 0x763c) == delta
            &&& bytes::u32_in(m, 0x7644) == 11000
            &&& bytes::u32_in(m, 0x7678) == 1000
            &&& m[0x7898] == (if plan.turbo is Some { 1int } else { 0 })
            &&& m[0x7899] == (if plan.turbo == Some(1u32) { 1int } else { 0 })
            &&& bytes::u32_in(m, 0x7ad6) == 900
            &&& bytes::u32_in(m, 0x7ada) == 1000
            &&& bytes::u32_in(m, 0x7ade) == 1000
            &&& bytes::u32_in(m, 0x7aea) == turbo.target
            &&& bytes::u32_in(m, 0x7af2) == turbo.delta
            &&& bytes::u32_in(m, 0x7b1e) == 1000
            &&& bytes::u32_in(m, 0x7b3a) == 200
            &&& bytes::u32_in(m, 0x7b52) == turbo.threshold
            &&& bytes::u32_in(m, 0x81ac) == 4
        }),
{
    let fields = p.thermal_words(plan, release, delta);
    assert(fields.len() == 30);
    reveal_with_fuel(bytes::held, 12);
    reveal_with_fuel(bytes::clear_of, 14);
    assert(bytes::clear_of(fields, 10, 22, 0x75e8, 0x7899));
    assert(bytes::clear_of(fields, 10, 30, 0x75e8, 0x7899));
    bytes::lemma_clear_of(fields, 10, 30, 0x75e8, 0x7899);
    bytes::lemma_held_u64(base, fields, 0x75e8);
    bytes::lemma_held_u32(base, fields, 0x75f0);
    bytes::lemma_held_u32(base, fields, 0x75f8);
    bytes::lemma_held_u32(base, fields, 0x7630);
    bytes::lemma_held_u32(base, fields, 0x7634);
    bytes::lemma_held_u32(base, fields, 0x7638);
    bytes::lemma_held_u32(base, fields, 0x763c);
    bytes::lemma_held_u32(base, fields, 0x7644);
    bytes::lemma_held_u32(base, fields, 0x7678);
    bytes::lemma_held_u8(base, fields, 0x7898);
    assert(bytes::clear_of(fields, 20, 30, 0x7899, 0x81b0));
    bytes::lemma_clear_of(fields, 20, 30, 0x7899, 0x81b0);
    bytes::lemma_held_u8(base, fields, 0x7899);
    bytes::lemma_held_u32(base, fields, 0x7ad6);
    bytes::lemma_held_u32(base, fields, 0x7ada);
    bytes::lemma_held_u32(base, fields, 0x7ade);
    bytes::lemma_held_u32(base, fields, 0x7aea);
    bytes::lemma_held_u32(base, fields, 0x7af2);
    bytes::lemma_held_u32(base, fields, 0x7b1e);
    bytes::lemma_held_u32(base, fields, 0x7b3a);
    bytes::lemma_held_u32(base, fields, 0x7b52);
    bytes::lemma_held_u32(base, fields, 0x81ac);
}

#[verifier::rlimit(50)]
proof fn lemma_thermal_layer_1(base: Seq<u8>, p: Platform, plan: PowerPlan, release: u32, delta: u32)
    requires
        base.len() >= 0xb758,
    ensures
        ({
            let m = bytes::overlay(base, p.thermal_words(plan, release, delta));
            &&& bytes::u32_in(m, 0x81e4) == 900
            &&& bytes::u32_in(m, 0x81e8) == 1000
            &&& bytes::u32_in(m, 0x81ec) == 1000
            &&& bytes::u32_in(m, 0x81f8) == 1000
            &&& bytes::u32_in(m, 0x822c) == 1000
            &&& bytes::u32_in(m, 0xb6a0) == 0x67305452
            &&& bytes::u32_in(m, 0xb708) == 0x67307430
            &&& bytes::u32_in(m, 0xb70c) == 0x67307431
            &&& bytes::u32_in(m, 0xb710) == 0x67304542
            &&& bytes::u32_in(m, 0xb714) == 0x6730454c
        }),
{
    let fields = p.thermal_words(plan, release, delta);
    assert(fields.len() == 30);
    reveal_with_fuel(bytes::held, 12);
    bytes::lemma_held_u32(base, fields, 0x81e4);
    bytes::lemma_held_u32(base, fields, 0x81e8);
    bytes::lemma_held_u32(base, fields, 0x81ec);
    bytes::lemma_held_u32(base, fields, 0x81f8);
    bytes::lemma_held_u32(base, fields, 0x822c);
    bytes::lemma_held_u32(base, fields, 0xb6a0);
    bytes::lemma_held_u32(base, fields, 0xb708);
    bytes::lemma_held_u32(base, fields, 0xb70c);
    bytes::lemma_held_u32(base, fields, 0xb710);
    bytes::lemma_held_u32(base, fields, 0xb714);
}

/// The firmware reads back the integers of the controllers of temperature and of turbo.
pub proof fn lemma_power_thermal(p: Platform, base: Seq<u8>, plan: PowerPlan, floats: PowerFloats)
    requires
        base.len() >= 0xb758,
    ensures
        ({
            let m = p.with_power(base, plan, floats);
            &&& bytes::u64_in(m, 0x75e8) == 0x6958
            &&& bytes::u32_in(m, 0x75f0) == floats.release->0
            &&& bytes::u32_in(m, 0x75f8) == 4
            &&& bytes::u32_in(m, 0x7630) == plan.duty
            &&& bytes::u32_in(m, 0x7634) == 1000
            &&& bytes::u32_in(m, 0x7638) == 1000
            &&& bytes::u32_in(m, 0x763c) == floats.delta->0
            &&& bytes::u32_in(m, 0x7644) == 11000
            &&& bytes::u32_in(m, 0x7678) == 1000
            &&& m[0x7898] == (if plan.turbo is Some { 1int } else { 0 })
            &&& m[0x7899] == (if plan.turbo == Some(1u32) { 1int } else { 0 })
            &&& bytes::u32_in(m, 0x7ad6) == 900
            &&& bytes::u32_in(m, 0x7ada) == 1000
            &&& bytes::u32_in(m, 0x7ade) == 1000
            &&& bytes::u32_in(m, 0x7aea) == power::turbo_of(plan.turbo).target
            &&& bytes::u32_in(m, 0x7af2) == power::turbo_of(plan.turbo).delta
            &&& bytes::u32_in(m, 0x7b1e) == 1000
            &&& bytes::u32_in(m, 0x7b3a) == 200
            &&& bytes::u32_in(m, 0x7b52) == power::turbo_of(plan.turbo).threshold
            &&& bytes::u32_in(m, 0x81ac) == 4
        }),
{
    let a = bytes::overlay(base, power::power_slots(512));
    let b = bytes::overlay(a, p.main_words(plan));
    let c = bytes::overlay(b, p.perf_words(plan));
    let d = bytes::overlay(c, p.average_words(plan));
    lemma_thermal_layer_0(d, p, plan, floats.release->0, floats.delta->0);
    let part = bytes::overlay(d, p.thermal_words(plan, floats.release->0, floats.delta->0));
    let all = p.with_power(base, plan, floats);
    assert forall|i: int| 0 <= i < 0xb758 && in_thermal(i) implies #[trigger] all[i] == part[i] by {
        lemma_parts_kept(p, base, plan, floats, i);
    }
}

/// The firmware reads back more of the integers of the controllers of temperature and of turbo.
pub proof fn lemma_power_thermal_more(p: Platform, base: Seq<u8>, plan: PowerPlan, floats: PowerFloats)
    requires
        base.len() >= 0xb758,
    ensures
        ({
            let m = p.with_power(base, plan, floats);
            &&& bytes::u32_in(m, 0x81e4) == 900
            &&& bytes::u32_in(m, 0x81e8) == 1000
            &&& bytes::u32_in(m, 0x81ec) == 1000
            &&& bytes::u32_in(m, 0x81f8) == 1000
            &&& bytes::u32_in(m, 0x822c) == 1000
            &&& bytes::u32_in(m, 0xb6a0) == 0x67305452
            &&& bytes::u32_in(m, 0xb708) == 0x67307430
            &&& bytes::u32_in(m, 0xb70c) == 0x67307431
            &&& bytes::u32_in(m, 0xb710) == 0x67304542
            &&& bytes::u32_in(m, 0xb714) == 0x6730454c
        }),
{
    let a = bytes::overlay(base, power::power_slots(512));
    let b = bytes::overlay(a, p.main_words(plan));
    let c = bytes::overlay(b, p.perf_words(plan));
    let d = bytes::overlay(c, p.average_words(plan));
    lemma_thermal_layer_1(d, p, plan, floats.release->0, floats.delta->0);
    let part = bytes::overlay(d, p.thermal_words(plan, floats.release->0, floats.delta->0));
    let all = p.with_power(base, plan, floats);
    assert forall|i: int| 0 <= i < 0xb758 && in_thermal(i) implies #[trigger] all[i] == part[i] by {
        lemma_parts_kept(p, base, plan, floats, i);
    }
}

#[verifier::rlimit(50)]
proof fn lemma_first_layer_0(base: Seq<u8>, p: Platform, plan: PowerPlan, floats: PowerFloats)
    requires
        base.len() >= 0xb758,
    ensures
        ({
            let m = bytes::overlay(base, p.first_numbers(plan, floats));
            &&& bytes::u32_in(m, 0x5d44) == floats.pwr.alpha
            &&& bytes::u32_in(m, 0x5d4c) == floats.pwr.inverse
            &&& bytes::u32_in(m, 0x5d54) == plan.pwr_integral_gain
            &&& bytes::u32_in(m, 0x5d5c) == floats.minimum
            &&& bytes::u32_in(m, 0x5d60) == floats.maximum
            &&& bytes::u32_in(m, 0x5d64) == plan.pwr_proportional_gain
            &&& bytes::u32_in(m, 0x5d6c) == floats.slope
            &&& bytes::u32_in(m, 0x7fb0) == 0x4780_0000
            &&& bytes::u32_in(m, 0x7fb4) == 0
            &&& bytes::u32_in(m, 0x7570) == 0x4780_0000
            &&& bytes::u32_in(m, 0x7574) == floats.duty
            &&& bytes::u32_in(m, 0x7578) == 0x447a_0000
            &&& bytes::u32_in(m, 0x7598) == 0x42c8_0000
            &&& bytes::u32_in(m, 0x75a4) == floats.five.alpha
            &&& bytes::u32_in(m, 0x75a8) == floats.five.inverse
            &&& bytes::u32_in(m, 0x5dfc) == floats.ppm.alpha
            &&& bytes::u32_in(m, 0x5e04) == floats.ppm.inverse
            &&& bytes::u32_in(m, 0x5e0c) == floats.ppm_ki
            &&& bytes::u32_in(m, 0x5e14) == floats.minimum
            &&& bytes::u32_in(m, 0x5e18) == 0x4780_0000
        }),
{
    let fields = p.first_numbers(plan, floats);
    assert(fields.len() == 39);
    reveal_with_fuel(bytes::held, 12);
    reveal_with_fuel(bytes::clear_of, 14);
    assert(bytes::clear_of(fields, 7, 19, 0x5d44, 0x5d70));
    assert(bytes::clear_of(fields, 7, 31, 0x5d44, 0x5d70));
    assert(bytes::clear_of(fields, 7, 39, 0x5d44, 0x5d70));
    bytes::lemma_clear_of(fields, 7, 39, 0x5d44, 0x5d70);
    bytes::lemma_held_u32(base, fields, 0x5d44);
    bytes::lemma_held_u32(base, fields, 0x5d4c);
    bytes::lemma_held_u32(base, fields, 0x5d54);
    bytes::lemma_held_u32(base, fields, 0x5d5c);
    bytes::lemma_held_u32(base, fields, 0x5d60);
    bytes::lemma_held_u32(base, fields, 0x5d64);
    bytes::lemma_held_u32(base, fields, 0x5d6c);
    assert(bytes::clear_of(fields, 9, 21, 0x7fb0, 0x7fb8));
    assert(bytes::clear_of(fields, 9, 33, 0x7fb0, 0x7fb8));
    assert(bytes::clear_of(fields, 9, 39, 0x7fb0, 0x7fb8));
    bytes::lemma_clear_of(fields, 9, 39, 0x7fb0, 0x7fb8);
    bytes::lemma_held_u32(base, fields, 0x7fb0);
    bytes::lemma_held_u32(base, fields, 0x7fb4);
    assert(bytes::clear_of(fields, 15, 27, 0x7570, 0x75ac));
    assert(bytes::clear_of(fields, 15, 39, 0x7570, 0x75ac));
    bytes::lemma_clear_of(fields, 15, 39, 0x7570, 0x75ac);
    bytes::lemma_held_u32(base, fields, 0x7570);
    bytes::lemma_held_u32(base, fields, 0x7574);
    bytes::lemma_held_u32(base, fields, 0x7578);
    bytes::lemma_held_u32(base, fields, 0x7598);
    bytes::lemma_held_u32(base, fields, 0x75a4);
    bytes::lemma_held_u32(base, fields, 0x75a8);
    assert(bytes::clear_of(fields, 20, 32, 0x5dfc, 0x5e1c));
    assert(bytes::clear_of(fields, 20, 39, 0x5dfc, 0x5e1c));
    bytes::lemma_clear_of(fields, 20, 39, 0x5dfc, 0x5e1c);
    bytes::lemma_held_u32(base, fields, 0x5dfc);
    bytes::lemma_held_u32(base, fields, 0x5e04);
    bytes::lemma_held_u32(base, fields, 0x5e0c);
    bytes::lemma_held_u32(base, fields, 0x5e14);
    bytes::lemma_held_u32(base, fields, 0x5e18);
}

#[verifier::rlimit(50)]
proof fn lemma_first_layer_1(base: Seq<u8>, p: Platform, plan: PowerPlan, floats: PowerFloats)
    requires
        base.len() >= 0xb758,
    ensures
        ({
            let m = bytes::overlay(base, p.first_numbers(plan, floats));
            &&& bytes::u32_in(m, 0x5e1c) == plan.ppm_kp
            &&& bytes::u32_in(m, 0x5394) == 0x3f80_0000
            &&& bytes::u32_in(m, 0x53e4) == 0x3f80_0000
            &&& bytes::u32_in(m, 0x5ecc) == floats.perf.alpha
            &&& bytes::u32_in(m, 0x5ed0) == floats.perf2.alpha
            &&& bytes::u32_in(m, 0x5ed4) == floats.perf.inverse
            &&& bytes::u32_in(m, 0x5ed8) == floats.perf2.inverse
            &&& bytes::u32_in(m, 0x5edc) == plan.perf_integral_gain
            &&& bytes::u32_in(m, 0x5ee0) == plan.perf_integral_gain2
            &&& bytes::u32_in(m, 0x5ee4) == floats.integral_minimum
            &&& bytes::u32_in(m, 0x5ee8) == 0x42be_0000
            &&& bytes::u32_in(m, 0x5eec) == plan.perf_proportional_gain
            &&& bytes::u32_in(m, 0x5ef0) == plan.perf_proportional_gain2
            &&& bytes::u32_in(m, 0x5ef4) == floats.headroom
            &&& bytes::u32_in(m, 0x7ed8) == floats.se.alpha
            &&& bytes::u32_in(m, 0x7edc) == floats.se_1.alpha
            &&& bytes::u32_in(m, 0x7ee0) == floats.se.inverse
            &&& bytes::u32_in(m, 0x7ee4) == floats.se_1.inverse
            &&& bytes::u32_in(m, 0x7ee8) == floats.se_ki
        }),
{
    let fields = p.first_numbers(plan, floats);
    assert(fields.len() == 39);
    reveal_with_fuel(bytes::held, 12);
    reveal_with_fuel(bytes::clear_of, 14);
    assert(bytes::clear_of(fields, 30, 39, 0x5394, 0x5ee8));
    bytes::lemma_clear_of(fields, 30, 39, 0x5394, 0x5ee8);
    bytes::lemma_held_u32(base, fields, 0x5e1c);
    bytes::lemma_held_u32(base, fields, 0x5394);
    bytes::lemma_held_u32(base, fields, 0x53e4);
    bytes::lemma_held_u32(base, fields, 0x5ecc);
    bytes::lemma_held_u32(base, fields, 0x5ed0);
    bytes::lemma_held_u32(base, fields, 0x5ed4);
    bytes::lemma_held_u32(base, fields, 0x5ed8);
    bytes::lemma_held_u32(base, fields, 0x5edc);
    bytes::lemma_held_u32(base, fields, 0x5ee0);
    bytes::lemma_held_u32(base, fields, 0x5ee4);
    bytes::lemma_held_u32(base, fields, 0x5ee8);
    bytes::lemma_held_u32(base, fields, 0x5eec);
    bytes::lemma_held_u32(base, fields, 0x5ef0);
    bytes::lemma_held_u32(base, fields, 0x5ef4);
    bytes::lemma_held_u32(base, fields, 0x7ed8);
    bytes::lemma_held_u32(base, fields, 0x7edc);
    bytes::lemma_held_u32(base, fields, 0x7ee0);
    bytes::lemma_held_u32(base, fields, 0x7ee4);
    bytes::lemma_held_u32(base, fields, 0x7ee8);
}

/// The firmware reads back the numbers of the controllers of power and performance.
pub proof fn lemma_power_first(p: Platform, base: Seq<u8>, plan: PowerPlan, floats: PowerFloats)
    requires
        base.len() >= 0xb758,
    ensures
        ({
            let m = p.with_power(base, plan, floats);
            &&& bytes::u32_in(m, 0x5d44) == floats.pwr.alpha
            &&& bytes::u32_in(m, 0x5d4c) == floats.pwr.inverse
            &&& bytes::u32_in(m, 0x5d54) == plan.pwr_integral_gain
            &&& bytes::u32_in(m, 0x5d5c) == floats.minimum
            &&& bytes::u32_in(m, 0x5d60) == floats.maximum
            &&& bytes::u32_in(m, 0x5d64) == plan.pwr_proportional_gain
            &&& bytes::u32_in(m, 0x5d6c) == floats.slope
            &&& bytes::u32_in(m, 0x7fb0) == 0x4780_0000
            &&& bytes::u32_in(m, 0x7fb4) == 0
            &&& bytes::u32_in(m, 0x7570) == 0x4780_0000
            &&& bytes::u32_in(m, 0x7574) == floats.duty
            &&& bytes::u32_in(m, 0x7578) == 0x447a_0000
            &&& bytes::u32_in(m, 0x7598) == 0x42c8_0000
            &&& bytes::u32_in(m, 0x75a4) == floats.five.alpha
            &&& bytes::u32_in(m, 0x75a8) == floats.five.inverse
            &&& bytes::u32_in(m, 0x5dfc) == floats.ppm.alpha
            &&& bytes::u32_in(m, 0x5e04) == floats.ppm.inverse
            &&& bytes::u32_in(m, 0x5e0c) == floats.ppm_ki
            &&& bytes::u32_in(m, 0x5e14) == floats.minimum
            &&& bytes::u32_in(m, 0x5e18) == 0x4780_0000
        }),
{
    let a = bytes::overlay(base, power::power_slots(512));
    let b = bytes::overlay(a, p.main_words(plan));
    let c = bytes::overlay(b, p.perf_words(plan));
    let d = bytes::overlay(c, p.average_words(plan));
    let e = bytes::overlay(d, p.thermal_words(plan, floats.release->0, floats.delta->0));
    lemma_first_layer_0(e, p, plan, floats);
    let part = bytes::overlay(e, p.first_numbers(plan, floats));
    let all = p.with_power(base, plan, floats);
    assert forall|i: int| 0 <= i < 0xb758 && in_first(i) implies #[trigger] all[i] == part[i] by {
        lemma_parts_kept(p, base, plan, floats, i);
    }
}

/// The firmware reads back more of the numbers of the controllers of power and performance.
pub proof fn lemma_power_first_more(p: Platform, base: Seq<u8>, plan: PowerPlan, floats: PowerFloats)
    requires
        base.len() >= 0xb758,
    ensures
        ({
            let m = p.with_power(base, plan, floats);
            &&& bytes::u32_in(m, 0x5e1c) == plan.ppm_kp
            &&& bytes::u32_in(m, 0x5394) == 0x3f80_0000
            &&& bytes::u32_in(m, 0x53e4) == 0x3f80_0000
            &&& bytes::u32_in(m, 0x5ecc) == floats.perf.alpha
            &&& bytes::u32_in(m, 0x5ed0) == floats.perf2.alpha
            &&& bytes::u32_in(m, 0x5ed4) == floats.perf.inverse
            &&& bytes::u32_in(m, 0x5ed8) == floats.perf2.inverse
            &&& bytes::u32_in(m, 0x5edc) == plan.perf_integral_gain
            &&& bytes::u32_in(m, 0x5ee0) == plan.perf_integral_gain2
            &&& bytes::u32_in(m, 0x5ee4) == floats.integral_minimum
            &&& bytes::u32_in(m, 0x5ee8) == 0x42be_0000
            &&& bytes::u32_in(m, 0x5eec) == plan.perf_proportional_gain
            &&& bytes::u32_in(m, 0x5ef0) == plan.perf_proportional_gain2
            &&& bytes::u32_in(m, 0x5ef4) == floats.headroom
            &&& bytes::u32_in(m, 0x7ed8) == floats.se.alpha
            &&& bytes::u32_in(m, 0x7edc) == floats.se_1.alpha
            &&& bytes::u32_in(m, 0x7ee0) == floats.se.inverse
            &&& bytes::u32_in(m, 0x7ee4) == floats.se_1.inverse
            &&& bytes::u32_in(m, 0x7ee8) == floats.se_ki
        }),
{
    let a = bytes::overlay(base, power::power_slots(512));
    let b = bytes::overlay(a, p.main_words(plan));
    let c = bytes::overlay(b, p.perf_words(plan));
    let d = bytes::overlay(c, p.average_words(plan));
    let e = bytes::overlay(d, p.thermal_words(plan, floats.release->0, floats.delta->0));
    lemma_first_layer_1(e, p, plan, floats);
    let part = bytes::overlay(e, p.first_numbers(plan, floats));
    let all = p.with_power(base, plan, floats);
    assert forall|i: int| 0 <= i < 0xb758 && in_first(i) implies #[trigger] all[i] == part[i] by {
        lemma_parts_kept(p, base, plan, floats, i);
    }
}

#[verifier::rlimit(50)]
proof fn lemma_second_layer_0(base: Seq<u8>, p: Platform, plan: PowerPlan, floats: PowerFloats)
    requires
        base.len() >= 0xb758,
    ensures
        ({
            let m = bytes::overlay(base, p.second_numbers(plan, floats));
            &&& bytes::u32_in(m, 0x7eec) == floats.se_ki_1
            &&& bytes::u32_in(m, 0x7ef0) == 0
            &&& bytes::u32_in(m, 0x7ef4) == 0x4780_0000
            &&& bytes::u32_in(m, 0x7ef8) == plan.se_kp
            &&& bytes::u32_in(m, 0x7efc) == plan.se_kp_1
            &&& bytes::u32_in(m, 0x7f40) == 0x4780_0000
            &&& bytes::u32_in(m, 0x7f14) == floats.micros
            &&& bytes::u32_in(m, 0x7c5c) == floats.average_target.alpha
            &&& bytes::u32_in(m, 0x7c60) == floats.average_target.inverse
            &&& bytes::u32_in(m, 0x7d58) == floats.avg_ki
            &&& bytes::u32_in(m, 0x7d60) == 0
            &&& bytes::u32_in(m, 0x7d64) == 0x4780_0000
            &&& bytes::u32_in(m, 0x7d68) == plan.avg_kp
            &&& bytes::u32_in(m, 0x7d70) == 0
            &&& bytes::u32_in(m, 0x7d84) == floats.maximum
            &&& bytes::u32_in(m, 0x7d48) == floats.average.alpha
            &&& bytes::u32_in(m, 0x7d50) == floats.average.inverse
            &&& bytes::u32_in(m, 0x7604) == 0
            &&& bytes::u32_in(m, 0x760c) == 0x3f80_0000
            &&& bytes::u32_in(m, 0x7614) == floats.fast_ki
        }),
{
    let fields = p.second_numbers(plan, floats);
    assert(fields.len() == 40);
    reveal_with_fuel(bytes::held, 12);
    reveal_with_fuel(bytes::clear_of, 14);
    assert(bytes::clear_of(fields, 7, 19, 0x7eec, 0x7f44));
    assert(bytes::clear_of(fields, 7, 31, 0x7eec, 0x7f44));
    assert(bytes::clear_of(fields, 7, 40, 0x7eec, 0x7f44));
    bytes::lemma_clear_of(fields, 7, 40, 0x7eec, 0x7f44);
    bytes::lemma_held_u32(base, fields, 0x7eec);
    bytes::lemma_held_u32(base, fields, 0x7ef0);
    bytes::lemma_held_u32(base, fields, 0x7ef4);
    bytes::lemma_held_u32(base, fields, 0x7ef8);
    bytes::lemma_held_u32(base, fields, 0x7efc);
    bytes::lemma_held_u32(base, fields, 0x7f40);
    bytes::lemma_held_u32(base, fields, 0x7f14);
    assert(bytes::clear_of(fields, 17, 29, 0x7c5c, 0x7d88));
    assert(bytes::clear_of(fields, 17, 40, 0x7c5c, 0x7d88));
    bytes::lemma_clear_of(fields, 17, 40, 0x7c5c, 0x7d88);
    bytes::lemma_held_u32(base, fields, 0x7c5c);
    bytes::lemma_held_u32(base, fields, 0x7c60);
    bytes::lemma_held_u32(base, fields, 0x7d58);
    bytes::lemma_held_u32(base, fields, 0x7d60);
    bytes::lemma_held_u32(base, fields, 0x7d64);
    bytes::lemma_held_u32(base, fields, 0x7d68);
    bytes::lemma_held_u32(base, fields, 0x7d70);
    bytes::lemma_held_u32(base, fields, 0x7d84);
    bytes::lemma_held_u32(base, fields, 0x7d48);
    bytes::lemma_held_u32(base, fields, 0x7d50);
    assert(bytes::clear_of(fields, 20, 32, 0x7604, 0x7618));
    assert(bytes::clear_of(fields, 20, 40, 0x7604, 0x7618));
    bytes::lemma_clear_of(fields, 20, 40, 0x7604, 0x7618);
    bytes::lemma_held_u32(base, fields, 0x7604);
    bytes::lemma_held_u32(base, fields, 0x760c);
    bytes::lemma_held_u32(base, fields, 0x7614);
}

#[verifier::rlimit(50)]
proof fn lemma_second_layer_1(base: Seq<u8>, p: Platform, plan: PowerPlan, floats: PowerFloats)
    requires
        base.len() >= 0xb758,
    ensures
        ({
            let turbo = power::turbo_of(plan.turbo);
            let m = bytes::overlay(base, p.second_numbers(plan, floats));
            &&& bytes::u32_in(m, 0x761c) == 0
            &&& bytes::u32_in(m, 0x7620) == 0x4780_0000
            &&& bytes::u32_in(m, 0x7624) == plan.fast_kp
            &&& bytes::u32_in(m, 0x762c) == 0
            &&& bytes::u32_in(m, 0x7aaa) == floats.turbo.alpha
            &&& bytes::u32_in(m, 0x7ab2) == floats.turbo.inverse
            &&& bytes::u32_in(m, 0x7aba) == turbo.ki
            &&& bytes::u32_in(m, 0x7ac2) == 0
            &&& bytes::u32_in(m, 0x7ac6) == 0x4780_0000
            &&& bytes::u32_in(m, 0x7aca) == turbo.kp
            &&& bytes::u32_in(m, 0x7ad2) == 0xbac8_0000
            &&& bytes::u32_in(m, 0x7ae6) == 0x453b_8000
            &&& bytes::u32_in(m, 0x7b56) == 0x4280_0000
            &&& bytes::u32_in(m, 0x7b5a) == 0x4780_0000
            &&& bytes::u32_in(m, 0x81b8) == floats.last.alpha
            &&& bytes::u32_in(m, 0x81c0) == floats.last.inverse
            &&& bytes::u32_in(m, 0x81c8) == 0x40a0_0000
            &&& bytes::u32_in(m, 0x81d0) == 0
            &&& bytes::u32_in(m, 0x81d4) == 0x4780_0000
            &&& bytes::u32_in(m, 0x81d8) == 0x4170_0000
        }),
{
    let fields = p.second_numbers(plan, floats);
    assert(fields.len() == 40);
    reveal_with_fuel(bytes::held, 12);
    reveal_with_fuel(bytes::clear_of, 14);
    assert(bytes::clear_of(fields, 30, 40, 0x761c, 0x7ace));
    bytes::lemma_clear_of(fields, 30, 40, 0x761c, 0x7ace);
    bytes::lemma_held_u32(base, fields, 0x761c);
    bytes::lemma_held_u32(base, fields, 0x7620);
    bytes::lemma_held_u32(base, fields, 0x7624);
    bytes::lemma_held_u32(base, fields, 0x762c);
    bytes::lemma_held_u32(base, fields, 0x7aaa);
    bytes::lemma_held_u32(base, fields, 0x7ab2);
    bytes::lemma_held_u32(base, fields, 0x7aba);
    bytes::lemma_held_u32(base, fields, 0x7ac2);
    bytes::lemma_held_u32(base, fields, 0x7ac6);
    bytes::lemma_held_u32(base, fields, 0x7aca);
    bytes::lemma_held_u32(base, fields, 0x7ad2);
    bytes::lemma_held_u32(base, fields, 0x7ae6);
    bytes::lemma_held_u32(base, fields, 0x7b56);
    bytes::lemma_held_u32(base, fields, 0x7b5a);
    bytes::lemma_held_u32(base, fields, 0x81b8);
    bytes::lemma_held_u32(base, fields, 0x81c0);
    bytes::lemma_held_u32(base, fields, 0x81c8);
    bytes::lemma_held_u32(base, fields, 0x81d0);
    bytes::lemma_held_u32(base, fields, 0x81d4);
    bytes::lemma_held_u32(base, fields, 0x81d8);
}

/// The firmware reads back the numbers of the controllers of average power, temperature and turbo.
pub proof fn lemma_power_second(p: Platform, base: Seq<u8>, plan: PowerPlan, floats: PowerFloats)
    requires
        base.len() >= 0xb758,
    ensures
        ({
            let m = p.with_power(base, plan, floats);
            &&& bytes::u32_in(m, 0x7eec) == floats.se_ki_1
            &&& bytes::u32_in(m, 0x7ef0) == 0
            &&& bytes::u32_in(m, 0x7ef4) == 0x4780_0000
            &&& bytes::u32_in(m, 0x7ef8) == plan.se_kp
            &&& bytes::u32_in(m, 0x7efc) == plan.se_kp_1
            &&& bytes::u32_in(m, 0x7f40) == 0x4780_0000
            &&& bytes::u32_in(m, 0x7f14) == floats.micros
            &&& bytes::u32_in(m, 0x7c5c) == floats.average_target.alpha
            &&& bytes::u32_in(m, 0x7c60) == floats.average_target.inverse
            &&& bytes::u32_in(m, 0x7d58) == floats.avg_ki
            &&& bytes::u32_in(m, 0x7d60) == 0
            &&& bytes::u32_in(m, 0x7d64) == 0x4780_0000
            &&& bytes::u32_in(m, 0x7d68) == plan.avg_kp
            &&& bytes::u32_in(m, 0x7d70) == 0
            &&& bytes::u32_in(m, 0x7d84) == floats.maximum
            &&& bytes::u32_in(m, 0x7d48) == floats.average.alpha
            &&& bytes::u32_in(m, 0x7d50) == floats.average.inverse
            &&& bytes::u32_in(m, 0x7604) == 0
            &&& bytes::u32_in(m, 0x760c) == 0x3f80_0000
            &&& bytes::u32_in(m, 0x7614) == floats.fast_ki
        }),
{
    let a = bytes::overlay(base, power::power_slots(512));
    let b = bytes::overlay(a, p.main_words(plan));
    let c = bytes::overlay(b, p.perf_words(plan));
    let d = bytes::overlay(c, p.average_words(plan));
    let e = bytes::overlay(d, p.thermal_words(plan, floats.release->0, floats.delta->0));
    let f = bytes::overlay(e, p.first_numbers(plan, floats));
    lemma_second_layer_0(f, p, plan, floats);
    let part = bytes::overlay(f, p.second_numbers(plan, floats));
    let all = p.with_power(base, plan, floats);
    assert forall|i: int| 0 <= i < 0xb758 && in_second(i) implies #[trigger] all[i] == part[i] by {
        lemma_parts_kept(p, base, plan, floats, i);
    }
}

/// The firmware reads back more of the numbers of the controllers of average power, temperature and turbo.
pub proof fn lemma_power_second_more(p: Platform, base: Seq<u8>, plan: PowerPlan, floats: PowerFloats)
    requires
        base.len() >= 0xb758,
    ensures
        ({
            let m = p.with_power(base, plan, floats);
            &&& bytes::u32_in(m, 0x761c) == 0
            &&& bytes::u32_in(m, 0x7620) == 0x4780_0000
            &&& bytes::u32_in(m, 0x7624) == plan.fast_kp
            &&& bytes::u32_in(m, 0x762c) == 0
            &&& bytes::u32_in(m, 0x7aaa) == floats.turbo.alpha
            &&& bytes::u32_in(m, 0x7ab2) == floats.turbo.inverse
            &&& bytes::u32_in(m, 0x7aba) == power::turbo_of(plan.turbo).ki
            &&& bytes::u32_in(m, 0x7ac2) == 0
            &&& bytes::u32_in(m, 0x7ac6) == 0x4780_0000
            &&& bytes::u32_in(m, 0x7aca) == power::turbo_of(plan.turbo).kp
            &&& bytes::u32_in(m, 0x7ad2) == 0xbac8_0000
            &&& bytes::u32_in(m, 0x7ae6) == 0x453b_8000
            &&& bytes::u32_in(m, 0x7b56) == 0x4280_0000
            &&& bytes::u32_in(m, 0x7b5a) == 0x4780_0000
            &&& bytes::u32_in(m, 0x81b8) == floats.last.alpha
            &&& bytes::u32_in(m, 0x81c0) == floats.last.inverse
            &&& bytes::u32_in(m, 0x81c8) == 0x40a0_0000
            &&& bytes::u32_in(m, 0x81d0) == 0
            &&& bytes::u32_in(m, 0x81d4) == 0x4780_0000
            &&& bytes::u32_in(m, 0x81d8) == 0x4170_0000
        }),
{
    let a = bytes::overlay(base, power::power_slots(512));
    let b = bytes::overlay(a, p.main_words(plan));
    let c = bytes::overlay(b, p.perf_words(plan));
    let d = bytes::overlay(c, p.average_words(plan));
    let e = bytes::overlay(d, p.thermal_words(plan, floats.release->0, floats.delta->0));
    let f = bytes::overlay(e, p.first_numbers(plan, floats));
    lemma_second_layer_1(f, p, plan, floats);
    let part = bytes::overlay(f, p.second_numbers(plan, floats));
    let all = p.with_power(base, plan, floats);
    assert forall|i: int| 0 <= i < 0xb758 && in_second(i) implies #[trigger] all[i] == part[i] by {
        lemma_parts_kept(p, base, plan, floats, i);
    }
}

/// A filter over some samples of a period: four times its count, its clocks at 24 for each microsecond, and the
/// time that was asked for, or else that of its samples.
pub proof fn lemma_filter(f: Filter, count: u32, period: u32, request: Option<u32>)
    requires
        power::is_filter(f, count, period, request),
    ensures
        f.count == count,
        f.count_x4 == 4 * count,
        f.clocks == 24_000 * (count * period),
        request is Some ==> f.duration == request->0,
        request is None ==> f.duration == count * period,
{
    assert(24_000 * (count * period) == count * period * 24_000) by (nonlinear_arith);
}

/// A filter can be had exactly when it has samples, its numbers are words, and a time that was asked for is that of
/// its samples, up to a part of a sample.
pub proof fn lemma_filter_taken(count: u32, period: u32, request: Option<u32>)
    ensures
        power::filter_ok(count, period, request) <==> {
            &&& count != 0
            &&& 4 * count <= 0xffff_ffff
            &&& count * period * 24_000 <= 0xffff_ffff
            &&& request is Some ==> period != 0 && count * period <= request->0 < count * period + period
        },
{
    if request is Some && period != 0 {
        let ms = request->0 as int;
        let q = ms / period as int;
        vstd::arithmetic::div_mod::lemma_fundamental_div_mod(ms, period as int);
        vstd::arithmetic::div_mod::lemma_mod_bound(ms, period as int);
        assert(period * q == q * period) by (nonlinear_arith);
        if count * period <= ms < count * period + period {
            assert(q == count) by (nonlinear_arith)
                requires
                    count * period <= ms < count * period + period,
                    q * period <= ms < q * period + period,
                    period > 0,
            ;
        }
    }
}

/// A plan holds the words of a board for the controllers of power and performance, and where the board says nothing,
/// what they start with.
pub proof fn lemma_plan_power(plan: PowerPlan, words: PowerWords, period_ms: u32)
    requires
        plan.reads(words, period_ms),
    ensures
        words.pwr_min_duty_cycle is Some ==> plan.duty == words.pwr_min_duty_cycle->0,
        words.pwr_min_duty_cycle is None ==> plan.duty == 40,
        words.pwr_integral_min_clamp is Some ==> plan.minimum == words.pwr_integral_min_clamp->0,
        words.pwr_integral_min_clamp is None ==> plan.minimum == 0,
        words.pwr_filter_time_constant is Some ==> plan.pwr_count == words.pwr_filter_time_constant->0,
        words.pwr_filter_time_constant is None ==> plan.pwr_count == 313,
        words.pwr_integral_gain is Some ==> plan.pwr_integral_gain == words.pwr_integral_gain->0,
        words.pwr_integral_gain is None ==> plan.pwr_integral_gain == 0x3ca5_9586,
        words.pwr_proportional_gain is Some ==> plan.pwr_proportional_gain == words.pwr_proportional_gain->0,
        words.pwr_proportional_gain is None ==> plan.pwr_proportional_gain == 0x40a9_0fdb,
        words.ppm_ki is Some ==> plan.ppm_ki == words.ppm_ki->0,
        words.ppm_ki is None ==> plan.ppm_ki == 0x4316_0000,
        words.ppm_kp is Some ==> plan.ppm_kp == words.ppm_kp->0,
        words.ppm_kp is None ==> plan.ppm_kp == 0x3e80_0000,
        words.perf_dz is Some ==> plan.dead_zone == words.perf_dz->0,
        words.perf_dz is None ==> plan.dead_zone == 0,
        words.perf_boost_min_util is Some ==> plan.boost == words.perf_boost_min_util->0,
        words.perf_boost_min_util is None ==> plan.boost == 95,
        words.perf_integral_min_clamp is Some ==> plan.integral_minimum == words.perf_integral_min_clamp->0,
        words.perf_integral_min_clamp is None ==> plan.integral_minimum == 0,
        words.perf_filter_time_constant is Some ==> plan.perf_count == words.perf_filter_time_constant->0,
        words.perf_filter_time_constant is None ==> plan.perf_count == 5,
        words.perf_filter_time_constant2 is Some ==> plan.perf_count2 == words.perf_filter_time_constant2->0,
        words.perf_filter_time_constant2 is None ==> plan.perf_count2 == 200,
        words.perf_integral_gain is Some ==> plan.perf_integral_gain == words.perf_integral_gain->0,
        words.perf_integral_gain is None ==> plan.perf_integral_gain == 0x3f4c_28f6,
        words.perf_integral_gain2 is Some ==> plan.perf_integral_gain2 == words.perf_integral_gain2->0,
        words.perf_integral_gain2 is None ==> plan.perf_integral_gain2 == 0x3f4c_28f6,
        words.perf_proportional_gain is Some ==> plan.perf_proportional_gain == words.perf_proportional_gain->0,
        words.perf_proportional_gain is None ==> plan.perf_proportional_gain == 0x40ac_cccd,
        words.perf_proportional_gain2 is Some ==> plan.perf_proportional_gain2 == words.perf_proportional_gain2->0,
        words.perf_proportional_gain2 is None ==> plan.perf_proportional_gain2 == 0x40ac_cccd,
        words.perf_boost_ce_step is Some ==> plan.boost_step == words.perf_boost_ce_step->0,
        words.perf_boost_ce_step is None ==> plan.boost_step == 50,
{
}

/// A plan holds the words of a board for the shader engine, for average power and for temperature, and where the
/// board says nothing, what they start with.
pub proof fn lemma_plan_shading(plan: PowerPlan, words: PowerWords, period_ms: u32)
    requires
        plan.reads(words, period_ms),
    ensures
        words.perf_reset_iters is Some ==> plan.reset_iters == words.perf_reset_iters->0,
        words.perf_reset_iters is None ==> plan.reset_iters == 6,
        words.perf_filter_drop_threshold is Some ==> plan.drop_threshold == words.perf_filter_drop_threshold->0,
        words.perf_filter_drop_threshold is None ==> plan.drop_threshold == 0,
        words.se_ki is Some ==> plan.se_ki == words.se_ki->0,
        words.se_ki is None ==> plan.se_ki == 0xc248_0000,
        words.se_ki_1 is Some ==> plan.se_ki_1 == words.se_ki_1->0,
        words.se_ki_1 is None ==> plan.se_ki_1 == 0xc2c8_0000,
        words.se_kp is Some ==> plan.se_kp == words.se_kp->0,
        words.se_kp is None ==> plan.se_kp == 0xc0a0_0000,
        words.se_kp_1 is Some ==> plan.se_kp_1 == words.se_kp_1->0,
        words.se_kp_1 is None ==> plan.se_kp_1 == 0xc0a0_0000,
        words.se_inactive_threshold is Some ==> plan.inactive_threshold == words.se_inactive_threshold->0,
        words.se_inactive_threshold is None ==> plan.inactive_threshold == 2500,
        words.se_engagement_criteria is Some ==> plan.engagement_criteria == words.se_engagement_criteria->0,
        words.se_engagement_criteria is None ==> plan.engagement_criteria == 600,
        words.se_engagement_tolerance is Some ==> plan.engagement_tolerance == words.se_engagement_tolerance->0,
        words.se_engagement_tolerance is None ==> plan.engagement_tolerance == 2,
        words.se_reset_tolerance is Some ==> plan.reset_tolerance == words.se_reset_tolerance->0,
        words.se_reset_tolerance is None ==> plan.reset_tolerance == 4,
        words.se_reset_criteria is Some ==> plan.reset_criteria == words.se_reset_criteria->0,
        words.se_reset_criteria is None ==> plan.reset_criteria == 50,
        words.avg_power_min_duty_cycle is Some ==> plan.avg_duty == words.avg_power_min_duty_cycle->0,
        words.avg_power_min_duty_cycle is None ==> plan.avg_duty == 40,
        words.avg_power_kp is Some ==> plan.avg_kp == words.avg_power_kp->0,
        words.avg_power_kp is None ==> plan.avg_kp == 0x401a_e148,
        words.fast_die0_release_temp is Some ==> plan.release == words.fast_die0_release_temp->0,
        words.fast_die0_release_temp is None ==> plan.release == 80,
        words.fast_die0_prop_tgt_delta is Some ==> plan.delta == words.fast_die0_prop_tgt_delta->0,
        words.fast_die0_prop_tgt_delta is None ==> plan.delta == 0,
        words.fast_die0_integral_gain is Some ==> plan.fast_ki == words.fast_die0_integral_gain->0,
        words.fast_die0_integral_gain is None ==> plan.fast_ki == 0x4348_0000,
        words.fast_die0_proportional_gain is Some ==> plan.fast_kp == words.fast_die0_proportional_gain->0,
        words.fast_die0_proportional_gain is None ==> plan.fast_kp == 0x42f0_0000,
{
}

/// What a plan derives: its period in microseconds, the samples of 33 milliseconds, rounded, the base state in hundredths,
/// and the target of utilization below the dead zone.
pub proof fn lemma_plan_derived(plan: PowerPlan, words: PowerWords, period_ms: u32)
    requires
        plan.reads(words, period_ms),
        0 < period_ms,
    ensures
        plan.micros == 1000 * period_ms,
        2 * plan.frames * period_ms <= 66 + period_ms < 2 * plan.frames * period_ms + 2 * period_ms + 1,
        words.perf_base_pstate is Some ==> plan.base_scaled == 100 * words.perf_base_pstate->0,
        words.perf_base_pstate is None ==> plan.base_scaled == 100,
        words.perf_tgt_utilization is Some ==> plan.target + plan.dead_zone == words.perf_tgt_utilization->0,
        words.perf_tgt_utilization is None ==> plan.target + plan.dead_zone == 85,
        words.avg_power_ki_only is Some ==> plan.avg_ki == words.avg_power_ki_only->0 && plan.avg_ki_scaled,
        words.avg_power_ki_only is None && words.avg_power_ki is Some ==> plan.avg_ki == words.avg_power_ki->0
            && !plan.avg_ki_scaled,
        words.avg_power_ki_only is None && words.avg_power_ki is None ==> plan.avg_ki == 0x4187_0000
            && plan.avg_ki_scaled,
        words.se_filter_time_constant is Some ==> plan.se.count == words.se_filter_time_constant->0,
        words.se_filter_time_constant is None ==> plan.se.count == 9,
        words.se_filter_time_constant_1 is Some ==> plan.se_1.count == words.se_filter_time_constant_1->0,
        words.se_filter_time_constant_1 is None ==> plan.se_1.count == 3,
        words.avg_power_target_filter_tc is Some ==> plan.average_target.count == words.avg_power_target_filter_tc->0,
        words.avg_power_target_filter_tc is None ==> plan.average_target.count == 1,
        words.avg_power_filter_tc_ms is Some ==> plan.average.duration == words.avg_power_filter_tc_ms->0
            && plan.average.count == words.avg_power_filter_tc_ms->0 / period_ms,
        words.avg_power_filter_tc_ms is None && words.avg_power_input_filter_tc is Some ==> plan.average.count
            == words.avg_power_input_filter_tc->0,
        words.avg_power_filter_tc_ms is None && words.avg_power_input_filter_tc is None ==> plan.average.count
            == 248u32 / period_ms,
        words.ppm_filter_time_constant_ms is Some ==> plan.ppm.duration == words.ppm_filter_time_constant_ms->0
            && plan.ppm.count == words.ppm_filter_time_constant_ms->0 / period_ms,
        words.ppm_filter_time_constant_ms is None ==> plan.ppm.duration == 16 && plan.ppm.count == 16u32 / period_ms,
        plan.turbo == words.turbo_controller_input,
{
    let n = 33 + (period_ms / 2);
    let q = n / period_ms as int;
    vstd::arithmetic::div_mod::lemma_fundamental_div_mod(n, period_ms as int);
    vstd::arithmetic::div_mod::lemma_mod_bound(n, period_ms as int);
    assert(2 * q * period_ms == 2 * (period_ms * q)) by (nonlinear_arith);
}

/// The words of a board are taken only within their bounds: duty cycles in thousandths, utilizations in hundredths, a
/// base state that there is, filters with samples, and temperatures that are words in hundredths of a degree.
pub proof fn lemma_words_bounded(words: PowerWords, maximum_power: u32, period_ms: u32)
    requires
        power::words_ok(words, maximum_power, period_ms),
    ensures
        0 < period_ms,
        24_000 * period_ms <= 0xffff_ffff,
        words.pwr_min_duty_cycle is Some ==> words.pwr_min_duty_cycle->0 <= 1000,
        words.avg_power_min_duty_cycle is Some ==> words.avg_power_min_duty_cycle->0 <= 1000,
        words.pwr_integral_min_clamp is Some ==> words.pwr_integral_min_clamp->0 <= maximum_power,
        words.pwr_filter_time_constant is Some ==> words.pwr_filter_time_constant->0 > 0,
        words.perf_base_pstate is Some ==> 1 <= words.perf_base_pstate->0 <= 10,
        words.perf_tgt_utilization is Some ==> words.perf_tgt_utilization->0 <= 100,
        words.perf_tgt_utilization is Some && words.perf_dz is Some ==> words.perf_dz->0
            <= words.perf_tgt_utilization->0,
        words.perf_tgt_utilization is None && words.perf_dz is Some ==> words.perf_dz->0 <= 85,
        words.perf_boost_min_util is Some ==> words.perf_boost_min_util->0 <= 100,
        words.perf_integral_min_clamp is Some ==> words.perf_integral_min_clamp->0 <= 95,
        words.perf_filter_time_constant is Some ==> words.perf_filter_time_constant->0 > 0,
        words.perf_filter_time_constant2 is Some ==> words.perf_filter_time_constant2->0 > 0,
        words.se_filter_time_constant is Some ==> words.se_filter_time_constant->0 > 0,
        words.se_filter_time_constant_1 is Some ==> words.se_filter_time_constant_1->0 > 0,
        words.fast_die0_release_temp is Some ==> 100 * words.fast_die0_release_temp->0 <= 0xffff_ffff,
        words.fast_die0_prop_tgt_delta is Some ==> 100 * words.fast_die0_prop_tgt_delta->0 <= 0xffff_ffff,
{
}

/// A board that says nothing is taken for every period that divides the default filter of peak power.
pub proof fn lemma_defaults_taken(words: PowerWords, maximum_power: u32, period_ms: u32)
    requires
        period_ms == 1 || period_ms == 2 || period_ms == 4 || period_ms == 8,
        words.pwr_min_duty_cycle is None,
        words.pwr_integral_min_clamp is None,
        words.pwr_filter_time_constant is None,
        words.ppm_filter_time_constant_ms is None,
        words.perf_base_pstate is None,
        words.perf_tgt_utilization is None,
        words.perf_dz is None,
        words.perf_boost_min_util is None,
        words.perf_integral_min_clamp is None,
        words.perf_filter_time_constant is None,
        words.perf_filter_time_constant2 is None,
        words.se_filter_time_constant is None,
        words.se_filter_time_constant_1 is None,
        words.avg_power_target_filter_tc is None,
        words.avg_power_min_duty_cycle is None,
        words.avg_power_filter_tc_ms is None,
        words.avg_power_input_filter_tc is None,
        words.fast_die0_release_temp is None,
        words.fast_die0_prop_tgt_delta is None,
    ensures
        power::words_ok(words, maximum_power, period_ms),
{
}

/// A configuration is stored only where every number in it is finite: a bit pattern whose exponent is not all ones.
pub proof fn lemma_finite(value: u32)
    ensures
        power::finite(value as u64) <==> value & 0x7f80_0000 != 0x7f80_0000,
{
    let wide = value as u64;
    assert(((wide / 0x80_0000) % 0x100 != 0xff) == (value & 0x7f80_0000 != 0x7f80_0000)) by (bit_vector)
        requires
            wide == value as u64,
    ;
}

/// The bundle holds the description of the board at its start and the main configuration at its place, two addresses
/// of the firmware, the entropy, and the configuration of the power controllers between them.
#[verifier::rlimit(50)]
pub proof fn lemma_bundle(
    p: Platform,
    main: MainConfig,
    entropy: u32,
    plan: PowerPlan,
    floats: PowerFloats,
    i: int,
)
    requires
        p.hardware_image().len() == 0x3db4,
        0 <= i < 0x1_da40 + 0x500,
    ensures
        ({
            let m = p.bundle_image(main, entropy, plan, floats);
            &&& m.len() == fw::BUNDLE_SIZE
            &&& i < 0x3db4 ==> m[i] == p.hardware_image()[i]
            &&& 0x1_da40 <= i ==> m[i] == main.image()[i - 0x1_da40]
            &&& bytes::u64_in(m, 0x8ed0) == 0xffff_fc20_000f_34c0
            &&& bytes::u64_in(m, 0xb698) == 0xffff_fc20_c050_0000
            &&& bytes::u32_in(m, 0xb754) == entropy
        }),
{
    let a = bytes::place(bytes::zeros(fw::BUNDLE_SIZE as nat), 0, p.hardware_image());
    let b = bytes::place(a, fw::MAIN_OFFSET as int, main.image());
    let one = seq![bytes::w64(0x8ed0, 0xffff_fc20_000f_34c0)];
    let c = bytes::overlay(b, one);
    let two = seq![bytes::w64(0xb698, 0xffff_fc20_c050_0000)];
    let d = bytes::overlay(c, two);
    let e = p.with_power(d, plan, floats);
    let last = seq![bytes::w32(0xb754, entropy)];
    let m = bytes::overlay(e, last);
    assert(one.len() == 1 && two.len() == 1 && last.len() == 1);
    assert(main.image().len() == 0x500);
    lemma_parts_kept(p, d, plan, floats, i);
    assert forall|j: int| 0 <= j < b.len() && !(0x8ed0 <= j < 0x8ed8) implies #[trigger] c[j] == b[j] by {
        reveal_with_fuel(bytes::touched, 3);
        bytes::lemma_untouched(b, one, j);
    }
    assert forall|j: int| 0 <= j < c.len() && !(0xb698 <= j < 0xb6a0) implies #[trigger] d[j] == c[j] by {
        reveal_with_fuel(bytes::touched, 3);
        bytes::lemma_untouched(c, two, j);
    }
    assert forall|j: int| 0 <= j < e.len() && !(0xb754 <= j < 0xb758) implies #[trigger] m[j] == e[j] by {
        reveal_with_fuel(bytes::touched, 3);
        bytes::lemma_untouched(e, last, j);
    }
    assert forall|j: int|
        0x8ed0 <= j < 0x8ed8 || 0xb698 <= j < 0xb6a0 || 0 <= j < 0x3db4 || 0x1_da40 <= j < 0x1_df40 implies #[trigger] e[j]
        == d[j] by {
        lemma_parts_kept(p, d, plan, floats, j);
    }
    reveal_with_fuel(bytes::held, 3);
    bytes::lemma_held_u64(b, one, 0x8ed0);
    bytes::lemma_held_u64(c, two, 0xb698);
    bytes::lemma_held_u32(e, last, 0xb754);
    assert forall|j: int| 0x8ed0 <= j < 0x8ed8 implies #[trigger] m[j] == c[j] by {}
    assert forall|j: int| 0xb698 <= j < 0xb6a0 implies #[trigger] m[j] == d[j] by {}
}

} // verus!
