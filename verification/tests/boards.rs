use asahi_m4::boot::{
    barrier_plan, barrier_retired, check_barrier, check_opening, cleared_plan, cold_start, control_retired,
    crash_buffer, graph_accepted, handoff_fields, is_ring_notification, notification_plan, opening_plan,
    opening_regions, publish_registers, read_back, start_registers, validate_boot_resources, work_registered,
    BootInputs, Wait, POLLS,
};
use asahi_m4::bootclient::{device_ranges, opening_ranges, opening_rows, shared_pages, window_pages};
use asahi_m4::bootmap::{boot_queue_plan, late_plan, reservations, rights, root_plan, row_at, transport_plan, Sharing};
use asahi_m4::bytes::{get16, get32, get64};
use asahi_m4::error::Error;
use asahi_m4::plan::Write;
use asahi_m4::platform::{adt_word, build_registers, ladder, BoardInputs, Platform};
use asahi_m4::power::{filter, turbo_of, Coefficients, PowerFloats, PowerPlan, PowerWords};

const ONE: u32 = 0x3f80_0000;
const REGISTERS: u64 = 0x4_0000_0000;

fn states(step: u32) -> Vec<u32> {
    (0..11).map(|i| i * step).collect()
}

fn word(value: u32) -> Result<Option<Vec<u8>>, Error> {
    Ok(Some(value.to_le_bytes().to_vec()))
}

fn interrupts(address: u64) -> Vec<u8> {
    let mut out = vec![0u8; 40];
    out[20..28].copy_from_slice(&address.to_le_bytes());
    out
}

fn inputs() -> BoardInputs {
    BoardInputs {
        power: Ok(states(1500)),
        freq_a: Ok(states(147)),
        freq_b: Ok(states(100)),
        sample_clocks: word(200_000),
        sample_period: Ok(None),
        core_mask: Ok(0x3ff),
        core_voltage: Ok(states(7)),
        memory_voltage: Ok(states(9)),
        index_a: Ok(states(1)),
        index_b: Ok(states(2)),
        relative_a: Ok(states(3)),
        relative_b: Ok(states(4)),
        revision: Ok(0x25),
        no_gpc: Ok(None),
        reg: Ok(vec![0, 0, 0, 0, 4, 0, 0, 0x200_0000]),
        irq: Ok(interrupts(0x3_0000_4010)),
        mcc_mask: Ok(None),
    }
}

#[test]
fn properties_are_words() {
    assert_eq!(adt_word(&word(7), None), Ok(7));
    assert_eq!(adt_word(&Ok(None), None), Err(Error::ENOENT));
    assert_eq!(adt_word(&Ok(None), Some(9)), Ok(9));
    assert_eq!(adt_word(&Ok(Some(vec![1, 2])), Some(9)), Err(Error::EINVAL));
    assert_eq!(adt_word(&Err(Error::EIO), Some(9)), Err(Error::EIO));
    assert_eq!(ladder(&Ok(vec![1; 10])), Err(Error::EINVAL));
    assert_eq!(ladder(&Err(Error::ENOENT)), Err(Error::ENOENT));
    assert_eq!(ladder(&Ok(vec![4; 11])), Ok([4; 11]));
}

#[test]
fn boards_are_read() {
    let b = Platform::new(&inputs()).unwrap();
    assert_eq!((b.maximum_power, b.core_mask, b.revision), (15000, 0x3ff, 0x25));
    assert_eq!((b.period_clocks, b.period_ms, b.gpc), (200_000, 8, true));
    assert_eq!(b.mcc, vec![0x2_201c_4000, 0x2_221c_4000]);
    assert_eq!(b.maximum_frequency_khz(), 1_470_000);
    let other = BoardInputs { sample_clocks: Ok(None), sample_period: word(8), no_gpc: word(1), ..inputs() };
    let b = Platform::new(&other).unwrap();
    assert_eq!((b.period_clocks, b.period_ms, b.gpc), (192_000, 8, false));
}

#[test]
fn boards_are_refused() {
    let falling = || {
        let mut f = states(147);
        f[5] = f[4];
        Ok(f)
    };
    let bad = [
        BoardInputs { power: Ok(states(0)), ..inputs() },
        BoardInputs { power: Ok(vec![1; 11]), ..inputs() },
        BoardInputs { power: Ok(states(0x1000_0000)), ..inputs() },
        BoardInputs { freq_a: falling(), ..inputs() },
        BoardInputs { freq_b: falling(), ..inputs() },
        BoardInputs { freq_a: Ok(vec![0; 3]), ..inputs() },
        BoardInputs { sample_clocks: word(23999), ..inputs() },
        BoardInputs { sample_clocks: Ok(None), sample_period: word(200_000), ..inputs() },
        BoardInputs { core_mask: Ok(0), ..inputs() },
        BoardInputs { core_mask: Ok(0x400), ..inputs() },
        BoardInputs { index_b: Ok(vec![]), ..inputs() },
        BoardInputs { reg: Ok(vec![0; 4]), ..inputs() },
        BoardInputs { reg: Ok(vec![0, 0, 0, 0, 4, 0, 0, 0x1000]), ..inputs() },
        BoardInputs { irq: Ok(vec![0; 21]), ..inputs() },
        BoardInputs { irq: Ok(interrupts(0)), ..inputs() },
        BoardInputs { mcc_mask: word(0), ..inputs() },
    ];
    for b in bad {
        assert_eq!(Platform::new(&b).err(), Some(Error::EINVAL));
    }
    let absent = BoardInputs { sample_clocks: Ok(None), ..inputs() };
    assert_eq!(Platform::new(&absent).err(), Some(Error::ENOENT));
    let unread = BoardInputs { revision: Err(Error::EIO), ..inputs() };
    assert_eq!(Platform::new(&unread).err(), Some(Error::EIO));
}

#[test]
fn register_windows_follow_each_other() {
    let i = inputs();
    let (r, mcc) = build_registers(&i.reg, &i.irq, &i.mcc_mask).unwrap();
    assert_eq!((r.len(), mcc.len()), (18, 2));
    assert_eq!((r[0].slot, r[0].physical, r[0].address, r[0].size), (0, 0x3_0000_4000, 0xffff_fc21_8020_0000, 0x4000));
    assert_eq!((r[1].physical, r[1].address, r[1].size, r[1].stride), (0x2_201c_4000, 0xffff_fc21_8020_8000, 0x30000, 0x18000));
    assert_eq!((r[2].slot, r[2].address), (9, 0xffff_fc21_8023_c000));
    assert_eq!((r[7].slot, r[7].physical, r[7].relative), (17, REGISTERS, 0));
    assert_eq!((r[10].physical, r[10].address % 0x4000, r[10].relative), (REGISTERS + 0xd0_d000, 0x1000, 0xd0_d000));
    assert_eq!((r[17].physical, r[17].address % 0x4000), (REGISTERS + 0xe1_f800, 0x3800));
    for pair in r.windows(2) {
        assert!(pair[0].address + u64::from(pair[0].size) < pair[1].address);
    }
    assert!(r[17].address + u64::from(r[17].size) <= 0xffff_fc21_8100_0000);
}

#[test]
fn apertures_show_the_controllers_one_by_one() {
    let b = Platform::new(&inputs()).unwrap();
    let a = b.apertures();
    assert_eq!(a.len(), 21);
    assert_eq!((a[0].address, a[0].physical, a[0].size), (0xffff_fc21_8020_0000, 0x3_0000_4000, 0x4000));
    assert_eq!((a[1].address, a[1].physical, a[1].size), (0xffff_fc21_8020_8000, 0x2_201c_4000, 0x18000));
    assert_eq!((a[2].address, a[2].physical, a[2].size), (0xffff_fc21_8022_0000, 0x2_221c_4000, 0x18000));
    assert_eq!((a[20].address, a[20].physical), (0xffff_fc20_0002_8000, 0x3_00d6_4000));
    assert!(a.iter().all(|w| w.address % 0x4000 == 0 && w.physical % 0x4000 == 0 && w.size % 0x4000 == 0));
}

#[test]
fn hardware_descriptions() {
    let b = Platform::new(&inputs()).unwrap();
    let h = b.hwdata();
    assert_eq!(h.len(), 0x3db4);
    assert_eq!((get64(&h, 0x640), get64(&h, 0x648), get32(&h, 0x650)), (0x3_0000_4000, 0xffff_fc21_8020_0000, 0x4000));
    let off = 0x640 + 17 * 0x28;
    assert_eq!((get64(&h, off), get32(&h, off + 0x14), get32(&h, off + 0x20)), (REGISTERS, 0x20000, 2));
    assert_eq!((get32(&h, 0xfc8 + 12), get32(&h, 0xfc8 + 0x40 + 3 * 0x40 + 60), get32(&h, 0xfc8 + 0x440 + 3 * 0x40)), (441, 21, 27));
    assert_eq!((get32(&h, 0x1cdc + 40), get32(&h, 0x1cdc + 0x40 + 0x40), get32(&h, 0x1cdc + 0x40 + 0x44)), (1000, 7, 0));
    assert_eq!((get32(&h, 0x1808 + 8), get32(&h, 0x18c8 + 8), get32(&h, 0x1908 + 8), get32(&h, 0x19c8 + 8), get32(&h, 0x1a08 + 8)), (200, 6, 8, 2, 4));
    assert_eq!(get32(&h, 0x1848 + 40), 0x3f82_8f5c);
    assert_eq!((get32(&h, 0xe90), get32(&h, 0xe94), get32(&h, 0xe98), get32(&h, 0xea0), get32(&h, 0xed8)), (0x8132, 2, 5, 1, 8));
    let c = b.region_c();
    assert_eq!((get32(&c, 0x84), get32(&c, 0x24), get16(&c, 0x54), get16(&c, 0x56)), (15000, 4096, 0xffff, 40));
}

fn no_words() -> PowerWords {
    PowerWords {
        pwr_min_duty_cycle: None,
        pwr_integral_min_clamp: None,
        pwr_filter_time_constant: None,
        pwr_integral_gain: None,
        pwr_proportional_gain: None,
        ppm_filter_time_constant_ms: None,
        ppm_ki: None,
        ppm_kp: None,
        perf_base_pstate: None,
        perf_tgt_utilization: None,
        perf_dz: None,
        perf_boost_min_util: None,
        perf_integral_min_clamp: None,
        perf_filter_time_constant: None,
        perf_filter_time_constant2: None,
        perf_integral_gain: None,
        perf_integral_gain2: None,
        perf_proportional_gain: None,
        perf_proportional_gain2: None,
        perf_boost_ce_step: None,
        perf_reset_iters: None,
        perf_filter_drop_threshold: None,
        se_filter_time_constant: None,
        se_filter_time_constant_1: None,
        se_ki: None,
        se_ki_1: None,
        se_kp: None,
        se_kp_1: None,
        se_inactive_threshold: None,
        se_engagement_criteria: None,
        se_engagement_tolerance: None,
        se_reset_tolerance: None,
        se_reset_criteria: None,
        avg_power_target_filter_tc: None,
        avg_power_ki_only: None,
        avg_power_ki: None,
        avg_power_min_duty_cycle: None,
        avg_power_kp: None,
        avg_power_filter_tc_ms: None,
        avg_power_input_filter_tc: None,
        fast_die0_release_temp: None,
        fast_die0_prop_tgt_delta: None,
        fast_die0_integral_gain: None,
        fast_die0_proportional_gain: None,
        turbo_controller_input: None,
    }
}

fn floats() -> PowerFloats {
    PowerFloats {
        minimum: ONE,
        maximum: ONE,
        slope: ONE,
        duty: ONE,
        pwr: Coefficients { alpha: ONE, inverse: ONE },
        five: Coefficients { alpha: ONE, inverse: ONE },
        ppm: Coefficients { alpha: ONE, inverse: ONE },
        ppm_ki: ONE,
        perf: Coefficients { alpha: ONE, inverse: ONE },
        perf2: Coefficients { alpha: ONE, inverse: ONE },
        integral_minimum: ONE,
        headroom: ONE,
        se: Coefficients { alpha: ONE, inverse: ONE },
        se_1: Coefficients { alpha: ONE, inverse: ONE },
        se_ki: ONE,
        se_ki_1: ONE,
        micros: ONE,
        average_target: Coefficients { alpha: ONE, inverse: ONE },
        average: Coefficients { alpha: ONE, inverse: ONE },
        avg_ki: ONE,
        release: Some(8000),
        delta: Some(8000),
        fast_ki: ONE,
        turbo: Coefficients { alpha: ONE, inverse: ONE },
        last: Coefficients { alpha: ONE, inverse: ONE },
    }
}

#[test]
fn filters_hold_their_integers() {
    let f = filter(5, 8, None).unwrap();
    assert_eq!((f.count, f.count_x4, f.duration, f.clocks), (5, 20, 40, 960_000));
    let f = filter(2, 8, Some(17)).unwrap();
    assert_eq!((f.duration, f.clocks), (17, 384_000));
    assert_eq!(filter(0, 8, None).err(), Some(Error::EINVAL));
    assert_eq!(filter(0x4000_0000, 1, None).err(), Some(Error::EINVAL));
    assert_eq!(filter(200_000, 8, None).err(), Some(Error::EINVAL));
    assert_eq!(filter(2, 8, Some(24)).err(), Some(Error::EINVAL));
    assert_eq!(filter(2, 0, Some(24)).err(), Some(Error::EINVAL));
    assert_eq!(turbo_of(Some(0)).target, 9600);
    assert_eq!((turbo_of(Some(1)).target, turbo_of(None).target), (0, 10150));
}

#[test]
fn power_plans_have_defaults() {
    let p = PowerPlan::new(&no_words(), 15000, 8).unwrap();
    assert_eq!((p.duty, p.pwr_count, p.micros, p.frames, p.base_scaled), (40, 313, 8000, 4, 100));
    assert_eq!((p.ppm.count, p.ppm.duration, p.se.clocks, p.average.count), (2, 16, 9 * 8 * 24000, 31));
    for bad in [
        PowerWords { pwr_min_duty_cycle: Some(1001), ..no_words() },
        PowerWords { pwr_integral_min_clamp: Some(15001), ..no_words() },
        PowerWords { pwr_filter_time_constant: Some(0), ..no_words() },
        PowerWords { ppm_filter_time_constant_ms: Some(7), ..no_words() },
        PowerWords { perf_base_pstate: Some(0), ..no_words() },
        PowerWords { perf_base_pstate: Some(11), ..no_words() },
        PowerWords { perf_tgt_utilization: Some(101), ..no_words() },
        PowerWords { perf_dz: Some(86), ..no_words() },
        PowerWords { perf_boost_min_util: Some(101), ..no_words() },
        PowerWords { perf_integral_min_clamp: Some(96), ..no_words() },
        PowerWords { se_filter_time_constant: Some(0), ..no_words() },
        PowerWords { avg_power_min_duty_cycle: Some(1001), ..no_words() },
        PowerWords { fast_die0_release_temp: Some(u32::MAX), ..no_words() },
    ] {
        assert_eq!(PowerPlan::new(&bad, 15000, 8).err(), Some(Error::EINVAL));
    }
    assert_eq!(PowerPlan::new(&no_words(), 15000, 0).err(), Some(Error::EINVAL));
    assert_eq!(PowerPlan::new(&no_words(), 15000, u32::MAX).err(), Some(Error::EINVAL));
}

#[test]
fn power_data_is_stored() {
    let b = Platform::new(&inputs()).unwrap();
    let plan = PowerPlan::new(&no_words(), 15000, 8).unwrap();
    let mut out = vec![0u8; 0xb758];
    assert_eq!(b.power_data(&mut out, &plan, &floats()), Ok(()));
    assert_eq!((get16(&out, 0x6f6f), get16(&out, 0x6f6f + 1022)), (0x7fff, 0x7fff));
    assert_eq!((get32(&out, 0x5384), get32(&out, 0x5d38), get32(&out, 0x5440 + 40)), (200_000, 625, 0x3f82_8f5c));
    assert_eq!((get32(&out, 0x5d44), get32(&out, 0x5d54), get32(&out, 0x5d70), get32(&out, 0x5d74)), (ONE, 0x3ca5_9586, 40, 1000));
    assert_eq!((get32(&out, 0x7c50), get32(&out, 0x757c)), (15000, 1470));
    let infinite = PowerFloats { slope: 0x7f80_0000, ..floats() };
    assert_eq!(b.power_data(&mut out, &plan, &infinite), Err(Error::EINVAL));
    let wide = PowerFloats { release: None, ..floats() };
    assert_eq!(b.power_data(&mut out, &plan, &wide), Err(Error::EINVAL));
    assert_eq!(b.power_data(&mut out[..0xb757], &plan, &floats()), Err(Error::EINVAL));
    assert_eq!(b.bundle(7, &plan, &infinite).err(), Some(Error::EINVAL));
    assert!(b.bundle(7, &plan, &floats()).is_ok());
}

fn boot() -> BootInputs {
    BootInputs {
        firmware: Ok(b"mBoot-18000.161.10\0".to_vec()),
        private_vm: Ok(vec![0xffff_fc00_0000_0000, 0x20_0000_0000]),
        regions: [
            Ok((0x80_0000_0000, 0x4000)),
            Ok((0x80_0001_0000, 0x8000)),
            Ok((0x80_0002_0000, 0x4000)),
            Ok((0x80_0003_0000, 0x4000)),
            Ok((0x80_0100_0000, 0x100_0000)),
        ],
    }
}

#[test]
fn boot_resources_are_checked() {
    assert_eq!(validate_boot_resources(&boot()), Ok(()));
    let other = BootInputs { firmware: Ok(b"mBoot-1".to_vec()), ..boot() };
    assert_eq!(validate_boot_resources(&other), Err(Error::ENOTSUPP));
    let other = BootInputs { firmware: Err(Error::ENOENT), ..boot() };
    assert_eq!(validate_boot_resources(&other), Err(Error::ENOENT));
    let other = BootInputs { private_vm: Ok(vec![0, 1]), ..boot() };
    assert_eq!(validate_boot_resources(&other), Err(Error::EINVAL));
    for region in [
        Ok((0, 0x4000)),
        Ok((0x80_0001_0000, 0)),
        Ok((0x80_0001_0000, 0x1000)),
        Ok((0x80_0000_1000, 0x4000)),
        Ok((0x80_0001_4000, 0x4000)),
        Ok((0xffff_ffff_ffff_c000, 0x8000)),
    ] {
        let mut b = boot();
        b.regions[3] = region;
        assert_eq!(validate_boot_resources(&b), Err(Error::EINVAL));
    }
    let mut b = boot();
    b.regions[4] = Err(Error::EIO);
    assert_eq!(validate_boot_resources(&b), Err(Error::EIO));
    assert_eq!(crash_buffer(0x1100, 0x100, 0x1000, 0x200), Ok(0x100));
    assert_eq!(crash_buffer(0x1101, 0x100, 0x1000, 0x200), Err(Error::EINVAL));
    assert_eq!(crash_buffer(0xfff, 1, 0x1000, 0x200), Err(Error::EINVAL));
}

#[test]
fn boot_registers() {
    assert_eq!(cold_start(0x20, 2), Ok(0x30));
    assert_eq!(cold_start(0x10, 2), Err(Error::EBUSY));
    assert_eq!(cold_start(0, 3), Err(Error::EBUSY));
    assert_eq!(start_registers(4, 6), [(0x100_0104, 5), (0x100_0108, 7), (0xd0_6030, 6)]);
    let h = handoff_fields();
    assert_eq!((h[0].offset, h[0].value), (0, 0x4b1d_0000_0000_0002));
    let p = publish_registers();
    assert_eq!(p.len(), 39);
    assert!(p[..36].iter().all(|r| r.1 == 0));
    assert_eq!(p[36..], [(0xd6_40c0, 0), (0xd6_40c8, 0), (0xd6_0060, 1)]);
    assert_eq!((read_back(1, 1), read_back(1, 0)), (Ok(()), Err(Error::EIO)));
    assert!(is_ring_notification(0x20, 0x0042_0000_0000_0000));
    assert!(!is_ring_notification(0x21, 0x0042_0000_0000_0000));
    assert!(graph_accepted(1) && !graph_accepted(0));
}

#[test]
fn boot_answers() {
    let mut w = Wait::new();
    for _ in 1..POLLS {
        assert_eq!(w.observe(false), None);
    }
    assert_eq!(w.observe(false), Some(Err(Error::ETIMEDOUT)));
    assert_eq!(Wait::new().observe(true), Some(Ok(())));
    assert_eq!((check_opening((1, 1, 1)), check_opening((1, 0, 1))), (Ok(()), Err(Error::EIO)));
    assert!(control_retired((3, 3, 3), 1) && !control_retired((3, 3, 3), 0) && !control_retired((3, 2, 3), 1));
    assert_eq!((check_barrier((0, 0, 0)), check_barrier((1, 0, 0))), (Ok(()), Err(Error::EBUSY)));
    assert!(work_registered(160, 1) && !work_registered(160, 2) && !work_registered(152, 0));
    assert!(barrier_retired(1, 1, 2) && !barrier_retired(1, 1, 1));
}

fn covered(writes: &[Write]) -> bool {
    let rows = reservations();
    writes.iter().all(|w| {
        rows.iter().any(|r| r.address <= w.va && w.va + w.bytes.len() as u64 <= r.address + r.size)
    })
}

#[test]
fn the_firmware_map() {
    let rows = reservations();
    assert_eq!(rows.len(), 59);
    for pair in rows.windows(2) {
        assert!(pair[0].address + pair[0].size <= pair[1].address);
    }
    assert_eq!(row_at(2), (0xffff_fc20_0003_0000, 0xc_4000, Sharing::Shared));
    assert_eq!(rows[3].prot, rights(Sharing::ReadOnly));
    for window in Platform::new(&inputs()).unwrap().apertures() {
        assert!(rows.iter().all(|r| r.address + r.size <= window.address || window.address + window.size <= r.address));
    }
    for region in opening_regions() {
        assert!(rows.iter().all(|r| r.address + r.size <= region.address || region.address + region.size <= r.address));
    }
}

#[test]
fn boot_plans_store_into_the_map() {
    let b = Platform::new(&inputs()).unwrap();
    let plan = PowerPlan::new(&no_words(), 15000, 8).unwrap();
    let bundle = b.bundle(7, &plan, &floats()).unwrap();
    assert!(covered(&root_plan(&bundle, &b.region_c())));
    assert!(covered(&transport_plan()));
    assert!(covered(&boot_queue_plan()));
    assert_eq!((late_plan(false).len(), late_plan(true).len()), (1, 2));
    assert!(covered(&late_plan(true)));
    let n = notification_plan();
    assert_eq!((n[0].va, get64(&n[0].bytes, 0)), (0xffff_fc20_0003_4f88, 0xffff_fc21_8100_0000));
    assert!(covered(&n) && covered(&cleared_plan()) && covered(&barrier_plan()));
    let o = opening_plan();
    assert_eq!((o.len(), o[0].live, o[1].live), (2, false, true));
}

#[test]
fn the_opening_client() {
    assert_eq!(device_ranges()[2], (0x70_0015_8000, 0x94000));
    assert_eq!(shared_pages()[0], (0x70_0027_8000, 0xffff_fc20_0012_8000));
    assert!(window_pages().iter().all(|p| p.0 % 0x4000 == 0 && p.1 % 0x4000 == 0));
    let mut ranges = opening_ranges();
    assert_eq!((ranges.len(), ranges[0]), (41, (0x70_0000_0000, 0x40_0000)));
    let rows = opening_rows();
    assert_eq!((rows.len(), rows[1].va, rows[1].bytes.len()), (576, 0x70_0000_0100, 256));
    let first = get64(&rows[0].bytes, 0);
    assert_eq!(get64(&rows[1].bytes, 0), first + 32 * 0x1000);
    ranges.sort();
    for pair in ranges.windows(2) {
        assert!(pair[0].0 + pair[0].1 <= pair[1].0);
    }
}
