use scx_atropos::cpu_stat::CpuStat;
use scx_atropos::topology::Topology;
use scx_atropos::tuner::{TuneInput, Tuner};
use std::collections::BTreeMap;

fn stat(busy: u64, idle: u64) -> CpuStat {
    CpuStat { user: busy, nice: 0, system: 0, idle, iowait: 0, irq: 0, softirq: 0, steal: 0 }
}

fn stats(list: &[(usize, u64, u64)]) -> BTreeMap<usize, CpuStat> {
    list.iter().map(|&(cpu, busy, idle)| (cpu, stat(busy, idle))).collect()
}

fn two_doms() -> Topology {
    Topology::from_cpumasks(&vec!["0x3".to_string(), "0xc".to_string()], 4).unwrap()
}

fn tune_input() -> TuneInput {
    TuneInput { gen: 0, direct_greedy_cpumask: [0; 8], kick_greedy_cpumask: [0; 8] }
}

fn zero4() -> BTreeMap<usize, CpuStat> {
    stats(&[(0, 0, 0), (1, 0, 0), (2, 0, 0), (3, 0, 0)])
}

#[test]
fn utilization_of_a_cpu() {
    assert_eq!(stat(150, 150).calc_util(&stat(100, 100)), 500_000);
    assert_eq!(stat(101, 199).calc_util(&stat(100, 100)), 10_000);
    assert_eq!(stat(200, 100).calc_util(&stat(100, 100)), 1_000_000);
    assert_eq!(stat(100, 200).calc_util(&stat(100, 100)), 0);
    // one third, rounded down
    assert_eq!(stat(1, 2).calc_util(&stat(0, 0)), 333_333);
}

#[test]
fn no_tick_passed_counts_as_fully_busy() {
    let s = CpuStat { user: 5, nice: 6, system: 7, idle: 8, iowait: 9, irq: 1, softirq: 2, steal: 3 };
    assert_eq!(s.calc_util(&s), 1_000_000);
    assert_eq!(s.busy_and_total(), (24, 41));
}

#[test]
fn counters_that_fell_stay_within_bounds() {
    // busy fell while the total grew: none of the time was busy
    assert_eq!(stat(50, 300).calc_util(&stat(100, 100)), 0);
    // the total fell: as if no tick had passed
    assert_eq!(stat(10, 10).calc_util(&stat(100, 100)), 1_000_000);
    let max = CpuStat {
        user: u64::MAX, nice: u64::MAX, system: u64::MAX, idle: u64::MAX,
        iowait: u64::MAX, irq: u64::MAX, softirq: u64::MAX, steal: u64::MAX,
    };
    assert_eq!(max.calc_util(&stat(0, 0)), 750_000);
}

#[test]
fn domain_utilization_is_the_average_over_its_cpus() {
    let mut tuner = Tuner::new(&two_doms(), 900_000, 1_000_000, zero4());
    let mut ti = tune_input();
    // cpu 0 at 20%, cpu 1 at 60%, cpu 2 at 100%, cpu 3 idle
    tuner.step(stats(&[(0, 20, 80), (1, 60, 40), (2, 10, 0), (3, 0, 10)]), &mut ti);
    assert_eq!(tuner.dom_util(0), 400_000);
    assert_eq!(tuner.dom_util(1), 500_000);
    assert_eq!(tuner.dom_util(2), 0);
    assert_eq!(ti.gen, 1);
    // the next step is taken against these counters
    tuner.step(stats(&[(0, 20, 180), (1, 60, 140), (2, 20, 0), (3, 10, 10)]), &mut ti);
    assert_eq!(tuner.dom_util(0), 0);
    assert_eq!(tuner.dom_util(1), 1_000_000);
    assert_eq!(ti.gen, 2);
}

#[test]
fn cpus_without_counters_are_left_out() {
    let mut tuner = Tuner::new(&two_doms(), 900_000, 1_000_000, stats(&[(0, 0, 0), (2, 0, 0), (3, 0, 0)]));
    let mut ti = tune_input();
    // cpu 1 was not there before, cpu 2 is not there now
    tuner.step(stats(&[(0, 30, 70), (1, 100, 0), (3, 10, 90)]), &mut ti);
    assert_eq!(tuner.dom_util(0), 300_000);
    assert_eq!(tuner.dom_util(1), 100_000);
    let mut tuner = Tuner::new(&two_doms(), 900_000, 1_000_000, BTreeMap::new());
    tuner.step(zero4(), &mut ti);
    assert_eq!(tuner.dom_util(0), 0);
}

#[test]
fn tuner_threshold_semantics() {
    let busy = stats(&[(0, 49, 51), (1, 49, 51), (2, 50, 50), (3, 50, 50)]);
    // thresholds of 0 and of 100%
    let mut tuner = Tuner::new(&two_doms(), 0, 1_000_000, zero4());
    let mut ti = tune_input();
    ti.direct_greedy_cpumask = [u64::MAX; 8];
    tuner.step(busy.clone(), &mut ti);
    assert_eq!(ti.direct_greedy_cpumask[0], !0xf);
    assert_eq!(ti.kick_greedy_cpumask[0], 0xf);
    // a threshold of 50%: the domain at 0.49 is in, the one at 0.50 is out
    let mut tuner = Tuner::new(&two_doms(), 500_000, 500_001, zero4());
    let mut ti = tune_input();
    tuner.step(busy, &mut ti);
    assert_eq!(tuner.dom_util(0), 490_000);
    assert_eq!(tuner.dom_util(1), 500_000);
    assert_eq!(ti.direct_greedy_cpumask, [0x3, 0, 0, 0, 0, 0, 0, 0]);
    assert_eq!(ti.kick_greedy_cpumask, [0xf, 0, 0, 0, 0, 0, 0, 0]);
}

#[test]
fn threshold_at_the_top_is_always_on() {
    let full = stats(&[(0, 10, 0), (1, 10, 0), (2, 10, 0), (3, 10, 0)]);
    let mut tuner = Tuner::new(&two_doms(), 999_990, 999_991, zero4());
    let mut ti = tune_input();
    tuner.step(full, &mut ti);
    assert_eq!(ti.direct_greedy_cpumask[0], 0);
    assert_eq!(ti.kick_greedy_cpumask[0], 0xf);
}

#[test]
fn a_higher_threshold_only_adds_cpus() {
    let now = stats(&[(0, 10, 90), (1, 30, 70), (2, 60, 40), (3, 80, 20)]);
    let mut last = 0u64;
    for threshold in [0, 100_000, 200_001, 450_000, 700_001, 900_000, 1_000_000] {
        let mut tuner = Tuner::new(&two_doms(), threshold, 0, zero4());
        let mut ti = tune_input();
        tuner.step(now.clone(), &mut ti);
        let mask = ti.direct_greedy_cpumask[0];
        assert_eq!(mask & last, last);
        last = mask;
    }
    assert_eq!(last, 0xf);
}

#[test]
fn offline_cpus_are_skipped_and_keep_their_bits() {
    let top = Topology::from_cache_level(&vec![Some(1), None, Some(1), Some(2)]).unwrap();
    let mut tuner = Tuner::new(&top, 500_000, 0, zero4());
    let mut ti = tune_input();
    ti.kick_greedy_cpumask = [0b1111, 0, 0, 0, 0, 0, 0, 1];
    tuner.step(stats(&[(0, 10, 90), (1, 100, 0), (2, 30, 70), (3, 90, 10)]), &mut ti);
    assert_eq!(tuner.dom_util(0), 200_000);
    assert_eq!(tuner.dom_util(1), 900_000);
    assert_eq!(ti.direct_greedy_cpumask[0], 0b0101);
    assert_eq!(ti.kick_greedy_cpumask, [0b0010, 0, 0, 0, 0, 0, 0, 1]);
}

#[test]
fn bits_of_high_cpus_land_in_the_right_word() {
    let masks = vec![format!("{}{}", "f".repeat(16), "0".repeat(32)), "f".repeat(32)];
    let top = Topology::from_cpumasks(&masks, 192).unwrap();
    let prev: BTreeMap<usize, CpuStat> = (0..192).map(|c| (c, stat(0, 0))).collect();
    let now: BTreeMap<usize, CpuStat> =
        (0..192).map(|c| (c, if c >= 128 { stat(1, 9) } else { stat(9, 1) })).collect();
    let mut tuner = Tuner::new(&top, 500_000, 950_000, prev);
    let mut ti = tune_input();
    tuner.step(now, &mut ti);
    assert_eq!(ti.direct_greedy_cpumask, [0, 0, u64::MAX, 0, 0, 0, 0, 0]);
    assert_eq!(ti.kick_greedy_cpumask, [u64::MAX, u64::MAX, u64::MAX, 0, 0, 0, 0, 0]);
}
