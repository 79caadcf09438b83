use scx_atropos::balance_types::{LoadError, Migration};
use scx_atropos::error::ConfigError;
use scx_atropos::load::TaskCtx;
use scx_atropos::sampling::TaskLoads;
use scx_atropos::report::{format_cpumask, share_of, sum_per_cpu, DispatchStats};
use scx_atropos::scheduler::{kernel_config, lb_step, Options};
use scx_atropos::topology::Topology;

const SEC: u64 = 1_000_000_000;

fn options() -> Options {
    Options {
        slice_us: 20_000,
        interval: 2 * SEC,
        tune_interval: SEC / 10,
        cache_level: 3,
        cpumasks: vec![],
        greedy_threshold: 1,
        load_decay_factor: 500_000,
        no_load_balance: false,
        kthreads_local: false,
        balanced_kworkers: false,
        fifo_sched: false,
        direct_greedy_under: 900_000,
        kick_greedy_under: 1_000_000,
        partial: false,
    }
}

fn task(pid: i32, dom_id: u32, weight: u32, dom_mask: u64) -> TaskCtx {
    TaskCtx { pid, runnable_at: 0, runnable_for: SEC, weight, dom_id, dom_mask, is_kworker: false }
}

#[test]
fn kernel_is_told_the_topology_and_the_options() {
    let top = Topology::from_cache_level(&vec![Some(4), Some(4), None, Some(9)]).unwrap();
    let opts = Options { kthreads_local: true, partial: true, greedy_threshold: 5, ..options() };
    let config = kernel_config(&top, &opts).unwrap();
    assert_eq!(config.nr_doms, 2);
    assert_eq!(config.nr_cpus, 4);
    assert_eq!(config.cpu_dom_id_map, vec![0, 0, 0, 1]);
    assert_eq!(config.dom_cpumasks, vec![vec![0b0111, 0, 0, 0, 0, 0, 0, 0], vec![0b1000, 0, 0, 0, 0, 0, 0, 0]]);
    assert_eq!(config.slice_ns, 20_000_000);
    assert!(config.kthreads_local && config.switch_partial && !config.fifo_sched);
    assert_eq!(config.greedy_threshold, 5);
}

#[test]
fn slice_must_fit_in_nanoseconds() {
    let top = Topology::from_cpumasks(&vec!["1".to_string()], 1).unwrap();
    let opts = Options { slice_us: u64::MAX / 1000, ..options() };
    assert_eq!(kernel_config(&top, &opts).unwrap().slice_ns, u64::MAX / 1000 * 1000);
    let opts = Options { slice_us: u64::MAX / 1000 + 1, ..options() };
    assert_eq!(
        kernel_config(&top, &opts).err(),
        Some(ConfigError::SliceTooLong { slice_us: u64::MAX / 1000 + 1 })
    );
}

#[test]
fn options_decide_the_mode() {
    assert!(!options().uses_cpumasks());
    assert!(Options { cpumasks: vec!["1".to_string()], ..options() }.uses_cpumasks());
    assert!(options().balance_load());
    assert!(!Options { no_load_balance: true, ..options() }.balance_load());
}

#[test]
fn a_round_reads_finds_and_plans() {
    let top = Topology::from_cpumasks(&vec!["1".to_string(), "2".to_string()], 2).unwrap();
    let tasks = vec![task(1, 0, 5, 3), task(2, 0, 15, 1)];
    let (loads, report) = lb_step(&top, TaskLoads::new(), &tasks, 10 * SEC, SEC, 500_000, false, true);
    let report = report.unwrap();
    assert_eq!(report.load_avg, 10_000_000);
    assert_eq!(report.dom_loads, vec![20_000_000, 0]);
    assert_eq!(report.imbal, vec![10_000_000, -10_000_000]);
    assert_eq!(report.moves, vec![Migration { pid: 1, from_dom: 0, to_dom: 1, load: 5_000_000 }]);
    assert_eq!(loads.len(), 2);
    // without balancing the same is found and nothing moves
    let (loads, report) = lb_step(&top, loads, &tasks, 11 * SEC, SEC, 500_000, false, false);
    let report = report.unwrap();
    assert_eq!(report.imbal, vec![5_000_000, -5_000_000]);
    assert_eq!(report.moves, vec![]);
    // a report that names a pid twice fails the round
    let twice = vec![task(1, 0, 5, 3), task(1, 0, 5, 3)];
    let (loads, report) = lb_step(&top, loads, &twice, 11 * SEC, SEC, 500_000, false, true);
    assert_eq!(report.err(), Some(LoadError::DuplicatePid { pid: 1 }));
    // a failed round forgets nothing
    let (loads, report) = lb_step(&top, loads, &tasks, 11 * SEC, 0, 500_000, false, true);
    assert_eq!(report.err(), Some(LoadError::ZeroPeriod));
    assert_eq!(loads.get(2).unwrap().load, 7_500_000);
}

#[test]
fn cpumask_is_written_high_word_first() {
    let words = [0x1u64, 0xdead_beef_0000_00ff, 0, 7];
    assert_eq!(format_cpumask(&words, 0), b" 0000000000000001".to_vec());
    assert_eq!(format_cpumask(&words, 63), b" 0000000000000001".to_vec());
    assert_eq!(format_cpumask(&words, 64), b" DEADBEEF000000FF 0000000000000001".to_vec());
    assert_eq!(
        format_cpumask(&words, 512),
        b" 0000000000000007 0000000000000000 DEADBEEF000000FF 0000000000000001".to_vec()
    );
    assert_eq!(format_cpumask(&[], 8), b"".to_vec());
    assert_eq!(format_cpumask(&[u64::MAX], usize::MAX), b" FFFFFFFFFFFFFFFF".to_vec());
}

#[test]
fn report_figures() {
    assert_eq!(sum_per_cpu(&[]), 0);
    assert_eq!(sum_per_cpu(&[1, 2, 3]), 6);
    assert_eq!(sum_per_cpu(&[u64::MAX, 1, 5]), u64::MAX);
    let stats = DispatchStats {
        wake_sync: 1, prev_idle: 2, greedy_idle: 3, pinned: 4, direct_dispatch: 5,
        direct_greedy: 6, direct_greedy_far: 7, dsq_dispatch: 8, greedy: 9,
        kick_greedy: 100, repatriate: 200, load_balance: 300, task_get_err: 400,
    };
    assert_eq!(stats.dispatch_total(), 45);
    assert_eq!(share_of(stats.greedy, 45), Some(2_000));
    assert_eq!(share_of(1, 3), Some(3_333));
    assert_eq!(share_of(5, 0), None);
}
