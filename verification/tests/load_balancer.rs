use scx_atropos::balance_types::{DomImbal, LoadError, Migration};
use scx_atropos::load::{TaskCtx, TaskLoad};
use scx_atropos::load_balancer::LoadBalancer;
use scx_atropos::sampling::TaskLoads;
use scx_atropos::topology::Topology;

const UNIT: i128 = 1_000_000;
const SEC: u64 = 1_000_000_000;
const NOW: u64 = 100 * SEC;

fn top(nr_doms: usize) -> Topology {
    let masks: Vec<String> = (0..nr_doms).map(|d| format!("{:x}", 1u64 << d)).collect();
    Topology::from_cpumasks(&masks, nr_doms).unwrap()
}

/// A task that was runnable for the whole period, so that its load is its weight.
fn task(pid: i32, dom_id: u32, weight: u32, dom_mask: u64) -> TaskCtx {
    TaskCtx { pid, runnable_at: 0, runnable_for: SEC, weight, dom_id, dom_mask, is_kworker: false }
}

fn balancer(nr_doms: usize, tasks: &Vec<TaskCtx>, skip_kworkers: bool) -> LoadBalancer {
    let mut lb = LoadBalancer::new(&top(nr_doms), TaskLoads::new(), 500_000, skip_kworkers);
    assert_eq!(lb.read_task_loads(tasks, NOW, SEC), Ok(()));
    lb.calculate_dom_load_balance();
    lb
}

fn pids(moves: &Vec<Migration>) -> Vec<(i32, u32)> {
    moves.iter().map(|m| (m.pid, m.to_dom)).collect()
}

#[test]
fn new_task_takes_its_raw_load() {
    let mut lb = LoadBalancer::new(&top(2), TaskLoads::new(), 500_000, false);
    let t = TaskCtx { runnable_for: SEC / 2, ..task(7, 0, 100, 3) };
    assert_eq!(lb.read_task_loads(&vec![t], NOW, SEC), Ok(()));
    assert_eq!(lb.task_load(7), Some(TaskLoad { runnable_for: SEC / 2, load: 50_000_000 }));
    assert_eq!(lb.dom_loads(), vec![50 * UNIT, 0]);
    assert_eq!(lb.load_avg(), 25 * UNIT);
    assert_eq!(lb.task_load(8), None);
}

#[test]
fn load_is_smoothed_against_the_last_round() {
    let mut lb = LoadBalancer::new(&top(1), TaskLoads::new(), 500_000, false);
    let t = TaskCtx { runnable_for: SEC / 2, ..task(7, 0, 100, 1) };
    lb.read_task_loads(&vec![t], NOW, SEC).unwrap();
    let mut lb = LoadBalancer::new(&top(1), lb.into_task_loads(), 500_000, false);
    let t = TaskCtx { runnable_for: SEC / 2 + SEC, ..t };
    lb.read_task_loads(&vec![t], NOW + SEC, SEC).unwrap();
    // (50 * 0.5 + 100 * 0.5)
    assert_eq!(lb.task_load(7).unwrap().load, 75_000_000);
    let mut lb = LoadBalancer::new(&top(1), lb.into_task_loads(), 250_000, false);
    let t = TaskCtx { runnable_for: SEC / 2 + SEC, ..t };
    lb.read_task_loads(&vec![t], NOW + 2 * SEC, SEC).unwrap();
    // nothing gained: 75 * 0.25 + 0 * 0.75
    assert_eq!(lb.task_load(7).unwrap().load, 18_750_000);
}

#[test]
fn time_in_flight_counts_and_the_period_caps() {
    let mut lb = LoadBalancer::new(&top(1), TaskLoads::new(), 0, false);
    let flying = TaskCtx { runnable_at: NOW - SEC / 4, runnable_for: 0, ..task(1, 0, 100, 1) };
    let future = TaskCtx { runnable_at: NOW + 5, runnable_for: 0, ..task(2, 0, 100, 1) };
    let busy = TaskCtx { runnable_at: 1, runnable_for: 3 * SEC, ..task(3, 0, 100, 1) };
    lb.read_task_loads(&vec![flying, future, busy], NOW, SEC).unwrap();
    assert_eq!(lb.task_load(1).unwrap().load, 25_000_000);
    assert_eq!(lb.task_load(2).unwrap().load, 0);
    assert_eq!(lb.task_load(3).unwrap().load, 100_000_000);
}

#[test]
fn a_reading_that_fell_counts_as_no_gain() {
    let mut lb = LoadBalancer::new(&top(1), TaskLoads::new(), 0, false);
    lb.read_task_loads(&vec![task(1, 0, 100, 1)], NOW, SEC).unwrap();
    let mut lb = LoadBalancer::new(&top(1), lb.into_task_loads(), 0, false);
    let t = TaskCtx { runnable_for: SEC / 2, ..task(1, 0, 100, 1) };
    lb.read_task_loads(&vec![t], NOW + SEC, SEC).unwrap();
    assert_eq!(lb.task_load(1), Some(TaskLoad { runnable_for: SEC / 2, load: 0 }));
}

#[test]
fn decay_factor_is_cut_to_its_maximum() {
    let mut lb = LoadBalancer::new(&top(1), TaskLoads::new(), 2_000_000, false);
    lb.read_task_loads(&vec![task(1, 0, 100, 1)], NOW, SEC).unwrap();
    let mut lb = LoadBalancer::new(&top(1), lb.into_task_loads(), 2_000_000, false);
    let idle = TaskCtx { runnable_for: SEC, ..task(1, 0, 100, 1) };
    lb.read_task_loads(&vec![idle], NOW + SEC, SEC).unwrap();
    assert_eq!(lb.task_load(1).unwrap().load, 99_000_000);
}

#[test]
fn only_tasks_seen_are_remembered() {
    let mut lb = LoadBalancer::new(&top(1), TaskLoads::new(), 0, false);
    lb.read_task_loads(&vec![task(1, 0, 1, 1), task(2, 0, 1, 1)], NOW, SEC).unwrap();
    let mut lb = LoadBalancer::new(&top(1), lb.into_task_loads(), 0, false);
    lb.read_task_loads(&vec![task(2, 0, 1, 1), task(3, 0, 1, 1)], NOW, SEC).unwrap();
    let loads = lb.into_task_loads();
    assert_eq!(loads.len(), 2);
    assert!(loads.get(1).is_none() && loads.get(2).is_some() && loads.get(3).is_some());
}

#[test]
fn read_errors() {
    let mut lb = LoadBalancer::new(&top(2), TaskLoads::new(), 0, false);
    assert_eq!(lb.read_task_loads(&vec![], NOW, 0), Err(LoadError::ZeroPeriod));
    let tasks = vec![task(1, 1, 1, 3), task(2, 2, 1, 3), task(3, 9, 1, 3)];
    assert_eq!(
        lb.read_task_loads(&tasks, NOW, SEC),
        Err(LoadError::BadDomain { pid: 2, dom_id: 2 })
    );
    assert_eq!(lb.dom_loads(), vec![0, 0]);
    let none = Topology::from_cpumasks(&vec![], 0).unwrap();
    let mut lb = LoadBalancer::new(&none, TaskLoads::new(), 0, false);
    assert_eq!(lb.read_task_loads(&vec![], NOW, SEC), Err(LoadError::NoDomains));
}

#[test]
fn index_holds_the_tasks_that_may_move_by_load() {
    let tasks = vec![task(1, 0, 30, 3), task(2, 0, 10, 1), task(3, 0, 20, 3), task(4, 0, 20, 2), task(5, 1, 5, 3)];
    let lb = balancer(2, &tasks, false);
    let index: Vec<(i32, u64)> = lb.tasks_by_load(0).iter().map(|e| (e.task.pid, e.load)).collect();
    assert_eq!(index, vec![(3, 20_000_000), (4, 20_000_000), (1, 30_000_000)]);
    assert_eq!(lb.tasks_by_load(1).len(), 1);
    assert_eq!(lb.tasks_by_load(2).len(), 0);
}

#[test]
fn balanced_pair_stays_put() {
    let mut lb = balancer(2, &vec![task(1, 0, 10, 3), task(2, 1, 10, 3)], false);
    assert_eq!(lb.dom_loads(), vec![10 * UNIT, 10 * UNIT]);
    assert_eq!(lb.doms_to_push(), vec![]);
    assert_eq!(lb.doms_to_pull(), vec![]);
    assert_eq!(lb.imbal(), vec![0, 0]);
    assert_eq!(lb.load_balance(), vec![]);
}

#[test]
fn imbalance_below_a_tenth_is_left_alone() {
    // loads 104 and 96: 4 off an average of 100
    let lb = balancer(2, &vec![task(1, 0, 104, 3), task(2, 1, 96, 3)], false);
    assert_eq!(lb.doms_to_push(), vec![]);
    assert_eq!(lb.imbal(), vec![0, 0]);
    // loads 105 and 95: 5 off an average of 100 is not enough, 110 and 90 is
    let lb = balancer(2, &vec![task(1, 0, 110, 3), task(2, 1, 90, 3)], false);
    assert_eq!(lb.doms_to_push(), vec![DomImbal { imbal: 10 * UNIT, dom: 0 }]);
    assert_eq!(lb.doms_to_pull(), vec![DomImbal { imbal: 10 * UNIT, dom: 1 }]);
    assert_eq!(lb.imbal(), vec![10 * UNIT, -10 * UNIT]);
}

#[test]
fn single_migration_improves() {
    let mut lb = balancer(2, &vec![task(1, 0, 5, 3), task(2, 0, 15, 1)], false);
    assert_eq!(lb.dom_loads(), vec![20 * UNIT, 0]);
    assert_eq!(lb.load_avg(), 10 * UNIT);
    let moves = lb.load_balance();
    assert_eq!(moves, vec![Migration { pid: 1, from_dom: 0, to_dom: 1, load: 5_000_000 }]);
    assert_eq!(lb.doms_to_pull(), vec![DomImbal { imbal: 5 * UNIT, dom: 1 }]);
    assert_eq!(lb.doms_to_push(), vec![]);
    assert!(lb.tasks_by_load(0)[0].task.migrated);
}

#[test]
fn pick_victim_takes_the_nearest_to_half_of_the_smaller_side() {
    let tasks = vec![task(1, 0, 2, 3), task(2, 0, 4, 3), task(3, 0, 7, 3), task(4, 0, 40, 3)];
    let lb = balancer(2, &tasks, false);
    // target 5: below it 4 leaves 6 + 6, above it 7 leaves 3 + 3
    assert_eq!(lb.pick_victim((0, 10 * UNIT), (1, 10 * UNIT)), Some((2, 7_000_000)));
    // target 3: below it 2 leaves 4 + 8, above it 4 leaves 2 + 6
    assert_eq!(lb.pick_victim((0, 6 * UNIT), (1, 10 * UNIT)), Some((1, 4_000_000)));
    // target 3 on both sides: 2 leaves 4 + 4, 4 leaves 2 + 2
    assert_eq!(lb.pick_victim((0, 6 * UNIT), (1, 6 * UNIT)), Some((1, 4_000_000)));
    // a tie goes to the lower one: target 3, 2 leaves 1 + 5, 4 leaves 1 + 5
    assert_eq!(lb.pick_victim((0, 3 * UNIT), (1, 7 * UNIT)), Some((0, 2_000_000)));
    // nothing to gain where one side is even
    assert_eq!(lb.pick_victim((0, 0), (1, 10 * UNIT)), None);
    assert_eq!(lb.pick_victim((0, 10 * UNIT), (1, -UNIT)), None);
}

#[test]
fn a_move_must_leave_less_off_balance() {
    // moving 10 between sides that are off by 5 each leaves 5 + 5: no gain
    let lb = balancer(2, &vec![task(1, 0, 10, 3)], false);
    assert_eq!(lb.pick_victim((0, 5 * UNIT), (1, 5 * UNIT)), None);
    assert_eq!(lb.pick_victim((0, 5 * UNIT + 1), (1, 5 * UNIT)), Some((0, 10_000_000)));
}

#[test]
fn tasks_that_may_not_go_there_are_passed_over() {
    let kworker = TaskCtx { is_kworker: true, ..task(1, 0, 5, 7) };
    let tasks = vec![kworker, task(2, 0, 5, 5), task(3, 0, 6, 3)];
    let lb = balancer(3, &tasks, true);
    // to domain 1 only pid 3 may go, to domain 2 only pid 2
    assert_eq!(lb.pick_victim((0, 10 * UNIT), (1, 10 * UNIT)), Some((2, 6_000_000)));
    assert_eq!(lb.pick_victim((0, 10 * UNIT), (2, 10 * UNIT)), Some((1, 5_000_000)));
    let lb = balancer(3, &tasks, false);
    assert_eq!(lb.pick_victim((0, 10 * UNIT), (2, 10 * UNIT)), Some((1, 5_000_000)));
    assert_eq!(lb.tasks_by_load(0)[0].task.pid, 1);
    let lb = balancer(3, &vec![kworker], false);
    assert_eq!(lb.pick_victim((0, 10 * UNIT), (2, 10 * UNIT)), Some((0, 5_000_000)));
    let lb = balancer(3, &vec![kworker], true);
    assert_eq!(lb.pick_victim((0, 10 * UNIT), (2, 10 * UNIT)), None);
}

#[test]
fn most_starved_domain_is_served_first_and_ranks_are_taken_anew() {
    // domain 0 carries 60, domains 1 and 2 nothing: average 20
    let tasks = vec![task(1, 0, 10, 7), task(2, 0, 10, 7), task(3, 0, 10, 7), task(4, 0, 30, 1)];
    let mut lb = balancer(3, &tasks, false);
    assert_eq!(lb.doms_to_push(), vec![DomImbal { imbal: 40 * UNIT, dom: 0 }]);
    assert_eq!(
        lb.doms_to_pull(),
        vec![DomImbal { imbal: 20 * UNIT, dom: 1 }, DomImbal { imbal: 20 * UNIT, dom: 2 }]
    );
    let moves = lb.load_balance();
    // equal lacks: the higher domain first; then domain 1 lacks more; then
    // half of the 60 has gone and the domain gives no more
    assert_eq!(pids(&moves), vec![(3, 2), (2, 1), (1, 2)]);
    assert_eq!(
        lb.doms_to_pull(),
        vec![DomImbal { imbal: 0, dom: 2 }, DomImbal { imbal: 10 * UNIT, dom: 1 }]
    );
}

#[test]
fn each_pid_moves_at_most_once_and_only_where_it_may() {
    let mut tasks = Vec::new();
    for pid in 0..40u32 {
        let dom = pid % 2;
        let mask = if pid % 3 == 0 { 0b1111 } else { 0b0111 };
        tasks.push(TaskCtx { is_kworker: pid % 5 == 0, ..task(pid as i32, dom, 1 + pid, mask) });
    }
    let mut lb = balancer(4, &tasks, true);
    let dom_loads = lb.dom_loads();
    let moves = lb.load_balance();
    assert!(!moves.is_empty());
    let mut seen = std::collections::BTreeSet::new();
    let mut out = vec![0i128; 4];
    for m in &moves {
        assert!(seen.insert(m.pid));
        let t = tasks[m.pid as usize];
        assert_eq!(t.dom_id, m.from_dom);
        assert!(t.dom_mask & (1 << m.to_dom) != 0);
        assert!(!t.is_kworker);
        // the domain had given away less than half of its load
        assert!(out[m.from_dom as usize] == 0 || 2 * out[m.from_dom as usize] < dom_loads[m.from_dom as usize]);
        out[m.from_dom as usize] += m.load as i128;
    }
}

#[test]
fn a_heavy_task_can_take_more_than_half_of_the_load_along() {
    let mut lb = balancer(2, &vec![task(1, 0, 19, 3), task(2, 0, 1, 1)], false);
    let moves = lb.load_balance();
    assert_eq!(moves, vec![Migration { pid: 1, from_dom: 0, to_dom: 1, load: 19_000_000 }]);
    assert_eq!(lb.doms_to_pull(), vec![DomImbal { imbal: -9 * UNIT, dom: 1 }]);
}

#[test]
fn a_domain_on_the_average_is_neither_to_push_nor_to_pull() {
    // no task at all: every domain carries the average of 0
    let lb = balancer(3, &vec![], false);
    assert_eq!(lb.load_avg(), 0);
    assert_eq!(lb.doms_to_push(), vec![]);
    assert_eq!(lb.doms_to_pull(), vec![]);
    assert_eq!(lb.imbal(), vec![0, 0, 0]);
    // one domain on the average between one above and one below
    let lb = balancer(3, &vec![task(1, 0, 30, 7), task(2, 1, 20, 7), task(3, 2, 10, 7)], false);
    assert_eq!(lb.doms_to_push(), vec![DomImbal { imbal: 10 * UNIT, dom: 0 }]);
    assert_eq!(lb.doms_to_pull(), vec![DomImbal { imbal: 10 * UNIT, dom: 2 }]);
    assert_eq!(lb.imbal(), vec![10 * UNIT, 0, -10 * UNIT]);
}

#[test]
fn a_pid_reported_twice_is_refused() {
    let mut lb = LoadBalancer::new(&top(2), TaskLoads::new(), 0, false);
    let tasks = vec![task(1, 0, 10, 3), task(2, 1, 10, 3), task(3, 0, 10, 3), task(2, 0, 5, 3), task(1, 1, 5, 3)];
    assert_eq!(lb.read_task_loads(&tasks, NOW, SEC), Err(LoadError::DuplicatePid { pid: 2 }));
    assert_eq!(lb.dom_loads(), vec![0, 0]);
    assert_eq!(lb.task_load(1), None);
    assert_eq!(lb.tasks_by_load(0).len(), 0);
    // a task in a domain that does not exist is found first
    let tasks = vec![task(1, 0, 10, 3), task(1, 0, 10, 3), task(3, 5, 10, 3)];
    assert_eq!(lb.read_task_loads(&tasks, NOW, SEC), Err(LoadError::BadDomain { pid: 3, dom_id: 5 }));
}
