use scx_atropos::error::{ConfigError, SetupError, TopologyError};
use scx_atropos::topology::Topology;

fn masks(list: &[&str]) -> Vec<String> {
    list.iter().map(|s| s.to_string()).collect()
}

fn dom_cpus(top: &Topology, dom: usize) -> Vec<usize> {
    let words = top.dom_cpumask(dom);
    (0..512).filter(|c| words[c / 64] >> (c % 64) & 1 == 1).collect()
}

#[test]
fn two_mask_partition() {
    let top = Topology::from_cpumasks(&masks(&["0xff", "0xff00"]), 16).unwrap();
    assert_eq!(top.nr_cpus(), 16);
    assert_eq!(top.nr_doms(), 2);
    assert_eq!(dom_cpus(&top, 0), (0..8).collect::<Vec<usize>>());
    assert_eq!(dom_cpus(&top, 1), (8..16).collect::<Vec<usize>>());
    for cpu in 0..16 {
        assert_eq!(top.cpu_dom(cpu), Some(cpu / 8));
    }
    assert_eq!(top.cpu_dom(16), None);
    assert_eq!(top.dom_nr_cpus(0), 8);
    assert_eq!(top.dom_nr_cpus(1), 8);
}

#[test]
fn overlapping_masks_rejected() {
    let r = Topology::from_cpumasks(&masks(&["0x3", "0x2"]), 2);
    assert_eq!(
        r.err(),
        Some(SetupError::Topology(TopologyError::CpuDoubleAssigned { cpu: 1, dom: 1, other_dom: 0 }))
    );
}

#[test]
fn mask_spelling_does_not_matter() {
    let plain = Topology::from_cpumasks(&masks(&["ff00ff", "00ff00"]), 24).unwrap();
    for spelling in ["0xff_00ff", "FF00FF", "0xFf00fF", "f_f_0_0_f_f", "0x0ff00ff", "00000ff00ff"] {
        let top = Topology::from_cpumasks(&masks(&[spelling, "0xff00"]), 24).unwrap();
        assert_eq!(dom_cpus(&top, 0), dom_cpus(&plain, 0));
        assert_eq!(dom_cpus(&top, 1), dom_cpus(&plain, 1));
    }
}

#[test]
fn odd_number_of_digits_is_padded() {
    let top = Topology::from_cpumasks(&masks(&["0x7"]), 3).unwrap();
    assert_eq!(dom_cpus(&top, 0), vec![0, 1, 2]);
}

#[test]
fn cpu_out_of_range() {
    let r = Topology::from_cpumasks(&masks(&["0x1f"]), 4);
    assert_eq!(r.err(), Some(SetupError::Topology(TopologyError::CpuOutOfRange { cpu: 4, dom: 0 })));
    let r = Topology::from_cpumasks(&masks(&["0x3", "0x10c"]), 4);
    assert_eq!(r.err(), Some(SetupError::Topology(TopologyError::CpuOutOfRange { cpu: 8, dom: 1 })));
}

#[test]
fn cpu_unassigned() {
    let r = Topology::from_cpumasks(&masks(&["0x3", "0x8"]), 4);
    assert_eq!(r.err(), Some(SetupError::Topology(TopologyError::CpuUnassigned { cpu: 2 })));
}

#[test]
fn too_many_doms() {
    let list: Vec<String> = (0..65).map(|_| "0x0".to_string()).collect();
    let r = Topology::from_cpumasks(&list, 4);
    assert_eq!(r.err(), Some(SetupError::Topology(TopologyError::TooManyDoms { nr_doms: 65 })));
}

#[test]
fn too_many_cpus() {
    let r = Topology::from_cpumasks(&masks(&["0x1"]), 513);
    assert_eq!(r.err(), Some(SetupError::Config(ConfigError::TooManyCpus { nr_cpus: 513 })));
}

#[test]
fn bad_cpumask() {
    let r = Topology::from_cpumasks(&masks(&["0x3", "0xzz"]), 4);
    assert_eq!(r.err(), Some(SetupError::Config(ConfigError::BadCpumask { dom: 1 })));
    let r = Topology::from_cpumasks(&masks(&["0X3"]), 2);
    assert_eq!(r.err(), Some(SetupError::Config(ConfigError::BadCpumask { dom: 0 })));
    for bad in ["_0x3", "0x0x3", " 3", "3 ", "\u{e9}3", "0x\u{ff13}"] {
        let r = Topology::from_cpumasks(&masks(&[bad]), 2);
        assert_eq!(r.err(), Some(SetupError::Config(ConfigError::BadCpumask { dom: 0 })));
    }
}

#[test]
fn empty_mask_is_an_empty_domain() {
    let top = Topology::from_cpumasks(&masks(&["", "0x", "_", "0x3"]), 2).unwrap();
    assert_eq!(top.nr_doms(), 4);
    assert_eq!(top.dom_nr_cpus(0), 0);
    assert_eq!(top.dom_nr_cpus(1), 0);
    assert_eq!(top.dom_nr_cpus(2), 0);
    assert_eq!(top.cpu_doms(), vec![Some(3), Some(3)]);
}

#[test]
fn first_fault_wins() {
    // CPU 1 is taken twice and CPU 9 does not exist: the lower CPU is reported.
    let r = Topology::from_cpumasks(&masks(&["0x3", "0x202"]), 4);
    assert_eq!(
        r.err(),
        Some(SetupError::Topology(TopologyError::CpuDoubleAssigned { cpu: 1, dom: 1, other_dom: 0 }))
    );
}

#[test]
fn full_width_mask() {
    let all = "f".repeat(128);
    let top = Topology::from_cpumasks(&masks(&[&all]), 512).unwrap();
    assert_eq!(top.dom_nr_cpus(0), 512);
    assert_eq!(top.dom_cpumask(0), vec![u64::MAX; 8]);
}

#[test]
fn cache_level_grouping() {
    let top = Topology::from_cache_level(&vec![Some(7), Some(7), Some(12), Some(12)]).unwrap();
    assert_eq!(top.nr_doms(), 2);
    assert_eq!(dom_cpus(&top, 0), vec![0, 1]);
    assert_eq!(dom_cpus(&top, 1), vec![2, 3]);
    assert_eq!(top.cpu_dom(0), Some(0));
    assert_eq!(top.cpu_dom(3), Some(1));
}

#[test]
fn cache_ids_are_ranked_not_taken_in_order_of_appearance() {
    let top = Topology::from_cache_level(&vec![Some(40), Some(3), Some(40), Some(9)]).unwrap();
    assert_eq!(top.nr_doms(), 3);
    assert_eq!(top.cpu_dom_id_map(), vec![2, 0, 2, 1]);
}

#[test]
fn offline_cpu_has_no_domain_but_sits_in_domain_zero() {
    let top = Topology::from_cache_level(&vec![Some(5), None, Some(2), None]).unwrap();
    assert_eq!(top.nr_doms(), 2);
    assert_eq!(top.cpu_dom(0), Some(1));
    assert_eq!(top.cpu_dom(1), None);
    assert_eq!(top.cpu_dom(2), Some(0));
    assert_eq!(dom_cpus(&top, 0), vec![1, 2, 3]);
    assert_eq!(dom_cpus(&top, 1), vec![0]);
    assert_eq!(top.cpu_dom_id_map(), vec![1, 0, 0, 0]);
}

#[test]
fn cache_level_errors() {
    let r = Topology::from_cache_level(&vec![None, None]);
    assert_eq!(r.err(), Some(SetupError::Topology(TopologyError::NoDomains)));
    let many: Vec<Option<usize>> = (0..65).map(|i| Some(i * 3)).collect();
    let r = Topology::from_cache_level(&many);
    assert_eq!(r.err(), Some(SetupError::Topology(TopologyError::TooManyDoms { nr_doms: 65 })));
    let r = Topology::from_cache_level(&vec![Some(0); 513]);
    assert_eq!(r.err(), Some(SetupError::Config(ConfigError::TooManyCpus { nr_cpus: 513 })));
    assert_eq!(Topology::from_cache_level(&vec![]).unwrap().nr_doms(), 0);
}

#[test]
fn too_many_doms_comes_before_too_many_cpus() {
    let list: Vec<String> = (0..65).map(|_| "0x0".to_string()).collect();
    let r = Topology::from_cpumasks(&list, 513);
    assert_eq!(r.err(), Some(SetupError::Topology(TopologyError::TooManyDoms { nr_doms: 65 })));
    let r = Topology::from_cpumasks(&list[..64], 513);
    assert_eq!(r.err(), Some(SetupError::Config(ConfigError::TooManyCpus { nr_cpus: 513 })));
    let many: Vec<Option<usize>> = (0..600).map(|i| Some(i % 65)).collect();
    let r = Topology::from_cache_level(&many);
    assert_eq!(r.err(), Some(SetupError::Topology(TopologyError::TooManyDoms { nr_doms: 65 })));
    let many: Vec<Option<usize>> = (0..600).map(|i| Some(i % 64)).collect();
    let r = Topology::from_cache_level(&many);
    assert_eq!(r.err(), Some(SetupError::Config(ConfigError::TooManyCpus { nr_cpus: 600 })));
}
