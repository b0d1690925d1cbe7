use mdi::affinity::{CpuAffinity, ThreadBuilder};

#[test]
fn test_num_cpus() {
    let cpus = CpuAffinity::num_cpus();
    assert!(cpus > 0);
}

#[test]
fn test_affinity_config() {
    let config = CpuAffinity::get_thread_affinity_config(4);
    assert_eq!(config.len(), 4);
}

#[test]
fn physical_cpus_do_not_exceed_logical() {
    assert!(CpuAffinity::num_physical_cpus() > 0);
}

#[test]
fn layout_gives_each_thread_a_core_when_cores_suffice() {
    assert_eq!(CpuAffinity::layout_for(3, 8), vec![0, 1, 2]);
}

#[test]
fn layout_wraps_round_robin_when_threads_exceed_cores() {
    assert_eq!(CpuAffinity::layout_for(5, 2), vec![0, 1, 0, 1, 0]);
}

#[test]
fn thread_builder_accumulates_the_plan() {
    let plan = ThreadBuilder::new().cpu(0).name("test-thread".to_string());
    assert_eq!(plan.cpu_id, Some(0));
    assert_eq!(plan.name, Some("test-thread".to_string()));

    let bare = ThreadBuilder::new();
    assert!(bare.cpu_id.is_none());
    assert!(bare.name.is_none());
}
