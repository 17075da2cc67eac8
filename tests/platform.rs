use std::sync::Arc;

use qdrant_grouping::cpu::{num_cpus_from, CpuPermit};
use qdrant_grouping::madvise::{default_advice, madvise, Advice, Madviseable};

#[test]
fn configured_cpu_count_wins_when_positive() {
    assert_eq!(num_cpus_from(Some("4"), 16), 4);
    assert_eq!(num_cpus_from(Some("+3"), 16), 3);
    assert_eq!(num_cpus_from(Some("0"), 16), 16);
    assert_eq!(num_cpus_from(Some("-2"), 16), 16);
    assert_eq!(num_cpus_from(Some(" 4"), 16), 16);
    assert_eq!(num_cpus_from(Some("four"), 16), 16);
    assert_eq!(num_cpus_from(Some(""), 16), 16);
    assert_eq!(num_cpus_from(Some("99999999999999999999999"), 16), 16);
    assert_eq!(num_cpus_from(None, 16), 16);
}

#[test]
fn get_num_cpus_takes_the_setting() {
    assert_eq!(qdrant_grouping::cpu::get_num_cpus(Some("7")), 7);
    assert!(qdrant_grouping::cpu::get_num_cpus(None) >= 1);
}

#[test]
fn cpu_permit_release_gives_back_the_semaphore() {
    let semaphore = Arc::new(tokio::sync::Semaphore::new(2));
    let permit = semaphore.clone().try_acquire_owned().unwrap();
    assert_eq!(semaphore.available_permits(), 1);
    let mut cpu = CpuPermit::new(2, permit);
    assert!(cpu.is_held());
    assert_eq!(cpu.count(), 2);
    cpu.release();
    assert!(!cpu.is_held());
    assert_eq!(cpu.num_cpus, 2);
    assert_eq!(semaphore.available_permits(), 2);
}

#[test]
fn dummy_permit_holds_nothing() {
    let cpu = CpuPermit::dummy(3);
    assert!(!cpu.is_held());
    assert_eq!(cpu.count(), 3);
}

#[test]
fn advise_anonymous_map() {
    let map = memmap2::MmapOptions::new().len(4096).map_anon().unwrap();
    for advice in [Advice::Normal, Advice::Random, Advice::Sequential] {
        assert!(madvise(&map, advice).is_ok());
    }
    let map = map.make_read_only().unwrap();
    assert!(map.madvise(default_advice()).is_ok());
    assert_eq!(default_advice(), Advice::Random);
}
