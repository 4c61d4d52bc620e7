use badgeros::kcore::sched::{busiest_cpu, RoundRobinAlgorithm, Sleep, BLOCKED, STOPPED};
use badgeros::errno::Errno;
use badgeros::kcore::smp::{
    init_acpi, init_cpus, init_dtb, madt_cpu_ids, power_state_from, poweron_all_aps, ApsStep,
    MadtEntry, PowerAction, PowerState, SmpMaps,
};

#[test]
fn power_states() {
    assert_eq!(power_state_from(0), PowerState::PreHandover);
    assert_eq!(power_state_from(1), PowerState::Online);
    assert_eq!(power_state_from(2), PowerState::Suspended);
    assert_eq!(power_state_from(3), PowerState::PowerOff);
}

#[test]
fn boot_cpu_gets_index_zero() {
    let maps = init_cpus(&vec![7, 3, 9], 3);
    assert_eq!(maps.by_phys_id(3), Some(0));
    assert_eq!(maps.by_phys_id(7), Some(1));
    assert_eq!(maps.by_phys_id(9), Some(2));
    assert_eq!(maps.by_phys_id(4), None);
    assert_eq!(maps.cpu_index_end(), 3);
    assert_eq!(maps.by_index.get(&0).unwrap().power, PowerState::Online);
    assert_eq!(maps.by_index.get(&1).unwrap().power, PowerState::PreHandover);
    assert_eq!(maps.by_index.get(&2).unwrap().cpuid, 9);
}

#[test]
fn add_cpu_counts_application_processors() {
    let mut maps = SmpMaps::new();
    assert_eq!(maps.add_cpu(5, 5, 1), 1);
    assert_eq!(maps.add_cpu(6, 5, 1), 2);
    assert_eq!(maps.by_phys_id(6), Some(1));
    assert_eq!(maps.cpu_index_end(), 1);
}

#[test]
fn madt_lists_usable_cpus() {
    let madt = vec![
        MadtEntry::Lapic { id: 0, flags: 1 },
        MadtEntry::Other,
        MadtEntry::Lapic { id: 1, flags: 0 },
        MadtEntry::LocalX2apic { id: 2, flags: 2 },
    ];
    assert_eq!(madt_cpu_ids(&madt), vec![0, 2]);
    let maps = init_acpi(&madt, 2);
    assert_eq!(maps.by_phys_id(2), Some(0));
    assert_eq!(maps.by_phys_id(0), Some(1));
    assert_eq!(maps.by_phys_id(1), None);
    assert_eq!(maps.cpu_index_end(), 2);
}

#[test]
fn dtb_skips_nodes_without_reg() {
    let maps = init_dtb(&vec![Some(0), None, Some(1)], 0);
    assert_eq!(maps.by_phys_id(0), Some(0));
    assert_eq!(maps.by_phys_id(1), Some(1));
    assert_eq!(maps.cpu_index_end(), 2);
}

#[test]
fn irqctl_online_and_poweron() {
    let mut maps = init_cpus(&vec![0, 1], 0);
    assert_eq!(maps.register_ext_irqctl(1, 0xc000), Ok(()));
    assert_eq!(maps.by_index.get(&1).unwrap().ext_irqctls, vec![0xc000]);
    assert_eq!(maps.register_ext_irqctl(5, 0xc000), Err(Errno::ENOENT));
    assert_eq!(maps.poweron(1), Ok(PowerAction::Bootstrap(1)));
    assert_eq!(maps.poweron(0), Ok(PowerAction::Nothing));
    assert_eq!(maps.poweron(4), Err(Errno::ENOENT));
    maps.report_online(1);
    assert_eq!(maps.by_index.get(&1).unwrap().power, PowerState::Online);
    assert_eq!(maps.poweron(1), Ok(PowerAction::Nothing));
}

#[test]
fn aps_walk() {
    assert!(matches!(poweron_all_aps(3, None), ApsStep::PowerOn(1)));
    assert!(matches!(poweron_all_aps(1, None), ApsStep::Done(Ok(()))));
    assert!(matches!(poweron_all_aps(3, Some((1, Ok(())))), ApsStep::PowerOn(2)));
    assert!(matches!(poweron_all_aps(3, Some((2, Ok(())))), ApsStep::Done(Ok(()))));
    assert!(matches!(
        poweron_all_aps(3, Some((1, Err(Errno::ENOENT)))),
        ApsStep::PowerOn(2)
    ));
    assert!(matches!(
        poweron_all_aps(3, Some((1, Err(Errno::ETIMEDOUT)))),
        ApsStep::Done(Err(Errno::ETIMEDOUT))
    ));
}

#[test]
fn sleep_lasts_until_deadline() {
    let s = Sleep::new(1_000, 250);
    assert!(!s.is_over(1_000));
    assert!(!s.is_over(1_249));
    assert!(s.is_over(1_250));
    assert!(s.is_over(5_000));
}

#[test]
fn zero_sleep_is_over_at_once() {
    let s = Sleep::new(42, 0);
    assert!(s.is_over(42));
}

#[test]
fn round_robin_picks_first_runnable() {
    let mut rr: RoundRobinAlgorithm<u32> = RoundRobinAlgorithm::new();
    rr.add_thread(1);
    rr.add_thread(2);
    rr.add_thread(3);
    rr.add_thread(4);
    let (chosen, zombies) = rr.choose_thread(&vec![BLOCKED, STOPPED, 0, 0]);
    assert_eq!(chosen, Some(3));
    assert_eq!(zombies, vec![2]);
    assert_eq!(rr.queue, vec![4, 1]);
    rr.return_thread(3);
    assert_eq!(rr.queue, vec![4, 1, 3]);
}

#[test]
fn round_robin_all_blocked() {
    let mut rr: RoundRobinAlgorithm<u32> = RoundRobinAlgorithm::new();
    rr.add_thread(1);
    rr.add_thread(2);
    rr.add_thread_front(0);
    assert_eq!(rr.len(), 3);
    let (chosen, zombies) = rr.choose_thread(&vec![BLOCKED, STOPPED | BLOCKED, BLOCKED]);
    assert_eq!(chosen, None);
    assert_eq!(zombies, vec![1]);
    assert_eq!(rr.queue, vec![0, 2]);
}

#[test]
fn busiest_cpu_skips_self_and_absent() {
    assert_eq!(busiest_cpu(&vec![Some(9), Some(3), None, Some(5)], 0), Some(3));
    assert_eq!(busiest_cpu(&vec![Some(4), Some(4), Some(2)], 2), Some(0));
    assert_eq!(busiest_cpu(&vec![Some(1), None], 0), None);
    assert_eq!(busiest_cpu(&vec![], 0), None);
}

#[test]
fn sleep_deadline_saturates() {
    let s = Sleep::sleep_deadline(i64::MAX - 5, 100);
    assert!(s.is_over(i64::MAX));
    assert!(!s.is_over(i64::MAX - 1));
    let t = Sleep::sleep_deadline(1000, 50);
    assert!(!t.is_over(1049));
    assert!(t.is_over(1050));
}
