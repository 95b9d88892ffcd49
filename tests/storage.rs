use rookiedb::error::DBError;
use rookiedb::partition::RecoveryManager;
use rookiedb::storage::{
    get_page_num, get_part_num, get_virtual_page_num, DiskSpaceManager, PAGES_PER_PART,
};

#[derive(Clone, Default, Debug)]
struct NoLog;

impl RecoveryManager for NoLog {
    fn log_alloc_page(&mut self, _vpn: u64) {}

    fn log_free_page(&mut self, _vpn: u64) {}

    fn disk_io_hook(&mut self, _vpn: u64) {}
}

#[test]
fn virtual_page_numbers_split_and_join() {
    assert_eq!(PAGES_PER_PART, 10_000_000_000);
    assert_eq!(get_virtual_page_num(3, 17), 30_000_000_017);
    assert_eq!(get_part_num(30_000_000_017), 3);
    assert_eq!(get_page_num(30_000_000_017), 17);
    assert_eq!(get_virtual_page_num(0, 0), 0);
    let vpn = u64::MAX;
    assert_eq!(get_part_num(vpn), 1_844_674_407);
    assert_eq!(get_page_num(vpn), 3_709_551_615);
    assert_eq!(get_virtual_page_num(1_844_674_407, 3_709_551_615), u64::MAX);
}

#[test]
fn partitions_are_numbered_in_order() {
    let mut dsm = DiskSpaceManager::new(NoLog);
    assert_eq!(dsm.alloc_part(), Ok(0));
    assert_eq!(dsm.alloc_part(), Ok(1));
    assert_eq!(dsm.alloc_part_specific(5), Ok(5));
    assert_eq!(dsm.alloc_part(), Ok(6));
    assert_eq!(dsm.alloc_part_specific(1), Err(DBError::PartitionExists { part_num: 1 }));
    assert_eq!(dsm.alloc_part_specific(3), Ok(3));
    assert_eq!(dsm.alloc_part(), Ok(7));
    assert!(dsm.has_part(3));
    assert!(!dsm.has_part(4));
    assert_eq!(dsm.alloc_part_specific(2_000_000_000), Err(DBError::IllegalArgument));
    assert_eq!(dsm.alloc_part_specific(1_844_674_407), Ok(1_844_674_407));
    assert_eq!(dsm.alloc_page_from_part(1_844_674_407), Ok(18_446_744_070_000_000_000));
}

#[test]
fn pages_are_routed_by_virtual_page_number() {
    let mut dsm = DiskSpaceManager::new(NoLog);
    assert_eq!(dsm.alloc_part(), Ok(0));
    assert_eq!(dsm.alloc_part(), Ok(1));
    assert_eq!(dsm.alloc_page_from_part(1), Ok(10_000_000_000));
    assert_eq!(dsm.alloc_page_from_part(1), Ok(10_000_000_001));
    assert_eq!(dsm.page_allocated(10_000_000_000), Ok(true));
    assert_eq!(dsm.page_allocated(0), Ok(false));
    assert_eq!(dsm.alloc_page(10_000_000_005), Ok(10_000_000_005));
    assert_eq!(
        dsm.alloc_page(10_000_000_005),
        Err(DBError::AlreadyAllocated { part_num: 1, header_index: 0, page_index: 5 })
    );
    assert_eq!(dsm.free_page(10_000_000_000), Ok(()));
    assert_eq!(dsm.page_allocated(10_000_000_000), Ok(false));
    assert_eq!(
        dsm.free_page(10_000_000_000),
        Err(DBError::NotAllocated { part_num: 1, page_num: 0 })
    );
    assert_eq!(dsm.alloc_page_from_part(1), Ok(10_000_000_000));
    assert_eq!(dsm.page_io(10_000_000_005), Ok((1, 7 * 4096)));
    assert_eq!(
        dsm.page_io(10_000_000_006),
        Err(DBError::NotAllocated { part_num: 1, page_num: 6 })
    );
    assert_eq!(dsm.alloc_page(67_108_864), Err(DBError::IllegalArgument));
    assert_eq!(dsm.page_allocated(67_108_864), Ok(false));
}

#[test]
fn unknown_partitions_are_reported() {
    let mut dsm = DiskSpaceManager::new(NoLog);
    assert_eq!(dsm.alloc_page_from_part(9), Err(DBError::NoSuchPartition { part_num: 9 }));
    assert_eq!(dsm.alloc_page(90_000_000_000), Err(DBError::NoSuchPartition { part_num: 9 }));
    assert_eq!(dsm.free_page(90_000_000_000), Err(DBError::NoSuchPartition { part_num: 9 }));
    assert_eq!(dsm.page_io(90_000_000_000), Err(DBError::NoSuchPartition { part_num: 9 }));
    assert_eq!(dsm.page_allocated(90_000_000_000), Ok(false));
    assert_eq!(dsm.free_part(9), Err(DBError::NoSuchPartition { part_num: 9 }));
    assert_eq!(
        dsm.open_part(9, vec![]),
        Err(DBError::NoSuchPartition { part_num: 9 })
    );
}

#[test]
fn freed_partition_is_gone() {
    let mut dsm = DiskSpaceManager::new(NoLog);
    assert_eq!(dsm.alloc_part(), Ok(0));
    assert_eq!(dsm.alloc_page_from_part(0), Ok(0));
    assert_eq!(dsm.free_part(0), Ok(()));
    assert!(!dsm.has_part(0));
    assert_eq!(dsm.free_part(0), Err(DBError::NoSuchPartition { part_num: 0 }));
    assert_eq!(dsm.alloc_part(), Ok(1));
}

#[test]
fn open_part_loads_metadata() {
    let mut dsm = DiskSpaceManager::new(NoLog);
    assert_eq!(dsm.alloc_part(), Ok(0));
    let mut header = vec![0u8; 4096];
    header[0] = 0b0010_0000;
    assert_eq!(dsm.open_part(0, vec![header]), Ok(()));
    assert_eq!(dsm.page_allocated(2), Ok(true));
    assert_eq!(dsm.alloc_page_from_part(0), Ok(0));
    assert_eq!(dsm.alloc_page_from_part(0), Ok(1));
    assert_eq!(dsm.alloc_page_from_part(0), Ok(3));
}

#[test]
fn closed_manager_refuses_everything() {
    let mut dsm = DiskSpaceManager::new(NoLog);
    assert_eq!(dsm.alloc_part(), Ok(0));
    dsm.close();
    assert_eq!(dsm.alloc_part(), Err(DBError::Closed));
    assert_eq!(dsm.alloc_part_specific(3), Err(DBError::Closed));
    assert_eq!(dsm.alloc_page_from_part(0), Err(DBError::Closed));
    assert_eq!(dsm.alloc_page(0), Err(DBError::Closed));
    assert_eq!(dsm.free_page(0), Err(DBError::Closed));
    assert_eq!(dsm.page_allocated(0), Err(DBError::Closed));
    assert_eq!(dsm.page_io(0), Err(DBError::Closed));
    assert_eq!(dsm.free_part(0), Err(DBError::Closed));
}

#[test]
fn open_partitions_can_be_inspected() {
    let mut dsm = DiskSpaceManager::new(NoLog);
    assert!(dsm.part(0).is_none());
    assert_eq!(dsm.alloc_part_specific(2), Ok(2));
    assert_eq!(dsm.alloc_page(20_000_000_003), Ok(20_000_000_003));
    let part = dsm.part(2).unwrap();
    assert_eq!(part.part_num(), 2);
    assert_eq!(part.is_not_allocated_page(3), Ok(false));
    assert_eq!(part.metadata_writes(3).len(), 2);
}
