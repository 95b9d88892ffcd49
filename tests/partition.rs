use rookiedb::constant::{DATA_PAGES_PER_HEADER, MAX_HEADER_PAGE, PAGE_SIZE};
use rookiedb::error::DBError;
use rookiedb::partition::{PartitionHandle, RecoveryManager};

#[derive(Clone, Default, Debug)]
struct Recorder {
    allocs: Vec<u64>,
    frees: Vec<u64>,
    ios: Vec<u64>,
}

impl RecoveryManager for Recorder {
    fn log_alloc_page(&mut self, vpn: u64) {
        self.allocs.push(vpn);
    }

    fn log_free_page(&mut self, vpn: u64) {
        self.frees.push(vpn);
    }

    fn disk_io_hook(&mut self, vpn: u64) {
        self.ios.push(vpn);
    }
}

fn toy(part_num: usize, pages_per_header: usize) -> PartitionHandle<Recorder> {
    PartitionHandle::with_pages_per_header(part_num, pages_per_header, Recorder::default())
}

const PS: u64 = PAGE_SIZE as u64;

#[test]
fn fresh_partition_allocates_page_zero_and_reuses_it() {
    let mut p = PartitionHandle::new(0, Recorder::default());
    assert_eq!(p.pages_per_header(), DATA_PAGES_PER_HEADER);
    assert_eq!(p.alloc_page(), Ok(0));
    assert_eq!(p.free_page(0), Ok(()));
    assert_eq!(p.alloc_page(), Ok(0));
    assert_eq!(p.alloc_page(), Ok(1));
    assert_eq!(p.recovery_manager().allocs, vec![0, 0, 1]);
    assert_eq!(p.recovery_manager().frees, vec![0]);
}

#[test]
fn full_header_moves_allocation_to_next_header() {
    let mut p = toy(0, 4);
    for n in 0..4 {
        assert_eq!(p.alloc_page(), Ok(n));
    }
    assert_eq!(p.header_page_bytes(1), None);
    assert_eq!(p.alloc_page(), Ok(4));
    assert!(p.header_page_bytes(1).is_some());
    let master = p.master_page_bytes();
    assert_eq!(&master[0..4], &[0, 4, 0, 1]);
}

#[test]
fn first_fit_takes_lowest_free_page() {
    let mut p = toy(2, 4);
    for n in 0..9 {
        assert_eq!(p.alloc_page(), Ok(n));
    }
    assert_eq!(p.free_page(6), Ok(()));
    assert_eq!(p.free_page(1), Ok(()));
    assert_eq!(p.alloc_page(), Ok(1));
    assert_eq!(p.alloc_page(), Ok(6));
    assert_eq!(p.alloc_page(), Ok(9));
}

#[test]
fn alloc_specific_then_allocated_then_already_allocated() {
    let mut p = toy(3, 4);
    assert_eq!(p.is_not_allocated_page(6), Ok(true));
    assert_eq!(p.alloc_page_specific(1, 2), Ok(6));
    assert_eq!(p.is_not_allocated_page(6), Ok(false));
    assert_eq!(
        p.alloc_page_specific(1, 2),
        Err(DBError::AlreadyAllocated { part_num: 3, header_index: 1, page_index: 2 })
    );
    assert_eq!(p.recovery_manager().allocs, vec![30_000_000_006]);
}

#[test]
fn alloc_specific_rejects_out_of_range_slots() {
    let mut p = toy(0, 4);
    assert_eq!(p.alloc_page_specific(0, 4), Err(DBError::IllegalArgument));
    assert_eq!(p.alloc_page_specific(MAX_HEADER_PAGE, 0), Err(DBError::IllegalArgument));
    assert_eq!(p.is_not_allocated_page(0), Ok(true));
}

#[test]
fn free_then_free_again_fails() {
    let mut p = toy(1, 4);
    assert_eq!(p.alloc_page_specific(1, 2), Ok(6));
    assert_eq!(p.free_page(6), Ok(()));
    assert_eq!(p.is_not_allocated_page(6), Ok(true));
    assert_eq!(p.free_page(6), Err(DBError::NotAllocated { part_num: 1, page_num: 6 }));
    assert_eq!(p.free_page(100), Err(DBError::NotAllocated { part_num: 1, page_num: 100 }));
    assert_eq!(
        p.free_page(usize::MAX),
        Err(DBError::NotAllocated { part_num: 1, page_num: usize::MAX })
    );
    assert_eq!(p.recovery_manager().frees, vec![10_000_000_006]);
}

#[test]
fn page_io_needs_an_allocated_page() {
    let mut p = toy(0, 4);
    assert_eq!(p.page_io(7), Err(DBError::NotAllocated { part_num: 0, page_num: 7 }));
    assert_eq!(p.alloc_page_specific(1, 3), Ok(7));
    assert_eq!(p.page_io(7), Ok(10 * PS));
    assert_eq!(p.recovery_manager().ios, vec![7]);
}

#[test]
fn layout_offsets_with_four_pages_per_header() {
    let p = toy(0, 4);
    assert_eq!(PartitionHandle::<Recorder>::master_page_offset(), 0);
    assert_eq!(p.header_page_offset(0), PS);
    assert_eq!(p.header_page_offset(1), 6 * PS);
    assert_eq!(p.header_page_offset(2), 11 * PS);
    assert_eq!(p.data_page_offset(0), 2 * PS);
    assert_eq!(p.data_page_offset(3), 5 * PS);
    assert_eq!(p.data_page_offset(4), 7 * PS);
    assert_eq!(p.data_page_offset(8), 12 * PS);
}

#[test]
fn layout_offsets_at_full_size() {
    let p = PartitionHandle::new(0, Recorder::default());
    assert_eq!(p.header_page_offset(1), (1 + 32769) * PS);
    assert_eq!(p.data_page_offset(32767), (2 + 32767) * PS);
    assert_eq!(p.data_page_offset(32768), (2 + 1 + 32768) * PS);
    assert_eq!(p.capacity(), MAX_HEADER_PAGE * DATA_PAGES_PER_HEADER);
}

#[test]
fn layout_offsets_never_overlap() {
    for pph in 1..=7usize {
        let p = toy(0, pph);
        let mut offsets = vec![PartitionHandle::<Recorder>::master_page_offset()];
        for h in 0..4 {
            offsets.push(p.header_page_offset(h));
        }
        for n in 0..4 * pph {
            offsets.push(p.data_page_offset(n));
        }
        let mut sorted = offsets.clone();
        sorted.sort();
        sorted.dedup();
        assert_eq!(sorted.len(), offsets.len());
        assert!(sorted.iter().all(|o| o % PS == 0));
        assert_eq!(*sorted.last().unwrap() + PS, p.header_page_offset(4));
        for w in sorted.windows(2) {
            assert_eq!(w[1] - w[0], PS);
        }
    }
}

#[test]
fn partition_reports_full_capacity() {
    let mut p = toy(4, 1);
    for n in 0..MAX_HEADER_PAGE {
        assert_eq!(p.alloc_page(), Ok(n));
    }
    assert_eq!(p.alloc_page(), Err(DBError::CapacityExceeded { part_num: 4 }));
    assert_eq!(p.free_page(100), Ok(()));
    assert_eq!(p.alloc_page(), Ok(100));
}

#[test]
fn free_data_pages_frees_everything() {
    let mut p = toy(0, 4);
    for n in [0usize, 3, 5, 9, 14] {
        let _ = p.alloc_page_specific(n / 4, n % 4);
    }
    assert_eq!(p.free_data_pages(), Ok(()));
    for n in 0..20 {
        assert_eq!(p.is_not_allocated_page(n), Ok(true));
    }
    assert_eq!(p.recovery_manager().frees, vec![0, 3, 5, 9, 14]);
    assert_eq!(p.alloc_page(), Ok(0));
}

#[test]
fn metadata_bytes_round_trip_through_open() {
    let mut p = toy(0, 4);
    for n in [0usize, 1, 2, 5] {
        let _ = p.alloc_page_specific(n / 4, n % 4);
    }
    let master = p.master_page_bytes();
    assert_eq!(master.len(), PAGE_SIZE);
    assert_eq!(&master[0..6], &[0, 3, 0, 1, 0, 0]);
    let header0 = p.header_page_bytes(0).unwrap();
    assert_eq!(header0.len(), PAGE_SIZE);
    assert_eq!(header0[0], 0b1110_0000);
    let file_len = p.header_page_offset(1) + 5 * PS;
    let stored = p.stored_headers(file_len);
    assert_eq!(stored, 2);
    let headers: Vec<Vec<u8>> = (0..stored).map(|h| p.header_page_bytes(h).unwrap()).collect();

    let mut q = toy(0, 4);
    assert_eq!(q.open(headers), Ok(()));
    for n in 0..12 {
        assert_eq!(q.is_not_allocated_page(n), p.is_not_allocated_page(n));
    }
    assert_eq!(q.stale_counters(&master), Vec::<usize>::new());
    assert_eq!(q.master_page_bytes(), master);
    assert_eq!(q.alloc_page(), Ok(3));
}

#[test]
fn open_recounts_stale_counters() {
    let mut p = toy(6, 4);
    let _ = p.alloc_page_specific(0, 1);
    let _ = p.alloc_page_specific(1, 0);
    let header0 = p.header_page_bytes(0).unwrap();
    let header1 = p.header_page_bytes(1).unwrap();
    // a crash after the master page was written but before a header page was
    let mut master = p.master_page_bytes();
    master[1] = 2;
    master[3] = 0;

    let mut q = toy(6, 4);
    assert_eq!(q.open(vec![header0.clone(), header1.clone()]), Ok(()));
    assert_eq!(q.is_not_allocated_page(1), Ok(false));
    assert_eq!(q.is_not_allocated_page(4), Ok(false));
    assert_eq!(q.stale_counters(&master), vec![0, 1]);
    assert_eq!(&q.master_page_bytes()[0..4], &[0, 1, 0, 1]);
    assert_eq!(q.alloc_page(), Ok(0));
}

#[test]
fn open_rejects_malformed_pages() {
    let mut q = toy(6, 4);
    let mut stray = vec![0u8; PAGE_SIZE];
    stray[0] = 0b0100_1000;
    assert_eq!(q.open(vec![stray]), Err(DBError::CorruptedMetadata { part_num: 6 }));
    assert_eq!(q.open(vec![vec![0u8; 10]]), Err(DBError::IllegalArgument));
    assert_eq!(q.open(vec![vec![0u8; PAGE_SIZE]; MAX_HEADER_PAGE + 1]), Err(DBError::IllegalArgument));
    assert_eq!(q.is_not_allocated_page(1), Ok(true));
    let full = PartitionHandle::new(0, Recorder::default());
    let mut bits = vec![0u8; PAGE_SIZE];
    bits[PAGE_SIZE - 1] = 1;
    let mut r = full;
    assert_eq!(r.open(vec![bits]), Ok(()));
    assert_eq!(r.is_not_allocated_page(DATA_PAGES_PER_HEADER - 1), Ok(false));
}

#[test]
fn stored_headers_follow_file_length() {
    let p = toy(0, 4);
    assert_eq!(p.stored_headers(0), 0);
    assert_eq!(p.stored_headers(PS), 0);
    assert_eq!(p.stored_headers(PS + 1), 1);
    assert_eq!(p.stored_headers(6 * PS + 1), 2);
    assert_eq!(p.stored_headers(u64::MAX), MAX_HEADER_PAGE);
}

#[test]
fn metadata_writes_cover_master_and_header() {
    let mut p = toy(0, 4);
    let fresh = p.metadata_writes(0);
    assert_eq!(fresh.len(), 1);
    assert_eq!(fresh[0].0, 0);
    assert!(fresh[0].1.iter().all(|b| *b == 0));
    assert_eq!(p.alloc_page_specific(1, 1), Ok(5));
    let writes = p.metadata_writes(5);
    assert_eq!(writes.len(), 2);
    assert_eq!(writes[0].0, 0);
    assert_eq!(&writes[0].1[0..4], &[0, 0, 0, 1]);
    assert_eq!(writes[1].0, 6 * PS);
    assert_eq!(writes[1].1[0], 0b0100_0000);
    assert_eq!(p.metadata_writes(0).len(), 1);
}
