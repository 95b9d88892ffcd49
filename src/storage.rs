//! The disk space manager: a table of partitions behind one global page
//! address space.
use vstd::prelude::*;

use std::collections::HashMap;

use crate::constant::DATA_PAGES_PER_HEADER;
use crate::error::DBError;
use crate::partition::{
    clean_tail, data_offset, loaded_view, pages_view, Notice, PartitionHandle, PartitionView,
    RecoveryManager,
};

verus! {

broadcast use vstd::std_specs::hash::group_hash_axioms;

/// Virtual page numbers are `part_num * PAGES_PER_PART + page_num`: the
/// factor exceeds every local page number a partition can hold.
pub const PAGES_PER_PART: u64 = 10_000_000_000;

/// Partition numbers stay below this bound, so that the virtual page number
/// of every page a partition can hold fits in 64 bits.
pub const MAX_PART_NUM: usize = 1_844_674_408;

/// The partition that virtual page number `vpn` lies in.
pub open spec fn part_of(vpn: int) -> int {
    vpn / PAGES_PER_PART as int
}

/// The local page number of virtual page number `vpn`.
pub open spec fn page_of(vpn: int) -> int {
    vpn % PAGES_PER_PART as int
}

/// The virtual page number of local page `page_num` of partition `part_num`.
pub open spec fn vpn_of(part_num: int, page_num: int) -> int {
    part_num * PAGES_PER_PART as int + page_num
}

/// Gets the partition number from a virtual page number.
pub fn get_part_num(vpn: u64) -> (r: usize)
    ensures
        r == part_of(vpn as int),
        r < MAX_PART_NUM,
{
    (vpn / PAGES_PER_PART) as usize
}

/// Gets the local page number from a virtual page number. The result is a
/// `u64`: a `usize` of 32 bits cannot hold every remainder.
pub fn get_page_num(vpn: u64) -> (r: u64)
    ensures
        r == page_of(vpn as int),
        r < PAGES_PER_PART,
{
    vpn % PAGES_PER_PART
}

/// Gets the virtual page number of a local page of a partition.
pub fn get_virtual_page_num(part_num: usize, page_num: usize) -> (r: u64)
    requires
        page_num < PAGES_PER_PART,
        vpn_of(part_num as int, page_num as int) <= u64::MAX,
    ensures
        r == vpn_of(part_num as int, page_num as int),
{
    proof {
        assert(part_num * PAGES_PER_PART <= u64::MAX) by (nonlinear_arith)
            requires
                part_num * PAGES_PER_PART + page_num <= u64::MAX,
                page_num >= 0,
        ;
    }
    part_num as u64 * PAGES_PER_PART + page_num as u64
}

/// Every page a partition can hold has a virtual page number that fits in
/// 64 bits.
pub proof fn lemma_vpn_fits(part_num: int, page_num: int)
    requires
        0 <= part_num < MAX_PART_NUM,
        0 <= page_num < 67108864,
    ensures
        vpn_of(part_num, page_num) <= u64::MAX,
{
    assert(part_num * PAGES_PER_PART + page_num <= u64::MAX) by (nonlinear_arith)
        requires
            0 <= part_num < MAX_PART_NUM,
            0 <= page_num < 67108864,
    ;
}

/// Splitting a virtual page number and joining the parts gives it back, and
/// joining a partition and a local page number and splitting the result
/// gives them back: the mapping is a bijection over the valid ranges.
pub proof fn lemma_vpn_round_trip(vpn: u64, part_num: int, page_num: int)
    requires
        0 <= part_num,
        0 <= page_num < PAGES_PER_PART,
    ensures
        vpn_of(part_of(vpn as int), page_of(vpn as int)) == vpn,
        part_of(vpn as int) < MAX_PART_NUM,
        page_of(vpn as int) < PAGES_PER_PART,
        part_of(vpn_of(part_num, page_num)) == part_num,
        page_of(vpn_of(part_num, page_num)) == page_num,
{
    vstd::arithmetic::div_mod::lemma_fundamental_div_mod(vpn as int, PAGES_PER_PART as int);
    vstd::arithmetic::div_mod::lemma_fundamental_div_mod_converse(
        vpn_of(part_num, page_num),
        PAGES_PER_PART as int,
        part_num,
        page_num,
    );
}

/// The abstract state of a disk space manager.
pub struct DiskView {
    /// The metadata of each open partition, by partition number.
    pub parts: Map<usize, PartitionView>,
    /// No partition number at or above this one is in use.
    pub next_part_num: nat,
    pub closed: bool,
}

impl DiskView {
    pub open spec fn wf(self) -> bool {
        &&& self.next_part_num <= MAX_PART_NUM
        &&& forall|k: usize| #[trigger]
            self.parts.contains_key(k) ==> {
                &&& self.parts[k].wf()
                &&& self.parts[k].part_num == k
                &&& k < self.next_part_num
            }
    }

    /// `self` with the metadata of partition `part_num` replaced by `pv`.
    pub open spec fn with_part(self, part_num: usize, pv: PartitionView) -> DiskView {
        DiskView {
            parts: self.parts.insert(part_num, pv),
            next_part_num: self.next_part_num,
            closed: self.closed,
        }
    }

    /// Virtual page `vpn` lies in an open partition and is allocated there.
    pub open spec fn is_allocated(self, vpn: int) -> bool {
        &&& 0 <= part_of(vpn) <= usize::MAX
        &&& self.parts.contains_key(part_of(vpn) as usize)
        &&& self.parts[part_of(vpn) as usize].is_allocated(page_of(vpn))
    }
}

/// Owns the partitions and routes every page operation to the partition a
/// virtual page number names.
pub struct DiskSpaceManager<R> {
    partitions: HashMap<usize, PartitionHandle<R>>,
    next_part_num: usize,
    recovery_manager: R,
    closed: bool,
}

impl<R> View for DiskSpaceManager<R> {
    type V = DiskView;

    closed spec fn view(&self) -> DiskView {
        DiskView {
            parts: self.partitions@.map_values(|p: PartitionHandle<R>| p@),
            next_part_num: self.next_part_num as nat,
            closed: self.closed,
        }
    }
}

/// The view of a partition that was just created: nothing allocated, no
/// header page yet.
pub open spec fn fresh_partition(part_num: usize) -> PartitionView {
    PartitionView {
        part_num: part_num as nat,
        pages_per_header: DATA_PAGES_PER_HEADER as nat,
        counts: Seq::new(crate::constant::MAX_HEADER_PAGE as nat, |h: int| 0u16),
        headers: Seq::new(crate::constant::MAX_HEADER_PAGE as nat, |h: int| None::<Seq<u8>>),
        notices: Seq::empty(),
    }
}

impl<R: RecoveryManager + Clone> DiskSpaceManager<R> {
    /// Creates a manager with no partitions. Each partition it creates
    /// reports to a clone of `recovery_manager`.
    pub fn new(recovery_manager: R) -> (r: Self)
        ensures
            r@.wf(),
            r@.parts == Map::<usize, PartitionView>::empty(),
            r@.next_part_num == 0,
            !r@.closed,
    {
        let r = DiskSpaceManager {
            partitions: HashMap::new(),
            next_part_num: 0,
            recovery_manager,
            closed: false,
        };
        assert(r@.parts =~= Map::<usize, PartitionView>::empty());
        r
    }

    /// The metadata of partition `part_num`, if it is open.
    pub fn part(&self, part_num: usize) -> (r: Option<&PartitionHandle<R>>)
        requires
            self@.wf(),
        ensures
            match r {
                Some(p) => self@.parts.contains_key(part_num) && p@ == self@.parts[part_num]
                    && p@.wf(),
                None => !self@.parts.contains_key(part_num),
            },
    {
        let r = self.partitions.get(&part_num);
        proof {
            if r is Some {
                assert(self.partitions@.contains_key(part_num));
                assert(self@.parts.contains_key(part_num));
            }
        }
        r
    }

    /// Whether partition `part_num` is open.
    pub fn has_part(&self, part_num: usize) -> (r: bool)
        ensures
            r == self@.parts.contains_key(part_num),
    {
        self.partitions.contains_key(&part_num)
    }

    /// Creates a partition under the next unused partition number.
    pub fn alloc_part(&mut self) -> (r: Result<usize, DBError>)
        requires
            old(self)@.wf(),
        ensures
            final(self)@.wf(),
            final(self)@.closed == old(self)@.closed,
            old(self)@.closed ==> r == Err::<usize, DBError>(DBError::Closed) && final(self)@
                == old(self)@,
            !old(self)@.closed && old(self)@.next_part_num >= MAX_PART_NUM ==> r == Err::<
                usize,
                DBError,
            >(DBError::IllegalArgument) && final(self)@ == old(self)@,
            !old(self)@.closed && old(self)@.next_part_num < MAX_PART_NUM ==> {
                let n = old(self)@.next_part_num as usize;
                &&& r == Ok::<usize, DBError>(n)
                &&& final(self)@.parts == old(self)@.parts.insert(n, fresh_partition(n))
                &&& final(self)@.next_part_num == n + 1
            },
    {
        if self.closed {
            return Err(DBError::Closed);
        }
        if self.next_part_num >= MAX_PART_NUM {
            return Err(DBError::IllegalArgument);
        }
        proof {
            if self@.parts.contains_key(self.next_part_num) {
                assert(self@.parts[self.next_part_num].part_num == self.next_part_num);
            }
        }
        self.alloc_part_specific(self.next_part_num)
    }

    /// Takes partition `part_num` out of the table, or reports why it
    /// cannot be used.
    fn take_part(&mut self, part_num: usize) -> (r: Result<PartitionHandle<R>, DBError>)
        requires
            old(self)@.wf(),
        ensures
            old(self)@.closed ==> r == Err::<PartitionHandle<R>, DBError>(DBError::Closed)
                && final(self)@ == old(self)@,
            !old(self)@.closed && !old(self)@.parts.contains_key(part_num) ==> r == Err::<
                PartitionHandle<R>,
                DBError,
            >(DBError::NoSuchPartition { part_num }) && final(self)@ == old(self)@,
            !old(self)@.closed && old(self)@.parts.contains_key(part_num) ==> r is Ok && r->Ok_0@
                == old(self)@.parts[part_num] && final(self)@.parts == old(self)@.parts.remove(
                part_num,
            ) && final(self)@.next_part_num == old(self)@.next_part_num && final(self)@.closed
                == old(self)@.closed,
    {
        if self.closed {
            return Err(DBError::Closed);
        }
        match self.partitions.remove(&part_num) {
            Some(part) => {
                proof {
                    assert(self@.parts =~= old(self)@.parts.remove(part_num));
                }
                Ok(part)
            },
            None => {
                proof {
                    assert(self@.parts =~= old(self)@.parts);
                }
                Err(DBError::NoSuchPartition { part_num })
            },
        }
    }

    /// Puts partition `part_num` back into the table.
    fn put_part(&mut self, part_num: usize, part: PartitionHandle<R>)
        ensures
            final(self)@ == old(self)@.with_part(part_num, part@),
    {
        let ghost pv = part@;
        self.partitions.insert(part_num, part);
        proof {
            assert(self@.parts =~= old(self)@.parts.insert(part_num, pv));
        }
    }

    /// Loads the metadata of partition `part_num` from the bytes of its
    /// file's master page and header pages; see `PartitionHandle::open`.
    pub fn open_part(&mut self, part_num: usize, header_pages: Vec<Vec<u8>>) -> (r: Result<
        (),
        DBError,
    >)
        requires
            old(self)@.wf(),
        ensures
            final(self)@.wf(),
            old(self)@.closed ==> r == Err::<(), DBError>(DBError::Closed) && final(self)@ == old(self)@,
            !old(self)@.closed && !old(self)@.parts.contains_key(part_num) ==> r == Err::<
                (),
                DBError,
            >(DBError::NoSuchPartition { part_num }) && final(self)@ == old(self)@,
            !old(self)@.closed && old(self)@.parts.contains_key(part_num) ==> ({
                let pv = old(self)@.parts[part_num];
                let stored = pages_view(header_pages@);
                let malformed = stored.len() > crate::constant::MAX_HEADER_PAGE || exists|i: int|
                    0 <= i < stored.len() && #[trigger] stored[i].len()
                        != crate::constant::PAGE_SIZE;
                let stray = exists|i: int|
                    0 <= i < stored.len() && !clean_tail(#[trigger] stored[i], pv.pages_per_header);
                &&& malformed ==> r == Err::<(), DBError>(DBError::IllegalArgument) && final(self)@
                    == old(self)@
                &&& !malformed && stray ==> r == Err::<(), DBError>(
                    DBError::CorruptedMetadata { part_num },
                ) && final(self)@ == old(self)@
                &&& !malformed && !stray ==> r == Ok::<(), DBError>(()) && final(self)@ == old(
                    self,
                )@.with_part(part_num, loaded_view(pv, stored))
            }),
    {
        let mut part = match self.take_part(part_num) {
            Ok(part) => part,
            Err(e) => {
                return Err(e);
            },
        };
        let r = part.open(header_pages);
        let ghost pv = part@;
        self.put_part(part_num, part);
        proof {
            assert(old(self)@.parts.remove(part_num).insert(part_num, pv) =~= old(
                self,
            )@.parts.insert(part_num, pv));
            assert(old(self)@.parts.insert(part_num, old(self)@.parts[part_num]) =~= old(
                self,
            )@.parts);
        }
        r
    }

    /// Frees every page of partition `part_num` and removes it from the
    /// table.
    pub fn free_part(&mut self, part_num: usize) -> (r: Result<(), DBError>)
        requires
            old(self)@.wf(),
        ensures
            final(self)@.wf(),
            old(self)@.closed ==> r == Err::<(), DBError>(DBError::Closed) && final(self)@ == old(self)@,
            !old(self)@.closed && !old(self)@.parts.contains_key(part_num) ==> r == Err::<
                (),
                DBError,
            >(DBError::NoSuchPartition { part_num }) && final(self)@ == old(self)@,
            !old(self)@.closed && old(self)@.parts.contains_key(part_num) ==> r == Ok::<
                (),
                DBError,
            >(()) && final(self)@.parts == old(self)@.parts.remove(part_num) && final(self)@.next_part_num == old(self)@.next_part_num && !final(self)@.closed,
    {
        let mut part = match self.take_part(part_num) {
            Ok(part) => part,
            Err(e) => {
                return Err(e);
            },
        };
        let _ = part.free_data_pages();
        Ok(())
    }

    /// Putting back the metadata a partition had leaves the table as it was;
    /// putting back new metadata replaces the partition's alone.
    proof fn lemma_put_back(old_view: DiskView, part_num: usize, pv: PartitionView)
        requires
            old_view.parts.contains_key(part_num),
        ensures
            (DiskView {
                parts: old_view.parts.remove(part_num),
                next_part_num: old_view.next_part_num,
                closed: old_view.closed,
            }).with_part(part_num, pv) == old_view.with_part(part_num, pv),
            old_view.with_part(part_num, old_view.parts[part_num]) == old_view,
    {
        assert(old_view.parts.remove(part_num).insert(part_num, pv) =~= old_view.parts.insert(
            part_num,
            pv,
        ));
        assert(old_view.parts.insert(part_num, old_view.parts[part_num]) =~= old_view.parts);
    }

    /// Allocates the lowest free page of partition `part_num` and returns its
    /// virtual page number.
    pub fn alloc_page_from_part(&mut self, part_num: usize) -> (r: Result<u64, DBError>)
        requires
            old(self)@.wf(),
        ensures
            final(self)@.wf(),
            old(self)@.closed ==> r == Err::<u64, DBError>(DBError::Closed) && final(self)@ == old(self)@,
            !old(self)@.closed && !old(self)@.parts.contains_key(part_num) ==> r == Err::<
                u64,
                DBError,
            >(DBError::NoSuchPartition { part_num }) && final(self)@ == old(self)@,
            !old(self)@.closed && old(self)@.parts.contains_key(part_num) ==> ({
                let pv = old(self)@.parts[part_num];
                match r {
                    Ok(vpn) => {
                        let n = page_of(vpn as int);
                        &&& part_of(vpn as int) == part_num
                        &&& vpn == vpn_of(part_num as int, n)
                        &&& 0 <= n < pv.capacity()
                        &&& !pv.is_allocated(n)
                        &&& forall|m: int| 0 <= m < n ==> #[trigger] pv.is_allocated(m)
                        &&& final(self)@ == old(self)@.with_part(part_num, final(self)@.parts[part_num])
                        &&& final(self)@.parts[part_num].allocated() == pv.allocated().insert(n)
                        &&& final(self)@.parts[part_num] == pv.with_page_bit(
                            pv.header_of(n),
                            pv.index_of(n),
                            true,
                        ).noticed(Notice::Alloc(vpn))
                    },
                    Err(e) => {
                        &&& e == DBError::CapacityExceeded { part_num }
                        &&& final(self)@ == old(self)@
                        &&& forall|m: int| 0 <= m < pv.capacity() ==> #[trigger] pv.is_allocated(m)
                    },
                }
            }),
    {
        let mut part = match self.take_part(part_num) {
            Ok(part) => part,
            Err(e) => {
                return Err(e);
            },
        };
        let r = part.alloc_page();
        let ghost pv = part@;
        self.put_part(part_num, part);
        proof {
            Self::lemma_put_back(old(self)@, part_num, pv);
        }
        match r {
            Ok(n) => {
                proof {
                    crate::partition::lemma_capacity_bound(pv.pages_per_header as int);
                    lemma_vpn_round_trip(0, part_num as int, n as int);
                    lemma_vpn_fits(part_num as int, n as int);
                }
                Ok(get_virtual_page_num(part_num, n))
            },
            Err(e) => Err(e),
        }
    }

    /// Finds the partition and local page that virtual page `vpn` names, and
    /// takes the partition out of the table.
    fn take_page(&mut self, vpn: u64) -> (r: Result<(PartitionHandle<R>, usize), DBError>)
        requires
            old(self)@.wf(),
        ensures
            ({
                let part_num = part_of(vpn as int) as usize;
                &&& old(self)@.closed ==> r == Err::<(PartitionHandle<R>, usize), DBError>(
                    DBError::Closed,
                ) && final(self)@ == old(self)@
                &&& !old(self)@.closed && !old(self)@.parts.contains_key(part_num) ==> r == Err::<
                    (PartitionHandle<R>, usize),
                    DBError,
                >(DBError::NoSuchPartition { part_num }) && final(self)@ == old(self)@
                &&& !old(self)@.closed && old(self)@.parts.contains_key(part_num) && page_of(
                    vpn as int,
                ) >= old(self)@.parts[part_num].capacity() ==> r == Err::<
                    (PartitionHandle<R>, usize),
                    DBError,
                >(DBError::IllegalArgument) && final(self)@ == old(self)@
                &&& !old(self)@.closed && old(self)@.parts.contains_key(part_num) && page_of(
                    vpn as int,
                ) < old(self)@.parts[part_num].capacity() ==> {
                    &&& r is Ok
                    &&& r->Ok_0.0@ == old(self)@.parts[part_num]
                    &&& r->Ok_0.1 == page_of(vpn as int)
                    &&& final(self)@.parts == old(self)@.parts.remove(part_num)
                    &&& final(self)@.next_part_num == old(self)@.next_part_num
                    &&& final(self)@.closed == old(self)@.closed
                }
            }),
    {
        let part_num = get_part_num(vpn);
        let page = get_page_num(vpn);
        let part = match self.take_part(part_num) {
            Ok(part) => part,
            Err(e) => {
                return Err(e);
            },
        };
        if page >= part.capacity() as u64 {
            self.put_part(part_num, part);
            proof {
                Self::lemma_put_back(old(self)@, part_num, old(self)@.parts[part_num]);
            }
            return Err(DBError::IllegalArgument);
        }
        Ok((part, page as usize))
    }

    /// Allocates the page that virtual page number `vpn` names.
    pub fn alloc_page(&mut self, vpn: u64) -> (r: Result<u64, DBError>)
        requires
            old(self)@.wf(),
        ensures
            final(self)@.wf(),
            ({
                let part_num = part_of(vpn as int) as usize;
                let n = page_of(vpn as int);
                let pv = old(self)@.parts[part_num];
                &&& old(self)@.closed ==> r == Err::<u64, DBError>(DBError::Closed) && final(self)@
                    == old(self)@
                &&& !old(self)@.closed && !old(self)@.parts.contains_key(part_num) ==> r == Err::<
                    u64,
                    DBError,
                >(DBError::NoSuchPartition { part_num }) && final(self)@ == old(self)@
                &&& !old(self)@.closed && old(self)@.parts.contains_key(part_num) && n
                    >= pv.capacity() ==> r == Err::<u64, DBError>(DBError::IllegalArgument) && final(self)@ == old(self)@
                &&& !old(self)@.closed && old(self)@.parts.contains_key(part_num) && n
                    < pv.capacity() && pv.is_allocated(n) ==> r == Err::<u64, DBError>(
                    DBError::AlreadyAllocated {
                        part_num,
                        header_index: pv.header_of(n) as usize,
                        page_index: pv.index_of(n) as usize,
                    },
                ) && final(self)@ == old(self)@
                &&& !old(self)@.closed && old(self)@.parts.contains_key(part_num) && n
                    < pv.capacity() && !pv.is_allocated(n) ==> {
                    &&& r == Ok::<u64, DBError>(vpn)
                    &&& final(self)@ == old(self)@.with_part(part_num, final(self)@.parts[part_num])
                    &&& final(self)@.parts[part_num].allocated() == pv.allocated().insert(n)
                    &&& final(self)@.parts[part_num] == pv.with_page_bit(
                        pv.header_of(n),
                        pv.index_of(n),
                        true,
                    ).noticed(Notice::Alloc(vpn))
                }
            }),
    {
        let (mut part, page) = match self.take_page(vpn) {
            Ok(found) => found,
            Err(e) => {
                return Err(e);
            },
        };
        let part_num = get_part_num(vpn);
        let pph = part.pages_per_header();
        proof {
            vstd::arithmetic::div_mod::lemma_fundamental_div_mod(page as int, pph as int);
            assert(page / pph * pph == pph * (page / pph)) by (nonlinear_arith);
            assert(page / pph < crate::constant::MAX_HEADER_PAGE) by (nonlinear_arith)
                requires
                    page < crate::constant::MAX_HEADER_PAGE * pph,
                    pph >= 1,
            ;
        }
        let r = part.alloc_page_specific(page / pph, page % pph);
        let ghost pv = part@;
        self.put_part(part_num, part);
        proof {
            Self::lemma_put_back(old(self)@, part_num, pv);
        }
        match r {
            Ok(_) => Ok(vpn),
            Err(e) => Err(e),
        }
    }

    /// Frees the page that virtual page number `vpn` names.
    pub fn free_page(&mut self, vpn: u64) -> (r: Result<(), DBError>)
        requires
            old(self)@.wf(),
        ensures
            final(self)@.wf(),
            ({
                let part_num = part_of(vpn as int) as usize;
                let n = page_of(vpn as int);
                let pv = old(self)@.parts[part_num];
                &&& old(self)@.closed ==> r == Err::<(), DBError>(DBError::Closed) && final(self)@
                    == old(self)@
                &&& !old(self)@.closed && !old(self)@.parts.contains_key(part_num) ==> r == Err::<
                    (),
                    DBError,
                >(DBError::NoSuchPartition { part_num }) && final(self)@ == old(self)@
                &&& !old(self)@.closed && old(self)@.parts.contains_key(part_num) && n
                    >= pv.capacity() ==> r == Err::<(), DBError>(DBError::IllegalArgument) && final(self)@ == old(self)@
                &&& !old(self)@.closed && old(self)@.parts.contains_key(part_num) && n
                    < pv.capacity() && !pv.is_allocated(n) ==> r == Err::<(), DBError>(
                    DBError::NotAllocated { part_num, page_num: n as usize },
                ) && final(self)@ == old(self)@
                &&& !old(self)@.closed && old(self)@.parts.contains_key(part_num) && n
                    < pv.capacity() && pv.is_allocated(n) ==> {
                    &&& r == Ok::<(), DBError>(())
                    &&& final(self)@ == old(self)@.with_part(part_num, final(self)@.parts[part_num])
                    &&& final(self)@.parts[part_num].allocated() == pv.allocated().remove(n)
                    &&& final(self)@.parts[part_num] == pv.with_page_bit(
                        pv.header_of(n),
                        pv.index_of(n),
                        false,
                    ).noticed(Notice::Free(vpn))
                }
            }),
    {
        let (mut part, page) = match self.take_page(vpn) {
            Ok(found) => found,
            Err(e) => {
                return Err(e);
            },
        };
        let part_num = get_part_num(vpn);
        let r = part.free_page(page);
        let ghost pv = part@;
        self.put_part(part_num, part);
        proof {
            Self::lemma_put_back(old(self)@, part_num, pv);
        }
        r
    }

    /// Whether the page that virtual page number `vpn` names is allocated;
    /// a page of no open partition is not.
    pub fn page_allocated(&self, vpn: u64) -> (r: Result<bool, DBError>)
        requires
            self@.wf(),
        ensures
            self@.closed ==> r == Err::<bool, DBError>(DBError::Closed),
            !self@.closed ==> r == Ok::<bool, DBError>(self@.is_allocated(vpn as int)),
    {
        if self.closed {
            return Err(DBError::Closed);
        }
        let part_num = get_part_num(vpn);
        let page = get_page_num(vpn);
        match self.partitions.get(&part_num) {
            None => {
                proof {
                    assert(!self@.parts.contains_key(part_num));
                }
                Ok(false)
            },
            Some(part) => {
                proof {
                    assert(self.partitions@.contains_key(part_num));
                    assert(self@.parts.contains_key(part_num));
                    assert(self@.parts[part_num] == part@);
                }
                if page >= part.capacity() as u64 {
                    return Ok(false);
                }
                match part.is_not_allocated_page(page as usize) {
                    Ok(free) => Ok(!free),
                    Err(e) => Err(e),
                }
            },
        }
    }

    /// Admits a read or write of the page that virtual page number `vpn`
    /// names: fails unless the page is allocated, and otherwise returns the
    /// partition number and the byte offset of the page in its file.
    pub fn page_io(&mut self, vpn: u64) -> (r: Result<(usize, u64), DBError>)
        requires
            old(self)@.wf(),
        ensures
            final(self)@.wf(),
            ({
                let part_num = part_of(vpn as int) as usize;
                let n = page_of(vpn as int);
                let pv = old(self)@.parts[part_num];
                &&& r is Err ==> final(self)@ == old(self)@
                &&& old(self)@.closed ==> r == Err::<(usize, u64), DBError>(DBError::Closed)
                &&& !old(self)@.closed && !old(self)@.parts.contains_key(part_num) ==> r == Err::<
                    (usize, u64),
                    DBError,
                >(DBError::NoSuchPartition { part_num })
                &&& !old(self)@.closed && old(self)@.parts.contains_key(part_num) && n
                    >= pv.capacity() ==> r == Err::<(usize, u64), DBError>(DBError::IllegalArgument)
                &&& !old(self)@.closed && old(self)@.parts.contains_key(part_num) && n
                    < pv.capacity() && !pv.is_allocated(n) ==> r == Err::<(usize, u64), DBError>(
                    DBError::NotAllocated { part_num, page_num: n as usize },
                )
                &&& !old(self)@.closed && old(self)@.parts.contains_key(part_num) && n
                    < pv.capacity() && pv.is_allocated(n) ==> r == Ok::<(usize, u64), DBError>(
                    (part_num, data_offset(pv.pages_per_header as int, n) as u64),
                ) && final(self)@ == old(self)@.with_part(part_num, pv.noticed(Notice::Io(vpn)))
            }),
    {
        let (mut part, page) = match self.take_page(vpn) {
            Ok(found) => found,
            Err(e) => {
                return Err(e);
            },
        };
        let part_num = get_part_num(vpn);
        let r = part.page_io(page);
        let ghost pv = part@;
        self.put_part(part_num, part);
        proof {
            Self::lemma_put_back(old(self)@, part_num, pv);
            Self::lemma_put_back(old(self)@, part_num, old(self)@.parts[part_num]);
            lemma_vpn_round_trip(vpn, 0, 0);
            if r is Ok {
                crate::partition::lemma_noticed_wf(old(self)@.parts[part_num], Notice::Io(vpn));
                assert(self@.parts[part_num].wf());
            }
        }
        match r {
            Ok(offset) => Ok((part_num, offset)),
            Err(e) => Err(e),
        }
    }

    /// Closes the manager: every later operation fails with `Closed`.
    pub fn close(&mut self)
        ensures
            final(self)@ == (DiskView { closed: true, ..old(self)@ }),
    {
        self.closed = true;
    }

    /// Creates partition `part_num`.
    pub fn alloc_part_specific(&mut self, part_num: usize) -> (r: Result<usize, DBError>)
        requires
            old(self)@.wf(),
        ensures
            final(self)@.wf(),
            final(self)@.closed == old(self)@.closed,
            old(self)@.closed ==> r == Err::<usize, DBError>(DBError::Closed) && final(self)@
                == old(self)@,
            !old(self)@.closed && part_num >= MAX_PART_NUM ==> r == Err::<usize, DBError>(
                DBError::IllegalArgument,
            ) && final(self)@ == old(self)@,
            !old(self)@.closed && part_num < MAX_PART_NUM && old(self)@.parts.contains_key(part_num)
                ==> r == Err::<usize, DBError>(DBError::PartitionExists { part_num })
                && final(self)@ == old(self)@,
            !old(self)@.closed && part_num < MAX_PART_NUM && !old(self)@.parts.contains_key(
                part_num,
            ) ==> {
                &&& r == Ok::<usize, DBError>(part_num)
                &&& final(self)@.parts == old(self)@.parts.insert(part_num, fresh_partition(part_num))
                &&& final(self)@.next_part_num == if part_num < old(self)@.next_part_num {
                    old(self)@.next_part_num as int
                } else {
                    part_num + 1
                }
            },
    {
        if self.closed {
            return Err(DBError::Closed);
        }
        if part_num >= MAX_PART_NUM {
            return Err(DBError::IllegalArgument);
        }
        if self.partitions.contains_key(&part_num) {
            return Err(DBError::PartitionExists { part_num });
        }
        let part = PartitionHandle::new(part_num, self.recovery_manager.clone());
        let ghost pv = part@;
        self.partitions.insert(part_num, part);
        if part_num >= self.next_part_num {
            self.next_part_num = part_num + 1;
        }
        proof {
            assert(pv.counts =~= fresh_partition(part_num).counts);
            assert(pv.headers =~= fresh_partition(part_num).headers);
            assert(self@.parts =~= old(self)@.parts.insert(part_num, fresh_partition(part_num)));
        }
        Ok(part_num)
    }
}

} // verus!
