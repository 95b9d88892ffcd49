//! One partition: a master page of per-header allocation counts, lazily
//! created header pages holding allocation bitmaps, and the arithmetic that
//! places every page in the partition's file.
//!
//! File layout, in pages: `[master][header 0][data ...][header 1][data ...]...`
use vstd::prelude::*;

use crate::bit::{
    bit_at, lemma_ones_below_all_set, lemma_ones_below_clear_tail, lemma_ones_below_le,
    lemma_popcount_is_ones_below, lemma_popcount_le, lemma_set_then_get, ones_below, popcount,
    with_bit, Bit,
};
use crate::codec::{be_u16_bytes, be_value, get_u16_be, lemma_be_u16_round_trip, put_u16_be};
use crate::constant::{DATA_PAGES_PER_HEADER, MAX_HEADER_PAGE, PAGE_SIZE};
use crate::error::DBError;
use crate::storage::{get_virtual_page_num, lemma_vpn_fits, vpn_of, MAX_PART_NUM, PAGES_PER_PART};

verus! {

/// Receives the notifications a partition sends while it allocates, frees,
/// and transfers pages. Each carries the virtual page number concerned.
pub trait RecoveryManager {
    /// A page has just been allocated.
    fn log_alloc_page(&mut self, vpn: u64);

    /// A page is about to be freed.
    fn log_free_page(&mut self, vpn: u64);

    /// The contents of a page are about to be read or written.
    fn disk_io_hook(&mut self, vpn: u64);
}

/// Byte offset of the master page in a partition file.
pub open spec fn master_offset() -> int {
    0
}

/// Byte offset of header page `h`, with `pph` data pages per header: one
/// page for the master, and `pph + 1` pages for each earlier header and its
/// data pages.
pub open spec fn header_offset(pph: int, h: int) -> int {
    (1 + (pph + 1) * h) * PAGE_SIZE
}

/// Byte offset of data page `p`, with `pph` data pages per header: the
/// master page, the first header page, the header pages that precede
/// `p`'s own, and the `p` data pages before it.
pub open spec fn data_offset(pph: int, p: int) -> int {
    (2 + p / pph + p) * PAGE_SIZE
}

/// Every page of the layout starts at its own offset and takes one page:
/// the master page comes first, header pages and data pages each come in
/// increasing order, no header page overlaps a data page, and the data pages
/// of header `h` lie between header pages `h` and `h + 1`.
pub proof fn lemma_layout_disjoint(pph: int, h: int, g: int, p: int, q: int)
    requires
        pph >= 1,
        0 <= h,
        0 <= g,
        0 <= p,
        0 <= q,
    ensures
        master_offset() + PAGE_SIZE <= header_offset(pph, h),
        master_offset() + PAGE_SIZE <= data_offset(pph, p),
        h < g ==> header_offset(pph, h) + PAGE_SIZE <= header_offset(pph, g),
        p < q ==> data_offset(pph, p) + PAGE_SIZE <= data_offset(pph, q),
        header_offset(pph, h) + PAGE_SIZE <= data_offset(pph, p) || data_offset(pph, p)
            + PAGE_SIZE <= header_offset(pph, h),
        p / pph == h ==> header_offset(pph, h) + PAGE_SIZE <= data_offset(pph, p)
            && data_offset(pph, p) + PAGE_SIZE <= header_offset(pph, h + 1),
{
    vstd::arithmetic::div_mod::lemma_fundamental_div_mod(p, pph);
    vstd::arithmetic::div_mod::lemma_fundamental_div_mod(q, pph);
    let a = p / pph;
    let b = q / pph;
    assert(0 <= a) by (nonlinear_arith)
        requires
            pph >= 1,
            p >= 0,
            a == p / pph,
    ;
    assert(0 <= (pph + 1) * h) by (nonlinear_arith)
        requires
            pph >= 1,
            h >= 0,
    ;
    if h < g {
        assert((pph + 1) * h < (pph + 1) * g) by (nonlinear_arith)
            requires
                pph >= 1,
                h < g,
        ;
    }
    if p < q {
        assert(a <= b) by (nonlinear_arith)
            requires
                pph >= 1,
                p < q,
                a == p / pph,
                b == q / pph,
        ;
    }
    // the slot of data page p sits just past its header's slot
    assert(2 + a + p == 1 + (pph + 1) * a + 1 + p % pph) by (nonlinear_arith)
        requires
            p == pph * a + p % pph,
    ;
    assert(0 <= p % pph < pph);
    if h <= a {
        assert((pph + 1) * h <= (pph + 1) * a) by (nonlinear_arith)
            requires
                pph >= 1,
                h <= a,
        ;
    } else {
        assert((pph + 1) * (a + 1) <= (pph + 1) * h) by (nonlinear_arith)
            requires
                pph >= 1,
                a + 1 <= h,
        ;
    }
    assert((pph + 1) * (a + 1) == (pph + 1) * a + pph + 1) by (nonlinear_arith);
}

/// A header slot with master counter `count` and bitmap `slot` is
/// consistent: a present bitmap is one page long, its count of ones is the
/// counter, and it marks no page past the header's `pph` pages; an absent
/// one has a zero counter.
pub open spec fn slot_wf(count: u16, slot: Option<Seq<u8>>, pph: nat) -> bool {
    match slot {
        Some(b) => {
            &&& b.len() == PAGE_SIZE
            &&& count == popcount(b)
            &&& clean_tail(b, pph)
        },
        None => count == 0,
    }
}

/// The master page's bytes: each counter in big-endian order.
pub open spec fn encode_counts(c: Seq<u16>) -> Seq<u8>
    decreases c.len(),
{
    if c.len() == 0 {
        Seq::empty()
    } else {
        encode_counts(c.drop_last()) + be_u16_bytes(c.last())
    }
}

/// The counters read back from a master page's bytes.
pub open spec fn decode_counts(b: Seq<u8>) -> Seq<u16> {
    Seq::new(MAX_HEADER_PAGE as nat, |h: int| be_value(b.subrange(2 * h, 2 * h + 2)) as u16)
}

proof fn lemma_encode_counts(c: Seq<u16>)
    ensures
        encode_counts(c).len() == 2 * c.len(),
        forall|h: int|
            0 <= h < c.len() ==> #[trigger] encode_counts(c).subrange(2 * h, 2 * h + 2)
                == be_u16_bytes(c[h]),
    decreases c.len(),
{
    if c.len() > 0 {
        let d = c.drop_last();
        lemma_encode_counts(d);
        let e = encode_counts(c);
        assert forall|h: int| 0 <= h < c.len() implies #[trigger] e.subrange(2 * h, 2 * h + 2)
            == be_u16_bytes(c[h]) by {
            if h < d.len() {
                assert(e.subrange(2 * h, 2 * h + 2) =~= encode_counts(d).subrange(2 * h, 2 * h + 2));
            } else {
                assert(e.subrange(2 * h, 2 * h + 2) =~= be_u16_bytes(c.last()));
            }
        }
    }
}

/// Reading back the bytes written for a master page gives its counters.
pub proof fn lemma_counts_round_trip(c: Seq<u16>)
    requires
        c.len() == MAX_HEADER_PAGE,
    ensures
        decode_counts(encode_counts(c)) == c,
{
    lemma_encode_counts(c);
    assert forall|h: int| 0 <= h < c.len() implies #[trigger] decode_counts(encode_counts(c))[h]
        == c[h] by {
        assert(encode_counts(c).subrange(2 * h, 2 * h + 2) == be_u16_bytes(c[h]));
        lemma_be_u16_round_trip(c[h]);
    }
    assert(decode_counts(encode_counts(c)) =~= c);
}

/// A notification sent to the recovery manager, with the virtual page
/// number it carries.
pub enum Notice {
    Alloc(u64),
    Free(u64),
    Io(u64),
}

/// The notifications that freeing `pages` of partition `part_num`, in
/// order, sends.
pub open spec fn free_notices(part_num: nat, pages: Seq<usize>) -> Seq<Notice> {
    pages.map_values(|p: usize| Notice::Free(vpn_of(part_num as int, p as int) as u64))
}

/// The bitmap of a header slot, or a zeroed page where the slot is empty.
pub open spec fn bitmap_or_zero(o: Option<Seq<u8>>) -> Seq<u8> {
    match o {
        Some(b) => b,
        None => Seq::new(PAGE_SIZE as nat, |i: int| 0u8),
    }
}

/// Bitmap `b` marks no page at or past `pph`.
pub open spec fn clean_tail(b: Seq<u8>, pph: nat) -> bool {
    forall|j: int| pph <= j < 8 * PAGE_SIZE ==> !bit_at(b, j)
}

/// The abstract state of a partition's metadata.
pub struct PartitionView {
    pub part_num: nat,
    /// How many data pages one header page governs.
    pub pages_per_header: nat,
    /// The master page: one allocation count per header slot.
    pub counts: Seq<u16>,
    /// The header pages loaded or created so far, one slot per header.
    pub headers: Seq<Option<Seq<u8>>>,
    /// The notifications sent to the recovery manager so far, oldest first.
    pub notices: Seq<Notice>,
}

impl PartitionView {
    /// Header slot `h` is consistent.
    pub open spec fn header_wf(self, h: int) -> bool {
        slot_wf(self.counts[h], self.headers[h], self.pages_per_header)
    }

    pub open spec fn wf(self) -> bool {
        &&& self.part_num < MAX_PART_NUM
        &&& 1 <= self.pages_per_header <= DATA_PAGES_PER_HEADER
        &&& self.counts.len() == MAX_HEADER_PAGE
        &&& self.headers.len() == MAX_HEADER_PAGE
        &&& forall|h: int| 0 <= h < MAX_HEADER_PAGE ==> #[trigger] self.header_wf(h)
    }

    /// Number of data pages the partition can hold.
    pub open spec fn capacity(self) -> int {
        MAX_HEADER_PAGE * self.pages_per_header
    }

    /// The header slot of local page `p`.
    pub open spec fn header_of(self, p: int) -> int {
        p / self.pages_per_header as int
    }

    /// The position of local page `p` within its header's bitmap.
    pub open spec fn index_of(self, p: int) -> int {
        p % self.pages_per_header as int
    }

    /// Local page `p` is allocated: it lies within the partition and its
    /// header's bitmap has its bit set.
    pub open spec fn is_allocated(self, p: int) -> bool {
        &&& 0 <= p < self.capacity()
        &&& self.headers[self.header_of(p)] is Some
        &&& bit_at(self.headers[self.header_of(p)]->0, self.index_of(p))
    }

    /// Header slot `h` has a bitmap whose first `pages_per_header` bits are
    /// all set.
    pub open spec fn header_full(self, h: int) -> bool {
        &&& self.headers[h] is Some
        &&& forall|j: int|
            0 <= j < self.pages_per_header ==> #[trigger] bit_at(self.headers[h]->0, j)
    }

    /// The allocated local page numbers.
    pub open spec fn allocated(self) -> Set<int> {
        Set::new(|p: int| self.is_allocated(p))
    }

    /// `self` with bit `i` of header `h` set to `x`, the header created if
    /// absent, and the header's counter recounted.
    pub open spec fn with_page_bit(self, h: int, i: int, x: bool) -> PartitionView {
        let b = with_bit(bitmap_or_zero(self.headers[h]), i, x);
        PartitionView {
            headers: self.headers.update(h, Some(b)),
            counts: self.counts.update(h, popcount(b) as u16),
            ..self
        }
    }

    /// `self` after notification `n` is sent.
    pub open spec fn noticed(self, n: Notice) -> PartitionView {
        PartitionView { notices: self.notices.push(n), ..self }
    }
}

pub open spec fn bitmap_view(o: Option<Vec<u8>>) -> Option<Seq<u8>> {
    match o {
        Some(v) => Some(v@),
        None => None,
    }
}

/// The allocation metadata of one partition, and the recovery manager it
/// reports to.
pub struct PartitionHandle<R> {
    /// Contents of the master page: one count per header slot.
    master_page: Vec<u16>,
    /// Header page bitmaps, one slot per header, created on first use.
    header_pages: Vec<Option<Vec<u8>>>,
    part_num: usize,
    pages_per_header: usize,
    recovery_manager: R,
    notices: Ghost<Seq<Notice>>,
}

impl<R> View for PartitionHandle<R> {
    type V = PartitionView;

    closed spec fn view(&self) -> PartitionView {
        PartitionView {
            part_num: self.part_num as nat,
            pages_per_header: self.pages_per_header as nat,
            counts: self.master_page@,
            headers: self.header_pages@.map_values(|o: Option<Vec<u8>>| bitmap_view(o)),
            notices: self.notices@,
        }
    }
}

proof fn lemma_zero_bits(s: Seq<u8>)
    requires
        forall|k: int| 0 <= k < s.len() ==> s[k] == 0u8,
    ensures
        forall|j: int| 0 <= j < 8 * s.len() ==> !#[trigger] bit_at(s, j),
{
    assert forall|j: int| 0 <= j < 8 * s.len() implies !#[trigger] bit_at(s, j) by {
        let k = (j % 8) as u32;
        assert(k < 8);
        assert(((0u8 >> ((7 - k) as u8)) & 1u8) == 0u8) by (bit_vector)
            requires
                k < 8,
        ;
    }
}

/// A local page number splits into its header slot and its index there.
proof fn lemma_page_split(pph: int, h: int, i: int)
    requires
        pph >= 1,
        0 <= h < MAX_HEADER_PAGE,
        0 <= i < pph,
    ensures
        (i + h * pph) / pph == h,
        (i + h * pph) % pph == i,
        0 <= i + h * pph < MAX_HEADER_PAGE * pph,
{
    vstd::arithmetic::div_mod::lemma_fundamental_div_mod_converse(i + h * pph, pph, h, i);
    assert(i + h * pph < MAX_HEADER_PAGE * pph) by (nonlinear_arith)
        requires
            0 <= h < MAX_HEADER_PAGE,
            0 <= i < pph,
    ;
    assert(0 <= h * pph) by (nonlinear_arith)
        requires
            0 <= h,
            pph >= 1,
    ;
}

/// A page within the partition has a header slot within the table.
proof fn lemma_page_header(pph: int, p: int)
    requires
        pph >= 1,
        0 <= p < MAX_HEADER_PAGE * pph,
    ensures
        0 <= p / pph < MAX_HEADER_PAGE,
        0 <= p % pph < pph,
        p == pph * (p / pph) + p % pph,
{
    vstd::arithmetic::div_mod::lemma_fundamental_div_mod(p, pph);
    let a = p / pph;
    assert(0 <= a < MAX_HEADER_PAGE) by (nonlinear_arith)
        requires
            pph >= 1,
            0 <= p < MAX_HEADER_PAGE * pph,
            p == pph * a + p % pph,
            0 <= p % pph < pph,
    ;
}

/// Some entry of `s` is page `m`.
pub open spec fn holds_page(s: Seq<usize>, m: int) -> bool {
    exists|k: int| 0 <= k < s.len() && s[k] == m
}

/// The counter of a bitmap read back from a file, or `None` when it marks
/// a page at or past `pph`.
fn load_slot(bitmap: &Vec<u8>, pph: usize) -> (r: Option<u16>)
    requires
        1 <= pph <= DATA_PAGES_PER_HEADER,
        bitmap@.len() == PAGE_SIZE,
    ensures
        r is Some <==> clean_tail(bitmap@, pph as nat),
        r matches Some(c) ==> c == popcount(bitmap@),
{
    let mut j: usize = pph;
    while j < 8 * PAGE_SIZE
        invariant
            pph <= j <= 8 * PAGE_SIZE,
            bitmap@.len() == PAGE_SIZE,
            forall|i: int| pph <= i < j ==> !bit_at(bitmap@, i),
        decreases 8 * PAGE_SIZE - j,
    {
        match Bit::get_bit(bitmap.as_slice(), j as u32) {
            Ok(Bit::Zero) => {},
            _ => {
                return None;
            },
        }
        j = j + 1;
    }
    proof {
        lemma_popcount_le(bitmap@);
    }
    Some(Bit::count_ones(bitmap.as_slice()) as u16)
}

/// A zeroed page.
fn zero_page() -> (r: Vec<u8>)
    ensures
        r@.len() == PAGE_SIZE,
        forall|k: int| 0 <= k < PAGE_SIZE ==> r@[k] == 0u8,
        r@ == Seq::new(PAGE_SIZE as nat, |i: int| 0u8),
{
    let mut v: Vec<u8> = Vec::with_capacity(PAGE_SIZE);
    let mut k: usize = 0;
    while k < PAGE_SIZE
        invariant
            k <= PAGE_SIZE,
            v@.len() == k,
            forall|i: int| 0 <= i < k ==> v@[i] == 0u8,
        decreases PAGE_SIZE - k,
    {
        v.push(0u8);
        k = k + 1;
    }
    assert(v@ =~= Seq::new(PAGE_SIZE as nat, |i: int| 0u8));
    v
}

/// The metadata that `open` loads: the bitmaps `headers` in the first
/// slots with their counts of ones as counters, the other slots empty.
pub open spec fn loaded_view(v: PartitionView, headers: Seq<Seq<u8>>) -> PartitionView {
    PartitionView {
        part_num: v.part_num,
        pages_per_header: v.pages_per_header,
        counts: Seq::new(
            MAX_HEADER_PAGE as nat,
            |h: int|
                if h < headers.len() {
                    popcount(headers[h]) as u16
                } else {
                    0u16
                },
        ),
        headers: Seq::new(
            MAX_HEADER_PAGE as nat,
            |h: int|
                if h < headers.len() {
                    Some(headers[h])
                } else {
                    None
                },
        ),
        notices: v.notices,
    }
}

/// The bytes of each page of a list.
pub open spec fn pages_view(pages: Seq<Vec<u8>>) -> Seq<Seq<u8>> {
    pages.map_values(|p: Vec<u8>| p@)
}

impl<R: RecoveryManager> PartitionHandle<R> {
    /// Creates the metadata of a new, empty partition whose headers each
    /// govern `DATA_PAGES_PER_HEADER` data pages.
    pub fn new(part_num: usize, recovery_manager: R) -> (r: Self)
        requires
            part_num < MAX_PART_NUM,
        ensures
            r@.wf(),
            r@.part_num == part_num,
            r@.pages_per_header == DATA_PAGES_PER_HEADER,
            r@.counts == Seq::new(MAX_HEADER_PAGE as nat, |h: int| 0u16),
            r@.headers == Seq::new(MAX_HEADER_PAGE as nat, |h: int| None::<Seq<u8>>),
            r@.allocated() == Set::<int>::empty(),
            forall|p: int| !#[trigger] r@.is_allocated(p),
            r@.notices == Seq::<Notice>::empty(),
    {
        Self::with_pages_per_header(part_num, DATA_PAGES_PER_HEADER, recovery_manager)
    }

    /// Creates the metadata of a new, empty partition whose headers each
    /// govern `pages_per_header` data pages.
    pub fn with_pages_per_header(part_num: usize, pages_per_header: usize, recovery_manager: R) -> (r:
        Self)
        requires
            part_num < MAX_PART_NUM,
            1 <= pages_per_header <= DATA_PAGES_PER_HEADER,
        ensures
            r@.wf(),
            r@.part_num == part_num,
            r@.pages_per_header == pages_per_header,
            r@.counts == Seq::new(MAX_HEADER_PAGE as nat, |h: int| 0u16),
            r@.headers == Seq::new(MAX_HEADER_PAGE as nat, |h: int| None::<Seq<u8>>),
            r@.allocated() == Set::<int>::empty(),
            forall|p: int| !#[trigger] r@.is_allocated(p),
            r@.notices == Seq::<Notice>::empty(),
    {
        let mut master_page: Vec<u16> = Vec::with_capacity(MAX_HEADER_PAGE);
        let mut header_pages: Vec<Option<Vec<u8>>> = Vec::with_capacity(MAX_HEADER_PAGE);
        let mut h: usize = 0;
        while h < MAX_HEADER_PAGE
            invariant
                h <= MAX_HEADER_PAGE,
                master_page@.len() == h,
                header_pages@.len() == h,
                forall|i: int| 0 <= i < h ==> master_page@[i] == 0u16,
                forall|i: int| 0 <= i < h ==> header_pages@[i] is None,
            decreases MAX_HEADER_PAGE - h,
        {
            master_page.push(0u16);
            header_pages.push(None);
            h = h + 1;
        }
        let r = PartitionHandle {
            master_page,
            header_pages,
            part_num,
            pages_per_header,
            recovery_manager,
            notices: Ghost(Seq::empty()),
        };
        assert(r@.counts =~= Seq::new(MAX_HEADER_PAGE as nat, |h: int| 0u16));
        assert(r@.headers =~= Seq::new(MAX_HEADER_PAGE as nat, |h: int| None::<Seq<u8>>));
        assert(forall|h: int| 0 <= h < MAX_HEADER_PAGE ==> #[trigger] r@.header_wf(h));
        assert forall|p: int| !r@.is_allocated(p) by {
            if 0 <= p < r@.capacity() {
                lemma_page_header(pages_per_header as int, p);
            }
        }
        assert(r@.allocated() =~= Set::<int>::empty());
        r
    }

    /// Loads the metadata of an existing partition file from the header
    /// pages the file holds, in slot order (see `stored_headers`). Each
    /// counter is recounted from its bitmap, so counters that a crash left
    /// stale are repaired (see `stale_counters`). Fails with
    /// `IllegalArgument` when a page is not one page long or there are too
    /// many, and with `CorruptedMetadata` when a bitmap marks pages past the
    /// partition's capacity; the partition is then left as it was.
    pub fn open(&mut self, header_pages: Vec<Vec<u8>>) -> (r: Result<(), DBError>)
        requires
            old(self)@.wf(),
        ensures
            final(self)@.wf(),
            ({
                let stored = pages_view(header_pages@);
                let malformed = stored.len() > MAX_HEADER_PAGE || exists|i: int|
                    0 <= i < stored.len() && #[trigger] stored[i].len() != PAGE_SIZE;
                let stray = exists|i: int|
                    0 <= i < stored.len() && !clean_tail(
                        #[trigger] stored[i],
                        old(self)@.pages_per_header,
                    );
                &&& malformed ==> r == Err::<(), DBError>(DBError::IllegalArgument) && final(self)@
                    == old(self)@
                &&& !malformed && stray ==> r == Err::<(), DBError>(
                    DBError::CorruptedMetadata { part_num: old(self)@.part_num as usize },
                ) && final(self)@ == old(self)@
                &&& !malformed && !stray ==> r == Ok::<(), DBError>(()) && final(self)@
                    == loaded_view(old(self)@, stored)
            }),
    {
        let ghost stored = pages_view(header_pages@);
        if header_pages.len() > MAX_HEADER_PAGE {
            return Err(DBError::IllegalArgument);
        }
        let mut i: usize = 0;
        while i < header_pages.len()
            invariant
                self@ == old(self)@,
                self@.wf(),
                stored == pages_view(header_pages@),
                i <= header_pages@.len(),
                forall|k: int| 0 <= k < i ==> #[trigger] stored[k].len() == PAGE_SIZE,
            decreases header_pages@.len() - i,
        {
            proof {
                assert(stored[i as int] == header_pages@[i as int]@);
            }
            if header_pages[i].len() != PAGE_SIZE {
                return Err(DBError::IllegalArgument);
            }
            i = i + 1;
        }
        let ghost v = loaded_view(self@, stored);
        let pph = self.pages_per_header;
        let mut counts: Vec<u16> = Vec::with_capacity(MAX_HEADER_PAGE);
        let mut h: usize = 0;
        while h < MAX_HEADER_PAGE
            invariant
                h <= MAX_HEADER_PAGE,
                self@ == old(self)@,
                self@.wf(),
                pph == self@.pages_per_header,
                stored == pages_view(header_pages@),
                stored.len() <= MAX_HEADER_PAGE,
                forall|k: int| 0 <= k < stored.len() ==> #[trigger] stored[k].len() == PAGE_SIZE,
                forall|k: int| 0 <= k < h && k < stored.len() ==> clean_tail(#[trigger] stored[k], pph as nat),
                counts@ == v.counts.subrange(0, h as int),
                v == loaded_view(self@, stored),
            decreases MAX_HEADER_PAGE - h,
        {
            let c: u16 = if h < header_pages.len() {
                proof {
                    assert(header_pages@[h as int]@ == stored[h as int]);
                }
                match load_slot(&header_pages[h], pph) {
                    Some(c) => c,
                    None => {
                        return Err(DBError::CorruptedMetadata { part_num: self.part_num });
                    },
                }
            } else {
                0
            };
            counts.push(c);
            proof {
                assert(counts@ =~= v.counts.subrange(0, h + 1));
            }
            h = h + 1;
        }
        let mut headers: Vec<Option<Vec<u8>>> = Vec::with_capacity(MAX_HEADER_PAGE);
        let mut h: usize = 0;
        while h < MAX_HEADER_PAGE
            invariant
                h <= MAX_HEADER_PAGE,
                headers@.len() == h,
                forall|k: int| 0 <= k < h ==> headers@[k] is None,
            decreases MAX_HEADER_PAGE - h,
        {
            headers.push(None);
            h = h + 1;
        }
        let mut rest = header_pages;
        while rest.len() > 0
            invariant
                headers@.len() == MAX_HEADER_PAGE,
                stored.len() <= MAX_HEADER_PAGE,
                rest@.len() <= stored.len(),
                forall|k: int| 0 <= k < rest@.len() ==> #[trigger] rest@[k]@ == stored[k],
                forall|k: int|
                    0 <= k < MAX_HEADER_PAGE ==> #[trigger] bitmap_view(headers@[k]) == if rest@.len()
                        <= k < stored.len() {
                        Some(stored[k])
                    } else {
                        None::<Seq<u8>>
                    },
            decreases rest@.len(),
        {
            match rest.pop() {
                Some(bitmap) => {
                    let k = rest.len();
                    headers[k] = Some(bitmap);
                },
                None => {},
            }
        }
        proof {
            assert(counts@ =~= v.counts);
            let hv = headers@.map_values(|o: Option<Vec<u8>>| bitmap_view(o));
            assert(hv =~= v.headers);
        }
        self.master_page = counts;
        self.header_pages = headers;
        proof {
            assert(self@ == v);
            assert forall|k: int| 0 <= k < MAX_HEADER_PAGE implies #[trigger] v.header_wf(k) by {
                if k < stored.len() {
                    lemma_popcount_le(stored[k]);
                }
            }
        }
        Ok(())
    }

    /// The header slots whose counter in the master page `master_page` read
    /// from a file differs from the loaded counter, in increasing order:
    /// where the file's master page must be written again.
    pub fn stale_counters(&self, master_page: &[u8]) -> (r: Vec<usize>)
        requires
            self@.wf(),
            master_page@.len() == PAGE_SIZE,
        ensures
            forall|a: int, b: int| 0 <= a < b < r@.len() ==> r@[a] < r@[b],
            forall|h: int|
                holds_page(r@, h) <==> (0 <= h < MAX_HEADER_PAGE && #[trigger] decode_counts(
                    master_page@,
                )[h] != self@.counts[h]),
    {
        let ghost d = decode_counts(master_page@);
        let mut stale: Vec<usize> = Vec::new();
        let mut h: usize = 0;
        while h < MAX_HEADER_PAGE
            invariant
                self@.wf(),
                h <= MAX_HEADER_PAGE,
                master_page@.len() == PAGE_SIZE,
                d == decode_counts(master_page@),
                forall|a: int, b: int| 0 <= a < b < stale@.len() ==> stale@[a] < stale@[b],
                forall|k: int| 0 <= k < stale@.len() ==> stale@[k] < h,
                forall|m: int|
                    holds_page(stale@, m) <==> (0 <= m < h && #[trigger] d[m] != self@.counts[m]),
            decreases MAX_HEADER_PAGE - h,
        {
            let pair = vstd::slice::slice_subrange(master_page, 2 * h, 2 * h + 2);
            let c = get_u16_be(pair);
            proof {
                assert(pair@.subrange(0, 2) =~= master_page@.subrange(2 * h, 2 * h + 2));
            }
            let ghost before = stale@;
            if c != self.master_page[h] {
                stale.push(h);
            }
            proof {
                assert forall|m: int|
                    holds_page(stale@, m) <==> (0 <= m < h + 1 && #[trigger] d[m]
                        != self@.counts[m]) by {
                    if holds_page(before, m) {
                        let k = choose|k: int| 0 <= k < before.len() && before[k] == m;
                        assert(stale@[k] == m);
                    }
                    if holds_page(stale@, m) {
                        let k = choose|k: int| 0 <= k < stale@.len() && stale@[k] == m;
                        if k < before.len() {
                            assert(holds_page(before, m));
                        }
                    }
                    if m == h && d[m] != self@.counts[m] {
                        assert(stale@[before.len() as int] == m);
                    }
                }
            }
            h = h + 1;
        }
        stale
    }

    /// The partition number.
    pub fn part_num(&self) -> (r: usize)
        ensures
            r == self@.part_num,
    {
        self.part_num
    }

    /// The recovery manager the partition reports to.
    pub fn recovery_manager(&self) -> &R {
        &self.recovery_manager
    }

    /// How many data pages one header page governs.
    pub fn pages_per_header(&self) -> (r: usize)
        ensures
            r == self@.pages_per_header,
    {
        self.pages_per_header
    }

    /// Number of data pages the partition can hold.
    pub fn capacity(&self) -> (r: usize)
        requires
            self@.wf(),
        ensures
            r == self@.capacity(),
    {
        proof {
            lemma_capacity_bound(self@.pages_per_header as int);
        }
        assert(MAX_HEADER_PAGE * self.pages_per_header <= 2048 * 32768);
        MAX_HEADER_PAGE * self.pages_per_header
    }

    /// Byte offset of the master page in the partition file.
    pub fn master_page_offset() -> (r: u64)
        ensures
            r == master_offset(),
    {
        0
    }

    /// Byte offset of header page `header_index` in the partition file.
    pub fn header_page_offset(&self, header_index: usize) -> (r: u64)
        requires
            self@.wf(),
            header_index <= MAX_HEADER_PAGE,
        ensures
            r == header_offset(self@.pages_per_header as int, header_index as int),
    {
        let pph = self.pages_per_header as u64;
        let h = header_index as u64;
        assert((pph + 1) * h <= 32769 * 2048) by (nonlinear_arith)
            requires
                pph <= 32768,
                h <= 2048,
        ;
        let slot = 1 + (pph + 1) * h;
        assert(slot * 4096 <= 32770 * 2048 * 4096) by (nonlinear_arith)
            requires
                slot <= 32769 * 2048 + 1,
        ;
        slot * (PAGE_SIZE as u64)
    }

    /// Byte offset of data page `page_num` in the partition file.
    pub fn data_page_offset(&self, page_num: usize) -> (r: u64)
        requires
            self@.wf(),
            page_num < self@.capacity(),
        ensures
            r == data_offset(self@.pages_per_header as int, page_num as int),
    {
        let pph = self.pages_per_header as u64;
        let p = page_num as u64;
        assert(p / pph <= p) by (nonlinear_arith)
            requires
                pph >= 1,
        ;
        assert(p < 2048 * 32768) by (nonlinear_arith)
            requires
                p < 2048 * pph,
                pph <= 32768,
        ;
        let slot = 2 + p / pph + p;
        assert(slot * 4096 <= 3 * 2048 * 32768 * 4096) by (nonlinear_arith)
            requires
                slot <= 2 + 2 * 2048 * 32768,
        ;
        slot * (PAGE_SIZE as u64)
    }

    /// Sets the bit of page `page_index` of header `header_index` to `value`,
    /// creating the header's bitmap if absent, and recounts the header.
    fn write_bit(&mut self, header_index: usize, page_index: usize, value: bool)
        requires
            old(self)@.wf(),
            header_index < MAX_HEADER_PAGE,
            page_index < old(self)@.pages_per_header,
        ensures
            final(self)@.wf(),
            final(self)@.part_num == old(self)@.part_num,
            final(self)@.pages_per_header == old(self)@.pages_per_header,
            final(self)@.headers[header_index as int] is Some,
            final(self)@.notices == old(self)@.notices,
            final(self)@ == old(self)@.with_page_bit(header_index as int, page_index as int, value),
            final(self)@.headers == old(self)@.headers.update(
                header_index as int,
                Some(
                    with_bit(
                        bitmap_or_zero(old(self)@.headers[header_index as int]),
                        page_index as int,
                        value,
                    ),
                ),
            ),
            final(self)@.counts == old(self)@.counts.update(
                header_index as int,
                popcount(
                    with_bit(
                        bitmap_or_zero(old(self)@.headers[header_index as int]),
                        page_index as int,
                        value,
                    ),
                ) as u16,
            ),
            forall|m: int|
                #[trigger] final(self)@.is_allocated(m) == if m == page_index + header_index
                    * old(self)@.pages_per_header {
                    value
                } else {
                    old(self)@.is_allocated(m)
                },
    {
        let ghost old_view = self@;
        let ghost pph = self.pages_per_header as int;
        let mut slot: Option<Vec<u8>> = None;
        std::mem::swap(&mut self.header_pages[header_index], &mut slot);
        let mut bitmap = match slot {
            Some(b) => b,
            None => zero_page(),
        };
        let ghost before = bitmap@;
        proof {
            assert(old_view.header_wf(header_index as int));
            if old_view.headers[header_index as int] is None {
                lemma_zero_bits(before);
            } else {
                assert(old_view.headers[header_index as int] == Some(before));
            }
            assert(forall|j: int| pph <= j < 8 * PAGE_SIZE ==> !bit_at(before, j));
        }
        let bit = if value {
            Bit::One
        } else {
            Bit::Zero
        };
        let _ = Bit::set_bit(bitmap.as_mut_slice(), page_index as u32, bit);
        let ghost after = bitmap@;
        proof {
            assert(after == with_bit(before, page_index as int, value));
            lemma_set_then_get(before, page_index as int, value);
            lemma_popcount_le(after);
        }
        let count = Bit::count_ones(bitmap.as_slice());
        self.master_page[header_index] = count as u16;
        self.header_pages[header_index] = Some(bitmap);
        proof {
            let n = page_index + header_index * pph;
            assert(self@.headers =~= old_view.headers.update(header_index as int, Some(after)));
            assert(self@.counts =~= old_view.counts.update(header_index as int, count as u16));
            assert forall|h: int| 0 <= h < MAX_HEADER_PAGE implies #[trigger] self@.header_wf(h) by {
                if h != header_index {
                    assert(old_view.header_wf(h));
                }
            }
            lemma_page_split(pph, header_index as int, page_index as int);
            assert forall|m: int| #[trigger]
                self@.is_allocated(m) == if m == n {
                    value
                } else {
                    old_view.is_allocated(m)
                } by {
                if 0 <= m < self@.capacity() {
                    lemma_page_header(pph, m);
                    let g = m / pph;
                    let i = m % pph;
                    if g == header_index {
                        if i == page_index {
                            assert(pph * g == g * pph) by (nonlinear_arith);
                            assert(m == n);
                        } else {
                            assert(m != n);
                            assert(bit_at(after, i) == bit_at(before, i));
                        }
                    } else {
                        assert(m != n);
                    }
                }
            }
        }
    }

    /// Allocates data page `page_index` of header `header_index`, creating
    /// the header page if it does not exist yet, and returns its local page
    /// number `page_index + header_index * pages_per_header`.
    pub fn alloc_page_specific(&mut self, header_index: usize, page_index: usize) -> (r: Result<
        usize,
        DBError,
    >)
        requires
            old(self)@.wf(),
        ensures
            final(self)@.wf(),
            final(self)@.part_num == old(self)@.part_num,
            final(self)@.pages_per_header == old(self)@.pages_per_header,
            header_index >= MAX_HEADER_PAGE || page_index >= old(self)@.pages_per_header ==> r
                == Err::<usize, DBError>(DBError::IllegalArgument) && final(self)@ == old(self)@,
            header_index < MAX_HEADER_PAGE && page_index < old(self)@.pages_per_header ==> {
                let n = page_index + header_index * old(self)@.pages_per_header;
                if old(self)@.is_allocated(n) {
                    &&& r == Err::<usize, DBError>(
                        DBError::AlreadyAllocated {
                            part_num: old(self)@.part_num as usize,
                            header_index,
                            page_index,
                        },
                    )
                    &&& final(self)@ == old(self)@
                } else {
                    &&& r == Ok::<usize, DBError>(n as usize)
                    &&& final(self)@.allocated() == old(self)@.allocated().insert(n)
                    &&& final(self)@ == old(self)@.with_page_bit(
                        header_index as int,
                        page_index as int,
                        true,
                    ).noticed(Notice::Alloc(vpn_of(old(self)@.part_num as int, n) as u64))
                }
            },
    {
        if header_index >= MAX_HEADER_PAGE || page_index >= self.pages_per_header {
            return Err(DBError::IllegalArgument);
        }
        let ghost pph = self.pages_per_header as int;
        proof {
            lemma_page_split(pph, header_index as int, page_index as int);
            lemma_capacity_bound(pph);
        }
        let already = match &self.header_pages[header_index] {
            Some(bitmap) => {
                proof {
                    assert(self@.header_wf(header_index as int));
                    assert(self@.headers[header_index as int] == Some(bitmap@));
                }
                match Bit::get_bit(bitmap.as_slice(), page_index as u32) {
                    Ok(bit) => bit == Bit::One,
                    Err(_) => false,
                }
            },
            None => false,
        };
        if already {
            return Err(
                DBError::AlreadyAllocated { part_num: self.part_num, header_index, page_index },
            );
        }
        let ghost old_view = self@;
        self.write_bit(header_index, page_index, true);
        let page_num = page_index + header_index * self.pages_per_header;
        proof {
            lemma_vpn_fits(self.part_num as int, page_num as int);
        }
        let vpn = get_virtual_page_num(self.part_num, page_num);
        self.recovery_manager.log_alloc_page(vpn);
        let ghost before_notice = self@;
        self.notices = Ghost(self.notices@.push(Notice::Alloc(vpn)));
        proof {
            assert(self@ == before_notice.noticed(Notice::Alloc(vpn)));
            lemma_noticed_wf(before_notice, Notice::Alloc(vpn));
        }
        proof {
            assert(self@.allocated() =~= old_view.allocated().insert(page_num as int));
        }
        Ok(page_num)
    }

    /// Allocates the lowest-numbered free page of the partition: the first
    /// free bit of the first header whose count is below its capacity.
    pub fn alloc_page(&mut self) -> (r: Result<usize, DBError>)
        requires
            old(self)@.wf(),
        ensures
            final(self)@.wf(),
            final(self)@.part_num == old(self)@.part_num,
            final(self)@.pages_per_header == old(self)@.pages_per_header,
            match r {
                Ok(n) => {
                    &&& 0 <= n < old(self)@.capacity()
                    &&& !old(self)@.is_allocated(n as int)
                    &&& forall|m: int| 0 <= m < n ==> #[trigger] old(self)@.is_allocated(m)
                    &&& final(self)@.allocated() == old(self)@.allocated().insert(n as int)
                    &&& final(self)@ == old(self)@.with_page_bit(
                        old(self)@.header_of(n as int),
                        old(self)@.index_of(n as int),
                        true,
                    ).noticed(Notice::Alloc(vpn_of(old(self)@.part_num as int, n as int) as u64))
                },
                Err(e) => {
                    &&& e == DBError::CapacityExceeded { part_num: old(self)@.part_num as usize }
                    &&& final(self)@ == old(self)@
                    &&& forall|m: int|
                        0 <= m < old(self)@.capacity() ==> #[trigger] old(self)@.is_allocated(m)
                },
            },
    {
        let pph = self.pages_per_header;
        let mut header_index: usize = 0;
        while header_index < MAX_HEADER_PAGE && self.master_page[header_index] as usize >= pph
            invariant
                self@.wf(),
                pph == self@.pages_per_header,
                header_index <= MAX_HEADER_PAGE,
                forall|g: int| 0 <= g < header_index ==> #[trigger] self@.header_full(g),
            decreases MAX_HEADER_PAGE - header_index,
        {
            proof {
                lemma_header_count(self@, header_index as int);
            }
            header_index = header_index + 1;
        }
        if header_index == MAX_HEADER_PAGE {
            proof {
                lemma_all_full(self@);
            }
            return Err(DBError::CapacityExceeded { part_num: self.part_num });
        }
        proof {
            lemma_header_count(self@, header_index as int);
            assert(self@.header_wf(header_index as int));
        }
        let page_index = match &self.header_pages[header_index] {
            None => 0,
            Some(bitmap) => {
                let ghost b = bitmap@;
                proof {
                    assert(self@.headers[header_index as int] == Some(b));
                }
                let mut i: usize = 0;
                let mut found = false;
                while !found && i < pph
                    invariant
                        self@.wf(),
                        pph == self@.pages_per_header,
                        bitmap@ == b,
                        b.len() == PAGE_SIZE,
                        i <= pph,
                        found ==> i < pph && !bit_at(b, i as int),
                        forall|j: int| 0 <= j < i ==> bit_at(b, j),
                    decreases pph - i + (if found {
                        0int
                    } else {
                        1int
                    }),
                {
                    match Bit::get_bit(bitmap.as_slice(), i as u32) {
                        Ok(Bit::Zero) => {
                            found = true;
                        },
                        _ => {
                            i = i + 1;
                        },
                    }
                }
                proof {
                    if !found {
                        assert(self@.header_full(header_index as int));
                    }
                }
                i
            },
        };
        proof {
            lemma_first_fit(self@, header_index as int, page_index as int);
            lemma_page_split(pph as int, header_index as int, page_index as int);
        }
        self.alloc_page_specific(header_index, page_index)
    }

    /// Frees local page `page_num`.
    pub fn free_page(&mut self, page_num: usize) -> (r: Result<(), DBError>)
        requires
            old(self)@.wf(),
        ensures
            final(self)@.wf(),
            final(self)@.part_num == old(self)@.part_num,
            final(self)@.pages_per_header == old(self)@.pages_per_header,
            old(self)@.is_allocated(page_num as int) ==> r == Ok::<(), DBError>(())
                && final(self)@.allocated() == old(self)@.allocated().remove(page_num as int)
                && final(self)@ == old(self)@.with_page_bit(
                old(self)@.header_of(page_num as int),
                old(self)@.index_of(page_num as int),
                false,
            ).noticed(Notice::Free(vpn_of(old(self)@.part_num as int, page_num as int) as u64)),
            !old(self)@.is_allocated(page_num as int) ==> r == Err::<(), DBError>(
                DBError::NotAllocated { part_num: old(self)@.part_num as usize, page_num },
            ) && final(self)@ == old(self)@,
    {
        let pph = self.pages_per_header;
        let header_index = page_num / pph;
        let page_index = page_num % pph;
        let not_allocated = DBError::NotAllocated { part_num: self.part_num, page_num };
        if header_index >= MAX_HEADER_PAGE {
            proof {
                if self@.is_allocated(page_num as int) {
                    lemma_page_header(pph as int, page_num as int);
                }
            }
            return Err(not_allocated);
        }
        proof {
            vstd::arithmetic::div_mod::lemma_fundamental_div_mod(page_num as int, pph as int);
            lemma_page_split(pph as int, header_index as int, page_index as int);
            lemma_capacity_bound(pph as int);
            assert(pph * header_index == header_index * pph) by (nonlinear_arith);
            assert(self@.header_wf(header_index as int));
        }
        let set = match &self.header_pages[header_index] {
            Some(bitmap) => {
                proof {
                    assert(self@.headers[header_index as int] == Some(bitmap@));
                }
                match Bit::get_bit(bitmap.as_slice(), page_index as u32) {
                    Ok(bit) => bit == Bit::One,
                    Err(_) => false,
                }
            },
            None => false,
        };
        if !set {
            return Err(not_allocated);
        }
        assert(page_num < PAGES_PER_PART);
        proof {
            lemma_vpn_fits(self.part_num as int, page_num as int);
        }
        let vpn = get_virtual_page_num(self.part_num, page_num);
        self.recovery_manager.log_free_page(vpn);
        let ghost old_view = self@;
        let ghost before_notice = self@;
        self.notices = Ghost(self.notices@.push(Notice::Free(vpn)));
        proof {
            assert(self@ == before_notice.noticed(Notice::Free(vpn)));
            lemma_noticed_wf(before_notice, Notice::Free(vpn));
        }
        self.write_bit(header_index, page_index, false);
        proof {
            assert(self@.allocated() =~= old_view.allocated().remove(page_num as int));
            assert(self@.notices == old_view.notices.push(Notice::Free(vpn)));
        }
        Ok(())
    }

    /// Lists the allocated pages in increasing order.
    fn allocated_pages(&self) -> (r: Vec<usize>)
        requires
            self@.wf(),
        ensures
            forall|a: int, b: int| 0 <= a < b < r@.len() ==> r@[a] < r@[b],
            forall|m: int| #[trigger] self@.is_allocated(m) <==> holds_page(r@, m),
            forall|k: int| 0 <= k < r@.len() ==> r@[k] < self@.capacity(),
    {
        let pph = self.pages_per_header;
        let mut pages: Vec<usize> = Vec::new();
        let mut header_index: usize = 0;
        proof {
            lemma_capacity_bound(pph as int);
        }
        while header_index < MAX_HEADER_PAGE
            invariant
                self@.wf(),
                pph == self@.pages_per_header,
                header_index <= MAX_HEADER_PAGE,
                forall|a: int, b: int| 0 <= a < b < pages@.len() ==> pages@[a] < pages@[b],
                forall|k: int| 0 <= k < pages@.len() ==> pages@[k] < header_index * pph,
                forall|m: int|
                    0 <= m < header_index * pph ==> (#[trigger] self@.is_allocated(m)
                        <==> holds_page(pages@, m)),
            decreases MAX_HEADER_PAGE - header_index,
        {
            let ghost h = header_index as int;
            proof {
                lemma_header_count(self@, h);
                assert(self@.header_wf(h));
                lemma_page_split(pph as int, h, 0);
                assert((h + 1) * pph == h * pph + pph) by (nonlinear_arith);
                assert(h * pph + pph <= MAX_HEADER_PAGE * pph) by (nonlinear_arith)
                    requires
                        h < MAX_HEADER_PAGE,
                        pph >= 1,
                ;
            }
            if self.master_page[header_index] != 0 {
                match &self.header_pages[header_index] {
                    None => {},
                    Some(bitmap) => {
                        proof {
                            assert(self@.headers[h] == Some(bitmap@));
                        }
                        let base = header_index * pph;
                        let mut j: usize = 0;
                        while j < pph
                            invariant
                                self@.wf(),
                                pph == self@.pages_per_header,
                                self@.headers[h] == Some(bitmap@),
                                bitmap@.len() == PAGE_SIZE,
                                0 <= h < MAX_HEADER_PAGE,
                                base == h * pph,
                                base + pph <= MAX_HEADER_PAGE * pph,
                                MAX_HEADER_PAGE * pph <= MAX_HEADER_PAGE * DATA_PAGES_PER_HEADER,
                                j <= pph,
                                forall|a: int, b: int|
                                    0 <= a < b < pages@.len() ==> pages@[a] < pages@[b],
                                forall|k: int| 0 <= k < pages@.len() ==> pages@[k] < base + j,
                                forall|m: int|
                                    0 <= m < base + j ==> (#[trigger] self@.is_allocated(m)
                                        <==> holds_page(pages@, m)),
                            decreases pph - j,
                        {
                            proof {
                                lemma_page_split(pph as int, h, j as int);
                                assert(j + h * pph == base + j);
                            }
                            let set = match Bit::get_bit(bitmap.as_slice(), j as u32) {
                                Ok(bit) => bit == Bit::One,
                                Err(_) => false,
                            };
                            let ghost before = pages@;
                            assert(MAX_HEADER_PAGE == 2048 && DATA_PAGES_PER_HEADER == 32768);
                            assert(MAX_HEADER_PAGE * pph <= 2048 * 32768) by (nonlinear_arith)
                                requires
                                    MAX_HEADER_PAGE == 2048,
                                    pph <= 32768,
                            ;
                            assert(base + j < 67108864);
                            if set {
                                pages.push(base + j);
                            }
                            proof {
                                assert forall|m: int|
                                    0 <= m < base + j + 1 implies (#[trigger] self@.is_allocated(m)
                                    <==> holds_page(pages@, m)) by {
                                    if m < base + j {
                                        if holds_page(before, m) {
                                            let k = choose|k: int|
                                                0 <= k < before.len() && before[k] == m;
                                            assert(pages@[k] == m);
                                        }
                                        if holds_page(pages@, m) {
                                            let k = choose|k: int|
                                                0 <= k < pages@.len() && pages@[k] == m;
                                            assert(k < before.len());
                                        }
                                    } else {
                                        if set {
                                            assert(pages@[before.len() as int] == m);
                                        } else {
                                            if holds_page(pages@, m) {
                                                let k = choose|k: int|
                                                    0 <= k < pages@.len() && pages@[k] == m;
                                                assert(pages@[k] < base + j);
                                            }
                                        }
                                    }
                                }
                            }
                            j = j + 1;
                        }
                    },
                }
            }
            proof {
                assert forall|m: int|
                    0 <= m < (h + 1) * pph implies (#[trigger] self@.is_allocated(m)
                    <==> holds_page(pages@, m)) by {
                    if m >= h * pph && self.master_page@[h] == 0 {
                        lemma_page_split(pph as int, h, m - h * pph);
                        if holds_page(pages@, m) {
                            let k = choose|k: int| 0 <= k < pages@.len() && pages@[k] == m;
                            assert(pages@[k] < h * pph);
                        }
                    } else if m >= h * pph && self@.headers[h] is None {
                        lemma_page_split(pph as int, h, m - h * pph);
                        if holds_page(pages@, m) {
                            let k = choose|k: int| 0 <= k < pages@.len() && pages@[k] == m;
                            assert(pages@[k] < h * pph);
                        }
                    }
                }
            }
            header_index = header_index + 1;
        }
        pages
    }

    /// Frees every allocated page of the partition. The pages are listed
    /// first and freed after, lowest first.
    pub fn free_data_pages(&mut self) -> (r: Result<(), DBError>)
        requires
            old(self)@.wf(),
        ensures
            final(self)@.wf(),
            final(self)@.part_num == old(self)@.part_num,
            final(self)@.pages_per_header == old(self)@.pages_per_header,
            r == Ok::<(), DBError>(()),
            final(self)@.allocated() == Set::<int>::empty(),
            exists|pages: Seq<usize>|
                {
                    &&& forall|a: int, b: int| 0 <= a < b < pages.len() ==> pages[a] < pages[b]
                    &&& forall|m: int| #[trigger]
                        old(self)@.is_allocated(m) <==> holds_page(pages, m)
                    &&& final(self)@.notices == old(self)@.notices + free_notices(
                        old(self)@.part_num,
                        pages,
                    )
                },
    {
        let pages = self.allocated_pages();
        let ghost start = self@;
        let mut k: usize = 0;
        while k < pages.len()
            invariant
                self@.wf(),
                self@.part_num == start.part_num,
                self@.pages_per_header == start.pages_per_header,
                k <= pages@.len(),
                forall|a: int, b: int| 0 <= a < b < pages@.len() ==> pages@[a] < pages@[b],
                forall|m: int| #[trigger]
                    start.is_allocated(m) <==> holds_page(pages@, m),
                self@.notices == start.notices + free_notices(
                    start.part_num,
                    pages@.subrange(0, k as int),
                ),
                forall|m: int| #[trigger]
                    self@.is_allocated(m) <==> (start.is_allocated(m) && !holds_page(pages@.subrange(0, k as int), m)),
            decreases pages@.len() - k,
        {
            let page_num = pages[k];
            proof {
                assert(holds_page(pages@, page_num as int));
                assert(start.is_allocated(page_num as int));
                if holds_page(pages@.subrange(0, k as int), page_num as int) {
                    let t = choose|t: int|
                        0 <= t < k && pages@.subrange(0, k as int)[t] == page_num;
                    assert(pages@[t] < pages@[k as int]);
                }
            }
            let ghost before = self@;
            match self.free_page(page_num) {
                Ok(()) => {},
                Err(e) => {
                    return Err(e);
                },
            }
            proof {
                let f0 = free_notices(start.part_num, pages@.subrange(0, k as int));
                let f1 = free_notices(start.part_num, pages@.subrange(0, k + 1));
                assert(f1 =~= f0.push(
                    Notice::Free(vpn_of(start.part_num as int, page_num as int) as u64),
                ));
                assert(self@.notices =~= start.notices + f1);
                assert forall|m: int| #[trigger]
                    self@.is_allocated(m) <==> (start.is_allocated(m) && !holds_page(pages@.subrange(0, k + 1), m)) by {
                    assert(self@.allocated().contains(m) == before.allocated().remove(
                        page_num as int,
                    ).contains(m));
                    let s0 = pages@.subrange(0, k as int);
                    let s1 = pages@.subrange(0, k + 1);
                    if holds_page(s1, m) {
                        let t = choose|t: int| 0 <= t < s1.len() && s1[t] == m;
                        if t < k {
                            assert(s0[t] == m);
                        }
                    }
                    if holds_page(s0, m) {
                        let t = choose|t: int| 0 <= t < s0.len() && s0[t] == m;
                        assert(s1[t] == m);
                    }
                    if m == page_num {
                        assert(s1[k as int] == m);
                    }
                }
            }
            k = k + 1;
        }
        proof {
            assert(pages@.subrange(0, pages@.len() as int) =~= pages@);
            assert(self@.allocated() =~= Set::<int>::empty());
            assert(forall|m: int| #[trigger]
                old(self)@.is_allocated(m) <==> holds_page(pages@, m));
        }
        Ok(())
    }

    /// Admits a read or write of the contents of local page `page_num`:
    /// fails unless the page is allocated, and otherwise tells the recovery
    /// manager and returns the byte offset of the page in the partition file.
    pub fn page_io(&mut self, page_num: usize) -> (r: Result<u64, DBError>)
        requires
            old(self)@.wf(),
        ensures
            old(self)@.is_allocated(page_num as int) ==> r == Ok::<u64, DBError>(
                data_offset(old(self)@.pages_per_header as int, page_num as int) as u64,
            ) && final(self)@ == old(self)@.noticed(
                Notice::Io(vpn_of(old(self)@.part_num as int, page_num as int) as u64),
            ),
            !old(self)@.is_allocated(page_num as int) ==> final(self)@ == old(self)@,
            !old(self)@.is_allocated(page_num as int) ==> r == Err::<u64, DBError>(
                DBError::NotAllocated { part_num: old(self)@.part_num as usize, page_num },
            ),
    {
        match self.is_not_allocated_page(page_num) {
            Ok(false) => {},
            _ => {
                return Err(DBError::NotAllocated { part_num: self.part_num, page_num });
            },
        }
        proof {
            lemma_capacity_bound(self@.pages_per_header as int);
        }
        assert(page_num < PAGES_PER_PART);
        proof {
            lemma_vpn_fits(self.part_num as int, page_num as int);
        }
        let vpn = get_virtual_page_num(self.part_num, page_num);
        self.recovery_manager.disk_io_hook(vpn);
        let ghost before_notice = self@;
        self.notices = Ghost(self.notices@.push(Notice::Io(vpn)));
        proof {
            assert(self@ == before_notice.noticed(Notice::Io(vpn)));
            lemma_noticed_wf(before_notice, Notice::Io(vpn));
        }
        Ok(self.data_page_offset(page_num))
    }

    /// The bytes of the master page: every counter, big-endian.
    pub fn master_page_bytes(&self) -> (r: Vec<u8>)
        requires
            self@.wf(),
        ensures
            r@ == encode_counts(self@.counts),
            r@.len() == PAGE_SIZE,
    {
        let mut out: Vec<u8> = Vec::with_capacity(PAGE_SIZE);
        let mut h: usize = 0;
        while h < MAX_HEADER_PAGE
            invariant
                self@.wf(),
                h <= MAX_HEADER_PAGE,
                out@ == encode_counts(self@.counts.subrange(0, h as int)),
            decreases MAX_HEADER_PAGE - h,
        {
            put_u16_be(&mut out, self.master_page[h]);
            proof {
                let c = self@.counts.subrange(0, h + 1);
                assert(c.drop_last() =~= self@.counts.subrange(0, h as int));
            }
            h = h + 1;
        }
        proof {
            assert(self@.counts.subrange(0, MAX_HEADER_PAGE as int) =~= self@.counts);
            lemma_encode_counts(self@.counts);
        }
        out
    }

    /// The bytes of header page `header_index`, if it exists.
    pub fn header_page_bytes(&self, header_index: usize) -> (r: Option<Vec<u8>>)
        requires
            self@.wf(),
            header_index < MAX_HEADER_PAGE,
        ensures
            bitmap_view(r) == self@.headers[header_index as int],
    {
        match &self.header_pages[header_index] {
            Some(bitmap) => Some(vstd::slice::slice_to_vec(bitmap.as_slice())),
            None => None,
        }
    }

    /// The writes that persist the metadata an allocation or free of local
    /// page `page_num` touches, as byte offsets and bytes: the master page,
    /// then the page's header page when it exists.
    pub fn metadata_writes(&self, page_num: usize) -> (r: Vec<(u64, Vec<u8>)>)
        requires
            self@.wf(),
            page_num < self@.capacity(),
        ensures
            r@.len() >= 1,
            r@[0].0 == master_offset(),
            r@[0].1@ == encode_counts(self@.counts),
            ({
                let h = self@.header_of(page_num as int);
                match self@.headers[h] {
                    Some(b) => r@.len() == 2 && r@[1].0 == header_offset(
                        self@.pages_per_header as int,
                        h,
                    ) && r@[1].1@ == b,
                    None => r@.len() == 1,
                }
            }),
    {
        let header_index = page_num / self.pages_per_header;
        proof {
            lemma_page_header(self@.pages_per_header as int, page_num as int);
        }
        let mut writes: Vec<(u64, Vec<u8>)> = Vec::new();
        writes.push((Self::master_page_offset(), self.master_page_bytes()));
        match self.header_page_bytes(header_index) {
            Some(bytes) => {
                writes.push((self.header_page_offset(header_index), bytes));
            },
            None => {},
        }
        writes
    }

    /// How many header pages a partition file of `file_len` bytes holds:
    /// header `h` is there when its offset lies within the file.
    pub fn stored_headers(&self, file_len: u64) -> (r: usize)
        requires
            self@.wf(),
        ensures
            r <= MAX_HEADER_PAGE,
            forall|h: int|
                0 <= h < MAX_HEADER_PAGE ==> (h < r <==> header_offset(
                    self@.pages_per_header as int,
                    h,
                ) < file_len),
    {
        let ghost pph = self@.pages_per_header as int;
        let mut n: usize = 0;
        while n < MAX_HEADER_PAGE && self.header_page_offset(n) < file_len
            invariant
                self@.wf(),
                pph == self@.pages_per_header,
                n <= MAX_HEADER_PAGE,
                forall|h: int| 0 <= h < n ==> header_offset(pph, h) < file_len,
            decreases MAX_HEADER_PAGE - n,
        {
            n = n + 1;
        }
        proof {
            assert forall|h: int| 0 <= h < MAX_HEADER_PAGE && h >= n implies header_offset(pph, h)
                >= file_len by {
                if h > n {
                    lemma_layout_disjoint(pph, n as int, h, 0, 0);
                }
            }
        }
        n
    }

    /// Whether local page `page_num` is free: its header slot is out of
    /// range, its header's count is zero, or its bit is clear.
    pub fn is_not_allocated_page(&self, page_num: usize) -> (r: Result<bool, DBError>)
        requires
            self@.wf(),
        ensures
            r == Ok::<bool, DBError>(!self@.is_allocated(page_num as int)),
    {
        let pph = self.pages_per_header;
        let header_index = page_num / pph;
        let page_index = page_num % pph;
        if header_index >= MAX_HEADER_PAGE {
            proof {
                if self@.is_allocated(page_num as int) {
                    lemma_page_header(pph as int, page_num as int);
                }
            }
            return Ok(true);
        }
        proof {
            vstd::arithmetic::div_mod::lemma_fundamental_div_mod(page_num as int, pph as int);
            assert(page_num < MAX_HEADER_PAGE * pph) by (nonlinear_arith)
                requires
                    header_index < MAX_HEADER_PAGE,
                    header_index == page_num / pph,
                    page_num == pph * header_index + page_index,
                    page_index < pph,
            ;
            assert(self@.header_wf(header_index as int));
        }
        if self.master_page[header_index] == 0 {
            proof {
                if let Some(b) = self@.headers[header_index as int] {
                    lemma_popcount_is_ones_below(b);
                    lemma_ones_below_zero(b, 8 * PAGE_SIZE);
                }
            }
            return Ok(true);
        }
        match &self.header_pages[header_index] {
            Some(bitmap) => {
                proof {
                    assert(self@.headers[header_index as int] == Some(bitmap@));
                }
                match Bit::get_bit(bitmap.as_slice(), page_index as u32) {
                    Ok(bit) => Ok(bit == Bit::Zero),
                    Err(_) => Ok(true),
                }
            },
            None => Ok(false),
        }
    }
}

/// A header's count never exceeds its capacity, and reaches it exactly
/// when the header is full.
proof fn lemma_header_count(v: PartitionView, h: int)
    requires
        v.wf(),
        0 <= h < MAX_HEADER_PAGE,
    ensures
        v.counts[h] <= v.pages_per_header,
        v.header_full(h) <==> v.counts[h] == v.pages_per_header,
        v.counts[h] == 0 ==> forall|j: int| 0 <= j < v.pages_per_header ==> !(v.headers[h] is Some
            && bit_at(v.headers[h]->0, j)),
{
    assert(v.header_wf(h));
    if let Some(b) = v.headers[h] {
        let pph = v.pages_per_header as int;
        lemma_popcount_is_ones_below(b);
        lemma_ones_below_clear_tail(b, pph, 8 * PAGE_SIZE);
        lemma_ones_below_le(b, pph);
        lemma_ones_below_all_set(b, pph);
        if v.counts[h] == 0 {
            lemma_ones_below_zero(b, pph);
        }
    }
}

/// With every header before `h` full and the first `i` bits of header `h`
/// set, every page before `i + h * pages_per_header` is allocated.
proof fn lemma_first_fit(v: PartitionView, h: int, i: int)
    requires
        v.wf(),
        0 <= h < MAX_HEADER_PAGE,
        0 <= i < v.pages_per_header,
        forall|g: int| 0 <= g < h ==> #[trigger] v.header_full(g),
        i > 0 ==> v.headers[h] is Some,
        forall|j: int| 0 <= j < i ==> bit_at(v.headers[h]->0, j),
    ensures
        forall|m: int| 0 <= m < i + h * v.pages_per_header ==> #[trigger] v.is_allocated(m),
{
    let pph = v.pages_per_header as int;
    lemma_page_split(pph, h, i);
    assert forall|m: int| 0 <= m < i + h * pph implies #[trigger] v.is_allocated(m) by {
        lemma_page_header(pph, m);
        let g = m / pph;
        let j = m % pph;
        assert(h * pph == pph * h) by (nonlinear_arith);
        if g > h {
            assert(pph * g >= pph * h + pph) by (nonlinear_arith)
                requires
                    g >= h + 1,
                    pph >= 1,
            ;
            assert(false);
        } else if g < h {
            assert(v.header_full(g));
        } else {
            assert(pph * g == pph * h);
            assert(j < i);
            assert(v.headers[h] is Some);
            assert(bit_at(v.headers[h]->0, j));
        }
    }
}

/// With every header full, every page of the partition is allocated.
proof fn lemma_all_full(v: PartitionView)
    requires
        v.wf(),
        forall|g: int| 0 <= g < MAX_HEADER_PAGE ==> #[trigger] v.header_full(g),
    ensures
        forall|m: int| 0 <= m < v.capacity() ==> #[trigger] v.is_allocated(m),
{
    assert forall|m: int| 0 <= m < v.capacity() implies #[trigger] v.is_allocated(m) by {
        lemma_page_header(v.pages_per_header as int, m);
        assert(v.header_full(m / v.pages_per_header as int));
    }
}

/// After `alloc_page_specific(h, p)` succeeds, page `p + h *
/// pages_per_header` is allocated and no other page changed: so
/// `is_not_allocated_page` reports `false` for it, and a second
/// `alloc_page_specific(h, p)` fails with `AlreadyAllocated`.
pub proof fn lemma_alloc_then_allocated(before: PartitionView, after: PartitionView, h: int, p: int)
    requires
        before.wf(),
        0 <= h < MAX_HEADER_PAGE,
        0 <= p < before.pages_per_header,
        !before.is_allocated(p + h * before.pages_per_header),
        after.allocated() == before.allocated().insert(p + h * before.pages_per_header),
    ensures
        after.is_allocated(p + h * before.pages_per_header),
        forall|m: int|
            m != p + h * before.pages_per_header ==> #[trigger] after.is_allocated(m)
                == before.is_allocated(m),
{
    let n = p + h * before.pages_per_header;
    assert(after.allocated().contains(n));
    assert forall|m: int| m != n implies #[trigger] after.is_allocated(m) == before.is_allocated(
        m,
    ) by {
        assert(after.allocated().contains(m) == before.allocated().contains(m));
    }
}

/// After `free_page(n)` succeeds, page `n` is free and no other page
/// changed: so `is_not_allocated_page(n)` reports `true`, and a second
/// `free_page(n)` fails with `NotAllocated`.
pub proof fn lemma_free_then_free(before: PartitionView, after: PartitionView, n: int)
    requires
        before.wf(),
        before.is_allocated(n),
        after.allocated() == before.allocated().remove(n),
    ensures
        !after.is_allocated(n),
        forall|m: int| m != n ==> #[trigger] after.is_allocated(m) == before.is_allocated(m),
{
    assert(!after.allocated().contains(n));
    assert forall|m: int| m != n implies #[trigger] after.is_allocated(m) == before.is_allocated(
        m,
    ) by {
        assert(after.allocated().contains(m) == before.allocated().contains(m));
    }
}

/// Opening the header pages of a partition file gives back the
/// partition's allocated pages: `stored` holds, for the first `k` slots, each
/// header's bitmap (a zeroed page where the header was never written), and
/// no header lies past them.
pub proof fn lemma_reopen_same_pages(v: PartitionView, w: PartitionView, stored: Seq<Seq<u8>>)
    requires
        v.wf(),
        w.pages_per_header == v.pages_per_header,
        stored.len() <= MAX_HEADER_PAGE,
        forall|h: int| 0 <= h < stored.len() ==> #[trigger] stored[h] == bitmap_or_zero(v.headers[h]),
        forall|h: int| stored.len() <= h < MAX_HEADER_PAGE ==> #[trigger] v.headers[h] is None,
    ensures
        loaded_view(w, stored).allocated() == v.allocated(),
{
    let l = loaded_view(w, stored);
    assert forall|p: int| #[trigger] l.is_allocated(p) == v.is_allocated(p) by {
        if 0 <= p < v.capacity() {
            lemma_page_header(v.pages_per_header as int, p);
            let h = v.header_of(p);
            if h < stored.len() {
                if v.headers[h] is None {
                    lemma_zero_bits(stored[h]);
                }
            } else {
                assert(v.headers[h] is None);
            }
        }
    }
    assert(l.allocated() =~= v.allocated());
}

/// Sending a notification leaves the metadata well formed.
pub proof fn lemma_noticed_wf(v: PartitionView, n: Notice)
    requires
        v.wf(),
    ensures
        v.noticed(n).wf(),
        v.noticed(n).allocated() == v.allocated(),
{
    assert forall|h: int| 0 <= h < MAX_HEADER_PAGE implies #[trigger] v.noticed(n).header_wf(h) by {
        assert(v.header_wf(h));
    }
    assert(v.noticed(n).allocated() =~= v.allocated());
}

/// A partition holds fewer pages than a virtual page number leaves room for.
pub proof fn lemma_capacity_bound(pph: int)
    requires
        1 <= pph <= DATA_PAGES_PER_HEADER,
    ensures
        MAX_HEADER_PAGE * pph <= MAX_HEADER_PAGE * DATA_PAGES_PER_HEADER,
        MAX_HEADER_PAGE * pph <= 67108864,
{
    assert(2048 * pph <= 2048 * 32768) by (nonlinear_arith)
        requires
            pph <= 32768,
    ;
}

/// An array with no set bit among bits `0 .. n` has each of them clear.
proof fn lemma_ones_below_zero(s: Seq<u8>, n: int)
    requires
        0 <= n,
        ones_below(s, n) == 0,
    ensures
        forall|j: int| 0 <= j < n ==> !bit_at(s, j),
    decreases n,
{
    if n > 0 {
        lemma_ones_below_zero(s, n - 1);
    }
}

} // verus!
