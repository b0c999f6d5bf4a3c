//! Guest RAM, the table of dirty ranges, and the walk over dirty blocks.

use vstd::prelude::*;

verus! {

/// Size in bytes of an exported block.
pub const BLOCK_SIZE: usize = 4096;

/// A range of guest physical memory reported dirty by the hypervisor.
#[derive(Clone, Copy, Debug, PartialEq, Eq, Structural)]
pub struct MemoryRange {
    /// Guest physical address of the first byte.
    pub gpa: u64,
    /// Length in bytes.
    pub length: u64,
}

/// The dirty log: ranges in the order in which the hypervisor reported them.
#[derive(Debug)]
pub struct MemoryRangeTable {
    data: Vec<MemoryRange>,
}

impl View for MemoryRangeTable {
    type V = Seq<MemoryRange>;

    closed spec fn view(&self) -> Seq<MemoryRange> {
        self.data@
    }
}

impl MemoryRangeTable {
    /// A table of the given ranges.
    pub fn from_ranges(data: Vec<MemoryRange>) -> (table: Self)
        ensures
            table@ == data@,
    {
        MemoryRangeTable { data }
    }

    /// The ranges, in order.
    pub fn regions(&self) -> (ranges: &[MemoryRange])
        ensures
            ranges@ == self@,
    {
        self.data.as_slice()
    }
}

/// A stretch of guest RAM together with its content.
pub struct RamSpan {
    pub start: u64,
    pub bytes: Seq<u8>,
}

impl RamSpan {
    /// One past the last guest address of the span.
    pub open spec fn end(self) -> int {
        self.start + self.bytes.len()
    }

    /// Whether the span holds the guest address `gpa`.
    pub open spec fn holds(self, gpa: int) -> bool {
        self.start <= gpa < self.end()
    }
}

/// A region of guest RAM as it is mapped in the host.
#[derive(Clone, Copy, Debug)]
pub struct GuestRegion<'a> {
    /// Guest physical address of the first byte.
    pub start: u64,
    /// The content of the region.
    pub data: &'a [u8],
}

impl<'a> View for GuestRegion<'a> {
    type V = RamSpan;

    open spec fn view(&self) -> RamSpan {
        RamSpan { start: self.start, bytes: self.data@ }
    }
}

/// The RAM of a paused guest: regions that end inside the address space.
#[derive(Debug)]
pub struct GuestRam<'a> {
    regions: Vec<GuestRegion<'a>>,
}

/// Whether every span ends inside the 64-bit guest address space.
pub open spec fn spans_fit(ram: Seq<RamSpan>) -> bool {
    forall|i: int| 0 <= i < ram.len() ==> (#[trigger] ram[i]).end() <= u64::MAX
}

/// Index of the first span, from `from` on, that holds `gpa`; the number of
/// spans if there is none.
pub open spec fn span_index(ram: Seq<RamSpan>, gpa: int, from: int) -> int
    decreases ram.len() - from,
{
    if from < 0 || from >= ram.len() {
        ram.len() as int
    } else if ram[from].holds(gpa) {
        from
    } else {
        span_index(ram, gpa, from + 1)
    }
}

/// Content of the block that starts at guest address `gpa`, if the region
/// holding that address holds the whole block.
pub open spec fn block_at(ram: Seq<RamSpan>, gpa: int) -> Option<Seq<u8>> {
    let i = span_index(ram, gpa, 0);
    if i < ram.len() && gpa + BLOCK_SIZE <= ram[i].end() {
        let offset = gpa - ram[i].start;
        Some(ram[i].bytes.subrange(offset, offset + BLOCK_SIZE))
    } else {
        None
    }
}

impl<'a> View for GuestRam<'a> {
    type V = Seq<RamSpan>;

    closed spec fn view(&self) -> Seq<RamSpan> {
        self.regions@.map_values(|r: GuestRegion<'a>| r@)
    }
}

impl<'a> GuestRam<'a> {
    /// Every region ends inside the address space.
    pub open spec fn wf(&self) -> bool {
        spans_fit(self@)
    }

    /// Guest RAM made of `regions`; `None` if one of them runs past the end of
    /// the guest address space.
    pub fn new(regions: Vec<GuestRegion<'a>>) -> (ram: Option<Self>)
        ensures
            ram is Some <==> forall|i: int|
                0 <= i < regions@.len() ==> (#[trigger] regions@[i]).start + regions@[i].data@.len()
                    <= u64::MAX,
            ram matches Some(ram) ==> {
                &&& ram@.len() == regions@.len()
                &&& forall|i: int|
                    0 <= i < regions@.len() ==> {
                        &&& (#[trigger] ram@[i]).start == regions@[i].start
                        &&& ram@[i].bytes == regions@[i].data@
                    }
            },
            ram is Some <==> spans_fit(regions@.map_values(|r: GuestRegion<'a>| r@)),
            ram matches Some(ram) ==> {
                &&& ram.wf()
                &&& ram@ == regions@.map_values(|r: GuestRegion<'a>| r@)
            },
    {
        let ghost spans = regions@.map_values(|r: GuestRegion<'a>| r@);
        let mut i: usize = 0;
        while i < regions.len()
            invariant
                i <= regions.len(),
                spans == regions@.map_values(|r: GuestRegion<'a>| r@),
                forall|j: int| 0 <= j < i ==> (#[trigger] spans[j]).end() <= u64::MAX,
            decreases regions.len() - i,
        {
            let region = regions[i];
            if region.data.len() as u64 > u64::MAX - region.start {
                assert(spans[i as int].end() > u64::MAX);
                assert(regions@[i as int].start + regions@[i as int].data@.len() > u64::MAX);
                return None;
            }
            i = i + 1;
        }
        assert forall|j: int| 0 <= j < regions@.len() implies (#[trigger] regions@[j]).start
            + regions@[j].data@.len() <= u64::MAX by {
            assert(spans[j].end() <= u64::MAX);
        }
        Some(GuestRam { regions })
    }

    /// The block that starts at guest address `gpa`, if one region holds all
    /// of it.
    pub fn block(&self, gpa: u64) -> (block: Option<&'a [u8]>)
        requires
            self.wf(),
        ensures
            block matches Some(b) ==> block_at(self@, gpa as int) == Some(b@),
            block is None ==> block_at(self@, gpa as int) is None,
            forall|r: int|
                0 <= r < self@.len() && (#[trigger] self@[r]).start <= gpa && gpa - self@[r].start
                    < self@[r].bytes.len() && (forall|q: int|
                    0 <= q < r ==> gpa < (#[trigger] self@[q]).start || gpa - self@[q].start
                        >= self@[q].bytes.len()) ==> {
                    let span = self@[r];
                    let offset = gpa - span.start;
                    &&& block is Some <==> offset + 4096 <= span.bytes.len()
                    &&& block matches Some(b) ==> b@ == span.bytes.subrange(offset, offset + 4096)
                },
            (forall|r: int|
                0 <= r < self@.len() ==> gpa < (#[trigger] self@[r]).start || gpa - self@[r].start
                    >= self@[r].bytes.len()) ==> block is None,
    {
        let mut i: usize = 0;
        while i < self.regions.len()
            invariant
                i <= self.regions.len(),
                self.wf(),
                span_index(self@, gpa as int, 0) == span_index(self@, gpa as int, i as int),
            decreases self.regions.len() - i,
        {
            let region = self.regions[i];
            assert(self@[i as int] == region@);
            if region.start <= gpa && gpa - region.start < region.data.len() as u64 {
                let offset: usize = (gpa - region.start) as usize;
                proof {
                    lemma_holders(self@, gpa as int);
                }
                if region.data.len() - offset >= BLOCK_SIZE {
                    return Some(&region.data[offset..offset + BLOCK_SIZE]);
                }
                return None;
            }
            i = i + 1;
        }
        proof {
            lemma_holders(self@, gpa as int);
        }
        None
    }
}

/// Guest addresses of the whole blocks of a range, in order.
pub open spec fn range_blocks(range: MemoryRange) -> Seq<int> {
    Seq::new((range.length / BLOCK_SIZE as u64) as nat, |k: int| range.gpa + k * BLOCK_SIZE)
}

/// Guest addresses of the whole blocks of all ranges, in order.
pub open spec fn table_blocks(table: Seq<MemoryRange>) -> Seq<int>
    decreases table.len(),
{
    if table.len() == 0 {
        Seq::empty()
    } else {
        table_blocks(table.drop_last()) + range_blocks(table.last())
    }
}

/// Position of the first address, from `from` on, at which guest RAM holds no
/// block; the number of addresses if there is none.
pub open spec fn first_unmapped(addrs: Seq<int>, ram: Seq<RamSpan>, from: int) -> int
    decreases addrs.len() - from,
{
    if from < 0 || from >= addrs.len() {
        addrs.len() as int
    } else if block_at(ram, addrs[from]) is None {
        from
    } else {
        first_unmapped(addrs, ram, from + 1)
    }
}

/// A block of guest RAM: its number (guest address divided by the block size)
/// and its content.
pub struct BlockRead {
    pub index: u64,
    pub bytes: Seq<u8>,
}

/// The block at guest address `gpa`.
pub open spec fn read_at(ram: Seq<RamSpan>, gpa: int) -> BlockRead {
    BlockRead { index: (gpa / BLOCK_SIZE as int) as u64, bytes: block_at(ram, gpa)->0 }
}

/// The blocks that a walk over the dirty ranges reads: all of them, in order,
/// up to the first address without a block.
pub open spec fn visited(table: Seq<MemoryRange>, ram: Seq<RamSpan>) -> Seq<BlockRead> {
    let addrs = table_blocks(table);
    Seq::new(first_unmapped(addrs, ram, 0) as nat, |k: int| read_at(ram, addrs[k]))
}

/// The address at which a walk over the dirty ranges stops early, if it does.
pub open spec fn fault_address(table: Seq<MemoryRange>, ram: Seq<RamSpan>) -> Option<int> {
    let addrs = table_blocks(table);
    let stop = first_unmapped(addrs, ram, 0);
    if stop < addrs.len() {
        Some(addrs[stop])
    } else {
        None
    }
}

/// A block that a walk over the dirty ranges has read.
#[derive(Clone, Copy, Debug)]
pub struct GuestBlock<'a> {
    /// Number of the block: its guest address divided by the block size.
    pub block_idx: u64,
    /// Content of the block.
    pub data: &'a [u8],
}

impl<'a> View for GuestBlock<'a> {
    type V = BlockRead;

    open spec fn view(&self) -> BlockRead {
        BlockRead { index: self.block_idx, bytes: self.data@ }
    }
}

/// The outcome of a walk over the dirty ranges.
#[derive(Debug)]
pub struct BlockScan<'a> {
    /// The blocks that were read, in order.
    pub blocks: Vec<GuestBlock<'a>>,
    /// The guest address without a block at which the walk stopped early.
    pub fault: Option<u64>,
}

impl<'a> BlockScan<'a> {
    /// The blocks that were read, by their content.
    pub open spec fn reads(&self) -> Seq<BlockRead> {
        self.blocks@.map_values(|b: GuestBlock<'a>| b@)
    }
}

proof fn lemma_span_index_holds(ram: Seq<RamSpan>, gpa: int, from: int)
    requires
        0 <= from <= ram.len(),
    ensures
        from <= span_index(ram, gpa, from) <= ram.len(),
        span_index(ram, gpa, from) < ram.len() ==> ram[span_index(ram, gpa, from)].holds(gpa),
        forall|q: int|
            from <= q < span_index(ram, gpa, from) ==> !(#[trigger] ram[q]).holds(gpa),
    decreases ram.len() - from,
{
    if from < ram.len() && !ram[from].holds(gpa) {
        lemma_span_index_holds(ram, gpa, from + 1);
    }
}

/// Whether span `r` is the first that holds the guest address `gpa`.
spec fn first_holder(ram: Seq<RamSpan>, gpa: int, r: int) -> bool {
    &&& 0 <= r < ram.len()
    &&& ram[r].start <= gpa < ram[r].start + ram[r].bytes.len()
    &&& forall|q: int|
        0 <= q < r ==> gpa < (#[trigger] ram[q]).start || gpa >= ram[q].start + ram[q].bytes.len()
}

proof fn lemma_span_index_is(ram: Seq<RamSpan>, gpa: int, from: int, r: int)
    requires
        first_holder(ram, gpa, r),
        0 <= from <= r,
    ensures
        span_index(ram, gpa, from) == r,
    decreases r - from,
{
    if from < r {
        assert(!ram[from].holds(gpa));
        lemma_span_index_is(ram, gpa, from + 1, r);
    }
}

proof fn lemma_first_holder(ram: Seq<RamSpan>, gpa: int)
    ensures
        forall|r: int| #[trigger]
            first_holder(ram, gpa, r) ==> block_at(ram, gpa) == if gpa - ram[r].start + 4096
                <= ram[r].bytes.len() {
                Some(ram[r].bytes.subrange(gpa - ram[r].start, gpa - ram[r].start + 4096))
            } else {
                None
            },
{
    assert forall|r: int| #[trigger] first_holder(ram, gpa, r) implies span_index(ram, gpa, 0)
        == r by {
        lemma_span_index_is(ram, gpa, 0, r);
    }
}

/// The block at a guest address is made of the bytes of the region that holds
/// the address: byte `j` of the block is the byte that the region has at guest
/// address `gpa + j`. There is a block exactly if the region has all of them.
///
/// If several regions hold the address, it is the first of them.
pub proof fn block_is_region_bytes(ram: Seq<RamSpan>, gpa: int, r: int)
    requires
        0 <= r < ram.len(),
        ram[r].start <= gpa < ram[r].start + ram[r].bytes.len(),
        forall|q: int|
            0 <= q < r ==> gpa < (#[trigger] ram[q]).start || gpa >= ram[q].start
                + ram[q].bytes.len(),
    ensures
        block_at(ram, gpa) is Some <==> gpa + 4096 <= ram[r].start + ram[r].bytes.len(),
        block_at(ram, gpa) matches Some(block) ==> {
            &&& block.len() == 4096
            &&& forall|j: int|
                0 <= j < 4096 ==> #[trigger] block[j] == ram[r].bytes[gpa - ram[r].start + j]
        },
{
    assert(first_holder(ram, gpa, r));
    lemma_first_holder(ram, gpa);
}

proof fn lemma_holders(ram: Seq<RamSpan>, gpa: int)
    ensures
        forall|r: int|
            0 <= r < ram.len() && (#[trigger] ram[r]).start <= gpa && gpa - ram[r].start
                < ram[r].bytes.len() && (forall|q: int|
                0 <= q < r ==> gpa < (#[trigger] ram[q]).start || gpa - ram[q].start
                    >= ram[q].bytes.len()) ==> block_at(ram, gpa) == if gpa - ram[r].start + 4096
                <= ram[r].bytes.len() {
                Some(ram[r].bytes.subrange(gpa - ram[r].start, gpa - ram[r].start + 4096))
            } else {
                None
            },
        (forall|r: int|
            0 <= r < ram.len() ==> gpa < (#[trigger] ram[r]).start || gpa - ram[r].start
                >= ram[r].bytes.len()) ==> block_at(ram, gpa) is None,
{
    lemma_first_holder(ram, gpa);
    assert forall|r: int|
        0 <= r < ram.len() && (#[trigger] ram[r]).start <= gpa && gpa - ram[r].start
            < ram[r].bytes.len() && (forall|q: int|
            0 <= q < r ==> gpa < (#[trigger] ram[q]).start || gpa - ram[q].start
                >= ram[q].bytes.len()) implies first_holder(ram, gpa, r) by {}
    if forall|r: int|
        0 <= r < ram.len() ==> gpa < (#[trigger] ram[r]).start || gpa - ram[r].start
            >= ram[r].bytes.len() {
        unheld_address_has_no_block(ram, gpa);
    }
}

/// There is no block at an address that no region holds.
pub proof fn unheld_address_has_no_block(ram: Seq<RamSpan>, gpa: int)
    requires
        forall|r: int|
            0 <= r < ram.len() ==> gpa < (#[trigger] ram[r]).start || gpa >= ram[r].start
                + ram[r].bytes.len(),
    ensures
        block_at(ram, gpa) is None,
{
    lemma_span_index_holds(ram, gpa, 0);
}

/// A block is there because some region is the first that holds its address.
pub proof fn lemma_block_has_holder(ram: Seq<RamSpan>, gpa: int) -> (r: int)
    requires
        block_at(ram, gpa) is Some,
    ensures
        0 <= r < ram.len(),
        ram[r].start <= gpa < ram[r].start + ram[r].bytes.len(),
        forall|q: int|
            0 <= q < r ==> gpa < (#[trigger] ram[q]).start || gpa >= ram[q].start
                + ram[q].bytes.len(),
{
    let r = span_index(ram, gpa, 0);
    lemma_span_index_holds(ram, gpa, 0);
    assert forall|q: int| 0 <= q < r implies gpa < (#[trigger] ram[q]).start || gpa
        >= ram[q].start + ram[q].bytes.len() by {
        assert(!ram[q].holds(gpa));
    }
    r
}

/// A walk over no ranges reads nothing.
pub proof fn walk_over_nothing(ram: Seq<RamSpan>)
    ensures
        visited(Seq::empty(), ram).len() == 0,
        fault_address(Seq::empty(), ram) is None,
{
}

/// The regions fit if none has a byte past the last address but one.
pub proof fn regions_fit_below_the_end(ram: Seq<RamSpan>)
    ensures
        spans_fit(ram) <==> forall|i: int|
            0 <= i < ram.len() ==> (#[trigger] ram[i]).start + ram[i].bytes.len()
                <= 0xffff_ffff_ffff_ffff,
{
    if spans_fit(ram) {
        assert forall|i: int| 0 <= i < ram.len() implies (#[trigger] ram[i]).start
            + ram[i].bytes.len() <= 0xffff_ffff_ffff_ffff by {
            assert(ram[i].end() <= u64::MAX);
        }
    }
}

/// The addresses that ranges name: one more range adds as many as 4096 bytes fit
/// into it, from its start on in steps of 4096.
pub proof fn range_adds_its_blocks(table: Seq<MemoryRange>, range: MemoryRange)
    ensures
        table_blocks(Seq::empty()).len() == 0,
        ({
            let before = table_blocks(table);
            let after = table_blocks(table.push(range));
            let n = after.len() - before.len();
            &&& n * 4096 <= range.length < n * 4096 + 4096
            &&& forall|k: int| 0 <= k < before.len() ==> #[trigger] after[k] == before[k]
            &&& forall|k: int|
                before.len() <= k < after.len() ==> #[trigger] after[k] == range.gpa + (k
                    - before.len()) * 4096
        }),
{
    assert(table.push(range).drop_last() =~= table);
}

/// What one more range adds to a walk.
///
/// A walk that has stopped at an unmapped address reads no more. Any other goes
/// on with the blocks of the range: the block at `gpa`, the one 4096 bytes
/// further on, and so forth, each in its order, as long as the range has 4096
/// bytes left. It stops at the first of these addresses without a block, and
/// reports that address.
pub proof fn walk_goes_on(table: Seq<MemoryRange>, range: MemoryRange, ram: Seq<RamSpan>)
    requires
        spans_fit(ram),
    ensures
        ({
            let before = visited(table, ram);
            let after = visited(table.push(range), ram);
            let fault = fault_address(table.push(range), ram);
            let n = after.len() - before.len();
            &&& n >= 0
            &&& forall|k: int| 0 <= k < before.len() ==> #[trigger] after[k] == before[k]
            &&& fault_address(table, ram) is Some ==> n == 0 && fault == fault_address(table, ram)
            &&& fault_address(table, ram) is None ==> {
                &&& n * 4096 <= range.length
                &&& forall|k: int|
                    before.len() <= k < after.len() ==> {
                        let gpa = range.gpa + (k - before.len()) * 4096;
                        let read = #[trigger] after[k];
                        &&& read.index * 4096 <= gpa < read.index * 4096 + 4096
                        &&& block_at(ram, gpa) == Some(read.bytes)
                    }
                &&& match fault {
                    Some(gpa) => {
                        &&& gpa == range.gpa + n * 4096
                        &&& n * 4096 + 4096 <= range.length
                        &&& block_at(ram, gpa) is None
                    },
                    None => range.length < n * 4096 + 4096,
                }
            }
        }),
{
    let longer = table.push(range);
    let a = table_blocks(table);
    let b = range_blocks(range);
    let all = table_blocks(longer);
    assert(longer.drop_last() =~= table);
    assert(all == a + b);
    assert(b.len() * 4096 <= range.length < b.len() * 4096 + 4096);
    let p = first_unmapped(a, ram, 0);
    let q = first_unmapped(all, ram, 0);
    lemma_mapped_before(a, ram, 0);
    lemma_mapped_before(all, ram, 0);
    let before = visited(table, ram);
    let after = visited(longer, ram);
    assert(forall|j: int| 0 <= j < a.len() ==> all[j] == a[j]);
    if p < a.len() {
        assert(block_at(ram, all[p]) is None);
        lemma_first_unmapped(all, ram, 0, p);
    } else {
        if q < a.len() {
            assert(block_at(ram, a[q]) is Some);
        }
        let n = q - a.len();
        assert forall|k: int| before.len() <= k < after.len() implies {
            let gpa = range.gpa + (k - before.len()) * 4096;
            let read = #[trigger] after[k];
            &&& read.index * 4096 <= gpa < read.index * 4096 + 4096
            &&& block_at(ram, gpa) == Some(read.bytes)
        } by {
            assert(all[k] == b[k - a.len()]);
            lemma_block_at_fits(ram, all[k]);
        }
        if q < all.len() {
            assert(all[q] == b[n]);
        }
    }
}

/// A block of guest RAM lies inside the address space and has the block size.
pub proof fn lemma_block_at_fits(ram: Seq<RamSpan>, gpa: int)
    requires
        spans_fit(ram),
        block_at(ram, gpa) is Some,
    ensures
        0 <= gpa,
        gpa + BLOCK_SIZE <= u64::MAX,
        (block_at(ram, gpa)->0).len() == BLOCK_SIZE,
{
    lemma_span_index_holds(ram, gpa, 0);
}

proof fn lemma_table_blocks_step(table: Seq<MemoryRange>, i: int)
    requires
        0 <= i < table.len(),
    ensures
        table_blocks(table.take(i + 1)) == table_blocks(table.take(i)) + range_blocks(table[i]),
{
    assert(table.take(i + 1).drop_last() =~= table.take(i));
}

proof fn lemma_table_blocks_prefix(table: Seq<MemoryRange>, i: int)
    requires
        0 <= i <= table.len(),
    ensures
        table_blocks(table.take(i)).len() <= table_blocks(table).len(),
        forall|j: int|
            0 <= j < table_blocks(table.take(i)).len() ==> table_blocks(table.take(i))[j]
                == table_blocks(table)[j],
    decreases table.len() - i,
{
    if i < table.len() {
        lemma_table_blocks_step(table, i);
        lemma_table_blocks_prefix(table, i + 1);
    } else {
        assert(table.take(i) =~= table);
    }
}

/// The walk stops at `p` if every address before `p` has a block and `p` is
/// the end or has none.
proof fn lemma_first_unmapped(addrs: Seq<int>, ram: Seq<RamSpan>, from: int, p: int)
    requires
        0 <= from <= p <= addrs.len(),
        forall|j: int| from <= j < p ==> block_at(ram, #[trigger] addrs[j]) is Some,
        p < addrs.len() ==> block_at(ram, addrs[p]) is None,
    ensures
        first_unmapped(addrs, ram, from) == p,
    decreases p - from,
{
    if from < p {
        assert(block_at(ram, addrs[from]) is Some);
        lemma_first_unmapped(addrs, ram, from + 1, p);
    }
}

/// Guest RAM holds a block at every address before the one where a walk stops,
/// and none there.
pub proof fn lemma_mapped_before(addrs: Seq<int>, ram: Seq<RamSpan>, from: int)
    requires
        0 <= from <= addrs.len(),
    ensures
        from <= first_unmapped(addrs, ram, from) <= addrs.len(),
        forall|j: int|
            from <= j < first_unmapped(addrs, ram, from) ==> block_at(
                ram,
                #[trigger] addrs[j],
            ) is Some,
        first_unmapped(addrs, ram, from) < addrs.len() ==> block_at(
            ram,
            addrs[first_unmapped(addrs, ram, from)],
        ) is None,
    decreases addrs.len() - from,
{
    if from < addrs.len() && block_at(ram, addrs[from]) is Some {
        lemma_mapped_before(addrs, ram, from + 1);
    }
}

/// Whether the ranges name at most 2^32 - 1 blocks, counting repeated ones.
pub fn has_few_blocks(table: &MemoryRangeTable) -> (few: bool)
    ensures
        few <==> table_blocks(table@).len() <= u32::MAX,
{
    let ranges = table.regions();
    let mut total: u64 = 0;
    let mut i: usize = 0;
    while i < ranges.len()
        invariant
            i <= ranges.len(),
            ranges@ == table@,
            total == table_blocks(table@.take(i as int)).len(),
            total <= u32::MAX,
        decreases ranges.len() - i,
    {
        proof {
            lemma_table_blocks_step(table@, i as int);
            lemma_table_blocks_prefix(table@, i + 1);
        }
        total = total + ranges[i].length / BLOCK_SIZE as u64;
        if total > u32::MAX as u64 {
            return false;
        }
        i = i + 1;
    }
    assert(table@.take(i as int) =~= table@);
    true
}

/// Reads the blocks of all dirty ranges, in order, up to the first address at
/// which guest RAM holds no block.
///
/// A range contributes the blocks that fit into its length, counted from its
/// first address.
pub fn scan_blocks<'a>(table: &MemoryRangeTable, mem: &GuestRam<'a>) -> (scan: BlockScan<'a>)
    requires
        mem.wf(),
    ensures
        scan.blocks@.len() == visited(table@, mem@).len(),
        forall|k: int|
            0 <= k < scan.blocks@.len() ==> {
                &&& (#[trigger] scan.blocks@[k]).block_idx == visited(table@, mem@)[k].index
                &&& scan.blocks@[k].data@ == visited(table@, mem@)[k].bytes
            },
        scan.reads() == visited(table@, mem@),
        match scan.fault {
            Some(gpa) => fault_address(table@, mem@) == Some(gpa as int),
            None => fault_address(table@, mem@) is None,
        },
{
    let ranges = table.regions();
    let ghost all = table_blocks(table@);
    let mut blocks: Vec<GuestBlock<'a>> = Vec::new();
    let mut i: usize = 0;
    while i < ranges.len()
        invariant
            i <= ranges.len(),
            ranges@ == table@,
            all == table_blocks(table@),
            mem.wf(),
            blocks.len() == table_blocks(table@.take(i as int)).len(),
            forall|j: int|
                0 <= j < blocks.len() ==> block_at(mem@, #[trigger] all[j]) is Some
                    && blocks[j]@ == read_at(mem@, all[j]),
        decreases ranges.len() - i,
    {
        let range = ranges[i];
        let ghost done = blocks.len() as int;
        let ghost mut k: int = 0;
        let mut offset: u64 = 0;
        proof {
            lemma_table_blocks_step(table@, i as int);
            lemma_table_blocks_prefix(table@, i + 1);
        }
        while range.length - offset >= BLOCK_SIZE as u64
            invariant
                i < ranges.len(),
                range == table@[i as int],
                all == table_blocks(table@),
                mem.wf(),
                done == table_blocks(table@.take(i as int)).len(),
                table_blocks(table@.take(i + 1)) == table_blocks(table@.take(i as int))
                    + range_blocks(range),
                table_blocks(table@.take(i + 1)).len() <= all.len(),
                forall|j: int|
                    0 <= j < table_blocks(table@.take(i + 1)).len() ==> table_blocks(
                        table@.take(i + 1),
                    )[j] == all[j],
                0 <= k,
                offset == k * BLOCK_SIZE,
                offset <= range.length,
                range.gpa + offset <= u64::MAX,
                blocks.len() == done + k,
                forall|j: int|
                    0 <= j < blocks.len() ==> block_at(mem@, #[trigger] all[j]) is Some
                        && blocks[j]@ == read_at(mem@, all[j]),
            decreases range.length - offset,
        {
            let gpa: u64 = range.gpa + offset;
            assert(k < range.length / BLOCK_SIZE as u64) by (nonlinear_arith)
                requires
                    0 <= k,
                    range.length - k * BLOCK_SIZE >= BLOCK_SIZE,
                    BLOCK_SIZE == 4096,
            ;
            assert(table_blocks(table@.take(i + 1))[done + k] == range_blocks(range)[k]);
            assert(all[done + k] == gpa);
            match mem.block(gpa) {
                Some(data) => {
                    proof {
                        lemma_block_at_fits(mem@, gpa as int);
                    }
                    blocks.push(GuestBlock { block_idx: gpa / BLOCK_SIZE as u64, data });
                    offset = offset + BLOCK_SIZE as u64;
                    proof {
                        k = k + 1;
                    }
                },
                None => {
                    proof {
                        lemma_first_unmapped(all, mem@, 0, blocks.len() as int);
                    }
                    let scan = BlockScan { blocks, fault: Some(gpa) };
                    assert(scan.reads() =~= visited(table@, mem@));
                    assert(forall|j: int|
                        0 <= j < scan.blocks@.len() ==> scan.reads()[j] == scan.blocks@[j]@);
                    return scan;
                },
            }
        }
        assert(k == range.length / BLOCK_SIZE as u64) by (nonlinear_arith)
            requires
                0 <= k,
                0 <= range.length - k * BLOCK_SIZE < BLOCK_SIZE,
                BLOCK_SIZE == 4096,
        ;
        i = i + 1;
    }
    assert(table@.take(i as int) =~= table@);
    proof {
        lemma_first_unmapped(all, mem@, 0, blocks.len() as int);
    }
    let scan = BlockScan { blocks, fault: None };
    assert(scan.reads() =~= visited(table@, mem@));
    assert(forall|j: int| 0 <= j < scan.blocks@.len() ==> scan.reads()[j] == scan.blocks@[j]@);
    scan
}

} // verus!
