//! The per-VM state of incremental checkpoints.

use std::collections::HashMap;

use vstd::prelude::*;

use crate::bits;
use crate::change;
use crate::change::{DirtyBlock, HashedRead};
use crate::guest;
use crate::guest::{BlockRead, GuestBlock, GuestRam, MemoryRangeTable, RamSpan, BLOCK_SIZE};
use crate::packed;
use crate::packed::{BlockDelta, ExportedBlock};
use crate::trusted;

verus! {

broadcast use vstd::std_specs::hash::group_hash_axioms;

/// Cap on the blocks carried over to the next export as XOR bases (128 MiB). An
/// export of more distinct blocks carries nothing over.
pub const MAX_PREV_BLOCKS: usize = 32768;

/// Why an operation on a tracker failed.
#[derive(Clone, Copy, Debug, PartialEq, Eq, Structural)]
pub enum DeltaError {
    /// No golden image has been installed yet.
    NotInitialized,
    /// The golden image holds less than one block.
    GoldenTooSmall {
        /// Its size in bytes.
        len: usize,
    },
    /// Guest RAM holds no block at a dirty address.
    UnmappedAddress {
        /// The guest address.
        gpa: u64,
    },
    /// The compressor refused the blob.
    CompressWrite,
    /// The compressor could not finish its frame.
    CompressFinish,
}

/// Dirty bitmap of a drive.
#[derive(Clone, Debug, Default)]
pub struct DriveDirtyResponse {
    /// Bitmap for dirty blocks. Each bit represents one `block_size` block.
    pub bitmap: Vec<u64>,
    /// Block size in bytes (4096).
    pub block_size: u64,
    /// Total number of blocks on the disk.
    pub total_blocks: u64,
    /// Number of dirty blocks.
    pub dirty_count: u64,
}

/// An export of changed memory: a compressed packed_v2 blob.
#[derive(Debug)]
pub struct DirtyDeltaPacked {
    /// The packed_v2 blob in an LZ4 frame.
    pub blob: Vec<u8>,
    /// Number of blocks in the blob.
    pub block_count: u32,
    /// Uncompressed size of the packed_v2 blob in bytes.
    pub raw_size: u64,
    /// True if this is a P-frame: some block is relative to the previous
    /// checkpoint. False for a pure I-frame, relative to golden only.
    pub is_p_frame: bool,
}

/// What a tracker knows.
pub struct TrackerView {
    /// The hash on record for each block of the golden image.
    pub hashes: Seq<u64>,
    /// The golden image.
    pub golden: Option<Seq<u8>>,
    /// Content of the blocks of the previous export, by block number.
    pub prev: Map<u32, Seq<u8>>,
}

/// Number under which a block is exported: 32 bits wide.
pub open spec fn block_key(index: u64) -> u32 {
    (index % 0x1_0000_0000) as u32
}

/// Block `index` of the golden image.
pub open spec fn golden_block(golden: Seq<u8>, index: int) -> Seq<u8> {
    golden.subrange(index * BLOCK_SIZE, index * BLOCK_SIZE + BLOCK_SIZE)
}

/// The hash of each whole block of the golden image.
pub open spec fn golden_hashes(golden: Seq<u8>) -> Seq<u64> {
    Seq::new(
        golden.len() / BLOCK_SIZE as nat,
        |i: int| trusted::xxh3_64_of(golden_block(golden, i)),
    )
}

/// Bytewise exclusive or.
pub open spec fn xor_bytes(a: Seq<u8>, b: Seq<u8>) -> Seq<u8> {
    Seq::new(a.len(), |i: int| a[i] ^ b[i])
}

/// Whether every read is of a whole block.
pub open spec fn whole_reads(reads: Seq<HashedRead>) -> bool {
    forall|k: int| 0 <= k < reads.len() ==> (#[trigger] reads[k]).bytes.len() == BLOCK_SIZE
}

impl TrackerView {
    /// The golden image, if there is one, has at least one block; there is a
    /// hash on record for each of its blocks; what is carried over from the
    /// previous export are whole blocks, no more than the cap.
    pub open spec fn wf(self) -> bool {
        &&& match self.golden {
            Some(golden) => {
                &&& golden.len() >= BLOCK_SIZE
                &&& self.hashes.len() == golden.len() / BLOCK_SIZE as nat
            },
            None => self.hashes.len() == 0 && self.prev == Map::<u32, Seq<u8>>::empty(),
        }
        &&& carries_blocks(self.prev, self.hashes.len() as int)
        &&& self.prev.len() <= MAX_PREV_BLOCKS
    }

    /// The XOR base of a block: its content in the previous export if it was
    /// part of it, and its golden content otherwise.
    pub open spec fn base(self, index: u64) -> Seq<u8> {
        if self.prev.contains_key(block_key(index)) {
            self.prev[block_key(index)]
        } else {
            golden_block(self.golden->0, index as int)
        }
    }

    /// How a block that was read is exported.
    pub open spec fn delta(self, read: HashedRead) -> BlockDelta {
        BlockDelta {
            index: block_key(read.index),
            from_prev: self.prev.contains_key(block_key(read.index)),
            bytes: xor_bytes(read.bytes, self.base(read.index)),
        }
    }

    /// The export of a list of reads: the reads that differ from the record,
    /// in order.
    pub open spec fn deltas(self, reads: Seq<HashedRead>) -> Seq<BlockDelta> {
        change::changes(self.hashes, reads).map_values(|r: HashedRead| self.delta(r))
    }

    /// The tracker with the hashes of the reads on record.
    pub open spec fn recorded(self, reads: Seq<HashedRead>) -> TrackerView {
        TrackerView { hashes: change::hashes_after(self.hashes, reads), ..self }
    }

    /// The tracker after the export of a list of reads.
    pub open spec fn exported(self, reads: Seq<HashedRead>) -> TrackerView {
        TrackerView {
            hashes: change::hashes_after(self.hashes, reads),
            golden: self.golden,
            prev: capped(carry(change::changes(self.hashes, reads))),
        }
    }
}

/// Whether `blocks` are whole blocks whose numbers are below `count`.
pub open spec fn carries_blocks(blocks: Map<u32, Seq<u8>>, count: int) -> bool {
    &&& blocks.dom().finite()
    &&& forall|key: u32| #[trigger]
        blocks.contains_key(key) ==> key < count && blocks[key].len() == BLOCK_SIZE
}

/// The content of the exported blocks, by number; of a block exported more than
/// once, the content exported last.
pub open spec fn carry(list: Seq<HashedRead>) -> Map<u32, Seq<u8>>
    decreases list.len(),
{
    if list.len() == 0 {
        Map::empty()
    } else {
        carry(list.drop_last()).insert(block_key(list.last().index), list.last().bytes)
    }
}

/// What is carried over to the next export: all or, above the cap, nothing.
pub open spec fn capped(blocks: Map<u32, Seq<u8>>) -> Map<u32, Seq<u8>> {
    if blocks.len() <= MAX_PREV_BLOCKS {
        blocks
    } else {
        Map::empty()
    }
}

/// Whether some block of an export is relative to the previous checkpoint.
pub open spec fn uses_prev(deltas: Seq<BlockDelta>) -> bool {
    exists|k: int| 0 <= k < deltas.len() && (#[trigger] deltas[k]).from_prev
}

/// Per-VM incremental checkpoint state.
///
/// It borrows the golden image, which has to stay in place for the XOR of
/// later exports.
pub struct DeltaTracker<'a> {
    /// Hash of each block, taken from the golden image at first and updated on
    /// every export, so that only newly changed blocks are exported.
    delta_hashes: Vec<u64>,
    /// The golden image.
    golden_base: Option<&'a [u8]>,
    /// Content of the blocks of the previous export, the XOR bases of the next.
    prev_checkpoint_blocks: HashMap<u32, Vec<u8>>,
}

/// The contents of a block map.
pub open spec fn contents(blocks: Map<u32, Vec<u8>>) -> Map<u32, Seq<u8>> {
    blocks.map_values(|v: Vec<u8>| v@)
}

impl<'a> View for DeltaTracker<'a> {
    type V = TrackerView;

    closed spec fn view(&self) -> TrackerView {
        TrackerView {
            hashes: self.delta_hashes@,
            golden: match self.golden_base {
                Some(golden) => Some(golden@),
                None => None,
            },
            prev: contents(self.prev_checkpoint_blocks@),
        }
    }
}

impl<'a> Default for DeltaTracker<'a> {
    /// A tracker without a golden image.
    fn default() -> (tracker: Self)
        ensures
            tracker@ == (TrackerView {
                hashes: Seq::empty(),
                golden: None,
                prev: Map::empty(),
            }),
            tracker@.wf(),
    {
        let tracker = DeltaTracker {
            delta_hashes: Vec::new(),
            golden_base: None,
            prev_checkpoint_blocks: HashMap::new(),
        };
        assert(tracker@.hashes =~= Seq::empty());
        assert(tracker@.prev =~= Map::empty());
        tracker
    }
}

impl<'a> DeltaTracker<'a> {
    /// Whether a golden image has been installed.
    pub fn is_initialized(&self) -> (initialized: bool)
        requires
            self@.wf(),
        ensures
            initialized <==> self@.golden is Some,
            initialized <==> self@.hashes.len() > 0,
    {
        proof {
            if let Some(golden) = self@.golden {
                lemma_has_block(golden.len() as int);
            }
        }
        self.delta_hashes.len() > 0
    }

    /// Forgets the previous checkpoint, so that the next export is a pure
    /// I-frame. Returns the number of blocks forgotten.
    pub fn clear_prev_blocks(&mut self) -> (cleared: usize)
        requires
            old(self)@.wf(),
        ensures
            cleared == old(self)@.prev.len(),
            final(self)@ == (TrackerView { prev: Map::empty(), ..old(self)@ }),
            final(self)@.wf(),
    {
        let cleared = self.prev_checkpoint_blocks.len();
        assert(self@.prev.dom() =~= self.prev_checkpoint_blocks@.dom());
        self.prev_checkpoint_blocks.clear();
        assert(self@.prev =~= Map::empty());
        cleared
    }

    /// Puts the hashes of the blocks on record; blocks past the golden image
    /// are skipped.
    pub fn record_hashes(&mut self, blocks: &Vec<DirtyBlock<'_>>)
        requires
            old(self)@.wf(),
        ensures
            final(self)@ == old(self)@.recorded(change::reads_of(blocks@)),
            final(self)@.wf(),
    {
        let ghost start = self@;
        let ghost reads = change::reads_of(blocks@);
        let mut i: usize = 0;
        assert(reads.take(0) =~= Seq::empty());
        while i < blocks.len()
            invariant
                i <= blocks.len(),
                reads == change::reads_of(blocks@),
                start.wf(),
                self@ == start.recorded(reads.take(i as int)),
            decreases blocks.len() - i,
        {
            let block = blocks[i];
            proof {
                change::lemma_step(start.hashes, reads, i as int);
            }
            if block.block_idx < self.delta_hashes.len() as u64 {
                let ghost before = self@;
                self.delta_hashes[block.block_idx as usize] = block.hash;
                assert(self@.hashes =~= before.hashes.update(block.block_idx as int, block.hash));
                assert(self@.hashes =~= change::hashes_after(start.hashes, reads.take(i + 1)));
            }
            i = i + 1;
        }
        assert(reads.take(i as int) =~= reads);
        proof {
            change::lemma_hashes_after_len(start.hashes, reads);
        }
    }

    /// Compares the blocks with the hashes on record and puts their hashes on
    /// record. Returns a bitmap, in 64-bit words, of the blocks that differed;
    /// it spans the golden image, and blocks past that are skipped.
    pub fn mark_changes(&mut self, blocks: &Vec<DirtyBlock<'_>>) -> (bitmap: Vec<u64>)
        requires
            old(self)@.wf(),
        ensures
            bitmap.len() == bits::bitmap_words(old(self)@.hashes.len() as int),
            forall|i: int|
                0 <= i < 64 * bitmap.len() ==> (#[trigger] bits::word_bit(bitmap@, i)
                    <==> change::lists_block(
                    change::changes(old(self)@.hashes, change::reads_of(blocks@)),
                    i,
                )),
            final(self)@ == old(self)@.recorded(change::reads_of(blocks@)),
            final(self)@.wf(),
    {
        let ghost start = self@;
        let ghost reads = change::reads_of(blocks@);
        let count = self.delta_hashes.len();
        let words: usize = count / 64 + if count % 64 == 0 { 0 } else { 1 };
        let mut bitmap = bits::clear_words(words);
        let mut i: usize = 0;
        assert(reads.take(0) =~= Seq::empty());
        while i < blocks.len()
            invariant
                i <= blocks.len(),
                count == start.hashes.len(),
                reads == change::reads_of(blocks@),
                start.wf(),
                self@ == start.recorded(reads.take(i as int)),
                bitmap.len() == bits::bitmap_words(count as int),
                forall|j: int|
                    0 <= j < 64 * bitmap.len() ==> (#[trigger] bits::word_bit(bitmap@, j)
                        <==> change::lists_block(
                        change::changes(start.hashes, reads.take(i as int)),
                        j,
                    )),
            decreases blocks.len() - i,
        {
            let block = blocks[i];
            let ghost before = change::changes(start.hashes, reads.take(i as int));
            let ghost after = change::changes(start.hashes, reads.take(i + 1));
            proof {
                change::lemma_step(start.hashes, reads, i as int);
            }
            if block.block_idx < count as u64 {
                let idx: usize = block.block_idx as usize;
                if block.hash != self.delta_hashes[idx] {
                    bits::set_word_bit(&mut bitmap, idx);
                    let ghost hashes = self@.hashes;
                    self.delta_hashes[idx] = block.hash;
                    assert(self@.hashes =~= hashes.update(idx as int, block.hash));
                    assert(after == before.push(reads[i as int]));
                    assert forall|j: int| change::lists_block(after, j) <==> j == idx
                        || change::lists_block(before, j) by {
                        change::lemma_lists_block_push(before, reads[i as int], j);
                    }
                }
            }
            i = i + 1;
        }
        assert(reads.take(i as int) =~= reads);
        proof {
            change::lemma_hashes_after_len(start.hashes, reads);
        }
        bitmap
    }

    /// Finds the blocks that changed since the last call.
    ///
    /// Reads the blocks of the dirty ranges and compares their hashes with
    /// those on record. Returns a bitmap, in 64-bit words, of the blocks that
    /// differed; it spans the golden image. Puts the new hashes on record,
    /// also those of the blocks read before an unmapped address stopped the
    /// walk.
    pub fn dirty_delta_bitmap(&mut self, table: &MemoryRangeTable, mem: &GuestRam<'_>) -> (result:
        Result<Vec<u64>, DeltaError>)
        requires
            old(self)@.wf(),
            mem.wf(),
        ensures
            final(self)@.wf(),
            old(self)@.golden is None ==> result == Err::<Vec<u64>, DeltaError>(
                DeltaError::NotInitialized,
            ) && final(self)@ == old(self)@,
            old(self)@.golden is Some ==> {
                let reads = change::hashed(guest::visited(table@, mem@));
                let found = change::changes(old(self)@.hashes, reads);
                &&& final(self)@ == old(self)@.recorded(reads)
                &&& match guest::fault_address(table@, mem@) {
                    Some(gpa) => {
                        &&& result is Err
                        &&& result->Err_0 is UnmappedAddress
                        &&& result->Err_0->gpa == gpa
                    },
                    None => {
                        &&& result is Ok
                        &&& result->Ok_0.len() == bits::bitmap_words(
                            old(self)@.hashes.len() as int,
                        )
                        &&& forall|i: int|
                            0 <= i < 64 * result->Ok_0.len() ==> (#[trigger] bits::word_bit(
                                result->Ok_0@,
                                i,
                            ) <==> change::lists_block(found, i))
                    },
                }
            },
    {
        if !self.is_initialized() {
            return Err(DeltaError::NotInitialized);
        }
        let scan = guest::scan_blocks(table, mem);
        let dirty = change::hash_blocks(&scan.blocks);
        let bitmap = self.mark_changes(&dirty);
        match scan.fault {
            Some(gpa) => Err(DeltaError::UnmappedAddress { gpa }),
            None => Ok(bitmap),
        }
    }

    /// Installs a golden image with the hashes of its blocks, in place of an
    /// earlier one, and forgets the previous checkpoint.
    pub fn install_golden(&mut self, golden: &'a [u8], hashes: Vec<u64>)
        requires
            golden@.len() >= BLOCK_SIZE,
            hashes@.len() == golden@.len() / BLOCK_SIZE as nat,
        ensures
            final(self)@ == (TrackerView {
                hashes: hashes@,
                golden: Some(golden@),
                prev: Map::empty(),
            }),
            final(self)@.wf(),
    {
        self.golden_base = Some(golden);
        self.delta_hashes = hashes;
        self.prev_checkpoint_blocks.clear();
        assert(self@.prev =~= Map::empty());
    }

    /// Installs a golden image: hashes each of its whole blocks and keeps the
    /// image for XOR. Returns the number of hashed blocks.
    pub fn init_delta_hashes(&mut self, golden: &'a [u8]) -> (result: Result<usize, DeltaError>)
        requires
            old(self)@.wf(),
        ensures
            final(self)@.wf(),
            golden@.len() < BLOCK_SIZE ==> result == Err::<usize, DeltaError>(
                DeltaError::GoldenTooSmall { len: golden@.len() as usize },
            ) && final(self)@ == old(self)@,
            golden@.len() >= BLOCK_SIZE ==> {
                &&& result is Ok
                &&& result->Ok_0 * 4096 <= golden@.len() < result->Ok_0 * 4096 + 4096
                &&& final(self)@.hashes.len() == result->Ok_0
                &&& forall|i: int|
                    0 <= i < result->Ok_0 ==> #[trigger] final(self)@.hashes[i]
                        == trusted::xxh3_64_of(golden@.subrange(i * 4096, i * 4096 + 4096))
                &&& result->Ok_0 == golden@.len() / BLOCK_SIZE as nat
                &&& final(self)@ == (TrackerView {
                    hashes: golden_hashes(golden@),
                    golden: Some(golden@),
                    prev: Map::empty(),
                })
            },
    {
        match golden_block_count(golden.len()) {
            Err(error) => Err(error),
            Ok(count) => {
                let hashes = hash_golden(golden, count);
                self.install_golden(golden, hashes);
                Ok(count)
            },
        }
    }

    /// Puts the hashes of the current content of the marked blocks on record:
    /// one bit per block, the least significant bit of each byte first.
    /// Returns the number of blocks hashed.
    ///
    /// For use after guest memory was restored to golden plus other blocks. The
    /// hashes of golden are stale for those blocks, and a later revert of one
    /// of them to golden content would go unnoticed.
    ///
    /// Marked blocks past the golden image, and those that guest RAM does not
    /// hold, are skipped.
    pub fn rehash_from_guest_bitmap(&mut self, mem: &GuestRam<'_>, bitmap: &[u8]) -> (result:
        Result<usize, DeltaError>)
        requires
            old(self)@.wf(),
            mem.wf(),
        ensures
            final(self)@.wf(),
            old(self)@.golden is None ==> result == Err::<usize, DeltaError>(
                DeltaError::NotInitialized,
            ) && final(self)@ == old(self)@,
            old(self)@.golden is Some ==> {
                let reads = marked_reads(bitmap@, mem@, old(self)@.hashes.len() as int);
                &&& result is Ok
                &&& result->Ok_0 == reads.len()
                &&& reads.len() <= old(self)@.hashes.len()
                &&& final(self)@ == old(self)@.recorded(change::hashed(reads))
                &&& forall|i: int|
                    0 <= i < old(self)@.hashes.len() ==> #[trigger] final(self)@.hashes[i]
                        == if i < 8 * bitmap@.len() && bitmap@[i / 8] & (1u8 << ((i % 8) as u8))
                        != 0 && guest::block_at(mem@, i * 4096) is Some {
                        trusted::xxh3_64_of(guest::block_at(mem@, i * 4096)->0)
                    } else {
                        old(self)@.hashes[i]
                    }
                &&& forall|i: int|
                    0 <= i < old(self)@.hashes.len() ==> #[trigger] final(self)@.hashes[i]
                        == if is_marked(bitmap@, mem@, i) {
                        trusted::xxh3_64_of(guest::block_at(mem@, i * BLOCK_SIZE)->0)
                    } else {
                        old(self)@.hashes[i]
                    }
            },
    {
        let golden: &[u8] = match self.golden_base {
            Some(golden) => golden,
            None => return Err(DeltaError::NotInitialized),
        };
        let golden_len = golden.len();
        let ghost start = self@;
        let count = self.delta_hashes.len();
        assert(count * BLOCK_SIZE <= u64::MAX) by {
            lemma_blocks_inside(golden_len as int);
        }
        let marked = marked_blocks(bitmap, mem, count);
        let dirty = change::hash_blocks(&marked);
        self.record_hashes(&dirty);
        proof {
            assert(change::reads_of(dirty@).len() == dirty@.len());
            lemma_marked_reads(start.hashes, bitmap@, mem@, count as int);
            assert forall|i: int| 0 <= i < count implies (is_marked(bitmap@, mem@, i) <==> i < 8
                * bitmap@.len() && #[trigger] bitmap@[i / 8] & (1u8 << ((i % 8) as u8)) != 0
                && guest::block_at(mem@, i * 4096) is Some) by {
                bits::bitmap_bit_is_tested_by_mask(bitmap@, i);
            }
        }
        Ok(dirty.len())
    }

    /// Exports the blocks whose hashes differ from those on record, each XOR
    /// its base, and puts the hashes on record; blocks past the golden image
    /// are skipped.
    ///
    /// A block that equals its base is exported like any other: an earlier
    /// checkpoint may hold another value of it.
    pub fn export_changes(&mut self, blocks: &Vec<DirtyBlock<'_>>) -> (export: DeltaExport)
        requires
            old(self)@.wf(),
            old(self)@.golden is Some,
            whole_reads(change::reads_of(blocks@)),
        ensures
            export.deltas() == old(self)@.deltas(change::reads_of(blocks@)),
            export.carried() == carry(
                change::changes(old(self)@.hashes, change::reads_of(blocks@)),
            ),
            final(self)@ == old(self)@.recorded(change::reads_of(blocks@)),
            final(self)@.wf(),
    {
        let ghost start = self@;
        let ghost reads = change::reads_of(blocks@);
        let golden: &'a [u8] = match self.golden_base {
            Some(golden) => golden,
            None => &[],
        };
        let golden_len = golden.len();
        let count = self.delta_hashes.len();
        let mut exported: Vec<ExportedBlock> = Vec::new();
        let mut carried: HashMap<u32, Vec<u8>> = HashMap::new();
        let mut i: usize = 0;
        assert(reads.take(0) =~= Seq::empty());
        assert(packed::deltas_of(exported@) =~= start.deltas(reads.take(0)));
        assert(contents(carried@) =~= carry(change::changes(start.hashes, reads.take(0))));
        while i < blocks.len()
            invariant
                i <= blocks.len(),
                count == start.hashes.len(),
                reads == change::reads_of(blocks@),
                whole_reads(reads),
                start.wf(),
                start.golden == Some(golden@),
                golden_len == golden@.len(),
                self@ == start.recorded(reads.take(i as int)),
                packed::deltas_of(exported@) == start.deltas(reads.take(i as int)),
                contents(carried@) == carry(change::changes(start.hashes, reads.take(i as int))),
            decreases blocks.len() - i,
        {
            let block = blocks[i];
            let ghost read = reads[i as int];
            let ghost before = change::changes(start.hashes, reads.take(i as int));
            let ghost after = change::changes(start.hashes, reads.take(i + 1));
            proof {
                change::lemma_step(start.hashes, reads, i as int);
                assert(read == block@);
                assert(read.bytes.len() == BLOCK_SIZE);
            }
            if block.block_idx < count as u64 {
                let idx: usize = block.block_idx as usize;
                if block.hash != self.delta_hashes[idx] {
                    let key: u32 = (block.block_idx % 0x1_0000_0000) as u32;
                    assert(idx * BLOCK_SIZE + BLOCK_SIZE <= golden_len) by {
                        lemma_block_inside(golden_len as int, idx as int);
                    }
                    let (delta, from_prev) = match self.prev_checkpoint_blocks.get(&key) {
                        Some(prev) => {
                            assert(start.prev.contains_key(key) && start.prev[key] == prev@);
                            (xor_block(block.data, prev.as_slice()), true)
                        },
                        None => {
                            let offset: usize = idx * BLOCK_SIZE;
                            (xor_block(block.data, &golden[offset..offset + BLOCK_SIZE]), false)
                        },
                    };
                    let ghost listed = exported@;
                    let ghost held = carried@;
                    exported.push(ExportedBlock { index: key, from_prev, delta });
                    let raw = vstd::slice::slice_to_vec(block.data);
                    carried.insert(key, raw);
                    let ghost hashes = self@.hashes;
                    self.delta_hashes[idx] = block.hash;
                    proof {
                        assert(self@.hashes =~= hashes.update(idx as int, block.hash));
                        assert(exported@.last()@ == start.delta(read));
                        assert(packed::deltas_of(exported@) =~= packed::deltas_of(listed).push(
                            start.delta(read),
                        ));
                        assert(after.map_values(|r: HashedRead| start.delta(r))
                            =~= before.map_values(|r: HashedRead| start.delta(r)).push(
                            start.delta(read),
                        ));
                        assert(contents(carried@) =~= contents(held).insert(key, block.data@));
                        assert(after.drop_last() =~= before);
                    }
                }
            }
            i = i + 1;
        }
        assert(reads.take(i as int) =~= reads);
        proof {
            change::lemma_hashes_after_len(start.hashes, reads);
        }
        DeltaExport { blocks: exported, carry: carried }
    }

    /// Ends an export: hands out the compressed blob and keeps the exported
    /// blocks as XOR bases of the next export, unless there are more than the
    /// cap. If compression failed, the bases stay as they were.
    pub fn finish_export(
        &mut self,
        export: DeltaExport,
        raw_size: u64,
        compressed: Result<Vec<u8>, DeltaError>,
    ) -> (result: Result<DirtyDeltaPacked, DeltaError>)
        requires
            old(self)@.wf(),
            old(self)@.golden is Some,
            carries_blocks(export.carried(), old(self)@.hashes.len() as int),
            export.deltas().len() <= u32::MAX,
        ensures
            final(self)@.wf(),
            match compressed {
                Ok(blob) => {
                    &&& result is Ok
                    &&& result->Ok_0.blob@ == blob@
                    &&& result->Ok_0.block_count == export.deltas().len()
                    &&& result->Ok_0.raw_size == raw_size
                    &&& result->Ok_0.is_p_frame == uses_prev(export.deltas())
                    &&& final(self)@ == (TrackerView {
                        prev: capped(export.carried()),
                        ..old(self)@
                    })
                },
                Err(error) => {
                    &&& result == Err::<DirtyDeltaPacked, DeltaError>(error)
                    &&& final(self)@ == old(self)@
                },
            },
    {
        let blob = match compressed {
            Ok(blob) => blob,
            Err(error) => return Err(error),
        };
        let block_count: u32 = export.blocks.len() as u32;
        let is_p_frame = any_from_prev(&export.blocks);
        assert(export.carried().dom() =~= export.carry@.dom());
        if export.carry.len() <= MAX_PREV_BLOCKS {
            self.prev_checkpoint_blocks = export.carry;
        } else {
            self.prev_checkpoint_blocks.clear();
            assert(self@.prev =~= Map::empty());
        }
        Ok(DirtyDeltaPacked { blob, block_count, raw_size, is_p_frame })
    }

    /// Exports the memory that changed since the last export.
    ///
    /// Reads the blocks of the dirty ranges, keeps those whose hashes differ
    /// from the record, packs each XOR its base into a packed_v2 blob, and
    /// compresses the blob into an LZ4 frame. The base of a block that was
    /// part of the previous export is its content there (P-frame); that of any
    /// other block is its golden content (I-frame).
    ///
    /// If an unmapped address stops the walk, the hashes of the blocks read
    /// before it are on record all the same, and the bases stay as they were.
    ///
    /// The number of blocks exported must fit the 32-bit count of a blob;
    /// [`try_dirty_delta_packed`](Self::try_dirty_delta_packed) tests that.
    ///
    /// Which of the LZ4 frames with the same content the blob is depends on the
    /// machine.
    pub fn dirty_delta_packed(&mut self, table: &MemoryRangeTable, mem: &GuestRam<'_>) -> (result:
        Result<DirtyDeltaPacked, DeltaError>)
        requires
            old(self)@.wf(),
            mem.wf(),
            countable(old(self)@, table@, mem@),
        ensures
            final(self)@.wf(),
            is_export(old(self)@, table@, mem@, result, final(self)@),
    {
        if !self.is_initialized() {
            return Err(DeltaError::NotInitialized);
        }
        let ghost start = self@;
        let scan = guest::scan_blocks(table, mem);
        let dirty = change::hash_blocks(&scan.blocks);
        let ghost reads = change::reads_of(dirty@);
        proof {
            lemma_whole_reads(table@, mem@);
        }
        let export = self.export_changes(&dirty);
        if let Some(gpa) = scan.fault {
            return Err(DeltaError::UnmappedAddress { gpa });
        }
        proof {
            change::lemma_changes_are_reads(start.hashes, reads);
            change::lemma_hashes_after_len(start.hashes, reads);
            lemma_carry(start.hashes, reads);
        }
        let raw = packed::pack(&export.blocks);
        let raw_size: u64 = raw.len() as u64;
        let compressed = compress(&raw);
        self.finish_export(export, raw_size, compressed)
    }

    /// Exports the memory that changed since the last export, if the number of
    /// blocks to export fits the 32-bit count of a blob. If it does not, returns
    /// `None` and leaves the tracker as it was.
    pub fn try_dirty_delta_packed(
        &mut self,
        table: &MemoryRangeTable,
        mem: &GuestRam<'_>,
    ) -> (result: Option<Result<DirtyDeltaPacked, DeltaError>>)
        requires
            old(self)@.wf(),
            mem.wf(),
        ensures
            final(self)@.wf(),
            result is Some <==> countable(old(self)@, table@, mem@),
            result is None ==> final(self)@ == old(self)@,
            result matches Some(outcome) ==> is_export(
                old(self)@,
                table@,
                mem@,
                outcome,
                final(self)@,
            ),
    {
        let ghost reads = change::hashed(guest::visited(table@, mem@));
        proof {
            change::lemma_changes_are_reads(self@.hashes, reads);
            guest::lemma_mapped_before(guest::table_blocks(table@), mem@, 0);
        }
        if guest::has_few_blocks(table) || !self.is_initialized() {
            return Some(self.dirty_delta_packed(table, mem));
        }
        let scan = guest::scan_blocks(table, mem);
        if scan.fault.is_none() {
            let dirty = change::hash_blocks(&scan.blocks);
            if self.count_changes(&dirty) > u32::MAX as usize {
                return None;
            }
        }
        Some(self.dirty_delta_packed(table, mem))
    }

    /// Number of blocks whose hashes differ from those on record, each compared
    /// with the record as the blocks before it leave it.
    fn count_changes(&self, blocks: &Vec<DirtyBlock<'_>>) -> (count: usize)
        ensures
            count == change::changes(self@.hashes, change::reads_of(blocks@)).len(),
    {
        let ghost record = self@.hashes;
        let ghost reads = change::reads_of(blocks@);
        let mut hashes: Vec<u64> = self.delta_hashes.clone();
        assert(hashes@ =~= record);
        let mut count: usize = 0;
        let mut i: usize = 0;
        assert(reads.take(0) =~= Seq::empty());
        while i < blocks.len()
            invariant
                i <= blocks.len(),
                count <= i,
                reads == change::reads_of(blocks@),
                hashes@ == change::hashes_after(record, reads.take(i as int)),
                count == change::changes(record, reads.take(i as int)).len(),
            decreases blocks.len() - i,
        {
            let block = blocks[i];
            proof {
                change::lemma_step(record, reads, i as int);
            }
            if block.block_idx < hashes.len() as u64 {
                let idx: usize = block.block_idx as usize;
                if block.hash != hashes[idx] {
                    hashes[idx] = block.hash;
                    count = count + 1;
                }
            }
            i = i + 1;
        }
        assert(reads.take(i as int) =~= reads);
        count
    }

    /// Number of blocks carried over from the previous export.
    pub fn prev_block_count(&self) -> (count: usize)
        ensures
            count == self@.prev.len(),
    {
        assert(self@.prev.dom() =~= self.prev_checkpoint_blocks@.dom());
        self.prev_checkpoint_blocks.len()
    }
}

/// Whether an export of the dirty ranges fits the 32-bit block count of a blob.
/// That is so of an export that fails.
pub open spec fn countable(
    view: TrackerView,
    table: Seq<guest::MemoryRange>,
    ram: Seq<RamSpan>,
) -> bool {
    view.golden is Some && guest::fault_address(table, ram) is None ==> change::changes(
        view.hashes,
        change::hashed(guest::visited(table, ram)),
    ).len() <= u32::MAX
}

/// What an export of the dirty ranges gives, and what it does to the tracker:
///
/// - without a golden image it is refused, and nothing changes;
/// - if guest RAM holds no block at a dirty address, that address is reported,
///   and the hashes of the blocks read before are on record;
/// - otherwise it gives the packed blocks that differ from the record, and those
///   blocks are carried over.
pub open spec fn is_export(
    before: TrackerView,
    table: Seq<guest::MemoryRange>,
    ram: Seq<RamSpan>,
    result: Result<DirtyDeltaPacked, DeltaError>,
    after: TrackerView,
) -> bool {
    let reads = change::hashed(guest::visited(table, ram));
    let deltas = before.deltas(reads);
    if before.golden is None {
        &&& result == Err::<DirtyDeltaPacked, DeltaError>(DeltaError::NotInitialized)
        &&& after == before
    } else {
        match guest::fault_address(table, ram) {
            Some(gpa) => {
                &&& result is Err
                &&& result->Err_0 is UnmappedAddress
                &&& result->Err_0->gpa == gpa
                &&& after == before.recorded(reads)
            },
            None => {
                &&& result is Ok
                &&& trusted::lz4_frame_content(result->Ok_0.blob@) == Some(
                    packed::packed_v2(deltas),
                )
                &&& result->Ok_0.block_count == deltas.len()
                &&& result->Ok_0.raw_size == packed::packed_v2(deltas).len()
                &&& result->Ok_0.is_p_frame == uses_prev(deltas)
                &&& after == before.exported(reads)
            },
        }
    }
}

/// Compresses a blob into an LZ4 frame.
fn compress(raw: &Vec<u8>) -> (compressed: Result<Vec<u8>, DeltaError>)
    ensures
        compressed is Ok,
        trusted::lz4_frame_content(compressed->Ok_0@) == Some(raw@),
{
    match trusted::lz4_frame_compress(raw.as_slice()) {
        Ok(Ok(frame)) => Ok(frame),
        Ok(Err(_)) => Err(DeltaError::CompressFinish),
        Err(_) => Err(DeltaError::CompressWrite),
    }
}

/// Blocks selected for export, and their content.
pub struct DeltaExport {
    /// The blocks as they are exported.
    blocks: Vec<ExportedBlock>,
    /// Their content, by block number.
    carry: HashMap<u32, Vec<u8>>,
}

impl DeltaExport {
    /// The blocks as they are exported.
    pub closed spec fn deltas(&self) -> Seq<BlockDelta> {
        packed::deltas_of(self.blocks@)
    }

    /// The content of the exported blocks, by number.
    pub closed spec fn carried(&self) -> Map<u32, Seq<u8>> {
        contents(self.carry@)
    }

    /// The blocks as they are exported.
    pub fn blocks(&self) -> (blocks: &Vec<ExportedBlock>)
        ensures
            packed::deltas_of(blocks@) == self.deltas(),
    {
        &self.blocks
    }
}

/// Whether some block is relative to the previous checkpoint.
fn any_from_prev(blocks: &Vec<ExportedBlock>) -> (any: bool)
    ensures
        any == uses_prev(packed::deltas_of(blocks@)),
{
    let ghost deltas = packed::deltas_of(blocks@);
    let mut i: usize = 0;
    while i < blocks.len()
        invariant
            i <= blocks.len(),
            deltas == packed::deltas_of(blocks@),
            forall|k: int| 0 <= k < i ==> !(#[trigger] deltas[k]).from_prev,
        decreases blocks.len() - i,
    {
        if blocks[i].from_prev {
            assert(deltas[i as int].from_prev);
            return true;
        }
        i = i + 1;
    }
    false
}

/// A walk over dirty ranges reads whole blocks.
pub proof fn lemma_whole_reads(table: Seq<guest::MemoryRange>, ram: Seq<RamSpan>)
    requires
        guest::spans_fit(ram),
    ensures
        whole_reads(change::hashed(guest::visited(table, ram))),
{
    let addrs = guest::table_blocks(table);
    guest::lemma_mapped_before(addrs, ram, 0);
    let reads = change::hashed(guest::visited(table, ram));
    assert forall|k: int| 0 <= k < reads.len() implies (#[trigger] reads[k]).bytes.len()
        == BLOCK_SIZE by {
        guest::lemma_block_at_fits(ram, addrs[k]);
    }
}

/// What an export carries over are whole blocks of the golden image.
pub proof fn lemma_carry(record: Seq<u64>, reads: Seq<HashedRead>)
    requires
        whole_reads(reads),
    ensures
        carries_blocks(carry(change::changes(record, reads)), record.len() as int),
    decreases reads.len(),
{
    if reads.len() > 0 {
        let init = reads.drop_last();
        assert(whole_reads(init)) by {
            assert(forall|k: int| 0 <= k < init.len() ==> init[k] == reads[k]);
        }
        lemma_carry(record, init);
        change::lemma_hashes_after_len(record, init);
        let before = change::changes(record, init);
        let after = change::changes(record, reads);
        if change::differs(change::hashes_after(record, init), reads.last()) {
            assert(after.drop_last() =~= before);
            assert(reads[reads.len() - 1].bytes.len() == BLOCK_SIZE);
        }
    }
}

proof fn lemma_blocks_inside(len: int)
    requires
        0 <= len <= usize::MAX,
    ensures
        (len / BLOCK_SIZE as int) * BLOCK_SIZE <= u64::MAX,
{
    assert((len / 4096) * 4096 <= len);
}

/// Recording the marked blocks changes their hashes and no others.
pub proof fn lemma_marked_reads(record: Seq<u64>, bitmap: Seq<u8>, ram: Seq<RamSpan>, count: int)
    requires
        0 <= count <= record.len() <= u64::MAX,
    ensures
        marked_reads(bitmap, ram, count).len() <= count,
        ({
            let after = change::hashes_after(
                record,
                change::hashed(marked_reads(bitmap, ram, count)),
            );
            &&& after.len() == record.len()
            &&& forall|i: int|
                0 <= i < record.len() ==> #[trigger] after[i] == if i < count && is_marked(
                    bitmap,
                    ram,
                    i,
                ) {
                    trusted::xxh3_64_of(guest::block_at(ram, i * BLOCK_SIZE)->0)
                } else {
                    record[i]
                }
        }),
    decreases count,
{
    if count > 0 {
        let i = count - 1;
        lemma_marked_reads(record, bitmap, ram, i);
        let before = change::hashed(marked_reads(bitmap, ram, i));
        let after = change::hashed(marked_reads(bitmap, ram, count));
        if is_marked(bitmap, ram, i) {
            assert(after.drop_last() =~= before);
            assert((i * BLOCK_SIZE) / BLOCK_SIZE as int == i);
            assert(after.last().index == i);
        }
    } else {
        assert(change::hashed(marked_reads(bitmap, ram, count)) =~= Seq::empty());
    }
}

/// The blocks below `count` that the bitmap marks and guest RAM holds, in order.
pub open spec fn marked_reads(bitmap: Seq<u8>, ram: Seq<RamSpan>, count: int) -> Seq<BlockRead>
    decreases count,
{
    if count <= 0 {
        Seq::empty()
    } else {
        let before = marked_reads(bitmap, ram, count - 1);
        if is_marked(bitmap, ram, count - 1) {
            before.push(guest::read_at(ram, (count - 1) * BLOCK_SIZE))
        } else {
            before
        }
    }
}

/// Whether the bitmap marks block `i` and guest RAM holds it.
pub open spec fn is_marked(bitmap: Seq<u8>, ram: Seq<RamSpan>, i: int) -> bool {
    bits::bitmap_bit(bitmap, i) && guest::block_at(ram, i * BLOCK_SIZE) is Some
}

/// Reads the blocks below `count` that the bitmap marks: one bit per block, the
/// least significant bit of each byte first. Blocks that guest RAM does not
/// hold are skipped.
pub fn marked_blocks<'m>(bitmap: &[u8], mem: &GuestRam<'m>, count: usize) -> (blocks: Vec<
    GuestBlock<'m>,
>)
    requires
        mem.wf(),
        count * BLOCK_SIZE <= u64::MAX,
    ensures
        blocks@.len() == marked_reads(bitmap@, mem@, count as int).len(),
        forall|k: int|
            0 <= k < blocks@.len() ==> {
                let read = marked_reads(bitmap@, mem@, count as int)[k];
                &&& (#[trigger] blocks@[k]).block_idx == read.index
                &&& blocks@[k].data@ == read.bytes
            },
        blocks@.map_values(|b: GuestBlock<'m>| b@) == marked_reads(bitmap@, mem@, count as int),
{
    let mut blocks: Vec<GuestBlock<'m>> = Vec::new();
    let mut i: usize = 0;
    assert(blocks@.map_values(|b: GuestBlock<'m>| b@) =~= marked_reads(bitmap@, mem@, 0));
    while i < count
        invariant
            i <= count,
            mem.wf(),
            count * BLOCK_SIZE <= u64::MAX,
            blocks@.map_values(|b: GuestBlock<'m>| b@) == marked_reads(bitmap@, mem@, i as int),
        decreases count - i,
    {
        if i / 8 < bitmap.len() && (bitmap[i / 8] >> ((i % 8) as u8)) & 1 == 1 {
            let gpa: u64 = i as u64 * BLOCK_SIZE as u64;
            if let Some(data) = mem.block(gpa) {
                let ghost listed = blocks@;
                blocks.push(GuestBlock { block_idx: i as u64, data });
                proof {
                    listed.lemma_push_map_commute(
                        |b: GuestBlock<'m>| b@,
                        GuestBlock { block_idx: i as u64, data },
                    );
                }
                assert(gpa as int / BLOCK_SIZE as int == i);
            }
        }
        i = i + 1;
    }
    assert(forall|k: int|
        0 <= k < blocks@.len() ==> blocks@.map_values(|b: GuestBlock<'m>| b@)[k]
            == #[trigger] blocks@[k]@);
    blocks
}

/// Number of whole blocks of a golden image of `len` bytes, which must hold at
/// least one.
pub fn golden_block_count(len: usize) -> (count: Result<usize, DeltaError>)
    ensures
        len < BLOCK_SIZE ==> count == Err::<usize, DeltaError>(DeltaError::GoldenTooSmall { len }),
        len >= BLOCK_SIZE ==> count is Ok && count->Ok_0 == len / BLOCK_SIZE,
{
    if len < BLOCK_SIZE {
        Err(DeltaError::GoldenTooSmall { len })
    } else {
        Ok(len / BLOCK_SIZE)
    }
}

/// Hashes the first `count` blocks of the golden image.
fn hash_golden(golden: &[u8], count: usize) -> (hashes: Vec<u64>)
    requires
        count == golden@.len() / BLOCK_SIZE as nat,
    ensures
        hashes@.len() == count,
        forall|i: int|
            0 <= i < count ==> #[trigger] hashes@[i] == trusted::xxh3_64_of(
                golden@.subrange(i * 4096, i * 4096 + 4096),
            ),
        hashes@ == golden_hashes(golden@),
{
    let len = golden.len();
    let mut hashes: Vec<u64> = Vec::new();
    let mut i: usize = 0;
    while i < count
        invariant
            i <= count,
            len == golden@.len(),
            count == golden@.len() / BLOCK_SIZE as nat,
            hashes.len() == i,
            forall|j: int|
                0 <= j < i ==> hashes[j] == trusted::xxh3_64_of(golden_block(golden@, j)),
        decreases count - i,
    {
        assert(i * BLOCK_SIZE + BLOCK_SIZE <= golden@.len()) by {
            lemma_block_inside(golden@.len() as int, i as int);
        }
        let start: usize = i * BLOCK_SIZE;
        hashes.push(trusted::xxh3_64(&golden[start..start + BLOCK_SIZE]));
        i = i + 1;
    }
    assert(hashes@ =~= golden_hashes(golden@));
    assert(forall|j: int|
        0 <= j < count ==> golden_block(golden@, j) == golden@.subrange(
            j * 4096,
            j * 4096 + 4096,
        ));
    hashes
}

/// The exclusive or of two blocks.
fn xor_block(block: &[u8], base: &[u8]) -> (delta: Vec<u8>)
    requires
        block@.len() == base@.len(),
    ensures
        delta@.len() == block@.len(),
        forall|i: int| 0 <= i < block@.len() ==> #[trigger] delta@[i] == block@[i] ^ base@[i],
        delta@ == xor_bytes(block@, base@),
{
    let mut delta: Vec<u8> = Vec::new();
    let mut i: usize = 0;
    while i < block.len()
        invariant
            i <= block.len(),
            block@.len() == base@.len(),
            delta.len() == i,
            forall|j: int| 0 <= j < i ==> delta[j] == block@[j] ^ base@[j],
        decreases block.len() - i,
    {
        delta.push(block[i] ^ base[i]);
        i = i + 1;
    }
    assert(delta@ =~= xor_bytes(block@, base@));
    delta
}

proof fn lemma_block_inside(len: int, i: int)
    requires
        0 <= i < len / BLOCK_SIZE as int,
    ensures
        i * BLOCK_SIZE + BLOCK_SIZE <= len,
{
    assert(i * 4096 + 4096 <= len);
}

proof fn lemma_has_block(len: int)
    requires
        len >= BLOCK_SIZE,
    ensures
        len / BLOCK_SIZE as int > 0,
{
    assert(len / 4096 > 0);
}

} // verus!
