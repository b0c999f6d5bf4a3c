//! What the checkpoint operations promise together.
//!
//! The contracts of the operations speak of [`TrackerView`] and its spec
//! functions; the laws here are stated over the same functions.

use vstd::prelude::*;

use crate::aligned;
use crate::change;
use crate::change::HashedRead;
use crate::guest;
use crate::guest::{MemoryRange, RamSpan, BLOCK_SIZE};
use crate::packed;
use crate::packed::BlockDelta;
use crate::tracker;
use crate::tracker::TrackerView;
use crate::trusted;

verus! {

/// Whether every hash is that of the content it comes with.
pub open spec fn true_hashes(reads: Seq<HashedRead>) -> bool {
    forall|k: int|
        0 <= k < reads.len() ==> (#[trigger] reads[k]).hash == trusted::xxh3_64_of(reads[k].bytes)
}

/// Content of an exported block, given golden and the memory image of the
/// previous checkpoint.
pub open spec fn restored_block(
    golden: Seq<u8>,
    image: Seq<Seq<u8>>,
    delta: BlockDelta,
) -> Seq<u8> {
    Seq::new(
        delta.bytes.len(),
        |j: int|
            delta.bytes[j] ^ if delta.from_prev {
                image[delta.index as int][j]
            } else {
                golden[delta.index * 4096 + j]
            },
    )
}

/// The memory image of a checkpoint, block by block, given golden, the image of
/// the previous checkpoint, and the export.
pub open spec fn restored(
    golden: Seq<u8>,
    image: Seq<Seq<u8>>,
    deltas: Seq<BlockDelta>,
) -> Seq<Seq<u8>>
    decreases deltas.len(),
{
    if deltas.len() == 0 {
        image
    } else {
        let delta = deltas.last();
        restored(golden, image, deltas.drop_last()).update(
            delta.index as int,
            restored_block(golden, image, delta),
        )
    }
}

/// The golden image, block by block.
pub open spec fn golden_image(golden: Seq<u8>) -> Seq<Seq<u8>> {
    Seq::new(golden.len() / 4096, |i: int| golden.subrange(i * 4096, i * 4096 + 4096))
}

/// Whether a memory image is what a tracker has on record: the hashes are those
/// of its blocks, and what is carried over are blocks of it.
pub open spec fn in_step(view: TrackerView, image: Seq<Seq<u8>>) -> bool {
    &&& view.golden is Some
    &&& image.len() == view.hashes.len()
    &&& forall|i: int|
        0 <= i < image.len() ==> trusted::xxh3_64_of(#[trigger] image[i]) == view.hashes[i]
    &&& holds_carry(image, view.prev)
}

/// Whether the blocks of `prev` are blocks of the image.
pub open spec fn holds_carry(image: Seq<Seq<u8>>, prev: Map<u32, Seq<u8>>) -> bool {
    forall|key: u32| #[trigger] prev.contains_key(key) ==> image[key as int] == prev[key]
}

/// Whether entry `k` of the list is the last one of the block with number `key`.
pub open spec fn is_last_of(list: Seq<HashedRead>, k: int, key: u32) -> bool {
    &&& 0 <= k < list.len()
    &&& tracker::block_key(list[k].index) == key
    &&& forall|j: int|
        k < j < list.len() ==> tracker::block_key((#[trigger] list[j]).index) != key
}

/// Whether `next` is the image with the listed blocks in place: a block that is
/// listed has the content that it is listed with last, any other is as it was.
pub open spec fn overwritten(
    image: Seq<Seq<u8>>,
    list: Seq<HashedRead>,
    next: Seq<Seq<u8>>,
) -> bool {
    &&& next.len() == image.len()
    &&& forall|i: int|
        0 <= i < image.len() && !change::lists_block(list, i) ==> #[trigger] next[i] == image[i]
    &&& forall|k: int, key: u32| #[trigger]
        is_last_of(list, k, key) ==> next[key as int] == list[k].bytes
}

proof fn lemma_overwritten_step(
    image: Seq<Seq<u8>>,
    list: Seq<HashedRead>,
    next: Seq<Seq<u8>>,
    read: HashedRead,
)
    requires
        overwritten(image, list, next),
        read.index < image.len() <= 0x1_0000_0000,
        forall|k: int| 0 <= k < list.len() ==> (#[trigger] list[k]).index < image.len(),
    ensures
        overwritten(image, list.push(read), next.update(read.index as int, read.bytes)),
{
    let longer = list.push(read);
    let n = list.len() as int;
    let after = next.update(read.index as int, read.bytes);
    assert forall|i: int|
        0 <= i < image.len() && !change::lists_block(longer, i) implies #[trigger] after[i]
        == image[i] by {
        change::lemma_lists_block_push(list, read, i);
    }
    assert forall|k: int, key: u32| #[trigger] is_last_of(longer, k, key) implies after[key as int]
        == longer[k].bytes by {
        if k < n {
            assert(longer[n].index == read.index);
            assert(longer[k] == list[k]);
            assert forall|j: int| k < j < list.len() implies tracker::block_key(
                (#[trigger] list[j]).index,
            ) != key by {
                assert(longer[j] == list[j]);
            }
            assert(is_last_of(list, k, key));
            assert(list[k].index < image.len());
        }
    }
}

proof fn lemma_xor_twice(a: Seq<u8>, b: Seq<u8>)
    requires
        a.len() == b.len(),
    ensures
        tracker::xor_bytes(tracker::xor_bytes(a, b), b) == a,
{
    assert forall|i: int| 0 <= i < a.len() implies (a[i] ^ b[i]) ^ b[i] == #[trigger] a[i] by {
        let x = a[i];
        let y = b[i];
        assert((x ^ y) ^ y == x) by (bit_vector);
    }
    assert(tracker::xor_bytes(tracker::xor_bytes(a, b), b) =~= a);
}

/// What the restore side makes of a single exported block is the content that
/// was read.
proof fn lemma_restored_block(view: TrackerView, image: Seq<Seq<u8>>, read: HashedRead)
    requires
        view.wf(),
        view.golden is Some,
        holds_carry(image, view.prev),
        view.hashes.len() <= 0x1_0000_0000,
        read.index < view.hashes.len(),
        read.bytes.len() == BLOCK_SIZE,
    ensures
        view.delta(read).index == read.index,
        restored_block(view.golden->0, image, view.delta(read)) == read.bytes,
{
    let base = view.base(read.index);
    assert(base.len() == BLOCK_SIZE) by {
        let len = view.golden->0.len();
        let i = read.index as int;
        assert(i * 4096 + 4096 <= len);
    }
    lemma_xor_twice(read.bytes, base);
    assert(restored_block(view.golden->0, image, view.delta(read)) =~= tracker::xor_bytes(
        tracker::xor_bytes(read.bytes, base),
        base,
    ));
}

proof fn lemma_export_step(view: TrackerView, image: Seq<Seq<u8>>, reads: Seq<HashedRead>)
    requires
        view.wf(),
        in_step(view, image),
        view.hashes.len() <= 0x1_0000_0000,
        tracker::whole_reads(reads),
        true_hashes(reads),
    ensures
        ({
            let next = restored(view.golden->0, image, view.deltas(reads));
            &&& next.len() == image.len()
            &&& forall|i: int|
                0 <= i < next.len() ==> trusted::xxh3_64_of(#[trigger] next[i])
                    == change::hashes_after(view.hashes, reads)[i]
            &&& holds_carry(next, tracker::carry(change::changes(view.hashes, reads)))
            &&& overwritten(image, change::changes(view.hashes, reads), next)
        }),
    decreases reads.len(),
{
    change::lemma_hashes_after_len(view.hashes, reads);
    if reads.len() == 0 {
        assert(view.deltas(reads) =~= Seq::empty());
    } else {
        let init = reads.drop_last();
        let read = reads.last();
        assert(forall|k: int| 0 <= k < init.len() ==> init[k] == reads[k]);
        assert(reads[reads.len() - 1] == read);
        lemma_export_step(view, image, init);
        tracker::lemma_carry(view.hashes, init);
        change::lemma_hashes_after_len(view.hashes, init);
        change::lemma_changes_are_reads(view.hashes, init);
        let before = change::changes(view.hashes, init);
        let after = change::changes(view.hashes, reads);
        let hashes = change::hashes_after(view.hashes, init);
        if change::differs(hashes, read) {
            assert(after.drop_last() =~= before);
            assert(view.deltas(reads) =~= view.deltas(init).push(view.delta(read)));
            assert(view.deltas(reads).drop_last() =~= view.deltas(init));
            lemma_restored_block(view, image, read);
            lemma_overwritten_step(
                image,
                before,
                restored(view.golden->0, image, view.deltas(init)),
                read,
            );
            assert(before.push(read) =~= after);
        } else if read.index < hashes.len() {
            assert(hashes.update(read.index as int, read.hash) =~= hashes);
        }
    }
}

/// Restoring a chain of checkpoints keeps in step with the exports.
///
/// Take a memory image that is in step with the tracker, export, and apply the
/// blob of the export to the image, block by block, with the bases that its
/// bitmap names: the result is in step with the tracker after the export. The
/// blocks that were exported are as they were read last, the others as they were
/// in the image.
///
/// If the dirty ranges are block-aligned, the exported blocks are as guest
/// memory holds them, and every block that was read has the hash of what was
/// read.
///
/// Block numbers are 32 bits wide in a blob, so the golden image must not have
/// more blocks than that.
pub proof fn export_chain_restores(
    view: TrackerView,
    image: Seq<Seq<u8>>,
    table: Seq<MemoryRange>,
    ram: Seq<RamSpan>,
)
    requires
        view.wf(),
        in_step(view, image),
        view.hashes.len() <= 0x1_0000_0000,
        guest::spans_fit(ram),
        change::changes(view.hashes, change::hashed(guest::visited(table, ram))).len() <= u32::MAX,
    ensures
        ({
            let visited = guest::visited(table, ram);
            let reads = change::hashed(visited);
            let raw = packed::packed_v2(view.deltas(reads));
            let next = restored(view.golden->0, image, packed::unpacked(raw));
            let found = change::changes(view.hashes, reads);
            &&& in_step(view.exported(reads), next)
            &&& overwritten(image, found, next)
            &&& aligned::block_aligned(table) ==> forall|i: int| #[trigger]
                change::lists_block(found, i) ==> guest::block_at(ram, i * BLOCK_SIZE) == Some(
                    next[i],
                )
            &&& aligned::block_aligned(table) ==> forall|k: int|
                0 <= k < visited.len() && (#[trigger] visited[k]).index < next.len()
                    ==> trusted::xxh3_64_of(next[visited[k].index as int]) == trusted::xxh3_64_of(
                    visited[k].bytes,
                )
        }),
{
    let visited = guest::visited(table, ram);
    let reads = change::hashed(visited);
    let deltas = view.deltas(reads);
    tracker::lemma_whole_reads(table, ram);
    change::lemma_changes_are_reads(view.hashes, reads);
    change::lemma_hashes_after_len(view.hashes, reads);
    lemma_whole_deltas(view, reads);
    packed::packed_round_trip(deltas);
    lemma_export_step(view, image, reads);
    let next = restored(view.golden->0, image, deltas);
    if aligned::block_aligned(table) {
        aligned::lemma_aligned_reads_are_consistent(table, ram);
        assert forall|k: int|
            0 <= k < visited.len() && (#[trigger] visited[k]).index < next.len() implies
            trusted::xxh3_64_of(next[visited[k].index as int]) == trusted::xxh3_64_of(
            visited[k].bytes,
        ) by {
            aligned::lemma_recorded_hash(view.hashes, reads, k);
        }
        lemma_aligned_overwritten(view.hashes, image, table, ram, next);
    }
}

/// Overwriting an image with the listed blocks puts what guest memory holds in
/// place, if the dirty ranges are block-aligned.
proof fn lemma_aligned_overwritten(
    record: Seq<u64>,
    image: Seq<Seq<u8>>,
    table: Seq<MemoryRange>,
    ram: Seq<RamSpan>,
    next: Seq<Seq<u8>>,
)
    requires
        aligned::block_aligned(table),
        guest::spans_fit(ram),
        record.len() <= 0x1_0000_0000,
        overwritten(
            image,
            change::changes(record, change::hashed(guest::visited(table, ram))),
            next,
        ),
    ensures
        forall|i: int| #[trigger]
            change::lists_block(
                change::changes(record, change::hashed(guest::visited(table, ram))),
                i,
            ) ==> guest::block_at(ram, i * BLOCK_SIZE) == Some(next[i]),
{
    let reads = change::hashed(guest::visited(table, ram));
    let found = change::changes(record, reads);
    change::lemma_changes_are_reads(record, reads);
    aligned::blocks_are_exported_once(record, table, ram);
    assert forall|i: int| #[trigger] change::lists_block(found, i) implies guest::block_at(
        ram,
        i * BLOCK_SIZE,
    ) == Some(next[i]) by {
        let k = choose|k: int| 0 <= k < found.len() && (#[trigger] found[k]).index == i;
        lemma_listed_content(record, table, ram, k);
        assert(is_last_of(found, k, i as u32)) by {
            assert forall|j: int| k < j < found.len() implies tracker::block_key(
                (#[trigger] found[j]).index,
            ) != i as u32 by {
                assert(found[j].index < record.len());
            }
        }
    }
}

/// A block is listed with the content that guest memory holds at its address, if
/// the dirty ranges are block-aligned.
proof fn lemma_listed_content(
    record: Seq<u64>,
    table: Seq<MemoryRange>,
    ram: Seq<RamSpan>,
    k: int,
)
    requires
        aligned::block_aligned(table),
        guest::spans_fit(ram),
        0 <= k < change::changes(record, change::hashed(guest::visited(table, ram))).len(),
    ensures
        ({
            let found = change::changes(record, change::hashed(guest::visited(table, ram)));
            guest::block_at(ram, found[k].index * BLOCK_SIZE) == Some(found[k].bytes)
        }),
{
    let reads = change::hashed(guest::visited(table, ram));
    let found = change::changes(record, reads);
    change::lemma_changes_are_reads(record, reads);
    assert(reads.contains(found[k]));
    let j = choose|j: int| 0 <= j < reads.len() && reads[j] == found[k];
    aligned::lemma_aligned_read(table, ram, j);
}

/// Whether guest memory holds the image, block by block.
pub open spec fn is_memory(image: Seq<Seq<u8>>, ram: Seq<RamSpan>) -> bool {
    forall|i: int|
        0 <= i < image.len() ==> guest::block_at(ram, i * BLOCK_SIZE) == Some(#[trigger] image[i])
}

/// Guest memory at a checkpoint, and the ranges reported dirty.
pub struct Checkpoint {
    pub table: Seq<MemoryRange>,
    pub ram: Seq<RamSpan>,
}

impl Checkpoint {
    /// What the checkpoint reads.
    pub open spec fn reads(self) -> Seq<HashedRead> {
        change::hashed(guest::visited(self.table, self.ram))
    }

    /// The image that the blob of the checkpoint makes of the previous one.
    pub open spec fn applied(self, view: TrackerView, image: Seq<Seq<u8>>) -> Seq<Seq<u8>> {
        let raw = packed::packed_v2(view.deltas(self.reads()));
        restored(view.golden->0, image, packed::unpacked(raw))
    }

    /// Whether the checkpoint sees all that changed since the image was taken:
    ///
    /// - the dirty ranges are block-aligned and mapped, and the blocks to export
    ///   can be counted;
    /// - every block outside the dirty ranges is as in the image;
    /// - no block has the hash of its content in the image but another content.
    pub open spec fn sees_changes(self, view: TrackerView, image: Seq<Seq<u8>>) -> bool {
        &&& guest::spans_fit(self.ram)
        &&& aligned::block_aligned(self.table)
        &&& guest::fault_address(self.table, self.ram) is None
        &&& tracker::countable(view, self.table, self.ram)
        &&& forall|i: int|
            0 <= i < image.len() && !aligned::is_dirty(self.table, i) ==> guest::block_at(
                self.ram,
                i * BLOCK_SIZE,
            ) == Some(#[trigger] image[i])
        &&& forall|i: int|
            0 <= i < image.len() && trusted::xxh3_64_of(#[trigger] image[i])
                == trusted::xxh3_64_of(guest::block_at(self.ram, i * BLOCK_SIZE)->0) ==> image[i]
                == guest::block_at(self.ram, i * BLOCK_SIZE)->0
    }
}

/// A checkpoint that sees all changes restores guest memory exactly: its blob
/// makes the content of guest memory of the image of the previous checkpoint.
pub proof fn complete_export_restores_memory(
    view: TrackerView,
    image: Seq<Seq<u8>>,
    checkpoint: Checkpoint,
)
    requires
        view.wf(),
        in_step(view, image),
        view.hashes.len() <= 0x1_0000_0000,
        checkpoint.sees_changes(view, image),
    ensures
        checkpoint.applied(view, image).len() == image.len(),
        is_memory(checkpoint.applied(view, image), checkpoint.ram),
{
    let table = checkpoint.table;
    let ram = checkpoint.ram;
    let found = change::changes(view.hashes, checkpoint.reads());
    let next = checkpoint.applied(view, image);
    export_chain_restores(view, image, table, ram);
    assert forall|i: int| 0 <= i < next.len() implies guest::block_at(ram, i * BLOCK_SIZE) == Some(
        #[trigger] next[i],
    ) by {
        aligned::dirty_blocks_are_read(table, ram, i);
        aligned::listed_blocks_are_the_changed_ones(view.hashes, table, ram, i);
        if !change::lists_block(found, i) {
            assert(next[i] == image[i]);
        }
    }
}

/// The tracker after a chain of checkpoints.
pub open spec fn chain_view(view: TrackerView, chain: Seq<Checkpoint>) -> TrackerView
    decreases chain.len(),
{
    if chain.len() == 0 {
        view
    } else {
        chain_view(view, chain.drop_last()).exported(chain.last().reads())
    }
}

/// The image that the blobs of a chain of checkpoints, applied in order, make of
/// the image that the chain starts from.
pub open spec fn chain_image(
    view: TrackerView,
    image: Seq<Seq<u8>>,
    chain: Seq<Checkpoint>,
) -> Seq<Seq<u8>>
    decreases chain.len(),
{
    if chain.len() == 0 {
        image
    } else {
        let init = chain.drop_last();
        chain.last().applied(chain_view(view, init), chain_image(view, image, init))
    }
}

/// Whether each checkpoint of a chain sees all that changed since the one before
/// it, and the first all that changed since the image was taken.
pub open spec fn chain_sees_changes(
    view: TrackerView,
    image: Seq<Seq<u8>>,
    chain: Seq<Checkpoint>,
) -> bool
    decreases chain.len(),
{
    chain.len() > 0 ==> {
        let init = chain.drop_last();
        &&& chain_sees_changes(view, image, init)
        &&& chain.last().sees_changes(chain_view(view, init), chain_image(view, image, init))
    }
}

/// A chain of checkpoints restores guest memory exactly: if each checkpoint sees
/// all changes, the image made of their blobs, in order, is guest memory at the
/// last one.
pub proof fn chain_restores_memory(
    view: TrackerView,
    image: Seq<Seq<u8>>,
    chain: Seq<Checkpoint>,
)
    requires
        view.wf(),
        in_step(view, image),
        view.hashes.len() <= 0x1_0000_0000,
        chain_sees_changes(view, image, chain),
    ensures
        chain_view(view, chain).wf(),
        in_step(chain_view(view, chain), chain_image(view, image, chain)),
        chain_image(view, image, chain).len() == image.len(),
        chain.len() > 0 ==> is_memory(chain_image(view, image, chain), chain.last().ram),
    decreases chain.len(),
{
    if chain.len() > 0 {
        let init = chain.drop_last();
        let last = chain.last();
        let before = chain_view(view, init);
        let former = chain_image(view, image, init);
        chain_restores_memory(view, image, init);
        complete_export_restores_memory(before, former, last);
        export_chain_restores(before, former, last.table, last.ram);
        lemma_exported_wf(before, last.table, last.ram);
    }
}

/// An export leaves a valid tracker.
proof fn lemma_exported_wf(
    view: TrackerView,
    table: Seq<MemoryRange>,
    ram: Seq<RamSpan>,
)
    requires
        view.wf(),
        view.golden is Some,
        guest::spans_fit(ram),
    ensures
        view.exported(change::hashed(guest::visited(table, ram))).wf(),
{
    let reads = change::hashed(guest::visited(table, ram));
    tracker::lemma_whole_reads(table, ram);
    tracker::lemma_carry(view.hashes, reads);
    change::lemma_hashes_after_len(view.hashes, reads);
}

/// A blob can be decoded block by block: it has one entry for each block that
/// differs from the record, in order, with the number of the block and a bit
/// that is set exactly if the block was part of the previous export. The data of
/// an entry XOR the base that the bit names, the content in the previous export
/// or in golden, is the content that was read.
///
/// If the dirty ranges are block-aligned, that is what guest memory holds at the
/// address of the block.
pub proof fn export_decodes(view: TrackerView, table: Seq<MemoryRange>, ram: Seq<RamSpan>)
    requires
        view.wf(),
        view.golden is Some,
        view.hashes.len() <= 0x1_0000_0000,
        guest::spans_fit(ram),
        change::changes(view.hashes, change::hashed(guest::visited(table, ram))).len() <= u32::MAX,
    ensures
        ({
            let reads = change::hashed(guest::visited(table, ram));
            let found = change::changes(view.hashes, reads);
            let blocks = packed::unpacked(packed::packed_v2(view.deltas(reads)));
            &&& blocks.len() == found.len()
            &&& forall|k: int|
                0 <= k < found.len() ==> {
                    let block = #[trigger] blocks[k];
                    let golden = view.golden->0;
                    &&& block.index == found[k].index
                    &&& block.from_prev <==> view.prev.contains_key(block.index)
                    &&& block.bytes.len() == 4096
                    &&& found[k].bytes.len() == 4096
                    &&& forall|j: int|
                        0 <= j < 4096 ==> #[trigger] found[k].bytes[j] == block.bytes[j] ^ (
                        if block.from_prev {
                            view.prev[block.index][j]
                        } else {
                            golden[block.index * 4096 + j]
                        })
                    &&& aligned::block_aligned(table) ==> guest::block_at(
                        ram,
                        block.index * 4096,
                    ) == Some(found[k].bytes)
                }
        }),
{
    let reads = change::hashed(guest::visited(table, ram));
    let found = change::changes(view.hashes, reads);
    let deltas = view.deltas(reads);
    tracker::lemma_whole_reads(table, ram);
    change::lemma_changes_are_reads(view.hashes, reads);
    lemma_whole_deltas(view, reads);
    packed::packed_round_trip(deltas);
    let image = Seq::new(
        view.hashes.len(),
        |i: int| if view.prev.contains_key(i as u32) { view.prev[i as u32] } else { Seq::empty() },
    );
    assert(holds_carry(image, view.prev));
    assert forall|k: int| 0 <= k < found.len() implies {
        let block = #[trigger] deltas[k];
        let golden = view.golden->0;
        &&& block.index == found[k].index
        &&& block.from_prev <==> view.prev.contains_key(block.index)
        &&& block.bytes.len() == 4096
        &&& found[k].bytes.len() == 4096
        &&& forall|j: int|
            0 <= j < 4096 ==> #[trigger] found[k].bytes[j] == block.bytes[j] ^ (
            if block.from_prev {
                view.prev[block.index][j]
            } else {
                golden[block.index * 4096 + j]
            })
        &&& aligned::block_aligned(table) ==> guest::block_at(ram, block.index * 4096) == Some(
            found[k].bytes,
        )
    } by {
        assert(reads.contains(found[k]));
        let j = choose|j: int| 0 <= j < reads.len() && reads[j] == found[k];
        assert(reads[j].bytes.len() == BLOCK_SIZE);
        lemma_restored_block(view, image, found[k]);
        let block = deltas[k];
        assert(block == view.delta(found[k]));
        assert(forall|j: int|
            0 <= j < 4096 ==> #[trigger] found[k].bytes[j] == restored_block(
                view.golden->0,
                image,
                block,
            )[j]);
        if aligned::block_aligned(table) {
            lemma_listed_content(view.hashes, table, ram, k);
        }
    }
}

/// A fresh golden image is in step with the tracker that it was installed in.
pub proof fn golden_is_in_step(golden: Seq<u8>)
    ensures
        in_step(
            TrackerView {
                hashes: tracker::golden_hashes(golden),
                golden: Some(golden),
                prev: Map::empty(),
            },
            golden_image(golden),
        ),
{
}

/// Forgetting the previous checkpoint keeps an image in step.
pub proof fn clearing_keeps_step(view: TrackerView, image: Seq<Seq<u8>>)
    requires
        in_step(view, image),
    ensures
        in_step(TrackerView { prev: Map::empty(), ..view }, image),
{
}

proof fn lemma_whole_deltas(view: TrackerView, reads: Seq<HashedRead>)
    requires
        tracker::whole_reads(reads),
    ensures
        packed::whole_blocks(view.deltas(reads)),
{
    change::lemma_changes_are_reads(view.hashes, reads);
    let found = change::changes(view.hashes, reads);
    assert forall|k: int| 0 <= k < found.len() implies (#[trigger] view.deltas(
        reads,
    )[k]).bytes.len() == BLOCK_SIZE by {
        assert(reads.contains(found[k]));
        let j = choose|j: int| 0 <= j < reads.len() && reads[j] == found[k];
        assert(reads[j].bytes.len() == BLOCK_SIZE);
    }
}

/// A page that is reported dirty but whose content hash is unchanged is
/// skipped: if that is so of all of them, nothing is exported, no bit is set,
/// and the record stays as it is.
pub proof fn unchanged_blocks_are_skipped(view: TrackerView, reads: Seq<HashedRead>)
    requires
        forall|k: int|
            0 <= k < reads.len() ==> !change::differs(view.hashes, #[trigger] reads[k]),
    ensures
        change::changes(view.hashes, reads).len() == 0,
        view.deltas(reads).len() == 0,
        change::hashes_after(view.hashes, reads) == view.hashes,
    decreases reads.len(),
{
    if reads.len() > 0 {
        let init = reads.drop_last();
        assert(forall|k: int| 0 <= k < init.len() ==> init[k] == reads[k]);
        unchanged_blocks_are_skipped(view, init);
        let read = reads.last();
        assert(read == reads[reads.len() - 1]);
        if read.index < view.hashes.len() {
            assert(view.hashes.update(read.index as int, read.hash) =~= view.hashes);
        }
    }
}

/// Only newly changed blocks are exported: a second export, or bitmap, of the
/// same memory right after the first is empty, if the dirty ranges are
/// block-aligned.
pub proof fn second_export_is_empty(
    view: TrackerView,
    table: Seq<MemoryRange>,
    ram: Seq<RamSpan>,
)
    requires
        aligned::block_aligned(table),
        guest::spans_fit(ram),
    ensures
        ({
            let reads = change::hashed(guest::visited(table, ram));
            &&& view.exported(reads).deltas(reads).len() == 0
            &&& change::changes(view.recorded(reads).hashes, reads).len() == 0
        }),
{
    let reads = change::hashed(guest::visited(table, ram));
    aligned::lemma_aligned_reads_are_consistent(table, ram);
    change::lemma_hashes_after_len(view.hashes, reads);
    assert forall|k: int| 0 <= k < reads.len() implies !change::differs(
        view.exported(reads).hashes,
        #[trigger] reads[k],
    ) by {
        if reads[k].index < view.hashes.len() {
            aligned::lemma_recorded_hash(view.hashes, reads, k);
        }
    }
    unchanged_blocks_are_skipped(view.exported(reads), reads);
}

/// Dedup loses nothing: a read that differs from the record as it stands when
/// the read is made is exported. That is so even if the block equals its base
/// and its delta is all zero: an earlier checkpoint may hold another value.
pub proof fn changed_block_is_exported(view: TrackerView, reads: Seq<HashedRead>, k: int)
    requires
        0 <= k < reads.len(),
        change::differs(view.recorded(reads.take(k)).hashes, reads[k]),
    ensures
        change::changes(view.hashes, reads).contains(reads[k]),
        view.deltas(reads).contains(view.delta(reads[k])),
        reads[k].bytes == view.base(reads[k].index) ==> forall|i: int|
            0 <= i < reads[k].bytes.len() ==> #[trigger] view.delta(reads[k]).bytes[i] == 0u8,
{
    lemma_change_is_listed(view.hashes, reads, k);
    let found = change::changes(view.hashes, reads);
    let j = choose|j: int| 0 <= j < found.len() && found[j] == reads[k];
    assert(view.deltas(reads)[j] == view.delta(reads[k]));
    if reads[k].bytes == view.base(reads[k].index) {
        assert forall|i: int| 0 <= i < reads[k].bytes.len() implies #[trigger] view.delta(
            reads[k],
        ).bytes[i] == 0u8 by {
            let x = reads[k].bytes[i];
            assert(x ^ x == 0u8) by (bit_vector);
        }
    }
}

proof fn lemma_change_is_listed(record: Seq<u64>, reads: Seq<HashedRead>, k: int)
    requires
        0 <= k < reads.len(),
        change::differs(change::hashes_after(record, reads.take(k)), reads[k]),
    ensures
        change::changes(record, reads).contains(reads[k]),
    decreases reads.len(),
{
    let init = reads.drop_last();
    let found = change::changes(record, reads);
    if k == reads.len() - 1 {
        assert(init =~= reads.take(k));
        assert(found.last() == reads[k]);
    } else {
        assert(init.take(k) =~= reads.take(k));
        lemma_change_is_listed(record, init, k);
        let before = change::changes(record, init);
        let j = choose|j: int| 0 <= j < before.len() && before[j] == reads[k];
        assert(found[j] == reads[k]);
    }
}

/// A block that was rehashed from guest memory and is golden again when it is
/// next read is exported, unless the two contents share a hash.
pub proof fn revert_after_rehash_is_exported(
    view: TrackerView,
    bitmap: Seq<u8>,
    ram: Seq<RamSpan>,
    reads: Seq<HashedRead>,
    k: int,
)
    requires
        view.wf(),
        view.golden is Some,
        view.hashes.len() <= u64::MAX,
        true_hashes(reads),
        0 <= k < reads.len(),
        reads[k].index < view.hashes.len(),
        reads[k].bytes == tracker::golden_block(view.golden->0, reads[k].index as int),
        forall|j: int| 0 <= j < k ==> (#[trigger] reads[j]).index != reads[k].index,
        tracker::is_marked(bitmap, ram, reads[k].index as int),
        trusted::xxh3_64_of(reads[k].bytes) != trusted::xxh3_64_of(
            guest::block_at(ram, reads[k].index * BLOCK_SIZE)->0,
        ),
    ensures
        ({
            let marked = tracker::marked_reads(bitmap, ram, view.hashes.len() as int);
            let rehashed = view.recorded(change::hashed(marked));
            rehashed.deltas(reads).contains(rehashed.delta(reads[k]))
        }),
{
    let count = view.hashes.len() as int;
    let i = reads[k].index as int;
    let marked = tracker::marked_reads(bitmap, ram, count);
    let rehashed = view.recorded(change::hashed(marked));
    tracker::lemma_marked_reads(view.hashes, bitmap, ram, count);
    assert(rehashed.hashes[i] == trusted::xxh3_64_of(guest::block_at(ram, i * BLOCK_SIZE)->0));
    let earlier = reads.take(k);
    assert(forall|j: int| 0 <= j < earlier.len() ==> earlier[j] == reads[j]);
    aligned::lemma_unread_keeps_hash(rehashed.hashes, earlier, i);
    change::lemma_hashes_after_len(rehashed.hashes, earlier);
    changed_block_is_exported(rehashed, reads, k);
}

/// An image in which the marked blocks are as guest memory holds them.
pub open spec fn overlaid(
    image: Seq<Seq<u8>>,
    bitmap: Seq<u8>,
    ram: Seq<RamSpan>,
) -> Seq<Seq<u8>> {
    Seq::new(
        image.len(),
        |i: int|
            if tracker::is_marked(bitmap, ram, i) {
                guest::block_at(ram, i * BLOCK_SIZE)->0
            } else {
                image[i]
            },
    )
}

/// Rehashing brings a tracker in step with guest memory that was restored to an
/// image plus the marked blocks.
pub proof fn rehash_brings_in_step(
    view: TrackerView,
    image: Seq<Seq<u8>>,
    bitmap: Seq<u8>,
    ram: Seq<RamSpan>,
)
    requires
        view.wf(),
        in_step(view, image),
        view.hashes.len() <= u64::MAX,
        view.prev == Map::<u32, Seq<u8>>::empty(),
    ensures
        ({
            let marked = tracker::marked_reads(bitmap, ram, view.hashes.len() as int);
            in_step(view.recorded(change::hashed(marked)), overlaid(image, bitmap, ram))
        }),
{
    tracker::lemma_marked_reads(view.hashes, bitmap, ram, view.hashes.len() as int);
}

/// Without a previous checkpoint to refer to, an export is a pure I-frame. That
/// is so of the first export, of the one after the carry-over was cleared, and
/// of the one after an export above the cap.
pub proof fn export_without_prev_is_i_frame(view: TrackerView, reads: Seq<HashedRead>)
    requires
        view.prev == Map::<u32, Seq<u8>>::empty(),
    ensures
        !tracker::uses_prev(view.deltas(reads)),
{
}

/// An export above the cap carries nothing over.
pub proof fn export_above_cap_carries_nothing(view: TrackerView, reads: Seq<HashedRead>)
    requires
        tracker::carry(change::changes(view.hashes, reads)).len() > tracker::MAX_PREV_BLOCKS,
    ensures
        view.exported(reads).prev == Map::<u32, Seq<u8>>::empty(),
{
}

/// What is carried over from an export are its blocks, and the content of each
/// as it was exported last.
pub proof fn carry_is_what_was_exported(view: TrackerView, reads: Seq<HashedRead>, key: u32)
    requires
        view.exported(reads).prev.contains_key(key),
    ensures
        exists|k: int| #[trigger]
            is_last_of(change::changes(view.hashes, reads), k, key) && change::changes(
                view.hashes,
                reads,
            )[k].bytes == view.exported(reads).prev[key],
{
    lemma_carry_last(change::changes(view.hashes, reads), key);
}

proof fn lemma_carry_last(list: Seq<HashedRead>, key: u32)
    requires
        tracker::carry(list).contains_key(key),
    ensures
        exists|k: int| #[trigger]
            is_last_of(list, k, key) && list[k].bytes == tracker::carry(list)[key],
    decreases list.len(),
{
    let init = list.drop_last();
    let n = list.len() - 1;
    if tracker::block_key(list.last().index) == key {
        assert(is_last_of(list, n, key));
    } else {
        lemma_carry_last(init, key);
        let k = choose|k: int| #[trigger]
            is_last_of(init, k, key) && init[k].bytes == tracker::carry(init)[key];
        assert forall|j: int| k < j < list.len() implies tracker::block_key(
            (#[trigger] list[j]).index,
        ) != key by {
            if j < n {
                assert(init[j] == list[j]);
            }
        }
        assert(is_last_of(list, k, key));
    }
}

/// The bitmap and the export agree: a block has its bit set exactly if it is
/// part of the export.
pub proof fn bitmap_agrees_with_export(view: TrackerView, reads: Seq<HashedRead>, i: int)
    requires
        view.hashes.len() <= 0x1_0000_0000,
    ensures
        change::lists_block(change::changes(view.hashes, reads), i) <==> exists|k: int|
            0 <= k < view.deltas(reads).len() && (#[trigger] view.deltas(reads)[k]).index == i,
{
    let found = change::changes(view.hashes, reads);
    let deltas = view.deltas(reads);
    change::lemma_changes_are_reads(view.hashes, reads);
    assert(forall|k: int|
        0 <= k < found.len() ==> (#[trigger] deltas[k]).index == found[k].index);
    if change::lists_block(found, i) {
        let k = choose|k: int| 0 <= k < found.len() && (#[trigger] found[k]).index == i;
        assert(deltas[k].index == i);
    }
    if exists|k: int| 0 <= k < deltas.len() && (#[trigger] deltas[k]).index == i {
        let k = choose|k: int| 0 <= k < deltas.len() && (#[trigger] deltas[k]).index == i;
        assert(found[k].index == i);
    }
}

} // verus!
