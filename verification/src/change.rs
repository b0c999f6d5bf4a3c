//! Which of the blocks that were read differ from what is on record.

use vstd::prelude::*;

use crate::guest::{BlockRead, GuestBlock};
use crate::trusted::xxh3_64;

verus! {

/// A block that was read, with the hash of its content.
pub struct HashedRead {
    pub index: u64,
    pub hash: u64,
    pub bytes: Seq<u8>,
}

/// A dirty block with the hash of its content.
#[derive(Clone, Copy, Debug)]
pub struct DirtyBlock<'a> {
    /// Number of the block: its guest address divided by the block size.
    pub block_idx: u64,
    /// Hash of the content.
    pub hash: u64,
    /// Content of the block.
    pub data: &'a [u8],
}

impl<'a> View for DirtyBlock<'a> {
    type V = HashedRead;

    open spec fn view(&self) -> HashedRead {
        HashedRead { index: self.block_idx, hash: self.hash, bytes: self.data@ }
    }
}

/// The views of a list of dirty blocks.
pub open spec fn reads_of<'a>(blocks: Seq<DirtyBlock<'a>>) -> Seq<HashedRead> {
    blocks.map_values(|b: DirtyBlock<'a>| b@)
}

/// The reads, each with the hash of its content.
pub open spec fn hashed(reads: Seq<BlockRead>) -> Seq<HashedRead> {
    reads.map_values(
        |r: BlockRead|
            HashedRead {
                index: r.index,
                hash: crate::trusted::xxh3_64_of(r.bytes),
                bytes: r.bytes,
            },
    )
}

/// The hashes on record after the reads: for each block that was read, the hash
/// that was read last; for the others, the hash on record before. Reads of
/// blocks that are not on record leave no trace.
pub open spec fn hashes_after(record: Seq<u64>, reads: Seq<HashedRead>) -> Seq<u64>
    decreases reads.len(),
{
    if reads.len() == 0 {
        record
    } else {
        let before = hashes_after(record, reads.drop_last());
        let read = reads.last();
        if read.index < before.len() {
            before.update(read.index as int, read.hash)
        } else {
            before
        }
    }
}

/// Whether a read differs from the record: its block is on record, with
/// another hash.
pub open spec fn differs(record: Seq<u64>, read: HashedRead) -> bool {
    read.index < record.len() && read.hash != record[read.index as int]
}

/// The reads that differ from the record as it stands when they are made, in
/// order.
pub open spec fn changes(record: Seq<u64>, reads: Seq<HashedRead>) -> Seq<HashedRead>
    decreases reads.len(),
{
    if reads.len() == 0 {
        Seq::empty()
    } else {
        let before = changes(record, reads.drop_last());
        if differs(hashes_after(record, reads.drop_last()), reads.last()) {
            before.push(reads.last())
        } else {
            before
        }
    }
}

/// Whether one of the reads in `list` is a read of block `i`.
pub open spec fn lists_block(list: Seq<HashedRead>, i: int) -> bool {
    exists|k: int| 0 <= k < list.len() && (#[trigger] list[k]).index == i
}

/// Hashes each block.
pub fn hash_blocks<'a>(blocks: &Vec<GuestBlock<'a>>) -> (dirty: Vec<DirtyBlock<'a>>)
    ensures
        dirty@.len() == blocks@.len(),
        forall|k: int|
            0 <= k < blocks@.len() ==> {
                &&& (#[trigger] dirty@[k]).block_idx == blocks@[k].block_idx
                &&& dirty@[k].data@ == blocks@[k].data@
                &&& dirty@[k].hash == crate::trusted::xxh3_64_of(blocks@[k].data@)
            },
        reads_of(dirty@) == hashed(blocks@.map_values(|b: GuestBlock<'a>| b@)),
{
    let mut dirty: Vec<DirtyBlock<'a>> = Vec::new();
    let mut i: usize = 0;
    while i < blocks.len()
        invariant
            i <= blocks.len(),
            dirty.len() == i,
            forall|j: int|
                0 <= j < i ==> {
                    &&& (#[trigger] dirty[j]).block_idx == blocks[j].block_idx
                    &&& dirty[j].data@ == blocks[j].data@
                    &&& dirty[j].hash == crate::trusted::xxh3_64_of(blocks[j].data@)
                },
        decreases blocks.len() - i,
    {
        let block = blocks[i];
        dirty.push(
            DirtyBlock { block_idx: block.block_idx, hash: xxh3_64(block.data), data: block.data },
        );
        i = i + 1;
    }
    assert(reads_of(dirty@) =~= hashed(blocks@.map_values(|b: GuestBlock<'a>| b@)));
    dirty
}

/// Reads do not change how many blocks are on record.
pub proof fn lemma_hashes_after_len(record: Seq<u64>, reads: Seq<HashedRead>)
    ensures
        hashes_after(record, reads).len() == record.len(),
    decreases reads.len(),
{
    if reads.len() > 0 {
        lemma_hashes_after_len(record, reads.drop_last());
    }
}

/// What read `i` does to the record and to the list of changes.
pub proof fn lemma_step(record: Seq<u64>, reads: Seq<HashedRead>, i: int)
    requires
        0 <= i < reads.len(),
    ensures
        hashes_after(record, reads.take(i)).len() == record.len(),
        differs(hashes_after(record, reads.take(i)), reads[i]) ==> {
            &&& hashes_after(record, reads.take(i + 1)) == hashes_after(
                record,
                reads.take(i),
            ).update(reads[i].index as int, reads[i].hash)
            &&& changes(record, reads.take(i + 1)) == changes(record, reads.take(i)).push(reads[i])
        },
        !differs(hashes_after(record, reads.take(i)), reads[i]) ==> {
            &&& hashes_after(record, reads.take(i + 1)) == hashes_after(record, reads.take(i))
            &&& changes(record, reads.take(i + 1)) == changes(record, reads.take(i))
        },
{
    assert(reads.take(i + 1).drop_last() =~= reads.take(i));
    lemma_hashes_after_len(record, reads.take(i));
    let before = hashes_after(record, reads.take(i));
    if reads[i].index < record.len() && !differs(before, reads[i]) {
        assert(before.update(reads[i].index as int, reads[i].hash) =~= before);
    }
}

/// Every change is one of the reads, of a block on record.
pub proof fn lemma_changes_are_reads(record: Seq<u64>, reads: Seq<HashedRead>)
    ensures
        forall|k: int|
            0 <= k < changes(record, reads).len() ==> {
                &&& (#[trigger] changes(record, reads)[k]).index < record.len()
                &&& reads.contains(changes(record, reads)[k])
            },
        changes(record, reads).len() <= reads.len(),
    decreases reads.len(),
{
    if reads.len() > 0 {
        let init = reads.drop_last();
        lemma_changes_are_reads(record, init);
        lemma_hashes_after_len(record, init);
        assert forall|k: int| 0 <= k < changes(record, reads).len() implies {
            &&& (#[trigger] changes(record, reads)[k]).index < record.len()
            &&& reads.contains(changes(record, reads)[k])
        } by {
            if k < changes(record, init).len() {
                let read = changes(record, init)[k];
                assert(init.contains(read));
                let j = choose|j: int| 0 <= j < init.len() && init[j] == read;
                assert(reads[j] == read);
            } else {
                assert(reads[reads.len() - 1] == changes(record, reads)[k]);
            }
        }
    }
}

/// What one more read does to which blocks are listed.
pub proof fn lemma_lists_block_push(list: Seq<HashedRead>, read: HashedRead, i: int)
    ensures
        lists_block(list.push(read), i) <==> read.index == i || lists_block(list, i),
{
    let longer = list.push(read);
    if lists_block(list, i) {
        let k = choose|k: int| 0 <= k < list.len() && (#[trigger] list[k]).index == i;
        assert(longer[k] == list[k]);
    }
    if read.index == i {
        assert(longer[list.len() as int].index == i);
    }
    if lists_block(longer, i) {
        let k = choose|k: int| 0 <= k < longer.len() && (#[trigger] longer[k]).index == i;
        if k < list.len() {
            assert(list[k].index == i);
        }
    }
}

/// The reads of a list of dirty blocks are the blocks themselves, in order.
pub proof fn reads_are_the_blocks<'a>(blocks: Seq<DirtyBlock<'a>>)
    ensures
        reads_of(blocks).len() == blocks.len(),
        forall|k: int|
            0 <= k < blocks.len() ==> {
                &&& (#[trigger] reads_of(blocks)[k]).index == blocks[k].block_idx
                &&& reads_of(blocks)[k].hash == blocks[k].hash
                &&& reads_of(blocks)[k].bytes == blocks[k].data@
            },
{
}

/// Hashing keeps the reads and their order, and hashes the whole content of each.
pub proof fn hashing_keeps_reads(reads: Seq<BlockRead>)
    ensures
        hashed(reads).len() == reads.len(),
        forall|k: int|
            0 <= k < reads.len() ==> {
                &&& (#[trigger] hashed(reads)[k]).index == reads[k].index
                &&& hashed(reads)[k].bytes == reads[k].bytes
                &&& hashed(reads)[k].hash == crate::trusted::xxh3_64_of(reads[k].bytes)
            },
{
}

/// A block is listed exactly if some entry has its number.
pub proof fn listed_means_an_entry(list: Seq<HashedRead>, i: int)
    ensures
        lists_block(list, i) <==> exists|k: int|
            0 <= k < list.len() && (#[trigger] list[k]).index == i,
{
}

/// Whether read `k` is the last one of block `i` among the first `n` reads.
pub open spec fn is_last_read(reads: Seq<HashedRead>, n: int, k: int, i: int) -> bool {
    &&& 0 <= k < n <= reads.len()
    &&& reads[k].index == i
    &&& forall|j: int| k < j < n ==> (#[trigger] reads[j]).index != i
}

/// Whether none of the first `n` reads is a read of block `i`.
pub open spec fn is_unread(reads: Seq<HashedRead>, n: int, i: int) -> bool {
    forall|j: int| 0 <= j < n ==> (#[trigger] reads[j]).index != i
}

/// What is on record after reads: as many hashes as before; for a block that was
/// read, the hash of its last read; for any other, the hash from before.
pub proof fn record_holds_last_reads(record: Seq<u64>, reads: Seq<HashedRead>, i: int)
    requires
        0 <= i < record.len(),
    ensures
        hashes_after(record, reads).len() == record.len(),
        is_unread(reads, reads.len() as int, i) ==> hashes_after(record, reads)[i] == record[i],
        forall|k: int| #[trigger]
            is_last_read(reads, reads.len() as int, k, i) ==> hashes_after(record, reads)[i]
                == reads[k].hash,
    decreases reads.len(),
{
    lemma_hashes_after_len(record, reads);
    if reads.len() > 0 {
        let init = reads.drop_last();
        let n = reads.len() - 1;
        record_holds_last_reads(record, init, i);
        lemma_hashes_after_len(record, init);
        assert(reads[n] == reads.last());
        assert(forall|j: int| 0 <= j < n ==> init[j] == reads[j]);
        assert forall|k: int| #[trigger] is_last_read(reads, n + 1, k, i) implies hashes_after(
            record,
            reads,
        )[i] == reads[k].hash by {
            if k < n {
                assert(is_last_read(init, n, k, i));
            }
        }
    }
}

/// Whether read `k` is a change: its block is on record, and the hash that is
/// known of the block when the read is made, from the last read before it or else
/// from the record, is another one.
pub open spec fn is_change(record: Seq<u64>, reads: Seq<HashedRead>, k: int) -> bool {
    let i = reads[k].index as int;
    &&& i < record.len()
    &&& is_unread(reads, k, i) ==> record[i] != reads[k].hash
    &&& forall|j: int| #[trigger]
        is_last_read(reads, k, j, i) ==> reads[j].hash != reads[k].hash
}

/// Whether `list` is made of the reads at the positions `places`, which are in
/// order and are those of the changes.
pub open spec fn picks_changes(
    record: Seq<u64>,
    reads: Seq<HashedRead>,
    list: Seq<HashedRead>,
    places: Seq<int>,
) -> bool {
    &&& places.len() == list.len()
    &&& forall|j: int, k: int| 0 <= j < k < places.len() ==> places[j] < places[k]
    &&& forall|j: int|
        0 <= j < places.len() ==> {
            &&& 0 <= #[trigger] places[j] < reads.len()
            &&& list[j] == reads[places[j]]
        }
    &&& forall|k: int|
        0 <= k < reads.len() ==> (#[trigger] is_change(record, reads, k) <==> places.contains(k))
}

proof fn lemma_last_read_before(reads: Seq<HashedRead>, n: int, i: int)
    requires
        0 <= n <= reads.len(),
    ensures
        is_unread(reads, n, i) || exists|k: int| #[trigger] is_last_read(reads, n, k, i),
    decreases n,
{
    if n > 0 {
        lemma_last_read_before(reads, n - 1, i);
        if reads[n - 1].index == i {
            assert(is_last_read(reads, n, n - 1, i));
        } else if !is_unread(reads, n - 1, i) {
            let k = choose|k: int| #[trigger] is_last_read(reads, n - 1, k, i);
            assert(is_last_read(reads, n, k, i));
        }
    }
}

proof fn lemma_is_change(record: Seq<u64>, reads: Seq<HashedRead>, k: int)
    requires
        0 <= k < reads.len(),
    ensures
        is_change(record, reads, k) <==> differs(hashes_after(record, reads.take(k)), reads[k]),
{
    let init = reads.take(k);
    let i = reads[k].index as int;
    lemma_hashes_after_len(record, init);
    assert(forall|j: int| 0 <= j < k ==> init[j] == reads[j]);
    if i < record.len() {
        record_holds_last_reads(record, init, i);
        lemma_last_read_before(reads, k, i);
        if is_unread(reads, k, i) {
            assert(is_unread(init, k, i));
        } else {
            let j = choose|j: int| #[trigger] is_last_read(reads, k, j, i);
            assert(is_last_read(init, k, j, i));
            assert forall|m: int| #[trigger] is_last_read(reads, k, m, i) implies m == j by {}
        }
    }
}

/// The list of changes is made of exactly those reads that are changes, in
/// order.
pub proof fn changes_are_the_differing_reads(record: Seq<u64>, reads: Seq<HashedRead>)
    ensures
        exists|places: Seq<int>| #[trigger]
            picks_changes(record, reads, changes(record, reads), places),
    decreases reads.len(),
{
    if reads.len() == 0 {
        assert(picks_changes(record, reads, changes(record, reads), Seq::empty()));
    } else {
        let init = reads.drop_last();
        let n = reads.len() - 1;
        let before = changes(record, init);
        let after = changes(record, reads);
        changes_are_the_differing_reads(record, init);
        let places = choose|places: Seq<int>| #[trigger]
            picks_changes(record, init, before, places);
        assert(init =~= reads.take(n));
        assert(reads[n] == reads.last());
        lemma_is_change(record, reads, n);
        assert forall|k: int| 0 <= k < n implies (#[trigger] is_change(record, reads, k)
            <==> is_change(record, init, k)) by {
            lemma_is_change(record, reads, k);
            lemma_is_change(record, init, k);
            assert(init.take(k) =~= reads.take(k));
        }
        let longer = if is_change(record, reads, n) {
            places.push(n)
        } else {
            places
        };
        assert(forall|j: int| 0 <= j < places.len() ==> 0 <= #[trigger] places[j] < n);
        assert forall|k: int| 0 <= k < reads.len() implies (#[trigger] is_change(record, reads, k)
            <==> longer.contains(k)) by {
            if k < n {
                if places.contains(k) {
                    let j = choose|j: int| 0 <= j < places.len() && places[j] == k;
                    assert(longer[j] == k);
                }
                if longer.contains(k) {
                    let j = choose|j: int| 0 <= j < longer.len() && longer[j] == k;
                    assert(places[j] == k);
                }
            } else {
                if is_change(record, reads, n) {
                    assert(longer[places.len() as int] == n);
                }
            }
        }
        assert(picks_changes(record, reads, after, longer));
    }
}

/// The hash of the last read of a block is on record afterwards.
pub proof fn last_read_is_on_record(record: Seq<u64>, reads: Seq<HashedRead>, k: int)
    requires
        0 <= k < reads.len(),
        reads[k].index < record.len(),
        forall|j: int| k < j < reads.len() ==> (#[trigger] reads[j]).index != reads[k].index,
    ensures
        hashes_after(record, reads).len() == record.len(),
        hashes_after(record, reads)[reads[k].index as int] == reads[k].hash,
{
    record_holds_last_reads(record, reads, reads[k].index as int);
    assert(is_last_read(reads, reads.len() as int, k, reads[k].index as int));
}

/// The hash of a block that was not read stays on record.
pub proof fn unread_block_stays_on_record(record: Seq<u64>, reads: Seq<HashedRead>, i: int)
    requires
        0 <= i < record.len(),
        forall|j: int| 0 <= j < reads.len() ==> (#[trigger] reads[j]).index != i,
    ensures
        hashes_after(record, reads).len() == record.len(),
        hashes_after(record, reads)[i] == record[i],
{
    record_holds_last_reads(record, reads, i);
}

/// Without reads there are no changes.
pub proof fn no_reads_no_changes(record: Seq<u64>)
    ensures
        changes(record, Seq::empty()).len() == 0,
        hashes_after(record, Seq::empty()) == record,
{
}

/// What the first read of a block adds to the changes: itself, if its hash is not
/// the one on record, and nothing otherwise.
pub proof fn first_read_is_compared_with_record(
    record: Seq<u64>,
    reads: Seq<HashedRead>,
    read: HashedRead,
)
    requires
        read.index < record.len(),
        forall|j: int| 0 <= j < reads.len() ==> (#[trigger] reads[j]).index != read.index,
    ensures
        changes(record, reads.push(read)) == if read.hash != record[read.index as int] {
            changes(record, reads).push(read)
        } else {
            changes(record, reads)
        },
{
    assert(reads.push(read).drop_last() =~= reads);
    unread_block_stays_on_record(record, reads, read.index as int);
}

/// What a later read of a block adds to the changes: itself, if its hash is not
/// that of the read before, and nothing otherwise.
pub proof fn later_read_is_compared_with_read_before(
    record: Seq<u64>,
    reads: Seq<HashedRead>,
    read: HashedRead,
    k: int,
)
    requires
        read.index < record.len(),
        0 <= k < reads.len(),
        reads[k].index == read.index,
        forall|j: int| k < j < reads.len() ==> (#[trigger] reads[j]).index != read.index,
    ensures
        changes(record, reads.push(read)) == if read.hash != reads[k].hash {
            changes(record, reads).push(read)
        } else {
            changes(record, reads)
        },
{
    assert(reads.push(read).drop_last() =~= reads);
    last_read_is_on_record(record, reads, k);
}

/// A read of a block that is not on record adds nothing.
pub proof fn read_past_record_is_skipped(
    record: Seq<u64>,
    reads: Seq<HashedRead>,
    read: HashedRead,
)
    requires
        read.index >= record.len(),
    ensures
        changes(record, reads.push(read)) == changes(record, reads),
        hashes_after(record, reads.push(read)) == hashes_after(record, reads),
{
    assert(reads.push(read).drop_last() =~= reads);
    lemma_hashes_after_len(record, reads);
}

} // verus!
