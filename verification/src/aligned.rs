//! What more holds of dirty ranges that start at the start of a block.
//!
//! Such ranges name a block by one address only, so all reads of it agree, and
//! it is exported at most once.

use vstd::prelude::*;

use crate::bits;
use crate::change;
use crate::change::HashedRead;
use crate::guest;
use crate::guest::{MemoryRange, RamSpan, BLOCK_SIZE};
use crate::tracker;
use crate::tracker::TrackerView;
use crate::trusted;

verus! {

/// Whether every dirty range starts at the start of a block.
pub open spec fn block_aligned(table: Seq<MemoryRange>) -> bool {
    forall|i: int| 0 <= i < table.len() ==> (#[trigger] table[i]).gpa % BLOCK_SIZE as u64 == 0
}

/// Whether all reads of one block found the same.
pub open spec fn consistent(reads: Seq<HashedRead>) -> bool {
    forall|j: int, k: int|
        0 <= j < reads.len() && 0 <= k < reads.len() && (#[trigger] reads[j]).index == (
        #[trigger] reads[k]).index ==> reads[j] == reads[k]
}

/// Whether no block is listed twice.
pub open spec fn distinct(list: Seq<HashedRead>) -> bool {
    forall|j: int, k: int|
        0 <= j < k < list.len() ==> (#[trigger] list[j]).index != (#[trigger] list[k]).index
}

/// Whether a walk over the dirty ranges reads block `i`.
pub open spec fn is_read(table: Seq<MemoryRange>, ram: Seq<RamSpan>, i: int) -> bool {
    exists|k: int|
        0 <= k < guest::visited(table, ram).len() && (#[trigger] guest::visited(table, ram)[k]).index
            == i
}

/// Whether block `i` lies inside the range.
pub open spec fn covers(range: MemoryRange, i: int) -> bool {
    range.gpa <= i * BLOCK_SIZE && i * BLOCK_SIZE + BLOCK_SIZE <= range.gpa + range.length
}

/// Whether block `i` lies inside one of the dirty ranges.
pub open spec fn is_dirty(table: Seq<MemoryRange>, i: int) -> bool {
    exists|j: int| 0 <= j < table.len() && #[trigger] covers(table[j], i)
}

proof fn lemma_table_blocks_aligned(table: Seq<MemoryRange>)
    requires
        block_aligned(table),
    ensures
        forall|k: int|
            0 <= k < guest::table_blocks(table).len() ==> (#[trigger] guest::table_blocks(
                table,
            )[k]) % BLOCK_SIZE as int == 0,
    decreases table.len(),
{
    if table.len() > 0 {
        let init = table.drop_last();
        assert(forall|i: int| 0 <= i < init.len() ==> init[i] == table[i]);
        lemma_table_blocks_aligned(init);
        let last = table.last();
        assert(last == table[table.len() - 1]);
        let n = guest::table_blocks(init).len();
        assert forall|k: int| 0 <= k < guest::table_blocks(table).len() implies (
        #[trigger] guest::table_blocks(table)[k]) % BLOCK_SIZE as int == 0 by {
            if k < n {
                assert(guest::table_blocks(table)[k] == guest::table_blocks(init)[k]);
            } else {
                assert(guest::table_blocks(table)[k] == last.gpa + (k - n) * BLOCK_SIZE);
                assert((last.gpa + (k - n) * 4096) % 4096 == 0);
            }
        }
    }
}

/// The number of a block that was read gives its address.
pub proof fn lemma_aligned_read(table: Seq<MemoryRange>, ram: Seq<RamSpan>, k: int)
    requires
        block_aligned(table),
        guest::spans_fit(ram),
        0 <= k < guest::visited(table, ram).len(),
    ensures
        guest::table_blocks(table)[k] == guest::visited(table, ram)[k].index * BLOCK_SIZE,
        guest::block_at(ram, guest::visited(table, ram)[k].index * BLOCK_SIZE) == Some(
            guest::visited(table, ram)[k].bytes,
        ),
{
    let addrs = guest::table_blocks(table);
    lemma_table_blocks_aligned(table);
    guest::lemma_mapped_before(addrs, ram, 0);
    guest::lemma_block_at_fits(ram, addrs[k]);
    assert(addrs[k] % 4096 == 0);
    assert(addrs[k] / 4096 * 4096 == addrs[k]);
}

/// All reads of one block find the same if the dirty ranges are block-aligned.
pub proof fn lemma_aligned_reads_are_consistent(table: Seq<MemoryRange>, ram: Seq<RamSpan>)
    requires
        block_aligned(table),
        guest::spans_fit(ram),
    ensures
        consistent(change::hashed(guest::visited(table, ram))),
{
    let reads = change::hashed(guest::visited(table, ram));
    assert forall|j: int, k: int|
        0 <= j < reads.len() && 0 <= k < reads.len() && (#[trigger] reads[j]).index == (
        #[trigger] reads[k]).index implies reads[j] == reads[k] by {
        lemma_aligned_read(table, ram, j);
        lemma_aligned_read(table, ram, k);
    }
}

/// If all reads of one block found the same, its hash is on record afterwards.
pub proof fn lemma_recorded_hash(record: Seq<u64>, reads: Seq<HashedRead>, k: int)
    requires
        consistent(reads),
        0 <= k < reads.len(),
        reads[k].index < record.len(),
    ensures
        change::hashes_after(record, reads)[reads[k].index as int] == reads[k].hash,
    decreases reads.len(),
{
    let init = reads.drop_last();
    change::lemma_hashes_after_len(record, init);
    assert(reads[reads.len() - 1] == reads.last());
    if k < reads.len() - 1 {
        assert(forall|j: int| 0 <= j < init.len() ==> init[j] == reads[j]);
        lemma_recorded_hash(record, init, k);
    }
}

/// The hash of a block that was not read stays on record.
pub proof fn lemma_unread_keeps_hash(record: Seq<u64>, reads: Seq<HashedRead>, i: int)
    requires
        0 <= i < record.len(),
        forall|j: int| 0 <= j < reads.len() ==> (#[trigger] reads[j]).index != i,
    ensures
        change::hashes_after(record, reads)[i] == record[i],
    decreases reads.len(),
{
    if reads.len() > 0 {
        let init = reads.drop_last();
        assert(forall|j: int| 0 <= j < init.len() ==> init[j] == reads[j]);
        assert(reads[reads.len() - 1] == reads.last());
        lemma_unread_keeps_hash(record, init, i);
        change::lemma_hashes_after_len(record, init);
    }
}

/// If all reads of one block found the same, the changes are the reads that
/// differ from the record before all of them, each block once.
proof fn lemma_changes_of_consistent_reads(record: Seq<u64>, reads: Seq<HashedRead>)
    requires
        consistent(reads),
    ensures
        distinct(change::changes(record, reads)),
        forall|j: int|
            0 <= j < reads.len() ==> (change::differs(record, #[trigger] reads[j])
                <==> change::lists_block(change::changes(record, reads), reads[j].index as int)),
    decreases reads.len(),
{
    if reads.len() > 0 {
        let init = reads.drop_last();
        let n = reads.len() - 1;
        let read = reads.last();
        let before = change::changes(record, init);
        let after = change::changes(record, reads);
        let hashes = change::hashes_after(record, init);
        assert(forall|j: int| 0 <= j < init.len() ==> init[j] == reads[j]);
        assert(read == reads[n]);
        lemma_changes_of_consistent_reads(record, init);
        change::lemma_changes_are_reads(record, init);
        change::lemma_hashes_after_len(record, init);
        if exists|j: int| 0 <= j < n && (#[trigger] reads[j]).index == read.index {
            let j = choose|j: int| 0 <= j < n && (#[trigger] reads[j]).index == read.index;
            assert(reads[j] == read && init[j] == read);
            if read.index < record.len() {
                lemma_recorded_hash(record, init, j);
            }
            assert(after == before);
        } else {
            assert(!change::lists_block(before, read.index as int)) by {
                if change::lists_block(before, read.index as int) {
                    let k = choose|k: int|
                        0 <= k < before.len() && (#[trigger] before[k]).index == read.index;
                    assert(init.contains(before[k]));
                    let j = choose|j: int| 0 <= j < init.len() && init[j] == before[k];
                    assert(reads[j].index == read.index);
                }
            }
            if read.index < record.len() {
                lemma_unread_keeps_hash(record, init, read.index as int);
            }
            if change::differs(hashes, read) {
                assert(after == before.push(read));
                assert forall|i: int| change::lists_block(after, i) <==> i == read.index
                    || change::lists_block(before, i) by {
                    change::lemma_lists_block_push(before, read, i);
                }
                assert forall|j: int, k: int| 0 <= j < k < after.len() implies (
                #[trigger] after[j]).index != (#[trigger] after[k]).index by {
                    assert(after[j] == before[j]);
                    if k < before.len() {
                        assert(after[k] == before[k]);
                    }
                }
            }
        }
    }
}

proof fn lemma_table_blocks_contain(table: Seq<MemoryRange>, i: int)
    requires
        block_aligned(table),
    ensures
        is_dirty(table, i) <==> guest::table_blocks(table).contains(i * BLOCK_SIZE),
    decreases table.len(),
{
    if table.len() > 0 {
        let init = table.drop_last();
        let last = table.last();
        let n = table.len() - 1;
        let before = guest::table_blocks(init);
        let after = guest::table_blocks(table);
        let blocks = guest::range_blocks(last);
        assert(forall|j: int| 0 <= j < init.len() ==> init[j] == table[j]);
        assert(last == table[n]);
        lemma_table_blocks_contain(init, i);
        assert(is_dirty(table, i) <==> is_dirty(init, i) || covers(last, i)) by {
            if is_dirty(init, i) {
                let j = choose|j: int| 0 <= j < init.len() && #[trigger] covers(init[j], i);
                assert(covers(table[j], i));
            }
            if covers(last, i) {
                assert(covers(table[n], i));
            }
            if is_dirty(table, i) {
                let j = choose|j: int| 0 <= j < table.len() && #[trigger] covers(table[j], i);
                if j < n {
                    assert(covers(init[j], i));
                }
            }
        }
        let a = i * BLOCK_SIZE;
        assert(covers(last, i) <==> blocks.contains(a)) by {
            if covers(last, i) {
                let k = (a - last.gpa) / 4096;
                assert(last.gpa % 4096 == 0);
                assert(a == i * 4096);
                assert(last.gpa + k * 4096 == a);
                assert(0 <= k < last.length / 4096);
                assert(blocks[k] == a);
            }
            if blocks.contains(a) {
                let k = choose|k: int| 0 <= k < blocks.len() && blocks[k] == a;
                assert(a == last.gpa + k * 4096);
                assert(k * 4096 + 4096 <= last.length);
            }
        }
        assert(after.contains(a) <==> before.contains(a) || blocks.contains(a)) by {
            if before.contains(a) {
                let k = choose|k: int| 0 <= k < before.len() && before[k] == a;
                assert(after[k] == a);
            }
            if blocks.contains(a) {
                let k = choose|k: int| 0 <= k < blocks.len() && blocks[k] == a;
                assert(after[before.len() + k] == a);
            }
            if after.contains(a) {
                let k = choose|k: int| 0 <= k < after.len() && after[k] == a;
                if k < before.len() {
                    assert(before[k] == a);
                } else {
                    assert(blocks[k - before.len()] == a);
                }
            }
        }
    }
}

/// A walk that no unmapped address stops reads exactly the blocks inside the
/// dirty ranges.
pub proof fn dirty_blocks_are_read(table: Seq<MemoryRange>, ram: Seq<RamSpan>, i: int)
    requires
        block_aligned(table),
        guest::spans_fit(ram),
        guest::fault_address(table, ram) is None,
    ensures
        is_read(table, ram, i) <==> is_dirty(table, i),
        is_dirty(table, i) ==> guest::block_at(ram, i * BLOCK_SIZE) is Some,
{
    let addrs = guest::table_blocks(table);
    let visited = guest::visited(table, ram);
    lemma_table_blocks_contain(table, i);
    guest::lemma_mapped_before(addrs, ram, 0);
    assert(visited.len() == addrs.len());
    if is_read(table, ram, i) {
        let k = choose|k: int| 0 <= k < visited.len() && (#[trigger] visited[k]).index == i;
        lemma_aligned_read(table, ram, k);
        assert(addrs[k] == i * BLOCK_SIZE);
    }
    if is_dirty(table, i) {
        let k = choose|k: int| 0 <= k < addrs.len() && addrs[k] == i * BLOCK_SIZE;
        lemma_aligned_read(table, ram, k);
        assert(visited[k].index == i);
    }
}

/// Which blocks an export, or a bitmap, lists: those that were read and whose
/// current content has another hash than the one on record. If no unmapped
/// address stops the walk, those that were read are those inside the dirty
/// ranges.
pub proof fn listed_blocks_are_the_changed_ones(
    record: Seq<u64>,
    table: Seq<MemoryRange>,
    ram: Seq<RamSpan>,
    i: int,
)
    requires
        block_aligned(table),
        guest::spans_fit(ram),
    ensures
        change::lists_block(
            change::changes(record, change::hashed(guest::visited(table, ram))),
            i,
        ) <==> {
            &&& 0 <= i < record.len()
            &&& is_read(table, ram, i)
            &&& trusted::xxh3_64_of(guest::block_at(ram, i * BLOCK_SIZE)->0) != record[i]
        },
        guest::fault_address(table, ram) is None ==> (change::lists_block(
            change::changes(record, change::hashed(guest::visited(table, ram))),
            i,
        ) <==> {
            &&& 0 <= i < record.len()
            &&& is_dirty(table, i)
            &&& trusted::xxh3_64_of(guest::block_at(ram, i * BLOCK_SIZE)->0) != record[i]
        }),
{
    let visited = guest::visited(table, ram);
    let reads = change::hashed(visited);
    let found = change::changes(record, reads);
    lemma_aligned_reads_are_consistent(table, ram);
    lemma_changes_of_consistent_reads(record, reads);
    change::lemma_changes_are_reads(record, reads);
    if is_read(table, ram, i) {
        let k = choose|k: int| 0 <= k < visited.len() && (#[trigger] visited[k]).index == i;
        lemma_aligned_read(table, ram, k);
        assert(change::differs(record, reads[k]) <==> change::lists_block(found, i));
    }
    if change::lists_block(found, i) {
        let k = choose|k: int| 0 <= k < found.len() && (#[trigger] found[k]).index == i;
        assert(reads.contains(found[k]));
        let j = choose|j: int| 0 <= j < reads.len() && reads[j] == found[k];
        assert(visited[j].index == i);
    }
    if guest::fault_address(table, ram) is None {
        dirty_blocks_are_read(table, ram, i);
    }
}

/// What is on record after an export or a bitmap: the hash of the current
/// content of each block that was read, and the hash from before of any other.
pub proof fn recorded_hashes_are_current(
    record: Seq<u64>,
    table: Seq<MemoryRange>,
    ram: Seq<RamSpan>,
    i: int,
)
    requires
        block_aligned(table),
        guest::spans_fit(ram),
        0 <= i < record.len(),
    ensures
        change::hashes_after(record, change::hashed(guest::visited(table, ram)))[i] == if is_read(
            table,
            ram,
            i,
        ) {
            trusted::xxh3_64_of(guest::block_at(ram, i * BLOCK_SIZE)->0)
        } else {
            record[i]
        },
{
    let visited = guest::visited(table, ram);
    let reads = change::hashed(visited);
    if is_read(table, ram, i) {
        let k = choose|k: int| 0 <= k < visited.len() && (#[trigger] visited[k]).index == i;
        lemma_aligned_reads_are_consistent(table, ram);
        lemma_aligned_read(table, ram, k);
        assert(reads[k].index == i);
        lemma_recorded_hash(record, reads, k);
    } else {
        assert forall|j: int| 0 <= j < reads.len() implies (#[trigger] reads[j]).index != i by {
            assert(visited[j].index != i);
        }
        lemma_unread_keeps_hash(record, reads, i);
    }
}

/// No block is exported twice.
pub proof fn blocks_are_exported_once(
    record: Seq<u64>,
    table: Seq<MemoryRange>,
    ram: Seq<RamSpan>,
)
    requires
        block_aligned(table),
        guest::spans_fit(ram),
    ensures
        distinct(change::changes(record, change::hashed(guest::visited(table, ram)))),
{
    lemma_aligned_reads_are_consistent(table, ram);
    lemma_changes_of_consistent_reads(record, change::hashed(guest::visited(table, ram)));
}

/// Number of set bits among the first `n` bits of a bitmap of words.
pub open spec fn set_bits(words: Seq<u64>, n: int) -> nat
    decreases n,
{
    if n <= 0 {
        0
    } else {
        set_bits(words, n - 1) + if bits::word_bit(words, n - 1) {
            1nat
        } else {
            0nat
        }
    }
}

/// Number of blocks below `n` that are listed.
spec fn listed_below(list: Seq<HashedRead>, n: int) -> nat
    decreases n,
{
    if n <= 0 {
        0
    } else {
        listed_below(list, n - 1) + if change::lists_block(list, n - 1) {
            1nat
        } else {
            0nat
        }
    }
}

proof fn lemma_listed_below_push(list: Seq<HashedRead>, read: HashedRead, n: int)
    requires
        !change::lists_block(list, read.index as int),
        0 <= n,
    ensures
        listed_below(list.push(read), n) == listed_below(list, n) + if read.index < n {
            1nat
        } else {
            0nat
        },
    decreases n,
{
    if n > 0 {
        lemma_listed_below_push(list, read, n - 1);
        change::lemma_lists_block_push(list, read, n - 1);
    }
}

proof fn lemma_listed_below_none(list: Seq<HashedRead>, n: int)
    requires
        list.len() == 0,
    ensures
        listed_below(list, n) == 0,
    decreases n,
{
    if n > 0 {
        lemma_listed_below_none(list, n - 1);
    }
}

/// A list without repetition lists as many blocks as it is long.
proof fn lemma_listed_below(list: Seq<HashedRead>, n: int)
    requires
        distinct(list),
        0 <= n,
        forall|k: int| 0 <= k < list.len() ==> (#[trigger] list[k]).index < n,
    ensures
        listed_below(list, n) == list.len(),
    decreases list.len(),
{
    if list.len() == 0 {
        lemma_listed_below_none(list, n);
    } else {
        let init = list.drop_last();
        let last = list.last();
        assert(last == list[list.len() - 1]);
        assert(forall|k: int| 0 <= k < init.len() ==> init[k] == list[k]);
        lemma_listed_below(init, n);
        assert(list =~= init.push(last));
        lemma_listed_below_push(init, last, n);
    }
}

proof fn lemma_set_bits(words: Seq<u64>, list: Seq<HashedRead>, n: int)
    requires
        n <= 64 * words.len(),
        forall|i: int|
            0 <= i < 64 * words.len() ==> (#[trigger] bits::word_bit(words, i)
                <==> change::lists_block(list, i)),
    ensures
        set_bits(words, n) == listed_below(list, n),
    decreases n,
{
    if n > 0 {
        lemma_set_bits(words, list, n - 1);
    }
}

/// A bitmap of the changed blocks has as many bits set as an export of them has
/// blocks. The two leave the same hashes on record; the bitmap leaves what is
/// carried over as it is.
pub proof fn bitmap_counts_exported_blocks(
    view: TrackerView,
    table: Seq<MemoryRange>,
    ram: Seq<RamSpan>,
    words: Seq<u64>,
)
    requires
        block_aligned(table),
        guest::spans_fit(ram),
        words.len() == bits::bitmap_words(view.hashes.len() as int),
        forall|i: int|
            0 <= i < 64 * words.len() ==> (#[trigger] bits::word_bit(words, i)
                <==> change::lists_block(
                change::changes(view.hashes, change::hashed(guest::visited(table, ram))),
                i,
            )),
    ensures
        ({
            let reads = change::hashed(guest::visited(table, ram));
            &&& set_bits(words, 64 * words.len() as int) == view.deltas(reads).len()
            &&& view.recorded(reads).hashes == view.exported(reads).hashes
            &&& view.recorded(reads).golden == view.exported(reads).golden
            &&& view.recorded(reads).prev == view.prev
        }),
{
    let reads = change::hashed(guest::visited(table, ram));
    let found = change::changes(view.hashes, reads);
    let n = 64 * words.len() as int;
    blocks_are_exported_once(view.hashes, table, ram);
    change::lemma_changes_are_reads(view.hashes, reads);
    lemma_listed_below(found, n);
    lemma_set_bits(words, found, n);
}

proof fn lemma_carry_len(list: Seq<HashedRead>)
    requires
        distinct(list),
        forall|k: int| 0 <= k < list.len() ==> (#[trigger] list[k]).index <= u32::MAX,
    ensures
        tracker::carry(list).dom().finite(),
        tracker::carry(list).len() == list.len(),
        forall|key: u32| #[trigger]
            tracker::carry(list).contains_key(key) ==> change::lists_block(list, key as int),
    decreases list.len(),
{
    if list.len() > 0 {
        let init = list.drop_last();
        let last = list.last();
        assert(last == list[list.len() - 1]);
        assert(forall|k: int| 0 <= k < init.len() ==> init[k] == list[k]);
        lemma_carry_len(init);
        assert(list =~= init.push(last));
        let key = tracker::block_key(last.index);
        assert(key == last.index);
        assert(!tracker::carry(init).contains_key(key));
        assert forall|other: u32| #[trigger]
            tracker::carry(list).contains_key(other) implies change::lists_block(
            list,
            other as int,
        ) by {
            change::lemma_lists_block_push(init, last, other as int);
        }
    }
}

/// An export carries over exactly as many blocks as it has or, if those are more
/// than the cap, none.
pub proof fn carry_counts_exported_blocks(
    view: TrackerView,
    table: Seq<MemoryRange>,
    ram: Seq<RamSpan>,
)
    requires
        block_aligned(table),
        guest::spans_fit(ram),
        view.hashes.len() <= 0x1_0000_0000,
    ensures
        ({
            let reads = change::hashed(guest::visited(table, ram));
            let count = view.deltas(reads).len();
            &&& tracker::carry(change::changes(view.hashes, reads)).len() == count
            &&& view.exported(reads).prev.len() == if count <= tracker::MAX_PREV_BLOCKS {
                count
            } else {
                0
            }
        }),
{
    let reads = change::hashed(guest::visited(table, ram));
    let found = change::changes(view.hashes, reads);
    blocks_are_exported_once(view.hashes, table, ram);
    change::lemma_changes_are_reads(view.hashes, reads);
    lemma_carry_len(found);
}

} // verus!
