//! What the checkpoint operations do, byte by byte.
//!
//! The laws here speak of bytes at offsets of the golden image, of a region of
//! guest memory or of a blob, of bits picked out by masks, and of numbers. They
//! say what the notions that the contracts are written in amount to.

use vstd::prelude::*;

use crate::aligned;
use crate::bits;
use crate::change;
use crate::change::HashedRead;
use crate::guest;
use crate::guest::{MemoryRange, RamSpan};
use crate::laws;
use crate::packed;
use crate::tracker;
use crate::tracker::{DeltaError, DirtyDeltaPacked, TrackerView};
use crate::trusted;

verus! {

/// The exclusive or of two blocks is taken byte by byte with the bitwise
/// operator, and taking it twice gives the first block back.
pub proof fn xor_is_bitwise(a: Seq<u8>, b: Seq<u8>, j: int)
    requires
        0 <= j < a.len(),
        a.len() == b.len(),
    ensures
        tracker::xor_bytes(a, b).len() == a.len(),
        tracker::xor_bytes(a, b)[j] == a[j] ^ b[j],
        tracker::xor_bytes(a, b)[j] ^ b[j] == a[j],
{
    let x = a[j];
    let y = b[j];
    assert((x ^ y) ^ y == x) by (bit_vector);
}

/// Block `i` of the golden image is made of the 4096 bytes from offset
/// `i * 4096` on.
pub proof fn golden_blocks_follow_each_other(golden: Seq<u8>, i: int, j: int)
    requires
        0 <= i,
        i * 4096 + 4096 <= golden.len(),
        0 <= j < 4096,
    ensures
        tracker::golden_block(golden, i).len() == 4096,
        tracker::golden_block(golden, i)[j] == golden[i * 4096 + j],
{
}

/// There is a hash for every whole block of the golden image, and it is that of
/// the 4096 bytes from offset `i * 4096` on.
pub proof fn golden_hashes_go_by_offset(golden: Seq<u8>)
    ensures
        ({
            let hashes = tracker::golden_hashes(golden);
            &&& hashes.len() * 4096 <= golden.len() < hashes.len() * 4096 + 4096
            &&& forall|i: int|
                0 <= i < hashes.len() ==> #[trigger] hashes[i] == trusted::xxh3_64_of(
                    golden.subrange(i * 4096, i * 4096 + 4096),
                )
        }),
{
}

/// A block is exported under the lower 32 bits of its number, which are the
/// number itself where it fits.
pub proof fn block_key_is_lower_half(index: u64)
    ensures
        index <= 0xffff_ffff ==> tracker::block_key(index) == index,
        (index - tracker::block_key(index)) % 0x1_0000_0000 == 0,
{
}

/// How the blocks that differ from the record are exported: each in its order,
/// under the lower 32 bits of its number, marked exactly if it was part of the previous export, and
/// byte by byte XOR its content there or else the golden byte at the same guest
/// address.
pub proof fn entries_are_xored(view: TrackerView, reads: Seq<HashedRead>, k: int)
    requires
        view.wf(),
        view.golden is Some,
        0 <= k < change::changes(view.hashes, reads).len(),
        change::changes(view.hashes, reads)[k].bytes.len() == 4096,
    ensures
        ({
            let read = change::changes(view.hashes, reads)[k];
            let entry = view.deltas(reads)[k];
            let golden = view.golden->0;
            &&& view.deltas(reads).len() == change::changes(view.hashes, reads).len()
            &&& entry.index == read.index % 0x1_0000_0000
            &&& entry.from_prev <==> view.prev.contains_key(entry.index)
            &&& entry.bytes.len() == 4096
            &&& forall|j: int|
                0 <= j < 4096 ==> #[trigger] entry.bytes[j] == read.bytes[j] ^ (
                if view.prev.contains_key(entry.index) {
                    view.prev[entry.index][j]
                } else {
                    golden[read.index * 4096 + j]
                })
        }),
{
    change::lemma_changes_are_reads(view.hashes, reads);
    let read = change::changes(view.hashes, reads)[k];
    let golden = view.golden->0;
    assert(read.index * 4096 + 4096 <= golden.len());
    assert(view.deltas(reads)[k] == view.delta(read));
}

/// An export has as many entries as there are blocks that differ.
pub proof fn entries_are_complete(view: TrackerView, reads: Seq<HashedRead>)
    ensures
        view.deltas(reads).len() == change::changes(view.hashes, reads).len(),
{
}

/// Putting reads on record touches the hashes alone.
pub proof fn recording_touches_hashes(view: TrackerView, reads: Seq<HashedRead>)
    ensures
        view.recorded(reads).hashes == change::hashes_after(view.hashes, reads),
        view.recorded(reads).golden == view.golden,
        view.recorded(reads).prev == view.prev,
        view.exported(reads).hashes == change::hashes_after(view.hashes, reads),
        view.exported(reads).golden == view.golden,
{
}

/// Whether entry `k` is the last one whose number has the lower 32 bits `key`.
spec fn is_last_entry(list: Seq<HashedRead>, k: int, key: u32) -> bool {
    &&& 0 <= k < list.len()
    &&& list[k].index % 0x1_0000_0000 == key
    &&& forall|j: int| k < j < list.len() ==> (#[trigger] list[j]).index % 0x1_0000_0000 != key
}

/// The numbers, 32 bits wide, of the blocks of a list.
spec fn numbers(list: Seq<HashedRead>) -> Set<u32> {
    list.map_values(|r: HashedRead| (r.index % 0x1_0000_0000) as u32).to_set()
}

/// What an export leaves for the next one: the content of every block that it
/// has, as exported last. If these are more than 32768 blocks, it leaves nothing.
pub proof fn export_leaves_bases(view: TrackerView, reads: Seq<HashedRead>, key: u32)
    ensures
        ({
            let found = change::changes(view.hashes, reads);
            let left = view.exported(reads).prev;
            let numbers = found.map_values(
                |r: HashedRead| (r.index % 0x1_0000_0000) as u32,
            ).to_set();
            &&& left.contains_key(key) <==> numbers.len() <= 32768 && exists|k: int|
                0 <= k < found.len() && (#[trigger] found[k]).index % 0x1_0000_0000 == key
            &&& left.contains_key(key) ==> forall|k: int|
                0 <= k < found.len() && (#[trigger] found[k]).index % 0x1_0000_0000 == key && (
                forall|j: int|
                    k < j < found.len() ==> (#[trigger] found[j]).index % 0x1_0000_0000 != key)
                    ==> left[key] == found[k].bytes
        }),
{
    let found = change::changes(view.hashes, reads);
    lemma_carry_is(found);
    assert(tracker::carry(found).dom() =~= numbers(found));
    assert(tracker::carry(found).len() == numbers(found).len());
    let all = found.map_values(|r: HashedRead| (r.index % 0x1_0000_0000) as u32);
    assert(numbers(found) == all.to_set());
    if numbers(found).contains(key) {
        let k = choose|k: int| #[trigger] is_last_entry(found, k, key);
        assert(found[k].index % 0x1_0000_0000 == key);
    }
    if exists|k: int|
        0 <= k < found.len() && (#[trigger] found[k]).index % 0x1_0000_0000 == key {
        let k = choose|k: int|
            0 <= k < found.len() && (#[trigger] found[k]).index % 0x1_0000_0000 == key;
        assert(all[k] == key);
        assert(numbers(found).contains(key));
    }
    assert forall|k: int|
        0 <= k < found.len() && (#[trigger] found[k]).index % 0x1_0000_0000 == key && (forall|
            j: int,
        |
            k < j < found.len() ==> (#[trigger] found[j]).index % 0x1_0000_0000 != key) implies
        is_last_entry(found, k, key) by {}
}

/// Blocks are left for the next export exactly up to the cap.
pub proof fn cap_is_exact(blocks: Map<u32, Seq<u8>>)
    ensures
        blocks.len() <= 32768 ==> tracker::capped(blocks) == blocks,
        blocks.len() > 32768 ==> tracker::capped(blocks) == Map::<u32, Seq<u8>>::empty(),
{
}

proof fn lemma_carry_is(list: Seq<HashedRead>)
    ensures
        forall|key: u32|
            tracker::carry(list).contains_key(key) <==> #[trigger] numbers(list).contains(key),
        forall|key: u32|
            #![trigger numbers(list).contains(key)]
            numbers(list).contains(key) ==> exists|k: int| #[trigger] is_last_entry(list, k, key),
        forall|k: int, key: u32| #[trigger]
            is_last_entry(list, k, key) ==> tracker::carry(list)[key] == list[k].bytes,
    decreases list.len(),
{
    let all = list.map_values(|r: HashedRead| (r.index % 0x1_0000_0000) as u32);
    if list.len() == 0 {
        assert(all =~= Seq::empty());
    } else {
        let init = list.drop_last();
        let n = list.len() - 1;
        let before = init.map_values(|r: HashedRead| (r.index % 0x1_0000_0000) as u32);
        lemma_carry_is(init);
        assert(forall|j: int| 0 <= j < n ==> init[j] == list[j]);
        assert(list[n] == list.last());
        let number = tracker::block_key(list.last().index);
        assert forall|key: u32| #[trigger] numbers(list).contains(key) <==> key == number
            || numbers(init).contains(key) by {
            if numbers(list).contains(key) {
                let j = choose|j: int| 0 <= j < all.len() && all[j] == key;
                if j < n {
                    assert(before[j] == key);
                }
            }
            if numbers(init).contains(key) {
                let j = choose|j: int| 0 <= j < before.len() && before[j] == key;
                assert(all[j] == key);
            }
            assert(all[n] == number);
        }
        assert forall|key: u32|
            #![trigger numbers(list).contains(key)]
            numbers(list).contains(key) implies exists|k: int| #[trigger]
            is_last_entry(list, k, key) by {
            if key == number {
                assert(is_last_entry(list, n, key));
            } else {
                assert(numbers(init).contains(key));
                let k = choose|k: int| #[trigger] is_last_entry(init, k, key);
                assert(is_last_entry(list, k, key));
            }
        }
        assert forall|k: int, key: u32| #[trigger] is_last_entry(list, k, key) implies tracker::carry(
            list,
        )[key] == list[k].bytes by {
            if k < n {
                assert(list[n].index % 0x1_0000_0000 != key);
                assert(is_last_entry(init, k, key));
            }
        }
        assert forall|key: u32|
            tracker::carry(list).contains_key(key) <==> #[trigger] numbers(list).contains(key) by {
            assert(tracker::carry(init).contains_key(key) <==> numbers(init).contains(key));
        }
    }
}

/// Which blocks a refresh reads: those below `count`, in order and once each,
/// whose bit is set in the bitmap and that guest memory holds. Byte `i / 8` of
/// the bitmap alone decides on block `i`.
pub proof fn marked_blocks_are_read(bitmap: Seq<u8>, ram: Seq<RamSpan>, count: int)
    requires
        0 <= count <= 0xffff_ffff_ffff_ffff,
    ensures
        ({
            let reads = tracker::marked_reads(bitmap, ram, count);
            &&& forall|j: int, k: int|
                0 <= j < k < reads.len() ==> (#[trigger] reads[j]).index < (
                #[trigger] reads[k]).index
            &&& forall|k: int|
                0 <= k < reads.len() ==> {
                    let read = #[trigger] reads[k];
                    &&& read.index < count
                    &&& read.index < 8 * bitmap.len()
                    &&& bitmap[read.index as int / 8] & (1u8 << ((read.index as int % 8) as u8))
                        != 0
                    &&& guest::block_at(ram, read.index * 4096) == Some(read.bytes)
                }
            &&& forall|i: int|
                0 <= i < count && i < 8 * bitmap.len() && #[trigger] bitmap[i / 8] & (1u8 << ((i
                    % 8) as u8)) != 0 && guest::block_at(ram, i * 4096) is Some ==> exists|k: int|
                    0 <= k < reads.len() && (#[trigger] reads[k]).index == i
        }),
    decreases count,
{
    if count > 0 {
        let i = count - 1;
        marked_blocks_are_read(bitmap, ram, i);
        bits::bitmap_bit_is_tested_by_mask(bitmap, i);
        let before = tracker::marked_reads(bitmap, ram, i);
        let reads = tracker::marked_reads(bitmap, ram, count);
        assert((i * 4096) / 4096 == i);
        assert(forall|k: int| 0 <= k < before.len() ==> reads[k] == before[k]);
        if tracker::is_marked(bitmap, ram, i) {
            assert(reads[before.len() as int].index == i);
        }
        assert forall|m: int|
            0 <= m < count && m < 8 * bitmap.len() && #[trigger] bitmap[m / 8] & (1u8 << ((m % 8)
                as u8)) != 0 && guest::block_at(ram, m * 4096) is Some implies exists|k: int|
            0 <= k < reads.len() && (#[trigger] reads[k]).index == m by {
            if m < i {
                let k = choose|k: int| 0 <= k < before.len() && (#[trigger] before[k]).index == m;
                assert(reads[k].index == m);
            }
        }
    }
}

/// A refresh puts the current content of every marked block on record, whatever
/// the other bits of the bitmap are: if byte `i / 8` of the bitmap is there and
/// has bit `i % 8` set, and region `r` holds the block, the hash of block `i` is
/// that of the 4096 bytes of the region at guest address `i * 4096`.
pub proof fn refresh_takes_marked_blocks(
    view: TrackerView,
    bitmap: Seq<u8>,
    ram: Seq<RamSpan>,
    i: int,
    r: int,
)
    requires
        view.hashes.len() <= 0xffff_ffff_ffff_ffff,
        0 <= i < view.hashes.len(),
        i < 8 * bitmap.len(),
        bitmap[i / 8] & (1u8 << ((i % 8) as u8)) != 0,
        0 <= r < ram.len(),
        ram[r].start <= i * 4096,
        i * 4096 + 4096 <= ram[r].start + ram[r].bytes.len(),
        forall|q: int|
            0 <= q < r ==> i * 4096 < (#[trigger] ram[q]).start || i * 4096 >= ram[q].start
                + ram[q].bytes.len(),
    ensures
        ({
            let marked = tracker::marked_reads(bitmap, ram, view.hashes.len() as int);
            let at = i * 4096 - ram[r].start;
            view.recorded(change::hashed(marked)).hashes[i] == trusted::xxh3_64_of(
                ram[r].bytes.subrange(at, at + 4096),
            )
        }),
{
    bits::bitmap_bit_is_tested_by_mask(bitmap, i);
    guest::block_is_region_bytes(ram, i * 4096, r);
    tracker::lemma_marked_reads(view.hashes, bitmap, ram, view.hashes.len() as int);
    let at = i * 4096 - ram[r].start;
    assert(guest::block_at(ram, i * 4096)->0 =~= ram[r].bytes.subrange(at, at + 4096));
}

/// A refresh leaves the hash of a block alone whose bit is clear, or past the end
/// of the bitmap.
pub proof fn refresh_leaves_other_blocks(
    view: TrackerView,
    bitmap: Seq<u8>,
    ram: Seq<RamSpan>,
    i: int,
)
    requires
        view.hashes.len() <= 0xffff_ffff_ffff_ffff,
        0 <= i < view.hashes.len(),
        i >= 8 * bitmap.len() || bitmap[i / 8] & (1u8 << ((i % 8) as u8)) == 0,
    ensures
        ({
            let marked = tracker::marked_reads(bitmap, ram, view.hashes.len() as int);
            view.recorded(change::hashed(marked)).hashes[i] == view.hashes[i]
        }),
{
    bits::bitmap_bit_is_tested_by_mask(bitmap, i);
    tracker::lemma_marked_reads(view.hashes, bitmap, ram, view.hashes.len() as int);
}

/// Which blocks are found changed, by a bitmap or an export, if all dirty ranges
/// are mapped and start at multiples of 4096: block `i` is, if it lies in a dirty
/// range and the bytes of guest memory at address `i * 4096` have another hash
/// than the one on record.
pub proof fn changed_bytes_are_found(
    record: Seq<u64>,
    table: Seq<MemoryRange>,
    ram: Seq<RamSpan>,
    i: int,
    r: int,
)
    requires
        guest::spans_fit(ram),
        forall|n: int| 0 <= n < table.len() ==> (#[trigger] table[n]).gpa % 4096 == 0,
        guest::fault_address(table, ram) is None,
        0 <= i < record.len(),
        0 <= r < ram.len(),
        ram[r].start <= i * 4096,
        i * 4096 + 4096 <= ram[r].start + ram[r].bytes.len(),
        forall|q: int|
            0 <= q < r ==> i * 4096 < (#[trigger] ram[q]).start || i * 4096 >= ram[q].start
                + ram[q].bytes.len(),
    ensures
        change::lists_block(
            change::changes(record, change::hashed(guest::visited(table, ram))),
            i,
        ) <==> {
            &&& exists|n: int|
                0 <= n < table.len() && (#[trigger] table[n]).gpa <= i * 4096 && i * 4096 + 4096
                    <= table[n].gpa + table[n].length
            &&& trusted::xxh3_64_of(
                ram[r].bytes.subrange(i * 4096 - ram[r].start, i * 4096 - ram[r].start + 4096),
            ) != record[i]
        },
{
    assert(aligned::block_aligned(table));
    guest::block_is_region_bytes(ram, i * 4096, r);
    let at = i * 4096 - ram[r].start;
    assert(guest::block_at(ram, i * 4096)->0 =~= ram[r].bytes.subrange(at, at + 4096));
    aligned::listed_blocks_are_the_changed_ones(record, table, ram, i);
    if aligned::is_dirty(table, i) {
        let n = choose|n: int| 0 <= n < table.len() && #[trigger] aligned::covers(table[n], i);
        assert(table[n].gpa <= i * 4096);
    }
    if exists|n: int|
        0 <= n < table.len() && (#[trigger] table[n]).gpa <= i * 4096 && i * 4096 + 4096
            <= table[n].gpa + table[n].length {
        let n = choose|n: int|
            0 <= n < table.len() && (#[trigger] table[n]).gpa <= i * 4096 && i * 4096 + 4096
                <= table[n].gpa + table[n].length;
        assert(aligned::covers(table[n], i));
    }
}

/// A block that is found changed is exported with the bytes that guest memory has
/// at its address, and every block is found at most once.
pub proof fn found_bytes_are_current(
    record: Seq<u64>,
    table: Seq<MemoryRange>,
    ram: Seq<RamSpan>,
    k: int,
)
    requires
        guest::spans_fit(ram),
        forall|n: int| 0 <= n < table.len() ==> (#[trigger] table[n]).gpa % 4096 == 0,
        0 <= k < change::changes(record, change::hashed(guest::visited(table, ram))).len(),
    ensures
        ({
            let found = change::changes(record, change::hashed(guest::visited(table, ram)));
            &&& found[k].index < record.len()
            &&& found[k].bytes.len() == 4096
            &&& exists|r: int|
                {
                    &&& 0 <= r < ram.len()
                    &&& (#[trigger] ram[r]).start <= found[k].index * 4096
                    &&& found[k].index * 4096 + 4096 <= ram[r].start + ram[r].bytes.len()
                    &&& forall|j: int|
                        0 <= j < 4096 ==> #[trigger] found[k].bytes[j]
                            == ram[r].bytes[found[k].index * 4096 - ram[r].start + j]
                }
            &&& forall|r: int, j: int|
                0 <= r < ram.len() && (#[trigger] ram[r]).start <= found[k].index * 4096
                    && found[k].index * 4096 < ram[r].start + ram[r].bytes.len() && 0 <= j < 4096
                    && (forall|q: int|
                    0 <= q < r ==> found[k].index * 4096 < (#[trigger] ram[q]).start
                        || found[k].index * 4096 >= ram[q].start + ram[q].bytes.len())
                    ==> #[trigger] found[k].bytes[j] == ram[r].bytes[found[k].index * 4096
                    - ram[r].start + j]
            &&& forall|m: int|
                0 <= m < found.len() && m != k ==> (#[trigger] found[m]).index != found[k].index
        }),
{
    let reads = change::hashed(guest::visited(table, ram));
    let found = change::changes(record, reads);
    assert(aligned::block_aligned(table));
    change::lemma_changes_are_reads(record, reads);
    aligned::blocks_are_exported_once(record, table, ram);
    assert(reads.contains(found[k]));
    let j = choose|j: int| 0 <= j < reads.len() && reads[j] == found[k];
    aligned::lemma_aligned_read(table, ram, j);
    let gpa = found[k].index * 4096;
    let r = guest::lemma_block_has_holder(ram, gpa);
    guest::block_is_region_bytes(ram, gpa, r);
    assert forall|s: int, n: int|
        0 <= s < ram.len() && (#[trigger] ram[s]).start <= gpa && gpa < ram[s].start
            + ram[s].bytes.len() && 0 <= n < 4096 && (forall|q: int|
            0 <= q < s ==> gpa < (#[trigger] ram[q]).start || gpa >= ram[q].start
                + ram[q].bytes.len()) implies #[trigger] found[k].bytes[n] == ram[s].bytes[gpa
        - ram[s].start + n] by {
        guest::block_is_region_bytes(ram, gpa, s);
    }
    assert(ram[r].start <= gpa);
}

/// If guest memory at every address is as the golden image at the same offset,
/// no block is found changed right after the golden image was installed.
pub proof fn golden_memory_is_unchanged(golden: Seq<u8>, table: Seq<MemoryRange>, ram: Seq<RamSpan>)
    requires
        guest::spans_fit(ram),
        forall|n: int| 0 <= n < table.len() ==> (#[trigger] table[n]).gpa % 4096 == 0,
        forall|r: int, a: int|
            0 <= r < ram.len() && (#[trigger] ram[r]).start <= a < golden.len() && a < ram[r].start
                + ram[r].bytes.len() ==> ram[r].bytes[a - ram[r].start] == #[trigger] golden[a],
    ensures
        change::changes(
            tracker::golden_hashes(golden),
            change::hashed(guest::visited(table, ram)),
        ).len() == 0,
{
    let reads = change::hashed(guest::visited(table, ram));
    let view = TrackerView {
        hashes: tracker::golden_hashes(golden),
        golden: Some(golden),
        prev: Map::empty(),
    };
    assert(aligned::block_aligned(table));
    assert forall|k: int| 0 <= k < reads.len() implies !change::differs(
        view.hashes,
        #[trigger] reads[k],
    ) by {
        let i = reads[k].index as int;
        if i < view.hashes.len() {
            aligned::lemma_aligned_read(table, ram, k);
            let r = guest::lemma_block_has_holder(ram, i * 4096);
            guest::block_is_region_bytes(ram, i * 4096, r);
            assert(i * 4096 + 4096 <= golden.len());
            assert forall|j: int| 0 <= j < 4096 implies reads[k].bytes[j]
                == tracker::golden_block(golden, i)[j] by {
                assert(reads[k].bytes[j] == ram[r].bytes[i * 4096 - ram[r].start + j]);
                assert(ram[r].bytes[(i * 4096 + j) - ram[r].start] == golden[i * 4096 + j]);
            }
            assert(reads[k].bytes =~= tracker::golden_block(golden, i));
        }
    }
    laws::unchanged_blocks_are_skipped(view, reads);
}

/// An export can be counted if it fails, or if it has fewer than 2^32 blocks.
pub proof fn countable_below_four_billion(
    view: TrackerView,
    table: Seq<MemoryRange>,
    ram: Seq<RamSpan>,
)
    ensures
        tracker::countable(view, table, ram) <==> {
            ||| view.golden is None
            ||| guest::fault_address(table, ram) is Some
            ||| change::changes(view.hashes, change::hashed(guest::visited(table, ram))).len()
                < 0x1_0000_0000
        },
{
}

/// A tracker is valid exactly if
///
/// - it has no golden image, no hashes and nothing left of an export; or it has a
///   golden image of 4096 bytes or more, and a hash for every whole block;
/// - what is left of the last export are no more than 32768 blocks, each of 4096
///   bytes and with a number below that of the hashes.
pub proof fn valid_tracker(view: TrackerView)
    ensures
        view.wf() <==> {
            &&& view.golden is None ==> view.hashes.len() == 0 && view.prev == Map::<
                u32,
                Seq<u8>,
            >::empty()
            &&& view.golden is Some ==> {
                let len = view.golden->0.len();
                &&& view.hashes.len() > 0
                &&& view.hashes.len() * 4096 <= len < view.hashes.len() * 4096 + 4096
            }
            &&& view.prev.dom().finite()
            &&& view.prev.len() <= 32768
            &&& forall|key: u32| #[trigger]
                view.prev.contains_key(key) ==> key < view.hashes.len() && view.prev[key].len()
                    == 4096
        },
{
}

/// What the conditions on reads and on blocks that are kept mean.
pub proof fn conditions_on_blocks(
    reads: Seq<HashedRead>,
    blocks: Map<u32, Seq<u8>>,
    count: int,
    deltas: Seq<packed::BlockDelta>,
)
    ensures
        tracker::whole_reads(reads) <==> forall|k: int|
            0 <= k < reads.len() ==> (#[trigger] reads[k]).bytes.len() == 4096,
        tracker::carries_blocks(blocks, count) <==> blocks.dom().finite() && forall|key: u32|
            #[trigger]
            blocks.contains_key(key) ==> key < count && blocks[key].len() == 4096,
        tracker::uses_prev(deltas) <==> exists|k: int|
            0 <= k < deltas.len() && (#[trigger] deltas[k]).from_prev,
{
}

/// How an export ends. Without a golden image it is refused, and nothing is
/// changed; at an unmapped address it fails with that address, what is left for
/// the next export is as before, and the hashes that were read are on record.
/// Otherwise it succeeds, and counts the blocks that differ and the bytes of the
/// blob; it is a P-frame exactly if one of the blocks was part of the previous
/// export.
///
/// The decompressed blob starts with the letters `FCBK`, version 2, the block
/// size, the number of blocks, and six zeros.
pub proof fn export_ends_as_told(
    before: TrackerView,
    table: Seq<MemoryRange>,
    ram: Seq<RamSpan>,
    result: Result<DirtyDeltaPacked, DeltaError>,
    after: TrackerView,
)
    requires
        before.wf(),
        guest::spans_fit(ram),
        tracker::countable(before, table, ram),
        tracker::is_export(before, table, ram, result, after),
    ensures
        ({
            let reads = change::hashed(guest::visited(table, ram));
            let found = change::changes(before.hashes, reads);
            let count = found.len();
            if before.golden is None {
                &&& result is Err
                &&& result->Err_0 is NotInitialized
                &&& after == before
            } else if guest::fault_address(table, ram) is Some {
                &&& result is Err
                &&& result->Err_0 is UnmappedAddress
                &&& result->Err_0->gpa == guest::fault_address(table, ram)->0
                &&& after.hashes == change::hashes_after(before.hashes, reads)
                &&& after.golden == before.golden
                &&& after.prev == before.prev
            } else {
                let raw = trusted::lz4_frame_content(result->Ok_0.blob@)->0;
                &&& result is Ok
                &&& result->Ok_0.block_count == count
                &&& result->Ok_0.raw_size == raw.len()
                &&& result->Ok_0.is_p_frame <==> exists|k: int|
                    0 <= k < count && before.prev.contains_key(
                        ((#[trigger] found[k]).index % 0x1_0000_0000) as u32,
                    )
                &&& trusted::lz4_frame_content(result->Ok_0.blob@) is Some
                &&& raw.len() == 20 + (count + 7) / 8 + 4100 * count
                &&& raw[0] == 0x46 && raw[1] == 0x43 && raw[2] == 0x42 && raw[3] == 0x4b
                &&& raw[4] + 256 * raw[5] == 2
                &&& raw[6] + 256 * raw[7] + 65536 * raw[8] + 16777216 * raw[9] == 4096
                &&& raw[10] + 256 * raw[11] + 65536 * raw[12] + 16777216 * raw[13] == count
                &&& forall|n: int| 14 <= n < 20 ==> #[trigger] raw[n] == 0
                &&& after.hashes == change::hashes_after(before.hashes, reads)
                &&& after.golden == before.golden
                &&& after.prev == before.exported(reads).prev
            }
        }),
{
    let reads = change::hashed(guest::visited(table, ram));
    let found = change::changes(before.hashes, reads);
    let deltas = before.deltas(reads);
    if before.golden is Some && guest::fault_address(table, ram) is None {
        lemma_deltas(before, table, ram);
        packed::blob_starts_with_header(deltas);
        if tracker::uses_prev(deltas) {
            let k = choose|k: int| 0 <= k < deltas.len() && (#[trigger] deltas[k]).from_prev;
            assert(before.prev.contains_key((found[k].index % 0x1_0000_0000) as u32));
        }
        if exists|k: int|
            0 <= k < found.len() && before.prev.contains_key(
                ((#[trigger] found[k]).index % 0x1_0000_0000) as u32,
            ) {
            let k = choose|k: int|
                0 <= k < found.len() && before.prev.contains_key(
                    ((#[trigger] found[k]).index % 0x1_0000_0000) as u32,
                );
            assert(deltas[k].from_prev);
        }
    }
}

proof fn lemma_deltas(view: TrackerView, table: Seq<MemoryRange>, ram: Seq<RamSpan>)
    requires
        view.wf(),
        view.golden is Some,
        guest::spans_fit(ram),
    ensures
        ({
            let reads = change::hashed(guest::visited(table, ram));
            let found = change::changes(view.hashes, reads);
            let deltas = view.deltas(reads);
            let golden = view.golden->0;
            &&& deltas.len() == found.len()
            &&& forall|k: int|
                0 <= k < deltas.len() ==> {
                    let entry = #[trigger] deltas[k];
                    &&& found[k].bytes.len() == 4096
                    &&& found[k].index < view.hashes.len()
                    &&& entry.bytes.len() == 4096
                    &&& entry.index == found[k].index % 0x1_0000_0000
                    &&& entry.from_prev <==> view.prev.contains_key(entry.index)
                    &&& forall|j: int|
                        0 <= j < 4096 ==> #[trigger] entry.bytes[j] == found[k].bytes[j] ^ (
                        if view.prev.contains_key(entry.index) {
                            view.prev[entry.index][j]
                        } else {
                            golden[found[k].index * 4096 + j]
                        })
                }
        }),
{
    let reads = change::hashed(guest::visited(table, ram));
    let found = change::changes(view.hashes, reads);
    let deltas = view.deltas(reads);
    tracker::lemma_whole_reads(table, ram);
    change::lemma_changes_are_reads(view.hashes, reads);
    assert forall|k: int| 0 <= k < found.len() implies (#[trigger] found[k]).bytes.len()
        == 4096 by {
        assert(reads.contains(found[k]));
        let j = choose|j: int| 0 <= j < reads.len() && reads[j] == found[k];
        assert(reads[j].bytes.len() == 4096);
    }
    assert forall|k: int| 0 <= k < deltas.len() implies {
        let entry = #[trigger] deltas[k];
        let golden = view.golden->0;
        &&& found[k].bytes.len() == 4096
        &&& found[k].index < view.hashes.len()
        &&& entry.bytes.len() == 4096
        &&& entry.index == found[k].index % 0x1_0000_0000
        &&& entry.from_prev <==> view.prev.contains_key(entry.index)
        &&& forall|j: int|
            0 <= j < 4096 ==> #[trigger] entry.bytes[j] == found[k].bytes[j] ^ (
            if view.prev.contains_key(entry.index) {
                view.prev[entry.index][j]
            } else {
                golden[found[k].index * 4096 + j]
            })
    } by {
        entries_are_xored(view, reads, k);
    }
}

/// The bitmap of the blob of an export: bit `k` is set exactly if there is a block
/// `k` and it was part of the previous export.
pub proof fn blob_marks_previous_blocks(
    before: TrackerView,
    table: Seq<MemoryRange>,
    ram: Seq<RamSpan>,
    result: Result<DirtyDeltaPacked, DeltaError>,
    after: TrackerView,
    k: int,
)
    requires
        before.wf(),
        before.golden is Some,
        guest::spans_fit(ram),
        guest::fault_address(table, ram) is None,
        tracker::countable(before, table, ram),
        tracker::is_export(before, table, ram, result, after),
        0 <= k < 8 * ((change::changes(
            before.hashes,
            change::hashed(guest::visited(table, ram)),
        ).len() + 7) / 8),
    ensures
        ({
            let raw = trusted::lz4_frame_content(result->Ok_0.blob@)->0;
            let found = change::changes(before.hashes, change::hashed(guest::visited(table, ram)));
            raw[20 + k / 8] & (1u8 << ((k % 8) as u8)) != 0 <==> k < found.len()
                && before.prev.contains_key((found[k].index % 0x1_0000_0000) as u32)
        }),
{
    let deltas = before.deltas(change::hashed(guest::visited(table, ram)));
    lemma_deltas(before, table, ram);
    packed::blob_names_bases(deltas, k);
    if k < deltas.len() {
        assert(deltas[k].bytes.len() == 4096);
    }
}

/// The blocks in the blob of an export: behind the bitmap stand the lower 32 bits
/// of the block numbers, and behind these the data. Byte `j` of the data of block
/// `k` is byte `j` of what was read XOR the byte in the previous export or else
/// the golden byte at the same guest address. So XOR that byte it is what was
/// read.
pub proof fn blob_holds_xored_bytes(
    before: TrackerView,
    table: Seq<MemoryRange>,
    ram: Seq<RamSpan>,
    result: Result<DirtyDeltaPacked, DeltaError>,
    after: TrackerView,
    k: int,
    j: int,
)
    requires
        before.wf(),
        before.golden is Some,
        guest::spans_fit(ram),
        guest::fault_address(table, ram) is None,
        tracker::countable(before, table, ram),
        tracker::is_export(before, table, ram, result, after),
        0 <= k < change::changes(
            before.hashes,
            change::hashed(guest::visited(table, ram)),
        ).len(),
        0 <= j < 4096,
    ensures
        ({
            let raw = trusted::lz4_frame_content(result->Ok_0.blob@)->0;
            let found = change::changes(before.hashes, change::hashed(guest::visited(table, ram)));
            let count = found.len() as int;
            let names = 20 + (count + 7) / 8;
            let data = names + 4 * count;
            let number = found[k].index as int % 0x1_0000_0000;
            let golden = before.golden->0;
            let base = if before.prev.contains_key(number as u32) {
                before.prev[number as u32][j]
            } else {
                golden[found[k].index * 4096 + j]
            };
            &&& raw[names + 4 * k] + 256 * raw[names + 4 * k + 1] + 65536 * raw[names + 4 * k + 2]
                + 16777216 * raw[names + 4 * k + 3] == number
            &&& raw[data + 4096 * k + j] == found[k].bytes[j] ^ base
            &&& raw[data + 4096 * k + j] ^ base == found[k].bytes[j]
        }),
{
    let found = change::changes(before.hashes, change::hashed(guest::visited(table, ram)));
    let deltas = before.deltas(change::hashed(guest::visited(table, ram)));
    lemma_deltas(before, table, ram);
    packed::blob_names_blocks(deltas, k);
    packed::blob_holds_data(deltas, k, j);
    let entry = deltas[k];
    let number = found[k].index as int % 0x1_0000_0000;
    let golden = before.golden->0;
    let x = found[k].bytes[j];
    let base = if before.prev.contains_key(number as u32) {
        before.prev[number as u32][j]
    } else {
        golden[found[k].index * 4096 + j]
    };
    assert(entry.index == number as u32);
    assert(entry.bytes[j] == x ^ base);
    assert((x ^ base) ^ base == x) by (bit_vector);
}

} // verus!
