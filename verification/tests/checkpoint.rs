use std::io::Read;

use dirty_delta::change::DirtyBlock;
use dirty_delta::guest::{GuestRam, GuestRegion, MemoryRange, MemoryRangeTable, BLOCK_SIZE};
use dirty_delta::packed::{pack, ExportedBlock};
use dirty_delta::tracker::{
    golden_block_count, marked_blocks, DeltaError, DeltaTracker, DirtyDeltaPacked,
    DriveDirtyResponse, MAX_PREV_BLOCKS,
};

fn table(ranges: &[(u64, u64)]) -> MemoryRangeTable {
    let mut data = Vec::new();
    for &(gpa, length) in ranges {
        data.push(MemoryRange { gpa, length });
    }
    MemoryRangeTable::from_ranges(data)
}

fn ram(bytes: &[u8]) -> GuestRam<'_> {
    GuestRam::new(vec![GuestRegion { start: 0, data: bytes }]).unwrap()
}

fn golden(blocks: usize) -> Vec<u8> {
    (0..blocks * BLOCK_SIZE).map(|i| (i / 7 + i / BLOCK_SIZE) as u8).collect()
}

fn decompressed(packed: &DirtyDeltaPacked) -> Vec<u8> {
    let mut raw = Vec::new();
    lz4_flex::frame::FrameDecoder::new(&packed.blob[..]).read_to_end(&mut raw).unwrap();
    assert_eq!(raw.len() as u64, packed.raw_size);
    raw
}

fn le32(raw: &[u8], at: usize) -> u32 {
    u32::from_le_bytes([raw[at], raw[at + 1], raw[at + 2], raw[at + 3]])
}

/// The blocks of a blob: number, whether relative to the previous checkpoint,
/// and data.
fn unpacked(raw: &[u8]) -> Vec<(u32, bool, Vec<u8>)> {
    assert_eq!(&raw[0..4], b"FCBK");
    assert_eq!(&raw[4..6], &[2, 0]);
    assert_eq!(le32(raw, 6), 4096);
    let count = le32(raw, 10) as usize;
    assert_eq!(&raw[14..20], &[0; 6]);
    let indices = 20 + count.div_ceil(8);
    let data = indices + 4 * count;
    assert_eq!(raw.len(), data + 4096 * count);
    (0..count)
        .map(|k| {
            (
                le32(raw, indices + 4 * k),
                raw[20 + k / 8] & (1 << (k % 8)) != 0,
                raw[data + 4096 * k..data + 4096 * (k + 1)].to_vec(),
            )
        })
        .collect()
}

/// Applies a blob to the image of the previous checkpoint.
fn restored(golden: &[u8], image: &[u8], raw: &[u8]) -> Vec<u8> {
    let mut next = image.to_vec();
    for (index, from_prev, data) in unpacked(raw) {
        let at = index as usize * BLOCK_SIZE;
        let base = if from_prev { image } else { golden };
        for i in 0..BLOCK_SIZE {
            next[at + i] = data[i] ^ base[at + i];
        }
    }
    next
}

fn blob_of(result: Result<DirtyDeltaPacked, DeltaError>) -> DirtyDeltaPacked {
    match result {
        Ok(packed) => packed,
        Err(error) => panic!("{error:?}"),
    }
}

#[test]
fn fresh_tracker_is_not_initialized() {
    let mut tracker = DeltaTracker::default();
    let bytes = golden(1);
    assert!(!tracker.is_initialized());
    assert_eq!(tracker.clear_prev_blocks(), 0);
    assert_eq!(
        tracker.dirty_delta_bitmap(&table(&[(0, 4096)]), &ram(&bytes)),
        Err(DeltaError::NotInitialized)
    );
    assert_eq!(
        tracker.dirty_delta_packed(&table(&[(0, 4096)]), &ram(&bytes)).err(),
        Some(DeltaError::NotInitialized)
    );
    assert_eq!(
        tracker.rehash_from_guest_bitmap(&ram(&bytes), &[1]),
        Err(DeltaError::NotInitialized)
    );
}

#[test]
fn golden_needs_a_whole_block() {
    let bytes = golden(2);
    let mut tracker = DeltaTracker::default();
    assert_eq!(
        tracker.init_delta_hashes(&bytes[..4095]),
        Err(DeltaError::GoldenTooSmall { len: 4095 })
    );
    assert!(!tracker.is_initialized());
    assert_eq!(tracker.init_delta_hashes(&bytes[..8191]), Ok(1));
    assert!(tracker.is_initialized());
    assert_eq!(tracker.init_delta_hashes(&bytes), Ok(2));
    assert_eq!(golden_block_count(0), Err(DeltaError::GoldenTooSmall { len: 0 }));
    assert_eq!(golden_block_count(3 * 4096 + 1), Ok(3));
}

#[test]
fn hashes_on_record_are_xxh3_of_golden() {
    let base = golden(2);
    let mut tracker = DeltaTracker::default();
    tracker.init_delta_hashes(&base).unwrap();
    let mut dirty = Vec::new();
    for i in 0..2usize {
        let data = &base[i * 4096..(i + 1) * 4096];
        dirty.push(DirtyBlock {
            block_idx: i as u64,
            hash: xxhash_rust::xxh3::xxh3_64(data),
            data,
        });
    }
    assert_eq!(tracker.mark_changes(&dirty), vec![0]);
    dirty[1].hash ^= 1;
    assert_eq!(tracker.mark_changes(&dirty), vec![2]);
}

#[test]
fn bitmap_marks_changed_blocks_once() {
    let base = golden(70);
    let mut memory = base.clone();
    memory[3 * 4096] ^= 1;
    memory[69 * 4096 + 4095] ^= 1;
    let mut tracker = DeltaTracker::default();
    assert_eq!(tracker.init_delta_hashes(&base), Ok(70));
    let dirty = table(&[(0, 70 * 4096)]);
    assert_eq!(tracker.dirty_delta_bitmap(&dirty, &ram(&memory)), Ok(vec![1 << 3, 1 << 5]));
    assert_eq!(tracker.dirty_delta_bitmap(&dirty, &ram(&memory)), Ok(vec![0, 0]));
    assert_eq!(tracker.dirty_delta_bitmap(&dirty, &ram(&base)), Ok(vec![1 << 3, 1 << 5]));
}

#[test]
fn blocks_past_golden_are_skipped() {
    let base = golden(1);
    let memory = golden(3).iter().map(|b| b ^ 0x55).collect::<Vec<u8>>();
    let mut tracker = DeltaTracker::default();
    tracker.init_delta_hashes(&base).unwrap();
    let dirty = table(&[(0, 3 * 4096)]);
    let packed = blob_of(tracker.dirty_delta_packed(&dirty, &ram(&memory)));
    assert_eq!(packed.block_count, 1);
    assert_eq!(unpacked(&decompressed(&packed))[0].0, 0);
}

#[test]
fn unmapped_address_is_reported_and_earlier_hashes_stay() {
    let base = golden(3);
    let memory = vec![1u8; 2 * 4096];
    let mut tracker = DeltaTracker::default();
    tracker.init_delta_hashes(&base).unwrap();
    let dirty = table(&[(4096, 2 * 4096), (0, 4096)]);
    assert_eq!(
        tracker.dirty_delta_bitmap(&dirty, &ram(&memory)),
        Err(DeltaError::UnmappedAddress { gpa: 8192 })
    );
    // Block 1 was read before the walk stopped, block 0 was not.
    assert_eq!(tracker.dirty_delta_bitmap(&table(&[(0, 8192)]), &ram(&memory)), Ok(vec![1]));

    let mut tracker = DeltaTracker::default();
    tracker.init_delta_hashes(&base).unwrap();
    assert_eq!(
        tracker.dirty_delta_packed(&dirty, &ram(&memory)).err(),
        Some(DeltaError::UnmappedAddress { gpa: 8192 })
    );
    let packed = blob_of(tracker.dirty_delta_packed(&table(&[(0, 8192)]), &ram(&memory)));
    assert_eq!(packed.block_count, 1);
    assert!(!packed.is_p_frame);
}

#[test]
fn first_export_is_relative_to_golden() {
    let base = golden(4);
    let mut memory = base.clone();
    memory[4096 + 10] ^= 0xa5;
    memory[3 * 4096] ^= 0x5a;
    let mut tracker = DeltaTracker::default();
    tracker.init_delta_hashes(&base).unwrap();
    let packed = blob_of(tracker.dirty_delta_packed(&table(&[(0, 4 * 4096)]), &ram(&memory)));
    assert_eq!(packed.block_count, 2);
    assert_eq!(packed.raw_size, 20 + 1 + 8 + 8192);
    assert!(!packed.is_p_frame);
    let raw = decompressed(&packed);
    let blocks = unpacked(&raw);
    assert_eq!((blocks[0].0, blocks[0].1), (1, false));
    assert_eq!((blocks[1].0, blocks[1].1), (3, false));
    let mut expected = vec![0u8; 4096];
    expected[10] = 0xa5;
    assert_eq!(blocks[0].2, expected);
    assert_ne!(packed.blob, raw);
}

#[test]
fn chain_of_exports_restores_memory() {
    let base = golden(12);
    let all = table(&[(0, 12 * 4096)]);
    let mut tracker = DeltaTracker::default();
    tracker.init_delta_hashes(&base).unwrap();
    let mut memory = base.clone();
    let mut image = base.clone();
    // Which blocks each checkpoint changes.
    let steps: [&[usize]; 5] = [&[0, 1, 5], &[1, 5, 6, 7], &[2], &[2, 11], &[0, 3, 11]];
    for (n, step) in steps.iter().enumerate() {
        for &i in step.iter() {
            memory[i * 4096 + n] ^= 0x80 | (n as u8 + 1);
        }
        let packed = blob_of(tracker.dirty_delta_packed(&all, &ram(&memory)));
        assert_eq!(packed.block_count as usize, step.len());
        image = restored(&base, &image, &decompressed(&packed));
        assert_eq!(image, memory);
    }
}

#[test]
fn p_frame_uses_previous_content() {
    let base = golden(10);
    let all = table(&[(0, 10 * 4096)]);
    let mut tracker = DeltaTracker::default();
    tracker.init_delta_hashes(&base).unwrap();
    let mut memory = base.clone();
    for i in 0..10 {
        memory[i * 4096] ^= 0xff;
    }
    let first = blob_of(tracker.dirty_delta_packed(&all, &ram(&memory)));
    assert_eq!(first.block_count, 10);
    assert!(!first.is_p_frame);
    for i in [4usize, 9] {
        memory[i * 4096] ^= 0x01;
    }
    let second = blob_of(tracker.dirty_delta_packed(&all, &ram(&memory)));
    assert!(second.is_p_frame);
    let blocks = unpacked(&decompressed(&second));
    let mut expected = vec![0u8; 4096];
    expected[0] = 1;
    assert_eq!(blocks, vec![(4, true, expected.clone()), (9, true, expected)]);
}

#[test]
fn export_of_other_blocks_than_before_is_an_i_frame() {
    let base = golden(2);
    let all = table(&[(0, 2 * 4096)]);
    let mut tracker = DeltaTracker::default();
    tracker.init_delta_hashes(&base).unwrap();
    let mut memory = base.clone();
    memory[0] ^= 1;
    tracker.dirty_delta_packed(&all, &ram(&memory)).unwrap();
    memory[4096] ^= 1;
    let packed = blob_of(tracker.dirty_delta_packed(&all, &ram(&memory)));
    assert!(!packed.is_p_frame);
    assert!(!unpacked(&decompressed(&packed))[0].1);
    // Nothing changed: nothing is relative to the previous checkpoint.
    let packed = blob_of(tracker.dirty_delta_packed(&all, &ram(&memory)));
    assert_eq!(packed.block_count, 0);
    assert_eq!(packed.raw_size, 20);
    assert!(!packed.is_p_frame);
}

#[test]
fn revert_to_golden_is_exported_as_zeros() {
    let base = golden(1);
    let all = table(&[(0, 4096)]);
    let mut tracker = DeltaTracker::default();
    tracker.init_delta_hashes(&base).unwrap();
    let mut memory = base.clone();
    memory[7] ^= 9;
    tracker.dirty_delta_packed(&all, &ram(&memory)).unwrap();
    assert_eq!(tracker.clear_prev_blocks(), 1);
    let packed = blob_of(tracker.dirty_delta_packed(&all, &ram(&base)));
    assert_eq!(unpacked(&decompressed(&packed)), vec![(0, false, vec![0u8; 4096])]);
}

#[test]
fn clearing_makes_the_next_export_an_i_frame() {
    let base = golden(2);
    let all = table(&[(0, 2 * 4096)]);
    let mut tracker = DeltaTracker::default();
    tracker.init_delta_hashes(&base).unwrap();
    let mut memory = base.clone();
    memory[0] ^= 1;
    memory[4096] ^= 1;
    tracker.dirty_delta_packed(&all, &ram(&memory)).unwrap();
    assert_eq!(tracker.clear_prev_blocks(), 2);
    assert_eq!(tracker.clear_prev_blocks(), 0);
    memory[0] ^= 2;
    let packed = blob_of(tracker.dirty_delta_packed(&all, &ram(&memory)));
    assert!(!packed.is_p_frame);
    let mut expected = vec![0u8; 4096];
    expected[0] = 3;
    assert_eq!(unpacked(&decompressed(&packed)), vec![(0, false, expected)]);
}

#[test]
fn second_init_forgets_the_previous_checkpoint() {
    let base = golden(2);
    let all = table(&[(0, 2 * 4096)]);
    let mut tracker = DeltaTracker::default();
    tracker.init_delta_hashes(&base).unwrap();
    let memory = vec![0u8; 2 * 4096];
    tracker.dirty_delta_packed(&all, &ram(&memory)).unwrap();
    tracker.init_delta_hashes(&base).unwrap();
    let packed = blob_of(tracker.dirty_delta_packed(&all, &ram(&memory)));
    assert_eq!(packed.block_count, 2);
    assert!(!packed.is_p_frame);
}

#[test]
fn overlapping_unaligned_ranges_can_export_a_block_twice() {
    let base = vec![0u8; 3 * 4096];
    let memory = golden(3);
    let mut tracker = DeltaTracker::default();
    tracker.init_delta_hashes(&base).unwrap();
    let dirty = table(&[(0, 4096), (100, 4096)]);
    let packed = blob_of(tracker.dirty_delta_packed(&dirty, &ram(&memory)));
    let blocks = unpacked(&decompressed(&packed));
    assert_eq!(blocks[0], (0, false, memory[0..4096].to_vec()));
    assert_eq!(blocks[1], (0, false, memory[100..4196].to_vec()));
    // The content that was exported last is carried over.
    assert_eq!(tracker.clear_prev_blocks(), 1);
}

#[test]
fn rehash_takes_marked_blocks_from_guest_memory() {
    let base = golden(12);
    let mut memory = base.clone();
    for i in [1usize, 9, 10] {
        memory[i * 4096] ^= 0x33;
    }
    let all = table(&[(0, 12 * 4096)]);
    let mut tracker = DeltaTracker::default();
    tracker.init_delta_hashes(&base).unwrap();
    // Blocks 1, 9 and, past the golden image, 12 and 24.
    assert_eq!(
        tracker.rehash_from_guest_bitmap(&ram(&memory), &[0b10, 0b1_0010, 0, 1]),
        Ok(2)
    );
    assert_eq!(tracker.dirty_delta_bitmap(&all, &ram(&memory)), Ok(vec![1 << 10]));
    // Back to golden: that is a change of the rehashed blocks.
    assert_eq!(
        tracker.dirty_delta_bitmap(&all, &ram(&base)),
        Ok(vec![1 << 1 | 1 << 9 | 1 << 10])
    );
}

#[test]
fn exports_after_a_rehash_restore_memory() {
    let base = golden(6);
    let mut memory = base.clone();
    for i in [1usize, 4] {
        memory[i * 4096 + 5] ^= 0x33;
    }
    let mut image = memory.clone();
    let all = table(&[(0, 6 * 4096)]);
    let mut tracker = DeltaTracker::default();
    tracker.init_delta_hashes(&base).unwrap();
    assert_eq!(tracker.rehash_from_guest_bitmap(&ram(&memory), &[0b1_0010]), Ok(2));
    // Block 4 reverts to golden, block 2 changes, block 1 stays.
    memory[4 * 4096 + 5] ^= 0x33;
    memory[2 * 4096] ^= 1;
    let packed = blob_of(tracker.dirty_delta_packed(&all, &ram(&memory)));
    let raw = decompressed(&packed);
    let blocks = unpacked(&raw);
    assert_eq!(blocks.len(), 2);
    assert_eq!(blocks[0].0, 2);
    assert_eq!(blocks[1], (4, false, vec![0u8; 4096]));
    image = restored(&base, &image, &raw);
    assert_eq!(image, memory);
}

#[test]
fn bitmap_and_export_name_the_same_blocks() {
    let base = golden(8);
    let mut memory = base.clone();
    for i in [0usize, 3, 7] {
        memory[i * 4096 + i] ^= 0x40;
    }
    let all = table(&[(0, 8 * 4096)]);
    let mut marking = DeltaTracker::default();
    marking.init_delta_hashes(&base).unwrap();
    let mut exporting = DeltaTracker::default();
    exporting.init_delta_hashes(&base).unwrap();
    let bitmap = marking.dirty_delta_bitmap(&all, &ram(&memory)).unwrap();
    let packed = blob_of(exporting.dirty_delta_packed(&all, &ram(&memory)));
    let mut exported = 0u64;
    for (index, _, _) in unpacked(&decompressed(&packed)) {
        exported |= 1 << index;
    }
    assert_eq!(bitmap, vec![exported]);
    assert_eq!(exported, 0b1000_1001);
}

#[test]
fn last_exported_content_is_the_next_base() {
    let base = vec![0u8; 2 * 4096];
    let memory = golden(2);
    let mut tracker = DeltaTracker::default();
    tracker.init_delta_hashes(&base).unwrap();
    tracker.dirty_delta_packed(&table(&[(0, 4096), (100, 4096)]), &ram(&memory)).unwrap();
    let packed = blob_of(tracker.dirty_delta_packed(&table(&[(0, 4096)]), &ram(&memory)));
    assert!(packed.is_p_frame);
    let expected: Vec<u8> = (0..4096).map(|i| memory[i] ^ memory[100 + i]).collect();
    assert_eq!(unpacked(&decompressed(&packed)), vec![(0, true, expected)]);
}

#[test]
fn rehash_skips_unmapped_blocks() {
    let base = golden(3);
    let memory = vec![0u8; 4096];
    let mut tracker = DeltaTracker::default();
    tracker.init_delta_hashes(&base).unwrap();
    assert_eq!(tracker.rehash_from_guest_bitmap(&ram(&memory), &[0xff]), Ok(1));
    assert_eq!(tracker.rehash_from_guest_bitmap(&ram(&memory), &[]), Ok(0));
    assert_eq!(tracker.rehash_from_guest_bitmap(&ram(&memory), &[0b110]), Ok(0));
}

#[test]
fn marked_blocks_are_listed_least_significant_bit_first() {
    let memory = golden(10);
    let ram = ram(&memory);
    let blocks = marked_blocks(&[0b1000_0001, 0b11], &ram, 9);
    let numbers: Vec<u64> = blocks.iter().map(|b| b.block_idx).collect();
    assert_eq!(numbers, vec![0, 7, 8]);
    assert_eq!(blocks[1].data, &memory[7 * 4096..8 * 4096]);
}

#[test]
fn given_hashes_decide_what_is_exported() {
    let base = vec![0u8; 2 * 4096];
    let content = vec![7u8; 4096];
    let mut tracker = DeltaTracker::default();
    tracker.install_golden(&base, vec![10, 20]);
    let blocks = vec![
        DirtyBlock { block_idx: 0, hash: 10, data: &content },
        DirtyBlock { block_idx: 1, hash: 21, data: &content },
        DirtyBlock { block_idx: 2, hash: 5, data: &content },
    ];
    let export = tracker.export_changes(&blocks);
    assert_eq!(export.blocks().len(), 1);
    assert_eq!(export.blocks()[0].index, 1);
    assert_eq!(export.blocks()[0].delta, content);
    let packed = blob_of(tracker.finish_export(export, 77, Ok(vec![1, 2, 3])));
    assert_eq!(packed.blob, vec![1, 2, 3]);
    assert_eq!(packed.block_count, 1);
    assert_eq!(packed.raw_size, 77);
    assert!(!packed.is_p_frame);
    assert_eq!(tracker.clear_prev_blocks(), 1);
}

#[test]
fn recorded_hashes_are_compared_with() {
    let base = vec![0u8; 2 * 4096];
    let mut tracker = DeltaTracker::default();
    tracker.install_golden(&base, vec![10, 20]);
    let blocks = vec![DirtyBlock { block_idx: 1, hash: 21, data: &base[..4096] }];
    tracker.record_hashes(&blocks);
    assert_eq!(tracker.mark_changes(&blocks), vec![0]);
}

#[test]
fn failed_compression_keeps_the_bases() {
    let base = vec![0u8; 4096];
    let content = vec![7u8; 4096];
    let mut tracker = DeltaTracker::default();
    tracker.install_golden(&base, vec![0]);
    let block = |hash: u64| vec![DirtyBlock { block_idx: 0, hash, data: &content }];
    let export = tracker.export_changes(&block(1));
    assert_eq!(
        tracker.finish_export(export, 0, Err(DeltaError::CompressWrite)).err(),
        Some(DeltaError::CompressWrite)
    );
    let export = tracker.export_changes(&block(2));
    assert!(!export.blocks()[0].from_prev);
    assert_eq!(
        tracker.finish_export(export, 0, Err(DeltaError::CompressFinish)).err(),
        Some(DeltaError::CompressFinish)
    );
    assert_eq!(tracker.clear_prev_blocks(), 0);
}

#[test]
fn export_above_the_cap_carries_nothing_over() {
    let blocks = MAX_PREV_BLOCKS + 1;
    let base = vec![0u8; blocks * BLOCK_SIZE];
    let content = vec![7u8; BLOCK_SIZE];
    let dirty = |count: usize, hash: u64| -> Vec<DirtyBlock<'_>> {
        (0..count)
            .map(|i| DirtyBlock { block_idx: i as u64, hash, data: &content })
            .collect()
    };
    let mut tracker = DeltaTracker::default();
    tracker.install_golden(&base, vec![0; blocks]);
    let export = tracker.export_changes(&dirty(MAX_PREV_BLOCKS, 1));
    tracker.finish_export(export, 0, Ok(vec![])).unwrap();
    let export = tracker.export_changes(&dirty(1, 2));
    assert!(export.blocks()[0].from_prev);
    assert_eq!(tracker.clear_prev_blocks(), 32768);
    let export = tracker.export_changes(&dirty(MAX_PREV_BLOCKS + 1, 3));
    let packed = blob_of(tracker.finish_export(export, 0, Ok(vec![])));
    assert_eq!(packed.block_count, 32769);
    assert_eq!(tracker.clear_prev_blocks(), 0);
}

#[test]
fn packed_blob_has_the_documented_layout() {
    let mut blocks = Vec::new();
    for k in 0..9u32 {
        blocks.push(ExportedBlock {
            index: 0x0102_0300 + k,
            from_prev: k == 1 || k == 8,
            delta: vec![k as u8; 4096],
        });
    }
    let raw = pack(&blocks);
    assert_eq!(raw.len(), 20 + 2 + 36 + 9 * 4096);
    assert_eq!(
        &raw[..22],
        &[
            b'F', b'C', b'B', b'K', 2, 0, 0, 0x10, 0, 0, 9, 0, 0, 0, 0, 0, 0, 0, 0, 0, 0b10, 0b1
        ]
    );
    assert_eq!(&raw[22..30], &[0, 3, 2, 1, 1, 3, 2, 1]);
    assert_eq!(raw[58], 0);
    assert_eq!(raw[58 + 8 * 4096], 8);
    assert_eq!(pack(&Vec::new()).len(), 20);
}

#[test]
fn drive_response_defaults_to_nothing_dirty() {
    let response = DriveDirtyResponse::default();
    assert!(response.bitmap.is_empty());
    assert_eq!(response.block_size, 0);
    assert_eq!(response.total_blocks, 0);
    assert_eq!(response.clone().dirty_count, 0);
}

#[test]
fn export_decodes_to_what_was_read() {
    let base = golden(10);
    let all = table(&[(0, 10 * 4096)]);
    let mut tracker = DeltaTracker::default();
    tracker.init_delta_hashes(&base).unwrap();
    let mut previous = base.clone();
    for i in [1usize, 2, 8] {
        previous[i * 4096 + 3] ^= 0x11;
    }
    tracker.dirty_delta_packed(&all, &ram(&previous)).unwrap();
    let mut memory = previous.clone();
    for i in [0usize, 2, 8, 9] {
        memory[i * 4096 + 4] ^= 0x22;
    }
    let packed = blob_of(tracker.dirty_delta_packed(&all, &ram(&memory)));
    let raw = decompressed(&packed);
    let mut numbers = Vec::new();
    for (index, from_prev, data) in unpacked(&raw) {
        assert_eq!(from_prev, index == 2 || index == 8);
        let at = index as usize * BLOCK_SIZE;
        let base = if from_prev { &previous } else { &base };
        let content: Vec<u8> = (0..BLOCK_SIZE).map(|i| data[i] ^ base[at + i]).collect();
        assert_eq!(content, &memory[at..at + BLOCK_SIZE]);
        numbers.push(index);
    }
    assert_eq!(numbers, vec![0, 2, 8, 9]);
    // The bits of the four blocks; the other four are clear.
    assert_eq!(raw[20], 0b0110);
}

#[test]
fn repeated_aligned_ranges_export_a_block_once() {
    let base = golden(70);
    let mut memory = base.clone();
    for i in [0usize, 3, 64, 69] {
        memory[i * 4096 + 1] ^= 0x40;
    }
    // Block 3 is reported three times, block 69 is not reported.
    let dirty = table(&[(3 * 4096, 4096), (0, 69 * 4096 + 100), (2 * 4096, 3 * 4096)]);
    let mut marking = DeltaTracker::default();
    marking.init_delta_hashes(&base).unwrap();
    let mut exporting = DeltaTracker::default();
    exporting.init_delta_hashes(&base).unwrap();
    let bitmap = marking.dirty_delta_bitmap(&dirty, &ram(&memory)).unwrap();
    let packed = blob_of(exporting.dirty_delta_packed(&dirty, &ram(&memory)));
    let numbers: Vec<u32> = unpacked(&decompressed(&packed)).iter().map(|b| b.0).collect();
    assert_eq!(numbers, vec![3, 0, 64]);
    assert_eq!(bitmap, vec![0b1001, 1]);
    assert_eq!(bitmap.iter().map(|w| w.count_ones()).sum::<u32>(), packed.block_count);
    // The bitmap carries nothing over, the export all its blocks.
    assert_eq!(marking.prev_block_count(), 0);
    assert_eq!(exporting.prev_block_count(), 3);
    // Both have the same hashes on record.
    let all = table(&[(0, 70 * 4096)]);
    assert_eq!(marking.dirty_delta_bitmap(&all, &ram(&memory)), Ok(vec![0, 1 << 5]));
    assert_eq!(exporting.dirty_delta_bitmap(&all, &ram(&memory)), Ok(vec![0, 1 << 5]));
}

#[test]
fn prev_block_count_is_what_clearing_forgets() {
    let base = golden(3);
    let memory = vec![0u8; 3 * 4096];
    let mut tracker = DeltaTracker::default();
    assert_eq!(tracker.prev_block_count(), 0);
    tracker.init_delta_hashes(&base).unwrap();
    tracker.dirty_delta_packed(&table(&[(0, 2 * 4096)]), &ram(&memory)).unwrap();
    assert_eq!(tracker.prev_block_count(), 2);
    assert_eq!(tracker.clear_prev_blocks(), 2);
    assert_eq!(tracker.prev_block_count(), 0);
}

#[test]
fn countable_exports_are_made() {
    let base = golden(2);
    let mut memory = base.clone();
    memory[4096] ^= 6;
    let all = table(&[(0, 2 * 4096)]);
    let mut tracker = DeltaTracker::default();
    assert_eq!(
        tracker.try_dirty_delta_packed(&all, &ram(&memory)).unwrap().err(),
        Some(DeltaError::NotInitialized)
    );
    tracker.init_delta_hashes(&base).unwrap();
    let packed = blob_of(tracker.try_dirty_delta_packed(&all, &ram(&memory)).unwrap());
    let mut expected = vec![0u8; 4096];
    expected[0] = 6;
    assert_eq!(unpacked(&decompressed(&packed)), vec![(1, false, expected)]);
    // A range of more blocks than a blob can count, most of them unmapped.
    let huge = table(&[(0, u64::MAX)]);
    assert_eq!(
        tracker.try_dirty_delta_packed(&huge, &ram(&base)).unwrap().err(),
        Some(DeltaError::UnmappedAddress { gpa: 8192 })
    );
}
