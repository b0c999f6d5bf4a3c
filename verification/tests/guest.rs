use dirty_delta::guest::{
    has_few_blocks, scan_blocks, GuestRam, GuestRegion, MemoryRange, MemoryRangeTable, BLOCK_SIZE,
};

fn table(ranges: &[(u64, u64)]) -> MemoryRangeTable {
    let mut data = Vec::new();
    for &(gpa, length) in ranges {
        data.push(MemoryRange { gpa, length });
    }
    MemoryRangeTable::from_ranges(data)
}

fn numbered(blocks: usize) -> Vec<u8> {
    let mut bytes = vec![0u8; blocks * BLOCK_SIZE];
    for (i, byte) in bytes.iter_mut().enumerate() {
        *byte = (i / BLOCK_SIZE) as u8;
    }
    bytes
}

#[test]
fn table_keeps_its_ranges() {
    let table = table(&[(4096, 1), (0, 2)]);
    assert_eq!(
        table.regions(),
        &[MemoryRange { gpa: 4096, length: 1 }, MemoryRange { gpa: 0, length: 2 }]
    );
}

#[test]
fn scan_reads_whole_blocks_in_order() {
    let bytes = numbered(8);
    let ram = GuestRam::new(vec![GuestRegion { start: 0, data: &bytes }]).unwrap();
    let scan = scan_blocks(&table(&[(5 * 4096, 2 * 4096 + 4095), (4096, 4096), (0, 4095)]), &ram);
    let found: Vec<(u64, u8)> = scan.blocks.iter().map(|b| (b.block_idx, b.data[0])).collect();
    assert_eq!(found, vec![(5, 5), (6, 6), (1, 1)]);
    assert!(scan.blocks.iter().all(|b| b.data.len() == 4096));
    assert_eq!(scan.fault, None);
}

#[test]
fn scan_of_unaligned_range_reads_across_blocks() {
    let bytes = numbered(3);
    let ram = GuestRam::new(vec![GuestRegion { start: 0, data: &bytes }]).unwrap();
    let scan = scan_blocks(&table(&[(4096 + 100, 4096)]), &ram);
    assert_eq!(scan.blocks.len(), 1);
    assert_eq!(scan.blocks[0].block_idx, 1);
    assert_eq!(scan.blocks[0].data, &bytes[4196..8292]);
}

#[test]
fn scan_stops_at_the_first_unmapped_address() {
    let bytes = numbered(2);
    let ram = GuestRam::new(vec![GuestRegion { start: 0, data: &bytes }]).unwrap();
    let scan = scan_blocks(&table(&[(4096, 3 * 4096), (0, 4096)]), &ram);
    assert_eq!(scan.blocks.len(), 1);
    assert_eq!(scan.blocks[0].block_idx, 1);
    assert_eq!(scan.fault, Some(8192));
}

#[test]
fn scan_of_a_range_past_the_address_space_stops() {
    let ram = GuestRam::new(vec![]).unwrap();
    let scan = scan_blocks(&table(&[(u64::MAX, u64::MAX)]), &ram);
    assert!(scan.blocks.is_empty());
    assert_eq!(scan.fault, Some(u64::MAX));
}

#[test]
fn block_must_lie_in_one_region() {
    let low = numbered(1);
    let high = numbered(2);
    let ram = GuestRam::new(vec![
        GuestRegion { start: 0, data: &low },
        GuestRegion { start: 4096, data: &high },
    ])
    .unwrap();
    assert_eq!(ram.block(0), Some(&low[..]));
    assert_eq!(ram.block(8192), Some(&high[4096..]));
    assert_eq!(ram.block(1), None);
    assert_eq!(ram.block(8193), None);
    assert_eq!(ram.block(12288), None);
}

#[test]
fn regions_must_end_inside_the_address_space() {
    let bytes = numbered(1);
    assert!(GuestRam::new(vec![GuestRegion { start: u64::MAX - 4096, data: &bytes }]).is_some());
    assert!(GuestRam::new(vec![GuestRegion { start: u64::MAX - 4095, data: &bytes }]).is_none());
}

#[test]
fn few_blocks_fit_a_32_bit_count() {
    let most = u32::MAX as u64 * 4096;
    assert!(has_few_blocks(&table(&[])));
    assert!(has_few_blocks(&table(&[(0, most + 4095)])));
    assert!(!has_few_blocks(&table(&[(0, most + 4096)])));
    assert!(!has_few_blocks(&table(&[(0, most), (0, 4095), (8192, 4096)])));
    assert!(!has_few_blocks(&table(&[(0, u64::MAX), (0, u64::MAX)])));
}
