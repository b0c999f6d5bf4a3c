use dirty_delta::mmap::{
    protection_is_known, request_offset, MapAction, MapError, MapEvent, MapPhase, Mapper,
    MmapRegion, PROT_EXEC, PROT_READ, PROT_WRITE, SZ_1G, SZ_2M,
};

const PROT: i32 = PROT_READ | PROT_WRITE;

fn started(len: u64, offset1: u64, offset2: u64) -> Mapper {
    MmapRegion::mmap(len, PROT, offset1, offset2).unwrap()
}

#[test]
fn alignment_grows_with_length() {
    assert_eq!(MmapRegion::alignment_for_len(0), 0);
    assert_eq!(MmapRegion::alignment_for_len(SZ_2M - 1), 0);
    assert_eq!(MmapRegion::alignment_for_len(SZ_2M), 0x20_0000);
    assert_eq!(MmapRegion::alignment_for_len(SZ_1G - 1), 0x20_0000);
    assert_eq!(MmapRegion::alignment_for_len(SZ_1G), 0x4000_0000);
    assert_eq!(MmapRegion::alignment_for_len(u64::MAX), 0x4000_0000);
}

#[test]
fn bad_requests_are_refused() {
    assert_eq!(MmapRegion::mmap(1, PROT, u64::MAX, 1).err(), Some(MapError::BadOffset));
    assert_eq!(MmapRegion::mmap(1, PROT, i64::MAX as u64, 1).err(), Some(MapError::BadOffset));
    assert_eq!(MmapRegion::mmap(u64::MAX, PROT, u64::MAX, 1).err(), Some(MapError::BadOffset));
    assert_eq!(
        MmapRegion::mmap(isize::MAX as u64 + 1, PROT, 0, 0).err(),
        Some(MapError::BadLength)
    );
    assert!(MmapRegion::mmap(isize::MAX as u64, PROT, i64::MAX as u64, 0).is_ok());
}

#[test]
fn small_mapping_goes_anywhere() {
    let mut mapper = started(4096, 4096, 8192);
    assert_eq!(mapper.alignment(), 0);
    assert_eq!(mapper.action(), Some(MapAction::MapAnywhere { len: 4096, prot: PROT, offset: 12288 }));
    assert!(mapper.region().is_none());
    mapper.advance(MapEvent::Mapped { addr: 0x7000 });
    assert_eq!(mapper.action(), None);
    let region = mapper.region().unwrap();
    assert_eq!(region.addr(), 0x7000);
    assert_eq!(region.len(), 4096);
}

#[test]
fn unaligned_offset_skips_the_aligned_place() {
    let mapper = started(SZ_2M, 4096, 0);
    assert_eq!(mapper.alignment(), 0);
    assert_eq!(mapper.phase(), MapPhase::Plain);
}

#[test]
fn large_mapping_is_aligned_and_trimmed() {
    let mut mapper = started(0x40_0000, 0x20_0000, 0x20_0000);
    assert_eq!(mapper.alignment(), 0x20_0000);
    assert_eq!(mapper.action(), Some(MapAction::Reserve { len: 0x60_0000 }));
    mapper.advance(MapEvent::Mapped { addr: 0x10_1000 });
    assert_eq!(
        mapper.action(),
        Some(MapAction::PlaceAt { addr: 0x20_0000, len: 0x40_0000, prot: PROT, offset: 0x40_0000 })
    );
    assert!(!mapper.accepts(MapEvent::Mapped { addr: 0x40_0000 }));
    mapper.advance(MapEvent::Mapped { addr: 0x20_0000 });
    assert_eq!(mapper.action(), Some(MapAction::Unmap { addr: 0x10_1000, len: 0xf_f000 }));
    mapper.advance(MapEvent::Finished);
    assert_eq!(mapper.action(), Some(MapAction::Unmap { addr: 0x60_0000, len: 0x10_1000 }));
    mapper.advance(MapEvent::Finished);
    assert_eq!(mapper.action(), Some(MapAction::AdviseHuge { addr: 0x20_0000, len: 0x40_0000 }));
    mapper.advance(MapEvent::Finished);
    assert_eq!(mapper.action(), None);
    let region = mapper.region().unwrap();
    assert_eq!(region.addr(), 0x20_0000);
    assert_eq!(region.len(), 0x40_0000);
}

#[test]
fn aligned_reservation_has_no_head() {
    let mut mapper = started(SZ_1G, 0, 0);
    assert_eq!(mapper.action(), Some(MapAction::Reserve { len: 0x8000_0000 }));
    mapper.advance(MapEvent::Mapped { addr: 0x4000_0000 });
    mapper.advance(MapEvent::Mapped { addr: 0x4000_0000 });
    assert_eq!(
        mapper.action(),
        Some(MapAction::Unmap { addr: 0x8000_0000, len: 0x4000_0000 })
    );
}

#[test]
fn failed_placement_releases_the_reservation_and_falls_back() {
    let mut mapper = started(SZ_2M, 0, 0);
    mapper.advance(MapEvent::Mapped { addr: 0x30_0000 });
    mapper.advance(MapEvent::Failed);
    assert_eq!(mapper.action(), Some(MapAction::Unmap { addr: 0x30_0000, len: 0x40_0000 }));
    mapper.advance(MapEvent::Finished);
    assert_eq!(mapper.action(), Some(MapAction::MapAnywhere { len: 0x20_0000, prot: PROT, offset: 0 }));
    mapper.advance(MapEvent::Mapped { addr: 0x9000 });
    assert_eq!(mapper.region().unwrap().addr(), 0x9000);
}

#[test]
fn failed_reservation_falls_back_and_may_fail() {
    let mut mapper = started(SZ_2M, 0, 0);
    mapper.advance(MapEvent::Failed);
    assert_eq!(mapper.phase(), MapPhase::Plain);
    mapper.advance(MapEvent::Failed);
    assert_eq!(mapper.phase(), MapPhase::Failed);
    assert_eq!(mapper.action(), None);
    assert!(mapper.region().is_none());
}

#[test]
fn held_addresses_end_up_as_the_region() {
    let mut mapper = started(SZ_2M, 0, 0);
    // Pages of 4 KiB that are held, as the system calls map and unmap them.
    let mut held: Vec<usize> = Vec::new();
    let mut calls = 0;
    while let Some(action) = mapper.action() {
        calls += 1;
        let event = match action {
            MapAction::Reserve { len } => {
                held.extend((0x12_3000..0x12_3000 + len).step_by(4096));
                MapEvent::Mapped { addr: 0x12_3000 }
            }
            MapAction::PlaceAt { addr, len, .. } => {
                assert!((addr..addr + len).step_by(4096).all(|a| held.contains(&a)));
                MapEvent::Mapped { addr }
            }
            MapAction::Unmap { addr, len } => {
                assert!((addr..addr + len).step_by(4096).all(|a| held.contains(&a)));
                held.retain(|a| *a < addr || *a >= addr + len);
                MapEvent::Finished
            }
            MapAction::AdviseHuge { .. } => MapEvent::Finished,
            MapAction::MapAnywhere { .. } => unreachable!(),
        };
        assert!(mapper.accepts(event));
        mapper.advance(event);
    }
    assert_eq!(calls, 5);
    let region = mapper.region().unwrap();
    assert_eq!(region.addr() % SZ_2M as usize, 0);
    let expected: Vec<usize> =
        (region.addr()..region.addr() + region.len()).step_by(4096).collect();
    assert_eq!(held, expected);
}

#[test]
fn events_that_do_not_fit_are_not_accepted() {
    let mapper = started(SZ_2M, 0, 0);
    assert!(!mapper.accepts(MapEvent::Finished));
    assert!(!mapper.accepts(MapEvent::Mapped { addr: usize::MAX }));
    assert!(mapper.accepts(MapEvent::Failed));
}

#[test]
fn known_protections_are_made_of_three_bits() {
    assert_eq!((PROT_READ, PROT_WRITE, PROT_EXEC), (1, 2, 4));
    for prot in 0..8 {
        assert!(protection_is_known(prot));
    }
    assert!(!protection_is_known(8));
    assert!(!protection_is_known(PROT_READ | 0x10));
    assert!(!protection_is_known(-1));
    assert!(!protection_is_known(i32::MIN));
}

#[test]
fn bad_requests_are_refused_whatever_the_protection() {
    assert_eq!(MmapRegion::mmap(1, -1, u64::MAX, 1).err(), Some(MapError::BadOffset));
    assert_eq!(MmapRegion::mmap(u64::MAX, 8, 0, 0).err(), Some(MapError::BadLength));
}

#[test]
fn request_offset_is_the_sum() {
    assert_eq!(request_offset(1, 4096, 8192), Ok(12288));
    assert_eq!(request_offset(1, i64::MAX as u64, 0), Ok(i64::MAX));
    assert_eq!(request_offset(1, i64::MAX as u64, 1), Err(MapError::BadOffset));
    assert_eq!(request_offset(u64::MAX, u64::MAX, u64::MAX), Err(MapError::BadOffset));
    assert_eq!(request_offset(u64::MAX, 0, 0), Err(MapError::BadLength));
}

#[test]
fn file_is_mapped_with_the_protection_asked_for() {
    let mut mapper = MmapRegion::mmap(SZ_2M, PROT_EXEC, 0, 0).unwrap();
    mapper.advance(MapEvent::Mapped { addr: 0x20_0000 });
    assert_eq!(
        mapper.action(),
        Some(MapAction::PlaceAt { addr: 0x20_0000, len: 0x20_0000, prot: 4, offset: 0 })
    );
    mapper.advance(MapEvent::Failed);
    mapper.advance(MapEvent::Finished);
    assert_eq!(
        mapper.action(),
        Some(MapAction::MapAnywhere { len: 0x20_0000, prot: 4, offset: 0 })
    );
}
