use probe_rp_usb::elf2uf2::{
    check_address_range, elf2uf2, is_address_initialized, range_for, ranges_of, try_elf2uf2,
    AddressRange, AddressRangeType, AddressRangesFromElfError, Elf2Uf2Error,
};
use probe_rp_usb::uf2::{bin2uf2, uf2_to_regions};
use probe_rp_usb::Family;

struct Seg {
    vaddr: u32,
    paddr: u32,
    data: Vec<u8>,
    memsz: u32,
}

fn seg(addr: u32, data: Vec<u8>) -> Seg {
    let memsz = data.len() as u32;
    Seg {
        vaddr: addr,
        paddr: addr,
        data,
        memsz,
    }
}

fn elf32(entry: u32, segs: &[Seg]) -> Vec<u8> {
    let mut out = vec![0x7F, b'E', b'L', b'F', 1, 1, 1, 0, 0, 0, 0, 0, 0, 0, 0, 0];
    out.extend(2u16.to_le_bytes());
    out.extend(0x28u16.to_le_bytes());
    out.extend(1u32.to_le_bytes());
    out.extend(entry.to_le_bytes());
    out.extend(52u32.to_le_bytes());
    out.extend(0u32.to_le_bytes());
    out.extend(0u32.to_le_bytes());
    for v in [52u16, 32, segs.len() as u16, 40, 0, 0] {
        out.extend(v.to_le_bytes());
    }
    let mut offset = 52 + 32 * segs.len() as u32;
    for s in segs {
        for v in [
            1u32,
            offset,
            s.vaddr,
            s.paddr,
            s.data.len() as u32,
            s.memsz,
            5,
            4,
        ] {
            out.extend(v.to_le_bytes());
        }
        offset += s.data.len() as u32;
    }
    for s in segs {
        out.extend(&s.data);
    }
    out
}

fn word(b: &[u8], at: usize) -> u32 {
    u32::from_le_bytes([b[at], b[at + 1], b[at + 2], b[at + 3]])
}

fn convert(file: &[u8], family: Family) -> Result<Vec<u8>, Elf2Uf2Error> {
    let mut out = Vec::new();
    elf2uf2(file, &mut out, family)?;
    Ok(out)
}

#[test]
fn flash_binary_becomes_its_pages() {
    let data: Vec<u8> = (0..300u32).map(|i| (i * 3) as u8).collect();
    let file = elf32(0x1000_0001, &[seg(0x1000_0000, data.clone())]);
    let out = convert(&file, Family::RP2350_ARM_S).unwrap();
    let mut expected = Vec::new();
    bin2uf2(&data, &mut expected, 0x1000_0000, Family::RP2350_ARM_S.id());
    assert_eq!(out, expected);
}

#[test]
fn output_is_appended() {
    let file = elf32(0x1000_0001, &[seg(0x1000_0000, vec![1; 8])]);
    let mut out = vec![0xAB];
    elf2uf2(&file, &mut out, Family::RP2040).unwrap();
    assert_eq!(out.len(), 513);
    assert_eq!(out[0], 0xAB);
}

#[test]
fn holes_in_touched_sectors_are_filled() {
    let file = elf32(
        0x1000_0000,
        &[seg(0x1000_0010, vec![7; 16]), seg(0x1000_0000, vec![5; 16]), seg(0x1000_0500, vec![9; 16])],
    );
    let out = convert(&file, Family::RP2XXX_ABSOLUTE).unwrap();
    assert_eq!(out.len(), 6 * 512);
    for i in 0..6 {
        let b = &out[512 * i..512 * i + 512];
        assert_eq!(word(b, 12), 0x1000_0000 + 256 * i as u32);
        assert_eq!(word(b, 20), i as u32);
        assert_eq!(word(b, 24), 6);
    }
    assert_eq!(&out[32..48], &[5; 16]);
    assert_eq!(&out[48..64], &[7; 16]);
    assert!(out[64..288].iter().all(|x| *x == 0));
    let regions = uf2_to_regions(&out).unwrap();
    assert_eq!(regions.len(), 1);
    assert_eq!(&regions[0].1[0x500..0x510], &[9; 16]);
    assert!(regions[0].1[0x100..0x500].iter().all(|x| *x == 0));
}

#[test]
fn segments_are_placed_by_physical_address() {
    let s = Seg {
        vaddr: 0x2000_0000,
        paddr: 0x1000_0080,
        data: vec![1; 256],
        memsz: 256,
    };
    let file = elf32(0x1000_0000, &[seg(0x1000_0000, vec![2; 16]), s]);
    let out = convert(&file, Family::RP2350_ARM_S).unwrap();
    let regions = uf2_to_regions(&out).unwrap();
    assert_eq!(regions[0].0, 0x1000_0000);
    assert_eq!(&regions[0].1[0..16], &[2; 16]);
    assert_eq!(&regions[0].1[0x80..0x180], &[1; 256]);
    assert_eq!(regions[0].1[0x180], 0);
}

#[test]
fn overlapping_segments_are_rejected() {
    let file = elf32(
        0x1000_0000,
        &[seg(0x1000_0000, vec![1; 20]), seg(0x1000_0013, vec![2; 4])],
    );
    let e = convert(&file, Family::RP2040).unwrap_err();
    assert_eq!(e.message(), "Failed to get address ranges from elf");
    match e {
        Elf2Uf2Error::FailedToGetPagesFromRanges(inner) => {
            assert_eq!(inner, AddressRangesFromElfError::SegmentsOverlap);
            assert_eq!(inner.message(), "In-memory segments overlap");
        }
        other => panic!("{other:?}"),
    }
    let touching = elf32(
        0x1000_0000,
        &[seg(0x1000_0000, vec![1; 20]), seg(0x1000_0014, vec![2; 4])],
    );
    assert!(convert(&touching, Family::RP2040).is_ok());
}

#[test]
fn segments_outside_of_the_device_are_rejected() {
    let file = elf32(
        0x1000_0000,
        &[seg(0x1000_0000, vec![1; 4]), seg(0x3000_0000, vec![2; 4])],
    );
    match convert(&file, Family::RP2040).unwrap_err() {
        Elf2Uf2Error::FailedToGetPagesFromRanges(e) => {
            assert_eq!(
                e,
                AddressRangesFromElfError::SegmentInvalidForDevice(0x3000_0000, 0x3000_0004)
            );
            assert_eq!(
                e.message(),
                "Memory segment 0x30000000->0x30000004 is outside of valid address range for device"
            );
        }
        other => panic!("{other:?}"),
    }
}

#[test]
fn uninitialized_memory_gets_no_contents() {
    let file = elf32(
        0x1000_0000,
        &[seg(0x1000_0000, vec![1; 4]), seg(0x2000_0000, vec![2; 4])],
    );
    match convert(&file, Family::RP2040).unwrap_err() {
        Elf2Uf2Error::FailedToGetPagesFromRanges(e) => {
            assert_eq!(
                e,
                AddressRangesFromElfError::ContentsForUninitializedMemory(0x2000_0000)
            );
            assert_eq!(
                e.message(),
                "ELF contains memory contents for uninitialized memory at 20000000"
            );
        }
        other => panic!("{other:?}"),
    }
}

#[test]
fn zero_filled_tail_must_fit_too() {
    let s = Seg {
        vaddr: 0x1000_0000,
        paddr: 0x1000_0000,
        data: vec![1; 8],
        memsz: 0x0600_0000,
    };
    match convert(&elf32(0x1000_0000, &[s]), Family::RP2040).unwrap_err() {
        Elf2Uf2Error::FailedToGetPagesFromRanges(e) => assert_eq!(
            e,
            AddressRangesFromElfError::SegmentInvalidForDevice(0x1000_0008, 0x1600_0000)
        ),
        other => panic!("{other:?}"),
    }
}

#[test]
fn entry_point_must_be_mapped() {
    let file = elf32(0x1000_0100, &[seg(0x1000_0000, vec![1; 16])]);
    let e = convert(&file, Family::RP2040).unwrap_err();
    assert!(matches!(e, Elf2Uf2Error::EntryPointNotMapped));
    assert_eq!(e.message(), "entry point is not in mapped part of file");
}

#[test]
fn ram_binary_starts_at_its_first_page() {
    let ok = elf32(0x2000_0001, &[seg(0x2000_0000, vec![1; 16])]);
    let out = convert(&ok, Family::RP2350_ARM_S).unwrap();
    assert_eq!(out.len(), 512);
    assert_eq!(word(&out, 12), 0x2000_0000);
    let bad = elf32(0x2000_0005, &[seg(0x2000_0000, vec![1; 16])]);
    let e = convert(&bad, Family::RP2350_ARM_S).unwrap_err();
    assert!(matches!(
        e,
        Elf2Uf2Error::RamBinaryEntryPoint(0x2000_0001, 0x2000_0005)
    ));
    assert_eq!(
        e.message(),
        "A RAM binary should have an entry point at the beginning: 0x20000001 (not 0x20000005)"
    );
}

#[test]
fn ram_binary_gets_no_filler_pages() {
    let file = elf32(
        0x2000_0001,
        &[seg(0x2000_0000, vec![1; 16]), seg(0x2000_0400, vec![2; 16])],
    );
    let out = convert(&file, Family::RP2350_ARM_S).unwrap();
    assert_eq!(out.len(), 2 * 512);
    assert_eq!(word(&out[512..], 12), 0x2000_0400);
}

#[test]
fn xip_sram_cannot_be_entered_directly() {
    let file = elf32(0x1500_0001, &[seg(0x1500_0000, vec![1; 16])]);
    let e = convert(&file, Family::RP2040).unwrap_err();
    assert!(matches!(e, Elf2Uf2Error::DirectEntryIntoXipSram));
    assert_eq!(
        e.message(),
        "B0/B1 Boot ROM does not support direct entry into XIP_SRAM"
    );
}

#[test]
fn garbage_is_no_elf_file() {
    let mut out = vec![1];
    let e = elf2uf2(&[0; 64], &mut out, Family::RP2040).unwrap_err();
    assert!(matches!(e, Elf2Uf2Error::FailedToOpenElfFile(_)));
    assert_eq!(e.message(), "Failed to open elf file");
    assert_eq!(out, vec![1]);
}

#[test]
fn truncated_segment_stops_the_output() {
    let mut file = elf32(
        0x1000_0000,
        &[seg(0x1000_0000, vec![1; 256]), seg(0x1000_0100, vec![2; 256])],
    );
    file.truncate(file.len() - 1);
    let mut out = Vec::new();
    let e = elf2uf2(&file, &mut out, Family::RP2040).unwrap_err();
    assert!(matches!(e, Elf2Uf2Error::FailedToRealizePages(_)));
    assert_eq!(e.message(), "Failed to realize pages for elf file");
    assert_eq!(out.len(), 512);
    assert_eq!(&out[32..288], &[1; 256]);
}

#[test]
fn remaining_messages() {
    assert_eq!(
        Elf2Uf2Error::InputFileNoMemoryPages.message(),
        "The input file has no memory pages"
    );
    assert_eq!(
        AddressRangesFromElfError::NoSegments.message(),
        "No segments in ELF"
    );
}

struct Seg64 {
    vaddr: u64,
    paddr: u64,
    memsz: u64,
}

/// Every segment has the same four bytes in the file.
fn elf64(entry: u64, segs: &[Seg64]) -> Vec<u8> {
    let mut out = vec![0x7F, b'E', b'L', b'F', 2, 1, 1, 0, 0, 0, 0, 0, 0, 0, 0, 0];
    out.extend(2u16.to_le_bytes());
    out.extend(0x28u16.to_le_bytes());
    out.extend(1u32.to_le_bytes());
    out.extend(entry.to_le_bytes());
    out.extend(64u64.to_le_bytes());
    out.extend(0u64.to_le_bytes());
    out.extend(0u32.to_le_bytes());
    for v in [64u16, 56, segs.len() as u16, 64, 0, 0] {
        out.extend(v.to_le_bytes());
    }
    let offset = 64 + 56 * segs.len() as u64;
    for s in segs {
        out.extend(1u32.to_le_bytes());
        out.extend(5u32.to_le_bytes());
        for v in [offset, s.vaddr, s.paddr, 4, s.memsz, 4] {
            out.extend(v.to_le_bytes());
        }
    }
    out.extend([1, 2, 3, 4]);
    out
}

fn at(addr: u64, memsz: u64) -> Seg64 {
    Seg64 {
        vaddr: addr,
        paddr: addr,
        memsz,
    }
}

#[test]
fn segments_of_wide_files_are_placed() {
    let mut out = vec![5];
    let file = elf64(0x1000_0000, &[at(0x1000_0000, 4)]);
    assert!(try_elf2uf2(&file, &mut out, Family::RP2040)
        .unwrap()
        .is_ok());
    assert_eq!(out.len(), 513);
    assert_eq!(&out[33..37], &[1, 2, 3, 4]);
}

#[test]
fn placed_segments_must_end_within_64_bits() {
    let mut out = vec![5];
    let first = at(0x1000_0000, 4);
    let file = elf64(0x1000_0000, &[first, at(0xFFFF_FFFF_FFFF_FFFE, 0x200)]);
    assert!(try_elf2uf2(&file, &mut out, Family::RP2040).is_none());
    assert_eq!(out, vec![5]);
    let file = elf64(0x1000_0000, &[at(0x1000_0000, 0xFFFF_FFFF_FFFF_FF00)]);
    assert!(try_elf2uf2(&file, &mut out, Family::RP2040).is_none());
    assert_eq!(out, vec![5]);
}

#[test]
fn virtual_addresses_may_be_anything() {
    let mut out = Vec::new();
    let high = Seg64 {
        vaddr: 0xFFFF_FFFF_FFFF_FFFE,
        paddr: 0x1000_0004,
        memsz: 4,
    };
    let file = elf64(0x1000_0000, &[at(0x1000_0000, 4), high]);
    assert!(try_elf2uf2(&file, &mut out, Family::RP2040)
        .unwrap()
        .is_ok());
    assert_eq!(out.len(), 512);
    assert_eq!(&out[32..41], &[1, 2, 3, 4, 1, 2, 3, 4, 0]);
}

#[test]
fn first_fault_ends_the_placing() {
    let mut out = Vec::new();
    let beyond = 0xFFFF_FFFF_FFFF_FFFE;
    let file = elf64(
        0x1000_0000,
        &[at(0x1000_0000, 4), at(0x6000_0000, 4), at(beyond, 4)],
    );
    match try_elf2uf2(&file, &mut out, Family::RP2040) {
        Some(Err(Elf2Uf2Error::FailedToGetPagesFromRanges(e))) => assert_eq!(
            e,
            AddressRangesFromElfError::SegmentInvalidForDevice(0x6000_0000, 0x6000_0004)
        ),
        _ => panic!("the second segment is not for the device"),
    }
    let file = elf64(
        0x1000_0000,
        &[at(0x1000_0000, 4), at(0x1000_0002, 0xFFFF_FFFF_FFFF_FF00), at(beyond, 4)],
    );
    match try_elf2uf2(&file, &mut out, Family::RP2040) {
        Some(Err(Elf2Uf2Error::FailedToGetPagesFromRanges(e))) => {
            assert_eq!(e, AddressRangesFromElfError::SegmentsOverlap)
        }
        _ => panic!("the second segment overlaps the first"),
    }
    let file = elf64(0x1000_0000, &[at(beyond, 0x200)]);
    assert!(matches!(
        try_elf2uf2(&file, &mut out, Family::RP2040),
        Some(Err(Elf2Uf2Error::EntryPointNotMapped))
    ));
    assert!(out.is_empty());
}

#[test]
fn ranges_hold_addresses() {
    let ranges = ranges_of(Family::RP2350_ARM_S, true);
    assert_eq!(
        range_for(&ranges, 0x13FF_C000),
        Some(AddressRange::new(
            0x13FF_C000,
            0x1400_0000,
            AddressRangeType::Contents
        ))
    );
    assert_eq!(range_for(&ranges, 0x1400_0000), None);
    assert!(is_address_initialized(&ranges, 0x2000_0000));
    assert!(!is_address_initialized(&ranges, 0));
    assert_eq!(
        check_address_range(&ranges, 0, 0x8000, false).unwrap().typ,
        AddressRangeType::Ignore
    );
    assert!(check_address_range(&ranges, 0, 0x8001, false).is_err());
    let flash = ranges_of(Family::RP2040, false);
    assert!(check_address_range(&flash, 0x2100_0000, 0x4_0000, true).is_ok());
    assert!(check_address_range(&flash, 0x2100_0000, 0x4_0000, false).is_err());
}
