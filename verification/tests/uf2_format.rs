use probe_rp_usb::uf2::{
    bin2uf2, merge_regions, renumber_blocks, uf2_to_regions, write_block, MergeError, Uf2Error,
};
use probe_rp_usb::Family;

fn word(b: &[u8], at: usize) -> u32 {
    u32::from_le_bytes([b[at], b[at + 1], b[at + 2], b[at + 3]])
}

#[test]
fn family_numbers() {
    assert_eq!(Family::RP2040.id(), 0xE48B_FF56);
    assert_eq!(Family::RP2XXX_ABSOLUTE.id(), 0xE48B_FF57);
    assert_eq!(Family::RP2XXX_DATA.id(), 0xE48B_FF58);
    assert_eq!(Family::RP2350_ARM_S.id(), 0xE48B_FF59);
    assert_eq!(Family::RP2350_RISCV.id(), 0xE48B_FF5A);
    assert_eq!(Family::RP2350_ARM_NS.id(), 0xE48B_FF5B);
}

#[test]
fn block_layout() {
    let mut out = vec![0xEE];
    write_block(&mut out, 0x1000_0100, &[1, 2, 3], 4, 9, 0xE48B_FF59);
    assert_eq!(out.len(), 513);
    let b = &out[1..];
    assert_eq!(word(b, 0), 0x0A32_4655);
    assert_eq!(word(b, 4), 0x9E5D_5157);
    assert_eq!(word(b, 8), 0x0000_2000);
    assert_eq!(word(b, 12), 0x1000_0100);
    assert_eq!(word(b, 16), 256);
    assert_eq!(word(b, 20), 4);
    assert_eq!(word(b, 24), 9);
    assert_eq!(word(b, 28), 0xE48B_FF59);
    assert_eq!(&b[32..36], &[1, 2, 3, 0]);
    assert!(b[36..508].iter().all(|x| *x == 0));
    assert_eq!(word(b, 508), 0x0AB1_6F30);
}

#[test]
fn binary_is_split_into_pages() {
    let data: Vec<u8> = (0..600u32).map(|i| i as u8).collect();
    let mut out = Vec::new();
    bin2uf2(&data, &mut out, 0x1000_0000, 7);
    assert_eq!(out.len(), 3 * 512);
    for i in 0..3 {
        let b = &out[512 * i..512 * i + 512];
        assert_eq!(word(b, 12), 0x1000_0000 + 256 * i as u32);
        assert_eq!(word(b, 20), i as u32);
        assert_eq!(word(b, 24), 3);
        assert_eq!(b[32], (256 * i) as u8);
    }
    let last = &out[1024..];
    assert_eq!(last[32 + 87], (512 + 87) as u32 as u8);
    assert_eq!(last[32 + 88], 0);
}

#[test]
fn empty_binary_gives_no_blocks() {
    let mut out = Vec::new();
    bin2uf2(&[], &mut out, 0xFFFF_FFFF, 7);
    assert!(out.is_empty());
    assert_eq!(uf2_to_regions(&out).unwrap(), vec![]);
}

#[test]
fn uf2_reads_back_as_one_padded_region() {
    let data: Vec<u8> = (0..300u32).map(|i| (i * 7) as u8).collect();
    let mut out = Vec::new();
    bin2uf2(&data, &mut out, 0x1004_0000, Family::RP2040.id());
    let regions = uf2_to_regions(&out).unwrap();
    assert_eq!(regions.len(), 1);
    assert_eq!(regions[0].0, 0x1004_0000);
    assert_eq!(regions[0].1.len(), 512);
    assert_eq!(&regions[0].1[..300], &data[..]);
    assert!(regions[0].1[300..].iter().all(|x| *x == 0));
}

#[test]
fn separate_addresses_stay_separate_regions() {
    let mut out = Vec::new();
    bin2uf2(&[1; 256], &mut out, 0x1000_0000, 7);
    bin2uf2(&[2; 256], &mut out, 0x1000_0100, 7);
    bin2uf2(&[3; 256], &mut out, 0x1000_1000, 7);
    let regions = uf2_to_regions(&out).unwrap();
    assert_eq!(regions.len(), 2);
    assert_eq!(regions[0].1.len(), 512);
    assert_eq!(regions[1], (0x1000_1000, vec![3; 256]));
}

#[test]
fn faulty_uf2_is_rejected() {
    let mut out = Vec::new();
    bin2uf2(&[1; 512], &mut out, 0x1000_0000, 7);
    let e = uf2_to_regions(&out[..1000]).unwrap_err();
    assert_eq!(e, Uf2Error::BadLength { len: 1000 });
    assert_eq!(e.message(), "UF2 data length is not a multiple of 512: 1000");
    let mut bad = out.clone();
    bad[512] = 0;
    let e = uf2_to_regions(&bad).unwrap_err();
    assert_eq!(e, Uf2Error::BadMagic { block: 1 });
    assert_eq!(e.message(), "invalid UF2 magic in block 1");
    let mut bad = out.clone();
    bad[16..20].copy_from_slice(&477u32.to_le_bytes());
    let e = uf2_to_regions(&bad).unwrap_err();
    assert_eq!(e, Uf2Error::BadPayloadSize { block: 0, size: 477 });
    assert_eq!(e.message(), "invalid UF2 payload size in block 0: 477");
}

#[test]
fn renumbering_stamps_every_block() {
    let mut a = Vec::new();
    bin2uf2(&[1; 300], &mut a, 0x1000_0000, 7);
    bin2uf2(&[2; 10], &mut a, 0x1001_0000, 7);
    let before = a.clone();
    renumber_blocks(&mut a, 5, 3);
    for i in 0..3 {
        let b = &a[512 * i..512 * i + 512];
        assert_eq!(word(b, 20), 5 + i as u32);
        assert_eq!(word(b, 24), 3);
        assert_eq!(&b[..20], &before[512 * i..512 * i + 20]);
        assert_eq!(&b[28..], &before[512 * i + 28..512 * i + 512]);
    }
    let again = a.clone();
    renumber_blocks(&mut a, 5, 3);
    assert_eq!(a, again);
    assert_eq!(uf2_to_regions(&a).unwrap(), uf2_to_regions(&before).unwrap());
}

#[test]
fn renumbering_one_image_changes_nothing() {
    let mut a = Vec::new();
    bin2uf2(&[1; 700], &mut a, 0x1000_0000, 7);
    let before = a.clone();
    renumber_blocks(&mut a, 0, 3);
    assert_eq!(a, before);
}

#[test]
fn joined_images_become_one_by_renumbering() {
    let data: Vec<u8> = (0..1300u32).map(|i| (i * 7) as u8).collect();
    for split in [0, 256, 768, 1280] {
        let mut whole = Vec::new();
        bin2uf2(&data, &mut whole, 0x1000_0100, 0xE48B_FF57);
        let mut joined = Vec::new();
        bin2uf2(&data[..split], &mut joined, 0x1000_0100, 0xE48B_FF57);
        let next = 0x1000_0100 + split as u32;
        bin2uf2(&data[split..], &mut joined, next, 0xE48B_FF57);
        assert_eq!(joined.len(), whole.len());
        assert_eq!(joined == whole, split == 0);
        let count = (joined.len() / 512) as u32;
        renumber_blocks(&mut joined, 0, count);
        assert_eq!(joined, whole);
    }
}

#[test]
fn renumbering_leaves_a_partial_block() {
    let mut a = vec![9u8; 600];
    renumber_blocks(&mut a, 1, 1);
    assert_eq!(&a[20..28], &[1, 0, 0, 0, 1, 0, 0, 0]);
    assert!(a[512..].iter().all(|x| *x == 9));
}

#[test]
fn merging_sorts_and_fills_gaps() {
    let (base, data) = merge_regions(
        vec![(0x108, vec![3, 4]), (0x100, vec![1, 2]), (0x104, vec![])],
        0xFF,
    )
    .unwrap();
    assert_eq!(base, 0x100);
    assert_eq!(data, vec![1, 2, 0xFF, 0xFF, 0xFF, 0xFF, 0xFF, 0xFF, 3, 4]);
}

#[test]
fn merging_adjacent_regions() {
    let (base, data) = merge_regions(vec![(16, vec![1; 4]), (20, vec![2; 4])], 0).unwrap();
    assert_eq!(base, 16);
    assert_eq!(data, vec![1, 1, 1, 1, 2, 2, 2, 2]);
}

#[test]
fn merge_errors() {
    let e = merge_regions(vec![], 0).unwrap_err();
    assert_eq!(e, MergeError::NoRegions);
    assert_eq!(e.message(), "no binary regions to merge");
    let e = merge_regions(vec![(0x10, vec![0; 8]), (0x14, vec![0; 8])], 0).unwrap_err();
    assert_eq!(
        e.message(),
        "overlapping binary regions: 0x00000010..0x00000018 and 0x00000014"
    );
    let e = merge_regions(vec![(0xFFFF_FFFE, vec![0; 8]), (0xFFFF_FFFF, vec![0])], 0).unwrap_err();
    assert_eq!(e, MergeError::AddressOverflow { addr: 0xFFFF_FFFE });
    assert_eq!(e.message(), "address overflow in region at 0xfffffffe");
    let e = merge_regions(vec![(0xFFFF_FFFE, vec![0; 8])], 0).unwrap_err();
    assert_eq!(e.message(), "address overflow in last region");
}

#[test]
fn merging_rejects_every_overlap() {
    let a = (0x100u32, vec![1u8; 32]);
    for start in [0xF1u32, 0x100, 0x110, 0x11F] {
        for regions in [
            vec![a.clone(), (start, vec![2; 16])],
            vec![(start, vec![2; 16]), (0x400, vec![3]), a.clone()],
        ] {
            assert!(matches!(
                merge_regions(regions, 0),
                Err(MergeError::Overlap { .. })
            ));
        }
    }
    assert!(merge_regions(vec![a.clone(), (0xF0, vec![2; 16])], 0).is_ok());
    assert!(merge_regions(vec![a.clone(), a], 0).is_err());
}
