use probe_rp_usb::flash::flash;
use probe_rp_usb::flash_ops::{
    align_down, align_up, overlap_len, start_op, FlashError, FlashOp, FlashReply,
};
use probe_rp_usb::picoboot::{PicobootConnection, PC_READ, PC_WRITE};
use probe_rp_usb::uf2::uf2_to_regions;
use probe_rp_usb::write::{
    erase_flash, erase_flash_uf2, read_flash, write_data, write_data_uf2, write_regions_data,
    EraseState, ReadState, WriteRegion, WriteSession, WriteState, WriteTarget,
};
use probe_rp_usb::Family;

const BASE: u32 = 0x1000_0000;

struct Device {
    mem: Vec<u8>,
    log: Vec<String>,
}

impl Device {
    fn new() -> Device {
        Device {
            mem: (0..0x8000u32).map(|i| (i * 31 + 7) as u8).collect(),
            log: Vec::new(),
        }
    }

    fn perform(&mut self, op: FlashOp) -> FlashReply {
        match op {
            FlashOp::ExitXip => {
                self.log.push("exit".to_owned());
                FlashReply::Completed
            }
            FlashOp::Read { addr, len } => {
                self.log.push(format!("read {addr:x} {len}"));
                let at = (addr - BASE) as usize;
                FlashReply::Received(self.mem[at..at + len as usize].to_vec())
            }
            FlashOp::Erase { addr, len } => {
                self.log.push(format!("erase {addr:x} {len}"));
                let at = (addr - BASE) as usize;
                self.mem[at..at + len as usize].fill(0xFF);
                FlashReply::Completed
            }
            FlashOp::Write { addr, data } => {
                assert_eq!(data.len(), 256);
                let at = (addr - BASE) as usize;
                for (i, b) in data.iter().enumerate() {
                    self.mem[at + i] &= *b;
                }
                FlashReply::Completed
            }
            FlashOp::RebootFlashUpdate { addr } => {
                self.log.push(format!("update {addr:x}"));
                FlashReply::Failed
            }
            FlashOp::RebootApplication => {
                self.log.push("application".to_owned());
                FlashReply::Failed
            }
        }
    }
}

fn region(address: u32, data: Vec<u8>) -> WriteRegion {
    WriteRegion {
        label: "r".to_owned(),
        address,
        data,
    }
}

fn run(session: &mut WriteSession, device: &mut Device) -> u64 {
    let mut written = 0u64;
    while let Some(op) = session.next_op() {
        let reply = device.perform(op);
        written += session.advance(reply) as u64;
    }
    written
}

#[test]
fn unaligned_write_keeps_the_neighbours() {
    let mut device = Device::new();
    let mut expected = device.mem.clone();
    let data: Vec<u8> = (0..5000u32).map(|i| (i * 5) as u8).collect();
    expected[0x0F80..0x0F80 + 5000].copy_from_slice(&data);
    let mut s = write_regions_data(vec![region(BASE + 0x0F80, data)], false);
    assert_eq!(s.total(), 5000);
    assert_eq!(run(&mut s, &mut device), 5000);
    assert!(matches!(s.state, WriteState::Complete));
    assert_eq!(device.mem, expected);
    assert_eq!(
        device.log,
        vec![
            "exit",
            "read 10000000 4096",
            "erase 10000000 4096",
            "erase 10001000 4096",
            "read 10002000 4096",
            "erase 10002000 4096",
            "update 10000f80",
        ]
    );
}

#[test]
fn whole_sectors_are_not_read() {
    let mut device = Device::new();
    let mut s = write_regions_data(vec![region(BASE, vec![3; 4096])], true);
    run(&mut s, &mut device);
    assert_eq!(device.log, vec!["exit", "erase 10000000 4096"]);
    assert!(device.mem[..4096].iter().all(|b| *b == 3));
}

#[test]
fn regions_are_laid_over_each_other_in_order() {
    let mut device = Device::new();
    let mut expected = device.mem.clone();
    expected[0x100..0x200].fill(1);
    expected[0x180..0x280].fill(2);
    let mut s = write_regions_data(
        vec![
            region(BASE + 0x100, vec![1; 256]),
            region(BASE + 0x50, vec![]),
            region(BASE + 0x180, vec![2; 256]),
        ],
        false,
    );
    assert_eq!(run(&mut s, &mut device), 512);
    assert_eq!(device.mem, expected);
    assert_eq!(device.log.last().unwrap(), "update 10000100");
}

#[test]
fn nothing_to_write_still_reboots() {
    let mut device = Device::new();
    let mut s = write_regions_data(vec![], false);
    assert_eq!(run(&mut s, &mut device), 0);
    assert_eq!(device.log, vec!["exit", "update 10000000"]);
}

#[test]
fn erase_boot_comes_first() {
    let mut device = Device::new();
    let target = WriteTarget {
        path: "a.bin".to_owned(),
        address: BASE + 0x4000,
    };
    let mut s = write_data(vec![target], vec![vec![5; 10]], true, true);
    assert_eq!(s.pending[0].label, "erase-boot");
    assert_eq!(s.pending[1].label, "a.bin");
    assert_eq!(s.total(), 266);
    assert_eq!(run(&mut s, &mut device), 266);
    assert!(device.mem[..256].iter().all(|b| *b == 0xFF));
    assert_eq!(&device.mem[0x4000..0x400A], &[5; 10]);
    assert_eq!(device.mem[0x400A], (0x400Au32 * 31 + 7) as u8);
}

#[test]
fn write_errors_name_the_place() {
    let mut s = write_regions_data(vec![region(BASE + 4, vec![1; 4])], false);
    s.advance(FlashReply::Failed);
    match s.state {
        WriteState::Failed(e) => assert_eq!(e.message(), "Failed to exit XIP mode"),
        other => panic!("{other:?}"),
    }
    let mut s = write_regions_data(vec![region(BASE + 4, vec![1; 4])], false);
    s.advance(FlashReply::Completed);
    s.advance(FlashReply::Failed);
    match s.state {
        WriteState::Failed(e) => {
            assert_eq!(e, FlashError::ReadSector { addr: BASE });
            assert_eq!(e.message(), "Failed to read flash sector at 0x10000000");
        }
        other => panic!("{other:?}"),
    }
    let mut s = write_regions_data(vec![region(BASE + 4096, vec![1; 4096])], false);
    s.advance(FlashReply::Completed);
    s.advance(FlashReply::Completed);
    s.advance(FlashReply::Completed);
    s.advance(FlashReply::Failed);
    match s.state {
        WriteState::Failed(e) => {
            assert_eq!(e.message(), "Failed to write flash page at 0x10001100")
        }
        other => panic!("{other:?}"),
    }
    let mut s = write_regions_data(vec![region(BASE + 4096, vec![1; 4096])], false);
    s.advance(FlashReply::Completed);
    s.advance(FlashReply::Failed);
    match s.state {
        WriteState::Failed(e) => {
            assert_eq!(e.message(), "Failed to erase flash sector at 0x10001000")
        }
        other => panic!("{other:?}"),
    }
}

#[test]
fn regions_must_end_in_the_address_space() {
    let mut s = write_regions_data(vec![region(0xFFFF_FFFF, vec![1; 4])], false);
    s.advance(FlashReply::Completed);
    match s.state {
        WriteState::Failed(e) => assert_eq!(e, FlashError::WriteRangeOverflow),
        other => panic!("{other:?}"),
    }
    let mut s = write_regions_data(vec![region(0xFFFF_F000, vec![1; 4])], false);
    s.advance(FlashReply::Completed);
    match s.state {
        WriteState::Failed(e) => {
            assert_eq!(e, FlashError::AlignmentOverflow);
            assert_eq!(e.message(), "Address alignment overflow");
        }
        other => panic!("{other:?}"),
    }
    assert_eq!(
        FlashError::WriteRangeOverflow.message(),
        "Write range overflows u32 address space"
    );
    assert_eq!(FlashError::TooLarge.message(), "Write target is too large");
}

#[test]
fn erasing_sets_every_byte() {
    let mut device = Device::new();
    let mut expected = device.mem.clone();
    expected[0x1000..0x3000].fill(0xFF);
    let mut s = erase_flash(0x2000, BASE + 0x1000, false).unwrap();
    let mut count = 0;
    while let Some(op) = s.next_op() {
        let reply = device.perform(op);
        count += s.advance(reply);
    }
    assert_eq!(s.state, EraseState::Complete);
    assert_eq!(count, 0x2000);
    assert_eq!(device.mem, expected);
    assert_eq!(device.log.last().unwrap(), "application");
}

#[test]
fn erase_checks_its_range() {
    assert_eq!(
        erase_flash(0, BASE, true).unwrap_err().message(),
        "flash_size must be greater than zero"
    );
    assert_eq!(
        erase_flash(4096, BASE + 1, true).unwrap_err().message(),
        "base address must be 4096-byte aligned for direct erase"
    );
    assert_eq!(
        erase_flash(4097, BASE, true).unwrap_err().message(),
        "flash size must be 4096-byte aligned for direct erase"
    );
    let mut s = erase_flash(0x2000, 0xFFFF_F000, true).unwrap();
    s.advance(FlashReply::Completed);
    assert_eq!(s.state, EraseState::Failed(FlashError::EraseRangeOverflow));
    assert_eq!(
        FlashError::EraseRangeOverflow.message(),
        "Erase range overflows u32 address space"
    );
    let mut s = erase_flash(0x1000, BASE, true).unwrap();
    s.advance(FlashReply::Completed);
    s.advance(FlashReply::Completed);
    assert_eq!(s.state, EraseState::Complete);
}

#[test]
fn reading_gives_the_exact_range() {
    let mut device = Device::new();
    let mut s = read_flash(BASE + 0x123, 5000);
    while let Some(op) = s.next_op() {
        let reply = device.perform(op);
        s.advance(reply);
    }
    assert_eq!(s.state, ReadState::Complete);
    assert_eq!(s.data, device.mem[0x123..0x123 + 5000].to_vec());
    assert_eq!(
        device.log,
        vec!["exit", "read 10000123 4096", "read 10001123 904"]
    );
}

#[test]
fn read_errors() {
    let mut s = read_flash(BASE, 16);
    s.advance(FlashReply::Completed);
    s.advance(FlashReply::Failed);
    assert_eq!(
        s.state,
        ReadState::Failed(FlashError::ReadFlash { addr: BASE })
    );
    assert_eq!(
        FlashError::ReadFlash { addr: BASE }.message(),
        "Failed to read flash at 0x10000000"
    );
    let mut s = read_flash(0xFFFF_FFF0, 16);
    s.advance(FlashReply::Completed);
    s.advance(FlashReply::Received(vec![4; 16]));
    assert_eq!(s.state, ReadState::Failed(FlashError::ReadAddressOverflow));
    assert_eq!(s.data, vec![4; 16]);
    assert_eq!(
        FlashError::ReadAddressOverflow.message(),
        "Read address overflow"
    );
    let mut s = read_flash(BASE, 0);
    s.advance(FlashReply::Completed);
    assert_eq!(s.state, ReadState::Complete);
}

#[test]
fn operations_become_commands() {
    let mut c = PicobootConnection {
        interface_number: 0,
        out_ep: 1,
        in_ep: 0x81,
        next_token: 5,
    };
    let run = start_op(
        &mut c,
        FlashOp::Write {
            addr: BASE,
            data: vec![1; 256],
        },
    )
    .unwrap();
    assert_eq!(run.packet[8], PC_WRITE);
    assert_eq!(run.packet[4], 5);
    assert_eq!(run.out_data, Some(vec![1; 256]));
    let run = start_op(&mut c, FlashOp::Read { addr: BASE, len: 7 }).unwrap();
    assert_eq!(run.packet[8], PC_READ);
    assert_eq!(run.announced(), 7);
    assert_eq!(c.next_token, 7);
    assert!(start_op(&mut c, FlashOp::RebootApplication)
        .unwrap()
        .ignore_ack_error);
}

#[test]
fn uf2_targets_are_numbered_through() {
    let targets = vec![
        WriteTarget {
            path: "a".to_owned(),
            address: 0x1010_0000,
        },
        WriteTarget {
            path: "b".to_owned(),
            address: 0x1020_0000,
        },
    ];
    let contents = vec![vec![1; 300], vec![2; 5]];
    let file = write_data_uf2(&targets, &contents, true, Family::RP2XXX_DATA);
    assert_eq!(file.len(), 4 * 512);
    for i in 0..4u32 {
        let b = &file[512 * i as usize..];
        assert_eq!(&b[20..24], &i.to_le_bytes());
        assert_eq!(&b[24..28], &4u32.to_le_bytes());
        assert_eq!(&b[28..32], &0xE48B_FF58u32.to_le_bytes());
    }
    let regions = uf2_to_regions(&file).unwrap();
    assert_eq!(regions[0], (0x1000_0000, vec![0xFF; 256]));
    assert_eq!(regions[1].0, 0x1010_0000);
    assert_eq!(regions[1].1.len(), 512);
    assert_eq!(&regions[2].1[..6], &[2, 2, 2, 2, 2, 0]);
}

#[test]
fn uf2_erase_covers_the_range() {
    assert_eq!(
        erase_flash_uf2(0, BASE, Family::RP2040).unwrap_err(),
        FlashError::ZeroSize
    );
    let file = erase_flash_uf2(600, BASE, Family::RP2040).unwrap();
    assert_eq!(file.len(), 3 * 512);
    let regions = uf2_to_regions(&file).unwrap();
    assert!(regions[0].1[..600].iter().all(|b| *b == 0xFF));
    assert!(regions[0].1[600..].iter().all(|b| *b == 0));
}

#[test]
fn alignment() {
    assert_eq!(align_down(0x1000_1FFF, 4096), 0x1000_1000);
    assert_eq!(align_up(0x1000_1001, 4096).unwrap(), 0x1000_2000);
    assert_eq!(align_up(0x1000_1000, 4096).unwrap(), 0x1000_1000);
    assert_eq!(
        align_up(0xFFFF_F001, 4096).unwrap_err(),
        FlashError::AlignmentOverflow
    );
    assert_eq!(overlap_len(100, 50, 120, 130), 10);
    assert_eq!(overlap_len(100, 50, 0, 110), 10);
    assert_eq!(overlap_len(100, 50, 150, 200), 0);
    assert_eq!(overlap_len(0xFFFF_FFF0, 256, 0, 0xFFFF_FFFF), 15);
}

#[test]
fn what_is_written_is_read() {
    let mut device = Device::new();
    let data: Vec<u8> = (0..9000u32).map(|i| (i * 13 + 1) as u8).collect();
    let mut s = write_regions_data(vec![region(BASE + 0x777, data.clone())], true);
    run(&mut s, &mut device);
    let mut r = read_flash(BASE + 0x777, 9000);
    while let Some(op) = r.next_op() {
        let reply = device.perform(op);
        r.advance(reply);
    }
    assert_eq!(r.state, ReadState::Complete);
    assert_eq!(r.data, data);
}

#[test]
fn header_is_invalid_before_data_lands() {
    let mut device = Device::new();
    let untouched = device.mem.clone();
    let target = WriteTarget {
        path: "a.bin".to_owned(),
        address: BASE + 0x2000,
    };
    let mut s = write_data(vec![target], vec![vec![5; 4096]], true, false);
    while s.pending.len() > 0 {
        let op = s.next_op().unwrap();
        let reply = device.perform(op);
        s.advance(reply);
    }
    assert!(device.mem[..256].iter().all(|b| *b == 0xFF));
    assert_eq!(device.mem[256..], untouched[256..]);
    run(&mut s, &mut device);
    assert_eq!(&device.mem[0x2000..0x3000], &[5; 4096]);
    assert_eq!(device.log.last().unwrap(), "update 10000000");
}

#[test]
fn elf_lands_at_its_addresses() {
    let mut device = Device::new();
    let before = device.mem.clone();
    let mut file = vec![0x7F, b'E', b'L', b'F', 1, 1, 1, 0, 0, 0, 0, 0, 0, 0, 0, 0];
    file.extend(2u16.to_le_bytes());
    file.extend(0x28u16.to_le_bytes());
    for v in [1u32, BASE + 0x10, 52, 0, 0] {
        file.extend(v.to_le_bytes());
    }
    for v in [52u16, 32, 1, 40, 0, 0] {
        file.extend(v.to_le_bytes());
    }
    for v in [1u32, 84, BASE + 0x10, BASE + 0x10, 300, 300, 5, 4] {
        file.extend(v.to_le_bytes());
    }
    file.extend([0xA5; 300]);
    let mut s = flash("fw".to_owned(), file, Family::RP2350_ARM_S, 0, true)
        .unwrap()
        .unwrap();
    run(&mut s, &mut device);
    assert!(matches!(s.state, WriteState::Complete));
    assert!(device.mem[..0x10].iter().all(|b| *b == 0));
    assert!(device.mem[0x10..0x10 + 300].iter().all(|b| *b == 0xA5));
    assert!(device.mem[0x10 + 300..0x200].iter().all(|b| *b == 0));
    assert_eq!(device.mem[0x200..], before[0x200..]);
}
