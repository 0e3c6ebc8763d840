use probe_rp_usb::bootsel::{find_bootsel_drive, info_file_name, output_file_name, Mount};
use probe_rp_usb::event::{
    report, set_silent_output, silent_output_enabled, use_terminal_output, Channel, LogTag,
    OutputMode, ProbeEvent,
};
use probe_rp_usb::flash::{
    completion_notice, convert_input, flash, flash_uf2, is_elf_file, run_uf2_write, FlashInputError, Notice,
    StorageError, StorageEvent, StorageKind, StorageSession, StorageState,
};
use probe_rp_usb::progress::{tick_chars, ProgressOutput, ProgressReporter};
use probe_rp_usb::uf2::{bin2uf2, pages_fit};
use probe_rp_usb::Family;

#[test]
fn elf_files_are_known_by_their_magic() {
    assert!(is_elf_file(&[0x7F, b'E', b'L', b'F', 0]));
    assert!(!is_elf_file(&[0x7F, b'E', b'L']));
    assert!(!is_elf_file(b"\x7fELG"));
}

#[test]
fn raw_binary_is_one_region() {
    let s = flash(
        "fw.bin".to_owned(),
        vec![1, 2, 3],
        Family::RP2040,
        0x1000_0000,
        true,
    )
    .unwrap()
    .unwrap();
    assert_eq!(s.pending.len(), 1);
    assert_eq!(s.pending[0].label, "fw.bin");
    assert_eq!(s.pending[0].address, 0x1000_0000);
    assert_eq!(s.pending[0].data, vec![1, 2, 3]);
    assert!(s.no_wait);
}

fn small_elf(entry: u32, addrs: &[u32]) -> Vec<u8> {
    let mut out = vec![0x7F, b'E', b'L', b'F', 1, 1, 1, 0, 0, 0, 0, 0, 0, 0, 0, 0];
    out.extend(2u16.to_le_bytes());
    out.extend(0x28u16.to_le_bytes());
    for v in [1u32, entry, 52, 0, 0] {
        out.extend(v.to_le_bytes());
    }
    for v in [52u16, 32, addrs.len() as u16, 40, 0, 0] {
        out.extend(v.to_le_bytes());
    }
    let data = 52 + 32 * addrs.len() as u32;
    for a in addrs {
        for v in [1u32, data, *a, *a, 4, 4, 5, 4] {
            out.extend(v.to_le_bytes());
        }
    }
    out.extend([9, 8, 7, 6]);
    out
}

#[test]
fn elf_becomes_labelled_regions() {
    let file = small_elf(0x1000_0000, &[0x1000_0000, 0x1001_0004]);
    let s = flash("fw".to_owned(), file, Family::RP2350_ARM_S, 0, false)
        .unwrap()
        .unwrap();
    assert_eq!(s.pending.len(), 2);
    assert_eq!(s.pending[0].label, "fw#0");
    assert_eq!(s.pending[0].address, 0x1000_0000);
    assert_eq!(s.pending[0].data.len(), 4096);
    assert_eq!(&s.pending[0].data[..5], &[9, 8, 7, 6, 0]);
    assert_eq!(s.pending[1].label, "fw#1");
    assert_eq!(s.pending[1].address, 0x1001_0000);
    assert_eq!(s.pending[1].data.len(), 256);
    assert_eq!(&s.pending[1].data[4..8], &[9, 8, 7, 6]);
}

#[test]
fn elf_errors_come_through() {
    let file = small_elf(0x1000_0400, &[0x1000_0000]);
    let e = flash("fw".to_owned(), file, Family::RP2040, 0, false)
        .unwrap()
        .unwrap_err();
    match e {
        FlashInputError::Conversion(e) => {
            assert_eq!(e.message(), "entry point is not in mapped part of file")
        }
        other => panic!("{other:?}"),
    }
    let e = flash(
        "fw".to_owned(),
        vec![0x7F, b'E', b'L', b'F'],
        Family::RP2040,
        0,
        false,
    )
    .unwrap()
    .unwrap_err();
    assert!(matches!(e, FlashInputError::Conversion(_)));
}

fn log_of(n: Option<Notice>) -> (String, LogTag) {
    match n {
        Some(Notice::Log { msg, tag }) => (msg, tag),
        other => panic!("{other:?}"),
    }
}

#[test]
fn flashing_with_a_callback() {
    let mut s = flash_uf2(false, Channel::Callback);
    let n = s.advance(StorageEvent::NoDrive);
    assert_eq!(
        log_of(n),
        ("Resetting device to BOOTSEL mode…".to_owned(), LogTag::Info)
    );
    assert_eq!(s.state, StorageState::Reset);
    let n = s.advance(StorageEvent::Done);
    assert_eq!(
        log_of(n),
        ("Waiting for BOOTSEL drive…".to_owned(), LogTag::Info)
    );
    let n = s.advance(StorageEvent::Drive("/mnt".to_owned()));
    assert_eq!(
        log_of(n),
        ("BOOTSEL drive: /mnt".to_owned(), LogTag::Success)
    );
    assert_eq!(s.state, StorageState::CreateFile);
    assert!(s.advance(StorageEvent::Done).is_none());
    assert_eq!(s.state, StorageState::OpenInput);
    assert!(s.advance(StorageEvent::InputSize(16 * 1024 * 1024 - 1)).is_none());
    assert_eq!(s.state, StorageState::Convert);
    s.advance(StorageEvent::Done);
    assert_eq!(s.state, StorageState::WriteFile);
    let n = s.advance(StorageEvent::Done);
    assert_eq!(
        log_of(n),
        ("Waiting for device to reboot…".to_owned(), LogTag::Info)
    );
    let n = s.advance(StorageEvent::Done);
    assert_eq!(log_of(n), ("Flash complete".to_owned(), LogTag::Success));
    assert_eq!(s.state, StorageState::Complete);
}

#[test]
fn writing_on_the_terminal() {
    let mut s = run_uf2_write(false, true, Channel::Terminal);
    assert!(s.advance(StorageEvent::Drive("D:".to_owned())).is_none());
    s.advance(StorageEvent::Done);
    assert_eq!(s.state, StorageState::WriteFile);
    match s.advance(StorageEvent::Done) {
        Some(Notice::Print(t)) => {
            assert_eq!(t, "Write complete (device left in BOOTSEL mode)")
        }
        other => panic!("{other:?}"),
    }
    assert_eq!(s.state, StorageState::Complete);
    let mut s = run_uf2_write(true, false, Channel::Terminal);
    s.advance(StorageEvent::NoDrive);
    assert!(matches!(
        s.advance(StorageEvent::Done),
        Some(Notice::SpinnerStart(_))
    ));
    assert!(matches!(
        s.advance(StorageEvent::NoDrive),
        Some(Notice::SpinnerAbandon)
    ));
    assert_eq!(s.state, StorageState::Failed(StorageError::DriveTimeout));
    assert_eq!(
        StorageError::DriveTimeout.message(StorageKind::Erase),
        "Timed out waiting for BOOTSEL drive to appear"
    );
}

fn at(kind: StorageKind, state: StorageState) -> StorageSession {
    StorageSession {
        kind,
        no_wait: false,
        channel: Channel::Silent,
        state,
    }
}

#[test]
fn partial_files_are_removed() {
    for kind in [StorageKind::Flash, StorageKind::Write] {
        let mut s = at(kind, StorageState::WriteFile);
        assert!(s.advance(StorageEvent::Failed).is_none());
        assert_eq!(s.state, StorageState::RemoveFile);
        s.advance(StorageEvent::Failed);
        assert_eq!(
            s.state,
            StorageState::Failed(StorageError::PartialFileRemoved)
        );
    }
    assert_eq!(
        StorageError::PartialFileRemoved.message(StorageKind::Flash),
        "Flash failed; partial UF2 file removed"
    );
    assert_eq!(
        StorageError::PartialFileRemoved.message(StorageKind::Erase),
        "UF2 write failed; partial file removed"
    );
    let mut s = at(StorageKind::Flash, StorageState::OpenInput);
    s.advance(StorageEvent::InputSize(16 * 1024 * 1024));
    assert_eq!(s.state, StorageState::ConvertStreaming);
    s.advance(StorageEvent::Failed);
    assert_eq!(s.state, StorageState::RemoveFile);
    let mut s = at(StorageKind::Flash, StorageState::Convert);
    s.advance(StorageEvent::Failed);
    assert_eq!(s.state, StorageState::Failed(StorageError::Conversion));
}

#[test]
fn storage_errors_have_messages() {
    let mut s = at(StorageKind::Write, StorageState::WaitUnmount);
    s.advance(StorageEvent::Failed);
    assert_eq!(s.state, StorageState::Failed(StorageError::UnmountTimeout));
    assert_eq!(
        StorageError::UnmountTimeout.message(StorageKind::Write),
        "Device did not unmount BOOTSEL drive"
    );
    assert_eq!(
        StorageError::UnmountTimeout.message(StorageKind::Flash),
        "Device did not unmount BOOTSEL drive after flashing"
    );
    assert_eq!(
        StorageError::Conversion.message(StorageKind::Flash),
        "UF2 conversion failed (primary image)"
    );
    let mut s = at(StorageKind::Write, StorageState::CreateFile);
    s.advance(StorageEvent::Failed);
    assert_eq!(s.state, StorageState::Failed(StorageError::CreateFile));
    let mut s = at(StorageKind::Write, StorageState::Reset);
    s.advance(StorageEvent::Failed);
    assert_eq!(s.state, StorageState::Failed(StorageError::Reset));
    let mut s = at(StorageKind::Flash, StorageState::OpenInput);
    s.advance(StorageEvent::Failed);
    assert_eq!(s.state, StorageState::Failed(StorageError::OpenInput));
}

#[test]
fn completion_follows_the_channel() {
    let n = completion_notice(Channel::Callback, StorageKind::Erase, true);
    assert_eq!(
        log_of(n),
        (
            "Erase complete (device left in BOOTSEL mode)".to_owned(),
            LogTag::Success
        )
    );
    assert!(completion_notice(Channel::Silent, StorageKind::Erase, true).is_none());
    match completion_notice(Channel::Terminal, StorageKind::Write, false) {
        Some(Notice::Print(t)) => assert_eq!(t, "Write complete"),
        other => panic!("{other:?}"),
    }
}

#[test]
fn drive_is_known_by_its_info_file() {
    let mount = |path: &str, has| Mount {
        path: path.to_owned(),
        has_info_file: has,
    };
    let mounts = vec![mount("/", false), mount("/a", true), mount("/b", true)];
    assert_eq!(find_bootsel_drive(&mounts), Some(1));
    assert_eq!(find_bootsel_drive(&vec![mount("/", false)]), None);
    assert_eq!(info_file_name(), "INFO_UF2.TXT");
    assert_eq!(output_file_name(), "out.uf2");
}

#[test]
fn silence_is_remembered() {
    let mut mode = OutputMode::new();
    assert!(!silent_output_enabled(&mode));
    assert!(use_terminal_output(false, &mode));
    assert!(!use_terminal_output(true, &mode));
    set_silent_output(&mut mode, true);
    assert!(silent_output_enabled(&mode));
    assert!(!use_terminal_output(false, &mode));
    set_silent_output(&mut mode, false);
    assert!(!silent_output_enabled(&mode));
}

#[test]
fn reports_go_to_the_callback_only() {
    match report(true, "hello".to_owned(), LogTag::Warn) {
        Some(ProbeEvent::Log { msg, tag }) => {
            assert_eq!(msg, "hello");
            assert_eq!(tag, LogTag::Warn);
        }
        other => panic!("{other:?}"),
    }
    assert!(report(false, "hello".to_owned(), LogTag::Warn).is_none());
}

#[test]
fn progress_is_counted_and_told() {
    let mode = OutputMode::new();
    let mut r = ProgressReporter::progress(true, &mode, 100);
    r.inc(30);
    match r.inc(12) {
        ProgressOutput::Event(ProbeEvent::Progress { written, total }) => {
            assert_eq!(written, 42);
            assert_eq!(total, Some(100));
        }
        other => panic!("{other:?}"),
    }
    match r.finish("UF2 written".to_owned()) {
        ProgressOutput::Event(ProbeEvent::Log { msg, tag }) => {
            assert_eq!(msg, "UF2 written");
            assert_eq!(tag, LogTag::Success);
        }
        other => panic!("{other:?}"),
    }
    match r.abandon("Write failed".to_owned()) {
        ProgressOutput::Event(ProbeEvent::Log { tag, .. }) => assert_eq!(tag, LogTag::Error),
        other => panic!("{other:?}"),
    }
    let mut bar = ProgressReporter::spinner(false, &mode);
    assert!(matches!(bar.inc(5), ProgressOutput::Advance(5)));
    assert!(matches!(
        bar.abandon("x".to_owned()),
        ProgressOutput::Abandon(_)
    ));
    let silent = OutputMode { silent: true };
    let mut quiet = ProgressReporter::progress(false, &silent, 1);
    assert!(matches!(quiet.inc(1), ProgressOutput::Nothing));
    assert!(matches!(
        quiet.finish("x".to_owned()),
        ProgressOutput::Nothing
    ));
}

#[test]
fn spinner_pictures() {
    assert_eq!(tick_chars(false), vec!["-", "\\", "|", "/", "+"]);
    let unicode = tick_chars(true);
    assert_eq!(unicode.len(), 11);
    assert_eq!(unicode[0], "⠋");
    assert_eq!(unicode[10], "✓");
}

#[test]
fn firmware_is_converted_for_the_drive() {
    let raw = convert_input(&[1, 2, 3], Family::RP2040, 0x1000_0000)
        .unwrap()
        .unwrap();
    let mut expected = Vec::new();
    bin2uf2(&[1, 2, 3], &mut expected, 0x1000_0000, Family::RP2040.id());
    assert_eq!(raw, expected);
    assert!(convert_input(&[0; 512], Family::RP2040, 0xFFFF_FF80).is_none());
    assert!(convert_input(&[0; 256], Family::RP2040, 0xFFFF_FF80).is_some());
    let file = small_elf(0x1000_0000, &[0x1000_0000]);
    let converted = convert_input(&file, Family::RP2040, 5).unwrap().unwrap();
    let mut expected = Vec::new();
    bin2uf2(&[9, 8, 7, 6], &mut expected, 0x1000_0000, Family::RP2040.id());
    assert_eq!(converted, expected);
    let broken = convert_input(&[0x7F, b'E', b'L', b'F'], Family::RP2040, 5).unwrap();
    assert_eq!(broken.unwrap_err().message(), "Failed to open elf file");
}

#[test]
fn page_addresses_have_32_bits() {
    assert!(pages_fit(0, u32::MAX));
    assert!(pages_fit(256, u32::MAX));
    assert!(!pages_fit(257, u32::MAX));
    assert!(pages_fit(257, u32::MAX - 256));
}
