use probe_rp_usb::driver::{
    check_installations, ensure_winusb_driver, is_bootsel_mass_storage, looks_like_cdc_acm,
    looks_like_picotool_interface, looks_like_reset_signature, matches_known_probe_id,
    summarize_wdi_device, InstallOutcome, ProbeId, WdiDevice,
};

fn entry(vid: u16, pid: u16, desc: &str, driver: Option<&str>, hardware: &str) -> WdiDevice {
    WdiDevice {
        vid,
        pid,
        mi: 2,
        desc: Some(desc.to_owned()),
        driver: driver.map(|d| d.to_owned()),
        device_id: None,
        hardware_id: Some(hardware.to_owned()),
        compatible_id: None,
    }
}

fn id() -> ProbeId {
    ProbeId {
        vid: 0x2E8A,
        pid: 9,
        fallback: true,
    }
}

#[test]
fn entries_are_classified() {
    let reset = entry(0x2E8A, 9, "Pico reset", None, "usb\\class_ff&subclass_00");
    assert!(looks_like_reset_signature(&reset));
    assert!(looks_like_picotool_interface(&reset, id()));
    let by_class = entry(0x2E8A, 9, "x", None, "Class_FF SubClass_00 Prot_01");
    assert!(looks_like_reset_signature(&by_class));
    let serial = entry(0x2E8A, 9, "Pico CDC", None, "MI_00");
    assert!(looks_like_cdc_acm(&serial));
    assert!(!looks_like_picotool_interface(&serial, id()));
    let numbered = entry(0xC001, 1, "x", None, "mi_03");
    assert!(matches_known_probe_id(&numbered, id()));
    assert!(looks_like_picotool_interface(&numbered, id()));
    assert!(!looks_like_picotool_interface(
        &numbered,
        ProbeId {
            fallback: false,
            ..id()
        }
    ));
    let storage = entry(0x2E8A, 15, "RP2 Boot", Some("usbstor"), "");
    assert!(is_bootsel_mass_storage(&storage, 0x2E8A));
    assert!(!is_bootsel_mass_storage(&storage, 0x1111));
}

#[test]
fn entries_are_summarized() {
    let mut d = entry(0x2E8A, 0x00AF, "Reset", Some("WinUSB"), "HW");
    assert_eq!(
        summarize_wdi_device(&d),
        "2E8A:00AF MI02 desc='Reset' driver='WinUSB' hwid='HW'"
    );
    d.desc = None;
    d.driver = None;
    d.hardware_id = None;
    d.mi = 123;
    assert_eq!(
        summarize_wdi_device(&d),
        "2E8A:00AF MI123 desc='(no description)' driver='(none)' hwid='(no hardware_id)'"
    );
}

#[test]
fn targets_leave_mass_storage_alone() {
    let devices = vec![
        entry(0x2E8A, 15, "RP2 Boot", Some("USBSTOR"), "MI_00"),
        entry(0x2E8A, 15, "RP2 Boot", None, "MI_01"),
        entry(0x1234, 1, "Mouse", None, "MI_01"),
    ];
    assert_eq!(ensure_winusb_driver(&devices, None, None).unwrap(), vec![1]);
    assert_eq!(
        ensure_winusb_driver(&vec![], None, None).unwrap(),
        Vec::<usize>::new()
    );
    let storage = vec![entry(0x2E8A, 15, "RP2 Boot", Some("USBSTOR"), "MI_00")];
    assert_eq!(
        ensure_winusb_driver(&storage, None, None).unwrap(),
        Vec::<usize>::new()
    );
}

#[test]
fn known_devices_without_interface_are_an_error() {
    let devices = vec![
        entry(0x2E8A, 9, "Pico ACM", None, "A"),
        entry(0xC0DE, 9, "Probe CDC", None, "B"),
    ];
    let e = ensure_winusb_driver(&devices, None, None).unwrap_err();
    assert_eq!(
        e.message(),
        "Matching USB devices were found, but no reset/picotool-capable interface could be selected for WinUSB install. Connected entries: 2E8A:0009 MI02 desc='Pico ACM' driver='(none)' hwid='A' | C0DE:0009 MI02 desc='Probe CDC' driver='(none)' hwid='B'"
    );
    assert!(ensure_winusb_driver(&devices, Some(0x7777), None).is_ok());
}

#[test]
fn installation_failures_are_collected() {
    let devices = vec![
        entry(0x2E8A, 9, "a", Some("WinUSB.sys"), "A"),
        entry(0x2E8A, 9, "b", Some("libusbK"), "B"),
        entry(0x2E8A, 9, "c", None, "C"),
    ];
    let fine = check_installations(
        &devices,
        &vec![0, 2],
        &vec![InstallOutcome::Exists, InstallOutcome::Installed],
    );
    assert!(fine.is_ok());
    let e = check_installations(
        &devices,
        &vec![1, 2, 0, 2],
        &vec![
            InstallOutcome::Exists,
            InstallOutcome::NeedsAdmin,
            InstallOutcome::Failed("boom".to_owned()),
            InstallOutcome::Exists,
        ],
    )
    .unwrap_err();
    assert_eq!(
        e.message(),
        "Failed to attach WinUSB driver for one or more probe interfaces. Run the tool as Administrator and retry. Details: 2E8A:0009 MI02 desc='b' driver='libusbK' hwid='B' already has non-WinUSB driver 'libusbK' | 2E8A:0009 MI02 desc='c' driver='(none)' hwid='C' requires Administrator privileges | 2E8A:0009 MI02 desc='a' driver='WinUSB.sys' hwid='A': boom | 2E8A:0009 MI02 desc='c' driver='(none)' hwid='C' already has non-WinUSB driver 'unknown'"
    );
}
