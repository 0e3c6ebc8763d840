use probe_rp_usb::poll::{poll_next, PollEvent, PollState};
use probe_rp_usb::usb::{
    device_summary, find_any_device_with_vid, find_defmt_interface, find_device,
    is_permission_error, matching_devices, reboot_to_normal, reboot_via_reset_interface,
    reset_to_bootsel, select_unique_device, udev_hint, wants_label, DeviceDescription, NormalPlan,
    ResetPlan, UsbAltSetting, UsbDevice,
};

fn device(bus: &str, address: u8, vid: u16, pid: u16) -> UsbDevice {
    UsbDevice {
        bus: bus.to_owned(),
        address,
        vendor_id: vid,
        product_id: pid,
    }
}

#[test]
fn devices_are_found_by_id() {
    let d = vec![
        device("1", 1, 0x1111, 1),
        device("1", 2, 0x2E8A, 9),
        device("1", 3, 0x2E8A, 15),
    ];
    assert_eq!(find_device(&d, 0x2E8A, 15), Some(2));
    assert_eq!(find_device(&d, 0x2E8A, 16), None);
    assert_eq!(find_any_device_with_vid(&d, 0x2E8A), Some(1));
    assert_eq!(matching_devices(&d, 0x2E8A, None), vec![1, 2]);
    assert_eq!(matching_devices(&d, 0x2E8A, Some(9)), vec![1]);
}

#[test]
fn one_device_is_selected_or_none() {
    let d = vec![device("1", 2, 0x2E8A, 9), device("3", 4, 0xC0DE, 0xAB)];
    assert_eq!(
        select_unique_device(&d, &vec![(0x2E8A, Some(9))]).unwrap(),
        Some(0)
    );
    assert_eq!(select_unique_device(&d, &vec![(0x1, None)]).unwrap(), None);
    let e = select_unique_device(&d, &vec![(0x2E8A, None), (0xC0DE, None)]).unwrap_err();
    assert_eq!(
        e.message(),
        "Multiple matching USB devices are connected:\n- bus 1 addr 2 2e8a:0009\n- bus 3 addr 4 c0de:00ab\nUse --vid/--pid to select one, or disconnect extra probes before retrying."
    );
    assert_eq!(device_summary(&d[1]), "bus 3 addr 4 c0de:00ab");
}

#[test]
fn reset_prefers_the_application() {
    let d = vec![device("1", 1, 0x2E8A, 15), device("1", 2, 0x2E8A, 9)];
    assert_eq!(
        reset_to_bootsel(&d, None, None).unwrap(),
        ResetPlan::ResetInterface { device: 1 }
    );
    assert_eq!(
        reboot_to_normal(&d, None, None).unwrap(),
        NormalPlan::AlreadyNormal
    );
}

#[test]
fn reset_of_a_device_in_bootsel() {
    let d = vec![device("1", 1, 0x2E8A, 15)];
    assert_eq!(
        reset_to_bootsel(&d, None, None).unwrap(),
        ResetPlan::Picoboot { device: 0 }
    );
    assert_eq!(
        reboot_to_normal(&d, None, None).unwrap(),
        NormalPlan::Picoboot { device: 0 }
    );
}

#[test]
fn fallback_vendors_count_only_without_vid() {
    let d = vec![device("1", 1, 0xC001, 0x1234)];
    assert_eq!(
        reset_to_bootsel(&d, None, None).unwrap(),
        ResetPlan::ResetInterface { device: 0 }
    );
    assert_eq!(
        reboot_to_normal(&d, None, None).unwrap(),
        NormalPlan::AlreadyNormal
    );
    let boot = vec![device("1", 1, 0xC0DE, 15)];
    assert_eq!(
        reboot_to_normal(&boot, None, None).unwrap(),
        NormalPlan::Picoboot { device: 0 }
    );
    assert_eq!(
        reset_to_bootsel(&d, Some(0x2E8A), None)
            .unwrap_err()
            .message(),
        "No device found at 2e8a:0009 (app mode) or 2e8a:000f (BOOTSEL)"
    );
    assert_eq!(
        reset_to_bootsel(&vec![], None, Some(0xA))
            .unwrap_err()
            .message(),
        "No device found at 2e8a:000a (app mode) or 2e8a:000f (BOOTSEL) or any device with VID c0de/c001"
    );
    assert_eq!(
        reboot_to_normal(&vec![], Some(1), Some(2))
            .unwrap_err()
            .message(),
        "No device found at 0001:0002 (app mode) or 0001:000f (BOOTSEL)"
    );
}

fn alt(number: u8, class: u8, subclass: u8, protocol: u8, index: Option<u8>) -> UsbAltSetting {
    UsbAltSetting {
        interface_number: number,
        class,
        subclass,
        protocol,
        string_index: index,
        endpoints: vec![],
    }
}

#[test]
fn reset_interface_is_found_by_class() {
    let alts = vec![alt(0, 2, 2, 1, None), alt(3, 0xFF, 0, 1, None)];
    let r = reboot_via_reset_interface(&alts).unwrap();
    assert_eq!(r.interface_number, 3);
    assert_eq!((r.request, r.value, r.index), (1, 0, 3));
    let e = reboot_via_reset_interface(&vec![alt(0, 0xFF, 0, 0, None)]).unwrap_err();
    assert_eq!(e.message(), "USB reset interface not found on device");
}

#[test]
fn defmt_interface_is_found_by_label() {
    let description = DeviceDescription {
        alts: vec![
            alt(0, 2, 2, 0, Some(4)),
            alt(1, 10, 0, 0, Some(5)),
            alt(2, 2, 2, 0, Some(6)),
        ],
        labels: vec![
            Some("console".to_owned()),
            Some("defmt".to_owned()),
            Some("My DEFMT log".to_owned()),
        ],
    };
    assert!(wants_label(&description.alts[0]));
    assert!(!wants_label(&description.alts[1]));
    let devices = vec![device("1", 1, 0x2E8A, 9), device("1", 2, 0x2E8A, 10)];
    let descriptions = vec![Some(description), None];
    assert_eq!(
        find_defmt_interface(&devices, &descriptions, 0x2E8A, 9),
        Some((2, 3))
    );
    assert_eq!(
        find_defmt_interface(&devices, &descriptions, 0x2E8A, 10),
        None
    );
    assert_eq!(
        find_defmt_interface(&devices, &descriptions, 0x2E8A, 11),
        None
    );
}

#[test]
fn only_the_first_matching_device_is_inspected() {
    let describe = |number: u8| {
        Some(DeviceDescription {
            alts: vec![alt(number, 2, 2, 0, Some(4))],
            labels: vec![Some("defmt".to_owned())],
        })
    };
    let devices = vec![
        device("1", 1, 0x2E8A, 10),
        device("1", 2, 0x2E8A, 9),
        device("1", 3, 0x2E8A, 9),
    ];
    let descriptions = vec![describe(255), describe(4), describe(255)];
    assert_eq!(
        find_defmt_interface(&devices, &descriptions, 0x2E8A, 9),
        Some((4, 5))
    );
    let descriptions = vec![describe(1), None, describe(4)];
    assert_eq!(
        find_defmt_interface(&devices, &descriptions, 0x2E8A, 9),
        None
    );
}

#[test]
fn hint_holds_the_rules() {
    let hint = udev_hint("RULE\n");
    assert!(hint.starts_with("Hint: install the udev rules to grant non-root USB access, then reload:\n\nsudo tee /etc/udev/rules.d/99-probe-rp-usb.rules << 'EOF'\nRULE\nEOF\nsudo udevadm"));
    assert!(hint.ends_with("sudo usermod -aG dialout $USER    # serial port access"));
}

#[test]
fn permission_errors_are_recognized() {
    assert!(is_permission_error(&vec![
        "Failed to open".to_owned(),
        "os: Permission denied (13)".to_owned()
    ]));
    assert!(is_permission_error(&vec!["Access denied".to_owned()]));
    assert!(!is_permission_error(&vec!["permission denied".to_owned()]));
    assert!(!is_permission_error(&vec![]));
}

#[test]
fn polling_stops_when_the_time_is_up() {
    let early = PollEvent::Elapsed {
        elapsed_ms: 99,
        timeout_ms: 100,
    };
    let late = PollEvent::Elapsed {
        elapsed_ms: 100,
        timeout_ms: 100,
    };
    assert_eq!(poll_next(PollState::CheckTime, early), PollState::Probe);
    assert_eq!(poll_next(PollState::CheckTime, late), PollState::TimedOut);
    assert_eq!(
        poll_next(PollState::Probe, PollEvent::NotFound),
        PollState::Pause
    );
    assert_eq!(
        poll_next(PollState::Pause, PollEvent::Rested),
        PollState::CheckTime
    );
    assert_eq!(
        poll_next(PollState::Probe, PollEvent::Found),
        PollState::Found
    );
    assert_eq!(poll_next(PollState::Found, late), PollState::Found);
}

#[test]
fn one_device_may_match_several_selectors() {
    let d = vec![
        device("1", 1, 0x1111, 1),
        device("1", 2, 0x2E8A, 0x000F),
        device("1", 3, 0xC0DE, 5),
    ];
    let twice = vec![(0x2E8A, None), (0x2E8A, Some(0x000F))];
    assert_eq!(select_unique_device(&d, &twice).unwrap(), Some(1));
    let several = vec![
        (0xC0DE, None),
        (0x2E8A, None),
        (0x2E8A, Some(0x000F)),
        (0xC0DE, Some(5)),
    ];
    assert_eq!(
        select_unique_device(&d, &several).unwrap_err().message(),
        "Multiple matching USB devices are connected:\n- bus 1 addr 3 c0de:0005\n- bus 1 addr 2 2e8a:000f\nUse --vid/--pid to select one, or disconnect extra probes before retrying."
    );
    assert_eq!(select_unique_device(&d, &vec![]).unwrap(), None);
}
