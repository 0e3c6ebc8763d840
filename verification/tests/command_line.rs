use probe_rp_usb::cli::{
    parse_u16_hex, parse_u32_hex, parse_write_target, rebase_targets, resolve_port, run, Backend,
    Command, Job,
};
use probe_rp_usb::write::WriteTarget;
use probe_rp_usb::Family;

#[test]
fn numbers_are_decimal_or_hexadecimal() {
    assert_eq!(parse_u16_hex("11914"), Ok(0x2E8A));
    assert_eq!(parse_u16_hex("0x2E8a"), Ok(0x2E8A));
    assert_eq!(parse_u16_hex("0XffFF"), Ok(0xFFFF));
    assert_eq!(parse_u32_hex("0x10000000"), Ok(0x1000_0000));
    assert_eq!(parse_u32_hex("4294967295"), Ok(u32::MAX));
    assert_eq!(parse_u32_hex("+5"), Ok(5));
    assert_eq!(parse_u32_hex("0x+5"), Ok(5));
}

#[test]
fn bad_numbers_are_explained() {
    assert_eq!(
        parse_u16_hex("65536").unwrap_err(),
        "number too large to fit in target type"
    );
    assert_eq!(
        parse_u16_hex("").unwrap_err(),
        "cannot parse integer from empty string"
    );
    assert_eq!(
        parse_u16_hex("0x").unwrap_err(),
        "cannot parse integer from empty string"
    );
    assert_eq!(
        parse_u32_hex("12z").unwrap_err(),
        "invalid digit found in string"
    );
    assert_eq!(
        parse_u32_hex("-1").unwrap_err(),
        "invalid digit found in string"
    );
    for text in ["", "+", "99999999999", "1x", "0xG", "0x1FFFFFFFF"] {
        let (digits, radix) = match text.strip_prefix("0x") {
            Some(rest) => (rest, 16),
            None => (text, 10),
        };
        let expected = u32::from_str_radix(digits, radix).unwrap_err().to_string();
        assert_eq!(parse_u32_hex(text).unwrap_err(), expected);
    }
}

#[test]
fn write_targets_split_at_the_last_at_sign() {
    let t = parse_write_target("dir@x/data.bin@0x100000").unwrap();
    assert_eq!(t.path, "dir@x/data.bin");
    assert_eq!(t.address, 0x10_0000);
    let e = parse_write_target("da\"ta").unwrap_err();
    assert_eq!(e, "expected FILE@OFFSET, got \"da\\\"ta\"");
    let e = parse_write_target("file@").unwrap_err();
    assert_eq!(e, "cannot parse integer from empty string");
}

fn target(path: &str, address: u32) -> WriteTarget {
    WriteTarget {
        path: path.to_owned(),
        address,
    }
}

#[test]
fn base_is_added_to_every_offset() {
    let r = rebase_targets(vec![target("a", 16), target("b", 0xFFFF_FFFF)], 0x1000_0000);
    assert_eq!((r[0].path.as_str(), r[0].address), ("a", 0x1000_0010));
    assert_eq!((r[1].path.as_str(), r[1].address), ("b", 0x0FFF_FFFF));
}

#[test]
fn ports_are_resolved() {
    let named = Some("COM1".to_owned());
    let found = Some("COM2".to_owned());
    assert_eq!(
        resolve_port(named, found.clone(), None, None),
        Ok("COM1".to_owned())
    );
    assert_eq!(
        resolve_port(None, found, None, None),
        Ok("COM2".to_owned())
    );
    assert_eq!(
        resolve_port(None, None, None, None).unwrap_err(),
        "No serial port found for VID 0x2E8A (default) or VID 0xC0DE/0xC001 (fallback). Is the device connected and running firmware?"
    );
    assert_eq!(
        resolve_port(None, None, Some(0xABC), None).unwrap_err(),
        "No serial port found for VID 0abc and PID 0009. Is the device connected and running firmware?"
    );
}

#[test]
fn run_flashes_and_watches() {
    let jobs = run(Command::Run {
        input: "fw.elf".to_owned(),
        family: Family::RP2040,
        address: 5,
        port: None,
        backend: Backend::Uf2,
    });
    assert_eq!(jobs.len(), 2);
    match &jobs[0] {
        Job::Flash {
            input,
            address,
            no_wait,
            backend,
            ..
        } => {
            assert_eq!(input, "fw.elf");
            assert_eq!(*address, 5);
            assert!(!*no_wait);
            assert_eq!(*backend, Backend::Uf2);
        }
        other => panic!("{other:?}"),
    }
    match &jobs[1] {
        Job::Watch { elf, port } => {
            assert_eq!(elf, "fw.elf");
            assert!(port.is_none());
        }
        other => panic!("{other:?}"),
    }
}

#[test]
fn subcommands_become_jobs() {
    assert!(matches!(run(Command::Check)[..], [Job::PrintDrive]));
    assert!(matches!(
        run(Command::Reset { normal: false })[..],
        [Job::EnterBootsel]
    ));
    assert!(matches!(
        run(Command::Reset { normal: true })[..],
        [Job::EnterApplication]
    ));
    let jobs = run(Command::Write {
        targets: vec![target("a", 1)],
        base: 2,
        family: Family::RP2040,
        erase_boot: true,
        no_wait: false,
        backend: Backend::Picoboot,
    });
    match &jobs[..] {
        [Job::Write {
            targets,
            erase_boot: true,
            no_wait: false,
            ..
        }] => assert_eq!(targets[0].address, 3),
        other => panic!("{other:?}"),
    }
    let jobs = run(Command::Erase {
        flash_size: 4096,
        base: 0,
        family: Family::RP2040,
        no_wait: true,
        backend: Backend::Picoboot,
    });
    assert!(matches!(
        jobs[..],
        [Job::Erase {
            flash_size: 4096,
            no_wait: true,
            ..
        }]
    ));
}
