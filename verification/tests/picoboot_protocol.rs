use probe_rp_usb::picoboot::{
    build_command, build_range_command, build_reboot2_command, parse_command_status, status_name,
    CommandEvent, CommandRun, CommandState, OpenEvent, OpenState, PicobootConnection,
    PicobootError, PC_EXIT_XIP, PC_FLASH_ERASE, PC_READ, PC_REBOOT2, PC_WRITE, PICOBOOT_MAGIC,
    REBOOT2_FLAG_REBOOT_TYPE_BOOTSEL,
};
use probe_rp_usb::poll::{PollEvent, PollState};
use probe_rp_usb::usb::{UsbAltSetting, UsbDevice, UsbEndpoint};

#[test]
fn serializes_reboot2_bootsel_command() {
    let command = build_reboot2_command(1, REBOOT2_FLAG_REBOOT_TYPE_BOOTSEL, 500, 0, 0);
    assert_eq!(&command[0..4], &PICOBOOT_MAGIC.to_le_bytes());
    assert_eq!(&command[4..8], &1u32.to_le_bytes());
    assert_eq!(command[8], PC_REBOOT2);
    assert_eq!(command[9], 16);
    assert_eq!(&command[12..16], &0u32.to_le_bytes());
    assert_eq!(&command[16..20], &2u32.to_le_bytes());
    assert_eq!(&command[20..24], &500u32.to_le_bytes());
}

#[test]
fn serializes_flash_erase_range_command() {
    let command = build_range_command(7, PC_FLASH_ERASE, 0x1000_0000, 4096, 0);
    assert_eq!(command[8], PC_FLASH_ERASE);
    assert_eq!(command[9], 8);
    assert_eq!(&command[12..16], &0u32.to_le_bytes());
    assert_eq!(&command[16..20], &0x1000_0000u32.to_le_bytes());
    assert_eq!(&command[20..24], &4096u32.to_le_bytes());
}

#[test]
fn serializes_write_range_command() {
    let command = build_range_command(8, PC_WRITE, 0x1000_0100, 256, 256);
    assert_eq!(command[8], PC_WRITE);
    assert_eq!(command[9], 8);
    assert_eq!(&command[12..16], &256u32.to_le_bytes());
    assert_eq!(&command[16..20], &0x1000_0100u32.to_le_bytes());
    assert_eq!(&command[20..24], &256u32.to_le_bytes());
}

#[test]
fn serializes_read_range_command() {
    let command = build_range_command(9, PC_READ, 0x1000_0000, 128, 128);
    assert_eq!(command[8], PC_READ);
    assert_eq!(command[9], 8);
    assert_eq!(&command[12..16], &128u32.to_le_bytes());
    assert_eq!(&command[16..20], &0x1000_0000u32.to_le_bytes());
    assert_eq!(&command[20..24], &128u32.to_le_bytes());
}

#[test]
fn parses_command_status() {
    let mut data = [0u8; 16];
    data[0..4].copy_from_slice(&12u32.to_le_bytes());
    data[4..8].copy_from_slice(&10u32.to_le_bytes());
    data[8] = PC_WRITE;
    data[9] = 1;

    let status = parse_command_status(&data).unwrap();
    assert_eq!(status.token, 12);
    assert_eq!(status.status_code, 10);
    assert_eq!(status.command_id, PC_WRITE);
    assert!(status.in_progress);
}

#[test]
fn rejects_status_of_wrong_length() {
    let e = parse_command_status(&[0u8; 15]).unwrap_err();
    assert_eq!(e, PicobootError::StatusLength { got: 15 });
    assert_eq!(
        e.message(),
        "PICOBOOT command status length mismatch: expected 16, got 15"
    );
}

#[test]
fn names_status_codes() {
    assert_eq!(status_name(0), "OK");
    assert_eq!(status_name(5), "BAD_ALIGNMENT");
    assert_eq!(status_name(17), "UNSUPPORTED_MODIFICATION");
    assert_eq!(status_name(18), "UNKNOWN_STATUS");
}

#[test]
fn builds_whole_exit_xip_packet() {
    let packet = build_command(3, PC_EXIT_XIP, 0, 0, [0; 16]);
    let mut expected = [0u8; 32];
    expected[0..4].copy_from_slice(&[0x0B, 0xD1, 0x1F, 0x43]);
    expected[4] = 3;
    expected[8] = 6;
    assert_eq!(packet, expected);
}

fn connection() -> PicobootConnection {
    PicobootConnection {
        interface_number: 1,
        out_ep: 3,
        in_ep: 0x84,
        next_token: 1,
    }
}

#[test]
fn tokens_skip_zero() {
    let mut c = connection();
    assert_eq!(c.next_token(), 1);
    assert_eq!(c.next_token(), 2);
    c.next_token = u32::MAX;
    assert_eq!(c.next_token(), u32::MAX);
    assert_eq!(c.next_token(), 1);
}

#[test]
fn read_command_runs_in_order() {
    let mut c = connection();
    let mut run = c.read(0x1000_0000, 4);
    assert_eq!(run.state, CommandState::WritePacket);
    assert_eq!(run.announced(), 4);
    run.advance(CommandEvent::Completed);
    assert_eq!(run.state, CommandState::ReadData);
    run.advance(CommandEvent::Received(vec![1, 2, 3, 4]));
    assert_eq!(run.state, CommandState::SendAck);
    run.advance(CommandEvent::Completed);
    assert_eq!(run.state, CommandState::Finished);
    assert_eq!(run.in_data, vec![1, 2, 3, 4]);
}

#[test]
fn write_command_runs_in_order() {
    let mut c = connection();
    let mut run = c.write(0x1000_0000, vec![9; 256]).unwrap();
    assert_eq!(run.packet[8], PC_WRITE);
    run.advance(CommandEvent::Completed);
    assert_eq!(run.state, CommandState::WriteData);
    assert_eq!(run.out_data.as_ref().unwrap().len(), 256);
    run.advance(CommandEvent::Completed);
    assert_eq!(run.state, CommandState::ReceiveAck);
    run.advance(CommandEvent::Completed);
    assert_eq!(run.state, CommandState::Finished);
}

#[test]
fn out_data_must_fit_the_announcement() {
    let packet = build_range_command(1, PC_WRITE, 0, 8, 8);
    let mut missing = CommandRun::start(packet, None, false);
    missing.advance(CommandEvent::Completed);
    assert_eq!(
        missing.state,
        CommandState::Failed(PicobootError::MissingOutData)
    );
    let mut short = CommandRun::start(packet, Some(vec![0; 5]), false);
    short.advance(CommandEvent::Completed);
    let e = PicobootError::OutDataLength {
        expected: 8,
        got: 5,
    };
    assert_eq!(short.state, CommandState::Failed(e));
    assert_eq!(
        e.message(),
        "PICOBOOT OUT data length mismatch: expected 8, got 5"
    );
}

#[test]
fn failed_ack_asks_for_the_status() {
    let mut c = connection();
    let mut run = c.flash_erase(0x1000_0000, 4096);
    run.advance(CommandEvent::Completed);
    assert_eq!(run.state, CommandState::ReceiveAck);
    run.advance(CommandEvent::TransferFailed);
    assert_eq!(run.state, CommandState::QueryStatus);
    let mut status = vec![0u8; 16];
    status[4] = 10;
    status[8] = PC_FLASH_ERASE;
    run.advance(CommandEvent::Received(status));
    let e = PicobootError::CommandFailed {
        command_id: PC_FLASH_ERASE,
        status_code: 10,
    };
    assert_eq!(run.state, CommandState::Failed(e));
    assert_eq!(
        e.message(),
        "PICOBOOT command 0x03 failed: status 10 (NOT_PERMITTED)"
    );
}

#[test]
fn failed_ack_with_status_ok_is_success() {
    let mut c = connection();
    let mut run = c.exit_xip();
    run.advance(CommandEvent::Completed);
    run.advance(CommandEvent::TransferFailed);
    run.advance(CommandEvent::Received(vec![0u8; 16]));
    assert_eq!(run.state, CommandState::Finished);
}

#[test]
fn failed_ack_without_status_is_an_error() {
    let mut c = connection();
    let mut run = c.exit_xip();
    run.advance(CommandEvent::Completed);
    run.advance(CommandEvent::TransferFailed);
    run.advance(CommandEvent::TransferFailed);
    assert_eq!(
        run.state,
        CommandState::Failed(PicobootError::Acknowledgement)
    );
}

#[test]
fn reboot_does_not_wait_for_an_answer() {
    let mut c = connection();
    for mut run in [
        c.reboot_bootsel(),
        c.reboot_application(),
        c.reboot_flash_update(0x1000_2000),
    ] {
        run.advance(CommandEvent::Completed);
        run.advance(CommandEvent::TransferFailed);
        assert_eq!(run.state, CommandState::Finished);
    }
    assert_eq!(c.next_token, 4);
    let run = c.reboot_flash_update(0x1000_2000);
    assert_eq!(&run.packet[16..20], &4u32.to_le_bytes());
    assert_eq!(&run.packet[24..28], &0x1000_2000u32.to_le_bytes());
}

#[test]
fn transfer_errors_keep_their_stage() {
    let mut c = connection();
    let cases = vec![
        (
            CommandEvent::NoEndpoint,
            PicobootError::NoOutEndpoint,
            "Failed to get PICOBOOT bulk OUT endpoint",
        ),
        (
            CommandEvent::TransferFailed,
            PicobootError::PacketWrite,
            "Timed out writing PICOBOOT command packet",
        ),
        (
            CommandEvent::FlushFailed,
            PicobootError::PacketFlush,
            "Timed out flushing PICOBOOT command packet",
        ),
    ];
    for (event, error, text) in cases {
        let mut run = c.exit_xip();
        run.advance(event);
        assert_eq!(run.state, CommandState::Failed(error));
        assert_eq!(error.message(), text);
    }
    let mut run = c.read(0, 4);
    run.advance(CommandEvent::Completed);
    run.advance(CommandEvent::TransferFailed);
    assert_eq!(run.state, CommandState::Failed(PicobootError::DataRead));
    let mut run = c.write(0, vec![1]).unwrap();
    run.advance(CommandEvent::Completed);
    run.advance(CommandEvent::FlushFailed);
    assert_eq!(run.state, CommandState::Failed(PicobootError::DataFlush));
}

#[test]
fn command_status_request_names_the_interface() {
    assert_eq!(connection().command_status(), (0x42, 0, 1, 16));
}

fn alt(number: u8, class: u8, endpoints: Vec<UsbEndpoint>) -> UsbAltSetting {
    UsbAltSetting {
        interface_number: number,
        class,
        subclass: 0,
        protocol: 0,
        string_index: None,
        endpoints,
    }
}

fn ep(address: u8, bulk: bool, input: bool) -> UsbEndpoint {
    UsbEndpoint {
        address,
        bulk,
        input,
    }
}

#[test]
fn opens_the_vendor_interface_with_bulk_endpoints() {
    let alts = vec![
        alt(0, 0x08, vec![ep(1, true, false), ep(0x81, true, true)]),
        alt(1, 0xFF, vec![ep(2, true, false)]),
        alt(
            2,
            0xFF,
            vec![ep(0x83, false, true), ep(3, true, false), ep(0x84, true, true)],
        ),
    ];
    let c = PicobootConnection::open_device(&alts).unwrap();
    assert_eq!(
        c,
        PicobootConnection {
            interface_number: 2,
            out_ep: 3,
            in_ep: 0x84,
            next_token: 1
        }
    );
    let none = PicobootConnection::open_device(&vec![]).unwrap_err();
    assert_eq!(none.message(), "PICOBOOT interface not found on device");
}

fn device(vid: u16, pid: u16) -> UsbDevice {
    UsbDevice {
        bus: "1".to_owned(),
        address: 7,
        vendor_id: vid,
        product_id: pid,
    }
}

#[test]
fn open_selects_the_boot_rom_device() {
    let devices = vec![device(0x2E8A, 0x0009), device(0x2E8A, 0x000F), device(0xC0DE, 0x000F)];
    assert_eq!(PicobootConnection::open(&devices, None).unwrap(), 1);
    assert_eq!(PicobootConnection::open(&devices, Some(0xC0DE)).unwrap(), 2);
    let e = PicobootConnection::open(&devices, Some(0x1234)).unwrap_err();
    assert_eq!(
        e.message(),
        "No BOOTSEL/PICOBOOT device found at 1234:000f"
    );
    let e = PicobootConnection::try_open_candidates(&devices, None).unwrap_err();
    assert!(e.message().starts_with("Multiple matching USB devices"));
    let found = PicobootConnection::try_open_candidates(&devices, Some(0xC0DE)).unwrap();
    assert_eq!(found, Some(2));
    let found = PicobootConnection::try_open_candidates(&vec![device(0xC001, 15)], None).unwrap();
    assert_eq!(found, Some(0));
}

#[test]
fn opening_resets_and_waits() {
    let step = PicobootConnection::open_after_reset;
    let mut s = step(OpenState::TryFirst, OpenEvent::NoCandidate);
    assert_eq!(s, OpenState::Reset);
    s = step(s, OpenEvent::ResetDone);
    assert_eq!(s, OpenState::Waiting(PollState::CheckTime));
    s = step(
        s,
        OpenEvent::Clock(PollEvent::Elapsed {
            elapsed_ms: 0,
            timeout_ms: 10,
        }),
    );
    assert_eq!(s, OpenState::Waiting(PollState::Probe));
    s = step(s, OpenEvent::NoCandidate);
    assert_eq!(s, OpenState::Waiting(PollState::Pause));
    s = step(s, OpenEvent::Clock(PollEvent::Rested));
    let late = step(
        s,
        OpenEvent::Clock(PollEvent::Elapsed {
            elapsed_ms: 10,
            timeout_ms: 10,
        }),
    );
    assert_eq!(late, OpenState::TimedOut);
    s = step(
        s,
        OpenEvent::Clock(PollEvent::Elapsed {
            elapsed_ms: 9,
            timeout_ms: 10,
        }),
    );
    assert_eq!(step(s, OpenEvent::Opened), OpenState::Opened);
    assert_eq!(
        PicobootError::TimedOut.message(),
        "Timed out waiting for PICOBOOT device"
    );
}

#[test]
fn finished_commands_stay_finished() {
    let mut c = connection();
    let mut run = c.exit_xip();
    run.advance(CommandEvent::Completed);
    run.advance(CommandEvent::Completed);
    assert_eq!(run.state, CommandState::Finished);
    run.advance(CommandEvent::TransferFailed);
    run.advance(CommandEvent::Received(vec![1]));
    assert_eq!(run.state, CommandState::Finished);
    assert!(run.in_data.is_empty());
}

#[test]
fn data_stage_errors() {
    let mut c = connection();
    let mut run = c.read(0, 4);
    run.advance(CommandEvent::Completed);
    run.advance(CommandEvent::NoEndpoint);
    assert_eq!(run.state, CommandState::Failed(PicobootError::NoInEndpoint));
    let mut run = c.write(0, vec![1]).unwrap();
    run.advance(CommandEvent::Completed);
    run.advance(CommandEvent::TransferFailed);
    assert_eq!(run.state, CommandState::Failed(PicobootError::DataWrite));
    let texts = [
        (
            PicobootError::NoInEndpoint,
            "Failed to get PICOBOOT bulk IN endpoint",
        ),
        (PicobootError::DataRead, "Timed out reading PICOBOOT IN data"),
        (
            PicobootError::DataWrite,
            "Timed out writing PICOBOOT OUT data",
        ),
        (
            PicobootError::DataFlush,
            "Timed out flushing PICOBOOT OUT data",
        ),
        (PicobootError::WriteTooLarge, "PICOBOOT write is too large"),
        (
            PicobootError::MissingOutData,
            "PICOBOOT command requires OUT data",
        ),
    ];
    for (error, text) in texts {
        assert_eq!(error.message(), text);
    }
}

#[test]
fn missing_acknowledgement_endpoint_is_an_error_even_for_a_reboot() {
    let mut c = connection();
    let mut run = c.reboot_application();
    run.advance(CommandEvent::Completed);
    run.advance(CommandEvent::NoEndpoint);
    assert_eq!(run.state, CommandState::Failed(PicobootError::NoInEndpoint));
}
