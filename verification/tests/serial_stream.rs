use defmt_decoder::{DecodeError, Table};
use probe_rp_usb::attach::{
    drain_frames, find_port_by_interface, find_port_by_vid_pid, find_serial_port, last_by_key,
    load_table, port_sort_key, port_timeout_message, run_decode_loop, tell_connected,
    tell_disconnected, tell_frame, watch, watch_step, DecodeOutcome, DrainStep, PortRead, PortStep,
    SerialPort, StreamOutput, TableError, UsbPort, WatchEvent, WatchState,
};
use probe_rp_usb::event::{Channel, ProbeEvent};

fn port(name: &str, vid: u16, pid: u16, interface: Option<u8>) -> SerialPort {
    SerialPort {
        name: name.to_owned(),
        usb: Some(UsbPort {
            vid,
            pid,
            interface,
        }),
    }
}

#[test]
fn sort_keys_split_off_the_number() {
    assert_eq!(port_sort_key("COM10"), ("com".to_owned(), 10));
    assert_eq!(
        port_sort_key("/dev/ttyACM2"),
        ("/dev/ttyacm".to_owned(), 2)
    );
    assert_eq!(port_sort_key("TTY"), ("tty".to_owned(), 0));
    assert_eq!(port_sort_key("007"), ("".to_owned(), 7));
    assert_eq!(
        port_sort_key("A99999999999999999999"),
        ("a".to_owned(), 0)
    );
    assert_eq!(port_sort_key("ÄB3"), ("äb".to_owned(), 3));
}

#[test]
fn ports_are_ordered_naturally() {
    let ports = vec![
        port("COM3", 1, 2, None),
        port("com10", 1, 2, None),
        port("COM9", 1, 2, None),
        port("COM99", 1, 3, None),
    ];
    assert_eq!(find_port_by_vid_pid(&ports, 1, Some(2)), Some(1));
    assert_eq!(find_port_by_vid_pid(&ports, 1, None), Some(3));
    assert_eq!(find_port_by_vid_pid(&ports, 2, None), None);
}

#[test]
fn last_of_equal_keys_wins() {
    let keys = vec![
        ("b".to_owned(), 1),
        ("a".to_owned(), 7),
        ("b".to_owned(), 1),
        ("bc".to_owned(), 0),
    ];
    assert_eq!(last_by_key(&keys, &vec![true, true, true, false]), Some(2));
    assert_eq!(last_by_key(&keys, &vec![true, true, false, false]), Some(0));
    assert_eq!(last_by_key(&keys, &vec![true; 4]), Some(3));
    assert_eq!(last_by_key(&keys, &vec![false; 4]), None);
}

#[test]
fn port_of_an_interface() {
    let ports = vec![
        port("a", 1, 2, Some(0)),
        port("b", 1, 2, Some(3)),
        port("c", 1, 2, Some(2)),
    ];
    assert_eq!(find_port_by_interface(&ports, 1, 2, 2, 3), Some(1));
    assert_eq!(find_port_by_interface(&ports, 1, 3, 2, 3), None);
}

#[test]
fn serial_port_discovery_order() {
    let ports = vec![
        port("ttyACM0", 0x2E8A, 9, Some(2)),
        port("ttyACM1", 0x2E8A, 9, Some(0)),
        port("ttyACM2", 0xC001, 5, None),
        SerialPort {
            name: "ttyS0".to_owned(),
            usb: None,
        },
    ];
    let exact = find_serial_port(&ports, Some((2, 3)), None, None);
    assert_eq!(exact, Some("ttyACM0".to_owned()));
    let heuristic = find_serial_port(&ports, Some((6, 7)), None, None);
    assert_eq!(heuristic, Some("ttyACM1".to_owned()));
    let fallback = find_serial_port(&ports, None, None, Some(1));
    assert_eq!(fallback, Some("ttyACM2".to_owned()));
    assert_eq!(find_serial_port(&ports, None, Some(0x2E8A), Some(1)), None);
    let both = vec![port("x", 0xC001, 1, None), port("a", 0xC0DE, 1, None)];
    assert_eq!(
        find_serial_port(&both, None, None, None),
        Some("a".to_owned())
    );
}

fn elf_with_symbols(names: &[&str], with_section: bool) -> Vec<u8> {
    let section = if with_section { ".defmt" } else { ".other" };
    let mut shstr = vec![0u8];
    let mut name_at = Vec::new();
    for n in [section, ".symtab", ".strtab", ".shstrtab"] {
        name_at.push(shstr.len() as u32);
        shstr.extend(n.as_bytes());
        shstr.push(0);
    }
    let mut strtab = vec![0u8];
    let mut symtab = vec![0u8; 16];
    for (i, n) in names.iter().enumerate() {
        symtab.extend((strtab.len() as u32).to_le_bytes());
        symtab.extend((i as u32).to_le_bytes());
        let size = if n.contains("bitflags_value") { 16u32 } else { 1 };
        symtab.extend(size.to_le_bytes());
        symtab.extend([0x11, 0]);
        symtab.extend(1u16.to_le_bytes());
        strtab.extend(n.as_bytes());
        strtab.push(0);
    }
    let content: Vec<u8> = (0..32).collect();
    let mut out = vec![0x7F, b'E', b'L', b'F', 1, 1, 1, 0, 0, 0, 0, 0, 0, 0, 0, 0];
    let at_content = 52u32;
    let at_symtab = at_content + content.len() as u32;
    let at_strtab = at_symtab + symtab.len() as u32;
    let at_shstr = at_strtab + strtab.len() as u32;
    let at_headers = (at_shstr + shstr.len() as u32 + 3) / 4 * 4;
    out.extend(2u16.to_le_bytes());
    out.extend(0x28u16.to_le_bytes());
    for v in [1u32, 0, 0, at_headers, 0] {
        out.extend(v.to_le_bytes());
    }
    for v in [52u16, 32, 0, 40, 5, 4] {
        out.extend(v.to_le_bytes());
    }
    out.extend(&content);
    out.extend(&symtab);
    out.extend(&strtab);
    out.extend(&shstr);
    while out.len() < at_headers as usize {
        out.push(0);
    }
    let headers = [
        [0u32; 10],
        [name_at[0], 1, 0, 0, at_content, content.len() as u32, 0, 0, 1, 0],
        [
            name_at[1],
            2,
            0,
            0,
            at_symtab,
            symtab.len() as u32,
            3,
            1,
            4,
            16,
        ],
        [name_at[2], 3, 0, 0, at_strtab, strtab.len() as u32, 0, 0, 1, 0],
        [name_at[3], 3, 0, 0, at_shstr, shstr.len() as u32, 0, 0, 1, 0],
    ];
    for h in headers {
        for v in h {
            out.extend(v.to_le_bytes());
        }
    }
    out
}

#[test]
fn table_tells_whether_it_recovers() {
    let rzcobs = elf_with_symbols(&["_defmt_version_ = 4", "_defmt_encoding_ = rzcobs"], true);
    assert!(load_table(&rzcobs).ok().unwrap().can_recover);
    let raw = elf_with_symbols(&["_defmt_version_ = 4", "_defmt_encoding_ = raw"], true);
    assert!(!load_table(&raw).ok().unwrap().can_recover);
}

#[test]
fn table_is_the_one_in_the_file() {
    let version = "_defmt_version_ = 4";
    let encoding = "_defmt_encoding_ = raw";
    let info = r#"{"package":"p","tag":"defmt_info","data":"at {=u8}","disambiguator":"1","crate_name":"p"}"#;
    let stamp = r#"{"package":"p","tag":"defmt_timestamp","data":"{=u8:us}","disambiguator":"2","crate_name":"p"}"#;
    let flag = r#"{"package":"p","tag":"defmt_bitflags_value","data":"F::0::A","disambiguator":"3","crate_name":"p"}"#;
    let full = elf_with_symbols(&[version, encoding, info, stamp, flag], true);
    let no_stamp = elf_with_symbols(&[version, encoding, info], true);
    let no_flag = elf_with_symbols(&[version, encoding, info, stamp], true);
    let loaded = load_table(&full).ok().unwrap();
    assert!(loaded.table == Table::parse(&full).unwrap().unwrap());
    assert!(loaded.table.has_timestamp());
    assert!(loaded.table != load_table(&no_flag).ok().unwrap().table);
    assert!(!load_table(&no_stamp).ok().unwrap().table.has_timestamp());
    let mut decoder = loaded.table.new_stream_decoder();
    decoder.received(&[2, 0, 9, 7]);
    let text = decoder.decode().unwrap().display(false).to_string();
    assert!(text.contains("at 7"));
    assert!(text.contains('9'));
}

#[test]
fn missing_table_is_told_apart_from_a_broken_file() {
    let none = load_table(&elf_with_symbols(&["main"], false)).err().unwrap();
    assert!(matches!(none, TableError::NoSection));
    assert_eq!(
        none.message(),
        "ELF file contains no .defmt section — was it built with defmt?"
    );
    let broken = load_table(&[1, 2, 3]).err().unwrap();
    match &broken {
        TableError::Parse(text) => assert_eq!(
            *text,
            format!("{:#}", Table::parse(&[1, 2, 3]).err().unwrap())
        ),
        TableError::NoSection => panic!("no error"),
    }
    assert_eq!(broken.message(), "Failed to parse defmt table from ELF");
}

#[test]
fn decode_decisions() {
    assert_eq!(run_decode_loop(PortRead::Bytes(0)), PortStep::ReadAgain);
    assert_eq!(run_decode_loop(PortRead::Bytes(5)), PortStep::Decode(5));
    assert_eq!(run_decode_loop(PortRead::TimedOut), PortStep::ReadAgain);
    assert_eq!(run_decode_loop(PortRead::Failed), PortStep::GiveUp);
    assert_eq!(drain_frames(DecodeOutcome::Frame, false), DrainStep::Show);
    assert_eq!(
        drain_frames(DecodeOutcome::UnexpectedEof, false),
        DrainStep::Wait
    );
    assert_eq!(drain_frames(DecodeOutcome::Malformed, true), DrainStep::Skip);
    assert_eq!(
        drain_frames(DecodeOutcome::Malformed, false),
        DrainStep::Abort
    );
}

#[test]
fn watching_reconnects() {
    assert_eq!(watch(false), WatchState::SeekPort);
    let s = watch_step(false, WatchState::SeekPort, WatchEvent::NoPort);
    assert_eq!(s, WatchState::SeekPort);
    let s = watch_step(false, s, WatchEvent::PortReady);
    assert_eq!(s, WatchState::Streaming);
    assert_eq!(
        watch_step(false, s, WatchEvent::StreamLost),
        WatchState::SeekPort
    );
    assert_eq!(watch(true), WatchState::UseNamedPort);
    let s = watch_step(true, s, WatchEvent::StreamLost);
    assert_eq!(s, WatchState::Pause);
    assert_eq!(
        watch_step(true, s, WatchEvent::Rested),
        WatchState::UseNamedPort
    );
    assert_eq!(
        watch_step(true, WatchState::Streaming, WatchEvent::StreamEnded),
        WatchState::Ended
    );
}

#[test]
fn stream_messages() {
    match tell_connected(Channel::Terminal, "COM3".to_owned(), true) {
        StreamOutput::Print(t) => assert_eq!(t, "Connecting to COM3..."),
        other => panic!("{other:?}"),
    }
    match tell_connected(Channel::Terminal, "COM3".to_owned(), false) {
        StreamOutput::Print(t) => assert_eq!(t, "Attached to COM3 (Ctrl+C to quit)"),
        other => panic!("{other:?}"),
    }
    match tell_connected(Channel::Callback, "COM3".to_owned(), true) {
        StreamOutput::Event(ProbeEvent::Connected { port }) => assert_eq!(port, "COM3"),
        other => panic!("{other:?}"),
    }
    match tell_disconnected(Channel::Terminal, "gone") {
        StreamOutput::PrintError(t) => assert_eq!(t, "Disconnected: gone"),
        other => panic!("{other:?}"),
    }
    assert!(matches!(
        tell_disconnected(Channel::Callback, "gone"),
        StreamOutput::Event(ProbeEvent::Disconnected)
    ));
    assert!(matches!(
        tell_frame(Channel::Silent, "x".to_owned()),
        StreamOutput::Nothing
    ));
    match tell_frame(Channel::Callback, "x".to_owned()) {
        StreamOutput::Event(ProbeEvent::Frame(t)) => assert_eq!(t, "x"),
        other => panic!("{other:?}"),
    }
    assert_eq!(
        port_timeout_message(None, None),
        "Timed out waiting for serial port (VID 2e8a any PID / fallback VID c0de/c001) — retrying"
    );
    assert_eq!(
        port_timeout_message(Some(1), Some(0x10)),
        "Timed out waiting for serial port (VID 0001 PID 0010 / fallback VID c0de/c001) — retrying"
    );
}

fn script(outcomes: &[DecodeOutcome], can_recover: bool) -> (Vec<usize>, Option<DrainStep>) {
    let mut shown = Vec::new();
    for (i, outcome) in outcomes.iter().enumerate() {
        match drain_frames(*outcome, can_recover) {
            DrainStep::Show => shown.push(i),
            DrainStep::Skip => {}
            end => return (shown, Some(end)),
        }
    }
    (shown, None)
}

#[test]
fn draining_goes_on_after_a_malformed_frame() {
    let outcomes = [
        DecodeOutcome::Malformed,
        DecodeOutcome::Frame,
        DecodeOutcome::Malformed,
        DecodeOutcome::Frame,
        DecodeOutcome::UnexpectedEof,
        DecodeOutcome::Frame,
    ];
    assert_eq!(
        script(&outcomes, true),
        (vec![1, 3], Some(DrainStep::Wait))
    );
    assert_eq!(script(&outcomes, false), (vec![], Some(DrainStep::Abort)));
    assert_eq!(
        script(&outcomes[1..], false),
        (vec![0], Some(DrainStep::Abort))
    );
}

#[test]
fn frames_behind_a_malformed_one_are_decoded_with_the_table() {
    let symbol = "{\"package\":\"p\",\"tag\":\"defmt_info\",\"data\":\"hello\",\"disambiguator\":\"1\"}";
    let elf = elf_with_symbols(
        &[
            "_defmt_version_ = 4",
            "_defmt_encoding_ = rzcobs",
            symbol,
        ],
        true,
    );
    let table = load_table(&elf).ok().unwrap();
    let mut decoder = table.table.new_stream_decoder();
    decoder.received(&[0xFF, 0x00, 0x02, 0x7E, 0x00]);
    let mut texts = Vec::new();
    let mut calls = 0;
    loop {
        calls += 1;
        let (outcome, text) = match decoder.decode() {
            Ok(frame) => (DecodeOutcome::Frame, frame.display_message().to_string()),
            Err(DecodeError::UnexpectedEof) => (DecodeOutcome::UnexpectedEof, String::new()),
            Err(DecodeError::Malformed) => (DecodeOutcome::Malformed, String::new()),
        };
        match drain_frames(outcome, table.can_recover) {
            DrainStep::Show => texts.push(text),
            DrainStep::Skip => {}
            DrainStep::Wait => break,
            DrainStep::Abort => panic!("aborted"),
        }
    }
    assert_eq!(calls, 3);
    assert_eq!(texts, vec!["hello".to_owned()]);
}
