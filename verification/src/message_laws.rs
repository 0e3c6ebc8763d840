//! What the texts of errors name.

use vstd::prelude::*;

use crate::attach::port_timeout_text;
use crate::elf2uf2::{AddressRangesFromElfError, Elf2Uf2Error};
use crate::flash_ops::FlashError;
use crate::picoboot::{spec_status_name, PicobootError};
use crate::text::{contains_text, law_contained_text, padded};
use crate::uf2::{MergeError, Uf2Error};
use crate::usb::{hint_text, UsbErrorView};

verus! {

/// Whether a text has a number in it, written in base `base` with at least `width` digits.
pub open spec fn names(text: Seq<char>, n: nat, base: nat, width: nat) -> bool {
    contains_text(text, padded(n, base, width))
}

proof fn lemma_named(text: Seq<char>, before: Seq<char>, named: Seq<char>, after: Seq<char>)
    requires
        text == before + named + after,
    ensures
        contains_text(text, named),
{
    law_contained_text(before, named, after);
}

/// Errors of flash memory name the address in eight hexadecimal digits.
pub proof fn law_flash_errors_name_the_address(addr: u32)
    ensures
        names(FlashError::ReadSector { addr }.spec_message(), addr as nat, 16, 8),
        names(FlashError::EraseSector { addr }.spec_message(), addr as nat, 16, 8),
        names(FlashError::WritePage { addr }.spec_message(), addr as nat, 16, 8),
        names(FlashError::ReadFlash { addr }.spec_message(), addr as nat, 16, 8),
{
    let a = padded(addr as nat, 16, 8);
    let none = Seq::<char>::empty();
    let m = FlashError::ReadSector { addr }.spec_message();
    assert(m =~= "Failed to read flash sector at 0x"@ + a + none);
    lemma_named(m, "Failed to read flash sector at 0x"@, a, none);
    let m = FlashError::EraseSector { addr }.spec_message();
    assert(m =~= "Failed to erase flash sector at 0x"@ + a + none);
    lemma_named(m, "Failed to erase flash sector at 0x"@, a, none);
    let m = FlashError::WritePage { addr }.spec_message();
    assert(m =~= "Failed to write flash page at 0x"@ + a + none);
    lemma_named(m, "Failed to write flash page at 0x"@, a, none);
    let m = FlashError::ReadFlash { addr }.spec_message();
    assert(m =~= "Failed to read flash at 0x"@ + a + none);
    lemma_named(m, "Failed to read flash at 0x"@, a, none);
}

/// Regions that cannot be merged are named by their addresses.
pub proof fn law_merge_errors_name_the_regions(addr_a: u32, end_a: u32, addr_b: u32)
    ensures
        names(MergeError::AddressOverflow { addr: addr_a }.spec_message(), addr_a as nat, 16, 8),
        ({
            let m = MergeError::Overlap { addr_a, end_a, addr_b }.spec_message();
            names(m, addr_a as nat, 16, 8) && names(m, end_a as nat, 16, 8) && names(
                m,
                addr_b as nat,
                16,
                8,
            )
        }),
{
    let a = padded(addr_a as nat, 16, 8);
    let e = padded(end_a as nat, 16, 8);
    let b = padded(addr_b as nat, 16, 8);
    let none = Seq::<char>::empty();
    let m = MergeError::AddressOverflow { addr: addr_a }.spec_message();
    assert(m =~= "address overflow in region at 0x"@ + a + none);
    lemma_named(m, "address overflow in region at 0x"@, a, none);
    let m = MergeError::Overlap { addr_a, end_a, addr_b }.spec_message();
    let start = "overlapping binary regions: 0x"@;
    assert(m =~= start + a + ("..0x"@ + e + " and 0x"@ + b));
    lemma_named(m, start, a, "..0x"@ + e + " and 0x"@ + b);
    assert(m =~= (start + a + "..0x"@) + e + (" and 0x"@ + b));
    lemma_named(m, start + a + "..0x"@, e, " and 0x"@ + b);
    assert(m =~= (start + a + "..0x"@ + e + " and 0x"@) + b + none);
    lemma_named(m, start + a + "..0x"@ + e + " and 0x"@, b, none);
}

/// Faulty UF2 files are named by their length, or by the faulty block and what it claims.
pub proof fn law_uf2_errors_name_the_block(len: usize, block: usize, size: u32)
    ensures
        names(Uf2Error::BadLength { len }.spec_message(), len as nat, 10, 1),
        names(Uf2Error::BadMagic { block }.spec_message(), block as nat, 10, 1),
        ({
            let m = Uf2Error::BadPayloadSize { block, size }.spec_message();
            names(m, block as nat, 10, 1) && names(m, size as nat, 10, 1)
        }),
{
    let l = padded(len as nat, 10, 1);
    let b = padded(block as nat, 10, 1);
    let s = padded(size as nat, 10, 1);
    let none = Seq::<char>::empty();
    let m = Uf2Error::BadLength { len }.spec_message();
    assert(m =~= "UF2 data length is not a multiple of 512: "@ + l + none);
    lemma_named(m, "UF2 data length is not a multiple of 512: "@, l, none);
    let m = Uf2Error::BadMagic { block }.spec_message();
    assert(m =~= "invalid UF2 magic in block "@ + b + none);
    lemma_named(m, "invalid UF2 magic in block "@, b, none);
    let m = Uf2Error::BadPayloadSize { block, size }.spec_message();
    let start = "invalid UF2 payload size in block "@;
    assert(m =~= start + b + (": "@ + s));
    lemma_named(m, start, b, ": "@ + s);
    assert(m =~= (start + b + ": "@) + s + none);
    lemma_named(m, start + b + ": "@, s, none);
}

/// A command that failed is named by its number in two hexadecimal digits, and its status
/// by number and name; wrong lengths are named as they are and as they should be.
pub proof fn law_picoboot_errors_name_the_cause(
    command_id: u8,
    status_code: u32,
    expected: usize,
    got: usize,
)
    ensures
        ({
            let m = PicobootError::CommandFailed { command_id, status_code }.spec_message();
            names(m, command_id as nat, 16, 2) && names(m, status_code as nat, 10, 1)
                && contains_text(m, spec_status_name(status_code))
        }),
        names(PicobootError::StatusLength { got }.spec_message(), got as nat, 10, 1),
        ({
            let m = PicobootError::OutDataLength { expected, got }.spec_message();
            names(m, expected as nat, 10, 1) && names(m, got as nat, 10, 1)
        }),
{
    let i = padded(command_id as nat, 16, 2);
    let s = padded(status_code as nat, 10, 1);
    let n = spec_status_name(status_code);
    let g = padded(got as nat, 10, 1);
    let e = padded(expected as nat, 10, 1);
    let none = Seq::<char>::empty();
    let m = PicobootError::CommandFailed { command_id, status_code }.spec_message();
    let start = "PICOBOOT command 0x"@;
    let mid = " failed: status "@;
    assert(m =~= start + i + (mid + s + " ("@ + n + ")"@));
    lemma_named(m, start, i, mid + s + " ("@ + n + ")"@);
    assert(m =~= (start + i + mid) + s + (" ("@ + n + ")"@));
    lemma_named(m, start + i + mid, s, " ("@ + n + ")"@);
    assert(m =~= (start + i + mid + s + " ("@) + n + ")"@);
    lemma_named(m, start + i + mid + s + " ("@, n, ")"@);
    let m = PicobootError::StatusLength { got }.spec_message();
    let start = "PICOBOOT command status length mismatch: expected 16, got "@;
    assert(m =~= start + g + none);
    lemma_named(m, start, g, none);
    let m = PicobootError::OutDataLength { expected, got }.spec_message();
    let start = "PICOBOOT OUT data length mismatch: expected "@;
    assert(m =~= start + e + (", got "@ + g));
    lemma_named(m, start, e, ", got "@ + g);
    assert(m =~= (start + e + ", got "@) + g + none);
    lemma_named(m, start + e + ", got "@, g, none);
}

/// Vendor and product in four hexadecimal digits each.
pub open spec fn ids(vid: u16, pid: u16) -> Seq<char> {
    padded(vid as nat, 16, 4) + ":"@ + padded(pid as nat, 16, 4)
}

/// Where no device is found, the IDs are named at which it was looked for, those of the
/// boot ROM too, and the fallback vendors where they were looked for.
pub proof fn law_usb_errors_name_the_devices(vid: u16, pid: u16, fallback: bool, listed: Seq<char>)
    ensures
        ({
            let m = UsbErrorView::NoDevice { vid, pid, fallback }.spec_message();
            &&& contains_text(m, ids(vid, pid))
            &&& contains_text(m, ids(vid, 0x000F))
            &&& fallback ==> names(m, 0xC0DE, 16, 4) && names(m, 0xC001, 16, 4)
        }),
        contains_text(UsbErrorView::NoPicobootDevice { vid }.spec_message(), ids(vid, 0x000F)),
        contains_text(UsbErrorView::MultipleDevices { listed }.spec_message(), listed),
{
    let app = ids(vid, pid);
    let rom = ids(vid, 0x000F);
    let none = Seq::<char>::empty();
    let c0de = padded(0xC0DE, 16, 4);
    let c001 = padded(0xC001, 16, 4);
    let vids = " or any device with VID "@ + c0de + "/"@ + c001;
    let m = UsbErrorView::NoDevice { vid, pid, fallback }.spec_message();
    let start = "No device found at "@;
    let mid = " (app mode) or "@;
    let end = if fallback {
        vids
    } else {
        ""@
    };
    assert(m =~= start + app + (mid + rom + " (BOOTSEL)"@ + end));
    lemma_named(m, start, app, mid + rom + " (BOOTSEL)"@ + end);
    assert(m =~= (start + app + mid) + rom + (" (BOOTSEL)"@ + end));
    lemma_named(m, start + app + mid, rom, " (BOOTSEL)"@ + end);
    if fallback {
        let head = start + app + mid + rom + " (BOOTSEL)"@ + " or any device with VID "@;
        assert(m =~= head + c0de + ("/"@ + c001));
        lemma_named(m, head, c0de, "/"@ + c001);
        assert(m =~= (head + c0de + "/"@) + c001 + none);
        lemma_named(m, head + c0de + "/"@, c001, none);
    }
    let m = UsbErrorView::NoPicobootDevice { vid }.spec_message();
    assert(m =~= "No BOOTSEL/PICOBOOT device found at "@ + rom + none);
    lemma_named(m, "No BOOTSEL/PICOBOOT device found at "@, rom, none);
    let m = UsbErrorView::MultipleDevices { listed }.spec_message();
    let start = "Multiple matching USB devices are connected:\n- "@;
    let end = "\nUse --vid/--pid to select one, or disconnect extra probes before retrying."@;
    assert(m =~= start + listed + end);
    lemma_named(m, start, listed, end);
}

/// Segments that cannot be placed and entry points that are wrong are named by their
/// addresses.
pub proof fn law_elf_errors_name_the_addresses(from: u64, to: u64, expected: u32, actual: u32)
    ensures
        names(
            AddressRangesFromElfError::ContentsForUninitializedMemory(from).spec_message(),
            from as nat,
            16,
            8,
        ),
        ({
            let m = AddressRangesFromElfError::SegmentInvalidForDevice(from, to).spec_message();
            names(m, from as nat, 16, 6) && names(m, to as nat, 16, 6)
        }),
        ({
            let m = Elf2Uf2Error::RamBinaryEntryPoint(expected, actual).spec_message();
            names(m, expected as nat, 16, 6) && names(m, actual as nat, 16, 6)
        }),
{
    let none = Seq::<char>::empty();
    let a = padded(from as nat, 16, 8);
    let m = AddressRangesFromElfError::ContentsForUninitializedMemory(from).spec_message();
    let start = "ELF contains memory contents for uninitialized memory at "@;
    assert(m =~= start + a + none);
    lemma_named(m, start, a, none);
    let f = padded(from as nat, 16, 6);
    let t = padded(to as nat, 16, 6);
    let m = AddressRangesFromElfError::SegmentInvalidForDevice(from, to).spec_message();
    let start = "Memory segment "@ + "0x"@;
    let mid = "->"@ + "0x"@;
    let end = " is outside of valid address range for device"@;
    assert(m =~= start + f + (mid + t + end));
    lemma_named(m, start, f, mid + t + end);
    assert(m =~= (start + f + mid) + t + end);
    lemma_named(m, start + f + mid, t, end);
    let e = padded(expected as nat, 16, 6);
    let c = padded(actual as nat, 16, 6);
    let m = Elf2Uf2Error::RamBinaryEntryPoint(expected, actual).spec_message();
    let start = "A RAM binary should have an entry point at the beginning: "@ + "0x"@;
    let mid = " (not "@ + "0x"@;
    assert(m =~= start + e + (mid + c + ")"@));
    lemma_named(m, start, e, mid + c + ")"@);
    assert(m =~= (start + e + mid) + c + ")"@);
    lemma_named(m, start + e + mid, c, ")"@);
}

/// Where no port appears in time, the vendor, by default `2e8a`, the product, where one is
/// given, and the fallback vendors are named.
pub proof fn law_missing_port_is_named(vid: Option<u16>, pid: Option<u16>)
    ensures
        ({
            let m = port_timeout_text(vid, pid);
            &&& names(
                m,
                match vid {
                    Some(v) => v as nat,
                    None => 0x2E8A,
                },
                16,
                4,
            )
            &&& pid matches Some(p) ==> names(m, p as nat, 16, 4)
            &&& names(m, 0xC0DE, 16, 4)
            &&& names(m, 0xC001, 16, 4)
        }),
{
    let m = port_timeout_text(vid, pid);
    let v = padded(
        match vid {
            Some(v) => v as nat,
            None => 0x2E8A,
        },
        16,
        4,
    );
    let start = "Timed out waiting for serial port (VID "@;
    let product = match pid {
        Some(p) => "PID "@ + padded(p as nat, 16, 4),
        None => "any PID"@,
    };
    let mid = " / fallback VID "@;
    let c0de = padded(0xC0DE, 16, 4);
    let c001 = padded(0xC001, 16, 4);
    let end = ") \u{2014} retrying"@;
    assert(m =~= start + v + (" "@ + product + mid + c0de + "/"@ + c001 + end));
    lemma_named(m, start, v, " "@ + product + mid + c0de + "/"@ + c001 + end);
    match pid {
        Some(p) => {
            let n = padded(p as nat, 16, 4);
            assert(m =~= (start + v + " "@ + "PID "@) + n + (mid + c0de + "/"@ + c001 + end));
            lemma_named(m, start + v + " "@ + "PID "@, n, mid + c0de + "/"@ + c001 + end);
        },
        None => {},
    }
    let head = start + v + " "@ + product + mid;
    assert(m =~= head + c0de + ("/"@ + c001 + end));
    lemma_named(m, head, c0de, "/"@ + c001 + end);
    assert(m =~= (head + c0de + "/"@) + c001 + end);
    lemma_named(m, head + c0de + "/"@, c001, end);
}

/// The setup hint has the rules in it.
pub proof fn law_hint_has_the_rules(rules: Seq<char>)
    ensures
        contains_text(hint_text(rules), rules),
{
    let m = hint_text(rules);
    let start =
        "Hint: install the udev rules to grant non-root USB access, then reload:\n\nsudo tee /etc/udev/rules.d/99-probe-rp-usb.rules << 'EOF'\n"@;
    let end = m.skip((start.len() + rules.len()) as int);
    assert(m =~= start + rules + end);
    lemma_named(m, start, rules, end);
}

} // verus!
