//! Which interfaces need a WinUSB driver, judged by what Windows says of them.

use vstd::prelude::*;

use crate::picoboot::PRODUCT_ID_RP_USBBOOT;
use crate::pick::{law_picked, picked};
use crate::text::{
    ascii_upper, chars_contain, chars_stand_at, contains_text, hex, join_texts, joined, padded,
    push_padded_decimal, push_upper_hex, stands_at, texts, to_chars, upper_chars, upper_text,
};
use crate::usb::{DEFAULT_PID, DEFAULT_VID, FALLBACK_VID, SECOND_FALLBACK_VID};

verus! {

/// What Windows says of a device or of one of its interfaces.
#[derive(Debug)]
pub struct WdiDevice {
    pub vid: u16,
    pub pid: u16,
    pub mi: u8,
    pub desc: Option<String>,
    pub driver: Option<String>,
    pub device_id: Option<String>,
    pub hardware_id: Option<String>,
    pub compatible_id: Option<String>,
}

/// The devices that count: vendor, product, and whether the fallback vendors do too.
#[derive(Debug, Clone, Copy, PartialEq, Eq, Structural)]
pub struct ProbeId {
    pub vid: u16,
    pub pid: u16,
    pub fallback: bool,
}

/// The devices that count for the vendor and product that the caller names.
pub open spec fn spec_probe_id(vid: Option<u16>, pid: Option<u16>) -> ProbeId {
    ProbeId {
        vid: vid.unwrap_or(DEFAULT_VID),
        pid: pid.unwrap_or(DEFAULT_PID),
        fallback: vid is None,
    }
}

/// What goes wrong in preparing the driver.
#[derive(Debug)]
pub enum DriverError {
    /// Devices were found, but no interface to install the driver for.
    NoInterface { listed: String },
    /// The driver could not be attached everywhere.
    InstallFailed { details: String },
}

impl DriverError {
    /// The error in words.
    pub open spec fn spec_message(self) -> Seq<char> {
        match self {
            DriverError::NoInterface { listed } =>
                "Matching USB devices were found, but no reset/picotool-capable interface could be selected for WinUSB install. Connected entries: "@
                    + listed@,
            DriverError::InstallFailed { details } =>
                "Failed to attach WinUSB driver for one or more probe interfaces. Run the tool as Administrator and retry. Details: "@
                    + details@,
        }
    }

    /// The error in words.
    pub fn message(&self) -> (r: String)
        ensures
            r@ == self.spec_message(),
    {
        match self {
            DriverError::NoInterface { listed } => {
                let mut r =
                    "Matching USB devices were found, but no reset/picotool-capable interface could be selected for WinUSB install. Connected entries: ".to_owned();
                r.append(listed.as_str());
                r
            },
            DriverError::InstallFailed { details } => {
                let mut r =
                    "Failed to attach WinUSB driver for one or more probe interfaces. Run the tool as Administrator and retry. Details: ".to_owned();
                r.append(details.as_str());
                r
            },
        }
    }
}

// ---------------------------------------------------------------------------
// Classification
// ---------------------------------------------------------------------------

/// The text in upper case, empty where there is none.
pub open spec fn upper(s: Option<String>) -> Seq<char> {
    match s {
        Some(t) => upper_text(t@),
        None => Seq::empty(),
    }
}

/// Whether the text, in upper case, holds `needle`.
pub open spec fn mentions(s: Option<String>, needle: Seq<char>) -> bool {
    contains_text(upper(s), needle)
}

/// Whether the hardware or the compatible IDs hold `needle`.
pub open spec fn ids_mention(d: WdiDevice, needle: Seq<char>) -> bool {
    mentions(d.hardware_id, needle) || mentions(d.compatible_id, needle)
}

/// Whether the device is in BOOTSEL mode.
pub open spec fn bootsel(d: WdiDevice, vid: u16) -> bool {
    d.vid == vid && d.pid == PRODUCT_ID_RP_USBBOOT
}

/// Whether the device is one that counts.
pub open spec fn known(d: WdiDevice, id: ProbeId) -> bool {
    (d.vid == id.vid && (d.pid == id.pid || d.pid == PRODUCT_ID_RP_USBBOOT)) || (id.fallback && (
    d.vid == FALLBACK_VID || d.vid == SECOND_FALLBACK_VID))
}

/// Whether the entry looks like a reset interface.
pub open spec fn reset_signature(d: WdiDevice) -> bool {
    ||| mentions(d.desc, "RP2XXX-RESET"@)
    ||| mentions(d.desc, "RESET"@)
    ||| mentions(d.hardware_id, "RP2XXX-RESET"@)
    ||| mentions(d.compatible_id, "RP2XXX-RESET"@)
    ||| mentions(d.device_id, "RP2XXX-RESET"@)
    ||| ids_mention(d, "CLASS_FF"@) && ids_mention(d, "SUBCLASS_00"@) && ids_mention(d, "PROT_01"@)
}

/// Whether the entry looks like a serial port.
pub open spec fn cdc_acm(d: WdiDevice) -> bool {
    ||| ids_mention(d, "CLASS_02"@) && ids_mention(d, "SUBCLASS_02"@)
    ||| mentions(d.desc, "CDC"@)
    ||| mentions(d.desc, "ACM"@)
}

/// Whether the entry looks like an interface that the tool talks to.
pub open spec fn picotool_interface(d: WdiDevice, id: ProbeId) -> bool {
    &&& !cdc_acm(d)
    &&& (bootsel(d, id.vid) || (known(d, id) && (reset_signature(d) || ids_mention(d, "CLASS_FF"@)
        || mentions(d.hardware_id, "MI_"@) || mentions(d.device_id, "MI_"@))))
}

/// Whether the entry is the mass storage of a device in BOOTSEL mode.
pub open spec fn bootsel_mass_storage(d: WdiDevice, vid: u16) -> bool {
    &&& bootsel(d, vid)
    &&& (mentions(d.driver, "USBSTOR"@) || mentions(d.desc, "MASS STORAGE"@) || ids_mention(
        d,
        "CLASS_08"@,
    ))
}

/// The text in upper case, empty where there is none.
pub fn upper_opt(s: &Option<String>) -> (r: Vec<char>)
    ensures
        r@ == upper(*s),
{
    match s {
        Some(t) => upper_chars(t.as_str()),
        None => {
            let r: Vec<char> = Vec::new();
            assert(r@ =~= Seq::<char>::empty());
            r
        },
    }
}

/// Whether the device is in BOOTSEL mode.
pub fn is_bootsel_device(device: &WdiDevice, primary_vid: u16) -> (r: bool)
    ensures
        r == bootsel(*device, primary_vid),
{
    device.vid == primary_vid && device.pid == PRODUCT_ID_RP_USBBOOT
}

/// Whether the device is one that counts.
pub fn matches_known_probe_id(device: &WdiDevice, id: ProbeId) -> (r: bool)
    ensures
        r == known(*device, id),
{
    (device.vid == id.vid && (device.pid == id.pid || device.pid == PRODUCT_ID_RP_USBBOOT)) || (
    id.fallback && (device.vid == FALLBACK_VID || device.vid == SECOND_FALLBACK_VID))
}

/// Whether the entry looks like a reset interface.
pub fn looks_like_reset_signature(device: &WdiDevice) -> (r: bool)
    ensures
        r == reset_signature(*device),
{
    let hardware = upper_opt(&device.hardware_id);
    let compat = upper_opt(&device.compatible_id);
    let desc = upper_opt(&device.desc);
    let dev_id = upper_opt(&device.device_id);

    let mentions_reset: bool = chars_contain(&desc, "RP2XXX-RESET") || chars_contain(&desc, "RESET")
        || chars_contain(&hardware, "RP2XXX-RESET") || chars_contain(&compat, "RP2XXX-RESET")
        || chars_contain(&dev_id, "RP2XXX-RESET");

    let class_ff: bool = chars_contain(&hardware, "CLASS_FF") || chars_contain(&compat, "CLASS_FF");
    let subclass_00: bool = chars_contain(&hardware, "SUBCLASS_00") || chars_contain(
        &compat,
        "SUBCLASS_00",
    );
    let prot_01: bool = chars_contain(&hardware, "PROT_01") || chars_contain(&compat, "PROT_01");

    mentions_reset || (class_ff && subclass_00 && prot_01)
}

/// Whether the entry looks like a serial port.
pub fn looks_like_cdc_acm(device: &WdiDevice) -> (r: bool)
    ensures
        r == cdc_acm(*device),
{
    let hardware = upper_opt(&device.hardware_id);
    let compat = upper_opt(&device.compatible_id);
    let desc = upper_opt(&device.desc);

    let class_02: bool = chars_contain(&hardware, "CLASS_02") || chars_contain(&compat, "CLASS_02");
    let subclass_02: bool = chars_contain(&hardware, "SUBCLASS_02") || chars_contain(
        &compat,
        "SUBCLASS_02",
    );

    (class_02 && subclass_02) || chars_contain(&desc, "CDC") || chars_contain(&desc, "ACM")
}

/// Whether the entry looks like an interface that the tool talks to.
pub fn looks_like_picotool_interface(device: &WdiDevice, id: ProbeId) -> (r: bool)
    ensures
        r == picotool_interface(*device, id),
{
    if looks_like_cdc_acm(device) {
        return false;
    }
    if is_bootsel_device(device, id.vid) {
        return true;
    }
    if !matches_known_probe_id(device, id) {
        return false;
    }
    if looks_like_reset_signature(device) {
        return true;
    }
    let hardware = upper_opt(&device.hardware_id);
    let compat = upper_opt(&device.compatible_id);
    let dev_id = upper_opt(&device.device_id);
    let has_interface_id: bool = chars_contain(&hardware, "MI_") || chars_contain(&dev_id, "MI_");

    chars_contain(&hardware, "CLASS_FF") || chars_contain(&compat, "CLASS_FF") || has_interface_id
}

/// Whether the entry is the mass storage of a device in BOOTSEL mode.
pub fn is_bootsel_mass_storage(device: &WdiDevice, primary_vid: u16) -> (r: bool)
    ensures
        r == bootsel_mass_storage(*device, primary_vid),
{
    if !is_bootsel_device(device, primary_vid) {
        return false;
    }
    let driver = upper_opt(&device.driver);
    let desc = upper_opt(&device.desc);
    let hardware = upper_opt(&device.hardware_id);
    let compat = upper_opt(&device.compatible_id);

    chars_contain(&driver, "USBSTOR") || chars_contain(&desc, "MASS STORAGE") || chars_contain(
        &hardware,
        "CLASS_08",
    ) || chars_contain(&compat, "CLASS_08")
}

/// The text, or `default` where there is none.
pub open spec fn text_or(s: Option<String>, default: Seq<char>) -> Seq<char> {
    match s {
        Some(t) => t@,
        None => default,
    }
}

fn append_or(out: &mut String, s: &Option<String>, default: &str)
    ensures
        final(out)@ == old(out)@ + text_or(*s, default@),
{
    match s {
        Some(t) => out.append(t.as_str()),
        None => out.append(default),
    }
}

/// How an entry is listed.
pub open spec fn summary(d: WdiDevice) -> Seq<char> {
    upper_text(hex(d.vid as nat, 4)) + ":"@ + upper_text(hex(d.pid as nat, 4)) + " MI"@ + padded(
        d.mi as nat,
        10,
        2,
    ) + " desc='"@ + text_or(d.desc, "(no description)"@) + "' driver='"@ + text_or(
        d.driver,
        "(none)"@,
    ) + "' hwid='"@ + text_or(d.hardware_id, "(no hardware_id)"@) + "'"@
}

/// How an entry is listed.
pub fn summarize_wdi_device(device: &WdiDevice) -> (r: String)
    ensures
        r@ == summary(*device),
{
    let mut r = String::new();
    push_upper_hex(&mut r, device.vid as u64, 4);
    r.append(":");
    push_upper_hex(&mut r, device.pid as u64, 4);
    r.append(" MI");
    push_padded_decimal(&mut r, device.mi as u64, 2);
    r.append(" desc='");
    append_or(&mut r, &device.desc, "(no description)");
    r.append("' driver='");
    append_or(&mut r, &device.driver, "(none)");
    r.append("' hwid='");
    append_or(&mut r, &device.hardware_id, "(no hardware_id)");
    r.append("'");
    assert(r@ =~= summary(*device));
    r
}

// ---------------------------------------------------------------------------
// What to install
// ---------------------------------------------------------------------------

/// The entries that count.
pub open spec fn known_entries(devices: Seq<WdiDevice>, id: ProbeId) -> Seq<usize> {
    picked(|i: int| known(devices[i], id), devices.len())
}

/// The entries that need the driver.
pub open spec fn targets(devices: Seq<WdiDevice>, id: ProbeId) -> Seq<usize> {
    picked(
        |i: int|
            picotool_interface(devices[i], id) && !bootsel_mass_storage(devices[i], id.vid),
        devices.len(),
    )
}

/// How the entries with the given indices are listed.
pub open spec fn entry_list(devices: Seq<WdiDevice>, indices: Seq<usize>) -> Seq<char> {
    joined(indices.map_values(|i: usize| summary(devices[i as int])), " | "@)
}

/// Whether nothing is left to do where no entry needs the driver: nothing that counts
/// is connected, or only the mass storage of devices in BOOTSEL mode.
pub open spec fn nothing_to_install(devices: Seq<WdiDevice>, id: ProbeId) -> bool {
    forall|i: int|
        0 <= i < devices.len() && known(#[trigger] devices[i], id) ==> bootsel_mass_storage(
            devices[i],
            id.vid,
        )
}

/// The entries for which a WinUSB driver has to be installed, so that the reset and
/// PICOBOOT interfaces can be used.
///
/// If Windows already bound BOOTSEL to USB mass storage (`USBSTOR`), that is left
/// untouched and not treated as an installation failure.  On other systems there
/// are no entries and nothing is to be done.
pub fn ensure_winusb_driver(devices: &Vec<WdiDevice>, vid: Option<u16>, pid: Option<u16>) -> (r:
    Result<Vec<usize>, DriverError>)
    ensures
        ({
            let id = spec_probe_id(vid, pid);
            let t = targets(devices@, id);
            if t.len() > 0 {
                r matches Ok(v) && v@ == t
            } else if nothing_to_install(devices@, id) {
                r matches Ok(v) && v@.len() == 0
            } else {
                r matches Err(DriverError::NoInterface { listed }) && listed@ == entry_list(
                    devices@,
                    known_entries(devices@, id),
                )
            }
        }),
{
    let id = ProbeId {
        vid: vid.unwrap_or(DEFAULT_VID),
        pid: pid.unwrap_or(DEFAULT_PID),
        fallback: vid.is_none(),
    };
    let ghost is_known = |i: int| known(devices@[i], id);
    let ghost is_target = |i: int|
        picotool_interface(devices@[i], id) && !bootsel_mass_storage(devices@[i], id.vid);
    let ghost listed = |i: usize| summary(devices@[i as int]);
    let mut summaries: Vec<String> = Vec::new();
    let mut found: Vec<usize> = Vec::new();
    let mut all_storage: bool = true;
    let mut i: usize = 0;
    assert(found@ =~= picked(is_target, 0));
    assert(texts(summaries@) =~= picked(is_known, 0).map_values(listed));
    while i < devices.len()
        invariant
            i <= devices@.len(),
            is_known == (|i: int| known(devices@[i], id)),
            is_target == (|i: int|
                picotool_interface(devices@[i], id) && !bootsel_mass_storage(devices@[i], id.vid)),
            listed == (|i: usize| summary(devices@[i as int])),
            found@ == picked(is_target, i as nat),
            texts(summaries@) == picked(is_known, i as nat).map_values(listed),
            all_storage == (forall|k: int|
                0 <= k < i && known(#[trigger] devices@[k], id) ==> bootsel_mass_storage(
                    devices@[k],
                    id.vid,
                )),
        decreases devices@.len() - i,
    {
        let device = &devices[i];
        let storage: bool = is_bootsel_mass_storage(device, id.vid);
        proof {
            assert(is_known(i as int) == known(devices@[i as int], id));
            assert(is_target(i as int) == (picotool_interface(devices@[i as int], id)
                && !bootsel_mass_storage(devices@[i as int], id.vid)));
        }
        if looks_like_picotool_interface(device, id) && !storage {
            found.push(i);
        }
        if matches_known_probe_id(device, id) {
            let s = summarize_wdi_device(device);
            let ghost before = summaries@;
            summaries.push(s);
            proof {
                assert(listed(i) == s@);
                assert(texts(summaries@) =~= texts(before).push(s@));
                assert(picked(is_known, (i + 1) as nat).map_values(listed) =~= picked(
                    is_known,
                    i as nat,
                ).map_values(listed).push(s@));
            }
            if !storage {
                all_storage = false;
            }
        }
        i += 1;
        assert(found@ =~= picked(is_target, i as nat));
    }
    if found.len() > 0 {
        return Ok(found);
    }
    if all_storage {
        return Ok(Vec::new());
    }
    Err(DriverError::NoInterface { listed: join_texts(&summaries, " | ") })
}

/// How the installation for one entry went.
#[derive(Debug)]
pub enum InstallOutcome {
    Installed,
    /// There is a driver already.
    Exists,
    NeedsAdmin,
    Failed(String),
}

/// What is said of an installation that failed.
pub open spec fn failure_text(d: WdiDevice, outcome: InstallOutcome) -> Option<Seq<char>> {
    match outcome {
        InstallOutcome::Installed => None,
        InstallOutcome::Exists => if stands_at(upper(d.driver), "WINUSB"@, 0) {
            None
        } else {
            Some(
                summary(d) + " already has non-WinUSB driver '"@ + text_or(d.driver, "unknown"@)
                    + "'"@,
            )
        },
        InstallOutcome::NeedsAdmin => Some(summary(d) + " requires Administrator privileges"@),
        InstallOutcome::Failed(e) => Some(summary(d) + ": "@ + e@),
    }
}

/// What is said of the first `k` installations that failed.
pub open spec fn failures(
    devices: Seq<WdiDevice>,
    indices: Seq<usize>,
    outcomes: Seq<InstallOutcome>,
    k: nat,
) -> Seq<Seq<char>>
    decreases k,
{
    if k == 0 {
        Seq::empty()
    } else {
        let rest = failures(devices, indices, outcomes, (k - 1) as nat);
        match failure_text(devices[indices[k - 1] as int], outcomes[k - 1]) {
            Some(t) => rest.push(t),
            None => rest,
        }
    }
}

fn describe_failure(device: &WdiDevice, outcome: &InstallOutcome) -> (r: Option<String>)
    ensures
        (match r {
            Some(t) => failure_text(*device, *outcome) == Some(t@),
            None => failure_text(*device, *outcome) is None,
        }),
{
    match outcome {
        InstallOutcome::Installed => None,
        InstallOutcome::Exists => {
            let current = upper_opt(&device.driver);
            let pattern = to_chars("WINUSB");
            if chars_stand_at(&current, &pattern, 0) {
                None
            } else {
                let mut r = summarize_wdi_device(device);
                r.append(" already has non-WinUSB driver '");
                append_or(&mut r, &device.driver, "unknown");
                r.append("'");
                Some(r)
            }
        },
        InstallOutcome::NeedsAdmin => {
            let mut r = summarize_wdi_device(device);
            r.append(" requires Administrator privileges");
            Some(r)
        },
        InstallOutcome::Failed(e) => {
            let mut r = summarize_wdi_device(device);
            r.append(": ");
            r.append(e.as_str());
            Some(r)
        },
    }
}

/// Whether the driver is in place after the given installations.
pub fn check_installations(
    devices: &Vec<WdiDevice>,
    indices: &Vec<usize>,
    outcomes: &Vec<InstallOutcome>,
) -> (r: Result<(), DriverError>)
    requires
        indices@.len() == outcomes@.len(),
        forall|k: int| 0 <= k < indices@.len() ==> (#[trigger] indices@[k]) < devices@.len(),
    ensures
        ({
            let f = failures(devices@, indices@, outcomes@, indices@.len());
            if f.len() == 0 {
                r is Ok
            } else {
                r matches Err(DriverError::InstallFailed { details }) && details@ == joined(
                    f,
                    " | "@,
                )
            }
        }),
{
    let mut parts: Vec<String> = Vec::new();
    let mut k: usize = 0;
    assert(texts(parts@) =~= failures(devices@, indices@, outcomes@, 0));
    while k < indices.len()
        invariant
            k <= indices@.len(),
            indices@.len() == outcomes@.len(),
            forall|k: int| 0 <= k < indices@.len() ==> (#[trigger] indices@[k]) < devices@.len(),
            texts(parts@) == failures(devices@, indices@, outcomes@, k as nat),
        decreases indices@.len() - k,
    {
        let i: usize = indices[k];
        match describe_failure(&devices[i], &outcomes[k]) {
            Some(t) => {
                let ghost before = parts@;
                parts.push(t);
                assert(texts(parts@) =~= texts(before).push(t@));
            },
            None => {},
        }
        k += 1;
    }
    assert(texts(parts@).len() == parts@.len());
    if parts.len() == 0 {
        return Ok(());
    }
    Err(DriverError::InstallFailed { details: join_texts(&parts, " | ") })
}

// ---------------------------------------------------------------------------
// Laws
// ---------------------------------------------------------------------------

/// The mass storage of a device in BOOTSEL mode and serial ports are never touched.
pub proof fn law_targets_leave_storage_and_serial(devices: Seq<WdiDevice>, id: ProbeId, k: int)
    requires
        devices.len() <= usize::MAX,
        0 <= k < targets(devices, id).len(),
    ensures
        targets(devices, id)[k] < devices.len(),
        !bootsel_mass_storage(devices[targets(devices, id)[k] as int], id.vid),
        !cdc_acm(devices[targets(devices, id)[k] as int]),
{
    let wanted = |i: int|
        picotool_interface(devices[i], id) && !bootsel_mass_storage(devices[i], id.vid);
    law_picked(wanted, devices.len());
    assert(wanted(targets(devices, id)[k] as int));
}

/// Whether a text is there and, with its ASCII letters in upper case, has `needle` in it.
pub open spec fn says(s: Option<String>, needle: Seq<char>) -> bool {
    s matches Some(t) && exists|at: int| #[trigger] says_at(t@, needle, at)
}

/// Whether `needle` is what stands from index `at` on, ASCII letters in upper case.
pub open spec fn says_at(t: Seq<char>, needle: Seq<char>, at: int) -> bool {
    0 <= at && at + needle.len() <= t.len() && forall|k: int|
        0 <= k < needle.len() ==> ascii_upper(#[trigger] t[at + k]) == needle[k]
}

proof fn lemma_says_at(t: Seq<char>, needle: Seq<char>, at: int)
    ensures
        says_at(t, needle, at) <==> stands_at(upper_text(t), needle, at),
{
    let u = upper_text(t);
    if says_at(t, needle, at) {
        assert forall|k: int| 0 <= k < needle.len() implies u.subrange(at, at + needle.len())[k]
            == needle[k] by {
            assert(ascii_upper(t[at + k]) == needle[k]);
        }
        assert(u.subrange(at, at + needle.len()) =~= needle);
    }
    if stands_at(u, needle, at) {
        assert forall|k: int| 0 <= k < needle.len() implies ascii_upper(#[trigger] t[at + k])
            == needle[k] by {
            assert(u.subrange(at, at + needle.len())[k] == u[at + k]);
        }
    }
}

/// What Windows says is searched without regard to the case of its letters; where it says
/// nothing, nothing is found.
pub proof fn law_mentions(s: Option<String>, needle: Seq<char>)
    requires
        needle.len() > 0,
    ensures
        mentions(s, needle) <==> says(s, needle),
{
    match s {
        None => {
            if mentions(s, needle) {
                let at = choose|at: int| stands_at(upper(s), needle, at);
                assert(upper(s).len() == 0);
            }
        },
        Some(t) => {
            if mentions(s, needle) {
                let at = choose|at: int| stands_at(upper(s), needle, at);
                lemma_says_at(t@, needle, at);
                assert(says_at(t@, needle, at));
            }
            if says(s, needle) {
                let at = choose|at: int| says_at(t@, needle, at);
                lemma_says_at(t@, needle, at);
                assert(stands_at(upper(s), needle, at));
            }
        },
    }
}

/// The devices that count have the vendor that is given, by default `2e8a`, and the product
/// that is given, by default `0009`, or that of the boot ROM; without a given vendor all
/// devices of vendors `c0de` and `c001` do too.
pub proof fn law_devices_that_count(d: WdiDevice, vid: Option<u16>, pid: Option<u16>)
    ensures
        known(d, spec_probe_id(vid, pid)) <==> {
            ||| d.vid == (match vid {
                Some(v) => v,
                None => 0x2E8A,
            }) && (d.pid == (match pid {
                Some(p) => p,
                None => 0x0009,
            }) || d.pid == 0x000F)
            ||| vid is None && (d.vid == 0xC0DE || d.vid == 0xC001)
        },
{
}

/// An entry is left alone as a serial port where its IDs name class and subclass 2 or its
/// description says so.
pub proof fn law_serial_entries(d: WdiDevice)
    ensures
        cdc_acm(d) <==> {
            ||| says(d.desc, "CDC"@)
            ||| says(d.desc, "ACM"@)
            ||| (says(d.hardware_id, "CLASS_02"@) || says(d.compatible_id, "CLASS_02"@)) && (says(
                d.hardware_id,
                "SUBCLASS_02"@,
            ) || says(d.compatible_id, "SUBCLASS_02"@))
        },
{
    reveal_strlit("CDC");
    reveal_strlit("ACM");
    reveal_strlit("CLASS_02");
    reveal_strlit("SUBCLASS_02");
    law_mentions(d.desc, "CDC"@);
    law_mentions(d.desc, "ACM"@);
    law_mentions(d.hardware_id, "CLASS_02"@);
    law_mentions(d.compatible_id, "CLASS_02"@);
    law_mentions(d.hardware_id, "SUBCLASS_02"@);
    law_mentions(d.compatible_id, "SUBCLASS_02"@);
}

/// An entry is left alone as the drive of a device in BOOTSEL mode where it has the
/// vendor and the boot ROM's product and its driver, its description or its IDs say so.
pub proof fn law_storage_entries(d: WdiDevice, vid: u16)
    ensures
        bootsel_mass_storage(d, vid) <==> d.vid == vid && d.pid == 0x000F && {
            ||| says(d.driver, "USBSTOR"@)
            ||| says(d.desc, "MASS STORAGE"@)
            ||| says(d.hardware_id, "CLASS_08"@)
            ||| says(d.compatible_id, "CLASS_08"@)
        },
{
    reveal_strlit("USBSTOR");
    reveal_strlit("MASS STORAGE");
    reveal_strlit("CLASS_08");
    law_mentions(d.driver, "USBSTOR"@);
    law_mentions(d.desc, "MASS STORAGE"@);
    law_mentions(d.hardware_id, "CLASS_08"@);
    law_mentions(d.compatible_id, "CLASS_08"@);
}

/// An entry is a reset interface where it is called so, or where its IDs name class ff,
/// subclass 0 and protocol 1.
pub proof fn law_reset_entries(d: WdiDevice)
    ensures
        reset_signature(d) <==> {
            ||| says(d.desc, "RESET"@)
            ||| says(d.hardware_id, "RP2XXX-RESET"@)
            ||| says(d.compatible_id, "RP2XXX-RESET"@)
            ||| says(d.device_id, "RP2XXX-RESET"@)
            ||| (says(d.hardware_id, "CLASS_FF"@) || says(d.compatible_id, "CLASS_FF"@)) && (says(
                d.hardware_id,
                "SUBCLASS_00"@,
            ) || says(d.compatible_id, "SUBCLASS_00"@)) && (says(d.hardware_id, "PROT_01"@) || says(
                d.compatible_id,
                "PROT_01"@,
            ))
        },
{
    reveal_strlit("RESET");
    reveal_strlit("RP2XXX-RESET");
    reveal_strlit("CLASS_FF");
    reveal_strlit("SUBCLASS_00");
    reveal_strlit("PROT_01");
    law_mentions(d.desc, "RESET"@);
    law_mentions(d.desc, "RP2XXX-RESET"@);
    law_mentions(d.hardware_id, "RP2XXX-RESET"@);
    law_mentions(d.compatible_id, "RP2XXX-RESET"@);
    law_mentions(d.device_id, "RP2XXX-RESET"@);
    law_mentions(d.hardware_id, "CLASS_FF"@);
    law_mentions(d.compatible_id, "CLASS_FF"@);
    law_mentions(d.hardware_id, "SUBCLASS_00"@);
    law_mentions(d.compatible_id, "SUBCLASS_00"@);
    law_mentions(d.hardware_id, "PROT_01"@);
    law_mentions(d.compatible_id, "PROT_01"@);
    if says(d.desc, "RP2XXX-RESET"@) {
        let t = d.desc->0@;
        let at = choose|at: int| says_at(t, "RP2XXX-RESET"@, at);
        assert forall|k: int| 0 <= k < 5 implies ascii_upper(#[trigger] t[at + 7 + k])
            == "RESET"@[k] by {
            assert(ascii_upper(t[at + (7 + k)]) == "RP2XXX-RESET"@[7 + k]);
        }
        assert(says_at(t, "RESET"@, at + 7));
    }
}

/// The driver is installed for the entries that are neither serial ports nor the drive of a
/// device in BOOTSEL mode and that belong to a device in BOOTSEL mode, or to one that
/// counts and are a reset interface, of class ff, or one of several interfaces.  They are
/// listed in order, each once.
pub proof fn law_entries_to_install(devices: Seq<WdiDevice>, vid: Option<u16>, pid: Option<u16>)
    requires
        devices.len() <= usize::MAX,
    ensures
        ({
            let id = spec_probe_id(vid, pid);
            let t = targets(devices, id);
            let v = match vid {
                Some(v) => v,
                None => 0x2E8A,
            };
            &&& forall|i: int, j: int|
                0 <= i < j < t.len() ==> (#[trigger] t[i]) < (#[trigger] t[j])
            &&& forall|i: int| 0 <= i < t.len() ==> (#[trigger] t[i]) < devices.len()
            &&& forall|i: int|
                0 <= i < devices.len() ==> (t.contains(i as usize) <==> {
                    let d = #[trigger] devices[i];
                    &&& !cdc_acm(d)
                    &&& !bootsel_mass_storage(d, v)
                    &&& {
                        ||| d.vid == v && d.pid == 0x000F
                        ||| known(d, id) && {
                            ||| reset_signature(d)
                            ||| says(d.hardware_id, "CLASS_FF"@)
                            ||| says(d.compatible_id, "CLASS_FF"@)
                            ||| says(d.hardware_id, "MI_"@)
                            ||| says(d.device_id, "MI_"@)
                        }
                    }
                })
        }),
{
    let id = spec_probe_id(vid, pid);
    let t = targets(devices, id);
    let wanted = |i: int|
        picotool_interface(devices[i], id) && !bootsel_mass_storage(devices[i], id.vid);
    law_picked(wanted, devices.len());
    assert(t == picked(wanted, devices.len()));
    assert forall|i: int| 0 <= i < devices.len() implies (t.contains(i as usize) <==> {
        let d = #[trigger] devices[i];
        &&& !cdc_acm(d)
        &&& !bootsel_mass_storage(d, id.vid)
        &&& {
            ||| d.vid == id.vid && d.pid == 0x000F
            ||| known(d, id) && {
                ||| reset_signature(d)
                ||| says(d.hardware_id, "CLASS_FF"@)
                ||| says(d.compatible_id, "CLASS_FF"@)
                ||| says(d.hardware_id, "MI_"@)
                ||| says(d.device_id, "MI_"@)
            }
        }
    }) by {
        let d = devices[i];
        reveal_strlit("CLASS_FF");
        reveal_strlit("MI_");
        law_mentions(d.hardware_id, "CLASS_FF"@);
        law_mentions(d.compatible_id, "CLASS_FF"@);
        law_mentions(d.hardware_id, "MI_"@);
        law_mentions(d.device_id, "MI_"@);
        if t.contains(i as usize) {
            let k = choose|k: int| 0 <= k < t.len() && t[k] == i as usize;
            assert(wanted(t[k] as int));
        }
        assert(wanted(i) ==> t.contains(i as usize));
    }
}

/// An installation is in order where the driver was installed, or where there was one that
/// is called WinUSB.  Nothing else is.
pub proof fn law_installation_in_order(d: WdiDevice, outcome: InstallOutcome)
    ensures
        failure_text(d, outcome) is None <==> outcome is Installed || (outcome is Exists && (
        d.driver matches Some(t) && says_at(t@, "WINUSB"@, 0))),
{
    reveal_strlit("WINUSB");
    match d.driver {
        Some(t) => {
            lemma_says_at(t@, "WINUSB"@, 0);
        },
        None => {},
    }
}

/// Every installation that is not in order is told of, in turn, and nothing more.
pub proof fn law_failures_are_told(
    devices: Seq<WdiDevice>,
    indices: Seq<usize>,
    outcomes: Seq<InstallOutcome>,
    k: nat,
)
    ensures
        failures(devices, indices, outcomes, 0).len() == 0,
        (match failure_text(devices[indices[k as int] as int], outcomes[k as int]) {
            Some(t) => failures(devices, indices, outcomes, k + 1) == failures(
                devices,
                indices,
                outcomes,
                k,
            ).push(t),
            None => failures(devices, indices, outcomes, k + 1) == failures(
                devices,
                indices,
                outcomes,
                k,
            ),
        }),
{
}

/// The parts of how an entry is listed: vendor and product in four upper-case hexadecimal
/// digits, the interface in two decimal ones, then description, driver and hardware ID.
pub proof fn law_listed_entry(d: WdiDevice)
    requires
        d.desc is Some,
        d.driver is Some,
        d.hardware_id is Some,
    ensures
        summary(d) == upper_text(padded(d.vid as nat, 16, 4)) + ":"@ + upper_text(
            padded(d.pid as nat, 16, 4),
        ) + " MI"@ + padded(d.mi as nat, 10, 2) + " desc='"@ + d.desc->0@ + "' driver='"@
            + d.driver->0@ + "' hwid='"@ + d.hardware_id->0@ + "'"@,
{
}

} // verus!
