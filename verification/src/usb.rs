//! USB devices as plain values, and the choice among them.

use vstd::prelude::*;

use crate::picoboot::PRODUCT_ID_RP_USBBOOT;
use crate::pick::{first_from, law_picked, picked};
use crate::text::{
    chars_contain, contains_text, decimal, hex, join_texts, joined, law_contained_text, law_containing_text,
    lower_chars, lower_text, padded, push_decimal, push_hex, stands_at, texts,
};

verus! {

/// USB class of CDC (serial) control interfaces.
pub const CDC_CLASS: u8 = 0x02;

/// USB subclass of CDC Abstract Control Model interfaces.
pub const CDC_SUBCLASS_ACM: u8 = 0x02;

/// USB language ID for US-English string descriptors.
pub const LANG_EN_US: u16 = 0x0409;

/// Time limit for reading a string descriptor, in milliseconds.
pub const LABEL_TIMEOUT_MS: u64 = 500;

/// Vendor used when the caller names none.
pub const DEFAULT_VID: u16 = 0x2E8A;

/// Product used when the caller names none.
pub const DEFAULT_PID: u16 = 0x0009;

/// First vendor that is tried too when the caller names none.
pub const FALLBACK_VID: u16 = 0xC0DE;

/// Second vendor that is tried too when the caller names none.
pub const SECOND_FALLBACK_VID: u16 = 0xC001;

/// Class of vendor-specific interfaces.
pub const VENDOR_CLASS: u8 = 0xFF;

pub const RESET_INTERFACE_SUBCLASS: u8 = 0x00;

pub const RESET_INTERFACE_PROTOCOL: u8 = 0x01;

pub const RESET_REQUEST_BOOTSEL: u8 = 0x01;

/// Time limit for the reset request, in milliseconds.
pub const RESET_TIMEOUT_MS: u64 = 2000;

/// The vendors that are tried too when the caller names none, in order.
pub fn fallback_vids() -> (r: [u16; 2])
    ensures
        r@ == seq![FALLBACK_VID, SECOND_FALLBACK_VID],
{
    let r: [u16; 2] = [FALLBACK_VID, SECOND_FALLBACK_VID];
    assert(r@ =~= seq![FALLBACK_VID, SECOND_FALLBACK_VID]);
    r
}

// ---------------------------------------------------------------------------
// Devices
// ---------------------------------------------------------------------------

/// A connected device.
#[derive(Debug)]
pub struct UsbDevice {
    pub bus: String,
    pub address: u8,
    pub vendor_id: u16,
    pub product_id: u16,
}

/// An endpoint of an interface.
#[derive(Debug, Clone, Copy, PartialEq, Eq, Structural)]
pub struct UsbEndpoint {
    pub address: u8,
    pub bulk: bool,
    pub input: bool,
}

/// An alternate setting of an interface.
#[derive(Debug)]
pub struct UsbAltSetting {
    pub interface_number: u8,
    pub class: u8,
    pub subclass: u8,
    pub protocol: u8,
    pub string_index: Option<u8>,
    pub endpoints: Vec<UsbEndpoint>,
}

/// What goes wrong in choosing a device or an interface.
#[derive(Debug)]
pub enum UsbError {
    /// More than one device matches; they are listed.
    MultipleDevices { listed: String },
    /// No device matches.
    NoDevice { vid: u16, pid: u16, fallback: bool },
    /// There is no boot ROM device of this vendor.
    NoPicobootDevice { vid: u16 },
    /// The device has no reset interface.
    ResetInterfaceNotFound,
}

/// What a [`UsbError`] says.
pub enum UsbErrorView {
    MultipleDevices { listed: Seq<char> },
    NoDevice { vid: u16, pid: u16, fallback: bool },
    NoPicobootDevice { vid: u16 },
    ResetInterfaceNotFound,
}

impl View for UsbError {
    type V = UsbErrorView;

    open spec fn view(&self) -> UsbErrorView {
        match self {
            UsbError::MultipleDevices { listed } => UsbErrorView::MultipleDevices {
                listed: listed@,
            },
            UsbError::NoDevice { vid, pid, fallback } => UsbErrorView::NoDevice {
                vid: *vid,
                pid: *pid,
                fallback: *fallback,
            },
            UsbError::NoPicobootDevice { vid } => UsbErrorView::NoPicobootDevice { vid: *vid },
            UsbError::ResetInterfaceNotFound => UsbErrorView::ResetInterfaceNotFound,
        }
    }
}

/// Vendor and product in four hexadecimal digits each.
pub open spec fn id_text(vid: u16, pid: u16) -> Seq<char> {
    hex(vid as nat, 4) + ":"@ + hex(pid as nat, 4)
}

fn push_id(out: &mut String, vid: u16, pid: u16)
    ensures
        final(out)@ == old(out)@ + id_text(vid, pid),
{
    push_hex(out, vid as u64, 4);
    out.append(":");
    push_hex(out, pid as u64, 4);
    assert(out@ =~= old(out)@ + id_text(vid, pid));
}

/// What is said of the fallback vendors.
pub open spec fn fallback_hint(fallback: bool) -> Seq<char> {
    if fallback {
        " or any device with VID "@ + hex(FALLBACK_VID as nat, 4) + "/"@ + hex(
            SECOND_FALLBACK_VID as nat,
            4,
        )
    } else {
        ""@
    }
}

impl UsbErrorView {
    /// The error in words.
    pub open spec fn spec_message(self) -> Seq<char> {
        match self {
            UsbErrorView::MultipleDevices { listed } =>
                "Multiple matching USB devices are connected:\n- "@ + listed
                    + "\nUse --vid/--pid to select one, or disconnect extra probes before retrying."@,
            UsbErrorView::NoDevice { vid, pid, fallback } => "No device found at "@ + id_text(
                vid,
                pid,
            ) + " (app mode) or "@ + id_text(vid, PRODUCT_ID_RP_USBBOOT) + " (BOOTSEL)"@
                + fallback_hint(fallback),
            UsbErrorView::NoPicobootDevice { vid } => "No BOOTSEL/PICOBOOT device found at "@
                + id_text(vid, PRODUCT_ID_RP_USBBOOT),
            UsbErrorView::ResetInterfaceNotFound => "USB reset interface not found on device"@,
        }
    }
}

impl UsbError {
    /// The error in words.
    pub fn message(&self) -> (r: String)
        ensures
            r@ == self@.spec_message(),
    {
        match self {
            UsbError::MultipleDevices { listed } => {
                let mut r = "Multiple matching USB devices are connected:\n- ".to_owned();
                r.append(listed.as_str());
                r.append(
                    "\nUse --vid/--pid to select one, or disconnect extra probes before retrying.",
                );
                r
            },
            UsbError::NoDevice { vid, pid, fallback } => {
                let mut r = "No device found at ".to_owned();
                push_id(&mut r, *vid, *pid);
                r.append(" (app mode) or ");
                push_id(&mut r, *vid, PRODUCT_ID_RP_USBBOOT);
                r.append(" (BOOTSEL)");
                if *fallback {
                    r.append(" or any device with VID ");
                    push_hex(&mut r, FALLBACK_VID as u64, 4);
                    r.append("/");
                    push_hex(&mut r, SECOND_FALLBACK_VID as u64, 4);
                } else {
                    r.append("");
                }
                assert(r@ =~= self@.spec_message());
                r
            },
            UsbError::NoPicobootDevice { vid } => {
                let mut r = "No BOOTSEL/PICOBOOT device found at ".to_owned();
                push_id(&mut r, *vid, PRODUCT_ID_RP_USBBOOT);
                r
            },
            UsbError::ResetInterfaceNotFound =>
                "USB reset interface not found on device".to_owned(),
        }
    }
}

// ---------------------------------------------------------------------------
// Choosing a device
// ---------------------------------------------------------------------------

/// A vendor and, where it matters, a product.
pub type Selector = (u16, Option<u16>);

/// Whether the selector matches device `i`.
pub open spec fn selects(devices: Seq<UsbDevice>, sel: Selector, i: int) -> bool {
    devices[i].vendor_id == sel.0 && (match sel.1 {
        Some(pid) => devices[i].product_id == pid,
        None => true,
    })
}

/// The devices that a selector matches.
pub open spec fn matching(devices: Seq<UsbDevice>, sel: Selector) -> Seq<usize> {
    picked(|i: int| selects(devices, sel, i), devices.len())
}

/// `list` followed by those of `more` that are not in it, each once.
pub open spec fn with_new(list: Seq<usize>, more: Seq<usize>) -> Seq<usize>
    decreases more.len(),
{
    if more.len() == 0 {
        list
    } else {
        let rest = with_new(list, more.drop_last());
        if rest.contains(more.last()) {
            rest
        } else {
            rest.push(more.last())
        }
    }
}

/// The devices that one of the first `k` selectors matches, each once, in the order of
/// the selectors.
pub open spec fn matching_any(devices: Seq<UsbDevice>, selectors: Seq<Selector>, k: nat) -> Seq<
    usize,
>
    decreases k,
{
    if k == 0 {
        Seq::empty()
    } else {
        with_new(
            matching_any(devices, selectors, (k - 1) as nat),
            matching(devices, selectors[k - 1]),
        )
    }
}

/// How a device is listed.
pub open spec fn spec_device_summary(d: UsbDevice) -> Seq<char> {
    "bus "@ + d.bus@ + " addr "@ + decimal(d.address as nat) + " "@ + id_text(
        d.vendor_id,
        d.product_id,
    )
}

/// How the devices with the given indices are listed.
pub open spec fn listing(devices: Seq<UsbDevice>, indices: Seq<usize>) -> Seq<char> {
    joined(indices.map_values(|i: usize| spec_device_summary(devices[i as int])), "\n- "@)
}

/// The one device that the selectors match, none where they match none, an error
/// where they match several devices.
pub open spec fn selection(devices: Seq<UsbDevice>, selectors: Seq<Selector>) -> Result<
    Option<usize>,
    UsbErrorView,
> {
    let m = matching_any(devices, selectors, selectors.len());
    if m.len() == 0 {
        Ok(None)
    } else if m.len() == 1 {
        Ok(Some(m[0]))
    } else {
        Err(UsbErrorView::MultipleDevices { listed: listing(devices, m) })
    }
}

/// The boot ROM device of one vendor.
pub open spec fn bootsel_selectors(vid: Option<u16>) -> Seq<Selector> {
    seq![(vid.unwrap_or(DEFAULT_VID), Some(PRODUCT_ID_RP_USBBOOT))]
}

/// The fallback vendors, with the given product or any.
pub open spec fn fallback_selectors(pid: Option<u16>) -> Seq<Selector> {
    seq![(FALLBACK_VID, pid), (SECOND_FALLBACK_VID, pid)]
}

/// The boot ROM devices that may be opened.
pub open spec fn candidate_selectors(vid: Option<u16>) -> Seq<Selector> {
    if vid is None {
        bootsel_selectors(vid) + fallback_selectors(Some(PRODUCT_ID_RP_USBBOOT))
    } else {
        bootsel_selectors(vid)
    }
}

/// How a device is listed.
pub fn device_summary(device: &UsbDevice) -> (r: String)
    ensures
        r@ == spec_device_summary(*device),
{
    let mut r = "bus ".to_owned();
    r.append(device.bus.as_str());
    r.append(" addr ");
    push_decimal(&mut r, device.address as u64);
    r.append(" ");
    push_id(&mut r, device.vendor_id, device.product_id);
    assert(r@ =~= spec_device_summary(*device));
    r
}

/// The devices of a vendor and, where it is given, of a product.
pub fn matching_devices(devices: &Vec<UsbDevice>, vid: u16, pid: Option<u16>) -> (r: Vec<usize>)
    ensures
        r@ == matching(devices@, (vid, pid)),
{
    let ghost wanted = |i: int| selects(devices@, (vid, pid), i);
    let mut r: Vec<usize> = Vec::new();
    let mut i: usize = 0;
    assert(r@ =~= picked(wanted, 0));
    while i < devices.len()
        invariant
            i <= devices@.len(),
            wanted == (|i: int| selects(devices@, (vid, pid), i)),
            r@ == picked(wanted, i as nat),
        decreases devices@.len() - i,
    {
        let d = &devices[i];
        let pid_ok: bool = match pid {
            Some(expected) => d.product_id == expected,
            None => true,
        };
        assert(wanted(i as int) == selects(devices@, (vid, pid), i as int));
        if d.vendor_id == vid && pid_ok {
            r.push(i);
        }
        i += 1;
        assert(r@ =~= picked(wanted, i as nat));
    }
    r
}

proof fn lemma_matching_in_range(devices: Seq<UsbDevice>, sel: Selector)
    requires
        devices.len() <= usize::MAX,
    ensures
        forall|j: int|
            0 <= j < matching(devices, sel).len() ==> (#[trigger] matching(devices, sel)[j])
                < devices.len(),
{
    law_picked(|i: int| selects(devices, sel, i), devices.len());
}

/// What a list with new items holds: the items of both, none twice where none was.
proof fn lemma_with_new(list: Seq<usize>, more: Seq<usize>)
    ensures
        forall|i: usize| #[trigger]
            with_new(list, more).contains(i) <==> list.contains(i) || more.contains(i),
        list.no_duplicates() ==> with_new(list, more).no_duplicates(),
    decreases more.len(),
{
    if more.len() > 0 {
        let init = more.drop_last();
        let rest = with_new(list, init);
        let all = with_new(list, more);
        lemma_with_new(list, init);
        assert forall|i: usize| #[trigger]
            all.contains(i) <==> list.contains(i) || more.contains(i) by {
            if more.contains(i) && i != more.last() {
                let k = choose|k: int| 0 <= k < more.len() && more[k] == i;
                assert(init[k] == i);
            }
            if init.contains(i) {
                let k = choose|k: int| 0 <= k < init.len() && init[k] == i;
                assert(more[k] == i);
            }
            assert(more[more.len() - 1] == more.last());
            if rest.contains(i) {
                let k = choose|k: int| 0 <= k < rest.len() && rest[k] == i;
                assert(all[k] == i);
            }
            if !rest.contains(more.last()) {
                assert(all[rest.len() as int] == more.last());
                if all.contains(i) && i != more.last() {
                    let k = choose|k: int| 0 <= k < all.len() && all[k] == i;
                    assert(rest[k] == i);
                }
            }
        }
    } else {
        assert(more =~= Seq::<usize>::empty());
    }
}

/// Appends the items of `more` that are not in `list` yet.
fn append_new(list: &mut Vec<usize>, more: &Vec<usize>)
    ensures
        final(list)@ == with_new(old(list)@, more@),
{
    let mut k: usize = 0;
    assert(more@.take(0) =~= Seq::<usize>::empty());
    while k < more.len()
        invariant
            k <= more@.len(),
            list@ == with_new(old(list)@, more@.take(k as int)),
        decreases more@.len() - k,
    {
        let item: usize = more[k];
        let mut known: bool = false;
        let mut i: usize = 0;
        while i < list.len()
            invariant
                i <= list@.len(),
                known == exists|j: int| 0 <= j < i && #[trigger] list@[j] == item,
            decreases list@.len() - i,
        {
            if list[i] == item {
                known = true;
            }
            i += 1;
        }
        assert(known == list@.contains(item));
        assert(more@.take(k + 1).drop_last() =~= more@.take(k as int));
        if !known {
            list.push(item);
        }
        k += 1;
    }
    assert(more@.take(k as int) =~= more@);
}

/// Select a unique USB device from one or more VID/PID selectors.
///
/// Returns `Ok(None)` when no device matches any selector, and returns an
/// error when more than one device matches so the caller can ask the user to
/// narrow the selection.
pub fn select_unique_device(devices: &Vec<UsbDevice>, selectors: &Vec<(u16, Option<u16>)>) -> (r:
    Result<Option<usize>, UsbError>)
    ensures
        (match r {
            Ok(o) => selection(devices@, selectors@) == Ok::<Option<usize>, UsbErrorView>(o),
            Err(e) => selection(devices@, selectors@) == Err::<Option<usize>, UsbErrorView>(e@),
        }),
        r matches Ok(Some(i)) ==> i < devices@.len(),
{
    let mut matches: Vec<usize> = Vec::new();
    let mut k: usize = 0;
    let count: usize = devices.len();
    assert(matches@ =~= matching_any(devices@, selectors@, 0));
    while k < selectors.len()
        invariant
            k <= selectors@.len(),
            count == devices@.len(),
            matches@ == matching_any(devices@, selectors@, k as nat),
            forall|j: int| 0 <= j < matches@.len() ==> (#[trigger] matches@[j]) < count,
        decreases selectors@.len() - k,
    {
        let (vid, pid) = selectors[k];
        let more = matching_devices(devices, vid, pid);
        proof {
            lemma_matching_in_range(devices@, (vid, pid));
        }
        append_new(&mut matches, &more);
        proof {
            lemma_with_new(
                matching_any(devices@, selectors@, k as nat),
                matching(devices@, (vid, pid)),
            );
            assert forall|j: int| 0 <= j < matches@.len() implies (#[trigger] matches@[j])
                < count by {
                assert(matches@.contains(matches@[j]));
            }
        }
        k += 1;
    }
    if matches.len() == 0 {
        return Ok(None);
    }
    if matches.len() == 1 {
        return Ok(Some(matches[0]));
    }
    let ghost summaries = matches@.map_values(|i: usize| spec_device_summary(devices@[i as int]));
    let mut parts: Vec<String> = Vec::new();
    let mut j: usize = 0;
    while j < matches.len()
        invariant
            j <= matches@.len(),
            count == devices@.len(),
            forall|j: int| 0 <= j < matches@.len() ==> (#[trigger] matches@[j]) < count,
            summaries == matches@.map_values(
                |i: usize| spec_device_summary(devices@[i as int]),
            ),
            texts(parts@) == summaries.take(j as int),
        decreases matches@.len() - j,
    {
        let i: usize = matches[j];
        let summary = device_summary(&devices[i]);
        let ghost before = parts@;
        parts.push(summary);
        proof {
            assert(summaries[j as int] == summary@);
            assert(texts(parts@) =~= texts(before).push(summary@));
            assert(summaries.take(j + 1) =~= summaries.take(j as int).push(summaries[j as int]));
        }
        j += 1;
    }
    assert(summaries.take(j as int) =~= summaries);
    Err(UsbError::MultipleDevices { listed: join_texts(&parts, "\n- ") })
}

/// Find a USB device by VID/PID.
pub fn find_device(devices: &Vec<UsbDevice>, vid: u16, pid: u16) -> (r: Option<usize>)
    ensures
        r == first_from(
            |i: int| selects(devices@, (vid, Some(pid)), i),
            0,
            devices@.len() as int,
        ),
{
    let ghost wanted = |i: int| selects(devices@, (vid, Some(pid)), i);
    let mut i: usize = 0;
    while i < devices.len()
        invariant
            i <= devices@.len(),
            wanted == (|i: int| selects(devices@, (vid, Some(pid)), i)),
            first_from(wanted, 0, devices@.len() as int) == first_from(
                wanted,
                i as int,
                devices@.len() as int,
            ),
        decreases devices@.len() - i,
    {
        assert(wanted(i as int) == selects(devices@, (vid, Some(pid)), i as int));
        if devices[i].vendor_id == vid && devices[i].product_id == pid {
            return Some(i);
        }
        i += 1;
    }
    None
}

/// Find the first USB device with the given VID, regardless of PID.
pub fn find_any_device_with_vid(devices: &Vec<UsbDevice>, vid: u16) -> (r: Option<usize>)
    ensures
        r == first_from(|i: int| devices@[i].vendor_id == vid, 0, devices@.len() as int),
{
    let ghost wanted = |i: int| devices@[i].vendor_id == vid;
    let mut i: usize = 0;
    while i < devices.len()
        invariant
            i <= devices@.len(),
            wanted == (|i: int| devices@[i].vendor_id == vid),
            first_from(wanted, 0, devices@.len() as int) == first_from(
                wanted,
                i as int,
                devices@.len() as int,
            ),
        decreases devices@.len() - i,
    {
        assert(wanted(i as int) == (devices@[i as int].vendor_id == vid));
        if devices[i].vendor_id == vid {
            return Some(i);
        }
        i += 1;
    }
    None
}

// ---------------------------------------------------------------------------
// Resetting
// ---------------------------------------------------------------------------

/// How a device is brought into BOOTSEL mode.
#[derive(Debug, Clone, Copy, PartialEq, Eq, Structural)]
pub enum ResetPlan {
    /// Send the reset request to an application.
    ResetInterface { device: usize },
    /// Reboot a device that is in BOOTSEL mode already.
    Picoboot { device: usize },
}

/// How a device is brought into its application.
#[derive(Debug, Clone, Copy, PartialEq, Eq, Structural)]
pub enum NormalPlan {
    /// It runs the application already.
    AlreadyNormal,
    /// Reboot a device that is in BOOTSEL mode.
    Picoboot { device: usize },
}

/// The application at the given vendor and product, or their defaults.
pub open spec fn app_selectors(vid: Option<u16>, pid: Option<u16>) -> Seq<Selector> {
    seq![(vid.unwrap_or(DEFAULT_VID), Some(pid.unwrap_or(DEFAULT_PID)))]
}

/// The error when no device matches.
pub open spec fn no_device(vid: Option<u16>, pid: Option<u16>) -> UsbErrorView {
    UsbErrorView::NoDevice {
        vid: vid.unwrap_or(DEFAULT_VID),
        pid: pid.unwrap_or(DEFAULT_PID),
        fallback: vid is None,
    }
}

/// How a device is brought into BOOTSEL mode, or why it cannot be.
pub open spec fn reset_plan(devices: Seq<UsbDevice>, vid: Option<u16>, pid: Option<u16>) -> Result<
    ResetPlan,
    UsbErrorView,
> {
    match selection(devices, app_selectors(vid, pid)) {
        Err(e) => Err(e),
        Ok(Some(device)) => Ok(ResetPlan::ResetInterface { device }),
        Ok(None) => match selection(devices, bootsel_selectors(vid)) {
            Err(e) => Err(e),
            Ok(Some(device)) => Ok(ResetPlan::Picoboot { device }),
            Ok(None) => if vid is Some {
                Err(no_device(vid, pid))
            } else {
                match selection(devices, fallback_selectors(None)) {
                    Err(e) => Err(e),
                    Ok(Some(device)) => Ok(ResetPlan::ResetInterface { device }),
                    Ok(None) => Err(no_device(vid, pid)),
                }
            },
        },
    }
}

/// How a device is brought into its application, or why it cannot be.
pub open spec fn normal_plan(devices: Seq<UsbDevice>, vid: Option<u16>, pid: Option<u16>) -> Result<
    NormalPlan,
    UsbErrorView,
> {
    match selection(devices, app_selectors(vid, pid)) {
        Err(e) => Err(e),
        Ok(Some(_)) => Ok(NormalPlan::AlreadyNormal),
        Ok(None) => match selection(devices, bootsel_selectors(vid)) {
            Err(e) => Err(e),
            Ok(Some(device)) => Ok(NormalPlan::Picoboot { device }),
            Ok(None) => if vid is Some {
                Err(no_device(vid, pid))
            } else {
                match selection(devices, fallback_selectors(Some(PRODUCT_ID_RP_USBBOOT))) {
                    Err(e) => Err(e),
                    Ok(Some(device)) => Ok(NormalPlan::Picoboot { device }),
                    Ok(None) => match selection(devices, fallback_selectors(None)) {
                        Err(e) => Err(e),
                        Ok(Some(_)) => Ok(NormalPlan::AlreadyNormal),
                        Ok(None) => Err(no_device(vid, pid)),
                    },
                }
            },
        },
    }
}

fn select_one(devices: &Vec<UsbDevice>, vid: u16, pid: u16) -> (r: Result<Option<usize>, UsbError>)
    ensures
        (match r {
            Ok(o) => selection(devices@, seq![(vid, Some(pid))]) == Ok::<
                Option<usize>,
                UsbErrorView,
            >(o),
            Err(e) => selection(devices@, seq![(vid, Some(pid))]) == Err::<
                Option<usize>,
                UsbErrorView,
            >(e@),
        }),
        r matches Ok(Some(i)) ==> i < devices@.len(),
{
    let mut selectors: Vec<(u16, Option<u16>)> = Vec::new();
    selectors.push((vid, Some(pid)));
    assert(selectors@ =~= seq![(vid, Some(pid))]);
    select_unique_device(devices, &selectors)
}

fn select_fallback(devices: &Vec<UsbDevice>, pid: Option<u16>) -> (r: Result<
    Option<usize>,
    UsbError,
>)
    ensures
        (match r {
            Ok(o) => selection(devices@, fallback_selectors(pid)) == Ok::<
                Option<usize>,
                UsbErrorView,
            >(o),
            Err(e) => selection(devices@, fallback_selectors(pid)) == Err::<
                Option<usize>,
                UsbErrorView,
            >(e@),
        }),
        r matches Ok(Some(i)) ==> i < devices@.len(),
{
    let mut selectors: Vec<(u16, Option<u16>)> = Vec::new();
    selectors.push((FALLBACK_VID, pid));
    selectors.push((SECOND_FALLBACK_VID, pid));
    assert(selectors@ =~= fallback_selectors(pid));
    select_unique_device(devices, &selectors)
}

/// Reset a device to BOOTSEL mode.
///
/// Strategy (applied in order):
/// 1. App-mode device at `vid`/`pid` → USB reset interface.
/// 2. Same `vid` + USBBOOT PID `0x000F` → PICOBOOT `PC_REBOOT2`.
/// 3. If `vid` was **not** specified by the caller, also scan for any device
///    with a fallback VID (`0xC0DE`, `0xC001`) and attempt the reset interface.
pub fn reset_to_bootsel(devices: &Vec<UsbDevice>, vid: Option<u16>, pid: Option<u16>) -> (r: Result<
    ResetPlan,
    UsbError,
>)
    ensures
        (match r {
            Ok(plan) => reset_plan(devices@, vid, pid) == Ok::<ResetPlan, UsbErrorView>(plan),
            Err(e) => reset_plan(devices@, vid, pid) == Err::<ResetPlan, UsbErrorView>(e@),
        }),
        r matches Ok(ResetPlan::ResetInterface { device }) ==> device < devices@.len(),
        r matches Ok(ResetPlan::Picoboot { device }) ==> device < devices@.len(),
{
    let primary_vid: u16 = vid.unwrap_or(DEFAULT_VID);
    let primary_pid: u16 = pid.unwrap_or(DEFAULT_PID);
    match select_one(devices, primary_vid, primary_pid) {
        Err(e) => {
            return Err(e);
        },
        Ok(Some(device)) => {
            return Ok(ResetPlan::ResetInterface { device });
        },
        Ok(None) => {},
    }
    match select_one(devices, primary_vid, PRODUCT_ID_RP_USBBOOT) {
        Err(e) => {
            return Err(e);
        },
        Ok(Some(device)) => {
            return Ok(ResetPlan::Picoboot { device });
        },
        Ok(None) => {},
    }
    if vid.is_none() {
        match select_fallback(devices, None) {
            Err(e) => {
                return Err(e);
            },
            Ok(Some(device)) => {
                return Ok(ResetPlan::ResetInterface { device });
            },
            Ok(None) => {},
        }
    }
    Err(UsbError::NoDevice { vid: primary_vid, pid: primary_pid, fallback: vid.is_none() })
}

/// Reboot a device to normal application mode.
///
/// Strategy (applied in order):
/// 1. App-mode device at `vid`/`pid` → already in normal mode, return success.
/// 2. Same `vid` + USBBOOT PID `0x000F` → PICOBOOT `PC_REBOOT2` normal reboot.
/// 3. If `vid` was **not** specified by the caller, also scan fallback VIDs
///    (`0xC0DE`, `0xC001`) for either an app-mode or BOOTSEL device.
pub fn reboot_to_normal(devices: &Vec<UsbDevice>, vid: Option<u16>, pid: Option<u16>) -> (r: Result<
    NormalPlan,
    UsbError,
>)
    ensures
        (match r {
            Ok(plan) => normal_plan(devices@, vid, pid) == Ok::<NormalPlan, UsbErrorView>(plan),
            Err(e) => normal_plan(devices@, vid, pid) == Err::<NormalPlan, UsbErrorView>(e@),
        }),
        r matches Ok(NormalPlan::Picoboot { device }) ==> device < devices@.len(),
{
    let primary_vid: u16 = vid.unwrap_or(DEFAULT_VID);
    let primary_pid: u16 = pid.unwrap_or(DEFAULT_PID);
    match select_one(devices, primary_vid, primary_pid) {
        Err(e) => {
            return Err(e);
        },
        Ok(Some(_)) => {
            return Ok(NormalPlan::AlreadyNormal);
        },
        Ok(None) => {},
    }
    match select_one(devices, primary_vid, PRODUCT_ID_RP_USBBOOT) {
        Err(e) => {
            return Err(e);
        },
        Ok(Some(device)) => {
            return Ok(NormalPlan::Picoboot { device });
        },
        Ok(None) => {},
    }
    if vid.is_none() {
        match select_fallback(devices, Some(PRODUCT_ID_RP_USBBOOT)) {
            Err(e) => {
                return Err(e);
            },
            Ok(Some(device)) => {
                return Ok(NormalPlan::Picoboot { device });
            },
            Ok(None) => {},
        }
        match select_fallback(devices, None) {
            Err(e) => {
                return Err(e);
            },
            Ok(Some(_)) => {
                return Ok(NormalPlan::AlreadyNormal);
            },
            Ok(None) => {},
        }
    }
    Err(UsbError::NoDevice { vid: primary_vid, pid: primary_pid, fallback: vid.is_none() })
}

/// A control request without data to an interface.
#[derive(Debug, Clone, Copy, PartialEq, Eq, Structural)]
pub struct InterfaceRequest {
    pub interface_number: u8,
    pub request: u8,
    pub value: u16,
    pub index: u16,
}

/// Whether an alternate setting is the reset interface.
pub open spec fn is_reset_interface(alt: UsbAltSetting) -> bool {
    alt.class == VENDOR_CLASS && alt.subclass == RESET_INTERFACE_SUBCLASS && alt.protocol
        == RESET_INTERFACE_PROTOCOL
}

/// The class request that resets an application into BOOTSEL mode with all of its
/// interfaces.
pub fn reboot_via_reset_interface(alts: &Vec<UsbAltSetting>) -> (r: Result<
    InterfaceRequest,
    UsbError,
>)
    ensures
        (match first_from(|i: int| is_reset_interface(alts@[i]), 0, alts@.len() as int) {
            None => r matches Err(e) && e@ is ResetInterfaceNotFound,
            Some(i) => r == Ok::<InterfaceRequest, UsbError>(
                InterfaceRequest {
                    interface_number: alts@[i as int].interface_number,
                    request: RESET_REQUEST_BOOTSEL,
                    value: 0,
                    index: alts@[i as int].interface_number as u16,
                },
            ),
        }),
{
    let ghost wanted = |i: int| is_reset_interface(alts@[i]);
    let mut i: usize = 0;
    while i < alts.len()
        invariant
            i <= alts@.len(),
            wanted == (|i: int| is_reset_interface(alts@[i])),
            first_from(wanted, 0, alts@.len() as int) == first_from(
                wanted,
                i as int,
                alts@.len() as int,
            ),
        decreases alts@.len() - i,
    {
        let alt = &alts[i];
        assert(wanted(i as int) == is_reset_interface(alts@[i as int]));
        if alt.class == VENDOR_CLASS && alt.subclass == RESET_INTERFACE_SUBCLASS && alt.protocol
            == RESET_INTERFACE_PROTOCOL {
            return Ok(
                InterfaceRequest {
                    interface_number: alt.interface_number,
                    request: RESET_REQUEST_BOOTSEL,
                    value: 0,
                    index: alt.interface_number as u16,
                },
            );
        }
        i += 1;
    }
    Err(UsbError::ResetInterfaceNotFound)
}

// ---------------------------------------------------------------------------
// The defmt interface
// ---------------------------------------------------------------------------

/// The active configuration of an opened device: its alternate settings and, for
/// each, the text of its string descriptor where it could be read.
#[derive(Debug)]
pub struct DeviceDescription {
    pub alts: Vec<UsbAltSetting>,
    pub labels: Vec<Option<String>>,
}

impl DeviceDescription {
    /// There is an entry for the label of every alternate setting.
    pub open spec fn wf(self) -> bool {
        self.alts@.len() == self.labels@.len()
    }
}

/// Whether the label of an alternate setting matters: it is a CDC-ACM control
/// interface with a string descriptor.
pub open spec fn spec_wants_label(alt: UsbAltSetting) -> bool {
    alt.class == CDC_CLASS && alt.subclass == CDC_SUBCLASS_ACM && alt.string_index is Some
}

/// Whether a label names the defmt interface.
pub open spec fn spec_is_defmt_label(label: Seq<char>) -> bool {
    contains_text(lower_text(label), "defmt"@)
}

/// Whether alternate setting `i` is the control interface of a defmt stream.
pub open spec fn is_defmt(d: DeviceDescription, i: int) -> bool {
    spec_wants_label(d.alts@[i]) && (d.labels@[i] matches Some(label) && spec_is_defmt_label(
        label@,
    ))
}

/// The first control interface of a defmt stream.
pub open spec fn first_defmt(d: DeviceDescription) -> Option<usize> {
    first_from(|i: int| is_defmt(d, i), 0, d.alts@.len() as int)
}

/// Whether the label of an alternate setting matters.
pub fn wants_label(alt: &UsbAltSetting) -> (r: bool)
    ensures
        r == spec_wants_label(*alt),
{
    alt.class == CDC_CLASS && alt.subclass == CDC_SUBCLASS_ACM && alt.string_index.is_some()
}

/// Whether a label names the defmt interface.
pub fn is_defmt_label(label: &str) -> (r: bool)
    ensures
        r == spec_is_defmt_label(label@),
{
    let lower = lower_chars(label);
    chars_contain(&lower, "defmt")
}

/// Control and data interface of the defmt stream of a device.
pub open spec fn defmt_interfaces(d: DeviceDescription) -> Option<(u8, u8)> {
    match first_defmt(d) {
        Some(i) => Some(
            (d.alts@[i as int].interface_number, (d.alts@[i as int].interface_number + 1) as u8),
        ),
        None => None,
    }
}

/// Whether the interface after the defmt control interface has a number.
pub open spec fn data_interface_fits(d: DeviceDescription) -> bool {
    first_defmt(d) matches Some(i) ==> d.alts@[i as int].interface_number < u8::MAX
}

/// Inspect a specific USB device and find the CDC-ACM control interface whose
/// `iInterface` string descriptor contains "defmt" (case-insensitive).
pub fn find_defmt_interface_on_device(device: &DeviceDescription) -> (r: Option<(u8, u8)>)
    requires
        device.wf(),
        data_interface_fits(*device),
    ensures
        r == defmt_interfaces(*device),
{
    let ghost wanted = |i: int| is_defmt(*device, i);
    let mut i: usize = 0;
    while i < device.alts.len()
        invariant
            device.wf(),
            data_interface_fits(*device),
            i <= device.alts@.len(),
            wanted == (|i: int| is_defmt(*device, i)),
            first_defmt(*device) == first_from(wanted, i as int, device.alts@.len() as int),
        decreases device.alts@.len() - i,
    {
        let alt = &device.alts[i];
        assert(wanted(i as int) == is_defmt(*device, i as int));
        if wants_label(alt) {
            match &device.labels[i] {
                Some(label) => {
                    if is_defmt_label(label.as_str()) {
                        let ctrl_num: u8 = alt.interface_number;
                        return Some((ctrl_num, ctrl_num + 1));
                    }
                },
                None => {},
            }
        }
        i += 1;
    }
    None
}

/// Inspect the active USB configuration of the device at `vid`/`pid` and find
/// the CDC-ACM control interface whose `iInterface` string descriptor contains
/// "defmt" (case-insensitive).
///
/// Returns `(control_interface_num, data_interface_num)` on success.  The data
/// interface is assumed to be `control_interface_num + 1`, which matches the
/// standard CDC-ACM pairing used by Embassy and the pico-sdk.
///
/// `descriptions` holds, for each device, what opening it gave; only that of the first
/// device with these IDs is looked at.  Returns `None`
/// when the device is not found, could not be opened, sets no `iInterface` strings,
/// or has no interface labelled "defmt".
pub fn find_defmt_interface(
    devices: &Vec<UsbDevice>,
    descriptions: &Vec<Option<DeviceDescription>>,
    vid: u16,
    pid: u16,
) -> (r: Option<(u8, u8)>)
    requires
        devices@.len() == descriptions@.len(),
        first_from(
            |i: int| selects(devices@, (vid, Some(pid)), i),
            0,
            devices@.len() as int,
        ) matches Some(i) ==> (descriptions@[i as int] matches Some(d) ==> d.wf()
            && data_interface_fits(d)),
    ensures
        r == (match first_from(
            |i: int| selects(devices@, (vid, Some(pid)), i),
            0,
            devices@.len() as int,
        ) {
            Some(i) => match descriptions@[i as int] {
                Some(d) => defmt_interfaces(d),
                None => None,
            },
            None => None,
        }),
{
    let count: usize = devices.len();
    match find_device(devices, vid, pid) {
        Some(i) => {
            proof {
                assert(count == devices@.len());
                crate::pick::law_first_from(
                    |i: int| selects(devices@, (vid, Some(pid)), i),
                    0,
                    devices@.len() as int,
                );
            }
            match &descriptions[i] {
                Some(d) => find_defmt_interface_on_device(d),
                None => None,
            }
        },
        None => None,
    }
}

// ---------------------------------------------------------------------------
// Permission hint
// ---------------------------------------------------------------------------

/// The setup hint around the text of the udev rules.
pub open spec fn hint_text(rules: Seq<char>) -> Seq<char> {
    "Hint: install the udev rules to grant non-root USB access, then reload:\n\nsudo tee /etc/udev/rules.d/99-probe-rp-usb.rules << 'EOF'\n"@
        + rules
        + "EOF\nsudo udevadm control --reload-rules && sudo udevadm trigger\n\nAlso ensure your user is in the required groups (log out and in to apply):\nsudo usermod -aG plugdev $USER    # USB device access\nsudo usermod -aG dialout $USER    # serial port access"@
}

/// Human-readable setup hint shown when a USB permission error is detected on Linux.
pub fn udev_hint(rules: &str) -> (r: String)
    ensures
        r@ == hint_text(rules@),
{
    let mut r =
        "Hint: install the udev rules to grant non-root USB access, then reload:\n\nsudo tee /etc/udev/rules.d/99-probe-rp-usb.rules << 'EOF'\n".to_owned();
    r.append(rules);
    r.append(
        "EOF\nsudo udevadm control --reload-rules && sudo udevadm trigger\n\nAlso ensure your user is in the required groups (log out and in to apply):\nsudo usermod -aG plugdev $USER    # USB device access\nsudo usermod -aG dialout $USER    # serial port access",
    );
    r
}

/// Whether an error text looks like a USB or serial permission denial.
pub open spec fn permission_text(msg: Seq<char>) -> bool {
    contains_text(msg, "Permission denied"@) || contains_text(msg, "Access denied"@)
}

/// Whether any error in the chain of causes looks like a USB or serial permission
/// denial.
pub fn is_permission_error(causes: &Vec<String>) -> (r: bool)
    ensures
        r == exists|i: int| 0 <= i < causes@.len() && permission_text((#[trigger] causes@[i])@),
{
    let mut i: usize = 0;
    while i < causes.len()
        invariant
            i <= causes@.len(),
            forall|k: int| 0 <= k < i ==> !permission_text((#[trigger] causes@[k])@),
        decreases causes@.len() - i,
    {
        let msg = crate::text::to_chars(causes[i].as_str());
        if chars_contain(&msg, "Permission denied") || chars_contain(&msg, "Access denied") {
            assert(permission_text(causes@[i as int]@));
            return true;
        }
        i += 1;
    }
    false
}

// ---------------------------------------------------------------------------
// Laws
// ---------------------------------------------------------------------------

/// With a vendor named by the caller, devices of other vendors play no part in
/// bringing a device into BOOTSEL mode: a plan names a device of that vendor.
pub proof fn law_reset_keeps_to_vendor(
    devices: Seq<UsbDevice>,
    vid: u16,
    pid: Option<u16>,
)
    requires
        devices.len() <= usize::MAX,
    ensures
        (match reset_plan(devices, Some(vid), pid) {
            Ok(ResetPlan::ResetInterface { device }) => devices[device as int].vendor_id == vid,
            Ok(ResetPlan::Picoboot { device }) => devices[device as int].vendor_id == vid
                && devices[device as int].product_id == PRODUCT_ID_RP_USBBOOT,
            Err(_) => true,
        }),
{
    let app = app_selectors(Some(vid), pid);
    let boot = bootsel_selectors(Some(vid));
    lemma_single_selector(devices, app);
    lemma_single_selector(devices, boot);
}

proof fn lemma_single_selector(devices: Seq<UsbDevice>, selectors: Seq<Selector>)
    requires
        devices.len() <= usize::MAX,
        selectors.len() == 1,
    ensures
        selection(devices, selectors) matches Ok(Some(i)) ==> i < devices.len() && selects(
            devices,
            selectors[0],
            i as int,
        ),
{
    lemma_matching_any(devices, selectors, 1);
    let m = matching_any(devices, selectors, 1);
    if m.len() == 1 {
        assert(m.contains(m[0]));
    }
}

/// Which devices the first `k` selectors match.
proof fn lemma_matching_any(devices: Seq<UsbDevice>, selectors: Seq<Selector>, k: nat)
    requires
        devices.len() <= usize::MAX,
        k <= selectors.len(),
    ensures
        matching_any(devices, selectors, k).no_duplicates(),
        forall|i: usize| #[trigger]
            matching_any(devices, selectors, k).contains(i) <==> i < devices.len() && exists|j: int|
                0 <= j < k && #[trigger] selects(devices, selectors[j], i as int),
    decreases k,
{
    if k > 0 {
        let rest = matching_any(devices, selectors, (k - 1) as nat);
        let sel = selectors[k - 1];
        let wanted = |i: int| selects(devices, sel, i);
        let more = matching(devices, sel);
        lemma_matching_any(devices, selectors, (k - 1) as nat);
        lemma_with_new(rest, more);
        law_picked(wanted, devices.len());
        assert forall|i: usize| #[trigger]
            matching_any(devices, selectors, k).contains(i) <==> i < devices.len() && exists|j: int|
                0 <= j < k && #[trigger] selects(devices, selectors[j], i as int) by {
            if more.contains(i) {
                let n = choose|n: int| 0 <= n < more.len() && more[n] == i;
                assert(wanted(more[n] as int));
                assert(selects(devices, selectors[k - 1], i as int));
            }
            if i < devices.len() && selects(devices, sel, i as int) {
                assert(wanted(i as int));
            }
        }
    }
}

/// Whether one of the selectors matches device `i`.
pub open spec fn selected(devices: Seq<UsbDevice>, selectors: Seq<Selector>, i: int) -> bool {
    0 <= i < devices.len() && exists|j: int|
        0 <= j < selectors.len() && #[trigger] selects(devices, selectors[j], i)
}

/// A selection counts devices, not matches: it names the only device that some selector
/// matches, however many selectors match it, names none where none is matched, and fails
/// exactly where two different devices are matched.
pub proof fn law_selection_counts_devices(devices: Seq<UsbDevice>, selectors: Seq<Selector>)
    requires
        devices.len() <= usize::MAX,
    ensures
        (match selection(devices, selectors) {
            Ok(None) => forall|i: int| !#[trigger] selected(devices, selectors, i),
            Ok(Some(d)) => forall|i: int| #[trigger]
                selected(devices, selectors, i) <==> i == d,
            Err(_) => exists|i: int, j: int|
                i != j && #[trigger] selected(devices, selectors, i) && #[trigger] selected(
                    devices,
                    selectors,
                    j,
                ),
        }),
{
    let m = matching_any(devices, selectors, selectors.len());
    lemma_matching_any(devices, selectors, selectors.len());
    assert forall|i: int| 0 <= i < devices.len() implies #[trigger] selected(devices, selectors, i)
        == m.contains(i as usize) by {}
    if m.len() == 0 {
        assert forall|i: int| !#[trigger] selected(devices, selectors, i) by {
            if 0 <= i < devices.len() {
                assert(!m.contains(i as usize));
            }
        }
    } else if m.len() == 1 {
        assert(m.contains(m[0]));
        assert forall|i: int| #[trigger] selected(devices, selectors, i) <==> i == m[0] by {
            if selected(devices, selectors, i) {
                assert(m.contains(i as usize));
            }
        }
    } else {
        assert(m.contains(m[0]) && m.contains(m[1]));
        assert(selected(devices, selectors, m[0] as int));
        assert(selected(devices, selectors, m[1] as int));
    }
}

/// A device in application mode never needs the boot ROM: where one device matches
/// the given vendor and product, it is reset through its reset interface, and it
/// counts as being in normal mode.
pub proof fn law_application_first(
    devices: Seq<UsbDevice>,
    vid: Option<u16>,
    pid: Option<u16>,
    device: usize,
)
    requires
        selection(devices, app_selectors(vid, pid)) == Ok::<Option<usize>, UsbErrorView>(
            Some(device),
        ),
    ensures
        reset_plan(devices, vid, pid) == Ok::<ResetPlan, UsbErrorView>(
            ResetPlan::ResetInterface { device },
        ),
        normal_plan(devices, vid, pid) == Ok::<NormalPlan, UsbErrorView>(NormalPlan::AlreadyNormal),
{
}

/// Whether the device has the given vendor and product.
pub open spec fn has_ids(d: UsbDevice, vid: u16, pid: u16) -> bool {
    d.vendor_id == vid && d.product_id == pid
}

/// Whether the device is one of a fallback vendor.
pub open spec fn has_fallback_vendor(d: UsbDevice) -> bool {
    d.vendor_id == 0xC0DE || d.vendor_id == 0xC001
}

/// Whether device `i` is the only one of a kind.
pub open spec fn only_one(
    devices: Seq<UsbDevice>,
    wanted: spec_fn(UsbDevice) -> bool,
    i: usize,
) -> bool {
    i < devices.len() && forall|k: int|
        0 <= k < devices.len() ==> (wanted(#[trigger] devices[k]) <==> k == i)
}

/// Whether there is no device of a kind.
pub open spec fn no_one(devices: Seq<UsbDevice>, wanted: spec_fn(UsbDevice) -> bool) -> bool {
    forall|k: int| 0 <= k < devices.len() ==> !wanted(#[trigger] devices[k])
}

/// Whether there are two devices of a kind.
pub open spec fn several(devices: Seq<UsbDevice>, wanted: spec_fn(UsbDevice) -> bool) -> bool {
    exists|i: int, k: int|
        0 <= i < k < devices.len() && wanted(#[trigger] devices[i]) && wanted(#[trigger] devices[k])
}

/// What a choice among the devices of a kind comes to: the only one, none, or an error
/// where there are several.
pub open spec fn chosen(
    devices: Seq<UsbDevice>,
    wanted: spec_fn(UsbDevice) -> bool,
    r: Result<Option<usize>, UsbErrorView>,
) -> bool {
    match r {
        Ok(None) => no_one(devices, wanted),
        Ok(Some(i)) => only_one(devices, wanted, i),
        Err(e) => several(devices, wanted) && e is MultipleDevices,
    }
}

/// A selector means a vendor and, where it names one, a product.
pub proof fn law_selector_meaning(devices: Seq<UsbDevice>, vid: u16, pid: Option<u16>, i: int)
    ensures
        selects(devices, (vid, pid), i) <==> devices[i].vendor_id == vid && (pid is None
            || devices[i].product_id == pid->0),
{
}

/// A selection by several selectors chooses among the devices that one of them means.
pub proof fn law_selection_chooses(
    devices: Seq<UsbDevice>,
    selectors: Seq<Selector>,
    wanted: spec_fn(UsbDevice) -> bool,
)
    requires
        devices.len() <= usize::MAX,
        forall|d: UsbDevice| #[trigger]
            wanted(d) <==> exists|j: int|
                0 <= j < selectors.len() && (#[trigger] selectors[j]).0 == d.vendor_id && (
                selectors[j].1 is None || selectors[j].1->0 == d.product_id),
    ensures
        chosen(devices, wanted, selection(devices, selectors)),
{
    law_selection_counts_devices(devices, selectors);
    assert forall|i: int| 0 <= i < devices.len() implies #[trigger] selected(
        devices,
        selectors,
        i,
    ) == wanted(devices[i]) by {
        if selected(devices, selectors, i) {
            let j = choose|j: int|
                0 <= j < selectors.len() && #[trigger] selects(devices, selectors[j], i);
            assert(selectors[j].0 == devices[i].vendor_id);
        }
        if wanted(devices[i]) {
            let j = choose|j: int|
                0 <= j < selectors.len() && (#[trigger] selectors[j]).0 == devices[i].vendor_id && (
                selectors[j].1 is None || selectors[j].1->0 == devices[i].product_id);
            assert(selects(devices, selectors[j], i));
        }
    }
    match selection(devices, selectors) {
        Ok(None) => {
            assert forall|k: int| 0 <= k < devices.len() implies !wanted(#[trigger] devices[k]) by {
                assert(!selected(devices, selectors, k));
            }
        },
        Ok(Some(i)) => {
            assert(selected(devices, selectors, i as int));
            assert forall|k: int| 0 <= k < devices.len() implies (wanted(#[trigger] devices[k])
                <==> k == i) by {
                assert(selected(devices, selectors, k) <==> k == i);
            }
        },
        Err(_) => {
            let (i, k) = choose|i: int, k: int|
                i != k && #[trigger] selected(devices, selectors, i) && #[trigger] selected(
                    devices,
                    selectors,
                    k,
                );
            assert(wanted(devices[i]) && wanted(devices[k]));
            if i < k {
                assert(wanted(devices[i]) && wanted(devices[k]));
            } else {
                assert(wanted(devices[k]) && wanted(devices[i]));
            }
        },
    }
}

proof fn lemma_one_kind(devices: Seq<UsbDevice>, vid: u16, pid: u16)
    requires
        devices.len() <= usize::MAX,
    ensures
        chosen(
            devices,
            |d: UsbDevice| has_ids(d, vid, pid),
            selection(devices, seq![(vid, Some(pid))]),
        ),
{
    let selectors: Seq<Selector> = seq![(vid, Some(pid))];
    let wanted = |d: UsbDevice| has_ids(d, vid, pid);
    assert forall|d: UsbDevice| #[trigger]
        wanted(d) <==> exists|j: int|
            0 <= j < selectors.len() && (#[trigger] selectors[j]).0 == d.vendor_id && (
            selectors[j].1 is None || selectors[j].1->0 == d.product_id) by {
        assert(selectors[0].0 == vid);
    }
    law_selection_chooses(devices, selectors, wanted);
}

proof fn lemma_fallback_kind(devices: Seq<UsbDevice>, pid: Option<u16>)
    requires
        devices.len() <= usize::MAX,
    ensures
        chosen(
            devices,
            |d: UsbDevice| has_fallback_vendor(d) && (pid is None || d.product_id == pid->0),
            selection(devices, fallback_selectors(pid)),
        ),
{
    let selectors = fallback_selectors(pid);
    let wanted = |d: UsbDevice|
        has_fallback_vendor(d) && (pid is None || d.product_id == pid->0);
    assert forall|d: UsbDevice| #[trigger]
        wanted(d) <==> exists|j: int|
            0 <= j < selectors.len() && (#[trigger] selectors[j]).0 == d.vendor_id && (
            selectors[j].1 is None || selectors[j].1->0 == d.product_id) by {
        assert(selectors[0].0 == 0xC0DE && selectors[1].0 == 0xC001);
    }
    law_selection_chooses(devices, selectors, wanted);
}

/// Resetting asks the application at the given vendor and product, `2e8a:0009` where they
/// are not given; without one, the boot ROM of that vendor; without that too, and where no
/// vendor is given, an application of a fallback vendor.  Where there are several of a kind
/// that comes to be asked, or none of any, that is an error.
pub proof fn law_reset_order(devices: Seq<UsbDevice>, vid: Option<u16>, pid: Option<u16>)
    requires
        devices.len() <= usize::MAX,
    ensures
        ({
            let v = match vid {
                Some(v) => v,
                None => 0x2E8A,
            };
            let p = match pid {
                Some(p) => p,
                None => 0x0009,
            };
            let app = |d: UsbDevice| has_ids(d, v, p);
            let boot = |d: UsbDevice| has_ids(d, v, 0x000F);
            let other = |d: UsbDevice| has_fallback_vendor(d);
            match reset_plan(devices, vid, pid) {
                Ok(ResetPlan::ResetInterface { device }) => only_one(devices, app, device) || (
                no_one(devices, app) && no_one(devices, boot) && vid is None && only_one(
                    devices,
                    other,
                    device,
                )),
                Ok(ResetPlan::Picoboot { device }) => no_one(devices, app) && only_one(
                    devices,
                    boot,
                    device,
                ),
                Err(UsbErrorView::NoDevice { vid: ev, pid: ep, fallback }) => {
                    &&& no_one(devices, app)
                    &&& no_one(devices, boot)
                    &&& vid is None ==> no_one(devices, other)
                    &&& ev == v
                    &&& ep == p
                    &&& fallback == (vid is None)
                },
                Err(e) => e is MultipleDevices && (several(devices, app) || (no_one(devices, app)
                    && several(devices, boot)) || (no_one(devices, app) && no_one(devices, boot)
                    && vid is None && several(devices, other))),
            }
        }),
{
    let v = match vid {
        Some(v) => v,
        None => 0x2E8A,
    };
    let p = match pid {
        Some(p) => p,
        None => 0x0009,
    };
    lemma_one_kind(devices, v, p);
    lemma_one_kind(devices, v, 0x000F);
    lemma_fallback_kind(devices, None);
    let other = |d: UsbDevice| has_fallback_vendor(d);
    let same = |d: UsbDevice|
        has_fallback_vendor(d) && (None::<u16> is None || d.product_id == None::<u16>->0);
    assert(same =~= other);
}

/// Where exactly one device has the vendor and product that are asked for, it is the one
/// that is reset, through its reset interface, and it counts as running its application.
pub proof fn law_application_is_found(
    devices: Seq<UsbDevice>,
    vid: Option<u16>,
    pid: Option<u16>,
    device: usize,
)
    requires
        devices.len() <= usize::MAX,
        device < devices.len(),
        forall|k: int|
            0 <= k < devices.len() ==> (((#[trigger] devices[k]).vendor_id == (match vid {
                Some(v) => v,
                None => 0x2E8A,
            }) && devices[k].product_id == (match pid {
                Some(p) => p,
                None => 0x0009,
            })) <==> k == device),
    ensures
        reset_plan(devices, vid, pid) == Ok::<ResetPlan, UsbErrorView>(
            ResetPlan::ResetInterface { device },
        ),
        normal_plan(devices, vid, pid) == Ok::<NormalPlan, UsbErrorView>(NormalPlan::AlreadyNormal),
{
    let v = match vid {
        Some(v) => v,
        None => 0x2E8A,
    };
    let p = match pid {
        Some(p) => p,
        None => 0x0009,
    };
    let app = |d: UsbDevice| has_ids(d, v, p);
    lemma_one_kind(devices, v, p);
    assert(has_ids(devices[device as int], v, p));
    match selection(devices, seq![(v, Some(p))]) {
        Ok(None) => {
            assert(!app(devices[device as int]));
        },
        Ok(Some(i)) => {
            assert(app(devices[i as int]));
        },
        Err(_) => {
            let (i, k) = choose|i: int, k: int|
                0 <= i < k < devices.len() && app(#[trigger] devices[i]) && app(
                    #[trigger] devices[k],
                );
            assert(has_ids(devices[i], v, p) && has_ids(devices[k], v, p));
        },
    }
}

/// The devices that run the application that is asked for, `2e8a:0009` by default.
pub open spec fn applications(vid: Option<u16>, pid: Option<u16>) -> spec_fn(UsbDevice) -> bool {
    let v = match vid {
        Some(v) => v,
        None => 0x2E8A,
    };
    let p = match pid {
        Some(p) => p,
        None => 0x0009,
    };
    |d: UsbDevice| has_ids(d, v, p)
}

/// The devices in BOOTSEL mode of the vendor that is asked for, `2e8a` by default.
pub open spec fn boot_roms(vid: Option<u16>) -> spec_fn(UsbDevice) -> bool {
    let v = match vid {
        Some(v) => v,
        None => 0x2E8A,
    };
    |d: UsbDevice| has_ids(d, v, 0x000F)
}

/// The devices of fallback vendors.
pub open spec fn fallbacks() -> spec_fn(UsbDevice) -> bool {
    |d: UsbDevice| has_fallback_vendor(d)
}

/// The devices of fallback vendors in BOOTSEL mode.
pub open spec fn fallback_roms() -> spec_fn(UsbDevice) -> bool {
    |d: UsbDevice| has_fallback_vendor(d) && d.product_id == 0x000F
}

proof fn lemma_kinds(devices: Seq<UsbDevice>, vid: Option<u16>, pid: Option<u16>)
    requires
        devices.len() <= usize::MAX,
    ensures
        chosen(devices, applications(vid, pid), selection(devices, app_selectors(vid, pid))),
        chosen(devices, boot_roms(vid), selection(devices, bootsel_selectors(vid))),
        chosen(devices, fallbacks(), selection(devices, fallback_selectors(None))),
        chosen(devices, fallback_roms(), selection(devices, fallback_selectors(Some(0x000F)))),
{
    let v = match vid {
        Some(v) => v,
        None => 0x2E8A,
    };
    let p = match pid {
        Some(p) => p,
        None => 0x0009,
    };
    lemma_one_kind(devices, v, p);
    lemma_one_kind(devices, v, 0x000F);
    let any: Option<u16> = None;
    let rom: Option<u16> = Some(0x000F);
    lemma_fallback_kind(devices, any);
    lemma_fallback_kind(devices, rom);
    let same = |d: UsbDevice| has_fallback_vendor(d) && (any is None || d.product_id == any->0);
    assert(same =~= fallbacks());
    let same_rom = |d: UsbDevice| has_fallback_vendor(d) && (rom is None || d.product_id == rom->0);
    assert(same_rom =~= fallback_roms());
}

/// Going back to the application leaves alone a device that runs it, at the given vendor
/// and product or their defaults; without one it reboots the boot ROM of that vendor; without
/// that too, and where no vendor is given, a boot ROM of a fallback vendor, or leaves alone
/// what else there is of one.
pub proof fn law_normal_order(devices: Seq<UsbDevice>, vid: Option<u16>, pid: Option<u16>)
    requires
        devices.len() <= usize::MAX,
    ensures
        normal_plan(devices, vid, pid) == Ok::<NormalPlan, UsbErrorView>(NormalPlan::AlreadyNormal)
            ==> (exists|i: usize| only_one(devices, applications(vid, pid), i)) || (no_one(
            devices,
            applications(vid, pid),
        ) && no_one(devices, boot_roms(vid)) && vid is None && no_one(devices, fallback_roms()) && (
        exists|i: usize| only_one(devices, fallbacks(), i))),
        forall|device: usize| #[trigger]
            picoboot_plan(device) == normal_plan(devices, vid, pid) ==> (no_one(
                devices,
                applications(vid, pid),
            ) && only_one(devices, boot_roms(vid), device)) || (no_one(
                devices,
                applications(vid, pid),
            ) && no_one(devices, boot_roms(vid)) && vid is None && only_one(
                devices,
                fallback_roms(),
                device,
            )),
        normal_plan(devices, vid, pid) matches Err(e) ==> (match e {
            UsbErrorView::NoDevice { vid: ev, pid: ep, fallback } => {
                &&& no_one(devices, applications(vid, pid))
                &&& no_one(devices, boot_roms(vid))
                &&& vid is None ==> no_one(devices, fallbacks())
                &&& ev == (match vid {
                    Some(v) => v,
                    None => 0x2E8A,
                })
                &&& ep == (match pid {
                    Some(p) => p,
                    None => 0x0009,
                })
                &&& fallback == (vid is None)
            },
            UsbErrorView::MultipleDevices { .. } => several(devices, applications(vid, pid)) || (
            no_one(devices, applications(vid, pid)) && several(devices, boot_roms(vid))) || (no_one(
                devices,
                applications(vid, pid),
            ) && no_one(devices, boot_roms(vid)) && vid is None && (several(
                devices,
                fallback_roms(),
            ) || (no_one(devices, fallback_roms()) && several(devices, fallbacks())))),
            _ => false,
        }),
{
    lemma_kinds(devices, vid, pid);
    match selection(devices, app_selectors(vid, pid)) {
        Ok(Some(i)) => {
            assert(only_one(devices, applications(vid, pid), i));
        },
        _ => {},
    }
    match selection(devices, fallback_selectors(None)) {
        Ok(Some(i)) => {
            assert(only_one(devices, fallbacks(), i));
        },
        _ => {},
    }
}

/// The plan to reboot a device that is in BOOTSEL mode.
pub open spec fn picoboot_plan(device: usize) -> Result<NormalPlan, UsbErrorView> {
    Ok(NormalPlan::Picoboot { device })
}

/// The device that is opened for PICOBOOT is the only boot ROM, product `000f`, of the
/// given vendor or, where none is given, of vendor `2e8a` or a fallback vendor.
pub proof fn law_candidates(devices: Seq<UsbDevice>, vid: Option<u16>)
    requires
        devices.len() <= usize::MAX,
    ensures
        chosen(
            devices,
            |d: UsbDevice|
                d.product_id == 0x000F && (match vid {
                    Some(v) => d.vendor_id == v,
                    None => d.vendor_id == 0x2E8A || d.vendor_id == 0xC0DE || d.vendor_id
                        == 0xC001,
                }),
            selection(devices, candidate_selectors(vid)),
        ),
        chosen(
            devices,
            |d: UsbDevice|
                d.product_id == 0x000F && d.vendor_id == (match vid {
                    Some(v) => v,
                    None => 0x2E8A,
                }),
            selection(devices, bootsel_selectors(vid)),
        ),
{
    let selectors = candidate_selectors(vid);
    let wanted = |d: UsbDevice|
        d.product_id == 0x000F && (match vid {
            Some(v) => d.vendor_id == v,
            None => d.vendor_id == 0x2E8A || d.vendor_id == 0xC0DE || d.vendor_id == 0xC001,
        });
    assert forall|d: UsbDevice| #[trigger]
        wanted(d) <==> exists|j: int|
            0 <= j < selectors.len() && (#[trigger] selectors[j]).0 == d.vendor_id && (
            selectors[j].1 is None || selectors[j].1->0 == d.product_id) by {
        match vid {
            Some(v) => {
                assert(selectors[0] == (v, Some(0x000Fu16)));
            },
            None => {
                assert(selectors[0] == (0x2E8Au16, Some(0x000Fu16)));
                assert(selectors[1] == (0xC0DEu16, Some(0x000Fu16)));
                assert(selectors[2] == (0xC001u16, Some(0x000Fu16)));
            },
        }
    }
    law_selection_chooses(devices, selectors, wanted);
    let one = bootsel_selectors(vid);
    let boot = |d: UsbDevice|
        d.product_id == 0x000F && d.vendor_id == (match vid {
            Some(v) => v,
            None => 0x2E8A,
        });
    assert forall|d: UsbDevice| #[trigger]
        boot(d) <==> exists|j: int|
            0 <= j < one.len() && (#[trigger] one[j]).0 == d.vendor_id && (one[j].1 is None
                || one[j].1->0 == d.product_id) by {
        assert(one[0].1 == Some(0x000Fu16));
    }
    law_selection_chooses(devices, one, boot);
}

/// The reset interface has class `ff`, subclass `00` and protocol `01`.
pub proof fn law_reset_interface(alt: UsbAltSetting)
    ensures
        is_reset_interface(alt) <==> alt.class == 0xFF && alt.subclass == 0x00 && alt.protocol
            == 0x01,
        RESET_REQUEST_BOOTSEL == 0x01,
{
}

/// The defmt stream is on the first CDC-ACM control interface, class and subclass `02`,
/// whose label can be read and holds "defmt" in any case; its data interface is the next.
pub proof fn law_defmt_interface(d: DeviceDescription)
    requires
        d.wf(),
        d.alts@.len() <= usize::MAX,
        data_interface_fits(d),
    ensures
        ({
            let labelled = |i: int|
                d.alts@[i].class == 0x02 && d.alts@[i].subclass == 0x02
                    && d.alts@[i].string_index is Some && (d.labels@[i] matches Some(label)
                    && exists|at: int|
                    0 <= at <= label@.len() - 5 && #[trigger] spells_defmt(label@, at));
            match defmt_interfaces(d) {
                Some((ctrl, data)) => data == ctrl + 1 && exists|i: int|
                    0 <= i < d.alts@.len() && #[trigger] labelled(i) && ctrl
                        == d.alts@[i].interface_number && (forall|k: int|
                        0 <= k < i ==> !#[trigger] labelled(k)),
                None => forall|i: int| 0 <= i < d.alts@.len() ==> !#[trigger] labelled(i),
            }
        }),
{
    let wanted = |i: int| is_defmt(d, i);
    let labelled = |i: int|
        d.alts@[i].class == 0x02 && d.alts@[i].subclass == 0x02 && d.alts@[i].string_index is Some
            && (d.labels@[i] matches Some(label) && exists|at: int|
            0 <= at <= label@.len() - 5 && #[trigger] spells_defmt(label@, at));
    crate::pick::law_first_from(wanted, 0, d.alts@.len() as int);
    assert forall|i: int| 0 <= i < d.alts@.len() implies #[trigger] labelled(i) == wanted(i) by {
        if let Some(label) = d.labels@[i] {
            lemma_spells_defmt(label@);
        }
    }
    match first_defmt(d) {
        Some(i) => {
            assert(labelled(i as int));
        },
        None => {
            assert forall|i: int| 0 <= i < d.alts@.len() implies !#[trigger] labelled(i) by {
                assert(!wanted(i));
            }
        },
    }
}

/// Whether the five characters from `at` on are "defmt", each in either case.
pub open spec fn spells_defmt(label: Seq<char>, at: int) -> bool {
    &&& label[at] == 'd' || label[at] == 'D'
    &&& label[at + 1] == 'e' || label[at + 1] == 'E'
    &&& label[at + 2] == 'f' || label[at + 2] == 'F'
    &&& label[at + 3] == 'm' || label[at + 3] == 'M'
    &&& label[at + 4] == 't' || label[at + 4] == 'T'
}

proof fn lemma_spells_defmt(label: Seq<char>)
    ensures
        spec_is_defmt_label(label) <==> exists|at: int|
            0 <= at <= label.len() - 5 && #[trigger] spells_defmt(label, at),
{
    reveal_strlit("defmt");
    let needle = "defmt"@;
    let hay = lower_text(label);
    assert forall|at: int| 0 <= at <= label.len() - 5 implies #[trigger] spells_defmt(label, at)
        == crate::text::stands_at(hay, needle, at) by {
        let part = hay.subrange(at, at + 5);
        if spells_defmt(label, at) {
            assert(part =~= needle);
        }
        if part =~= needle {
            assert(part[0] == needle[0] && part[1] == needle[1] && part[2] == needle[2] && part[3]
                == needle[3] && part[4] == needle[4]);
        }
    }
    if spec_is_defmt_label(label) {
        let at = choose|at: int| crate::text::stands_at(hay, needle, at);
        assert(spells_defmt(label, at));
    }
    if exists|at: int| 0 <= at <= label.len() - 5 && #[trigger] spells_defmt(label, at) {
        let at = choose|at: int| 0 <= at <= label.len() - 5 && #[trigger] spells_defmt(label, at);
        assert(crate::text::stands_at(hay, needle, at));
    }
}

proof fn lemma_joined_holds(parts: Seq<Seq<char>>, sep: Seq<char>, i: int)
    requires
        0 <= i < parts.len(),
    ensures
        contains_text(joined(parts, sep), parts[i]),
    decreases parts.len(),
{
    let all = joined(parts, sep);
    if parts.len() == 1 {
        law_contained_text(Seq::empty(), parts[0], Seq::empty());
        assert(Seq::<char>::empty() + parts[0] + Seq::<char>::empty() =~= all);
    } else if i == parts.len() - 1 {
        law_contained_text(joined(parts.drop_last(), sep) + sep, parts[i], Seq::empty());
        assert(joined(parts.drop_last(), sep) + sep + parts[i] + Seq::<char>::empty() =~= all);
    } else {
        let rest = joined(parts.drop_last(), sep);
        lemma_joined_holds(parts.drop_last(), sep, i);
        let at = choose|at: int| stands_at(rest, parts[i], at);
        assert(all.subrange(at, at + parts[i].len()) =~= rest.subrange(at, at + parts[i].len()));
        assert(stands_at(all, parts[i], at));
    }
}

/// Where several devices match, all of them are listed, each with its bus, its address and
/// its IDs in four hexadecimal digits each.
pub proof fn law_ambiguous_devices_are_listed(
    devices: Seq<UsbDevice>,
    selectors: Seq<Selector>,
    i: int,
)
    requires
        devices.len() <= usize::MAX,
        selected(devices, selectors, i),
        selection(devices, selectors) is Err,
    ensures
        selection(devices, selectors) matches Err(UsbErrorView::MultipleDevices { listed })
            && contains_text(
            listed,
            "bus "@ + devices[i].bus@ + " addr "@ + padded(devices[i].address as nat, 10, 1) + " "@
                + (padded(devices[i].vendor_id as nat, 16, 4) + ":"@ + padded(
                devices[i].product_id as nat,
                16,
                4,
            )),
        ),
{
    let m = matching_any(devices, selectors, selectors.len());
    lemma_matching_any(devices, selectors, selectors.len());
    assert(m.contains(i as usize));
    let k = choose|k: int| 0 <= k < m.len() && m[k] == i as usize;
    let parts = m.map_values(|i: usize| spec_device_summary(devices[i as int]));
    assert(parts[k] == spec_device_summary(devices[i]));
    lemma_joined_holds(parts, "\n- "@, k);
}

/// An error text that speaks of a denied permission or access, anywhere in it, counts as a
/// denial.
pub proof fn law_denials(before: Seq<char>, after: Seq<char>)
    ensures
        permission_text(before + "Permission denied"@ + after),
        permission_text(before + "Access denied"@ + after),
{
    law_contained_text(before, "Permission denied"@, after);
    law_contained_text(before, "Access denied"@, after);
}

/// A text that counts as a denial speaks of one of the two.
pub proof fn law_denial_is_there(msg: Seq<char>)
    requires
        permission_text(msg),
    ensures
        (exists|before: Seq<char>, after: Seq<char>|
            msg == #[trigger] (before + "Permission denied"@ + after)) || (exists|
            before: Seq<char>,
            after: Seq<char>,
        | msg == #[trigger] (before + "Access denied"@ + after)),
{
    if contains_text(msg, "Permission denied"@) {
        law_containing_text(msg, "Permission denied"@);
    } else {
        law_containing_text(msg, "Access denied"@);
    }
}

} // verus!
