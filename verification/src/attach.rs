//! Serial ports, and the stream of defmt frames that arrives on one of them.

use defmt_decoder::Table;
use vstd::prelude::*;

use crate::event::{Channel, ProbeEvent};
use crate::pick::{first_from, law_first_from};
use crate::text::{
    digit_value, digits_value, from_chars, hex, law_digits_round_trip, law_digits_too_large,
    lemma_padded_digits, padded, parse_digits, push_hex, to_chars, unicode_lowercase,
};
use crate::usb::{DEFAULT_PID, DEFAULT_VID, FALLBACK_VID, SECOND_FALLBACK_VID};

verus! {

/// How long to look for a serial port, in milliseconds.
pub const PORT_TIMEOUT_MS: u64 = 30000;

/// Pause between two looks for a serial port, in milliseconds.
pub const PORT_INTERVAL_MS: u64 = 500;

/// Pause before a port that the caller named is tried again, in milliseconds.
pub const RECONNECT_PAUSE_MS: u64 = 1000;

// ---------------------------------------------------------------------------
// Serial ports
// ---------------------------------------------------------------------------

/// What the system says of the USB device behind a serial port.
#[derive(Debug, Clone, Copy, PartialEq, Eq, Structural)]
pub struct UsbPort {
    pub vid: u16,
    pub pid: u16,
    pub interface: Option<u8>,
}

/// A serial port.
#[derive(Debug)]
pub struct SerialPort {
    pub name: String,
    pub usb: Option<UsbPort>,
}

/// Where the trailing digits of the first `n` characters start.
pub open spec fn digits_start(name: Seq<char>, n: int) -> int
    decreases n,
{
    if n <= 0 || digit_value(name[n - 1], 10) is None {
        n
    } else {
        digits_start(name, n - 1)
    }
}

/// What ports are ordered by: the name before its trailing digits, in lower case, then
/// the number that these digits write (zero where it is none or too large).
pub open spec fn sort_key(name: Seq<char>) -> (Seq<char>, int) {
    let split = digits_start(name, name.len() as int);
    (
        unicode_lowercase(name.take(split)),
        match digits_value(name.skip(split), 10, u64::MAX as int) {
            Ok(v) => v,
            Err(_) => 0,
        },
    )
}

/// Whether `a` comes before `b` or is the same, character by character from index `i`.
pub open spec fn text_up_to(a: Seq<char>, b: Seq<char>, i: int) -> bool
    decreases a.len() - i,
{
    if i >= a.len() {
        true
    } else if i >= b.len() {
        false
    } else if a[i] != b[i] {
        a[i] < b[i]
    } else {
        text_up_to(a, b, i + 1)
    }
}

/// Whether the key `a` comes before `b` or is the same.
pub open spec fn key_up_to(a: (Seq<char>, int), b: (Seq<char>, int)) -> bool {
    if a.0 == b.0 {
        a.1 <= b.1
    } else {
        text_up_to(a.0, b.0, 0)
    }
}

/// Return a sort key that orders port names naturally, treating a trailing digit
/// run as a number.  This ensures "COM10" sorts after "COM3" on Windows, and
/// "/dev/ttyACM10" after "/dev/ttyACM2" on Linux.
pub fn port_sort_key(name: &str) -> (r: (String, u64))
    ensures
        (r.0@, r.1 as int) == sort_key(name@),
{
    let chars = to_chars(name);
    let mut split: usize = chars.len();
    while split > 0 && chars[split - 1] >= '0' && chars[split - 1] <= '9'
        invariant
            split <= chars@.len(),
            chars@ == name@,
            digits_start(name@, name@.len() as int) == digits_start(name@, split as int),
        decreases split,
    {
        split -= 1;
    }
    assert(split == digits_start(name@, name@.len() as int));
    let prefix = from_chars(&chars, 0, split);
    let number: u64 = match parse_digits(&chars, split, chars.len(), 10, u64::MAX) {
        Ok(v) => v,
        Err(_) => 0,
    };
    proof {
        assert(chars@.subrange(0, split as int) =~= name@.take(split as int));
        assert(chars@.subrange(split as int, chars@.len() as int) =~= name@.skip(split as int));
    }
    (prefix.as_str().to_lowercase(), number)
}

fn texts_up_to(a: &Vec<char>, b: &Vec<char>) -> (r: bool)
    ensures
        r == text_up_to(a@, b@, 0),
{
    let mut i: usize = 0;
    while i < a.len()
        invariant
            i <= a@.len(),
            text_up_to(a@, b@, 0) == text_up_to(a@, b@, i as int),
        decreases a@.len() - i,
    {
        if i >= b.len() {
            return false;
        }
        if a[i] != b[i] {
            return a[i] < b[i];
        }
        i += 1;
    }
    true
}

fn same_text(a: &Vec<char>, b: &Vec<char>) -> (r: bool)
    ensures
        r == (a@ == b@),
{
    if a.len() != b.len() {
        return false;
    }
    let mut i: usize = 0;
    while i < a.len()
        invariant
            i <= a@.len(),
            a@.len() == b@.len(),
            forall|k: int| 0 <= k < i ==> a@[k] == b@[k],
        decreases a@.len() - i,
    {
        if a[i] != b[i] {
            return false;
        }
        i += 1;
    }
    assert(a@ =~= b@);
    true
}

/// Whether port `i` belongs to a device of the vendor and, where it is given, product.
pub open spec fn port_matches(
    ports: Seq<SerialPort>,
    vid: u16,
    pid: Option<u16>,
    i: int,
) -> bool {
    ports[i].usb matches Some(u) && u.vid == vid && (match pid {
        Some(p) => u.pid == p,
        None => true,
    })
}

/// The last of the wanted items among the first `n` when they are put in order of
/// their keys: none has a larger key, and of several with the largest it is the last.
pub open spec fn last_of(
    keys: Seq<(Seq<char>, int)>,
    wanted: Seq<bool>,
    n: nat,
) -> Option<usize>
    decreases n,
{
    if n == 0 {
        None
    } else {
        let rest = last_of(keys, wanted, (n - 1) as nat);
        if !wanted[n - 1] {
            rest
        } else {
            match rest {
                Some(k) => if key_up_to(keys[k as int], keys[n - 1]) {
                    Some((n - 1) as usize)
                } else {
                    Some(k)
                },
                None => Some((n - 1) as usize),
            }
        }
    }
}

/// The keys of all ports.
pub open spec fn port_keys(ports: Seq<SerialPort>) -> Seq<(Seq<char>, int)> {
    Seq::new(ports.len(), |i: int| sort_key(ports[i].name@))
}

/// Which ports belong to a device of the vendor and, where it is given, product.
pub open spec fn matching_ports(ports: Seq<SerialPort>, vid: u16, pid: Option<u16>) -> Seq<bool> {
    Seq::new(ports.len(), |i: int| port_matches(ports, vid, pid, i))
}

/// The last matching port in the order of the names.
pub open spec fn last_port(ports: Seq<SerialPort>, vid: u16, pid: Option<u16>) -> Option<usize> {
    last_of(port_keys(ports), matching_ports(ports, vid, pid), ports.len())
}

/// What the keys `v` say.
pub open spec fn key_views(v: Seq<(String, u64)>) -> Seq<(Seq<char>, int)> {
    v.map_values(|k: (String, u64)| (k.0@, k.1 as int))
}

fn keys_up_to(a: &(String, u64), b: &(String, u64)) -> (r: bool)
    ensures
        r == key_up_to((a.0@, a.1 as int), (b.0@, b.1 as int)),
{
    let ta = to_chars(a.0.as_str());
    let tb = to_chars(b.0.as_str());
    if same_text(&ta, &tb) {
        a.1 <= b.1
    } else {
        texts_up_to(&ta, &tb)
    }
}

/// The last of the wanted items in order of their keys.
pub fn last_by_key(keys: &Vec<(String, u64)>, wanted: &Vec<bool>) -> (r: Option<usize>)
    requires
        keys@.len() == wanted@.len(),
    ensures
        r == last_of(key_views(keys@), wanted@, keys@.len()),
        r matches Some(i) ==> i < keys@.len(),
{
    let mut best: Option<usize> = None;
    let mut i: usize = 0;
    while i < keys.len()
        invariant
            i <= keys@.len(),
            keys@.len() == wanted@.len(),
            best == last_of(key_views(keys@), wanted@, i as nat),
            best matches Some(k) ==> k < i,
        decreases keys@.len() - i,
    {
        if wanted[i] {
            best = match best {
                Some(k) => if keys_up_to(&keys[k], &keys[i]) {
                    Some(i)
                } else {
                    Some(k)
                },
                None => Some(i),
            };
        }
        i += 1;
    }
    best
}

/// Scan serial ports, filter by VID and (optionally) PID, sort by name, return last.
pub fn find_port_by_vid_pid(ports: &Vec<SerialPort>, vid: u16, pid: Option<u16>) -> (r: Option<
    usize,
>)
    ensures
        r == last_port(ports@, vid, pid),
        r matches Some(i) ==> i < ports@.len(),
{
    let mut keys: Vec<(String, u64)> = Vec::new();
    let mut wanted: Vec<bool> = Vec::new();
    let mut i: usize = 0;
    while i < ports.len()
        invariant
            i <= ports@.len(),
            keys@.len() == i,
            wanted@.len() == i,
            forall|k: int|
                0 <= k < i ==> ((#[trigger] keys@[k]).0@, keys@[k].1 as int) == sort_key(
                    ports@[k].name@,
                ),
            forall|k: int|
                0 <= k < i ==> #[trigger] wanted@[k] == port_matches(ports@, vid, pid, k),
        decreases ports@.len() - i,
    {
        let matching: bool = match &ports[i].usb {
            Some(u) => u.vid == vid && (match pid {
                Some(p) => u.pid == p,
                None => true,
            }),
            None => false,
        };
        keys.push(port_sort_key(ports[i].name.as_str()));
        wanted.push(matching);
        i += 1;
    }
    proof {
        assert(key_views(keys@) =~= port_keys(ports@));
        assert(wanted@ =~= matching_ports(ports@, vid, pid));
    }
    last_by_key(&keys, &wanted)
}

/// Whether port `i` belongs to the given interface of the given device.
pub open spec fn port_on_interface(
    ports: Seq<SerialPort>,
    vid: u16,
    pid: u16,
    ctrl: u8,
    data: u8,
    i: int,
) -> bool {
    ports[i].usb matches Some(u) && u.vid == vid && u.pid == pid && (u.interface matches Some(n)
        && (n == ctrl || n == data))
}

/// Find the serial port for a specific USB CDC interface by matching the
/// interface number reported by the OS.
///
/// `ctrl` is the CDC Control interface number; `data` is the CDC Data interface
/// number (always `ctrl + 1`).  Windows and Linux report the *control* number;
/// macOS reports the *data* number.  Accepting both makes this function
/// platform-agnostic.
pub fn find_port_by_interface(
    ports: &Vec<SerialPort>,
    vid: u16,
    pid: u16,
    ctrl: u8,
    data: u8,
) -> (r: Option<usize>)
    ensures
        r == first_from(
            |i: int| port_on_interface(ports@, vid, pid, ctrl, data, i),
            0,
            ports@.len() as int,
        ),
        r matches Some(i) ==> i < ports@.len(),
{
    let ghost wanted = |i: int| port_on_interface(ports@, vid, pid, ctrl, data, i);
    let mut i: usize = 0;
    while i < ports.len()
        invariant
            i <= ports@.len(),
            wanted == (|i: int| port_on_interface(ports@, vid, pid, ctrl, data, i)),
            first_from(wanted, 0, ports@.len() as int) == first_from(
                wanted,
                i as int,
                ports@.len() as int,
            ),
        decreases ports@.len() - i,
    {
        assert(wanted(i as int) == port_on_interface(ports@, vid, pid, ctrl, data, i as int));
        match &ports[i].usb {
            Some(u) => {
                let on_interface: bool = match u.interface {
                    Some(n) => n == ctrl || n == data,
                    None => false,
                };
                if u.vid == vid && u.pid == pid && on_interface {
                    return Some(i);
                }
            },
            None => {},
        }
        i += 1;
    }
    None
}

/// The port for defmt output.
pub open spec fn serial_port(
    ports: Seq<SerialPort>,
    defmt: Option<(u8, u8)>,
    vid: Option<u16>,
    pid: Option<u16>,
) -> Option<usize> {
    let pv = vid.unwrap_or(DEFAULT_VID);
    let pp = pid.unwrap_or(DEFAULT_PID);
    let exact = match defmt {
        Some((ctrl, data)) => first_from(
            |i: int| port_on_interface(ports, pv, pp, ctrl, data, i),
            0,
            ports.len() as int,
        ),
        None => None,
    };
    if exact is Some {
        exact
    } else if last_port(ports, pv, Some(pp)) is Some {
        last_port(ports, pv, Some(pp))
    } else if vid is Some {
        None
    } else if last_port(ports, FALLBACK_VID, None) is Some {
        last_port(ports, FALLBACK_VID, None)
    } else {
        last_port(ports, SECOND_FALLBACK_VID, None)
    }
}

/// Find the serial port for defmt output, using the most specific method available.
///
/// Discovery order:
/// 1. **Interface string descriptor** (robust): `defmt` holds the CDC-ACM interfaces
///    whose `iInterface` string contains "defmt", where they are known; the port
///    bound to that exact interface is returned.
/// 2. **VID/PID heuristic** (fallback): pick the highest-numbered serial port
///    matching the given VID/PID by natural sort.  Works without string
///    descriptors but relies on the defmt port being the last enumerated one.
/// 3. **Fallback VIDs** (fallback, only when `vid` is not set): the same among the ports
///    with VID `0xC0DE` and any PID, then among those with VID `0xC001`.
pub fn find_serial_port(
    ports: &Vec<SerialPort>,
    defmt: Option<(u8, u8)>,
    vid: Option<u16>,
    pid: Option<u16>,
) -> (r: Option<String>)
    ensures
        (match serial_port(ports@, defmt, vid, pid) {
            Some(i) => r matches Some(name) && name@ == ports@[i as int].name@,
            None => r is None,
        }),
{
    let primary_vid: u16 = vid.unwrap_or(DEFAULT_VID);
    let primary_pid: u16 = pid.unwrap_or(DEFAULT_PID);
    match defmt {
        Some((ctrl, data)) => {
            match find_port_by_interface(ports, primary_vid, primary_pid, ctrl, data) {
                Some(i) => {
                    return Some(ports[i].name.clone());
                },
                None => {},
            }
        },
        None => {},
    }
    match find_port_by_vid_pid(ports, primary_vid, Some(primary_pid)) {
        Some(i) => {
            return Some(ports[i].name.clone());
        },
        None => {},
    }
    if vid.is_none() {
        match find_port_by_vid_pid(ports, FALLBACK_VID, None) {
            Some(i) => {
                return Some(ports[i].name.clone());
            },
            None => {},
        }
        match find_port_by_vid_pid(ports, SECOND_FALLBACK_VID, None) {
            Some(i) => {
                return Some(ports[i].name.clone());
            },
            None => {},
        }
    }
    None
}

// ---------------------------------------------------------------------------
// The defmt table
// ---------------------------------------------------------------------------

/// The table of the `defmt-decoder` crate, carried through as it is.
#[verifier::external_type_specification]
#[verifier::external_body]
pub struct ExTable(defmt_decoder::Table);

/// The flags of one `defmt::bitflags!` type: its name, its package, what tells it from
/// others of that name there, and its crate where that is known.
pub type BitflagsName = (Seq<char>, Seq<char>, Seq<char>, Option<Seq<char>>);

/// What a table holds.
pub struct TableContents {
    /// The symbol under each index: a log statement with its level and format string, or
    /// another interned string.
    pub entries: Map<nat, Seq<char>>,
    /// The symbol with the format of the timestamps, where there is one.
    pub timestamp: Option<Seq<char>>,
    /// The names and values of the flags of each bitflags type, in the order of their
    /// definition.
    pub bitflags: Map<BitflagsName, Seq<(Seq<char>, nat)>>,
    /// Whether the encoding can recover from missed bytes.
    pub recovers: bool,
}

/// What the given table holds.
pub uninterp spec fn table_contents(table: Table) -> TableContents;

/// What the `defmt-decoder` crate finds in an ELF file: the text of its error, no table
/// where defmt is not used, else what the table holds.
pub uninterp spec fn defmt_metadata(elf: Seq<u8>) -> Result<Option<TableContents>, Seq<char>>;

/// Reads the defmt table of an ELF file.
///
/// Calls `defmt_decoder::Table::parse`.  What comes back depends on the bytes alone;
/// `defmt_metadata` stands for it.  An error is handed on as its text.
#[verifier::external_body]
fn parse_table(elf: &[u8]) -> (r: Result<Option<Table>, String>)
    ensures
        (match r {
            Err(e) => defmt_metadata(elf@) == Err::<Option<TableContents>, Seq<char>>(e@),
            Ok(None) => defmt_metadata(elf@) == Ok::<Option<TableContents>, Seq<char>>(None),
            Ok(Some(table)) => defmt_metadata(elf@) == Ok::<Option<TableContents>, Seq<char>>(
                Some(table_contents(table)),
            ),
        }),
{
    Table::parse(elf).map_err(|e| format!("{e:#}"))
}

/// Whether the table's encoding can recover from missed bytes.
///
/// Calls `Encoding::can_recover` on the encoding that `Table::encoding` gives, which is
/// part of what the table holds.
#[verifier::external_body]
fn can_recover(table: &Table) -> (r: bool)
    ensures
        r == table_contents(*table).recovers,
{
    table.encoding().can_recover()
}

/// A defmt table, and whether its encoding can recover from missed bytes.
pub struct FrameTable {
    pub table: Table,
    pub can_recover: bool,
}

/// Why there is no defmt table.
pub enum TableError {
    /// The table cannot be read, for this reason.
    Parse(String),
    /// There is no table.
    NoSection,
}

impl TableError {
    /// The error in words.
    pub open spec fn spec_message(self) -> Seq<char> {
        match self {
            TableError::Parse(_) => "Failed to parse defmt table from ELF"@,
            TableError::NoSection =>
                "ELF file contains no .defmt section \u{2014} was it built with defmt?"@,
        }
    }

    /// The error in words.
    pub fn message(&self) -> (r: &'static str)
        ensures
            r@ == self.spec_message(),
    {
        match self {
            TableError::Parse(_) => "Failed to parse defmt table from ELF",
            TableError::NoSection =>
                "ELF file contains no .defmt section \u{2014} was it built with defmt?",
        }
    }
}

/// The table that was read, or why there is none.
pub fn table_result(parsed: Result<Option<(Table, bool)>, String>) -> (r: Result<
    FrameTable,
    TableError,
>)
    ensures
        (match parsed {
            Err(e) => r == Err::<FrameTable, TableError>(TableError::Parse(e)),
            Ok(None) => r == Err::<FrameTable, TableError>(TableError::NoSection),
            Ok(Some((table, can_recover))) => r == Ok::<FrameTable, TableError>(
                FrameTable { table, can_recover },
            ),
        }),
{
    match parsed {
        Err(e) => Err(TableError::Parse(e)),
        Ok(None) => Err(TableError::NoSection),
        Ok(Some((table, can_recover))) => Ok(FrameTable { table, can_recover }),
    }
}

/// Load the defmt `Table` from the bytes of an ELF file.
pub fn load_table(elf: &[u8]) -> (r: Result<FrameTable, TableError>)
    ensures
        (match defmt_metadata(elf@) {
            Err(text) => r matches Err(TableError::Parse(e)) && e@ == text,
            Ok(None) => r matches Err(e) && e is NoSection,
            Ok(Some(contents)) => r matches Ok(t) && t.can_recover == contents.recovers
                && table_contents(t.table) == contents,
        }),
{
    let parsed = match parse_table(elf) {
        Ok(Some(table)) => {
            let recovers: bool = can_recover(&table);
            Ok(Some((table, recovers)))
        },
        Ok(None) => Ok(None),
        Err(e) => Err(e),
    };
    table_result(parsed)
}

// ---------------------------------------------------------------------------
// Decoding
// ---------------------------------------------------------------------------

/// How reading from the port went.
#[derive(Debug, Clone, Copy, PartialEq, Eq, Structural)]
pub enum PortRead {
    Bytes(usize),
    TimedOut,
    Failed,
}

/// What to do after reading from the port.
#[derive(Debug, Clone, Copy, PartialEq, Eq, Structural)]
pub enum PortStep {
    /// Read again.
    ReadAgain,
    /// Hand so many bytes to the decoder, take out all frames, and read again.
    Decode(usize),
    /// Give the port up.
    GiveUp,
}

/// What to do after reading from the port: nothing where nothing came in time, decode
/// what came, and give up only on an error.
pub fn run_decode_loop(read: PortRead) -> (r: PortStep)
    ensures
        r == (match read {
            PortRead::Bytes(n) => if n == 0 {
                PortStep::ReadAgain
            } else {
                PortStep::Decode(n)
            },
            PortRead::TimedOut => PortStep::ReadAgain,
            PortRead::Failed => PortStep::GiveUp,
        }),
{
    match read {
        PortRead::Bytes(n) => if n == 0 {
            PortStep::ReadAgain
        } else {
            PortStep::Decode(n)
        },
        PortRead::TimedOut => PortStep::ReadAgain,
        PortRead::Failed => PortStep::GiveUp,
    }
}

/// What the decoder gave.
#[derive(Debug, Clone, Copy, PartialEq, Eq, Structural)]
pub enum DecodeOutcome {
    Frame,
    /// More bytes are needed.
    UnexpectedEof,
    Malformed,
}

/// What to do with what the decoder gave.
#[derive(Debug, Clone, Copy, PartialEq, Eq, Structural)]
pub enum DrainStep {
    /// Show the frame and decode again.
    Show,
    /// Wait for more bytes.
    Wait,
    /// Leave the frame out and decode again.
    Skip,
    /// End the stream with an error.
    Abort,
}

/// What to do with what the decoder gave: a frame is shown, a malformed one ends the
/// stream unless the encoding can recover.
pub open spec fn drain_step(outcome: DecodeOutcome, can_recover: bool) -> DrainStep {
    match outcome {
        DecodeOutcome::Frame => DrainStep::Show,
        DecodeOutcome::UnexpectedEof => DrainStep::Wait,
        DecodeOutcome::Malformed => if can_recover {
            DrainStep::Skip
        } else {
            DrainStep::Abort
        },
    }
}

/// How draining goes on what the decoder gives in turn, from index `i` on: the indices of
/// the frames that are shown, and the step that ends it (none while more can be decoded).
pub open spec fn drained(outcomes: Seq<DecodeOutcome>, can_recover: bool, i: int) -> (
    Seq<int>,
    Option<DrainStep>,
)
    decreases outcomes.len() - i,
{
    if i >= outcomes.len() {
        (Seq::empty(), None)
    } else {
        let step = drain_step(outcomes[i], can_recover);
        match step {
            DrainStep::Show => {
                let (shown, end) = drained(outcomes, can_recover, i + 1);
                (seq![i] + shown, end)
            },
            DrainStep::Skip => drained(outcomes, can_recover, i + 1),
            DrainStep::Wait | DrainStep::Abort => (Seq::empty(), Some(step)),
        }
    }
}

/// Drain all currently decodable frames: what to do with what the decoder gave.
///
/// A malformed frame ends the stream unless the encoding can recover.
pub fn drain_frames(outcome: DecodeOutcome, can_recover: bool) -> (r: DrainStep)
    ensures
        r == drain_step(outcome, can_recover),
{
    match outcome {
        DecodeOutcome::Frame => DrainStep::Show,
        DecodeOutcome::UnexpectedEof => DrainStep::Wait,
        DecodeOutcome::Malformed => if can_recover {
            DrainStep::Skip
        } else {
            DrainStep::Abort
        },
    }
}

// ---------------------------------------------------------------------------
// Reconnecting
// ---------------------------------------------------------------------------

/// What is told of the stream.
#[derive(Debug)]
pub enum StreamOutput {
    Event(ProbeEvent),
    /// A line on standard output.
    Print(String),
    /// A line on standard error.
    PrintError(String),
    Nothing,
}

/// Tells a decoded frame.
pub fn tell_frame(channel: Channel, text: String) -> (r: StreamOutput)
    ensures
        r == (match channel {
            Channel::Callback => StreamOutput::Event(ProbeEvent::Frame(text)),
            Channel::Terminal => StreamOutput::Print(text),
            Channel::Silent => StreamOutput::Nothing,
        }),
{
    match channel {
        Channel::Callback => StreamOutput::Event(ProbeEvent::Frame(text)),
        Channel::Terminal => StreamOutput::Print(text),
        Channel::Silent => StreamOutput::Nothing,
    }
}

/// Tells that a port is used: once by `attach`, or again and again by `watch`.
pub fn tell_connected(channel: Channel, port: String, watching: bool) -> (r: StreamOutput)
    ensures
        (match channel {
            Channel::Callback => r == StreamOutput::Event(ProbeEvent::Connected { port }),
            Channel::Terminal => r matches StreamOutput::Print(text) && text@ == (if watching {
                "Connecting to "@ + port@ + "..."@
            } else {
                "Attached to "@ + port@ + " (Ctrl+C to quit)"@
            }),
            Channel::Silent => r is Nothing,
        }),
{
    match channel {
        Channel::Callback => StreamOutput::Event(ProbeEvent::Connected { port }),
        Channel::Terminal => {
            let mut text = String::new();
            if watching {
                text.append("Connecting to ");
                text.append(port.as_str());
                text.append("...");
                assert(text@ =~= "Connecting to "@ + port@ + "..."@);
            } else {
                text.append("Attached to ");
                text.append(port.as_str());
                text.append(" (Ctrl+C to quit)");
                assert(text@ =~= "Attached to "@ + port@ + " (Ctrl+C to quit)"@);
            }
            StreamOutput::Print(text)
        },
        Channel::Silent => StreamOutput::Nothing,
    }
}

/// Tells that a port is gone, and why.
pub fn tell_disconnected(channel: Channel, reason: &str) -> (r: StreamOutput)
    ensures
        (match channel {
            Channel::Callback => r == StreamOutput::Event(ProbeEvent::Disconnected),
            Channel::Terminal => r matches StreamOutput::PrintError(text) && text@
                == "Disconnected: "@ + reason@,
            Channel::Silent => r is Nothing,
        }),
{
    match channel {
        Channel::Callback => StreamOutput::Event(ProbeEvent::Disconnected),
        Channel::Terminal => {
            let mut text = "Disconnected: ".to_owned();
            text.append(reason);
            StreamOutput::PrintError(text)
        },
        Channel::Silent => StreamOutput::Nothing,
    }
}

/// What is said where no port appears in time.
pub open spec fn port_timeout_text(vid: Option<u16>, pid: Option<u16>) -> Seq<char> {
    "Timed out waiting for serial port (VID "@ + hex(vid.unwrap_or(DEFAULT_VID) as nat, 4) + " "@
        + (match pid {
        Some(p) => "PID "@ + hex(p as nat, 4),
        None => "any PID"@,
    }) + " / fallback VID "@ + hex(FALLBACK_VID as nat, 4) + "/"@ + hex(
        SECOND_FALLBACK_VID as nat,
        4,
    ) + ") \u{2014} retrying"@
}

/// What is said where no port appears in time.
pub fn port_timeout_message(vid: Option<u16>, pid: Option<u16>) -> (r: String)
    ensures
        r@ == port_timeout_text(vid, pid),
{
    let mut r = "Timed out waiting for serial port (VID ".to_owned();
    push_hex(&mut r, vid.unwrap_or(DEFAULT_VID) as u64, 4);
    r.append(" ");
    let mut id = String::new();
    match pid {
        Some(p) => {
            id.append("PID ");
            push_hex(&mut id, p as u64, 4);
            assert(id@ =~= "PID "@ + hex(p as nat, 4));
        },
        None => {
            id.append("any PID");
            assert(id@ =~= "any PID"@);
        },
    }
    r.append(id.as_str());
    r.append(" / fallback VID ");
    push_hex(&mut r, FALLBACK_VID as u64, 4);
    r.append("/");
    push_hex(&mut r, SECOND_FALLBACK_VID as u64, 4);
    r.append(") \u{2014} retrying");
    assert(r@ =~= port_timeout_text(vid, pid));
    r
}

/// What watching a device is at.
#[derive(Debug, Clone, Copy, PartialEq, Eq, Structural)]
pub enum WatchState {
    /// Take the port that the caller named.
    UseNamedPort,
    /// Look for a port until one appears or the time is up.
    SeekPort,
    /// Decode what arrives.
    Streaming,
    /// Let some time pass.
    Pause,
    /// The stream is over.
    Ended,
}

/// What happens while a device is watched.
#[derive(Debug, Clone, Copy, PartialEq, Eq, Structural)]
pub enum WatchEvent {
    PortReady,
    NoPort,
    StreamEnded,
    StreamLost,
    Rested,
}

/// What watching starts with, and comes back to after a port is lost.
pub open spec fn watch_start(named: bool) -> WatchState {
    if named {
        WatchState::UseNamedPort
    } else {
        WatchState::SeekPort
    }
}

/// The state after an event.  An event that does not answer the pending step changes
/// nothing.
pub open spec fn watch_next(named: bool, state: WatchState, event: WatchEvent) -> WatchState {
    match (state, event) {
        (WatchState::UseNamedPort, WatchEvent::PortReady) => WatchState::Streaming,
        (WatchState::SeekPort, WatchEvent::PortReady) => WatchState::Streaming,
        (WatchState::SeekPort, WatchEvent::NoPort) => WatchState::SeekPort,
        (WatchState::Streaming, WatchEvent::StreamEnded) => WatchState::Ended,
        (WatchState::Streaming, WatchEvent::StreamLost) => if named {
            WatchState::Pause
        } else {
            WatchState::SeekPort
        },
        (WatchState::Pause, WatchEvent::Rested) => watch_start(named),
        (state, _) => state,
    }
}

/// Reconnects whenever the device disconnects: what comes first.
pub fn watch(named: bool) -> (r: WatchState)
    ensures
        r == watch_start(named),
{
    if named {
        WatchState::UseNamedPort
    } else {
        WatchState::SeekPort
    }
}

/// Reconnects whenever the device disconnects: what comes after an event.
pub fn watch_step(named: bool, state: WatchState, event: WatchEvent) -> (r: WatchState)
    ensures
        r == watch_next(named, state, event),
{
    match (state, event) {
        (WatchState::UseNamedPort, WatchEvent::PortReady) => WatchState::Streaming,
        (WatchState::SeekPort, WatchEvent::PortReady) => WatchState::Streaming,
        (WatchState::SeekPort, WatchEvent::NoPort) => WatchState::SeekPort,
        (WatchState::Streaming, WatchEvent::StreamEnded) => WatchState::Ended,
        (WatchState::Streaming, WatchEvent::StreamLost) => {
            if named {
                WatchState::Pause
            } else {
                WatchState::SeekPort
            }
        },
        (WatchState::Pause, WatchEvent::Rested) => watch(named),
        (state, _) => state,
    }
}

// ---------------------------------------------------------------------------
// Laws
// ---------------------------------------------------------------------------

/// All frames that can be decoded are shown, in order: where the decoder gives frames and
/// malformed ones until it needs more bytes at index `n`, draining goes on to that point
/// and shows every frame before it, unless a malformed one cannot be recovered from.
pub proof fn law_drain_shows_every_frame(
    outcomes: Seq<DecodeOutcome>,
    can_recover: bool,
    i: int,
    n: int,
)
    requires
        0 <= i <= n < outcomes.len(),
        outcomes[n] is UnexpectedEof,
        forall|k: int|
            i <= k < n ==> (#[trigger] outcomes[k] is Frame || (outcomes[k] is Malformed
                && can_recover)),
    ensures
        ({
            let (shown, end) = drained(outcomes, can_recover, i);
            &&& end == Some(DrainStep::Wait)
            &&& forall|k: int| #[trigger]
                shown.contains(k) <==> i <= k < n && outcomes[k] is Frame
            &&& forall|a: int, b: int|
                0 <= a < b < shown.len() ==> (#[trigger] shown[a]) < (#[trigger] shown[b])
        }),
    decreases n - i,
{
    let (shown, _) = drained(outcomes, can_recover, i);
    if i < n {
        let (rest, _) = drained(outcomes, can_recover, i + 1);
        law_drain_shows_every_frame(outcomes, can_recover, i + 1, n);
        if outcomes[i] is Frame {
            assert(shown =~= seq![i] + rest);
            assert forall|k: int| #[trigger]
                shown.contains(k) <==> i <= k < n && outcomes[k] is Frame by {
                if rest.contains(k) {
                    let j = choose|j: int| 0 <= j < rest.len() && rest[j] == k;
                    assert(shown[j + 1] == k);
                }
                if shown.contains(k) && k != i {
                    let j = choose|j: int| 0 <= j < shown.len() && shown[j] == k;
                    assert(rest[j - 1] == k);
                }
                assert(shown[0] == i);
            }
            assert forall|a: int, b: int| 0 <= a < b < shown.len() implies (#[trigger] shown[a])
                < (#[trigger] shown[b]) by {
                assert(shown[b] == rest[b - 1]);
                if a == 0 {
                    assert(rest.contains(rest[b - 1]));
                } else {
                    assert(shown[a] == rest[a - 1]);
                }
            }
        }
    }
}

/// Draining ends only where more bytes are needed, or on a malformed frame that cannot be
/// recovered from.
pub proof fn law_drain_ends(outcomes: Seq<DecodeOutcome>, can_recover: bool, i: int)
    requires
        0 <= i,
    ensures
        (match drained(outcomes, can_recover, i).1 {
            Some(DrainStep::Wait) => exists|k: int|
                i <= k < outcomes.len() && #[trigger] outcomes[k] is UnexpectedEof,
            Some(DrainStep::Abort) => !can_recover && exists|k: int|
                i <= k < outcomes.len() && #[trigger] outcomes[k] is Malformed,
            Some(_) => false,
            None => true,
        }),
    decreases outcomes.len() - i,
{
    if i < outcomes.len() {
        law_drain_ends(outcomes, can_recover, i + 1);
        assert(outcomes[i] == outcomes[i]);
    }
}

/// Watching goes on after every disconnect: only the end of the stream ends it.
pub proof fn law_watch_reconnects(named: bool, state: WatchState, event: WatchEvent)
    ensures
        !(state is Ended) && watch_next(named, state, event) is Ended ==> event is StreamEnded,
        watch_next(named, WatchState::Streaming, WatchEvent::StreamLost) != WatchState::Streaming,
        watch_next(
            named,
            watch_next(named, WatchState::Streaming, WatchEvent::StreamLost),
            WatchEvent::Rested,
        ) == watch_start(named),
{
}

/// `text_up_to` is total: of two texts one comes before the other or they are the same.
proof fn lemma_text_total(a: Seq<char>, b: Seq<char>, i: int)
    requires
        0 <= i,
    ensures
        text_up_to(a, b, i) || text_up_to(b, a, i),
    decreases a.len() - i,
{
    if i < a.len() && i < b.len() && a[i] == b[i] {
        lemma_text_total(a, b, i + 1);
    }
}

proof fn lemma_text_transitive(a: Seq<char>, b: Seq<char>, c: Seq<char>, i: int)
    requires
        0 <= i,
        text_up_to(a, b, i),
        text_up_to(b, c, i),
    ensures
        text_up_to(a, c, i),
    decreases a.len() - i,
{
    if i < a.len() && i < b.len() && i < c.len() && a[i] == b[i] && b[i] == c[i] {
        lemma_text_transitive(a, b, c, i + 1);
    }
}

proof fn lemma_text_antisymmetric(a: Seq<char>, b: Seq<char>, i: int)
    requires
        0 <= i <= a.len(),
        i <= b.len(),
        forall|k: int| 0 <= k < i ==> a[k] == b[k],
        text_up_to(a, b, i),
        text_up_to(b, a, i),
    ensures
        a == b,
    decreases a.len() - i,
{
    if i < a.len() && i < b.len() {
        assert(a[i] == b[i]);
        lemma_text_antisymmetric(a, b, i + 1);
    } else {
        assert(a =~= b);
    }
}

/// Keys are ordered: of two keys one comes before the other or both are the same, and
/// the order is transitive.
pub proof fn law_keys_are_ordered(
    a: (Seq<char>, int),
    b: (Seq<char>, int),
    c: (Seq<char>, int),
)
    ensures
        key_up_to(a, b) || key_up_to(b, a),
        key_up_to(a, b) && key_up_to(b, c) ==> key_up_to(a, c),
        key_up_to(a, b) && key_up_to(b, a) ==> a == b,
{
    lemma_text_total(a.0, b.0, 0);
    if key_up_to(a, b) && key_up_to(b, c) {
        if a.0 != b.0 && b.0 != c.0 {
            lemma_text_transitive(a.0, b.0, c.0, 0);
            if a.0 == c.0 {
                lemma_text_antisymmetric(a.0, b.0, 0);
            }
        }
    }
    if key_up_to(a, b) && key_up_to(b, a) && a.0 != b.0 {
        lemma_text_antisymmetric(a.0, b.0, 0);
    }
}

/// What is picked by key is wanted, no wanted item comes after it in order, and of
/// several with the same key it is the last; nothing is picked only where nothing is
/// wanted.
pub proof fn law_last_of(keys: Seq<(Seq<char>, int)>, wanted: Seq<bool>, n: nat)
    requires
        n <= keys.len(),
        n <= wanted.len(),
        n <= usize::MAX,
    ensures
        (match last_of(keys, wanted, n) {
            Some(r) => {
                &&& r < n
                &&& wanted[r as int]
                &&& forall|i: int|
                    0 <= i < n && #[trigger] wanted[i] ==> key_up_to(keys[i], keys[r as int])
                &&& forall|i: int| r < i < n && #[trigger] wanted[i] ==> keys[i] != keys[r as int]
            },
            None => forall|i: int| 0 <= i < n ==> !#[trigger] wanted[i],
        }),
    decreases n,
{
    if n > 0 {
        law_last_of(keys, wanted, (n - 1) as nat);
        let last = n - 1;
        match last_of(keys, wanted, (n - 1) as nat) {
            Some(k) => {
                let kk = keys[k as int];
                let kl = keys[last];
                law_keys_are_ordered(kk, kl, kl);
                law_keys_are_ordered(kl, kk, kk);
                if wanted[last] && key_up_to(kk, kl) {
                    assert forall|i: int| 0 <= i < n && #[trigger] wanted[i] implies key_up_to(
                        keys[i],
                        kl,
                    ) by {
                        if i < last {
                            law_keys_are_ordered(keys[i], kk, kl);
                        }
                    }
                }
            },
            None => {
                law_keys_are_ordered(keys[last], keys[last], keys[last]);
            },
        }
    }
}

/// Whether there is a port of a device of the vendor and, where it is given, product.
pub open spec fn has_port(ports: Seq<SerialPort>, vid: u16, pid: Option<u16>) -> bool {
    exists|i: int| 0 <= i < ports.len() && #[trigger] port_matches(ports, vid, pid, i)
}

proof fn lemma_last_port(ports: Seq<SerialPort>, vid: u16, pid: Option<u16>)
    requires
        ports.len() <= usize::MAX,
    ensures
        (match last_port(ports, vid, pid) {
            Some(i) => i < ports.len() && port_matches(ports, vid, pid, i as int) && has_port(
                ports,
                vid,
                pid,
            ),
            None => !has_port(ports, vid, pid),
        }),
{
    let wanted = matching_ports(ports, vid, pid);
    law_last_of(port_keys(ports), wanted, ports.len());
    assert forall|i: int| 0 <= i < ports.len() implies #[trigger] port_matches(ports, vid, pid, i)
        == wanted[i] by {}
}

/// The port that is found belongs to the device that is asked for.  Only where that has
/// none and no vendor is given, it belongs to a device of the first fallback vendor with a
/// port.  Where there is a port of any of them, one is found.
pub proof fn law_found_port_matches(
    ports: Seq<SerialPort>,
    defmt: Option<(u8, u8)>,
    vid: Option<u16>,
    pid: Option<u16>,
)
    requires
        ports.len() <= usize::MAX,
    ensures
        ({
            let pv = vid.unwrap_or(DEFAULT_VID);
            let pp = Some(pid.unwrap_or(DEFAULT_PID));
            let found = serial_port(ports, defmt, vid, pid);
            if has_port(ports, pv, pp) {
                found matches Some(i) && i < ports.len() && port_matches(ports, pv, pp, i as int)
            } else if vid is None && has_port(ports, FALLBACK_VID, None) {
                found matches Some(i) && i < ports.len() && port_matches(
                    ports,
                    FALLBACK_VID,
                    None,
                    i as int,
                )
            } else if vid is None && has_port(ports, SECOND_FALLBACK_VID, None) {
                found matches Some(i) && i < ports.len() && port_matches(
                    ports,
                    SECOND_FALLBACK_VID,
                    None,
                    i as int,
                )
            } else {
                found is None
            }
        }),
{
    let pv = vid.unwrap_or(DEFAULT_VID);
    let pp = pid.unwrap_or(DEFAULT_PID);
    lemma_last_port(ports, pv, Some(pp));
    lemma_last_port(ports, FALLBACK_VID, None);
    lemma_last_port(ports, SECOND_FALLBACK_VID, None);
    match defmt {
        Some((ctrl, data)) => {
            let exact = |i: int| port_on_interface(ports, pv, pp, ctrl, data, i);
            law_first_from(exact, 0, ports.len() as int);
            match first_from(exact, 0, ports.len() as int) {
                Some(i) => {
                    assert(exact(i as int));
                    assert(port_matches(ports, pv, Some(pp), i as int));
                },
                None => {},
            }
        },
        None => {},
    }
}

/// Of two ports whose names differ only in their trailing number, the one with the
/// larger number comes later.
pub proof fn law_ports_order_by_number(a: Seq<char>, b: Seq<char>)
    requires
        sort_key(a).0 == sort_key(b).0,
        sort_key(a).1 < sort_key(b).1,
    ensures
        key_up_to(sort_key(a), sort_key(b)),
        !key_up_to(sort_key(b), sort_key(a)),
{
}

/// Whether the port is one of a device with the given vendor and product.
pub open spec fn is_port_of(port: SerialPort, vid: u16, pid: u16) -> bool {
    port.usb matches Some(u) && u.vid == vid && u.pid == pid
}

/// Whether the port reports one of two interfaces.
pub open spec fn reports_interface(port: SerialPort, ctrl: u8, data: u8) -> bool {
    port.usb matches Some(u) && (u.interface == Some(ctrl) || u.interface == Some(data))
}

/// Where the interfaces of the defmt stream are known and a port of the device that is
/// asked for, `2e8a:0009` by default, reports one of them, the first such port is found,
/// whoever named the vendor.
pub proof fn law_defmt_port_is_found(
    ports: Seq<SerialPort>,
    ctrl: u8,
    data: u8,
    vid: Option<u16>,
    pid: Option<u16>,
    i: usize,
)
    requires
        ports.len() <= usize::MAX,
        i < ports.len(),
        ({
            let v = match vid {
                Some(v) => v,
                None => 0x2E8A,
            };
            let p = match pid {
                Some(p) => p,
                None => 0x0009,
            };
            &&& is_port_of(ports[i as int], v, p)
            &&& reports_interface(ports[i as int], ctrl, data)
            &&& forall|k: int|
                0 <= k < i ==> !(is_port_of(#[trigger] ports[k], v, p) && reports_interface(
                    ports[k],
                    ctrl,
                    data,
                ))
        }),
    ensures
        serial_port(ports, Some((ctrl, data)), vid, pid) == Some(i),
{
    let pv = vid.unwrap_or(DEFAULT_VID);
    let pp = pid.unwrap_or(DEFAULT_PID);
    let exact = |k: int| port_on_interface(ports, pv, pp, ctrl, data, k);
    law_first_from(exact, 0, ports.len() as int);
    assert(exact(i as int));
    match first_from(exact, 0, ports.len() as int) {
        Some(k) => {
            assert(exact(k as int));
            if k < i {
                assert(is_port_of(ports[k as int], pv, pp));
            }
        },
        None => {},
    }
}

/// Otherwise, of the ports of the device that is asked for, the one whose name comes last
/// is found, the last one of several with the same place in the order.
pub proof fn law_last_port_is_found(
    ports: Seq<SerialPort>,
    defmt: Option<(u8, u8)>,
    vid: Option<u16>,
    pid: Option<u16>,
    i: usize,
)
    requires
        ports.len() <= usize::MAX,
        i < ports.len(),
        ({
            let v = match vid {
                Some(v) => v,
                None => 0x2E8A,
            };
            let p = match pid {
                Some(p) => p,
                None => 0x0009,
            };
            &&& defmt matches Some((ctrl, data)) ==> forall|k: int|
                0 <= k < ports.len() ==> !(is_port_of(#[trigger] ports[k], v, p)
                    && reports_interface(ports[k], ctrl, data))
            &&& is_port_of(ports[i as int], v, p)
            &&& forall|k: int|
                0 <= k < ports.len() && is_port_of(#[trigger] ports[k], v, p) ==> key_up_to(
                    sort_key(ports[k].name@),
                    sort_key(ports[i as int].name@),
                )
            &&& forall|k: int|
                i < k < ports.len() && is_port_of(#[trigger] ports[k], v, p) ==> sort_key(
                    ports[k].name@,
                ) != sort_key(ports[i as int].name@)
        }),
    ensures
        serial_port(ports, defmt, vid, pid) == Some(i),
{
    let pv = vid.unwrap_or(DEFAULT_VID);
    let pp = pid.unwrap_or(DEFAULT_PID);
    match defmt {
        Some((ctrl, data)) => {
            let exact = |k: int| port_on_interface(ports, pv, pp, ctrl, data, k);
            law_first_from(exact, 0, ports.len() as int);
            match first_from(exact, 0, ports.len() as int) {
                Some(k) => {
                    assert(exact(k as int));
                    assert(is_port_of(ports[k as int], pv, pp));
                },
                None => {},
            }
        },
        None => {},
    }
    law_last_port(ports, pv, Some(pp), i);
}

/// Whether the port is one of the given vendor and, where one is given, product.
pub open spec fn is_port_for(port: SerialPort, vid: u16, pid: Option<u16>) -> bool {
    port.usb matches Some(u) && u.vid == vid && (pid is Some ==> pid == Some(u.pid))
}

/// Among the ports of a vendor and, where one is given, a product, the one whose name comes
/// last is found, the last one of several with the same place in the order.
pub proof fn law_last_port(ports: Seq<SerialPort>, vid: u16, pid: Option<u16>, i: usize)
    requires
        ports.len() <= usize::MAX,
        i < ports.len(),
        is_port_for(ports[i as int], vid, pid),
        forall|k: int|
            0 <= k < ports.len() && is_port_for(#[trigger] ports[k], vid, pid) ==> key_up_to(
                sort_key(ports[k].name@),
                sort_key(ports[i as int].name@),
            ),
        forall|k: int|
            i < k < ports.len() && is_port_for(#[trigger] ports[k], vid, pid) ==> sort_key(
                ports[k].name@,
            ) != sort_key(ports[i as int].name@),
    ensures
        last_port(ports, vid, pid) == Some(i),
{
    assert forall|k: int| 0 <= k < ports.len() implies port_matches(ports, vid, pid, k)
        == is_port_for(#[trigger] ports[k], vid, pid) by {}
    let keys = port_keys(ports);
    let wanted = matching_ports(ports, vid, pid);
    law_last_of(keys, wanted, ports.len());
    assert(wanted[i as int]);
    let r = last_port(ports, vid, pid)->0;
    assert(wanted[r as int]);
    assert(port_matches(ports, vid, pid, r as int));
    assert(keys[r as int] == sort_key(ports[r as int].name@));
    assert(keys[i as int] == sort_key(ports[i as int].name@));
    law_keys_are_ordered(keys[r as int], keys[i as int], keys[i as int]);
}

/// With no vendor given and no port of the device that is asked for, the port of a fallback
/// vendor whose name comes last is found, vendor `c0de` before `c001`.
pub proof fn law_fallback_port_is_found(
    ports: Seq<SerialPort>,
    defmt: Option<(u8, u8)>,
    pid: Option<u16>,
    vendor: u16,
    i: usize,
)
    requires
        ports.len() <= usize::MAX,
        i < ports.len(),
        vendor == 0xC0DE || vendor == 0xC001,
        ports[i as int].usb matches Some(u) && u.vid == vendor,
        ({
            let p = match pid {
                Some(p) => p,
                None => 0x0009,
            };
            forall|k: int| 0 <= k < ports.len() ==> !is_port_of(#[trigger] ports[k], 0x2E8A, p)
        }),
        vendor == 0xC001 ==> forall|k: int|
            0 <= k < ports.len() ==> !((#[trigger] ports[k]).usb matches Some(u) && u.vid
                == 0xC0DE),
        forall|k: int|
            0 <= k < ports.len() && ((#[trigger] ports[k]).usb matches Some(u) && u.vid == vendor)
                ==> key_up_to(sort_key(ports[k].name@), sort_key(ports[i as int].name@)),
        forall|k: int|
            i < k < ports.len() && ((#[trigger] ports[k]).usb matches Some(u) && u.vid == vendor)
                ==> sort_key(ports[k].name@) != sort_key(ports[i as int].name@),
    ensures
        serial_port(ports, defmt, None, pid) == Some(i),
{
    let pp = pid.unwrap_or(DEFAULT_PID);
    match defmt {
        Some((ctrl, data)) => {
            let exact = |k: int| port_on_interface(ports, DEFAULT_VID, pp, ctrl, data, k);
            law_first_from(exact, 0, ports.len() as int);
            match first_from(exact, 0, ports.len() as int) {
                Some(k) => {
                    assert(exact(k as int));
                    assert(is_port_of(ports[k as int], DEFAULT_VID, pp));
                },
                None => {},
            }
        },
        None => {},
    }
    lemma_last_port(ports, DEFAULT_VID, Some(pp));
    match last_port(ports, DEFAULT_VID, Some(pp)) {
        Some(k) => {
            assert(is_port_of(ports[k as int], DEFAULT_VID, pp));
        },
        None => {},
    }
    lemma_last_port(ports, FALLBACK_VID, None);
    law_last_port(ports, vendor, None, i);
}

/// A vendor that is given keeps all others out: without a port of the device that is asked
/// for, none is found.
pub proof fn law_given_vendor_keeps_others_out(
    ports: Seq<SerialPort>,
    defmt: Option<(u8, u8)>,
    vid: u16,
    pid: Option<u16>,
)
    requires
        ports.len() <= usize::MAX,
        ({
            let p = match pid {
                Some(p) => p,
                None => 0x0009,
            };
            forall|k: int| 0 <= k < ports.len() ==> !is_port_of(#[trigger] ports[k], vid, p)
        }),
    ensures
        serial_port(ports, defmt, Some(vid), pid) is None,
{
    let pp = pid.unwrap_or(DEFAULT_PID);
    law_found_port_matches(ports, defmt, Some(vid), pid);
    if has_port(ports, vid, Some(pp)) {
        let k = choose|k: int|
            0 <= k < ports.len() && #[trigger] port_matches(ports, vid, Some(pp), k);
        assert(is_port_of(ports[k], vid, pp));
    }
}

/// Texts are ordered by their first difference, and a text comes before its continuations.
pub proof fn law_text_order(a: Seq<char>, b: Seq<char>, i: int)
    requires
        0 <= i <= a.len(),
        i <= b.len(),
        forall|k: int| 0 <= k < i ==> a[k] == b[k],
    ensures
        i < a.len() && i < b.len() && a[i] != b[i] ==> text_up_to(a, b, 0) == (a[i] < b[i]),
        i == a.len() ==> text_up_to(a, b, 0),
        i == b.len() && a.len() > i ==> !text_up_to(a, b, 0),
{
    lemma_text_from(a, b, 0, i);
}

proof fn lemma_text_from(a: Seq<char>, b: Seq<char>, from: int, i: int)
    requires
        0 <= from <= i <= a.len(),
        i <= b.len(),
        forall|k: int| 0 <= k < i ==> a[k] == b[k],
    ensures
        text_up_to(a, b, from) == text_up_to(a, b, i),
    decreases i - from,
{
    if from < i {
        lemma_text_from(a, b, from + 1, i);
    }
}

/// A port is ordered by its name before a trailing number, in lower case, and by that
/// number, however many zeros it is written with; a number beyond 64 bits counts as zero.
pub proof fn law_port_number(prefix: Seq<char>, number: nat, width: nat)
    requires
        prefix.len() > 0 ==> !('0' <= prefix.last() && prefix.last() <= '9'),
    ensures
        sort_key(prefix + padded(number, 10, width)) == (
            unicode_lowercase(prefix),
            if number <= u64::MAX {
                number as int
            } else {
                0
            },
        ),
{
    let digits = padded(number, 10, width);
    let name = prefix + digits;
    lemma_padded_digits(number, 10, width);
    assert forall|k: int| prefix.len() <= k < name.len() implies digit_value(
        #[trigger] name[k],
        10,
    ) is Some by {
        assert(name[k] == digits[k - prefix.len()]);
    }
    lemma_digits_start(name, prefix.len() as int, name.len() as int);
    assert(name.take(prefix.len() as int) =~= prefix);
    assert(name.skip(prefix.len() as int) =~= digits);
    if number <= u64::MAX {
        law_digits_round_trip(number, 10, width, u64::MAX as int);
    } else {
        law_digits_too_large(number, 10, width, u64::MAX as int);
    }
}

proof fn lemma_digits_start(name: Seq<char>, from: int, n: int)
    requires
        0 <= from <= n <= name.len(),
        from > 0 ==> !('0' <= name[from - 1] && name[from - 1] <= '9'),
        forall|k: int| from <= k < n ==> digit_value(#[trigger] name[k], 10) is Some,
    ensures
        digits_start(name, n) == from,
    decreases n - from,
{
    if n > from {
        assert(digit_value(name[n - 1], 10) is Some);
        lemma_digits_start(name, from, n - 1);
    }
}

/// A malformed frame that cannot be recovered from ends draining with an error at once.
pub proof fn law_drain_aborts(outcomes: Seq<DecodeOutcome>, i: int, n: int)
    requires
        0 <= i <= n < outcomes.len(),
        outcomes[n] is Malformed,
        forall|k: int| i <= k < n ==> #[trigger] outcomes[k] is Frame,
    ensures
        drained(outcomes, false, i).1 == Some(DrainStep::Abort),
        drained(outcomes, false, i).0.len() == n - i,
    decreases n - i,
{
    if i < n {
        law_drain_aborts(outcomes, i + 1, n);
    }
}

/// Watching streams as soon as there is a port, looks for one again and again until then,
/// and after a disconnect starts over, behind a pause where the caller named the port.
/// Only the end of the stream ends it, and then it has ended.
pub proof fn law_watch_streams(named: bool, event: WatchEvent)
    ensures
        watch_next(named, watch_start(named), WatchEvent::PortReady) == WatchState::Streaming,
        watch_start(true) == WatchState::UseNamedPort,
        watch_start(false) == WatchState::SeekPort,
        watch_next(named, WatchState::SeekPort, WatchEvent::PortReady) == WatchState::Streaming,
        watch_next(named, WatchState::SeekPort, WatchEvent::NoPort) == WatchState::SeekPort,
        watch_next(false, WatchState::Streaming, WatchEvent::StreamLost) == WatchState::SeekPort,
        watch_next(true, WatchState::Streaming, WatchEvent::StreamLost) == WatchState::Pause,
        watch_next(true, WatchState::Pause, WatchEvent::Rested) == WatchState::UseNamedPort,
        watch_next(named, WatchState::Streaming, WatchEvent::StreamEnded) == WatchState::Ended,
        watch_next(named, WatchState::Ended, event) == WatchState::Ended,
        watch_next(named, WatchState::Streaming, WatchEvent::PortReady) == WatchState::Streaming,
        watch_next(named, WatchState::Streaming, WatchEvent::NoPort) == WatchState::Streaming,
        watch_next(named, WatchState::Streaming, WatchEvent::Rested) == WatchState::Streaming,
{
}

/// No port is found for a vendor and product that no port has.
pub proof fn law_no_last_port(ports: Seq<SerialPort>, vid: u16, pid: Option<u16>)
    requires
        ports.len() <= usize::MAX,
        forall|k: int| 0 <= k < ports.len() ==> !is_port_for(#[trigger] ports[k], vid, pid),
    ensures
        last_port(ports, vid, pid) is None,
{
    lemma_last_port(ports, vid, pid);
    match last_port(ports, vid, pid) {
        Some(k) => {
            assert(is_port_for(ports[k as int], vid, pid));
        },
        None => {},
    }
}

/// Ports are ordered by their names first, and by their numbers where the names agree.
pub proof fn law_key_order(a: (Seq<char>, int), b: (Seq<char>, int))
    ensures
        a.0 == b.0 ==> (key_up_to(a, b) <==> a.1 <= b.1),
        a.0 != b.0 ==> (key_up_to(a, b) <==> text_up_to(a.0, b.0, 0)),
{
}

/// A frame is shown, a lack of bytes is waited out, and what is malformed is left out where
/// the encoding can recover from it and ends the stream elsewhere.
pub proof fn law_decoded(can_recover: bool)
    ensures
        drain_step(DecodeOutcome::Frame, can_recover) is Show,
        drain_step(DecodeOutcome::UnexpectedEof, can_recover) is Wait,
        drain_step(DecodeOutcome::Malformed, can_recover) is Skip <==> can_recover,
        drain_step(DecodeOutcome::Malformed, can_recover) is Abort <==> !can_recover,
{
}

} // verus!
