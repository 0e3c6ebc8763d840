//! Reading the command line's values, and what each subcommand does.

use vstd::prelude::*;

use crate::text::{
    digit_value, from_chars, hex, law_digits_round_trip, law_digits_too_large,
    law_padded_width, lemma_padded_digits, number_value, padded, parse_number, push_hex, to_chars, NumberError,
};
use crate::uf2::Family;
use crate::usb::DEFAULT_PID;
use crate::write::WriteTarget;

verus! {

/// The `Debug` form of a text: in double quotes, with escapes.
pub uninterp spec fn debug_text(s: Seq<char>) -> Seq<char>;

/// The `Debug` form of a text.
///
/// Formats the text with `{:?}`.  The result depends on the text alone; `debug_text`
/// stands for it.
#[verifier::external_body]
fn quoted(s: &str) -> (r: String)
    ensures
        r@ == debug_text(s@),
{
    format!("{s:?}")
}

// ---------------------------------------------------------------------------
// Values
// ---------------------------------------------------------------------------

/// Whether a text starts with the prefix of hexadecimal numbers.
pub open spec fn has_hex_prefix(s: Seq<char>) -> bool {
    s.len() >= 2 && s[0] == '0' && (s[1] == 'x' || s[1] == 'X')
}

/// The decimal or `0x…` hexadecimal number that a text writes, at most `max`.
pub open spec fn prefixed_number(s: Seq<char>, max: int) -> Result<int, NumberError> {
    if has_hex_prefix(s) {
        number_value(s.skip(2), 16, max)
    } else {
        number_value(s, 10, max)
    }
}

fn parse_prefixed(c: &Vec<char>, from: usize, max: u64) -> (r: Result<u64, NumberError>)
    requires
        from <= c@.len(),
    ensures
        (match r {
            Ok(v) => prefixed_number(c@.skip(from as int), max as int) == Ok::<int, NumberError>(
                v as int,
            ) && v <= max,
            Err(e) => prefixed_number(c@.skip(from as int), max as int) == Err::<int, NumberError>(e),
        }),
{
    let len: usize = c.len();
    let ghost s = c@.skip(from as int);
    if len - from >= 2 && c[from] == '0' && (c[from + 1] == 'x' || c[from + 1] == 'X') {
        assert(s[0] == c@[from as int] && s[1] == c@[from + 1]);
        assert(c@.skip(from + 2) =~= s.skip(2));
        proof {
            lemma_number_bound(s.skip(2), 16, max as int);
        }
        parse_number(c, from + 2, 16, max)
    } else {
        assert(s.len() == len - from);
        assert(s.len() >= 2 ==> s[0] == c@[from as int] && s[1] == c@[from + 1]);
        proof {
            lemma_number_bound(s, 10, max as int);
        }
        parse_number(c, from, 10, max)
    }
}

proof fn lemma_number_bound(s: Seq<char>, base: int, max: int)
    requires
        max >= 0,
    ensures
        number_value(s, base, max) matches Ok(v) ==> v <= max,
{
}

/// Parse a `u16` from a decimal or `0x…` hex string.
pub fn parse_u16_hex(s: &str) -> (r: Result<u16, String>)
    ensures
        (match prefixed_number(s@, u16::MAX as int) {
            Ok(v) => r == Ok::<u16, String>(v as u16),
            Err(e) => r matches Err(m) && m@ == e.spec_message(),
        }),
{
    let c = to_chars(s);
    assert(c@.skip(0) =~= s@);
    match parse_prefixed(&c, 0, u16::MAX as u64) {
        Ok(v) => Ok(v as u16),
        Err(e) => Err(e.message()),
    }
}

/// Parse a `u32` from a decimal or `0x…` hex string.
pub fn parse_u32_hex(s: &str) -> (r: Result<u32, String>)
    ensures
        (match prefixed_number(s@, u32::MAX as int) {
            Ok(v) => r == Ok::<u32, String>(v as u32),
            Err(e) => r matches Err(m) && m@ == e.spec_message(),
        }),
{
    let c = to_chars(s);
    assert(c@.skip(0) =~= s@);
    match parse_prefixed(&c, 0, u32::MAX as u64) {
        Ok(v) => Ok(v as u32),
        Err(e) => Err(e.message()),
    }
}

/// The index of the last at sign among the first `n` characters.
pub open spec fn last_at_sign(s: Seq<char>, n: int) -> Option<int>
    decreases n,
{
    if n <= 0 {
        None
    } else if s[n - 1] == '@' {
        Some(n - 1)
    } else {
        last_at_sign(s, n - 1)
    }
}

/// What is said of a target without an offset, given its `Debug` form.
pub fn bad_target_message(quoted: &str) -> (r: String)
    ensures
        r@ == "expected FILE@OFFSET, got "@ + quoted@,
{
    let mut m = "expected FILE@OFFSET, got ".to_owned();
    m.append(quoted);
    m
}

/// Parse a `FILE@OFFSET` write target.  The offset is added to `--base` later.
///
/// The last `@` separates, so paths containing `@` are handled correctly.
pub fn parse_write_target(s: &str) -> (r: Result<WriteTarget, String>)
    ensures
        (match last_at_sign(s@, s@.len() as int) {
            None => r matches Err(m) && m@ == "expected FILE@OFFSET, got "@ + debug_text(s@),
            Some(at) => match prefixed_number(s@.skip(at + 1), u32::MAX as int) {
                Ok(v) => r matches Ok(t) && t.path@ == s@.take(at) && t.address == v,
                Err(e) => r matches Err(m) && m@ == e.spec_message(),
            },
        }),
{
    let c = to_chars(s);
    let mut at: usize = c.len();
    while at > 0 && c[at - 1] != '@'
        invariant
            at <= c@.len(),
            c@ == s@,
            last_at_sign(s@, s@.len() as int) == last_at_sign(s@, at as int),
        decreases at,
    {
        at -= 1;
    }
    if at == 0 {
        return Err(bad_target_message(quoted(s).as_str()));
    }
    match parse_prefixed(&c, at, u32::MAX as u64) {
        Ok(v) => {
            assert(c@.subrange(0, at - 1) =~= s@.take(at - 1));
            Ok(WriteTarget { path: from_chars(&c, 0, at - 1), address: v as u32 })
        },
        Err(e) => Err(e.message()),
    }
}

/// An offset from a base address; addresses wrap around.
pub open spec fn rebased_addr(base: u32, offset: u32) -> u32 {
    ((base + offset) % 0x1_0000_0000) as u32
}

/// Adds `base` to the offset of each target.
pub fn rebase_targets(targets: Vec<WriteTarget>, base: u32) -> (r: Vec<WriteTarget>)
    ensures
        r@.len() == targets@.len(),
        forall|i: int|
            0 <= i < r@.len() ==> (#[trigger] r@[i]).path == targets@[i].path && r@[i].address
                == rebased_addr(base, targets@[i].address),
{
    let ghost all = targets@;
    let mut rest = targets;
    let mut r: Vec<WriteTarget> = Vec::new();
    assert(rest@ =~= all.skip(0));
    while rest.len() > 0
        invariant
            rest@ == all.skip(r@.len() as int),
            r@.len() <= all.len(),
            forall|i: int|
                0 <= i < r@.len() ==> (#[trigger] r@[i]).path == all[i].path && r@[i].address
                    == rebased_addr(base, all[i].address),
        decreases rest@.len(),
    {
        let ghost k = r@.len() as int;
        let t = rest.remove(0);
        assert(t == all[k]);
        assert(rest@ =~= all.skip(k + 1));
        let address: u32 = base.wrapping_add(t.address);
        r.push(WriteTarget { path: t.path, address });
    }
    r
}

/// Resolve the serial port: use the override if provided, else the port that was
/// detected.
pub fn resolve_port(
    port_override: Option<String>,
    detected: Option<String>,
    vid: Option<u16>,
    pid: Option<u16>,
) -> (r: Result<String, String>)
    ensures
        (match (port_override, detected) {
            (Some(p), _) => r == Ok::<String, String>(p),
            (None, Some(p)) => r == Ok::<String, String>(p),
            (None, None) => r matches Err(m) && m@ == no_port_text(vid, pid),
        }),
{
    match port_override {
        Some(p) => Ok(p),
        None => match detected {
            Some(p) => Ok(p),
            None => match vid {
                None => Err(
                    "No serial port found for VID 0x2E8A (default) or VID 0xC0DE/0xC001 (fallback). Is the device connected and running firmware?".to_owned(),
                ),
                Some(v) => {
                    let mut m = "No serial port found for VID ".to_owned();
                    push_hex(&mut m, v as u64, 4);
                    m.append(" and PID ");
                    push_hex(&mut m, pid.unwrap_or(DEFAULT_PID) as u64, 4);
                    m.append(". Is the device connected and running firmware?");
                    Err(m)
                },
            },
        },
    }
}

/// What is said where no serial port is found.
pub open spec fn no_port_text(vid: Option<u16>, pid: Option<u16>) -> Seq<char> {
    match vid {
        None =>
            "No serial port found for VID 0x2E8A (default) or VID 0xC0DE/0xC001 (fallback). Is the device connected and running firmware?"@,
        Some(v) => "No serial port found for VID "@ + hex(v as nat, 4) + " and PID "@ + hex(
            pid.unwrap_or(DEFAULT_PID) as nat,
            4,
        ) + ". Is the device connected and running firmware?"@,
    }
}

// ---------------------------------------------------------------------------
// Subcommands
// ---------------------------------------------------------------------------

/// How flash memory is reached.
#[derive(Debug, Clone, Copy, PartialEq, Eq, Structural)]
pub enum Backend {
    /// Direct USB.
    Picoboot,
    /// The mass-storage drive.
    Uf2,
}

/// A subcommand with its values.
#[derive(Debug)]
pub enum Command {
    Check,
    Reset { normal: bool },
    Flash { input: String, family: Family, address: u32, no_wait: bool, backend: Backend },
    Write {
        targets: Vec<WriteTarget>,
        base: u32,
        family: Family,
        erase_boot: bool,
        no_wait: bool,
        backend: Backend,
    },
    Read { address: u32, length: u32, output: String },
    Attach { elf: String, port: Option<String> },
    Watch { elf: String, port: Option<String> },
    Run { input: String, family: Family, address: u32, port: Option<String>, backend: Backend },
    Erase { flash_size: u32, base: u32, family: Family, no_wait: bool, backend: Backend },
}

/// A job that a subcommand is made of.
#[derive(Debug)]
pub enum Job {
    /// Print the path of the BOOTSEL drive.
    PrintDrive,
    /// Reset the device into BOOTSEL mode and wait for the drive.
    EnterBootsel,
    /// Reboot the device into its application.
    EnterApplication,
    Flash { input: String, family: Family, address: u32, no_wait: bool, backend: Backend },
    Write {
        targets: Vec<WriteTarget>,
        family: Family,
        erase_boot: bool,
        no_wait: bool,
        backend: Backend,
    },
    Read { address: u32, length: u32, output: String },
    Attach { elf: String, port: Option<String> },
    Watch { elf: String, port: Option<String> },
    Erase { flash_size: u32, base: u32, family: Family, no_wait: bool, backend: Backend },
}

/// Whether `jobs` are the jobs of `command`: one each, but for `run`, which flashes
/// and then watches the same file.
pub open spec fn jobs_of(command: Command, jobs: Seq<Job>) -> bool {
    match command {
        Command::Check => jobs == seq![Job::PrintDrive],
        Command::Reset { normal } => jobs == (if normal {
            seq![Job::EnterApplication]
        } else {
            seq![Job::EnterBootsel]
        }),
        Command::Flash { input, family, address, no_wait, backend } => jobs == seq![
            Job::Flash { input, family, address, no_wait, backend },
        ],
        Command::Write { targets, base, family, erase_boot, no_wait, backend } => {
            &&& jobs.len() == 1
            &&& jobs[0] matches Job::Write {
                targets: t,
                family: f,
                erase_boot: e,
                no_wait: n,
                backend: b,
            }
            &&& f == family && e == erase_boot && n == no_wait && b == backend
            &&& t@.len() == targets@.len()
            &&& forall|i: int|
                0 <= i < t@.len() ==> (#[trigger] t@[i]).path == targets@[i].path && t@[i].address
                    == rebased_addr(base, targets@[i].address)
        },
        Command::Read { address, length, output } => jobs == seq![
            Job::Read { address, length, output },
        ],
        Command::Attach { elf, port } => jobs == seq![Job::Attach { elf, port }],
        Command::Watch { elf, port } => jobs == seq![Job::Watch { elf, port }],
        Command::Run { input, family, address, port, backend } => {
            &&& jobs.len() == 2
            &&& jobs[0] == (Job::Flash { input, family, address, no_wait: false, backend })
            &&& jobs[1] matches Job::Watch { elf, port: p }
            &&& elf@ == input@
            &&& p == port
        },
        Command::Erase { flash_size, base, family, no_wait, backend } => jobs == seq![
            Job::Erase { flash_size, base, family, no_wait, backend },
        ],
    }
}

/// The jobs of a subcommand, in order.
pub fn run(command: Command) -> (r: Vec<Job>)
    ensures
        jobs_of(command, r@),
{
    let mut jobs: Vec<Job> = Vec::new();
    match command {
        Command::Check => {
            jobs.push(Job::PrintDrive);
        },
        Command::Reset { normal } => {
            if normal {
                jobs.push(Job::EnterApplication);
            } else {
                jobs.push(Job::EnterBootsel);
            }
        },
        Command::Flash { input, family, address, no_wait, backend } => {
            jobs.push(Job::Flash { input, family, address, no_wait, backend });
        },
        Command::Write { targets, base, family, erase_boot, no_wait, backend } => {
            let targets = rebase_targets(targets, base);
            jobs.push(Job::Write { targets, family, erase_boot, no_wait, backend });
        },
        Command::Read { address, length, output } => {
            jobs.push(Job::Read { address, length, output });
        },
        Command::Attach { elf, port } => {
            jobs.push(Job::Attach { elf, port });
        },
        Command::Watch { elf, port } => {
            jobs.push(Job::Watch { elf, port });
        },
        Command::Run { input, family, address, port, backend } => {
            let elf = input.clone();
            jobs.push(Job::Flash { input, family, address, no_wait: false, backend });
            jobs.push(Job::Watch { elf, port });
        },
        Command::Erase { flash_size, base, family, no_wait, backend } => {
            jobs.push(Job::Erase { flash_size, base, family, no_wait, backend });
        },
    }
    jobs
}

// ---------------------------------------------------------------------------
// Laws
// ---------------------------------------------------------------------------

/// A number is read from its decimal digits, and from its hexadecimal digits behind `0x` or
/// `0X`, with leading zeros or without.
pub proof fn law_numbers_are_read(n: nat, width: nat, max: int)
    requires
        n <= max,
        width > 0,
    ensures
        prefixed_number(padded(n, 10, width), max) == Ok::<int, NumberError>(n as int),
        prefixed_number(seq!['0', 'x'] + padded(n, 16, width), max) == Ok::<int, NumberError>(
            n as int,
        ),
        prefixed_number(seq!['0', 'X'] + padded(n, 16, width), max) == Ok::<int, NumberError>(
            n as int,
        ),
{
    let d = padded(n, 10, width);
    let h = padded(n, 16, width);
    law_digits_round_trip(n, 10, width, max);
    law_digits_round_trip(n, 16, width, max);
    law_padded_width(n, 10, width);
    law_padded_width(n, 16, width);
    lemma_padded_digits(n, 10, width);
    lemma_padded_digits(n, 16, width);
    assert(digit_value(d[0], 10) is Some);
    assert(digit_value(h[0], 16) is Some);
    if d.len() >= 2 {
        assert(digit_value(d[1], 10) is Some);
    }
    assert((seq!['0', 'x'] + h).skip(2) =~= h);
    assert((seq!['0', 'X'] + h).skip(2) =~= h);
}

/// A number that is too large is refused as such.
pub proof fn law_large_numbers_are_refused(n: nat, width: nat, max: int)
    requires
        0 <= max < n,
    ensures
        prefixed_number(padded(n, 10, width), max) == Err::<int, NumberError>(
            NumberError::TooLarge,
        ),
        prefixed_number(seq!['0', 'x'] + padded(n, 16, width), max) == Err::<int, NumberError>(
            NumberError::TooLarge,
        ),
{
    let d = padded(n, 10, width);
    let h = padded(n, 16, width);
    law_digits_too_large(n, 10, width, max);
    law_digits_too_large(n, 16, width, max);
    law_padded_width(n, 10, width);
    law_padded_width(n, 16, width);
    lemma_padded_digits(n, 10, width);
    lemma_padded_digits(n, 16, width);
    assert(digit_value(d[0], 10) is Some);
    assert(digit_value(h[0], 16) is Some);
    if d.len() >= 2 {
        assert(digit_value(d[1], 10) is Some);
    }
    assert((seq!['0', 'x'] + h).skip(2) =~= h);
}

/// A text without the prefix is read as a decimal number, and never as another one.
pub proof fn law_prefix_tells_the_base(s: Seq<char>, max: int)
    ensures
        s.len() >= 2 && s[0] == '0' && (s[1] == 'x' || s[1] == 'X') ==> prefixed_number(s, max)
            == number_value(s.skip(2), 16, max),
        !(s.len() >= 2 && s[0] == '0' && (s[1] == 'x' || s[1] == 'X')) ==> prefixed_number(s, max)
            == number_value(s, 10, max),
{
}

/// The last at sign is the one behind which there is none.
pub proof fn law_last_at_sign(path: Seq<char>, offset: Seq<char>)
    requires
        forall|i: int| 0 <= i < offset.len() ==> #[trigger] offset[i] != '@',
    ensures
        ({
            let s = path + seq!['@'] + offset;
            &&& last_at_sign(s, s.len() as int) == Some(path.len() as int)
            &&& s.take(path.len() as int) == path
            &&& s.skip((path.len() + 1) as int) == offset
        }),
        last_at_sign(offset, offset.len() as int) is None,
{
    let s = path + seq!['@'] + offset;
    assert(s[path.len() as int] == '@');
    assert forall|i: int| path.len() < i < s.len() implies #[trigger] s[i] != '@' by {
        assert(s[i] == offset[i - path.len() - 1]);
    }
    lemma_last_at_sign(s, path.len() as int, s.len() as int);
    lemma_no_at_sign(offset, offset.len() as int);
    assert(s.take(path.len() as int) =~= path);
    assert(s.skip((path.len() + 1) as int) =~= offset);
}

proof fn lemma_last_at_sign(s: Seq<char>, at: int, n: int)
    requires
        0 <= at < n <= s.len(),
        s[at] == '@',
        forall|i: int| at < i < n ==> #[trigger] s[i] != '@',
    ensures
        last_at_sign(s, n) == Some(at),
    decreases n,
{
    if n - 1 > at {
        lemma_last_at_sign(s, at, n - 1);
    }
}

proof fn lemma_no_at_sign(s: Seq<char>, n: int)
    requires
        n <= s.len(),
        forall|i: int| 0 <= i < n ==> #[trigger] s[i] != '@',
    ensures
        last_at_sign(s, n) is None,
    decreases n,
{
    if n > 0 {
        lemma_no_at_sign(s, n - 1);
    }
}

/// A target is moved by the base address, around the end of the address space where that is
/// passed.
pub proof fn law_rebased_address(base: u32, offset: u32)
    ensures
        base + offset <= u32::MAX ==> rebased_addr(base, offset) == base + offset,
        base + offset > u32::MAX ==> rebased_addr(base, offset) == base + offset - u32::MAX - 1,
{
}

/// What is said where no port is found names the vendor and the product that were asked
/// for, the latter `0009` by default.
pub proof fn law_missing_port_is_named(vid: u16, pid: Option<u16>)
    ensures
        no_port_text(Some(vid), pid) == "No serial port found for VID "@ + padded(
            vid as nat,
            16,
            4,
        ) + " and PID "@ + padded(
            match pid {
                Some(p) => p as nat,
                None => 9,
            },
            16,
            4,
        ) + ". Is the device connected and running firmware?"@,
{
}

/// A reset enters the application where the normal mode is asked for, and BOOTSEL mode
/// otherwise.
pub proof fn law_reset_jobs(normal: bool, jobs: Seq<Job>)
    requires
        jobs_of(Command::Reset { normal }, jobs),
    ensures
        jobs.len() == 1,
        normal <==> jobs[0] is EnterApplication,
        !normal <==> jobs[0] is EnterBootsel,
{
}

/// Checking prints the drive, and nothing more.
pub proof fn law_check_jobs(jobs: Seq<Job>)
    requires
        jobs_of(Command::Check, jobs),
    ensures
        jobs.len() == 1 && jobs[0] is PrintDrive,
{
}

/// Running flashes the file, waiting for the drive to go, and then watches the same file
/// on the port that is given.
pub proof fn law_run_jobs(
    input: String,
    family: Family,
    address: u32,
    port: Option<String>,
    backend: Backend,
    jobs: Seq<Job>,
)
    requires
        jobs_of(Command::Run { input, family, address, port, backend }, jobs),
    ensures
        jobs.len() == 2,
        jobs[0] == (Job::Flash { input, family, address, no_wait: false, backend }),
        jobs[1] matches Job::Watch { elf, port: p } && elf@ == input@ && p == port,
{
}

/// Flashing, reading, attaching, watching and erasing are one job each, with the values of
/// the command.
pub proof fn law_single_jobs(command: Command, jobs: Seq<Job>)
    requires
        jobs_of(command, jobs),
    ensures
        command matches Command::Flash { input, family, address, no_wait, backend } ==> jobs.len()
            == 1 && jobs[0] == (Job::Flash { input, family, address, no_wait, backend }),
        command matches Command::Read { address, length, output } ==> jobs.len() == 1 && jobs[0]
            == (Job::Read { address, length, output }),
        command matches Command::Attach { elf, port } ==> jobs.len() == 1 && jobs[0] == (
        Job::Attach { elf, port }),
        command matches Command::Watch { elf, port } ==> jobs.len() == 1 && jobs[0] == (Job::Watch {
            elf,
            port,
        }),
        command matches Command::Erase { flash_size, base, family, no_wait, backend } ==> jobs.len()
            == 1 && jobs[0] == (Job::Erase { flash_size, base, family, no_wait, backend }),
{
}

/// Writing is one job: every target under its path, moved by the base address.
pub proof fn law_write_jobs(
    targets: Vec<WriteTarget>,
    base: u32,
    family: Family,
    erase_boot: bool,
    no_wait: bool,
    backend: Backend,
    jobs: Seq<Job>,
)
    requires
        jobs_of(Command::Write { targets, base, family, erase_boot, no_wait, backend }, jobs),
    ensures
        jobs.len() == 1,
        jobs[0] matches Job::Write { targets: t, family: f, erase_boot: e, no_wait: n, backend: b }
            && f == family && e == erase_boot && n == no_wait && b == backend && t@.len()
            == targets@.len() && forall|i: int|
            0 <= i < t@.len() ==> (#[trigger] t@[i]).path == targets@[i].path && (t@[i].address
                == base + targets@[i].address || t@[i].address + u32::MAX + 1 == base
                + targets@[i].address),
{
}

} // verus!
