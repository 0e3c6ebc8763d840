//! Events for callers that embed the library, and whether to write to the terminal.

use vstd::prelude::*;

verus! {

/// A single event emitted by a library operation.
#[derive(Debug, Clone)]
pub enum ProbeEvent {
    /// A human-readable log message.
    Log { msg: String, tag: LogTag },
    /// UF2 write progress: bytes written so far and optional total.
    Progress { written: u64, total: Option<u64> },
    /// A decoded defmt frame string (from `attach` / `watch`).
    Frame(String),
    /// Serial port connected (from `attach` / `watch`).
    Connected { port: String },
    /// Serial port disconnected.
    Disconnected,
}

/// Severity tag for [`ProbeEvent::Log`].
#[derive(Debug, Clone, Copy, PartialEq, Eq, Structural)]
pub enum LogTag {
    Info,
    Success,
    Warn,
    Error,
}

/// Whether terminal output is suppressed where no event callback is given.
#[derive(Debug, Clone, Copy, PartialEq, Eq, Structural)]
pub struct OutputMode {
    pub silent: bool,
}

impl OutputMode {
    /// Terminal output is on to begin with.
    pub fn new() -> (r: OutputMode)
        ensures
            !r.silent,
    {
        OutputMode { silent: false }
    }
}

/// Where the messages and the progress of an operation go.
#[derive(Debug, Clone, Copy, PartialEq, Eq, Structural)]
pub enum Channel {
    /// To the caller's event callback.
    Callback,
    /// To the terminal.
    Terminal,
    /// Nowhere.
    Silent,
}

/// Enable or disable default terminal output (progress bars, `println!`,
/// `eprintln!`) when no event callback is provided.
///
/// This is useful for crates embedding `probe-rp-usb` where the caller wants
/// complete control over presentation.
pub fn set_silent_output(mode: &mut OutputMode, silent: bool)
    ensures
        final(mode).silent == silent,
{
    mode.silent = silent;
}

/// Returns whether silent output mode is currently enabled.
pub fn silent_output_enabled(mode: &OutputMode) -> (r: bool)
    ensures
        r == mode.silent,
{
    mode.silent
}

/// Where output goes: to the callback where there is one, else to the terminal unless
/// it is to be silent.
pub open spec fn spec_channel(has_callback: bool, mode: OutputMode) -> Channel {
    if has_callback {
        Channel::Callback
    } else if mode.silent {
        Channel::Silent
    } else {
        Channel::Terminal
    }
}

/// Where output goes.
pub fn channel(has_callback: bool, mode: &OutputMode) -> (r: Channel)
    ensures
        r == spec_channel(has_callback, *mode),
{
    if has_callback {
        Channel::Callback
    } else if mode.silent {
        Channel::Silent
    } else {
        Channel::Terminal
    }
}

/// Returns `true` when terminal output should be rendered directly by this
/// crate (CLI-style behavior).
pub fn use_terminal_output(has_callback: bool, mode: &OutputMode) -> (r: bool)
    ensures
        r == (spec_channel(has_callback, *mode) is Terminal),
{
    !has_callback && !silent_output_enabled(mode)
}

/// The `Log` event for the callback, where there is one.  Without one there is
/// nothing to do: the caller is responsible for any terminal output.
pub fn report(has_callback: bool, msg: String, tag: LogTag) -> (r: Option<ProbeEvent>)
    ensures
        has_callback ==> r == Some(ProbeEvent::Log { msg, tag }),
        !has_callback ==> r is None,
{
    if has_callback {
        Some(ProbeEvent::Log { msg, tag })
    } else {
        None
    }
}

/// The terminal is used exactly where there is neither a callback nor silence, and a
/// callback gets everything.
pub proof fn law_silence_and_callbacks(has_callback: bool, mode: OutputMode)
    ensures
        spec_channel(has_callback, mode) is Terminal <==> !has_callback && !mode.silent,
        spec_channel(has_callback, mode) is Callback <==> has_callback,
{
}

} // verus!
