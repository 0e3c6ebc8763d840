//! Progress of a transfer, for a callback or for the terminal.

use vstd::prelude::*;

use crate::event::{channel, spec_channel, Channel, LogTag, OutputMode, ProbeEvent};

verus! {

/// What has to be shown or told after a step.
#[derive(Debug)]
pub enum ProgressOutput {
    /// Hand this to the callback.
    Event(ProbeEvent),
    /// Move the bar on by so many bytes.
    Advance(u64),
    /// End the bar with this message.
    Finish(String),
    /// Leave the bar where it is, with this message.
    Abandon(String),
    /// Nothing.
    Nothing,
}

/// A count of bytes, of a total that may be known, and where it is told.
#[derive(Debug, Clone, Copy, PartialEq, Eq, Structural)]
pub struct ProgressReporter {
    pub channel: Channel,
    pub written: u64,
    pub total: Option<u64>,
}

impl ProgressReporter {
    /// Determinate reporter for a known total byte count.
    pub fn progress(has_callback: bool, mode: &OutputMode, total: u64) -> (r: ProgressReporter)
        ensures
            r == (ProgressReporter {
                channel: spec_channel(has_callback, *mode),
                written: 0,
                total: Some(total),
            }),
    {
        ProgressReporter { channel: channel(has_callback, mode), written: 0, total: Some(total) }
    }

    /// Indeterminate reporter (spinner) for an unknown total byte count.
    pub fn spinner(has_callback: bool, mode: &OutputMode) -> (r: ProgressReporter)
        ensures
            r == (ProgressReporter {
                channel: spec_channel(has_callback, *mode),
                written: 0,
                total: None,
            }),
    {
        ProgressReporter { channel: channel(has_callback, mode), written: 0, total: None }
    }

    /// Increment the bytes-written counter and emit a progress event.
    pub fn inc(&mut self, n: u64) -> (r: ProgressOutput)
        requires
            old(self).written + n <= u64::MAX,
        ensures
            *final(self) == (ProgressReporter { written: (old(self).written + n) as u64, ..*old(self)
            }),
            r == (match old(self).channel {
                Channel::Callback => ProgressOutput::Event(
                    ProbeEvent::Progress {
                        written: (old(self).written + n) as u64,
                        total: old(self).total,
                    },
                ),
                Channel::Terminal => ProgressOutput::Advance(n),
                Channel::Silent => ProgressOutput::Nothing,
            }),
    {
        self.written += n;
        match self.channel {
            Channel::Callback => ProgressOutput::Event(
                ProbeEvent::Progress { written: self.written, total: self.total },
            ),
            Channel::Terminal => ProgressOutput::Advance(n),
            Channel::Silent => ProgressOutput::Nothing,
        }
    }

    /// Emit a success completion message.
    pub fn finish(&self, msg: String) -> (r: ProgressOutput)
        ensures
            r == (match self.channel {
                Channel::Callback => ProgressOutput::Event(
                    ProbeEvent::Log { msg, tag: LogTag::Success },
                ),
                Channel::Terminal => ProgressOutput::Finish(msg),
                Channel::Silent => ProgressOutput::Nothing,
            }),
    {
        match self.channel {
            Channel::Callback => ProgressOutput::Event(ProbeEvent::Log { msg, tag: LogTag::Success }),
            Channel::Terminal => ProgressOutput::Finish(msg),
            Channel::Silent => ProgressOutput::Nothing,
        }
    }

    /// Emit a failure/abandon message.
    pub fn abandon(&self, msg: String) -> (r: ProgressOutput)
        ensures
            r == (match self.channel {
                Channel::Callback => ProgressOutput::Event(
                    ProbeEvent::Log { msg, tag: LogTag::Error },
                ),
                Channel::Terminal => ProgressOutput::Abandon(msg),
                Channel::Silent => ProgressOutput::Nothing,
            }),
    {
        match self.channel {
            Channel::Callback => ProgressOutput::Event(ProbeEvent::Log { msg, tag: LogTag::Error }),
            Channel::Terminal => ProgressOutput::Abandon(msg),
            Channel::Silent => ProgressOutput::Nothing,
        }
    }
}

// ---------------------------------------------------------------------------
// Spinner
// ---------------------------------------------------------------------------

/// The spinner's pictures: braille where the terminal shows Unicode, else ASCII.
pub open spec fn ticks(unicode: bool) -> Seq<Seq<char>> {
    if unicode {
        seq![
            "⠋"@,
            "⠙"@,
            "⠹"@,
            "⠸"@,
            "⠼"@,
            "⠴"@,
            "⠦"@,
            "⠧"@,
            "⠇"@,
            "⠏"@,
            "✓"@,
        ]
    } else {
        seq!["-"@, "\\"@, "|"@, "/"@, "+"@]
    }
}

/// Return the spinner tick strings appropriate for the current terminal.
///
/// Uses braille characters (U+2800 block) + `✓` when the terminal reports
/// Unicode support; falls back to ASCII `-\|/+` otherwise.
pub fn tick_chars(unicode: bool) -> (r: Vec<&'static str>)
    ensures
        r@.map_values(|s: &'static str| s@) == ticks(unicode),
{
    let mut r: Vec<&'static str> = Vec::new();
    if unicode {
        r.push("⠋");
        r.push("⠙");
        r.push("⠹");
        r.push("⠸");
        r.push("⠼");
        r.push("⠴");
        r.push("⠦");
        r.push("⠧");
        r.push("⠇");
        r.push("⠏");
        r.push("✓");
    } else {
        r.push("-");
        r.push("\\");
        r.push("|");
        r.push("/");
        r.push("+");
    }
    assert(r@.map_values(|s: &'static str| s@) =~= ticks(unicode));
    r
}

/// Where the terminal shows Unicode, the spinner has ten braille pictures and a tick at the
/// end; elsewhere it has five ASCII ones.
pub proof fn law_spinner_pictures()
    ensures
        ticks(true).len() == 11,
        forall|i: int|
            0 <= i < 10 ==> (#[trigger] ticks(true)[i]).len() == 1 && 0x2800 <= ticks(
                true,
            )[i][0] as int <= 0x28FF,
        ticks(true)[10] == "✓"@,
        ticks(false).len() == 5,
        ticks(false)[0] == "-"@,
        ticks(false)[1] == "\\"@,
        ticks(false)[2] == "|"@,
        ticks(false)[3] == "/"@,
        ticks(false)[4] == "+"@,
{
    reveal_strlit("⠋");
    reveal_strlit("⠙");
    reveal_strlit("⠹");
    reveal_strlit("⠸");
    reveal_strlit("⠼");
    reveal_strlit("⠴");
    reveal_strlit("⠦");
    reveal_strlit("⠧");
    reveal_strlit("⠇");
    reveal_strlit("⠏");
}

} // verus!
