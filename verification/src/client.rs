//! The client's two concurrent paths over one connection, as pure decision
//! steps. The receive path turns each read outcome into a render or a stop,
//! a hard failure alone raising the one-shot cancellation signal; the send
//! path turns the signal and one line of operator input into the next
//! action: quit, re-prompt on blank input, or one framed write.

use vstd::prelude::*;
use vstd::string::*;
use crate::frame::frame_input;

verus! {

/// Whether `c` has Unicode's White_Space property: the blankness test that
/// trimming operator input applies.
pub open spec fn space_char(c: char) -> bool {
    let u = c as u32;
    u == 0x09 || u == 0x0A || u == 0x0B || u == 0x0C || u == 0x0D || u == 0x20 || u == 0x85
        || u == 0xA0 || u == 0x1680 || (0x2000 <= u && u <= 0x200A) || u == 0x2028 || u == 0x2029
        || u == 0x202F || u == 0x205F || u == 0x3000
}

/// A line is blank when trimming leaves nothing: every character is
/// whitespace (an empty line included).
pub open spec fn is_blank(s: Seq<char>) -> bool {
    forall|i: int| 0 <= i < s.len() ==> space_char(#[trigger] s[i])
}

/// Whether one line of operator input is blank.
pub fn line_is_blank(line: &str) -> (r: bool)
    ensures
        r == is_blank(line@),
{
    let n = line.unicode_len();
    let mut i: usize = 0;
    while i < n
        invariant
            i <= n,
            n == line@.len(),
            forall|j: int| 0 <= j < i ==> space_char(#[trigger] line@[j]),
        decreases n - i,
    {
        let c = line.get_char(i);
        let u = c as u32;
        if !(u == 0x09 || u == 0x0A || u == 0x0B || u == 0x0C || u == 0x0D || u == 0x20
            || u == 0x85 || u == 0xA0 || u == 0x1680 || (0x2000 <= u && u <= 0x200A) || u == 0x2028
            || u == 0x2029 || u == 0x202F || u == 0x205F || u == 0x3000) {
            proof {
                assert(!space_char(line@[i as int]));
            }
            return false;
        }
        i += 1;
    }
    true
}

/// What the send path does with one line of operator input.
pub enum SendAction {
    /// Stop accepting input: the receive path has signalled disconnect.
    Quit,
    /// Write nothing to the network; only prompt for the next line.
    Reprompt,
    /// Write this framed text to the connection.
    Transmit { wire: String },
}

/// One step of the send path. The cancellation signal is checked before the
/// line is processed: set, it stops the path. Blank input produces no
/// outbound write and only re-prompts. Any other line goes out as the raw
/// text with the terminator appended.
pub fn next_send_action(cancelled: bool, line: &str) -> (r: SendAction)
    ensures
        cancelled ==> r is Quit,
        !cancelled && is_blank(line@) ==> r is Reprompt,
        !cancelled && !is_blank(line@) ==> (r matches SendAction::Transmit { wire } && wire@
            == line@.push('\n')),
{
    if cancelled {
        SendAction::Quit
    } else if line_is_blank(line) {
        SendAction::Reprompt
    } else {
        SendAction::Transmit { wire: frame_input(line) }
    }
}

/// What the receive path observed on one read of the server connection.
pub enum RecvEvent {
    /// A complete broadcast frame line.
    Line { text: String },
    /// No data within the bounded interval: disconnect suspected.
    TimedOut,
    /// A hard read error or end of stream.
    Failed,
}

/// What the receive path does next.
pub enum RecvStep {
    /// Show this text to the operator and resume reading.
    Render { text: String },
    /// Stop reading; leave the send path alone.
    StopQuiet,
    /// Stop reading and raise the one-shot cancellation signal.
    StopSignal,
}

/// One step of the receive path. A received line is rendered unchanged and
/// reading resumes; a timeout ends the path without a signal; a hard error
/// ends it and signals the send path to stop at its next line.
pub fn next_recv_step(event: RecvEvent) -> (r: RecvStep)
    ensures
        (event matches RecvEvent::Line { text } ==> (r matches RecvStep::Render { text: shown }
            && shown@ == text@)),
        event is TimedOut ==> r is StopQuiet,
        event is Failed ==> r is StopSignal,
{
    match event {
        RecvEvent::Line { text } => RecvStep::Render { text },
        RecvEvent::TimedOut => RecvStep::StopQuiet,
        RecvEvent::Failed => RecvStep::StopSignal,
    }
}

} // verus!
