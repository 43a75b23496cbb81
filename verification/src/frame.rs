//! Wire framing: each logical message is one line of text, terminated by a
//! newline. Server-to-client broadcast frames carry the sender's address as
//! `[<addr>]:<msg>`; client-to-server frames are the raw input line.

use vstd::prelude::*;
use vstd::string::*;

verus! {

/// The broadcast frame for a message from the peer at `addr`:
/// `[<addr>]:<msg>` followed by the line terminator.
pub open spec fn frame_spec(addr: Seq<char>, msg: Seq<char>) -> Seq<char> {
    seq!['['] + addr + seq![']', ':'] + msg + seq!['\n']
}

/// A message holds no embedded line terminator; the framing depends on it.
pub open spec fn line_ok(msg: Seq<char>) -> bool {
    forall|i: int| 0 <= i < msg.len() ==> msg[i] != '\n'
}

/// Builds the server-to-client broadcast frame `[<addr>]:<msg>\n`.
pub fn frame_line(addr: &str, msg: &str) -> (r: String)
    ensures
        r@ == frame_spec(addr@, msg@),
{
    let mut r = String::from_str("[");
    r.append(addr);
    r.append("]:");
    r.append(msg);
    r.append("\n");
    proof {
        reveal_strlit("[");
        reveal_strlit("]:");
        reveal_strlit("\n");
        assert(r@ =~= frame_spec(addr@, msg@));
    }
    r
}

/// Frames one line of client input for the wire: the text, terminator
/// appended.
pub fn frame_input(msg: &str) -> (r: String)
    ensures
        r@ == msg@.push('\n'),
{
    let mut r = String::from_str(msg);
    r.append("\n");
    proof {
        reveal_strlit("\n");
        assert(r@ =~= msg@.push('\n'));
    }
    r
}

} // verus!
