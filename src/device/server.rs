//! The decisions of the stream protocol server: how one read on a connection
//! becomes a command, a change of the shared socket, and a reply.
use crate::device::mock::{apply, lemma_state_round_trip, parse_state, refreshed, SmartSocket};
use crate::text::{decode_or_empty, text_or_empty, trim, trim_text};
use vstd::prelude::*;
use vstd::utf8::{encode_utf8, encode_utf8_decode_utf8, encode_utf8_valid_utf8};

verus! {

/// The size of one frame on the wire; a command must fit in it.
pub const FRAME_SIZE: usize = 10;

/// The command that a frame carries: its text, with NUL padding and then white
/// space removed from both ends; a frame that is not valid UTF-8 carries an
/// empty command.
pub open spec fn frame_command(frame: Seq<u8>) -> Seq<char> {
    trim(trim(text_or_empty(frame), false), true)
}

/// Whether the socket emulation knows the command.
pub open spec fn recognized(command: Seq<char>) -> bool {
    command == "SET1"@ || command == "SET0"@ || command == "GET"@
}

/// What a connection does after one read.
pub enum FrameOutcome {
    /// The peer closed the connection; it ends.
    Disconnect,
    /// The text to write back.
    Reply(String),
}

/// The state of the shared socket and the reply after a frame: the command
/// applied, and its answer with a newline.
pub open spec fn frame_reply(s: SmartSocket, frame: Seq<u8>, draw: u32) -> (SmartSocket, Seq<char>) {
    let (t, answer) = apply(s, frame_command(frame), draw);
    (t, answer + "\n"@)
}

/// Decodes the command in a frame.
pub fn parse_frame(frame: &[u8]) -> (r: String)
    ensures
        r@ == frame_command(frame@),
{
    let text = decode_or_empty(frame);
    let unpadded = trim_text(text.as_str(), false);
    trim_text(unpadded.as_str(), true)
}

/// Handles one read of `n_read` bytes into `frame` on a connection to the
/// shared socket, with `draw` as the random source of the power update. A read
/// of no bytes means the peer left: the socket is untouched. Otherwise the
/// frame's command is applied and the answer, newline-terminated, is the reply.
pub fn handle_frame(device: &mut SmartSocket, frame: &[u8], n_read: usize, draw: u32) -> (r:
    FrameOutcome)
    ensures
        n_read == 0 ==> r is Disconnect && *final(device) == *old(device),
        n_read != 0 ==> (r matches FrameOutcome::Reply(t) && (*final(device), t@) == frame_reply(
            *old(device),
            frame@,
            draw,
        )),
{
    if n_read == 0 {
        return FrameOutcome::Disconnect;
    }
    let command = parse_frame(frame);
    let mut reply = device.execute_with(command.as_str(), draw);
    reply.append("\n");
    FrameOutcome::Reply(reply)
}

/// A command that the socket does not know gets an empty, newline-terminated
/// reply and leaves the switch as it was; a socket that is off is left
/// entirely unchanged. (One that is on gets its power refreshed, as on every
/// command.)
pub proof fn lemma_unknown_command(s: SmartSocket, frame: Seq<u8>, draw: u32)
    requires
        !recognized(frame_command(frame)),
    ensures
        frame_reply(s, frame, draw).1 == "\n"@,
        frame_reply(s, frame, draw).0.enabled == s.enabled,
        !s.enabled ==> frame_reply(s, frame, draw).0 == s,
{
    assert(Seq::<char>::empty() + "\n"@ =~= "\n"@);
}

/// The reply to `GET`, sent as UTF-8 and read back by the client, is the same
/// text, and it decodes to the socket's state after the command.
pub proof fn lemma_get_round_trip(s: SmartSocket, frame: Seq<u8>, draw: u32)
    requires
        frame_command(frame) == "GET"@,
    ensures
        text_or_empty(encode_utf8(frame_reply(s, frame, draw).1)) == frame_reply(s, frame, draw).1,
        parse_state(frame_reply(s, frame, draw).1) == Some(frame_reply(s, frame, draw).0),
        frame_reply(s, frame, draw).0 == refreshed(s, draw),
{
    let reply = frame_reply(s, frame, draw).1;
    encode_utf8_valid_utf8(reply);
    encode_utf8_decode_utf8(reply);
    reveal_strlit("GET");
    reveal_strlit("SET1");
    reveal_strlit("SET0");
    assert("GET"@.len() != "SET1"@.len());
    assert("GET"@.len() != "SET0"@.len());
    lemma_state_round_trip(refreshed(s, draw));
}

} // verus!
