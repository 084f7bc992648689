//! Live MIDI input: recognising the note-on messages that drum pads send.

use vstd::prelude::*;

verus! {

/// A note-on with non-zero velocity: (channel, note, velocity). A note-on with velocity 0
/// means note-off and is not a hit.
pub open spec fn spec_parse_note_on(message: Seq<u8>) -> Option<(u8, u8, u8)> {
    if message.len() < 3 {
        None
    } else if message[0] / 16 == 9 && message[2] > 0 {
        Some(((message[0] % 16) as u8, message[1], message[2]))
    } else {
        None
    }
}

/// Channel, note and velocity of a pad hit message.
pub fn parse_note_on(message: &[u8]) -> (r: Option<(u8, u8, u8)>)
    ensures
        r == spec_parse_note_on(message@),
{
    if message.len() < 3 {
        return None;
    }
    let status = message[0];
    let kind = status & 0xF0;
    let channel = status & 0x0F;
    let note = message[1];
    let velocity = message[2];
    assert(kind == 0x90 <==> status / 16 == 9) by (bit_vector)
        requires
            kind == status & 0xF0,
    ;
    assert(channel == status % 16) by (bit_vector)
        requires
            channel == status & 0x0F,
    ;
    if kind == 0x90 && velocity > 0 {
        Some((channel, note, velocity))
    } else {
        None
    }
}

} // verus!
