//! What the fridge's serial link says: text chunks, and whether one reports
//! the door open.

use vstd::prelude::*;
use vstd::utf8::{decode_utf8, valid_utf8};
use crate::text::{trim, trim_str};

verus! {

/// The serial device the fridge talks on.
pub fn port_name() -> (s: &'static str)
    ensures
        s@ == "/dev/rfcomm0"@,
{
    "/dev/rfcomm0"
}

/// The baud rate of the fridge's serial link.
pub const BAUD_RATE: u32 = 112500;

/// How long, in milliseconds, one read of the serial link waits.
pub const READ_TIMEOUT_MILLIS: u64 = 10;

/// What the fridge sends when its door opens.
pub open spec fn open_signal() -> Seq<char> {
    "OPEN!"@
}

/// One chunk read from the serial link.
#[derive(Debug)]
pub enum SerialReading {
    /// The chunk is UTF-8 text; `text` is it trimmed of whitespace.
    Text { text: String, fridge_open: bool },
    /// The chunk is not UTF-8.
    NotText,
}

/// `str::from_utf8`: the text that the bytes encode, if they are UTF-8.
/// Trusted to return text exactly when the bytes are valid UTF-8, and then
/// the characters they decode to.
#[verifier::external_body]
fn utf8_text(bytes: &[u8]) -> (r: Option<&str>)
    ensures
        r is Some <==> valid_utf8(bytes@),
        r matches Some(s) ==> s@ == decode_utf8(bytes@),
{
    std::str::from_utf8(bytes).ok()
}

/// Reads one chunk from the serial link: its text, trimmed, and whether it
/// is the door-open signal.
pub fn read_serial_chunk(chunk: &[u8]) -> (r: SerialReading)
    ensures
        r is NotText <==> !valid_utf8(chunk@),
        r matches SerialReading::Text { text, fridge_open } ==> {
            &&& text@ == trim(decode_utf8(chunk@))
            &&& fridge_open == (text@ == open_signal())
        },
{
    match utf8_text(chunk) {
        Some(s) => {
            let text = trim_str(s);
            let signal = String::from_str("OPEN!");
            let fridge_open = text == signal;
            SerialReading::Text { text, fridge_open }
        },
        None => SerialReading::NotText,
    }
}

} // verus!
