//! The pure side of the network devices: the stream client's address, help
//! text and response decoding, and the telemetry cell that the datagram
//! listener fills.
use crate::device::DeviceError;
use crate::text::{decode_or_empty, str_eq, text_or_empty};
use vstd::prelude::*;

verus! {

/// A smart socket reached over the stream protocol at a network address; each
/// request opens a connection of its own.
pub struct TcpSmartSocket {
    address: String,
}

/// The help text on the socket's commands.
pub open spec fn query_doc_text() -> Seq<char> {
    "[Smart socket]\n"@ + "   'SET0' - turn off smart socket\n"@
        + "   'SET1' - turn on smart socket\n"@
        + "   'GET' - get smart socket state and power consumption\n"@
}

impl TcpSmartSocket {
    /// A client of the socket at `address`. No connection is made until a
    /// request.
    pub fn connect(address: &str) -> (r: TcpSmartSocket)
        ensures
            r.address_view() == address@,
    {
        TcpSmartSocket { address: String::from_str(address) }
    }

    /// The address of the remote socket.
    pub closed spec fn address_view(&self) -> Seq<char> {
        self.address@
    }

    /// The address of the remote socket.
    pub fn address(&self) -> (r: &str)
        ensures
            r@ == self.address_view(),
    {
        self.address.as_str()
    }

    /// The commands that the socket understands, one per line.
    pub fn get_query_doc() -> (r: String)
        ensures
            r@ == query_doc_text(),
    {
        let mut r = String::from_str("[Smart socket]\n");
        r.append("   'SET0' - turn off smart socket\n");
        r.append("   'SET1' - turn on smart socket\n");
        r.append("   'GET' - get smart socket state and power consumption\n");
        r
    }

    /// The response text in the bytes read up to the newline: an invalid
    /// encoding gives an empty text.
    pub fn decode_response(buf: &[u8]) -> (r: String)
        ensures
            r@ == text_or_empty(buf@),
    {
        decode_or_empty(buf)
    }
}

/// The text of the error on a thermometer that has no current reading.
pub open spec fn stale_text() -> Seq<char> {
    "Failed to receive a temperature data from UDP socket"@
}

/// The four bytes of a datagram read as a big-endian unsigned integer.
pub open spec fn be_u32(b: Seq<u8>) -> nat
    recommends
        b.len() == 4,
{
    b[0] as nat * 0x1000000 + b[1] as nat * 0x10000 + b[2] as nat * 0x100 + b[3] as nat
}

/// The latest temperature reading, as the bit pattern of the IEEE-754 single
/// that the datagram carried; `None` where the last receive failed or nothing
/// came yet.
pub struct TemperatureData {
    pub reading: Option<u32>,
}

/// The reading after a receive: a datagram's four bytes, or nothing where the
/// receive failed, a timeout included.
pub open spec fn stored_after(prior: Option<u32>, packet: Option<Seq<u8>>) -> Option<u32> {
    match packet {
        Some(b) => Some(be_u32(b) as u32),
        None => None,
    }
}

/// What a status query on a reading gives: the reading, or the staleness text.
pub open spec fn reading_status(reading: Option<u32>) -> Result<u32, Seq<char>> {
    match reading {
        Some(v) => Ok(v),
        None => Err(stale_text()),
    }
}

/// `r` agrees with `expected`, an error being a thermometer error with that text.
pub open spec fn thermo_result_is(r: Result<u32, DeviceError>, expected: Result<u32, Seq<char>>) -> bool {
    match expected {
        Ok(v) => r == Ok::<u32, DeviceError>(v),
        Err(t) => r matches Err(DeviceError::ThermoError(d)) && d@ == t,
    }
}

/// Reads four bytes as a big-endian unsigned integer.
pub fn read_be_u32(b: [u8; 4]) -> (r: u32)
    ensures
        r as nat == be_u32(b@),
{
    (b[0] as u32) * 0x1000000 + (b[1] as u32) * 0x10000 + (b[2] as u32) * 0x100 + (b[3] as u32)
}

impl TemperatureData {
    /// A cell with no reading yet.
    pub fn new() -> (r: TemperatureData)
        ensures
            r.reading is None,
    {
        TemperatureData { reading: None }
    }

    /// The current reading, or a thermometer error saying that no data came.
    pub fn get(&self) -> (r: Result<u32, DeviceError>)
        ensures
            thermo_result_is(r, reading_status(self.reading)),
    {
        match self.reading {
            Some(v) => Ok(v),
            None => Err(
                DeviceError::ThermoError(
                    String::from_str("Failed to receive a temperature data from UDP socket"),
                ),
            ),
        }
    }

    /// Replaces the reading.
    pub fn set(&mut self, value: Option<u32>)
        ensures
            final(self).reading == value,
    {
        self.reading = value;
    }

    /// Records the outcome of one receive: the datagram's bytes, or `None`
    /// where the receive failed or timed out, which makes the reading stale.
    pub fn record(&mut self, packet: Option<[u8; 4]>)
        ensures
            final(self).reading == stored_after(
                old(self).reading,
                match packet {
                    Some(b) => Some(b@),
                    None => None,
                },
            ),
    {
        match packet {
            Some(b) => self.set(Some(read_be_u32(b))),
            None => self.set(None),
        }
    }
}

/// A thermometer's answer to a command: `GET` reads the current reading,
/// `Some` bits or the staleness error; any other command is a no-op whose
/// answer is empty, `None`.
pub fn thermo_execute(data: &TemperatureData, command: &str) -> (r: Result<Option<u32>, DeviceError>)
    ensures
        command@ == "GET"@ ==> match reading_status(data.reading) {
            Ok(v) => r == Ok::<Option<u32>, DeviceError>(Some(v)),
            Err(t) => r matches Err(DeviceError::ThermoError(d)) && d@ == t,
        },
        command@ != "GET"@ ==> r == Ok::<Option<u32>, DeviceError>(None),
{
    if str_eq(command, "GET") {
        match data.get() {
            Ok(v) => Ok(Some(v)),
            Err(e) => Err(e),
        }
    } else {
        Ok(None)
    }
}

/// Once a receive fails, a timeout included, the thermometer's status is the
/// staleness error, whatever reading it held before.
pub proof fn lemma_failed_receive_is_stale(prior: Option<u32>)
    ensures
        reading_status(stored_after(prior, None)) == Err::<u32, Seq<char>>(stale_text()),
{
}

} // verus!
