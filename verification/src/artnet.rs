//! Art-Net output: the ArtDmx packets that carry a DMX frame to a universe.
use vstd::prelude::*;

verus! {

#[verifier::external_type_specification]
#[verifier::external_body]
pub struct ExArtnetError(artnet_protocol::Error);

/// Whether `artnet_protocol::PortAddress::try_from` accepts `universe`; its source accepts
/// exactly 0 to 32767.
#[verifier::external_body]
fn port_address_ok(universe: i32) -> (r: bool)
    ensures
        r == (0 <= universe <= 32767),
{
    artnet_protocol::PortAddress::try_from(universe).is_ok()
}

/// The ArtDmx packet for `data` to port `port`: the `Art-Net` header, the opcode 0x5000 (low
/// byte first), protocol version 14, sequence 0, physical port 0, the port address (low byte
/// first), the data length rounded up to even (high byte first), the data and, for an odd
/// length, a zero byte.
pub open spec fn art_dmx_bytes(data: Seq<u8>, port: u16) -> Seq<u8> {
    let padded = if data.len() % 2 == 1 {
        data.push(0)
    } else {
        data
    };
    seq![
        65u8, 114u8, 116u8, 45u8, 78u8, 101u8, 116u8, 0u8,
        0x00u8, 0x50u8,
        0u8, 14u8,
        0u8,
        0u8,
        (port % 256) as u8, (port / 256) as u8,
        (padded.len() / 256) as u8, (padded.len() % 256) as u8,
    ] + padded
}

/// Writes an `artnet_protocol::Output` with `data` and port address `port` (the other fields
/// at their defaults) with `ArtCommand::write_to_buffer`. Its source refuses data of length 0
/// or over 512, and otherwise writes the bytes of `art_dmx_bytes`.
#[verifier::external_body]
fn output_packet(data: &Vec<u8>, port: u16) -> (r: Result<Vec<u8>, artnet_protocol::Error>)
    requires
        port <= 32767,
    ensures
        match r {
            Ok(bytes) => 0 < data@.len() <= 512 && bytes@ == art_dmx_bytes(data@, port),
            Err(_) => data@.len() == 0 || data@.len() > 512,
        },
{
    let port_address = match artnet_protocol::PortAddress::try_from(port) {
        Ok(p) => p,
        Err(e) => return Err(e),
    };
    let output = artnet_protocol::Output {
        data: artnet_protocol::PaddedData::from(data.clone()),
        port_address,
        ..Default::default()
    };
    artnet_protocol::ArtCommand::Output(output).write_to_buffer()
}

/// Why no packet was made.
#[derive(Debug, Clone, Copy, PartialEq, Eq, Structural)]
pub enum ArtNetError {
    /// The universe is not a port address (0 to 32767).
    InvalidUniverse,
    /// The frame is empty or longer than 512 bytes.
    InvalidData,
}

/// Sends DMX frames to one universe at one address.
pub struct ArtNetSender {
    send_addr: String,
    universe: i32,
}

impl ArtNetSender {
    /// A sender to `send_addr` for `universe`.
    pub fn new(send_addr: &str, universe: i32) -> (r: ArtNetSender)
        ensures
            r.send_addr()@ == send_addr@,
            r.universe() == universe,
    {
        ArtNetSender { send_addr: send_addr.to_owned(), universe }
    }

    /// The address packets go to.
    pub closed spec fn send_addr(&self) -> String {
        self.send_addr
    }

    /// The universe packets go to.
    pub closed spec fn universe(&self) -> i32 {
        self.universe
    }

    /// The address packets go to.
    pub fn addr(&self) -> (r: &String)
        ensures
            *r == self.send_addr(),
    {
        &self.send_addr
    }

    /// The ArtDmx packet that carries `data` to this sender's universe.
    pub fn packet(&self, data: &Vec<u8>) -> (r: Result<Vec<u8>, ArtNetError>)
        ensures
            match r {
                Ok(bytes) => {
                    &&& 0 <= self.universe() <= 32767
                    &&& 0 < data@.len() <= 512
                    &&& bytes@ == art_dmx_bytes(data@, self.universe() as u16)
                },
                Err(ArtNetError::InvalidUniverse) => !(0 <= self.universe() <= 32767),
                Err(ArtNetError::InvalidData) => 0 <= self.universe() <= 32767 && (data@.len() == 0 || data@.len() > 512),
            },
    {
        if !port_address_ok(self.universe) {
            return Err(ArtNetError::InvalidUniverse);
        }
        match output_packet(data, self.universe as u16) {
            Ok(bytes) => Ok(bytes),
            Err(_) => Err(ArtNetError::InvalidData),
        }
    }
}

} // verus!
