//! A verified implementation of the core of the Point-to-Point Protocol
//! (RFC 1661/1662): HDLC-style framing with byte stuffing and a CRC-16
//! frame check sequence, and the generic option-negotiation state machine
//! shared by the PPP sub-protocols (LCP, IPCP, ...).

pub mod crc;
pub mod frame_reader;
pub mod frame_writer;
pub mod options;
pub mod packet_writer;
pub mod table;

use vstd::prelude::*;

verus! {

/// Errors surfaced by packet parsing and by the writer path.
///
/// `TooShort` covers every malformed-input case (a packet or option shorter
/// than its declared or required minimum); `NoMem` covers exhaustion of an
/// output buffer or of a packet's length field.
#[derive(Debug, Clone, Copy, PartialEq, Eq, Structural)]
pub enum Error {
    TooShort,
    NoMem,
}

/// The code field of a PPP control packet (RFC 1661 §5).
#[derive(Debug, Clone, Copy, PartialEq, Eq, Structural)]
pub enum Code {
    ConfigureReq,
    ConfigureAck,
    ConfigureNack,
    ConfigureRej,
    TerminateReq,
    TerminateAck,
    CodeRej,
    ProtocolRej,
    EchoReq,
    EchoReply,
    Unknown(u8),
}

/// The wire value of a code.
pub open spec fn code_val(c: Code) -> u8 {
    match c {
        Code::ConfigureReq => 1,
        Code::ConfigureAck => 2,
        Code::ConfigureNack => 3,
        Code::ConfigureRej => 4,
        Code::TerminateReq => 5,
        Code::TerminateAck => 6,
        Code::CodeRej => 7,
        Code::ProtocolRej => 8,
        Code::EchoReq => 9,
        Code::EchoReply => 10,
        Code::Unknown(x) => x,
    }
}

/// The code a wire value stands for.
pub open spec fn code_of(x: u8) -> Code {
    if x == 1 {
        Code::ConfigureReq
    } else if x == 2 {
        Code::ConfigureAck
    } else if x == 3 {
        Code::ConfigureNack
    } else if x == 4 {
        Code::ConfigureRej
    } else if x == 5 {
        Code::TerminateReq
    } else if x == 6 {
        Code::TerminateAck
    } else if x == 7 {
        Code::CodeRej
    } else if x == 8 {
        Code::ProtocolRej
    } else if x == 9 {
        Code::EchoReq
    } else if x == 10 {
        Code::EchoReply
    } else {
        Code::Unknown(x)
    }
}

impl Code {
    /// Decode a code field.
    pub fn from_u8(x: u8) -> (r: Code)
        ensures
            r == code_of(x),
    {
        match x {
            1 => Code::ConfigureReq,
            2 => Code::ConfigureAck,
            3 => Code::ConfigureNack,
            4 => Code::ConfigureRej,
            5 => Code::TerminateReq,
            6 => Code::TerminateAck,
            7 => Code::CodeRej,
            8 => Code::ProtocolRej,
            9 => Code::EchoReq,
            10 => Code::EchoReply,
            _ => Code::Unknown(x),
        }
    }

    /// Encode a code field.
    pub fn to_u8(self) -> (r: u8)
        ensures
            r == code_val(self),
    {
        match self {
            Code::ConfigureReq => 1,
            Code::ConfigureAck => 2,
            Code::ConfigureNack => 3,
            Code::ConfigureRej => 4,
            Code::TerminateReq => 5,
            Code::TerminateAck => 6,
            Code::CodeRej => 7,
            Code::ProtocolRej => 8,
            Code::EchoReq => 9,
            Code::EchoReply => 10,
            Code::Unknown(x) => x,
        }
    }
}

/// The 2-byte PPP protocol field a sub-protocol negotiates under
/// (for example `0xC021` for LCP, `0x8021` for IPCP).
#[derive(Debug, Clone, Copy, PartialEq, Eq, Structural)]
pub struct ProtocolType(pub u16);

} // verus!
