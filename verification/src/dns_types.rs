//! Types shared by the DNS wire codec.
//!
//! Names are byte strings in dotted text form (`a.example.com.`); payloads
//! are raw bytes carried in base32 labels or TXT character-strings.

use vstd::prelude::*;

verus! {

/// RR type code for A records.
pub const RR_A: u16 = 1;

/// RR type code for TXT records, the carrier of tunnel payloads.
pub const RR_TXT: u16 = 16;

/// RR type code for the EDNS0 OPT pseudo-record.
pub const RR_OPT: u16 = 41;

/// The IN class.
pub const CLASS_IN: u16 = 1;

/// UDP payload size advertised in the OPT record.
pub const EDNS_UDP_PAYLOAD: u16 = 1232;

/// Response codes the codec produces or echoes.
#[derive(Debug, Clone, Copy, PartialEq, Eq, Structural)]
pub enum Rcode {
    NoError,
    FormatError,
    ServerFailure,
    NameError,
}

impl Rcode {
    /// The wire value of this response code.
    pub open spec fn spec_to_u8(self) -> u8 {
        match self {
            Rcode::NoError => 0,
            Rcode::FormatError => 1,
            Rcode::ServerFailure => 2,
            Rcode::NameError => 3,
        }
    }

    /// Response code to its wire value.
    pub fn to_u8(self) -> (r: u8)
        ensures
            r == self.spec_to_u8(),
    {
        match self {
            Rcode::NoError => 0,
            Rcode::FormatError => 1,
            Rcode::ServerFailure => 2,
            Rcode::NameError => 3,
        }
    }

    /// The response code a wire value denotes, if the codec knows it.
    pub open spec fn spec_from_u8(value: u8) -> Option<Rcode> {
        if value == 0 {
            Some(Rcode::NoError)
        } else if value == 1 {
            Some(Rcode::FormatError)
        } else if value == 2 {
            Some(Rcode::ServerFailure)
        } else if value == 3 {
            Some(Rcode::NameError)
        } else {
            None
        }
    }

    /// Wire value to response code; codes above 3 are unknown here.
    pub fn from_u8(value: u8) -> (r: Option<Rcode>)
        ensures
            r == Rcode::spec_from_u8(value),
    {
        match value {
            0 => Some(Rcode::NoError),
            1 => Some(Rcode::FormatError),
            2 => Some(Rcode::ServerFailure),
            3 => Some(Rcode::NameError),
            _ => None,
        }
    }
}

/// One DNS question: dotted name text, type and class.
#[derive(Debug, Clone)]
pub struct Question {
    pub name: Vec<u8>,
    pub qtype: u16,
    pub qclass: u16,
}

/// A query decoded back into the tunnel payload it carried.
#[derive(Debug, Clone)]
pub struct DecodedQuery {
    pub id: u16,
    pub rd: bool,
    pub cd: bool,
    pub question: Question,
    pub payload: Vec<u8>,
}

/// How a failed query decode is handled: dropped, or answered with a code.
#[derive(Debug, Clone)]
pub enum DecodeQueryError {
    Drop,
    Reply { id: u16, rd: bool, cd: bool, question: Option<Question>, rcode: Rcode },
}

/// Inputs for building one DNS query packet.
#[derive(Debug, Clone)]
pub struct QueryParams {
    pub id: u16,
    pub qname: Vec<u8>,
    pub qtype: u16,
    pub qclass: u16,
    pub rd: bool,
    pub cd: bool,
    pub qdcount: u16,
    pub is_query: bool,
}

/// Inputs for building one DNS response packet.
#[derive(Debug, Clone)]
pub struct ResponseParams {
    pub id: u16,
    pub rd: bool,
    pub cd: bool,
    pub question: Question,
    pub payload: Option<Vec<u8>>,
    pub rcode: Option<Rcode>,
}

/// An error from name encoding or packet building.
#[derive(Debug, Clone)]
pub struct DnsError {
    message: String,
}

impl DnsError {
    /// The description this error carries, as spec text.
    pub closed spec fn spec_message(&self) -> Seq<char> {
        self.message@
    }

    /// Wraps a description of what was rejected.
    pub fn new(message: &str) -> (r: DnsError)
        ensures
            r.spec_message() == message@,
    {
        DnsError { message: message.to_owned() }
    }

    /// The description this error carries.
    pub fn message(&self) -> (r: &String)
        ensures
            r@ == self.spec_message(),
    {
        &self.message
    }
}

} // verus!
