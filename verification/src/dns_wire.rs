//! Fixed-width wire primitives and the DNS header.

use vstd::prelude::*;
use crate::dns_types::{DecodeQueryError, DnsError, Question, Rcode};
use crate::dns_name::{labels_text, plain_name_at, parse_name};

verus! {

/// Big-endian pairing of two bytes.
pub open spec fn be16(hi: u8, lo: u8) -> u16 {
    ((hi as int) * 256 + (lo as int)) as u16
}

/// The two big-endian bytes of a 16-bit value.
pub open spec fn u16_bytes(v: u16) -> Seq<u8> {
    seq![(v / 256) as u8, (v % 256) as u8]
}

/// The four big-endian bytes of a 32-bit value.
pub open spec fn u32_bytes(v: u32) -> Seq<u8> {
    seq![
        (v / 0x1000000) as u8,
        ((v / 0x10000) % 256) as u8,
        ((v / 256) % 256) as u8,
        (v % 256) as u8,
    ]
}

/// What `read_u16` returns on a byte string.
pub open spec fn spec_read_u16(packet: Seq<u8>, offset: int) -> Option<u16> {
    if 0 <= offset && offset + 2 <= packet.len() {
        Some(be16(packet[offset], packet[offset + 1]))
    } else {
        None
    }
}

/// Reads a big-endian 16-bit value, if the packet holds two bytes there.
pub fn read_u16(packet: &[u8], offset: usize) -> (r: Option<u16>)
    ensures
        r == spec_read_u16(packet@, offset as int),
{
    if offset >= packet.len() || packet.len() - offset < 2 {
        return None;
    }
    Some((packet[offset] as u16) * 256 + (packet[offset + 1] as u16))
}

/// What `read_u32` returns on a byte string.
pub open spec fn spec_read_u32(packet: Seq<u8>, offset: int) -> Option<u32> {
    if 0 <= offset && offset + 4 <= packet.len() {
        let b2 = packet[offset + 2];
        let b3 = packet[offset + 3];
        Some(
            ((packet[offset] as int) * 0x1000000 + (packet[offset + 1] as int) * 0x10000 + (
            b2 as int) * 256 + (b3 as int)) as u32,
        )
    } else {
        None
    }
}

/// Reads a big-endian 32-bit value, if the packet holds four bytes there.
pub fn read_u32(packet: &[u8], offset: usize) -> (r: Option<u32>)
    ensures
        r == spec_read_u32(packet@, offset as int),
{
    if offset >= packet.len() || packet.len() - offset < 4 {
        return None;
    }
    Some(
        (packet[offset] as u32) * 0x1000000 + (packet[offset + 1] as u32) * 0x10000 + (packet[offset
            + 2] as u32) * 256 + (packet[offset + 3] as u32),
    )
}

/// Appends the two big-endian bytes of `value`.
pub fn write_u16(out: &mut Vec<u8>, value: u16)
    ensures
        final(out)@ == old(out)@ + u16_bytes(value),
{
    out.push((value / 256) as u8);
    out.push((value % 256) as u8);
    proof {
        assert(out@ =~= old(out)@ + u16_bytes(value));
    }
}

/// Appends the four big-endian bytes of `value`.
pub fn write_u32(out: &mut Vec<u8>, value: u32)
    ensures
        final(out)@ == old(out)@ + u32_bytes(value),
{
    out.push((value / 0x1000000) as u8);
    out.push(((value / 0x10000) % 256) as u8);
    out.push(((value / 256) % 256) as u8);
    out.push((value % 256) as u8);
    proof {
        assert(out@ =~= old(out)@ + u32_bytes(value));
    }
}

/// Round trip of the 16-bit codec: reading back two written bytes.
pub proof fn lemma_u16_bytes_be16(v: u16)
    ensures
        be16(u16_bytes(v)[0], u16_bytes(v)[1]) == v,
{
}

/// The fixed DNS header, as the codec reads it.
#[derive(Debug, Clone, Copy)]
pub struct Header {
    pub id: u16,
    pub is_response: bool,
    pub rd: bool,
    pub cd: bool,
    pub qdcount: u16,
    pub ancount: u16,
    pub rcode: Option<Rcode>,
    pub offset: usize,
}

/// What `parse_header` returns: the first twelve bytes decoded, or nothing.
pub open spec fn spec_parse_header(packet: Seq<u8>) -> Option<Header> {
    if packet.len() < 12 {
        None
    } else {
        let flags = be16(packet[2], packet[3]);
        Some(
            Header {
                id: be16(packet[0], packet[1]),
                is_response: flags & 0x8000 != 0,
                rd: flags & 0x0100 != 0,
                cd: flags & 0x0010 != 0,
                qdcount: be16(packet[4], packet[5]),
                ancount: be16(packet[6], packet[7]),
                rcode: Rcode::spec_from_u8((flags & 0x000f) as u8),
                offset: 12,
            },
        )
    }
}

/// Decodes the fixed header; packets under twelve bytes are refused.
pub fn parse_header(packet: &[u8]) -> (r: Option<Header>)
    ensures
        r == spec_parse_header(packet@),
{
    if packet.len() < 12 {
        return None;
    }
    let id = match read_u16(packet, 0) {
        Some(v) => v,
        None => { return None; },
    };
    let flags = match read_u16(packet, 2) {
        Some(v) => v,
        None => { return None; },
    };
    let qdcount = match read_u16(packet, 4) {
        Some(v) => v,
        None => { return None; },
    };
    let ancount = match read_u16(packet, 6) {
        Some(v) => v,
        None => { return None; },
    };
    let is_response = flags & 0x8000 != 0;
    let rd = flags & 0x0100 != 0;
    let cd = flags & 0x0010 != 0;
    let rcode = Rcode::from_u8((flags & 0x000f) as u8);
    Some(Header { id, is_response, rd, cd, qdcount, ancount, rcode, offset: 12 })
}

/// The question at `o`, where its name is in reach of the plain parser:
/// name text, type, class, and the offset after the question.
pub open spec fn spec_question_at(packet: Seq<u8>, o: int) -> Option<(Seq<u8>, u16, u16, int)> {
    match plain_name_at(packet, o) {
        Some((labels, e)) => if e + 4 <= packet.len() {
            Some(
                (
                    labels_text(labels),
                    spec_read_u16(packet, e)->Some_0,
                    spec_read_u16(packet, e + 2)->Some_0,
                    e + 4,
                ),
            )
        } else {
            None
        },
        None => None,
    }
}

/// Reads one question: a name followed by type and class.
pub fn parse_question(packet: &[u8], offset: usize) -> (r: Result<(Question, usize), DnsError>)
    ensures
        spec_question_at(packet@, offset as int) matches Some(q) ==> r matches Ok(t) && t.0.name@
            == q.0 && t.0.qtype == q.1 && t.0.qclass == q.2 && t.1 == q.3,
        r matches Ok(t) ==> t.1 <= packet@.len(),
{
    let (name, mut off) = match parse_name(packet, offset) {
        Ok(t) => t,
        Err(_) => { return Err(DnsError::new("bad name")); },
    };
    if off > packet.len() || packet.len() - off < 4 {
        return Err(DnsError::new("truncated question"));
    }
    let qtype = match read_u16(packet, off) {
        Some(v) => v,
        None => { return Err(DnsError::new("truncated qtype")); },
    };
    off = off + 2;
    let qclass = match read_u16(packet, off) {
        Some(v) => v,
        None => { return Err(DnsError::new("truncated qclass")); },
    };
    off = off + 2;
    Ok((Question { name, qtype, qclass }, off))
}

/// Reads the first question for an error reply: none when the packet has no
/// question, a decode drop when it is mangled.
pub fn parse_question_for_reply(packet: &[u8], qdcount: u16, offset: usize) -> (r: Result<
    Option<Question>,
    DecodeQueryError,
>)
    ensures
        qdcount == 0 ==> (r matches Ok(q) && q is None),
        (qdcount > 0 && spec_question_at(packet@, offset as int) is Some) ==> (r matches Ok(oq)
            && oq matches Some(pq) && pq.name@ == spec_question_at(packet@, offset as int)->Some_0.0
            && pq.qtype == spec_question_at(packet@, offset as int)->Some_0.1 && pq.qclass
            == spec_question_at(packet@, offset as int)->Some_0.2),
        r matches Err(e) ==> e is Drop,
{
    if qdcount == 0 {
        return Ok(None);
    }
    match parse_question(packet, offset) {
        Ok((question, _)) => Ok(Some(question)),
        Err(_) => Err(DecodeQueryError::Drop),
    }
}

} // verus!
