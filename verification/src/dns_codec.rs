//! The DNS packet codec: tunnel payloads in and out of TXT queries and
//! responses.
//!
//! A query carries its payload base32-encoded in the labels of a subdomain
//! under a configured apex; a response carries its payload as the TXT
//! character-strings of a single answer.

use vstd::prelude::*;
use vstd::arithmetic::div_mod::{lemma_fundamental_div_mod, lemma_mod_division_less_than_divisor};
use vstd::arithmetic::mul::lemma_mul_inequality;
use crate::bytestr::{
    lemma_lower_concat, lemma_trim_concat, lemma_trim_fixed, lemma_trim_push_dot,
    lemma_trim_dots_no_trailing, lower_seq,
};
use crate::bytestr::ends_with;
use crate::dns_name::{
    labels_sized, labels_text, labels_text_ne, lemma_parse_of_wire, name_len, apex_match,
    spec_best_apex,
};
use crate::dots::{
    dotless, lemma_dotify_len_bound, lemma_split_dot_concat, lemma_split_dotify,
    lemma_text_of_split, lemma_undotify_dotify,
};
use crate::base32::{lemma_b32_encode_dotless, lemma_b32_encode_len, lemma_b32_round_trip};
use crate::base32;
use crate::bytestr::{DOT, to_vec_bytes, trim_dots, trim_dots_len};
use crate::dots;
use crate::dns_name::{
    encodable_name, encode_name, labels_wire, split_dot, spec_extract_subdomain,
    spec_extract_multi, extract_subdomain_multi,
};
use crate::dns_types::{
    DecodeQueryError, DecodedQuery, DnsError, QueryParams, Question, Rcode, ResponseParams,
    EDNS_UDP_PAYLOAD, RR_OPT, RR_TXT,
};
use crate::dns_wire::{
    parse_header, parse_question, parse_question_for_reply, read_u16, read_u32, spec_parse_header,
    spec_question_at, spec_read_u16, u16_bytes, u32_bytes, write_u16, write_u32,
};
use crate::dns_name::{plain_name_at, pointer_name_at, pointer_target, parse_name};

verus! {

/// The EDNS0 OPT record appended to every packet.
pub open spec fn opt_record() -> Seq<u8> {
    seq![0u8] + u16_bytes(RR_OPT) + u16_bytes(EDNS_UDP_PAYLOAD) + u32_bytes(0) + u16_bytes(0)
}

/// Appends the OPT pseudo-record.
fn encode_opt_record(out: &mut Vec<u8>) -> (r: Result<(), DnsError>)
    ensures
        r is Ok,
        final(out)@ == old(out)@ + opt_record(),
{
    out.push(0);
    write_u16(out, RR_OPT);
    write_u16(out, EDNS_UDP_PAYLOAD);
    write_u32(out, 0);
    write_u16(out, 0);
    proof {
        assert(out@ =~= old(out)@ + opt_record());
    }
    Ok(())
}

/// The header flags of a query with the given bits.
pub open spec fn spec_query_flags(is_query: bool, rd: bool, cd: bool) -> u16 {
    (if !is_query {
        0x8000u16
    } else {
        0u16
    }) | (if rd {
        0x0100u16
    } else {
        0u16
    }) | (if cd {
        0x0010u16
    } else {
        0u16
    })
}

/// The wire form of a name already in dotted text.
pub open spec fn name_wire(qname: Seq<u8>) -> Seq<u8> {
    if qname == seq![DOT] {
        seq![0u8]
    } else {
        labels_wire(split_dot(trim_dots(qname)))
    }
}

/// The bytes of a whole query packet.
pub open spec fn spec_encode_query(p: QueryParams) -> Seq<u8> {
    u16_bytes(p.id) + u16_bytes(spec_query_flags(p.is_query, p.rd, p.cd)) + u16_bytes(p.qdcount)
        + u16_bytes(0) + u16_bytes(0) + u16_bytes(1) + (if p.qdcount > 0 {
        name_wire(p.qname@) + u16_bytes(p.qtype) + u16_bytes(p.qclass)
    } else {
        Seq::empty()
    }) + opt_record()
}

/// Builds one DNS query packet around the prepared name.
pub fn encode_query(params: &QueryParams) -> (r: Result<Vec<u8>, DnsError>)
    ensures
        r is Ok <==> (params.qdcount == 0 || encodable_name(params.qname@)),
        r matches Ok(v) ==> v@ == spec_encode_query(*params),
{
    let mut out: Vec<u8> = Vec::new();
    let fa: u16 = if !params.is_query {
        0x8000
    } else {
        0
    };
    let fb: u16 = if params.rd {
        0x0100
    } else {
        0
    };
    let fc: u16 = if params.cd {
        0x0010
    } else {
        0
    };
    let flags: u16 = fa | fb | fc;
    proof {
        assert(flags == spec_query_flags(params.is_query, params.rd, params.cd));
    }
    write_u16(&mut out, params.id);
    write_u16(&mut out, flags);
    write_u16(&mut out, params.qdcount);
    write_u16(&mut out, 0);
    write_u16(&mut out, 0);
    write_u16(&mut out, 1);
    if params.qdcount > 0 {
        match encode_name(params.qname.as_slice(), &mut out) {
            Ok(()) => {},
            Err(e) => {
                return Err(e);
            },
        }
        write_u16(&mut out, params.qtype);
        write_u16(&mut out, params.qclass);
    }
    match encode_opt_record(&mut out) {
        Ok(()) => {},
        Err(e) => {
            return Err(e);
        },
    }
    proof {
        assert(out@ =~= spec_encode_query(*params));
    }
    Ok(out)
}

/// The payload cut into TXT character-strings of at most 255 bytes each.
pub open spec fn txt_chunks(payload: Seq<u8>) -> Seq<u8>
    decreases payload.len(),
{
    if payload.len() == 0 {
        Seq::empty()
    } else {
        let c = if payload.len() > 255 {
            255int
        } else {
            payload.len() as int
        };
        seq![c as u8] + payload.take(c) + txt_chunks(payload.skip(c))
    }
}

/// How many character-strings the payload needs.
pub open spec fn chunk_count(len: int) -> int {
    (len + 254) / 255
}

/// The response code a response is built with, given its inputs.
pub open spec fn spec_response_rcode(p: ResponseParams) -> Rcode {
    match p.rcode {
        Some(rc) => rc,
        None => if payload_len_of(p) > 0 {
            Rcode::NoError
        } else {
            Rcode::NameError
        },
    }
}

/// The payload length a response carries, counting a missing payload as zero.
pub open spec fn payload_len_of(p: ResponseParams) -> int {
    match p.payload {
        Some(pl) => pl@.len() as int,
        None => 0,
    }
}

/// Whether the response carries one TXT answer.
pub open spec fn spec_response_has_answer(p: ResponseParams) -> bool {
    payload_len_of(p) > 0 && spec_response_rcode(p) == Rcode::NoError
}

/// The header flags of a response: QR and AA set, RD and CD echoed, and the
/// response code in the low bits.
pub open spec fn spec_response_flags(p: ResponseParams) -> u16 {
    (0x8400u16 | (if p.rd {
        0x0100u16
    } else {
        0u16
    }) | (if p.cd {
        0x0010u16
    } else {
        0u16
    }) | (spec_response_rcode(p).spec_to_u8() as u16))
}

/// The bytes of a whole response packet.
pub open spec fn spec_encode_response(p: ResponseParams) -> Seq<u8> {
    u16_bytes(p.id) + u16_bytes(spec_response_flags(p)) + u16_bytes(1) + u16_bytes(
        if spec_response_has_answer(p) {
            1u16
        } else {
            0u16
        },
    ) + u16_bytes(0) + u16_bytes(1) + name_wire(p.question.name@) + u16_bytes(p.question.qtype)
        + u16_bytes(p.question.qclass) + (if spec_response_has_answer(p) {
        seq![0xC0u8, 0x0Cu8] + u16_bytes(p.question.qtype) + u16_bytes(p.question.qclass)
            + u32_bytes(60) + u16_bytes((payload_len_of(p) + chunk_count(payload_len_of(p))) as u16)
            + txt_chunks(p.payload->Some_0@)
    } else {
        Seq::empty()
    }) + opt_record()
}

/// Builds one DNS response packet; a payload too long for a 16-bit RDATA
/// length is refused.
pub fn encode_response(params: &ResponseParams) -> (r: Result<Vec<u8>, DnsError>)
    ensures
        r is Ok <==> encodable_name(params.question.name@) && (spec_response_has_answer(*params)
            ==> payload_len_of(*params) + chunk_count(payload_len_of(*params)) <= 0xFFFF),
        r matches Ok(v) ==> v@ == spec_encode_response(*params),
{
    let payload_len: usize = match &params.payload {
        Some(p) => p.len(),
        None => 0,
    };
    let rcode: Rcode = match params.rcode {
        Some(rc) => rc,
        None => if payload_len > 0 {
            Rcode::NoError
        } else {
            Rcode::NameError
        },
    };
    let has_answer: bool = payload_len > 0 && rcode == Rcode::NoError;
    let ancount: u16 = if has_answer {
        1
    } else {
        0
    };
    let mut out: Vec<u8> = Vec::new();
    let fb: u16 = if params.rd {
        0x0100
    } else {
        0
    };
    let fc: u16 = if params.cd {
        0x0010
    } else {
        0
    };
    let flags: u16 = 0x8400 | fb | fc | (rcode.to_u8() as u16);
    proof {
        assert(flags == spec_response_flags(*params));
    }
    write_u16(&mut out, params.id);
    write_u16(&mut out, flags);
    write_u16(&mut out, 1);
    write_u16(&mut out, ancount);
    write_u16(&mut out, 0);
    write_u16(&mut out, 1);
    match encode_name(params.question.name.as_slice(), &mut out) {
        Ok(()) => {},
        Err(e) => {
            return Err(e);
        },
    }
    write_u16(&mut out, params.question.qtype);
    write_u16(&mut out, params.question.qclass);
    if has_answer {
        out.push(0xC0);
        out.push(0x0C);
        write_u16(&mut out, params.question.qtype);
        write_u16(&mut out, params.question.qclass);
        write_u32(&mut out, 60);
        if payload_len > 0xFFFF {
            proof {
                assert(payload_len_of(*params) + chunk_count(payload_len_of(*params)) > 0xFFFF);
            }
            return Err(DnsError::new("payload too long"));
        }
        let cc: usize = (payload_len + 254) / 255;
        if payload_len + cc > 0xFFFF {
            return Err(DnsError::new("payload too long"));
        }
        write_u16(&mut out, (payload_len + cc) as u16);
        let payload: &Vec<u8> = match &params.payload {
            Some(p) => p,
            None => {
                proof {
                    assert(false);
                }
                return Err(DnsError::new("payload too long"));
            },
        };
        let ghost pre_chunks = out@;
        let ghost acc0 = Seq::<u8>::empty();
        let mut cursor: usize = 0;
        let ghost mut acc: Seq<u8> = acc0;
        proof {
            assert(payload@.skip(0) =~= payload@);
            assert(acc + txt_chunks(payload@) =~= txt_chunks(payload@));
        }
        while cursor < payload.len()
            invariant
                cursor <= payload@.len(),
                out@ == pre_chunks + acc,
                acc + txt_chunks(payload@.skip(cursor as int)) == txt_chunks(payload@),
            decreases payload@.len() - cursor,
        {
            let ghost acc_in = acc;
            let remaining = payload.len() - cursor;
            let chunk_len: usize = if remaining > 255 {
                255
            } else {
                remaining
            };
            out.push(chunk_len as u8);
            let chunk_end = cursor + chunk_len;
            let ghost out_mid = out@;
            let mut i: usize = cursor;
            while i < chunk_end
                invariant
                    cursor <= i <= chunk_end,
                    chunk_end <= payload@.len(),
                    out@ == out_mid + payload@.skip(cursor as int).take(chunk_len as int).take(
                        i - cursor,
                    ),
                    chunk_len == chunk_end - cursor,
                decreases chunk_end - i,
            {
                out.push(payload[i]);
                proof {
                    assert(out@ =~= out_mid + payload@.skip(cursor as int).take(
                        chunk_len as int,
                    ).take(i + 1 - cursor));
                }
                i = i + 1;
            }
            proof {
                let sfx = payload@.skip(cursor as int);
                assert(sfx.take(chunk_len as int).take(chunk_len as int) =~= sfx.take(
                    chunk_len as int,
                ));
                assert(txt_chunks(sfx) == seq![chunk_len as u8] + sfx.take(chunk_len as int)
                    + txt_chunks(sfx.skip(chunk_len as int)));
                assert(sfx.skip(chunk_len as int) =~= payload@.skip(cursor + chunk_len));
                acc = acc_in + seq![chunk_len as u8] + sfx.take(chunk_len as int);
                assert(out@ =~= pre_chunks + acc);
                assert(acc + txt_chunks(payload@.skip(cursor + chunk_len)) =~= acc_in + txt_chunks(
                    sfx,
                ));
                assert(acc_in + txt_chunks(sfx) =~= txt_chunks(payload@));
            }
            cursor = cursor + chunk_len;
        }
        proof {
            assert(payload@.skip(payload@.len() as int) =~= Seq::<u8>::empty());
            assert(acc =~= txt_chunks(payload@));
        }
    }
    match encode_opt_record(&mut out) {
        Ok(()) => {},
        Err(e) => {
            return Err(e);
        },
    }
    proof {
        assert(out@ =~= spec_encode_response(*params));
    }
    Ok(out)
}

/// Whether the packet's header marks it as a response.
pub fn is_response(packet: &[u8]) -> (r: bool)
    ensures
        spec_parse_header(packet@) matches Some(h) ==> r == h.is_response,
        spec_parse_header(packet@) is None ==> r == false,
{
    match parse_header(packet) {
        Some(header) => header.is_response,
        None => false,
    }
}

/// Builds the query name: base32 labels of the payload under the apex.
///
/// The name is refused when its text, without trailing dots, would not fit
/// a DNS name.
pub fn build_qname(payload: &[u8], domain: &[u8]) -> (r: Result<Vec<u8>, DnsError>)
    ensures
        r is Ok <==> trim_dots(
            dots::dotify(base32::b32_encode(payload@)) + seq![DOT] + domain@,
        ).len() <= 253,
        r matches Ok(v) ==> v@ == dots::dotify(base32::b32_encode(payload@)) + seq![DOT] + domain@,
{
    let enc = base32::encode(payload);
    let mut out = dots::dotify_bytes(enc.as_slice());
    out.push(DOT);
    let mut i: usize = 0;
    let ghost mid = out@;
    while i < domain.len()
        invariant
            i <= domain@.len(),
            out@ == mid + domain@.take(i as int),
        decreases domain@.len() - i,
    {
        out.push(domain[i]);
        proof {
            assert(out@ =~= mid + domain@.take(i + 1));
        }
        i = i + 1;
    }
    proof {
        assert(out@ =~= dots::dotify(base32::b32_encode(payload@)) + seq![DOT] + domain@);
    }
    let t_len = trim_dots_len(out.as_slice());
    if t_len > 253 {
        return Err(DnsError::new("name too long"));
    }
    Ok(out)
}

/// Decodes one inbound packet as a tunnel query against the apex set.
///
/// The contract pins the outcome wherever the question name is in reach of
/// the plain parser; a packet below a whole header is dropped.
pub fn decode_query_with_domains(packet: &[u8], domains: &Vec<Vec<u8>>) -> (r: Result<
    DecodedQuery,
    DecodeQueryError,
>)
    ensures
        spec_parse_header(packet@) is None ==> (r matches Err(e) && e is Drop),
        ({
            let h = spec_parse_header(packet@)->Some_0;
            let q = spec_question_at(packet@, 12);
            spec_parse_header(packet@) is Some && !h.is_response && h.qdcount == 1 && q is Some
        }) ==> ({
            let h = spec_parse_header(packet@)->Some_0;
            let q = spec_question_at(packet@, 12)->Some_0;
            if q.1 != RR_TXT {
                r matches Err(e) && e matches DecodeQueryError::Reply { id, rd, cd, question, rcode }
                    && id == h.id && rd == h.rd && cd == h.cd && rcode == Rcode::NameError
                    && (question matches Some(pq) && pq.name@ == q.0)
            } else {
                match spec_extract_multi(q.0, domains.deep_view()) {
                    Err(rc) => r matches Err(e) && e matches DecodeQueryError::Reply {
                        id,
                        rd,
                        cd,
                        question,
                        rcode,
                    } && id == h.id && rd == h.rd && cd == h.cd && rcode == rc && (question
                        matches Some(pq) && pq.name@ == q.0),
                    Ok(sub) => {
                        let u = dots::undotify(sub);
                        if u.len() == 0 {
                            r matches Err(e) && e matches DecodeQueryError::Reply {
                                id,
                                rd,
                                cd,
                                question,
                                rcode,
                            } && id == h.id && rcode == Rcode::NameError
                        } else {
                            match base32::b32_decode(u) {
                                None => r matches Err(e) && e matches DecodeQueryError::Reply {
                                    id,
                                    rd,
                                    cd,
                                    question,
                                    rcode,
                                } && id == h.id && rcode == Rcode::ServerFailure,
                                Some(p) => r matches Ok(dq) && dq.id == h.id && dq.rd == h.rd
                                    && dq.cd == h.cd && dq.question.name@ == q.0
                                    && dq.question.qtype == q.1 && dq.question.qclass == q.2
                                    && dq.payload@ == p,
                            }
                        }
                    },
                }
            }
        }),
        ({
            let h = spec_parse_header(packet@)->Some_0;
            spec_parse_header(packet@) is Some && (h.is_response || h.qdcount != 1)
        }) ==> (r is Err),
        ({
            let h = spec_parse_header(packet@)->Some_0;
            spec_parse_header(packet@) is Some && (h.is_response || h.qdcount != 1) && h.qdcount
                == 0
        }) ==> (r matches Err(e) && e matches DecodeQueryError::Reply { id, rd, cd, question, rcode }
            && id == spec_parse_header(packet@)->Some_0.id && question is None && rcode
            == Rcode::FormatError),
        ({
            let h = spec_parse_header(packet@)->Some_0;
            spec_parse_header(packet@) is Some && (h.is_response || h.qdcount != 1) && h.qdcount > 0
                && spec_question_at(packet@, 12) is Some
        }) ==> (r matches Err(e) && e matches DecodeQueryError::Reply { id, rd, cd, question, rcode }
            && id == spec_parse_header(packet@)->Some_0.id && rcode == Rcode::FormatError && (
        question matches Some(pq) && pq.name@ == spec_question_at(packet@, 12)->Some_0.0)),
{
    let header = match parse_header(packet) {
        Some(header) => header,
        None => {
            return Err(DecodeQueryError::Drop);
        },
    };
    let rd = header.rd;
    let cd = header.cd;
    if header.is_response {
        let question = match parse_question_for_reply(packet, header.qdcount, header.offset) {
            Ok(q) => q,
            Err(e) => {
                return Err(e);
            },
        };
        return Err(
            DecodeQueryError::Reply { id: header.id, rd, cd, question, rcode: Rcode::FormatError },
        );
    }
    if header.qdcount != 1 {
        let question = match parse_question_for_reply(packet, header.qdcount, header.offset) {
            Ok(q) => q,
            Err(e) => {
                return Err(e);
            },
        };
        return Err(
            DecodeQueryError::Reply { id: header.id, rd, cd, question, rcode: Rcode::FormatError },
        );
    }
    let question = match parse_question(packet, header.offset) {
        Ok((question, _)) => question,
        Err(_) => {
            return Err(DecodeQueryError::Drop);
        },
    };
    if question.qtype != RR_TXT {
        return Err(
            DecodeQueryError::Reply {
                id: header.id,
                rd,
                cd,
                question: Some(question),
                rcode: Rcode::NameError,
            },
        );
    }
    let subdomain_raw = match extract_subdomain_multi(question.name.as_slice(), domains) {
        Ok(sub) => sub,
        Err(rcode) => {
            return Err(
                DecodeQueryError::Reply { id: header.id, rd, cd, question: Some(question), rcode },
            );
        },
    };
    let undotted = dots::undotify_bytes(subdomain_raw.as_slice());
    if undotted.len() == 0 {
        return Err(
            DecodeQueryError::Reply {
                id: header.id,
                rd,
                cd,
                question: Some(question),
                rcode: Rcode::NameError,
            },
        );
    }
    let payload = match base32::decode(undotted.as_slice()) {
        Some(payload) => payload,
        None => {
            return Err(
                DecodeQueryError::Reply {
                    id: header.id,
                    rd,
                    cd,
                    question: Some(question),
                    rcode: Rcode::ServerFailure,
                },
            );
        },
    };
    Ok(DecodedQuery { id: header.id, rd, cd, question, payload })
}

/// Decodes a query against one apex alone.
pub fn decode_query(packet: &[u8], domain: &[u8]) -> (r: Result<DecodedQuery, DecodeQueryError>)
    ensures
        ({
            let h = spec_parse_header(packet@)->Some_0;
            let q = spec_question_at(packet@, 12)->Some_0;
            let su = spec_extract_multi(q.0, seq![domain@])->Ok_0;
            (spec_parse_header(packet@) is Some && !h.is_response && h.qdcount == 1
                && spec_question_at(packet@, 12) is Some && q.1 == RR_TXT && spec_extract_multi(
                q.0,
                seq![domain@],
            ) is Ok && dots::undotify(su).len() > 0 && base32::b32_decode(dots::undotify(su))
                is Some) ==> (r matches Ok(dq) && dq.id == h.id && dq.payload@ == base32::b32_decode(
                dots::undotify(spec_extract_multi(q.0, seq![domain@])->Ok_0),
            )->Some_0 && dq.rd == h.rd && dq.cd == h.cd)
        }),
{
    let mut domains: Vec<Vec<u8>> = Vec::new();
    domains.push(to_vec_bytes(domain));
    proof {
        assert(domains.deep_view() =~~= seq![domain@]);
    }
    decode_query_with_domains(packet, &domains)
}

/// Where a name that the plain parser can speak about ends: directly, or
/// through a single pointer.
pub open spec fn spec_skip_name(packet: Seq<u8>, o: int) -> Option<int> {
    match plain_name_at(packet, o) {
        Some((labels, e)) => Some(e),
        None => match pointer_name_at(packet, o) {
            Some(pr) => Some(o + 2),
            None => None,
        },
    }
}

/// The offset after `n` questions, where their names are in reach.
pub open spec fn spec_skip_questions(packet: Seq<u8>, o: int, n: int) -> Option<int>
    decreases n,
{
    if n <= 0 {
        Some(o)
    } else {
        match spec_skip_name(packet, o) {
            Some(e) => if e + 4 <= packet.len() {
                spec_skip_questions(packet, e + 4, n - 1)
            } else {
                None
            },
            None => None,
        }
    }
}

/// The payload spelled by TXT character-strings in `packet[cursor..]`
/// covering `rem` RDATA bytes.
pub open spec fn spec_txt_join(packet: Seq<u8>, cursor: int, rem: int) -> Option<Seq<u8>>
    decreases rem,
{
    if rem <= 0 {
        Some(Seq::empty())
    } else if cursor < 0 || cursor >= packet.len() {
        None
    } else {
        let tl = packet[cursor] as int;
        if tl > rem - 1 || cursor + 1 + tl > packet.len() {
            None
        } else {
            match spec_txt_join(packet, cursor + 1 + tl, rem - 1 - tl) {
                Some(rest) => Some(packet.subrange(cursor + 1, cursor + 1 + tl) + rest),
                None => None,
            }
        }
    }
}

/// The payload of a response packet, where the codec can speak about it: a
/// clean answer with one TXT record whose strings spell a non-empty payload.
pub open spec fn spec_decode_response(packet: Seq<u8>) -> Option<Seq<u8>> {
    match spec_parse_header(packet) {
        None => None,
        Some(h) => {
            if !h.is_response || h.rcode != Some(Rcode::NoError) || h.ancount != 1 {
                None
            } else {
                match spec_skip_questions(packet, 12, h.qdcount as int) {
                    None => None,
                    Some(o) => match spec_skip_name(packet, o) {
                        None => None,
                        Some(e) => {
                            if e + 10 > packet.len() {
                                None
                            } else {
                                let qtype = spec_read_u16(packet, e)->Some_0;
                                let rdlen = spec_read_u16(packet, e + 8)->Some_0 as int;
                                if e + 10 + rdlen > packet.len() || rdlen < 1 || qtype != RR_TXT {
                                    None
                                } else {
                                    match spec_txt_join(packet, e + 10, rdlen) {
                                        None => None,
                                        Some(out) => if out.len() == 0 {
                                            None
                                        } else {
                                            Some(out)
                                        },
                                    }
                                }
                            }
                        },
                    },
                }
            }
        },
    }
}

/// Whether a response packet's names are all in reach of the plain or
/// single-pointer parser — trivially so when the header already refuses it.
pub open spec fn response_names_in_reach(packet: Seq<u8>) -> bool {
    match spec_parse_header(packet) {
        None => true,
        Some(h) => {
            if !h.is_response || h.rcode != Some(Rcode::NoError) || h.ancount != 1 {
                true
            } else {
                match spec_skip_questions(packet, 12, h.qdcount as int) {
                    None => false,
                    Some(o) => spec_skip_name(packet, o) is Some,
                }
            }
        },
    }
}

/// Reassembles the payload of one TXT answer out of a response packet.
///
/// Wherever the packet's names are in reach of the plain parser, the result
/// is exactly what `spec_decode_response` says — nothing on a refused
/// header, a broken answer or an empty payload, and the payload otherwise.
pub fn decode_response(packet: &[u8]) -> (r: Option<Vec<u8>>)
    ensures
        spec_decode_response(packet@) matches Some(pl) ==> (r matches Some(v) && v@ == pl),
        response_names_in_reach(packet@) ==> (r is None <==> spec_decode_response(packet@)
            is None),
        r matches Some(v) ==> v@.len() > 0,
{
    let ghost sdr = spec_decode_response(packet@);
    let ghost reach = response_names_in_reach(packet@);
    proof {
        if sdr is Some {
            assert(reach);
        }
    }
    let header = match parse_header(packet) {
        Some(h) => h,
        None => {
            proof {
                assert(sdr is None);
            }
            return None;
        },
    };
    if !header.is_response {
        proof {
            assert(sdr is None);
        }
        return None;
    }
    let rcode = match header.rcode {
        Some(rc) => rc,
        None => {
            proof {
                assert(sdr is None);
            }
            return None;
        },
    };
    if rcode != Rcode::NoError {
        proof {
            assert(sdr is None);
        }
        return None;
    }
    if header.ancount != 1 {
        proof {
            assert(sdr is None);
        }
        return None;
    }
    let mut offset: usize = header.offset;
    let mut qi: u16 = 0;
    while qi < header.qdcount
        invariant
            offset <= packet@.len(),
            qi <= header.qdcount,
            spec_parse_header(packet@) == Some(header),
            sdr == spec_decode_response(packet@),
            reach == response_names_in_reach(packet@),
            header.is_response && header.rcode == Some(Rcode::NoError) && header.ancount == 1,
            reach ==> spec_skip_questions(packet@, 12, header.qdcount as int)
                == spec_skip_questions(packet@, offset as int, header.qdcount - qi),
            reach ==> spec_skip_questions(packet@, 12, header.qdcount as int) is Some,
        decreases header.qdcount - qi,
    {
        let ghost off0 = offset as int;
        let (_, new_offset) = match parse_name(packet, offset) {
            Ok(t) => t,
            Err(_) => {
                proof {
                    if reach {
                        assert(spec_skip_name(packet@, off0) is Some);
                    }
                    assert(sdr is None);
                }
                return None;
            },
        };
        proof {
            if reach {
                assert(spec_skip_name(packet@, off0) is Some);
                assert(new_offset == spec_skip_name(packet@, off0)->Some_0);
            }
        }
        offset = new_offset;
        if offset > packet.len() || packet.len() - offset < 4 {
            proof {
                if reach {
                    assert(false);
                }
                assert(sdr is None);
            }
            return None;
        }
        offset = offset + 4;
        qi = qi + 1;
    }
    let ghost o_ans = offset as int;
    proof {
        if reach {
            assert(spec_skip_questions(packet@, o_ans, 0) == Some(o_ans));
            assert(spec_skip_name(packet@, o_ans) is Some);
        }
    }
    let (_, new_offset) = match parse_name(packet, offset) {
        Ok(t) => t,
        Err(_) => {
            proof {
                if reach {
                    assert(false);
                }
                assert(sdr is None);
            }
            return None;
        },
    };
    proof {
        if reach {
            assert(new_offset == spec_skip_name(packet@, o_ans)->Some_0);
        }
    }
    let mut off = new_offset;
    if off > packet.len() || packet.len() - off < 10 {
        proof {
            assert(sdr is None);
        }
        return None;
    }
    let qtype = match read_u16(packet, off) {
        Some(v) => v,
        None => {
            return None;
        },
    };
    let rdlen_u16 = match read_u16(packet, off + 8) {
        Some(v) => v,
        None => {
            return None;
        },
    };
    let rdlen = rdlen_u16 as usize;
    let ghost e_ans = off as int;
    off = off + 10;
    if rdlen > packet.len() - off || rdlen < 1 {
        proof {
            assert(sdr is None);
        }
        return None;
    }
    if qtype != RR_TXT {
        proof {
            assert(sdr is None);
        }
        return None;
    }
    let ghost txt_whole = spec_txt_join(packet@, e_ans + 10, rdlen as int);
    proof {
        if reach {
            assert(sdr == (match txt_whole {
                Option::None => None::<Seq<u8>>,
                Option::Some(o) => if o.len() == 0 {
                    None::<Seq<u8>>
                } else {
                    Some(o)
                },
            }));
        }
    }
    let mut remaining: usize = rdlen;
    let mut cursor: usize = off;
    let mut out: Vec<u8> = Vec::new();
    let ghost mut acc: Seq<u8> = Seq::empty();
    proof {
        if txt_whole is Some {
            assert(Seq::<u8>::empty() + txt_whole->Some_0 =~= txt_whole->Some_0);
        }
    }
    while remaining > 0
        invariant
            cursor + remaining <= packet@.len(),
            out@ == acc,
            sdr == spec_decode_response(packet@),
            reach == response_names_in_reach(packet@),
            txt_whole == spec_txt_join(packet@, e_ans + 10, rdlen as int),
            reach ==> sdr == (match txt_whole {
                Option::None => None::<Seq<u8>>,
                Option::Some(o) => if o.len() == 0 {
                    None::<Seq<u8>>
                } else {
                    Some(o)
                },
            }),
            match spec_txt_join(packet@, cursor as int, remaining as int) {
                Option::Some(rest) => txt_whole == Some(acc + rest),
                Option::None => txt_whole is None,
            },
        decreases remaining,
    {
        let ghost acc_in = acc;
        let ghost cur0 = cursor as int;
        let ghost rem0 = remaining as int;
        let txt_len = packet[cursor] as usize;
        cursor = cursor + 1;
        remaining = remaining - 1;
        if txt_len > remaining {
            proof {
                assert(spec_txt_join(packet@, cur0, rem0) is None);
                assert(txt_whole is None);
                if reach {
                    assert(sdr is None);
                }
            }
            return None;
        }
        let chunk_end = cursor + txt_len;
        let ghost out_mid = out@;
        let mut i: usize = cursor;
        while i < chunk_end
            invariant
                cursor <= i <= chunk_end,
                chunk_end <= packet@.len(),
                out@ == out_mid + packet@.subrange(cursor as int, i as int),
            decreases chunk_end - i,
        {
            out.push(packet[i]);
            proof {
                assert(out@ =~= out_mid + packet@.subrange(cursor as int, i + 1));
            }
            i = i + 1;
        }
        proof {
            acc = acc_in + packet@.subrange(cur0 + 1, cur0 + 1 + txt_len as int);
            assert(out@ =~= acc);
            let inner = spec_txt_join(packet@, cur0 + 1 + txt_len as int, rem0 - 1 - txt_len as int);
            match inner {
                Option::Some(rest) => {
                    assert(spec_txt_join(packet@, cur0, rem0) == Some(
                        packet@.subrange(cur0 + 1, cur0 + 1 + txt_len as int) + rest,
                    ));
                    assert(acc_in + (packet@.subrange(cur0 + 1, cur0 + 1 + txt_len as int) + rest)
                        =~= acc + rest);
                },
                Option::None => {
                    assert(spec_txt_join(packet@, cur0, rem0) is None);
                },
            }
        }
        cursor = cursor + txt_len;
        remaining = remaining - txt_len;
    }
    proof {
        assert(spec_txt_join(packet@, cursor as int, 0) == Some(Seq::<u8>::empty()));
        assert(acc + Seq::<u8>::empty() =~= acc);
        assert(txt_whole == Some(acc));
    }
    if out.len() == 0 {
        proof {
            if reach {
                assert(sdr is None);
            }
            if sdr is Some {
                assert(sdr->Some_0.len() == 0);
            }
        }
        return None;
    }
    Some(out)
}

/// The largest payload one query can carry under an apex of the given
/// trimmed length.
pub open spec fn spec_mtu(domain_len: int) -> int {
    (240 - domain_len) * 5 / 8
}

/// Round trip of the query codec.
///
/// A payload within the apex MTU makes an encodable query name, and the
/// packet built from it hands the same payload back through header parse,
/// question parse, apex stripping, label joining and base32 decoding.
pub proof fn lemma_query_round_trip(p: QueryParams, payload: Seq<u8>, domain: Seq<u8>)
    requires
        1 <= payload.len(),
        1 <= trim_dots(domain).len() < 240,
        payload.len() <= spec_mtu(trim_dots(domain).len() as int),
        labels_sized(split_dot(trim_dots(domain))),
        p.qname@ == dots::dotify(base32::b32_encode(payload)) + seq![DOT] + domain,
        p.qdcount == 1,
        p.is_query == true,
        p.qtype == RR_TXT,
    ensures
        encodable_name(p.qname@),
        spec_parse_header(spec_encode_query(p)) matches Some(h) && h.id == p.id && !h.is_response
            && h.rd == p.rd && h.cd == p.cd && h.qdcount == 1,
        spec_question_at(spec_encode_query(p), 12) matches Some(q) && q.1 == RR_TXT && q.0
            == trim_dots(p.qname@) + seq![DOT],
        spec_extract_multi(
            spec_question_at(spec_encode_query(p), 12)->Some_0.0,
            seq![domain],
        ) matches Ok(su) && dots::undotify(su) == base32::b32_encode(payload) && base32::b32_decode(
            dots::undotify(su),
        ) == Some(payload),
{
    let n = payload.len() as int;
    let d = trim_dots(domain);
    let dlen = d.len() as int;
    let m = 240 - dlen;
    let enc = base32::b32_encode(payload);
    let dotted = dots::dotify(enc);
    let qn = p.qname@;
    let tq = dotted + seq![DOT] + d;

    // The encoded text fits under the apex.
    lemma_b32_encode_len(payload);
    assert(8 * n <= 5 * m) by {
        lemma_fundamental_div_mod(5 * m, 8);
        lemma_mod_division_less_than_divisor(5 * m, 8);
        lemma_mul_inequality(n, 5 * m / 8, 8);
    }
    assert(5 * enc.len() <= 5 * m + 4);
    assert(enc.len() <= m);
    assert(enc.len() >= 2);
    lemma_dotify_len_bound(enc);
    assert(dotted.len() <= enc.len() + 3);
    assert(dotted.len() >= 2);

    // The query name trims to the dotted text under the trimmed apex.
    lemma_trim_dots_no_trailing(domain);
    assert(d.len() > 0 && d.last() != DOT);
    lemma_trim_concat(dotted + seq![DOT], domain);
    assert(qn =~= (dotted + seq![DOT]) + domain);
    assert(trim_dots(qn) == (dotted + seq![DOT]) + d);
    assert(trim_dots(qn) =~= tq);
    assert(tq.len() == dotted.len() + 1 + dlen);
    assert(tq.len() <= 244);

    // Its labels: the dotted chunks, then the apex labels; all sized.
    lemma_split_dot_concat(dotted, d);
    let chunks = split_dot(dotted);
    let dlabels = split_dot(d);
    let whole = split_dot(tq);
    assert(whole == chunks + dlabels);
    lemma_b32_encode_dotless(payload);
    assert(dotless(enc));
    lemma_split_dotify(enc);
    assert(labels_sized(chunks));
    assert(labels_sized(whole)) by {
        assert forall|i: int| 0 <= i < whole.len() implies 1 <= #[trigger] whole[i].len() <= 63 by {
            if i < chunks.len() {
                assert(whole[i] == chunks[i]);
            } else {
                assert(whole[i] == dlabels[i - chunks.len()]);
            }
        }
    }
    lemma_text_of_split(tq);
    assert(name_len(whole) == tq.len());
    assert(qn.len() > 1);
    assert(qn != seq![DOT]) by {
        assert(qn.len() != seq![DOT].len());
    }
    assert(encodable_name(qn));

    // The packet: header, question name on the wire, type, class, OPT.
    let pkt = spec_encode_query(p);
    let flags = spec_query_flags(true, p.rd, p.cd);
    let wire = labels_wire(whole);
    let h6 = u16_bytes(p.id) + u16_bytes(flags) + u16_bytes(1) + u16_bytes(0) + u16_bytes(0)
        + u16_bytes(1);
    let qsec = wire + u16_bytes(RR_TXT) + u16_bytes(p.qclass);
    assert(name_wire(qn) == wire);
    assert(pkt =~= h6 + qsec + opt_record());
    assert(h6.len() == 12);
    assert(wire.len() == labels_wire(whole).len());
    assert(pkt.len() == 12 + qsec.len() + 11);

    // Header fields read back.
    assert(pkt[0] == u16_bytes(p.id)[0] && pkt[1] == u16_bytes(p.id)[1]);
    assert(pkt[2] == u16_bytes(flags)[0] && pkt[3] == u16_bytes(flags)[1]);
    assert(pkt[4] == u16_bytes(1u16)[0] && pkt[5] == u16_bytes(1u16)[1]);
    crate::dns_wire::lemma_u16_bytes_be16(p.id);
    crate::dns_wire::lemma_u16_bytes_be16(flags);
    crate::dns_wire::lemma_u16_bytes_be16(1u16);
    let h = spec_parse_header(pkt)->Some_0;
    assert(h.id == p.id);
    assert(h.qdcount == 1);
    let fb: u16 = if p.rd {
        0x0100u16
    } else {
        0u16
    };
    let fc: u16 = if p.cd {
        0x0010u16
    } else {
        0u16
    };
    assert(flags == 0u16 | fb | fc);
    assert((0u16 | fb | fc) & 0x8000 == 0 && ((0u16 | fb | fc) & 0x0100 != 0 <==> fb == 0x0100)
        && ((0u16 | fb | fc) & 0x0010 != 0 <==> fc == 0x0010)) by (bit_vector)
        requires
            fb == 0x0100u16 || fb == 0u16,
            fc == 0x0010u16 || fc == 0u16,
    ;
    assert(!h.is_response);
    assert(h.rd == p.rd);
    assert(h.cd == p.cd);

    // The question name parses back to the same labels.
    assert(pkt.subrange(12, 12 + wire.len() as int) =~= wire) by {
        assert forall|i: int| 0 <= i < wire.len() implies pkt[12 + i] == wire[i] by {
            assert(pkt[12 + i] == qsec[i]);
        }
    }
    lemma_parse_of_wire(pkt, 12, whole);
    let e = 12 + wire.len() as int;
    assert(plain_name_at(pkt, 12) == Some((whole, e)));
    assert(e + 4 <= pkt.len());
    assert(pkt[e] == qsec[wire.len() as int]);
    assert(pkt[e] == u16_bytes(RR_TXT)[0] && pkt[e + 1] == u16_bytes(RR_TXT)[1]);
    crate::dns_wire::lemma_u16_bytes_be16(RR_TXT);
    let q = spec_question_at(pkt, 12)->Some_0;
    assert(q.1 == RR_TXT);
    assert(whole.len() > 0);
    let qtext = labels_text(whole);
    assert(qtext == labels_text_ne(whole));
    assert(qtext == tq + seq![DOT]);
    assert(q.0 == trim_dots(qn) + seq![DOT]);

    // Apex selection strips the apex and leaves the dotted text.
    lemma_trim_push_dot(tq);
    assert(tq.last() == d.last()) by {
        assert(tq[tq.len() - 1] == d[d.len() - 1]);
    }
    lemma_trim_fixed(tq);
    assert(trim_dots(qtext) == tq);
    let ql = lower_seq(tq);
    lemma_lower_concat(dotted + seq![DOT], d);
    lemma_lower_concat(dotted, seq![DOT]);
    assert(lower_seq(seq![DOT]) =~= seq![DOT]);
    assert(tq =~= (dotted + seq![DOT]) + d);
    assert(ql == (lower_seq(dotted) + seq![DOT]) + lower_seq(d));
    let dl = lower_seq(d);
    assert(ql.len() == dotted.len() + 1 + dlen);
    assert(apex_match(ql, dl)) by {
        assert(ql.skip(ql.len() - dl.len()) =~= dl) by {
            assert forall|i: int| 0 <= i < dl.len() implies ql.skip(ql.len() - dl.len())[i]
                == dl[i] by {
                assert(ql[dotted.len() + 1 + i] == dl[i]);
            }
        }
        assert(ql.len() > dl.len());
        assert(ql[ql.len() - dl.len() - 1] == DOT);
    }
    let doms = seq![domain];
    assert(spec_best_apex(ql, doms, 1) == Some((0int, dlen, ql == dl))) by {
        assert(spec_best_apex(ql, doms, 0) is None);
        assert(trim_dots(doms[0]) == d);
    }
    assert(ql != dl) by {
        assert(ql.len() != dl.len());
    }
    let ex = spec_extract_multi(qtext, doms);
    assert(trim_dots(qtext).len() > 0);
    assert(ex == spec_extract_subdomain(qtext, d)) by {
        lemma_trim_dots_no_trailing(domain);
        assert(trim_dots(doms[0]) == d);
    }

    // The suffix check passes and the take leaves exactly the dotted text.
    let suffix = seq![DOT] + d + seq![DOT];
    assert(trim_dots(d) == d) by {
        lemma_trim_fixed(d);
    }
    assert(spec_extract_subdomain(qtext, d) == Ok::<Seq<u8>, Rcode>(dotted)) by {
        lemma_lower_concat(seq![DOT] + d, seq![DOT]);
        lemma_lower_concat(seq![DOT], d);
        assert(lower_seq(suffix) =~= (seq![DOT] + dl) + seq![DOT]);
        let qlow = lower_seq(qtext);
        lemma_lower_concat(tq, seq![DOT]);
        assert(qlow =~= ql + seq![DOT]);
        assert(ends_with(qlow, lower_seq(suffix))) by {
            assert(qlow.skip(qlow.len() - suffix.len()) =~= lower_seq(suffix)) by {
                assert forall|i: int| 0 <= i < suffix.len() implies qlow.skip(
                    qlow.len() - suffix.len(),
                )[i] == lower_seq(suffix)[i] by {
                    assert(qlow[dotted.len() + i] == lower_seq(suffix)[i]);
                }
            }
        }
        assert(qtext.len() > d.len() + 2);
        assert(qtext.take(qtext.len() - d.len() - 2) =~= dotted);
    }

    // Joining the labels and decoding gives the payload back.
    lemma_undotify_dotify(enc);
    assert(dots::undotify(dotted) == enc);
    lemma_b32_round_trip(payload);
}

/// The TXT character-strings of a payload cover it byte for byte, plus one
/// length byte per chunk.
pub proof fn lemma_txt_chunks_len(payload: Seq<u8>)
    ensures
        txt_chunks(payload).len() == payload.len() + chunk_count(payload.len() as int),
    decreases payload.len(),
{
    if payload.len() == 0 {
        assert(chunk_count(0) == 0);
    } else {
        let n = payload.len() as int;
        let c: int = if n > 255 {
            255
        } else {
            n
        };
        lemma_txt_chunks_len(payload.skip(c));
        if n <= 255 {
            assert(chunk_count(n) == 1) by {
                lemma_fundamental_div_mod_helper_one(n);
            }
        } else {
            assert(chunk_count(n) == 1 + chunk_count(n - 255)) by {
                vstd::arithmetic::div_mod::lemma_fundamental_div_mod(n - 1, 255);
                vstd::arithmetic::div_mod::lemma_mod_division_less_than_divisor(n - 1, 255);
                let q = (n - 1) / 255;
                let r = (n - 1) % 255;
                assert(n + 254 == 255 * (q + 1) + r) by (nonlinear_arith)
                    requires
                        n - 1 == 255 * q + r,
                ;
                vstd::arithmetic::div_mod::lemma_fundamental_div_mod_converse(
                    n + 254,
                    255,
                    q + 1,
                    r,
                );
                assert(n - 255 + 254 == 255 * q + r) by (nonlinear_arith)
                    requires
                        n - 1 == 255 * q + r,
                ;
                vstd::arithmetic::div_mod::lemma_fundamental_div_mod_converse(
                    n - 255 + 254,
                    255,
                    q,
                    r,
                );
            }
        }
    }
}

/// One to 255 bytes make exactly one character-string.
proof fn lemma_fundamental_div_mod_helper_one(n: int)
    requires
        1 <= n <= 255,
    ensures
        (n + 254) / 255 == 1,
{
    vstd::arithmetic::div_mod::lemma_fundamental_div_mod_converse(n + 254, 255, 1, n - 1);
}

/// Joining the character-strings written for a payload gives the payload
/// back.
pub proof fn lemma_txt_join_of_chunks(packet: Seq<u8>, cursor: int, payload: Seq<u8>)
    requires
        0 <= cursor,
        cursor + txt_chunks(payload).len() <= packet.len(),
        packet.subrange(cursor, cursor + txt_chunks(payload).len() as int) == txt_chunks(payload),
    ensures
        spec_txt_join(packet, cursor, txt_chunks(payload).len() as int) == Some(payload),
    decreases payload.len(),
{
    let w = txt_chunks(payload);
    if payload.len() == 0 {
        assert(w.len() == 0);
    } else {
        let n = payload.len() as int;
        let c: int = if n > 255 {
            255
        } else {
            n
        };
        let rest = txt_chunks(payload.skip(c));
        assert(w == seq![c as u8] + payload.take(c) + rest);
        assert(packet[cursor] == w[0]);
        assert(packet[cursor] == c as u8);
        lemma_txt_chunks_len(payload);
        lemma_txt_chunks_len(payload.skip(c));
        assert(w.len() == 1 + c + rest.len());
        assert(packet.subrange(cursor + 1, cursor + 1 + c) =~= payload.take(c)) by {
            assert forall|i: int| 0 <= i < c implies packet.subrange(cursor + 1, cursor + 1 + c)[i]
                == payload.take(c)[i] by {
                assert(packet[cursor + 1 + i] == packet.subrange(cursor, cursor + w.len() as int)[1
                    + i]);
                assert(w[1 + i] == payload.take(c)[i]);
            }
        }
        assert(packet.subrange(cursor + 1 + c, cursor + 1 + c + rest.len() as int) =~= rest) by {
            assert forall|i: int| 0 <= i < rest.len() implies packet.subrange(
                cursor + 1 + c,
                cursor + 1 + c + rest.len() as int,
            )[i] == rest[i] by {
                assert(packet[cursor + 1 + c + i] == packet.subrange(
                    cursor,
                    cursor + w.len() as int,
                )[1 + c + i]);
                assert(w[1 + c + i] == rest[i]);
            }
        }
        lemma_txt_join_of_chunks(packet, cursor + 1 + c, payload.skip(c));
        let tl = packet[cursor] as int;
        assert(tl == c);
        assert(tl <= w.len() - 1);
        assert(spec_txt_join(packet, cursor + 1 + tl, w.len() - 1 - tl) == Some(payload.skip(c)));
        assert(payload.take(c) + payload.skip(c) =~= payload);
    }
}

/// Round trip of the response codec.
///
/// A response built around a non-empty payload and a well-formed TXT
/// question hands the same payload back through header parse, name
/// skipping, the answer record and its character-strings.
#[verifier::rlimit(100)]
pub proof fn lemma_response_round_trip(p: ResponseParams)
    requires
        encodable_name(p.question.name@),
        p.question.name@ != seq![DOT],
        p.question.qtype == RR_TXT,
        spec_response_has_answer(p),
        payload_len_of(p) + chunk_count(payload_len_of(p)) <= 0xFFFF,
    ensures
        spec_decode_response(spec_encode_response(p)) == Some(p.payload->Some_0@),
{
    let pkt = spec_encode_response(p);
    let flags = spec_response_flags(p);
    let payload = p.payload->Some_0@;
    let labels = split_dot(trim_dots(p.question.name@));
    let wire = labels_wire(labels);
    let txt = txt_chunks(payload);
    let rdlen = payload_len_of(p) + chunk_count(payload_len_of(p));
    let h6 = u16_bytes(p.id) + u16_bytes(flags) + u16_bytes(1) + u16_bytes(1u16) + u16_bytes(0)
        + u16_bytes(1);
    let qsec = wire + u16_bytes(p.question.qtype) + u16_bytes(p.question.qclass);
    let ans = seq![0xC0u8, 0x0Cu8] + u16_bytes(p.question.qtype) + u16_bytes(p.question.qclass)
        + u32_bytes(60) + u16_bytes(rdlen as u16) + txt;
    assert(pkt =~= h6 + qsec + ans + opt_record());
    lemma_txt_chunks_len(payload);
    assert(txt.len() == rdlen);
    let e = 12 + wire.len() as int;
    let e2 = e + 6;

    // The header reads back: a clean response with one question and answer.
    assert(h6.len() == 12);
    assert(pkt[0] == u16_bytes(p.id)[0] && pkt[1] == u16_bytes(p.id)[1]);
    assert(pkt[2] == u16_bytes(flags)[0] && pkt[3] == u16_bytes(flags)[1]);
    assert(pkt[4] == u16_bytes(1u16)[0] && pkt[5] == u16_bytes(1u16)[1]);
    assert(pkt[6] == u16_bytes(1u16)[0] && pkt[7] == u16_bytes(1u16)[1]);
    crate::dns_wire::lemma_u16_bytes_be16(p.id);
    crate::dns_wire::lemma_u16_bytes_be16(flags);
    crate::dns_wire::lemma_u16_bytes_be16(1u16);
    let h = spec_parse_header(pkt)->Some_0;
    assert(h.qdcount == 1 && h.ancount == 1);
    let fb: u16 = if p.rd {
        0x0100u16
    } else {
        0u16
    };
    let fc: u16 = if p.cd {
        0x0010u16
    } else {
        0u16
    };
    assert(spec_response_rcode(p) == Rcode::NoError);
    assert(flags == 0x8400u16 | fb | fc | 0u16);
    assert(((0x8400u16 | fb | fc | 0u16) & 0x8000 != 0) && ((0x8400u16 | fb | fc | 0u16) & 0x000f)
        == 0) by (bit_vector)
        requires
            fb == 0x0100u16 || fb == 0u16,
            fc == 0x0010u16 || fc == 0u16,
    ;
    assert(h.is_response);
    assert(h.rcode == Some(Rcode::NoError));

    // The question name parses plain, so the question is skipped cleanly.
    assert(name_len(labels) <= 253 && labels_sized(labels));
    assert(pkt.subrange(12, 12 + wire.len() as int) =~= wire) by {
        assert forall|i: int| 0 <= i < wire.len() implies pkt[12 + i] == wire[i] by {
            assert(pkt[12 + i] == qsec[i]);
        }
    }
    lemma_parse_of_wire(pkt, 12, labels);
    assert(plain_name_at(pkt, 12) == Some((labels, e)));
    assert(spec_skip_name(pkt, 12) == Some(e));
    assert(e + 4 <= pkt.len());
    assert(spec_skip_questions(pkt, e + 4, 0) == Some(e + 4));
    assert(spec_skip_questions(pkt, 12, 1) == Some(e + 4));

    // The answer name is one pointer back to the question.
    assert(pkt[e + 4] == ans[0] && pkt[e + 5] == ans[1]);
    assert(pkt[e + 4] == 0xC0 && pkt[e + 5] == 0x0C);
    assert(plain_name_at(pkt, e + 4) is None) by {
        assert(pkt[e + 4] == 0xC0);
        assert(!(0xC0u8 == 0) && 0xC0u8 >= 64) by (bit_vector);
    }
    assert(pointer_target(pkt, e + 4) == Some(((0xC0u8 & 0x3F) as int) * 256 + 0x0C)) by {
        assert(e + 5 < pkt.len());
        assert(0xC0u8 & 0xC0 == 0xC0) by (bit_vector);
        assert(pkt[e + 4] & 0xC0 == 0xC0);
    }
    assert(((0xC0u8 & 0x3F) as int) == 0) by (bit_vector);
    assert(pointer_target(pkt, e + 4) == Some(12int));
    assert(pointer_name_at(pkt, e + 4) == Some((labels, e)));
    assert(spec_skip_name(pkt, e + 4) == Some(e + 4 + 2));

    // The answer record: TXT, the written RDATA length, the payload inside.
    assert(e2 + 10 <= pkt.len());
    assert(pkt[e2] == ans[2] && pkt[e2 + 1] == ans[3]);
    assert(pkt[e2] == u16_bytes(p.question.qtype)[0] && pkt[e2 + 1] == u16_bytes(
        p.question.qtype,
    )[1]);
    crate::dns_wire::lemma_u16_bytes_be16(p.question.qtype);
    assert(pkt[e2 + 8] == ans[10] && pkt[e2 + 9] == ans[11]);
    assert(pkt[e2 + 8] == u16_bytes(rdlen as u16)[0] && pkt[e2 + 9] == u16_bytes(
        rdlen as u16,
    )[1]);
    crate::dns_wire::lemma_u16_bytes_be16(rdlen as u16);
    assert(spec_read_u16(pkt, e2) == Some(p.question.qtype));
    assert(spec_read_u16(pkt, e2 + 8) == Some(rdlen as u16));
    assert(e2 + 10 + rdlen <= pkt.len());
    assert(rdlen >= 1);
    assert(pkt.subrange(e2 + 10, e2 + 10 + txt.len() as int) =~= txt) by {
        assert forall|i: int| 0 <= i < txt.len() implies pkt[e2 + 10 + i] == txt[i] by {
            assert(pkt[e2 + 10 + i] == ans[12 + i]);
        }
    }
    lemma_txt_join_of_chunks(pkt, e2 + 10, payload);
    assert(spec_txt_join(pkt, e2 + 10, rdlen) == Some(payload));
    assert(payload.len() > 0);
}

} // verus!
