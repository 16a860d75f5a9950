//! Protocol data units.

use crate::ber::{encode_len, encode_tlv, lemma_tlv_roundtrip, parse_header, slice_sub, spec_parse_header, BerClass};
use crate::buf::{Buffer, BUFFER_SIZE};
use crate::error::SnmpError;
use crate::reqid::RequestId;
use crate::snmp::get::{all_encodable, encode_get, lemma_get_roundtrip, spec_parse_get, SnmpGet, SpecGet};
use crate::snmp::getbulk::{encode_getbulk, lemma_getbulk_roundtrip, spec_parse_getbulk, SnmpGetBulk, SpecGetBulk};
use crate::snmp::getresponse::{spec_parse_response, SnmpGetResponse, SpecGetResponse};
use vstd::prelude::*;

verus! {

pub const PDU_GET_REQUEST: u8 = 0;
pub const PDU_GETNEXT_REQUEST: u8 = 1;
pub const PDU_GET_RESPONSE: u8 = 2;
pub const PDU_GET_BULK_REQUEST: u8 = 5;
pub const PDU_REPORT: u8 = 8;
/// Identifier byte of a GetRequest: context class, constructed, tag 0.
pub const GET_REQUEST_BYTE: u8 = 160;
/// Identifier byte of a GetNextRequest.
pub const GETNEXT_REQUEST_BYTE: u8 = 161;
/// Identifier byte of a GetBulkRequest.
pub const GET_BULK_REQUEST_BYTE: u8 = 165;

/// A Report PDU, kept as its undecoded body.
#[derive(Debug)]
pub struct SnmpReport<'a>(pub &'a [u8]);

impl<'a> SnmpReport<'a> {
    /// Wrap the body of a Report PDU.
    pub fn try_from(value: &'a [u8]) -> (r: Result<SnmpReport<'a>, SnmpError>)
        ensures
            r matches Ok(rep) && rep.0@ == value@,
    {
        Ok(SnmpReport(value))
    }
}

/// A PDU.
#[derive(Debug)]
pub enum SnmpPdu<'a> {
    GetRequest(SnmpGet),
    GetNextRequest(SnmpGet),
    GetResponse(SnmpGetResponse<'a>),
    GetBulkRequest(SnmpGetBulk),
    Report(SnmpReport<'a>),
}

/// Model of a PDU.
pub enum SpecPdu {
    GetRequest(SpecGet),
    GetNextRequest(SpecGet),
    GetResponse(SpecGetResponse),
    GetBulkRequest(SpecGetBulk),
    Report(Seq<u8>),
}

impl<'a> View for SnmpPdu<'a> {
    type V = SpecPdu;

    open spec fn view(&self) -> SpecPdu {
        match self {
            SnmpPdu::GetRequest(g) => SpecPdu::GetRequest(g@),
            SnmpPdu::GetNextRequest(g) => SpecPdu::GetNextRequest(g@),
            SnmpPdu::GetResponse(g) => SpecPdu::GetResponse(g@),
            SnmpPdu::GetBulkRequest(g) => SpecPdu::GetBulkRequest(g@),
            SnmpPdu::Report(r) => SpecPdu::Report(r.0@),
        }
    }
}

/// Decoding of a PDU element at the start of `s`: a constructed element
/// of context class whose tag gives the PDU type. Bytes after the
/// element are ignored.
pub open spec fn spec_parse_pdu(s: Seq<u8>) -> Result<SpecPdu, SnmpError> {
    match spec_parse_header(s) {
        Err(e) => Err(e),
        Ok((h, hl)) => if h.class != BerClass::Context || !h.constructed {
            Err(SnmpError::UnexpectedTag)
        } else {
            let c = s.subrange(hl as int, hl + h.length);
            if h.tag == PDU_GET_REQUEST {
                match spec_parse_get(c) {
                    Ok(g) => Ok(SpecPdu::GetRequest(g)),
                    Err(e) => Err(e),
                }
            } else if h.tag == PDU_GETNEXT_REQUEST {
                match spec_parse_get(c) {
                    Ok(g) => Ok(SpecPdu::GetNextRequest(g)),
                    Err(e) => Err(e),
                }
            } else if h.tag == PDU_GET_RESPONSE {
                match spec_parse_response(c) {
                    Ok(g) => Ok(SpecPdu::GetResponse(g)),
                    Err(e) => Err(e),
                }
            } else if h.tag == PDU_GET_BULK_REQUEST {
                match spec_parse_getbulk(c) {
                    Ok(g) => Ok(SpecPdu::GetBulkRequest(g)),
                    Err(e) => Err(e),
                }
            } else if h.tag == PDU_REPORT {
                Ok(SpecPdu::Report(c))
            } else {
                Err(SnmpError::UnknownPdu)
            }
        },
    }
}

/// Why a PDU cannot be encoded, if it cannot: responses and reports are
/// not encoded, and requests need encodable identifiers.
pub open spec fn pdu_encode_error(p: SpecPdu) -> Option<SnmpError> {
    match p {
        SpecPdu::GetRequest(g) => if all_encodable(g.vars) {
            None
        } else {
            Some(SnmpError::InvalidData)
        },
        SpecPdu::GetNextRequest(g) => if all_encodable(g.vars) {
            None
        } else {
            Some(SnmpError::InvalidData)
        },
        SpecPdu::GetBulkRequest(g) => if all_encodable(g.vars) {
            None
        } else {
            Some(SnmpError::InvalidData)
        },
        _ => Some(SnmpError::NotImplemented),
    }
}

/// Encoding of a request PDU.
pub open spec fn encode_pdu(p: SpecPdu) -> Seq<u8> {
    match p {
        SpecPdu::GetRequest(g) => encode_tlv(GET_REQUEST_BYTE, encode_get(g)),
        SpecPdu::GetNextRequest(g) => encode_tlv(GETNEXT_REQUEST_BYTE, encode_get(g)),
        SpecPdu::GetBulkRequest(g) => encode_tlv(GET_BULK_REQUEST_BYTE, encode_getbulk(g)),
        _ => Seq::<u8>::empty(),
    }
}

/// Decoding a request PDU element decodes its contents by its tag.
proof fn lemma_pdu_frame(byte: u8, body: Seq<u8>, rest: Seq<u8>)
    requires
        byte == GET_REQUEST_BYTE || byte == GETNEXT_REQUEST_BYTE || byte == GET_BULK_REQUEST_BYTE,
        encode_tlv(byte, body).len() + rest.len() <= BUFFER_SIZE,
    ensures
        spec_parse_pdu(encode_tlv(byte, body) + rest) == (if byte == GET_BULK_REQUEST_BYTE {
            match spec_parse_getbulk(body) {
                Ok(g) => Ok::<SpecPdu, SnmpError>(SpecPdu::GetBulkRequest(g)),
                Err(e) => Err(e),
            }
        } else {
            match spec_parse_get(body) {
                Ok(g) => Ok::<SpecPdu, SnmpError>(
                    if byte == GET_REQUEST_BYTE {
                        SpecPdu::GetRequest(g)
                    } else {
                        SpecPdu::GetNextRequest(g)
                    },
                ),
                Err(e) => Err(e),
            }
        }),
{
    let s = encode_tlv(byte, body) + rest;
    let hl = 1 + encode_len(body.len()).len();
    lemma_tlv_roundtrip(byte, body, rest);
    assert(s.subrange(hl as int, hl + body.len() as int) == body);
}

/// A request PDU decodes to what was encoded, whatever follows it.
pub proof fn lemma_pdu_roundtrip(p: SpecPdu, rest: Seq<u8>)
    requires
        pdu_encode_error(p) is None,
        encode_pdu(p).len() + rest.len() <= BUFFER_SIZE,
    ensures
        spec_parse_pdu(encode_pdu(p) + rest) == Ok::<SpecPdu, SnmpError>(p),
{
    match p {
        SpecPdu::GetRequest(g) => {
            lemma_pdu_frame(GET_REQUEST_BYTE, encode_get(g), rest);
            lemma_get_roundtrip(g);
        },
        SpecPdu::GetNextRequest(g) => {
            lemma_pdu_frame(GETNEXT_REQUEST_BYTE, encode_get(g), rest);
            lemma_get_roundtrip(g);
        },
        SpecPdu::GetBulkRequest(g) => {
            lemma_pdu_frame(GET_BULK_REQUEST_BYTE, encode_getbulk(g), rest);
            lemma_getbulk_roundtrip(g);
        },
        _ => {},
    }
}

/// The PDU type is given by the tag of a constructed context element:
/// 0 GetRequest, 1 GetNextRequest, 2 Response, 5 GetBulkRequest,
/// 8 Report; any other tag is unknown.
pub proof fn lemma_pdu_tags(s: Seq<u8>)
    ensures
        spec_parse_pdu(s) is Ok ==> ({
            &&& spec_parse_header(s) matches Ok((h, _))
            &&& h.class == BerClass::Context
            &&& h.constructed
            &&& (h.tag == 0 <==> spec_parse_pdu(s)->Ok_0 is GetRequest)
            &&& (h.tag == 1 <==> spec_parse_pdu(s)->Ok_0 is GetNextRequest)
            &&& (h.tag == 2 <==> spec_parse_pdu(s)->Ok_0 is GetResponse)
            &&& (h.tag == 5 <==> spec_parse_pdu(s)->Ok_0 is GetBulkRequest)
            &&& (h.tag == 8 <==> spec_parse_pdu(s)->Ok_0 is Report)
        }),
        spec_parse_header(s) matches Ok((h, _)) && h.class == BerClass::Context && h.constructed
            && h.tag != 0 && h.tag != 1 && h.tag != 2 && h.tag != 5 && h.tag != 8
            ==> spec_parse_pdu(s) == Err::<SpecPdu, SnmpError>(SnmpError::UnknownPdu),
{
}

/// A request PDU is encoded as a constructed context element whose first
/// byte is 0xa0 for a GetRequest, 0xa1 for a GetNextRequest and 0xa5 for
/// a GetBulkRequest.
pub proof fn lemma_pdu_first_byte(p: SpecPdu)
    requires
        pdu_encode_error(p) is None,
    ensures
        encode_pdu(p).len() > 0,
        p is GetRequest ==> encode_pdu(p)[0] == 0xa0,
        p is GetNextRequest ==> encode_pdu(p)[0] == 0xa1,
        p is GetBulkRequest ==> encode_pdu(p)[0] == 0xa5,
{
}

/// Contract of the encoders: on inputs that cannot be encoded the given
/// error and an unchanged buffer; otherwise success exactly when the
/// encoding fits, the encoding prepended on success and `OutOfBuffer`
/// on failure.
pub open spec fn encoded_as(
    r: Result<(), SnmpError>,
    error: Option<SnmpError>,
    enc: Seq<u8>,
    before: Seq<u8>,
    after: Seq<u8>,
) -> bool {
    match error {
        Some(e) => r == Err::<(), SnmpError>(e) && after == before,
        None => {
            &&& (r is Ok <==> before.len() + enc.len() <= BUFFER_SIZE)
            &&& (r is Ok ==> after == enc + before)
            &&& (r is Err ==> r == Err::<(), SnmpError>(SnmpError::OutOfBuffer))
        },
    }
}

/// Prepend a GetRequest or GetNextRequest element with identifier byte
/// `byte`.
fn push_get_pdu(req: &SnmpGet, byte: u8, buf: &mut Buffer) -> (r: Result<(), SnmpError>)
    requires
        old(buf).wf(),
    ensures
        final(buf).wf(),
        final(buf).mark() == old(buf).mark(),
        encoded_as(
            r,
            if all_encodable(req@.vars) {
                None
            } else {
                Some(SnmpError::InvalidData)
            },
            encode_tlv(byte, encode_get(req@)),
            old(buf)@,
            final(buf)@,
        ),
{
    let rest = buf.len();
    let ghost start = buf@;
    req.push_ber(buf)?;
    let l = buf.len();
    let r = buf.push_tag_len(byte, l - rest);
    assert(r is Ok ==> buf@ =~= encode_tlv(byte, encode_get(req@)) + start);
    r
}

/// Prepend a GetBulkRequest element.
fn push_getbulk_pdu(req: &SnmpGetBulk, buf: &mut Buffer) -> (r: Result<(), SnmpError>)
    requires
        old(buf).wf(),
    ensures
        final(buf).wf(),
        final(buf).mark() == old(buf).mark(),
        encoded_as(
            r,
            if all_encodable(req@.vars) {
                None
            } else {
                Some(SnmpError::InvalidData)
            },
            encode_tlv(GET_BULK_REQUEST_BYTE, encode_getbulk(req@)),
            old(buf)@,
            final(buf)@,
        ),
{
    let rest = buf.len();
    let ghost start = buf@;
    req.push_ber(buf)?;
    let l = buf.len();
    let r = buf.push_tag_len(GET_BULK_REQUEST_BYTE, l - rest);
    assert(r is Ok ==> buf@ =~= encode_tlv(GET_BULK_REQUEST_BYTE, encode_getbulk(req@)) + start);
    r
}

impl<'a> SnmpPdu<'a> {
    /// Decode the PDU element at the start of `value`.
    pub fn try_from(value: &'a [u8]) -> (r: Result<SnmpPdu<'a>, SnmpError>)
        ensures
            match r {
                Ok(p) => spec_parse_pdu(value@) == Ok::<SpecPdu, SnmpError>(p@),
                Err(e) => spec_parse_pdu(value@) == Err::<SpecPdu, SnmpError>(e),
            },
    {
        let (h, hl) = parse_header(value)?;
        if h.class != BerClass::Context || !h.constructed {
            return Err(SnmpError::UnexpectedTag);
        }
        let total = value.len();
        assert(hl + h.length <= total);
        let c = slice_sub(value, hl, hl + h.length);
        if h.tag == PDU_GET_REQUEST {
            Ok(SnmpPdu::GetRequest(SnmpGet::try_from(c)?))
        } else if h.tag == PDU_GETNEXT_REQUEST {
            Ok(SnmpPdu::GetNextRequest(SnmpGet::try_from(c)?))
        } else if h.tag == PDU_GET_RESPONSE {
            Ok(SnmpPdu::GetResponse(SnmpGetResponse::try_from(c)?))
        } else if h.tag == PDU_GET_BULK_REQUEST {
            Ok(SnmpPdu::GetBulkRequest(SnmpGetBulk::try_from(c)?))
        } else if h.tag == PDU_REPORT {
            Ok(SnmpPdu::Report(SnmpReport::try_from(c)?))
        } else {
            Err(SnmpError::UnknownPdu)
        }
    }

    /// Prepend the encoding of a request PDU; other PDUs are refused with
    /// `NotImplemented`.
    pub fn push_ber(&self, buf: &mut Buffer) -> (r: Result<(), SnmpError>)
        requires
            old(buf).wf(),
        ensures
            final(buf).wf(),
            final(buf).mark() == old(buf).mark(),
            encoded_as(r, pdu_encode_error(self@), encode_pdu(self@), old(buf)@, final(buf)@),
    {
        match self {
            SnmpPdu::GetRequest(req) => push_get_pdu(req, GET_REQUEST_BYTE, buf),
            SnmpPdu::GetNextRequest(req) => push_get_pdu(req, GETNEXT_REQUEST_BYTE, buf),
            SnmpPdu::GetBulkRequest(req) => push_getbulk_pdu(req, buf),
            _ => Err(SnmpError::NotImplemented),
        }
    }

    /// Whether the PDU belongs to the request in flight: requests and
    /// responses carry its identifier, reports always match.
    pub fn check(&self, request_id: &RequestId) -> (r: bool)
        ensures
            r == match self@ {
                SpecPdu::GetRequest(g) => g.request_id == request_id@,
                SpecPdu::GetNextRequest(g) => g.request_id == request_id@,
                SpecPdu::GetBulkRequest(g) => g.request_id == request_id@,
                SpecPdu::GetResponse(g) => g.request_id == request_id@,
                SpecPdu::Report(_) => true,
            },
    {
        match self {
            SnmpPdu::GetRequest(pdu) => request_id.check(pdu.request_id),
            SnmpPdu::GetNextRequest(pdu) => request_id.check(pdu.request_id),
            SnmpPdu::GetBulkRequest(pdu) => request_id.check(pdu.request_id),
            SnmpPdu::GetResponse(pdu) => request_id.check(pdu.request_id),
            SnmpPdu::Report(_) => true,
        }
    }

    /// The Response body, when the PDU is a response.
    pub fn as_getresponse(&self) -> (r: Option<&SnmpGetResponse<'a>>)
        ensures
            match self {
                SnmpPdu::GetResponse(p) => r == Some(p),
                _ => r is None,
            },
    {
        if let SnmpPdu::GetResponse(pdu) = self {
            Some(pdu)
        } else {
            None
        }
    }
}

} // verus!
