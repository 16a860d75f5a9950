//! Message data: a plaintext scoped PDU or encrypted bytes.

use crate::ber::{encode_tlv, lemma_octets_roundtrip, parse_octets, spec_parse_octets, TAG_OCTET_STRING};
use crate::buf::{Buffer, BUFFER_SIZE};
use crate::error::SnmpError;
use crate::snmp::pdu::{encoded_as, pdu_encode_error};
use crate::snmp::v3::scoped::{encode_scoped, lemma_scoped_roundtrip, spec_parse_scoped, ScopedPdu, SpecScopedPdu};
use vstd::prelude::*;

verus! {

/// Data of an SNMPv3 message.
#[derive(Debug)]
pub enum MsgData<'a> {
    Plaintext(ScopedPdu<'a>),
    Encrypted(&'a [u8]),
}

/// Model of the message data.
pub enum SpecMsgData {
    Plaintext(SpecScopedPdu),
    Encrypted(Seq<u8>),
}

impl<'a> View for MsgData<'a> {
    type V = SpecMsgData;

    open spec fn view(&self) -> SpecMsgData {
        match self {
            MsgData::Plaintext(p) => SpecMsgData::Plaintext(p@),
            MsgData::Encrypted(x) => SpecMsgData::Encrypted(x@),
        }
    }
}

/// Decoding of the message data: an OCTET STRING holds encrypted bytes,
/// anything else is a plaintext scoped PDU.
pub open spec fn spec_parse_msgdata(s: Seq<u8>) -> Result<SpecMsgData, SnmpError> {
    if s.len() == 0 {
        Err(SnmpError::Incomplete)
    } else if s[0] == TAG_OCTET_STRING {
        match spec_parse_octets(s) {
            Err(e) => Err(e),
            Ok((x, _)) => Ok(SpecMsgData::Encrypted(x)),
        }
    } else {
        match spec_parse_scoped(s) {
            Err(e) => Err(e),
            Ok(p) => Ok(SpecMsgData::Plaintext(p)),
        }
    }
}

pub open spec fn encode_msgdata(d: SpecMsgData) -> Seq<u8> {
    match d {
        SpecMsgData::Plaintext(p) => encode_scoped(p),
        SpecMsgData::Encrypted(x) => encode_tlv(TAG_OCTET_STRING, x),
    }
}

pub open spec fn msgdata_encode_error(d: SpecMsgData) -> Option<SnmpError> {
    match d {
        SpecMsgData::Plaintext(p) => pdu_encode_error(p.pdu),
        SpecMsgData::Encrypted(_) => None,
    }
}

/// Message data decodes to what was encoded, whatever follows it.
pub proof fn lemma_msgdata_roundtrip(d: SpecMsgData, rest: Seq<u8>)
    requires
        msgdata_encode_error(d) is None,
        encode_msgdata(d).len() + rest.len() <= BUFFER_SIZE,
    ensures
        spec_parse_msgdata(encode_msgdata(d) + rest) == Ok::<SpecMsgData, SnmpError>(d),
{
    match d {
        SpecMsgData::Plaintext(p) => {
            lemma_scoped_roundtrip(p, rest);
        },
        SpecMsgData::Encrypted(x) => {
            lemma_octets_roundtrip(x, rest);
        },
    }
}

impl<'a> MsgData<'a> {
    /// Decode the message data.
    pub fn try_from(s: &'a [u8]) -> (r: Result<MsgData<'a>, SnmpError>)
        ensures
            match r {
                Ok(d) => spec_parse_msgdata(s@) == Ok::<SpecMsgData, SnmpError>(d@),
                Err(e) => spec_parse_msgdata(s@) == Err::<SpecMsgData, SnmpError>(e),
            },
    {
        if s.len() == 0 {
            return Err(SnmpError::Incomplete);
        }
        if s[0] == TAG_OCTET_STRING {
            let (x, _) = parse_octets(s)?;
            Ok(MsgData::Encrypted(x))
        } else {
            Ok(MsgData::Plaintext(ScopedPdu::try_from(s)?))
        }
    }

    /// Prepend the encoding of the message data.
    pub fn push_ber(&self, buf: &mut Buffer) -> (r: Result<(), SnmpError>)
        requires
            old(buf).wf(),
        ensures
            final(buf).wf(),
            final(buf).mark() == old(buf).mark(),
            encoded_as(r, msgdata_encode_error(self@), encode_msgdata(self@), old(buf)@, final(buf)@),
    {
        match self {
            MsgData::Plaintext(x) => x.push_ber(buf),
            MsgData::Encrypted(x) => buf.push_tagged(TAG_OCTET_STRING, x),
        }
    }
}

} // verus!
