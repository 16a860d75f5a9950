//! SNMPv1 and SNMPv2c messages: version, community and PDU.

use crate::ber::{
    be_uint, encode_len, encode_tlv, expect_tlv, lemma_tlv_roundtrip, pow256, spec_parse_octets, TAG_INT, slice_from, slice_sub, spec_tlv, BerClass, SEQUENCE_BYTE,
    TAG_OCTET_STRING, TAG_SEQUENCE,
};
use crate::buf::{Buffer, BUFFER_SIZE};
use crate::error::SnmpError;
use crate::integer::{int_value, parse_int, spec_parse_int};
use crate::snmp::pdu::{encode_pdu, encoded_as, lemma_pdu_roundtrip, pdu_encode_error, spec_parse_pdu, SnmpPdu, SpecPdu};
use vstd::prelude::*;

verus! {

pub const SNMP_V1: u8 = 0;
pub const SNMP_V2C: u8 = 1;
pub const SNMP_V3: u8 = 3;

/// Version of a community-based message.
#[derive(Debug, Clone, Copy, PartialEq, Eq, Structural)]
pub enum SnmpVersion {
    V1,
    V2C,
}

/// The version with code `v`, if it is a community-based one.
pub open spec fn spec_version(v: u8) -> Result<SnmpVersion, SnmpError> {
    if v == SNMP_V1 {
        Ok(SnmpVersion::V1)
    } else if v == SNMP_V2C {
        Ok(SnmpVersion::V2C)
    } else {
        Err(SnmpError::InvalidVersion(v))
    }
}

pub open spec fn version_code(v: SnmpVersion) -> u8 {
    match v {
        SnmpVersion::V1 => SNMP_V1,
        SnmpVersion::V2C => SNMP_V2C,
    }
}

/// The INTEGER element carrying a version code.
pub open spec fn version_bytes(code: u8) -> Seq<u8> {
    seq![2u8, 1u8, code]
}

impl SnmpVersion {
    /// The version with the given code.
    pub fn from_code(v: u8) -> (r: Result<SnmpVersion, SnmpError>)
        ensures
            r == spec_version(v),
    {
        if v == SNMP_V1 {
            Ok(SnmpVersion::V1)
        } else if v == SNMP_V2C {
            Ok(SnmpVersion::V2C)
        } else {
            Err(SnmpError::InvalidVersion(v))
        }
    }

    /// Code of the version.
    pub fn code(&self) -> (r: u8)
        ensures
            r == version_code(*self),
    {
        match self {
            SnmpVersion::V1 => SNMP_V1,
            SnmpVersion::V2C => SNMP_V2C,
        }
    }

    /// Prepend the INTEGER element carrying the version.
    pub fn push_ber(&self, buf: &mut Buffer) -> (r: Result<(), SnmpError>)
        requires
            old(buf).wf(),
        ensures
            final(buf).wf(),
            final(buf).mark() == old(buf).mark(),
            encoded_as(r, None, version_bytes(version_code(*self)), old(buf)@, final(buf)@),
    {
        push_version(buf, self.code())
    }
}

/// Prepend the INTEGER element carrying a version code.
pub fn push_version(buf: &mut Buffer, code: u8) -> (r: Result<(), SnmpError>)
    requires
        old(buf).wf(),
    ensures
        final(buf).wf(),
        final(buf).mark() == old(buf).mark(),
        encoded_as(r, None, version_bytes(code), old(buf)@, final(buf)@),
{
    let ghost start = buf@;
    if let Err(e) = buf.push_u8(code) {
        return Err(e);
    }
    if let Err(e) = buf.push_u8(1) {
        return Err(e);
    }
    if let Err(e) = buf.push_u8(2) {
        return Err(e);
    }
    assert(buf@ =~= version_bytes(code) + start);
    Ok(())
}

/// Model of a community-based message with a raw version code.
pub struct SpecCommunityMessage {
    pub version: u8,
    pub community: Seq<u8>,
    pub pdu: SpecPdu,
}

/// Decoding of a community-based message: a SEQUENCE, which must end
/// where `s` ends, of the version INTEGER (taken modulo 256), the
/// community OCTET STRING and the PDU.
pub open spec fn spec_parse_community_message(s: Seq<u8>) -> Result<
    SpecCommunityMessage,
    SnmpError,
> {
    match spec_tlv(s, BerClass::Universal, true, TAG_SEQUENCE) {
        Err(e) => Err(e),
        Ok((a, b)) => if b != s.len() {
            Err(SnmpError::TrailingData)
        } else {
            let inner = s.subrange(a as int, b as int);
            match spec_parse_int(inner) {
                Err(e) => Err(e),
                Ok((v, n1)) => {
                    let t1 = inner.skip(n1 as int);
                    match spec_tlv(t1, BerClass::Universal, false, TAG_OCTET_STRING) {
                        Err(e) => Err(e),
                        Ok((c0, c1)) => match spec_parse_pdu(t1.skip(c1 as int)) {
                            Err(e) => Err(e),
                            Ok(p) => Ok(
                                SpecCommunityMessage {
                                    version: v as u8,
                                    community: t1.subrange(c0 as int, c1 as int),
                                    pdu: p,
                                },
                            ),
                        },
                    }
                },
            }
        },
    }
}

/// Decode a community-based message: version code, community and PDU.
pub fn parse_community_message<'a>(s: &'a [u8]) -> (r: Result<
    (u8, &'a [u8], SnmpPdu<'a>),
    SnmpError,
>)
    ensures
        match r {
            Ok((v, c, p)) => spec_parse_community_message(s@) == Ok::<
                SpecCommunityMessage,
                SnmpError,
            >(SpecCommunityMessage { version: v, community: c@, pdu: p@ }),
            Err(e) => spec_parse_community_message(s@) == Err::<SpecCommunityMessage, SnmpError>(
                e,
            ),
        },
{
    let (a, b) = expect_tlv(s, BerClass::Universal, true, TAG_SEQUENCE)?;
    if b != s.len() {
        return Err(SnmpError::TrailingData);
    }
    let inner = slice_sub(s, a, b);
    let (v, n1) = parse_int(inner)?;
    let t1 = slice_from(inner, n1);
    let (c0, c1) = expect_tlv(t1, BerClass::Universal, false, TAG_OCTET_STRING)?;
    let community = slice_sub(t1, c0, c1);
    let pdu = SnmpPdu::try_from(slice_from(t1, c1))?;
    Ok((v as u8, community, pdu))
}

/// Encoding of a community-based message.
pub open spec fn encode_community_message(code: u8, community: Seq<u8>, pdu: SpecPdu) -> Seq<
    u8,
> {
    encode_tlv(
        SEQUENCE_BYTE,
        version_bytes(code) + encode_tlv(TAG_OCTET_STRING, community) + encode_pdu(pdu),
    )
}

/// The version INTEGER decodes to a value whose low byte is the code.
pub proof fn lemma_version_roundtrip(code: u8, rest: Seq<u8>)
    requires
        3 + rest.len() <= BUFFER_SIZE,
    ensures
        spec_parse_int(version_bytes(code) + rest) matches Ok((v, n)) && n == 3 && v as u8 == code,
{
    let c = seq![code];
    assert(version_bytes(code) == encode_tlv(TAG_INT, c));
    lemma_tlv_roundtrip(TAG_INT, c, rest);
    assert((version_bytes(code) + rest).subrange(2, 3) == c);
    assert(c.drop_last() =~= Seq::<u8>::empty());
    assert(be_uint(c) == code) by {
        reveal_with_fuel(be_uint, 2);
    }
    assert(pow256(1) == 256) by {
        reveal_with_fuel(pow256, 2);
    }
    let v = int_value(c) as i64;
    assert(v as u8 == code) by (bit_vector)
        requires
            (code < 128 ==> v == code as i64),
            (code >= 128 ==> v == code as i64 - 256),
    ;
}

/// Decoding a community-based message element decodes the PDU after
/// the version and the community.
proof fn lemma_community_frame(code: u8, community: Seq<u8>, body: Seq<u8>)
    requires
        encode_tlv(SEQUENCE_BYTE, version_bytes(code) + encode_tlv(TAG_OCTET_STRING, community)
            + body).len() <= BUFFER_SIZE,
    ensures
        spec_parse_community_message(
            encode_tlv(
                SEQUENCE_BYTE,
                version_bytes(code) + encode_tlv(TAG_OCTET_STRING, community) + body,
            ),
        ) == match spec_parse_pdu(body) {
            Ok(p) => Ok::<SpecCommunityMessage, SnmpError>(
                SpecCommunityMessage { version: code, community, pdu: p },
            ),
            Err(e) => Err(e),
        },
{
    let oc = encode_tlv(TAG_OCTET_STRING, community);
    let t1 = oc + body;
    let inner = version_bytes(code) + t1;
    let s = encode_tlv(SEQUENCE_BYTE, inner);
    let hl = 1 + encode_len(inner.len()).len();
    assert(version_bytes(code) + oc + body =~= inner);
    assert(spec_tlv(s, BerClass::Universal, true, TAG_SEQUENCE) == Ok::<(usize, usize), SnmpError>(
        (hl as usize, s.len() as usize),
    ) && s.subrange(hl as int, s.len() as int) == inner) by {
        lemma_tlv_roundtrip(SEQUENCE_BYTE, inner, Seq::<u8>::empty());
        assert(s + Seq::<u8>::empty() =~= s);
    }
    assert(spec_parse_int(inner) matches Ok((v, n)) && n == 3 && v as u8 == code) by {
        lemma_version_roundtrip(code, t1);
    }
    assert(inner.skip(3) =~= t1);
    let ol = 1 + encode_len(community.len()).len();
    assert(spec_tlv(t1, BerClass::Universal, false, TAG_OCTET_STRING) == Ok::<
        (usize, usize),
        SnmpError,
    >((ol as usize, oc.len() as usize)) && t1.subrange(ol as int, oc.len() as int) == community
        && t1.skip(oc.len() as int) == body) by {
        lemma_tlv_roundtrip(TAG_OCTET_STRING, community, body);
    }
}

/// A community-based message decodes to what was encoded: the version
/// code, the community and the request PDU come back.
pub proof fn lemma_community_message_roundtrip(code: u8, community: Seq<u8>, pdu: SpecPdu)
    requires
        pdu_encode_error(pdu) is None,
        encode_community_message(code, community, pdu).len() <= BUFFER_SIZE,
    ensures
        spec_parse_community_message(encode_community_message(code, community, pdu)) == Ok::<
            SpecCommunityMessage,
            SnmpError,
        >(SpecCommunityMessage { version: code, community, pdu }),
{
    lemma_community_frame(code, community, encode_pdu(pdu));
    lemma_pdu_roundtrip(pdu, Seq::<u8>::empty());
    assert(encode_pdu(pdu) + Seq::<u8>::empty() =~= encode_pdu(pdu));
}

/// Prepend a community-based message.
pub fn push_community_message(buf: &mut Buffer, code: u8, community: &[u8], pdu: &SnmpPdu) -> (r:
    Result<(), SnmpError>)
    requires
        old(buf).wf(),
    ensures
        final(buf).wf(),
        final(buf).mark() == old(buf).mark(),
        encoded_as(
            r,
            pdu_encode_error(pdu@),
            encode_community_message(code, community@, pdu@),
            old(buf)@,
            final(buf)@,
        ),
{
    let ghost start = buf@;
    let rest = buf.len();
    proof {
        buf.lemma_bounded();
    }
    pdu.push_ber(buf)?;
    let ghost b1 = buf@;
    if let Err(e) = buf.push_tagged(TAG_OCTET_STRING, community) {
        return Err(e);
    }
    if let Err(e) = push_version(buf, code) {
        return Err(e);
    }
    let l = buf.len();
    let r = buf.push_tag_len(SEQUENCE_BYTE, l - rest);
    proof {
        let body = version_bytes(code) + encode_tlv(TAG_OCTET_STRING, community@) + encode_pdu(
            pdu@,
        );
        assert(r is Ok ==> buf@ =~= encode_community_message(code, community@, pdu@) + start);
    }
    r
}

/// Decoding of a message of version 1 or 2c.
pub open spec fn spec_parse_message(s: Seq<u8>) -> Result<(SnmpVersion, Seq<u8>, SpecPdu), SnmpError> {
    match spec_parse_community_message(s) {
        Err(e) => Err(e),
        Ok(m) => match spec_version(m.version) {
            Err(e) => Err(e),
            Ok(v) => Ok((v, m.community, m.pdu)),
        },
    }
}

/// Decoding of a message which must carry the version `code`.
pub open spec fn spec_parse_versioned(s: Seq<u8>, code: u8) -> Result<(Seq<u8>, SpecPdu), SnmpError> {
    match spec_parse_community_message(s) {
        Err(e) => Err(e),
        Ok(m) => if m.version != code {
            Err(SnmpError::InvalidVersion(m.version))
        } else {
            Ok((m.community, m.pdu))
        },
    }
}

/// A community-based message of either version.
#[derive(Debug)]
pub struct SnmpMessage<'a> {
    pub version: SnmpVersion,
    pub community: &'a [u8],
    pub pdu: SnmpPdu<'a>,
}

impl<'a> SnmpMessage<'a> {
    /// Decode a message of version 1 or 2c.
    pub fn try_from(s: &'a [u8]) -> (r: Result<SnmpMessage<'a>, SnmpError>)
        ensures
            match r {
                Ok(m) => spec_parse_message(s@) == Ok::<(SnmpVersion, Seq<u8>, SpecPdu), SnmpError>(
                    (m.version, m.community@, m.pdu@),
                ),
                Err(e) => spec_parse_message(s@) == Err::<(SnmpVersion, Seq<u8>, SpecPdu), SnmpError>(
                    e,
                ),
            },
    {
        let (v, community, pdu) = parse_community_message(s)?;
        let version = SnmpVersion::from_code(v)?;
        Ok(SnmpMessage { version, community, pdu })
    }

    /// Prepend the encoding of the message.
    pub fn push_ber(&self, buf: &mut Buffer) -> (r: Result<(), SnmpError>)
        requires
            old(buf).wf(),
        ensures
            final(buf).wf(),
            final(buf).mark() == old(buf).mark(),
            encoded_as(
                r,
                pdu_encode_error(self.pdu@),
                encode_community_message(version_code(self.version), self.community@, self.pdu@),
                old(buf)@,
                final(buf)@,
            ),
    {
        push_community_message(buf, self.version.code(), self.community, &self.pdu)
    }
}

/// A message of version 1 or 2c decodes to the version, community and
/// request PDU it was encoded from.
pub proof fn lemma_message_roundtrip(version: SnmpVersion, community: Seq<u8>, pdu: SpecPdu)
    requires
        pdu_encode_error(pdu) is None,
        encode_community_message(version_code(version), community, pdu).len() <= BUFFER_SIZE,
    ensures
        spec_parse_message(encode_community_message(version_code(version), community, pdu))
            == Ok::<(SnmpVersion, Seq<u8>, SpecPdu), SnmpError>((version, community, pdu)),
{
    lemma_community_message_roundtrip(version_code(version), community, pdu);
}

/// A message decodes, as one of the version it was encoded with, to its
/// community and request PDU; as one of another version it is refused.
pub proof fn lemma_versioned_roundtrip(code: u8, expected: u8, community: Seq<u8>, pdu: SpecPdu)
    requires
        pdu_encode_error(pdu) is None,
        encode_community_message(code, community, pdu).len() <= BUFFER_SIZE,
    ensures
        spec_parse_versioned(encode_community_message(code, community, pdu), expected) == if code
            == expected {
            Ok::<(Seq<u8>, SpecPdu), SnmpError>((community, pdu))
        } else {
            Err(SnmpError::InvalidVersion(code))
        },
{
    lemma_community_message_roundtrip(code, community, pdu);
}

/// The contents `c` of a community-based message SEQUENCE hold, in this
/// order, the version INTEGER, the community OCTET STRING and the PDU of
/// `m`.
pub open spec fn community_fields_are(c: Seq<u8>, m: SpecCommunityMessage) -> bool {
    &&& spec_parse_int(c) matches Ok((v, n1))
    &&& v as u8 == m.version
    &&& spec_parse_octets(c.skip(n1 as int)) matches Ok((community, n2))
    &&& community == m.community
    &&& spec_parse_pdu(c.skip(n1 as int).skip(n2 as int)) == Ok::<SpecPdu, SnmpError>(m.pdu)
}

/// A decoded community-based message is a SEQUENCE, ending with the
/// input, of the version, the community and the PDU, in this order; the
/// version code 0 is SNMPv1 and 1 is SNMPv2c.
pub proof fn lemma_community_fields(s: Seq<u8>)
    ensures
        spec_parse_community_message(s) matches Ok(m) ==> {
            &&& spec_tlv(s, BerClass::Universal, true, TAG_SEQUENCE) matches Ok((a, b))
            &&& b == s.len()
            &&& community_fields_are(s.subrange(a as int, b as int), m)
        },
        spec_parse_message(s) matches Ok((version, community, pdu)) ==> {
            &&& spec_parse_community_message(s) matches Ok(m)
            &&& (version == SnmpVersion::V1 <==> m.version == 0)
            &&& (version == SnmpVersion::V2C <==> m.version == 1)
            &&& community == m.community
            &&& pdu == m.pdu
        },
{
}

/// The encoding of a community-based message is a SEQUENCE of the
/// version, the community and the PDU, in this order.
pub proof fn lemma_community_layout(code: u8, community: Seq<u8>, pdu: SpecPdu)
    requires
        pdu_encode_error(pdu) is None,
        encode_community_message(code, community, pdu).len() <= BUFFER_SIZE,
    ensures
        ({
            let s = encode_community_message(code, community, pdu);
            &&& spec_tlv(s, BerClass::Universal, true, TAG_SEQUENCE) matches Ok((a, b))
            &&& community_fields_are(
                s.subrange(a as int, b as int),
                SpecCommunityMessage { version: code, community, pdu },
            )
        }),
{
    lemma_community_message_roundtrip(code, community, pdu);
    lemma_community_fields(encode_community_message(code, community, pdu));
}

/// An SNMPv1 message.
#[derive(Debug)]
pub struct SnmpV1Message<'a> {
    pub community: &'a [u8],
    pub pdu: SnmpPdu<'a>,
}

impl<'a> SnmpV1Message<'a> {
    /// Decode a message, which must be of version 1.
    pub fn try_from(s: &'a [u8]) -> (r: Result<SnmpV1Message<'a>, SnmpError>)
        ensures
            match r {
                Ok(m) => spec_parse_versioned(s@, SNMP_V1) == Ok::<(Seq<u8>, SpecPdu), SnmpError>(
                    (m.community@, m.pdu@),
                ),
                Err(e) => spec_parse_versioned(s@, SNMP_V1) == Err::<(Seq<u8>, SpecPdu), SnmpError>(e),
            },
    {
        let (v, community, pdu) = parse_community_message(s)?;
        if v != SNMP_V1 {
            return Err(SnmpError::InvalidVersion(v));
        }
        Ok(SnmpV1Message { community, pdu })
    }

    /// Prepend the encoding of the message.
    pub fn push_ber(&self, buf: &mut Buffer) -> (r: Result<(), SnmpError>)
        requires
            old(buf).wf(),
        ensures
            final(buf).wf(),
            final(buf).mark() == old(buf).mark(),
            encoded_as(
                r,
                pdu_encode_error(self.pdu@),
                encode_community_message(SNMP_V1, self.community@, self.pdu@),
                old(buf)@,
                final(buf)@,
            ),
    {
        push_community_message(buf, SNMP_V1, self.community, &self.pdu)
    }
}

/// An SNMPv2c message.
#[derive(Debug)]
pub struct SnmpV2cMessage<'a> {
    pub community: &'a [u8],
    pub pdu: SnmpPdu<'a>,
}

impl<'a> SnmpV2cMessage<'a> {
    /// Decode a message, which must be of version 2c.
    pub fn try_from(s: &'a [u8]) -> (r: Result<SnmpV2cMessage<'a>, SnmpError>)
        ensures
            match r {
                Ok(m) => spec_parse_versioned(s@, SNMP_V2C) == Ok::<(Seq<u8>, SpecPdu), SnmpError>(
                    (m.community@, m.pdu@),
                ),
                Err(e) => spec_parse_versioned(s@, SNMP_V2C) == Err::<(Seq<u8>, SpecPdu), SnmpError>(e),
            },
    {
        let (v, community, pdu) = parse_community_message(s)?;
        if v != SNMP_V2C {
            return Err(SnmpError::InvalidVersion(v));
        }
        Ok(SnmpV2cMessage { community, pdu })
    }

    /// Prepend the encoding of the message.
    pub fn push_ber(&self, buf: &mut Buffer) -> (r: Result<(), SnmpError>)
        requires
            old(buf).wf(),
        ensures
            final(buf).wf(),
            final(buf).mark() == old(buf).mark(),
            encoded_as(
                r,
                pdu_encode_error(self.pdu@),
                encode_community_message(SNMP_V2C, self.community@, self.pdu@),
                old(buf)@,
                final(buf)@,
            ),
    {
        push_community_message(buf, SNMP_V2C, self.community, &self.pdu)
    }
}

} // verus!
