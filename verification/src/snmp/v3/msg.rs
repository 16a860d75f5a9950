//! SNMPv3 message.

use crate::ber::{
    encode_len, encode_tlv, expect_tlv, lemma_octets_roundtrip, lemma_tlv_roundtrip, parse_octets, slice_from, slice_sub, spec_parse_octets, spec_tlv,
    BerClass, SEQUENCE_BYTE, TAG_OCTET_STRING, TAG_SEQUENCE,
};
use crate::buf::{Buffer, BUFFER_SIZE};
use crate::error::SnmpError;
use crate::integer::{encode_int, lemma_int_len, lemma_int_roundtrip, parse_int, push_int, spec_parse_int};
use crate::snmp::msg::{lemma_version_roundtrip, push_version, version_bytes, SNMP_V3};
use crate::snmp::pdu::encoded_as;
use crate::snmp::v3::data::{
    encode_msgdata, lemma_msgdata_roundtrip, msgdata_encode_error, spec_parse_msgdata, MsgData,
    SpecMsgData,
};
use crate::snmp::v3::usm::{
    encode_usm, lemma_marks_auth_prepend, lemma_usm_roundtrip, marks_auth, spec_parse_usm, SpecUsm, UsmParameters,
};
use vstd::prelude::*;

verus! {

/// Maximum message size announced in requests.
pub const MAX_SIZE: i64 = 2048;
/// The user-based security model.
pub const USM: u8 = 3;
pub const FLAG_AUTH: u8 = 1;
pub const FLAG_PRIV: u8 = 2;
pub const FLAG_REPORT: u8 = 4;

/// An SNMPv3 message.
#[derive(Debug)]
pub struct SnmpV3Message<'a> {
    pub msg_id: i64,
    pub flag_auth: bool,
    pub flag_priv: bool,
    pub flag_report: bool,
    pub usm: UsmParameters<'a>,
    pub data: MsgData<'a>,
}

/// Model of an SNMPv3 message.
pub struct SpecV3Message {
    pub msg_id: i64,
    pub flag_auth: bool,
    pub flag_priv: bool,
    pub flag_report: bool,
    pub usm: SpecUsm,
    pub data: SpecMsgData,
}

impl<'a> View for SnmpV3Message<'a> {
    type V = SpecV3Message;

    open spec fn view(&self) -> SpecV3Message {
        SpecV3Message {
            msg_id: self.msg_id,
            flag_auth: self.flag_auth,
            flag_priv: self.flag_priv,
            flag_report: self.flag_report,
            usm: self.usm@,
            data: self.data@,
        }
    }
}

/// The flags byte of a message.
pub open spec fn flags_byte(auth: bool, privacy: bool, report: bool) -> u8 {
    ((if auth {
        1u8
    } else {
        0u8
    }) + (if privacy {
        2u8
    } else {
        0u8
    }) + (if report {
        4u8
    } else {
        0u8
    })) as u8
}

/// The global header: message id, maximum size, flags and model.
pub open spec fn encode_header(msg_id: i64, flags: u8) -> Seq<u8> {
    encode_tlv(
        SEQUENCE_BYTE,
        encode_int(msg_id) + encode_int(MAX_SIZE) + seq![TAG_OCTET_STRING, 1u8, flags]
            + version_bytes(USM),
    )
}

/// Encoding of an SNMPv3 message.
pub open spec fn encode_v3(m: SpecV3Message) -> Seq<u8> {
    encode_tlv(
        SEQUENCE_BYTE,
        version_bytes(SNMP_V3) + encode_header(
            m.msg_id,
            flags_byte(m.flag_auth, m.flag_priv, m.flag_report),
        ) + encode_tlv(TAG_OCTET_STRING, encode_usm(m.usm)) + encode_msgdata(m.data),
    )
}

/// Decoding of an SNMPv3 message: a SEQUENCE, ending where `s` ends, of
/// the version (which must be 3), the global header (whose flags must be
/// one byte and whose security model must be USM), the USM parameters
/// wrapped in an OCTET STRING and the message data.
pub open spec fn spec_parse_v3(s: Seq<u8>) -> Result<SpecV3Message, SnmpError> {
    match spec_tlv(s, BerClass::Universal, true, TAG_SEQUENCE) {
        Err(e) => Err(e),
        Ok((a, b)) => if b != s.len() {
            Err(SnmpError::TrailingData)
        } else {
            let inner = s.subrange(a as int, b as int);
            match spec_parse_int(inner) {
                Err(e) => Err(e),
                Ok((v, n1)) => if v as u8 != SNMP_V3 {
                    Err(SnmpError::InvalidVersion(v as u8))
                } else {
                    let t1 = inner.skip(n1 as int);
                    match spec_tlv(t1, BerClass::Universal, true, TAG_SEQUENCE) {
                        Err(e) => Err(e),
                        Ok((h0, h1)) => {
                            let hdr = t1.subrange(h0 as int, h1 as int);
                            let sp = t1.skip(h1 as int);
                            spec_parse_v3_rest(hdr, sp)
                        },
                    }
                },
            }
        },
    }
}

/// Decoding of the global header `hdr` and of the parts `sp` after it.
pub open spec fn spec_parse_v3_rest(hdr: Seq<u8>, sp: Seq<u8>) -> Result<SpecV3Message, SnmpError> {
    match spec_parse_int(hdr) {
        Err(e) => Err(e),
        Ok((msg_id, m1)) => {
            let u1 = hdr.skip(m1 as int);
            match spec_parse_int(u1) {
                Err(e) => Err(e),
                Ok((_, m2)) => {
                    let u2 = u1.skip(m2 as int);
                    match spec_parse_octets(u2) {
                        Err(e) => Err(e),
                        Ok((fl, m3)) => if fl.len() != 1 {
                            Err(SnmpError::InvalidPdu)
                        } else {
                            match spec_parse_int(u2.skip(m3 as int)) {
                                Err(e) => Err(e),
                                Ok((sm, _)) => if sm as u8 != USM {
                                    Err(SnmpError::UnknownSecurityModel)
                                } else {
                                    match spec_parse_octets(sp) {
                                        Err(e) => Err(e),
                                        Ok((params, p1)) => match spec_parse_usm(params) {
                                            Err(e) => Err(e),
                                            Ok(usm) => match spec_parse_msgdata(sp.skip(p1 as int)) {
                                                Err(e) => Err(e),
                                                Ok(d) => Ok(
                                                    SpecV3Message {
                                                        msg_id,
                                                        flag_auth: fl[0] % 2 == 1,
                                                        flag_priv: (fl[0] / 2) % 2 == 1,
                                                        flag_report: (fl[0] / 4) % 2 == 1,
                                                        usm,
                                                        data: d,
                                                    },
                                                ),
                                            },
                                        },
                                    }
                                },
                            }
                        },
                    }
                },
            }
        },
    }
}

/// The three flags come back from their byte.
pub proof fn lemma_flags_roundtrip(auth: bool, privacy: bool, report: bool)
    ensures
        flags_byte(auth, privacy, report) % 2 == 1 <==> auth,
        (flags_byte(auth, privacy, report) / 2) % 2 == 1 <==> privacy,
        (flags_byte(auth, privacy, report) / 4) % 2 == 1 <==> report,
{
}

/// Decoding of the global header and the parts after it, from what
/// each of their elements decodes to.
proof fn lemma_v3_rest_parts(
    hdr: Seq<u8>,
    sp: Seq<u8>,
    m: SpecV3Message,
    n1: usize,
    n2: usize,
    fl: u8,
    params: Seq<u8>,
    p1: usize,
)
    requires
        spec_parse_int(hdr) == Ok::<(i64, usize), SnmpError>((m.msg_id, n1)),
        spec_parse_int(hdr.skip(n1 as int)) == Ok::<(i64, usize), SnmpError>((MAX_SIZE, n2)),
        spec_parse_octets(hdr.skip(n1 as int).skip(n2 as int)) == Ok::<(Seq<u8>, usize), SnmpError>(
            (seq![fl], 3),
        ),
        spec_parse_int(hdr.skip(n1 as int).skip(n2 as int).skip(3)) matches Ok((sm, _)) && sm as u8
            == USM,
        spec_parse_octets(sp) == Ok::<(Seq<u8>, usize), SnmpError>((params, p1)),
        spec_parse_usm(params) == Ok::<SpecUsm, SnmpError>(m.usm),
        spec_parse_msgdata(sp.skip(p1 as int)) == Ok::<SpecMsgData, SnmpError>(m.data),
        fl == flags_byte(m.flag_auth, m.flag_priv, m.flag_report),
    ensures
        spec_parse_v3_rest(hdr, sp) == Ok::<SpecV3Message, SnmpError>(m),
{
    lemma_flags_roundtrip(m.flag_auth, m.flag_priv, m.flag_report);
    assert(seq![fl][0] == fl);
}

/// The fields of the global header decode to the message id, the
/// maximum size, the flags byte and the security model.
proof fn lemma_header_fields(msg_id: i64, fl: u8)
    ensures
        ({
            let hdr = encode_int(msg_id) + encode_int(MAX_SIZE) + seq![TAG_OCTET_STRING, 1u8, fl]
                + version_bytes(USM);
            let n1 = encode_int(msg_id).len() as usize;
            let n2 = encode_int(MAX_SIZE).len() as usize;
            &&& spec_parse_int(hdr) == Ok::<(i64, usize), SnmpError>((msg_id, n1))
            &&& spec_parse_int(hdr.skip(n1 as int)) == Ok::<(i64, usize), SnmpError>(
                (MAX_SIZE, n2),
            )
            &&& spec_parse_octets(hdr.skip(n1 as int).skip(n2 as int)) == Ok::<
                (Seq<u8>, usize),
                SnmpError,
            >((seq![fl], 3))
            &&& spec_parse_int(hdr.skip(n1 as int).skip(n2 as int).skip(3)) matches Ok((sm, _))
                && sm as u8 == USM
        }),
{
    let i0 = encode_int(msg_id);
    let i1 = encode_int(MAX_SIZE);
    let f = seq![TAG_OCTET_STRING, 1u8, fl];
    let vb = version_bytes(USM);
    let u2 = f + vb;
    let u1 = i1 + u2;
    let hdr = i0 + u1;
    assert(hdr =~= i0 + i1 + f + vb);
    assert(i0.len() <= 10 && i1.len() <= 10) by {
        lemma_int_roundtrip(msg_id, u1);
        lemma_int_roundtrip(MAX_SIZE, u2);
        lemma_int_len(msg_id);
        lemma_int_len(MAX_SIZE);
    }
    assert(spec_parse_int(hdr) == Ok::<(i64, usize), SnmpError>((msg_id, i0.len() as usize))) by {
        lemma_int_roundtrip(msg_id, u1);
    }
    assert(hdr.skip(i0.len() as int) =~= u1);
    assert(spec_parse_int(u1) == Ok::<(i64, usize), SnmpError>((MAX_SIZE, i1.len() as usize))) by {
        lemma_int_roundtrip(MAX_SIZE, u2);
    }
    assert(u1.skip(i1.len() as int) =~= u2);
    assert(spec_parse_octets(u2) == Ok::<(Seq<u8>, usize), SnmpError>((seq![fl], 3))
        && u2.skip(3) == vb) by {
        assert(f == encode_tlv(TAG_OCTET_STRING, seq![fl]));
        lemma_octets_roundtrip(seq![fl], vb);
    }
    assert(spec_parse_int(vb) matches Ok((sm, _)) && sm as u8 == USM) by {
        lemma_version_roundtrip(USM, Seq::<u8>::empty());
        assert(vb + Seq::<u8>::empty() =~= vb);
    }
}

/// The security parameters and the data after the header decode to
/// what they were encoded from.
proof fn lemma_security_fields(u: SpecUsm, d: SpecMsgData)
    requires
        msgdata_encode_error(d) is None,
        encode_tlv(TAG_OCTET_STRING, encode_usm(u)).len() + encode_msgdata(d).len() <= BUFFER_SIZE,
    ensures
        ({
            let ue = encode_usm(u);
            let up = encode_tlv(TAG_OCTET_STRING, ue);
            let sp = up + encode_msgdata(d);
            &&& spec_parse_octets(sp) == Ok::<(Seq<u8>, usize), SnmpError>((ue, up.len() as usize))
            &&& spec_parse_usm(ue) == Ok::<SpecUsm, SnmpError>(u)
            &&& spec_parse_msgdata(sp.skip(up.len() as int)) == Ok::<SpecMsgData, SnmpError>(d)
        }),
{
    let ue = encode_usm(u);
    let de = encode_msgdata(d);
    lemma_octets_roundtrip(ue, de);
    lemma_usm_roundtrip(u);
    lemma_msgdata_roundtrip(d, Seq::<u8>::empty());
    assert(de + Seq::<u8>::empty() =~= de);
}

/// The global header and the parts after it decode to the message they
/// were encoded from.
proof fn lemma_v3_rest_roundtrip(m: SpecV3Message)
    requires
        msgdata_encode_error(m.data) is None,
        encode_tlv(TAG_OCTET_STRING, encode_usm(m.usm)).len() + encode_msgdata(m.data).len()
            <= BUFFER_SIZE,
    ensures
        spec_parse_v3_rest(
            encode_int(m.msg_id) + encode_int(MAX_SIZE) + seq![
                TAG_OCTET_STRING,
                1u8,
                flags_byte(m.flag_auth, m.flag_priv, m.flag_report),
            ] + version_bytes(USM),
            encode_tlv(TAG_OCTET_STRING, encode_usm(m.usm)) + encode_msgdata(m.data),
        ) == Ok::<SpecV3Message, SnmpError>(m),
{
    let fl = flags_byte(m.flag_auth, m.flag_priv, m.flag_report);
    lemma_header_fields(m.msg_id, fl);
    lemma_security_fields(m.usm, m.data);
    let hdr = encode_int(m.msg_id) + encode_int(MAX_SIZE) + seq![TAG_OCTET_STRING, 1u8, fl]
        + version_bytes(USM);
    let ue = encode_usm(m.usm);
    let up = encode_tlv(TAG_OCTET_STRING, ue);
    let sp = up + encode_msgdata(m.data);
    lemma_v3_rest_parts(
        hdr,
        sp,
        m,
        encode_int(m.msg_id).len() as usize,
        encode_int(MAX_SIZE).len() as usize,
        fl,
        ue,
        up.len() as usize,
    );
}

/// An SNMPv3 message decodes to what was encoded: message id, flags,
/// security parameters and data come back.
pub proof fn lemma_v3_roundtrip(m: SpecV3Message)
    requires
        msgdata_encode_error(m.data) is None,
        encode_v3(m).len() <= BUFFER_SIZE,
    ensures
        spec_parse_v3(encode_v3(m)) == Ok::<SpecV3Message, SnmpError>(m),
{
    let fl = flags_byte(m.flag_auth, m.flag_priv, m.flag_report);
    let v = version_bytes(SNMP_V3);
    let hb = encode_int(m.msg_id) + encode_int(MAX_SIZE) + seq![TAG_OCTET_STRING, 1u8, fl]
        + version_bytes(USM);
    let h = encode_header(m.msg_id, fl);
    let sp = encode_tlv(TAG_OCTET_STRING, encode_usm(m.usm)) + encode_msgdata(m.data);
    let t1 = h + sp;
    let inner = v + t1;
    let s = encode_v3(m);
    assert(s == encode_tlv(SEQUENCE_BYTE, inner)) by {
        assert(inner =~= v + h + sp);
    }
    let hl = 1 + encode_len(inner.len()).len();
    assert(spec_tlv(s, BerClass::Universal, true, TAG_SEQUENCE) == Ok::<(usize, usize), SnmpError>(
        (hl as usize, s.len() as usize),
    ) && s.subrange(hl as int, s.len() as int) == inner) by {
        lemma_tlv_roundtrip(SEQUENCE_BYTE, inner, Seq::<u8>::empty());
        assert(s + Seq::<u8>::empty() =~= s);
    }
    assert(spec_parse_int(inner) matches Ok((x, n)) && n == 3 && x as u8 == SNMP_V3) by {
        lemma_version_roundtrip(SNMP_V3, t1);
    }
    assert(inner.skip(3) =~= t1);
    let h0 = 1 + encode_len(hb.len()).len();
    assert(spec_tlv(t1, BerClass::Universal, true, TAG_SEQUENCE) == Ok::<(usize, usize), SnmpError>(
        (h0 as usize, h.len() as usize),
    ) && t1.subrange(h0 as int, h.len() as int) == hb && t1.skip(h.len() as int) == sp) by {
        lemma_tlv_roundtrip(SEQUENCE_BYTE, hb, sp);
    }
    lemma_v3_rest_roundtrip(m);
}

/// A decoded SNMPv3 message is a SEQUENCE, ending with the input, of
/// the version INTEGER 3, the global header SEQUENCE and the parts after
/// it. In the header, the first INTEGER is the message id, the OCTET
/// STRING after the maximum size is the one flags byte, whose bit 0 is
/// authentication, bit 1 privacy and bit 2 reportable, and the INTEGER
/// after it names the security model 3 (USM). After the header come the
/// USM parameters, wrapped in an OCTET STRING, and the message data.
pub proof fn lemma_v3_fields(s: Seq<u8>)
    ensures
        spec_parse_v3(s) matches Ok(m) ==> {
            &&& spec_tlv(s, BerClass::Universal, true, TAG_SEQUENCE) matches Ok((a, b))
            &&& b == s.len()
            &&& spec_parse_int(s.subrange(a as int, b as int)) matches Ok((v, n1))
            &&& v as u8 == SNMP_V3
            &&& spec_tlv(
                s.subrange(a as int, b as int).skip(n1 as int),
                BerClass::Universal,
                true,
                TAG_SEQUENCE,
            ) matches Ok((h0, h1))
            &&& v3_rest_fields_are(
                s.subrange(a as int, b as int).skip(n1 as int).subrange(h0 as int, h1 as int),
                s.subrange(a as int, b as int).skip(n1 as int).skip(h1 as int),
                m,
            )
        },
{
    if let Ok(m) = spec_parse_v3(s) {
        let inner = s.subrange(
            spec_tlv(s, BerClass::Universal, true, TAG_SEQUENCE)->Ok_0.0 as int,
            spec_tlv(s, BerClass::Universal, true, TAG_SEQUENCE)->Ok_0.1 as int,
        );
        let t1 = inner.skip(spec_parse_int(inner)->Ok_0.1 as int);
        let (h0, h1) = spec_tlv(t1, BerClass::Universal, true, TAG_SEQUENCE)->Ok_0;
        lemma_v3_rest_fields(t1.subrange(h0 as int, h1 as int), t1.skip(h1 as int));
    }
}

/// The encoding of an SNMPv3 message holds its fields at the places
/// described for `lemma_v3_fields`.
pub proof fn lemma_v3_layout(m: SpecV3Message)
    requires
        msgdata_encode_error(m.data) is None,
        encode_v3(m).len() <= BUFFER_SIZE,
    ensures
        ({
            let s = encode_v3(m);
            &&& spec_tlv(s, BerClass::Universal, true, TAG_SEQUENCE) matches Ok((a, b))
            &&& spec_parse_int(s.subrange(a as int, b as int)) matches Ok((v, n1))
            &&& v as u8 == SNMP_V3
            &&& spec_tlv(
                s.subrange(a as int, b as int).skip(n1 as int),
                BerClass::Universal,
                true,
                TAG_SEQUENCE,
            ) matches Ok((h0, h1))
            &&& v3_rest_fields_are(
                s.subrange(a as int, b as int).skip(n1 as int).subrange(h0 as int, h1 as int),
                s.subrange(a as int, b as int).skip(n1 as int).skip(h1 as int),
                m,
            )
        }),
{
    lemma_v3_roundtrip(m);
    lemma_v3_fields(encode_v3(m));
}

/// The global header `hdr` and the parts `sp` after it hold the fields
/// of `m` as described for `lemma_v3_fields`.
pub open spec fn v3_rest_fields_are(hdr: Seq<u8>, sp: Seq<u8>, m: SpecV3Message) -> bool {
    &&& spec_parse_int(hdr) matches Ok((id, n1))
    &&& id == m.msg_id
    &&& spec_parse_int(hdr.skip(n1 as int)) matches Ok((_, n2))
    &&& spec_parse_octets(hdr.skip(n1 as int).skip(n2 as int)) matches Ok((fl, n3))
    &&& fl.len() == 1
    &&& (m.flag_auth <==> fl[0] % 2 == 1)
    &&& (m.flag_priv <==> (fl[0] / 2) % 2 == 1)
    &&& (m.flag_report <==> (fl[0] / 4) % 2 == 1)
    &&& spec_parse_int(hdr.skip(n1 as int).skip(n2 as int).skip(n3 as int)) matches Ok((sm, _))
    &&& sm as u8 == USM
    &&& spec_parse_octets(sp) matches Ok((params, p1))
    &&& spec_parse_usm(params) == Ok::<SpecUsm, SnmpError>(m.usm)
    &&& spec_parse_msgdata(sp.skip(p1 as int)) == Ok::<SpecMsgData, SnmpError>(m.data)
}

proof fn lemma_v3_rest_fields(hdr: Seq<u8>, sp: Seq<u8>)
    ensures
        spec_parse_v3_rest(hdr, sp) matches Ok(m) ==> v3_rest_fields_are(hdr, sp, m),
{
}

fn parse_v3_rest<'a>(hdr: &'a [u8], sp: &'a [u8]) -> (r: Result<SnmpV3Message<'a>, SnmpError>)
    ensures
        match r {
            Ok(m) => spec_parse_v3_rest(hdr@, sp@) == Ok::<SpecV3Message, SnmpError>(m@),
            Err(e) => spec_parse_v3_rest(hdr@, sp@) == Err::<SpecV3Message, SnmpError>(e),
        },
{
    let (msg_id, m1) = parse_int(hdr)?;
    let u1 = slice_from(hdr, m1);
    let (_max_size, m2) = parse_int(u1)?;
    let u2 = slice_from(u1, m2);
    let (flags_data, m3) = parse_octets(u2)?;
    if flags_data.len() != 1 {
        return Err(SnmpError::InvalidPdu);
    }
    let flags = flags_data[0];
    let (security_model, _) = parse_int(slice_from(u2, m3))?;
    if security_model as u8 != USM {
        return Err(SnmpError::UnknownSecurityModel);
    }
    let (params, p1) = parse_octets(sp)?;
    let usm = UsmParameters::try_from(params)?;
    let data = MsgData::try_from(slice_from(sp, p1))?;
    Ok(
        SnmpV3Message {
            msg_id,
            flag_auth: flags % 2 == 1,
            flag_priv: (flags / 2) % 2 == 1,
            flag_report: (flags / 4) % 2 == 1,
            usm,
            data,
        },
    )
}

impl<'a> SnmpV3Message<'a> {
    /// Decode an SNMPv3 message.
    pub fn try_from(s: &'a [u8]) -> (r: Result<SnmpV3Message<'a>, SnmpError>)
        ensures
            match r {
                Ok(m) => spec_parse_v3(s@) == Ok::<SpecV3Message, SnmpError>(m@),
                Err(e) => spec_parse_v3(s@) == Err::<SpecV3Message, SnmpError>(e),
            },
    {
        let (a, b) = expect_tlv(s, BerClass::Universal, true, TAG_SEQUENCE)?;
        if b != s.len() {
            return Err(SnmpError::TrailingData);
        }
        let inner = slice_sub(s, a, b);
        let (v, n1) = parse_int(inner)?;
        if v as u8 != SNMP_V3 {
            return Err(SnmpError::InvalidVersion(v as u8));
        }
        let t1 = slice_from(inner, n1);
        let (h0, h1) = expect_tlv(t1, BerClass::Universal, true, TAG_SEQUENCE)?;
        parse_v3_rest(slice_sub(t1, h0, h1), slice_from(t1, h1))
    }

    /// Prepend the encoding of the message. When the authentication
    /// parameters are non-empty and shorter than 128 bytes, the bookmark
    /// ends on their first byte, where a signature is to be written.
    #[verifier::rlimit(80)]
    pub fn push_ber(&self, buf: &mut Buffer) -> (r: Result<(), SnmpError>)
        requires
            old(buf).wf(),
        ensures
            final(buf).wf(),
            encoded_as(r, msgdata_encode_error(self.data@), encode_v3(self@), old(buf)@, final(buf)@),
            r is Ok && 0 < self.usm.auth_params@.len() < 128 ==> marks_auth(
                *final(buf),
                self.usm.auth_params@,
            ),
    {
        let ghost start = buf@;
        let ghost m = self@;
        let l0 = buf.len();
        self.data.push_ber(buf)?;
        let ghost b1 = buf@;
        if let Err(e) = push_security(buf, &self.usm) {
            return Err(e);
        }
        let ghost after_usm = *buf;
        let flags = flags_of(self.flag_auth, self.flag_priv, self.flag_report);
        if let Err(e) = push_header(buf, self.msg_id, flags) {
            return Err(e);
        }
        let ghost b3 = buf@;
        if let Err(e) = push_version(buf, SNMP_V3) {
            return Err(e);
        }
        let ghost b4 = buf@;
        let l4 = buf.len();
        proof {
            let body = version_bytes(SNMP_V3) + encode_header(
                m.msg_id,
                flags_byte(m.flag_auth, m.flag_priv, m.flag_report),
            ) + encode_tlv(TAG_OCTET_STRING, encode_usm(m.usm)) + encode_msgdata(m.data);
            assert(b4 =~= body + start);
            assert(l4 - l0 == body.len());
        }
        let r = buf.push_tag_len(SEQUENCE_BYTE, l4 - l0);
        proof {
            assert(r is Ok ==> buf@ =~= encode_v3(m) + start);
            if r is Ok && 0 < self.usm.auth_params@.len() < 128 {
                let x = buf@.subrange(0, buf@.len() - after_usm@.len());
                assert(buf@ =~= x + after_usm@);
                lemma_marks_auth_prepend(after_usm, *buf, x, self.usm.auth_params@);
            }
        }
        r
    }
}

/// The flags byte for the given flags.
fn flags_of(auth: bool, privacy: bool, report: bool) -> (r: u8)
    ensures
        r == flags_byte(auth, privacy, report),
{
    (if auth {
        FLAG_AUTH
    } else {
        0
    }) + (if privacy {
        FLAG_PRIV
    } else {
        0
    }) + (if report {
        FLAG_REPORT
    } else {
        0
    })
}

/// Prepend the USM parameters wrapped in an OCTET STRING.
fn push_security(buf: &mut Buffer, usm: &UsmParameters) -> (r: Result<(), SnmpError>)
    requires
        old(buf).wf(),
    ensures
        final(buf).wf(),
        encoded_as(r, None, encode_tlv(TAG_OCTET_STRING, encode_usm(usm@)), old(buf)@, final(buf)@),
        r is Ok && 0 < usm.auth_params@.len() < 128 ==> marks_auth(*final(buf), usm.auth_params@),
{
    let ghost start = buf@;
    let ln = buf.len();
    if let Err(e) = usm.push_ber(buf) {
        return Err(e);
    }
    let ghost after_usm = *buf;
    let l2 = buf.len();
    let r = buf.push_tag_len(TAG_OCTET_STRING, l2 - ln);
    proof {
        assert(r is Ok ==> buf@ =~= encode_tlv(TAG_OCTET_STRING, encode_usm(usm@)) + start);
        if r is Ok && 0 < usm.auth_params@.len() < 128 {
            let x = buf@.subrange(0, buf@.len() - after_usm@.len());
            assert(buf@ =~= x + after_usm@);
            lemma_marks_auth_prepend(after_usm, *buf, x, usm.auth_params@);
        }
    }
    r
}

/// Prepend the global header.
fn push_header(buf: &mut Buffer, msg_id: i64, flags: u8) -> (r: Result<(), SnmpError>)
    requires
        old(buf).wf(),
    ensures
        final(buf).wf(),
        final(buf).mark() == old(buf).mark(),
        encoded_as(r, None, encode_header(msg_id, flags), old(buf)@, final(buf)@),
{
    let ghost start = buf@;
    let lh = buf.len();
    if let Err(e) = push_version(buf, USM) {
        return Err(e);
    }
    if let Err(e) = buf.push_u8(flags) {
        return Err(e);
    }
    if let Err(e) = buf.push_tag_len(TAG_OCTET_STRING, 1) {
        return Err(e);
    }
    if let Err(e) = push_int(buf, MAX_SIZE) {
        return Err(e);
    }
    if let Err(e) = push_int(buf, msg_id) {
        return Err(e);
    }
    let l3 = buf.len();
    let r = buf.push_tag_len(SEQUENCE_BYTE, l3 - lh);
    proof {
        crate::ber::lemma_encode_len_short(1);
        assert(r is Ok ==> buf@ =~= encode_header(msg_id, flags) + start);
    }
    r
}

} // verus!
