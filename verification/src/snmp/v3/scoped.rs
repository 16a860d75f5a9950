//! Scoped PDU: context engine id, context name and PDU.

use crate::ber::{
    encode_len, encode_tlv, expect_tlv, lemma_octets_roundtrip, lemma_tlv_roundtrip, parse_octets, slice_from, slice_sub, spec_parse_octets, spec_tlv,
    BerClass, SEQUENCE_BYTE, TAG_OCTET_STRING, TAG_SEQUENCE,
};
use crate::buf::{Buffer, BUFFER_SIZE};
use crate::error::SnmpError;
use crate::snmp::pdu::{encode_pdu, encoded_as, lemma_pdu_roundtrip, pdu_encode_error, spec_parse_pdu, SnmpPdu, SpecPdu};
use vstd::prelude::*;

verus! {

/// A scoped PDU; the context name is not kept.
#[derive(Debug)]
pub struct ScopedPdu<'a> {
    pub engine_id: &'a [u8],
    pub pdu: SnmpPdu<'a>,
}

/// Model of a scoped PDU.
pub struct SpecScopedPdu {
    pub engine_id: Seq<u8>,
    pub pdu: SpecPdu,
}

impl<'a> View for ScopedPdu<'a> {
    type V = SpecScopedPdu;

    open spec fn view(&self) -> SpecScopedPdu {
        SpecScopedPdu { engine_id: self.engine_id@, pdu: self.pdu@ }
    }
}

/// Decoding of a scoped PDU: a SEQUENCE of the context engine id, the
/// context name and the PDU; bytes after the SEQUENCE are ignored.
pub open spec fn spec_parse_scoped(s: Seq<u8>) -> Result<SpecScopedPdu, SnmpError> {
    match spec_tlv(s, BerClass::Universal, true, TAG_SEQUENCE) {
        Err(e) => Err(e),
        Ok((a, b)) => {
            let t0 = s.subrange(a as int, b as int);
            match spec_parse_octets(t0) {
                Err(e) => Err(e),
                Ok((eid, n1)) => {
                    let t1 = t0.skip(n1 as int);
                    match spec_parse_octets(t1) {
                        Err(e) => Err(e),
                        Ok((_, n2)) => match spec_parse_pdu(t1.skip(n2 as int)) {
                            Err(e) => Err(e),
                            Ok(p) => Ok(SpecScopedPdu { engine_id: eid, pdu: p }),
                        },
                    }
                },
            }
        },
    }
}

/// Encoding of a scoped PDU with an empty context name.
pub open spec fn encode_scoped(s: SpecScopedPdu) -> Seq<u8> {
    encode_tlv(
        SEQUENCE_BYTE,
        encode_tlv(TAG_OCTET_STRING, s.engine_id) + encode_tlv(
            TAG_OCTET_STRING,
            Seq::<u8>::empty(),
        ) + encode_pdu(s.pdu),
    )
}

/// A scoped PDU with a request PDU decodes to what was encoded,
/// whatever follows it.
pub proof fn lemma_scoped_roundtrip(sc: SpecScopedPdu, rest: Seq<u8>)
    requires
        pdu_encode_error(sc.pdu) is None,
        encode_scoped(sc).len() + rest.len() <= BUFFER_SIZE,
    ensures
        spec_parse_scoped(encode_scoped(sc) + rest) == Ok::<SpecScopedPdu, SnmpError>(sc),
{
    let o0 = encode_tlv(TAG_OCTET_STRING, sc.engine_id);
    let o1 = encode_tlv(TAG_OCTET_STRING, Seq::<u8>::empty());
    let p = encode_pdu(sc.pdu);
    let t1 = o1 + p;
    let t0 = o0 + t1;
    assert(t0 =~= o0 + o1 + p);
    let s = encode_scoped(sc) + rest;
    let hl = 1 + encode_len(t0.len()).len();
    assert(spec_tlv(s, BerClass::Universal, true, TAG_SEQUENCE) == Ok::<(usize, usize), SnmpError>(
        (hl as usize, (hl + t0.len()) as usize),
    ) && s.subrange(hl as int, hl + t0.len() as int) == t0) by {
        lemma_tlv_roundtrip(SEQUENCE_BYTE, t0, rest);
    }
    assert(spec_parse_octets(t0) == Ok::<(Seq<u8>, usize), SnmpError>(
        (sc.engine_id, o0.len() as usize),
    ) && t0.skip(o0.len() as int) == t1) by {
        lemma_octets_roundtrip(sc.engine_id, t1);
    }
    assert(spec_parse_octets(t1) == Ok::<(Seq<u8>, usize), SnmpError>(
        (Seq::<u8>::empty(), o1.len() as usize),
    ) && t1.skip(o1.len() as int) == p) by {
        lemma_octets_roundtrip(Seq::<u8>::empty(), p);
    }
    assert(spec_parse_pdu(p) == Ok::<SpecPdu, SnmpError>(sc.pdu)) by {
        lemma_pdu_roundtrip(sc.pdu, Seq::<u8>::empty());
        assert(p + Seq::<u8>::empty() =~= p);
    }
}

/// A decoded scoped PDU is a SEQUENCE of the context engine id, the
/// context name and the PDU, in this order.
pub proof fn lemma_scoped_fields(s: Seq<u8>)
    ensures
        spec_parse_scoped(s) matches Ok(sc) ==> {
            &&& spec_tlv(s, BerClass::Universal, true, TAG_SEQUENCE) matches Ok((a, b))
            &&& spec_parse_octets(s.subrange(a as int, b as int)) matches Ok((eid, n1))
            &&& eid == sc.engine_id
            &&& spec_parse_octets(s.subrange(a as int, b as int).skip(n1 as int)) matches Ok((_, n2))
            &&& spec_parse_pdu(s.subrange(a as int, b as int).skip(n1 as int).skip(n2 as int))
                == Ok::<SpecPdu, SnmpError>(sc.pdu)
        },
{
}

/// The encoding of a scoped PDU is a SEQUENCE of the context engine id,
/// an empty context name and the PDU, in this order.
pub proof fn lemma_scoped_layout(sc: SpecScopedPdu)
    requires
        pdu_encode_error(sc.pdu) is None,
        encode_scoped(sc).len() <= BUFFER_SIZE,
    ensures
        ({
            let s = encode_scoped(sc);
            &&& spec_tlv(s, BerClass::Universal, true, TAG_SEQUENCE) matches Ok((a, b))
            &&& spec_parse_octets(s.subrange(a as int, b as int)) matches Ok((eid, n1))
            &&& eid == sc.engine_id
            &&& spec_parse_octets(s.subrange(a as int, b as int).skip(n1 as int)) matches Ok((
                name,
                n2,
            ))
            &&& name.len() == 0
            &&& spec_parse_pdu(s.subrange(a as int, b as int).skip(n1 as int).skip(n2 as int))
                == Ok::<SpecPdu, SnmpError>(sc.pdu)
        }),
{
    let o0 = encode_tlv(TAG_OCTET_STRING, sc.engine_id);
    let o1 = encode_tlv(TAG_OCTET_STRING, Seq::<u8>::empty());
    let p = encode_pdu(sc.pdu);
    let t1 = o1 + p;
    let t0 = o0 + t1;
    let s = encode_scoped(sc);
    assert(t0 =~= o0 + o1 + p);
    let hl = 1 + encode_len(t0.len()).len();
    lemma_tlv_roundtrip(SEQUENCE_BYTE, t0, Seq::<u8>::empty());
    assert(s + Seq::<u8>::empty() =~= s);
    lemma_octets_roundtrip(sc.engine_id, t1);
    lemma_octets_roundtrip(Seq::<u8>::empty(), p);
    lemma_scoped_roundtrip(sc, Seq::<u8>::empty());
    lemma_scoped_fields(s);
}

impl<'a> ScopedPdu<'a> {
    /// Decode a scoped PDU.
    pub fn try_from(s: &'a [u8]) -> (r: Result<ScopedPdu<'a>, SnmpError>)
        ensures
            match r {
                Ok(p) => spec_parse_scoped(s@) == Ok::<SpecScopedPdu, SnmpError>(p@),
                Err(e) => spec_parse_scoped(s@) == Err::<SpecScopedPdu, SnmpError>(e),
            },
    {
        let (a, b) = expect_tlv(s, BerClass::Universal, true, TAG_SEQUENCE)?;
        let t0 = slice_sub(s, a, b);
        let (engine_id, n1) = parse_octets(t0)?;
        let t1 = slice_from(t0, n1);
        let (_, n2) = parse_octets(t1)?;
        let pdu = SnmpPdu::try_from(slice_from(t1, n2))?;
        Ok(ScopedPdu { engine_id, pdu })
    }

    /// Prepend the encoding of the scoped PDU.
    pub fn push_ber(&self, buf: &mut Buffer) -> (r: Result<(), SnmpError>)
        requires
            old(buf).wf(),
        ensures
            final(buf).wf(),
            final(buf).mark() == old(buf).mark(),
            encoded_as(r, pdu_encode_error(self.pdu@), encode_scoped(self@), old(buf)@, final(buf)@),
    {
        let ghost start = buf@;
        let rest = buf.len();
        self.pdu.push_ber(buf)?;
        let empty: Vec<u8> = Vec::new();
        if let Err(e) = buf.push_tagged(TAG_OCTET_STRING, empty.as_slice()) {
            return Err(e);
        }
        if let Err(e) = buf.push_tagged(TAG_OCTET_STRING, self.engine_id) {
            return Err(e);
        }
        let l = buf.len();
        let r = buf.push_tag_len(SEQUENCE_BYTE, l - rest);
        assert(r is Ok ==> buf@ =~= encode_scoped(self@) + start);
        r
    }
}

} // verus!
