//! User-based security model parameters.

use crate::ber::{
    encode_len, encode_tlv, expect_tlv, lemma_octets_roundtrip, lemma_tlv_roundtrip, parse_octets, slice_from, slice_sub, spec_parse_octets, spec_tlv,
    BerClass, SEQUENCE_BYTE, TAG_OCTET_STRING, TAG_SEQUENCE,
};
use crate::buf::{Buffer, BUFFER_SIZE};
use crate::error::SnmpError;
use crate::integer::{encode_int, lemma_int_roundtrip, parse_int, push_int, spec_parse_int};
use crate::snmp::pdu::encoded_as;
use vstd::prelude::*;

verus! {

/// USM security parameters of a message.
#[derive(Debug)]
pub struct UsmParameters<'a> {
    pub engine_id: &'a [u8],
    pub engine_boots: i64,
    pub engine_time: i64,
    pub user_name: &'a [u8],
    pub auth_params: &'a [u8],
    pub privacy_params: &'a [u8],
}

/// Model of the USM parameters.
pub struct SpecUsm {
    pub engine_id: Seq<u8>,
    pub engine_boots: i64,
    pub engine_time: i64,
    pub user_name: Seq<u8>,
    pub auth_params: Seq<u8>,
    pub privacy_params: Seq<u8>,
}

impl<'a> View for UsmParameters<'a> {
    type V = SpecUsm;

    open spec fn view(&self) -> SpecUsm {
        SpecUsm {
            engine_id: self.engine_id@,
            engine_boots: self.engine_boots,
            engine_time: self.engine_time,
            user_name: self.user_name@,
            auth_params: self.auth_params@,
            privacy_params: self.privacy_params@,
        }
    }
}

/// Decoding of the USM parameters: a SEQUENCE, ending where `s` ends,
/// of engine id, engine boots, engine time, user name, authentication
/// and privacy parameters.
pub open spec fn spec_parse_usm(s: Seq<u8>) -> Result<SpecUsm, SnmpError> {
    match spec_tlv(s, BerClass::Universal, true, TAG_SEQUENCE) {
        Err(e) => Err(e),
        Ok((a, b)) => if b != s.len() {
            Err(SnmpError::TrailingData)
        } else {
            let t0 = s.subrange(a as int, b as int);
            match spec_parse_octets(t0) {
                Err(e) => Err(e),
                Ok((eid, n1)) => {
                    let t1 = t0.skip(n1 as int);
                    match spec_parse_int(t1) {
                        Err(e) => Err(e),
                        Ok((boots, n2)) => {
                            let t2 = t1.skip(n2 as int);
                            match spec_parse_int(t2) {
                                Err(e) => Err(e),
                                Ok((time, n3)) => {
                                    let t3 = t2.skip(n3 as int);
                                    match spec_parse_octets(t3) {
                                        Err(e) => Err(e),
                                        Ok((user, n4)) => {
                                            let t4 = t3.skip(n4 as int);
                                            match spec_parse_octets(t4) {
                                                Err(e) => Err(e),
                                                Ok((auth, n5)) => match spec_parse_octets(
                                                    t4.skip(n5 as int),
                                                ) {
                                                    Err(e) => Err(e),
                                                    Ok((privacy, _)) => Ok(
                                                        SpecUsm {
                                                            engine_id: eid,
                                                            engine_boots: boots,
                                                            engine_time: time,
                                                            user_name: user,
                                                            auth_params: auth,
                                                            privacy_params: privacy,
                                                        },
                                                    ),
                                                },
                                            }
                                        },
                                    }
                                },
                            }
                        },
                    }
                },
            }
        },
    }
}

/// Encoding of the USM parameters.
pub open spec fn encode_usm(u: SpecUsm) -> Seq<u8> {
    encode_tlv(
        SEQUENCE_BYTE,
        encode_tlv(TAG_OCTET_STRING, u.engine_id) + encode_int(u.engine_boots) + encode_int(
            u.engine_time,
        ) + encode_tlv(TAG_OCTET_STRING, u.user_name) + encode_tlv(TAG_OCTET_STRING, u.auth_params)
            + encode_tlv(TAG_OCTET_STRING, u.privacy_params),
    )
}

/// USM parameters decode to what was encoded.
pub proof fn lemma_usm_roundtrip(u: SpecUsm)
    requires
        encode_usm(u).len() <= BUFFER_SIZE,
    ensures
        spec_parse_usm(encode_usm(u)) == Ok::<SpecUsm, SnmpError>(u),
{
    let o0 = encode_tlv(TAG_OCTET_STRING, u.engine_id);
    let i1 = encode_int(u.engine_boots);
    let i2 = encode_int(u.engine_time);
    let o3 = encode_tlv(TAG_OCTET_STRING, u.user_name);
    let o4 = encode_tlv(TAG_OCTET_STRING, u.auth_params);
    let t5 = encode_tlv(TAG_OCTET_STRING, u.privacy_params);
    let t4 = o4 + t5;
    let t3 = o3 + t4;
    let t2 = i2 + t3;
    let t1 = i1 + t2;
    let t0 = o0 + t1;
    let s = encode_usm(u);
    assert(t0 =~= o0 + i1 + i2 + o3 + o4 + t5);
    let hl = 1 + encode_len(t0.len()).len();
    assert(spec_tlv(s, BerClass::Universal, true, TAG_SEQUENCE) == Ok::<(usize, usize), SnmpError>(
        (hl as usize, s.len() as usize),
    ) && s.subrange(hl as int, s.len() as int) == t0) by {
        lemma_tlv_roundtrip(SEQUENCE_BYTE, t0, Seq::<u8>::empty());
        assert(s + Seq::<u8>::empty() =~= s);
    }
    assert(spec_parse_octets(t0) == Ok::<(Seq<u8>, usize), SnmpError>(
        (u.engine_id, o0.len() as usize),
    ) && t0.skip(o0.len() as int) == t1) by {
        lemma_octets_roundtrip(u.engine_id, t1);
    }
    assert(spec_parse_int(t1) == Ok::<(i64, usize), SnmpError>((u.engine_boots, i1.len() as usize)))
        by {
        lemma_int_roundtrip(u.engine_boots, t2);
    }
    assert(t1.skip(i1.len() as int) =~= t2);
    assert(spec_parse_int(t2) == Ok::<(i64, usize), SnmpError>((u.engine_time, i2.len() as usize)))
        by {
        lemma_int_roundtrip(u.engine_time, t3);
    }
    assert(t2.skip(i2.len() as int) =~= t3);
    assert(spec_parse_octets(t3) == Ok::<(Seq<u8>, usize), SnmpError>(
        (u.user_name, o3.len() as usize),
    ) && t3.skip(o3.len() as int) == t4) by {
        lemma_octets_roundtrip(u.user_name, t4);
    }
    assert(spec_parse_octets(t4) == Ok::<(Seq<u8>, usize), SnmpError>(
        (u.auth_params, o4.len() as usize),
    ) && t4.skip(o4.len() as int) == t5) by {
        lemma_octets_roundtrip(u.auth_params, t5);
    }
    assert(spec_parse_octets(t5) == Ok::<(Seq<u8>, usize), SnmpError>(
        (u.privacy_params, t5.len() as usize),
    )) by {
        lemma_octets_roundtrip(u.privacy_params, Seq::<u8>::empty());
        assert(t5 + Seq::<u8>::empty() =~= t5);
    }
}

/// The fields of decoded USM parameters are the elements of its
/// SEQUENCE in this order: engine id, engine boots, engine time, user
/// name, authentication parameters and privacy parameters.
pub proof fn lemma_usm_fields(s: Seq<u8>)
    ensures
        spec_parse_usm(s) matches Ok(u) ==> {
            &&& spec_tlv(s, BerClass::Universal, true, TAG_SEQUENCE) matches Ok((a, b))
            &&& usm_fields_are(s.subrange(a as int, b as int), u)
        },
{
}

/// The contents `c` of a USM SEQUENCE hold the fields of `u` in order.
pub open spec fn usm_fields_are(c: Seq<u8>, u: SpecUsm) -> bool {
    &&& spec_parse_octets(c) matches Ok((eid, n1))
    &&& eid == u.engine_id
    &&& spec_parse_int(c.skip(n1 as int)) matches Ok((boots, n2))
    &&& boots == u.engine_boots
    &&& spec_parse_int(c.skip(n1 as int).skip(n2 as int)) matches Ok((time, n3))
    &&& time == u.engine_time
    &&& spec_parse_octets(c.skip(n1 as int).skip(n2 as int).skip(n3 as int)) matches Ok((user, n4))
    &&& user == u.user_name
    &&& spec_parse_octets(c.skip(n1 as int).skip(n2 as int).skip(n3 as int).skip(n4 as int))
        matches Ok((auth, n5))
    &&& auth == u.auth_params
    &&& spec_parse_octets(
        c.skip(n1 as int).skip(n2 as int).skip(n3 as int).skip(n4 as int).skip(n5 as int),
    ) matches Ok((privacy, _))
    &&& privacy == u.privacy_params
}

/// The encoding of USM parameters is a SEQUENCE holding engine id,
/// engine boots, engine time, user name, authentication and privacy
/// parameters, in this order.
pub proof fn lemma_usm_layout(u: SpecUsm)
    requires
        encode_usm(u).len() <= BUFFER_SIZE,
    ensures
        spec_tlv(encode_usm(u), BerClass::Universal, true, TAG_SEQUENCE) matches Ok((a, b))
            && usm_fields_are(encode_usm(u).subrange(a as int, b as int), u),
{
    lemma_usm_roundtrip(u);
    lemma_usm_fields(encode_usm(u));
}

/// Whether the bookmark of `buf` points at `auth` in the written bytes.
pub open spec fn marks_auth(buf: Buffer, auth: Seq<u8>) -> bool {
    &&& 0 <= buf.spec_bookmark()
    &&& buf.spec_bookmark() + auth.len() <= buf@.len()
    &&& buf@.subrange(buf.spec_bookmark(), buf.spec_bookmark() + auth.len()) == auth
}

/// A range of `tail` is found, shifted, in any sequence ending with it.
pub proof fn lemma_prefix_keeps(whole: Seq<u8>, tail: Seq<u8>, i: int, k: int)
    requires
        tail.len() <= whole.len(),
        whole.subrange(whole.len() - tail.len(), whole.len() as int) == tail,
        0 <= i,
        0 <= k,
        i + k <= tail.len(),
    ensures
        whole.subrange(whole.len() - tail.len() + i, whole.len() - tail.len() + i + k)
            == tail.subrange(i, i + k),
{
    let q = whole.len() - tail.len();
    assert forall|j: int| 0 <= j < k implies #[trigger] whole[q + i + j] == tail[i + j] by {
        assert(whole[q + i + j] == whole.subrange(q, whole.len() as int)[i + j]);
    }
    assert(whole.subrange(q + i, q + i + k) =~= tail.subrange(i, i + k));
}

/// Prepending bytes keeps the bookmark on the authentication parameters.
pub proof fn lemma_marks_auth_prepend(b1: Buffer, b2: Buffer, x: Seq<u8>, auth: Seq<u8>)
    requires
        marks_auth(b1, auth),
        b2@ == x + b1@,
        b2.mark() == b1.mark(),
    ensures
        marks_auth(b2, auth),
{
    let i = b1.spec_bookmark();
    let k = auth.len() as int;
    assert(b2.spec_bookmark() == i + x.len());
    assert(b2@.subrange(i + x.len(), i + x.len() + k) =~= b1@.subrange(i, i + k));
}

impl<'a> UsmParameters<'a> {
    /// Decode the USM parameters.
    pub fn try_from(s: &'a [u8]) -> (r: Result<UsmParameters<'a>, SnmpError>)
        ensures
            match r {
                Ok(u) => spec_parse_usm(s@) == Ok::<SpecUsm, SnmpError>(u@),
                Err(e) => spec_parse_usm(s@) == Err::<SpecUsm, SnmpError>(e),
            },
    {
        let (a, b) = expect_tlv(s, BerClass::Universal, true, TAG_SEQUENCE)?;
        if b != s.len() {
            return Err(SnmpError::TrailingData);
        }
        let t0 = slice_sub(s, a, b);
        let (engine_id, n1) = parse_octets(t0)?;
        let t1 = slice_from(t0, n1);
        let (engine_boots, n2) = parse_int(t1)?;
        let t2 = slice_from(t1, n2);
        let (engine_time, n3) = parse_int(t2)?;
        let t3 = slice_from(t2, n3);
        let (user_name, n4) = parse_octets(t3)?;
        let t4 = slice_from(t3, n4);
        let (auth_params, n5) = parse_octets(t4)?;
        let (privacy_params, _) = parse_octets(slice_from(t4, n5))?;
        Ok(
            UsmParameters {
                engine_id,
                engine_boots,
                engine_time,
                user_name,
                auth_params,
                privacy_params,
            },
        )
    }

    /// Prepend the encoding of the parameters. When authentication
    /// parameters are present, the bookmark is placed two bytes into
    /// their element, which is their first byte when their length field
    /// is one byte long.
    #[verifier::rlimit(40)]
    pub fn push_ber(&self, buf: &mut Buffer) -> (r: Result<(), SnmpError>)
        requires
            old(buf).wf(),
        ensures
            final(buf).wf(),
            encoded_as(r, None, encode_usm(self@), old(buf)@, final(buf)@),
            self.auth_params@.len() == 0 ==> final(buf).mark() == old(buf).mark(),
            r is Ok && 0 < self.auth_params@.len() < 128 ==> marks_auth(
                *final(buf),
                self.auth_params@,
            ),
    {
        let ghost start = buf@;
        let l0 = buf.len();
        if let Err(e) = buf.push_tagged(TAG_OCTET_STRING, self.privacy_params) {
            return Err(e);
        }
        if let Err(e) = buf.push_tagged(TAG_OCTET_STRING, self.auth_params) {
            return Err(e);
        }
        let ghost after_auth = buf@;
        if self.auth_params.len() > 0 {
            proof {
                if self.auth_params@.len() < 128 {
                    crate::ber::lemma_encode_len_short(self.auth_params@.len());
                }
            }
            buf.set_bookmark(2);
        }
        let ghost mid = buf@;
        let ghost m = buf.mark();
        let ghost lm = buf@.len();
        if let Err(e) = buf.push_tagged(TAG_OCTET_STRING, self.user_name) {
            return Err(e);
        }
        if let Err(e) = push_int(buf, self.engine_time) {
            return Err(e);
        }
        if let Err(e) = push_int(buf, self.engine_boots) {
            return Err(e);
        }
        if let Err(e) = buf.push_tagged(TAG_OCTET_STRING, self.engine_id) {
            return Err(e);
        }
        let ghost pre = buf@;
        let l = buf.len();
        let r = buf.push_tag_len(SEQUENCE_BYTE, l - l0);
        proof {
            assert(r is Ok ==> buf@ =~= encode_usm(self@) + start);
            if r is Ok && 0 < self.auth_params@.len() < 128 {
                let k = self.auth_params@.len() as int;
                assert(mid == encode_tlv(TAG_OCTET_STRING, self.auth_params@) + encode_tlv(
                    TAG_OCTET_STRING,
                    self.privacy_params@,
                ) + start);
                assert(mid.subrange(2, 2 + k) =~= self.auth_params@);
                assert(buf@.subrange(buf@.len() - mid.len(), buf@.len() as int) =~= mid);
                lemma_prefix_keeps(buf@, mid, 2, k);
            }
        }
        r
    }
}

} // verus!
