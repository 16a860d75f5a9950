//! GetBulkRequest PDU.

use crate::ber::slice_from;
use crate::buf::{Buffer, BUFFER_SIZE};
use crate::error::SnmpError;
use crate::integer::{encode_int, lemma_int_roundtrip, parse_int, push_int, spec_parse_int};
use crate::oid::SnmpOid;
use crate::snmp::get::{
    all_encodable, check_encodable, encode_request_varbinds, lemma_request_varbinds_roundtrip, oids_view, parse_request_varbinds,
    push_request_varbinds, spec_parse_request_varbinds,
};
use vstd::prelude::*;

verus! {

/// A GetBulkRequest PDU body.
#[derive(Debug)]
pub struct SnmpGetBulk {
    pub request_id: i64,
    pub non_repeaters: i64,
    pub max_repetitions: i64,
    pub vars: Vec<SnmpOid>,
}

/// Model of a GetBulkRequest body.
pub struct SpecGetBulk {
    pub request_id: i64,
    pub non_repeaters: i64,
    pub max_repetitions: i64,
    pub vars: Seq<Seq<u32>>,
}

impl View for SnmpGetBulk {
    type V = SpecGetBulk;

    open spec fn view(&self) -> SpecGetBulk {
        SpecGetBulk {
            request_id: self.request_id,
            non_repeaters: self.non_repeaters,
            max_repetitions: self.max_repetitions,
            vars: oids_view(self.vars@),
        }
    }
}

/// Decoding of a GetBulkRequest body: request id, non-repeaters,
/// max-repetitions and the bindings.
pub open spec fn spec_parse_getbulk(s: Seq<u8>) -> Result<SpecGetBulk, SnmpError> {
    match spec_parse_int(s) {
        Err(e) => Err(e),
        Ok((rid, n1)) => {
            let s1 = s.skip(n1 as int);
            match spec_parse_int(s1) {
                Err(e) => Err(e),
                Ok((nr, n2)) => {
                    let s2 = s1.skip(n2 as int);
                    match spec_parse_int(s2) {
                        Err(e) => Err(e),
                        Ok((mr, n3)) => match spec_parse_request_varbinds(s2.skip(n3 as int)) {
                            Err(e) => Err(e),
                            Ok(vs) => Ok(
                                SpecGetBulk {
                                    request_id: rid,
                                    non_repeaters: nr,
                                    max_repetitions: mr,
                                    vars: vs,
                                },
                            ),
                        },
                    }
                },
            }
        },
    }
}

/// Encoding of a GetBulkRequest body.
pub open spec fn encode_getbulk(g: SpecGetBulk) -> Seq<u8> {
    encode_int(g.request_id) + encode_int(g.non_repeaters) + encode_int(g.max_repetitions)
        + encode_request_varbinds(g.vars)
}

/// A GetBulkRequest body decodes to what was encoded.
pub proof fn lemma_getbulk_roundtrip(g: SpecGetBulk)
    requires
        all_encodable(g.vars),
        encode_getbulk(g).len() <= BUFFER_SIZE,
    ensures
        spec_parse_getbulk(encode_getbulk(g)) == Ok::<SpecGetBulk, SnmpError>(g),
{
    let s = encode_getbulk(g);
    let vb = encode_request_varbinds(g.vars);
    let s2 = encode_int(g.max_repetitions) + vb;
    let s1 = encode_int(g.non_repeaters) + s2;
    assert(s =~= encode_int(g.request_id) + s1);
    let n1 = encode_int(g.request_id).len();
    let n2 = encode_int(g.non_repeaters).len();
    let n3 = encode_int(g.max_repetitions).len();
    assert(spec_parse_int(s) == Ok::<(i64, usize), SnmpError>((g.request_id, n1 as usize))) by {
        lemma_int_roundtrip(g.request_id, s1);
    }
    assert(s.skip(n1 as int) =~= s1);
    assert(spec_parse_int(s1) == Ok::<(i64, usize), SnmpError>((g.non_repeaters, n2 as usize)))
        by {
        lemma_int_roundtrip(g.non_repeaters, s2);
    }
    assert(s1.skip(n2 as int) =~= s2);
    assert(spec_parse_int(s2) == Ok::<(i64, usize), SnmpError>((g.max_repetitions, n3 as usize)))
        by {
        lemma_int_roundtrip(g.max_repetitions, vb);
    }
    assert(s2.skip(n3 as int) =~= vb);
    lemma_request_varbinds_roundtrip(g.vars);
}

/// The fields of a decoded GetBulkRequest body are its first three
/// INTEGER elements, in this order: the request id, the non-repeaters
/// and the max-repetitions.
pub proof fn lemma_getbulk_fields(s: Seq<u8>)
    ensures
        spec_parse_getbulk(s) matches Ok(g) ==> {
            &&& spec_parse_int(s) matches Ok((rid, n1))
            &&& rid == g.request_id
            &&& spec_parse_int(s.skip(n1 as int)) matches Ok((nr, n2))
            &&& nr == g.non_repeaters
            &&& spec_parse_int(s.skip(n1 as int).skip(n2 as int)) matches Ok((mr, _))
            &&& mr == g.max_repetitions
        },
{
}

/// The encoding of a GetBulkRequest body holds, as its first three
/// INTEGER elements, the request id, the non-repeaters and the
/// max-repetitions, in this order.
pub proof fn lemma_getbulk_layout(g: SpecGetBulk)
    requires
        all_encodable(g.vars),
        encode_getbulk(g).len() <= BUFFER_SIZE,
    ensures
        ({
            let s = encode_getbulk(g);
            &&& spec_parse_int(s) matches Ok((rid, n1))
            &&& rid == g.request_id
            &&& spec_parse_int(s.skip(n1 as int)) matches Ok((nr, n2))
            &&& nr == g.non_repeaters
            &&& spec_parse_int(s.skip(n1 as int).skip(n2 as int)) matches Ok((mr, _))
            &&& mr == g.max_repetitions
        }),
{
    lemma_getbulk_roundtrip(g);
    lemma_getbulk_fields(encode_getbulk(g));
}

impl SnmpGetBulk {
    /// Decode a GetBulkRequest body.
    pub fn try_from(value: &[u8]) -> (r: Result<SnmpGetBulk, SnmpError>)
        ensures
            match r {
                Ok(g) => spec_parse_getbulk(value@) == Ok::<SpecGetBulk, SnmpError>(g@),
                Err(e) => spec_parse_getbulk(value@) == Err::<SpecGetBulk, SnmpError>(e),
            },
    {
        let (request_id, n1) = parse_int(value)?;
        let t1 = slice_from(value, n1);
        let (non_repeaters, n2) = parse_int(t1)?;
        let t2 = slice_from(t1, n2);
        let (max_repetitions, n3) = parse_int(t2)?;
        let vars = parse_request_varbinds(slice_from(t2, n3))?;
        Ok(SnmpGetBulk { request_id, non_repeaters, max_repetitions, vars })
    }

    /// Prepend the encoding of the body. Identifiers that cannot be
    /// encoded are refused with `InvalidData` before anything is written.
    pub fn push_ber(&self, buf: &mut Buffer) -> (r: Result<(), SnmpError>)
        requires
            old(buf).wf(),
        ensures
            final(buf).wf(),
            final(buf).mark() == old(buf).mark(),
            !all_encodable(self@.vars) ==> r == Err::<(), SnmpError>(SnmpError::InvalidData)
                && final(buf)@ == old(buf)@,
            all_encodable(self@.vars) ==> (r is Ok <==> old(buf)@.len() + encode_getbulk(
                self@,
            ).len() <= BUFFER_SIZE),
            all_encodable(self@.vars) && r is Err ==> r == Err::<(), SnmpError>(
                SnmpError::OutOfBuffer,
            ),
            r is Ok ==> final(buf)@ == encode_getbulk(self@) + old(buf)@,
    {
        if !check_encodable(&self.vars) {
            return Err(SnmpError::InvalidData);
        }
        let ghost start = buf@;
        push_request_varbinds(&self.vars, buf)?;
        if let Err(e) = push_int(buf, self.max_repetitions) {
            return Err(e);
        }
        if let Err(e) = push_int(buf, self.non_repeaters) {
            return Err(e);
        }
        if let Err(e) = push_int(buf, self.request_id) {
            return Err(e);
        }
        assert(buf@ =~= encode_getbulk(self@) + start);
        Ok(())
    }
}

} // verus!
