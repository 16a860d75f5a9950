//! Response PDU.

use crate::ber::{expect_tlv, slice_from, slice_sub, spec_tlv, BerClass, TAG_OBJECT_ID, TAG_RELATIVE_OID, TAG_SEQUENCE};
use crate::error::SnmpError;
use crate::integer::{parse_int, spec_parse_int};
use crate::oid::{spec_normalize, spec_parse_oid, spec_parse_relative_oid, SnmpOid};
use crate::value::{spec_parse_value, SnmpValue, SpecValue};
use vstd::prelude::*;

verus! {

/// A variable binding of a response.
#[derive(Debug)]
pub struct SnmpVar<'a> {
    pub oid: SnmpOid,
    pub value: SnmpValue<'a>,
}

/// Model of a variable binding.
pub struct SpecVar {
    pub oid: Seq<u32>,
    pub value: SpecValue,
}

impl<'a> View for SnmpVar<'a> {
    type V = SpecVar;

    open spec fn view(&self) -> SpecVar {
        SpecVar { oid: self.oid@, value: self.value@ }
    }
}

/// A Response PDU body.
#[derive(Debug)]
pub struct SnmpGetResponse<'a> {
    pub request_id: i64,
    pub error_status: i64,
    pub error_index: i64,
    pub vars: Vec<SnmpVar<'a>>,
}

/// Model of a Response PDU body.
pub struct SpecGetResponse {
    pub request_id: i64,
    pub error_status: i64,
    pub error_index: i64,
    pub vars: Seq<SpecVar>,
}

pub open spec fn vars_view<'a>(v: Seq<SnmpVar<'a>>) -> Seq<SpecVar> {
    Seq::new(v.len(), |i: int| v[i]@)
}

impl<'a> View for SnmpGetResponse<'a> {
    type V = SpecGetResponse;

    open spec fn view(&self) -> SpecGetResponse {
        SpecGetResponse {
            request_id: self.request_id,
            error_status: self.error_status,
            error_index: self.error_index,
            vars: vars_view(self.vars@),
        }
    }
}

/// One binding of a response at the start of `s`. Its identifier is
/// either absolute or relative; a relative one is applied to `prev`, the
/// identifier of the binding before it, and is refused when there is none.
pub open spec fn spec_parse_resp_var(s: Seq<u8>, prev: Option<Seq<u32>>) -> Result<
    (SpecVar, usize),
    SnmpError,
> {
    match spec_tlv(s, BerClass::Universal, true, TAG_SEQUENCE) {
        Err(e) => Err(e),
        Ok((a, b)) => {
            let inner = s.subrange(a as int, b as int);
            let oid: Result<(Seq<u32>, usize), SnmpError> = if inner.len() == 0 {
                Err(SnmpError::Incomplete)
            } else if inner[0] == TAG_OBJECT_ID {
                spec_parse_oid(inner)
            } else if inner[0] == TAG_RELATIVE_OID {
                match prev {
                    None => Err(SnmpError::UnexpectedTag),
                    Some(p) => match spec_parse_relative_oid(inner) {
                        Ok((r, n)) => Ok((spec_normalize(r, p), n)),
                        Err(e) => Err(e),
                    },
                }
            } else {
                Err(SnmpError::UnexpectedTag)
            };
            match oid {
                Err(e) => Err(e),
                Ok((o, n)) => match spec_parse_value(inner.skip(n as int)) {
                    Err(e) => Err(e),
                    Ok((v, _)) => Ok((SpecVar { oid: o, value: v }, b)),
                },
            }
        },
    }
}

/// All bindings of `s`, the first one following `prev`.
pub open spec fn spec_parse_resp_vars(s: Seq<u8>, prev: Option<Seq<u32>>) -> Result<
    Seq<SpecVar>,
    SnmpError,
>
    decreases s.len(),
{
    if s.len() == 0 {
        Ok(Seq::<SpecVar>::empty())
    } else {
        match spec_parse_resp_var(s, prev) {
            Err(e) => Err(e),
            Ok((v, n)) => if 1 <= n <= s.len() {
                match spec_parse_resp_vars(s.skip(n as int), Some(v.oid)) {
                    Ok(vs) => Ok(seq![v] + vs),
                    Err(e) => Err(e),
                }
            } else {
                Err(SnmpError::InvalidData)
            },
        }
    }
}

/// Decoding of a Response body: request id, error status, error index
/// and the bindings, whose SEQUENCE must end where `s` ends.
pub open spec fn spec_parse_response(s: Seq<u8>) -> Result<SpecGetResponse, SnmpError> {
    match spec_parse_int(s) {
        Err(e) => Err(e),
        Ok((rid, n1)) => {
            let s1 = s.skip(n1 as int);
            match spec_parse_int(s1) {
                Err(e) => Err(e),
                Ok((es, n2)) => {
                    let s2 = s1.skip(n2 as int);
                    match spec_parse_int(s2) {
                        Err(e) => Err(e),
                        Ok((ei, n3)) => {
                            let s3 = s2.skip(n3 as int);
                            match spec_tlv(s3, BerClass::Universal, true, TAG_SEQUENCE) {
                                Err(e) => Err(e),
                                Ok((a, b)) => if b != s3.len() {
                                    Err(SnmpError::TrailingData)
                                } else {
                                    match spec_parse_resp_vars(
                                        s3.subrange(a as int, b as int),
                                        None,
                                    ) {
                                        Err(e) => Err(e),
                                        Ok(vs) => Ok(
                                            SpecGetResponse {
                                                request_id: rid,
                                                error_status: es,
                                                error_index: ei,
                                                vars: vs,
                                            },
                                        ),
                                    }
                                },
                            }
                        },
                    }
                },
            }
        },
    }
}

pub open spec fn last_oid<'a>(v: Seq<SnmpVar<'a>>) -> Option<Seq<u32>> {
    if v.len() == 0 {
        None
    } else {
        Some(v.last().oid@)
    }
}

/// Decode one binding of a response at the start of `s`.
fn parse_resp_var<'a>(s: &'a [u8], prev: Option<&SnmpOid>) -> (r: Result<
    (SnmpVar<'a>, usize),
    SnmpError,
>)
    ensures
        match r {
            Ok((v, n)) => spec_parse_resp_var(
                s@,
                match prev {
                    Some(p) => Some(p@),
                    None => None,
                },
            ) == Ok::<(SpecVar, usize), SnmpError>((v@, n)) && 2 <= n <= s@.len(),
            Err(e) => spec_parse_resp_var(
                s@,
                match prev {
                    Some(p) => Some(p@),
                    None => None,
                },
            ) == Err::<(SpecVar, usize), SnmpError>(e),
        },
{
    let (a, b) = expect_tlv(s, BerClass::Universal, true, TAG_SEQUENCE)?;
    let inner = slice_sub(s, a, b);
    if inner.len() == 0 {
        return Err(SnmpError::Incomplete);
    }
    let (oid, n) = if inner[0] == TAG_OBJECT_ID {
        SnmpOid::from_ber(inner)?
    } else if inner[0] == TAG_RELATIVE_OID {
        match prev {
            None => {
                return Err(SnmpError::UnexpectedTag);
            },
            Some(p) => {
                let (r, n) = SnmpOid::relative_from_ber(inner)?;
                (r.normalize(p), n)
            },
        }
    } else {
        return Err(SnmpError::UnexpectedTag);
    };
    proof {
        crate::oid::lemma_parse_oid_len(inner@);
        crate::oid::lemma_parse_relative_oid_len(inner@);
    }
    let (value, _) = SnmpValue::from_ber(slice_from(inner, n))?;
    Ok((SnmpVar { oid, value }, b))
}

/// Decode the binding at the start of `s`, following the bindings in `vars`.
fn parse_next_var<'a>(s: &'a [u8], vars: &Vec<SnmpVar<'a>>) -> (r: Result<
    (SnmpVar<'a>, usize),
    SnmpError,
>)
    ensures
        match r {
            Ok((v, n)) => spec_parse_resp_var(s@, last_oid(vars@)) == Ok::<
                (SpecVar, usize),
                SnmpError,
            >((v@, n)) && 2 <= n <= s@.len(),
            Err(e) => spec_parse_resp_var(s@, last_oid(vars@)) == Err::<(SpecVar, usize), SnmpError>(
                e,
            ),
        },
{
    let k = vars.len();
    if k == 0 {
        parse_resp_var(s, None)
    } else {
        parse_resp_var(s, Some(&vars[k - 1].oid))
    }
}

proof fn lemma_resp_vars_unfold(s: Seq<u8>, prev: Option<Seq<u32>>)
    requires
        s.len() > 0,
    ensures
        spec_parse_resp_vars(s, prev) == match spec_parse_resp_var(s, prev) {
            Err(e) => Err(e),
            Ok((v, n)) => if 1 <= n <= s.len() {
                match spec_parse_resp_vars(s.skip(n as int), Some(v.oid)) {
                    Ok(vs) => Ok(seq![v] + vs),
                    Err(e) => Err(e),
                }
            } else {
                Err(SnmpError::InvalidData)
            },
        },
{
}

/// Decode all bindings of `c`.
fn parse_resp_vars<'a>(c: &'a [u8]) -> (r: Result<Vec<SnmpVar<'a>>, SnmpError>)
    ensures
        match r {
            Ok(v) => spec_parse_resp_vars(c@, None) == Ok::<Seq<SpecVar>, SnmpError>(vars_view(v@)),
            Err(e) => spec_parse_resp_vars(c@, None) == Err::<Seq<SpecVar>, SnmpError>(e),
        },
{
    let mut vars: Vec<SnmpVar<'a>> = Vec::new();
    let mut pos: usize = 0;
    assert(c@.skip(0) =~= c@);
    assert(vars_view(vars@) =~= Seq::<SpecVar>::empty());
    while pos < c.len()
        invariant
            pos <= c@.len(),
            spec_parse_resp_vars(c@, None) == match spec_parse_resp_vars(
                c@.skip(pos as int),
                last_oid(vars@),
            ) {
                Ok(vs) => Ok::<Seq<SpecVar>, SnmpError>(vars_view(vars@) + vs),
                Err(e) => Err(e),
            },
        decreases c@.len() - pos,
    {
        let rest = slice_from(c, pos);
        proof {
            lemma_resp_vars_unfold(rest@, last_oid(vars@));
        }
        let (var, n) = match parse_next_var(rest, &vars) {
            Ok(x) => x,
            Err(e) => {
                return Err(e);
            },
        };
        assert(rest@.skip(n as int) =~= c@.skip(pos + n));
        let ghost before = vars_view(vars@);
        let ghost vv = var@;
        vars.push(var);
        proof {
            assert(vars_view(vars@) =~= before.push(vv));
            assert(last_oid(vars@) == Some(vv.oid));
            match spec_parse_resp_vars(c@.skip(pos + n), Some(vv.oid)) {
                Ok(vs) => {
                    assert(before + (seq![vv] + vs) =~= vars_view(vars@) + vs);
                },
                Err(_) => {},
            }
        }
        pos = pos + n;
    }
    assert(c@.skip(pos as int) =~= Seq::<u8>::empty());
    assert(vars_view(vars@) + Seq::<SpecVar>::empty() =~= vars_view(vars@));
    Ok(vars)
}

/// The header fields of a decoded Response body are its first three
/// INTEGER elements, in this order: the request id, the error status and
/// the error index.
pub proof fn lemma_response_fields(s: Seq<u8>)
    ensures
        spec_parse_response(s) matches Ok(r) ==> {
            &&& spec_parse_int(s) matches Ok((rid, n1))
            &&& rid == r.request_id
            &&& spec_parse_int(s.skip(n1 as int)) matches Ok((es, n2))
            &&& es == r.error_status
            &&& spec_parse_int(s.skip(n1 as int).skip(n2 as int)) matches Ok((ei, _))
            &&& ei == r.error_index
        },
{
}

impl<'a> SnmpGetResponse<'a> {
    /// Decode a Response body.
    pub fn try_from(value: &'a [u8]) -> (r: Result<SnmpGetResponse<'a>, SnmpError>)
        ensures
            match r {
                Ok(g) => spec_parse_response(value@) == Ok::<SpecGetResponse, SnmpError>(g@),
                Err(e) => spec_parse_response(value@) == Err::<SpecGetResponse, SnmpError>(e),
            },
    {
        let (request_id, n1) = parse_int(value)?;
        let t1 = slice_from(value, n1);
        let (error_status, n2) = parse_int(t1)?;
        let t2 = slice_from(t1, n2);
        let (error_index, n3) = parse_int(t2)?;
        let t3 = slice_from(t2, n3);
        let (a, b) = expect_tlv(t3, BerClass::Universal, true, TAG_SEQUENCE)?;
        if b != t3.len() {
            return Err(SnmpError::TrailingData);
        }
        let c = slice_sub(t3, a, b);
        let vars = parse_resp_vars(c)?;
        Ok(SnmpGetResponse { request_id, error_status, error_index, vars })
    }
}

} // verus!
