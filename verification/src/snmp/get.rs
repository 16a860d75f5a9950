//! GetRequest and GetNextRequest PDUs.

use crate::ber::{
    encode_len, encode_tlv, expect_tlv, be_bytes, lemma_tlv_roundtrip, pow256, spec_parse_header, parse_null, slice_from, slice_sub, spec_parse_null, spec_tlv,
    BerClass, SEQUENCE_BYTE, TAG_SEQUENCE,
};
use crate::buf::{Buffer, BUFFER_SIZE};
use crate::error::SnmpError;
use crate::integer::{
    encode_int, encode_int_content, int_len, twos, lemma_int_roundtrip, parse_int, push_int, spec_parse_int,
};
use crate::oid::{encode_oid, lemma_oid_roundtrip, oid_encodable, spec_parse_oid, SnmpOid};
use vstd::prelude::*;

verus! {

/// Bytes of the zero error-status and zero error-index of a request.
pub open spec fn double_zeroes_spec() -> Seq<u8> {
    seq![2u8, 1u8, 0u8, 2u8, 1u8, 0u8]
}

fn double_zeroes() -> (r: Vec<u8>)
    ensures
        r@ == double_zeroes_spec(),
{
    let r = vec![2u8, 1, 0, 2, 1, 0];
    assert(r@ =~= double_zeroes_spec());
    r
}

/// A GetRequest or GetNextRequest PDU body.
#[derive(Debug)]
pub struct SnmpGet {
    pub request_id: i64,
    pub vars: Vec<SnmpOid>,
}

/// Model of a request body: its request id and the requested identifiers.
pub struct SpecGet {
    pub request_id: i64,
    pub vars: Seq<Seq<u32>>,
}

pub open spec fn oids_view(v: Seq<SnmpOid>) -> Seq<Seq<u32>> {
    Seq::new(v.len(), |i: int| v[i]@)
}

impl View for SnmpGet {
    type V = SpecGet;

    open spec fn view(&self) -> SpecGet {
        SpecGet { request_id: self.request_id, vars: oids_view(self.vars@) }
    }
}

/// One requested binding at the start of `s`: a SEQUENCE of an
/// identifier and a NULL. Gives the identifier and the bytes taken.
pub open spec fn spec_parse_request_var(s: Seq<u8>) -> Result<(Seq<u32>, usize), SnmpError> {
    match spec_tlv(s, BerClass::Universal, true, TAG_SEQUENCE) {
        Err(e) => Err(e),
        Ok((a, b)) => {
            let inner = s.subrange(a as int, b as int);
            match spec_parse_oid(inner) {
                Err(e) => Err(e),
                Ok((o, n)) => match spec_parse_null(inner.skip(n as int)) {
                    Err(e) => Err(e),
                    Ok(_) => Ok((o, b)),
                },
            }
        },
    }
}

/// All requested bindings of `s`.
pub open spec fn spec_parse_request_vars(s: Seq<u8>) -> Result<Seq<Seq<u32>>, SnmpError>
    decreases s.len(),
{
    if s.len() == 0 {
        Ok(Seq::<Seq<u32>>::empty())
    } else {
        match spec_parse_request_var(s) {
            Err(e) => Err(e),
            Ok((o, n)) => if 1 <= n <= s.len() {
                match spec_parse_request_vars(s.skip(n as int)) {
                    Ok(vs) => Ok(seq![o] + vs),
                    Err(e) => Err(e),
                }
            } else {
                Err(SnmpError::InvalidData)
            },
        }
    }
}

/// The SEQUENCE of requested bindings at the start of `s`, which must
/// end exactly where `s` ends.
pub open spec fn spec_parse_request_varbinds(s: Seq<u8>) -> Result<Seq<Seq<u32>>, SnmpError> {
    match spec_tlv(s, BerClass::Universal, true, TAG_SEQUENCE) {
        Err(e) => Err(e),
        Ok((a, b)) => if b != s.len() {
            Err(SnmpError::TrailingData)
        } else {
            spec_parse_request_vars(s.subrange(a as int, b as int))
        },
    }
}

/// Decoding of a request body: request id, error status and error index
/// (both must be zero) and the bindings.
pub open spec fn spec_parse_get(s: Seq<u8>) -> Result<SpecGet, SnmpError> {
    match spec_parse_int(s) {
        Err(e) => Err(e),
        Ok((rid, n1)) => {
            let s1 = s.skip(n1 as int);
            match spec_parse_int(s1) {
                Err(e) => Err(e),
                Ok((es, n2)) => if es != 0 {
                    Err(SnmpError::InvalidPdu)
                } else {
                    let s2 = s1.skip(n2 as int);
                    match spec_parse_int(s2) {
                        Err(e) => Err(e),
                        Ok((ei, n3)) => if ei != 0 {
                            Err(SnmpError::InvalidPdu)
                        } else {
                            match spec_parse_request_varbinds(s2.skip(n3 as int)) {
                                Err(e) => Err(e),
                                Ok(vs) => Ok(SpecGet { request_id: rid, vars: vs }),
                            }
                        },
                    }
                },
            }
        },
    }
}

/// Encoding of one requested binding.
pub open spec fn encode_request_var(o: Seq<u32>) -> Seq<u8> {
    let body = encode_oid(o) + seq![5u8, 0u8];
    seq![SEQUENCE_BYTE] + encode_len(body.len()) + body
}

pub open spec fn encode_request_vars(vs: Seq<Seq<u32>>) -> Seq<u8>
    decreases vs.len(),
{
    if vs.len() == 0 {
        Seq::<u8>::empty()
    } else {
        encode_request_var(vs[0]) + encode_request_vars(vs.skip(1))
    }
}

/// Encoding of the SEQUENCE of requested bindings.
pub open spec fn encode_request_varbinds(vs: Seq<Seq<u32>>) -> Seq<u8> {
    seq![SEQUENCE_BYTE] + encode_len(encode_request_vars(vs).len()) + encode_request_vars(vs)
}

pub open spec fn all_encodable(vs: Seq<Seq<u32>>) -> bool {
    forall|i: int| 0 <= i < vs.len() ==> #[trigger] oid_encodable(vs[i])
}

/// Encoding of a request body.
pub open spec fn encode_get(g: SpecGet) -> Seq<u8> {
    encode_int(g.request_id) + double_zeroes_spec() + encode_request_varbinds(g.vars)
}

pub proof fn lemma_request_vars_skip(vs: Seq<Seq<u32>>, i: int)
    requires
        0 <= i < vs.len(),
    ensures
        encode_request_vars(vs.skip(i)) == encode_request_var(vs[i]) + encode_request_vars(
            vs.skip(i + 1),
        ),
{
    assert(vs.skip(i).skip(1) =~= vs.skip(i + 1));
}

pub proof fn lemma_request_vars_skip_len(vs: Seq<Seq<u32>>, i: int)
    requires
        0 <= i <= vs.len(),
    ensures
        encode_request_vars(vs.skip(i)).len() <= encode_request_vars(vs).len(),
    decreases i,
{
    if i > 0 {
        lemma_request_vars_skip(vs, i - 1);
        lemma_request_vars_skip_len(vs, i - 1);
    } else {
        assert(vs.skip(0) =~= vs);
    }
}

/// The zero error-status and error-index are two INTEGER elements
/// holding zero.
pub proof fn lemma_double_zeroes()
    ensures
        double_zeroes_spec() == encode_int(0) + encode_int(0),
{
    assert(pow256(1) == 256) by {
        reveal_with_fuel(pow256, 2);
    }
    assert(int_len(0) == 1);
    assert(twos(0, 1) == 0);
    assert(be_bytes(0, 1) =~= seq![0u8]) by {
        reveal_with_fuel(be_bytes, 2);
    }
    assert(encode_int_content(0) =~= seq![0u8]);
    assert(encode_int(0) =~= seq![2u8, 1u8, 0u8]);
    assert(double_zeroes_spec() =~= encode_int(0) + encode_int(0));
}

/// Decoding the encoding of one requested binding gives its identifier
/// and the length of the encoding back, whatever follows it.
pub proof fn lemma_request_var_roundtrip(o: Seq<u32>, rest: Seq<u8>)
    requires
        oid_encodable(o),
        encode_request_var(o).len() + rest.len() <= BUFFER_SIZE,
    ensures
        spec_parse_request_var(encode_request_var(o) + rest) == Ok::<(Seq<u32>, usize), SnmpError>(
            (o, encode_request_var(o).len() as usize),
        ),
{
    let tail = seq![5u8, 0u8];
    let body = encode_oid(o) + tail;
    assert(encode_request_var(o) == encode_tlv(SEQUENCE_BYTE, body));
    lemma_tlv_roundtrip(SEQUENCE_BYTE, body, rest);
    lemma_oid_roundtrip(o, tail);
    assert(body.skip(encode_oid(o).len() as int) =~= tail);
    reveal(spec_parse_header);
}

/// Decoding the encoding of requested bindings gives them back.
pub proof fn lemma_request_vars_roundtrip(vs: Seq<Seq<u32>>)
    requires
        all_encodable(vs),
        encode_request_vars(vs).len() <= BUFFER_SIZE,
    ensures
        spec_parse_request_vars(encode_request_vars(vs)) == Ok::<Seq<Seq<u32>>, SnmpError>(vs),
    decreases vs.len(),
{
    if vs.len() == 0 {
        assert(vs =~= Seq::<Seq<u32>>::empty());
    } else {
        let s = encode_request_vars(vs);
        let first = encode_request_var(vs[0]);
        let tail = encode_request_vars(vs.skip(1));
        assert(all_encodable(vs.skip(1))) by {
            assert forall|i: int| 0 <= i < vs.skip(1).len() implies #[trigger] oid_encodable(
                vs.skip(1)[i],
            ) by {
                assert(vs.skip(1)[i] == vs[i + 1]);
            }
        }
        assert(oid_encodable(vs[0]));
        lemma_request_var_roundtrip(vs[0], tail);
        lemma_request_vars_roundtrip(vs.skip(1));
        assert(s.skip(first.len() as int) =~= tail);
        assert(seq![vs[0]] + vs.skip(1) =~= vs);
    }
}

/// Decoding the encoding of the SEQUENCE of requested bindings gives
/// them back.
pub proof fn lemma_request_varbinds_roundtrip(vs: Seq<Seq<u32>>)
    requires
        all_encodable(vs),
        encode_request_varbinds(vs).len() <= BUFFER_SIZE,
    ensures
        spec_parse_request_varbinds(encode_request_varbinds(vs)) == Ok::<
            Seq<Seq<u32>>,
            SnmpError,
        >(vs),
{
    let body = encode_request_vars(vs);
    let e = encode_request_varbinds(vs);
    assert(e == encode_tlv(SEQUENCE_BYTE, body));
    lemma_tlv_roundtrip(SEQUENCE_BYTE, body, Seq::<u8>::empty());
    assert(e + Seq::<u8>::empty() =~= e);
    lemma_request_vars_roundtrip(vs);
}

/// A request body decodes to what was encoded: decoding the bytes that
/// `SnmpGet::push_ber` writes gives the request id and the identifiers
/// back.
pub proof fn lemma_get_roundtrip(g: SpecGet)
    requires
        all_encodable(g.vars),
        encode_get(g).len() <= BUFFER_SIZE,
    ensures
        spec_parse_get(encode_get(g)) == Ok::<SpecGet, SnmpError>(g),
{
    let s = encode_get(g);
    let z = encode_int(0);
    let vb = encode_request_varbinds(g.vars);
    lemma_double_zeroes();
    let s1 = z + z + vb;
    let s2 = z + vb;
    assert(s == encode_int(g.request_id) + s1);
    assert(s1 =~= z + s2);
    let n1 = encode_int(g.request_id).len();
    let n2 = z.len();
    assert(spec_parse_int(s) == Ok::<(i64, usize), SnmpError>((g.request_id, n1 as usize))) by {
        lemma_int_roundtrip(g.request_id, s1);
    }
    assert(s.skip(n1 as int) =~= s1);
    assert(spec_parse_int(s1) == Ok::<(i64, usize), SnmpError>((0, n2 as usize))) by {
        lemma_int_roundtrip(0, s2);
    }
    assert(s1.skip(n2 as int) =~= s2);
    assert(spec_parse_int(s2) == Ok::<(i64, usize), SnmpError>((0, n2 as usize))) by {
        lemma_int_roundtrip(0, vb);
    }
    assert(s2.skip(n2 as int) =~= vb);
    lemma_request_varbinds_roundtrip(g.vars);
}

/// A decoded request body is three INTEGER elements and the bindings:
/// the first INTEGER is the request id, the second (error status) and the
/// third (error index) are zero.
pub proof fn lemma_get_fields(s: Seq<u8>)
    ensures
        spec_parse_get(s) matches Ok(g) ==> {
            &&& spec_parse_int(s) matches Ok((rid, n1))
            &&& rid == g.request_id
            &&& spec_parse_int(s.skip(n1 as int)) matches Ok((es, n2))
            &&& es == 0
            &&& spec_parse_int(s.skip(n1 as int).skip(n2 as int)) matches Ok((ei, n3))
            &&& ei == 0
            &&& spec_parse_request_varbinds(s.skip(n1 as int).skip(n2 as int).skip(n3 as int))
                == Ok::<Seq<Seq<u32>>, SnmpError>(g.vars)
        },
{
}

/// The encoding of a request body starts with the INTEGER of the request
/// id, followed by two INTEGER zeroes and the bindings.
pub proof fn lemma_get_layout(g: SpecGet)
    requires
        all_encodable(g.vars),
        encode_get(g).len() <= BUFFER_SIZE,
    ensures
        ({
            let s = encode_get(g);
            &&& spec_parse_int(s) matches Ok((rid, n1))
            &&& rid == g.request_id
            &&& spec_parse_int(s.skip(n1 as int)) matches Ok((es, n2))
            &&& es == 0
            &&& spec_parse_int(s.skip(n1 as int).skip(n2 as int)) matches Ok((ei, n3))
            &&& ei == 0
            &&& spec_parse_request_varbinds(s.skip(n1 as int).skip(n2 as int).skip(n3 as int))
                == Ok::<Seq<Seq<u32>>, SnmpError>(g.vars)
        }),
{
    lemma_get_roundtrip(g);
    lemma_get_fields(encode_get(g));
}

/// Decode one requested binding at the start of `s`.
pub fn parse_request_var(s: &[u8]) -> (r: Result<(SnmpOid, usize), SnmpError>)
    ensures
        match r {
            Ok((o, n)) => spec_parse_request_var(s@) == Ok::<(Seq<u32>, usize), SnmpError>(
                (o@, n),
            ) && 2 <= n <= s@.len(),
            Err(e) => spec_parse_request_var(s@) == Err::<(Seq<u32>, usize), SnmpError>(e),
        },
{
    let (a, b) = expect_tlv(s, BerClass::Universal, true, TAG_SEQUENCE)?;
    let inner = slice_sub(s, a, b);
    let (o, n) = SnmpOid::from_ber(inner)?;
    proof {
        crate::oid::lemma_parse_oid_len(inner@);
    }
    parse_null(slice_from(inner, n))?;
    Ok((o, b))
}

/// Decode all requested bindings of `c`.
pub fn parse_request_vars(c: &[u8]) -> (r: Result<Vec<SnmpOid>, SnmpError>)
    ensures
        match r {
            Ok(v) => spec_parse_request_vars(c@) == Ok::<Seq<Seq<u32>>, SnmpError>(
                oids_view(v@),
            ),
            Err(e) => spec_parse_request_vars(c@) == Err::<Seq<Seq<u32>>, SnmpError>(e),
        },
{
    let mut out: Vec<SnmpOid> = Vec::new();
    let mut pos: usize = 0;
    assert(c@.skip(0) =~= c@);
    assert(oids_view(out@) =~= Seq::<Seq<u32>>::empty());
    while pos < c.len()
        invariant
            pos <= c@.len(),
            spec_parse_request_vars(c@) == match spec_parse_request_vars(c@.skip(pos as int)) {
                Ok(vs) => Ok::<Seq<Seq<u32>>, SnmpError>(oids_view(out@) + vs),
                Err(e) => Err(e),
            },
        decreases c@.len() - pos,
    {
        let (o, n) = parse_request_var(slice_from(c, pos))?;
        assert(c@.skip(pos as int).skip(n as int) =~= c@.skip(pos + n));
        let ghost before = oids_view(out@);
        let ghost ov = o@;
        out.push(o);
        proof {
            assert(oids_view(out@) =~= before.push(ov));
            match spec_parse_request_vars(c@.skip(pos + n)) {
                Ok(vs) => {
                    assert(before + (seq![ov] + vs) =~= oids_view(out@) + vs);
                },
                Err(_) => {},
            }
        }
        pos = pos + n;
    }
    assert(c@.skip(pos as int) =~= Seq::<u8>::empty());
    assert(oids_view(out@) + Seq::<Seq<u32>>::empty() =~= oids_view(out@));
    Ok(out)
}

/// Decode the SEQUENCE of requested bindings which makes up the rest of `s`.
pub fn parse_request_varbinds(s: &[u8]) -> (r: Result<Vec<SnmpOid>, SnmpError>)
    ensures
        match r {
            Ok(v) => spec_parse_request_varbinds(s@) == Ok::<Seq<Seq<u32>>, SnmpError>(
                oids_view(v@),
            ),
            Err(e) => spec_parse_request_varbinds(s@) == Err::<Seq<Seq<u32>>, SnmpError>(e),
        },
{
    let (a, b) = expect_tlv(s, BerClass::Universal, true, TAG_SEQUENCE)?;
    if b != s.len() {
        return Err(SnmpError::TrailingData);
    }
    parse_request_vars(slice_sub(s, a, b))
}

/// Check that every identifier can be encoded.
pub fn check_encodable(vars: &Vec<SnmpOid>) -> (r: bool)
    ensures
        r == all_encodable(oids_view(vars@)),
{
    let mut i: usize = 0;
    while i < vars.len()
        invariant
            i <= vars@.len(),
            forall|k: int| 0 <= k < i ==> oid_encodable(#[trigger] oids_view(vars@)[k]),
        decreases vars@.len() - i,
    {
        if !vars[i].is_encodable() {
            assert(!oid_encodable(oids_view(vars@)[i as int]));
            return false;
        }
        i = i + 1;
    }
    true
}

/// Prepend the SEQUENCE of requested bindings.
pub fn push_request_varbinds(vars: &Vec<SnmpOid>, buf: &mut Buffer) -> (r: Result<(), SnmpError>)
    requires
        old(buf).wf(),
        all_encodable(oids_view(vars@)),
    ensures
        final(buf).wf(),
        final(buf).mark() == old(buf).mark(),
        r is Ok <==> old(buf)@.len() + encode_request_varbinds(oids_view(vars@)).len()
            <= BUFFER_SIZE,
        r is Ok ==> final(buf)@ == encode_request_varbinds(oids_view(vars@)) + old(buf)@,
        r is Err ==> r == Err::<(), SnmpError>(SnmpError::OutOfBuffer),
{
    let ghost vs = oids_view(vars@);
    let ghost start = buf@;
    let rest = buf.len();
    let mut i = vars.len();
    assert(vs.skip(vs.len() as int) =~= Seq::<Seq<u32>>::empty());
    while i > 0
        invariant
            buf.wf(),
            buf.mark() == old(buf).mark(),
            vs == oids_view(vars@),
            all_encodable(vs),
            i <= vars@.len(),
            rest == start.len(),
            start == old(buf)@,
            buf@ == encode_request_vars(vs.skip(i as int)) + start,
        decreases i,
    {
        i = i - 1;
        proof {
            lemma_request_vars_skip(vs, i as int);
            lemma_request_vars_skip_len(vs, i as int);
            assert(oid_encodable(vs[i as int]));
            assert(vars@[i as int]@ == vs[i as int]);
        }
        let ghost cur = buf@;
        let l0 = buf.len();
        let ghost full = encode_request_varbinds(vs).len();
        proof {
            let body = encode_oid(vs[i as int]) + seq![5u8, 0u8];
            assert(encode_request_var(vs[i as int]).len() == 1 + encode_len(body.len()).len()
                + body.len());
            assert(cur.len() + encode_request_var(vs[i as int]).len() <= start.len() + full);
        }
        if let Err(e) = buf.push_u8(0) {
            return Err(e);
        }
        if let Err(e) = buf.push_u8(5) {
            return Err(e);
        }
        assert(buf@ =~= seq![5u8, 0u8] + cur);
        if let Err(e) = vars[i].push_ber(buf) {
            return Err(e);
        }
        let l1 = buf.len();
        proof {
            let body = encode_oid(vs[i as int]) + seq![5u8, 0u8];
            assert(buf@ =~= body + cur);
            assert(l1 - l0 == body.len());
        }
        if let Err(e) = buf.push_tag_len(SEQUENCE_BYTE, l1 - l0) {
            return Err(e);
        }
        assert(buf@ =~= encode_request_var(vs[i as int]) + cur);
    }
    assert(vs.skip(0) =~= vs);
    let l = buf.len();
    buf.push_tag_len(SEQUENCE_BYTE, l - rest)
}

impl SnmpGet {
    /// Decode a request body.
    pub fn try_from(value: &[u8]) -> (r: Result<SnmpGet, SnmpError>)
        ensures
            match r {
                Ok(g) => spec_parse_get(value@) == Ok::<SpecGet, SnmpError>(g@),
                Err(e) => spec_parse_get(value@) == Err::<SpecGet, SnmpError>(e),
            },
    {
        let (request_id, n1) = parse_int(value)?;
        let t1 = slice_from(value, n1);
        let (error_status, n2) = parse_int(t1)?;
        if error_status != 0 {
            return Err(SnmpError::InvalidPdu);
        }
        let t2 = slice_from(t1, n2);
        let (error_index, n3) = parse_int(t2)?;
        if error_index != 0 {
            return Err(SnmpError::InvalidPdu);
        }
        let vars = parse_request_varbinds(slice_from(t2, n3))?;
        Ok(SnmpGet { request_id, vars })
    }

    /// Prepend the encoding of the request body. Identifiers that cannot
    /// be encoded are refused with `InvalidData` before anything is written.
    pub fn push_ber(&self, buf: &mut Buffer) -> (r: Result<(), SnmpError>)
        requires
            old(buf).wf(),
        ensures
            final(buf).wf(),
            final(buf).mark() == old(buf).mark(),
            !all_encodable(self@.vars) ==> r == Err::<(), SnmpError>(SnmpError::InvalidData)
                && final(buf)@ == old(buf)@,
            all_encodable(self@.vars) ==> (r is Ok <==> old(buf)@.len() + encode_get(self@).len()
                <= BUFFER_SIZE),
            all_encodable(self@.vars) && r is Err ==> r == Err::<(), SnmpError>(
                SnmpError::OutOfBuffer,
            ),
            r is Ok ==> final(buf)@ == encode_get(self@) + old(buf)@,
    {
        if !check_encodable(&self.vars) {
            return Err(SnmpError::InvalidData);
        }
        let ghost start = buf@;
        let ghost vb = encode_request_varbinds(self@.vars);
        push_request_varbinds(&self.vars, buf)?;
        let ghost b1 = buf@;
        let zeroes = double_zeroes();
        if let Err(e) = buf.push(zeroes.as_slice()) {
            return Err(e);
        }
        let ghost b2 = buf@;
        if let Err(e) = push_int(buf, self.request_id) {
            return Err(e);
        }
        assert(buf@ =~= encode_get(self@) + start);
        Ok(())
    }
}

} // verus!
