//! OBJECT IDENTIFIER and RELATIVE-OID.

use crate::ber::{encode_len, encode_tlv, expect_tlv, lemma_tlv_roundtrip, slice_sub, spec_tlv, BerClass, TAG_OBJECT_ID, TAG_RELATIVE_OID};
use crate::buf::{Buffer, BUFFER_SIZE};
use crate::error::SnmpError;
use vstd::prelude::*;
use vstd::string::StringSliceAdditionalSpecFns;

verus! {

/// An object identifier: the sequence of its arcs.
#[derive(Debug, Clone, PartialEq, Eq)]
pub struct SnmpOid(pub Vec<u32>);

impl View for SnmpOid {
    type V = Seq<u32>;

    open spec fn view(&self) -> Seq<u32> {
        self.0@
    }
}

impl From<Vec<u32>> for SnmpOid {
    fn from(v: Vec<u32>) -> (r: SnmpOid)
        ensures
            r@ == v@,
    {
        SnmpOid(v)
    }
}

impl vstd::std_specs::convert::FromSpecImpl<Vec<u32>> for SnmpOid {
    open spec fn obeys_from_spec() -> bool {
        true
    }

    open spec fn from_spec(v: Vec<u32>) -> SnmpOid {
        SnmpOid(v)
    }
}

/// One base-128 subidentifier at the start of `c`, continuing the value
/// `acc`: the value and the number of bytes read.
pub open spec fn spec_subid(c: Seq<u8>, acc: nat) -> Result<(u32, nat), SnmpError>
    decreases c.len(),
{
    if c.len() == 0 {
        Err(SnmpError::Incomplete)
    } else {
        let acc2 = acc * 128 + (c[0] % 128) as nat;
        if acc2 > u32::MAX {
            Err(SnmpError::InvalidData)
        } else if c[0] < 128 {
            Ok((acc2 as u32, 1))
        } else {
            match spec_subid(c.drop_first(), acc2) {
                Ok((v, n)) => Ok((v, n + 1)),
                Err(e) => Err(e),
            }
        }
    }
}

/// All base-128 subidentifiers of `c`.
pub open spec fn spec_subids(c: Seq<u8>) -> Result<Seq<u32>, SnmpError>
    decreases c.len(),
{
    if c.len() == 0 {
        Ok(Seq::<u32>::empty())
    } else {
        match spec_subid(c, 0) {
            Err(e) => Err(e),
            Ok((v, n)) => if 1 <= n <= c.len() {
                match spec_subids(c.skip(n as int)) {
                    Ok(vs) => Ok(seq![v] + vs),
                    Err(e) => Err(e),
                }
            } else {
                Err(SnmpError::InvalidData)
            },
        }
    }
}

/// Arcs of OBJECT IDENTIFIER contents: the first subidentifier holds
/// the first two arcs as `40 * first + second`.
pub open spec fn spec_decode_oid(c: Seq<u8>) -> Result<Seq<u32>, SnmpError> {
    if c.len() == 0 {
        Err(SnmpError::InvalidData)
    } else {
        match spec_subids(c) {
            Err(e) => Err(e),
            Ok(vs) => if vs.len() == 0 {
                Err(SnmpError::InvalidData)
            } else {
                let f = vs[0];
                let head: Seq<u32> = if f < 40 {
                    seq![0u32, f]
                } else if f < 80 {
                    seq![1u32, (f - 40) as u32]
                } else {
                    seq![2u32, (f - 80) as u32]
                };
                Ok(head + vs.skip(1))
            },
        }
    }
}

/// Arcs of RELATIVE-OID contents.
pub open spec fn spec_decode_relative_oid(c: Seq<u8>) -> Result<Seq<u32>, SnmpError> {
    if c.len() == 0 {
        Err(SnmpError::InvalidData)
    } else {
        spec_subids(c)
    }
}

/// Decoding of an OBJECT IDENTIFIER element at the start of `s`.
pub open spec fn spec_parse_oid(s: Seq<u8>) -> Result<(Seq<u32>, usize), SnmpError> {
    match spec_tlv(s, BerClass::Universal, false, TAG_OBJECT_ID) {
        Err(e) => Err(e),
        Ok((a, b)) => match spec_decode_oid(s.subrange(a as int, b as int)) {
            Err(e) => Err(e),
            Ok(o) => Ok((o, b)),
        },
    }
}

/// Decoding of a RELATIVE-OID element at the start of `s`.
pub open spec fn spec_parse_relative_oid(s: Seq<u8>) -> Result<(Seq<u32>, usize), SnmpError> {
    match spec_tlv(s, BerClass::Universal, false, TAG_RELATIVE_OID) {
        Err(e) => Err(e),
        Ok((a, b)) => match spec_decode_relative_oid(s.subrange(a as int, b as int)) {
            Err(e) => Err(e),
            Ok(o) => Ok((o, b)),
        },
    }
}

/// Base-128 digits above the lowest one, each with its high bit set.
pub open spec fn b128_high(v: nat) -> Seq<u8>
    decreases v,
{
    if v == 0 {
        Seq::<u8>::empty()
    } else {
        b128_high(v / 128).push((128 + v % 128) as u8)
    }
}

/// Shortest base-128 form of one subidentifier.
pub open spec fn encode_subid(v: nat) -> Seq<u8> {
    b128_high(v / 128).push((v % 128) as u8)
}

pub open spec fn encode_subids(vs: Seq<u32>) -> Seq<u8>
    decreases vs.len(),
{
    if vs.len() == 0 {
        Seq::<u8>::empty()
    } else {
        encode_subids(vs.drop_last()) + encode_subid(vs.last() as nat)
    }
}

/// Decimal digit.
pub open spec fn is_digit(c: u8) -> bool {
    48 <= c <= 57
}

/// Arcs of the dotted notation `b`, where `acc` is the value of the
/// digits read so far in the current arc and `digits` tells whether
/// there were any.
pub open spec fn spec_dotted(b: Seq<u8>, acc: nat, digits: bool) -> Result<Seq<u32>, SnmpError>
    decreases b.len(),
{
    if b.len() == 0 {
        if digits {
            Ok(seq![acc as u32])
        } else {
            Err(SnmpError::InvalidData)
        }
    } else if b[0] == 46 {
        if !digits {
            Err(SnmpError::InvalidData)
        } else {
            match spec_dotted(b.drop_first(), 0, false) {
                Ok(vs) => Ok(seq![acc as u32] + vs),
                Err(e) => Err(e),
            }
        }
    } else if is_digit(b[0]) {
        let acc2 = acc * 10 + (b[0] - 48) as nat;
        if acc2 > u32::MAX {
            Err(SnmpError::InvalidData)
        } else {
            spec_dotted(b.drop_first(), acc2, true)
        }
    } else {
        Err(SnmpError::InvalidData)
    }
}

/// Arcs written in dotted notation, such as `1.3.6.1.2.1.1.5.0`: decimal
/// numbers below 2^32 separated by single dots.
pub open spec fn spec_parse_dotted(b: Seq<u8>) -> Result<Seq<u32>, SnmpError> {
    spec_dotted(b, 0, false)
}

/// Decimal digits of `v`, most significant first, in ASCII.
pub open spec fn dec_digits(v: nat) -> Seq<u8>
    decreases v,
{
    if v < 10 {
        seq![(48 + v) as u8]
    } else {
        dec_digits(v / 10).push((48 + v % 10) as u8)
    }
}

/// Dotted notation of the arcs `o`, in ASCII.
pub open spec fn dotted_text(o: Seq<u32>) -> Seq<u8>
    decreases o.len(),
{
    if o.len() == 0 {
        Seq::<u8>::empty()
    } else if o.len() == 1 {
        dec_digits(o[0] as nat)
    } else {
        dec_digits(o[0] as nat) + seq![46u8] + dotted_text(o.skip(1))
    }
}

/// Reading the digits of `v` accumulates `v`.
proof fn lemma_read_digits(v: nat, rest: Seq<u8>)
    requires
        v <= u32::MAX,
    ensures
        spec_dotted(dec_digits(v) + rest, 0, false) == spec_dotted(rest, v, true),
    decreases v,
{
    if v < 10 {
        assert((dec_digits(v) + rest).drop_first() =~= rest);
    } else {
        let d = seq![(48 + v % 10) as u8];
        lemma_read_digits(v / 10, d + rest);
        assert(dec_digits(v) + rest =~= dec_digits(v / 10) + (d + rest));
        assert((d + rest).drop_first() =~= rest);
    }
}

/// The dotted notation of an identifier reads back as the identifier.
pub proof fn lemma_dotted_roundtrip(o: Seq<u32>)
    requires
        o.len() >= 1,
    ensures
        spec_parse_dotted(dotted_text(o)) == Ok::<Seq<u32>, SnmpError>(o),
    decreases o.len(),
{
    if o.len() == 1 {
        lemma_read_digits(o[0] as nat, Seq::<u8>::empty());
        assert(dec_digits(o[0] as nat) + Seq::<u8>::empty() =~= dec_digits(o[0] as nat));
        assert(seq![o[0]] =~= o);
    } else {
        let t = dotted_text(o.skip(1));
        lemma_read_digits(o[0] as nat, seq![46u8] + t);
        assert(dotted_text(o) =~= dec_digits(o[0] as nat) + (seq![46u8] + t));
        assert((seq![46u8] + t).drop_first() =~= t);
        lemma_dotted_roundtrip(o.skip(1));
        assert(seq![o[0]] + o.skip(1) =~= o);
    }
}

/// Appending an arc appends a dot and its digits.
proof fn lemma_dotted_push(o: Seq<u32>, v: u32)
    requires
        o.len() >= 1,
    ensures
        dotted_text(o.push(v)) == dotted_text(o) + seq![46u8] + dec_digits(v as nat),
    decreases o.len(),
{
    let h = dec_digits(o[0] as nat);
    let dv = dec_digits(v as nat);
    assert(o.push(v).skip(1) =~= o.skip(1).push(v));
    assert(o.push(v)[0] == o[0]);
    assert(dotted_text(o.push(v)) == h + seq![46u8] + dotted_text(o.skip(1).push(v)));
    if o.len() > 1 {
        lemma_dotted_push(o.skip(1), v);
        let t = dotted_text(o.skip(1));
        assert(h + seq![46u8] + (t + seq![46u8] + dv) =~= (h + seq![46u8] + t) + seq![46u8] + dv);
    } else {
        assert(o.skip(1).push(v) =~= seq![v]);
        assert(dotted_text(seq![v]) == dv);
    }
}

/// Append the decimal digits of `v`.
fn push_decimal(out: &mut Vec<u8>, v: u32)
    ensures
        final(out)@ == old(out)@ + dec_digits(v as nat),
    decreases v,
{
    if v >= 10 {
        push_decimal(out, v / 10);
    }
    out.push(48 + (v % 10) as u8);
    assert(final(out)@ =~= old(out)@ + dec_digits(v as nat));
}

/// Dotted notation of the arcs, in ASCII.
pub fn format_dotted(arcs: &[u32]) -> (r: Vec<u8>)
    ensures
        r@ == dotted_text(arcs@),
{
    let mut out: Vec<u8> = Vec::new();
    let n = arcs.len();
    if n == 0 {
        assert(out@ =~= dotted_text(arcs@));
        return out;
    }
    push_decimal(&mut out, arcs[0]);
    assert(arcs@.subrange(0, 1) =~= seq![arcs@[0]]);
    assert(out@ =~= dotted_text(arcs@.subrange(0, 1)));
    let mut i: usize = 1;
    while i < n
        invariant
            n == arcs@.len(),
            1 <= i <= n,
            out@ == dotted_text(arcs@.subrange(0, i as int)),
        decreases n - i,
    {
        out.push(46);
        push_decimal(&mut out, arcs[i]);
        proof {
            lemma_dotted_push(arcs@.subrange(0, i as int), arcs@[i as int]);
            assert(arcs@.subrange(0, i as int).push(arcs@[i as int]) =~= arcs@.subrange(
                0,
                i + 1,
            ));
        }
        i = i + 1;
    }
    assert(arcs@.subrange(0, n as int) =~= arcs@);
    out
}

/// Whether the arcs can be written as an OBJECT IDENTIFIER.
pub open spec fn oid_encodable(o: Seq<u32>) -> bool {
    &&& o.len() >= 2
    &&& o[0] <= 2
    &&& (o[0] < 2 ==> o[1] < 40)
    &&& 40 * o[0] + o[1] <= u32::MAX
}

pub open spec fn encode_oid_content(o: Seq<u32>) -> Seq<u8> {
    encode_subid((40 * o[0] + o[1]) as nat) + encode_subids(o.skip(2))
}

/// Complete OBJECT IDENTIFIER element.
pub open spec fn encode_oid(o: Seq<u32>) -> Seq<u8> {
    seq![TAG_OBJECT_ID] + encode_len(encode_oid_content(o).len()) + encode_oid_content(o)
}

/// The arcs of `rel` replace as many trailing arcs of `base`.
pub open spec fn spec_normalize(rel: Seq<u32>, base: Seq<u32>) -> Seq<u32> {
    if rel.len() <= base.len() {
        base.subrange(0, base.len() - rel.len()) + rel
    } else {
        rel
    }
}

/// Whether `oid` lies in the subtree rooted at `root`.
pub open spec fn spec_contains(root: Seq<u32>, oid: Seq<u32>) -> bool {
    root.len() <= oid.len() && oid.subrange(0, root.len() as int) == root
}

/// A decoded identifier ends within the input.
pub proof fn lemma_parse_oid_len(s: Seq<u8>)
    requires
        s.len() <= usize::MAX,
    ensures
        spec_parse_oid(s) matches Ok((_, n)) ==> n <= s.len(),
{
    crate::ber::lemma_tlv_bounds(s, BerClass::Universal, false, TAG_OBJECT_ID);
}

/// A decoded relative identifier ends within the input.
pub proof fn lemma_parse_relative_oid_len(s: Seq<u8>)
    requires
        s.len() <= usize::MAX,
    ensures
        spec_parse_relative_oid(s) matches Ok((_, n)) ==> n <= s.len(),
{
    crate::ber::lemma_tlv_bounds(s, BerClass::Universal, false, TAG_RELATIVE_OID);
}


/// 128 to the power `n`.
pub open spec fn pow128(n: nat) -> nat
    decreases n,
{
    if n == 0 {
        1
    } else {
        128 * pow128((n - 1) as nat)
    }
}

pub open spec fn shift_count(r: Result<(u32, nat), SnmpError>, k: nat) -> Result<(u32, nat), SnmpError> {
    match r {
        Ok((v, n)) => Ok((v, n + k)),
        Err(e) => Err(e),
    }
}

proof fn lemma_pow128_pos(n: nat)
    ensures
        pow128(n) >= 1,
    decreases n,
{
    if n > 0 {
        lemma_pow128_pos((n - 1) as nat);
    }
}

/// Reading the high digits of `h` continues the value `acc`.
proof fn lemma_subid_high(h: nat, t: Seq<u8>, acc: nat)
    requires
        acc * pow128(b128_high(h).len()) + h <= u32::MAX,
    ensures
        spec_subid(b128_high(h) + t, acc) == shift_count(
            spec_subid(t, acc * pow128(b128_high(h).len()) + h),
            b128_high(h).len(),
        ),
    decreases h,
{
    if h == 0 {
        assert(b128_high(h) + t =~= t);
        assert(pow128(0) == 1);
        assert(shift_count(spec_subid(t, acc), 0) == spec_subid(t, acc));
        assert(b128_high(h).len() == 0);
        assert(acc * pow128(0) + h == acc);
    } else {
        let hb = b128_high(h / 128);
        let k = hb.len();
        let byte = (128 + h % 128) as u8;
        let t2 = seq![byte] + t;
        assert(b128_high(h) == hb.push(byte));
        assert(b128_high(h) + t =~= hb + t2);
        lemma_pow128_pos(k);
        let p = pow128(k);
        let a = acc * p + h / 128;
        assert(pow128(k + 1) == 128 * p);
        assert(a * 128 + h % 128 == acc * (128 * p) + h) by (nonlinear_arith)
            requires
                a == acc * p + h / 128,
        {
        }
        assert(a <= a * 128 + h % 128) by (nonlinear_arith)
            requires
                a >= 0,
        {
        }
        lemma_subid_high(h / 128, t2, acc);
        assert(t2.drop_first() =~= t);
        assert(t2[0] == byte);
        assert(byte % 128 == h % 128);
        let inner = spec_subid(t, acc * pow128(k + 1) + h);
        assert(spec_subid(t2, a) == shift_count(inner, 1));
        assert(b128_high(h).len() == k + 1);
        assert(shift_count(shift_count(inner, 1), k) == shift_count(inner, k + 1));
        assert(spec_subid(hb + t2, acc) == shift_count(spec_subid(t2, a), k));
        assert(spec_subid(b128_high(h) + t, acc) == spec_subid(hb + t2, acc));
        assert(acc * pow128(b128_high(h).len()) + h == acc * pow128(k + 1) + h);
    }
}

/// Reading the base-128 form of a subidentifier gives it back, whatever
/// follows.
pub proof fn lemma_subid_roundtrip(v: nat, t: Seq<u8>)
    requires
        v <= u32::MAX,
    ensures
        spec_subid(encode_subid(v) + t, 0) == Ok::<(u32, nat), SnmpError>(
            (v as u32, encode_subid(v).len()),
        ),
{
    let hb = b128_high(v / 128);
    let k = hb.len();
    let t2 = seq![(v % 128) as u8] + t;
    assert(encode_subid(v) + t =~= hb + t2);
    lemma_pow128_pos(k);
    assert(0 * pow128(k) + v / 128 == v / 128);
    lemma_subid_high(v / 128, t2, 0);
    assert(t2[0] == (v % 128) as u8);
    assert((v / 128) * 128 + v % 128 == v);
}

/// A non-empty run of subidentifiers starts with the first one's form.
pub proof fn lemma_encode_subids_first(vs: Seq<u32>)
    requires
        vs.len() > 0,
    ensures
        encode_subids(vs) == encode_subid(vs[0] as nat) + encode_subids(vs.skip(1)),
    decreases vs.len(),
{
    if vs.len() == 1 {
        assert(vs.drop_last() =~= Seq::<u32>::empty());
        assert(vs.skip(1) =~= Seq::<u32>::empty());
        assert(encode_subids(vs) =~= encode_subid(vs[0] as nat) + encode_subids(vs.skip(1)));
    } else {
        lemma_encode_subids_first(vs.drop_last());
        assert(vs.drop_last().skip(1) =~= vs.skip(1).drop_last());
        assert(vs.skip(1).last() == vs.last());
        assert(encode_subids(vs) =~= encode_subid(vs[0] as nat) + encode_subids(vs.skip(1)));
    }
}

/// Decoding the encoding of subidentifiers gives them back.
pub proof fn lemma_subids_roundtrip(vs: Seq<u32>)
    ensures
        spec_subids(encode_subids(vs)) == Ok::<Seq<u32>, SnmpError>(vs),
    decreases vs.len(),
{
    if vs.len() == 0 {
        assert(encode_subids(vs) =~= Seq::<u8>::empty());
        assert(vs =~= Seq::<u32>::empty());
    } else {
        lemma_encode_subids_first(vs);
        let e = encode_subid(vs[0] as nat);
        let rest = encode_subids(vs.skip(1));
        lemma_subid_roundtrip(vs[0] as nat, rest);
        lemma_encode_subid_len(vs[0] as nat);
        assert((e + rest).skip(e.len() as int) =~= rest);
        lemma_subids_roundtrip(vs.skip(1));
        assert(seq![vs[0]] + vs.skip(1) =~= vs);
    }
}

proof fn lemma_encode_subid_len(v: nat)
    ensures
        encode_subid(v).len() >= 1,
{
}

/// Decoding the contents of an encodable identifier gives it back.
pub proof fn lemma_oid_content_roundtrip(o: Seq<u32>)
    requires
        oid_encodable(o),
    ensures
        spec_decode_oid(encode_oid_content(o)) == Ok::<Seq<u32>, SnmpError>(o),
{
    let f = (40 * o[0] + o[1]) as u32;
    let vs = seq![f] + o.skip(2);
    lemma_encode_subids_first(vs);
    assert(vs.skip(1) =~= o.skip(2));
    assert(encode_oid_content(o) == encode_subids(vs));
    lemma_subids_roundtrip(vs);
    lemma_encode_subid_len(f as nat);
    assert(vs[0] == f);
    let head: Seq<u32> = if f < 40 {
        seq![0u32, f]
    } else if f < 80 {
        seq![1u32, (f - 40) as u32]
    } else {
        seq![2u32, (f - 80) as u32]
    };
    assert(head =~= o.subrange(0, 2));
    assert(head + vs.skip(1) =~= o);
}

/// Decoding the element of an encodable identifier gives the identifier
/// and the length of the element back, whatever follows it.
pub proof fn lemma_oid_roundtrip(o: Seq<u32>, rest: Seq<u8>)
    requires
        oid_encodable(o),
        encode_oid(o).len() + rest.len() <= BUFFER_SIZE,
    ensures
        spec_parse_oid(encode_oid(o) + rest) == Ok::<(Seq<u32>, usize), SnmpError>(
            (o, encode_oid(o).len() as usize),
        ),
{
    let c = encode_oid_content(o);
    assert(encode_oid(o) == encode_tlv(TAG_OBJECT_ID, c));
    lemma_tlv_roundtrip(TAG_OBJECT_ID, c, rest);
    lemma_oid_content_roundtrip(o);
}

proof fn lemma_subid_len(c: Seq<u8>, acc: nat)
    ensures
        spec_subid(c, acc) matches Ok((_, n)) ==> 1 <= n <= c.len(),
    decreases c.len(),
{
    if c.len() > 0 {
        let acc2 = acc * 128 + (c[0] % 128) as nat;
        if acc2 <= u32::MAX && c[0] >= 128 {
            lemma_subid_len(c.drop_first(), acc2);
        }
    }
}

/// Decode one subidentifier starting at `start`.
fn parse_subid(c: &[u8], start: usize) -> (r: Result<(u32, usize), SnmpError>)
    requires
        start <= c@.len(),
    ensures
        match r {
            Ok((v, n)) => spec_subid(c@.skip(start as int), 0) == Ok::<(u32, nat), SnmpError>(
                (v, n as nat),
            ),
            Err(e) => spec_subid(c@.skip(start as int), 0) == Err::<(u32, nat), SnmpError>(e),
        },
{
    let mut acc: u64 = 0;
    let mut i = start;
    while i < c.len()
        invariant
            start <= i <= c@.len(),
            acc <= u32::MAX,
            spec_subid(c@.skip(start as int), 0) == match spec_subid(c@.skip(i as int), acc as nat) {
                Ok((v, n)) => Ok::<(u32, nat), SnmpError>((v, n + (i - start) as nat)),
                Err(e) => Err(e),
            },
        decreases c@.len() - i,
    {
        let b = c[i];
        let acc2 = acc * 128 + (b % 128) as u64;
        assert(c@.skip(i as int)[0] == b);
        if acc2 > 0xffff_ffff {
            return Err(SnmpError::InvalidData);
        }
        if b < 128 {
            return Ok((acc2 as u32, i - start + 1));
        }
        assert(c@.skip(i as int).drop_first() =~= c@.skip(i + 1));
        acc = acc2;
        i = i + 1;
    }
    Err(SnmpError::Incomplete)
}

/// Decode all subidentifiers of `c`.
fn parse_subids(c: &[u8]) -> (r: Result<Vec<u32>, SnmpError>)
    ensures
        match r {
            Ok(v) => spec_subids(c@) == Ok::<Seq<u32>, SnmpError>(v@),
            Err(e) => spec_subids(c@) == Err::<Seq<u32>, SnmpError>(e),
        },
{
    let mut out: Vec<u32> = Vec::new();
    let mut pos: usize = 0;
    assert(c@.skip(0) =~= c@);
    while pos < c.len()
        invariant
            pos <= c@.len(),
            spec_subids(c@) == match spec_subids(c@.skip(pos as int)) {
                Ok(vs) => Ok::<Seq<u32>, SnmpError>(out@ + vs),
                Err(e) => Err(e),
            },
        decreases c@.len() - pos,
    {
        proof {
            lemma_subid_len(c@.skip(pos as int), 0);
        }
        let (v, n) = parse_subid(c, pos)?;
        assert(c@.skip(pos as int).skip(n as int) =~= c@.skip(pos + n));
        let ghost before = out@;
        out.push(v);
        proof {
            match spec_subids(c@.skip(pos + n)) {
                Ok(vs) => {
                    assert(before + (seq![v] + vs) =~= out@ + vs);
                },
                Err(_) => {},
            }
        }
        pos = pos + n;
    }
    assert(c@.skip(pos as int) =~= Seq::<u8>::empty());
    assert(out@ + Seq::<u32>::empty() =~= out@);
    Ok(out)
}

impl SnmpOid {
    /// Decode an OBJECT IDENTIFIER element at the start of `s`; gives the
    /// identifier and the number of bytes it takes.
    pub fn from_ber(s: &[u8]) -> (r: Result<(SnmpOid, usize), SnmpError>)
        ensures
            match r {
                Ok((o, n)) => spec_parse_oid(s@) == Ok::<(Seq<u32>, usize), SnmpError>((o@, n)),
                Err(e) => spec_parse_oid(s@) == Err::<(Seq<u32>, usize), SnmpError>(e),
            },
    {
        let (a, b) = expect_tlv(s, BerClass::Universal, false, TAG_OBJECT_ID)?;
        let c = slice_sub(s, a, b);
        let o = decode_oid(c)?;
        Ok((o, b))
    }

    /// Decode a RELATIVE-OID element at the start of `s`.
    pub fn relative_from_ber(s: &[u8]) -> (r: Result<(SnmpOid, usize), SnmpError>)
        ensures
            match r {
                Ok((o, n)) => spec_parse_relative_oid(s@) == Ok::<(Seq<u32>, usize), SnmpError>(
                    (o@, n),
                ),
                Err(e) => spec_parse_relative_oid(s@) == Err::<(Seq<u32>, usize), SnmpError>(e),
            },
    {
        let (a, b) = expect_tlv(s, BerClass::Universal, false, TAG_RELATIVE_OID)?;
        if a == b {
            return Err(SnmpError::InvalidData);
        }
        let c = slice_sub(s, a, b);
        let vs = parse_subids(c)?;
        Ok((SnmpOid(vs), b))
    }

    /// A copy of the identifier.
    pub fn copy(&self) -> (r: SnmpOid)
        ensures
            r@ == self@,
    {
        let mut out: Vec<u32> = Vec::new();
        let mut i: usize = 0;
        while i < self.0.len()
            invariant
                i <= self@.len(),
                out@ == self@.subrange(0, i as int),
            decreases self@.len() - i,
        {
            out.push(self.0[i]);
            i = i + 1;
            assert(out@ =~= self@.subrange(0, i as int));
        }
        assert(out@ =~= self@);
        SnmpOid(out)
    }

    /// Whether `oid` lies in the subtree rooted at this identifier.
    pub fn contains(&self, oid: &SnmpOid) -> (r: bool)
        ensures
            r == spec_contains(self@, oid@),
    {
        let n = self.0.len();
        if n > oid.0.len() {
            return false;
        }
        let mut i: usize = 0;
        while i < n
            invariant
                n == self@.len(),
                n <= oid@.len(),
                i <= n,
                oid@.subrange(0, i as int) == self@.subrange(0, i as int),
            decreases n - i,
        {
            if self.0[i] != oid.0[i] {
                assert(oid@.subrange(0, n as int)[i as int] != self@[i as int]);
                return false;
            }
            i = i + 1;
            assert(oid@.subrange(0, i as int) =~= self@.subrange(0, i as int));
        }
        assert(self@.subrange(0, n as int) =~= self@);
        true
    }

    /// Apply this relative identifier to `base`: its arcs replace as many
    /// trailing arcs of `base`.
    pub fn normalize(&self, base: &SnmpOid) -> (r: SnmpOid)
        ensures
            r@ == spec_normalize(self@, base@),
    {
        if self.0.len() > base.0.len() {
            return self.copy();
        }
        let keep = base.0.len() - self.0.len();
        let mut out: Vec<u32> = Vec::new();
        let mut i: usize = 0;
        while i < keep
            invariant
                keep <= base@.len(),
                i <= keep,
                out@ == base@.subrange(0, i as int),
            decreases keep - i,
        {
            out.push(base.0[i]);
            i = i + 1;
            assert(out@ =~= base@.subrange(0, i as int));
        }
        let mut j: usize = 0;
        while j < self.0.len()
            invariant
                j <= self@.len(),
                out@ == base@.subrange(0, keep as int) + self@.subrange(0, j as int),
            decreases self@.len() - j,
        {
            out.push(self.0[j]);
            j = j + 1;
            assert(out@ =~= base@.subrange(0, keep as int) + self@.subrange(0, j as int));
        }
        assert(self@.subrange(0, self@.len() as int) =~= self@);
        SnmpOid(out)
    }
}

/// Decode OBJECT IDENTIFIER contents.
pub fn decode_oid(c: &[u8]) -> (r: Result<SnmpOid, SnmpError>)
    ensures
        match r {
            Ok(o) => spec_decode_oid(c@) == Ok::<Seq<u32>, SnmpError>(o@),
            Err(e) => spec_decode_oid(c@) == Err::<Seq<u32>, SnmpError>(e),
        },
{
    if c.len() == 0 {
        return Err(SnmpError::InvalidData);
    }
    let vs = parse_subids(c)?;
    if vs.len() == 0 {
        return Err(SnmpError::InvalidData);
    }
    let f = vs[0];
    let mut out: Vec<u32> = Vec::new();
    if f < 40 {
        out.push(0);
        out.push(f);
    } else if f < 80 {
        out.push(1);
        out.push(f - 40);
    } else {
        out.push(2);
        out.push(f - 80);
    }
    let ghost head = out@;
    let mut i: usize = 1;
    while i < vs.len()
        invariant
            1 <= i <= vs@.len(),
            out@ == head + vs@.subrange(1, i as int),
        decreases vs@.len() - i,
    {
        out.push(vs[i]);
        i = i + 1;
        assert(out@ =~= head + vs@.subrange(1, i as int));
    }
    assert(vs@.subrange(1, vs@.len() as int) =~= vs@.skip(1));
    proof {
        let sh: Seq<u32> = if f < 40 {
            seq![0u32, f]
        } else if f < 80 {
            seq![1u32, (f - 40) as u32]
        } else {
            seq![2u32, (f - 80) as u32]
        };
        assert(head =~= sh);
        assert(out@ =~= sh + vs@.skip(1));
    }
    Ok(SnmpOid(out))
}

fn b128_high_exec(v: u32) -> (r: Vec<u8>)
    ensures
        r@ == b128_high(v as nat),
    decreases v,
{
    if v == 0 {
        Vec::new()
    } else {
        let mut r = b128_high_exec(v / 128);
        r.push((128 + v % 128) as u8);
        r
    }
}

/// Append the base-128 form of `v`.
fn append_subid(out: &mut Vec<u8>, v: u32)
    ensures
        final(out)@ == old(out)@ + encode_subid(v as nat),
{
    let high = b128_high_exec(v / 128);
    let mut i: usize = 0;
    let ghost start = out@;
    while i < high.len()
        invariant
            i <= high@.len(),
            out@ == start + high@.subrange(0, i as int),
        decreases high@.len() - i,
    {
        out.push(high[i]);
        i = i + 1;
        assert(out@ =~= start + high@.subrange(0, i as int));
    }
    out.push((v % 128) as u8);
    assert(out@ =~= start + encode_subid(v as nat));
}

fn dotted_from(b: &[u8], i: usize, acc: u32, digits: bool) -> (r: Result<Vec<u32>, SnmpError>)
    requires
        i <= b@.len(),
    ensures
        match r {
            Ok(v) => spec_dotted(b@.skip(i as int), acc as nat, digits) == Ok::<
                Seq<u32>,
                SnmpError,
            >(v@),
            Err(e) => spec_dotted(b@.skip(i as int), acc as nat, digits) == Err::<
                Seq<u32>,
                SnmpError,
            >(e),
        },
    decreases b@.len() - i,
{
    if i == b.len() {
        if digits {
            let mut v = Vec::new();
            v.push(acc);
            assert(v@ =~= seq![acc]);
            return Ok(v);
        } else {
            return Err(SnmpError::InvalidData);
        }
    }
    let c = b[i];
    assert(b@.skip(i as int)[0] == c);
    assert(b@.skip(i as int).drop_first() =~= b@.skip(i + 1));
    if c == 46 {
        if !digits {
            return Err(SnmpError::InvalidData);
        }
        let mut rest = dotted_from(b, i + 1, 0, false)?;
        let ghost tail = rest@;
        rest.insert(0, acc);
        assert(rest@ =~= seq![acc] + tail);
        Ok(rest)
    } else if 48 <= c && c <= 57 {
        let acc2: u64 = acc as u64 * 10 + (c - 48) as u64;
        if acc2 > 0xffff_ffff {
            return Err(SnmpError::InvalidData);
        }
        dotted_from(b, i + 1, acc2 as u32, true)
    } else {
        Err(SnmpError::InvalidData)
    }
}

impl SnmpOid {
    /// Parse the dotted notation of an identifier, such as
    /// `1.3.6.1.2.1.1.5.0`.
    pub fn from_dotted(s: &str) -> (r: Result<SnmpOid, SnmpError>)
        ensures
            match r {
                Ok(o) => spec_parse_dotted(s.spec_bytes()) == Ok::<Seq<u32>, SnmpError>(o@),
                Err(e) => spec_parse_dotted(s.spec_bytes()) == Err::<Seq<u32>, SnmpError>(e),
            },
    {
        let b = s.as_bytes();
        assert(b@.skip(0) =~= b@);
        let v = dotted_from(b, 0, 0, false)?;
        Ok(SnmpOid(v))
    }

    /// Dotted notation of the identifier, in ASCII.
    pub fn to_dotted(&self) -> (r: Vec<u8>)
        ensures
            r@ == dotted_text(self@),
    {
        format_dotted(self.0.as_slice())
    }

    /// Whether the identifier can be written as an OBJECT IDENTIFIER.
    pub fn is_encodable(&self) -> (r: bool)
        ensures
            r == oid_encodable(self@),
    {
        if self.0.len() < 2 {
            return false;
        }
        let a = self.0[0];
        let b = self.0[1];
        !(a > 2 || (a < 2 && b >= 40) || 40 * (a as u64) + (b as u64) > 0xffff_ffff)
    }

    /// Prepend the OBJECT IDENTIFIER element. Identifiers with fewer than
    /// two arcs, or whose first two arcs cannot share one subidentifier,
    /// are refused with `InvalidData` and leave the buffer unchanged.
    pub fn push_ber(&self, buf: &mut Buffer) -> (r: Result<(), SnmpError>)
        requires
            old(buf).wf(),
        ensures
            final(buf).wf(),
            !oid_encodable(self@) ==> r == Err::<(), SnmpError>(SnmpError::InvalidData),
            oid_encodable(self@) ==> (r is Ok <==> old(buf)@.len() + encode_oid(self@).len()
                <= BUFFER_SIZE),
            r is Ok ==> final(buf)@ == encode_oid(self@) + old(buf)@,
            r is Err ==> final(buf)@ == old(buf)@,
            oid_encodable(self@) && r is Err ==> r == Err::<(), SnmpError>(
                SnmpError::OutOfBuffer,
            ),
            final(buf).mark() == old(buf).mark(),
    {
        let n = self.0.len();
        if n < 2 {
            return Err(SnmpError::InvalidData);
        }
        let a = self.0[0];
        let b = self.0[1];
        if a > 2 || (a < 2 && b >= 40) || 40 * (a as u64) + (b as u64) > 0xffff_ffff {
            return Err(SnmpError::InvalidData);
        }
        let mut content: Vec<u8> = Vec::new();
        append_subid(&mut content, (40 * (a as u64) + (b as u64)) as u32);
        let ghost first = content@;
        let mut i: usize = 2;
        assert(self@.subrange(2, 2) =~= Seq::<u32>::empty());
        while i < n
            invariant
                n == self@.len(),
                2 <= i <= n,
                content@ == first + encode_subids(self@.subrange(2, i as int)),
            decreases n - i,
        {
            let ghost before = content@;
            append_subid(&mut content, self.0[i]);
            proof {
                let s2 = self@.subrange(2, i + 1);
                assert(s2.drop_last() =~= self@.subrange(2, i as int));
                assert(s2.last() == self@[i as int]);
            }
            i = i + 1;
        }
        assert(self@.subrange(2, n as int) =~= self@.skip(2));
        buf.push_tagged(TAG_OBJECT_ID, content.as_slice())
    }
}

} // verus!
