//! Basic Encoding Rules: headers, lengths and big-endian numbers.

use crate::error::SnmpError;
use vstd::prelude::*;
use vstd::slice::slice_subrange;

verus! {

pub const TAG_BOOL: u8 = 1;
pub const TAG_INT: u8 = 2;
pub const TAG_OCTET_STRING: u8 = 4;
pub const TAG_NULL: u8 = 5;
pub const TAG_OBJECT_ID: u8 = 6;
pub const TAG_RELATIVE_OID: u8 = 13;
pub const TAG_SEQUENCE: u8 = 16;
/// First byte of a constructed universal SEQUENCE.
pub const SEQUENCE_BYTE: u8 = 0x30;
pub const TAG_APP_IPADDRESS: u8 = 0;
pub const TAG_APP_COUNTER32: u8 = 1;
pub const TAG_APP_GAUGE32: u8 = 2;
pub const TAG_APP_TIMETICKS: u8 = 3;
pub const TAG_APP_OPAQUE: u8 = 4;
pub const TAG_APP_COUNTER64: u8 = 6;
pub const TAG_APP_UINTEGER32: u8 = 7;
pub const TAG_CTX_NO_SUCH_OBJECT: u8 = 0;
pub const TAG_CTX_NO_SUCH_INSTANCE: u8 = 1;
pub const TAG_CTX_END_OF_MIB_VIEW: u8 = 2;

/// 256 to the power `n`.
pub open spec fn pow256(n: nat) -> nat
    decreases n,
{
    if n == 0 {
        1
    } else {
        256 * pow256((n - 1) as nat)
    }
}

/// Value of a big-endian unsigned number.
pub open spec fn be_uint(s: Seq<u8>) -> nat
    decreases s.len(),
{
    if s.len() == 0 {
        0
    } else {
        be_uint(s.drop_last()) * 256 + s.last() as nat
    }
}

/// The `n` low-order bytes of `v`, most significant first.
pub open spec fn be_bytes(v: nat, n: nat) -> Seq<u8>
    decreases n,
{
    if n == 0 {
        Seq::<u8>::empty()
    } else {
        be_bytes(v / 256, (n - 1) as nat).push((v % 256) as u8)
    }
}

/// Number of bytes of the shortest big-endian form of `v` (at least one).
pub open spec fn uint_len(v: nat) -> nat
    decreases v,
{
    if v < 256 {
        1
    } else {
        1 + uint_len(v / 256)
    }
}

/// BER length field: short form below 128, long form otherwise.
pub open spec fn encode_len(len: nat) -> Seq<u8> {
    if len < 128 {
        seq![len as u8]
    } else {
        seq![(128 + uint_len(len)) as u8] + be_bytes(len, uint_len(len))
    }
}

/// Lengths below 128 take a single byte.
pub proof fn lemma_encode_len_short(len: nat)
    requires
        len < 128,
    ensures
        encode_len(len) == seq![len as u8],
        encode_len(len).len() == 1,
{
}

/// An element made of a one-byte identifier, the length field and the
/// contents.
pub open spec fn encode_tlv(tag: u8, body: Seq<u8>) -> Seq<u8> {
    seq![tag] + encode_len(body.len()) + body
}

/// Decoding the header of an element written by `encode_tlv` gives its
/// identifier and the length of its contents back, whatever follows it.
pub proof fn lemma_tlv_roundtrip(tag: u8, body: Seq<u8>, rest: Seq<u8>)
    requires
        tag % 32 != 31,
        body.len() < 0x1_0000_0000,
        encode_tlv(tag, body).len() + rest.len() <= usize::MAX,
    ensures
        spec_parse_header(encode_tlv(tag, body) + rest) == Ok::<(BerHeader, usize), SnmpError>(
            (
                BerHeader {
                    class: class_of(tag),
                    constructed: (tag / 32) % 2 == 1,
                    tag: tag % 32,
                    length: body.len() as usize,
                },
                (1 + encode_len(body.len()).len()) as usize,
            ),
        ),
        encode_tlv(tag, body).len() == 1 + encode_len(body.len()).len() + body.len(),
        (encode_tlv(tag, body) + rest).subrange(
            1 + encode_len(body.len()).len() as int,
            1 + encode_len(body.len()).len() + body.len() as int,
        ) == body,
        (encode_tlv(tag, body) + rest).skip(encode_tlv(tag, body).len() as int) == rest,
        1 + encode_len(body.len()).len() <= 6,
{
    reveal(spec_parse_header);
    let len = body.len();
    let s = encode_tlv(tag, body) + rest;
    let l = encode_len(len);
    if len >= 128 {
        let n = uint_len(len);
        lemma_uint_len(len);
        lemma_pow256_8();
        lemma_uint_len_le(len, 4);
        lemma_be_bytes_len(len, n);
        lemma_be_bytes_roundtrip(len, n);
        vstd::arithmetic::div_mod::lemma_small_mod(len, pow256(n));
        assert(s.subrange(2, 2 + n as int) =~= be_bytes(len, n));
    }
    assert(s.subrange(1 + l.len() as int, 1 + l.len() + len as int) =~= body);
    assert(s.skip(encode_tlv(tag, body).len() as int) =~= rest);
}

/// Class of a BER tag.
#[derive(Debug, Clone, Copy, PartialEq, Eq, Structural)]
pub enum BerClass {
    Universal,
    Application,
    Context,
    Private,
}

/// Identifier and length octets of a BER element.
#[derive(Debug, Clone, Copy, PartialEq, Eq, Structural)]
pub struct BerHeader {
    pub class: BerClass,
    pub constructed: bool,
    pub tag: u8,
    /// Length of the contents.
    pub length: usize,
}

pub open spec fn class_of(b: u8) -> BerClass {
    if b / 64 == 0 {
        BerClass::Universal
    } else if b / 64 == 1 {
        BerClass::Application
    } else if b / 64 == 2 {
        BerClass::Context
    } else {
        BerClass::Private
    }
}

/// Decoding of the identifier and length octets at the start of `s`;
/// the result holds the header and the number of header bytes.
/// Succeeds only when the contents lie entirely within `s`.
#[verifier::opaque]
pub open spec fn spec_parse_header(s: Seq<u8>) -> Result<(BerHeader, usize), SnmpError> {
    if s.len() < 2 {
        Err(SnmpError::Incomplete)
    } else if s[0] % 32 == 31 {
        Err(SnmpError::UnsupportedTag)
    } else {
        let b = s[1];
        if b == 128 {
            Err(SnmpError::InvalidData)
        } else if b > 132 {
            Err(SnmpError::InvalidData)
        } else {
            let k: int = if b < 128 {
                0
            } else {
                b - 128
            };
            if s.len() < 2 + k {
                Err(SnmpError::Incomplete)
            } else {
                let len: nat = if b < 128 {
                    b as nat
                } else {
                    be_uint(s.subrange(2, 2 + k))
                };
                if s.len() - (2 + k) < len {
                    Err(SnmpError::Incomplete)
                } else {
                    Ok(
                        (
                            BerHeader {
                                class: class_of(s[0]),
                                constructed: (s[0] / 32) % 2 == 1,
                                tag: s[0] % 32,
                                length: len as usize,
                            },
                            (2 + k) as usize,
                        ),
                    )
                }
            }
        }
    }
}

pub proof fn lemma_pow256_pos(n: nat)
    ensures
        pow256(n) >= 1,
    decreases n,
{
    if n > 0 {
        lemma_pow256_pos((n - 1) as nat);
    }
}

/// A big-endian number of `n` bytes is below `256^n`.
pub proof fn lemma_be_uint_bound(s: Seq<u8>)
    ensures
        be_uint(s) < pow256(s.len()),
    decreases s.len(),
{
    if s.len() > 0 {
        lemma_be_uint_bound(s.drop_last());
    }
}

/// Step of a left-to-right decoding loop.
pub proof fn lemma_be_uint_step(s: Seq<u8>, i: int)
    requires
        0 <= i < s.len(),
    ensures
        be_uint(s.subrange(0, i + 1)) == be_uint(s.subrange(0, i)) * 256 + s[i],
{
    assert(s.subrange(0, i + 1).drop_last() =~= s.subrange(0, i));
}

/// A big-endian number split after its first byte.
pub proof fn lemma_be_uint_first(s: Seq<u8>)
    requires
        s.len() >= 1,
    ensures
        be_uint(s) == s[0] * pow256((s.len() - 1) as nat) + be_uint(s.skip(1)),
    decreases s.len(),
{
    if s.len() == 1 {
        assert(s.drop_last() =~= Seq::<u8>::empty());
        assert(s.skip(1) =~= Seq::<u8>::empty());
        assert(be_uint(s) == be_uint(s.drop_last()) * 256 + s.last() as nat);
        assert(pow256(0) == 1);
        assert(be_uint(s) == s[0]);
        assert(s[0] * pow256(0) == s[0]);
    } else {
        let dl = s.drop_last();
        lemma_be_uint_first(dl);
        assert(s.skip(1).drop_last() =~= dl.skip(1));
        let p = pow256((s.len() - 2) as nat);
        let a = s[0] as int;
        let x = be_uint(dl.skip(1)) as int;
        let l = s.last() as int;
        assert(dl[0] == s[0]);
        assert(be_uint(dl) == a * p + x);
        assert(be_uint(s) == be_uint(dl) * 256 + l);
        assert(be_uint(s.skip(1)) == be_uint(s.skip(1).drop_last()) * 256 + s.skip(1).last() as nat);
        assert(s.skip(1).last() == s.last());
        assert(be_uint(s.skip(1)) == x * 256 + l);
        assert(pow256((s.len() - 1) as nat) == 256 * p);
        assert((a * p + x) * 256 + l == a * (256 * p) + (x * 256 + l)) by (nonlinear_arith);
    }
}

/// The first byte of a big-endian number decides whether it reaches
/// half of its range.
pub proof fn lemma_be_uint_top_bit(s: Seq<u8>)
    requires
        s.len() >= 1,
    ensures
        s[0] >= 128 <==> be_uint(s) >= 128 * pow256((s.len() - 1) as nat),
        pow256(s.len()) == 256 * pow256((s.len() - 1) as nat),
{
    lemma_be_uint_first(s);
    lemma_be_uint_bound(s.skip(1));
    let p = pow256((s.len() - 1) as nat);
    let a = s[0] as int;
    let x = be_uint(s.skip(1)) as int;
    assert(a >= 128 ==> a * p + x >= 128 * p) by (nonlinear_arith)
        requires
            x >= 0,
            p >= 0,
    ;
    assert(a < 128 ==> a * p + x < 128 * p) by (nonlinear_arith)
        requires
            x < p,
            a >= 0,
    ;
}

/// Decoding a prefix never gives more than decoding the whole.
pub proof fn lemma_be_uint_prefix_le(s: Seq<u8>, i: int)
    requires
        0 <= i <= s.len(),
    ensures
        be_uint(s.subrange(0, i)) <= be_uint(s),
    decreases s.len() - i,
{
    if i < s.len() {
        lemma_be_uint_step(s, i);
        lemma_be_uint_prefix_le(s, i + 1);
    } else {
        assert(s.subrange(0, i) =~= s);
    }
}

/// Decoding of unsigned contents bounded by `max`.
pub open spec fn spec_decode_unsigned(c: Seq<u8>, max: nat) -> Result<nat, SnmpError> {
    if c.len() == 0 || be_uint(c) > max {
        Err(SnmpError::InvalidData)
    } else {
        Ok(be_uint(c))
    }
}

/// Decode unsigned big-endian contents that must not exceed `max`.
pub fn decode_unsigned(c: &[u8], max: u64) -> (r: Result<u64, SnmpError>)
    ensures
        match r {
            Ok(v) => spec_decode_unsigned(c@, max as nat) == Ok::<nat, SnmpError>(v as nat),
            Err(e) => spec_decode_unsigned(c@, max as nat) == Err::<nat, SnmpError>(e),
        },
{
    if c.len() == 0 {
        return Err(SnmpError::InvalidData);
    }
    let mut acc: u128 = 0;
    let mut i: usize = 0;
    while i < c.len()
        invariant
            i <= c@.len(),
            acc == be_uint(c@.subrange(0, i as int)),
            acc <= max,
        decreases c@.len() - i,
    {
        proof {
            lemma_be_uint_step(c@, i as int);
        }
        acc = acc * 256 + c[i] as u128;
        i = i + 1;
        if acc > max as u128 {
            proof {
                lemma_be_uint_prefix_le(c@, i as int);
            }
            return Err(SnmpError::InvalidData);
        }
    }
    assert(c@.subrange(0, i as int) =~= c@);
    Ok(acc as u64)
}

pub proof fn lemma_be_bytes_len(v: nat, n: nat)
    ensures
        be_bytes(v, n).len() == n,
    decreases n,
{
    if n > 0 {
        lemma_be_bytes_len(v / 256, (n - 1) as nat);
    }
}

/// Encoding `v` on `n` bytes and decoding gives back `v` modulo `256^n`.
pub proof fn lemma_be_bytes_roundtrip(v: nat, n: nat)
    ensures
        be_uint(be_bytes(v, n)) == v % pow256(n),
    decreases n,
{
    lemma_be_bytes_len(v, n);
    if n > 0 {
        lemma_be_bytes_roundtrip(v / 256, (n - 1) as nat);
        let p = pow256((n - 1) as nat);
        lemma_pow256_pos((n - 1) as nat);
        assert(be_bytes(v, n).drop_last() =~= be_bytes(v / 256, (n - 1) as nat));
        // (v / 256) % p * 256 + v % 256 == v % (256 * p)
        assert(((v / 256) % p) * 256 + v % 256 == v % (256 * p)) by (nonlinear_arith)
            requires
                p >= 1,
        {
            let q = v / 256;
            let r = v % 256;
            assert(v == q * 256 + r);
            let q2 = q / p;
            let r2 = q % p;
            assert(q == q2 * p + r2);
            assert(v == q2 * (256 * p) + (r2 * 256 + r));
            assert(0 <= r2 * 256 + r < 256 * p);
        }
    }
}

/// `uint_len` gives a width that holds `v`.
pub proof fn lemma_uint_len(v: nat)
    ensures
        uint_len(v) >= 1,
        v < pow256(uint_len(v)),
    decreases v,
{
    if v >= 256 {
        lemma_uint_len(v / 256);
        let p = pow256(uint_len(v / 256));
        assert(v < 256 * p) by (nonlinear_arith)
            requires
                v / 256 < p,
        {
        }
        assert(uint_len(v) == 1 + uint_len(v / 256));
        assert(pow256(uint_len(v)) == 256 * p);
    } else {
        reveal_with_fuel(pow256, 2);
    }
}

/// A value below `256^k` needs at most `k` bytes.
pub proof fn lemma_uint_len_le(v: nat, k: nat)
    requires
        k >= 1,
        v < pow256(k),
    ensures
        uint_len(v) <= k,
    decreases v,
{
    if v >= 256 {
        if k == 1 {
            assert(pow256(1) == 256) by {
                reveal_with_fuel(pow256, 2);
            }
        } else {
            let p = pow256((k - 1) as nat);
            assert(v / 256 < p) by (nonlinear_arith)
                requires
                    v < 256 * p,
            {
            }
            lemma_uint_len_le(v / 256, (k - 1) as nat);
        }
    }
}

pub proof fn lemma_pow256_8()
    ensures
        pow256(8) == 0x1_0000_0000_0000_0000,
        pow256(4) == 0x1_0000_0000,
        pow256(3) == 0x100_0000,
        pow256(2) == 0x1_0000,
        pow256(1) == 0x100,
{
    reveal_with_fuel(pow256, 9);
}

/// Shortest big-endian form of `v`.
pub fn uint_len_exec(v: u64) -> (r: usize)
    ensures
        r == uint_len(v as nat),
        r <= 8,
{
    let mut n: usize = 1;
    let mut x: u64 = v;
    proof {
        lemma_pow256_8();
        lemma_uint_len_le(v as nat, 8);
    }
    while x >= 256
        invariant
            n + uint_len(x as nat) - 1 == uint_len(v as nat),
            1 <= n,
            n + uint_len(x as nat) <= 9,
        decreases x,
    {
        x = x / 256;
        n = n + 1;
    }
    n
}

/// The `n` low-order bytes of `v`, most significant first.
pub fn be_bytes_exec(v: u64, n: usize) -> (r: Vec<u8>)
    ensures
        r@ == be_bytes(v as nat, n as nat),
    decreases n,
{
    if n == 0 {
        Vec::new()
    } else {
        let mut r = be_bytes_exec(v / 256, n - 1);
        r.push((v % 256) as u8);
        r
    }
}

/// Content octets of an element with the given class, form and tag at the start of `s`: start and end of the contents.
pub open spec fn spec_tlv(s: Seq<u8>, class: BerClass, constructed: bool, tag: u8) -> Result<
    (usize, usize),
    SnmpError,
> {
    match spec_parse_header(s) {
        Err(e) => Err(e),
        Ok((h, hl)) => if h.class != class || h.constructed != constructed || h.tag != tag {
            Err(SnmpError::UnexpectedTag)
        } else {
            Ok((hl, (hl + h.length) as usize))
        },
    }
}

/// Locate the contents of an element with the given class, form and tag.
pub fn expect_tlv(s: &[u8], class: BerClass, constructed: bool, tag: u8) -> (r: Result<
    (usize, usize),
    SnmpError,
>)
    ensures
        r == spec_tlv(s@, class, constructed, tag),
        r matches Ok((a, b)) ==> 2 <= a <= b <= s@.len(),
{
    let hr = parse_header(s);
    match hr {
        Err(e) => Err(e),
        Ok((h, hl)) => {
            let total = s.len();
            assert(hl + h.length <= total);
            if h.class != class || h.constructed != constructed || h.tag != tag {
                return Err(SnmpError::UnexpectedTag);
            }
            Ok((hl, hl + h.length))
        },
    }
}

/// Contents found by `spec_tlv` lie within the input, after a header
/// of at least two bytes.
pub proof fn lemma_tlv_bounds(s: Seq<u8>, class: BerClass, constructed: bool, tag: u8)
    requires
        s.len() <= usize::MAX,
    ensures
        spec_tlv(s, class, constructed, tag) matches Ok((a, b)) ==> 2 <= a <= b <= s.len(),
{
    reveal(spec_parse_header);
}

/// Decoding of an OCTET STRING element at the start of `s`: its
/// contents and the bytes it takes.
pub open spec fn spec_parse_octets(s: Seq<u8>) -> Result<(Seq<u8>, usize), SnmpError> {
    match spec_tlv(s, BerClass::Universal, false, TAG_OCTET_STRING) {
        Err(e) => Err(e),
        Ok((a, b)) => Ok((s.subrange(a as int, b as int), b)),
    }
}

/// Decode an OCTET STRING element at the start of `s`.
pub fn parse_octets<'a>(s: &'a [u8]) -> (r: Result<(&'a [u8], usize), SnmpError>)
    ensures
        match r {
            Ok((v, n)) => spec_parse_octets(s@) == Ok::<(Seq<u8>, usize), SnmpError>((v@, n)) && 2
                <= n <= s@.len(),
            Err(e) => spec_parse_octets(s@) == Err::<(Seq<u8>, usize), SnmpError>(e),
        },
{
    let (a, b) = expect_tlv(s, BerClass::Universal, false, TAG_OCTET_STRING)?;
    Ok((slice_sub(s, a, b), b))
}

/// Decoding an OCTET STRING element gives its contents and its length
/// back, whatever follows it.
pub proof fn lemma_octets_roundtrip(x: Seq<u8>, rest: Seq<u8>)
    requires
        x.len() < 0x1_0000_0000,
        encode_tlv(TAG_OCTET_STRING, x).len() + rest.len() <= usize::MAX,
    ensures
        spec_parse_octets(encode_tlv(TAG_OCTET_STRING, x) + rest) == Ok::<
            (Seq<u8>, usize),
            SnmpError,
        >((x, encode_tlv(TAG_OCTET_STRING, x).len() as usize)),
        (encode_tlv(TAG_OCTET_STRING, x) + rest).skip(encode_tlv(TAG_OCTET_STRING, x).len() as int)
            == rest,
{
    lemma_tlv_roundtrip(TAG_OCTET_STRING, x, rest);
}

/// Decoding of a NULL element at the start of `s`: the bytes it takes.
pub open spec fn spec_parse_null(s: Seq<u8>) -> Result<usize, SnmpError> {
    match spec_tlv(s, BerClass::Universal, false, TAG_NULL) {
        Err(e) => Err(e),
        Ok((a, b)) => if a != b {
            Err(SnmpError::InvalidData)
        } else {
            Ok(b)
        },
    }
}

/// Decode a NULL element at the start of `s`.
pub fn parse_null(s: &[u8]) -> (r: Result<usize, SnmpError>)
    ensures
        r == spec_parse_null(s@),
{
    let (a, b) = expect_tlv(s, BerClass::Universal, false, TAG_NULL)?;
    if a != b {
        return Err(SnmpError::InvalidData);
    }
    Ok(b)
}

/// Bytes of `s` from position `a` to its end.
pub fn slice_from(s: &[u8], a: usize) -> (r: &[u8])
    requires
        a <= s@.len(),
    ensures
        r@ == s@.skip(a as int),
{
    let n = s.len();
    let r = slice_subrange(s, a, n);
    assert(r@ =~= s@.skip(a as int));
    r
}

/// Bytes of the BER length field for `len`.
pub fn length_bytes(len: usize) -> (r: Vec<u8>)
    ensures
        r@ == encode_len(len as nat),
        r@.len() <= 9,
{
    if len < 128 {
        let mut r = Vec::new();
        r.push(len as u8);
        assert(r@ =~= seq![len as u8]);
        r
    } else {
        let n = uint_len_exec(len as u64);
        let body = be_bytes_exec(len as u64, n);
        let mut r = Vec::new();
        r.push((128 + n) as u8);
        let mut i: usize = 0;
        proof {
            lemma_be_bytes_len(len as nat, n as nat);
        }
        while i < body.len()
            invariant
                r@ == seq![(128 + n) as u8] + body@.subrange(0, i as int),
                i <= body@.len(),
            decreases body@.len() - i,
        {
            r.push(body[i]);
            i = i + 1;
            assert(r@ =~= seq![(128 + n) as u8] + body@.subrange(0, i as int));
        }
        assert(r@ =~= encode_len(len as nat));
        r
    }
}

/// Decode the identifier and length octets at the start of `s`.
pub fn parse_header(s: &[u8]) -> (r: Result<(BerHeader, usize), SnmpError>)
    ensures
        r == spec_parse_header(s@),
        r matches Ok((h, hl)) ==> 2 <= hl && hl + h.length <= s@.len(),
{
    reveal(spec_parse_header);
    if s.len() < 2 {
        return Err(SnmpError::Incomplete);
    }
    let b0 = s[0];
    if b0 % 32 == 31 {
        return Err(SnmpError::UnsupportedTag);
    }
    let b = s[1];
    if b == 128 || b > 132 {
        return Err(SnmpError::InvalidData);
    }
    let k: usize = if b < 128 {
        0
    } else {
        (b - 128) as usize
    };
    if s.len() < 2 + k {
        return Err(SnmpError::Incomplete);
    }
    let mut len: u64 = 0;
    if b < 128 {
        len = b as u64;
    } else {
        let mut i: usize = 0;
        while i < k
            invariant
                k <= 4,
                2 + k <= s@.len(),
                i <= k,
                len == be_uint(s@.subrange(2, 2 + i)),
            decreases k - i,
        {
            proof {
                lemma_be_uint_step(s@.subrange(2, 2 + k), i as int);
                assert(s@.subrange(2, 2 + k).subrange(0, i + 1) =~= s@.subrange(2, 2 + i + 1));
                assert(s@.subrange(2, 2 + k).subrange(0, i as int) =~= s@.subrange(2, 2 + i));
                lemma_be_uint_bound(s@.subrange(2, 2 + i));
                reveal_with_fuel(pow256, 5);
                assert(pow256(i as nat) <= pow256(3)) by {
                    reveal_with_fuel(pow256, 5);
                }
            }
            len = len * 256 + s[2 + i] as u64;
            i = i + 1;
        }
    }
    let hl = 2 + k;
    if ((s.len() - hl) as u64) < len {
        return Err(SnmpError::Incomplete);
    }
    let class = if b0 / 64 == 0 {
        BerClass::Universal
    } else if b0 / 64 == 1 {
        BerClass::Application
    } else if b0 / 64 == 2 {
        BerClass::Context
    } else {
        BerClass::Private
    };
    Ok((BerHeader { class, constructed: (b0 / 32) % 2 == 1, tag: b0 % 32, length: len as usize }, hl))
}

/// The bytes of `s` from `a` to `b`.
pub fn slice_sub(s: &[u8], a: usize, b: usize) -> (r: &[u8])
    requires
        a <= b <= s@.len(),
    ensures
        r@ == s@.subrange(a as int, b as int),
{
    slice_subrange(s, a, b)
}

} // verus!
