//! BER INTEGER: two's complement, big-endian contents.

use crate::ber::{
    be_bytes, be_bytes_exec, be_uint, lemma_be_bytes_len, lemma_be_bytes_roundtrip, lemma_be_uint_bound,
    lemma_be_uint_step, lemma_be_uint_top_bit, lemma_pow256_8, lemma_pow256_pos, pow256, BerClass, TAG_INT,
};
use crate::buf::{Buffer, BUFFER_SIZE};
use crate::ber::{expect_tlv, slice_sub, spec_parse_header, spec_tlv};
use crate::error::SnmpError;
use vstd::prelude::*;

verus! {

/// Signed value of two's complement big-endian contents.
pub open spec fn int_value(c: Seq<u8>) -> int {
    if c.len() > 0 && c[0] >= 128 {
        be_uint(c) - pow256(c.len())
    } else {
        be_uint(c) as int
    }
}

/// Decoding of INTEGER contents into a 64-bit value.
pub open spec fn spec_decode_int(c: Seq<u8>) -> Result<i64, SnmpError> {
    if c.len() == 0 || c.len() > 8 {
        Err(SnmpError::InvalidData)
    } else {
        Ok(int_value(c) as i64)
    }
}

/// Decoding of an INTEGER element at the start of `s`: its value and
/// the number of bytes it takes.
pub open spec fn spec_parse_int(s: Seq<u8>) -> Result<(i64, usize), SnmpError> {
    match spec_tlv(s, BerClass::Universal, false, TAG_INT) {
        Err(e) => Err(e),
        Ok((a, b)) => match spec_decode_int(s.subrange(a as int, b as int)) {
            Err(e) => Err(e),
            Ok(v) => Ok((v, b)),
        },
    }
}

/// Whether `v` is representable in `n` bytes of two's complement.
pub open spec fn fits_signed(v: int, n: nat) -> bool {
    -(pow256(n) / 2) <= v && v < pow256(n) / 2
}

pub open spec fn int_len_from(v: int, n: nat) -> nat
    decreases 8 - n,
{
    if n >= 8 || fits_signed(v, n) {
        n
    } else {
        int_len_from(v, n + 1)
    }
}

/// Number of contents bytes of the shortest encoding of `v`.
pub open spec fn int_len(v: int) -> nat {
    int_len_from(v, 1)
}

/// Two's complement of `v` on `n` bytes, as an unsigned number.
pub open spec fn twos(v: int, n: nat) -> nat {
    if v < 0 {
        (v + pow256(n)) as nat
    } else {
        v as nat
    }
}

/// Shortest contents of an INTEGER holding `v`.
pub open spec fn encode_int_content(v: int) -> Seq<u8> {
    be_bytes(twos(v, int_len(v)), int_len(v))
}

/// Complete INTEGER element holding `v`.
pub open spec fn encode_int(v: i64) -> Seq<u8> {
    seq![TAG_INT, int_len(v as int) as u8] + encode_int_content(v as int)
}

proof fn lemma_int_len_from(v: int, n: nat)
    requires
        1 <= n <= 8,
        fits_signed(v, 8),
    ensures
        n <= int_len_from(v, n) <= 8,
        fits_signed(v, int_len_from(v, n)),
        forall|m: nat| n <= m < int_len_from(v, n) ==> !fits_signed(v, m),
    decreases 8 - n,
{
    if n < 8 && !fits_signed(v, n) {
        lemma_int_len_from(v, n + 1);
    }
}

/// The shortest width of a 64-bit value lies between one and eight bytes.
pub proof fn lemma_int_len(v: i64)
    ensures
        1 <= int_len(v as int) <= 8,
        fits_signed(v as int, int_len(v as int)),
{
    lemma_pow256_8();
    lemma_int_len_from(v as int, 1);
}

/// Decoding the encoding of any 64-bit integer gives it back, whatever
/// follows it.
pub proof fn lemma_int_roundtrip(v: i64, rest: Seq<u8>)
    ensures
        spec_parse_int(encode_int(v) + rest) == Ok::<(i64, usize), SnmpError>(
            (v, encode_int(v).len() as usize),
        ),
        encode_int(v).len() == 2 + int_len(v as int),
{
    reveal(spec_parse_header);
    lemma_int_len(v);
    let n = int_len(v as int);
    let u = twos(v as int, n);
    let c = encode_int_content(v as int);
    let s = encode_int(v) + rest;
    lemma_pow256_pos(n);
    lemma_be_bytes_len(u, n);
    lemma_be_bytes_roundtrip(u, n);
    assert(u < pow256(n));
    assert(u % pow256(n) == u) by {
        vstd::arithmetic::div_mod::lemma_small_mod(u, pow256(n));
    }
    assert(be_uint(c) == u);
    assert(s[0] == TAG_INT);
    assert(s[1] == n as u8);
    assert(s.subrange(2, 2 + n as int) =~= c);
    lemma_be_uint_top_bit(c);
    assert(c[0] >= 128 <==> v < 0);
    assert(int_value(c) == v);
}

/// Decode a 64-bit INTEGER element at the start of `s`.
pub fn parse_int(s: &[u8]) -> (r: Result<(i64, usize), SnmpError>)
    ensures
        r == spec_parse_int(s@),
        r matches Ok((_, n)) ==> 2 <= n <= s@.len(),
{
    let (a, b) = expect_tlv(s, BerClass::Universal, false, TAG_INT)?;
    let v = decode_int(slice_sub(s, a, b))?;
    Ok((v, b))
}

/// Decode INTEGER contents into a 64-bit value.
pub fn decode_int(c: &[u8]) -> (r: Result<i64, SnmpError>)
    ensures
        match r {
            Ok(v) => spec_decode_int(c@) == Ok::<i64, SnmpError>(v),
            Err(e) => spec_decode_int(c@) == Err::<i64, SnmpError>(e),
        },
{
    let n = c.len();
    if n == 0 || n > 8 {
        return Err(SnmpError::InvalidData);
    }
    let mut acc: i128 = 0;
    let mut p: i128 = 1;
    let mut i: usize = 0;
    proof {
        lemma_pow256_8();
    }
    while i < n
        invariant
            n == c@.len(),
            1 <= n <= 8,
            i <= n,
            acc == be_uint(c@.subrange(0, i as int)),
            p == pow256(i as nat),
            pow256(8) == 0x1_0000_0000_0000_0000,
        decreases n - i,
    {
        proof {
            lemma_be_uint_step(c@, i as int);
            lemma_be_uint_bound(c@.subrange(0, i as int));
            lemma_pow256_mono(i as nat, 8);
        }
        acc = acc * 256 + c[i] as i128;
        p = p * 256;
        i = i + 1;
    }
    proof {
        assert(c@.subrange(0, n as int) =~= c@);
        lemma_be_uint_top_bit(c@);
        lemma_be_uint_bound(c@);
        lemma_pow256_mono((n - 1) as nat, 7);
    }
    let v: i128 = if c[0] >= 128 {
        acc - p
    } else {
        acc
    };
    Ok(v as i64)
}

/// Two's complement contents of one to eight bytes hold a 64-bit value.
pub proof fn lemma_int_value_range(c: Seq<u8>)
    requires
        1 <= c.len() <= 8,
    ensures
        i64::MIN <= int_value(c) <= i64::MAX,
{
    lemma_be_uint_bound(c);
    lemma_be_uint_top_bit(c);
    lemma_pow256_8();
    lemma_pow256_mono((c.len() - 1) as nat, 7);
    let p = pow256((c.len() - 1) as nat);
    assert(pow256(7) == 0x100_0000_0000_0000) by {
        reveal_with_fuel(pow256, 8);
    }
    assert(128 * p <= 0x8000_0000_0000_0000) by (nonlinear_arith)
        requires
            p <= 0x100_0000_0000_0000,
    ;
}

pub proof fn lemma_pow256_mono(i: nat, j: nat)
    requires
        i <= j,
    ensures
        pow256(i) <= pow256(j),
    decreases j,
{
    if i < j {
        lemma_pow256_mono(i, (j - 1) as nat);
        lemma_pow256_pos((j - 1) as nat);
    }
}

/// Shortest width of `v` in two's complement bytes, with `pow256(n) / 2`.
fn int_width(v: i64) -> (r: (usize, i128))
    ensures
        r.0 == int_len(v as int),
        r.1 == pow256(r.0 as nat) / 2,
        1 <= r.0 <= 8,
{
    proof {
        lemma_int_len(v);
        lemma_pow256_8();
        lemma_int_len_from(v as int, 1);
    }
    let mut n: usize = 1;
    let mut half: i128 = 128;
    assert(pow256(1) == 256) by {
        reveal_with_fuel(pow256, 2);
    }
    while n < 8 && !(-half <= v as i128 && (v as i128) < half)
        invariant
            1 <= n <= 8,
            half == pow256(n as nat) / 2,
            int_len_from(v as int, 1) == int_len_from(v as int, n as nat),
            pow256(8) == 0x1_0000_0000_0000_0000,
        decreases 8 - n,
    {
        proof {
            lemma_pow256_mono((n + 1) as nat, 8);
        }
        n = n + 1;
        half = half * 256;
    }
    (n, half)
}

/// Prepend the INTEGER element holding `v`.
pub fn push_int(buf: &mut Buffer, v: i64) -> (r: Result<(), SnmpError>)
    requires
        old(buf).wf(),
    ensures
        final(buf).wf(),
        r is Ok <==> old(buf)@.len() + encode_int(v).len() <= BUFFER_SIZE,
        r is Ok ==> final(buf)@ == encode_int(v) + old(buf)@,
        r is Err ==> r == Err::<(), SnmpError>(SnmpError::OutOfBuffer) && final(buf)@ == old(
            buf,
        )@,
        final(buf).mark() == old(buf).mark(),
{
    let (n, half) = int_width(v);
    proof {
        lemma_int_len(v);
        lemma_pow256_8();
        lemma_pow256_mono(n as nat, 8);
    }
    let u: i128 = if v < 0 {
        v as i128 + 2 * half
    } else {
        v as i128
    };
    let content = be_bytes_exec(u as u64, n);
    let mut bytes: Vec<u8> = Vec::new();
    bytes.push(TAG_INT);
    bytes.push(n as u8);
    let mut i: usize = 0;
    proof {
        lemma_be_bytes_len(u as nat, n as nat);
    }
    while i < content.len()
        invariant
            bytes@ == seq![TAG_INT, n as u8] + content@.subrange(0, i as int),
            i <= content@.len(),
        decreases content@.len() - i,
    {
        bytes.push(content[i]);
        i = i + 1;
        assert(bytes@ =~= seq![TAG_INT, n as u8] + content@.subrange(0, i as int));
    }
    assert(bytes@ =~= encode_int(v));
    buf.push(bytes.as_slice())
}

} // verus!
