//! Values of variable bindings.

use crate::ber::{
    be_uint, decode_unsigned, parse_header, slice_sub, spec_decode_unsigned, spec_parse_header, BerClass,
    BerHeader, TAG_APP_COUNTER32, TAG_APP_COUNTER64, TAG_APP_GAUGE32, TAG_APP_IPADDRESS,
    TAG_APP_OPAQUE, TAG_APP_TIMETICKS, TAG_APP_UINTEGER32, TAG_BOOL, TAG_CTX_END_OF_MIB_VIEW,
    TAG_CTX_NO_SUCH_INSTANCE, TAG_CTX_NO_SUCH_OBJECT, TAG_INT, TAG_NULL, TAG_OBJECT_ID,
    TAG_OCTET_STRING,
};
use crate::error::SnmpError;
use crate::integer::{decode_int, int_value, lemma_int_value_range, spec_decode_int};
use crate::oid::{decode_oid, spec_decode_oid, SnmpOid};
use vstd::prelude::*;

verus! {

/// Value of a variable binding.
#[derive(Debug)]
pub enum SnmpValue<'a> {
    Bool(bool),
    Int(i64),
    Null,
    OctetString(&'a [u8]),
    Oid(SnmpOid),
    IpAddress(u8, u8, u8, u8),
    Counter32(u32),
    Gauge32(u32),
    TimeTicks(u32),
    Opaque(&'a [u8]),
    Counter64(u64),
    UInteger32(u32),
    NoSuchObject,
    NoSuchInstance,
    EndOfMibView,
}

/// Mathematical model of a value.
pub enum SpecValue {
    Bool(bool),
    Int(i64),
    Null,
    OctetString(Seq<u8>),
    Oid(Seq<u32>),
    IpAddress(u8, u8, u8, u8),
    Counter32(u32),
    Gauge32(u32),
    TimeTicks(u32),
    Opaque(Seq<u8>),
    Counter64(u64),
    UInteger32(u32),
    NoSuchObject,
    NoSuchInstance,
    EndOfMibView,
}

impl<'a> View for SnmpValue<'a> {
    type V = SpecValue;

    open spec fn view(&self) -> SpecValue {
        match self {
            SnmpValue::Bool(b) => SpecValue::Bool(*b),
            SnmpValue::Int(v) => SpecValue::Int(*v),
            SnmpValue::Null => SpecValue::Null,
            SnmpValue::OctetString(s) => SpecValue::OctetString(s@),
            SnmpValue::Oid(o) => SpecValue::Oid(o@),
            SnmpValue::IpAddress(a, b, c, d) => SpecValue::IpAddress(*a, *b, *c, *d),
            SnmpValue::Counter32(v) => SpecValue::Counter32(*v),
            SnmpValue::Gauge32(v) => SpecValue::Gauge32(*v),
            SnmpValue::TimeTicks(v) => SpecValue::TimeTicks(*v),
            SnmpValue::Opaque(s) => SpecValue::Opaque(s@),
            SnmpValue::Counter64(v) => SpecValue::Counter64(*v),
            SnmpValue::UInteger32(v) => SpecValue::UInteger32(*v),
            SnmpValue::NoSuchObject => SpecValue::NoSuchObject,
            SnmpValue::NoSuchInstance => SpecValue::NoSuchInstance,
            SnmpValue::EndOfMibView => SpecValue::EndOfMibView,
        }
    }
}

/// Unsigned 32-bit contents.
pub open spec fn spec_decode_u32(c: Seq<u8>) -> Result<u32, SnmpError> {
    match spec_decode_unsigned(c, u32::MAX as nat) {
        Ok(v) => Ok(v as u32),
        Err(e) => Err(e),
    }
}

/// Decoding of the contents `c` of an element with header `h`.
pub open spec fn spec_decode_value(h: BerHeader, c: Seq<u8>) -> Result<SpecValue, SnmpError> {
    if h.constructed {
        Err(SnmpError::UnsupportedTag)
    } else {
        match h.class {
            BerClass::Universal => if h.tag == TAG_BOOL {
                if c.len() != 1 {
                    Err(SnmpError::InvalidData)
                } else {
                    Ok(SpecValue::Bool(c[0] != 0))
                }
            } else if h.tag == TAG_INT {
                match spec_decode_int(c) {
                    Ok(v) => Ok(SpecValue::Int(v)),
                    Err(e) => Err(e),
                }
            } else if h.tag == TAG_OCTET_STRING {
                Ok(SpecValue::OctetString(c))
            } else if h.tag == TAG_NULL {
                if c.len() != 0 {
                    Err(SnmpError::InvalidData)
                } else {
                    Ok(SpecValue::Null)
                }
            } else if h.tag == TAG_OBJECT_ID {
                match spec_decode_oid(c) {
                    Ok(o) => Ok(SpecValue::Oid(o)),
                    Err(e) => Err(e),
                }
            } else {
                Err(SnmpError::UnsupportedTag)
            },
            BerClass::Application => if h.tag == TAG_APP_IPADDRESS {
                if c.len() != 4 {
                    Err(SnmpError::InvalidData)
                } else {
                    Ok(SpecValue::IpAddress(c[0], c[1], c[2], c[3]))
                }
            } else if h.tag == TAG_APP_COUNTER32 {
                match spec_decode_u32(c) {
                    Ok(v) => Ok(SpecValue::Counter32(v)),
                    Err(e) => Err(e),
                }
            } else if h.tag == TAG_APP_GAUGE32 {
                match spec_decode_u32(c) {
                    Ok(v) => Ok(SpecValue::Gauge32(v)),
                    Err(e) => Err(e),
                }
            } else if h.tag == TAG_APP_TIMETICKS {
                match spec_decode_u32(c) {
                    Ok(v) => Ok(SpecValue::TimeTicks(v)),
                    Err(e) => Err(e),
                }
            } else if h.tag == TAG_APP_OPAQUE {
                Ok(SpecValue::Opaque(c))
            } else if h.tag == TAG_APP_COUNTER64 {
                match spec_decode_unsigned(c, u64::MAX as nat) {
                    Ok(v) => Ok(SpecValue::Counter64(v as u64)),
                    Err(e) => Err(e),
                }
            } else if h.tag == TAG_APP_UINTEGER32 {
                match spec_decode_u32(c) {
                    Ok(v) => Ok(SpecValue::UInteger32(v)),
                    Err(e) => Err(e),
                }
            } else {
                Err(SnmpError::UnsupportedTag)
            },
            BerClass::Context => if h.tag == TAG_CTX_NO_SUCH_OBJECT {
                Ok(SpecValue::NoSuchObject)
            } else if h.tag == TAG_CTX_NO_SUCH_INSTANCE {
                Ok(SpecValue::NoSuchInstance)
            } else if h.tag == TAG_CTX_END_OF_MIB_VIEW {
                Ok(SpecValue::EndOfMibView)
            } else {
                Err(SnmpError::UnsupportedTag)
            },
            BerClass::Private => Err(SnmpError::UnsupportedTag),
        }
    }
}

/// Decoding of a value element at the start of `s`: the value and the
/// number of bytes it takes.
pub open spec fn spec_parse_value(s: Seq<u8>) -> Result<(SpecValue, usize), SnmpError> {
    match spec_parse_header(s) {
        Err(e) => Err(e),
        Ok((h, hl)) => match spec_decode_value(
            h,
            s.subrange(hl as int, hl + h.length),
        ) {
            Ok(v) => Ok((v, (hl + h.length) as usize)),
            Err(e) => Err(e),
        },
    }
}

/// The kind of a decoded value is given by the identifier byte of its
/// element: 0x01 BOOLEAN, 0x02 INTEGER, 0x04 OCTET STRING, 0x05 NULL,
/// 0x06 OBJECT IDENTIFIER, 0x40 IpAddress, 0x41 Counter32, 0x42 Gauge32,
/// 0x43 TimeTicks, 0x44 Opaque, 0x46 Counter64, 0x47 UInteger32, 0x80
/// noSuchObject, 0x81 noSuchInstance and 0x82 endOfMibView.
pub proof fn lemma_value_tags(s: Seq<u8>)
    ensures
        spec_parse_value(s) matches Ok((v, _)) ==> {
            &&& s.len() > 0
            &&& (v is Bool <==> s[0] == 0x01)
            &&& (v is Int <==> s[0] == 0x02)
            &&& (v is OctetString <==> s[0] == 0x04)
            &&& (v is Null <==> s[0] == 0x05)
            &&& (v is Oid <==> s[0] == 0x06)
            &&& (v is IpAddress <==> s[0] == 0x40)
            &&& (v is Counter32 <==> s[0] == 0x41)
            &&& (v is Gauge32 <==> s[0] == 0x42)
            &&& (v is TimeTicks <==> s[0] == 0x43)
            &&& (v is Opaque <==> s[0] == 0x44)
            &&& (v is Counter64 <==> s[0] == 0x46)
            &&& (v is UInteger32 <==> s[0] == 0x47)
            &&& (v is NoSuchObject <==> s[0] == 0x80)
            &&& (v is NoSuchInstance <==> s[0] == 0x81)
            &&& (v is EndOfMibView <==> s[0] == 0x82)
        },
{
    reveal(spec_parse_header);
    if spec_parse_value(s) is Ok {
        let b = s[0];
        assert(b / 64 == 0 && (b / 32) % 2 == 0 ==> b % 32 == b);
        assert(b / 64 == 1 && (b / 32) % 2 == 0 ==> b % 32 == b - 64);
        assert(b / 64 == 2 && (b / 32) % 2 == 0 ==> b % 32 == b - 128);
    }
}

/// The value decoded from an element, in terms of its contents `c`:
/// unsigned kinds are `c` read as a big-endian number, INTEGER is `c`
/// read in two's complement, strings are `c` itself, an IpAddress has the
/// four bytes of `c` and a BOOLEAN is true when its byte is not zero.
pub proof fn lemma_value_contents(s: Seq<u8>)
    ensures
        spec_parse_value(s) matches Ok((v, _)) ==> ({
            let (h, hl) = spec_parse_header(s)->Ok_0;
            let c = s.subrange(hl as int, hl + h.length);
            &&& (v matches SpecValue::Counter32(x) ==> x == be_uint(c))
            &&& (v matches SpecValue::Gauge32(x) ==> x == be_uint(c))
            &&& (v matches SpecValue::TimeTicks(x) ==> x == be_uint(c))
            &&& (v matches SpecValue::UInteger32(x) ==> x == be_uint(c))
            &&& (v matches SpecValue::Counter64(x) ==> x == be_uint(c))
            &&& (v matches SpecValue::Int(x) ==> 1 <= c.len() <= 8 && x == int_value(c))
            &&& (v matches SpecValue::OctetString(x) ==> x == c)
            &&& (v matches SpecValue::Opaque(x) ==> x == c)
            &&& (v matches SpecValue::IpAddress(a, b, d, e) ==> c == seq![a, b, d, e])
            &&& (v matches SpecValue::Bool(x) ==> c.len() == 1 && (x <==> c[0] != 0))
        }),
{
    if let Ok((v, _)) = spec_parse_value(s) {
        let (h, hl) = spec_parse_header(s)->Ok_0;
        let c = s.subrange(hl as int, hl + h.length);
        if let SpecValue::IpAddress(a, b, d, e) = v {
            assert(c =~= seq![a, b, d, e]);
        }
        if let SpecValue::Int(x) = v {
            lemma_int_value_range(c);
        }
    }
}

fn decode_u32(c: &[u8]) -> (r: Result<u32, SnmpError>)
    ensures
        match r {
            Ok(v) => spec_decode_u32(c@) == Ok::<u32, SnmpError>(v),
            Err(e) => spec_decode_u32(c@) == Err::<u32, SnmpError>(e),
        },
{
    let v = decode_unsigned(c, 0xffff_ffff)?;
    Ok(v as u32)
}

impl<'a> SnmpValue<'a> {
    /// Decode the value element at the start of `s`; gives the value and
    /// the number of bytes it takes.
    pub fn from_ber(s: &'a [u8]) -> (r: Result<(SnmpValue<'a>, usize), SnmpError>)
        ensures
            match r {
                Ok((v, n)) => spec_parse_value(s@) == Ok::<(SpecValue, usize), SnmpError>(
                    (v@, n),
                ),
                Err(e) => spec_parse_value(s@) == Err::<(SpecValue, usize), SnmpError>(e),
            },
    {
        let (h, hl) = parse_header(s)?;
        let total = s.len();
        assert(hl + h.length <= total);
        let end = hl + h.length;
        let c = slice_sub(s, hl, end);
        if h.constructed {
            return Err(SnmpError::UnsupportedTag);
        }
        let value = match h.class {
            BerClass::Universal => {
                if h.tag == TAG_BOOL {
                    if c.len() != 1 {
                        return Err(SnmpError::InvalidData);
                    }
                    SnmpValue::Bool(c[0] != 0)
                } else if h.tag == TAG_INT {
                    SnmpValue::Int(decode_int(c)?)
                } else if h.tag == TAG_OCTET_STRING {
                    SnmpValue::OctetString(c)
                } else if h.tag == TAG_NULL {
                    if c.len() != 0 {
                        return Err(SnmpError::InvalidData);
                    }
                    SnmpValue::Null
                } else if h.tag == TAG_OBJECT_ID {
                    SnmpValue::Oid(decode_oid(c)?)
                } else {
                    return Err(SnmpError::UnsupportedTag);
                }
            },
            BerClass::Application => {
                if h.tag == TAG_APP_IPADDRESS {
                    if c.len() != 4 {
                        return Err(SnmpError::InvalidData);
                    }
                    SnmpValue::IpAddress(c[0], c[1], c[2], c[3])
                } else if h.tag == TAG_APP_COUNTER32 {
                    SnmpValue::Counter32(decode_u32(c)?)
                } else if h.tag == TAG_APP_GAUGE32 {
                    SnmpValue::Gauge32(decode_u32(c)?)
                } else if h.tag == TAG_APP_TIMETICKS {
                    SnmpValue::TimeTicks(decode_u32(c)?)
                } else if h.tag == TAG_APP_OPAQUE {
                    SnmpValue::Opaque(c)
                } else if h.tag == TAG_APP_COUNTER64 {
                    SnmpValue::Counter64(decode_unsigned(c, 0xffff_ffff_ffff_ffff)?)
                } else if h.tag == TAG_APP_UINTEGER32 {
                    SnmpValue::UInteger32(decode_u32(c)?)
                } else {
                    return Err(SnmpError::UnsupportedTag);
                }
            },
            BerClass::Context => {
                if h.tag == TAG_CTX_NO_SUCH_OBJECT {
                    SnmpValue::NoSuchObject
                } else if h.tag == TAG_CTX_NO_SUCH_INSTANCE {
                    SnmpValue::NoSuchInstance
                } else if h.tag == TAG_CTX_END_OF_MIB_VIEW {
                    SnmpValue::EndOfMibView
                } else {
                    return Err(SnmpError::UnsupportedTag);
                }
            },
            BerClass::Private => {
                return Err(SnmpError::UnsupportedTag);
            },
        };
        Ok((value, end))
    }
}

} // verus!
