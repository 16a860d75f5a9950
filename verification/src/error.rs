use vstd::prelude::*;

verus! {

/// Errors raised while encoding, decoding or interpreting SNMP data.
#[derive(Debug, Clone, Copy, PartialEq, Eq, Structural)]
pub enum SnmpError {
    /// The input ends before the announced data.
    Incomplete,
    /// The data is malformed.
    InvalidData,
    /// A different BER tag was expected at this place.
    UnexpectedTag,
    /// Bytes follow the end of a complete message.
    TrailingData,
    /// The PDU does not have the expected shape.
    InvalidPdu,
    /// The message carries an unsupported SNMP version.
    InvalidVersion(u8),
    /// The PDU tag is not known.
    UnknownPdu,
    /// An SNMPv3 message uses a security model other than USM.
    UnknownSecurityModel,
    /// The value has a tag that is not supported.
    UnsupportedTag,
    /// The operation is not implemented for this PDU.
    NotImplemented,
    /// The encoding does not fit into the buffer.
    OutOfBuffer,
    /// The agent reports that the requested instance does not exist.
    NoSuchInstance,
    /// The agent answered with a report instead of a response.
    AuthenticationFailed,
}

} // verus!
