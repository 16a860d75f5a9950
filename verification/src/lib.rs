//! SNMP protocol core: BER encoding and decoding of SNMP v1/v2c/v3
//! messages, PDUs and values, together with the request bookkeeping
//! that an SNMP client needs.

pub mod ber;
pub mod buf;
pub mod error;
pub mod integer;
pub mod iter;
pub mod oid;
pub mod reqid;
pub mod value;
pub mod snmp;
pub mod session;
pub mod sockopt;
