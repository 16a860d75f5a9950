//! SNMP PDUs and messages.

pub mod get;
pub mod getbulk;
pub mod getresponse;
pub mod pdu;
pub mod msg;
pub mod v3;
pub mod op;
