//! SNMPv3 messages with the user-based security model.

pub mod data;
pub mod msg;
pub mod scoped;
pub mod usm;
