//! Default-gateway discovery: from a host's routing table and interface
//! addresses, or from its adapter records, find every pair of a local IPv4
//! address and the gateway that serves it.

pub mod addr;
pub mod command;
pub mod error;
pub mod linux;
pub mod text;
pub mod win;
