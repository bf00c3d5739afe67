//! A stateless multicast DNS responder library: a DNS wire-format codec and
//! the query-to-response logic that advertises locally hosted services.
//!
//! The codec and the responder are pure; the datagram socket that feeds them
//! lives outside the library and hands it plain values.

pub mod codec;
pub mod laws;
pub mod net;
pub mod packet;
pub mod responder;
pub mod wire;
