//! A minimal DNS client library: the wire codec for messages (names with
//! compression pointers, header, questions, resource records) and iterative
//! resolution of an address from the root servers down, as a state machine
//! that its caller feeds with the replies to the queries it asks for.
use vstd::prelude::*;

pub mod wire;
pub mod encoding;
pub mod header;
pub mod question;
pub mod record;
pub mod packet;
pub mod query;
pub mod resolve;

verus! {

/// Record type of an IPv4 address record.
pub const TYPE_A: u16 = 1;

/// Record type of a nameserver record.
pub const TYPE_NS: u16 = 2;

/// The Internet class.
pub const CLASS_IN: u16 = 1;

} // verus!
