//! The protocol version a peer speaks.

use vstd::prelude::*;

verus! {

/// A protocol version as it appears on the wire: one byte each for the
/// major and the minor number. No range is imposed on either.
#[derive(Clone, Copy, Debug, PartialEq, Eq, Structural)]
pub struct ProtocolVersion {
    pub major: u8,
    pub minor: u8,
}

} // verus!
