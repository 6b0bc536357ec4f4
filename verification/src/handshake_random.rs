//! The random nonce of a hello message.

use crate::error::Error;
use vstd::prelude::*;

verus! {

/// Bytes a random nonce takes on the wire.
pub const HANDSHAKE_RANDOM_LENGTH: usize = 32;

/// The nonce: an opaque payload of fixed size, compared byte by byte.
#[derive(Clone, Copy, Debug)]
pub struct HandshakeRandom {
    pub bytes: [u8; 32],
}

impl View for HandshakeRandom {
    type V = Seq<u8>;

    open spec fn view(&self) -> Seq<u8> {
        self.bytes@
    }
}

/// The nonce at the front of `s`, or `Truncated` where `s` is too short.
pub open spec fn parse_random(s: Seq<u8>) -> Result<Seq<u8>, Error> {
    if s.len() < 32 {
        Err(Error::Truncated)
    } else {
        Ok(s.subrange(0, 32))
    }
}

impl HandshakeRandom {
    /// The nonce's bytes as they go on the wire.
    pub fn marshal(&self) -> (out: Vec<u8>)
        ensures
            out@ == self@,
            out@.len() == 32,
    {
        let mut out: Vec<u8> = Vec::with_capacity(HANDSHAKE_RANDOM_LENGTH);
        let mut i: usize = 0;
        while i < HANDSHAKE_RANDOM_LENGTH
            invariant
                i <= 32,
                out@ == self.bytes@.subrange(0, i as int),
            decreases 32 - i,
        {
            out.push(self.bytes[i]);
            i += 1;
            assert(out@ =~= self.bytes@.subrange(0, i as int));
        }
        assert(self.bytes@.subrange(0, 32) =~= self.bytes@);
        out
    }

    /// Reads the nonce from the front of `data`. Fails with `Truncated`
    /// exactly when fewer bytes than a nonce takes are there.
    pub fn unmarshal(data: &[u8]) -> (r: Result<HandshakeRandom, Error>)
        ensures
            match r {
                Ok(random) => parse_random(data@) == Ok::<Seq<u8>, Error>(random@),
                Err(e) => parse_random(data@) == Err::<Seq<u8>, Error>(e),
            },
    {
        if data.len() < HANDSHAKE_RANDOM_LENGTH {
            return Err(Error::Truncated);
        }
        let mut bytes: [u8; 32] = [0u8; 32];
        let mut i: usize = 0;
        while i < HANDSHAKE_RANDOM_LENGTH
            invariant
                i <= 32,
                data@.len() >= 32,
                forall|k: int| 0 <= k < i ==> bytes@[k] == data@[k],
            decreases 32 - i,
        {
            bytes[i] = data[i];
            i += 1;
        }
        assert(bytes@ =~= data@.subrange(0, 32));
        Ok(HandshakeRandom { bytes })
    }

}

impl PartialEq for HandshakeRandom {
    /// Whether two nonces hold the same bytes.
    fn eq(&self, other: &HandshakeRandom) -> (r: bool) {
        let mut i: usize = 0;
        while i < HANDSHAKE_RANDOM_LENGTH
            invariant
                i <= 32,
                forall|k: int| 0 <= k < i ==> self.bytes@[k] == other.bytes@[k],
            decreases 32 - i,
        {
            if self.bytes[i] != other.bytes[i] {
                assert(self@[i as int] != other@[i as int]);
                return false;
            }
            i += 1;
        }
        assert(self@ =~= other@);
        true
    }
}

impl vstd::std_specs::cmp::PartialEqSpecImpl for HandshakeRandom {
    open spec fn obeys_eq_spec() -> bool {
        true
    }

    open spec fn eq_spec(&self, other: &HandshakeRandom) -> bool {
        self@ == other@
    }
}

impl Eq for HandshakeRandom {

}

} // verus!
