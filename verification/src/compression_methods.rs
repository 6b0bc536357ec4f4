//! The compression methods a client offers.
//!
//! On the wire: one byte that counts the methods, then one byte per
//! method. The methods are carried as their identifiers and given no
//! further meaning here.

use crate::error::Error;
use crate::wire::{bytes_eq, get_bytes, get_u8, put_bytes};
use vstd::prelude::*;

verus! {

/// The identifier of the null method: no compression.
pub const COMPRESSION_METHOD_NULL: u8 = 0;

/// The most methods one list can hold: their number is declared in one
/// byte.
pub const MAX_COMPRESSION_METHODS: usize = 0xff;

/// An ordered list of compression method identifiers.
#[derive(Clone, Debug)]
pub struct CompressionMethods {
    pub ids: Vec<u8>,
}

impl View for CompressionMethods {
    type V = Seq<u8>;

    open spec fn view(&self) -> Seq<u8> {
        self.ids@
    }
}

/// Whether the number of methods fits its one-byte field.
pub open spec fn methods_fit(ids: Seq<u8>) -> bool {
    ids.len() <= 0xff
}

/// The wire form of a list: the number of methods, then the methods.
pub open spec fn methods_bytes(ids: Seq<u8>) -> Seq<u8> {
    seq![ids.len() as u8] + ids
}

/// What encoding a list of methods gives.
pub open spec fn encode_methods(ids: Seq<u8>) -> Result<Seq<u8>, Error> {
    if methods_fit(ids) {
        Ok(methods_bytes(ids))
    } else {
        Err(Error::MalformedLength)
    }
}

/// What decoding the list at the front of `s` gives: the methods and the
/// number of bytes taken, or `Truncated` where `s` ends before the
/// declared list does.
pub open spec fn parse_methods(s: Seq<u8>) -> Result<(Seq<u8>, nat), Error> {
    if s.len() < 1 {
        Err(Error::Truncated)
    } else if s.len() < 1 + s[0] {
        Err(Error::Truncated)
    } else {
        let n = s[0] as int;
        Ok((s.subrange(1, 1 + n), (1 + n) as nat))
    }
}

impl CompressionMethods {
    /// Encodes the list. Fails with `MalformedLength` exactly when it
    /// holds more methods than one byte can count.
    pub fn marshal(&self) -> (r: Result<Vec<u8>, Error>)
        ensures
            match r {
                Ok(bytes) => encode_methods(self@) == Ok::<Seq<u8>, Error>(bytes@),
                Err(e) => encode_methods(self@) == Err::<Seq<u8>, Error>(e),
            },
    {
        if self.ids.len() > MAX_COMPRESSION_METHODS {
            return Err(Error::MalformedLength);
        }
        let mut out: Vec<u8> = Vec::new();
        out.push(self.ids.len() as u8);
        put_bytes(&mut out, self.ids.as_slice());
        assert(out@ =~= methods_bytes(self@));
        Ok(out)
    }

    /// Decodes the list at the front of `data` and says how many bytes it
    /// took. Fails with `Truncated` exactly when `data` ends before the
    /// declared list does.
    pub fn unmarshal(data: &[u8]) -> (r: Result<(CompressionMethods, usize), Error>)
        ensures
            match r {
                Ok((methods, used)) => parse_methods(data@) == Ok::<(Seq<u8>, nat), Error>(
                    (methods@, used as nat),
                ),
                Err(e) => parse_methods(data@) == Err::<(Seq<u8>, nat), Error>(e),
            },
    {
        let count = match get_u8(data, 0) {
            Some(v) => v,
            None => { return Err(Error::Truncated); },
        };
        let ids = match get_bytes(data, 1, count as usize) {
            Some(v) => v,
            None => { return Err(Error::Truncated); },
        };
        Ok((CompressionMethods { ids }, 1 + count as usize))
    }

}

impl PartialEq for CompressionMethods {
    /// Whether two lists hold the same methods in the same order.
    fn eq(&self, other: &CompressionMethods) -> (r: bool) {
        bytes_eq(self.ids.as_slice(), other.ids.as_slice())
    }
}

impl vstd::std_specs::cmp::PartialEqSpecImpl for CompressionMethods {
    open spec fn obeys_eq_spec() -> bool {
        true
    }

    open spec fn eq_spec(&self, other: &CompressionMethods) -> bool {
        self@ == other@
    }
}

impl Eq for CompressionMethods {

}

/// A list short enough to be counted in one byte is read back from the
/// front of any input that starts with its wire form.
pub proof fn lemma_methods_round_trip(ids: Seq<u8>, rest: Seq<u8>)
    requires
        methods_fit(ids),
    ensures
        methods_bytes(ids).len() == 1 + ids.len(),
        parse_methods(methods_bytes(ids) + rest) == Ok::<(Seq<u8>, nat), Error>(
            (ids, methods_bytes(ids).len()),
        ),
{
    let s = methods_bytes(ids) + rest;
    assert(s[0] == ids.len() as u8);
    assert(s.subrange(1, 1 + ids.len() as int) =~= ids);
}

} // verus!
