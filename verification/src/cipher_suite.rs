//! Cipher suites, the registry that resolves their 16-bit identifiers,
//! and the codec of a cipher suite list.
//!
//! A list goes on the wire as a 16-bit count of bytes followed by one
//! 16-bit identifier per suite. The order of the list is the sender's
//! order of preference and is kept as it is.

use crate::error::Error;
use crate::wire::{get_u16, lemma_u16_round_trip, put_u16, u16_at, u16_be_bytes};
use vstd::prelude::*;

verus! {

/// The most suites one list can hold: twice their number must fit the
/// 16-bit byte count.
pub const MAX_CIPHER_SUITES: usize = 0x7fff;

/// A cipher suite this library has an implementation registered for.
#[derive(Clone, Copy, Debug, PartialEq, Eq, Structural)]
pub enum CipherSuite {
    EcdheEcdsaWithAes128Ccm,
    EcdheEcdsaWithAes128Ccm8,
    EcdheEcdsaWithAes128GcmSha256,
    EcdheRsaWithAes128GcmSha256,
    EcdheEcdsaWithAes256CbcSha,
    EcdheRsaWithAes256CbcSha,
    PskWithAes128Ccm,
    PskWithAes128Ccm8,
    PskWithAes128GcmSha256,
}

impl CipherSuite {
    /// The identifier that stands for the suite on the wire.
    pub open spec fn spec_id(&self) -> u16 {
        match self {
            CipherSuite::EcdheEcdsaWithAes128Ccm => 0xc0ac,
            CipherSuite::EcdheEcdsaWithAes128Ccm8 => 0xc0ae,
            CipherSuite::EcdheEcdsaWithAes128GcmSha256 => 0xc02b,
            CipherSuite::EcdheRsaWithAes128GcmSha256 => 0xc02f,
            CipherSuite::EcdheEcdsaWithAes256CbcSha => 0xc00a,
            CipherSuite::EcdheRsaWithAes256CbcSha => 0xc014,
            CipherSuite::PskWithAes128Ccm => 0xc0a4,
            CipherSuite::PskWithAes128Ccm8 => 0xc0a8,
            CipherSuite::PskWithAes128GcmSha256 => 0x00a8,
        }
    }

    /// The identifier that stands for the suite on the wire.
    #[verifier::when_used_as_spec(spec_id)]
    pub fn id(&self) -> (id: u16)
        ensures
            id == self.spec_id(),
    {
        match self {
            CipherSuite::EcdheEcdsaWithAes128Ccm => 0xc0ac,
            CipherSuite::EcdheEcdsaWithAes128Ccm8 => 0xc0ae,
            CipherSuite::EcdheEcdsaWithAes128GcmSha256 => 0xc02b,
            CipherSuite::EcdheRsaWithAes128GcmSha256 => 0xc02f,
            CipherSuite::EcdheEcdsaWithAes256CbcSha => 0xc00a,
            CipherSuite::EcdheRsaWithAes256CbcSha => 0xc014,
            CipherSuite::PskWithAes128Ccm => 0xc0a4,
            CipherSuite::PskWithAes128Ccm8 => 0xc0a8,
            CipherSuite::PskWithAes128GcmSha256 => 0x00a8,
        }
    }
}

/// The registry: the suite registered under `id`, if there is one.
pub open spec fn registered_suite(id: u16) -> Option<CipherSuite> {
    if id == 0xc0ac {
        Some(CipherSuite::EcdheEcdsaWithAes128Ccm)
    } else if id == 0xc0ae {
        Some(CipherSuite::EcdheEcdsaWithAes128Ccm8)
    } else if id == 0xc02b {
        Some(CipherSuite::EcdheEcdsaWithAes128GcmSha256)
    } else if id == 0xc02f {
        Some(CipherSuite::EcdheRsaWithAes128GcmSha256)
    } else if id == 0xc00a {
        Some(CipherSuite::EcdheEcdsaWithAes256CbcSha)
    } else if id == 0xc014 {
        Some(CipherSuite::EcdheRsaWithAes256CbcSha)
    } else if id == 0xc0a4 {
        Some(CipherSuite::PskWithAes128Ccm)
    } else if id == 0xc0a8 {
        Some(CipherSuite::PskWithAes128Ccm8)
    } else if id == 0x00a8 {
        Some(CipherSuite::PskWithAes128GcmSha256)
    } else {
        None
    }
}

/// Resolves an identifier through the registry. Fails with
/// `UnsupportedCipherSuite` exactly when nothing is registered under it.
pub fn cipher_suite_for_id(id: u16) -> (r: Result<CipherSuite, Error>)
    ensures
        r == match registered_suite(id) {
            Some(suite) => Ok::<CipherSuite, Error>(suite),
            None => Err::<CipherSuite, Error>(Error::UnsupportedCipherSuite),
        },
{
    match id {
        0xc0ac => Ok(CipherSuite::EcdheEcdsaWithAes128Ccm),
        0xc0ae => Ok(CipherSuite::EcdheEcdsaWithAes128Ccm8),
        0xc02b => Ok(CipherSuite::EcdheEcdsaWithAes128GcmSha256),
        0xc02f => Ok(CipherSuite::EcdheRsaWithAes128GcmSha256),
        0xc00a => Ok(CipherSuite::EcdheEcdsaWithAes256CbcSha),
        0xc014 => Ok(CipherSuite::EcdheRsaWithAes256CbcSha),
        0xc0a4 => Ok(CipherSuite::PskWithAes128Ccm),
        0xc0a8 => Ok(CipherSuite::PskWithAes128Ccm8),
        0x00a8 => Ok(CipherSuite::PskWithAes128GcmSha256),
        _ => Err(Error::UnsupportedCipherSuite),
    }
}

/// The registry and the identifiers agree: a suite is registered under
/// its own identifier, and whatever is registered under an identifier
/// carries that identifier.
pub proof fn lemma_registry_agrees_with_ids()
    ensures
        forall|suite: CipherSuite| registered_suite(#[trigger] suite.spec_id()) == Some(suite),
        forall|id: u16, suite: CipherSuite|
            registered_suite(id) == Some(suite) ==> suite.spec_id() == id,
{
}

/// The identifiers of a list of suites laid back to back, in list order.
pub open spec fn suite_ids_bytes(suites: Seq<CipherSuite>) -> Seq<u8>
    decreases suites.len(),
{
    if suites.len() == 0 {
        Seq::empty()
    } else {
        u16_be_bytes(suites[0].spec_id()) + suite_ids_bytes(suites.skip(1))
    }
}

/// Whether the list's byte count fits its 16-bit field.
pub open spec fn suites_fit(suites: Seq<CipherSuite>) -> bool {
    2 * suites.len() <= 0xffff
}

/// The wire form of a list: its byte count, then the identifiers.
pub open spec fn suite_list_bytes(suites: Seq<CipherSuite>) -> Seq<u8> {
    u16_be_bytes((2 * suites.len()) as u16) + suite_ids_bytes(suites)
}

/// What encoding a list of suites gives.
pub open spec fn encode_suite_list(suites: Seq<CipherSuite>) -> Result<Seq<u8>, Error> {
    if suites_fit(suites) {
        Ok(suite_list_bytes(suites))
    } else {
        Err(Error::MalformedLength)
    }
}

/// The suites that the first `count` identifiers of `s` resolve to. The
/// identifiers are taken in order, and the first one that is cut short
/// (`Truncated`) or not registered (`UnsupportedCipherSuite`) decides the
/// error.
pub open spec fn parse_suite_ids(s: Seq<u8>, count: nat) -> Result<Seq<CipherSuite>, Error>
    decreases count,
{
    if count == 0 {
        Ok(Seq::empty())
    } else if s.len() < 2 {
        Err(Error::Truncated)
    } else {
        match registered_suite(u16_at(s, 0)) {
            None => Err(Error::UnsupportedCipherSuite),
            Some(suite) => match parse_suite_ids(s.skip(2), (count - 1) as nat) {
                Err(e) => Err(e),
                Ok(rest) => Ok(seq![suite] + rest),
            },
        }
    }
}

/// What decoding the list at the front of `s` gives: the suites and the
/// number of bytes taken. An odd byte count is refused as
/// `MalformedLength` before any identifier is read.
pub open spec fn parse_suite_list(s: Seq<u8>) -> Result<(Seq<CipherSuite>, nat), Error> {
    if s.len() < 2 {
        Err(Error::Truncated)
    } else if u16_at(s, 0) % 2 != 0 {
        Err(Error::MalformedLength)
    } else {
        let n = u16_at(s, 0) as nat;
        match parse_suite_ids(s.skip(2), n / 2) {
            Err(e) => Err(e),
            Ok(suites) => Ok((suites, 2 + n)),
        }
    }
}

/// Encodes a list of suites. Fails with `MalformedLength` exactly when
/// the list is too long for its byte count to be declared.
pub fn marshal_cipher_suites(suites: &Vec<CipherSuite>) -> (r: Result<Vec<u8>, Error>)
    ensures
        match r {
            Ok(bytes) => encode_suite_list(suites@) == Ok::<Seq<u8>, Error>(bytes@),
            Err(e) => encode_suite_list(suites@) == Err::<Seq<u8>, Error>(e),
        },
{
    if suites.len() > MAX_CIPHER_SUITES {
        return Err(Error::MalformedLength);
    }
    let mut out: Vec<u8> = Vec::new();
    put_u16(&mut out, (2 * suites.len()) as u16);
    let ghost prefix = out@;
    let mut i: usize = 0;
    while i < suites.len()
        invariant
            i <= suites@.len(),
            out@ == prefix + suite_ids_bytes(suites@.take(i as int)),
        decreases suites@.len() - i,
    {
        proof {
            lemma_suite_ids_bytes_push(suites@.take(i as int), suites@[i as int]);
            assert(suites@.take(i as int).push(suites@[i as int]) =~= suites@.take(i + 1));
        }
        put_u16(&mut out, suites[i].id());
        i += 1;
        assert(out@ =~= prefix + suite_ids_bytes(suites@.take(i as int)));
    }
    assert(suites@.take(i as int) =~= suites@);
    Ok(out)
}

/// Decodes the list at the front of `data` and says how many bytes it
/// took. Every identifier must resolve: a list with one that does not is
/// refused as a whole.
pub fn unmarshal_cipher_suites(data: &[u8]) -> (r: Result<(Vec<CipherSuite>, usize), Error>)
    ensures
        match r {
            Ok((suites, used)) => parse_suite_list(data@) == Ok::<(Seq<CipherSuite>, nat), Error>(
                (suites@, used as nat),
            ),
            Err(e) => parse_suite_list(data@) == Err::<(Seq<CipherSuite>, nat), Error>(e),
        },
{
    let byte_count = match get_u16(data, 0) {
        Some(v) => v,
        None => { return Err(Error::Truncated); },
    };
    if byte_count % 2 != 0 {
        return Err(Error::MalformedLength);
    }
    let count: usize = (byte_count / 2) as usize;
    let ghost ids = data@.skip(2);
    let mut suites: Vec<CipherSuite> = Vec::new();
    let mut i: usize = 0;
    proof {
        assert(ids.skip(0) =~= ids);
        assert forall|tail: Seq<CipherSuite>| #[trigger] (suites@ + tail) == tail by {
            assert(suites@ + tail =~= tail);
        }
    }
    while i < count
        invariant
            i <= count,
            count <= 0x7fff,
            data@.len() >= 2,
            byte_count == u16_at(data@, 0),
            byte_count == 2 * count,
            ids == data@.skip(2),
            suites@.len() == i,
            2 * i <= ids.len(),
            parse_suite_ids(ids, count as nat) == match parse_suite_ids(
                ids.skip(2 * i),
                (count - i) as nat,
            ) {
                Err(e) => Err(e),
                Ok(rest) => Ok(suites@ + rest),
            },
        decreases count - i,
    {
        let ghost here = ids.skip(2 * i);
        let ghost done = suites@;
        let id = match get_u16(data, 2 + 2 * i) {
            Some(v) => v,
            None => {
                assert(here.len() < 2);
                return Err(Error::Truncated);
            },
        };
        assert(here.len() >= 2);
        assert(u16_at(here, 0) == id);
        let suite = match cipher_suite_for_id(id) {
            Ok(s) => s,
            Err(e) => { return Err(e); },
        };
        proof {
            assert(here.skip(2) =~= ids.skip(2 * (i + 1)));
            assert forall|tail: Seq<CipherSuite>|
                done + (seq![suite] + tail) == #[trigger] (done.push(suite) + tail) by {
                assert(done + (seq![suite] + tail) =~= done.push(suite) + tail);
            }
        }
        suites.push(suite);
        i += 1;
    }
    assert(suites@ + Seq::<CipherSuite>::empty() =~= suites@);
    Ok((suites, 2 + 2 * count))
}

/// Whether two lists hold the same suites in the same order.
pub fn cipher_suites_eq(a: &Vec<CipherSuite>, b: &Vec<CipherSuite>) -> (r: bool)
    ensures
        r == (a@ == b@),
{
    if a.len() != b.len() {
        return false;
    }
    let mut i: usize = 0;
    while i < a.len()
        invariant
            i <= a@.len(),
            a@.len() == b@.len(),
            forall|k: int| 0 <= k < i ==> a@[k] == b@[k],
        decreases a@.len() - i,
    {
        if a[i] != b[i] {
            assert(a@[i as int] != b@[i as int]);
            return false;
        }
        i += 1;
    }
    assert(a@ =~= b@);
    true
}

/// Laying one more identifier behind a list appends its two bytes.
pub proof fn lemma_suite_ids_bytes_push(suites: Seq<CipherSuite>, suite: CipherSuite)
    ensures
        suite_ids_bytes(suites.push(suite)) == suite_ids_bytes(suites) + u16_be_bytes(
            suite.spec_id(),
        ),
    decreases suites.len(),
{
    let longer = suites.push(suite);
    if suites.len() == 0 {
        assert(longer.skip(1) =~= suites);
        assert(longer[0] == suite);
        assert(suite_ids_bytes(longer) =~= suite_ids_bytes(suites) + u16_be_bytes(suite.spec_id()));
    } else {
        lemma_suite_ids_bytes_push(suites.skip(1), suite);
        assert(longer.skip(1) =~= suites.skip(1).push(suite));
        assert(longer[0] == suites[0]);
        assert(suite_ids_bytes(longer) =~= suite_ids_bytes(suites) + u16_be_bytes(suite.spec_id()));
    }
}

/// A list that parses lies within its input: the identifiers counted by
/// the byte count are all there.
pub proof fn lemma_parse_suite_list_within(s: Seq<u8>)
    ensures
        parse_suite_list(s) matches Ok((suites, used)) ==> used <= s.len() && used == 2 + 2
            * suites.len(),
{
    if s.len() >= 2 {
        lemma_parse_suite_ids_within(s.skip(2), u16_at(s, 0) as nat / 2);
    }
}

/// Identifiers that parse are all there, two bytes each.
pub proof fn lemma_parse_suite_ids_within(s: Seq<u8>, count: nat)
    ensures
        parse_suite_ids(s, count) matches Ok(suites) ==> suites.len() == count && 2 * count
            <= s.len(),
    decreases count,
{
    if count > 0 && s.len() >= 2 {
        lemma_parse_suite_ids_within(s.skip(2), (count - 1) as nat);
    }
}

/// The identifiers of a list are read back as the list, in its order,
/// whatever follows them.
pub proof fn lemma_suite_ids_round_trip(suites: Seq<CipherSuite>, rest: Seq<u8>)
    ensures
        suite_ids_bytes(suites).len() == 2 * suites.len(),
        parse_suite_ids(suite_ids_bytes(suites) + rest, suites.len()) == Ok::<
            Seq<CipherSuite>,
            Error,
        >(suites),
    decreases suites.len(),
{
    if suites.len() > 0 {
        let first = suites[0];
        let others = suites.skip(1);
        let s = suite_ids_bytes(suites) + rest;
        lemma_suite_ids_round_trip(others, rest);
        lemma_u16_round_trip(first.spec_id());
        assert(s[0] == u16_be_bytes(first.spec_id())[0]);
        assert(s[1] == u16_be_bytes(first.spec_id())[1]);
        assert(s.skip(2) =~= suite_ids_bytes(others) + rest);
        assert(u16_at(s, 0) == first.spec_id());
        assert(registered_suite(first.spec_id()) == Some(first));
        assert(others.len() == (suites.len() - 1) as nat);
        assert(seq![first] + others =~= suites);
    } else {
        assert(suites =~= Seq::<CipherSuite>::empty());
    }
}

/// A list short enough to be declared is read back from the front of any
/// input that starts with its wire form: the same suites in the same
/// order, none dropped and none merged.
pub proof fn lemma_suite_list_round_trip(suites: Seq<CipherSuite>, rest: Seq<u8>)
    requires
        suites_fit(suites),
    ensures
        suite_list_bytes(suites).len() == 2 + 2 * suites.len(),
        parse_suite_list(suite_list_bytes(suites) + rest) == Ok::<(Seq<CipherSuite>, nat), Error>(
            (suites, suite_list_bytes(suites).len()),
        ),
{
    let n = (2 * suites.len()) as u16;
    let s = suite_list_bytes(suites) + rest;
    lemma_suite_ids_round_trip(suites, rest);
    lemma_u16_round_trip(n);
    assert(s[0] == u16_be_bytes(n)[0]);
    assert(s[1] == u16_be_bytes(n)[1]);
    assert(s.skip(2) =~= suite_ids_bytes(suites) + rest);
}

/// One identifier that is not registered fails the whole list: however
/// many registered suites stand in front of it, and whatever follows it,
/// decoding ends in `UnsupportedCipherSuite`.
pub proof fn lemma_unregistered_identifier_fails(
    before: Seq<CipherSuite>,
    id: u16,
    rest: Seq<u8>,
    count: nat,
)
    requires
        registered_suite(id) is None,
        count > before.len(),
    ensures
        parse_suite_ids(suite_ids_bytes(before) + u16_be_bytes(id) + rest, count) == Err::<
            Seq<CipherSuite>,
            Error,
        >(Error::UnsupportedCipherSuite),
    decreases before.len(),
{
    let s = suite_ids_bytes(before) + u16_be_bytes(id) + rest;
    if before.len() == 0 {
        lemma_u16_round_trip(id);
        assert(s[0] == u16_be_bytes(id)[0]);
        assert(s[1] == u16_be_bytes(id)[1]);
    } else {
        let first = before[0];
        let others = before.skip(1);
        lemma_unregistered_identifier_fails(others, id, rest, (count - 1) as nat);
        lemma_u16_round_trip(first.spec_id());
        assert(s[0] == u16_be_bytes(first.spec_id())[0]);
        assert(s[1] == u16_be_bytes(first.spec_id())[1]);
        assert(s.skip(2) =~= suite_ids_bytes(others) + u16_be_bytes(id) + rest);
        assert(registered_suite(first.spec_id()) == Some(first));
    }
}

} // verus!
