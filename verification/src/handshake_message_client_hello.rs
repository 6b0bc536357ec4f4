//! The client hello: the message with which a client opens a handshake or
//! asks to renegotiate.
//!
//! Layout on the wire, in this order: the version (major, minor), the
//! random nonce, the length of the session identifier and the identifier
//! itself, the length of the cookie and the cookie, the cipher suite list,
//! the compression methods, and the extension block. This codec always
//! writes an empty session identifier; when reading it steps over
//! whatever identifier is there.

use crate::cipher_suite::{
    cipher_suites_eq, lemma_parse_suite_list_within, lemma_suite_list_round_trip,
    marshal_cipher_suites, parse_suite_list, suite_list_bytes, suites_fit,
    unmarshal_cipher_suites, CipherSuite,
};
use crate::compression_methods::{
    lemma_methods_round_trip, methods_bytes, methods_fit, parse_methods, CompressionMethods,
};
use crate::error::Error;
use crate::extension::{
    block_bytes, block_fits, extension_views, lemma_block_round_trip, marshal_extensions,
    parse_block, unmarshal_extensions, Extension, ExtensionView,
};
use crate::handshake_random::HandshakeRandom;
use crate::handshake_type::HandshakeType;
use crate::protocol_version::ProtocolVersion;
use crate::wire::{get_bytes, get_u8, put_bytes};
use vstd::prelude::*;
use vstd::slice::slice_subrange;

verus! {

/// The longest cookie: its length is declared in one byte.
pub const MAX_COOKIE_LENGTH: usize = 255;

/// Where the length of the session identifier stands: behind the two
/// version bytes and the random nonce.
pub const SESSION_ID_LENGTH_OFFSET: usize = 34;

/// A client hello message.
#[derive(Clone, Debug)]
pub struct HandshakeMessageClientHello {
    pub version: ProtocolVersion,
    pub random: HandshakeRandom,
    pub cookie: Vec<u8>,
    pub cipher_suites: Vec<CipherSuite>,
    pub compression_methods: CompressionMethods,
    pub extensions: Vec<Extension>,
}

/// What a client hello says, field by field. Lists are sequences: two
/// messages with the same suites or extensions in another order differ.
pub struct ClientHelloView {
    pub version: ProtocolVersion,
    pub random: Seq<u8>,
    pub cookie: Seq<u8>,
    pub cipher_suites: Seq<CipherSuite>,
    pub compression_methods: Seq<u8>,
    pub extensions: Seq<ExtensionView>,
}

impl View for HandshakeMessageClientHello {
    type V = ClientHelloView;

    open spec fn view(&self) -> ClientHelloView {
        ClientHelloView {
            version: self.version,
            random: self.random@,
            cookie: self.cookie@,
            cipher_suites: self.cipher_suites@,
            compression_methods: self.compression_methods@,
            extensions: extension_views(self.extensions@),
        }
    }
}

/// The fields in front of the cipher suite list: version, random nonce,
/// an empty session identifier, and the cookie behind its length.
pub open spec fn head_bytes(m: ClientHelloView) -> Seq<u8> {
    seq![m.version.major, m.version.minor] + m.random + seq![0u8, m.cookie.len() as u8] + m.cookie
}

/// The wire form of a message whose lengths all fit their fields.
pub open spec fn message_bytes(m: ClientHelloView) -> Seq<u8> {
    head_bytes(m) + suite_list_bytes(m.cipher_suites) + methods_bytes(m.compression_methods)
        + block_bytes(m.extensions)
}

/// Whether every length of the message but the cookie's fits the field
/// that declares it.
pub open spec fn lists_fit(m: ClientHelloView) -> bool {
    suites_fit(m.cipher_suites) && methods_fit(m.compression_methods) && block_fits(m.extensions)
}

/// What encoding a message gives: `CookieTooLong` for a cookie of more
/// than 255 bytes, else `MalformedLength` where a list is too long for
/// its length field, else the wire form.
pub open spec fn encode_message(m: ClientHelloView) -> Result<Seq<u8>, Error> {
    if m.cookie.len() > 255 {
        Err(Error::CookieTooLong)
    } else if !lists_fit(m) {
        Err(Error::MalformedLength)
    } else {
        Ok(message_bytes(m))
    }
}

/// Where the cookie's length stands in `s`: behind the session identifier.
pub open spec fn cookie_length_offset(s: Seq<u8>) -> int
    recommends
        s.len() >= 35,
{
    35 + s[34]
}

/// Where the cipher suite list starts in `s`: behind the cookie.
pub open spec fn suite_list_offset(s: Seq<u8>) -> int
    recommends
        s.len() > cookie_length_offset(s),
{
    cookie_length_offset(s) + 1 + s[cookie_length_offset(s)]
}

/// What decoding the message at the front of `s` gives. The fields are
/// read in wire order and the first that fails decides the error. Bytes
/// behind the extension block are not looked at.
pub open spec fn parse_message(s: Seq<u8>) -> Result<ClientHelloView, Error> {
    if s.len() < 35 {
        Err(Error::Truncated)
    } else if s.len() <= cookie_length_offset(s) {
        Err(Error::Truncated)
    } else if s.len() < suite_list_offset(s) {
        Err(Error::Truncated)
    } else {
        let cookie_at = cookie_length_offset(s) + 1;
        let suites_at = suite_list_offset(s);
        match parse_suite_list(s.skip(suites_at)) {
            Err(e) => Err(e),
            Ok((suites, suites_len)) => match parse_methods(s.skip(suites_at + suites_len)) {
                Err(e) => Err(e),
                Ok((methods, methods_len)) => match parse_block(
                    s.skip(suites_at + suites_len + methods_len),
                ) {
                    Err(e) => Err(e),
                    Ok((extensions, _)) => Ok(
                        ClientHelloView {
                            version: ProtocolVersion { major: s[0], minor: s[1] },
                            random: s.subrange(2, 34),
                            cookie: s.subrange(cookie_at, suites_at),
                            cipher_suites: suites,
                            compression_methods: methods,
                            extensions,
                        },
                    ),
                },
            },
        }
    }
}

impl HandshakeMessageClientHello {
    /// The tag of this message among the handshake messages.
    pub fn handshake_type() -> (t: HandshakeType)
        ensures
            t == HandshakeType::ClientHello,
    {
        HandshakeType::ClientHello
    }

    /// Encodes the message. Fails with `CookieTooLong` exactly when the
    /// cookie holds more than 255 bytes; otherwise with `MalformedLength`
    /// exactly when a list is too long for its length field.
    pub fn marshal(&self) -> (r: Result<Vec<u8>, Error>)
        ensures
            match r {
                Ok(bytes) => encode_message(self@) == Ok::<Seq<u8>, Error>(bytes@),
                Err(e) => encode_message(self@) == Err::<Seq<u8>, Error>(e),
            },
    {
        if self.cookie.len() > MAX_COOKIE_LENGTH {
            return Err(Error::CookieTooLong);
        }
        let suites = match marshal_cipher_suites(&self.cipher_suites) {
            Ok(bytes) => bytes,
            Err(e) => { return Err(e); },
        };
        let methods = match self.compression_methods.marshal() {
            Ok(bytes) => bytes,
            Err(e) => { return Err(e); },
        };
        let block = match marshal_extensions(&self.extensions) {
            Ok(bytes) => bytes,
            Err(e) => { return Err(e); },
        };

        let mut out: Vec<u8> = Vec::new();
        out.push(self.version.major);
        out.push(self.version.minor);
        let random = self.random.marshal();
        put_bytes(&mut out, random.as_slice());
        // The session identifier: always empty.
        out.push(0x00);
        out.push(self.cookie.len() as u8);
        put_bytes(&mut out, self.cookie.as_slice());
        assert(out@ =~= head_bytes(self@));
        put_bytes(&mut out, suites.as_slice());
        put_bytes(&mut out, methods.as_slice());
        put_bytes(&mut out, block.as_slice());
        Ok(out)
    }

    /// Decodes the message at the front of `data`. Fails with `Truncated`
    /// when `data` ends inside the message, `MalformedLength` when the
    /// cipher suite byte count is odd or the extension records do not tile
    /// their block, and `UnsupportedCipherSuite` when a listed suite is not
    /// registered; the first field that fails, in wire order, decides.
    pub fn unmarshal(data: &[u8]) -> (r: Result<HandshakeMessageClientHello, Error>)
        ensures
            match r {
                Ok(m) => parse_message(data@) == Ok::<ClientHelloView, Error>(m@),
                Err(e) => parse_message(data@) == Err::<ClientHelloView, Error>(e),
            },
    {
        let len: usize = data.len();
        if len < SESSION_ID_LENGTH_OFFSET + 1 {
            return Err(Error::Truncated);
        }
        let major: u8 = data[0];
        let minor: u8 = data[1];
        let random = match HandshakeRandom::unmarshal(slice_subrange(data, 2, len)) {
            Ok(random) => random,
            Err(e) => { return Err(e); },
        };
        assert(random@ =~= data@.subrange(2, 34));

        // The session identifier is stepped over, whatever its length.
        let session_id_len: usize = data[SESSION_ID_LENGTH_OFFSET] as usize;
        let cookie_len_at: usize = SESSION_ID_LENGTH_OFFSET + 1 + session_id_len;
        let cookie_len: usize = match get_u8(data, cookie_len_at) {
            Some(n) => n as usize,
            None => { return Err(Error::Truncated); },
        };
        let cookie = match get_bytes(data, cookie_len_at + 1, cookie_len) {
            Some(bytes) => bytes,
            None => { return Err(Error::Truncated); },
        };

        let suites_at: usize = cookie_len_at + 1 + cookie_len;
        let rest = slice_subrange(data, suites_at, len);
        assert(rest@ =~= data@.skip(suites_at as int));
        let (cipher_suites, suites_len) = match unmarshal_cipher_suites(rest) {
            Ok(found) => found,
            Err(e) => { return Err(e); },
        };
        assert(suites_len <= rest@.len()) by {
            lemma_parse_suite_list_within(rest@);
        }

        let methods_at: usize = suites_at + suites_len;
        let rest = slice_subrange(data, methods_at, len);
        assert(rest@ =~= data@.skip(methods_at as int));
        let (compression_methods, methods_len) = match CompressionMethods::unmarshal(rest) {
            Ok(found) => found,
            Err(e) => { return Err(e); },
        };

        let block_at: usize = methods_at + methods_len;
        let rest = slice_subrange(data, block_at, len);
        assert(rest@ =~= data@.skip(block_at as int));
        let (extensions, _) = match unmarshal_extensions(rest) {
            Ok(found) => found,
            Err(e) => { return Err(e); },
        };

        Ok(
            HandshakeMessageClientHello {
                version: ProtocolVersion { major, minor },
                random,
                cookie,
                cipher_suites,
                compression_methods,
                extensions,
            },
        )
    }
}

impl PartialEq for HandshakeMessageClientHello {
    /// Whether two messages agree in every field, the order of the cipher
    /// suites and of the extensions included.
    fn eq(&self, other: &HandshakeMessageClientHello) -> (r: bool) {
        let cookies = self.cookie == other.cookie;
        assert(cookies == (self.cookie@ == other.cookie@)) by {
            if cookies {
                assert(self.cookie@ =~= other.cookie@);
            }
        }
        let extensions = self.extensions == other.extensions;
        assert(extensions == (extension_views(self.extensions@) == extension_views(
            other.extensions@,
        ))) by {
            let a = extension_views(self.extensions@);
            let b = extension_views(other.extensions@);
            if extensions {
                assert(a =~= b);
            }
            if a == b {
                assert(self.extensions@.len() == a.len());
                assert(other.extensions@.len() == b.len());
                assert forall|i: int| 0 <= i < self.extensions@.len() implies (
                #[trigger] self.extensions@[i])@ == other.extensions@[i]@ by {
                    assert(a[i] == self.extensions@[i]@);
                    assert(b[i] == other.extensions@[i]@);
                }
            }
        }
        self.version == other.version && self.random == other.random && cookies
            && cipher_suites_eq(&self.cipher_suites, &other.cipher_suites)
            && self.compression_methods == other.compression_methods && extensions
    }
}

impl vstd::std_specs::cmp::PartialEqSpecImpl for HandshakeMessageClientHello {
    open spec fn obeys_eq_spec() -> bool {
        true
    }

    open spec fn eq_spec(&self, other: &HandshakeMessageClientHello) -> bool {
        self@ == other@
    }
}

impl Eq for HandshakeMessageClientHello {

}

/// Decoding what encoding gave returns the message: every message that
/// encodes at all is read back field for field, its cipher suites and
/// its extensions in the order they were given, whatever bytes follow the
/// encoding.
pub proof fn lemma_message_round_trip(m: HandshakeMessageClientHello, rest: Seq<u8>)
    ensures
        encode_message(m@) matches Ok(bytes) ==> parse_message(bytes + rest) == Ok::<
            ClientHelloView,
            Error,
        >(m@),
{
    let v = m@;
    if encode_message(v) is Ok {
        let head = head_bytes(v);
        let suites = suite_list_bytes(v.cipher_suites);
        let methods = methods_bytes(v.compression_methods);
        let block = block_bytes(v.extensions);
        let s = message_bytes(v) + rest;
        assert(v.random.len() == 32);
        assert(head.len() == 36 + v.cookie.len());
        assert(s[0] == v.version.major);
        assert(s[1] == v.version.minor);
        assert(s[34] == 0u8);
        assert(s[35] == v.cookie.len() as u8);
        assert(s.subrange(2, 34) =~= v.random);
        assert(s.subrange(36, 36 + v.cookie.len() as int) =~= v.cookie);

        lemma_suite_list_round_trip(v.cipher_suites, methods + block + rest);
        assert(s.skip(head.len() as int) =~= suites + (methods + block + rest));

        lemma_methods_round_trip(v.compression_methods, block + rest);
        assert(s.skip((head.len() + suites.len()) as int) =~= methods + (block + rest));

        lemma_block_round_trip(v.extensions, rest);
        assert(s.skip((head.len() + suites.len() + methods.len()) as int) =~= block + rest);
    }
}

} // verus!
