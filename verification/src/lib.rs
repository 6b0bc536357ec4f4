//! Wire encoding and decoding of the DTLS client hello handshake message.
//!
//! Every multi-byte integer on the wire is big-endian. Encoders produce a
//! fresh byte vector; decoders read from the front of a byte slice and say
//! how many bytes they used. Each codec is specified by a pair of spec
//! functions over `Seq<u8>`, and the executable functions are proved to
//! compute exactly those.

pub mod cipher_suite;
pub mod compression_methods;
pub mod error;
pub mod extension;
pub mod handshake_message_client_hello;
pub mod handshake_random;
pub mod handshake_type;
pub mod protocol_version;
pub mod wire;
