//! An incremental, stateful decoder that turns binary chunks arriving over
//! multiple calls into well-formed text, for several character encodings,
//! without ever emitting a truncated multi-byte unit.
//!
//! The heart of the crate is [`decoder::StringDecoder`]: `write` prepends any
//! bytes held back from the previous call, splits the combined bytes into a
//! decodable prefix and a new incomplete suffix, and returns the decoded
//! prefix; `end` resolves or discards whatever is still buffered and resets
//! the decoder, so one instance can serve any number of consecutive streams.

use vstd::prelude::*;

pub mod base64;
pub mod chars;
pub mod decoder;
pub mod encoding;
pub mod single_byte;
pub mod utf16;
pub mod utf8;

verus! {

/// Marker under which a host-binding layer registers [`decoder::StringDecoder`]
/// in a script engine's module namespace. The registration itself is host glue
/// and lives outside this library; only the module's name is fixed here.
pub struct StringDecoderModule;

impl StringDecoderModule {
    /// The namespace name under which the decoder class is exported.
    pub fn name() -> (r: &'static str)
        ensures
            r@ == "string_decoder"@,
    {
        "string_decoder"
    }
}

} // verus!
