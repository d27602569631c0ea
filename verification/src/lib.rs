//! A fixed-size, lightly obfuscated key/value record store.
//!
//! A [`mconfig::MConfig`] holds UTF-8 keys mapped to optional UTF-8 values and
//! can be serialized into a flat 8,192-byte buffer: a 6-byte header (magic and
//! version), length-prefixed entries terminated by a zero key-length sentinel,
//! random padding, and an optional XOR obfuscation of everything after the
//! header against a repeating secret.
use vstd::prelude::*;

pub mod codec;
pub mod entries;
pub mod mconfig;
pub mod mconfig_builder;
pub mod mcstring;

pub use mconfig::MCError;
pub use mconfig::MCResult;
pub use mconfig::MConfig;
pub use mconfig::MConfigIter;
pub use mconfig_builder::MConfigBuilder;
pub use mcstring::MCString;

verus! {

/// Total size of a serialized buffer, in bytes.
pub const MCONFIG_SIZE: usize = 8192;

/// Size of the fixed header: five magic bytes followed by one version byte.
pub const HEADER_SIZE: usize = 6;

/// Index of the version byte within the header.
pub const VERSION_INDEX: usize = 5;

/// Maximum UTF-8 byte length of a key.
pub const MAX_KEY_LEN: usize = 255;

/// Maximum UTF-8 byte length of a value.
pub const MAX_VALUE_LEN: usize = 255;

/// The five magic bytes that open every buffer: `MCONF`.
pub open spec fn spec_magic() -> Seq<u8> {
    seq![0x4du8, 0x43u8, 0x4fu8, 0x4eu8, 0x46u8]
}

/// The magic byte at position `i` of the header.
pub fn magic_byte(i: usize) -> (b: u8)
    requires
        i < 5,
    ensures
        b == spec_magic()[i as int],
{
    if i == 0 {
        0x4d
    } else if i == 1 {
        0x43
    } else if i == 2 {
        0x4f
    } else if i == 3 {
        0x4e
    } else {
        0x46
    }
}

} // verus!
