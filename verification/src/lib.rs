//! A verified decoder for the bencode serialization format used by
//! BitTorrent metainfo files.
//!
//! The decoder is a recursive-descent parser over a byte slice.  Given a
//! position in the input it dispatches on the lead byte to one of the four
//! bencode productions (integer, byte string, list, dictionary), returns the
//! decoded value tree together with the position just past the bytes it
//! consumed, and reports malformed input through an explicit error type.
//!
//! Each executable production is proved equal to `decoder::spec_parse`, a
//! mathematical description of the whole grammar, error kinds included; and
//! every canonical encoding (`value::spec_encode`) is proved to decode back
//! to exactly its value, consuming exactly its bytes.
//!
//! Recursion depth equals the nesting depth of the input, and each nesting
//! level costs one stack frame.  A caller that decodes untrusted input
//! should use `decoder::decode_bounded`, which refuses input that could
//! nest deeper than the limit the caller affords.

pub mod decoder;
pub mod numrep;
pub mod value;

pub use decoder::decode;
pub use decoder::decode_all;
pub use decoder::decode_bounded;
pub use value::DecodeError;
pub use value::SpecValue;
pub use value::Value;
