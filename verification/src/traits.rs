use vstd::prelude::*;

use crate::error::BerError;
use crate::tag::Tag;

verus! {

/// A type that knows the BER tag it is encoded under.
pub trait BerTag {
    fn tag() -> Tag;
}

/// A type whose values can be written as BER elements.
pub trait BerEncode: BerTag {
    /// Appends the element, under the type's own tag, to `writer`.
    fn encode(&self, writer: &mut Vec<u8>) -> Result<(), BerError>;

    /// Appends the element under `tag` in place of the type's own tag.
    fn encode_with_tag(&self, tag: Tag, writer: &mut Vec<u8>) -> Result<(), BerError>;
}

/// A type whose values can be read back from BER elements.
pub trait BerDecode: BerTag + Sized {
    /// Reads an element, checking the type's own tag, off the front of `reader`.
    fn decode(reader: &mut &[u8]) -> Result<Self, BerError>;

    /// Reads the rest of an element whose identifier `tag` was already read.
    fn decode_with_tag(tag: Tag, reader: &mut &[u8]) -> Result<Self, BerError>;
}

} // verus!
