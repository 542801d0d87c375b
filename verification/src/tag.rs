use vstd::prelude::*;

verus! {

/// The one-byte identifier that precedes every value on the wire.
#[derive(Debug, Copy, Clone, PartialEq, Eq, Structural)]
pub struct TagType(pub u8);

/// The end marker.
pub const TAG_END_ID: u8 = 0;
/// A signed byte.
pub const TAG_BYTE_ID: u8 = 1;
/// A signed 16-bit number.
pub const TAG_SHORT_ID: u8 = 2;
/// A signed 32-bit number.
pub const TAG_INT_ID: u8 = 3;
/// A signed 64-bit number.
pub const TAG_LONG_ID: u8 = 4;
/// A 32-bit floating-point number.
pub const TAG_FLOAT_ID: u8 = 5;
/// A 64-bit floating-point number.
pub const TAG_DOUBLE_ID: u8 = 6;
/// An array of signed bytes.
pub const TAG_BYTE_ARRAY_ID: u8 = 7;
/// A string.
pub const TAG_STRING_ID: u8 = 8;
/// A list of values of one kind.
pub const TAG_LIST_ID: u8 = 9;
/// A compound of named values.
pub const TAG_COMPOUND_ID: u8 = 10;
/// An array of 32-bit numbers.
pub const TAG_INT_ARRAY_ID: u8 = 11;
/// An array of 64-bit numbers.
pub const TAG_LONG_ARRAY_ID: u8 = 12;

impl TagType {
    /// The raw byte of this tag.
    pub fn id(&self) -> (b: u8)
        ensures
            b == self.0,
    {
        self.0
    }

    /// Builds a tag from a wire byte, refusing every byte above twelve.
    pub fn from_byte(b: u8) -> (r: Option<TagType>)
        ensures
            r == if b <= 12 { Some(TagType(b)) } else { None::<TagType> },
    {
        if b <= 12 {
            Some(TagType(b))
        } else {
            None
        }
    }
}

} // verus!
