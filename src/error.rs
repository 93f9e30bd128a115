use vstd::prelude::*;

verus! {

/// The failure kinds shared by every fallible operation of the codec.
#[derive(Clone, Copy, Debug, PartialEq, Eq, Structural)]
pub enum CodingError {
    /// An output buffer, or a payload length field, cannot hold the requested write.
    NotEnoughSpace,
    /// A decode was attempted on input that is empty or shorter than it declares.
    InputTooShort,
    /// The leading tag byte is not one of the section types.
    InvalidSectionType(u8),
    /// The declared payload length plus the header bytes exceed the available input.
    BadLengthField,
}

/// scroll's `Error`, returned by the byte-level read and write wrappers; the codec turns
/// it into a `CodingError` before it reaches a caller.
#[verifier::external_type_specification]
#[verifier::external_body]
pub struct ExScrollError(scroll::Error);

} // verus!
