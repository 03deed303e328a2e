//! What can go wrong while a value is read or written.
use vstd::prelude::*;

verus! {

/// A failure of one decode or encode call.  After any of them the caller
/// discards the value and whatever was consumed or produced so far.
#[derive(Clone, Copy, Debug, PartialEq, Eq, Structural)]
pub enum Error {
    /// The byte source failed: it ended before the value was complete.
    IoFailure,
    /// A discriminant matched no variant and the sum type has no default.
    UnrecognizedDiscriminant,
    /// A sequence's length prefix does not land on the end of an element.
    MalformedLength,
    /// The bytes at the place of a magic constant differ from it.
    BadMagic,
    /// The value belongs to a variant that is never written: one that never
    /// travels, or one that is only read.
    UnencodableVariant,
}

impl Error {
    /// The words that describe the failure.
    pub open spec fn spec_message(self) -> Seq<char> {
        match self {
            Error::IoFailure => "unexpected end of input"@,
            Error::UnrecognizedDiscriminant => "unrecognized discriminant"@,
            Error::MalformedLength => "malformed sequence length"@,
            Error::BadMagic => "bad magic"@,
            Error::UnencodableVariant => "variant cannot be encoded"@,
        }
    }

    /// A short description of the failure, for messages.
    pub fn message(&self) -> (text: &'static str)
        ensures
            text@ == self.spec_message(),
    {
        match self {
            Error::IoFailure => "unexpected end of input",
            Error::UnrecognizedDiscriminant => "unrecognized discriminant",
            Error::MalformedLength => "malformed sequence length",
            Error::BadMagic => "bad magic",
            Error::UnencodableVariant => "variant cannot be encoded",
        }
    }
}

/// A declaration or a schema that is structurally invalid.  Such a defect is
/// found when the schema is built or checked, never while a value is read or written.
#[derive(Clone, Copy, Debug, PartialEq, Eq, Structural)]
pub enum SchemaError {
    /// An attribute that the codec does not know.
    UnsupportedAttribute,
    /// A known attribute with an argument of the wrong shape.
    MalformedAttribute,
    /// A sum type that declares no type for its discriminant.
    MissingTagType,
    /// A discriminant type that is no primitive integer.
    UnsupportedTagType,
    /// A variant that travels is declared after the default variant.
    DefaultNotLast,
    /// A second variant without a match rule.
    MultipleDefaults,
    /// A variant with fields, or with a match rule of several values, that
    /// neither keeps its discriminant nor says which one to write.
    MissingTag,
    /// A variant without fields that is asked to keep its discriminant.
    KeepTagOnUnit,
    /// A variant that keeps its discriminant in a first field of another type.
    KeepTagMismatch,
    /// A discriminant to write that is no value of the discriminant's type.
    TagOutOfRange,
    /// A sequence written as a longer path than `Vec`.
    NotSimpleVec,
    /// A sequence without the type of its items in angle brackets.
    NotVecOfType,
    /// A sequence with more or less than one type in angle brackets.
    NotVecOfSingleType,
    /// A sequence whose argument is not a type the codec can describe.
    VecItemNotAllowed,
    /// A sequence that declares no type for its length prefix.
    MissingSizeType,
    /// A length prefix type that is no primitive integer.
    UnsupportedSizeType,
    /// A magic constant that is no value of its declared type.
    UnsupportedMagic,
    /// A type of a shape the codec cannot describe.
    UnsupportedType,
    /// A named type that has not been registered.
    UnknownType,
}

impl SchemaError {
    /// The words shown to whoever wrote the declaration.
    pub open spec fn spec_message(self) -> Seq<char> {
        match self {
            SchemaError::UnsupportedAttribute => "Unsupported plod value"@,
            SchemaError::MalformedAttribute => "Malformed plod value"@,
            SchemaError::MissingTagType => "#[plod(tag_type(<type>)] is mandatory for enum"@,
            SchemaError::UnsupportedTagType => "plod tag only works with basic types"@,
            SchemaError::DefaultNotLast => "The variant without #[plod(tag(<value>)] must come last"@,
            SchemaError::MultipleDefaults => "Only one variant may come without #[plod(tag(<value>)]"@,
            SchemaError::MissingTag => "#[plod(tag(<value>)] is mandatory without keep_tag"@,
            SchemaError::KeepTagOnUnit => "Cannot keep tag on unit variant"@,
            SchemaError::KeepTagMismatch => "The first field must have the tag type to keep the tag"@,
            SchemaError::TagOutOfRange => "The tag is not a value of the tag type"@,
            SchemaError::NotSimpleVec => "Only simple Vec supported"@,
            SchemaError::NotVecOfType => "Only Vec<type> supported"@,
            SchemaError::NotVecOfSingleType => "Only Vec of single type supported"@,
            SchemaError::VecItemNotAllowed => "Only Vec<type> allowed"@,
            SchemaError::MissingSizeType => "#[plod(size_type(<value>)] is mandatory for Vec<type>"@,
            SchemaError::UnsupportedSizeType => "plod size only works with basic types"@,
            SchemaError::UnsupportedMagic => "The magic is not a value of its type"@,
            SchemaError::UnsupportedType => "Unsupported type"@,
            SchemaError::UnknownType => "Unknown type"@,
        }
    }

    /// The message shown to whoever wrote the declaration.
    pub fn message(&self) -> (text: &'static str)
        ensures
            text@ == self.spec_message(),
    {
        match self {
            SchemaError::UnsupportedAttribute => "Unsupported plod value",
            SchemaError::MalformedAttribute => "Malformed plod value",
            SchemaError::MissingTagType => "#[plod(tag_type(<type>)] is mandatory for enum",
            SchemaError::UnsupportedTagType => "plod tag only works with basic types",
            SchemaError::DefaultNotLast => "The variant without #[plod(tag(<value>)] must come last",
            SchemaError::MultipleDefaults => "Only one variant may come without #[plod(tag(<value>)]",
            SchemaError::MissingTag => "#[plod(tag(<value>)] is mandatory without keep_tag",
            SchemaError::KeepTagOnUnit => "Cannot keep tag on unit variant",
            SchemaError::KeepTagMismatch => "The first field must have the tag type to keep the tag",
            SchemaError::TagOutOfRange => "The tag is not a value of the tag type",
            SchemaError::NotSimpleVec => "Only simple Vec supported",
            SchemaError::NotVecOfType => "Only Vec<type> supported",
            SchemaError::NotVecOfSingleType => "Only Vec of single type supported",
            SchemaError::VecItemNotAllowed => "Only Vec<type> allowed",
            SchemaError::MissingSizeType => "#[plod(size_type(<value>)] is mandatory for Vec<type>",
            SchemaError::UnsupportedSizeType => "plod size only works with basic types",
            SchemaError::UnsupportedMagic => "The magic is not a value of its type",
            SchemaError::UnsupportedType => "Unsupported type",
            SchemaError::UnknownType => "Unknown type",
        }
    }
}

} // verus!
