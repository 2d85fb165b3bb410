use vstd::prelude::*;

verus! {

/// Why a schema document could not be mapped onto the object model.
#[derive(Clone, Debug)]
pub enum SchemaError {
    /// An attribute or child that has no default is absent.
    MissingRequiredField { element: String, field: String },
    /// An attribute value outside its grammar's set of literals.
    UnrecognizedEnumValue { value: String },
    /// A number that is neither `unbounded` nor a decimal integer in range.
    MalformedScalar { value: String },
    /// The events do not have the shape that a document needs at this point.
    UnexpectedStructure { message: String },
    /// The text is not well-formed XML; the message comes from the XML reader.
    MalformedXml { message: String },
}

} // verus!
