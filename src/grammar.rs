//! The attribute values that are not plain strings: a cardinality that is
//! `unbounded` or a number, the usage of an attribute, and the
//! qualification of local names.
use vstd::prelude::*;
use crate::error::SchemaError;
use crate::text::{decimal_text, lemma_decimal_text_reads_back, numeral_value, parse_unsigned, same_text};

verus! {

/// The largest number of times an element may occur.
#[derive(Clone, Debug, PartialEq, Eq, Structural)]
pub enum MaxOccurences {
    Unbounded,
    Number { value: u32 },
}

impl Default for MaxOccurences {
    fn default() -> (r: Self)
        ensures
            r == MaxOccurences::Unbounded,
    {
        MaxOccurences::Unbounded
    }
}

/// Whether an attribute must be present (`use="required"`) or not.
#[derive(Clone, Debug, PartialEq, Eq, Structural)]
pub enum Required {
    Optional,
    Required,
}

impl Default for Required {
    fn default() -> (r: Self)
        ensures
            r == Required::Optional,
    {
        Required::Optional
    }
}

/// Whether locally declared names must carry the target namespace.
#[derive(Clone, Debug, PartialEq, Eq, Structural)]
pub enum Qualification {
    Qualidified,
    Unqualified,
}

impl Default for Qualification {
    fn default() -> (r: Self)
        ensures
            r == Qualification::Unqualified,
    {
        Qualification::Unqualified
    }
}

/// What a `maxOccurs` literal denotes, if it is well formed.
pub open spec fn max_occurences_of(s: Seq<char>) -> Option<MaxOccurences> {
    if s == "unbounded"@ {
        Some(MaxOccurences::Unbounded)
    } else {
        match numeral_value(s, u32::MAX as nat) {
            Some(v) => Some(MaxOccurences::Number { value: v as u32 }),
            None => None,
        }
    }
}

/// What a `use` literal denotes, if it is one of the two.
pub open spec fn required_of(s: Seq<char>) -> Option<Required> {
    if s == "optional"@ {
        Some(Required::Optional)
    } else if s == "required"@ {
        Some(Required::Required)
    } else {
        None
    }
}

/// What a form-default literal denotes, if it is one of the two.
pub open spec fn qualification_of(s: Seq<char>) -> Option<Qualification> {
    if s == "qualified"@ {
        Some(Qualification::Qualidified)
    } else if s == "unqualified"@ {
        Some(Qualification::Unqualified)
    } else {
        None
    }
}

/// The error that names a malformed cardinality literal.
pub open spec fn is_malformed_scalar(e: SchemaError, s: Seq<char>) -> bool {
    e matches SchemaError::MalformedScalar { value } && value@ == s
}

/// The error that names a literal outside an enumeration.
pub open spec fn is_unrecognized(e: SchemaError, s: Seq<char>) -> bool {
    e matches SchemaError::UnrecognizedEnumValue { value } && value@ == s
}

/// Every number of `u32` written in decimal reads as that number, and
/// `unbounded` reads as `Unbounded`.
pub proof fn lemma_cardinality_literals(n: nat)
    requires
        n <= u32::MAX,
    ensures
        max_occurences_of(decimal_text(n)) == Some(MaxOccurences::Number { value: n as u32 }),
        max_occurences_of("unbounded"@) == Some(MaxOccurences::Unbounded),
{
    lemma_decimal_text_reads_back(n);
    reveal_strlit("unbounded");
    assert(decimal_text(n)[0] != "unbounded"@[0]);
}

/// `optional` and `required` read as the two usages, and every other
/// literal is unrecognized.
pub proof fn lemma_usage_literals(s: Seq<char>)
    ensures
        required_of("optional"@) == Some(Required::Optional),
        required_of("required"@) == Some(Required::Required),
        s != "optional"@ && s != "required"@ ==> required_of(s) is None,
{
    reveal_strlit("optional");
    reveal_strlit("required");
    assert("optional"@ != "required"@) by {
        assert("optional"@[0] != "required"@[0]);
    }
}

/// Parses a `maxOccurs` literal: `unbounded`, or a decimal `u32`.
pub fn parse_max_occurences(s: &str) -> (r: Result<MaxOccurences, SchemaError>)
    ensures
        match max_occurences_of(s@) {
            Some(m) => r == Ok::<MaxOccurences, SchemaError>(m),
            None => r matches Err(e) && is_malformed_scalar(e, s@),
        },
{
    if same_text(s, "unbounded") {
        return Ok(MaxOccurences::Unbounded);
    }
    match parse_unsigned(s, u32::MAX as u64) {
        Some(v) => Ok(MaxOccurences::Number { value: v as u32 }),
        None => Err(SchemaError::MalformedScalar { value: s.to_owned() }),
    }
}

/// Parses a `use` literal, case-sensitively.
pub fn parse_required(s: &str) -> (r: Result<Required, SchemaError>)
    ensures
        match required_of(s@) {
            Some(u) => r == Ok::<Required, SchemaError>(u),
            None => r matches Err(e) && is_unrecognized(e, s@),
        },
{
    if same_text(s, "optional") {
        Ok(Required::Optional)
    } else if same_text(s, "required") {
        Ok(Required::Required)
    } else {
        Err(SchemaError::UnrecognizedEnumValue { value: s.to_owned() })
    }
}

/// Parses an `elementFormDefault` or `attributeFormDefault` literal.
pub fn parse_qualification(s: &str) -> (r: Result<Qualification, SchemaError>)
    ensures
        match qualification_of(s@) {
            Some(q) => r == Ok::<Qualification, SchemaError>(q),
            None => r matches Err(e) && is_unrecognized(e, s@),
        },
{
    if same_text(s, "qualified") {
        Ok(Qualification::Qualidified)
    } else if same_text(s, "unqualified") {
        Ok(Qualification::Unqualified)
    } else {
        Err(SchemaError::UnrecognizedEnumValue { value: s.to_owned() })
    }
}

/// Parses a `minOccurs` literal: a decimal `u64`.
pub fn parse_min_occurences(s: &str) -> (r: Result<u64, SchemaError>)
    ensures
        match numeral_value(s@, u64::MAX as nat) {
            Some(v) => r == Ok::<u64, SchemaError>(v as u64),
            None => r matches Err(e) && is_malformed_scalar(e, s@),
        },
{
    match parse_unsigned(s, u64::MAX) {
        Some(v) => Ok(v),
        None => Err(SchemaError::MalformedScalar { value: s.to_owned() }),
    }
}

} // verus!
