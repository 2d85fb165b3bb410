//! The schema object model. Every entity owns its children; references to
//! other declarations (`ref`, `type`, `base`, `itemType`, `memberTypes`)
//! are kept as the names written in the document.
//!
//! The types on the cycle of nesting (an element holds a complex type, which
//! holds sequences of elements) and `Schema` have no `Clone`: Verus refuses
//! the derived, mutually recursive impl.
use vstd::prelude::*;
use crate::grammar::{MaxOccurences, Qualification, Required};

verus! {

/// `<annotation>`: documentation attached to a declaration.
#[derive(Clone, Debug, PartialEq, Default)]
pub struct Annotation {
    pub id: Option<String>,
    pub attributes: Vec<Attribute>,
    /// The text of each `<documentation>` child, in document order.
    pub documentation: Vec<String>,
}

/// `<attribute>`: the declaration or use of an attribute.
#[derive(Clone, Debug, PartialEq, Default)]
pub struct Attribute {
    pub name: Option<String>,
    /// The `type` attribute.
    pub kind: Option<String>,
    /// The `use` attribute.
    pub required: Required,
    /// The `ref` attribute.
    pub reference: Option<String>,
    pub simple_type: Option<SimpleType>,
}

/// `<attributeGroup>`: the definition of a group (by `name`) or its use (by `ref`).
#[derive(Clone, Debug, PartialEq, Default)]
pub struct AttributeGroup {
    pub name: Option<String>,
    /// The `ref` attribute; empty in a definition.
    pub reference: String,
    pub attributes: Vec<Attribute>,
}

/// `<complexContent>`.
#[derive(Debug, PartialEq, Default)]
pub struct ComplexContent {
    pub extension: Option<Extension>,
}

/// The content model of a complex type: at most one of the three styles.
#[derive(Debug, PartialEq)]
pub enum ContentModel {
    Sequence(Sequence),
    SimpleContent(SimpleContent),
    ComplexContent(ComplexContent),
}

/// `<complexType>`.
#[derive(Debug, PartialEq, Default)]
pub struct ComplexType {
    pub name: String,
    pub attributes: Vec<Attribute>,
    pub content: Option<ContentModel>,
    pub annotation: Option<Annotation>,
}

/// `<element>`.
#[derive(Debug, PartialEq, Default)]
pub struct Element {
    pub name: String,
    /// The `type` attribute.
    pub kind: Option<String>,
    /// The `ref` attribute.
    pub refers: Option<String>,
    pub min_occurences: Option<u64>,
    pub max_occurences: Option<MaxOccurences>,
    pub complex_type: Option<ComplexType>,
    pub simple_type: Option<SimpleType>,
    pub annotation: Option<Annotation>,
}

/// `<extension>`: a base type with attributes and sequences added.
#[derive(Debug, PartialEq, Default)]
pub struct Extension {
    pub base: String,
    pub attributes: Vec<Attribute>,
    pub sequences: Vec<Sequence>,
}

/// `<import>`: recorded, not resolved.
#[derive(Clone, Debug, PartialEq, Default)]
pub struct Import {
    pub id: Option<String>,
    pub namespace: Option<String>,
    pub schema_location: Option<String>,
}

/// `<include>`: recorded, not resolved.
#[derive(Clone, Debug, PartialEq, Default)]
pub struct Include {
    pub id: Option<String>,
    pub schema_location: Option<String>,
}

/// `<list>`.
#[derive(Clone, Debug, PartialEq, Default)]
pub struct List {
    pub item_type: String,
}

/// `<restriction>`.
#[derive(Clone, Debug, PartialEq, Default)]
pub struct Restriction {
    pub base: Option<String>,
}

/// `<schema>`, the root of a document.
#[derive(Debug, PartialEq, Default)]
pub struct Schema {
    pub target_namespace: Option<String>,
    pub element_form_default: Qualification,
    pub attribute_form_default: Qualification,
    pub imports: Vec<Import>,
    pub includes: Vec<Include>,
    pub elements: Vec<Element>,
    pub simple_type: Vec<SimpleType>,
    pub complex_type: Vec<ComplexType>,
    pub attributes: Vec<Attribute>,
    pub attribute_group: Vec<AttributeGroup>,
    pub annotation: Option<Annotation>,
}

/// `<sequence>`: element declarations in content-model order.
#[derive(Debug, PartialEq, Default)]
pub struct Sequence {
    pub elements: Vec<Element>,
}

/// `<simpleContent>`.
#[derive(Debug, PartialEq, Default)]
pub struct SimpleContent {
    pub extension: Extension,
}

/// How a simple type is derived: at most one of the three mechanisms.
#[derive(Clone, Debug, PartialEq)]
pub enum Derivation {
    Restriction(Restriction),
    List(List),
    Union(Union),
}

/// `<simpleType>`.
#[derive(Clone, Debug, PartialEq, Default)]
pub struct SimpleType {
    pub name: String,
    pub derivation: Option<Derivation>,
}

/// `<union>`: the member types as one space-separated string.
#[derive(Clone, Debug, PartialEq, Default)]
pub struct Union {
    pub member_types: String,
}

} // verus!
