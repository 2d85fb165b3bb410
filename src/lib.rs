//! An object model of XML Schema (XSD) documents, and the verified rules
//! that map a namespace-aware XML event stream onto it.

pub mod error;
pub mod text;
pub mod grammar;
pub mod tree;
pub mod model;
pub mod nodes;
pub mod dispatch;
pub mod document;
pub mod agreement;

pub use document::{parse_schema, parse_schema_events};
pub use error::SchemaError;
pub use grammar::{MaxOccurences, Qualification, Required};
pub use model::{
    Annotation, Attribute, AttributeGroup, ComplexContent, ComplexType, ContentModel, Derivation,
    Element, Extension, Import, Include, List, Restriction, Schema, Sequence, SimpleContent,
    SimpleType, Union,
};
