//! When two values of the object model agree: the same text in every string,
//! the same variants and numbers, and the same lists in the same order.
//! Mapping one element tree twice gives two schemas that agree.
use vstd::prelude::*;
use crate::dispatch::{
    annotation_slot_from, attribute_from, attribute_group_from, attributes_from,
    complex_type_from, content_from, content_kid, element_from, extension_from, schema_from,
    sequence_from, simple_type_from,
};
use crate::nodes::{attr, kids, last_kid, lemma_kids_decrease, opt_view};
use crate::grammar::required_of;
use crate::model::{
    Annotation, Attribute, AttributeGroup, ComplexType, ContentModel, Derivation, Element,
    Extension, Import, Include, Schema, Sequence, SimpleType,
};
use crate::tree::Node;

verus! {

broadcast use vstd::std_specs::vec::group_vec_axioms;

pub open spec fn same_derivation(a: Derivation, b: Derivation) -> bool {
    match (a, b) {
        (Derivation::Restriction(x), Derivation::Restriction(y)) => opt_view(x.base) == opt_view(y.base),
        (Derivation::List(x), Derivation::List(y)) => x.item_type@ == y.item_type@,
        (Derivation::Union(x), Derivation::Union(y)) => x.member_types@ == y.member_types@,
        _ => false,
    }
}

pub open spec fn same_simple_type(a: SimpleType, b: SimpleType) -> bool {
    &&& a.name@ == b.name@
    &&& match (a.derivation, b.derivation) {
        (Some(x), Some(y)) => same_derivation(x, y),
        (None, None) => true,
        _ => false,
    }
}

pub open spec fn same_attribute(a: Attribute, b: Attribute) -> bool {
    &&& opt_view(a.name) == opt_view(b.name)
    &&& opt_view(a.kind) == opt_view(b.kind)
    &&& a.required == b.required
    &&& opt_view(a.reference) == opt_view(b.reference)
    &&& match (a.simple_type, b.simple_type) {
        (Some(x), Some(y)) => same_simple_type(x, y),
        (None, None) => true,
        _ => false,
    }
}

pub open spec fn same_attributes(a: Seq<Attribute>, b: Seq<Attribute>) -> bool {
    a.len() == b.len() && forall|j: int| 0 <= j < a.len() ==> same_attribute(#[trigger] a[j], b[j])
}

pub open spec fn same_annotation(a: Option<Annotation>, b: Option<Annotation>) -> bool {
    match (a, b) {
        (Some(x), Some(y)) => {
            &&& opt_view(x.id) == opt_view(y.id)
            &&& same_attributes(x.attributes@, y.attributes@)
            &&& x.documentation@.len() == y.documentation@.len()
            &&& forall|j: int| 0 <= j < x.documentation@.len()
                ==> (#[trigger] x.documentation@[j])@ == y.documentation@[j]@
        },
        (None, None) => true,
        _ => false,
    }
}

pub open spec fn same_element(a: Element, b: Element) -> bool
    decreases a, 1nat,
{
    &&& a.name@ == b.name@
    &&& opt_view(a.kind) == opt_view(b.kind)
    &&& opt_view(a.refers) == opt_view(b.refers)
    &&& a.min_occurences == b.min_occurences
    &&& a.max_occurences == b.max_occurences
    &&& match (a.complex_type, b.complex_type) {
        (Some(x), Some(y)) => same_complex_type(x, y),
        (None, None) => true,
        _ => false,
    }
    &&& match (a.simple_type, b.simple_type) {
        (Some(x), Some(y)) => same_simple_type(x, y),
        (None, None) => true,
        _ => false,
    }
    &&& same_annotation(a.annotation, b.annotation)
}

pub open spec fn same_sequence(a: Sequence, b: Sequence) -> bool
    decreases a, 2nat,
{
    &&& a.elements@.len() == b.elements@.len()
    &&& forall|j: int| 0 <= j < a.elements@.len() ==> same_element(#[trigger] a.elements[j], b.elements[j])
}

pub open spec fn same_extension(a: Extension, b: Extension) -> bool
    decreases a, 3nat,
{
    &&& a.base@ == b.base@
    &&& same_attributes(a.attributes@, b.attributes@)
    &&& a.sequences@.len() == b.sequences@.len()
    &&& forall|j: int| 0 <= j < a.sequences@.len() ==> same_sequence(#[trigger] a.sequences[j], b.sequences[j])
}

pub open spec fn same_content(a: ContentModel, b: ContentModel) -> bool
    decreases a, 4nat,
{
    match (a, b) {
        (ContentModel::Sequence(x), ContentModel::Sequence(y)) => same_sequence(x, y),
        (ContentModel::SimpleContent(x), ContentModel::SimpleContent(y)) => same_extension(x.extension, y.extension),
        (ContentModel::ComplexContent(x), ContentModel::ComplexContent(y)) => match (x.extension, y.extension) {
            (Some(p), Some(q)) => same_extension(p, q),
            (None, None) => true,
            _ => false,
        },
        _ => false,
    }
}

pub open spec fn same_complex_type(a: ComplexType, b: ComplexType) -> bool
    decreases a, 5nat,
{
    &&& a.name@ == b.name@
    &&& same_attributes(a.attributes@, b.attributes@)
    &&& same_annotation(a.annotation, b.annotation)
    &&& match (a.content, b.content) {
        (Some(x), Some(y)) => same_content(x, y),
        (None, None) => true,
        _ => false,
    }
}

pub open spec fn same_schema(a: Schema, b: Schema) -> bool {
    &&& opt_view(a.target_namespace) == opt_view(b.target_namespace)
    &&& a.element_form_default == b.element_form_default
    &&& a.attribute_form_default == b.attribute_form_default
    &&& a.imports@.len() == b.imports@.len()
    &&& forall|j: int| 0 <= j < a.imports@.len() ==> same_import(#[trigger] a.imports@[j], b.imports@[j])
    &&& a.includes@.len() == b.includes@.len()
    &&& forall|j: int| 0 <= j < a.includes@.len() ==> same_include(#[trigger] a.includes@[j], b.includes@[j])
    &&& a.elements@.len() == b.elements@.len()
    &&& forall|j: int| 0 <= j < a.elements@.len() ==> same_element(#[trigger] a.elements@[j], b.elements@[j])
    &&& a.simple_type@.len() == b.simple_type@.len()
    &&& forall|j: int| 0 <= j < a.simple_type@.len()
        ==> same_simple_type(#[trigger] a.simple_type@[j], b.simple_type@[j])
    &&& a.complex_type@.len() == b.complex_type@.len()
    &&& forall|j: int| 0 <= j < a.complex_type@.len()
        ==> same_complex_type(#[trigger] a.complex_type@[j], b.complex_type@[j])
    &&& same_attributes(a.attributes@, b.attributes@)
    &&& a.attribute_group@.len() == b.attribute_group@.len()
    &&& forall|j: int| 0 <= j < a.attribute_group@.len()
        ==> same_attribute_group(#[trigger] a.attribute_group@[j], b.attribute_group@[j])
    &&& same_annotation(a.annotation, b.annotation)
}

pub open spec fn same_import(a: Import, b: Import) -> bool {
    &&& opt_view(a.id) == opt_view(b.id)
    &&& opt_view(a.namespace) == opt_view(b.namespace)
    &&& opt_view(a.schema_location) == opt_view(b.schema_location)
}

pub open spec fn same_include(a: Include, b: Include) -> bool {
    opt_view(a.id) == opt_view(b.id) && opt_view(a.schema_location) == opt_view(b.schema_location)
}

pub open spec fn same_attribute_group(a: AttributeGroup, b: AttributeGroup) -> bool {
    &&& opt_view(a.name) == opt_view(b.name)
    &&& a.reference@ == b.reference@
    &&& same_attributes(a.attributes@, b.attributes@)
}

proof fn lemma_tag_names_differ()
    ensures
        "restriction"@ != "list"@,
        "restriction"@ != "union"@,
        "list"@ != "union"@,
        "sequence"@ != "simpleContent"@,
        "sequence"@ != "complexContent"@,
        "simpleContent"@ != "complexContent"@,
{
    reveal_strlit("restriction");
    reveal_strlit("list");
    reveal_strlit("union");
    reveal_strlit("sequence");
    reveal_strlit("simpleContent");
    reveal_strlit("complexContent");
    assert("restriction"@.len() != "list"@.len());
    assert("restriction"@.len() != "union"@.len());
    assert("list"@.len() != "union"@.len());
    assert("sequence"@[1] != "simpleContent"@[1]);
    assert("sequence"@[0] != "complexContent"@[0]);
    assert("simpleContent"@[0] != "complexContent"@[0]);
}

proof fn lemma_simple_type_unique(a: SimpleType, b: SimpleType, n: Node)
    requires
        simple_type_from(a, n),
        simple_type_from(b, n),
    ensures
        same_simple_type(a, b),
{
    lemma_tag_names_differ();
}

proof fn lemma_attributes_unique(a: Seq<Attribute>, b: Seq<Attribute>, ks: Seq<Node>)
    requires
        attributes_from(a, ks),
        attributes_from(b, ks),
    ensures
        same_attributes(a, b),
{
    assert forall|j: int| 0 <= j < a.len() implies same_attribute(#[trigger] a[j], b[j]) by {
        assert(attribute_from(a[j], ks[j]) && attribute_from(b[j], ks[j]));
        if let Some(c) = last_kid(ks[j], "simpleType"@) {
            lemma_simple_type_unique(a[j].simple_type->Some_0, b[j].simple_type->Some_0, c);
        }
        if let Some(u) = attr(ks[j], "use"@) {
            assert(required_of(u) == Some(a[j].required));
        }
    }
}

proof fn lemma_annotation_unique(a: Option<Annotation>, b: Option<Annotation>, n: Node)
    requires
        annotation_slot_from(a, n),
        annotation_slot_from(b, n),
    ensures
        same_annotation(a, b),
{
    if let Some(c) = last_kid(n, "annotation"@) {
        lemma_attributes_unique(a->Some_0.attributes@, b->Some_0.attributes@, kids(c, "attribute"@));
    }
}

proof fn lemma_element_unique(a: Element, b: Element, n: Node)
    requires
        element_from(a, n),
        element_from(b, n),
    ensures
        same_element(a, b),
    decreases n, 1nat,
{
    lemma_kids_decrease(n);
    if let Some(c) = last_kid(n, "complexType"@) {
        lemma_complex_type_unique(a.complex_type->Some_0, b.complex_type->Some_0, c);
    }
    if let Some(c) = last_kid(n, "simpleType"@) {
        lemma_simple_type_unique(a.simple_type->Some_0, b.simple_type->Some_0, c);
    }
    lemma_annotation_unique(a.annotation, b.annotation, n);
}

proof fn lemma_sequence_unique(a: Sequence, b: Sequence, n: Node)
    requires
        sequence_from(a, n),
        sequence_from(b, n),
    ensures
        same_sequence(a, b),
    decreases n, 2nat,
{
    lemma_kids_decrease(n);
    assert forall|j: int| 0 <= j < a.elements@.len() implies same_element(#[trigger] a.elements[j], b.elements[j]) by {
        lemma_element_unique(a.elements@[j], b.elements@[j], kids(n, "element"@)[j]);
    }
}

proof fn lemma_extension_unique(a: Extension, b: Extension, n: Node)
    requires
        extension_from(a, n),
        extension_from(b, n),
    ensures
        same_extension(a, b),
    decreases n, 3nat,
{
    lemma_kids_decrease(n);
    lemma_attributes_unique(a.attributes@, b.attributes@, kids(n, "attribute"@));
    assert forall|j: int| 0 <= j < a.sequences@.len() implies same_sequence(#[trigger] a.sequences[j], b.sequences[j]) by {
        lemma_sequence_unique(a.sequences@[j], b.sequences@[j], kids(n, "sequence"@)[j]);
    }
}

proof fn lemma_content_unique(a: ContentModel, b: ContentModel, k: Node)
    requires
        content_from(a, k),
        content_from(b, k),
    ensures
        same_content(a, b),
    decreases k, 4nat,
{
    lemma_kids_decrease(k);
    lemma_tag_names_differ();
    match (a, b) {
        (ContentModel::Sequence(x), ContentModel::Sequence(y)) => lemma_sequence_unique(x, y, k),
        (ContentModel::SimpleContent(x), ContentModel::SimpleContent(y)) => {
            lemma_extension_unique(x.extension, y.extension, last_kid(k, "extension"@)->Some_0);
        },
        (ContentModel::ComplexContent(x), ContentModel::ComplexContent(y)) => {
            if let Some(c) = last_kid(k, "extension"@) {
                lemma_extension_unique(x.extension->Some_0, y.extension->Some_0, c);
            }
        },
        _ => {},
    }
}

proof fn lemma_complex_type_unique(a: ComplexType, b: ComplexType, n: Node)
    requires
        complex_type_from(a, n),
        complex_type_from(b, n),
    ensures
        same_complex_type(a, b),
    decreases n, 5nat,
{
    lemma_kids_decrease(n);
    lemma_attributes_unique(a.attributes@, b.attributes@, kids(n, "attribute"@));
    lemma_annotation_unique(a.annotation, b.annotation, n);
    if let Some(k) = content_kid(n) {
        lemma_content_unique(a.content->Some_0, b.content->Some_0, k);
    }
}

/// Mapping one element tree twice gives two schemas that agree: whatever
/// `parse_schema_node` returns on a node is determined by that node.
pub proof fn lemma_schema_from_unique(a: Schema, b: Schema, n: Node)
    requires
        schema_from(a, n),
        schema_from(b, n),
    ensures
        same_schema(a, b),
{
    assert forall|j: int| 0 <= j < a.elements@.len() implies same_element(#[trigger] a.elements@[j], b.elements@[j]) by {
        lemma_element_unique(a.elements@[j], b.elements@[j], kids(n, "element"@)[j]);
    }
    assert forall|j: int| 0 <= j < a.simple_type@.len()
        implies same_simple_type(#[trigger] a.simple_type@[j], b.simple_type@[j]) by {
        lemma_simple_type_unique(a.simple_type@[j], b.simple_type@[j], kids(n, "simpleType"@)[j]);
    }
    assert forall|j: int| 0 <= j < a.complex_type@.len()
        implies same_complex_type(#[trigger] a.complex_type@[j], b.complex_type@[j]) by {
        lemma_complex_type_unique(a.complex_type@[j], b.complex_type@[j], kids(n, "complexType"@)[j]);
    }
    assert forall|j: int| 0 <= j < a.attribute_group@.len()
        implies same_attribute_group(#[trigger] a.attribute_group@[j], b.attribute_group@[j]) by {
        let k = kids(n, "attributeGroup"@)[j];
        assert(attribute_group_from(a.attribute_group@[j], k));
        assert(attribute_group_from(b.attribute_group@[j], k));
        lemma_attributes_unique(a.attribute_group@[j].attributes@, b.attribute_group@[j].attributes@, kids(k, "attribute"@));
    }
    lemma_attributes_unique(a.attributes@, b.attributes@, kids(n, "attribute"@));
    lemma_annotation_unique(a.annotation, b.annotation, n);
}

} // verus!
