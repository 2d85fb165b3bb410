//! Maps an element tree onto the schema object model. Each entity has one
//! function from its node: recognized attributes are read once (the last
//! of a name counts), children in the schema namespace are matched by local
//! name, and everything unrecognized is passed over. A list field takes every
//! matching child in document order; a singular field takes the last one.
//!
//! For each entity, `*_ok` says when its function succeeds and `*_from` what
//! it returns, down to the leaves of the tree. An error always names a defect
//! of the node or of an element inside it (`blames`): a missing attribute or
//! child, or an attribute value that its grammar rejects.
use vstd::prelude::*;
use crate::error::SchemaError;
use crate::grammar::{
    max_occurences_of, parse_max_occurences, parse_min_occurences, parse_qualification,
    parse_required, qualification_of, required_of, Qualification, Required,
};
use crate::model::{
    Annotation, Attribute, AttributeGroup, ComplexContent, ComplexType, ContentModel, Derivation,
    Element, Extension, Import, Include, List, Restriction, Schema, Sequence, SimpleContent,
    SimpleType, Union,
};
use crate::nodes::{
    blames, lemma_blames_child, lemma_blames_own, own_fault,
    attr, attr_value, is_missing, is_xsd, is_xsd_node, kid_indices, kids, kids_in, last_kid,
    last_of, lemma_kid_at, lemma_kids_decrease, lemma_kids_satisfy, lemma_kids_step, one_of,
    opt_attr, opt_view, required_attr, tag_is,
};
use crate::text::numeral_value;
use crate::tree::Node;

verus! {

broadcast use vstd::std_specs::vec::group_vec_axioms;

// Directives.

pub open spec fn import_from(r: Import, n: Node) -> bool {
    &&& opt_view(r.id) == attr(n, "id"@)
    &&& opt_view(r.namespace) == attr(n, "namespace"@)
    &&& opt_view(r.schema_location) == attr(n, "schemaLocation"@)
}

pub fn parse_import(n: &Node) -> (r: Import)
    ensures
        import_from(r, *n),
{
    Import {
        id: opt_attr(n, "id"),
        namespace: opt_attr(n, "namespace"),
        schema_location: opt_attr(n, "schemaLocation"),
    }
}

pub open spec fn include_from(r: Include, n: Node) -> bool {
    &&& opt_view(r.id) == attr(n, "id"@)
    &&& opt_view(r.schema_location) == attr(n, "schemaLocation"@)
}

pub fn parse_include(n: &Node) -> (r: Include)
    ensures
        include_from(r, *n),
{
    Include { id: opt_attr(n, "id"), schema_location: opt_attr(n, "schemaLocation") }
}

// Simple types.

/// The children that derive a simple type.
pub open spec fn derivation_kids(n: Node) -> Seq<Node> {
    kids_in(n.children@, one_of("restriction"@, "list"@, "union"@))
}

/// The child that decides how a simple type is derived: the last one.
pub open spec fn derivation_kid(n: Node) -> Option<Node> {
    last_of(derivation_kids(n))
}

pub open spec fn derivation_ok(c: Node) -> bool {
    is_xsd(c, "restriction"@) || attr(c, "itemType"@) is Some && is_xsd(c, "list"@)
        || attr(c, "memberTypes"@) is Some && is_xsd(c, "union"@)
}

pub open spec fn derivation_from(d: Derivation, c: Node) -> bool {
    match d {
        Derivation::Restriction(x) => is_xsd(c, "restriction"@) && opt_view(x.base) == attr(c, "base"@),
        Derivation::List(l) => is_xsd(c, "list"@) && attr(c, "itemType"@) == Some(l.item_type@),
        Derivation::Union(u) => is_xsd(c, "union"@) && attr(c, "memberTypes"@) == Some(u.member_types@),
    }
}

pub fn parse_restriction(n: &Node) -> (r: Restriction)
    ensures
        opt_view(r.base) == attr(*n, "base"@),
{
    Restriction { base: opt_attr(n, "base") }
}

pub fn parse_list(n: &Node) -> (r: Result<List, SchemaError>)
    ensures
        r matches Err(e) ==> blames(e, *n),
        match attr(*n, "itemType"@) {
            Some(v) => r matches Ok(l) && l.item_type@ == v,
            None => r matches Err(e) && is_missing(e, *n, "itemType"@),
        },
{
    Ok(List { item_type: required_attr(n, "itemType")? })
}

pub fn parse_union(n: &Node) -> (r: Result<Union, SchemaError>)
    ensures
        r matches Err(e) ==> blames(e, *n),
        match attr(*n, "memberTypes"@) {
            Some(v) => r matches Ok(u) && u.member_types@ == v,
            None => r matches Err(e) && is_missing(e, *n, "memberTypes"@),
        },
{
    Ok(Union { member_types: required_attr(n, "memberTypes")? })
}

pub open spec fn simple_type_ok(n: Node) -> bool {
    &&& attr(n, "name"@) is Some
    &&& forall|j: int| 0 <= j < derivation_kids(n).len() ==> derivation_ok(#[trigger] derivation_kids(n)[j])
}

pub open spec fn simple_type_from(s: SimpleType, n: Node) -> bool {
    &&& attr(n, "name"@) == Some(s.name@)
    &&& match derivation_kid(n) {
        Some(c) => s.derivation matches Some(d) && derivation_from(d, c),
        None => s.derivation is None,
    }
}

/// `<restriction>`, `<list>` or `<union>`.
fn parse_derivation(c: &Node) -> (r: Result<Derivation, SchemaError>)
    requires
        is_xsd(*c, "restriction"@) || is_xsd(*c, "list"@) || is_xsd(*c, "union"@),
    ensures
        r matches Err(e) ==> blames(e, *c),
        r is Ok <==> derivation_ok(*c),
        r matches Ok(d) ==> derivation_from(d, *c),
{
    proof {
        reveal_strlit("restriction");
        reveal_strlit("list");
        reveal_strlit("union");
        assert("list"@.len() != "union"@.len());
    }
    if is_xsd_node(c, "restriction") {
        Ok(Derivation::Restriction(parse_restriction(c)))
    } else if is_xsd_node(c, "list") {
        Ok(Derivation::List(parse_list(c)?))
    } else {
        Ok(Derivation::Union(parse_union(c)?))
    }
}

/// What the last `<restriction>`, `<list>` or `<union>` child of `n` gives, if any.
/// Every such child must be well formed.
fn derivation_slot(n: &Node) -> (r: Result<Option<Derivation>, SchemaError>)
    ensures
        r matches Err(e) ==> blames(e, *n),
        r is Ok <==> forall|j: int| 0 <= j < derivation_kids(*n).len() ==> derivation_ok(#[trigger] derivation_kids(*n)[j]),
        r matches Ok(o) ==> match last_of(derivation_kids(*n)) {
            Some(c) => o matches Some(x) && derivation_from(x, c),
            None => o is None,
        },
{
    proof {
        lemma_kids_satisfy(n.children@, one_of("restriction"@, "list"@, "union"@));
        lemma_kids_decrease(*n);
    }
    let ix = kid_indices(n, "restriction", "list", "union");
    let ghost ks = derivation_kids(*n);
    let mut o: Option<Derivation> = None;
    let mut j: usize = 0;
    while j < ix.len()
        invariant
            j <= ix.len(),
            ks == derivation_kids(*n),
            ks == kids_in(n.children@, one_of("restriction"@, "list"@, "union"@)),
            forall|k: int| 0 <= k < ks.len() ==> one_of("restriction"@, "list"@, "union"@)(#[trigger] ks[k]),
            ix@.len() == ks.len(),
            forall|k: int| 0 <= k < ix@.len() ==> #[trigger] ix@[k] < n.children.len()
                && n.children@[ix@[k] as int] == ks[k],
            forall|k: int| 0 <= k < j ==> derivation_ok(#[trigger] ks[k]),
            j == 0 ==> o is None,
            j > 0 ==> (o matches Some(x) && derivation_from(x, ks[j - 1])),
        decreases ix.len() - j,
    {
        assert(one_of("restriction"@, "list"@, "union"@)(ks[j as int]));
        match parse_derivation(&n.children[ix[j]]) {
            Ok(x) => o = Some(x),
            Err(e) => {
                assert(!derivation_ok(ks[j as int]));
                proof { lemma_blames_child(e, *n, ix@[j as int] as int); }
                return Err(e);
            },
        }
        j = j + 1;
    }
    Ok(o)
}

/// `<simpleType>`: a name and at most one derivation, the last one given.
pub fn parse_simple_type(n: &Node) -> (r: Result<SimpleType, SchemaError>)
    ensures
        r matches Err(e) ==> blames(e, *n),
        r is Ok <==> simple_type_ok(*n),
        r matches Ok(s) ==> simple_type_from(s, *n),
        attr(*n, "name"@) is None ==> (r matches Err(e) && is_missing(e, *n, "name"@)),
{
    let name = required_attr(n, "name")?;
    let derivation = derivation_slot(n)?;
    Ok(SimpleType { name, derivation })
}


/// What the last `<simpleType>` child of `n` gives, if any.
/// Every such child must be well formed.
fn simple_type_slot(n: &Node) -> (r: Result<Option<SimpleType>, SchemaError>)
    ensures
        r matches Err(e) ==> blames(e, *n),
        r is Ok <==> forall|j: int| 0 <= j < kids(*n, "simpleType"@).len() ==> simple_type_ok(#[trigger] kids(*n, "simpleType"@)[j]),
        r matches Ok(o) ==> match last_of(kids(*n, "simpleType"@)) {
            Some(c) => o matches Some(x) && simple_type_from(x, c),
            None => o is None,
        },
{
    proof {
        lemma_kids_satisfy(n.children@, one_of("simpleType"@, "simpleType"@, "simpleType"@));
        lemma_kids_decrease(*n);
    }
    let ix = kid_indices(n, "simpleType", "simpleType", "simpleType");
    let ghost ks = kids(*n, "simpleType"@);
    let mut o: Option<SimpleType> = None;
    let mut j: usize = 0;
    while j < ix.len()
        invariant
            j <= ix.len(),
            ks == kids(*n, "simpleType"@),
            ks == kids_in(n.children@, one_of("simpleType"@, "simpleType"@, "simpleType"@)),
            forall|k: int| 0 <= k < ks.len() ==> one_of("simpleType"@, "simpleType"@, "simpleType"@)(#[trigger] ks[k]),
            ix@.len() == ks.len(),
            forall|k: int| 0 <= k < ix@.len() ==> #[trigger] ix@[k] < n.children.len()
                && n.children@[ix@[k] as int] == ks[k],
            forall|k: int| 0 <= k < j ==> simple_type_ok(#[trigger] ks[k]),
            j == 0 ==> o is None,
            j > 0 ==> (o matches Some(x) && simple_type_from(x, ks[j - 1])),
        decreases ix.len() - j,
    {
        assert(one_of("simpleType"@, "simpleType"@, "simpleType"@)(ks[j as int]));
        match parse_simple_type(&n.children[ix[j]]) {
            Ok(x) => o = Some(x),
            Err(e) => {
                assert(!simple_type_ok(ks[j as int]));
                proof { lemma_blames_child(e, *n, ix@[j as int] as int); }
                return Err(e);
            },
        }
        j = j + 1;
    }
    Ok(o)
}

// Attributes.

pub open spec fn attribute_ok(n: Node) -> bool {
    &&& attr(n, "use"@) matches Some(u) ==> required_of(u) is Some
    &&& forall|j: int| 0 <= j < kids(n, "simpleType"@).len() ==> simple_type_ok(#[trigger] kids(n, "simpleType"@)[j])
}

pub open spec fn attribute_from(a: Attribute, n: Node) -> bool {
    &&& opt_view(a.name) == attr(n, "name"@)
    &&& opt_view(a.kind) == attr(n, "type"@)
    &&& opt_view(a.reference) == attr(n, "ref"@)
    &&& match attr(n, "use"@) {
        Some(u) => required_of(u) == Some(a.required),
        None => a.required == Required::Optional,
    }
    &&& match last_kid(n, "simpleType"@) {
        Some(c) => a.simple_type matches Some(s) && simple_type_from(s, c),
        None => a.simple_type is None,
    }
}

/// `<attribute>`: a usage that is absent reads as optional.
pub fn parse_attribute(n: &Node) -> (r: Result<Attribute, SchemaError>)
    ensures
        r matches Err(e) ==> blames(e, *n),
        r is Ok <==> attribute_ok(*n),
        r matches Ok(a) ==> attribute_from(a, *n),
{
    let required = match attr_value(n, "use") {
        Some(u) => match parse_required(u.as_str()) {
            Ok(x) => x,
            Err(e) => {
                proof { lemma_blames_own(e, *n); }
                return Err(e);
            },
        },
        None => Required::Optional,
    };
    let simple_type = simple_type_slot(n)?;
    Ok(Attribute {
        name: opt_attr(n, "name"),
        kind: opt_attr(n, "type"),
        required,
        reference: opt_attr(n, "ref"),
        simple_type,
    })
}

pub open spec fn attributes_ok(ks: Seq<Node>) -> bool {
    forall|j: int| 0 <= j < ks.len() ==> attribute_ok(#[trigger] ks[j])
}

pub open spec fn attributes_from(v: Seq<Attribute>, ks: Seq<Node>) -> bool {
    v.len() == ks.len() && forall|j: int| 0 <= j < ks.len() ==> attribute_from(#[trigger] v[j], ks[j])
}

/// The `<attribute>` children of `n`, in document order.
pub fn parse_attributes(n: &Node) -> (r: Result<Vec<Attribute>, SchemaError>)
    ensures
        r matches Err(e) ==> blames(e, *n),
        r is Ok <==> attributes_ok(kids(*n, "attribute"@)),
        r matches Ok(v) ==> attributes_from(v@, kids(*n, "attribute"@)),
{
    let ghost p = tag_is("attribute"@);
    let mut v: Vec<Attribute> = Vec::new();
    let mut i: usize = 0;
    while i < n.children.len()
        invariant
            i <= n.children.len(),
            p == tag_is("attribute"@),
            attributes_ok(kids_in(n.children@.take(i as int), p)),
            attributes_from(v@, kids_in(n.children@.take(i as int), p)),
        decreases n.children.len() - i,
    {
        proof { lemma_kids_step(n.children@, i as int, p); }
        let c = &n.children[i];
        if is_xsd_node(c, "attribute") {
            let a = match parse_attribute(c) {
                Ok(a) => a,
                Err(e) => {
                    proof {
                        lemma_kid_at(n.children@, i as int, p);
                        lemma_blames_child(e, *n, i as int);
                    }
                    return Err(e);
                },
            };
            v.push(a);
        }
        i = i + 1;
    }
    assert(n.children@.take(n.children.len() as int) == n.children@);
    Ok(v)
}

// Annotations and attribute groups.

pub open spec fn texts_from(v: Seq<String>, ks: Seq<Node>) -> bool {
    v.len() == ks.len() && forall|j: int| 0 <= j < ks.len() ==> (#[trigger] v[j])@ == ks[j].text@
}

/// The text of each `<documentation>` child of `n`, in document order.
fn documentation_of(n: &Node) -> (r: Vec<String>)
    ensures
        texts_from(r@, kids(*n, "documentation"@)),
{
    let ghost p = tag_is("documentation"@);
    let mut v: Vec<String> = Vec::new();
    let mut i: usize = 0;
    while i < n.children.len()
        invariant
            i <= n.children.len(),
            p == tag_is("documentation"@),
            texts_from(v@, kids_in(n.children@.take(i as int), p)),
        decreases n.children.len() - i,
    {
        proof { lemma_kids_step(n.children@, i as int, p); }
        let c = &n.children[i];
        if is_xsd_node(c, "documentation") {
            v.push(c.text.clone());
        }
        i = i + 1;
    }
    assert(n.children@.take(n.children.len() as int) == n.children@);
    v
}

pub open spec fn annotation_ok(n: Node) -> bool {
    attributes_ok(kids(n, "attribute"@))
}

pub open spec fn annotation_from(a: Annotation, n: Node) -> bool {
    &&& opt_view(a.id) == attr(n, "id"@)
    &&& attributes_from(a.attributes@, kids(n, "attribute"@))
    &&& texts_from(a.documentation@, kids(n, "documentation"@))
}

/// `<annotation>`: its id, attributes, and the text of its documentation.
pub fn parse_annotation(n: &Node) -> (r: Result<Annotation, SchemaError>)
    ensures
        r matches Err(e) ==> blames(e, *n),
        r is Ok <==> annotation_ok(*n),
        r matches Ok(a) ==> annotation_from(a, *n),
{
    let attributes = parse_attributes(n)?;
    Ok(Annotation { id: opt_attr(n, "id"), attributes, documentation: documentation_of(n) })
}

/// Every `<annotation>` child of `n` is well formed.
pub open spec fn annotation_slot_ok(n: Node) -> bool {
    forall|j: int| 0 <= j < kids(n, "annotation"@).len() ==> annotation_ok(#[trigger] kids(n, "annotation"@)[j])
}

/// The annotation of `n`: from its last `<annotation>` child, if any.
pub open spec fn annotation_slot_from(a: Option<Annotation>, n: Node) -> bool {
    match last_kid(n, "annotation"@) {
        Some(c) => a matches Some(x) && annotation_from(x, c),
        None => a is None,
    }
}

/// What the last `<annotation>` child of `n` gives, if any.
/// Every such child must be well formed.
fn annotation_slot(n: &Node) -> (r: Result<Option<Annotation>, SchemaError>)
    ensures
        r matches Err(e) ==> blames(e, *n),
        r is Ok <==> forall|j: int| 0 <= j < kids(*n, "annotation"@).len() ==> annotation_ok(#[trigger] kids(*n, "annotation"@)[j]),
        r matches Ok(o) ==> match last_of(kids(*n, "annotation"@)) {
            Some(c) => o matches Some(x) && annotation_from(x, c),
            None => o is None,
        },
{
    proof {
        lemma_kids_satisfy(n.children@, one_of("annotation"@, "annotation"@, "annotation"@));
        lemma_kids_decrease(*n);
    }
    let ix = kid_indices(n, "annotation", "annotation", "annotation");
    let ghost ks = kids(*n, "annotation"@);
    let mut o: Option<Annotation> = None;
    let mut j: usize = 0;
    while j < ix.len()
        invariant
            j <= ix.len(),
            ks == kids(*n, "annotation"@),
            ks == kids_in(n.children@, one_of("annotation"@, "annotation"@, "annotation"@)),
            forall|k: int| 0 <= k < ks.len() ==> one_of("annotation"@, "annotation"@, "annotation"@)(#[trigger] ks[k]),
            ix@.len() == ks.len(),
            forall|k: int| 0 <= k < ix@.len() ==> #[trigger] ix@[k] < n.children.len()
                && n.children@[ix@[k] as int] == ks[k],
            forall|k: int| 0 <= k < j ==> annotation_ok(#[trigger] ks[k]),
            j == 0 ==> o is None,
            j > 0 ==> (o matches Some(x) && annotation_from(x, ks[j - 1])),
        decreases ix.len() - j,
    {
        assert(one_of("annotation"@, "annotation"@, "annotation"@)(ks[j as int]));
        match parse_annotation(&n.children[ix[j]]) {
            Ok(x) => o = Some(x),
            Err(e) => {
                assert(!annotation_ok(ks[j as int]));
                proof { lemma_blames_child(e, *n, ix@[j as int] as int); }
                return Err(e);
            },
        }
        j = j + 1;
    }
    Ok(o)
}

pub open spec fn attribute_group_ok(n: Node) -> bool {
    &&& attr(n, "name"@) is Some || attr(n, "ref"@) is Some
    &&& attributes_ok(kids(n, "attribute"@))
}

pub open spec fn attribute_group_from(g: AttributeGroup, n: Node) -> bool {
    &&& opt_view(g.name) == attr(n, "name"@)
    &&& g.reference@ == match attr(n, "ref"@) {
        Some(v) => v,
        None => Seq::empty(),
    }
    &&& attributes_from(g.attributes@, kids(n, "attribute"@))
}

/// `<attributeGroup>`: a definition carries a `name`, a use a `ref`; one of
/// the two must be there.
pub fn parse_attribute_group(n: &Node) -> (r: Result<AttributeGroup, SchemaError>)
    ensures
        r matches Err(e) ==> blames(e, *n),
        r is Ok <==> attribute_group_ok(*n),
        r matches Ok(g) ==> attribute_group_from(g, *n),
        attr(*n, "name"@) is None && attr(*n, "ref"@) is None ==> (r matches Err(e) && is_missing(e, *n, "ref"@)),
{
    let name = opt_attr(n, "name");
    let reference = match attr_value(n, "ref") {
        Some(s) => s.clone(),
        None => {
            if name.is_none() {
                let e = SchemaError::MissingRequiredField { element: n.name.clone(), field: "ref".to_string() };
                proof { lemma_blames_own(e, *n); }
                return Err(e);
            }
            String::new()
        },
    };
    let attributes = parse_attributes(n)?;
    Ok(AttributeGroup { name, reference, attributes })
}

// Element declarations and complex types, which nest in one another.

pub open spec fn element_head_ok(n: Node) -> bool {
    &&& attr(n, "name"@) is Some
    &&& attr(n, "minOccurs"@) matches Some(s) ==> numeral_value(s, u64::MAX as nat) is Some
    &&& attr(n, "maxOccurs"@) matches Some(s) ==> max_occurences_of(s) is Some
}

/// The fields of an element that its own attributes give.
pub open spec fn element_head(e: Element, n: Node) -> bool {
    &&& attr(n, "name"@) == Some(e.name@)
    &&& opt_view(e.kind) == attr(n, "type"@)
    &&& opt_view(e.refers) == attr(n, "ref"@)
    &&& match attr(n, "minOccurs"@) {
        Some(s) => numeral_value(s, u64::MAX as nat) matches Some(v) && e.min_occurences == Some(v as u64),
        None => e.min_occurences is None,
    }
    &&& match attr(n, "maxOccurs"@) {
        Some(s) => max_occurences_of(s) matches Some(m) && e.max_occurences == Some(m),
        None => e.max_occurences is None,
    }
}

/// Every element declaration of the list is well formed, however deep.
pub open spec fn elements_ok(ks: Seq<Node>) -> bool {
    forall|j: int| 0 <= j < ks.len() ==> element_ok(#[trigger] ks[j])
}

/// A node that `parse_element` accepts.
pub open spec fn element_ok(n: Node) -> bool
    decreases n, 1nat,
{
    proof { lemma_kids_decrease(n); }
    &&& element_head_ok(n)
    &&& forall|j: int| 0 <= j < kids(n, "complexType"@).len() ==> complex_type_ok(#[trigger] kids(n, "complexType"@)[j])
    &&& forall|j: int| 0 <= j < kids(n, "simpleType"@).len() ==> simple_type_ok(#[trigger] kids(n, "simpleType"@)[j])
    &&& annotation_slot_ok(n)
}

/// What `parse_element` makes of a node: the whole declaration.
pub open spec fn element_from(e: Element, n: Node) -> bool
    decreases n, 1nat,
{
    proof { lemma_kids_decrease(n); }
    &&& element_head(e, n)
    &&& match last_kid(n, "complexType"@) {
        Some(c) => e.complex_type matches Some(t) && complex_type_from(t, c),
        None => e.complex_type is None,
    }
    &&& match last_kid(n, "simpleType"@) {
        Some(c) => e.simple_type matches Some(s) && simple_type_from(s, c),
        None => e.simple_type is None,
    }
    &&& annotation_slot_from(e.annotation, n)
}

pub open spec fn sequence_ok(n: Node) -> bool
    decreases n, 2nat,
{
    proof { lemma_kids_decrease(n); }
    forall|j: int| 0 <= j < kids(n, "element"@).len() ==> element_ok(#[trigger] kids(n, "element"@)[j])
}

/// A sequence holds one declaration for each `<element>` child, in document order.
pub open spec fn sequence_from(s: Sequence, n: Node) -> bool
    decreases n, 2nat,
{
    proof { lemma_kids_decrease(n); }
    &&& s.elements@.len() == kids(n, "element"@).len()
    &&& forall|j: int| 0 <= j < s.elements@.len()
        ==> element_from(#[trigger] s.elements@[j], kids(n, "element"@)[j])
}

pub open spec fn extension_ok(n: Node) -> bool
    decreases n, 3nat,
{
    proof { lemma_kids_decrease(n); }
    &&& attr(n, "base"@) is Some
    &&& attributes_ok(kids(n, "attribute"@))
    &&& forall|j: int| 0 <= j < kids(n, "sequence"@).len() ==> sequence_ok(#[trigger] kids(n, "sequence"@)[j])
}

pub open spec fn extension_from(x: Extension, n: Node) -> bool
    decreases n, 3nat,
{
    proof { lemma_kids_decrease(n); }
    &&& attr(n, "base"@) == Some(x.base@)
    &&& attributes_from(x.attributes@, kids(n, "attribute"@))
    &&& x.sequences@.len() == kids(n, "sequence"@).len()
    &&& forall|j: int| 0 <= j < x.sequences@.len()
        ==> sequence_from(#[trigger] x.sequences@[j], kids(n, "sequence"@)[j])
}

/// The children that give a complex type its content model.
pub open spec fn content_kids(n: Node) -> Seq<Node> {
    kids_in(n.children@, one_of("sequence"@, "simpleContent"@, "complexContent"@))
}

/// The child that gives a complex type its content model: the last one.
pub open spec fn content_kid(n: Node) -> Option<Node> {
    last_of(content_kids(n))
}

pub open spec fn content_ok(k: Node) -> bool
    decreases k, 4nat,
{
    proof { lemma_kids_decrease(k); }
    if is_xsd(k, "sequence"@) {
        sequence_ok(k)
    } else {
        &&& is_xsd(k, "simpleContent"@) ==> last_kid(k, "extension"@) is Some
        &&& forall|j: int| 0 <= j < kids(k, "extension"@).len() ==> extension_ok(#[trigger] kids(k, "extension"@)[j])
    }
}

pub open spec fn content_from(m: ContentModel, k: Node) -> bool
    decreases k, 4nat,
{
    proof { lemma_kids_decrease(k); }
    match m {
        ContentModel::Sequence(s) => is_xsd(k, "sequence"@) && sequence_from(s, k),
        ContentModel::SimpleContent(sc) => is_xsd(k, "simpleContent"@)
            && (last_kid(k, "extension"@) matches Some(x) && extension_from(sc.extension, x)),
        ContentModel::ComplexContent(cc) => is_xsd(k, "complexContent"@) && match last_kid(k, "extension"@) {
            Some(x) => cc.extension matches Some(e) && extension_from(e, x),
            None => cc.extension is None,
        },
    }
}

pub open spec fn complex_type_ok(n: Node) -> bool
    decreases n, 5nat,
{
    proof { lemma_kids_decrease(n); }
    &&& attr(n, "name"@) is Some
    &&& attributes_ok(kids(n, "attribute"@))
    &&& annotation_slot_ok(n)
    &&& forall|j: int| 0 <= j < content_kids(n).len() ==> content_ok(#[trigger] content_kids(n)[j])
}

pub open spec fn complex_type_from(t: ComplexType, n: Node) -> bool
    decreases n, 5nat,
{
    proof { lemma_kids_decrease(n); }
    &&& attr(n, "name"@) == Some(t.name@)
    &&& attributes_from(t.attributes@, kids(n, "attribute"@))
    &&& annotation_slot_from(t.annotation, n)
    &&& match content_kid(n) {
        Some(k) => t.content matches Some(m) && content_from(m, k),
        None => t.content is None,
    }
}

/// `<element>`: a name, a type or a reference, cardinalities, and an
/// inline type.
pub fn parse_element(n: &Node) -> (r: Result<Element, SchemaError>)
    ensures
        r matches Err(e) ==> blames(e, *n),
        r is Ok <==> element_ok(*n),
        r matches Ok(e) ==> element_from(e, *n),
        attr(*n, "name"@) is None ==> (r matches Err(e) && is_missing(e, *n, "name"@)),
    decreases n, 1nat,
{
    let name = required_attr(n, "name")?;
    let min_occurences = match attr_value(n, "minOccurs") {
        Some(s) => match parse_min_occurences(s.as_str()) {
            Ok(x) => Some(x),
            Err(e) => {
                proof { lemma_blames_own(e, *n); }
                return Err(e);
            },
        },
        None => None,
    };
    let max_occurences = match attr_value(n, "maxOccurs") {
        Some(s) => match parse_max_occurences(s.as_str()) {
            Ok(x) => Some(x),
            Err(e) => {
                proof { lemma_blames_own(e, *n); }
                return Err(e);
            },
        },
        None => None,
    };
    let complex_type = complex_type_slot(n)?;
    let simple_type = simple_type_slot(n)?;
    let annotation = annotation_slot(n)?;
    Ok(Element {
        name,
        kind: opt_attr(n, "type"),
        refers: opt_attr(n, "ref"),
        min_occurences,
        max_occurences,
        complex_type,
        simple_type,
        annotation,
    })
}

/// The `<element>` children of `n`, in document order.
fn elements_of(n: &Node) -> (r: Result<Vec<Element>, SchemaError>)
    ensures
        r matches Err(e) ==> blames(e, *n),
        r is Ok <==> elements_ok(kids(*n, "element"@)),
        r matches Ok(v) ==> v@.len() == kids(*n, "element"@).len() && forall|j: int|
            0 <= j < v@.len() ==> element_from(#[trigger] v@[j], kids(*n, "element"@)[j]),
    decreases n, 0nat,
{
    let ghost p = tag_is("element"@);
    let mut v: Vec<Element> = Vec::new();
    let mut i: usize = 0;
    while i < n.children.len()
        invariant
            i <= n.children.len(),
            p == tag_is("element"@),
            elements_ok(kids_in(n.children@.take(i as int), p)),
            v@.len() == kids_in(n.children@.take(i as int), p).len(),
            forall|j: int| 0 <= j < v@.len()
                ==> element_from(#[trigger] v@[j], kids_in(n.children@.take(i as int), p)[j]),
        decreases n.children.len() - i,
    {
        proof { lemma_kids_step(n.children@, i as int, p); }
        let c = &n.children[i];
        if is_xsd_node(c, "element") {
            let e = match parse_element(c) {
                Ok(e) => e,
                Err(e) => {
                    proof {
                        lemma_kid_at(n.children@, i as int, p);
                        lemma_blames_child(e, *n, i as int);
                    }
                    return Err(e);
                },
            };
            v.push(e);
        }
        i = i + 1;
    }
    assert(n.children@.take(n.children.len() as int) == n.children@);
    Ok(v)
}

/// `<sequence>`: its element declarations in content-model order.
pub fn parse_sequence(n: &Node) -> (r: Result<Sequence, SchemaError>)
    ensures
        r matches Err(e) ==> blames(e, *n),
        r is Ok <==> sequence_ok(*n),
        r matches Ok(s) ==> sequence_from(s, *n),
    decreases n, 2nat,
{
    Ok(Sequence { elements: elements_of(n)? })
}

/// The `<sequence>` children of `n`, in document order.
fn sequences_of(n: &Node) -> (r: Result<Vec<Sequence>, SchemaError>)
    ensures
        r matches Err(e) ==> blames(e, *n),
        r is Ok <==> forall|j: int| 0 <= j < kids(*n, "sequence"@).len() ==> sequence_ok(#[trigger] kids(*n, "sequence"@)[j]),
        r matches Ok(v) ==> v@.len() == kids(*n, "sequence"@).len() && forall|j: int|
            0 <= j < v@.len() ==> sequence_from(#[trigger] v@[j], kids(*n, "sequence"@)[j]),
    decreases n, 0nat,
{
    let ghost p = tag_is("sequence"@);
    let mut v: Vec<Sequence> = Vec::new();
    let mut i: usize = 0;
    while i < n.children.len()
        invariant
            i <= n.children.len(),
            p == tag_is("sequence"@),
            forall|j: int| 0 <= j < kids_in(n.children@.take(i as int), p).len()
                ==> sequence_ok(#[trigger] kids_in(n.children@.take(i as int), p)[j]),
            v@.len() == kids_in(n.children@.take(i as int), p).len(),
            forall|j: int| 0 <= j < v@.len()
                ==> sequence_from(#[trigger] v@[j], kids_in(n.children@.take(i as int), p)[j]),
        decreases n.children.len() - i,
    {
        proof { lemma_kids_step(n.children@, i as int, p); }
        let c = &n.children[i];
        if is_xsd_node(c, "sequence") {
            let s = match parse_sequence(c) {
                Ok(s) => s,
                Err(e) => {
                    proof {
                        lemma_kid_at(n.children@, i as int, p);
                        let m = kids_in(n.children@.take(i as int), p).len() as int;
                        assert(!sequence_ok(kids(*n, "sequence"@)[m]));
                        lemma_blames_child(e, *n, i as int);
                    }
                    return Err(e);
                },
            };
            v.push(s);
        }
        i = i + 1;
    }
    assert(n.children@.take(n.children.len() as int) == n.children@);
    Ok(v)
}

/// `<extension>`: a base type, with attributes and sequences added.
pub fn parse_extension(n: &Node) -> (r: Result<Extension, SchemaError>)
    ensures
        r matches Err(e) ==> blames(e, *n),
        r is Ok <==> extension_ok(*n),
        r matches Ok(x) ==> extension_from(x, *n),
        attr(*n, "base"@) is None ==> (r matches Err(e) && is_missing(e, *n, "base"@)),
    decreases n, 3nat,
{
    let base = required_attr(n, "base")?;
    let attributes = parse_attributes(n)?;
    let sequences = sequences_of(n)?;
    Ok(Extension { base, attributes, sequences })
}


/// What the last `<extension>` child of `n` gives, if any.
/// Every such child must be well formed.
fn extension_slot(n: &Node) -> (r: Result<Option<Extension>, SchemaError>)
    ensures
        r matches Err(e) ==> blames(e, *n),
        r is Ok <==> forall|j: int| 0 <= j < kids(*n, "extension"@).len() ==> extension_ok(#[trigger] kids(*n, "extension"@)[j]),
        r matches Ok(o) ==> match last_of(kids(*n, "extension"@)) {
            Some(c) => o matches Some(x) && extension_from(x, c),
            None => o is None,
        },
    decreases n, 0nat,
{
    proof {
        lemma_kids_satisfy(n.children@, one_of("extension"@, "extension"@, "extension"@));
        lemma_kids_decrease(*n);
    }
    let ix = kid_indices(n, "extension", "extension", "extension");
    let ghost ks = kids(*n, "extension"@);
    let mut o: Option<Extension> = None;
    let mut j: usize = 0;
    while j < ix.len()
        invariant
            j <= ix.len(),
            ks == kids(*n, "extension"@),
            ks == kids_in(n.children@, one_of("extension"@, "extension"@, "extension"@)),
            forall|k: int| 0 <= k < ks.len() ==> one_of("extension"@, "extension"@, "extension"@)(#[trigger] ks[k]),
            ix@.len() == ks.len(),
            forall|k: int| 0 <= k < ix@.len() ==> #[trigger] ix@[k] < n.children.len()
                && n.children@[ix@[k] as int] == ks[k],
            forall|k: int| 0 <= k < j ==> extension_ok(#[trigger] ks[k]),
            j == 0 ==> o is None,
            j > 0 ==> (o matches Some(x) && extension_from(x, ks[j - 1])),
        decreases ix.len() - j,
    {
        assert(one_of("extension"@, "extension"@, "extension"@)(ks[j as int]));
        match parse_extension(&n.children[ix[j]]) {
            Ok(x) => o = Some(x),
            Err(e) => {
                assert(!extension_ok(ks[j as int]));
                proof { lemma_blames_child(e, *n, ix@[j as int] as int); }
                return Err(e);
            },
        }
        j = j + 1;
    }
    Ok(o)
}

/// `<simpleContent>`: its `<extension>` must be there.
pub fn parse_simple_content(n: &Node) -> (r: Result<SimpleContent, SchemaError>)
    ensures
        r matches Err(e) ==> blames(e, *n),
        r is Ok <==> (last_kid(*n, "extension"@) is Some && forall|j: int| 0 <= j < kids(*n, "extension"@).len()
            ==> extension_ok(#[trigger] kids(*n, "extension"@)[j])),
        r matches Ok(sc) ==> (last_kid(*n, "extension"@) matches Some(x) && extension_from(sc.extension, x)),
        last_kid(*n, "extension"@) is None ==> (r matches Err(e) && is_missing(e, *n, "extension"@)),
    decreases n, 4nat,
{
    match extension_slot(n)? {
        Some(extension) => Ok(SimpleContent { extension }),
        None => {
            let e = SchemaError::MissingRequiredField { element: n.name.clone(), field: "extension".to_string() };
            proof { lemma_blames_own(e, *n); }
            Err(e)
        },
    }
}

/// `<complexContent>`.
pub fn parse_complex_content(n: &Node) -> (r: Result<ComplexContent, SchemaError>)
    ensures
        r matches Err(e) ==> blames(e, *n),
        r is Ok <==> forall|j: int| 0 <= j < kids(*n, "extension"@).len() ==> extension_ok(#[trigger] kids(*n, "extension"@)[j]),
        r matches Ok(cc) ==> match last_kid(*n, "extension"@) {
            Some(x) => cc.extension matches Some(e) && extension_from(e, x),
            None => cc.extension is None,
        },
    decreases n, 4nat,
{
    Ok(ComplexContent { extension: extension_slot(n)? })
}

/// `<sequence>`, `<simpleContent>` or `<complexContent>`.
fn parse_content(c: &Node) -> (r: Result<ContentModel, SchemaError>)
    requires
        is_xsd(*c, "sequence"@) || is_xsd(*c, "simpleContent"@) || is_xsd(*c, "complexContent"@),
    ensures
        r matches Err(e) ==> blames(e, *c),
        r is Ok <==> content_ok(*c),
        r matches Ok(m) ==> content_from(m, *c),
    decreases c, 5nat,
{
    proof {
        reveal_strlit("sequence");
        reveal_strlit("simpleContent");
        reveal_strlit("complexContent");
        assert("sequence"@[1] != "simpleContent"@[1]);
        assert("sequence"@[0] != "complexContent"@[0]);
        assert("simpleContent"@[0] != "complexContent"@[0]);
    }
    if is_xsd_node(c, "sequence") {
        Ok(ContentModel::Sequence(parse_sequence(c)?))
    } else if is_xsd_node(c, "simpleContent") {
        Ok(ContentModel::SimpleContent(parse_simple_content(c)?))
    } else {
        Ok(ContentModel::ComplexContent(parse_complex_content(c)?))
    }
}

/// What the last `<sequence>`, `<simpleContent>` or `<complexContent>` child of `n` gives, if any.
/// Every such child must be well formed.
fn content_slot(n: &Node) -> (r: Result<Option<ContentModel>, SchemaError>)
    ensures
        r matches Err(e) ==> blames(e, *n),
        r is Ok <==> forall|j: int| 0 <= j < content_kids(*n).len() ==> content_ok(#[trigger] content_kids(*n)[j]),
        r matches Ok(o) ==> match last_of(content_kids(*n)) {
            Some(c) => o matches Some(x) && content_from(x, c),
            None => o is None,
        },
    decreases n, 0nat,
{
    proof {
        lemma_kids_satisfy(n.children@, one_of("sequence"@, "simpleContent"@, "complexContent"@));
        lemma_kids_decrease(*n);
    }
    let ix = kid_indices(n, "sequence", "simpleContent", "complexContent");
    let ghost ks = content_kids(*n);
    let mut o: Option<ContentModel> = None;
    let mut j: usize = 0;
    while j < ix.len()
        invariant
            j <= ix.len(),
            ks == content_kids(*n),
            ks == kids_in(n.children@, one_of("sequence"@, "simpleContent"@, "complexContent"@)),
            forall|k: int| 0 <= k < ks.len() ==> one_of("sequence"@, "simpleContent"@, "complexContent"@)(#[trigger] ks[k]),
            ix@.len() == ks.len(),
            forall|k: int| 0 <= k < ix@.len() ==> #[trigger] ix@[k] < n.children.len()
                && n.children@[ix@[k] as int] == ks[k],
            forall|k: int| 0 <= k < j ==> content_ok(#[trigger] ks[k]),
            j == 0 ==> o is None,
            j > 0 ==> (o matches Some(x) && content_from(x, ks[j - 1])),
        decreases ix.len() - j,
    {
        assert(one_of("sequence"@, "simpleContent"@, "complexContent"@)(ks[j as int]));
        match parse_content(&n.children[ix[j]]) {
            Ok(x) => o = Some(x),
            Err(e) => {
                assert(!content_ok(ks[j as int]));
                proof { lemma_blames_child(e, *n, ix@[j as int] as int); }
                return Err(e);
            },
        }
        j = j + 1;
    }
    Ok(o)
}

/// What the last `<complexType>` child of `n` gives, if any.
/// Every such child must be well formed.
fn complex_type_slot(n: &Node) -> (r: Result<Option<ComplexType>, SchemaError>)
    ensures
        r matches Err(e) ==> blames(e, *n),
        r is Ok <==> forall|j: int| 0 <= j < kids(*n, "complexType"@).len() ==> complex_type_ok(#[trigger] kids(*n, "complexType"@)[j]),
        r matches Ok(o) ==> match last_of(kids(*n, "complexType"@)) {
            Some(c) => o matches Some(x) && complex_type_from(x, c),
            None => o is None,
        },
    decreases n, 0nat,
{
    proof {
        lemma_kids_satisfy(n.children@, one_of("complexType"@, "complexType"@, "complexType"@));
        lemma_kids_decrease(*n);
    }
    let ix = kid_indices(n, "complexType", "complexType", "complexType");
    let ghost ks = kids(*n, "complexType"@);
    let mut o: Option<ComplexType> = None;
    let mut j: usize = 0;
    while j < ix.len()
        invariant
            j <= ix.len(),
            ks == kids(*n, "complexType"@),
            ks == kids_in(n.children@, one_of("complexType"@, "complexType"@, "complexType"@)),
            forall|k: int| 0 <= k < ks.len() ==> one_of("complexType"@, "complexType"@, "complexType"@)(#[trigger] ks[k]),
            ix@.len() == ks.len(),
            forall|k: int| 0 <= k < ix@.len() ==> #[trigger] ix@[k] < n.children.len()
                && n.children@[ix@[k] as int] == ks[k],
            forall|k: int| 0 <= k < j ==> complex_type_ok(#[trigger] ks[k]),
            j == 0 ==> o is None,
            j > 0 ==> (o matches Some(x) && complex_type_from(x, ks[j - 1])),
        decreases ix.len() - j,
    {
        assert(one_of("complexType"@, "complexType"@, "complexType"@)(ks[j as int]));
        match parse_complex_type(&n.children[ix[j]]) {
            Ok(x) => o = Some(x),
            Err(e) => {
                assert(!complex_type_ok(ks[j as int]));
                proof { lemma_blames_child(e, *n, ix@[j as int] as int); }
                return Err(e);
            },
        }
        j = j + 1;
    }
    Ok(o)
}

/// `<complexType>`: a name, attributes, an annotation, and the last content
/// model given.
pub fn parse_complex_type(n: &Node) -> (r: Result<ComplexType, SchemaError>)
    ensures
        r matches Err(e) ==> blames(e, *n),
        r is Ok <==> complex_type_ok(*n),
        r matches Ok(t) ==> complex_type_from(t, *n),
        attr(*n, "name"@) is None ==> (r matches Err(e) && is_missing(e, *n, "name"@)),
    decreases n, 6nat,
{
    let name = required_attr(n, "name")?;
    let attributes = parse_attributes(n)?;
    let annotation = annotation_slot(n)?;
    let content = content_slot(n)?;
    Ok(ComplexType { name, attributes, content, annotation })
}

// The schema root.

pub open spec fn qualification_from(q: Qualification, v: Option<Seq<char>>) -> bool {
    match v {
        Some(s) => qualification_of(s) == Some(q),
        None => q == Qualification::Unqualified,
    }
}

pub open spec fn schema_head_ok(n: Node) -> bool {
    &&& attr(n, "elementFormDefault"@) matches Some(s) ==> qualification_of(s) is Some
    &&& attr(n, "attributeFormDefault"@) matches Some(s) ==> qualification_of(s) is Some
}

/// The fields of a schema that its own attributes give.
pub open spec fn schema_head(s: Schema, n: Node) -> bool {
    &&& opt_view(s.target_namespace) == attr(n, "targetNamespace"@)
    &&& qualification_from(s.element_form_default, attr(n, "elementFormDefault"@))
    &&& qualification_from(s.attribute_form_default, attr(n, "attributeFormDefault"@))
}

/// A node that `parse_schema_node` accepts.
pub open spec fn schema_ok(n: Node) -> bool {
    &&& schema_head_ok(n)
    &&& elements_ok(kids(n, "element"@))
    &&& forall|j: int| 0 <= j < kids(n, "simpleType"@).len() ==> simple_type_ok(#[trigger] kids(n, "simpleType"@)[j])
    &&& forall|j: int| 0 <= j < kids(n, "complexType"@).len() ==> complex_type_ok(#[trigger] kids(n, "complexType"@)[j])
    &&& attributes_ok(kids(n, "attribute"@))
    &&& forall|j: int| 0 <= j < kids(n, "attributeGroup"@).len()
        ==> attribute_group_ok(#[trigger] kids(n, "attributeGroup"@)[j])
    &&& annotation_slot_ok(n)
}

/// What `parse_schema_node` makes of a node: every declaration, each kind
/// in document order.
pub open spec fn schema_from(s: Schema, n: Node) -> bool {
    &&& schema_head(s, n)
    &&& s.imports@.len() == kids(n, "import"@).len()
    &&& forall|j: int| 0 <= j < s.imports@.len() ==> import_from(#[trigger] s.imports@[j], kids(n, "import"@)[j])
    &&& s.includes@.len() == kids(n, "include"@).len()
    &&& forall|j: int| 0 <= j < s.includes@.len() ==> include_from(#[trigger] s.includes@[j], kids(n, "include"@)[j])
    &&& s.elements@.len() == kids(n, "element"@).len()
    &&& forall|j: int| 0 <= j < s.elements@.len() ==> element_from(#[trigger] s.elements@[j], kids(n, "element"@)[j])
    &&& s.simple_type@.len() == kids(n, "simpleType"@).len()
    &&& forall|j: int| 0 <= j < s.simple_type@.len()
        ==> simple_type_from(#[trigger] s.simple_type@[j], kids(n, "simpleType"@)[j])
    &&& s.complex_type@.len() == kids(n, "complexType"@).len()
    &&& forall|j: int| 0 <= j < s.complex_type@.len()
        ==> complex_type_from(#[trigger] s.complex_type@[j], kids(n, "complexType"@)[j])
    &&& attributes_from(s.attributes@, kids(n, "attribute"@))
    &&& s.attribute_group@.len() == kids(n, "attributeGroup"@).len()
    &&& forall|j: int| 0 <= j < s.attribute_group@.len()
        ==> attribute_group_from(#[trigger] s.attribute_group@[j], kids(n, "attributeGroup"@)[j])
    &&& annotation_slot_from(s.annotation, n)
}

fn form_default(n: &Node, key: &str) -> (r: Result<Qualification, SchemaError>)
    requires
        key@ == "elementFormDefault"@ || key@ == "attributeFormDefault"@,
    ensures
        r matches Err(e) ==> blames(e, *n),
        r is Ok <==> (attr(*n, key@) matches Some(s) ==> qualification_of(s) is Some),
        r matches Ok(q) ==> qualification_from(q, attr(*n, key@)),
{
    match attr_value(n, key) {
        Some(s) => {
            let r = parse_qualification(s.as_str());
            proof {
                if r is Err {
                    assert(own_fault(r->Err_0, *n));
                    lemma_blames_own(r->Err_0, *n);
                }
            }
            r
        },
        None => Ok(Qualification::Unqualified),
    }
}

/// `<schema>`: every declaration and directive, each kind in document order.
pub fn parse_schema_node(n: &Node) -> (r: Result<Schema, SchemaError>)
    ensures
        r matches Err(e) ==> blames(e, *n),
        r is Ok <==> schema_ok(*n),
        r matches Ok(s) ==> schema_from(s, *n),
{
    proof {
        reveal_strlit("elementFormDefault");
        reveal_strlit("attributeFormDefault");
    }
    let element_form_default = form_default(n, "elementFormDefault")?;
    let attribute_form_default = form_default(n, "attributeFormDefault")?;

    let ix = kid_indices(n, "import", "import", "import");
    let mut imports: Vec<Import> = Vec::new();
    let mut j: usize = 0;
    while j < ix.len()
        invariant
            j <= ix.len(),
            ix@.len() == kids(*n, "import"@).len(),
            forall|k: int| 0 <= k < ix@.len() ==> #[trigger] ix@[k] < n.children.len()
                && n.children@[ix@[k] as int] == kids(*n, "import"@)[k],
            imports@.len() == j,
            forall|k: int| 0 <= k < j ==> import_from(#[trigger] imports@[k], kids(*n, "import"@)[k]),
        decreases ix.len() - j,
    {
        imports.push(parse_import(&n.children[ix[j]]));
        j = j + 1;
    }

    let ix = kid_indices(n, "include", "include", "include");
    let mut includes: Vec<Include> = Vec::new();
    let mut j: usize = 0;
    while j < ix.len()
        invariant
            j <= ix.len(),
            ix@.len() == kids(*n, "include"@).len(),
            forall|k: int| 0 <= k < ix@.len() ==> #[trigger] ix@[k] < n.children.len()
                && n.children@[ix@[k] as int] == kids(*n, "include"@)[k],
            includes@.len() == j,
            forall|k: int| 0 <= k < j ==> include_from(#[trigger] includes@[k], kids(*n, "include"@)[k]),
        decreases ix.len() - j,
    {
        includes.push(parse_include(&n.children[ix[j]]));
        j = j + 1;
    }

    let elements = elements_of(n)?;

    let ix = kid_indices(n, "simpleType", "simpleType", "simpleType");
    let mut simple_type: Vec<SimpleType> = Vec::new();
    let mut j: usize = 0;
    while j < ix.len()
        invariant
            j <= ix.len(),
            ix@.len() == kids(*n, "simpleType"@).len(),
            forall|k: int| 0 <= k < ix@.len() ==> #[trigger] ix@[k] < n.children.len()
                && n.children@[ix@[k] as int] == kids(*n, "simpleType"@)[k],
            simple_type@.len() == j,
            forall|k: int| 0 <= k < j ==> simple_type_ok(#[trigger] kids(*n, "simpleType"@)[k]),
            forall|k: int| 0 <= k < j ==> simple_type_from(#[trigger] simple_type@[k], kids(*n, "simpleType"@)[k]),
        decreases ix.len() - j,
    {
        match parse_simple_type(&n.children[ix[j]]) {
            Ok(x) => simple_type.push(x),
            Err(e) => {
                assert(!simple_type_ok(kids(*n, "simpleType"@)[j as int]));
                proof { lemma_blames_child(e, *n, ix@[j as int] as int); }
                return Err(e);
            },
        }
        j = j + 1;
    }

    let ix = kid_indices(n, "complexType", "complexType", "complexType");
    let mut complex_type: Vec<ComplexType> = Vec::new();
    let mut j: usize = 0;
    while j < ix.len()
        invariant
            j <= ix.len(),
            ix@.len() == kids(*n, "complexType"@).len(),
            forall|k: int| 0 <= k < ix@.len() ==> #[trigger] ix@[k] < n.children.len()
                && n.children@[ix@[k] as int] == kids(*n, "complexType"@)[k],
            complex_type@.len() == j,
            forall|k: int| 0 <= k < j ==> complex_type_ok(#[trigger] kids(*n, "complexType"@)[k]),
            forall|k: int| 0 <= k < j ==> complex_type_from(#[trigger] complex_type@[k], kids(*n, "complexType"@)[k]),
        decreases ix.len() - j,
    {
        match parse_complex_type(&n.children[ix[j]]) {
            Ok(x) => complex_type.push(x),
            Err(e) => {
                assert(!complex_type_ok(kids(*n, "complexType"@)[j as int]));
                proof { lemma_blames_child(e, *n, ix@[j as int] as int); }
                return Err(e);
            },
        }
        j = j + 1;
    }

    let attributes = parse_attributes(n)?;

    let ix = kid_indices(n, "attributeGroup", "attributeGroup", "attributeGroup");
    let mut attribute_group: Vec<AttributeGroup> = Vec::new();
    let mut j: usize = 0;
    while j < ix.len()
        invariant
            j <= ix.len(),
            ix@.len() == kids(*n, "attributeGroup"@).len(),
            forall|k: int| 0 <= k < ix@.len() ==> #[trigger] ix@[k] < n.children.len()
                && n.children@[ix@[k] as int] == kids(*n, "attributeGroup"@)[k],
            attribute_group@.len() == j,
            forall|k: int| 0 <= k < j ==> attribute_group_ok(#[trigger] kids(*n, "attributeGroup"@)[k]),
            forall|k: int| 0 <= k < j ==> attribute_group_from(#[trigger] attribute_group@[k], kids(*n, "attributeGroup"@)[k]),
        decreases ix.len() - j,
    {
        match parse_attribute_group(&n.children[ix[j]]) {
            Ok(x) => attribute_group.push(x),
            Err(e) => {
                assert(!attribute_group_ok(kids(*n, "attributeGroup"@)[j as int]));
                proof { lemma_blames_child(e, *n, ix@[j as int] as int); }
                return Err(e);
            },
        }
        j = j + 1;
    }

    let annotation = annotation_slot(n)?;
    Ok(Schema {
        target_namespace: opt_attr(n, "targetNamespace"),
        element_form_default,
        attribute_form_default,
        imports,
        includes,
        elements,
        simple_type,
        complex_type,
        attributes,
        attribute_group,
        annotation,
    })
}

} // verus!
