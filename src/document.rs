//! Whole documents: from XML text, through its events, to a `Schema`.
use vstd::prelude::*;
use xml::reader::{EventReader, XmlEvent};
use crate::dispatch::{parse_schema_node, schema_from, schema_ok};
use crate::nodes::{blames, is_xsd};
use crate::error::SchemaError;
use crate::model::Schema;
use crate::text::same_text;
use crate::tree::{balance, marks, opened_by, read_element, spells, Event, Node};

verus! {

/// `k` is the position of the first start event of `ev`.
pub open spec fn is_first_start(ev: Seq<Event>, k: int) -> bool {
    &&& 0 <= k < ev.len()
    &&& ev[k] is Start
    &&& forall|j: int| 0 <= j < k ==> !(#[trigger] ev[j] is Start)
}

/// `ev` has no start event at all.
pub open spec fn has_no_element(ev: Seq<Event>) -> bool {
    forall|j: int| 0 <= j < ev.len() ==> !(#[trigger] ev[j] is Start)
}

/// The first element of `ev` is never closed.
pub open spec fn root_unclosed(ev: Seq<Event>) -> bool {
    exists|k: int| #[trigger] is_first_start(ev, k) && forall|p: int| k < p <= ev.len()
        ==> balance(marks(#[trigger] ev.subrange(k, p))) >= 1
}

/// The first element of `ev` is not `schema` in the XML Schema namespace.
pub open spec fn root_not_schema(ev: Seq<Event>) -> bool {
    exists|k: int, root: Node| #[trigger] is_first_start(ev, k) && #[trigger] opened_by(root, ev[k])
        && !is_xsd(root, "schema"@)
}

/// `s` is what the schema element of `ev` maps to: the first element is
/// `schema`, its run of events spells a tree that is well formed, and `s`
/// is that tree's schema.
pub open spec fn schema_of_events(ev: Seq<Event>, s: Schema) -> bool {
    exists|k: int, next: int, root: Node| {
        &&& #[trigger] is_first_start(ev, k)
        &&& k < next <= ev.len()
        &&& #[trigger] spells(ev, k, next, root)
        &&& is_xsd(root, "schema"@)
        &&& schema_ok(root)
        &&& schema_from(s, root)
    }
}

/// `e` is a reason for `ev` not to give a schema: the document has no
/// element, its first element is not closed or is not `schema`, or that
/// element spells a tree that is not well formed and `e` names a defect in it.
pub open spec fn failure_of_events(ev: Seq<Event>, e: SchemaError) -> bool {
    ||| e is UnexpectedStructure && (has_no_element(ev) || root_unclosed(ev) || root_not_schema(ev))
    ||| exists|k: int, next: int, root: Node| {
        &&& #[trigger] is_first_start(ev, k)
        &&& k < next <= ev.len()
        &&& #[trigger] spells(ev, k, next, root)
        &&& is_xsd(root, "schema"@)
        &&& !schema_ok(root)
        &&& blames(e, root)
    }
}

/// Reads a schema from the events of a document. The first element of the
/// document must be `schema` in the XML Schema namespace.
pub fn parse_schema_events(ev: &Vec<Event>) -> (r: Result<Schema, SchemaError>)
    ensures
        has_no_element(ev@) ==> (r matches Err(e) && e is UnexpectedStructure),
        root_unclosed(ev@) ==> (r matches Err(e) && e is UnexpectedStructure),
        root_not_schema(ev@) ==> (r matches Err(e) && e is UnexpectedStructure),
        r matches Ok(s) ==> schema_of_events(ev@, s),
        r matches Err(e) ==> failure_of_events(ev@, e),
{
    let mut k: usize = 0;
    while k < ev.len() && !matches!(ev[k], Event::Start { .. })
        invariant
            k <= ev.len(),
            forall|j: int| 0 <= j < k ==> !(#[trigger] ev@[j] is Start),
        decreases ev.len() - k,
    {
        k = k + 1;
    }
    if k == ev.len() {
        proof {
            assert(!root_unclosed(ev@));
            assert(!root_not_schema(ev@));
        }
        return Err(SchemaError::UnexpectedStructure { message: "the document has no element".to_string() });
    }
    assert(is_first_start(ev@, k as int));
    assert forall|k2: int| is_first_start(ev@, k2) implies k2 == k by {
        if k2 < k {
            assert(!(ev@[k2] is Start));
        } else if k2 > k {
            assert(!(ev@[k as int] is Start));
        }
    }
    assert(!has_no_element(ev@)) by {
        assert(ev@[k as int] is Start);
    }
    let (root, next) = match read_element(ev, k) {
        Ok(x) => x,
        Err(e) => {
            assert(root_unclosed(ev@));
            return Err(e);
        },
    };
    assert(!root_unclosed(ev@)) by {
        let p = choose|p: int| k < p <= ev@.len() && balance(marks(#[trigger] ev@.subrange(k as int, p))) == 0;
        assert(balance(marks(ev@.subrange(k as int, p))) == 0);
    }
    let is_schema = match &root.namespace {
        Some(ns) => same_text(root.name.as_str(), "schema")
            && same_text(ns.as_str(), "http://www.w3.org/2001/XMLSchema"),
        None => false,
    };
    if !is_schema {
        proof {
            assert(root_not_schema(ev@)) by {
                assert(is_first_start(ev@, k as int) && opened_by(root, ev@[k as int]));
            }
        }
        return Err(SchemaError::UnexpectedStructure { message: "the root element is not an XML Schema schema".to_string() });
    }
    assert(!root_not_schema(ev@));
    let r = parse_schema_node(&root);
    proof {
        assert(is_first_start(ev@, k as int) && spells(ev@, k as int, next as int, root));
    }
    r
}

/// The events that xml-rs reads from a document's text, when it is well formed.
pub uninterp spec fn xml_events_of(text: Seq<char>) -> Seq<Event>;

/// Whether xml-rs reads a document's text to the end without an error.
pub uninterp spec fn xml_well_formed(text: Seq<char>) -> bool;

/// Relies on xml-rs's `EventReader` over a string: the document's events in
/// order, each element name resolved against its namespace declarations, or
/// the reader's message where the text is not well-formed XML. The events
/// depend on the text alone, and so does whether the reader fails.
#[verifier::external_body]
fn read_xml_events(text: &str) -> (r: Result<Vec<Event>, String>)
    ensures
        r is Ok <==> xml_well_formed(text@),
        r matches Ok(v) ==> v@ == xml_events_of(text@),
{
    let mut out = Vec::new();
    for ev in EventReader::from_str(text) {
        out.push(match ev.map_err(|e| e.to_string())? {
            XmlEvent::StartElement { name, attributes, .. } => Event::Start {
                name: name.local_name,
                namespace: name.namespace,
                attributes: attributes.into_iter().map(|a| (a.name.local_name, a.value)).collect(),
            },
            XmlEvent::EndElement { .. } => Event::End,
            XmlEvent::Characters(t) | XmlEvent::CData(t) | XmlEvent::Whitespace(t) => Event::Text(t),
            _ => Event::Other,
        });
    }
    Ok(out)
}

/// Reads a schema from the text of an XSD document. Text that is not
/// well-formed XML fails with `MalformedXml`; otherwise the result is that
/// of `parse_schema_events` on the document's events.
pub fn parse_schema(text: &str) -> (r: Result<Schema, SchemaError>)
    ensures
        !xml_well_formed(text@) ==> (r matches Err(e) && e is MalformedXml),
        xml_well_formed(text@) ==> match r {
            Ok(s) => schema_of_events(xml_events_of(text@), s),
            Err(e) => failure_of_events(xml_events_of(text@), e),
        },
        xml_well_formed(text@) && has_no_element(xml_events_of(text@)) ==> (r matches Err(e) && e is UnexpectedStructure),
        xml_well_formed(text@) && root_unclosed(xml_events_of(text@)) ==> (r matches Err(e) && e is UnexpectedStructure),
        xml_well_formed(text@) && root_not_schema(xml_events_of(text@)) ==> (r matches Err(e) && e is UnexpectedStructure),
{
    match read_xml_events(text) {
        Ok(ev) => parse_schema_events(&ev),
        Err(message) => Err(SchemaError::MalformedXml { message }),
    }
}

} // verus!
