//! Reading an element tree: children of the schema namespace picked by
//! local name, and attribute values by name.
use vstd::prelude::*;
use crate::error::SchemaError;
use crate::grammar::{max_occurences_of, qualification_of, required_of};
use crate::text::{numeral_value, same_text};
use crate::tree::Node;

verus! {

broadcast use vstd::std_specs::vec::group_vec_axioms;

/// The namespace of XML Schema.
pub open spec fn xsd_namespace() -> Seq<char> {
    "http://www.w3.org/2001/XMLSchema"@
}

/// The node is an element of the schema namespace with local name `tag`.
pub open spec fn is_xsd(c: Node, tag: Seq<char>) -> bool {
    c.name@ == tag && (c.namespace matches Some(ns) && ns@ == xsd_namespace())
}

/// Nodes of the schema namespace named one of three local names.
pub open spec fn one_of(a: Seq<char>, b: Seq<char>, c: Seq<char>) -> spec_fn(Node) -> bool {
    |x: Node| is_xsd(x, a) || is_xsd(x, b) || is_xsd(x, c)
}

/// Nodes of the schema namespace named `tag`.
pub open spec fn tag_is(tag: Seq<char>) -> spec_fn(Node) -> bool {
    one_of(tag, tag, tag)
}

/// The nodes of `cs` that satisfy `p`, in their order.
pub open spec fn kids_in(cs: Seq<Node>, p: spec_fn(Node) -> bool) -> Seq<Node>
    decreases cs.len(),
{
    if cs.len() == 0 {
        Seq::empty()
    } else {
        let k = kids_in(cs.drop_last(), p);
        if p(cs.last()) {
            k.push(cs.last())
        } else {
            k
        }
    }
}

/// The children of `n` in the schema namespace named `tag`, in document order.
pub open spec fn kids(n: Node, tag: Seq<char>) -> Seq<Node> {
    kids_in(n.children@, tag_is(tag))
}

/// The last node of a sequence, if any.
pub open spec fn last_of(s: Seq<Node>) -> Option<Node> {
    if s.len() == 0 {
        None
    } else {
        Some(s.last())
    }
}

/// The last child of `n` named `tag`: the one a singular field takes.
pub open spec fn last_kid(n: Node, tag: Seq<char>) -> Option<Node> {
    last_of(kids(n, tag))
}

/// The value of the last attribute named `key` among `attrs`.
pub open spec fn attr_in(attrs: Seq<(String, String)>, key: Seq<char>) -> Option<Seq<char>>
    decreases attrs.len(),
{
    if attrs.len() == 0 {
        None
    } else if attrs.last().0@ == key {
        Some(attrs.last().1@)
    } else {
        attr_in(attrs.drop_last(), key)
    }
}

/// The value of the attribute `key` of `n`.
pub open spec fn attr(n: Node, key: Seq<char>) -> Option<Seq<char>> {
    attr_in(n.attributes@, key)
}

pub open spec fn opt_view(o: Option<String>) -> Option<Seq<char>> {
    match o {
        Some(s) => Some(s@),
        None => None,
    }
}

/// The error for a required attribute or child `field` that `n` lacks.
pub open spec fn is_missing(e: SchemaError, n: Node, field: Seq<char>) -> bool {
    e matches SchemaError::MissingRequiredField { element, field: f } && element@ == n.name@
        && f@ == field
}

pub(crate) proof fn lemma_kids_step(cs: Seq<Node>, i: int, p: spec_fn(Node) -> bool)
    requires
        0 <= i < cs.len(),
    ensures
        kids_in(cs.take(i + 1), p) == if p(cs[i]) {
            kids_in(cs.take(i), p).push(cs[i])
        } else {
            kids_in(cs.take(i), p)
        },
{
    assert(cs.take(i + 1).drop_last() == cs.take(i));
}

pub(crate) proof fn lemma_kids_prefix(cs: Seq<Node>, i: int, p: spec_fn(Node) -> bool)
    requires
        0 <= i <= cs.len(),
    ensures
        kids_in(cs.take(i), p).len() <= kids_in(cs, p).len(),
        forall|j: int| 0 <= j < kids_in(cs.take(i), p).len()
            ==> #[trigger] kids_in(cs.take(i), p)[j] == kids_in(cs, p)[j],
    decreases cs.len(),
{
    if i == cs.len() {
        assert(cs.take(i) == cs);
    } else {
        let d = cs.drop_last();
        assert(cs.take(i) == d.take(i));
        lemma_kids_prefix(d, i, p);
    }
}

/// A child that `p` accepts, at index `i`, stands in `kids_in(cs, p)` at the
/// index that counts the accepted ones before it.
pub(crate) proof fn lemma_kid_at(cs: Seq<Node>, i: int, p: spec_fn(Node) -> bool)
    requires
        0 <= i < cs.len(),
        p(cs[i]),
    ensures
        kids_in(cs.take(i), p).len() < kids_in(cs, p).len(),
        kids_in(cs, p)[kids_in(cs.take(i), p).len() as int] == cs[i],
{
    lemma_kids_step(cs, i, p);
    lemma_kids_prefix(cs, i + 1, p);
    let k = kids_in(cs.take(i + 1), p);
    assert(k[k.len() - 1] == cs[i]);
}

pub(crate) proof fn lemma_kids_satisfy(cs: Seq<Node>, p: spec_fn(Node) -> bool)
    ensures
        forall|j: int| 0 <= j < kids_in(cs, p).len() ==> p(#[trigger] kids_in(cs, p)[j]),
    decreases cs.len(),
{
    if cs.len() > 0 {
        let d = cs.drop_last();
        lemma_kids_satisfy(d, p);
        let k = kids_in(d, p);
        assert forall|j: int| 0 <= j < kids_in(cs, p).len() implies p(#[trigger] kids_in(cs, p)[j]) by {
            if j < k.len() {
                assert(kids_in(cs, p)[j] == k[j]);
            }
        }
    }
}

pub(crate) proof fn lemma_kids_in_members(cs: Seq<Node>, p: spec_fn(Node) -> bool, j: int)
    requires
        0 <= j < kids_in(cs, p).len(),
    ensures
        exists|i: int| 0 <= i < cs.len() && cs[i] == kids_in(cs, p)[j],
    decreases cs.len(),
{
    let d = cs.drop_last();
    let k = kids_in(d, p);
    if j < k.len() {
        lemma_kids_in_members(d, p, j);
        let i = choose|i: int| 0 <= i < d.len() && d[i] == k[j];
        assert(cs[i] == kids_in(cs, p)[j]);
    } else {
        assert(cs[cs.len() - 1] == kids_in(cs, p)[j]);
    }
}

/// Every child that a filter keeps is smaller than its parent.
pub proof fn lemma_kids_decrease(n: Node)
    ensures
        forall|p: spec_fn(Node) -> bool, j: int| 0 <= j < kids_in(n.children@, p).len()
            ==> decreases_to!(n => #[trigger] kids_in(n.children@, p)[j]),
{
    assert forall|p: spec_fn(Node) -> bool, j: int| 0 <= j < kids_in(n.children@, p).len()
        implies decreases_to!(n => #[trigger] kids_in(n.children@, p)[j]) by {
        lemma_kids_in_members(n.children@, p, j);
        let i = choose|i: int| 0 <= i < n.children@.len() && n.children@[i] == kids_in(n.children@, p)[j];
        assert(decreases_to!(n.children => n.children[i]));
    }
}

pub(crate) fn is_xsd_node(c: &Node, tag: &str) -> (r: bool)
    ensures
        r == is_xsd(*c, tag@),
{
    match &c.namespace {
        Some(ns) => same_text(c.name.as_str(), tag) && same_text(ns.as_str(), "http://www.w3.org/2001/XMLSchema"),
        None => false,
    }
}

/// The indices of the children of `n` named one of the three tags, in
/// document order.
pub(crate) fn kid_indices(n: &Node, a: &str, b: &str, c: &str) -> (r: Vec<usize>)
    ensures
        r@.len() == kids_in(n.children@, one_of(a@, b@, c@)).len(),
        forall|j: int| 0 <= j < r@.len() ==> #[trigger] r@[j] < n.children.len()
            && n.children@[r@[j] as int] == kids_in(n.children@, one_of(a@, b@, c@))[j],
{
    let ghost p = one_of(a@, b@, c@);
    let mut r: Vec<usize> = Vec::new();
    let mut i: usize = 0;
    while i < n.children.len()
        invariant
            i <= n.children.len(),
            p == one_of(a@, b@, c@),
            r@.len() == kids_in(n.children@.take(i as int), p).len(),
            forall|j: int| 0 <= j < r@.len() ==> #[trigger] r@[j] < n.children.len()
                && n.children@[r@[j] as int] == kids_in(n.children@.take(i as int), p)[j],
        decreases n.children.len() - i,
    {
        proof { lemma_kids_step(n.children@, i as int, p); }
        let ch = &n.children[i];
        if is_xsd_node(ch, a) || is_xsd_node(ch, b) || is_xsd_node(ch, c) {
            r.push(i);
        }
        i = i + 1;
    }
    assert(n.children@.take(n.children.len() as int) == n.children@);
    r
}

/// The value of the last attribute of `n` named `key`.
pub(crate) fn attr_value<'a>(n: &'a Node, key: &str) -> (r: Option<&'a String>)
    ensures
        opt_view(match r { Some(s) => Some(*s), None => None }) == attr(*n, key@),
{
    let mut i: usize = n.attributes.len();
    assert(n.attributes@.take(i as int) == n.attributes@);
    while i > 0
        invariant
            i <= n.attributes.len(),
            attr_in(n.attributes@.take(i as int), key@) == attr(*n, key@),
        decreases i,
    {
        let ghost t = n.attributes@.take(i as int);
        assert(t.drop_last() == n.attributes@.take(i - 1));
        if same_text(n.attributes[i - 1].0.as_str(), key) {
            return Some(&n.attributes[i - 1].1);
        }
        i = i - 1;
    }
    assert(n.attributes@.take(0) == Seq::<(String, String)>::empty());
    None
}

pub(crate) fn opt_attr(n: &Node, key: &str) -> (r: Option<String>)
    ensures
        opt_view(r) == attr(*n, key@),
{
    match attr_value(n, key) {
        Some(s) => Some(s.clone()),
        None => None,
    }
}

pub(crate) fn required_attr(n: &Node, key: &str) -> (r: Result<String, SchemaError>)
    ensures
        match attr(*n, key@) {
            Some(v) => r matches Ok(s) && s@ == v,
            None => r matches Err(e) && is_missing(e, *n, key@),
        },
        r matches Err(e) ==> blames(e, *n),
{
    match attr_value(n, key) {
        Some(s) => Ok(s.clone()),
        None => {
            let e = SchemaError::MissingRequiredField { element: n.name.clone(), field: key.to_owned() };
            proof { lemma_blames_own(e, *n); }
            Err(e)
        },
    }
}

/// `e` names a defect of `d` itself: a required attribute or child that it
/// lacks, or one of its attribute values that its grammar rejects.
pub open spec fn own_fault(e: SchemaError, d: Node) -> bool {
    match e {
        SchemaError::MissingRequiredField { element, field } => element@ == d.name@
            && (attr(d, field@) is None || kids(d, field@).len() == 0),
        SchemaError::MalformedScalar { value } => {
            ||| attr(d, "minOccurs"@) == Some(value@) && numeral_value(value@, u64::MAX as nat) is None
            ||| attr(d, "maxOccurs"@) == Some(value@) && max_occurences_of(value@) is None
        },
        SchemaError::UnrecognizedEnumValue { value } => {
            ||| attr(d, "use"@) == Some(value@) && required_of(value@) is None
            ||| attr(d, "elementFormDefault"@) == Some(value@) && qualification_of(value@) is None
            ||| attr(d, "attributeFormDefault"@) == Some(value@) && qualification_of(value@) is None
        },
        _ => false,
    }
}

/// The element reached from `n` by following child indices; an index out of
/// range stays where it is.
pub open spec fn at(n: Node, path: Seq<int>) -> Node
    decreases path.len(),
{
    if path.len() == 0 {
        n
    } else if 0 <= path[0] < n.children@.len() {
        at(n.children@[path[0]], path.subrange(1, path.len() as int))
    } else {
        n
    }
}

/// `e` names a defect of `n` or of an element inside it.
pub open spec fn blames(e: SchemaError, n: Node) -> bool {
    exists|path: Seq<int>| own_fault(e, #[trigger] at(n, path))
}

/// A defect inside a child is a defect inside its parent.
pub proof fn lemma_blames_child(e: SchemaError, n: Node, i: int)
    requires
        0 <= i < n.children@.len(),
        blames(e, n.children@[i]),
    ensures
        blames(e, n),
{
    let p = choose|path: Seq<int>| own_fault(e, #[trigger] at(n.children@[i], path));
    let q = seq![i] + p;
    assert(q.subrange(1, q.len() as int) == p);
    assert(at(n, q) == at(n.children@[i], p));
}

/// A defect of a node itself is a defect inside it.
pub proof fn lemma_blames_own(e: SchemaError, n: Node)
    requires
        own_fault(e, n),
    ensures
        blames(e, n),
{
    assert(at(n, Seq::<int>::empty()) == n);
}

} // verus!
