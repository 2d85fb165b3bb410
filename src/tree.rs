//! Namespace-resolved XML events, and the element tree that they spell.
use vstd::prelude::*;
use crate::error::SchemaError;

verus! {

/// One event of a namespace-aware XML reader, in document order.
#[derive(Clone, Debug)]
pub enum Event {
    /// An element opens: its local name, its resolved namespace, and its
    /// attributes as local-name / value pairs.
    Start { name: String, namespace: Option<String>, attributes: Vec<(String, String)> },
    /// The innermost open element closes.
    End,
    /// Character data.
    Text(String),
    /// Anything the object model does not read (comments, whitespace,
    /// processing instructions, document boundaries).
    Other,
}

/// One element and everything inside it.
#[derive(Debug)]
pub struct Node {
    pub name: String,
    pub namespace: Option<String>,
    pub attributes: Vec<(String, String)>,
    pub children: Vec<Node>,
    /// The element's own character data, joined in document order.
    pub text: String,
}

broadcast use vstd::std_specs::vec::group_vec_axioms, vstd::seq::group_seq_axioms;

/// The element structure of an event: an element opens, with its name,
/// namespace and attributes, or one closes.
pub enum Mark {
    Open(String, Option<String>, Seq<(String, String)>),
    Close,
}

/// The element structure of a run of events: text and other events dropped.
pub open spec fn marks(ev: Seq<Event>) -> Seq<Mark>
    decreases ev.len(),
{
    if ev.len() == 0 {
        Seq::empty()
    } else {
        marks(ev.drop_last()) + match ev.last() {
            Event::Start { name, namespace, attributes } => seq![Mark::Open(name, namespace, attributes@)],
            Event::End => seq![Mark::Close],
            _ => Seq::empty(),
        }
    }
}

/// The element structure that a node stands for: it opens, its children
/// follow in order, and it closes.
pub open spec fn render(n: Node) -> Seq<Mark>
    decreases n,
{
    seq![Mark::Open(n.name, n.namespace, n.attributes@)] + render_all(n.children@) + seq![Mark::Close]
}

pub open spec fn render_all(cs: Seq<Node>) -> Seq<Mark>
    decreases cs,
{
    if cs.len() == 0 {
        Seq::empty()
    } else {
        render_all(cs.drop_last()) + render(cs.last())
    }
}

proof fn lemma_marks_concat(a: Seq<Event>, b: Seq<Event>)
    ensures
        marks(a + b) == marks(a) + marks(b),
    decreases b.len(),
{
    if b.len() == 0 {
        assert(a + b == a);
        assert(marks(b) == Seq::<Mark>::empty());
        assert(marks(a) + marks(b) == marks(a));
    } else {
        lemma_marks_concat(a, b.drop_last());
        assert((a + b).drop_last() == a + b.drop_last());
        assert((a + b).last() == b.last());
        let m = match b.last() {
            Event::Start { name, namespace, attributes } => seq![Mark::Open(name, namespace, attributes@)],
            Event::End => seq![Mark::Close],
            _ => Seq::empty(),
        };
        assert(marks(a + b) == marks(a + b.drop_last()) + m);
        assert(marks(b) == marks(b.drop_last()) + m);
        assert(marks(a) + marks(b.drop_last()) + m == marks(a) + (marks(b.drop_last()) + m));
    }
}

/// Opened elements less closed ones.
pub open spec fn balance(m: Seq<Mark>) -> int
    decreases m.len(),
{
    if m.len() == 0 {
        0
    } else {
        balance(m.drop_last()) + match m.last() {
            Mark::Open(..) => 1int,
            Mark::Close => -1int,
        }
    }
}

/// The characters of the text events that stand directly inside the
/// element that `ev` opens with: those read while exactly one element is open.
pub open spec fn own_text(ev: Seq<Event>) -> Seq<char>
    decreases ev.len(),
{
    if ev.len() == 0 {
        Seq::empty()
    } else {
        own_text(ev.drop_last()) + match ev.last() {
            Event::Text(t) => if balance(marks(ev.drop_last())) == 1 {
                t@
            } else {
                Seq::empty()
            },
            _ => Seq::empty(),
        }
    }
}

proof fn lemma_balance_concat(a: Seq<Mark>, b: Seq<Mark>)
    ensures
        balance(a + b) == balance(a) + balance(b),
    decreases b.len(),
{
    if b.len() == 0 {
        assert(a + b == a);
    } else {
        lemma_balance_concat(a, b.drop_last());
        assert((a + b).drop_last() == a + b.drop_last());
        assert((a + b).last() == b.last());
    }
}

/// A rendered node is balanced, and no prefix of it closes more than it opens;
/// a nonempty proper prefix leaves the node itself open.
proof fn lemma_render_balance(n: Node)
    ensures
        balance(render(n)) == 0,
        forall|p: int| 0 < p < render(n).len() ==> balance(#[trigger] render(n).take(p)) >= 1,
    decreases n,
{
    let r = render_all(n.children@);
    lemma_render_all_balance(n.children@);
    let o = seq![Mark::Open(n.name, n.namespace, n.attributes@)];
    let c = seq![Mark::Close];
    assert(render(n) == o + r + c);
    lemma_balance_concat(o, r);
    lemma_balance_concat(o + r, c);
    assert(balance(o) == 1) by {
        assert(o.drop_last() == Seq::<Mark>::empty());
        assert(balance(o.drop_last()) == 0);
        assert(o.last() == Mark::Open(n.name, n.namespace, n.attributes@));
    }
    assert(balance(c) == -1) by {
        assert(c.drop_last() == Seq::<Mark>::empty());
        assert(balance(c.drop_last()) == 0);
        assert(c.last() == Mark::Close);
    }
    assert forall|p: int| 0 < p < render(n).len() implies balance(#[trigger] render(n).take(p)) >= 1 by {
        assert(render(n).take(p) == o + r.take(p - 1));
        lemma_balance_concat(o, r.take(p - 1));
        if p - 1 < r.len() {
            if p - 1 > 0 {
                assert(balance(r.take(p - 1)) >= 0);
            } else {
                assert(r.take(0) == Seq::<Mark>::empty());
            }
        } else {
            assert(r.take(p - 1) == r);
        }
    }
}

proof fn lemma_render_all_balance(cs: Seq<Node>)
    ensures
        balance(render_all(cs)) == 0,
        forall|p: int| 0 < p < render_all(cs).len() ==> balance(#[trigger] render_all(cs).take(p)) >= 0,
    decreases cs,
{
    if cs.len() > 0 {
        let a = render_all(cs.drop_last());
        let b = render(cs.last());
        lemma_render_all_balance(cs.drop_last());
        lemma_render_balance(cs.last());
        lemma_balance_concat(a, b);
        assert forall|p: int| 0 < p < render_all(cs).len() implies balance(#[trigger] render_all(cs).take(p)) >= 0 by {
            if p < a.len() {
                assert(render_all(cs).take(p) == a.take(p));
            } else if p == a.len() {
                assert(render_all(cs).take(p) == a);
            } else {
                assert(render_all(cs).take(p) == a + b.take(p - a.len()));
                lemma_balance_concat(a, b.take(p - a.len()));
            }
        }
    }
}

proof fn lemma_marks_one(s: Seq<Event>)
    requires
        s.len() == 1,
    ensures
        s[0] is Start ==> marks(s).len() == 1,
        s[0] is End ==> marks(s).len() == 1,
{
    assert(s.drop_last() == Seq::<Event>::empty());
    assert(marks(s.drop_last()) == Seq::<Mark>::empty());
    assert(s.last() == s[0]);
}

/// Every nonempty prefix of a child's run leaves at least as many elements
/// opened as closed.
proof fn lemma_run_prefix_balance(seg: Seq<Event>, child: Node, q: int)
    requires
        marks(seg) == render(child),
        seg.len() > 0,
        seg[0] is Start,
        seg.last() is End,
        0 < q <= seg.len(),
    ensures
        balance(marks(seg.take(q))) >= 0,
{
    lemma_render_balance(child);
    if q == seg.len() {
        assert(seg.take(q) == seg);
    } else {
        let mj = marks(seg.take(q));
        let rest = seg.skip(q);
        assert(seg == seg.take(q) + rest);
        lemma_marks_concat(seg.take(q), rest);
        assert(seg.take(q) == seg.take(1) + seg.subrange(1, q));
        lemma_marks_concat(seg.take(1), seg.subrange(1, q));
        lemma_marks_one(seg.take(1));
        assert(rest.last() == seg.last());
        assert(marks(rest) == marks(rest.drop_last()) + seq![Mark::Close]);
        assert(0 < mj.len() < render(child).len());
        assert(render(child).take(mj.len() as int) == mj);
    }
}

/// Text inside a child element is not the parent's own text.
proof fn lemma_own_text_skips(before: Seq<Event>, seg: Seq<Event>, child: Node, j: int)
    requires
        balance(marks(before)) == 1,
        marks(seg) == render(child),
        seg.len() > 0,
        seg[0] is Start,
        seg.last() is End,
        0 <= j <= seg.len(),
    ensures
        own_text(before + seg.take(j)) == own_text(before),
    decreases j,
{
    lemma_render_balance(child);
    if j == 0 {
        assert(before + seg.take(0) == before);
    } else {
        let k = j - 1;
        lemma_own_text_skips(before, seg, child, k);
        let x = before + seg.take(j);
        assert(x.drop_last() == before + seg.take(k));
        assert(x.last() == seg[k]);
        if seg[k] is Text {
            let mj = marks(seg.take(k));
            let rest = seg.skip(k);
            assert(seg == seg.take(k) + rest);
            lemma_marks_concat(seg.take(k), rest);
            assert(k >= 1);
            assert(seg.take(k) == seg.take(1) + seg.subrange(1, k));
            lemma_marks_concat(seg.take(1), seg.subrange(1, k));
            lemma_marks_one(seg.take(1));
            assert(rest == rest.drop_last() + rest.take(0).push(rest.last()));
            assert(rest.last() == seg.last());
            assert(marks(rest) == marks(rest.drop_last()) + seq![Mark::Close]);
            assert(0 < mj.len() < render(child).len());
            assert(render(child).take(mj.len() as int) == mj);
            assert(balance(render(child).take(mj.len() as int)) >= 1);
            lemma_marks_concat(before, seg.take(k));
            lemma_balance_concat(marks(before), mj);
        }
    }
}

/// `sp` holds, in order and without overlap, a run of events strictly
/// inside `ev[a..b)` for each child of `n`.
pub open spec fn child_runs(a: int, b: int, n: Node, sp: Seq<(int, int)>) -> bool {
    &&& sp.len() == n.children@.len()
    &&& forall|j: int| 0 <= j < sp.len() ==> a < (#[trigger] sp[j]).0 < sp[j].1 < b
    &&& forall|j: int| 0 < j < sp.len() ==> (#[trigger] sp[j - 1]).1 <= sp[j].0
}

/// `ev[a..b)` is the run of events of element `n`: it has the structure of
/// `n` and its own text, and each child of `n`, in order, has a run of its own
/// inside it, recursively.
pub open spec fn spells(ev: Seq<Event>, a: int, b: int, n: Node) -> bool
    decreases n,
{
    &&& 0 <= a < b <= ev.len()
    &&& marks(ev.subrange(a, b)) == render(n)
    &&& n.text@ == own_text(ev.subrange(a, b))
    &&& exists|sp: Seq<(int, int)>| #[trigger] child_runs(a, b, n, sp)
        && forall|j: int| 0 <= j < sp.len() ==> spells(ev, (#[trigger] sp[j]).0, sp[j].1, n.children[j])
}

/// The node agrees with the start event at `pos`: same name, namespace and
/// attributes.
pub open spec fn opened_by(n: Node, ev: Event) -> bool {
    ev matches Event::Start { name, namespace, attributes } && n.name == name
        && n.namespace == namespace && n.attributes@ == attributes@
}

fn copy_attributes(a: &Vec<(String, String)>) -> (r: Vec<(String, String)>)
    ensures
        r@ == a@,
{
    let mut r: Vec<(String, String)> = Vec::new();
    let mut i: usize = 0;
    while i < a.len()
        invariant
            i <= a.len(),
            r@ == a@.take(i as int),
        decreases a.len() - i,
    {
        r.push((a[i].0.clone(), a[i].1.clone()));
        assert(a@.take(i + 1) == a@.take(i as int).push(a@[i as int]));
        i = i + 1;
    }
    assert(a@.take(a.len() as int) == a@);
    r
}

/// Reads the element that opens at `pos`, up to and including the event
/// that closes it, and returns it with the position just past that event.
/// Fails when the events end while the element is still open.
pub fn read_element(ev: &Vec<Event>, pos: usize) -> (r: Result<(Node, usize), SchemaError>)
    requires
        pos < ev.len(),
        ev[pos as int] is Start,
    ensures
        match r {
            Ok((n, next)) => {
                &&& pos < next <= ev.len()
                &&& opened_by(n, ev[pos as int])
                &&& ev[next - 1] is End
                &&& marks(ev@.subrange(pos as int, next as int)) == render(n)
                &&& n.text@ == own_text(ev@.subrange(pos as int, next as int))
                &&& spells(ev@, pos as int, next as int, n)
            },
            Err(e) => e is UnexpectedStructure && forall|p: int| pos < p <= ev.len()
                ==> balance(marks(#[trigger] ev@.subrange(pos as int, p))) >= 1,
        },
        r is Ok <==> exists|p: int| pos < p <= ev.len() && balance(marks(#[trigger] ev@.subrange(pos as int, p))) == 0,
    decreases ev.len() - pos,
{
    let (name, namespace, attributes) = match &ev[pos] {
        Event::Start { name, namespace, attributes } => (name.clone(), namespace.clone(), copy_attributes(attributes)),
        _ => {
            return Err(SchemaError::UnexpectedStructure { message: "an element was expected".to_string() });
        },
    };
    let mut node = Node { name, namespace, attributes, children: Vec::new(), text: String::new() };
    let ghost head = seq![Mark::Open(node.name, node.namespace, node.attributes@)];
    proof {
        let s = ev@.subrange(pos as int, pos + 1);
        assert(s.drop_last() == Seq::<Event>::empty());
        assert(s.last() == ev@[pos as int]);
        assert(marks(s.drop_last()) == Seq::<Mark>::empty());
        assert(Seq::<Mark>::empty() + head == head);
        assert(marks(s) == head);
        assert(render_all(node.children@) == Seq::<Mark>::empty());
        assert(marks(s) == head + render_all(node.children@));
        assert(own_text(s.drop_last()) == Seq::<char>::empty());
        assert(own_text(s) == Seq::<char>::empty());
        assert(head.drop_last() == Seq::<Mark>::empty());
        assert(balance(head.drop_last()) == 0);
        assert(balance(marks(s)) == 1);
    }
    let ghost mut sp: Seq<(int, int)> = Seq::empty();
    let mut i: usize = pos + 1;
    while i < ev.len()
        invariant
            pos < i <= ev.len(),
            opened_by(node, ev[pos as int]),
            head == seq![Mark::Open(node.name, node.namespace, node.attributes@)],
            marks(ev@.subrange(pos as int, i as int)) == head + render_all(node.children@),
            node.text@ == own_text(ev@.subrange(pos as int, i as int)),
            forall|p: int| pos < p <= i ==> balance(marks(#[trigger] ev@.subrange(pos as int, p))) >= 1,
            child_runs(pos as int, i + 1, node, sp),
            forall|j: int| 0 <= j < sp.len() ==> (#[trigger] sp[j]).1 <= i,
            forall|j: int| 0 <= j < sp.len() ==> spells(ev@, (#[trigger] sp[j]).0, sp[j].1, node.children[j]),
        decreases ev.len() - i,
    {
        let ghost before = ev@.subrange(pos as int, i as int);
        let ghost cs = node.children@;
        let ghost text_before = node.text@;
        proof {
            lemma_render_all_balance(cs);
            lemma_balance_concat(head, render_all(cs));
            assert(head.drop_last() == Seq::<Mark>::empty());
            assert(balance(head.drop_last()) == 0);
            assert(balance(marks(before)) == 1);
        }
        match &ev[i] {
            Event::Start { .. } => {
                let (child, next) = match read_element(ev, i) {
                    Ok(x) => x,
                    Err(e) => {
                        proof {
                            assert forall|p: int| pos < p <= ev.len()
                                implies balance(marks(#[trigger] ev@.subrange(pos as int, p))) >= 1 by {
                                if p > i {
                                    assert(ev@.subrange(pos as int, p) == before + ev@.subrange(i as int, p));
                                    lemma_marks_concat(before, ev@.subrange(i as int, p));
                                    lemma_balance_concat(marks(before), marks(ev@.subrange(i as int, p)));
                                }
                            }
                        }
                        return Err(e);
                    },
                };
                node.children.push(child);
                proof {
                    let old_sp = sp;
                    sp = sp.push((i as int, next as int));
                    assert(node.children@.drop_last() == cs);
                    assert forall|j: int| 0 <= j < sp.len()
                        implies spells(ev@, (#[trigger] sp[j]).0, sp[j].1, node.children[j]) by {
                        if j < old_sp.len() {
                            assert(sp[j] == old_sp[j]);
                            assert(node.children[j] == cs[j]);
                        }
                    }
                    assert forall|j: int| 0 < j < sp.len() implies (#[trigger] sp[j - 1]).1 <= sp[j].0 by {
                        if j < old_sp.len() {
                            assert(sp[j] == old_sp[j]);
                            assert(sp[j - 1] == old_sp[j - 1]);
                        } else {
                            assert(sp[j - 1] == old_sp[j - 1]);
                        }
                    }
                    let seg = ev@.subrange(i as int, next as int);
                    assert(ev@.subrange(pos as int, next as int) == before + seg);
                    lemma_marks_concat(before, seg);
                    assert(node.children@.drop_last() == cs);
                    assert(render_all(node.children@) == render_all(cs) + render(child));
                    assert(head + render_all(cs) + render(child) == head + (render_all(cs) + render(child)));
                    assert(seg[0] == ev@[i as int]);
                    assert(seg.last() == ev@[next - 1]);
                    lemma_own_text_skips(before, seg, child, seg.len() as int);
                    assert forall|p: int| pos < p <= next
                        implies balance(marks(#[trigger] ev@.subrange(pos as int, p))) >= 1 by {
                        if p > i {
                            assert(ev@.subrange(i as int, p) == seg.take(p - i));
                            assert(ev@.subrange(pos as int, p) == before + seg.take(p - i));
                            lemma_marks_concat(before, seg.take(p - i));
                            lemma_balance_concat(marks(before), marks(seg.take(p - i)));
                            lemma_run_prefix_balance(seg, child, p - i);
                        }
                    }
                    assert(seg.take(seg.len() as int) == seg);
                }
                i = next;
            },
            Event::End => {
                proof {
                    let after = ev@.subrange(pos as int, i + 1);
                    assert(after.drop_last() == before);
                    assert(marks(after) == marks(before) + seq![Mark::Close]);
                    assert(head + render_all(cs) + seq![Mark::Close] == render(node));
                    assert(own_text(after) == own_text(before));
                    assert(child_runs(pos as int, i + 1, node, sp));
                    lemma_render_balance(node);
                    assert(balance(marks(ev@.subrange(pos as int, i + 1))) == 0);
                }
                return Ok((node, i + 1));
            },
            Event::Text(t) => {
                node.text.append(t.as_str());
                proof {
                    let after = ev@.subrange(pos as int, i + 1);
                    assert(after.drop_last() == before);
                    assert(after.last() == ev@[i as int]);
                    assert(own_text(after) == text_before + t@);
                    assert(marks(after) == marks(before) + Seq::<Mark>::empty());
                    assert(marks(before) + Seq::<Mark>::empty() == marks(before));
                }
                i = i + 1;
            },
            Event::Other => {
                proof {
                    let after = ev@.subrange(pos as int, i + 1);
                    assert(after.drop_last() == before);
                    assert(after.last() == ev@[i as int]);
                    assert(own_text(after) == own_text(before));
                    assert(marks(after) == marks(before) + Seq::<Mark>::empty());
                    assert(marks(before) + Seq::<Mark>::empty() == marks(before));
                }
                i = i + 1;
            },
        }
    }
    Err(SchemaError::UnexpectedStructure { message: "an element is not closed".to_string() })
}

} // verus!
