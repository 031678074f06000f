//! Operations over a whole subtree: flattened node lists, concatenated text
//! content, and the namespace declarations a subtree needs from outside
//! itself to be serialized standalone.

use vstd::prelude::*;
use crate::document::{Document, Node, nodes_view, clone_node};
use crate::element::Element;
use crate::model::{DocV, NodeV, valid_id, subtree_fuel,
    lemma_subtree_fuel_pos, lemma_subtree_fuel_child, elem_children};
use crate::ns::spec_resolve;
use crate::order::name_prefix;
use crate::strmap::{Smap, Sset, has_key, val_of, has_elem, lemma_set_of_has_elem};

verus! {

// ------------------------------------------------------------------
// Flattened node lists
// ------------------------------------------------------------------
/// All nodes of the given children list, depth first: each node, followed by
/// its own subtree when it is an element.
pub open spec fn desc_nodes(d: DocV, s: Seq<NodeV>, fuel: nat) -> Seq<NodeV>
    decreases fuel, s.len(),
{
    if s.len() == 0 {
        Seq::empty()
    } else {
        desc_nodes(d, s.drop_last(), fuel) + seq![s.last()] + (match s.last() {
            NodeV::Elem(e) => if fuel == 0 || !valid_id(d, e) {
                Seq::empty()
            } else {
                desc_nodes(d, d.elems[e].children, (fuel - 1) as nat)
            },
            _ => Seq::empty(),
        })
    }
}

/// The flattened subtree below element `i`.
pub open spec fn spec_descendants(d: DocV, i: int) -> Seq<NodeV> {
    desc_nodes(d, d.elems[i].children, subtree_fuel(d, i))
}

// ------------------------------------------------------------------
// Text content
// ------------------------------------------------------------------
/// The concatenated text of a children list: text, CDATA and processing
/// instruction content, elements recursively, nothing else.
pub open spec fn text_of_nodes(d: DocV, s: Seq<NodeV>, fuel: nat) -> Seq<char>
    decreases fuel, s.len(),
{
    if s.len() == 0 {
        Seq::empty()
    } else {
        text_of_nodes(d, s.drop_last(), fuel) + (match s.last() {
            NodeV::Text(t) => t,
            NodeV::CData(t) => t,
            NodeV::PI(t) => t,
            NodeV::Elem(e) => if fuel == 0 || !valid_id(d, e) {
                Seq::empty()
            } else {
                text_of_nodes(d, d.elems[e].children, (fuel - 1) as nat)
            },
            _ => Seq::empty(),
        })
    }
}

/// The text content of element `i`.
pub open spec fn spec_text_content(d: DocV, i: int) -> Seq<char> {
    text_of_nodes(d, d.elems[i].children, subtree_fuel(d, i))
}

/// Appends the text content of `e`'s children to `buf`.
#[verifier::loop_isolation(false)]
fn build_text(doc: &Document, e: Element, buf: &mut String)
    requires
        doc.wf(),
        valid_id(doc@, e@),
    ensures
        final(buf)@ == old(buf)@ + text_of_nodes(
            doc@,
            doc@.elems[e@].children,
            subtree_fuel(doc@, e@),
        ),
    decreases subtree_fuel(doc@, e@),
{
    let ghost d = doc@;
    let ghost fuel = subtree_fuel(d, e@);
    let ghost cs = d.elems[e@].children;
    proof {
        lemma_subtree_fuel_pos(d, e@);
    }
    let kids = e.children(doc);
    let n = kids.len();
    let mut i: usize = 0;
    while i < n
        invariant
            0 <= i <= n,
            buf@ == old(buf)@ + text_of_nodes(d, cs.take(i as int), fuel),
        decreases n - i,
    {
        proof {
            assert(cs.take(i as int + 1).drop_last() =~= cs.take(i as int));
            assert(cs.take(i as int + 1).last() == cs[i as int]);
        }
        match &kids[i] {
            Node::Text(t) => {
                buf.append(t.as_str());
            },
            Node::CData(t) => {
                buf.append(t.as_str());
            },
            Node::PI(t) => {
                buf.append(t.as_str());
            },
            Node::Element(c) => {
                proof {
                    assert(cs[i as int] == NodeV::Elem(c@));
                    assert(d.elems[e@].children[i as int] is Elem);
                    assert(0 < c@ < d.elems.len());
                    lemma_subtree_fuel_child(d, e@, c@);
                }
                build_text(doc, *c, buf);
            },
            Node::Comment(_) => {
            },
            Node::DocType(_) => {
            },
        }
        i = i + 1;
    }
    proof {
        assert(cs.take(n as int) =~= cs);
    }
}

impl Element {
    /// The concatenated text of this element's subtree: text, CDATA and
    /// processing instruction content, in document order.
    pub fn text_content(&self, doc: &Document) -> (r: String)
        requires
            doc.wf(),
            valid_id(doc@, self@),
        ensures
            r@ == spec_text_content(doc@, self@),
    {
        let mut buf = String::new();
        build_text(doc, *self, &mut buf);
        buf
    }

    /// Replaces all children with a single text node holding `text`.
    pub fn set_text_content(&self, doc: &mut Document, text: &str)
        requires
            old(doc).wf(),
            valid_id(old(doc)@, self@),
        ensures
            final(doc).wf(),
            final(doc)@ == crate::model::attach_tr(
                crate::model::clear_tr(old(doc)@, self@),
                self@,
                0,
                NodeV::Text(text@),
            ),
    {
        let _ = self.clear_children(doc);
        let r = self.push_child(doc, Node::Text(text.to_owned()));
    }
}

impl Node {
    /// The text content of one node: its own content for text, CDATA and
    /// processing instructions, the subtree text for an element, nothing
    /// for comments and doctypes.
    pub fn text_content(&self, doc: &Document) -> (r: String)
        requires
            doc.wf(),
            self@ is Elem ==> valid_id(doc@, self@->Elem_0),
        ensures
            match self {
                Node::Element(e) => r@ == spec_text_content(doc@, e@),
                Node::Text(t) => r@ == t@,
                Node::CData(t) => r@ == t@,
                Node::PI(t) => r@ == t@,
                _ => r@ == Seq::<char>::empty(),
            },
    {
        match self {
            Node::Element(e) => e.text_content(doc),
            Node::Text(t) => t.clone(),
            Node::CData(t) => t.clone(),
            Node::PI(t) => t.clone(),
            _ => String::new(),
        }
    }
}

// ------------------------------------------------------------------
// Recursive node and element lists
// ------------------------------------------------------------------
/// Appends clones of all nodes of `e`'s subtree, depth first.
#[verifier::loop_isolation(false)]
fn build_descendants(doc: &Document, e: Element, out: &mut Vec<Node>)
    requires
        doc.wf(),
        valid_id(doc@, e@),
    ensures
        nodes_view(final(out)@) == nodes_view(old(out)@) + desc_nodes(
            doc@,
            doc@.elems[e@].children,
            subtree_fuel(doc@, e@),
        ),
    decreases subtree_fuel(doc@, e@),
{
    let ghost d = doc@;
    let ghost fuel = subtree_fuel(d, e@);
    let ghost cs = d.elems[e@].children;
    proof {
        lemma_subtree_fuel_pos(d, e@);
    }
    let kids = e.children(doc);
    let n = kids.len();
    let mut i: usize = 0;
    while i < n
        invariant
            0 <= i <= n,
            nodes_view(out@) =~= nodes_view(old(out)@) + desc_nodes(d, cs.take(i as int), fuel),
        decreases n - i,
    {
        proof {
            assert(cs.take(i as int + 1).drop_last() =~= cs.take(i as int));
            assert(cs.take(i as int + 1).last() == cs[i as int]);
        }
        let node = clone_node(&kids[i]);
        let ghost before = nodes_view(out@);
        out.push(node);
        proof {
            assert(nodes_view(out@) =~= before + seq![cs[i as int]]);
        }
        if let Node::Element(c) = &kids[i] {
            proof {
                assert(cs[i as int] == NodeV::Elem(c@));
                assert(d.elems[e@].children[i as int] is Elem);
                assert(0 < c@ < d.elems.len());
                lemma_subtree_fuel_child(d, e@, c@);
            }
            build_descendants(doc, *c, out);
        }
        proof {
            assert(desc_nodes(d, cs.take(i as int + 1), fuel) == desc_nodes(d, cs.take(i as int), fuel)
                + seq![cs[i as int]] + (match cs[i as int] {
                NodeV::Elem(c) => if fuel == 0 || !valid_id(d, c) {
                    Seq::<NodeV>::empty()
                } else {
                    desc_nodes(d, d.elems[c].children, (fuel - 1) as nat)
                },
                _ => Seq::<NodeV>::empty(),
            }));
            assert(nodes_view(out@) =~= nodes_view(old(out)@) + desc_nodes(
                d,
                cs.take(i as int + 1),
                fuel,
            ));
        }
        i = i + 1;
    }
    proof {
        assert(cs.take(n as int) =~= cs);
    }
}

/// The element handles of a flattened node list, in order.
pub open spec fn elems_of(s: Seq<NodeV>) -> Seq<int> {
    elem_children(s)
}

impl Element {
    /// All nodes of this element's subtree, depth first (each child followed
    /// by that child's own subtree), as copies.
    pub fn children_recursive(&self, doc: &Document) -> (r: Vec<Node>)
        requires
            doc.wf(),
            valid_id(doc@, self@),
        ensures
            nodes_view(r@) == spec_descendants(doc@, self@),
    {
        let mut out: Vec<Node> = Vec::new();
        proof {
            assert(nodes_view(Seq::<Node>::empty()) =~= Seq::<NodeV>::empty());
        }
        build_descendants(doc, *self, &mut out);
        proof {
            assert(nodes_view(out@) =~= spec_descendants(doc@, self@));
        }
        out
    }

    /// All element descendants, depth first.
    pub fn child_elements_recursive(&self, doc: &Document) -> (r: Vec<Element>)
        requires
            doc.wf(),
            valid_id(doc@, self@),
        ensures
            Seq::new(r@.len(), |i: int| r@[i]@) == elems_of(spec_descendants(doc@, self@)),
    {
        let nodes = self.children_recursive(doc);
        let n = nodes.len();
        let ghost nv = spec_descendants(doc@, self@);
        let mut out: Vec<Element> = Vec::new();
        let mut i: usize = 0;
        while i < n
            invariant
                doc.wf(),
                0 <= i <= n,
                n == nv.len(),
                nodes_view(nodes@) == nv,
                Seq::new(out@.len(), |j: int| out@[j]@) =~= elem_children(nv.take(i as int)),
            decreases n - i,
        {
            proof {
                crate::model::lemma_elem_children_take(nv, i as int);
            }
            if let Node::Element(e) = &nodes[i] {
                proof {
                    assert(nv[i as int] == NodeV::Elem(e@));
                }
                out.push(*e);
                proof {
                    assert(Seq::new(out@.len(), |j: int| out@[j]@) =~= elem_children(
                        nv.take(i as int + 1),
                    ));
                }
            } else {
                proof {
                    assert(!(nv[i as int] is Elem));
                    assert(Seq::new(out@.len(), |j: int| out@[j]@) =~= elem_children(
                        nv.take(i as int + 1),
                    ));
                }
            }
            i = i + 1;
        }
        proof {
            assert(nv.take(n as int) =~= nv);
        }
        out
    }
}

// ------------------------------------------------------------------
// External namespace declarations
// ------------------------------------------------------------------
/// The keys of a declaration map, as a set of prefixes.
pub open spec fn keys_of(ns: Seq<(Seq<char>, Seq<char>)>) -> Set<Seq<char>> {
    Set::new(|q: Seq<char>| has_key(ns, q))
}

/// The prefixes used in the subtrees rooted at the elements of `s` that no
/// declaration seen so far (in `known`) covers.
pub open spec fn undeclared_kids(d: DocV, s: Seq<NodeV>, known: Set<Seq<char>>, fuel: nat) -> Set<
    Seq<char>,
>
    decreases fuel, s.len(), 0int,
{
    if s.len() == 0 {
        Set::empty()
    } else {
        undeclared_kids(d, s.drop_last(), known, fuel).union(
            match s.last() {
                NodeV::Elem(c) => undeclared_rec(d, c, known, fuel),
                _ => Set::empty(),
            },
        )
    }
}

/// The prefixes used in the subtree of `i` (as element prefixes) that are
/// not declared on the path from the subtree root down to their use; the
/// element's own prefix is checked against the declarations strictly above
/// it within the subtree.
pub open spec fn undeclared_rec(d: DocV, i: int, known: Set<Seq<char>>, fuel: nat) -> Set<Seq<char>>
    decreases fuel, 0int, 1int,
{
    if !valid_id(d, i) || fuel == 0 {
        Set::empty()
    } else {
        let me: Set<Seq<char>> = if known.contains(name_prefix(d.elems[i].name)) {
            Set::empty()
        } else {
            Set::empty().insert(name_prefix(d.elems[i].name))
        };
        me.union(
            undeclared_kids(d, d.elems[i].children, known.union(keys_of(d.elems[i].ns)), (fuel
                - 1) as nat),
        )
    }
}

/// The prefixes a subtree uses but does not declare itself.
pub open spec fn spec_external(d: DocV, i: int) -> Set<Seq<char>> {
    undeclared_rec(d, i, Set::empty(), subtree_fuel(d, i))
}

/// Collects `undeclared_rec` into `out`.
#[verifier::loop_isolation(false)]
#[verifier::rlimit(100)]
fn external_walk(doc: &Document, e: Element, known: &Sset, out: &mut Sset)
    requires
        doc.wf(),
        valid_id(doc@, e@),
        known.wf(),
        old(out).wf(),
    ensures
        final(out).wf(),
        final(out).to_set() == old(out).to_set().union(
            undeclared_rec(doc@, e@, known.to_set(), subtree_fuel(doc@, e@)),
        ),
    decreases subtree_fuel(doc@, e@),
{
    let ghost d = doc@;
    let ghost fuel = subtree_fuel(d, e@);
    let ghost cs = d.elems[e@].children;
    proof {
        lemma_subtree_fuel_pos(d, e@);
    }
    let pfx = e.prefix(doc);
    if !known.contains(pfx) {
        out.insert(pfx.to_owned());
    }
    let ghost me: Set<Seq<char>> = if known.to_set().contains(name_prefix(d.elems[e@].name)) {
        Set::empty()
    } else {
        Set::empty().insert(name_prefix(d.elems[e@].name))
    };
    proof {
        assert(out.to_set() =~= old(out).to_set().union(me));
    }
    // extend the known prefixes with this element's own declarations
    let mut known2 = known.duplicate();
    let ns = &doc.store[e.idx()].namespace_decls;
    let nd = ns.len();
    let ghost nsv = d.elems[e@].ns;
    let mut j: usize = 0;
    while j < nd
        invariant
            known2.wf(),
            0 <= j <= nd,
            known2.to_set() =~= known.to_set().union(
                Set::new(
                    |q: Seq<char>| exists|w: int| 0 <= w < j && (#[trigger] nsv[w]).0 == q,
                ),
            ),
        decreases nd - j,
    {
        known2.insert(ns.key_at(j).to_owned());
        proof {
            assert(known2.to_set() =~= known.to_set().union(
                Set::new(
                    |q: Seq<char>| exists|w: int| 0 <= w < j + 1 && (#[trigger] nsv[w]).0 == q,
                ),
            ));
        }
        j = j + 1;
    }
    proof {
        assert(known2.to_set() =~= known.to_set().union(keys_of(nsv)));
    }
    let ghost out_mid = out.to_set();
    // recurse into the element children
    let kids = e.children(doc);
    let n = kids.len();
    let mut i: usize = 0;
    while i < n
        invariant
            out.wf(),
            known2.wf(),
            known2.to_set() == known.to_set().union(keys_of(nsv)),
            0 <= i <= n,
            out.to_set() =~= out_mid.union(
                undeclared_kids(d, cs.take(i as int), known2.to_set(), (fuel - 1) as nat),
            ),
        decreases n - i,
    {
        proof {
            assert(cs.take(i as int + 1).drop_last() =~= cs.take(i as int));
            assert(cs.take(i as int + 1).last() == cs[i as int]);
        }
        if let Node::Element(c) = &kids[i] {
            proof {
                assert(cs[i as int] == NodeV::Elem(c@));
                assert(d.elems[e@].children[i as int] is Elem);
                assert(0 < c@ < d.elems.len());
                lemma_subtree_fuel_child(d, e@, c@);
            }
            external_walk(doc, *c, &known2, out);
        }
        proof {
            assert(out.to_set() =~= out_mid.union(
                undeclared_kids(d, cs.take(i as int + 1), known2.to_set(), (fuel - 1) as nat),
            ));
        }
        i = i + 1;
    }
    proof {
        assert(cs.take(n as int) =~= cs);
        assert(out.to_set() =~= old(out).to_set().union(
            undeclared_rec(d, e@, known.to_set(), fuel),
        ));
    }
}

impl Element {
    /// The namespace declarations this element's subtree needs from its
    /// ancestors to be serialized standalone: every prefix used in the
    /// subtree but not declared within it, resolved at this element. A used
    /// prefix with no declaration anywhere up to the root would make the
    /// document invalid, and is excluded here.
    pub fn collect_external_namespace_decls(&self, doc: &Document) -> (r: Smap)
        requires
            doc.wf(),
            valid_id(doc@, self@),
            forall|q: Seq<char>| #[trigger]
                spec_external(doc@, self@).contains(q) ==> spec_resolve(doc@, self@, q) is Some,
        ensures
            r.wf(),
            forall|q: Seq<char>| #[trigger] has_key(r@, q) <==> spec_external(doc@, self@).contains(
                q,
            ),
            forall|q: Seq<char>| #[trigger] has_key(r@, q) ==> Some(val_of(r@, q)) == spec_resolve(
                doc@,
                self@,
                q,
            ),
    {
        let known = Sset::new();
        let mut unknown = Sset::new();
        external_walk(doc, *self, &known, &mut unknown);
        proof {
            assert(unknown.to_set() =~= spec_external(doc@, self@));
            lemma_set_of_has_elem(unknown@);
        }
        let mut m = Smap::new();
        let n = unknown.len();
        let mut j: usize = 0;
        while j < n
            invariant
                doc.wf(),
                valid_id(doc@, self@),
                m.wf(),
                unknown.wf(),
                unknown.to_set() == spec_external(doc@, self@),
                forall|q: Seq<char>| #[trigger]
                    spec_external(doc@, self@).contains(q) ==> spec_resolve(doc@, self@, q)
                        is Some,
                0 <= j <= n,
                n == unknown@.len(),
                forall|q: Seq<char>| #[trigger]
                    has_key(m@, q) <==> exists|w: int| 0 <= w < j && unknown@[w] == q,
                forall|q: Seq<char>| #[trigger]
                    has_key(m@, q) ==> Some(val_of(m@, q)) == spec_resolve(doc@, self@, q),
            decreases n - j,
        {
            let q = unknown.item_at(j);
            proof {
                lemma_set_of_has_elem(unknown@);
                assert(unknown.to_set().contains(unknown@[j as int]));
            }
            match self.namespace_for_prefix(doc, q) {
                Some(u) => {
                    m.insert(q.to_owned(), u.to_owned());
                },
                None => {
                    proof {
                        assert(spec_resolve(doc@, self@, q@) is Some);
                    }
                    unreached()
                },
            }
            j = j + 1;
        }
        proof {
            lemma_set_of_has_elem(unknown@);
            assert forall|q: Seq<char>| #[trigger] has_key(m@, q) implies spec_external(
                doc@,
                self@,
            ).contains(q) by {}
            assert forall|q: Seq<char>| spec_external(doc@, self@).contains(q) implies #[trigger]
                has_key(m@, q) by {
                assert(has_elem(unknown@, q));
            }
        }
        m
    }
}

} // verus!
