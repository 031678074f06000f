//! Element handles and the tree mutation API. A handle is a stable index
//! into the document's arena; every operation takes the owning document
//! explicitly and keeps parent references and children sequences mutually
//! consistent.

use vstd::prelude::*;
use crate::document::{Document, ElementData, Node, nodes_view};
use crate::error::Error;
use crate::model::{DocV, ElemV, NodeV, valid_id, parent_of, reaches, attach_tr, remove_tr,
    detach_tr, clear_tr, clear_partial, child_idx_of, alloc_tr, elem_children, lemma_alloc_wf,
    lemma_attach_wf, lemma_remove_wf, lemma_clear_step, lemma_same_structure_wf,
    lemma_elem_children_take, term_fuel, lemma_term_fuel_step};
use crate::order::{name_prefix, local_name, full_of};
use crate::order::{split_name, join_name};
use crate::strmap::{Smap, has_key, val_of, sorted_unique};

verus! {

/// An XML element: a copyable handle into one document's arena. Handle 0 is
/// the container sentinel.
#[derive(Debug, Clone, Copy, PartialEq, Eq, Hash, Structural)]
pub struct Element {
    id: usize,
}

impl View for Element {
    type V = int;

    closed spec fn view(&self) -> int {
        self.id as int
    }
}

/// Whether pushing this node succeeds: leaves always attach; an element
/// attaches when it is not the container and has no parent yet.
pub open spec fn push_ok(d: DocV, n: NodeV) -> bool {
    match n {
        NodeV::Elem(e) => e != 0 && parent_of(d, e) is None,
        _ => true,
    }
}

impl Element {
    /// The raw arena index (crate-internal).
    pub(crate) fn idx(&self) -> (r: usize)
        ensures
            r == self@,
    {
        self.id
    }

    pub(crate) fn container_handle() -> (r: Element)
        ensures
            r@ == 0,
    {
        Element { id: 0 }
    }

    /// `true` exactly for the container sentinel.
    pub fn is_container(&self) -> (r: bool)
        ensures
            r == (self@ == 0),
    {
        self.id == 0
    }

    /// The node wrapping this handle.
    pub fn as_node(&self) -> (r: Node)
        ensures
            r@ == NodeV::Elem(self@),
    {
        Node::Element(*self)
    }

    /// Splits a full name at its first `:` into `(prefix, local name)`; a
    /// name without `:` has the empty prefix.
    pub fn separate_prefix_name<'a>(full_name: &'a str) -> (r: (&'a str, &'a str))
        ensures
            r.0@ == name_prefix(full_name@),
            r.1@ == local_name(full_name@),
    {
        split_name(full_name)
    }

    /// Allocates a new element record with the given full name, attributes
    /// and namespace declarations; the record is appended to the arena and
    /// starts parentless and childless.
    pub fn with_data(doc: &mut Document, full_name: String, attributes: Smap, namespace_decls: Smap)
        -> (r: Element)
        requires
            old(doc).wf(),
            attributes.wf(),
            namespace_decls.wf(),
        ensures
            final(doc).wf(),
            r@ == old(doc)@.elems.len(),
            final(doc)@ == alloc_tr(old(doc)@, full_name@, attributes@, namespace_decls@),
            forall|i: int| valid_id(old(doc)@, i) ==> !reaches(final(doc)@, i, r@),
    {
        let id = doc.store.len();
        let ghost d = doc@;
        let data = ElementData {
            full_name,
            attributes,
            namespace_decls,
            parent: None,
            children: Vec::new(),
        };
        doc.store.push(data);
        proof {
            assert(nodes_view(Seq::<Node>::empty()) =~= Seq::<NodeV>::empty());
            assert(doc@ =~~= alloc_tr(d, full_name@, attributes@, namespace_decls@));
            lemma_alloc_wf(d, full_name@, attributes@, namespace_decls@);
        }
        Element { id }
    }

    /// Creates a new element with the given full name and no attributes or
    /// namespace declarations.
    pub fn new(doc: &mut Document, full_name: &str) -> (r: Element)
        requires
            old(doc).wf(),
        ensures
            final(doc).wf(),
            r@ == old(doc)@.elems.len(),
            final(doc)@ == alloc_tr(
                old(doc)@,
                full_name@,
                Seq::<(Seq<char>, Seq<char>)>::empty(),
                Seq::<(Seq<char>, Seq<char>)>::empty(),
            ),
            forall|i: int| valid_id(old(doc)@, i) ==> !reaches(final(doc)@, i, r@),
    {
        let a = Smap::new();
        let n = Smap::new();
        proof {
            assert(a@ =~= Seq::<(Seq<char>, Seq<char>)>::empty());
            assert(n@ =~= Seq::<(Seq<char>, Seq<char>)>::empty());
        }
        Element::with_data(doc, full_name.to_owned(), a, n)
    }
}

// ------------------------------------------------------------------
// Read accessors
// ------------------------------------------------------------------
impl Element {
    /// The full tag name, namespace prefix included.
    pub fn full_name<'a>(&self, doc: &'a Document) -> (r: &'a str)
        requires
            doc.wf(),
            valid_id(doc@, self@),
        ensures
            r@ == doc@.elems[self@].name,
    {
        doc.store[self.id].full_name.as_str()
    }

    /// The `(prefix, local name)` pair of the full tag name.
    pub fn prefix_name<'a>(&self, doc: &'a Document) -> (r: (&'a str, &'a str))
        requires
            doc.wf(),
            valid_id(doc@, self@),
        ensures
            r.0@ == name_prefix(doc@.elems[self@].name),
            r.1@ == local_name(doc@.elems[self@].name),
    {
        split_name(self.full_name(doc))
    }

    /// The namespace prefix alone (empty when the name has none).
    pub fn prefix<'a>(&self, doc: &'a Document) -> (r: &'a str)
        requires
            doc.wf(),
            valid_id(doc@, self@),
        ensures
            r@ == name_prefix(doc@.elems[self@].name),
    {
        self.prefix_name(doc).0
    }

    /// The local name alone.
    pub fn name<'a>(&self, doc: &'a Document) -> (r: &'a str)
        requires
            doc.wf(),
            valid_id(doc@, self@),
        ensures
            r@ == local_name(doc@.elems[self@].name),
    {
        self.prefix_name(doc).1
    }

    /// The attribute map of this element.
    pub fn attributes<'a>(&self, doc: &'a Document) -> (r: &'a Smap)
        requires
            doc.wf(),
            valid_id(doc@, self@),
        ensures
            r@ == doc@.elems[self@].attrs,
            r.wf(),
    {
        proof {
            assert(sorted_unique(doc@.elems[self@].attrs));
        }
        &doc.store[self.id].attributes
    }

    /// One attribute value, by full attribute name.
    pub fn attribute<'a>(&self, doc: &'a Document, name: &str) -> (r: Option<&'a str>)
        requires
            doc.wf(),
            valid_id(doc@, self@),
        ensures
            r is Some <==> has_key(doc@.elems[self@].attrs, name@),
            r is Some ==> r->0@ == val_of(doc@.elems[self@].attrs, name@),
    {
        self.attributes(doc).get(name)
    }

    /// The namespace declarations made directly on this element
    /// (`xmlns[:prefix]` attributes); the default namespace is keyed by the
    /// empty string.
    pub fn namespace_decls<'a>(&self, doc: &'a Document) -> (r: &'a Smap)
        requires
            doc.wf(),
            valid_id(doc@, self@),
        ensures
            r@ == doc@.elems[self@].ns,
            r.wf(),
    {
        proof {
            assert(sorted_unique(doc@.elems[self@].attrs));
            assert(sorted_unique(doc@.elems[self@].ns));
        }
        &doc.store[self.id].namespace_decls
    }

    /// The parent element, if attached.
    pub fn parent(&self, doc: &Document) -> (r: Option<Element>)
        requires
            doc.wf(),
            valid_id(doc@, self@),
        ensures
            match r {
                Some(p) => parent_of(doc@, self@) == Some(p@) && valid_id(doc@, p@),
                None => parent_of(doc@, self@) is None,
            },
    {
        doc.store[self.id].parent
    }

    /// `true` when the element has a parent.
    pub fn has_parent(&self, doc: &Document) -> (r: bool)
        requires
            doc.wf(),
            valid_id(doc@, self@),
        ensures
            r == (parent_of(doc@, self@) is Some),
    {
        self.parent(doc).is_some()
    }

    /// `true` when the element's parent is the container.
    pub fn is_root(&self, doc: &Document) -> (r: bool)
        requires
            doc.wf(),
            valid_id(doc@, self@),
        ensures
            r == (parent_of(doc@, self@) == Some(0int)),
    {
        match self.parent(doc) {
            Some(p) => p.is_container(),
            None => false,
        }
    }

    /// The child nodes, in order.
    pub fn children<'a>(&self, doc: &'a Document) -> (r: &'a Vec<Node>)
        requires
            doc.wf(),
            valid_id(doc@, self@),
        ensures
            nodes_view(r@) == doc@.elems[self@].children,
    {
        &doc.store[self.id].children
    }

    /// `true` when the element has at least one child node.
    pub fn has_children(&self, doc: &Document) -> (r: bool)
        requires
            doc.wf(),
            valid_id(doc@, self@),
        ensures
            r == (doc@.elems[self@].children.len() > 0),
    {
        self.children(doc).len() > 0
    }

    /// The child nodes that are elements, in order.
    #[verifier::loop_isolation(false)]
    pub fn child_elements(&self, doc: &Document) -> (r: Vec<Element>)
        requires
            doc.wf(),
            valid_id(doc@, self@),
        ensures
            Seq::new(r@.len(), |i: int| r@[i]@) == elem_children(doc@.elems[self@].children),
            forall|i: int| 0 <= i < r@.len() ==> valid_id(doc@, #[trigger] r@[i]@),
    {
        let kids = self.children(doc);
        let n = kids.len();
        let mut out: Vec<Element> = Vec::new();
        let ghost cs = doc@.elems[self@].children;
        let mut i: usize = 0;
        while i < n
            invariant
                doc.wf(),
                valid_id(doc@, self@),
                0 <= i <= n,
                n == cs.len(),
                nodes_view(kids@) == cs,
                Seq::new(out@.len(), |j: int| out@[j]@) =~= elem_children(cs.take(i as int)),
                forall|j: int| 0 <= j < out@.len() ==> valid_id(doc@, #[trigger] out@[j]@),
            decreases n - i,
        {
            proof {
                lemma_elem_children_take(cs, i as int);
            }
            if let Node::Element(e) = &kids[i] {
                proof {
                    assert(cs[i as int] == NodeV::Elem(e@));
                    assert(doc@.elems[self@].children[i as int] is Elem);
                    assert(0 < e@ < doc@.elems.len());
                }
                out.push(*e);
                proof {
                    assert(Seq::new(out@.len(), |j: int| out@[j]@) =~= elem_children(
                        cs.take(i as int + 1),
                    ));
                }
            } else {
                proof {
                    assert(!(cs[i as int] is Elem));
                    assert(Seq::new(out@.len(), |j: int| out@[j]@) =~= elem_children(
                        cs.take(i as int + 1),
                    ));
                }
            }
            i = i + 1;
        }
        proof {
            assert(cs.take(n as int) =~= cs);
        }
        out
    }

    /// The "top" parent: the root element when attached, the root of the
    /// detached subtree otherwise.
    pub fn top_parent(&self, doc: &Document) -> (r: Element)
        requires
            doc.wf(),
            valid_id(doc@, self@),
        ensures
            valid_id(doc@, r@),
            r@ == spec_top(doc@, self@),
    {
        let ghost d = doc@;
        let mut cur = *self;
        proof {
            assert(crate::model::terminates(d, self@));
            lemma_top_unfold(d, self@);
        }
        loop
            invariant
                doc.wf(),
                d == doc@,
                valid_id(d, cur@),
                spec_top(d, cur@) == spec_top(d, self@),
            decreases term_fuel(d, cur@),
        {
            proof {
                lemma_top_unfold(d, cur@);
            }
            match doc.store[cur.id].parent {
                Some(p) => {
                    if p.id == 0 {
                        return cur;
                    }
                    proof {
                        lemma_term_fuel_step(d, cur@, p@);
                    }
                    cur = p;
                },
                None => {
                    return cur;
                },
            }
        }
    }
}

/// The element `top_parent` walks to, with enough fuel.
pub open spec fn top_of(d: DocV, i: int, fuel: nat) -> int
    decreases fuel,
{
    if fuel == 0 {
        i
    } else {
        match parent_of(d, i) {
            Some(p) => if p == 0 || !valid_id(d, p) {
                i
            } else {
                top_of(d, p, (fuel - 1) as nat)
            },
            None => i,
        }
    }
}

/// `top_of` with the fuel the chain needs.
pub open spec fn spec_top(d: DocV, i: int) -> int {
    top_of(d, i, term_fuel(d, i))
}

/// Unfolds `spec_top` one step along the parent chain.
pub proof fn lemma_top_unfold(d: DocV, i: int)
    requires
        crate::model::wf_doc(d),
        valid_id(d, i),
    ensures
        parent_of(d, i) is None ==> spec_top(d, i) == i,
        parent_of(d, i) is Some && parent_of(d, i)->0 == 0 ==> spec_top(d, i) == i,
        parent_of(d, i) is Some && parent_of(d, i)->0 != 0 ==> spec_top(d, i) == spec_top(
            d,
            parent_of(d, i)->0,
        ),
{
    assert(crate::model::terminates(d, i));
    let k = choose|k: nat| crate::model::anc(d, i, k) is None;
    crate::model::lemma_term_fuel_exists(d, i, k);
    let f = term_fuel(d, i);
    assert(f >= 1) by {
        if f == 0 {
            assert(crate::model::anc(d, i, 0) == Some(i));
        }
    }
    if parent_of(d, i) is Some && parent_of(d, i)->0 != 0 {
        let p = parent_of(d, i)->0;
        lemma_term_fuel_step(d, i, p);
        assert(top_of(d, i, f) == top_of(d, p, (f - 1) as nat));
    }
}

// ------------------------------------------------------------------
// Tree mutation
// ------------------------------------------------------------------
impl Element {
    /// Appends `node` to this element's children.
    ///
    /// Fails with `ContainerCannotMove` when `node` is the container, and
    /// with `HasAParent` when `node` is an element that already has a parent
    /// (detach it first); a failed call leaves the document exactly as it
    /// was. Attaching a detached element above itself would close a cycle;
    /// that is the caller's responsibility and excluded here, as the last
    /// precondition.
    pub fn push_child(&self, doc: &mut Document, node: Node) -> (r: Result<(), Error>)
        requires
            old(doc).wf(),
            valid_id(old(doc)@, self@),
            node@ is Elem ==> valid_id(old(doc)@, node@->Elem_0),
            push_ok(old(doc)@, node@) ==> !(node@ is Elem) || !reaches(
                old(doc)@,
                self@,
                node@->Elem_0,
            ),
        ensures
            final(doc).wf(),
            node@ is Elem && node@->Elem_0 == 0 ==> r == Err::<(), Error>(
                Error::ContainerCannotMove,
            ) && final(doc)@ == old(doc)@,
            node@ is Elem && node@->Elem_0 != 0 && parent_of(old(doc)@, node@->Elem_0) is Some
                ==> r == Err::<(), Error>(Error::HasAParent) && final(doc)@ == old(doc)@,
            push_ok(old(doc)@, node@) ==> r == Ok::<(), Error>(()) && final(doc)@ == attach_tr(
                old(doc)@,
                self@,
                old(doc)@.elems[self@].children.len() as int,
                node@,
            ),
    {
        let ghost d = doc@;
        let p = self.id;
        if let Node::Element(e) = &node {
            if e.id == 0 {
                return Err(Error::ContainerCannotMove);
            }
            if doc.store[e.id].parent.is_some() {
                return Err(Error::HasAParent);
            }
            let ed = &mut doc.store[e.id];
            ed.parent = Some(Element { id: p });
        }
        let ghost idx = d.elems[self@].children.len() as int;
        let pd = &mut doc.store[p];
        pd.children.push(node);
        proof {
            assert(doc@ =~~= attach_tr(d, self@, idx, node@)) by {
                assert forall|j: int| 0 <= j < doc@.elems.len() implies doc@.elems[j] =~~=
                    attach_tr(d, self@, idx, node@).elems[j] by {
                    if j == self@ {
                        assert(doc@.elems[j].children =~= d.elems[j].children.insert(idx, node@));
                    }
                }
            }
            lemma_attach_wf(d, self@, idx, node@);
        }
        Ok(())
    }

    /// Appends this element under `parent`; the same as
    /// `parent.push_child(doc, self.as_node())`.
    pub fn push_to(&self, doc: &mut Document, parent: Element) -> (r: Result<(), Error>)
        requires
            old(doc).wf(),
            valid_id(old(doc)@, self@),
            valid_id(old(doc)@, parent@),
            self@ != 0 && parent_of(old(doc)@, self@) is None ==> !reaches(
                old(doc)@,
                parent@,
                self@,
            ),
        ensures
            final(doc).wf(),
            self@ == 0 ==> r == Err::<(), Error>(Error::ContainerCannotMove) && final(doc)@ == old(
                doc,
            )@,
            self@ != 0 && parent_of(old(doc)@, self@) is Some ==> r == Err::<(), Error>(
                Error::HasAParent,
            ) && final(doc)@ == old(doc)@,
            self@ != 0 && parent_of(old(doc)@, self@) is None ==> r == Ok::<(), Error>(())
                && final(doc)@ == attach_tr(
                old(doc)@,
                parent@,
                old(doc)@.elems[parent@].children.len() as int,
                NodeV::Elem(self@),
            ),
    {
        parent.push_child(doc, self.as_node())
    }

    /// Inserts `node` among this element's children at `index`, with the
    /// same element preconditions and errors as `push_child`.
    pub fn insert_child(&self, doc: &mut Document, index: usize, node: Node) -> (r: Result<
        (),
        Error,
    >)
        requires
            old(doc).wf(),
            valid_id(old(doc)@, self@),
            index <= old(doc)@.elems[self@].children.len(),
            node@ is Elem ==> valid_id(old(doc)@, node@->Elem_0),
            push_ok(old(doc)@, node@) ==> !(node@ is Elem) || !reaches(
                old(doc)@,
                self@,
                node@->Elem_0,
            ),
        ensures
            final(doc).wf(),
            node@ is Elem && node@->Elem_0 == 0 ==> r == Err::<(), Error>(
                Error::ContainerCannotMove,
            ) && final(doc)@ == old(doc)@,
            node@ is Elem && node@->Elem_0 != 0 && parent_of(old(doc)@, node@->Elem_0) is Some
                ==> r == Err::<(), Error>(Error::HasAParent) && final(doc)@ == old(doc)@,
            push_ok(old(doc)@, node@) ==> r == Ok::<(), Error>(()) && final(doc)@ == attach_tr(
                old(doc)@,
                self@,
                index as int,
                node@,
            ),
    {
        let ghost d = doc@;
        let p = self.id;
        if let Node::Element(e) = &node {
            if e.id == 0 {
                return Err(Error::ContainerCannotMove);
            }
            if doc.store[e.id].parent.is_some() {
                return Err(Error::HasAParent);
            }
            let ed = &mut doc.store[e.id];
            ed.parent = Some(Element { id: p });
        }
        let pd = &mut doc.store[p];
        pd.children.insert(index, node);
        proof {
            assert(doc@ =~~= attach_tr(d, self@, index as int, node@)) by {
                assert forall|j: int| 0 <= j < doc@.elems.len() implies doc@.elems[j] =~~=
                    attach_tr(d, self@, index as int, node@).elems[j] by {
                    if j == self@ {
                        assert(doc@.elems[j].children =~= d.elems[j].children.insert(
                            index as int,
                            node@,
                        ));
                    }
                }
            }
            lemma_attach_wf(d, self@, index as int, node@);
        }
        Ok(())
    }

    /// Removes and returns the child node at `index`; a removed element has
    /// its parent reference cleared.
    pub fn remove_child(&self, doc: &mut Document, index: usize) -> (r: Node)
        requires
            old(doc).wf(),
            valid_id(old(doc)@, self@),
            index < old(doc)@.elems[self@].children.len(),
        ensures
            final(doc).wf(),
            r@ == old(doc)@.elems[self@].children[index as int],
            final(doc)@ == remove_tr(old(doc)@, self@, index as int),
    {
        let ghost d = doc@;
        let p = self.id;
        let pd = &mut doc.store[p];
        let node = pd.children.remove(index);
        proof {
            assert(d.elems[self@].children[index as int] == node@);
        }
        if let Node::Element(e) = &node {
            proof {
                assert(d.elems[self@].children[index as int] is Elem);
                assert(0 < e@ < d.elems.len());
            }
            let ed = &mut doc.store[e.id];
            ed.parent = None;
        }
        proof {
            assert(doc@ =~~= remove_tr(d, self@, index as int)) by {
                assert forall|j: int| 0 <= j < doc@.elems.len() implies doc@.elems[j] =~~=
                    remove_tr(d, self@, index as int).elems[j] by {
                    if j == self@ {
                        assert(doc@.elems[j].children =~= d.elems[j].children.remove(index as int));
                    }
                }
            }
            lemma_remove_wf(d, self@, index as int);
        }
        node
    }

    /// Removes and returns the last child, if any.
    pub fn pop_child(&self, doc: &mut Document) -> (r: Option<Node>)
        requires
            old(doc).wf(),
            valid_id(old(doc)@, self@),
        ensures
            final(doc).wf(),
            old(doc)@.elems[self@].children.len() == 0 ==> r is None && final(doc)@ == old(doc)@,
            old(doc)@.elems[self@].children.len() > 0 ==> r is Some && r->0@ == old(
                doc,
            )@.elems[self@].children.last() && final(doc)@ == remove_tr(
                old(doc)@,
                self@,
                old(doc)@.elems[self@].children.len() - 1,
            ),
    {
        let n = doc.store[self.id].children.len();
        if n == 0 {
            None
        } else {
            Some(self.remove_child(doc, n - 1))
        }
    }

    /// Removes every child, preserving order, and returns them; each removed
    /// element has its parent reference cleared.
    #[verifier::loop_isolation(false)]
    pub fn clear_children(&self, doc: &mut Document) -> (r: Vec<Node>)
        requires
            old(doc).wf(),
            valid_id(old(doc)@, self@),
        ensures
            final(doc).wf(),
            nodes_view(r@) == old(doc)@.elems[self@].children,
            final(doc)@ == clear_tr(old(doc)@, self@),
    {
        let ghost d = doc@;
        let count = doc.store[self.id].children.len();
        let mut removed: Vec<Node> = Vec::new();
        let mut m: usize = 0;
        proof {
            assert(doc@ =~~= clear_partial(d, self@, 0)) by {
                assert forall|j: int| 0 <= j < doc@.elems.len() implies doc@.elems[j] =~~=
                    clear_partial(d, self@, 0).elems[j] by {
                    if j == self@ {
                        assert(d.elems[j].children.skip(0) =~= d.elems[j].children);
                    }
                }
            }
        }
        while m < count
            invariant
                doc.wf(),
                0 <= m <= count,
                doc@ == clear_partial(d, self@, m as int),
                nodes_view(removed@) =~= d.elems[self@].children.take(m as int),
            decreases count - m,
        {
            proof {
                assert(doc@.elems[self@].children == d.elems[self@].children.skip(m as int));
                assert(doc@.elems[self@].children.len() == count - m);
            }
            let node = self.remove_child(doc, 0);
            proof {
                assert(node@ == d.elems[self@].children[m as int]);
                lemma_clear_step(d, self@, m as int);
            }
            removed.push(node);
            proof {
                assert(nodes_view(removed@) =~= d.elems[self@].children.take(m as int + 1));
            }
            m = m + 1;
        }
        proof {
            assert(d.elems[self@].children.take(count as int) =~= d.elems[self@].children);
            assert(nodes_view(removed@) == d.elems[self@].children);
        }
        removed
    }

    /// Removes this element from its parent's children. Fails with
    /// `ContainerCannotMove` on the container; an element without a parent is
    /// left alone.
    #[verifier::loop_isolation(false)]
    pub fn detatch(&self, doc: &mut Document) -> (r: Result<(), Error>)
        requires
            old(doc).wf(),
            valid_id(old(doc)@, self@),
        ensures
            final(doc).wf(),
            self@ == 0 ==> r == Err::<(), Error>(Error::ContainerCannotMove) && final(doc)@ == old(
                doc,
            )@,
            self@ != 0 ==> r == Ok::<(), Error>(()) && final(doc)@ == detach_tr(old(doc)@, self@),
            self@ != 0 ==> parent_of(final(doc)@, self@) is None,
    {
        if self.id == 0 {
            return Err(Error::ContainerCannotMove);
        }
        let ghost d = doc@;
        let par = match doc.store[self.id].parent {
            None => {
                return Ok(());
            },
            Some(par) => par,
        };
        let kids = &doc.store[par.id].children;
        let n = kids.len();
        let mut k: usize = 0;
        proof {
            assert(crate::model::has_child(d, par@, self@));
        }
        while k < n
            invariant
                0 <= k <= n,
                forall|j: int|
                    0 <= j < k ==> (#[trigger] d.elems[par@].children[j]) != NodeV::Elem(self@),
            decreases n - k,
        {
            let found = match &kids[k] {
                Node::Element(e) => e.id == self.id,
                _ => false,
            };
            if found {
                break ;
            }
            proof {
                assert(d.elems[par@].children[k as int] == kids@[k as int]@);
            }
            k = k + 1;
        }
        proof {
            if k == n {
                let w = choose|w: int|
                    0 <= w < d.elems[par@].children.len() && d.elems[par@].children[w]
                        == NodeV::Elem(self@);
                assert(d.elems[par@].children[w] != NodeV::Elem(self@));
            }
            assert(k < n);
            assert(d.elems[par@].children[k as int] == NodeV::Elem(self@));
            let c = child_idx_of(d, par@, self@);
            assert(d.elems[par@].children[c] == NodeV::Elem(self@));
            assert(c == k as int);
        }
        self.detatch_found(doc, par, k);
        Ok(())
    }

    /// The removal step of `detatch`, once the position is known.
    fn detatch_found(&self, doc: &mut Document, par: Element, k: usize)
        requires
            old(doc).wf(),
            valid_id(old(doc)@, par@),
            k < old(doc)@.elems[par@].children.len(),
            old(doc)@.elems[par@].children[k as int] == NodeV::Elem(self@),
            parent_of(old(doc)@, self@) == Some(par@),
            child_idx_of(old(doc)@, par@, self@) == k as int,
        ensures
            final(doc).wf(),
            final(doc)@ == detach_tr(old(doc)@, self@),
            parent_of(final(doc)@, self@) is None,
    {
        let node = par.remove_child(doc, k);
    }
}

// ------------------------------------------------------------------
// Write accessors
// ------------------------------------------------------------------
impl Element {
    /// Replaces the full tag name.
    pub fn set_full_name(&self, doc: &mut Document, name: &str)
        requires
            old(doc).wf(),
            valid_id(old(doc)@, self@),
        ensures
            final(doc).wf(),
            final(doc)@ == (DocV {
                elems: old(doc)@.elems.update(
                    self@,
                    ElemV { name: name@, ..old(doc)@.elems[self@] },
                ),
                ..old(doc)@
            }),
    {
        let ghost d = doc@;
        let data = &mut doc.store[self.id];
        data.full_name = name.to_owned();
        proof {
            let d2 = DocV { elems: d.elems.update(self@, ElemV { name: name@, ..d.elems[self@] }), ..d };
            assert(doc@ =~~= d2);
            lemma_same_structure_wf(d, d2);
        }
    }

    /// Replaces the namespace prefix, preserving the local name; an empty
    /// prefix removes the prefix.
    pub fn set_prefix(&self, doc: &mut Document, prefix: &str)
        requires
            old(doc).wf(),
            valid_id(old(doc)@, self@),
        ensures
            final(doc).wf(),
            final(doc)@ == (DocV {
                elems: old(doc)@.elems.update(
                    self@,
                    ElemV {
                        name: full_of(prefix@, local_name(old(doc)@.elems[self@].name)),
                        ..old(doc)@.elems[self@]
                    },
                ),
                ..old(doc)@
            }),
    {
        let ghost d = doc@;
        let new_name = {
            let data = &doc.store[self.id];
            let (_, local) = split_name(data.full_name.as_str());
            join_name(prefix, local)
        };
        let data = &mut doc.store[self.id];
        data.full_name = new_name;
        proof {
            let d2 = DocV {
                elems: d.elems.update(
                    self@,
                    ElemV { name: full_of(prefix@, local_name(d.elems[self@].name)), ..d.elems[self@] },
                ),
                ..d
            };
            assert(doc@ =~~= d2);
            lemma_same_structure_wf(d, d2);
        }
    }

    /// Replaces the local name, preserving the prefix.
    pub fn set_name(&self, doc: &mut Document, name: &str)
        requires
            old(doc).wf(),
            valid_id(old(doc)@, self@),
        ensures
            final(doc).wf(),
            final(doc)@ == (DocV {
                elems: old(doc)@.elems.update(
                    self@,
                    ElemV {
                        name: full_of(name_prefix(old(doc)@.elems[self@].name), name@),
                        ..old(doc)@.elems[self@]
                    },
                ),
                ..old(doc)@
            }),
    {
        let ghost d = doc@;
        let new_name = {
            let data = &doc.store[self.id];
            let (pfx, _) = split_name(data.full_name.as_str());
            join_name(pfx, name)
        };
        let data = &mut doc.store[self.id];
        data.full_name = new_name;
        proof {
            let d2 = DocV {
                elems: d.elems.update(
                    self@,
                    ElemV { name: full_of(name_prefix(d.elems[self@].name), name@), ..d.elems[self@] },
                ),
                ..d
            };
            assert(doc@ =~~= d2);
            lemma_same_structure_wf(d, d2);
        }
    }

    /// Adds or replaces one attribute.
    pub fn set_attribute(&self, doc: &mut Document, name: &str, value: &str)
        requires
            old(doc).wf(),
            valid_id(old(doc)@, self@),
        ensures
            final(doc).wf(),
            forall|q: Seq<char>| #[trigger] has_key(final(doc)@.elems[self@].attrs, q) <==> (
                has_key(old(doc)@.elems[self@].attrs, q) || q == name@),
            val_of(final(doc)@.elems[self@].attrs, name@) == value@,
            forall|q: Seq<char>|
                q != name@ && #[trigger] has_key(old(doc)@.elems[self@].attrs, q) ==> val_of(
                    final(doc)@.elems[self@].attrs,
                    q,
                ) == val_of(old(doc)@.elems[self@].attrs, q),
            forall|j: int|
                0 <= j < old(doc)@.elems.len() && j != self@ ==> final(doc)@.elems[j] == (
                #[trigger] old(doc)@.elems[j]),
            final(doc)@.elems.len() == old(doc)@.elems.len(),
            final(doc)@.elems[self@] == (ElemV {
                attrs: final(doc)@.elems[self@].attrs,
                ..old(doc)@.elems[self@]
            }),
            final(doc)@.version == old(doc)@.version,
            final(doc)@.standalone == old(doc)@.standalone,
    {
        let ghost d = doc@;
        proof {
            assert(sorted_unique(d.elems[self@].attrs));
        }
        let data = &mut doc.store[self.id];
        data.attributes.insert(name.to_owned(), value.to_owned());
        proof {
            let d2 = DocV {
                elems: d.elems.update(self@, ElemV { attrs: doc@.elems[self@].attrs, ..d.elems[self@] }),
                ..d
            };
            assert(doc@ =~~= d2);
            lemma_same_structure_wf(d, d2);
        }
    }

    /// Adds or replaces one namespace declaration (`prefix -> url`; the
    /// default namespace is the empty prefix).
    pub fn set_namespace_decl(&self, doc: &mut Document, prefix: &str, namespace: &str)
        requires
            old(doc).wf(),
            valid_id(old(doc)@, self@),
        ensures
            final(doc).wf(),
            forall|q: Seq<char>| #[trigger] has_key(final(doc)@.elems[self@].ns, q) <==> (has_key(
                old(doc)@.elems[self@].ns,
                q,
            ) || q == prefix@),
            val_of(final(doc)@.elems[self@].ns, prefix@) == namespace@,
            forall|q: Seq<char>|
                q != prefix@ && #[trigger] has_key(old(doc)@.elems[self@].ns, q) ==> val_of(
                    final(doc)@.elems[self@].ns,
                    q,
                ) == val_of(old(doc)@.elems[self@].ns, q),
            forall|j: int|
                0 <= j < old(doc)@.elems.len() && j != self@ ==> final(doc)@.elems[j] == (
                #[trigger] old(doc)@.elems[j]),
            final(doc)@.elems.len() == old(doc)@.elems.len(),
            final(doc)@.elems[self@] == (ElemV {
                ns: final(doc)@.elems[self@].ns,
                ..old(doc)@.elems[self@]
            }),
            final(doc)@.version == old(doc)@.version,
            final(doc)@.standalone == old(doc)@.standalone,
    {
        let ghost d = doc@;
        proof {
            assert(sorted_unique(d.elems[self@].attrs));
            assert(sorted_unique(d.elems[self@].ns));
        }
        let data = &mut doc.store[self.id];
        data.namespace_decls.insert(prefix.to_owned(), namespace.to_owned());
        proof {
            let d2 = DocV {
                elems: d.elems.update(self@, ElemV { ns: doc@.elems[self@].ns, ..d.elems[self@] }),
                ..d
            };
            assert(doc@ =~~= d2);
            lemma_same_structure_wf(d, d2);
        }
    }
}

impl Element {
    /// Removes one attribute, returning its value when it was present;
    /// removing an absent attribute changes nothing.
    pub fn remove_attribute(&self, doc: &mut Document, name: &str) -> (r: Option<String>)
        requires
            old(doc).wf(),
            valid_id(old(doc)@, self@),
        ensures
            final(doc).wf(),
            r is Some <==> has_key(old(doc)@.elems[self@].attrs, name@),
            r is Some ==> r->0@ == val_of(old(doc)@.elems[self@].attrs, name@),
            forall|q: Seq<char>| #[trigger] has_key(final(doc)@.elems[self@].attrs, q) <==> (
                has_key(old(doc)@.elems[self@].attrs, q) && q != name@),
            forall|q: Seq<char>|
                q != name@ && #[trigger] has_key(old(doc)@.elems[self@].attrs, q) ==> val_of(
                    final(doc)@.elems[self@].attrs,
                    q,
                ) == val_of(old(doc)@.elems[self@].attrs, q),
            forall|j: int|
                0 <= j < old(doc)@.elems.len() && j != self@ ==> final(doc)@.elems[j] == (
                #[trigger] old(doc)@.elems[j]),
            final(doc)@.elems.len() == old(doc)@.elems.len(),
            final(doc)@.elems[self@] == (ElemV {
                attrs: final(doc)@.elems[self@].attrs,
                ..old(doc)@.elems[self@]
            }),
            final(doc)@.version == old(doc)@.version,
            final(doc)@.standalone == old(doc)@.standalone,
    {
        let ghost d = doc@;
        proof {
            assert(sorted_unique(d.elems[self@].attrs));
        }
        let removed: Option<String> = match self.attributes(doc).get(name) {
            Some(v) => Some(v.to_owned()),
            None => None,
        };
        let data = &mut doc.store[self.idx()];
        data.attributes.remove(name);
        proof {
            let d2 = DocV {
                elems: d.elems.update(self@, ElemV { attrs: doc@.elems[self@].attrs, ..d.elems[self@] }),
                ..d
            };
            assert(doc@ =~~= d2);
            lemma_same_structure_wf(d, d2);
        }
        removed
    }

    /// Removes one namespace declaration, returning its URL when it was
    /// present; removing an absent prefix changes nothing.
    pub fn remove_namespace_decl(&self, doc: &mut Document, prefix: &str) -> (r: Option<String>)
        requires
            old(doc).wf(),
            valid_id(old(doc)@, self@),
        ensures
            final(doc).wf(),
            r is Some <==> has_key(old(doc)@.elems[self@].ns, prefix@),
            r is Some ==> r->0@ == val_of(old(doc)@.elems[self@].ns, prefix@),
            forall|q: Seq<char>| #[trigger] has_key(final(doc)@.elems[self@].ns, q) <==> (has_key(
                old(doc)@.elems[self@].ns,
                q,
            ) && q != prefix@),
            forall|q: Seq<char>|
                q != prefix@ && #[trigger] has_key(old(doc)@.elems[self@].ns, q) ==> val_of(
                    final(doc)@.elems[self@].ns,
                    q,
                ) == val_of(old(doc)@.elems[self@].ns, q),
            forall|j: int|
                0 <= j < old(doc)@.elems.len() && j != self@ ==> final(doc)@.elems[j] == (
                #[trigger] old(doc)@.elems[j]),
            final(doc)@.elems.len() == old(doc)@.elems.len(),
            final(doc)@.elems[self@] == (ElemV {
                ns: final(doc)@.elems[self@].ns,
                ..old(doc)@.elems[self@]
            }),
            final(doc)@.version == old(doc)@.version,
            final(doc)@.standalone == old(doc)@.standalone,
    {
        let ghost d = doc@;
        proof {
            assert(sorted_unique(d.elems[self@].attrs));
            assert(sorted_unique(d.elems[self@].ns));
        }
        let removed: Option<String> = match self.namespace_decls(doc).get(prefix) {
            Some(v) => Some(v.to_owned()),
            None => None,
        };
        let data = &mut doc.store[self.idx()];
        data.namespace_decls.remove(prefix);
        proof {
            let d2 = DocV {
                elems: d.elems.update(self@, ElemV { ns: doc@.elems[self@].ns, ..d.elems[self@] }),
                ..d
            };
            assert(doc@ =~~= d2);
            lemma_same_structure_wf(d, d2);
        }
        removed
    }
}

} // verus!
