//! The arena: one growable store holding every element record of a document,
//! addressed by stable handles, plus the document-level metadata.

use vstd::prelude::*;
use crate::element::Element;
use crate::error::Error;
use crate::model::{DocV, ElemV, NodeV, wf_doc, valid_id, parent_of, reaches, terminates,
    attach_tr, remove_tr, lemma_anc_unfold, lemma_container_reaches_only_self};
use crate::element::push_ok;
use crate::strmap::Smap;

verus! {

/// An XML node: an element handle or a leaf carrying its text.
#[derive(Debug, PartialEq, Eq)]
pub enum Node {
    /// XML element, held by handle.
    Element(Element),
    /// Character data.
    Text(String),
    /// Comment.
    Comment(String),
    /// CDATA section.
    CData(String),
    /// Processing instruction.
    PI(String),
    /// Document type declaration.
    DocType(String),
}

impl View for Node {
    type V = NodeV;

    open spec fn view(&self) -> NodeV {
        match self {
            Node::Element(e) => NodeV::Elem(e@),
            Node::Text(s) => NodeV::Text(s@),
            Node::Comment(s) => NodeV::Comment(s@),
            Node::CData(s) => NodeV::CData(s@),
            Node::PI(s) => NodeV::PI(s@),
            Node::DocType(s) => NodeV::DocType(s@),
        }
    }
}

impl Node {
    /// The element handle if this node is an element.
    pub fn as_element(&self) -> (r: Option<Element>)
        ensures
            match r {
                Some(e) => self@ == NodeV::Elem(e@),
                None => !(self@ is Elem),
            },
    {
        match self {
            Node::Element(e) => Some(*e),
            _ => None,
        }
    }
}


/// A structural copy of one node (handles are copied, text is cloned).
pub fn clone_node(n: &Node) -> (r: Node)
    ensures
        r@ == n@,
{
    match n {
        Node::Element(e) => Node::Element(*e),
        Node::Text(s) => Node::Text(s.clone()),
        Node::Comment(s) => Node::Comment(s.clone()),
        Node::CData(s) => Node::CData(s.clone()),
        Node::PI(s) => Node::PI(s.clone()),
        Node::DocType(s) => Node::DocType(s.clone()),
    }
}

/// The sequence of node views a node vector stands for.
pub open spec fn nodes_view(v: Seq<Node>) -> Seq<NodeV> {
    Seq::new(v.len(), |i: int| v[i]@)
}

/// One element record of the arena.
pub struct ElementData {
    pub(crate) full_name: String,
    pub(crate) attributes: Smap,
    pub(crate) namespace_decls: Smap,
    pub(crate) parent: Option<Element>,
    pub(crate) children: Vec<Node>,
}

impl View for ElementData {
    type V = ElemV;

    open(crate) spec fn view(&self) -> ElemV {
        ElemV {
            name: self.full_name@,
            attrs: self.attributes@,
            ns: self.namespace_decls@,
            parent: match self.parent {
                Some(e) => Some(e@),
                None => None,
            },
            children: nodes_view(self.children@),
        }
    }
}

/// An XML document or document fragment: the arena of element records, with
/// the container sentinel at handle 0, and the declared XML version and
/// standalone flag.
pub struct Document {
    pub(crate) store: Vec<ElementData>,
    pub(crate) version: String,
    pub(crate) standalone: bool,
}

impl View for Document {
    type V = DocV;

    open(crate) spec fn view(&self) -> DocV {
        DocV {
            elems: Seq::new(self.store@.len(), |i: int| self.store@[i]@),
            version: self.version@,
            standalone: self.standalone,
        }
    }
}

impl Document {
    /// Structural well-formedness; every operation of the library preserves
    /// it.
    pub open spec fn wf(&self) -> bool {
        wf_doc(self@)
    }

    /// Creates a blank document: only the container record, version "1.0",
    /// not standalone.
    pub fn new() -> (r: Document)
        ensures
            r.wf(),
            r@ == crate::model::empty_doc(),
            r@.elems.len() == 1,
            r@.elems[0].children.len() == 0,
            r@.version == "1.0"@,
            r@.standalone == false,
    {
        let container = ElementData {
            full_name: String::new(),
            attributes: Smap::new(),
            namespace_decls: Smap::new(),
            parent: None,
            children: Vec::new(),
        };
        let mut store: Vec<ElementData> = Vec::new();
        store.push(container);
        let r = Document { store, version: String::from_str("1.0"), standalone: false };
        proof {
            assert(r@.elems.len() == 1);
            assert(nodes_view(Seq::<Node>::empty()) =~= Seq::<NodeV>::empty());
            assert(r@ =~~= crate::model::empty_doc());
            assert(r@.elems[0].children.len() == 0);
            lemma_anc_unfold(r@, 0);
            assert(terminates(r@, 0));
        }
        r
    }

    /// The container element: the invisible root that owns all top-level
    /// nodes. It has no parent and can never be moved or detached.
    pub fn container(&self) -> (r: Element)
        ensures
            r@ == 0,
    {
        Element::container_handle()
    }

    /// `true` until a first element is allocated or parsed.
    pub fn is_empty(&self) -> (r: bool)
        requires
            self.wf(),
        ensures
            r == (self@.elems.len() == 1),
    {
        self.store.len() == 1
    }

    /// The top-level nodes, owned by the container.
    pub fn root_nodes<'a>(&'a self) -> (r: &'a Vec<Node>)
        requires
            self.wf(),
        ensures
            nodes_view(r@) == self@.elems[0].children,
    {
        &self.store[0].children
    }

    /// The top-level nodes, under the name the arena-facing API uses.
    pub fn nodes<'a>(&'a self) -> (r: &'a Vec<Node>)
        requires
            self.wf(),
        ensures
            nodes_view(r@) == self@.elems[0].children,
    {
        self.root_nodes()
    }

    /// The first top-level node that is an element, if any.
    pub fn root_element(&self) -> (r: Option<Element>)
        requires
            self.wf(),
        ensures
            match r {
                Some(e) => exists|k: int|
                    0 <= k < self@.elems[0].children.len() && self@.elems[0].children[k]
                        == NodeV::Elem(e@) && (forall|j: int|
                        0 <= j < k ==> !((#[trigger] self@.elems[0].children[j]) is Elem)),
                None => forall|k: int|
                    0 <= k < self@.elems[0].children.len() ==> !((
                    #[trigger] self@.elems[0].children[k]) is Elem),
            },
    {
        let kids = &self.store[0].children;
        let n = kids.len();
        let mut i: usize = 0;
        while i < n
            invariant
                self.wf(),
                0 <= i <= n,
                n == self@.elems[0].children.len(),
                nodes_view(kids@) == self@.elems[0].children,
                forall|j: int| 0 <= j < i ==> !((#[trigger] self@.elems[0].children[j]) is Elem),
            decreases n - i,
        {
            if let Node::Element(e) = &kids[i] {
                proof {
                    assert(self@.elems[0].children[i as int] == NodeV::Elem(e@));
                }
                return Some(*e);
            }
            i = i + 1;
        }
        None
    }
}

impl Document {
    /// Appends a node to the end of the top-level nodes. Pushing an element
    /// is pushing it under the container: an element that already has a
    /// parent is refused with `HasAParent`, the container itself with
    /// `ContainerCannotMove`, and a failed call changes nothing.
    pub fn push_root_node(&mut self, node: Node) -> (r: Result<(), Error>)
        requires
            old(self).wf(),
            node@ is Elem ==> valid_id(old(self)@, node@->Elem_0),
        ensures
            final(self).wf(),
            node@ is Elem && node@->Elem_0 == 0 ==> r == Err::<(), Error>(
                Error::ContainerCannotMove,
            ) && final(self)@ == old(self)@,
            node@ is Elem && node@->Elem_0 != 0 && parent_of(old(self)@, node@->Elem_0) is Some
                ==> r == Err::<(), Error>(Error::HasAParent) && final(self)@ == old(self)@,
            push_ok(old(self)@, node@) ==> r == Ok::<(), Error>(()) && final(self)@ == attach_tr(
                old(self)@,
                0,
                old(self)@.elems[0].children.len() as int,
                node@,
            ),
    {
        proof {
            if node@ is Elem && node@->Elem_0 != 0 {
                lemma_container_reaches_only_self(self@, node@->Elem_0);
            }
        }
        let c = self.container();
        c.push_child(self, node)
    }

    /// `push_root_node`, under the name the arena-facing API uses.
    pub fn push_node(&mut self, node: Node) -> (r: Result<(), Error>)
        requires
            old(self).wf(),
            node@ is Elem ==> valid_id(old(self)@, node@->Elem_0),
        ensures
            final(self).wf(),
            node@ is Elem && node@->Elem_0 == 0 ==> r == Err::<(), Error>(
                Error::ContainerCannotMove,
            ) && final(self)@ == old(self)@,
            node@ is Elem && node@->Elem_0 != 0 && parent_of(old(self)@, node@->Elem_0) is Some
                ==> r == Err::<(), Error>(Error::HasAParent) && final(self)@ == old(self)@,
            push_ok(old(self)@, node@) ==> r == Ok::<(), Error>(()) && final(self)@ == attach_tr(
                old(self)@,
                0,
                old(self)@.elems[0].children.len() as int,
                node@,
            ),
    {
        self.push_root_node(node)
    }

    /// Inserts a node among the top-level nodes at `index`, with the same
    /// errors as `push_root_node`.
    pub fn insert_node(&mut self, index: usize, node: Node) -> (r: Result<(), Error>)
        requires
            old(self).wf(),
            index <= old(self)@.elems[0].children.len(),
            node@ is Elem ==> valid_id(old(self)@, node@->Elem_0),
        ensures
            final(self).wf(),
            node@ is Elem && node@->Elem_0 == 0 ==> r == Err::<(), Error>(
                Error::ContainerCannotMove,
            ) && final(self)@ == old(self)@,
            node@ is Elem && node@->Elem_0 != 0 && parent_of(old(self)@, node@->Elem_0) is Some
                ==> r == Err::<(), Error>(Error::HasAParent) && final(self)@ == old(self)@,
            push_ok(old(self)@, node@) ==> r == Ok::<(), Error>(()) && final(self)@ == attach_tr(
                old(self)@,
                0,
                index as int,
                node@,
            ),
    {
        proof {
            if node@ is Elem && node@->Elem_0 != 0 {
                lemma_container_reaches_only_self(self@, node@->Elem_0);
            }
        }
        let c = self.container();
        c.insert_child(self, index, node)
    }

    /// Removes and returns the top-level node at `index`; a removed element
    /// has its parent reference cleared.
    pub fn remove_node(&mut self, index: usize) -> (r: Node)
        requires
            old(self).wf(),
            index < old(self)@.elems[0].children.len(),
        ensures
            final(self).wf(),
            r@ == old(self)@.elems[0].children[index as int],
            final(self)@ == remove_tr(old(self)@, 0, index as int),
    {
        let c = self.container();
        c.remove_child(self, index)
    }
}

} // verus!
