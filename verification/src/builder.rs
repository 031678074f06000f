//! A fluent construction helper for elements: accumulate a name, attributes,
//! namespace declarations and optional text content, then allocate.

use vstd::prelude::*;
use crate::document::{Document, Node};
use crate::element::Element;
use crate::error::Error;
use crate::model::{NodeV, valid_id, parent_of, alloc_tr, attach_tr};
use crate::order::{full_of, local_name};
use crate::order::{join_name, split_name};
use crate::strmap::{Smap, has_key, val_of};

verus! {

/// Accumulates the parts of an element before it is allocated. Finish with
/// [`ElementBuilder::finish`] or [`ElementBuilder::push_to`].
#[derive(Debug)]
pub struct ElementBuilder {
    full_name: String,
    attributes: Smap,
    namespace_decls: Smap,
    text_content: Option<String>,
}

impl ElementBuilder {
    /// The accumulated full name.
    pub closed spec fn bname(&self) -> Seq<char> {
        self.full_name@
    }

    /// The accumulated attributes.
    pub closed spec fn battrs(&self) -> Seq<(Seq<char>, Seq<char>)> {
        self.attributes@
    }

    /// The accumulated namespace declarations.
    pub closed spec fn bns(&self) -> Seq<(Seq<char>, Seq<char>)> {
        self.namespace_decls@
    }

    /// The accumulated text content.
    pub closed spec fn btext(&self) -> Option<Seq<char>> {
        match self.text_content {
            Some(ref t) => Some(t@),
            None => None,
        }
    }

    pub closed spec fn bwf(&self) -> bool {
        self.attributes.wf() && self.namespace_decls.wf()
    }

    pub(crate) fn start(full_name: String) -> (r: ElementBuilder)
        ensures
            r.bname() == full_name@,
            r.battrs() =~= Seq::<(Seq<char>, Seq<char>)>::empty(),
            r.bns() =~= Seq::<(Seq<char>, Seq<char>)>::empty(),
            r.btext() is None,
            r.bwf(),
    {
        ElementBuilder {
            full_name,
            attributes: Smap::new(),
            namespace_decls: Smap::new(),
            text_content: None,
        }
    }

    /// Replaces the namespace prefix of the accumulated name, keeping its
    /// local part; an empty prefix removes the prefix.
    pub fn prefix(self, prefix: &str) -> (r: ElementBuilder)
        ensures
            r.bname() == full_of(prefix@, local_name(self.bname())),
            r.battrs() == self.battrs(),
            r.bns() == self.bns(),
            r.btext() == self.btext(),
            r.bwf() == self.bwf(),
    {
        let new_name = {
            let (_, name) = split_name(self.full_name.as_str());
            join_name(prefix, name)
        };
        ElementBuilder { full_name: new_name, ..self }
    }

    /// Adds or replaces one attribute.
    pub fn attribute(self, name: &str, value: &str) -> (r: ElementBuilder)
        requires
            self.bwf(),
        ensures
            r.bwf(),
            r.bname() == self.bname(),
            r.bns() == self.bns(),
            r.btext() == self.btext(),
            forall|q: Seq<char>| #[trigger] has_key(r.battrs(), q) <==> (has_key(self.battrs(), q)
                || q == name@),
            val_of(r.battrs(), name@) == value@,
            forall|q: Seq<char>|
                q != name@ && #[trigger] has_key(self.battrs(), q) ==> val_of(r.battrs(), q)
                    == val_of(self.battrs(), q),
    {
        let mut b = self;
        b.attributes.insert(name.to_owned(), value.to_owned());
        b
    }

    /// Adds or replaces one namespace declaration.
    pub fn namespace_decl(self, prefix: &str, namespace: &str) -> (r: ElementBuilder)
        requires
            self.bwf(),
        ensures
            r.bwf(),
            r.bname() == self.bname(),
            r.battrs() == self.battrs(),
            r.btext() == self.btext(),
            forall|q: Seq<char>| #[trigger] has_key(r.bns(), q) <==> (has_key(self.bns(), q) || q
                == prefix@),
            val_of(r.bns(), prefix@) == namespace@,
            forall|q: Seq<char>|
                q != prefix@ && #[trigger] has_key(self.bns(), q) ==> val_of(r.bns(), q) == val_of(
                    self.bns(),
                    q,
                ),
    {
        let mut b = self;
        b.namespace_decls.insert(prefix.to_owned(), namespace.to_owned());
        b
    }

    /// Sets the flat text content the element will get as its single child.
    pub fn text_content(self, text: &str) -> (r: ElementBuilder)
        ensures
            r.bname() == self.bname(),
            r.battrs() == self.battrs(),
            r.bns() == self.bns(),
            r.btext() == Some(text@),
            r.bwf() == self.bwf(),
    {
        ElementBuilder { text_content: Some(text.to_owned()), ..self }
    }

    /// Allocates the element (and its text child, when text was given) and
    /// returns its handle.
    pub fn finish(self, doc: &mut Document) -> (r: Element)
        requires
            old(doc).wf(),
            self.bwf(),
        ensures
            final(doc).wf(),
            r@ == old(doc)@.elems.len(),
            valid_id(final(doc)@, r@),
            parent_of(final(doc)@, r@) is None,
            self.btext() is None ==> final(doc)@ == alloc_tr(
                old(doc)@,
                self.bname(),
                self.battrs(),
                self.bns(),
            ),
            self.btext() is Some ==> final(doc)@ == attach_tr(
                alloc_tr(old(doc)@, self.bname(), self.battrs(), self.bns()),
                r@,
                0,
                NodeV::Text(self.btext()->0),
            ),
    {
        let ElementBuilder { full_name, attributes, namespace_decls, text_content } = self;
        let elem = Element::with_data(doc, full_name, attributes, namespace_decls);
        match text_content {
            Some(text) => {
                let r = elem.push_child(doc, Node::Text(text));
                proof {
                    assert(r is Ok);
                }
            },
            None => {
            },
        }
        elem
    }

    /// Allocates the element and attaches it under `parent`.
    pub fn push_to(self, doc: &mut Document, parent: Element) -> (r: Element)
        requires
            old(doc).wf(),
            self.bwf(),
            valid_id(old(doc)@, parent@),
        ensures
            final(doc).wf(),
            r@ == old(doc)@.elems.len(),
            valid_id(final(doc)@, r@),
            parent_of(final(doc)@, r@) == Some(parent@),
            final(doc)@ == ({
                let after_finish = if self.btext() is None {
                    alloc_tr(old(doc)@, self.bname(), self.battrs(), self.bns())
                } else {
                    attach_tr(
                        alloc_tr(old(doc)@, self.bname(), self.battrs(), self.bns()),
                        old(doc)@.elems.len() as int,
                        0,
                        NodeV::Text(self.btext()->0),
                    )
                };
                attach_tr(
                    after_finish,
                    parent@,
                    after_finish.elems[parent@].children.len() as int,
                    NodeV::Elem(old(doc)@.elems.len() as int),
                )
            }),
    {
        let ghost d0 = old(doc)@;
        let elem = self.finish(doc);
        proof {
            crate::model::lemma_alloc_wf(d0, self.bname(), self.battrs(), self.bns());
            if self.btext() is Some {
                let d1 = alloc_tr(d0, self.bname(), self.battrs(), self.bns());
                lemma_attach_keeps_unreached(d1, elem@, parent@);
            }
        }
        let res = elem.push_to(doc, parent);
        proof {
            assert(res is Ok);
        }
        elem
    }
}

/// Attaching a text child to `e` does not make any chain reach `e` that did
/// not reach it before.
proof fn lemma_attach_keeps_unreached(d1: crate::model::DocV, e: int, p: int)
    requires
        crate::model::wf_doc(d1),
        valid_id(d1, e),
        valid_id(d1, p),
        !crate::model::reaches(d1, p, e),
    ensures
        forall|t: Seq<char>|
            !crate::model::reaches(#[trigger] attach_tr(d1, e, 0, NodeV::Text(t)), p, e),
{
    assert forall|t: Seq<char>|
        !crate::model::reaches(#[trigger] attach_tr(d1, e, 0, NodeV::Text(t)), p, e) by {
        let d2 = attach_tr(d1, e, 0, NodeV::Text(t));
        assert(d2.elems.len() == d1.elems.len());
        assert forall|x: int| valid_id(d1, x) implies (#[trigger] crate::model::parent_of(d2, x))
            == crate::model::parent_of(d1, x) by {}
        if crate::model::reaches(d2, p, e) {
            let k = choose|k: nat| crate::model::anc(d2, p, k) == Some(e);
            lemma_anc_eq(d1, d2, p, k);
            assert(crate::model::anc(d1, p, k) == Some(e));
            assert(crate::model::reaches(d1, p, e));
        }
    }
}

/// Chains are the same in two documents with the same parents everywhere.
proof fn lemma_anc_eq(d1: crate::model::DocV, d2: crate::model::DocV, i: int, k: nat)
    requires
        d2.elems.len() == d1.elems.len(),
        forall|x: int|
            valid_id(d1, x) ==> (#[trigger] crate::model::parent_of(d2, x))
                == crate::model::parent_of(d1, x),
    ensures
        crate::model::anc(d2, i, k) == crate::model::anc(d1, i, k),
    decreases k,
{
    if k > 0 {
        lemma_anc_eq(d1, d2, i, (k - 1) as nat);
    }
}

impl Element {
    /// Starts building an element with the given full name.
    pub fn build(name: &str) -> (r: ElementBuilder)
        ensures
            r.bname() == name@,
            r.battrs() =~= Seq::<(Seq<char>, Seq<char>)>::empty(),
            r.bns() =~= Seq::<(Seq<char>, Seq<char>)>::empty(),
            r.btext() is None,
            r.bwf(),
    {
        ElementBuilder::start(name.to_owned())
    }
}

} // verus!
