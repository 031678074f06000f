//! Finding children by local name, and by name and namespace.

use vstd::prelude::*;
use crate::document::{Document, Node};
use crate::element::Element;
use crate::model::{DocV, NodeV, valid_id, wf_doc};
use crate::ns::spec_prefixes;
use crate::order::{local_name, name_prefix, str_eq};
use crate::strmap::{has_key, val_of};

verus! {

/// Whether the element child `c` has the wanted local name.
pub open spec fn name_matches(d: DocV, c: int, name: Seq<char>) -> bool {
    local_name(d.elems[c].name) == name
}

/// Whether `c` itself declares its own prefix to mean `url`.
pub open spec fn self_declared(d: DocV, c: int, url: Seq<char>) -> bool {
    &&& has_key(d.elems[c].ns, name_prefix(d.elems[c].name))
    &&& val_of(d.elems[c].ns, name_prefix(d.elems[c].name)) == url
}

/// Whether the child `c` of `i` counts as quantified by `url`: its prefix is
/// among the prefixes valid for `url` at `i`, or `c` declares it itself.
pub open spec fn quantified_match(d: DocV, i: int, c: int, name: Seq<char>, url: Seq<char>) -> bool {
    name_matches(d, c, name) && (spec_prefixes(d, i, url).contains(name_prefix(d.elems[c].name))
        || self_declared(d, c, url))
}

impl Element {
    /// Tests whether this element declares `prefix -> url` directly.
    fn has_self_declared_namespace(&self, doc: &Document, prefix: &str, url: &str) -> (r: bool)
        requires
            doc.wf(),
            valid_id(doc@, self@),
        ensures
            r == (has_key(doc@.elems[self@].ns, prefix@) && val_of(doc@.elems[self@].ns, prefix@)
                == url@),
    {
        match self.namespace_decls(doc).get(prefix) {
            Some(v) => str_eq(v, url),
            None => false,
        }
    }

    /// The first direct child element with local name `name`.
    #[verifier::loop_isolation(false)]
    pub fn find(&self, doc: &Document, name: &str) -> (r: Option<Element>)
        requires
            doc.wf(),
            valid_id(doc@, self@),
        ensures
            match r {
                Some(e) => valid_id(doc@, e@) && exists|k: int|
                    0 <= k < doc@.elems[self@].children.len() && doc@.elems[self@].children[k]
                        == NodeV::Elem(e@) && name_matches(doc@, e@, name@) && (forall|j: int|
                        0 <= j < k && (#[trigger] doc@.elems[self@].children[j]) is Elem
                            ==> !name_matches(doc@, doc@.elems[self@].children[j]->Elem_0, name@)),
                None => forall|j: int|
                    0 <= j < doc@.elems[self@].children.len() && (
                    #[trigger] doc@.elems[self@].children[j]) is Elem ==> !name_matches(
                        doc@,
                        doc@.elems[self@].children[j]->Elem_0,
                        name@,
                    ),
            },
    {
        let ghost d = doc@;
        let ghost cs = d.elems[self@].children;
        let kids = self.children(doc);
        let n = kids.len();
        let mut i: usize = 0;
        while i < n
            invariant
                0 <= i <= n,
                forall|j: int|
                    0 <= j < i && (#[trigger] cs[j]) is Elem ==> !name_matches(
                        d,
                        cs[j]->Elem_0,
                        name@,
                    ),
            decreases n - i,
        {
            if let Node::Element(e) = &kids[i] {
                proof {
                    assert(cs[i as int] == NodeV::Elem(e@));
                    assert(d.elems[self@].children[i as int] is Elem);
                    assert(0 < e@ < d.elems.len());
                }
                if str_eq(e.name(doc), name) {
                    return Some(*e);
                }
            }
            i = i + 1;
        }
        None
    }

    /// All direct child elements with local name `name`, in order.
    #[verifier::loop_isolation(false)]
    pub fn find_all(&self, doc: &Document, name: &str) -> (r: Vec<Element>)
        requires
            doc.wf(),
            valid_id(doc@, self@),
        ensures
            Seq::new(r@.len(), |i: int| r@[i]@) == find_all_ids(
                doc@,
                doc@.elems[self@].children,
                name@,
            ),
            forall|i: int| 0 <= i < r@.len() ==> valid_id(doc@, #[trigger] r@[i]@),
    {
        let ghost d = doc@;
        let ghost cs = d.elems[self@].children;
        let kids = self.children(doc);
        let n = kids.len();
        let mut out: Vec<Element> = Vec::new();
        let mut i: usize = 0;
        while i < n
            invariant
                0 <= i <= n,
                Seq::new(out@.len(), |j: int| out@[j]@) =~= find_all_ids(
                    d,
                    cs.take(i as int),
                    name@,
                ),
                forall|j: int| 0 <= j < out@.len() ==> valid_id(d, #[trigger] out@[j]@),
            decreases n - i,
        {
            proof {
                assert(cs.take(i as int + 1).drop_last() =~= cs.take(i as int));
                assert(cs.take(i as int + 1).last() == cs[i as int]);
            }
            if let Node::Element(e) = &kids[i] {
                proof {
                    assert(cs[i as int] == NodeV::Elem(e@));
                    assert(d.elems[self@].children[i as int] is Elem);
                    assert(0 < e@ < d.elems.len());
                }
                if str_eq(e.name(doc), name) {
                    out.push(*e);
                }
            }
            proof {
                assert(Seq::new(out@.len(), |j: int| out@[j]@) =~= find_all_ids(
                    d,
                    cs.take(i as int + 1),
                    name@,
                ));
            }
            i = i + 1;
        }
        proof {
            assert(cs.take(n as int) =~= cs);
        }
        out
    }

    /// The first direct child element with local name `name` that belongs to
    /// the namespace `namespace_url`, judged by the prefixes valid at this
    /// element and by the child's own declarations.
    #[verifier::loop_isolation(false)]
    pub fn find_quantified(&self, doc: &Document, name: &str, namespace_url: &str) -> (r: Option<
        Element,
    >)
        requires
            doc.wf(),
            valid_id(doc@, self@),
        ensures
            match r {
                Some(e) => valid_id(doc@, e@) && exists|k: int|
                    0 <= k < doc@.elems[self@].children.len() && doc@.elems[self@].children[k]
                        == NodeV::Elem(e@) && quantified_match(doc@, self@, e@, name@,
                    namespace_url@) && (forall|j: int|
                        0 <= j < k && (#[trigger] doc@.elems[self@].children[j]) is Elem
                            ==> !quantified_match(doc@, self@,
                            doc@.elems[self@].children[j]->Elem_0, name@, namespace_url@)),
                None => forall|j: int|
                    0 <= j < doc@.elems[self@].children.len() && (
                    #[trigger] doc@.elems[self@].children[j]) is Elem ==> !quantified_match(
                        doc@,
                        self@,
                        doc@.elems[self@].children[j]->Elem_0,
                        name@,
                        namespace_url@,
                    ),
            },
    {
        let ghost d = doc@;
        let ghost cs = d.elems[self@].children;
        let admissible = self.collect_namespace_prefixes(doc, namespace_url);
        let kids = self.children(doc);
        let n = kids.len();
        let mut i: usize = 0;
        while i < n
            invariant
                0 <= i <= n,
                forall|j: int|
                    0 <= j < i && (#[trigger] cs[j]) is Elem ==> !quantified_match(
                        d,
                        self@,
                        cs[j]->Elem_0,
                        name@,
                        namespace_url@,
                    ),
            decreases n - i,
        {
            if let Node::Element(e) = &kids[i] {
                proof {
                    assert(cs[i as int] == NodeV::Elem(e@));
                    assert(d.elems[self@].children[i as int] is Elem);
                    assert(0 < e@ < d.elems.len());
                }
                let (child_prefix, child_name) = e.prefix_name(doc);
                if str_eq(child_name, name) {
                    if admissible.contains(child_prefix) {
                        return Some(*e);
                    }
                    if e.has_self_declared_namespace(doc, child_prefix, namespace_url) {
                        return Some(*e);
                    }
                }
            }
            i = i + 1;
        }
        None
    }

    /// All direct child elements with local name `name` that belong to the
    /// namespace `namespace_url`; a child that qualifies both through the
    /// prefixes in scope and through its own declaration is listed twice.
    #[verifier::loop_isolation(false)]
    pub fn find_all_quantified(&self, doc: &Document, name: &str, namespace_url: &str) -> (r: Vec<
        Element,
    >)
        requires
            doc.wf(),
            valid_id(doc@, self@),
        ensures
            Seq::new(r@.len(), |i: int| r@[i]@) == find_all_q_ids(
                doc@,
                self@,
                doc@.elems[self@].children,
                name@,
                namespace_url@,
            ),
    {
        let ghost d = doc@;
        let ghost cs = d.elems[self@].children;
        let admissible = self.collect_namespace_prefixes(doc, namespace_url);
        let kids = self.children(doc);
        let n = kids.len();
        let mut out: Vec<Element> = Vec::new();
        let mut i: usize = 0;
        while i < n
            invariant
                0 <= i <= n,
                Seq::new(out@.len(), |j: int| out@[j]@) =~= find_all_q_ids(
                    d,
                    self@,
                    cs.take(i as int),
                    name@,
                    namespace_url@,
                ),
            decreases n - i,
        {
            proof {
                assert(cs.take(i as int + 1).drop_last() =~= cs.take(i as int));
                assert(cs.take(i as int + 1).last() == cs[i as int]);
            }
            if let Node::Element(e) = &kids[i] {
                proof {
                    assert(cs[i as int] == NodeV::Elem(e@));
                    assert(d.elems[self@].children[i as int] is Elem);
                    assert(0 < e@ < d.elems.len());
                }
                let (child_prefix, child_name) = e.prefix_name(doc);
                if str_eq(child_name, name) {
                    if admissible.contains(child_prefix) {
                        out.push(*e);
                    }
                    if e.has_self_declared_namespace(doc, child_prefix, namespace_url) {
                        out.push(*e);
                    }
                }
            }
            proof {
                assert(Seq::new(out@.len(), |j: int| out@[j]@) =~= find_all_q_ids(
                    d,
                    self@,
                    cs.take(i as int + 1),
                    name@,
                    namespace_url@,
                ));
            }
            i = i + 1;
        }
        proof {
            assert(cs.take(n as int) =~= cs);
        }
        out
    }
}

/// The handles `find_all` returns, in order.
pub open spec fn find_all_ids(d: DocV, s: Seq<NodeV>, name: Seq<char>) -> Seq<int>
    decreases s.len(),
{
    if s.len() == 0 {
        Seq::empty()
    } else {
        find_all_ids(d, s.drop_last(), name) + (match s.last() {
            NodeV::Elem(c) => if name_matches(d, c, name) {
                seq![c]
            } else {
                Seq::empty()
            },
            _ => Seq::empty(),
        })
    }
}

/// The handles `find_all_quantified` returns, in order: one entry when the
/// child qualifies through the prefixes in scope, one more when it also
/// declares the namespace itself.
pub open spec fn find_all_q_ids(
    d: DocV,
    i: int,
    s: Seq<NodeV>,
    name: Seq<char>,
    url: Seq<char>,
) -> Seq<int>
    decreases s.len(),
{
    if s.len() == 0 {
        Seq::empty()
    } else {
        find_all_q_ids(d, i, s.drop_last(), name, url) + (match s.last() {
            NodeV::Elem(c) => if name_matches(d, c, name) {
                (if spec_prefixes(d, i, url).contains(name_prefix(d.elems[c].name)) {
                    seq![c]
                } else {
                    Seq::empty()
                }) + (if self_declared(d, c, url) {
                    seq![c]
                } else {
                    Seq::empty()
                })
            } else {
                Seq::empty()
            },
            _ => Seq::empty(),
        })
    }
}

} // verus!
