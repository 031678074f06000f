//! The writer adapter: walks the tree depth first and turns it into the
//! event stream the codec serializes. Attributes and namespace declarations
//! are emitted in lexicographically sorted order (they are stored sorted),
//! an element without children becomes a self-closing tag, and an optional
//! leading declaration comes first.

use vstd::prelude::*;
use crate::codec::{render, rendered_of};
use crate::document::{Document, Node};
use crate::element::Element;
use crate::error::Error;
use crate::events::{EventV, WriteOptions, XmlEvent, attrs_view, events_view};
use crate::model::{DocV, ElemV, NodeV, subtree_fuel, valid_id, lemma_subtree_fuel_pos,
    lemma_subtree_fuel_child};

verus! {

/// The attribute name a namespace declaration is written under.
pub open spec fn xmlns_attr_name(p: Seq<char>) -> Seq<char> {
    if p.len() == 0 {
        "xmlns"@
    } else {
        "xmlns:"@ + p
    }
}

/// The attribute list an element is written with: its attributes in sorted
/// order, then its namespace declarations in sorted order under their
/// `xmlns[:prefix]` names.
pub open spec fn merged_attrs(el: ElemV) -> Seq<(Seq<char>, Seq<char>)> {
    el.attrs + Seq::new(el.ns.len(), |i: int| (xmlns_attr_name(el.ns[i].0), el.ns[i].1))
}

/// The events a children list is written as.
pub open spec fn events_of_nodes(d: DocV, s: Seq<NodeV>, fuel: nat) -> Seq<EventV>
    decreases fuel, s.len(), 0int,
{
    if s.len() == 0 {
        Seq::empty()
    } else {
        events_of_nodes(d, s.drop_last(), fuel) + event_of_node(d, s.last(), fuel)
    }
}

/// The events one node is written as: a leaf maps to its one event, an
/// element to a self-closing tag or a start tag, its children and an end
/// tag.
pub open spec fn event_of_node(d: DocV, n: NodeV, fuel: nat) -> Seq<EventV>
    decreases fuel, 0int, 1int,
{
    match n {
        NodeV::Text(t) => seq![EventV::Text(t)],
        NodeV::Comment(t) => seq![EventV::Comment(t)],
        NodeV::CData(t) => seq![EventV::CData(t)],
        NodeV::PI(t) => seq![EventV::PI(t)],
        NodeV::DocType(t) => seq![EventV::DocType(t)],
        NodeV::Elem(e) => if !valid_id(d, e) || fuel == 0 {
            Seq::empty()
        } else {
            let el = d.elems[e];
            if el.children.len() == 0 {
                seq![EventV::Empty { name: el.name, attrs: merged_attrs(el) }]
            } else {
                seq![EventV::Start { name: el.name, attrs: merged_attrs(el) }] + events_of_nodes(
                    d,
                    el.children,
                    (fuel - 1) as nat,
                ) + seq![EventV::End(el.name)]
            }
        },
    }
}

/// The declaration event of a document.
pub open spec fn decl_event(d: DocV) -> EventV {
    EventV::Decl {
        version: d.version,
        encoding: Some("UTF-8"@),
        standalone: if d.standalone {
            Some("yes"@)
        } else {
            None
        },
    }
}

/// The whole event stream a document is written as.
pub open spec fn spec_events(d: DocV, write_decl: bool) -> Seq<EventV> {
    (if write_decl {
        seq![decl_event(d)]
    } else {
        Seq::<EventV>::empty()
    }) + events_of_nodes(d, d.elems[0].children, subtree_fuel(d, 0)) + seq![EventV::Eof]
}

/// The written attribute list of one element, as owned pairs.
#[verifier::loop_isolation(false)]
fn merged_attr_pairs(doc: &Document, e: Element) -> (r: Vec<(String, String)>)
    requires
        doc.wf(),
        valid_id(doc@, e@),
    ensures
        attrs_view(r@) == merged_attrs(doc@.elems[e@]),
{
    let ghost el = doc@.elems[e@];
    let mut out: Vec<(String, String)> = Vec::new();
    let attrs = e.attributes(doc);
    let na = attrs.len();
    let mut i: usize = 0;
    while i < na
        invariant
            0 <= i <= na,
            attrs_view(out@) =~= el.attrs.take(i as int),
        decreases na - i,
    {
        out.push((attrs.key_at(i).to_owned(), attrs.val_at(i).to_owned()));
        proof {
            assert(attrs_view(out@) =~= el.attrs.take(i as int + 1));
        }
        i = i + 1;
    }
    proof {
        assert(el.attrs.take(na as int) =~= el.attrs);
    }
    let ns = e.namespace_decls(doc);
    let nn = ns.len();
    let mut j: usize = 0;
    while j < nn
        invariant
            0 <= j <= nn,
            attrs_view(out@) =~= el.attrs + Seq::new(
                j as nat,
                |k: int| (xmlns_attr_name(el.ns[k].0), el.ns[k].1),
            ),
        decreases nn - j,
    {
        let p = ns.key_at(j);
        let attr_name = if p.unicode_len() == 0 {
            let n = String::from_str("xmlns");
            proof {
                assert(el.ns[j as int].0.len() == 0);
                assert(n@ == xmlns_attr_name(el.ns[j as int].0));
            }
            n
        } else {
            let mut n = String::from_str("xmlns:");
            n.append(p);
            proof {
                assert(el.ns[j as int].0.len() != 0);
                assert(n@ == "xmlns:"@ + el.ns[j as int].0);
                assert(n@ == xmlns_attr_name(el.ns[j as int].0));
            }
            n
        };
        proof {
            assert(attr_name@ == xmlns_attr_name(el.ns[j as int].0));
        }
        let value = ns.val_at(j).to_owned();
        out.push((attr_name, value));
        proof {
            let prev = el.attrs + Seq::new(
                j as nat,
                |k: int| (xmlns_attr_name(el.ns[k].0), el.ns[k].1),
            );
            let now = el.attrs + Seq::new(
                (j + 1) as nat,
                |k: int| (xmlns_attr_name(el.ns[k].0), el.ns[k].1),
            );
            assert(out@.len() == el.attrs.len() + j + 1);
            assert(out@.last().0@ == xmlns_attr_name(el.ns[j as int].0));
            assert(out@.last().1@ == el.ns[j as int].1);
            assert forall|idx: int| 0 <= idx < out@.len() implies attrs_view(out@)[idx]
                == now[idx] by {
                if idx < el.attrs.len() + j {
                    assert(attrs_view(out@)[idx] == prev[idx]);
                    assert(now[idx] == prev[idx]);
                } else {
                    assert(idx == el.attrs.len() + j);
                    assert(attrs_view(out@)[idx] == (out@.last().0@, out@.last().1@));
                }
            }
            assert(attrs_view(out@) =~= now);
        }
        j = j + 1;
    }
    proof {
        assert(attrs_view(out@) =~= merged_attrs(el));
    }
    out
}

/// Appends the events of `e`'s children.
#[verifier::loop_isolation(false)]
fn events_walk(doc: &Document, e: Element, out: &mut Vec<XmlEvent>)
    requires
        doc.wf(),
        valid_id(doc@, e@),
    ensures
        events_view(final(out)@) == events_view(old(out)@) + events_of_nodes(
            doc@,
            doc@.elems[e@].children,
            subtree_fuel(doc@, e@),
        ),
    decreases subtree_fuel(doc@, e@),
{
    let ghost d = doc@;
    let ghost fuel = subtree_fuel(d, e@);
    let ghost cs = d.elems[e@].children;
    proof {
        lemma_subtree_fuel_pos(d, e@);
    }
    let kids = e.children(doc);
    let n = kids.len();
    let mut i: usize = 0;
    while i < n
        invariant
            0 <= i <= n,
            events_view(out@) =~= events_view(old(out)@) + events_of_nodes(
                d,
                cs.take(i as int),
                fuel,
            ),
        decreases n - i,
    {
        proof {
            assert(cs.take(i as int + 1).drop_last() =~= cs.take(i as int));
            assert(cs.take(i as int + 1).last() == cs[i as int]);
        }
        let ghost before = events_view(out@);
        match &kids[i] {
            Node::Text(t) => {
                out.push(XmlEvent::Text(t.clone()));
            },
            Node::Comment(t) => {
                out.push(XmlEvent::Comment(t.clone()));
            },
            Node::CData(t) => {
                out.push(XmlEvent::CData(t.clone()));
            },
            Node::PI(t) => {
                out.push(XmlEvent::PI(t.clone()));
            },
            Node::DocType(t) => {
                out.push(XmlEvent::DocType(t.clone()));
            },
            Node::Element(c) => {
                proof {
                    assert(cs[i as int] == NodeV::Elem(c@));
                    assert(d.elems[e@].children[i as int] is Elem);
                    assert(0 < c@ < d.elems.len());
                    lemma_subtree_fuel_child(d, e@, c@);
                }
                let ghost elc = d.elems[c@];
                let pairs = merged_attr_pairs(doc, *c);
                let name = c.full_name(doc).to_owned();
                if c.has_children(doc) {
                    let end_tag = name.clone();
                    out.push(XmlEvent::Start { name, attrs: pairs });
                    proof {
                        assert(events_view(out@) =~= before + seq![
                            EventV::Start { name: elc.name, attrs: merged_attrs(elc) },
                        ]);
                    }
                    events_walk(doc, *c, out);
                    proof {
                        assert(subtree_fuel(d, c@) == (fuel - 1) as nat);
                        assert(events_view(out@) =~= before + seq![
                            EventV::Start { name: elc.name, attrs: merged_attrs(elc) },
                        ] + events_of_nodes(d, elc.children, (fuel - 1) as nat));
                    }
                    out.push(XmlEvent::End(end_tag));
                    proof {
                        assert(events_view(out@) =~= before + seq![
                            EventV::Start { name: elc.name, attrs: merged_attrs(elc) },
                        ] + events_of_nodes(d, elc.children, (fuel - 1) as nat) + seq![
                            EventV::End(elc.name),
                        ]);
                    }
                } else {
                    out.push(XmlEvent::Empty { name, attrs: pairs });
                    proof {
                        assert(events_view(out@) =~= before + seq![
                            EventV::Empty { name: elc.name, attrs: merged_attrs(elc) },
                        ]);
                    }
                }
            },
        }
        proof {
            assert(events_view(out@) =~= before + event_of_node(d, cs[i as int], fuel));
            assert(events_view(out@) =~= events_view(old(out)@) + events_of_nodes(
                d,
                cs.take(i as int + 1),
                fuel,
            ));
        }
        i = i + 1;
    }
    proof {
        assert(cs.take(n as int) =~= cs);
    }
}

impl Document {
    /// The event stream this document is written as: the optional leading
    /// declaration, each top-level node depth first, then end of stream.
    /// This is the whole writer: everything before the codec's byte output
    /// is decided here.
    pub fn to_events(&self, write_decl: bool) -> (r: Vec<XmlEvent>)
        requires
            self.wf(),
        ensures
            events_view(r@) == spec_events(self@, write_decl),
    {
        let mut out: Vec<XmlEvent> = Vec::new();
        if write_decl {
            let standalone = if self.standalone {
                Some(String::from_str("yes"))
            } else {
                None
            };
            out.push(
                XmlEvent::Decl {
                    version: self.version.clone(),
                    encoding: Some(String::from_str("UTF-8")),
                    standalone,
                },
            );
        }
        proof {
            if write_decl {
                assert(events_view(out@) =~= seq![decl_event(self@)]);
            } else {
                assert(events_view(out@) =~= Seq::<EventV>::empty());
            }
        }
        let c = self.container();
        events_walk(self, c, &mut out);
        out.push(XmlEvent::Eof);
        proof {
            assert(events_view(out@) =~= spec_events(self@, write_decl));
        }
        out
    }

    /// Serializes to a string with the given options: the event stream is
    /// `spec_events` of this document (the writer adapter above), and the
    /// codec's byte output for that stream is `rendered_of`.
    pub fn write_str_with_opts(&self, opts: WriteOptions) -> (r: Result<String, Error>)
        requires
            self.wf(),
        ensures
            match rendered_of(
                spec_events(self@, opts.write_decl),
                opts.indent_char,
                opts.indent_size as int,
            ) {
                Ok(cs) => r is Ok && r->Ok_0@ == cs,
                Err(e) => r == Err::<String, Error>(e),
            },
    {
        let events = self.to_events(opts.write_decl);
        render(&events, opts.indent_char, opts.indent_size)
    }

    /// Serializes to a string with the default options.
    pub fn write_str(&self) -> (r: Result<String, Error>)
        requires
            self.wf(),
        ensures
            match rendered_of(spec_events(self@, true), 32u8, 2) {
                Ok(cs) => r is Ok && r->Ok_0@ == cs,
                Err(e) => r == Err::<String, Error>(e),
            },
    {
        self.write_str_with_opts(WriteOptions::default())
    }
}

} // verus!
