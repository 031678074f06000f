//! The parser adapter: folds the codec's event stream into a document,
//! keeping a stack of open elements, splitting `xmlns` attributes into
//! namespace declarations, and enforcing the expected encoding when asked.

use vstd::prelude::*;
use crate::document::{Document, Node};
use crate::element::Element;
use crate::error::Error;
use crate::events::{EventV, ReadOptions, XmlEvent, attrs_view, events_view};
use crate::model::{DocV, ElemV, NodeV, alloc_tr, attach_tr, valid_id, parent_of, wf_doc,
    lemma_same_structure_wf};
use crate::order::{local_name, name_prefix, str_eq};
use crate::strmap::{Smap, smap_put};

verus! {

/// The spec side of the read options.
pub struct ROptsV {
    pub empty_text_node: bool,
    pub enforce_encoding: bool,
    pub encoding: Option<Seq<char>>,
}

pub open spec fn ropts_view(o: ReadOptions) -> ROptsV {
    ROptsV {
        empty_text_node: o.empty_text_node,
        enforce_encoding: o.enforce_encoding,
        encoding: match o.encoding {
            Some(e) => Some(e@),
            None => None,
        },
    }
}

/// One attribute of a start tag is either the default namespace declaration
/// (`xmlns`), a prefixed namespace declaration (`xmlns:p`), or a plain
/// attribute.
pub open spec fn is_default_decl(k: Seq<char>) -> bool {
    k == "xmlns"@
}

pub open spec fn is_prefixed_decl(k: Seq<char>) -> bool {
    !is_default_decl(k) && name_prefix(k) == "xmlns"@
}

/// The plain attributes of a start tag, as a sorted map.
pub open spec fn attrs_part(attrs: Seq<(Seq<char>, Seq<char>)>) -> Seq<(Seq<char>, Seq<char>)>
    decreases attrs.len(),
{
    if attrs.len() == 0 {
        Seq::empty()
    } else {
        let prev = attrs_part(attrs.drop_last());
        let (k, v) = attrs.last();
        if is_default_decl(k) || is_prefixed_decl(k) {
            prev
        } else {
            smap_put(prev, k, v)
        }
    }
}

/// The namespace declarations of a start tag, as a sorted map keyed by
/// prefix (the default namespace by the empty string).
pub open spec fn ns_part(attrs: Seq<(Seq<char>, Seq<char>)>) -> Seq<(Seq<char>, Seq<char>)>
    decreases attrs.len(),
{
    if attrs.len() == 0 {
        Seq::empty()
    } else {
        let prev = ns_part(attrs.drop_last());
        let (k, v) = attrs.last();
        if is_default_decl(k) {
            smap_put(prev, Seq::empty(), v)
        } else if is_prefixed_decl(k) {
            smap_put(prev, local_name(k), v)
        } else {
            prev
        }
    }
}

/// The parser state: the document built so far, the stack of open elements,
/// and what the declaration said.
#[verifier::ext_equal]
pub struct ParseSt {
    pub d: DocV,
    pub stack: Seq<int>,
    pub seen_decl: bool,
    pub done: bool,
}

/// Where the next node goes: under the innermost open element, or under the
/// container when nothing is open.
pub open spec fn insertion_parent(st: ParseSt) -> int {
    if st.stack.len() == 0 {
        0
    } else {
        st.stack.last()
    }
}

/// Attaches a leaf node at the current insertion point.
pub open spec fn step_leaf(st: ParseSt, n: NodeV) -> ParseSt {
    let p = insertion_parent(st);
    ParseSt { d: attach_tr(st.d, p, st.d.elems[p].children.len() as int, n), ..st }
}

/// Allocates and attaches an element for a start or self-closing tag.
pub open spec fn step_open(st: ParseSt, name: Seq<char>, attrs: Seq<(Seq<char>, Seq<char>)>, push: bool) -> ParseSt {
    let e = st.d.elems.len() as int;
    let d1 = alloc_tr(st.d, name, attrs_part(attrs), ns_part(attrs));
    let p = insertion_parent(st);
    let d2 = attach_tr(d1, p, d1.elems[p].children.len() as int, NodeV::Elem(e));
    ParseSt {
        d: d2,
        stack: if push {
            st.stack.push(e)
        } else {
            st.stack
        },
        ..st
    }
}

/// What one event does to the parser state.
pub open spec fn step(st: ParseSt, ev: EventV, o: ROptsV) -> Result<ParseSt, Error> {
    if st.done {
        Ok(st)
    } else {
        match ev {
            EventV::Start { name, attrs } => Ok(step_open(st, name, attrs, true)),
            EventV::Empty { name, attrs } => Ok(step_open(st, name, attrs, false)),
            EventV::End(_) => {
                if st.stack.len() == 0 {
                    Ok(st)
                } else {
                    let e = st.stack.last();
                    let st1 = ParseSt { stack: st.stack.drop_last(), ..st };
                    if o.empty_text_node && st.d.elems[e].children.len() == 0 {
                        Ok(
                            ParseSt {
                                d: attach_tr(st1.d, e, 0, NodeV::Text(Seq::empty())),
                                ..st1
                            },
                        )
                    } else {
                        Ok(st1)
                    }
                }
            },
            EventV::Text(t) => Ok(step_leaf(st, NodeV::Text(t))),
            EventV::Comment(t) => Ok(step_leaf(st, NodeV::Comment(t))),
            EventV::CData(t) => Ok(step_leaf(st, NodeV::CData(t))),
            EventV::PI(t) => Ok(step_leaf(st, NodeV::PI(t))),
            EventV::DocType(t) => Ok(step_leaf(st, NodeV::DocType(t))),
            EventV::Decl { version, encoding, standalone } => {
                let declared = match encoding {
                    Some(e) => e,
                    None => "UTF-8"@,
                };
                if st.stack.len() > 0 {
                    // a declaration below an open tag is not well-formed
                    Err(Error::MalformedXML)
                } else if o.enforce_encoding && !(o.encoding == Some(declared)) {
                    Err(Error::CannotDecode)
                } else {
                    Ok(
                        ParseSt {
                            d: DocV {
                                version: version,
                                standalone: standalone == Some("yes"@),
                                ..st.d
                            },
                            seen_decl: true,
                            ..st
                        },
                    )
                }
            },
            EventV::Eof => Ok(ParseSt { done: true, ..st }),
        }
    }
}

/// The fold of the first `n` events.
pub open spec fn parse_fold(evs: Seq<EventV>, n: int, o: ROptsV, st0: ParseSt) -> Result<
    ParseSt,
    Error,
>
    decreases n,
{
    if n <= 0 {
        Ok(st0)
    } else {
        match parse_fold(evs, n - 1, o, st0) {
            Ok(st) => step(st, evs[n - 1], o),
            Err(e) => Err(e),
        }
    }
}

/// An error stays an error for the rest of the fold.
pub proof fn lemma_fold_err(evs: Seq<EventV>, n: int, m: int, o: ROptsV, st0: ParseSt, e: Error)
    requires
        0 <= n <= m,
        parse_fold(evs, n, o, st0) == Err::<ParseSt, Error>(e),
    ensures
        parse_fold(evs, m, o, st0) == Err::<ParseSt, Error>(e),
    decreases m,
{
    if m > n {
        lemma_fold_err(evs, n, m - 1, o, st0, e);
    }
}

/// After the end of the stream, nothing changes.
pub proof fn lemma_fold_done(evs: Seq<EventV>, n: int, m: int, o: ROptsV, st0: ParseSt, st: ParseSt)
    requires
        0 <= n <= m,
        parse_fold(evs, n, o, st0) == Ok::<ParseSt, Error>(st),
        st.done,
    ensures
        parse_fold(evs, m, o, st0) == Ok::<ParseSt, Error>(st),
    decreases m,
{
    if m > n {
        lemma_fold_done(evs, n, m - 1, o, st0, st);
    }
}

/// The blank document the parser starts from.
pub open spec fn init_doc() -> DocV {
    crate::model::empty_doc()
}

pub open spec fn init_st() -> ParseSt {
    ParseSt { d: init_doc(), stack: Seq::empty(), seen_decl: false, done: false }
}

/// The final check and result of a parse.
pub open spec fn finish_st(st: ParseSt, o: ROptsV) -> Result<DocV, Error> {
    if o.enforce_encoding && !st.seen_decl && !(o.encoding == Some("UTF-8"@)) {
        Err(Error::CannotDecode)
    } else {
        Ok(st.d)
    }
}

/// What parsing an event stream yields: the folded document, or the first
/// error; with encoding enforcement on and no expected encoding given,
/// nothing can be decoded.
pub open spec fn spec_parse(evs: Seq<EventV>, o: ROptsV) -> Result<DocV, Error> {
    if o.enforce_encoding && o.encoding is None {
        Err(Error::CannotDecode)
    } else {
        match parse_fold(evs, evs.len() as int, o, init_st()) {
            Ok(st) => finish_st(st, o),
            Err(e) => Err(e),
        }
    }
}

pub open spec fn stack_view(v: Seq<Element>) -> Seq<int> {
    Seq::new(v.len(), |i: int| v[i]@)
}

impl Document {
    /// Builds a document from a codec event stream. This is the whole
    /// parser: everything after the tokenizer is decided here.
    #[verifier::loop_isolation(false)]
    #[verifier::rlimit(100)]
    pub fn build_from_events(events: &Vec<XmlEvent>, opts: &ReadOptions) -> (r: Result<
        Document,
        Error,
    >)
        ensures
            match spec_parse(events_view(events@), ropts_view(*opts)) {
                Ok(dv) => r is Ok && r->Ok_0@ == dv && r->Ok_0.wf(),
                Err(e) => r == Err::<Document, Error>(e),
            },
    {
        let ghost o = ropts_view(*opts);
        let ghost evs = events_view(events@);
        if opts.enforce_encoding && opts.encoding.is_none() {
            return Err(Error::CannotDecode);
        }
        let mut doc = Document::new();
        let mut stack: Vec<Element> = Vec::new();
        let mut seen_decl = false;
        let n = events.len();
        let mut i: usize = 0;
        proof {
            assert(doc@ =~~= init_doc());
            assert(stack_view(stack@) =~= Seq::<int>::empty());
        }
        while i < n
            invariant
                doc.wf(),
                0 <= i <= n,
                parse_fold(evs, i as int, o, init_st()) == Ok::<ParseSt, Error>(
                    ParseSt {
                        d: doc@,
                        stack: stack_view(stack@),
                        seen_decl: seen_decl,
                        done: false,
                    },
                ),
                forall|j: int| 0 <= j < stack@.len() ==> valid_id(doc@, #[trigger] stack@[j]@),
            decreases n - i,
        {
            let ghost st = ParseSt {
                d: doc@,
                stack: stack_view(stack@),
                seen_decl: seen_decl,
                done: false,
            };
            match &events[i] {
                XmlEvent::Start { name, attrs } => {
                    let elem = handle_open(&mut doc, &stack, name, attrs);
                    stack.push(elem);
                    proof {
                        assert(stack_view(stack@) =~= st.stack.push(elem@));
                        assert(step(st, evs[i as int], o) == Ok::<ParseSt, Error>(
                            ParseSt {
                                d: doc@,
                                stack: stack_view(stack@),
                                seen_decl: seen_decl,
                                done: false,
                            },
                        ));
                    }
                },
                XmlEvent::Empty { name, attrs } => {
                    let elem = handle_open(&mut doc, &stack, name, attrs);
                    proof {
                        assert(step(st, evs[i as int], o) == Ok::<ParseSt, Error>(
                            ParseSt {
                                d: doc@,
                                stack: stack_view(stack@),
                                seen_decl: seen_decl,
                                done: false,
                            },
                        ));
                    }
                },
                XmlEvent::End(_) => {
                    match stack.pop() {
                        Some(e) => {
                            proof {
                                assert(stack_view(stack@) =~= st.stack.drop_last());
                                assert(st.stack.last() == e@);
                            }
                            if opts.empty_text_node && !e.has_children(&doc) {
                                let res = e.push_child(&mut doc, Node::Text(String::new()));
                                proof {
                                    assert(res is Ok);
                                }
                            }
                        },
                        None => {
                            proof {
                                assert(stack_view(stack@) =~= st.stack);
                            }
                        },
                    }
                },
                XmlEvent::Text(t) => {
                    handle_leaf(&mut doc, &stack, Node::Text(t.clone()));
                },
                XmlEvent::Comment(t) => {
                    handle_leaf(&mut doc, &stack, Node::Comment(t.clone()));
                },
                XmlEvent::CData(t) => {
                    handle_leaf(&mut doc, &stack, Node::CData(t.clone()));
                },
                XmlEvent::PI(t) => {
                    handle_leaf(&mut doc, &stack, Node::PI(t.clone()));
                },
                XmlEvent::DocType(t) => {
                    handle_leaf(&mut doc, &stack, Node::DocType(t.clone()));
                },
                XmlEvent::Decl { version, encoding, standalone } => {
                    if stack.len() > 0 {
                        proof {
                            lemma_fold_err(evs, i as int + 1, n as int, o, init_st(),
                                Error::MalformedXML);
                        }
                        return Err(Error::MalformedXML);
                    }
                    if opts.enforce_encoding {
                        let expected = match &opts.encoding {
                            Some(x) => x.as_str(),
                            None => {
                                return Err(Error::CannotDecode);
                            },
                        };
                        let matches_enc = match encoding {
                            Some(declared) => str_eq(declared.as_str(), expected),
                            None => str_eq("UTF-8", expected),
                        };
                        if !matches_enc {
                            proof {
                                lemma_fold_err(evs, i as int + 1, n as int, o, init_st(),
                                    Error::CannotDecode);
                            }
                            return Err(Error::CannotDecode);
                        }
                    }
                    let ghost d0 = doc@;
                    doc.version = version.clone();
                    doc.standalone = match standalone {
                        Some(s) => str_eq(s.as_str(), "yes"),
                        None => false,
                    };
                    seen_decl = true;
                    proof {
                        assert forall|w: int|
                            valid_id(d0, w) implies crate::strmap::sorted_unique(
                            (#[trigger] doc@.elems[w]).attrs,
                        ) && crate::strmap::sorted_unique(doc@.elems[w].ns) by {
                            assert(doc@.elems[w] == d0.elems[w]);
                            assert(crate::strmap::sorted_unique(d0.elems[w].attrs));
                        }
                        lemma_same_structure_wf(d0, doc@);
                        assert(doc@ =~~= (DocV {
                            version: version@,
                            standalone: (match standalone {
                                Some(s) => s@ == "yes"@,
                                None => false,
                            }),
                            ..st.d
                        }));
                        assert(evs[i as int] == events@[i as int]@);
                        assert(step(st, evs[i as int], o) == Ok::<ParseSt, Error>(
                            ParseSt {
                                d: doc@,
                                stack: stack_view(stack@),
                                seen_decl: seen_decl,
                                done: false,
                            },
                        ));
                    }
                },
                XmlEvent::Eof => {
                    proof {
                        assert(step(st, evs[i as int], o) == Ok::<ParseSt, Error>(
                            ParseSt { done: true, ..st },
                        ));
                        lemma_fold_done(
                            evs,
                            i as int + 1,
                            n as int,
                            o,
                            init_st(),
                            ParseSt { done: true, ..st },
                        );
                    }
                    return finish_parse(doc, seen_decl, opts);
                },
            }
            i = i + 1;
        }
        finish_parse(doc, seen_decl, opts)
    }
}

/// The final encoding check of a parse.
fn finish_parse(doc: Document, seen_decl: bool, opts: &ReadOptions) -> (r: Result<Document, Error>)
    requires
        doc.wf(),
        !(opts.enforce_encoding && opts.encoding is None),
    ensures
        ({
            let o = ropts_view(*opts);
            let st = ParseSt { d: doc@, stack: Seq::empty(), seen_decl, done: true };
            match finish_st(
                ParseSt { d: doc@, stack: Seq::empty(), seen_decl: seen_decl, done: true },
                o,
            ) {
                Ok(dv) => r is Ok && r->Ok_0@ == dv && r->Ok_0.wf(),
                Err(e) => r == Err::<Document, Error>(e),
            }
        }),
{
    if opts.enforce_encoding && !seen_decl {
        match &opts.encoding {
            Some(x) => {
                if !str_eq("UTF-8", x.as_str()) {
                    return Err(Error::CannotDecode);
                }
            },
            None => {
                return Err(Error::CannotDecode);
            },
        }
    }
    Ok(doc)
}

/// Splits a start tag's attribute list and allocates the element, attached
/// at the current insertion point.
#[verifier::loop_isolation(false)]
#[verifier::rlimit(100)]
fn handle_open(doc: &mut Document, stack: &Vec<Element>, name: &String, attrs: &Vec<
    (String, String),
>) -> (r: Element)
    requires
        old(doc).wf(),
        forall|j: int| 0 <= j < stack@.len() ==> valid_id(old(doc)@, #[trigger] stack@[j]@),
    ensures
        final(doc).wf(),
        r@ == old(doc)@.elems.len(),
        valid_id(final(doc)@, r@),
        ({
            let st = ParseSt {
                d: old(doc)@,
                stack: stack_view(stack@),
                seen_decl: false,
                done: false,
            };
            final(doc)@ == step_open(st, name@, attrs_view(attrs@), false).d
        }),
{
    let ghost av = attrs_view(attrs@);
    let mut amap = Smap::new();
    let mut nmap = Smap::new();
    proof {
        assert(amap@ =~= attrs_part(av.take(0)));
        assert(nmap@ =~= ns_part(av.take(0)));
    }
    let m = attrs.len();
    let mut j: usize = 0;
    while j < m
        invariant
            amap.wf(),
            nmap.wf(),
            0 <= j <= m,
            amap@ == attrs_part(av.take(j as int)),
            nmap@ == ns_part(av.take(j as int)),
        decreases m - j,
    {
        proof {
            assert(av.take(j as int + 1).drop_last() =~= av.take(j as int));
            assert(av.take(j as int + 1).last() == av[j as int]);
        }
        let k = &attrs[j].0;
        let v = &attrs[j].1;
        if str_eq(k.as_str(), "xmlns") {
            nmap.insert(String::new(), v.clone());
        } else {
            let (pfx, local) = crate::order::split_name(k.as_str());
            if str_eq(pfx, "xmlns") {
                nmap.insert(local.to_owned(), v.clone());
            } else {
                amap.insert(k.clone(), v.clone());
            }
        }
        j = j + 1;
    }
    proof {
        assert(av.take(m as int) =~= av);
    }
    let elem = Element::with_data(doc, name.clone(), amap, nmap);
    let parent = match stack.last() {
        Some(p) => *p,
        None => doc.container(),
    };
    let res = parent.push_child(doc, Node::Element(elem));
    proof {
        assert(res is Ok);
    }
    elem
}

/// Attaches one leaf node at the current insertion point.
fn handle_leaf(doc: &mut Document, stack: &Vec<Element>, node: Node)
    requires
        old(doc).wf(),
        !(node@ is Elem),
        forall|j: int| 0 <= j < stack@.len() ==> valid_id(old(doc)@, #[trigger] stack@[j]@),
    ensures
        final(doc).wf(),
        ({
            let st = ParseSt {
                d: old(doc)@,
                stack: stack_view(stack@),
                seen_decl: false,
                done: false,
            };
            final(doc)@ == step_leaf(st, node@).d
        }),
{
    let parent = match stack.last() {
        Some(p) => *p,
        None => doc.container(),
    };
    let res = parent.push_child(doc, node);
    proof {
        assert(res is Ok);
    }
}

// ------------------------------------------------------------------
// The string entry points
// ------------------------------------------------------------------
/// The whitespace characters the tokenizer's doctype scan skips.
pub open spec fn is_xml_ws(c: char) -> bool {
    c == ' ' || c == '\t' || c == '\r' || c == '\n'
}

/// A doctype with an all-whitespace name starts at position `i`:
/// `<!DOCTYPE` (any letter case), whitespace only, then `>`.
pub open spec fn empty_doctype_at(s: Seq<char>, i: int) -> bool {
    &&& 0 <= i && i + 9 <= s.len()
    &&& s[i] == '<' && s[i + 1] == '!'
    &&& (s[i + 2] == 'd' || s[i + 2] == 'D')
    &&& (s[i + 3] == 'o' || s[i + 3] == 'O')
    &&& (s[i + 4] == 'c' || s[i + 4] == 'C')
    &&& (s[i + 5] == 't' || s[i + 5] == 'T')
    &&& (s[i + 6] == 'y' || s[i + 6] == 'Y')
    &&& (s[i + 7] == 'p' || s[i + 7] == 'P')
    &&& (s[i + 8] == 'e' || s[i + 8] == 'E')
    &&& exists|j: int|
        i + 9 <= j < s.len() && s[j] == '>' && (forall|m: int| i + 9 <= m < j ==> is_xml_ws(#[trigger] s[m]))
}

/// The text holds a doctype without a name somewhere. The tokenizer cannot
/// be handed such text: its doctype scan has no name to return.
pub open spec fn has_empty_doctype(s: Seq<char>) -> bool {
    exists|i: int| #[trigger] empty_doctype_at(s, i)
}

/// Scans for a doctype without a name.
fn contains_empty_doctype(s: &str) -> (r: bool)
    ensures
        r == has_empty_doctype(s@),
{
    let n = s.unicode_len();
    if n < 9 {
        proof {
            assert forall|w: int| true implies !(#[trigger] empty_doctype_at(s@, w)) by {}
        }
        return false;
    }
    let mut i: usize = 0;
    while i <= n - 9
        invariant
            0 <= i <= n,
            n == s@.len(),
            n >= 9,
            forall|w: int| 0 <= w < i ==> !(#[trigger] empty_doctype_at(s@, w)),
        decreases n - i,
    {
        let head_matches = s.get_char(i) == '<' && s.get_char(i + 1) == '!' && {
            let c2 = s.get_char(i + 2);
            let c3 = s.get_char(i + 3);
            let c4 = s.get_char(i + 4);
            let c5 = s.get_char(i + 5);
            let c6 = s.get_char(i + 6);
            let c7 = s.get_char(i + 7);
            let c8 = s.get_char(i + 8);
            (c2 == 'd' || c2 == 'D') && (c3 == 'o' || c3 == 'O') && (c4 == 'c' || c4 == 'C') && (c5
                == 't' || c5 == 'T') && (c6 == 'y' || c6 == 'Y') && (c7 == 'p' || c7 == 'P') && (c8
                == 'e' || c8 == 'E')
        };
        if head_matches {
            let mut j: usize = i + 9;
            loop
                invariant
                    n == s@.len(),
                    i + 9 <= j <= n,
                    forall|m: int| i + 9 <= m < j ==> is_xml_ws(#[trigger] s@[m]),
                ensures
                    n == s@.len(),
                    i + 9 <= j <= n,
                    forall|m: int| i + 9 <= m < j ==> is_xml_ws(#[trigger] s@[m]),
                    j == n || !is_xml_ws(s@[j as int]),
                decreases n - j,
            {
                if j >= n {
                    break ;
                }
                let c = s.get_char(j);
                if !(c == ' ' || c == '\t' || c == '\r' || c == '\n') {
                    break ;
                }
                j = j + 1;
            }
            if j < n && s.get_char(j) == '>' {
                proof {
                    assert(empty_doctype_at(s@, i as int));
                }
                return true;
            }
            proof {
                assert(!empty_doctype_at(s@, i as int)) by {
                    if empty_doctype_at(s@, i as int) {
                        let w = choose|w: int|
                            i + 9 <= w < s@.len() && s@[w] == '>' && (forall|m: int|
                                i + 9 <= m < w ==> is_xml_ws(#[trigger] s@[m]));
                        if w < j {
                            assert(is_xml_ws(s@[w]));
                        } else if w == j {
                        } else {
                            assert(is_xml_ws(s@[j as int]));
                        }
                    }
                }
            }
        }
        i = i + 1;
    }
    proof {
        assert forall|w: int| true implies !(#[trigger] empty_doctype_at(s@, w)) by {
            if w >= i {
                assert(w + 9 > s@.len());
            }
        }
    }
    false
}

/// The default read options, on the spec side.
pub open spec fn default_ropts() -> ROptsV {
    ROptsV { empty_text_node: true, enforce_encoding: false, encoding: None }
}

/// What parsing a string yields: encoding enforcement without an
/// expectation fails outright; a nameless doctype is refused before the
/// tokenizer sees it; otherwise the tokenizer decides the event stream
/// (`tokens_of`) and the fold decides the document.
pub open spec fn spec_parse_str(s: Seq<char>, o: ROptsV) -> Result<DocV, Error> {
    if o.enforce_encoding && o.encoding is None {
        Err(Error::CannotDecode)
    } else if has_empty_doctype(s) {
        Err(Error::MalformedXML)
    } else {
        match crate::codec::tokens_of(s) {
            Ok(evs) => spec_parse(evs, o),
            Err(e) => Err(e),
        }
    }
}

impl Document {
    /// Parses a document from a string with the given options; the result is
    /// `spec_parse_str` of the text, and a parsed document is structurally
    /// well-formed.
    pub fn parse_str_with_opts(s: &str, opts: ReadOptions) -> (r: Result<Document, Error>)
        ensures
            match spec_parse_str(s@, ropts_view(opts)) {
                Ok(dv) => r is Ok && r->Ok_0@ == dv && r->Ok_0.wf(),
                Err(e) => r == Err::<Document, Error>(e),
            },
    {
        if opts.enforce_encoding && opts.encoding.is_none() {
            return Err(Error::CannotDecode);
        }
        if contains_empty_doctype(s) {
            return Err(Error::MalformedXML);
        }
        let events = match crate::codec::tokenize(s) {
            Ok(evs) => evs,
            Err(e) => {
                return Err(e);
            },
        };
        Document::build_from_events(&events, &opts)
    }

    /// Parses a document from a string with the default options.
    pub fn parse_str(s: &str) -> (r: Result<Document, Error>)
        ensures
            match spec_parse_str(s@, default_ropts()) {
                Ok(dv) => r is Ok && r->Ok_0@ == dv && r->Ok_0.wf(),
                Err(e) => r == Err::<Document, Error>(e),
            },
    {
        let opts = ReadOptions::default();
        proof {
            assert(ropts_view(opts) == default_ropts());
        }
        Document::parse_str_with_opts(s, opts)
    }

    /// Parses a document from a string with the default options (the
    /// arena-facing name).
    pub fn from_str(s: &str) -> (r: Result<Document, Error>)
        ensures
            match spec_parse_str(s@, default_ropts()) {
                Ok(dv) => r is Ok && r->Ok_0@ == dv && r->Ok_0.wf(),
                Err(e) => r == Err::<Document, Error>(e),
            },
    {
        Document::parse_str(s)
    }

    /// Parses into this document. A document that already holds data cannot
    /// be the target of a parse: that fails with `NotEmpty` and changes
    /// nothing; on success this document becomes the parsed one, and a
    /// tokenizer or builder error changes nothing either.
    pub fn read_str(&mut self, s: &str) -> (r: Result<(), Error>)
        requires
            old(self).wf(),
        ensures
            final(self).wf(),
            old(self)@.elems.len() > 1 ==> r == Err::<(), Error>(Error::NotEmpty) && final(self)@
                == old(self)@,
            old(self)@.elems.len() == 1 ==> match spec_parse_str(s@, default_ropts()) {
                Ok(dv) => r == Ok::<(), Error>(()) && final(self)@ == dv,
                Err(e) => r == Err::<(), Error>(e) && final(self)@ == old(self)@,
            },
    {
        if self.store.len() > 1 {
            return Err(Error::NotEmpty);
        }
        match Document::parse_str(s) {
            Ok(d) => {
                *self = d;
                Ok(())
            },
            Err(e) => Err(e),
        }
    }
}

} // verus!
