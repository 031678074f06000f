//! The namespace resolution engine: read-only algorithms over the tree that
//! implement XML Namespace prefix/URL semantics by walking the parent chain,
//! honoring the two fixed prefixes `xml` and `xmlns`.

use vstd::prelude::*;
use crate::document::Document;
use crate::element::Element;
use crate::error::Error;
use crate::model::{DocV, valid_id, parent_of, term_fuel, lemma_term_fuel_step,
    lemma_term_fuel_exists, anc, wf_doc};
use crate::order::{name_prefix, lex_lt, lex_le, str_eq};
use crate::strmap::{Smap, Sset, has_key, val_of, sorted_unique, lemma_idx_of,
    lemma_sorted_key_unique};

verus! {

pub open spec fn xml_prefix() -> Seq<char> {
    "xml"@
}

pub open spec fn xmlns_prefix() -> Seq<char> {
    "xmlns"@
}

pub open spec fn xml_uri() -> Seq<char> {
    "http://www.w3.org/XML/1998/namespace"@
}

pub open spec fn xmlns_uri() -> Seq<char> {
    "http://www.w3.org/2000/xmlns/"@
}

/// Resolution of `prefix` by walking up the parent chain: the first level
/// declaring it wins; an undeclared empty prefix resolves to the empty
/// namespace; any other undeclared prefix does not resolve.
pub open spec fn resolve_rec(d: DocV, i: int, prefix: Seq<char>, fuel: nat) -> Option<Seq<char>>
    decreases fuel,
{
    if !valid_id(d, i) || fuel == 0 {
        None
    } else if has_key(d.elems[i].ns, prefix) {
        Some(val_of(d.elems[i].ns, prefix))
    } else {
        match parent_of(d, i) {
            Some(p) => resolve_rec(d, p, prefix, (fuel - 1) as nat),
            None => if prefix.len() == 0 {
                Some(Seq::empty())
            } else {
                None
            },
        }
    }
}

/// What `namespace_for_prefix` returns: the two fixed prefixes first, then
/// the walk up the chain.
pub open spec fn spec_resolve(d: DocV, i: int, prefix: Seq<char>) -> Option<Seq<char>> {
    if prefix == xml_prefix() {
        Some(xml_uri())
    } else if prefix == xmlns_prefix() {
        Some(xmlns_uri())
    } else {
        resolve_rec(d, i, prefix, (term_fuel(d, i) + 1) as nat)
    }
}

/// The namespace of an element: the resolution of its own prefix.
pub open spec fn spec_namespace(d: DocV, i: int) -> Option<Seq<char>> {
    spec_resolve(d, i, name_prefix(d.elems[i].name))
}

/// Unfolds `resolve_rec` at the fuel the chain needs.
pub proof fn lemma_resolve_unfold(d: DocV, i: int, prefix: Seq<char>)
    requires
        wf_doc(d),
        valid_id(d, i),
    ensures
        has_key(d.elems[i].ns, prefix) ==> resolve_rec(d, i, prefix, (term_fuel(d, i) + 1) as nat)
            == Some(val_of(d.elems[i].ns, prefix)),
        !has_key(d.elems[i].ns, prefix) && parent_of(d, i) is Some ==> resolve_rec(
            d,
            i,
            prefix,
            (term_fuel(d, i) + 1) as nat,
        ) == resolve_rec(
            d,
            parent_of(d, i)->0,
            prefix,
            (term_fuel(d, parent_of(d, i)->0) + 1) as nat,
        ),
        !has_key(d.elems[i].ns, prefix) && parent_of(d, i) is None ==> resolve_rec(
            d,
            i,
            prefix,
            (term_fuel(d, i) + 1) as nat,
        ) == (if prefix.len() == 0 {
            Some(Seq::<char>::empty())
        } else {
            None::<Seq<char>>
        }),
{
    assert(crate::model::terminates(d, i));
    let k = choose|k: nat| anc(d, i, k) is None;
    lemma_term_fuel_exists(d, i, k);
    let f = term_fuel(d, i);
    assert(f >= 1) by {
        if f == 0 {
            assert(anc(d, i, 0) == Some(i));
        }
    }
    if !has_key(d.elems[i].ns, prefix) && parent_of(d, i) is Some {
        let p = parent_of(d, i)->0;
        lemma_term_fuel_step(d, i, p);
    }
}

impl Element {
    /// Resolves a namespace prefix at this element: the nearest ancestor
    /// (this element included) declaring the prefix decides; `xml` and
    /// `xmlns` always resolve to their fixed namespaces; the empty prefix
    /// with no default declaration in scope resolves to the empty namespace.
    #[verifier::loop_isolation(false)]
    pub fn namespace_for_prefix<'a>(&self, doc: &'a Document, prefix: &str) -> (r: Option<&'a str>)
        requires
            doc.wf(),
            valid_id(doc@, self@),
        ensures
            match r {
                Some(u) => spec_resolve(doc@, self@, prefix@) == Some(u@),
                None => spec_resolve(doc@, self@, prefix@) is None,
            },
    {
        if str_eq(prefix, "xml") {
            return Some("http://www.w3.org/XML/1998/namespace");
        }
        if str_eq(prefix, "xmlns") {
            return Some("http://www.w3.org/2000/xmlns/");
        }
        let ghost d = doc@;
        let mut cur = *self;
        loop
            invariant
                valid_id(d, cur@),
                resolve_rec(d, cur@, prefix@, (term_fuel(d, cur@) + 1) as nat) == resolve_rec(
                    d,
                    self@,
                    prefix@,
                    (term_fuel(d, self@) + 1) as nat,
                ),
            decreases term_fuel(d, cur@),
        {
            proof {
                lemma_resolve_unfold(d, cur@, prefix@);
                assert(sorted_unique(d.elems[cur@].attrs));
                assert(sorted_unique(d.elems[cur@].ns));
            }
            match doc.store[cur.idx()].namespace_decls.get(prefix) {
                Some(v) => {
                    return Some(v);
                },
                None => {
                },
            }
            match doc.store[cur.idx()].parent {
                Some(p) => {
                    proof {
                        lemma_term_fuel_step(d, cur@, p@);
                    }
                    cur = p;
                },
                None => {
                    if prefix.unicode_len() == 0 {
                        proof {
                            assert(prefix@ =~= Seq::<char>::empty());
                            assert(""@ =~= Seq::<char>::empty()) by {
                                reveal_strlit("");
                            }
                        }
                        return Some("");
                    } else {
                        return None;
                    }
                },
            }
        }
    }

    /// The namespace of this element: the resolution of its own prefix.
    pub fn namespace<'a>(&self, doc: &'a Document) -> (r: Option<&'a str>)
        requires
            doc.wf(),
            valid_id(doc@, self@),
        ensures
            match r {
                Some(u) => spec_namespace(doc@, self@) == Some(u@),
                None => spec_namespace(doc@, self@) is None,
            },
    {
        let p = self.prefix(doc);
        self.namespace_for_prefix(doc, p)
    }

    /// `true` exactly when this element's namespace is `namespace_url`.
    pub fn is_quantified(&self, doc: &Document, namespace_url: &str) -> (r: bool)
        requires
            doc.wf(),
            valid_id(doc@, self@),
        ensures
            r == (spec_namespace(doc@, self@) == Some(namespace_url@)),
    {
        match self.namespace(doc) {
            Some(u) => str_eq(u, namespace_url),
            None => false,
        }
    }
}

// ------------------------------------------------------------------
// Closest prefix
// ------------------------------------------------------------------
/// The first entry of a sorted declaration map whose URL is `url`; its key
/// is the lexicographically smallest matching prefix. `ns.len()` when none
/// matches.
pub open spec fn first_match(ns: Seq<(Seq<char>, Seq<char>)>, url: Seq<char>) -> int
    decreases ns.len(),
{
    if ns.len() == 0 {
        0
    } else if ns[0].1 == url {
        0
    } else {
        1 + first_match(ns.drop_first(), url)
    }
}

pub open spec fn has_match(ns: Seq<(Seq<char>, Seq<char>)>, url: Seq<char>) -> bool {
    first_match(ns, url) < ns.len()
}

pub proof fn lemma_first_match_props(ns: Seq<(Seq<char>, Seq<char>)>, url: Seq<char>)
    ensures
        0 <= first_match(ns, url) <= ns.len(),
        has_match(ns, url) ==> ns[first_match(ns, url)].1 == url,
        forall|j: int| 0 <= j < first_match(ns, url) ==> (#[trigger] ns[j]).1 != url,
    decreases ns.len(),
{
    if ns.len() > 0 && ns[0].1 != url {
        lemma_first_match_props(ns.drop_first(), url);
        assert forall|j: int| 0 <= j < first_match(ns, url) implies (#[trigger] ns[j]).1 != url by {
            if j > 0 {
                assert(ns[j] == ns.drop_first()[j - 1]);
            }
        }
        if has_match(ns, url) {
            assert(ns[first_match(ns, url)] == ns.drop_first()[first_match(ns, url) - 1]);
        }
    }
}

/// A scan that found `url` first at position `i` found `first_match`.
pub proof fn lemma_first_match_at(ns: Seq<(Seq<char>, Seq<char>)>, url: Seq<char>, i: int)
    requires
        0 <= i <= ns.len(),
        forall|j: int| 0 <= j < i ==> (#[trigger] ns[j]).1 != url,
        i == ns.len() || ns[i].1 == url,
    ensures
        first_match(ns, url) == i,
    decreases ns.len(),
{
    if ns.len() > 0 && i > 0 {
        assert(ns[0].1 != url);
        assert forall|j: int| 0 <= j < i - 1 implies (#[trigger] ns.drop_first()[j]).1 != url by {
            assert(ns.drop_first()[j] == ns[j + 1]);
        }
        if i < ns.len() {
            assert(ns.drop_first()[i - 1] == ns[i]);
        }
        lemma_first_match_at(ns.drop_first(), url, i - 1);
    }
}

/// In a sorted map the first matching key is the smallest matching key.
pub proof fn lemma_first_match_min(ns: Seq<(Seq<char>, Seq<char>)>, url: Seq<char>)
    requires
        sorted_unique(ns),
        has_match(ns, url),
    ensures
        forall|j: int|
            0 <= j < ns.len() && (#[trigger] ns[j]).1 == url ==> lex_le(
                ns[first_match(ns, url)].0,
                ns[j].0,
            ),
{
    lemma_first_match_props(ns, url);
    let f = first_match(ns, url);
    assert forall|j: int| 0 <= j < ns.len() && (#[trigger] ns[j]).1 == url implies lex_le(
        ns[f].0,
        ns[j].0,
    ) by {
        if j < f {
            assert(ns[j].1 != url);
        }
    }
}

/// The walk `closest_prefix` makes: at the first level declaring `url` at
/// all, the (lexicographically smallest) declared prefix; an undeclared
/// empty URL maps to the empty prefix.
pub open spec fn closest_rec(d: DocV, i: int, url: Seq<char>, fuel: nat) -> Option<Seq<char>>
    decreases fuel,
{
    if !valid_id(d, i) || fuel == 0 {
        None
    } else if has_match(d.elems[i].ns, url) {
        Some(d.elems[i].ns[first_match(d.elems[i].ns, url)].0)
    } else {
        match parent_of(d, i) {
            Some(p) => closest_rec(d, p, url, (fuel - 1) as nat),
            None => if url.len() == 0 {
                Some(Seq::empty())
            } else {
                None
            },
        }
    }
}

pub open spec fn spec_closest(d: DocV, i: int, url: Seq<char>) -> Option<Seq<char>> {
    closest_rec(d, i, url, (term_fuel(d, i) + 1) as nat)
}

pub proof fn lemma_closest_unfold(d: DocV, i: int, url: Seq<char>)
    requires
        wf_doc(d),
        valid_id(d, i),
    ensures
        has_match(d.elems[i].ns, url) ==> spec_closest(d, i, url) == Some(
            d.elems[i].ns[first_match(d.elems[i].ns, url)].0,
        ),
        !has_match(d.elems[i].ns, url) && parent_of(d, i) is Some ==> spec_closest(d, i, url)
            == spec_closest(d, parent_of(d, i)->0, url),
        !has_match(d.elems[i].ns, url) && parent_of(d, i) is None ==> spec_closest(d, i, url) == (
        if url.len() == 0 {
            Some(Seq::<char>::empty())
        } else {
            None::<Seq<char>>
        }),
{
    assert(crate::model::terminates(d, i));
    let k = choose|k: nat| anc(d, i, k) is None;
    lemma_term_fuel_exists(d, i, k);
    let f = term_fuel(d, i);
    assert(f >= 1) by {
        if f == 0 {
            assert(anc(d, i, 0) == Some(i));
        }
    }
    if !has_match(d.elems[i].ns, url) && parent_of(d, i) is Some {
        let p = parent_of(d, i)->0;
        lemma_term_fuel_step(d, i, p);
    }
}

/// The document after the prefix of element `i` was rewritten to `p`.
pub open spec fn with_prefix(d: DocV, i: int, p: Seq<char>) -> DocV {
    DocV {
        elems: d.elems.update(
            i,
            crate::model::ElemV {
                name: crate::order::full_of(p, crate::order::local_name(d.elems[i].name)),
                ..d.elems[i]
            },
        ),
        ..d
    }
}

impl Element {
    /// The prefix of the nearest declaration of `namespace_url`, walking up
    /// from this element; when that nearest level declares the URL under
    /// several prefixes, the lexicographically smallest one. The empty URL
    /// falls back to the empty prefix when nothing declares it.
    #[verifier::loop_isolation(false)]
    pub fn closest_prefix<'a>(&self, doc: &'a Document, namespace_url: &str) -> (r: Option<
        &'a str,
    >)
        requires
            doc.wf(),
            valid_id(doc@, self@),
        ensures
            match r {
                Some(p) => spec_closest(doc@, self@, namespace_url@) == Some(p@),
                None => spec_closest(doc@, self@, namespace_url@) is None,
            },
    {
        let ghost d = doc@;
        let mut cur = *self;
        loop
            invariant
                valid_id(d, cur@),
                spec_closest(d, cur@, namespace_url@) == spec_closest(d, self@, namespace_url@),
            decreases term_fuel(d, cur@),
        {
            proof {
                lemma_closest_unfold(d, cur@, namespace_url@);
            }
            let ns = &doc.store[cur.idx()].namespace_decls;
            let n = ns.len();
            let ghost nsv = d.elems[cur@].ns;
            let mut j: usize = 0;
            while j < n
                invariant
                    0 <= j <= n,
                    n == nsv.len(),
                    ns@ == nsv,
                    forall|m: int| 0 <= m < j ==> (#[trigger] nsv[m]).1 != namespace_url@,
                decreases n - j,
            {
                if str_eq(ns.val_at(j), namespace_url) {
                    proof {
                        lemma_first_match_at(nsv, namespace_url@, j as int);
                    }
                    return Some(ns.key_at(j));
                }
                j = j + 1;
            }
            proof {
                lemma_first_match_at(nsv, namespace_url@, n as int);
                assert(!has_match(nsv, namespace_url@));
            }
            match doc.store[cur.idx()].parent {
                Some(p) => {
                    proof {
                        lemma_term_fuel_step(d, cur@, p@);
                    }
                    cur = p;
                },
                None => {
                    if namespace_url.unicode_len() == 0 {
                        proof {
                            assert(""@ =~= Seq::<char>::empty()) by {
                                reveal_strlit("");
                            }
                        }
                        return Some("");
                    } else {
                        return None;
                    }
                },
            }
        }
    }

    /// Rewrites this element's prefix to the closest prefix for
    /// `namespace_url` and returns it; when no prefix is in scope for that
    /// URL, changes nothing and returns `None` (an error the caller must
    /// handle).
    pub fn quantify_with_closest(&self, doc: &mut Document, namespace_url: &str) -> (r: Option<
        String,
    >)
        requires
            old(doc).wf(),
            valid_id(old(doc)@, self@),
        ensures
            final(doc).wf(),
            match r {
                Some(p) => spec_closest(old(doc)@, self@, namespace_url@) == Some(p@) && final(doc)@
                    == with_prefix(old(doc)@, self@, p@),
                None => spec_closest(old(doc)@, self@, namespace_url@) is None && final(doc)@
                    == old(doc)@,
            },
    {
        let found: Option<String> = match self.closest_prefix(doc, namespace_url) {
            Some(p) => Some(p.to_owned()),
            None => None,
        };
        match found {
            Some(p) => {
                self.set_prefix(doc, p.as_str());
                Some(p)
            },
            None => None,
        }
    }
}

// ------------------------------------------------------------------
// Prefix collection under shadowing
// ------------------------------------------------------------------
/// The starting set of valid prefixes: "no namespace" is written with the
/// empty prefix, so the empty URL starts with the empty prefix in the set.
pub open spec fn seed_prefixes(url: Seq<char>) -> Set<Seq<char>> {
    if url.len() == 0 {
        Set::<Seq<char>>::empty().insert(Seq::empty())
    } else {
        Set::<Seq<char>>::empty()
    }
}

/// Applies one level of declarations to the running set: a declaration of
/// `url` adds its prefix, a declaration of anything else invalidates that
/// prefix.
pub open spec fn apply_decls(
    s: Set<Seq<char>>,
    ns: Seq<(Seq<char>, Seq<char>)>,
    url: Seq<char>,
) -> Set<Seq<char>>
    decreases ns.len(),
{
    if ns.len() == 0 {
        s
    } else {
        let prev = apply_decls(s, ns.drop_last(), url);
        if ns.last().1 == url {
            prev.insert(ns.last().0)
        } else {
            prev.remove(ns.last().0)
        }
    }
}

/// The set of prefixes valid for `url` at element `i`: the seed at the
/// root, then each level's declarations applied on the way down.
pub open spec fn prefixes_rec(
    d: DocV,
    i: int,
    url: Seq<char>,
    base: Set<Seq<char>>,
    fuel: nat,
) -> Set<Seq<char>>
    decreases fuel,
{
    if !valid_id(d, i) || fuel == 0 {
        base
    } else {
        let up = match parent_of(d, i) {
            Some(p) => prefixes_rec(d, p, url, base, (fuel - 1) as nat),
            None => base,
        };
        apply_decls(up, d.elems[i].ns, url)
    }
}

pub open spec fn spec_prefixes(d: DocV, i: int, url: Seq<char>) -> Set<Seq<char>> {
    prefixes_rec(d, i, url, seed_prefixes(url), (term_fuel(d, i) + 1) as nat)
}

pub proof fn lemma_prefixes_unfold(d: DocV, i: int, url: Seq<char>, base: Set<Seq<char>>)
    requires
        wf_doc(d),
        valid_id(d, i),
    ensures
        parent_of(d, i) is Some ==> prefixes_rec(d, i, url, base, (term_fuel(d, i) + 1) as nat)
            == apply_decls(
            prefixes_rec(
                d,
                parent_of(d, i)->0,
                url,
                base,
                (term_fuel(d, parent_of(d, i)->0) + 1) as nat,
            ),
            d.elems[i].ns,
            url,
        ),
        parent_of(d, i) is None ==> prefixes_rec(d, i, url, base, (term_fuel(d, i) + 1) as nat)
            == apply_decls(base, d.elems[i].ns, url),
{
    assert(crate::model::terminates(d, i));
    let k = choose|k: nat| anc(d, i, k) is None;
    lemma_term_fuel_exists(d, i, k);
    let f = term_fuel(d, i);
    assert(f >= 1) by {
        if f == 0 {
            assert(anc(d, i, 0) == Some(i));
        }
    }
    if parent_of(d, i) is Some {
        let p = parent_of(d, i)->0;
        lemma_term_fuel_step(d, i, p);
    }
}

/// Walks to the root first, then applies each level's declarations while
/// unwinding back down to `e`.
#[verifier::loop_isolation(false)]
#[verifier::rlimit(100)]
fn prefixes_walk(doc: &Document, e: Element, url: &str, set: &mut Sset)
    requires
        doc.wf(),
        valid_id(doc@, e@),
        old(set).wf(),
    ensures
        final(set).wf(),
        final(set).to_set() == prefixes_rec(
            doc@,
            e@,
            url@,
            old(set).to_set(),
            (term_fuel(doc@, e@) + 1) as nat,
        ),
    decreases term_fuel(doc@, e@),
{
    let ghost d = doc@;
    let ghost base = old(set).to_set();
    proof {
        lemma_prefixes_unfold(d, e@, url@, base);
    }
    match doc.store[e.idx()].parent {
        Some(p) => {
            proof {
                lemma_term_fuel_step(d, e@, p@);
            }
            prefixes_walk(doc, p, url, set);
        },
        None => {
        },
    }
    let ghost up = set.to_set();
    let ns = &doc.store[e.idx()].namespace_decls;
    let n = ns.len();
    let ghost nsv = d.elems[e@].ns;
    let mut j: usize = 0;
    while j < n
        invariant
            set.wf(),
            0 <= j <= n,
            set.to_set() == apply_decls(up, nsv.take(j as int), url@),
        decreases n - j,
    {
        proof {
            assert(nsv.take(j as int + 1).drop_last() =~= nsv.take(j as int));
            assert(nsv.take(j as int + 1).last() == nsv[j as int]);
        }
        if str_eq(ns.val_at(j), url) {
            set.insert(ns.key_at(j).to_owned());
        } else {
            set.remove(ns.key_at(j));
        }
        j = j + 1;
    }
    proof {
        assert(nsv.take(n as int) =~= nsv);
    }
}

impl Element {
    /// All prefixes valid for `namespace_url` at this element, accounting
    /// for shadowing: walking down from the root, a declaration of the URL
    /// adds its prefix, and a closer declaration of a different URL removes
    /// an inherited prefix. The empty URL starts with the empty prefix in
    /// the set.
    pub fn collect_namespace_prefixes(&self, doc: &Document, namespace_url: &str) -> (r: Sset)
        requires
            doc.wf(),
            valid_id(doc@, self@),
        ensures
            r.wf(),
            r.to_set() == spec_prefixes(doc@, self@, namespace_url@),
    {
        let mut set = Sset::new();
        if namespace_url.unicode_len() == 0 {
            set.insert(String::new());
            proof {
                assert(set.to_set() =~= seed_prefixes(namespace_url@));
            }
        } else {
            proof {
                assert(set.to_set() =~= seed_prefixes(namespace_url@));
            }
        }
        prefixes_walk(doc, *self, namespace_url, &mut set);
        set
    }
}

// ------------------------------------------------------------------
// Applicable declarations
// ------------------------------------------------------------------
/// The nearest declaration of `prefix` on the chain from `i` upward; unlike
/// resolution, an undeclared empty prefix stays undeclared.
pub open spec fn decl_rec(d: DocV, i: int, prefix: Seq<char>, fuel: nat) -> Option<Seq<char>>
    decreases fuel,
{
    if !valid_id(d, i) || fuel == 0 {
        None
    } else if has_key(d.elems[i].ns, prefix) {
        Some(val_of(d.elems[i].ns, prefix))
    } else {
        match parent_of(d, i) {
            Some(p) => decl_rec(d, p, prefix, (fuel - 1) as nat),
            None => None,
        }
    }
}

pub open spec fn spec_applicable(d: DocV, i: int, prefix: Seq<char>) -> Option<Seq<char>> {
    decl_rec(d, i, prefix, (term_fuel(d, i) + 1) as nat)
}

pub proof fn lemma_decl_unfold(d: DocV, i: int, prefix: Seq<char>)
    requires
        wf_doc(d),
        valid_id(d, i),
    ensures
        has_key(d.elems[i].ns, prefix) ==> spec_applicable(d, i, prefix) == Some(
            val_of(d.elems[i].ns, prefix),
        ),
        !has_key(d.elems[i].ns, prefix) && parent_of(d, i) is Some ==> spec_applicable(d, i, prefix)
            == spec_applicable(d, parent_of(d, i)->0, prefix),
        !has_key(d.elems[i].ns, prefix) && parent_of(d, i) is None ==> spec_applicable(d, i, prefix)
            is None,
{
    assert(crate::model::terminates(d, i));
    let k = choose|k: nat| anc(d, i, k) is None;
    lemma_term_fuel_exists(d, i, k);
    let f = term_fuel(d, i);
    assert(f >= 1) by {
        if f == 0 {
            assert(anc(d, i, 0) == Some(i));
        }
    }
    if !has_key(d.elems[i].ns, prefix) && parent_of(d, i) is Some {
        let p = parent_of(d, i)->0;
        lemma_term_fuel_step(d, i, p);
    }
}

impl Element {
    /// All `prefix -> URL` declarations in effect at this element,
    /// nearest-wins: the element's own declarations, then each ancestor's,
    /// adding only prefixes not seen yet.
    #[verifier::loop_isolation(false)]
    pub fn collect_applicable_namespace_decls(&self, doc: &Document) -> (r: Smap)
        requires
            doc.wf(),
            valid_id(doc@, self@),
        ensures
            r.wf(),
            forall|q: Seq<char>| #[trigger] has_key(r@, q) <==> spec_applicable(doc@, self@, q)
                is Some,
            forall|q: Seq<char>| #[trigger] has_key(r@, q) ==> Some(val_of(r@, q))
                == spec_applicable(doc@, self@, q),
    {
        let ghost d = doc@;
        let mut m = Smap::new();
        let mut cur = *self;
        let mut done = false;
        while !done
            invariant
                m.wf(),
                valid_id(d, cur@),
                !done ==> forall|q: Seq<char>| #[trigger]
                    has_key(m@, q) ==> spec_applicable(d, self@, q) == Some(val_of(m@, q)),
                !done ==> forall|q: Seq<char>|
                    !(#[trigger] has_key(m@, q)) ==> spec_applicable(d, self@, q)
                        == spec_applicable(d, cur@, q),
                done ==> forall|q: Seq<char>| #[trigger]
                    has_key(m@, q) <==> spec_applicable(d, self@, q) is Some,
                done ==> forall|q: Seq<char>| #[trigger]
                    has_key(m@, q) ==> Some(val_of(m@, q)) == spec_applicable(d, self@, q),
            decreases (if done {
                0nat
            } else {
                term_fuel(d, cur@) + 1
            }),
        {
            let ns = &doc.store[cur.idx()].namespace_decls;
            let n = ns.len();
            let ghost nsv = d.elems[cur@].ns;
            proof {
                assert(sorted_unique(d.elems[cur@].attrs));
                assert(sorted_unique(nsv));
            }
            let ghost m0 = m@;
            let mut j: usize = 0;
            while j < n
                invariant
                    m.wf(),
                    0 <= j <= n,
                    forall|q: Seq<char>| #[trigger]
                        has_key(m@, q) <==> (has_key(m0, q) || (exists|w: int|
                            0 <= w < j && (#[trigger] nsv[w]).0 == q)),
                    forall|q: Seq<char>| #[trigger]
                        has_key(m@, q) ==> (if has_key(m0, q) {
                            val_of(m@, q) == val_of(m0, q)
                        } else {
                            Some(val_of(m@, q)) == Some(val_of(nsv, q))
                        }),
                decreases n - j,
            {
                if !m.contains_key(ns.key_at(j)) {
                    proof {
                        lemma_idx_of(nsv, j as int);
                    }
                    m.insert(ns.key_at(j).to_owned(), ns.val_at(j).to_owned());
                }
                proof {
                    assert forall|q: Seq<char>| #[trigger] has_key(m@, q) implies (has_key(m0, q)
                        || (exists|w: int| 0 <= w < j + 1 && (#[trigger] nsv[w]).0 == q)) by {}
                    assert forall|q: Seq<char>| (has_key(m0, q) || (exists|w: int|
                        0 <= w < j + 1 && (#[trigger] nsv[w]).0 == q)) implies #[trigger] has_key(
                        m@,
                        q,
                    ) by {
                        if !has_key(m0, q) {
                            let w = choose|w: int| 0 <= w < j + 1 && (#[trigger] nsv[w]).0 == q;
                            if w < j {
                            } else {
                                assert(nsv[j as int].0 == q);
                            }
                        }
                    }
                    assert forall|q: Seq<char>| #[trigger] has_key(m@, q) implies (if has_key(
                        m0,
                        q,
                    ) {
                        val_of(m@, q) == val_of(m0, q)
                    } else {
                        Some(val_of(m@, q)) == Some(val_of(nsv, q))
                    }) by {
                        if !has_key(m0, q) {
                            if exists|w: int| 0 <= w < j && (#[trigger] nsv[w]).0 == q {
                                let w = choose|w: int| 0 <= w < j && (#[trigger] nsv[w]).0 == q;
                                lemma_idx_of(nsv, w);
                            } else {
                                assert(nsv[j as int].0 == q);
                                lemma_idx_of(nsv, j as int);
                            }
                        }
                    }
                }
                j = j + 1;
            }
            proof {
                // after the level: everything declared here is in the map
                assert forall|q: Seq<char>| has_key(nsv, q) implies #[trigger] has_key(m@, q) by {
                    let w = crate::strmap::idx_of(nsv, q);
                    assert(nsv[w].0 == q);
                }
                lemma_decl_unfold(d, cur@, d.elems[cur@].name);
                assert forall|q: Seq<char>| #[trigger] has_key(m@, q) implies spec_applicable(
                    d,
                    self@,
                    q,
                ) == Some(val_of(m@, q)) by {
                    lemma_decl_unfold(d, cur@, q);
                    if !has_key(m0, q) {
                        assert(exists|w: int| 0 <= w < n && (#[trigger] nsv[w]).0 == q);
                        let w = choose|w: int| 0 <= w < n && (#[trigger] nsv[w]).0 == q;
                        assert(has_key(nsv, q));
                        assert(spec_applicable(d, cur@, q) == Some(val_of(nsv, q)));
                    }
                }
            }
            match doc.store[cur.idx()].parent {
                Some(p) => {
                    proof {
                        lemma_term_fuel_step(d, cur@, p@);
                        assert forall|q: Seq<char>|
                            !(#[trigger] has_key(m@, q)) implies spec_applicable(d, self@, q)
                            == spec_applicable(d, p@, q) by {
                            lemma_decl_unfold(d, cur@, q);
                            assert(!has_key(nsv, q)) by {
                                if has_key(nsv, q) {
                                    let w = crate::strmap::idx_of(nsv, q);
                                    assert(nsv[w].0 == q);
                                }
                            }
                        }
                    }
                    cur = p;
                },
                None => {
                    proof {
                        assert forall|q: Seq<char>|
                            !(#[trigger] has_key(m@, q)) implies spec_applicable(
                            d,
                            self@,
                            q,
                        ) is None by {
                            lemma_decl_unfold(d, cur@, q);
                            assert(!has_key(nsv, q)) by {
                                if has_key(nsv, q) {
                                    let w = crate::strmap::idx_of(nsv, q);
                                    assert(nsv[w].0 == q);
                                }
                            }
                        }
                    }
                    done = true;
                },
            }
        }
        m
    }
}

// ------------------------------------------------------------------
// Soundness of the collected prefixes
// ------------------------------------------------------------------
/// Membership after one level of declarations: a declared prefix stays or
/// goes by that level's value; everything else is inherited.
pub proof fn lemma_apply_decls_elem(
    s: Set<Seq<char>>,
    ns: Seq<(Seq<char>, Seq<char>)>,
    url: Seq<char>,
    q: Seq<char>,
)
    requires
        sorted_unique(ns),
    ensures
        apply_decls(s, ns, url).contains(q) == (if has_key(ns, q) {
            val_of(ns, q) == url
        } else {
            s.contains(q)
        }),
    decreases ns.len(),
{
    if ns.len() > 0 {
        let front = ns.drop_last();
        let (k, v) = ns.last();
        assert forall|p: int, r: int| 0 <= p < r < front.len() implies lex_lt(
            (#[trigger] front[p]).0,
            (#[trigger] front[r]).0,
        ) by {
            assert(front[p] == ns[p] && front[r] == ns[r]);
        }
        lemma_apply_decls_elem(s, front, url, q);
        if q == k {
            // the last declaration decides; the key cannot recur in front
            assert(!has_key(front, q)) by {
                if has_key(front, q) {
                    let w = crate::strmap::idx_of(front, q);
                    assert(front[w].0 == q);
                    assert(ns[w].0 == q && ns[ns.len() - 1].0 == q);
                    lemma_sorted_key_unique(ns, w, ns.len() - 1);
                }
            }
            lemma_idx_of(ns, ns.len() - 1);
        } else {
            assert(has_key(ns, q) == has_key(front, q)) by {
                if has_key(ns, q) {
                    let w = crate::strmap::idx_of(ns, q);
                    assert(ns[w].0 == q);
                    assert(w < ns.len() - 1);
                    assert(front[w].0 == q);
                }
                if has_key(front, q) {
                    let w = crate::strmap::idx_of(front, q);
                    assert(front[w].0 == q);
                    assert(ns[w].0 == q);
                }
            }
            if has_key(front, q) {
                let w = crate::strmap::idx_of(front, q);
                assert(front[w].0 == q);
                lemma_idx_of(front, w);
                assert(ns[w].0 == q);
                lemma_idx_of(ns, w);
                assert(val_of(ns, q) == val_of(front, q));
            }
        }
    }
}

/// A prefix the shadowing walk collects for `url` really resolves to `url`:
/// the nearest declaration of that prefix on the chain is a declaration of
/// `url` (or, for the empty prefix and the empty URL, there is none at all).
/// The two fixed prefixes are excluded: they resolve to their fixed
/// namespaces no matter what a document declares.
pub proof fn lemma_collected_prefix_resolves(d: DocV, i: int, url: Seq<char>, q: Seq<char>)
    requires
        wf_doc(d),
        valid_id(d, i),
        q != xml_prefix(),
        q != xmlns_prefix(),
        spec_prefixes(d, i, url).contains(q),
    ensures
        spec_resolve(d, i, q) == Some(url),
    decreases term_fuel(d, i),
{
    lemma_prefixes_unfold(d, i, url, seed_prefixes(url));
    lemma_resolve_unfold(d, i, q);
    assert(sorted_unique(d.elems[i].attrs));
    assert(sorted_unique(d.elems[i].ns));
    match parent_of(d, i) {
        Some(p) => {
            let up = prefixes_rec(d, p, url, seed_prefixes(url), (term_fuel(d, p) + 1) as nat);
            lemma_apply_decls_elem(up, d.elems[i].ns, url, q);
            if has_key(d.elems[i].ns, q) {
                assert(val_of(d.elems[i].ns, q) == url);
            } else {
                lemma_term_fuel_step(d, i, p);
                lemma_collected_prefix_resolves(d, p, url, q);
            }
        },
        None => {
            lemma_apply_decls_elem(seed_prefixes(url), d.elems[i].ns, url, q);
            if has_key(d.elems[i].ns, q) {
                assert(val_of(d.elems[i].ns, q) == url);
            } else {
                assert(seed_prefixes(url).contains(q));
                assert(url.len() == 0 && q.len() == 0);
                assert(url =~= Seq::<char>::empty());
                assert(q =~= Seq::<char>::empty());
            }
        },
    }
}

} // verus!

