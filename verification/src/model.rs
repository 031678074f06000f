//! The mathematical model of a document: a sequence of element records with
//! parent back-references and children sequences, the well-formedness
//! predicate every operation preserves (parent/child duality, valid handles,
//! terminating parent chains), and the transformers that say what each
//! mutation does to the model.

use vstd::prelude::*;
use vstd::seq_lib::*;
use vstd::set_lib::{lemma_len_subset, lemma_int_range, set_int_range};
use crate::strmap::sorted_unique;

verus! {

/// Spec-level node: an element handle or a leaf with its text.
#[verifier::ext_equal]
pub enum NodeV {
    Elem(int),
    Text(Seq<char>),
    Comment(Seq<char>),
    CData(Seq<char>),
    PI(Seq<char>),
    DocType(Seq<char>),
}

/// Spec-level element record.
#[verifier::ext_equal]
pub struct ElemV {
    pub name: Seq<char>,
    pub attrs: Seq<(Seq<char>, Seq<char>)>,
    pub ns: Seq<(Seq<char>, Seq<char>)>,
    pub parent: Option<int>,
    pub children: Seq<NodeV>,
}

/// Spec-level document: the arena plus document metadata.
#[verifier::ext_equal]
pub struct DocV {
    pub elems: Seq<ElemV>,
    pub version: Seq<char>,
    pub standalone: bool,
}

pub open spec fn valid_id(d: DocV, i: int) -> bool {
    0 <= i < d.elems.len()
}

pub open spec fn parent_of(d: DocV, i: int) -> Option<int> {
    d.elems[i].parent
}

/// The node after `k` steps up the parent chain from `i`; `None` once the
/// chain has ended.
pub open spec fn anc(d: DocV, i: int, k: nat) -> Option<int>
    decreases k,
{
    if k == 0 {
        Some(i)
    } else {
        match anc(d, i, (k - 1) as nat) {
            Some(j) => if valid_id(d, j) {
                parent_of(d, j)
            } else {
                None
            },
            None => None,
        }
    }
}

/// `b` lies on the parent chain of `a` (`a` itself included).
pub open spec fn reaches(d: DocV, a: int, b: int) -> bool {
    exists|k: nat| anc(d, a, k) == Some(b)
}

/// The parent chain from `i` ends.
pub open spec fn terminates(d: DocV, i: int) -> bool {
    exists|k: nat| anc(d, i, k) is None
}

pub open spec fn count_elem(s: Seq<NodeV>, c: int) -> nat
    decreases s.len(),
{
    if s.len() == 0 {
        0
    } else {
        (if s[0] == NodeV::Elem(c) {
            1 as nat
        } else {
            0 as nat
        }) + count_elem(s.drop_first(), c)
    }
}

pub open spec fn has_child(d: DocV, p: int, c: int) -> bool {
    exists|k: int| 0 <= k < d.elems[p].children.len() && d.elems[p].children[k] == NodeV::Elem(c)
}

/// Well-formedness of a document model.
///
/// - handle 0 is the container and never has a parent;
/// - every parent reference and every child handle is a valid, nonzero
///   handle;
/// - duality: `c` records parent `p` exactly when `Elem(c)` stands in `p`'s
///   children, and it stands there only once;
/// - every parent chain ends (the tree is acyclic);
/// - attribute and namespace maps are sorted by key.
pub open spec fn wf_doc(d: DocV) -> bool {
    &&& d.elems.len() >= 1
    &&& parent_of(d, 0) is None
    &&& forall|i: int|
        valid_id(d, i) && (#[trigger] parent_of(d, i)) is Some ==> valid_id(d, parent_of(d, i)->0)
            && i != 0
    &&& forall|i: int, k: int|
        valid_id(d, i) && 0 <= k < d.elems[i].children.len() && (#[trigger] d.elems[i].children[k])
            is Elem ==> 0 < d.elems[i].children[k]->Elem_0 < d.elems.len()
    &&& forall|i: int|
        valid_id(d, i) && (#[trigger] parent_of(d, i)) is Some ==> has_child(
            d,
            parent_of(d, i)->0,
            i,
        )
    &&& forall|p: int, k: int|
        valid_id(d, p) && 0 <= k < d.elems[p].children.len() && (#[trigger] d.elems[p].children[k])
            is Elem ==> parent_of(d, d.elems[p].children[k]->Elem_0) == Some(p)
    &&& forall|p: int, k1: int, k2: int|
        valid_id(d, p) && 0 <= k1 < d.elems[p].children.len() && 0 <= k2
            < d.elems[p].children.len() && (#[trigger] d.elems[p].children[k1]) is Elem && (
        #[trigger] d.elems[p].children[k2]) is Elem && d.elems[p].children[k1]->Elem_0
            == d.elems[p].children[k2]->Elem_0 ==> k1 == k2
    &&& forall|i: int| valid_id(d, i) ==> #[trigger] terminates(d, i)
    &&& forall|i: int|
        valid_id(d, i) ==> sorted_unique(#[trigger] d.elems[i].attrs) && sorted_unique(
            d.elems[i].ns,
        )
}

// ------------------------------------------------------------------
// Chain lemmas
// ------------------------------------------------------------------
/// A chain that has ended stays ended.
pub proof fn lemma_anc_none(d: DocV, i: int, k1: nat, k2: nat)
    requires
        k1 <= k2,
        anc(d, i, k1) is None,
    ensures
        anc(d, i, k2) is None,
    decreases k2,
{
    if k2 > k1 {
        lemma_anc_none(d, i, k1, (k2 - 1) as nat);
    }
}

/// Splitting a chain: `a` steps and then `b` steps.
pub proof fn lemma_anc_add(d: DocV, i: int, a: nat, b: nat, x: int)
    requires
        anc(d, i, a) == Some(x),
    ensures
        anc(d, i, (a + b) as nat) == anc(d, x, b),
    decreases b,
{
    if b > 0 {
        lemma_anc_add(d, i, a, (b - 1) as nat, x);
    }
}

/// One step of the chain, written out.
pub proof fn lemma_anc_unfold(d: DocV, i: int)
    ensures
        anc(d, i, 0) == Some(i),
        anc(d, i, 1) == if valid_id(d, i) {
            parent_of(d, i)
        } else {
            None
        },
{
    assert(anc(d, i, 0) == Some(i));
}

/// A chain that ends never passes the same node twice.
pub proof fn lemma_chain_no_repeat(d: DocV, i: int, a: nat, b: nat, x: int, k: nat)
    requires
        a <= b,
        anc(d, i, a) == Some(x),
        anc(d, i, b) == Some(x),
        anc(d, i, k) is None,
    ensures
        a == b,
    decreases k,
{
    if a < b {
        if k <= b {
            lemma_anc_none(d, i, k, b);
            assert(anc(d, i, b) is None);
        } else {
            // the chain is periodic from step a on with period b - a
            let p = (b - a) as nat;
            let m = (k - b) as nat;
            lemma_anc_add(d, i, a, m, x);
            lemma_anc_add(d, i, b, m, x);
            assert(anc(d, i, (a + m) as nat) == anc(d, x, m));
            assert(anc(d, i, (b + m) as nat) == anc(d, x, m));
            assert(anc(d, i, (k - p) as nat) == anc(d, i, k));
            lemma_chain_no_repeat(d, i, a, b, x, (k - p) as nat);
        }
    }
}

/// In a well-formed document every chain ends within `elems.len()` steps.
pub proof fn lemma_chain_bound(d: DocV, i: int)
    requires
        forall|j: int|
            valid_id(d, j) && (#[trigger] parent_of(d, j)) is Some ==> valid_id(
                d,
                parent_of(d, j)->0,
            ),
        terminates(d, i),
        valid_id(d, i),
    ensures
        anc(d, i, d.elems.len() as nat) is None,
{
    let n = d.elems.len() as nat;
    if anc(d, i, n) is Some {
        assert forall|k: nat| k <= n implies (#[trigger] anc(d, i, k)) is Some by {
            if anc(d, i, k) is None {
                lemma_anc_none(d, i, k, n);
            }
        }
        // every value on the chain is a valid handle
        assert forall|k: nat| k <= n implies valid_id(d, (#[trigger] anc(d, i, k))->0) by {
            lemma_chain_valid(d, i, k);
        }
        let vs = Seq::<int>::new((n + 1) as nat, |k: int| anc(d, i, k as nat)->0);
        assert(vs.no_duplicates()) by {
            assert forall|k1: int, k2: int|
                0 <= k1 < vs.len() && 0 <= k2 < vs.len() && k1 != k2 implies vs[k1] != vs[k2] by {
                let kk = choose|k: nat| anc(d, i, k) is None;
                if vs[k1] == vs[k2] {
                    if k1 < k2 {
                        assert(anc(d, i, k1 as nat) == Some(vs[k1]));
                        assert(anc(d, i, k2 as nat) == Some(vs[k1]));
                        lemma_chain_no_repeat(d, i, k1 as nat, k2 as nat, vs[k1], kk);
                    } else {
                        assert(anc(d, i, k2 as nat) == Some(vs[k2]));
                        assert(anc(d, i, k1 as nat) == Some(vs[k2]));
                        lemma_chain_no_repeat(d, i, k2 as nat, k1 as nat, vs[k2], kk);
                    }
                }
            }
        }
        vs.unique_seq_to_set();
        assert(vs.to_set().len() == n + 1);
        assert(vs.to_set().subset_of(set_int_range(0, n as int))) by {
            assert forall|x: int| vs.to_set().contains(x) implies set_int_range(
                0,
                n as int,
            ).contains(x) by {
                let k = choose|k: int| 0 <= k < vs.len() && vs[k] == x;
                assert(valid_id(d, anc(d, i, k as nat)->0));
            }
        }
        lemma_int_range(0, n as int);
        lemma_len_subset(vs.to_set(), set_int_range(0, n as int));
    }
}

/// On a chain of a document with valid parents, every value is valid.
pub proof fn lemma_chain_valid(d: DocV, i: int, k: nat)
    requires
        forall|j: int|
            valid_id(d, j) && (#[trigger] parent_of(d, j)) is Some ==> valid_id(
                d,
                parent_of(d, j)->0,
            ),
        valid_id(d, i),
        anc(d, i, k) is Some,
    ensures
        valid_id(d, anc(d, i, k)->0),
    decreases k,
{
    if k > 0 {
        lemma_chain_valid(d, i, (k - 1) as nat);
    }
}

/// The least number of steps after which the chain from `i` has ended.
pub open spec fn term_fuel(d: DocV, i: int) -> nat {
    choose|k: nat|
        anc(d, i, k) is None && (forall|m: nat| m < k ==> (#[trigger] anc(d, i, m)) is Some)
}

pub proof fn lemma_term_fuel_exists(d: DocV, i: int, k: nat)
    requires
        anc(d, i, k) is None,
    ensures
        anc(d, i, term_fuel(d, i)) is None,
        forall|m: nat| m < term_fuel(d, i) ==> (#[trigger] anc(d, i, m)) is Some,
        term_fuel(d, i) <= k,
    decreases k,
{
    if forall|m: nat| m < k ==> (#[trigger] anc(d, i, m)) is Some {
        assert(anc(d, i, k) is None && (forall|m: nat|
            m < k ==> (#[trigger] anc(d, i, m)) is Some));
        let w = term_fuel(d, i);
        if w > k {
            assert(anc(d, i, k) is Some);
        }
    } else {
        let m = choose|m: nat| m < k && !((#[trigger] anc(d, i, m)) is Some);
        lemma_term_fuel_exists(d, i, m);
    }
}

/// Stepping to the parent lowers the fuel by one.
pub proof fn lemma_term_fuel_step(d: DocV, i: int, p: int)
    requires
        terminates(d, i),
        valid_id(d, i),
        parent_of(d, i) == Some(p),
    ensures
        terminates(d, p),
        term_fuel(d, p) == term_fuel(d, i) - 1,
{
    let k = choose|k: nat| anc(d, i, k) is None;
    lemma_term_fuel_exists(d, i, k);
    let f = term_fuel(d, i);
    lemma_anc_unfold(d, i);
    assert(anc(d, i, 1) == Some(p));
    assert(f >= 1) by {
        if f == 0 {
            assert(anc(d, i, 0) == Some(i));
        }
    }
    lemma_anc_add(d, i, 1, (f - 1) as nat, p);
    assert(anc(d, p, (f - 1) as nat) == anc(d, i, f));
    lemma_term_fuel_exists(d, p, (f - 1) as nat);
    let g = term_fuel(d, p);
    if g < f - 1 {
        lemma_anc_add(d, i, 1, g, p);
        assert(anc(d, i, (1 + g) as nat) == anc(d, p, g));
        assert(anc(d, i, (1 + g) as nat) is Some);
    }
}

// ------------------------------------------------------------------
// Chains under change
// ------------------------------------------------------------------
/// Two documents with the same length and the same parents everywhere but at
/// `e` have the same chains as long as the chain avoids `e`.
pub proof fn lemma_anc_same(d: DocV, d2: DocV, e: int, i: int, k: nat)
    requires
        d2.elems.len() == d.elems.len(),
        forall|x: int| valid_id(d, x) && x != e ==> parent_of(d2, x) == (#[trigger] parent_of(d, x)),
        forall|m: nat| m < k ==> (#[trigger] anc(d, i, m)) != Some(e),
    ensures
        anc(d2, i, k) == anc(d, i, k),
    decreases k,
{
    if k > 0 {
        assert forall|m: nat| m < (k - 1) as nat implies (#[trigger] anc(d, i, m)) != Some(e) by {
            assert(anc(d, i, m) != Some(e));
        }
        lemma_anc_same(d, d2, e, i, (k - 1) as nat);
    }
}

/// Cutting a parent link (or leaving it alone) keeps every chain ending.
pub proof fn lemma_weaker_terminates(d: DocV, d2: DocV, i: int, k: nat)
    requires
        d2.elems.len() == d.elems.len(),
        forall|x: int|
            valid_id(d, x) ==> (#[trigger] parent_of(d2, x)) == parent_of(d, x) || parent_of(d2, x)
                is None,
        anc(d, i, k) is None,
    ensures
        terminates(d2, i),
    decreases k,
{
    lemma_anc_unfold(d, i);
    lemma_anc_unfold(d2, i);
    if !valid_id(d, i) {
        assert(anc(d2, i, 1) is None);
    } else if parent_of(d2, i) is None {
        assert(anc(d2, i, 1) is None);
    } else {
        assert(parent_of(d2, i) == parent_of(d, i));
        let p = parent_of(d, i)->0;
        assert(anc(d, i, 1) == Some(p));
        assert(k >= 1) by {
            if k == 0 {
                assert(anc(d, i, 0) == Some(i));
            }
        }
        lemma_anc_add(d, i, 1, (k - 1) as nat, p);
        assert(anc(d, p, (k - 1) as nat) is None);
        lemma_weaker_terminates(d, d2, p, (k - 1) as nat);
        let m = choose|m: nat| anc(d2, p, m) is None;
        assert(anc(d2, i, 1) == Some(p));
        lemma_anc_add(d2, i, 1, m, p);
        assert(anc(d2, i, (1 + m) as nat) is None);
    }
}

// ------------------------------------------------------------------
// Transformers
// ------------------------------------------------------------------
/// A fresh element record.
pub open spec fn fresh_elem(
    name: Seq<char>,
    attrs: Seq<(Seq<char>, Seq<char>)>,
    ns: Seq<(Seq<char>, Seq<char>)>,
) -> ElemV {
    ElemV { name, attrs, ns, parent: None, children: Seq::empty() }
}

/// Allocating appends a parentless, childless record.
pub open spec fn alloc_tr(
    d: DocV,
    name: Seq<char>,
    attrs: Seq<(Seq<char>, Seq<char>)>,
    ns: Seq<(Seq<char>, Seq<char>)>,
) -> DocV {
    DocV { elems: d.elems.push(fresh_elem(name, attrs, ns)), ..d }
}

/// Attaching inserts `node` into `p`'s children at `idx`; an element node
/// additionally gets its parent reference set to `p`.
pub open spec fn attach_tr(d: DocV, p: int, idx: int, node: NodeV) -> DocV {
    let with_child = d.elems.update(
        p,
        ElemV { children: d.elems[p].children.insert(idx, node), ..d.elems[p] },
    );
    match node {
        NodeV::Elem(e) => DocV {
            elems: with_child.update(e, ElemV { parent: Some(p), ..with_child[e] }),
            ..d
        },
        _ => DocV { elems: with_child, ..d },
    }
}

/// Removing takes the node at `idx` out of `p`'s children; an element node
/// additionally gets its parent reference cleared.
pub open spec fn remove_tr(d: DocV, p: int, idx: int) -> DocV {
    let node = d.elems[p].children[idx];
    let without = d.elems.update(
        p,
        ElemV { children: d.elems[p].children.remove(idx), ..d.elems[p] },
    );
    match node {
        NodeV::Elem(e) => DocV {
            elems: without.update(e, ElemV { parent: None, ..without[e] }),
            ..d
        },
        _ => DocV { elems: without, ..d },
    }
}

/// The position of element `e` among the children of its parent.
pub open spec fn child_idx_of(d: DocV, p: int, e: int) -> int {
    choose|k: int| 0 <= k < d.elems[p].children.len() && d.elems[p].children[k] == NodeV::Elem(e)
}

/// Detaching an element with a parent removes it there; a parentless element
/// is left alone.
pub open spec fn detach_tr(d: DocV, e: int) -> DocV {
    match parent_of(d, e) {
        Some(p) => remove_tr(d, p, child_idx_of(d, p, e)),
        None => d,
    }
}

// ------------------------------------------------------------------
// Transformer well-formedness
// ------------------------------------------------------------------
pub proof fn lemma_alloc_wf(
    d: DocV,
    name: Seq<char>,
    attrs: Seq<(Seq<char>, Seq<char>)>,
    ns: Seq<(Seq<char>, Seq<char>)>,
)
    requires
        wf_doc(d),
        sorted_unique(attrs),
        sorted_unique(ns),
    ensures
        wf_doc(alloc_tr(d, name, attrs, ns)),
        forall|i: int| valid_id(d, i) ==> !reaches(alloc_tr(d, name, attrs, ns), i, d.elems.len() as int),
{
    let d2 = alloc_tr(d, name, attrs, ns);
    let n = d.elems.len() as int;
    assert forall|i: int|
        valid_id(d2, i) && (#[trigger] parent_of(d2, i)) is Some implies has_child(
        d2,
        parent_of(d2, i)->0,
        i,
    ) && valid_id(d2, parent_of(d2, i)->0) && i != 0 by {
        assert(i != n);
        assert(parent_of(d, i) == parent_of(d2, i));
        let q = parent_of(d, i)->0;
        assert(has_child(d, q, i));
        let k = choose|k: int|
            0 <= k < d.elems[q].children.len() && d.elems[q].children[k] == NodeV::Elem(i);
        assert(d2.elems[q].children[k] == NodeV::Elem(i));
        assert(has_child(d2, q, i));
    }
    assert forall|q: int, k: int|
        valid_id(d2, q) && 0 <= k < d2.elems[q].children.len() && (
    #[trigger] d2.elems[q].children[k]) is Elem implies parent_of(
        d2,
        d2.elems[q].children[k]->Elem_0,
    ) == Some(q) && 0 < d2.elems[q].children[k]->Elem_0 < d2.elems.len() by {
        assert(q != n);
        assert(d2.elems[q].children == d.elems[q].children);
        assert(d.elems[q].children[k] is Elem);
    }
    assert forall|q: int, k1: int, k2: int|
        valid_id(d2, q) && 0 <= k1 < d2.elems[q].children.len() && 0 <= k2
            < d2.elems[q].children.len() && (#[trigger] d2.elems[q].children[k1]) is Elem && (
    #[trigger] d2.elems[q].children[k2]) is Elem && d2.elems[q].children[k1]->Elem_0
        == d2.elems[q].children[k2]->Elem_0 implies k1 == k2 by {
        assert(q != n);
        assert(d2.elems[q].children == d.elems[q].children);
        assert(d.elems[q].children[k1] is Elem);
        assert(d.elems[q].children[k2] is Elem);
    }
    assert forall|i: int| valid_id(d2, i) implies sorted_unique(#[trigger] d2.elems[i].attrs)
        && sorted_unique(d2.elems[i].ns) by {
        if i != n {
            assert(d2.elems[i] == d.elems[i]);
            assert(sorted_unique(d.elems[i].attrs));
        }
    }
    assert forall|i: int| valid_id(d2, i) implies #[trigger] terminates(d2, i) by {
        if i == n {
            lemma_anc_unfold(d2, i);
            assert(anc(d2, i, 1) is None);
        } else {
            assert(terminates(d, i));
            let k = choose|k: nat| anc(d, i, k) is None;
            assert forall|m: nat| m < k implies (#[trigger] anc(d2, i, m)) == anc(d, i, m) by {
                lemma_anc_prefix_same(d, d2, i, m);
            }
            assert(anc(d2, i, k) == anc(d, i, k)) by {
                lemma_anc_prefix_same(d, d2, i, k);
            }
        }
    }
    assert forall|i: int| valid_id(d, i) implies !reaches(d2, i, n) by {
        if reaches(d2, i, n) {
            let k = choose|k: nat| anc(d2, i, k) == Some(n);
            lemma_anc_prefix_same(d, d2, i, k);
            lemma_chain_valid_none(d, i, k);
        }
    }
}

/// A chain of the old arena is unchanged by appending records: it never
/// leaves the old arena.
pub proof fn lemma_anc_prefix_same(d: DocV, d2: DocV, i: int, k: nat)
    requires
        wf_doc(d),
        d.elems.len() <= d2.elems.len(),
        forall|x: int| valid_id(d, x) ==> parent_of(d2, x) == (#[trigger] parent_of(d, x)),
        valid_id(d, i),
    ensures
        anc(d2, i, k) == anc(d, i, k),
        anc(d, i, k) is Some ==> valid_id(d, anc(d, i, k)->0),
    decreases k,
{
    if k > 0 {
        lemma_anc_prefix_same(d, d2, i, (k - 1) as nat);
    }
}

/// A chain from a valid handle of a well-formed arena never names an invalid
/// handle.
pub proof fn lemma_chain_valid_none(d: DocV, i: int, k: nat)
    requires
        wf_doc(d),
        valid_id(d, i),
    ensures
        anc(d, i, k) is Some ==> valid_id(d, anc(d, i, k)->0),
    decreases k,
{
    if k > 0 {
        lemma_chain_valid_none(d, i, (k - 1) as nat);
    }
}

#[verifier::rlimit(100)]
pub proof fn lemma_attach_wf(d: DocV, p: int, idx: int, node: NodeV)
    requires
        wf_doc(d),
        valid_id(d, p),
        0 <= idx <= d.elems[p].children.len(),
        node is Elem ==> {
            &&& 0 < node->Elem_0 < d.elems.len()
            &&& parent_of(d, node->Elem_0) is None
            &&& !reaches(d, p, node->Elem_0)
        },
    ensures
        wf_doc(attach_tr(d, p, idx, node)),
{
    let d2 = attach_tr(d, p, idx, node);
    let ch = d.elems[p].children;
    let ch2 = d2.elems[p].children;
    assert(ch2 == ch.insert(idx, node));
    if node is Elem {
        let e = node->Elem_0;
        // nobody's child: an element without a parent stands in no children
        // sequence (duality).
        assert forall|q: int, k: int|
            valid_id(d, q) && 0 <= k < d.elems[q].children.len() implies (
        #[trigger] d.elems[q].children[k]) != NodeV::Elem(e) by {
            if d.elems[q].children[k] == NodeV::Elem(e) {
                assert(parent_of(d, e) == Some(q));
            }
        }
        assert(e != p) by {
            if e == p {
                assert(anc(d, p, 0) == Some(p));
                assert(reaches(d, p, e));
            }
        }
        assert(d2.elems.len() == d.elems.len());
        assert(parent_of(d2, e) == Some(p));
        assert forall|x: int| valid_id(d, x) && x != e implies (#[trigger] parent_of(d2, x))
            == parent_of(d, x) by {}
        // children of everyone but p unchanged; children of p gain Elem(e).
        // duality and uniqueness:
        assert forall|i: int|
            valid_id(d2, i) && (#[trigger] parent_of(d2, i)) is Some implies has_child(
            d2,
            parent_of(d2, i)->0,
            i,
        ) && valid_id(d2, parent_of(d2, i)->0) && i != 0 by {
            if i == e {
                assert(d2.elems[p].children[idx] == NodeV::Elem(e));
                assert(has_child(d2, p, e));
            } else {
                let q = parent_of(d, i)->0;
                assert(has_child(d, q, i));
                let k = choose|k: int|
                    0 <= k < d.elems[q].children.len() && d.elems[q].children[k] == NodeV::Elem(i);
                if q == p {
                    if k < idx {
                        assert(d2.elems[p].children[k] == NodeV::Elem(i));
                    } else {
                        assert(d2.elems[p].children[k + 1] == NodeV::Elem(i));
                    }
                    assert(has_child(d2, q, i));
                } else {
                    assert(d2.elems[q].children == d.elems[q].children);
                    assert(has_child(d2, q, i));
                }
            }
        }
        assert forall|q: int, k: int|
            valid_id(d2, q) && 0 <= k < d2.elems[q].children.len() && (
        #[trigger] d2.elems[q].children[k]) is Elem implies parent_of(
            d2,
            d2.elems[q].children[k]->Elem_0,
        ) == Some(q) && 0 < d2.elems[q].children[k]->Elem_0 < d2.elems.len() by {
            if q == p {
                if k == idx {
                } else {
                    let k0 = if k < idx {
                        k
                    } else {
                        k - 1
                    };
                    assert(d2.elems[p].children[k] == ch[k0]);
                    assert(d.elems[p].children[k0] is Elem);
                    assert(ch[k0] != NodeV::Elem(e));
                }
            } else {
                assert(d2.elems[q].children[k] == d.elems[q].children[k]);
                assert(d.elems[q].children[k] is Elem);
                assert(d.elems[q].children[k] != NodeV::Elem(e));
            }
        }
        assert forall|q: int, k1: int, k2: int|
            valid_id(d2, q) && 0 <= k1 < d2.elems[q].children.len() && 0 <= k2
                < d2.elems[q].children.len() && (#[trigger] d2.elems[q].children[k1]) is Elem && (
        #[trigger] d2.elems[q].children[k2]) is Elem && d2.elems[q].children[k1]->Elem_0
            == d2.elems[q].children[k2]->Elem_0 implies k1 == k2 by {
            if q == p {
                if k1 != k2 {
                    let c = d2.elems[p].children[k1]->Elem_0;
                    if k1 == idx || k2 == idx {
                        let ko = if k1 == idx {
                            k2
                        } else {
                            k1
                        };
                        let ko0 = if ko < idx {
                            ko
                        } else {
                            ko - 1
                        };
                        assert(d2.elems[p].children[if k1 == idx {
                            k1
                        } else {
                            k2
                        }] == node);
                        assert(c == e);
                        assert(d2.elems[p].children[ko] == ch[ko0]);
                        assert(ch[ko0] is Elem && ch[ko0]->Elem_0 == e);
                        assert(ch[ko0] == NodeV::Elem(e));
                    } else {
                        let k10 = if k1 < idx {
                            k1
                        } else {
                            k1 - 1
                        };
                        let k20 = if k2 < idx {
                            k2
                        } else {
                            k2 - 1
                        };
                        assert(d2.elems[p].children[k1] == ch[k10]);
                        assert(d2.elems[p].children[k2] == ch[k20]);
                        assert(ch[k10] is Elem && ch[k20] is Elem);
                        assert(k10 == k20);
                    }
                }
            } else {
                if k1 != k2 {
                    assert(d2.elems[q].children == d.elems[q].children);
                    assert(d.elems[q].children[k1] is Elem);
                    assert(d.elems[q].children[k2] is Elem);
                }
            }
        }
        // termination: chains that reach e continue along p's chain, which
        // avoids e.
        assert forall|i: int|
            valid_id(d2, i) implies sorted_unique(#[trigger] d2.elems[i].attrs) && sorted_unique(
            d2.elems[i].ns,
        ) by {
            assert(d2.elems[i].attrs == d.elems[i].attrs);
            assert(d2.elems[i].ns == d.elems[i].ns);
            assert(sorted_unique(d.elems[i].attrs));
            assert(sorted_unique(d.elems[i].ns));
        }
        assert(parent_of(d2, 0) is None);
        assert forall|i: int| valid_id(d2, i) implies #[trigger] terminates(d2, i) by {
            assert(terminates(d, i));
            let k = choose|k: nat| anc(d, i, k) is None;
            lemma_term_fuel_exists(d, i, k);
            let f = term_fuel(d, i);
            if exists|m: nat| m < f && (#[trigger] anc(d, i, m)) == Some(e) {
                let m = choose|m: nat| m < f && (#[trigger] anc(d, i, m)) == Some(e);
                assert forall|m2: nat| m2 < m implies (#[trigger] anc(d, i, m2)) != Some(e) by {
                    if anc(d, i, m2) == Some(e) {
                        lemma_chain_no_repeat(d, i, m2, m, e, f);
                    }
                }
                lemma_anc_same(d, d2, e, i, m);
                assert(anc(d2, i, m) == Some(e));
                lemma_anc_unfold(d2, e);
                assert(anc(d2, e, 1) == Some(p));
                // p's chain in d avoids e and ends
                assert(terminates(d, p));
                let kp = choose|k: nat| anc(d, p, k) is None;
                assert forall|m2: nat| m2 < kp implies (#[trigger] anc(d, p, m2)) != Some(e) by {
                    if anc(d, p, m2) == Some(e) {
                        assert(reaches(d, p, e));
                    }
                }
                lemma_anc_same(d, d2, e, p, kp);
                assert(anc(d2, p, kp) is None);
                lemma_anc_add(d2, e, 1, kp, p);
                assert(anc(d2, e, (1 + kp) as nat) is None);
                lemma_anc_add(d2, i, m, (1 + kp) as nat, e);
                assert(anc(d2, i, (m + (1 + kp) as nat) as nat) is None);
            } else {
                assert forall|m: nat| m < f implies (#[trigger] anc(d, i, m)) != Some(e) by {}
                lemma_anc_same(d, d2, e, i, f);
                assert(anc(d2, i, f) is None);
            }
        }
    } else {
        // only the children of p change, by inserting a leaf
        assert(d2.elems.len() == d.elems.len());
        assert forall|x: int| valid_id(d, x) implies (#[trigger] parent_of(d2, x)) == parent_of(
            d,
            x,
        ) by {}
        assert forall|i: int|
            valid_id(d2, i) && (#[trigger] parent_of(d2, i)) is Some implies has_child(
            d2,
            parent_of(d2, i)->0,
            i,
        ) && valid_id(d2, parent_of(d2, i)->0) && i != 0 by {
            let q = parent_of(d, i)->0;
            assert(has_child(d, q, i));
            let k = choose|k: int|
                0 <= k < d.elems[q].children.len() && d.elems[q].children[k] == NodeV::Elem(i);
            if q == p {
                if k < idx {
                    assert(d2.elems[p].children[k] == NodeV::Elem(i));
                } else {
                    assert(d2.elems[p].children[k + 1] == NodeV::Elem(i));
                }
            } else {
                assert(d2.elems[q].children == d.elems[q].children);
            }
            assert(has_child(d2, q, i));
        }
        assert forall|q: int, k: int|
            valid_id(d2, q) && 0 <= k < d2.elems[q].children.len() && (
        #[trigger] d2.elems[q].children[k]) is Elem implies parent_of(
            d2,
            d2.elems[q].children[k]->Elem_0,
        ) == Some(q) && 0 < d2.elems[q].children[k]->Elem_0 < d2.elems.len() by {
            if q == p {
                let k0 = if k < idx {
                    k
                } else {
                    k - 1
                };
                assert(k != idx);
                assert(d2.elems[p].children[k] == ch[k0]);
                assert(d.elems[p].children[k0] is Elem);
            } else {
                assert(d2.elems[q].children == d.elems[q].children);
                assert(d.elems[q].children[k] is Elem);
            }
        }
        assert forall|q: int, k1: int, k2: int|
            valid_id(d2, q) && 0 <= k1 < d2.elems[q].children.len() && 0 <= k2
                < d2.elems[q].children.len() && (#[trigger] d2.elems[q].children[k1]) is Elem && (
        #[trigger] d2.elems[q].children[k2]) is Elem && d2.elems[q].children[k1]->Elem_0
            == d2.elems[q].children[k2]->Elem_0 implies k1 == k2 by {
            if q == p && k1 != k2 {
                assert(k1 != idx && k2 != idx);
                let k10 = if k1 < idx {
                    k1
                } else {
                    k1 - 1
                };
                let k20 = if k2 < idx {
                    k2
                } else {
                    k2 - 1
                };
                assert(d2.elems[p].children[k1] == ch[k10]);
                assert(d2.elems[p].children[k2] == ch[k20]);
                assert(ch[k10] is Elem && ch[k20] is Elem);
                assert(k10 == k20);
            } else if k1 != k2 {
                assert(d2.elems[q].children == d.elems[q].children);
                assert(d.elems[q].children[k1] is Elem);
                assert(d.elems[q].children[k2] is Elem);
            }
        }
        assert forall|i: int|
            valid_id(d2, i) implies sorted_unique(#[trigger] d2.elems[i].attrs) && sorted_unique(
            d2.elems[i].ns,
        ) by {
            assert(d2.elems[i].attrs == d.elems[i].attrs);
            assert(d2.elems[i].ns == d.elems[i].ns);
            assert(sorted_unique(d.elems[i].attrs));
            assert(sorted_unique(d.elems[i].ns));
        }
        assert(parent_of(d2, 0) is None);
        assert forall|i: int| valid_id(d2, i) implies #[trigger] terminates(d2, i) by {
            assert(terminates(d, i));
            let k = choose|k: nat| anc(d, i, k) is None;
            lemma_weaker_terminates(d, d2, i, k);
        }
    }
}

#[verifier::rlimit(100)]
pub proof fn lemma_remove_wf(d: DocV, p: int, idx: int)
    requires
        wf_doc(d),
        valid_id(d, p),
        0 <= idx < d.elems[p].children.len(),
    ensures
        wf_doc(remove_tr(d, p, idx)),
{
    let d2 = remove_tr(d, p, idx);
    let ch = d.elems[p].children;
    let node = ch[idx];
    assert(d2.elems.len() == d.elems.len());
    if node is Elem {
        let e = node->Elem_0;
        assert(parent_of(d, e) == Some(p));
        assert(e != 0 && valid_id(d, e));
        assert(parent_of(d2, e) is None);
        // Elem(e) occurs only at idx (uniqueness), so it is gone afterwards.
        assert forall|q: int, k: int|
            valid_id(d2, q) && 0 <= k < d2.elems[q].children.len() implies (
        #[trigger] d2.elems[q].children[k]) != NodeV::Elem(e) by {
            if q == p {
                let k0 = if k < idx {
                    k
                } else {
                    k + 1
                };
                assert(d2.elems[p].children[k] == ch[k0]);
                if ch[k0] == NodeV::Elem(e) {
                    assert(ch[idx] == NodeV::Elem(e));
                    assert(k0 == idx);
                }
            } else {
                if d.elems[q].children[k] == NodeV::Elem(e) {
                    assert(parent_of(d, e) == Some(q));
                }
            }
        }
        assert forall|i: int|
            valid_id(d2, i) && (#[trigger] parent_of(d2, i)) is Some implies has_child(
            d2,
            parent_of(d2, i)->0,
            i,
        ) && valid_id(d2, parent_of(d2, i)->0) && i != 0 by {
            assert(i != e);
            let q = parent_of(d, i)->0;
            assert(parent_of(d2, i) == parent_of(d, i));
            assert(has_child(d, q, i));
            let k = choose|k: int|
                0 <= k < d.elems[q].children.len() && d.elems[q].children[k] == NodeV::Elem(i);
            if q == p {
                assert(k != idx);
                if k < idx {
                    assert(d2.elems[p].children[k] == NodeV::Elem(i));
                } else {
                    assert(d2.elems[p].children[k - 1] == ch[k]);
                }
                assert(has_child(d2, q, i));
            } else {
                assert(d2.elems[q].children == d.elems[q].children);
                assert(has_child(d2, q, i));
            }
        }
        assert forall|q: int, k: int|
            valid_id(d2, q) && 0 <= k < d2.elems[q].children.len() && (
        #[trigger] d2.elems[q].children[k]) is Elem implies parent_of(
            d2,
            d2.elems[q].children[k]->Elem_0,
        ) == Some(q) && 0 < d2.elems[q].children[k]->Elem_0 < d2.elems.len() by {
            let c = d2.elems[q].children[k]->Elem_0;
            assert(c != e);
            if q == p {
                let k0 = if k < idx {
                    k
                } else {
                    k + 1
                };
                assert(d2.elems[p].children[k] == ch[k0]);
                assert(d.elems[p].children[k0] is Elem);
            } else {
                assert(d2.elems[q].children == d.elems[q].children);
                assert(d.elems[q].children[k] is Elem);
            }
        }
        assert forall|q: int, k1: int, k2: int|
            valid_id(d2, q) && 0 <= k1 < d2.elems[q].children.len() && 0 <= k2
                < d2.elems[q].children.len() && (#[trigger] d2.elems[q].children[k1]) is Elem && (
        #[trigger] d2.elems[q].children[k2]) is Elem && d2.elems[q].children[k1]->Elem_0
            == d2.elems[q].children[k2]->Elem_0 implies k1 == k2 by {
            if q == p && k1 != k2 {
                let k10 = if k1 < idx {
                    k1
                } else {
                    k1 + 1
                };
                let k20 = if k2 < idx {
                    k2
                } else {
                    k2 + 1
                };
                assert(d2.elems[p].children[k1] == ch[k10]);
                assert(d2.elems[p].children[k2] == ch[k20]);
                assert(ch[k10] is Elem && ch[k20] is Elem);
                assert(k10 == k20);
            } else if k1 != k2 {
                assert(d2.elems[q].children == d.elems[q].children);
                assert(d.elems[q].children[k1] is Elem);
                assert(d.elems[q].children[k2] is Elem);
            }
        }
        assert forall|i: int|
            valid_id(d2, i) implies sorted_unique(#[trigger] d2.elems[i].attrs) && sorted_unique(
            d2.elems[i].ns,
        ) by {
            assert(d2.elems[i].attrs == d.elems[i].attrs);
            assert(d2.elems[i].ns == d.elems[i].ns);
            assert(sorted_unique(d.elems[i].attrs));
            assert(sorted_unique(d.elems[i].ns));
        }
        assert(parent_of(d2, 0) is None);
        assert forall|i: int| valid_id(d2, i) implies #[trigger] terminates(d2, i) by {
            assert(terminates(d, i));
            let k = choose|k: nat| anc(d, i, k) is None;
            lemma_weaker_terminates(d, d2, i, k);
        }
    } else {
        assert forall|x: int| valid_id(d, x) implies (#[trigger] parent_of(d2, x)) == parent_of(
            d,
            x,
        ) by {}
        assert forall|i: int|
            valid_id(d2, i) && (#[trigger] parent_of(d2, i)) is Some implies has_child(
            d2,
            parent_of(d2, i)->0,
            i,
        ) && valid_id(d2, parent_of(d2, i)->0) && i != 0 by {
            let q = parent_of(d, i)->0;
            assert(has_child(d, q, i));
            let k = choose|k: int|
                0 <= k < d.elems[q].children.len() && d.elems[q].children[k] == NodeV::Elem(i);
            if q == p {
                assert(k != idx);
                if k < idx {
                    assert(d2.elems[p].children[k] == NodeV::Elem(i));
                } else {
                    assert(d2.elems[p].children[k - 1] == ch[k]);
                }
            } else {
                assert(d2.elems[q].children == d.elems[q].children);
            }
            assert(has_child(d2, q, i));
        }
        assert forall|q: int, k: int|
            valid_id(d2, q) && 0 <= k < d2.elems[q].children.len() && (
        #[trigger] d2.elems[q].children[k]) is Elem implies parent_of(
            d2,
            d2.elems[q].children[k]->Elem_0,
        ) == Some(q) && 0 < d2.elems[q].children[k]->Elem_0 < d2.elems.len() by {
            if q == p {
                let k0 = if k < idx {
                    k
                } else {
                    k + 1
                };
                assert(d2.elems[p].children[k] == ch[k0]);
            }
        }
        assert forall|q: int, k1: int, k2: int|
            valid_id(d2, q) && 0 <= k1 < d2.elems[q].children.len() && 0 <= k2
                < d2.elems[q].children.len() && (#[trigger] d2.elems[q].children[k1]) is Elem && (
        #[trigger] d2.elems[q].children[k2]) is Elem && d2.elems[q].children[k1]->Elem_0
            == d2.elems[q].children[k2]->Elem_0 implies k1 == k2 by {
            if q == p && k1 != k2 {
                let k10 = if k1 < idx {
                    k1
                } else {
                    k1 + 1
                };
                let k20 = if k2 < idx {
                    k2
                } else {
                    k2 + 1
                };
                assert(d2.elems[p].children[k1] == ch[k10]);
                assert(d2.elems[p].children[k2] == ch[k20]);
                assert(ch[k10] is Elem && ch[k20] is Elem);
                assert(k10 == k20);
            } else if k1 != k2 {
                assert(d2.elems[q].children == d.elems[q].children);
                assert(d.elems[q].children[k1] is Elem);
                assert(d.elems[q].children[k2] is Elem);
            }
        }
        assert forall|i: int|
            valid_id(d2, i) implies sorted_unique(#[trigger] d2.elems[i].attrs) && sorted_unique(
            d2.elems[i].ns,
        ) by {
            assert(d2.elems[i].attrs == d.elems[i].attrs);
            assert(d2.elems[i].ns == d.elems[i].ns);
            assert(sorted_unique(d.elems[i].attrs));
            assert(sorted_unique(d.elems[i].ns));
        }
        assert(parent_of(d2, 0) is None);
        assert forall|i: int| valid_id(d2, i) implies #[trigger] terminates(d2, i) by {
            assert(terminates(d, i));
            let k = choose|k: nat| anc(d, i, k) is None;
            lemma_weaker_terminates(d, d2, i, k);
        }
    }
}

/// The container's chain is only itself: it reaches no other element.
pub proof fn lemma_container_reaches_only_self(d: DocV, e: int)
    requires
        wf_doc(d),
        e != 0,
    ensures
        !reaches(d, 0, e),
{
    lemma_anc_unfold(d, 0);
    if reaches(d, 0, e) {
        let k = choose|k: nat| anc(d, 0, k) == Some(e);
        if k >= 1 {
            lemma_anc_none(d, 0, 1, k);
        }
    }
}

/// Fuel for walking down a subtree: how much deeper a chain can get before
/// it would exceed the arena.
pub open spec fn subtree_fuel(d: DocV, i: int) -> nat {
    (d.elems.len() + 1 - term_fuel(d, i)) as nat
}

/// The chain from a valid handle is no longer than the arena, so the
/// subtree fuel is positive.
pub proof fn lemma_subtree_fuel_pos(d: DocV, i: int)
    requires
        wf_doc(d),
        valid_id(d, i),
    ensures
        1 <= term_fuel(d, i) <= d.elems.len(),
        subtree_fuel(d, i) >= 1,
{
    assert(terminates(d, i));
    let k = choose|k: nat| anc(d, i, k) is None;
    lemma_chain_bound(d, i);
    lemma_term_fuel_exists(d, i, d.elems.len() as nat);
    assert(term_fuel(d, i) >= 1) by {
        if term_fuel(d, i) == 0 {
            assert(anc(d, i, 0) == Some(i));
        }
    }
}

/// A child's subtree fuel is one less than its parent's.
pub proof fn lemma_subtree_fuel_child(d: DocV, p: int, c: int)
    requires
        wf_doc(d),
        valid_id(d, p),
        valid_id(d, c),
        parent_of(d, c) == Some(p),
    ensures
        term_fuel(d, c) == term_fuel(d, p) + 1,
        subtree_fuel(d, c) == subtree_fuel(d, p) - 1,
        subtree_fuel(d, c) >= 1,
{
    assert(terminates(d, c));
    lemma_term_fuel_step(d, c, p);
    lemma_subtree_fuel_pos(d, c);
    lemma_subtree_fuel_pos(d, p);
}

/// The blank document: only the container record.
pub open spec fn empty_doc() -> DocV {
    DocV {
        elems: seq![
            ElemV {
                name: Seq::empty(),
                attrs: Seq::empty(),
                ns: Seq::empty(),
                parent: None,
                children: Seq::empty(),
            },
        ],
        version: "1.0"@,
        standalone: false,
    }
}

/// Counting occurrences: positive exactly when present.
pub proof fn lemma_count_pos(s: Seq<NodeV>, c: int)
    ensures
        count_elem(s, c) > 0 <==> exists|k: int| 0 <= k < s.len() && s[k] == NodeV::Elem(c),
    decreases s.len(),
{
    if s.len() > 0 {
        lemma_count_pos(s.drop_first(), c);
        if s[0] == NodeV::Elem(c) {
        } else {
            if exists|k: int| 0 <= k < s.len() && s[k] == NodeV::Elem(c) {
                let k = choose|k: int| 0 <= k < s.len() && s[k] == NodeV::Elem(c);
                assert(k > 0);
                assert(s.drop_first()[k - 1] == NodeV::Elem(c));
            }
            if count_elem(s, c) > 0 {
                let k = choose|k: int|
                    0 <= k < s.drop_first().len() && s.drop_first()[k] == NodeV::Elem(c);
                assert(s[k + 1] == NodeV::Elem(c));
            }
        }
    }
}

/// Counting occurrences: at most one when occurrences are unique.
pub proof fn lemma_count_unique(s: Seq<NodeV>, c: int)
    requires
        forall|k1: int, k2: int|
            0 <= k1 < s.len() && 0 <= k2 < s.len() && #[trigger] s[k1] == NodeV::Elem(c)
                && #[trigger] s[k2] == NodeV::Elem(c) ==> k1 == k2,
    ensures
        count_elem(s, c) <= 1,
    decreases s.len(),
{
    if s.len() > 0 {
        let t = s.drop_first();
        if s[0] == NodeV::Elem(c) {
            assert forall|k: int| 0 <= k < t.len() implies #[trigger] t[k] != NodeV::Elem(c) by {
                assert(t[k] == s[k + 1]);
            }
            lemma_count_pos(t, c);
            assert(count_elem(t, c) == 0);
        } else {
            assert forall|k1: int, k2: int|
                0 <= k1 < t.len() && 0 <= k2 < t.len() && #[trigger] t[k1] == NodeV::Elem(c)
                    && #[trigger] t[k2] == NodeV::Elem(c) implies k1 == k2 by {
                assert(t[k1] == s[k1 + 1]);
                assert(t[k2] == s[k2 + 1]);
            }
            lemma_count_unique(t, c);
        }
    }
}

/// A document that differs only in element names, attributes or namespace
/// maps (kept sorted) is as well-formed as the original.
pub proof fn lemma_same_structure_wf(d: DocV, d2: DocV)
    requires
        wf_doc(d),
        d2.elems.len() == d.elems.len(),
        forall|i: int| valid_id(d, i) ==> (#[trigger] parent_of(d2, i)) == parent_of(d, i),
        forall|i: int| valid_id(d, i) ==> (#[trigger] d2.elems[i]).children == d.elems[i].children,
        forall|i: int|
            valid_id(d, i) ==> sorted_unique((#[trigger] d2.elems[i]).attrs) && sorted_unique(
                d2.elems[i].ns,
            ),
    ensures
        wf_doc(d2),
{
    let e = d.elems.len() as int;
    assert forall|i: int|
        valid_id(d2, i) && (#[trigger] parent_of(d2, i)) is Some implies has_child(
        d2,
        parent_of(d2, i)->0,
        i,
    ) && valid_id(d2, parent_of(d2, i)->0) && i != 0 by {
        let q = parent_of(d, i)->0;
        assert(has_child(d, q, i));
        let k = choose|k: int|
            0 <= k < d.elems[q].children.len() && d.elems[q].children[k] == NodeV::Elem(i);
        assert(d2.elems[q].children[k] == NodeV::Elem(i));
        assert(has_child(d2, q, i));
    }
    assert forall|q: int, k: int|
        valid_id(d2, q) && 0 <= k < d2.elems[q].children.len() && (
    #[trigger] d2.elems[q].children[k]) is Elem implies parent_of(
        d2,
        d2.elems[q].children[k]->Elem_0,
    ) == Some(q) && 0 < d2.elems[q].children[k]->Elem_0 < d2.elems.len() by {
        assert(d2.elems[q].children == d.elems[q].children);
        assert(d.elems[q].children[k] is Elem);
    }
    assert forall|q: int, k1: int, k2: int|
        valid_id(d2, q) && 0 <= k1 < d2.elems[q].children.len() && 0 <= k2
            < d2.elems[q].children.len() && (#[trigger] d2.elems[q].children[k1]) is Elem && (
    #[trigger] d2.elems[q].children[k2]) is Elem && d2.elems[q].children[k1]->Elem_0
        == d2.elems[q].children[k2]->Elem_0 implies k1 == k2 by {
        assert(d2.elems[q].children == d.elems[q].children);
        assert(d.elems[q].children[k1] is Elem);
        assert(d.elems[q].children[k2] is Elem);
    }
    assert forall|i: int| valid_id(d2, i) implies #[trigger] terminates(d2, i) by {
        assert(terminates(d, i));
        let k = choose|k: nat| anc(d, i, k) is None;
        assert forall|m: nat| m < k implies (#[trigger] anc(d, i, m)) != Some(e) by {
            if anc(d, i, m) == Some(e) {
                lemma_chain_valid_none(d, i, m);
            }
        }
        lemma_anc_same(d, d2, e, i, k);
    }
}

/// The document after the first `m` children of `p` have been removed, each
/// element among them with its parent cleared.
pub open spec fn clear_partial(d: DocV, p: int, m: int) -> DocV {
    DocV {
        elems: Seq::new(
            d.elems.len(),
            |i: int|
                if i == p {
                    ElemV { children: d.elems[p].children.skip(m), ..d.elems[i] }
                } else if exists|k: int| 0 <= k < m && d.elems[p].children[k] == NodeV::Elem(i) {
                    ElemV { parent: None, ..d.elems[i] }
                } else {
                    d.elems[i]
                },
        ),
        ..d
    }
}

/// The document after all children of `p` have been removed.
pub open spec fn clear_tr(d: DocV, p: int) -> DocV {
    clear_partial(d, p, d.elems[p].children.len() as int)
}

/// Removing the front child once more advances `clear_partial` one step.
pub proof fn lemma_clear_step(d: DocV, p: int, m: int)
    requires
        wf_doc(d),
        valid_id(d, p),
        0 <= m < d.elems[p].children.len(),
    ensures
        remove_tr(clear_partial(d, p, m), p, 0) =~~= clear_partial(d, p, m + 1),
{
    let c = clear_partial(d, p, m);
    let ch = d.elems[p].children;
    let node = ch[m];
    assert(c.elems[p].children == ch.skip(m));
    assert(ch.skip(m)[0] == node);
    assert(ch.skip(m).remove(0) =~= ch.skip(m + 1));
    let r = remove_tr(c, p, 0);
    let t = clear_partial(d, p, m + 1);
    assert(p != 0 ==> true);
    assert forall|i: int| 0 <= i < r.elems.len() implies r.elems[i] =~~= t.elems[i] by {
        if node is Elem {
            let e = node->Elem_0;
            assert(parent_of(d, e) == Some(p));
            assert(e != p) by {
                if e == p {
                    assert(has_child(d, p, p));
                    assert(terminates(d, p));
                    let kk = choose|k: nat| anc(d, p, k) is None;
                    lemma_anc_unfold(d, p);
                    assert(anc(d, p, 0) == Some(p));
                    assert(anc(d, p, 1) == Some(p));
                    lemma_chain_no_repeat(d, p, 0, 1, p, kk);
                }
            }
            // e does not stand among the first m + 1 children twice
            if i == e {
                assert(r.elems[e].parent is None);
                assert(exists|k: int|
                    0 <= k < m + 1 && d.elems[p].children[k] == NodeV::Elem(e)) by {
                    assert(d.elems[p].children[m] == NodeV::Elem(e));
                }
            } else if i == p {
            } else {
                assert(r.elems[i] == c.elems[i]);
                assert((exists|k: int| 0 <= k < m && ch[k] == NodeV::Elem(i)) == (exists|k: int|
                    0 <= k < m + 1 && ch[k] == NodeV::Elem(i))) by {
                    if exists|k: int| 0 <= k < m + 1 && ch[k] == NodeV::Elem(i) {
                        let k = choose|k: int| 0 <= k < m + 1 && ch[k] == NodeV::Elem(i);
                        if k == m {
                            assert(ch[m] == NodeV::Elem(e));
                        }
                    }
                }
            }
        } else {
            if i == p {
            } else {
                assert(r.elems[i] == c.elems[i]);
                assert((exists|k: int| 0 <= k < m && ch[k] == NodeV::Elem(i)) == (exists|k: int|
                    0 <= k < m + 1 && ch[k] == NodeV::Elem(i))) by {
                    if exists|k: int| 0 <= k < m + 1 && ch[k] == NodeV::Elem(i) {
                        let k = choose|k: int| 0 <= k < m + 1 && ch[k] == NodeV::Elem(i);
                        if k == m {
                            assert(ch[m] is Elem);
                        }
                    }
                }
            }
        }
    }
    assert(r.elems =~~= t.elems);
}

/// The element handles among a children sequence, in order.
pub open spec fn elem_children(s: Seq<NodeV>) -> Seq<int>
    decreases s.len(),
{
    if s.len() == 0 {
        Seq::empty()
    } else {
        elem_children(s.drop_last()) + (match s.last() {
            NodeV::Elem(e) => seq![e],
            _ => Seq::empty(),
        })
    }
}

/// `elem_children` over a longer prefix, one step at a time.
pub proof fn lemma_elem_children_take(s: Seq<NodeV>, i: int)
    requires
        0 <= i < s.len(),
    ensures
        elem_children(s.take(i + 1)) == elem_children(s.take(i)) + (match s[i] {
            NodeV::Elem(e) => seq![e],
            _ => Seq::<int>::empty(),
        }),
{
    assert(s.take(i + 1).drop_last() =~= s.take(i));
    assert(s.take(i + 1).last() == s[i]);
}

} // verus!
