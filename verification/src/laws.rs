//! Document-wide laws: properties that relate several operations, stated
//! over the model and proved once and for all.

use vstd::prelude::*;
use crate::events::EventV;
use crate::model::{DocV, NodeV, wf_doc, valid_id, parent_of, count_elem, detach_tr, remove_tr,
    child_idx_of, has_child, lemma_count_pos, lemma_count_unique};
use crate::parser::{ParseSt, ROptsV, init_st, parse_fold, spec_parse, step};
use crate::writer::{event_of_node, events_of_nodes, spec_events};

verus! {

/// Parent/child duality: an element records `p` as its parent exactly when
/// it stands in `p`'s children sequence, and then exactly once.
pub proof fn lemma_parent_child_duality(d: DocV, e: int, p: int)
    requires
        wf_doc(d),
        valid_id(d, e),
        valid_id(d, p),
    ensures
        parent_of(d, e) == Some(p) <==> count_elem(d.elems[p].children, e) == 1,
{
    let ch = d.elems[p].children;
    if parent_of(d, e) == Some(p) {
        assert(has_child(d, p, e));
        lemma_count_pos(ch, e);
        assert forall|k1: int, k2: int|
            0 <= k1 < ch.len() && 0 <= k2 < ch.len() && #[trigger] ch[k1] == NodeV::Elem(e)
                && #[trigger] ch[k2] == NodeV::Elem(e) implies k1 == k2 by {
            assert(ch[k1] is Elem && ch[k2] is Elem);
        }
        lemma_count_unique(ch, e);
    }
    if count_elem(ch, e) == 1 {
        lemma_count_pos(ch, e);
        let k = choose|k: int| 0 <= k < ch.len() && ch[k] == NodeV::Elem(e);
        assert(ch[k] is Elem);
        assert(parent_of(d, e) == Some(p));
    }
}

/// Detaching twice is detaching once: the second detach finds no parent and
/// leaves the document untouched (and `detatch` reports no error either
/// way).
pub proof fn lemma_detach_idempotent(d: DocV, e: int)
    requires
        wf_doc(d),
        valid_id(d, e),
        e != 0,
    ensures
        detach_tr(detach_tr(d, e), e) == detach_tr(d, e),
{
    match parent_of(d, e) {
        None => {
            assert(detach_tr(d, e) == d);
        },
        Some(p) => {
            assert(has_child(d, p, e));
            let k = child_idx_of(d, p, e);
            assert(d.elems[p].children[k] == NodeV::Elem(e));
            let d1 = remove_tr(d, p, k);
            assert(parent_of(d1, e) is None);
            assert(detach_tr(d1, e) == d1);
        },
    }
}

/// A successful push establishes the duality for the pushed element: its
/// parent is the element it was attached under, and it stands in that
/// element's children exactly once (`push_child`'s success case produces
/// exactly this attach).
pub proof fn lemma_push_establishes_duality(d: DocV, p: int, idx: int, e: int)
    requires
        wf_doc(d),
        valid_id(d, p),
        0 <= idx <= d.elems[p].children.len(),
        0 < e < d.elems.len(),
        parent_of(d, e) is None,
        !crate::model::reaches(d, p, e),
    ensures
        parent_of(crate::model::attach_tr(d, p, idx, NodeV::Elem(e)), e) == Some(p),
        count_elem(
            crate::model::attach_tr(d, p, idx, NodeV::Elem(e)).elems[p].children,
            e,
        ) == 1,
{
    let d2 = crate::model::attach_tr(d, p, idx, NodeV::Elem(e));
    crate::model::lemma_attach_wf(d, p, idx, NodeV::Elem(e));
    assert(parent_of(d2, e) == Some(p));
    lemma_parent_child_duality(d2, e, p);
}

/// No event in a stream has the Decl shape.
pub open spec fn no_decl(evs: Seq<EventV>) -> bool {
    forall|k: int| 0 <= k < evs.len() ==> !((#[trigger] evs[k]) is Decl)
}

/// The writer never produces a declaration while walking nodes.
pub proof fn lemma_events_of_nodes_no_decl(d: DocV, s: Seq<NodeV>, fuel: nat)
    ensures
        no_decl(events_of_nodes(d, s, fuel)),
    decreases fuel, s.len(), 0int,
{
    if s.len() > 0 {
        lemma_events_of_nodes_no_decl(d, s.drop_last(), fuel);
        lemma_event_of_node_no_decl(d, s.last(), fuel);
        let a = events_of_nodes(d, s.drop_last(), fuel);
        let b = event_of_node(d, s.last(), fuel);
        assert forall|k: int| 0 <= k < (a + b).len() implies !((#[trigger] (a + b)[k]) is Decl) by {
            if k < a.len() {
                assert((a + b)[k] == a[k]);
            } else {
                assert((a + b)[k] == b[k - a.len()]);
            }
        }
    }
}

/// Nor while writing one node.
pub proof fn lemma_event_of_node_no_decl(d: DocV, n: NodeV, fuel: nat)
    ensures
        no_decl(event_of_node(d, n, fuel)),
    decreases fuel, 0int, 1int,
{
    match n {
        NodeV::Elem(e) => {
            if valid_id(d, e) && fuel != 0 && d.elems[e].children.len() > 0 {
                lemma_events_of_nodes_no_decl(d, d.elems[e].children, (fuel - 1) as nat);
                let el = d.elems[e];
                let start = seq![
                    EventV::Start { name: el.name, attrs: crate::writer::merged_attrs(el) },
                ];
                let mid = events_of_nodes(d, el.children, (fuel - 1) as nat);
                let end = seq![EventV::End(el.name)];
                let whole = start + mid + end;
                assert forall|k: int| 0 <= k < whole.len() implies !((#[trigger] whole[k])
                    is Decl) by {
                    if k == 0 {
                        assert(whole[k] == start[0]);
                    } else if k < 1 + mid.len() {
                        assert(whole[k] == mid[k - 1]);
                    } else {
                        assert(whole[k] == end[0]);
                    }
                }
            }
        },
        _ => {
        },
    }
}

/// A fold over a stream whose only possible declaration is its first event
/// never fails when no encoding is enforced: every other event always
/// steps.
pub proof fn lemma_fold_ok(evs: Seq<EventV>, n: int, o: ROptsV)
    requires
        0 <= n <= evs.len(),
        o.enforce_encoding == false,
        forall|j: int| 1 <= j < n ==> !((#[trigger] evs[j]) is Decl),
    ensures
        parse_fold(evs, n, o, init_st()) is Ok,
    decreases n,
{
    if n > 0 {
        lemma_fold_ok(evs, n - 1, o);
        let st = parse_fold(evs, n - 1, o, init_st())->Ok_0;
        if evs[n - 1] is Decl {
            assert(n - 1 == 0);
            assert(st == init_st());
        }
    }
}

/// Half of the round trip, at the event level: the event stream the writer
/// produces for a well-formed document always parses back into a document
/// (when no encoding is enforced). The structural identity of that document
/// with the original is a statement about renumbered handles and is checked
/// by tests, not stated here.
pub proof fn lemma_written_events_parse(d: DocV, write_decl: bool, o: ROptsV)
    requires
        wf_doc(d),
        o.enforce_encoding == false,
    ensures
        spec_parse(spec_events(d, write_decl), o) is Ok,
{
    let body = events_of_nodes(d, d.elems[0].children, crate::model::subtree_fuel(d, 0));
    lemma_events_of_nodes_no_decl(d, d.elems[0].children, crate::model::subtree_fuel(d, 0));
    let evs = spec_events(d, write_decl);
    let head: Seq<EventV> = if write_decl {
        seq![crate::writer::decl_event(d)]
    } else {
        Seq::empty()
    };
    assert(evs == head + body + seq![EventV::Eof]);
    assert forall|j: int| 1 <= j < evs.len() implies !((#[trigger] evs[j]) is Decl) by {
        if j < head.len() {
        } else if j < head.len() + body.len() {
            assert(evs[j] == body[j - head.len()]);
        } else {
            assert(evs[j] == EventV::Eof);
        }
    }
    lemma_fold_ok(evs, evs.len() as int, o);
}

} // verus!
