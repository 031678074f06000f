//! String-keyed maps and string sets kept as vectors sorted in lexicographic
//! key order. Sorted storage makes lookups unambiguous, keeps iteration
//! deterministic (attributes and namespace declarations are written in sorted
//! order), and makes "lexicographically smallest matching entry" the first
//! matching entry.

use vstd::prelude::*;
use crate::order::{lex_lt, str_lt, str_eq, lemma_lex_irrefl, lemma_lex_connected, lemma_lex_trans,
    lemma_lex_asym};

verus! {

/// The entries of a map view are strictly sorted by key, so every key occurs
/// at most once.
pub open spec fn sorted_unique(s: Seq<(Seq<char>, Seq<char>)>) -> bool {
    forall|i: int, j: int| 0 <= i < j < s.len() ==> lex_lt(#[trigger] s[i].0, #[trigger] s[j].0)
}

pub open spec fn has_key(s: Seq<(Seq<char>, Seq<char>)>, k: Seq<char>) -> bool {
    exists|i: int| 0 <= i < s.len() && s[i].0 == k
}

pub open spec fn idx_of(s: Seq<(Seq<char>, Seq<char>)>, k: Seq<char>) -> int {
    choose|i: int| 0 <= i < s.len() && s[i].0 == k
}

/// The value stored under key `k` (meaningful only when `has_key`).
pub open spec fn val_of(s: Seq<(Seq<char>, Seq<char>)>, k: Seq<char>) -> Seq<char> {
    s[idx_of(s, k)].1
}

pub proof fn lemma_sorted_key_unique(s: Seq<(Seq<char>, Seq<char>)>, i: int, j: int)
    requires
        sorted_unique(s),
        0 <= i < s.len(),
        0 <= j < s.len(),
        s[i].0 == s[j].0,
    ensures
        i == j,
{
    if i < j {
        lemma_lex_irrefl(s[i].0);
    }
    if j < i {
        lemma_lex_irrefl(s[i].0);
    }
}

/// In a sorted map, `idx_of` is the one index holding the key.
pub proof fn lemma_idx_of(s: Seq<(Seq<char>, Seq<char>)>, i: int)
    requires
        sorted_unique(s),
        0 <= i < s.len(),
    ensures
        idx_of(s, s[i].0) == i,
        val_of(s, s[i].0) == s[i].1,
        has_key(s, s[i].0),
{
    assert(has_key(s, s[i].0));
    lemma_sorted_key_unique(s, i, idx_of(s, s[i].0));
}

/// Sorted insertion at the spec level: what `Smap::insert` does to the
/// entry sequence.
pub open spec fn smap_put(
    s: Seq<(Seq<char>, Seq<char>)>,
    k: Seq<char>,
    v: Seq<char>,
) -> Seq<(Seq<char>, Seq<char>)>
    decreases s.len(),
{
    if s.len() == 0 {
        seq![(k, v)]
    } else if lex_lt(k, s[0].0) {
        seq![(k, v)] + s
    } else if k == s[0].0 {
        seq![(k, v)] + s.drop_first()
    } else {
        seq![s[0]] + smap_put(s.drop_first(), k, v)
    }
}

/// Replacing the entry at the key's position is `smap_put`.
pub proof fn lemma_smap_put_update(s: Seq<(Seq<char>, Seq<char>)>, k: Seq<char>, v: Seq<char>, i: int)
    requires
        0 <= i < s.len(),
        s[i].0 == k,
        forall|j: int| 0 <= j < i ==> lex_lt((#[trigger] s[j]).0, k),
    ensures
        smap_put(s, k, v) == s.update(i, (k, v)),
    decreases i,
{
    if i == 0 {
        lemma_lex_irrefl(k);
        assert(smap_put(s, k, v) =~= s.update(0, (k, v)));
    } else {
        assert(lex_lt(s[0].0, k));
        lemma_lex_asym(s[0].0, k);
        let t = s.drop_first();
        assert(t[i - 1].0 == k);
        assert forall|j: int| 0 <= j < i - 1 implies lex_lt((#[trigger] t[j]).0, k) by {
            assert(t[j] == s[j + 1]);
        }
        lemma_smap_put_update(t, k, v, i - 1);
        assert(smap_put(s, k, v) =~= s.update(i, (k, v)));
    }
}

/// Inserting at the sorted position is `smap_put`.
pub proof fn lemma_smap_put_insert(s: Seq<(Seq<char>, Seq<char>)>, k: Seq<char>, v: Seq<char>, i: int)
    requires
        0 <= i <= s.len(),
        forall|j: int| 0 <= j < i ==> lex_lt((#[trigger] s[j]).0, k),
        i < s.len() ==> lex_lt(k, s[i].0),
    ensures
        smap_put(s, k, v) == s.insert(i, (k, v)),
    decreases i,
{
    if s.len() == 0 {
        assert(smap_put(s, k, v) =~= s.insert(0, (k, v)));
    } else if i == 0 {
        assert(lex_lt(k, s[0].0));
        lemma_lex_asym(k, s[0].0);
        assert(smap_put(s, k, v) =~= s.insert(0, (k, v)));
    } else {
        assert(lex_lt(s[0].0, k));
        lemma_lex_asym(s[0].0, k);
        let t = s.drop_first();
        assert forall|j: int| 0 <= j < i - 1 implies lex_lt((#[trigger] t[j]).0, k) by {
            assert(t[j] == s[j + 1]);
        }
        if i - 1 < t.len() {
            assert(t[i - 1] == s[i]);
        }
        lemma_smap_put_insert(t, k, v, i - 1);
        assert(smap_put(s, k, v) =~= s.insert(i, (k, v)));
    }
}

/// A mapping from strings to strings, stored sorted by key.
#[derive(Debug, PartialEq, Eq)]
pub struct Smap {
    entries: Vec<(String, String)>,
}

impl View for Smap {
    type V = Seq<(Seq<char>, Seq<char>)>;

    closed spec fn view(&self) -> Seq<(Seq<char>, Seq<char>)> {
        Seq::new(self.entries@.len(), |i: int| (self.entries@[i].0@, self.entries@[i].1@))
    }
}

impl Smap {
    /// The structural invariant: entries strictly sorted by key.
    pub open spec fn wf(&self) -> bool {
        sorted_unique(self@)
    }

    pub fn new() -> (r: Smap)
        ensures
            r@ =~= Seq::<(Seq<char>, Seq<char>)>::empty(),
            r.wf(),
    {
        Smap { entries: Vec::new() }
    }

    pub fn len(&self) -> (r: usize)
        ensures
            r == self@.len(),
    {
        self.entries.len()
    }

    pub fn is_empty(&self) -> (r: bool)
        ensures
            r == (self@.len() == 0),
    {
        self.entries.len() == 0
    }

    pub fn key_at<'a>(&'a self, i: usize) -> (r: &'a str)
        requires
            i < self@.len(),
        ensures
            r@ == self@[i as int].0,
    {
        self.entries[i].0.as_str()
    }

    pub fn val_at<'a>(&'a self, i: usize) -> (r: &'a str)
        requires
            i < self@.len(),
        ensures
            r@ == self@[i as int].1,
    {
        self.entries[i].1.as_str()
    }

    /// Looks a key up; `None` exactly when the key is absent.
    pub fn get<'a>(&'a self, k: &str) -> (r: Option<&'a str>)
        requires
            self.wf(),
        ensures
            r is Some <==> has_key(self@, k@),
            r is Some ==> r->0@ == val_of(self@, k@),
    {
        let n = self.entries.len();
        let mut i: usize = 0;
        while i < n
            invariant
                self.wf(),
                0 <= i <= n,
                n == self@.len(),
                forall|j: int| 0 <= j < i ==> #[trigger] self@[j].0 != k@,
            decreases n - i,
        {
            if str_eq(self.entries[i].0.as_str(), k) {
                proof {
                    lemma_idx_of(self@, i as int);
                }
                return Some(self.entries[i].1.as_str());
            }
            i = i + 1;
        }
        None
    }

    pub fn contains_key(&self, k: &str) -> (r: bool)
        requires
            self.wf(),
        ensures
            r == has_key(self@, k@),
    {
        self.get(k).is_some()
    }

    /// Adds `k -> v`, replacing any entry already under `k`; the entry stands
    /// at its sorted position.
    pub fn insert(&mut self, k: String, v: String)
        requires
            old(self).wf(),
        ensures
            final(self).wf(),
            forall|q: Seq<char>| #[trigger] has_key(final(self)@, q) <==> (has_key(old(self)@, q)
                || q == k@),
            val_of(final(self)@, k@) == v@,
            forall|q: Seq<char>| q != k@ && #[trigger] has_key(old(self)@, q) ==> val_of(
                final(self)@, q) == val_of(old(self)@, q),
            has_key(old(self)@, k@) ==> final(self)@ == old(self)@.update(idx_of(old(self)@, k@), (
            k@, v@)),
            !has_key(old(self)@, k@) ==> final(self)@.len() == old(self)@.len() + 1 && (exists|i:
                int|
                0 <= i <= old(self)@.len() && final(self)@ == old(self)@.insert(i, (k@, v@))),
            final(self)@ == smap_put(old(self)@, k@, v@),
    {
        let n = self.entries.len();
        let mut i: usize = 0;
        while i < n && str_lt(self.entries[i].0.as_str(), k.as_str())
            invariant
                self@ == old(self)@,
                self.wf(),
                0 <= i <= n,
                n == self@.len(),
                forall|j: int| 0 <= j < i ==> lex_lt(#[trigger] self@[j].0, k@),
            decreases n - i,
        {
            i = i + 1;
        }
        let ghost s = self@;
        if i < n && str_eq(self.entries[i].0.as_str(), k.as_str()) {
            proof {
                lemma_idx_of(s, i as int);
            }
            self.entries[i] = (k, v);
            proof {
                let t = self@;
                assert(t =~= s.update(i as int, (k@, v@)));
                assert forall|p: int, q: int| 0 <= p < q < t.len() implies lex_lt(
                    #[trigger] t[p].0,
                    #[trigger] t[q].0,
                ) by {
                    assert(s[p].0 == t[p].0 || p == i);
                    assert(s[q].0 == t[q].0 || q == i);
                }
                assert forall|q: Seq<char>| #[trigger] has_key(t, q) implies (has_key(s, q) || q
                    == k@) by {
                    let w = choose|m: int| 0 <= m < t.len() && t[m].0 == q;
                    if w != i {
                        assert(s[w].0 == q);
                    }
                }
                assert forall|q: Seq<char>| has_key(s, q) implies #[trigger] has_key(t, q) by {
                    let w = choose|m: int| 0 <= m < s.len() && s[m].0 == q;
                    if w == i {
                        assert(t[i as int].0 == k@ && q == k@);
                    } else {
                        assert(t[w].0 == q);
                    }
                }
                lemma_idx_of(t, i as int);
                assert forall|q: Seq<char>| q != k@ && #[trigger] has_key(s, q) implies val_of(
                    t,
                    q,
                ) == val_of(s, q) by {
                    let w = idx_of(s, q);
                    assert(s[w].0 == q);
                    assert(w != i);
                    assert(t[w].0 == q && t[w].1 == s[w].1);
                    lemma_idx_of(t, w);
                    lemma_idx_of(s, w);
                }
                lemma_smap_put_update(s, k@, v@, i as int);
            }
        } else {
            proof {
                if i < n {
                    lemma_lex_connected(s[i as int].0, k@);
                }
                assert(i < n ==> lex_lt(k@, s[i as int].0));
                assert forall|m: int| i <= m < s.len() implies lex_lt(k@, #[trigger] s[m].0) by {
                    if m > i {
                        lemma_lex_trans(k@, s[i as int].0, s[m].0);
                    }
                }
                assert forall|m: int| 0 <= m < s.len() implies #[trigger] s[m].0 != k@ by {
                    if m < i {
                        lemma_lex_asym(s[m].0, k@);
                    } else {
                        lemma_lex_asym(k@, s[m].0);
                    }
                }
                assert(!has_key(s, k@));
            }
            self.entries.insert(i, (k, v));
            proof {
                let t = self@;
                assert(t =~= s.insert(i as int, (k@, v@)));
                assert forall|m: int| i <= m < s.len() implies lex_lt(k@, #[trigger] s[m].0) by {
                    if m > i {
                        lemma_lex_trans(k@, s[i as int].0, s[m].0);
                    }
                }
                assert forall|p: int, q: int| 0 <= p < q < t.len() implies lex_lt(
                    #[trigger] t[p].0,
                    #[trigger] t[q].0,
                ) by {
                    if q > i {
                        assert(t[q].0 == s[q - 1].0 && lex_lt(k@, s[q - 1].0));
                        if p < i {
                            lemma_lex_trans(t[p].0, k@, t[q].0);
                        }
                    }
                }
                lemma_idx_of(t, i as int);
                assert forall|q: Seq<char>| #[trigger] has_key(t, q) implies (has_key(s, q) || q
                    == k@) by {
                    let w = choose|m: int| 0 <= m < t.len() && t[m].0 == q;
                    if w < i {
                        assert(s[w].0 == q);
                    } else if w > i {
                        assert(s[w - 1].0 == q);
                    }
                }
                assert forall|q: Seq<char>| has_key(s, q) implies #[trigger] has_key(t, q) by {
                    let w = choose|m: int| 0 <= m < s.len() && s[m].0 == q;
                    if w < i {
                        assert(t[w].0 == q);
                    } else {
                        assert(t[w + 1].0 == q);
                    }
                }
                assert forall|q: Seq<char>| q != k@ && #[trigger] has_key(s, q) implies val_of(
                    t,
                    q,
                ) == val_of(s, q) by {
                    let w = idx_of(s, q);
                    assert(s[w].0 == q);
                    if w < i {
                        lemma_idx_of(t, w);
                        lemma_idx_of(s, w);
                    } else {
                        assert(t[w + 1].0 == q && t[w + 1].1 == s[w].1);
                        lemma_idx_of(t, w + 1);
                        lemma_idx_of(s, w);
                    }
                }
                lemma_smap_put_insert(s, k@, v@, i as int);
            }
        }
    }

    /// Removes the entry under `k`, if any; removing an absent key changes
    /// nothing.
    pub fn remove(&mut self, k: &str)
        requires
            old(self).wf(),
        ensures
            final(self).wf(),
            forall|q: Seq<char>| #[trigger] has_key(final(self)@, q) <==> (has_key(old(self)@, q)
                && q != k@),
            forall|q: Seq<char>|
                q != k@ && #[trigger] has_key(old(self)@, q) ==> val_of(final(self)@, q) == val_of(
                    old(self)@,
                    q,
                ),
            !has_key(old(self)@, k@) ==> final(self)@ == old(self)@,
            has_key(old(self)@, k@) ==> final(self)@ == old(self)@.remove(idx_of(old(self)@, k@)),
    {
        let n = self.entries.len();
        let mut i: usize = 0;
        while i < n
            invariant
                self@ == old(self)@,
                self.wf(),
                0 <= i <= n,
                n == self@.len(),
                forall|j: int| 0 <= j < i ==> #[trigger] self@[j].0 != k@,
            decreases n - i,
        {
            if str_eq(self.entries[i].0.as_str(), k) {
                let ghost s = self@;
                proof {
                    assert(s[i as int].0 == k@);
                    lemma_idx_of(s, i as int);
                }
                self.entries.remove(i);
                proof {
                    let t = self@;
                    assert(t =~= s.remove(i as int));
                    assert forall|p: int, q: int| 0 <= p < q < t.len() implies lex_lt(
                        #[trigger] t[p].0,
                        #[trigger] t[q].0,
                    ) by {
                        assert(t[p] == s[if p < i { p } else { p + 1 }]);
                        assert(t[q] == s[if q < i { q } else { q + 1 }]);
                    }
                    assert forall|q: Seq<char>| #[trigger] has_key(t, q) implies (has_key(s, q)
                        && q != k@) by {
                        let w = choose|m: int| 0 <= m < t.len() && t[m].0 == q;
                        if w < i {
                            assert(s[w].0 == q);
                        } else {
                            assert(s[w + 1].0 == q);
                            assert(lex_lt(s[i as int].0, s[w + 1].0));
                            if s[w + 1].0 == k@ {
                                lemma_lex_irrefl(k@);
                            }
                        }
                    }
                    assert forall|q: Seq<char>| has_key(s, q) && q != k@ implies #[trigger]
                        has_key(t, q) by {
                        let w = choose|m: int| 0 <= m < s.len() && s[m].0 == q;
                        if w < i {
                            assert(t[w].0 == q);
                        } else {
                            assert(w != i);
                            assert(t[w - 1].0 == q);
                        }
                    }
                    assert forall|q: Seq<char>| q != k@ && #[trigger] has_key(s, q) implies val_of(
                        t,
                        q,
                    ) == val_of(s, q) by {
                        let w = idx_of(s, q);
                        assert(s[w].0 == q);
                        if w < i {
                            assert(t[w].0 == q && t[w].1 == s[w].1);
                            lemma_idx_of(t, w);
                            lemma_idx_of(s, w);
                        } else {
                            assert(w != i);
                            assert(t[w - 1].0 == q && t[w - 1].1 == s[w].1);
                            lemma_idx_of(t, w - 1);
                            lemma_idx_of(s, w);
                        }
                    }
                }
                return ;
            }
            i = i + 1;
        }
        proof {
            assert(!has_key(self@, k@));
        }
    }
}

/// The mathematical set a sorted string vector stands for.
pub open spec fn set_of(s: Seq<Seq<char>>) -> Set<Seq<char>> {
    Set::new(|x: Seq<char>| exists|i: int| 0 <= i < s.len() && s[i] == x)
}

pub open spec fn sorted_unique_keys(s: Seq<Seq<char>>) -> bool {
    forall|i: int, j: int| 0 <= i < j < s.len() ==> lex_lt(#[trigger] s[i], #[trigger] s[j])
}

pub open spec fn has_elem(s: Seq<Seq<char>>, k: Seq<char>) -> bool {
    exists|i: int| 0 <= i < s.len() && s[i] == k
}

/// Membership in the set a vector stands for is membership in the vector.
pub proof fn lemma_set_of_has_elem(s: Seq<Seq<char>>)
    ensures
        forall|x: Seq<char>| #[trigger] set_of(s).contains(x) == has_elem(s, x),
{
}

/// A set of strings, stored sorted.
#[derive(Debug, PartialEq, Eq)]
pub struct Sset {
    items: Vec<String>,
}

impl View for Sset {
    type V = Seq<Seq<char>>;

    closed spec fn view(&self) -> Seq<Seq<char>> {
        Seq::new(self.items@.len(), |i: int| self.items@[i]@)
    }
}

impl Sset {
    pub open spec fn wf(&self) -> bool {
        sorted_unique_keys(self@)
    }

    /// The set of strings held.
    pub open spec fn to_set(&self) -> Set<Seq<char>> {
        set_of(self@)
    }

    pub fn new() -> (r: Sset)
        ensures
            r@ =~= Seq::<Seq<char>>::empty(),
            r.wf(),
            r.to_set() =~= Set::<Seq<char>>::empty(),
    {
        Sset { items: Vec::new() }
    }

    pub fn len(&self) -> (r: usize)
        ensures
            r == self@.len(),
    {
        self.items.len()
    }

    pub fn item_at<'a>(&'a self, i: usize) -> (r: &'a str)
        requires
            i < self@.len(),
        ensures
            r@ == self@[i as int],
    {
        self.items[i].as_str()
    }

    pub fn contains(&self, k: &str) -> (r: bool)
        requires
            self.wf(),
        ensures
            r == has_elem(self@, k@),
            r == self.to_set().contains(k@),
    {
        let n = self.items.len();
        let mut i: usize = 0;
        while i < n
            invariant
                0 <= i <= n,
                n == self@.len(),
                forall|j: int| 0 <= j < i ==> #[trigger] self@[j] != k@,
            decreases n - i,
        {
            if str_eq(self.items[i].as_str(), k) {
                proof {
                    assert(self@[i as int] == k@);
                    lemma_set_of_has_elem(self@);
                }
                return true;
            }
            i = i + 1;
        }
        proof {
            assert(!has_elem(self@, k@));
            lemma_set_of_has_elem(self@);
        }
        false
    }

    /// An independent copy with the same contents.
    pub fn duplicate(&self) -> (r: Sset)
        ensures
            r@ == self@,
    {
        let n = self.items.len();
        let mut items: Vec<String> = Vec::new();
        let mut i: usize = 0;
        while i < n
            invariant
                0 <= i <= n,
                n == self.items@.len(),
                items@.len() == i,
                forall|j: int| 0 <= j < i ==> #[trigger] items@[j]@ == self.items@[j]@,
            decreases n - i,
        {
            items.push(self.items[i].clone());
            i = i + 1;
        }
        let r = Sset { items };
        proof {
            assert(r@ =~= self@);
        }
        r
    }

    /// Adds `k`, keeping the vector sorted; adding a member again changes
    /// nothing.
    pub fn insert(&mut self, k: String)
        requires
            old(self).wf(),
        ensures
            final(self).wf(),
            final(self).to_set() =~= old(self).to_set().insert(k@),
            forall|q: Seq<char>| #[trigger] has_elem(final(self)@, q) <==> (has_elem(old(self)@, q)
                || q == k@),
            has_elem(old(self)@, k@) ==> final(self)@ == old(self)@,
    {
        let n = self.items.len();
        let mut i: usize = 0;
        while i < n && str_lt(self.items[i].as_str(), k.as_str())
            invariant
                self@ == old(self)@,
                self.wf(),
                0 <= i <= n,
                n == self@.len(),
                forall|j: int| 0 <= j < i ==> lex_lt(#[trigger] self@[j], k@),
            decreases n - i,
        {
            i = i + 1;
        }
        let ghost s = self@;
        if i < n && str_eq(self.items[i].as_str(), k.as_str()) {
            proof {
                assert(s[i as int] == k@);
                assert(has_elem(s, k@));
                lemma_set_of_has_elem(s);
                assert(set_of(s) =~= set_of(s).insert(k@));
            }
        } else {
            proof {
                if i < n {
                    lemma_lex_connected(s[i as int], k@);
                }
                assert(i < n ==> lex_lt(k@, s[i as int]));
                assert forall|m: int| i <= m < s.len() implies lex_lt(k@, #[trigger] s[m]) by {
                    if m > i {
                        lemma_lex_trans(k@, s[i as int], s[m]);
                    }
                }
                assert forall|m: int| 0 <= m < s.len() implies #[trigger] s[m] != k@ by {
                    if m < i {
                        lemma_lex_asym(s[m], k@);
                    } else {
                        lemma_lex_asym(k@, s[m]);
                    }
                }
            }
            self.items.insert(i, k);
            proof {
                let t = self@;
                assert(t =~= s.insert(i as int, k@));
                assert forall|m: int| i <= m < s.len() implies lex_lt(k@, #[trigger] s[m]) by {
                    if m > i {
                        lemma_lex_trans(k@, s[i as int], s[m]);
                    }
                }
                assert forall|p: int, q: int| 0 <= p < q < t.len() implies lex_lt(
                    #[trigger] t[p],
                    #[trigger] t[q],
                ) by {
                    if q > i {
                        assert(t[q] == s[q - 1] && lex_lt(k@, s[q - 1]));
                        if p < i {
                            lemma_lex_trans(t[p], k@, t[q]);
                        }
                    }
                }
                assert forall|q: Seq<char>| #[trigger] has_elem(t, q) implies (has_elem(s, q) || q
                    == k@) by {
                    let w = choose|m: int| 0 <= m < t.len() && t[m] == q;
                    if w < i {
                        assert(s[w] == q);
                    } else if w > i {
                        assert(s[w - 1] == q);
                    }
                }
                assert forall|q: Seq<char>| has_elem(s, q) implies #[trigger] has_elem(t, q) by {
                    let w = choose|m: int| 0 <= m < s.len() && s[m] == q;
                    if w < i {
                        assert(t[w] == q);
                    } else {
                        assert(t[w + 1] == q);
                    }
                }
                assert(has_elem(t, k@)) by {
                    assert(t[i as int] == k@);
                }
                lemma_set_of_has_elem(s);
                lemma_set_of_has_elem(t);
                assert(set_of(t) =~= set_of(s).insert(k@));
            }
        }
    }

    /// Removes `k` if present; removing a non-member changes nothing.
    pub fn remove(&mut self, k: &str)
        requires
            old(self).wf(),
        ensures
            final(self).wf(),
            final(self).to_set() =~= old(self).to_set().remove(k@),
            forall|q: Seq<char>| #[trigger] has_elem(final(self)@, q) <==> (has_elem(old(self)@, q)
                && q != k@),
            !has_elem(old(self)@, k@) ==> final(self)@ == old(self)@,
    {
        let n = self.items.len();
        let mut i: usize = 0;
        while i < n
            invariant
                self@ == old(self)@,
                self.wf(),
                0 <= i <= n,
                n == self@.len(),
                forall|j: int| 0 <= j < i ==> #[trigger] self@[j] != k@,
            decreases n - i,
        {
            if str_eq(self.items[i].as_str(), k) {
                let ghost s = self@;
                proof {
                    assert(s[i as int] == k@);
                }
                self.items.remove(i);
                proof {
                    let t = self@;
                    assert(t =~= s.remove(i as int));
                    assert forall|p: int, q: int| 0 <= p < q < t.len() implies lex_lt(
                        #[trigger] t[p],
                        #[trigger] t[q],
                    ) by {
                        assert(t[p] == s[if p < i { p } else { p + 1 }]);
                        assert(t[q] == s[if q < i { q } else { q + 1 }]);
                    }
                    assert forall|q: Seq<char>| #[trigger] has_elem(t, q) implies (has_elem(s, q)
                        && q != k@) by {
                        let w = choose|m: int| 0 <= m < t.len() && t[m] == q;
                        if w < i {
                            assert(s[w] == q);
                        } else {
                            assert(s[w + 1] == q);
                            assert(lex_lt(s[i as int], s[w + 1]));
                            if s[w + 1] == k@ {
                                lemma_lex_irrefl(k@);
                            }
                        }
                    }
                    assert forall|q: Seq<char>| has_elem(s, q) && q != k@ implies #[trigger]
                        has_elem(t, q) by {
                        let w = choose|m: int| 0 <= m < s.len() && s[m] == q;
                        if w < i {
                            assert(t[w] == q);
                        } else {
                            assert(w != i);
                            assert(t[w - 1] == q);
                        }
                    }
                    lemma_set_of_has_elem(s);
                    lemma_set_of_has_elem(t);
                    assert(set_of(t) =~= set_of(s).remove(k@));
                }
                return ;
            }
            i = i + 1;
        }
        proof {
            assert(!has_elem(self@, k@));
            lemma_set_of_has_elem(self@);
            assert(set_of(self@) =~= set_of(self@).remove(k@));
        }
    }
}

} // verus!
