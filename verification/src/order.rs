//! Lexicographic order on strings (by code point), with the executable
//! comparison and splitting helpers the rest of the library builds on.

use vstd::prelude::*;

verus! {

/// Strict lexicographic order on character sequences, comparing code points.
pub open spec fn lex_lt(a: Seq<char>, b: Seq<char>) -> bool
    decreases a.len(),
{
    if b.len() == 0 {
        false
    } else if a.len() == 0 {
        true
    } else if a[0] != b[0] {
        a[0] < b[0]
    } else {
        lex_lt(a.drop_first(), b.drop_first())
    }
}

pub open spec fn lex_le(a: Seq<char>, b: Seq<char>) -> bool {
    lex_lt(a, b) || a == b
}

pub proof fn lemma_lex_irrefl(a: Seq<char>)
    ensures
        !lex_lt(a, a),
    decreases a.len(),
{
    if a.len() > 0 {
        lemma_lex_irrefl(a.drop_first());
    }
}

pub proof fn lemma_lex_connected(a: Seq<char>, b: Seq<char>)
    ensures
        lex_lt(a, b) || lex_lt(b, a) || a == b,
    decreases a.len(),
{
    if a.len() == 0 && b.len() == 0 {
        assert(a =~= b);
    } else if a.len() == 0 {
        assert(lex_lt(a, b));
    } else if b.len() == 0 {
        assert(lex_lt(b, a));
    } else if a.len() > 0 && b.len() > 0 && a[0] == b[0] {
        lemma_lex_connected(a.drop_first(), b.drop_first());
        if a.drop_first() == b.drop_first() {
            assert(a.len() == a.drop_first().len() + 1);
            assert(b.len() == b.drop_first().len() + 1);
            assert forall|i: int| 0 <= i < a.len() implies a[i] == b[i] by {
                if i > 0 {
                    assert(a.drop_first()[i - 1] == a[i]);
                    assert(b.drop_first()[i - 1] == b[i]);
                    assert(a.drop_first()[i - 1] == b.drop_first()[i - 1]);
                }
            }
            assert(a =~= b);
        }
    }
}

pub proof fn lemma_lex_trans(a: Seq<char>, b: Seq<char>, c: Seq<char>)
    requires
        lex_lt(a, b),
        lex_lt(b, c),
    ensures
        lex_lt(a, c),
    decreases a.len() + b.len() + c.len(),
{
    if a.len() == 0 {
        assert(c.len() > 0);
    } else {
        assert(b.len() > 0 && c.len() > 0);
        if a[0] == b[0] && b[0] == c[0] {
            lemma_lex_trans(a.drop_first(), b.drop_first(), c.drop_first());
        }
    }
}

pub proof fn lemma_lex_asym(a: Seq<char>, b: Seq<char>)
    requires
        lex_lt(a, b),
    ensures
        !lex_lt(b, a),
        a != b,
{
    lemma_lex_irrefl(a);
    if lex_lt(b, a) {
        lemma_lex_trans(a, b, a);
    }
}

/// Index of the first `:` in `s`, or `s.len()` if there is none.
pub open spec fn first_colon(s: Seq<char>) -> int
    decreases s.len(),
{
    if s.len() == 0 {
        0
    } else if s[0] == ':' {
        0
    } else {
        1 + first_colon(s.drop_first())
    }
}

pub open spec fn has_colon(s: Seq<char>) -> bool {
    first_colon(s) < s.len()
}

/// The namespace prefix of a full tag name: what stands before the first `:`,
/// or the empty sequence if there is no `:`.
pub open spec fn name_prefix(s: Seq<char>) -> Seq<char> {
    if has_colon(s) {
        s.subrange(0, first_colon(s))
    } else {
        Seq::empty()
    }
}

/// The local part of a full tag name: what stands after the first `:`,
/// or the whole name if there is no `:`.
pub open spec fn local_name(s: Seq<char>) -> Seq<char> {
    if has_colon(s) {
        s.subrange(first_colon(s) + 1, s.len() as int)
    } else {
        s
    }
}

/// The full name a prefix and a local name combine to: `prefix:name`, or
/// `name` alone when the prefix is empty.
pub open spec fn full_of(prefix: Seq<char>, name: Seq<char>) -> Seq<char> {
    if prefix.len() == 0 {
        name
    } else {
        prefix + seq![':'] + name
    }
}

pub proof fn lemma_first_colon_props(s: Seq<char>)
    ensures
        0 <= first_colon(s) <= s.len(),
        first_colon(s) < s.len() ==> s[first_colon(s)] == ':',
        forall|j: int| 0 <= j < first_colon(s) ==> s[j] != ':',
    decreases s.len(),
{
    if s.len() > 0 && s[0] != ':' {
        lemma_first_colon_props(s.drop_first());
        assert forall|j: int| 0 <= j < first_colon(s) implies s[j] != ':' by {
            if j > 0 {
                assert(s[j] == s.drop_first()[j - 1]);
            }
        }
        if first_colon(s) < s.len() {
            assert(s[first_colon(s)] == s.drop_first()[first_colon(s) - 1]);
        }
    }
}

/// A position with a colon after a colon-free prefix is the first colon.
pub proof fn lemma_first_colon_at(s: Seq<char>, i: int)
    requires
        0 <= i <= s.len(),
        forall|j: int| 0 <= j < i ==> s[j] != ':',
        i == s.len() || s[i] == ':',
    ensures
        first_colon(s) == i,
    decreases s.len(),
{
    if s.len() > 0 && i > 0 {
        assert(s[0] != ':');
        assert forall|j: int| 0 <= j < i - 1 implies s.drop_first()[j] != ':' by {
            assert(s.drop_first()[j] == s[j + 1]);
        }
        if i < s.len() {
            assert(s.drop_first()[i - 1] == s[i]);
        }
        lemma_first_colon_at(s.drop_first(), i - 1);
    }
}

/// Compares two strings in lexicographic (code point) order.
pub fn str_lt(a: &str, b: &str) -> (r: bool)
    ensures
        r == lex_lt(a@, b@),
{
    let alen = a.unicode_len();
    let blen = b.unicode_len();
    let mut i: usize = 0;
    while i < alen && i < blen
        invariant
            0 <= i <= alen,
            i <= blen,
            alen == a@.len(),
            blen == b@.len(),
            forall|j: int| 0 <= j < i ==> a@[j] == b@[j],
        decreases alen - i,
    {
        let ca = a.get_char(i);
        let cb = b.get_char(i);
        if ca != cb {
            proof {
                lemma_lex_skip_eq(a@, b@, i as int);
            }
            return ca < cb;
        }
        i = i + 1;
    }
    proof {
        lemma_lex_skip_eq(a@, b@, i as int);
    }
    alen < blen
}

/// Under an equal prefix of length `i`, the order is decided past `i`.
pub proof fn lemma_lex_skip_eq(a: Seq<char>, b: Seq<char>, i: int)
    requires
        0 <= i <= a.len(),
        i <= b.len(),
        forall|j: int| 0 <= j < i ==> a[j] == b[j],
    ensures
        lex_lt(a, b) == lex_lt(a.skip(i), b.skip(i)),
        i == a.len() || i == b.len() ==> lex_lt(a, b) == (a.len() < b.len()),
        i < a.len() && i < b.len() && a[i] != b[i] ==> lex_lt(a, b) == (a[i] < b[i]),
    decreases i,
{
    if i == 0 {
        assert(a.skip(0) =~= a);
        assert(b.skip(0) =~= b);
        if a.len() == 0 {
            assert(lex_lt(a, b) == (0 < b.len()));
        }
    } else {
        assert(a.len() > 0 && b.len() > 0 && a[0] == b[0]);
        assert forall|j: int| 0 <= j < i - 1 implies a.drop_first()[j] == b.drop_first()[j] by {
            assert(a.drop_first()[j] == a[j + 1]);
            assert(b.drop_first()[j] == b[j + 1]);
        }
        lemma_lex_skip_eq(a.drop_first(), b.drop_first(), i - 1);
        assert(a.drop_first().skip(i - 1) =~= a.skip(i));
        assert(b.drop_first().skip(i - 1) =~= b.skip(i));
        if i < a.len() && i < b.len() {
            assert(a.drop_first()[i - 1] == a[i]);
            assert(b.drop_first()[i - 1] == b[i]);
        }
    }
}

/// Tests two strings for equality of their character sequences.
pub fn str_eq(a: &str, b: &str) -> (r: bool)
    ensures
        r == (a@ == b@),
{
    let alen = a.unicode_len();
    let blen = b.unicode_len();
    if alen != blen {
        return false;
    }
    let mut i: usize = 0;
    while i < alen
        invariant
            0 <= i <= alen,
            alen == a@.len(),
            alen == b@.len(),
            forall|j: int| 0 <= j < i ==> a@[j] == b@[j],
        decreases alen - i,
    {
        if a.get_char(i) != b.get_char(i) {
            return false;
        }
        i = i + 1;
    }
    proof {
        assert(a@ =~= b@);
    }
    true
}

/// Joins a prefix and a local name into `prefix:name` (or `name` when the
/// prefix is empty).
pub fn join_name(prefix: &str, name: &str) -> (r: String)
    ensures
        r@ == full_of(prefix@, name@),
{
    if prefix.unicode_len() == 0 {
        let r = name.to_owned();
        return r;
    }
    let mut s = prefix.to_owned();
    s.append(":");
    s.append(name);
    proof {
        reveal_strlit(":");
        assert(":"@ =~= seq![':']);
        assert(s@ == prefix@ + seq![':'] + name@);
    }
    s
}

/// Splits a full name at its first `:` into `(prefix, local name)`; a name
/// without `:` has the empty prefix.
pub fn split_name<'a>(full: &'a str) -> (r: (&'a str, &'a str))
    ensures
        r.0@ == name_prefix(full@),
        r.1@ == local_name(full@),
{
    let len = full.unicode_len();
    let mut i: usize = 0;
    while i < len
        invariant
            0 <= i <= len,
            len == full@.len(),
            forall|j: int| 0 <= j < i ==> full@[j] != ':',
        decreases len - i,
    {
        if full.get_char(i) == ':' {
            proof {
                lemma_first_colon_at(full@, i as int);
            }
            let p = full.substring_char(0, i);
            let n = full.substring_char(i + 1, len);
            return (p, n);
        }
        i = i + 1;
    }
    proof {
        lemma_first_colon_at(full@, len as int);
    }
    let e = full.substring_char(0, 0);
    proof {
        assert(e@ =~= Seq::<char>::empty());
    }
    (e, full)
}

} // verus!

