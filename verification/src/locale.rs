//! Locale codes: normalization to the base language, and the lexicographic
//! (code-point) order used to keep the list of available locales sorted.

use vstd::prelude::*;
use vstd::string::StrSliceExecFns;

verus! {

/// Strict lexicographic order on character sequences, by code point, with a
/// proper prefix ordered before its extensions.
pub open spec fn lex_lt(a: Seq<char>, b: Seq<char>) -> bool
    decreases a.len(),
{
    if b.len() == 0 {
        false
    } else if a.len() == 0 {
        true
    } else if a[0] != b[0] {
        a[0] < b[0]
    } else {
        lex_lt(a.skip(1), b.skip(1))
    }
}

/// No sequence is lexicographically below itself.
pub proof fn lemma_lex_irrefl(a: Seq<char>)
    ensures
        !lex_lt(a, a),
    decreases a.len(),
{
    if a.len() > 0 {
        lemma_lex_irrefl(a.skip(1));
    }
}

/// Any two sequences are ordered one way or the other, or are equal.
pub proof fn lemma_lex_connected(a: Seq<char>, b: Seq<char>)
    ensures
        lex_lt(a, b) || lex_lt(b, a) || a == b,
    decreases a.len(),
{
    if a.len() == 0 && b.len() == 0 {
        assert(a =~= b);
    } else if a.len() == 0 {
        assert(lex_lt(a, b));
    } else if b.len() == 0 {
        assert(lex_lt(b, a));
    } else if a[0] != b[0] {
        assert(lex_lt(a, b) == (a[0] < b[0]));
        assert(lex_lt(b, a) == (b[0] < a[0]));
    } else {
        assert(lex_lt(a, b) == lex_lt(a.skip(1), b.skip(1)));
        assert(lex_lt(b, a) == lex_lt(b.skip(1), a.skip(1)));
        lemma_lex_connected(a.skip(1), b.skip(1));
        if a.skip(1) == b.skip(1) {
            assert forall|i: int| 0 <= i < a.len() implies a[i] == b[i] by {
                if i > 0 {
                    assert(a[i] == a.skip(1)[i - 1]);
                    assert(b[i] == b.skip(1)[i - 1]);
                }
            }
            assert(a =~= b);
        }
    }
}

/// The lexicographic order is transitive.
pub proof fn lemma_lex_trans(a: Seq<char>, b: Seq<char>, c: Seq<char>)
    requires
        lex_lt(a, b),
        lex_lt(b, c),
    ensures
        lex_lt(a, c),
    decreases a.len(),
{
    if a.len() > 0 && b.len() > 0 && c.len() > 0 && a[0] == b[0] && b[0] == c[0] {
        lemma_lex_trans(a.skip(1), b.skip(1), c.skip(1));
    }
}

/// Character-sequence equality of two string slices, checked character by
/// character.
pub fn str_eq(a: &str, b: &str) -> (r: bool)
    ensures
        r == (a@ == b@),
{
    let alen = a.unicode_len();
    let blen = b.unicode_len();
    if alen != blen {
        return false;
    }
    let mut i: usize = 0;
    while i < alen
        invariant
            i <= alen,
            alen == a@.len(),
            alen == b@.len(),
            forall|j: int| 0 <= j < i ==> a@[j] == b@[j],
        decreases alen - i,
    {
        if a.get_char(i) != b.get_char(i) {
            return false;
        }
        i += 1;
    }
    proof {
        assert(a@ =~= b@);
    }
    true
}

/// Whether `a` comes strictly before `b` in the lexicographic order.
pub fn str_lt(a: &str, b: &str) -> (r: bool)
    ensures
        r == lex_lt(a@, b@),
{
    let alen = a.unicode_len();
    let blen = b.unicode_len();
    proof {
        assert(a@.skip(0) =~= a@);
        assert(b@.skip(0) =~= b@);
    }
    let mut i: usize = 0;
    while i < alen && i < blen
        invariant
            i <= alen,
            i <= blen,
            alen == a@.len(),
            blen == b@.len(),
            lex_lt(a@, b@) == lex_lt(a@.skip(i as int), b@.skip(i as int)),
        decreases alen - i,
    {
        let ca = a.get_char(i);
        let cb = b.get_char(i);
        if ca != cb {
            proof {
                assert(a@.skip(i as int)[0] == a@[i as int]);
                assert(b@.skip(i as int)[0] == b@[i as int]);
                assert(lex_lt(a@.skip(i as int), b@.skip(i as int)) == (ca < cb));
            }
            return ca < cb;
        }
        proof {
            assert(a@.skip(i as int).skip(1) =~= a@.skip(i + 1));
            assert(b@.skip(i as int).skip(1) =~= b@.skip(i + 1));
        }
        i += 1;
    }
    proof {
        if i < blen {
            assert(lex_lt(a@.skip(i as int), b@.skip(i as int)));
        } else {
            assert(!lex_lt(a@.skip(i as int), b@.skip(i as int)));
        }
    }
    alen < blen
}

/// Index of the first separator `'-'` in a locale code, or its length when
/// none occurs.
pub open spec fn separator_index(l: Seq<char>) -> int
    decreases l.len(),
{
    if l.len() == 0 {
        0
    } else if l[0] == '-' {
        0
    } else {
        1 + separator_index(l.skip(1))
    }
}

/// The normalized form of a locale code: the part before the first `'-'`,
/// or the whole code when it has no separator.  Reduces a region-qualified
/// code to its base language in a single, non-recursive step.
pub open spec fn normalized(l: Seq<char>) -> Seq<char> {
    l.take(separator_index(l))
}

/// A position before which no separator occurs, and which holds one or is the
/// end, is the separator index.
pub proof fn lemma_separator_index_at(l: Seq<char>, i: int)
    requires
        0 <= i <= l.len(),
        forall|j: int| 0 <= j < i ==> l[j] != '-',
        i < l.len() ==> l[i] == '-',
    ensures
        separator_index(l) == i,
    decreases l.len(),
{
    if l.len() == 0 {
    } else if i == 0 {
    } else {
        assert(l[0] != '-');
        assert forall|j: int| 0 <= j < i - 1 implies l.skip(1)[j] != '-' by {
            assert(l.skip(1)[j] == l[j + 1]);
        }
        if i - 1 < l.skip(1).len() {
            assert(l.skip(1)[i - 1] == l[i]);
        }
        lemma_separator_index_at(l.skip(1), i - 1);
    }
}

/// Normalize a locale code: keep the part before the first `'-'`; a code
/// without a separator is returned unchanged.
pub fn normalize_locale(locale: &str) -> (r: String)
    ensures
        r@ == normalized(locale@),
{
    let len = locale.unicode_len();
    let mut i: usize = 0;
    while i < len
        invariant
            i <= len,
            len == locale@.len(),
            forall|j: int| 0 <= j < i ==> locale@[j] != '-',
        decreases len - i,
    {
        if locale.get_char(i) == '-' {
            proof {
                lemma_separator_index_at(locale@, i as int);
            }
            return locale.substring_char(0, i).to_owned();
        }
        i += 1;
    }
    proof {
        lemma_separator_index_at(locale@, len as int);
        assert(locale@.take(len as int) =~= locale@);
    }
    locale.to_owned()
}

/// The two shapes normalization can take: a locale code without a separator
/// is unchanged, and a region-qualified code whose first separator stands at
/// position `i` keeps exactly its first `i` characters.
pub proof fn lemma_normalized_forms(l: Seq<char>)
    ensures
        (forall|j: int| 0 <= j < l.len() ==> l[j] != '-') ==> normalized(l) == l,
        forall|i: int|
            (0 <= i < l.len() && #[trigger] l[i] == '-' && (forall|j: int|
                0 <= j < i ==> l[j] != '-')) ==> normalized(l) == l.take(i),
{
    if forall|j: int| 0 <= j < l.len() ==> l[j] != '-' {
        lemma_separator_index_at(l, l.len() as int);
        assert(l.take(l.len() as int) =~= l);
    }
    assert forall|i: int|
        (0 <= i < l.len() && #[trigger] l[i] == '-' && (forall|j: int|
            0 <= j < i ==> l[j] != '-')) implies normalized(l) == l.take(i) by {
        lemma_separator_index_at(l, i);
    }
}

/// The character sequences of a sequence of strings.
pub open spec fn string_views(v: Seq<String>) -> Seq<Seq<char>> {
    v.map_values(|s: String| s@)
}

/// Strictly ascending in the lexicographic order; such a sequence also has
/// no duplicate entries.
pub open spec fn strictly_sorted(s: Seq<Seq<char>>) -> bool {
    forall|i: int, j: int| 0 <= i < j < s.len() ==> lex_lt(s[i], s[j])
}

/// A strictly sorted sequence holds no entry twice.
pub proof fn lemma_sorted_distinct(s: Seq<Seq<char>>)
    requires
        strictly_sorted(s),
    ensures
        forall|i: int, j: int| 0 <= i < j < s.len() ==> s[i] != s[j],
{
    assert forall|i: int, j: int| 0 <= i < j < s.len() implies s[i] != s[j] by {
        if s[i] == s[j] {
            lemma_lex_irrefl(s[i]);
        }
    }
}

/// Two strictly sorted sequences with the same members are the same
/// sequence: sortedness makes the order of a set of locales canonical.
pub proof fn lemma_sorted_same_members(a: Seq<Seq<char>>, b: Seq<Seq<char>>)
    requires
        strictly_sorted(a),
        strictly_sorted(b),
        forall|x: Seq<char>| a.contains(x) <==> b.contains(x),
    ensures
        a == b,
    decreases a.len(),
{
    if a.len() == 0 && b.len() == 0 {
        assert(a =~= b);
    } else if a.len() == 0 {
        assert(b.contains(b[0]));
        assert(false);
    } else if b.len() == 0 {
        assert(a.contains(a[0]));
        assert(false);
    } else {
        assert(a.contains(a[0]));
        assert(b.contains(b[0]));
        let k = choose|k: int| 0 <= k < b.len() && b[k] == a[0];
        let m = choose|m: int| 0 <= m < a.len() && a[m] == b[0];
        if k > 0 && m > 0 {
            assert(lex_lt(b[0], b[k]));
            assert(lex_lt(a[0], a[m]));
            lemma_lex_trans(a[0], b[0], a[0]);
            lemma_lex_irrefl(a[0]);
        }
        assert(a[0] == b[0]);
        let at = a.skip(1);
        let bt = b.skip(1);
        assert forall|x: Seq<char>| at.contains(x) <==> bt.contains(x) by {
            lemma_tail_contains(a, x);
            lemma_tail_contains(b, x);
        }
        lemma_sorted_same_members(at, bt);
        assert forall|i: int| 0 <= i < a.len() implies a[i] == b[i] by {
            if i > 0 {
                assert(a[i] == at[i - 1]);
                assert(b[i] == bt[i - 1]);
            }
        }
        assert(a =~= b);
    }
}

/// Membership in the tail of a strictly sorted sequence: everything but the
/// head, which the tail cannot repeat.
proof fn lemma_tail_contains(s: Seq<Seq<char>>, x: Seq<char>)
    requires
        strictly_sorted(s),
        s.len() > 0,
    ensures
        s.skip(1).contains(x) <==> (s.contains(x) && x != s[0]),
{
    lemma_sorted_distinct(s);
    if s.skip(1).contains(x) {
        let i = choose|i: int| 0 <= i < s.skip(1).len() && s.skip(1)[i] == x;
        assert(s[i + 1] == x);
        assert(s.contains(x));
    }
    if s.contains(x) && x != s[0] {
        let i = choose|i: int| 0 <= i < s.len() && s[i] == x;
        assert(i > 0);
        assert(s.skip(1)[i - 1] == x);
        assert(s.skip(1).contains(x));
    }
}

/// Insert a locale code into a sorted list of distinct codes, keeping it
/// sorted and ignoring a code already present.
#[verifier::loop_isolation(false)]
pub fn insert_locale(v: &mut Vec<String>, l: &str)
    requires
        strictly_sorted(string_views(old(v)@)),
    ensures
        strictly_sorted(string_views(final(v)@)),
        forall|x: Seq<char>|
            #[trigger] string_views(final(v)@).contains(x) <==> (string_views(old(v)@).contains(x)
                || x == l@),
{
    let ghost orig = string_views(v@);
    let mut i: usize = 0;
    while i < v.len()
        invariant
            i <= v@.len(),
            v@ == old(v)@,
            strictly_sorted(string_views(v@)),
            forall|j: int| 0 <= j < i ==> lex_lt(#[trigger] string_views(v@)[j], l@),
        decreases v@.len() - i,
    {
        proof {
            assert(string_views(v@)[i as int] == v@[i as int]@);
        }
        if !str_lt(v[i].as_str(), l) {
            if str_eq(v[i].as_str(), l) {
                proof {
                    assert(string_views(v@).contains(l@)) by {
                        assert(string_views(v@)[i as int] == l@);
                    }
                }
                return;
            }
            proof {
                assert(orig[i as int] == v@[i as int]@);
                assert(!lex_lt(orig[i as int], l@));
                assert(orig[i as int] != l@);
                lemma_lex_connected(orig[i as int], l@);
                assert(lex_lt(l@, orig[i as int]));
            }
            let owned = l.to_owned();
            let ghost els = owned;
            v.insert(i, owned);
            proof {
                let gi = i as int;
                let n = string_views(v@);
                assert(v@ == old(v)@.insert(gi, els));
                old(v)@.insert_ensures(gi, els);
                assert(n.len() == orig.len() + 1);
                assert forall|k: int| 0 <= k < n.len() implies n[k] == v@[k]@ by {}
                assert(forall|k: int| 0 <= k < gi ==> n[k] == orig[k]);
                assert(n[gi] == l@);
                assert forall|k: int| gi < k < n.len() implies n[k] == orig[k - 1] by {
                    assert(v@[k] == old(v)@[k - 1]);
                }
                assert forall|p: int, q: int| 0 <= p < q < n.len() implies lex_lt(
                    n[p],
                    n[q],
                ) by {
                    if q < gi {
                    } else if p < gi && q == gi {
                        assert(lex_lt(orig[p], l@));
                    } else if p < gi && q > gi {
                        assert(lex_lt(orig[p], orig[q - 1]));
                    } else if p == gi && q == gi + 1 {
                        assert(lex_lt(l@, orig[gi]));
                    } else if p == gi && q > gi + 1 {
                        lemma_lex_trans(l@, orig[gi], orig[q - 1]);
                    } else {
                        assert(lex_lt(orig[p - 1], orig[q - 1]));
                    }
                }
                assert forall|x: Seq<char>| #[trigger] n.contains(x) <==> (orig.contains(x) || x
                    == l@) by {
                    lemma_insert_contains(orig, n, gi, l@, x);
                }
            }
            return;
        }
        i += 1;
    }
    let owned = l.to_owned();
    v.push(owned);
    proof {
        assert(string_views(v@) =~= orig.push(l@));
        let n = string_views(v@);
        assert forall|p: int, q: int| 0 <= p < q < n.len() implies lex_lt(n[p], n[q]) by {
            if q == n.len() - 1 {
                assert(n[p] == orig[p]);
            }
        }
        assert forall|x: Seq<char>| #[trigger] n.contains(x) <==> (orig.contains(x) || x
            == l@) by {
            lemma_insert_contains(orig, n, orig.len() as int, l@, x);
        }
    }
}

/// What a sequence contains after one element is inserted.
proof fn lemma_insert_contains(
    orig: Seq<Seq<char>>,
    n: Seq<Seq<char>>,
    i: int,
    l: Seq<char>,
    x: Seq<char>,
)
    requires
        0 <= i <= orig.len(),
        n.len() == orig.len() + 1,
        forall|k: int| 0 <= k < i ==> n[k] == orig[k],
        n[i] == l,
        forall|k: int| i < k < n.len() ==> n[k] == orig[k - 1],
    ensures
        n.contains(x) <==> (orig.contains(x) || x == l),
{
    if n.contains(x) {
        let k = choose|k: int| 0 <= k < n.len() && n[k] == x;
        if k < i {
            assert(orig[k] == x);
            assert(orig.contains(x));
        } else if k > i {
            assert(orig[k - 1] == x);
            assert(orig.contains(x));
        }
    }
    if orig.contains(x) {
        let k = choose|k: int| 0 <= k < orig.len() && orig[k] == x;
        if k < i {
            assert(n[k] == x);
        } else {
            assert(n[k + 1] == x);
        }
        assert(n.contains(x));
    }
    if x == l {
        assert(n[i] == x);
        assert(n.contains(x));
    }
}

} // verus!
