//! The canonical translation table: message key to locale map, built from a
//! raw document by filtering and normalizing its entries.
//!
//! A top-level entry becomes a message key only when its key is a non-empty
//! string that does not start with the reserved metadata prefix `'_'` and its
//! value is a mapping; within a per-key mapping only string-to-string entries
//! are kept, and a key whose retained locale map is empty is dropped, so that
//! every key of the table maps to at least one locale entry.  All other
//! entries are skipped without error: that is how metadata coexists with
//! translations in one document.  A repeated key, at either level, keeps the
//! later entry in the earlier entry's position (deterministic last-wins).

use vstd::prelude::*;

use crate::errors::CompileError;
use crate::locale::{insert_locale, str_eq, strictly_sorted, string_views};
use crate::raw::{RawDocument, RawDocumentView, Scalar, ScalarView, TopValue, TopValueView};

verus! {

/// One locale's translation for a key.
#[derive(Debug)]
pub struct LocaleEntry {
    pub locale: String,
    pub text: String,
}

/// One message key with its locale map, in document order.
#[derive(Debug)]
pub struct KeyEntry {
    pub key: String,
    pub entries: Vec<LocaleEntry>,
}

/// The canonical translation table, in document order.
#[derive(Debug)]
pub struct Table {
    pub keys: Vec<KeyEntry>,
}

/// A locale map as a mathematical association list: locale to translation.
pub type LocaleMapView = Seq<(Seq<char>, Seq<char>)>;

/// A table as a mathematical association list: key to locale map.
pub type TableView = Seq<(Seq<char>, LocaleMapView)>;

impl View for LocaleEntry {
    type V = (Seq<char>, Seq<char>);

    open spec fn view(&self) -> Self::V {
        (self.locale@, self.text@)
    }
}

/// The association list a vector of locale entries stands for.
pub open spec fn locale_entries_view(v: Seq<LocaleEntry>) -> LocaleMapView {
    v.map_values(|e: LocaleEntry| e@)
}

impl View for KeyEntry {
    type V = (Seq<char>, LocaleMapView);

    open spec fn view(&self) -> Self::V {
        (self.key@, locale_entries_view(self.entries@))
    }
}

/// The association list a vector of key entries stands for.
pub open spec fn key_entries_view(v: Seq<KeyEntry>) -> TableView {
    v.map_values(|e: KeyEntry| e@)
}

impl View for Table {
    type V = TableView;

    open spec fn view(&self) -> Self::V {
        key_entries_view(self.keys@)
    }
}

/// Whether an association list has an entry for a key.
pub open spec fn assoc_has<V>(m: Seq<(Seq<char>, V)>, k: Seq<char>) -> bool {
    exists|i: int| 0 <= i < m.len() && (#[trigger] m[i]).0 == k
}

/// Index of the first entry for a key, or the length when there is none.
pub open spec fn assoc_first<V>(m: Seq<(Seq<char>, V)>, k: Seq<char>) -> int
    decreases m.len(),
{
    if m.len() == 0 {
        0
    } else if m[0].0 == k {
        0
    } else {
        1 + assoc_first(m.skip(1), k)
    }
}

/// The value an association list holds for a key.
pub open spec fn assoc_get<V>(m: Seq<(Seq<char>, V)>, k: Seq<char>) -> Option<V> {
    if assoc_has(m, k) {
        Some(m[assoc_first(m, k)].1)
    } else {
        None
    }
}

/// Bind a key to a value: replace the first entry for the key in place, or
/// append a new entry at the end.
pub open spec fn assoc_upsert<V>(m: Seq<(Seq<char>, V)>, k: Seq<char>, v: V) -> Seq<
    (Seq<char>, V),
> {
    if assoc_has(m, k) {
        m.update(assoc_first(m, k), (k, v))
    } else {
        m.push((k, v))
    }
}

/// No key occurs twice.
pub open spec fn distinct_keys<V>(m: Seq<(Seq<char>, V)>) -> bool {
    forall|i: int, j: int| 0 <= i < j < m.len() ==> (#[trigger] m[i]).0 != (#[trigger] m[j]).0
}

/// The first index for a key is in bounds exactly when the key occurs, points
/// at the key, and nothing before it has the key.
pub proof fn lemma_assoc_first<V>(m: Seq<(Seq<char>, V)>, k: Seq<char>)
    ensures
        0 <= assoc_first(m, k) <= m.len(),
        assoc_has(m, k) <==> assoc_first(m, k) < m.len(),
        assoc_first(m, k) < m.len() ==> (#[trigger] m[assoc_first(m, k)]).0 == k,
        forall|j: int| 0 <= j < assoc_first(m, k) ==> (#[trigger] m[j]).0 != k,
    decreases m.len(),
{
    if m.len() == 0 {
    } else if m[0].0 == k {
    } else {
        lemma_assoc_first(m.skip(1), k);
        let f = assoc_first(m, k);
        assert forall|j: int| 0 <= j < f implies (#[trigger] m[j]).0 != k by {
            if j > 0 {
                assert(m[j] == m.skip(1)[j - 1]);
            }
        }
        if f < m.len() {
            assert(m[f] == m.skip(1)[f - 1]);
        }
        if assoc_has(m, k) {
            let w = choose|i: int| 0 <= i < m.len() && (#[trigger] m[i]).0 == k;
            assert(m.skip(1)[w - 1] == m[w]);
            assert(assoc_has(m.skip(1), k));
        }
        if assoc_has(m.skip(1), k) {
            let w = choose|i: int| 0 <= i < m.skip(1).len() && (#[trigger] m.skip(1)[i]).0 == k;
            assert(m[w + 1] == m.skip(1)[w]);
            assert(assoc_has(m, k));
        }
    }
}

/// A position before which the key is absent, and which holds the key or is
/// the end, is the first index for the key.
pub proof fn lemma_assoc_first_at<V>(m: Seq<(Seq<char>, V)>, k: Seq<char>, i: int)
    requires
        0 <= i <= m.len(),
        forall|j: int| 0 <= j < i ==> (#[trigger] m[j]).0 != k,
        i < m.len() ==> (#[trigger] m[i]).0 == k,
    ensures
        assoc_first(m, k) == i,
        assoc_has(m, k) <==> i < m.len(),
    decreases m.len(),
{
    if m.len() == 0 {
    } else if i == 0 {
    } else {
        assert(m[0].0 != k);
        assert forall|j: int| 0 <= j < i - 1 implies (#[trigger] m.skip(1)[j]).0 != k by {
            assert(m.skip(1)[j] == m[j + 1]);
        }
        if i - 1 < m.skip(1).len() {
            assert(m.skip(1)[i - 1] == m[i]);
        }
        lemma_assoc_first_at(m.skip(1), k, i - 1);
    }
    lemma_assoc_first(m, k);
}

/// What an upsert does to an association list with distinct keys: the length
/// grows only for a fresh key, the key set gains exactly the key, keys stay
/// distinct, and every entry is an old entry or the new pair.
pub proof fn lemma_assoc_upsert<V>(m: Seq<(Seq<char>, V)>, k: Seq<char>, v: V)
    requires
        distinct_keys(m),
    ensures
        distinct_keys(assoc_upsert(m, k, v)),
        assoc_upsert(m, k, v).len() == if assoc_has(m, k) {
            m.len() as int
        } else {
            m.len() as int + 1
        },
        forall|k2: Seq<char>|
            assoc_has(#[trigger] assoc_upsert(m, k, v), k2) <==> (assoc_has(m, k2) || k2 == k),
        forall|j: int|
            0 <= j < assoc_upsert(m, k, v).len() ==> ((#[trigger] assoc_upsert(m, k, v)[j]) == (k,
            v) || m.contains(assoc_upsert(m, k, v)[j])),
{
    lemma_assoc_first(m, k);
    let n = assoc_upsert(m, k, v);
    if assoc_has(m, k) {
        let f = assoc_first(m, k);
        assert forall|j: int| 0 <= j < n.len() implies (#[trigger] n[j]).0 == m[j].0 by {
            if j == f {
                assert(m[f].0 == k);
            }
        }
        assert forall|k2: Seq<char>| assoc_has(n, k2) implies (assoc_has(m, k2) || k2 == k) by {
            let w = choose|i: int| 0 <= i < n.len() && (#[trigger] n[i]).0 == k2;
            assert(m[w].0 == k2);
        }
        assert forall|k2: Seq<char>| assoc_has(m, k2) || k2 == k implies assoc_has(
            #[trigger] assoc_upsert(m, k, v),
            k2,
        ) by {
            if k2 == k {
                assert(n[f].0 == k);
            } else {
                let w = choose|i: int| 0 <= i < m.len() && (#[trigger] m[i]).0 == k2;
                assert(n[w].0 == k2);
            }
        }
        assert forall|j: int| 0 <= j < n.len() implies ((#[trigger] n[j]) == (k, v) || m.contains(
            n[j],
        )) by {
            if j != f {
                assert(n[j] == m[j]);
                assert(m.contains(m[j]));
            }
        }
    } else {
        assert forall|k2: Seq<char>| assoc_has(n, k2) implies (assoc_has(m, k2) || k2 == k) by {
            let w = choose|i: int| 0 <= i < n.len() && (#[trigger] n[i]).0 == k2;
            if w < m.len() {
                assert(m[w].0 == k2);
            }
        }
        assert forall|k2: Seq<char>| assoc_has(m, k2) || k2 == k implies assoc_has(
            #[trigger] assoc_upsert(m, k, v),
            k2,
        ) by {
            if k2 == k {
                assert(n[m.len() as int].0 == k);
            } else {
                let w = choose|i: int| 0 <= i < m.len() && (#[trigger] m[i]).0 == k2;
                assert(n[w].0 == k2);
            }
        }
        assert forall|i: int, j: int| 0 <= i < j < n.len() implies (#[trigger] n[i]).0 != (
        #[trigger] n[j]).0 by {
            if j == m.len() {
                assert(n[i] == m[i]);
                assert(forall|p: int| 0 <= p < m.len() ==> (#[trigger] m[p]).0 != k);
            }
        }
        assert forall|j: int| 0 <= j < n.len() implies ((#[trigger] n[j]) == (k, v) || m.contains(
            n[j],
        )) by {
            if j < m.len() {
                assert(n[j] == m[j]);
                assert(m.contains(m[j]));
            }
        }
    }
}

/// Whether a top-level key is included in the table: a string, non-empty,
/// and not starting with the reserved metadata prefix.
pub open spec fn included_key(k: ScalarView) -> bool {
    match k {
        ScalarView::Text(s) => s.len() > 0 && s[0] != '_',
        ScalarView::Other => false,
    }
}

/// The locale map a per-key section builds to, on top of what is already
/// accumulated: string-to-string entries in document order, a repeated
/// locale replacing the earlier entry in place.
pub open spec fn build_section(
    entries: Seq<(ScalarView, ScalarView)>,
    acc: LocaleMapView,
) -> LocaleMapView
    decreases entries.len(),
{
    if entries.len() == 0 {
        acc
    } else {
        let next = match (entries[0].0, entries[0].1) {
            (ScalarView::Text(l), ScalarView::Text(t)) => assoc_upsert(acc, l, t),
            _ => acc,
        };
        build_section(entries.skip(1), next)
    }
}

/// The table a document's top-level entries build to, on top of what is
/// already accumulated: included keys whose value is a mapping with at least
/// one retained entry, in document order, a repeated key replacing the
/// earlier entry in place.
pub open spec fn build_table(
    entries: Seq<(ScalarView, TopValueView)>,
    acc: TableView,
) -> TableView
    decreases entries.len(),
{
    if entries.len() == 0 {
        acc
    } else {
        let next = match (entries[0].0, entries[0].1) {
            (ScalarView::Text(s), TopValueView::Section(sec)) => {
                if s.len() > 0 && s[0] != '_' {
                    let m = build_section(sec, Seq::empty());
                    if m.len() > 0 {
                        assoc_upsert(acc, s, m)
                    } else {
                        acc
                    }
                } else {
                    acc
                }
            },
            _ => acc,
        };
        build_table(entries.skip(1), next)
    }
}

/// A well-formed table: distinct keys of the admitted shape, each mapping to
/// a locale map with distinct locales and at least one entry.
pub open spec fn table_wf(t: TableView) -> bool {
    &&& distinct_keys(t)
    &&& forall|i: int| 0 <= i < t.len() ==> distinct_keys((#[trigger] t[i]).1)
    &&& forall|i: int| 0 <= i < t.len() ==> (#[trigger] t[i]).1.len() > 0
    &&& forall|i: int| 0 <= i < t.len() ==> ((#[trigger] t[i]).0.len() > 0 && t[i].0[0] != '_')
}

/// Whether some key's locale map has an entry for a locale.
pub open spec fn table_has_locale(t: TableView, l: Seq<char>) -> bool {
    exists|i: int| 0 <= i < t.len() && assoc_has((#[trigger] t[i]).1, l)
}

/// Find the first entry for a locale in a locale map.
#[verifier::loop_isolation(false)]
fn find_locale(entries: &Vec<LocaleEntry>, locale: &str) -> (r: Option<usize>)
    ensures
        match r {
            Some(i) => i < entries@.len() && assoc_first(locale_entries_view(entries@), locale@)
                == i && assoc_has(locale_entries_view(entries@), locale@),
            None => !assoc_has(locale_entries_view(entries@), locale@),
        },
{
    let ghost m = locale_entries_view(entries@);
    let mut i: usize = 0;
    while i < entries.len()
        invariant
            i <= entries@.len(),
            forall|j: int| 0 <= j < i ==> (#[trigger] m[j]).0 != locale@,
        decreases entries@.len() - i,
    {
        proof {
            assert(m[i as int] == entries@[i as int]@);
        }
        if str_eq(entries[i].locale.as_str(), locale) {
            proof {
                lemma_assoc_first_at(m, locale@, i as int);
            }
            return Some(i);
        }
        i += 1;
    }
    proof {
        lemma_assoc_first_at(m, locale@, m.len() as int);
    }
    None
}

/// Look up a locale's translation in a locale map.
pub fn lookup_locale<'a>(entries: &'a Vec<LocaleEntry>, locale: &str) -> (r: Option<&'a String>)
    ensures
        match r {
            Some(t) => assoc_get(locale_entries_view(entries@), locale@) == Some(t@),
            None => assoc_get(locale_entries_view(entries@), locale@) is None,
        },
{
    match find_locale(entries, locale) {
        Some(i) => {
            proof {
                assert(locale_entries_view(entries@)[i as int] == entries@[i as int]@);
            }
            Some(&entries[i].text)
        },
        None => None,
    }
}

/// Record a translation in a locale map, replacing the entry of a locale
/// already present (last-wins, in place).
fn upsert_locale_entry(m: &mut Vec<LocaleEntry>, locale: String, text: String)
    ensures
        locale_entries_view(final(m)@) == assoc_upsert(
            locale_entries_view(old(m)@),
            locale@,
            text@,
        ),
{
    let ghost mv = locale_entries_view(m@);
    let ghost pair = (locale@, text@);
    proof {
        lemma_assoc_first(mv, locale@);
    }
    match find_locale(m, locale.as_str()) {
        Some(i) => {
            let ghost gi = i as int;
            let ghost mid = m@.remove(gi);
            m.remove(i);
            let e = LocaleEntry { locale, text };
            let ghost ee = e;
            m.insert(i, e);
            proof {
                old(m)@.remove_ensures(gi);
                mid.insert_ensures(gi, ee);
                assert forall|j: int|
                    0 <= j < m@.len() implies locale_entries_view(m@)[j] == mv.update(
                    gi,
                    pair,
                )[j] by {
                    if j < gi {
                        assert(m@[j] == old(m)@[j]);
                    } else if j == gi {
                        assert(m@[j] == ee);
                    } else {
                        assert(m@[j] == mid[j - 1]);
                        assert(mid[j - 1] == old(m)@[j]);
                    }
                }
                assert(locale_entries_view(m@) =~= mv.update(gi, pair));
            }
        },
        None => {
            let e = LocaleEntry { locale, text };
            m.push(e);
            proof {
                assert(locale_entries_view(m@) =~= mv.push(pair));
            }
        },
    }
}

/// Find the first entry for a message key in a table.
#[verifier::loop_isolation(false)]
pub fn find_key(keys: &Vec<KeyEntry>, key: &str) -> (r: Option<usize>)
    ensures
        match r {
            Some(i) => i < keys@.len() && assoc_first(key_entries_view(keys@), key@) == i
                && assoc_has(key_entries_view(keys@), key@),
            None => !assoc_has(key_entries_view(keys@), key@),
        },
{
    let ghost m = key_entries_view(keys@);
    let mut i: usize = 0;
    while i < keys.len()
        invariant
            i <= keys@.len(),
            forall|j: int| 0 <= j < i ==> (#[trigger] m[j]).0 != key@,
        decreases keys@.len() - i,
    {
        proof {
            assert(m[i as int] == keys@[i as int]@);
        }
        if str_eq(keys[i].key.as_str(), key) {
            proof {
                lemma_assoc_first_at(m, key@, i as int);
            }
            return Some(i);
        }
        i += 1;
    }
    proof {
        lemma_assoc_first_at(m, key@, m.len() as int);
    }
    None
}

/// Record a key's locale map in a table, replacing the map of a key already
/// present (last-wins, in place).
fn upsert_key_entry(keys: &mut Vec<KeyEntry>, key: String, entries: Vec<LocaleEntry>)
    ensures
        key_entries_view(final(keys)@) == assoc_upsert(
            key_entries_view(old(keys)@),
            key@,
            locale_entries_view(entries@),
        ),
{
    let ghost mv = key_entries_view(keys@);
    let ghost pair = (key@, locale_entries_view(entries@));
    proof {
        lemma_assoc_first(mv, key@);
    }
    match find_key(keys, key.as_str()) {
        Some(i) => {
            let ghost gi = i as int;
            let ghost mid = keys@.remove(gi);
            keys.remove(i);
            let e = KeyEntry { key, entries };
            let ghost ee = e;
            keys.insert(i, e);
            proof {
                old(keys)@.remove_ensures(gi);
                mid.insert_ensures(gi, ee);
                assert forall|j: int|
                    0 <= j < keys@.len() implies key_entries_view(keys@)[j] == mv.update(
                    gi,
                    pair,
                )[j] by {
                    if j < gi {
                        assert(keys@[j] == old(keys)@[j]);
                    } else if j == gi {
                        assert(keys@[j] == ee);
                    } else {
                        assert(keys@[j] == mid[j - 1]);
                        assert(mid[j - 1] == old(keys)@[j]);
                    }
                }
                assert(key_entries_view(keys@) =~= mv.update(gi, pair));
            }
        },
        None => {
            let e = KeyEntry { key, entries };
            keys.push(e);
            proof {
                assert(key_entries_view(keys@) =~= mv.push(pair));
            }
        },
    }
}

/// Build the canonical table and the sorted list of available locales from a
/// raw document.
///
/// Fails with `TopLevelShapeError` exactly when the document's root is not a
/// mapping.  The table is what `build_table` states over the document's
/// entries; the locale list is the union of the locale codes retained across
/// all keys, strictly sorted, hence without duplicates.
#[verifier::loop_isolation(false)]
pub fn build(doc: &RawDocument) -> (r: Result<(Table, Vec<String>), CompileError>)
    ensures
        r is Ok <==> doc@ is Mapping,
        r matches Err(e) ==> e == CompileError::TopLevelShapeError,
        r matches Ok(p) ==> {
            &&& doc@ matches RawDocumentView::Mapping(entries) && p.0@ == build_table(
                entries,
                Seq::empty(),
            )
            &&& table_wf(p.0@)
            &&& strictly_sorted(string_views(p.1@))
            &&& forall|l: Seq<char>|
                #[trigger] string_views(p.1@).contains(l) <==> table_has_locale(p.0@, l)
        },
{
    let entries = match doc {
        RawDocument::Mapping(entries) => entries,
        RawDocument::Other => {
            return Err(CompileError::TopLevelShapeError);
        },
    };
    let ghost ev = entries@.map_values(|p: (Scalar, TopValue)| (p.0@, p.1@));
    proof {
        assert(doc@ == RawDocumentView::Mapping(ev));
        assert(ev.skip(0) =~= ev);
    }
    let mut keys: Vec<KeyEntry> = Vec::new();
    proof {
        assert(key_entries_view(keys@) =~= Seq::<(Seq<char>, LocaleMapView)>::empty());
    }
    let mut i: usize = 0;
    while i < entries.len()
        invariant
            i <= entries@.len(),
            build_table(ev, Seq::empty()) == build_table(
                ev.skip(i as int),
                key_entries_view(keys@),
            ),
            table_wf(key_entries_view(keys@)),
        decreases entries@.len() - i,
    {
        let ghost gi = i as int;
        let ghost acc0 = key_entries_view(keys@);
        proof {
            assert(ev[gi] == (entries@[gi].0@, entries@[gi].1@));
            assert(ev.skip(gi)[0] == ev[gi]);
            assert(ev.skip(gi).skip(1) =~= ev.skip(gi + 1));
        }
        match &entries[i] {
            (Scalar::Text(s), TopValue::Section(sec)) => {
                let slen = s.unicode_len();
                if slen > 0 && s.get_char(0) != '_' {
                    let ghost sv = sec@.map_values(|p: (Scalar, Scalar)| (p.0@, p.1@));
                    proof {
                        assert(entries@[gi].1@ == TopValueView::Section(sv));
                        assert(sv.skip(0) =~= sv);
                    }
                    let mut inner: Vec<LocaleEntry> = Vec::new();
                    proof {
                        assert(locale_entries_view(inner@) =~= Seq::<(Seq<char>, Seq<char>)>::empty());
                    }
                    let mut j: usize = 0;
                    while j < sec.len()
                        invariant
                            j <= sec@.len(),
                            build_section(sv, Seq::empty()) == build_section(
                                sv.skip(j as int),
                                locale_entries_view(inner@),
                            ),
                            distinct_keys(locale_entries_view(inner@)),
                        decreases sec@.len() - j,
                    {
                        let ghost gj = j as int;
                        proof {
                            assert(sv[gj] == (sec@[gj].0@, sec@[gj].1@));
                            assert(sv.skip(gj)[0] == sv[gj]);
                            assert(sv.skip(gj).skip(1) =~= sv.skip(gj + 1));
                        }
                        match &sec[j] {
                            (Scalar::Text(l), Scalar::Text(t)) => {
                                proof {
                                    lemma_assoc_upsert(locale_entries_view(inner@), l@, t@);
                                }
                                let lc = l.clone();
                                let tc = t.clone();
                                upsert_locale_entry(&mut inner, lc, tc);
                            },
                            _ => {},
                        }
                        j += 1;
                    }
                    proof {
                        assert(sv.skip(sec@.len() as int).len() == 0);
                        assert(locale_entries_view(inner@) == build_section(sv, Seq::empty()));
                    }
                    if inner.len() > 0 {
                        let ghost im = locale_entries_view(inner@);
                        proof {
                            lemma_assoc_upsert(acc0, s@, im);
                        }
                        let kc = s.clone();
                        upsert_key_entry(&mut keys, kc, inner);
                        proof {
                            let n = key_entries_view(keys@);
                            assert(n == assoc_upsert(acc0, s@, im));
                            assert forall|p: int| 0 <= p < n.len() implies (distinct_keys(
                                (#[trigger] n[p]).1,
                            ) && n[p].1.len() > 0 && n[p].0.len() > 0 && n[p].0[0] != '_') by {
                                if n[p] == (s@, im) {
                                } else {
                                    assert(acc0.contains(n[p]));
                                    let w = choose|w: int|
                                        0 <= w < acc0.len() && acc0[w] == n[p];
                                }
                            }
                            assert(table_wf(n));
                        }
                    }
                }
            },
            _ => {},
        }
        i += 1;
    }
    proof {
        assert(ev.skip(entries@.len() as int).len() == 0);
        assert(key_entries_view(keys@) == build_table(ev, Seq::empty()));
    }
    let ghost t = key_entries_view(keys@);
    let mut locales: Vec<String> = Vec::new();
    let mut a: usize = 0;
    while a < keys.len()
        invariant
            a <= keys@.len(),
            strictly_sorted(string_views(locales@)),
            forall|x: Seq<char>|
                #[trigger] string_views(locales@).contains(x) <==> exists|p: int|
                    0 <= p < a && assoc_has((#[trigger] t[p]).1, x),
        decreases keys@.len() - a,
    {
        let ghost ga = a as int;
        let ghost row = t[ga].1;
        proof {
            assert(t[ga] == keys@[ga]@);
        }
        let mut b: usize = 0;
        while b < keys[a].entries.len()
            invariant
                a < keys@.len(),
                b <= row.len(),
                row == locale_entries_view(keys@[a as int].entries@),
                strictly_sorted(string_views(locales@)),
                forall|x: Seq<char>|
                    #[trigger] string_views(locales@).contains(x) <==> ((exists|p: int|
                        0 <= p < a && assoc_has((#[trigger] t[p]).1, x)) || (exists|q: int|
                        0 <= q < b && (#[trigger] row[q]).0 == x)),
            decreases row.len() - b,
        {
            let ghost gb = b as int;
            let ghost before = string_views(locales@);
            proof {
                assert(row[gb] == keys@[ga].entries@[gb]@);
            }
            insert_locale(&mut locales, keys[a].entries[b].locale.as_str());
            proof {
                let lv = row[gb].0;
                assert forall|x: Seq<char>|
                    #[trigger] string_views(locales@).contains(x) implies ((exists|p: int|
                    0 <= p < a && assoc_has((#[trigger] t[p]).1, x)) || (exists|q: int|
                    0 <= q < b + 1 && (#[trigger] row[q]).0 == x)) by {
                    if before.contains(x) {
                        if exists|q: int| 0 <= q < b && (#[trigger] row[q]).0 == x {
                            let q = choose|q: int| 0 <= q < b && (#[trigger] row[q]).0 == x;
                            assert(0 <= q < b + 1 && row[q].0 == x);
                        }
                    } else {
                        assert(x == lv);
                        assert(0 <= gb < b + 1 && row[gb].0 == x);
                    }
                }
                assert forall|x: Seq<char>|
                    ((exists|p: int| 0 <= p < a && assoc_has((#[trigger] t[p]).1, x)) || (exists|
                        q: int,
                    | 0 <= q < b + 1 && (#[trigger] row[q]).0 == x)) implies #[trigger] string_views(
                    locales@,
                ).contains(x) by {
                    if exists|q: int| 0 <= q < b + 1 && (#[trigger] row[q]).0 == x {
                        let q = choose|q: int| 0 <= q < b + 1 && (#[trigger] row[q]).0 == x;
                        if q < b {
                            assert(before.contains(x));
                        } else {
                            assert(x == lv);
                        }
                    } else {
                        assert(before.contains(x));
                    }
                }
            }
            b += 1;
        }
        proof {
            assert forall|x: Seq<char>|
                #[trigger] string_views(locales@).contains(x) <==> exists|p: int|
                    0 <= p < a + 1 && assoc_has((#[trigger] t[p]).1, x) by {
                if string_views(locales@).contains(x) {
                    if exists|q: int| 0 <= q < row.len() && (#[trigger] row[q]).0 == x {
                        assert(assoc_has(t[ga].1, x));
                        assert(0 <= ga < a + 1 && assoc_has(t[ga].1, x));
                    } else {
                        let p = choose|p: int| 0 <= p < a && assoc_has((#[trigger] t[p]).1, x);
                        assert(0 <= p < a + 1 && assoc_has(t[p].1, x));
                    }
                } else {
                    if exists|p: int| 0 <= p < a + 1 && assoc_has((#[trigger] t[p]).1, x) {
                        let p = choose|p: int|
                            0 <= p < a + 1 && assoc_has((#[trigger] t[p]).1, x);
                        if p < a {
                            assert(string_views(locales@).contains(x));
                        } else {
                            let q = choose|q: int|
                                0 <= q < row.len() && (#[trigger] row[q]).0 == x;
                            assert(string_views(locales@).contains(x));
                        }
                        assert(false);
                    }
                }
            }
        }
        a += 1;
    }
    proof {
        assert forall|l: Seq<char>|
            #[trigger] string_views(locales@).contains(l) <==> table_has_locale(t, l) by {}
    }
    Ok((Table { keys }, locales))
}

} // verus!
