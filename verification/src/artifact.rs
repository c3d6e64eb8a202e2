//! The compiled artifact: the embedded table, the fallback locale, and the
//! sorted list of available locales, queried through pure functions.
//!
//! An artifact is pure data.  Its lookup functions read the embedded table
//! and nothing else: no resource text, no parsing, no shared mutable state.
//! Every failure is a defined error value.

use vstd::prelude::*;

use crate::errors::{CompileError, LookupError};
use crate::locale::{
    lemma_sorted_distinct, lemma_sorted_same_members, normalize_locale, normalized,
    strictly_sorted, string_views,
};
use crate::raw::{load, yaml_document, RawDocumentView};
use crate::table::{
    assoc_get, assoc_has, build, build_table, find_key, lemma_assoc_first, locale_entries_view,
    lookup_locale, table_has_locale, table_wf, Table, TableView,
};

verus! {

/// Mathematical content of an artifact: the table, the fallback locale, and
/// the available locales.
pub struct ArtifactView {
    pub table: TableView,
    pub fallback: Seq<char>,
    pub locales: Seq<Seq<char>>,
}

/// A compiled translation artifact.
#[derive(Debug)]
pub struct Artifact {
    table: Table,
    fallback: String,
    locales: Vec<String>,
}

impl View for Artifact {
    type V = ArtifactView;

    closed spec fn view(&self) -> ArtifactView {
        ArtifactView {
            table: self.table@,
            fallback: self.fallback@,
            locales: string_views(self.locales@),
        }
    }
}

/// What a lookup yields against a table: the entry for the normalized
/// locale, else the key's entry for the fallback locale, if either exists.
pub open spec fn spec_translate(
    t: TableView,
    fallback: Seq<char>,
    key: Seq<char>,
    locale: Seq<char>,
) -> Option<Seq<char>> {
    match assoc_get(t, key) {
        None => None,
        Some(m) => match assoc_get(m, normalized(locale)) {
            Some(s) => Some(s),
            None => assoc_get(m, fallback),
        },
    }
}

impl Artifact {
    /// The artifact's internal consistency: a well-formed table, and the
    /// locale list sorted and holding exactly the table's locales.
    pub open spec fn wf(&self) -> bool {
        &&& table_wf(self@.table)
        &&& strictly_sorted(self@.locales)
        &&& forall|l: Seq<char>|
            #[trigger] self@.locales.contains(l) <==> table_has_locale(self@.table, l)
    }

    /// Translate a message key for a locale.
    ///
    /// The locale is first normalized to its base language.  An entry for
    /// the normalized locale wins; otherwise the key's entry for the
    /// fallback locale is used.  A key absent from the table fails with
    /// `UnknownKey`, whatever the locale; a key that has neither entry
    /// fails with `TranslationMissing`.  Key dispatch is exact and
    /// case-sensitive.
    pub fn translate(&self, key: &str, locale: &str) -> (r: Result<String, LookupError>)
        requires
            self.wf(),
        ensures
            r is Ok <==> spec_translate(self@.table, self@.fallback, key@, locale@) is Some,
            r matches Ok(s) ==> spec_translate(self@.table, self@.fallback, key@, locale@)
                == Some(s@),
            r matches Err(e) ==> match e {
                LookupError::UnknownKey { key: k } => k@ == key@ && !assoc_has(
                    self@.table,
                    key@,
                ),
                LookupError::TranslationMissing { key: k, locale: l, fallback: f } => {
                    &&& k@ == key@ && l@ == locale@ && f@ == self@.fallback
                    &&& assoc_get(self@.table, key@) matches Some(m) && !assoc_has(
                        m,
                        normalized(locale@),
                    ) && !assoc_has(m, self@.fallback)
                },
            },
    {
        let norm = normalize_locale(locale);
        match find_key(&self.table.keys, key) {
            None => Err(LookupError::UnknownKey { key: key.to_owned() }),
            Some(i) => {
                let ghost t = self@.table;
                proof {
                    assert(t[i as int] == self.table.keys@[i as int]@);
                    lemma_assoc_first(locale_entries_view(self.table.keys@[i as int].entries@), normalized(locale@));
                    lemma_assoc_first(locale_entries_view(self.table.keys@[i as int].entries@), self.fallback@);
                }
                let entry = &self.table.keys[i];
                match lookup_locale(&entry.entries, norm.as_str()) {
                    Some(text) => Ok(text.clone()),
                    None => match lookup_locale(&entry.entries, self.fallback.as_str()) {
                        Some(text) => Ok(text.clone()),
                        None => Err(LookupError::TranslationMissing {
                            key: key.to_owned(),
                            locale: locale.to_owned(),
                            fallback: self.fallback.clone(),
                        }),
                    },
                }
            },
        }
    }

    /// The sorted list of every locale code appearing in any key's locale
    /// map: without duplicates, exactly the union across all keys, and
    /// stable across calls.
    pub fn available_locales(&self) -> (r: &Vec<String>)
        requires
            self.wf(),
        ensures
            string_views(r@) == self@.locales,
            strictly_sorted(string_views(r@)),
            forall|i: int, j: int|
                0 <= i < j < string_views(r@).len() ==> string_views(r@)[i] != string_views(
                    r@,
                )[j],
            forall|l: Seq<char>|
                #[trigger] string_views(r@).contains(l) <==> table_has_locale(self@.table, l),
    {
        proof {
            lemma_sorted_distinct(string_views(self.locales@));
        }
        &self.locales
    }

    /// The fallback locale the artifact was compiled with, exposed for
    /// introspection by the host.
    pub fn fallback_locale(&self) -> (r: &String)
        ensures
            r@ == self@.fallback,
    {
        &self.fallback
    }
}

/// Pack a built table, the caller's fallback locale, and the locale list
/// into an artifact.
pub fn generate(table: Table, fallback: String, locales: Vec<String>) -> (r: Artifact)
    requires
        table_wf(table@),
        strictly_sorted(string_views(locales@)),
        forall|l: Seq<char>|
            #[trigger] string_views(locales@).contains(l) <==> table_has_locale(table@, l),
    ensures
        r@.table == table@,
        r@.fallback == fallback@,
        r@.locales == string_views(locales@),
        r.wf(),
{
    Artifact { table, fallback, locales }
}

/// The view of a compilation result.
pub open spec fn compile_result_view(r: Result<Artifact, CompileError>) -> Result<
    ArtifactView,
    CompileError,
> {
    match r {
        Ok(a) => Ok(a@),
        Err(e) => Err(e),
    }
}

/// What one whole compilation yields for a resource text and a fallback
/// locale: `MalformedResource` when the text does not parse,
/// `TopLevelShapeError` when its root is not a mapping, and otherwise an
/// artifact holding the built table, the given fallback, and the sorted
/// union of the table's locales.
pub open spec fn compiled(
    text: Seq<char>,
    fallback: Seq<char>,
    r: Result<ArtifactView, CompileError>,
) -> bool {
    match yaml_document(text) {
        None => r == Err::<ArtifactView, CompileError>(CompileError::MalformedResource),
        Some(RawDocumentView::Other) => r == Err::<ArtifactView, CompileError>(
            CompileError::TopLevelShapeError,
        ),
        Some(RawDocumentView::Mapping(entries)) => match r {
            Ok(a) => {
                &&& a.table == build_table(entries, Seq::empty())
                &&& a.fallback == fallback
                &&& strictly_sorted(a.locales)
                &&& forall|l: Seq<char>|
                    #[trigger] a.locales.contains(l) <==> table_has_locale(a.table, l)
            },
            Err(_) => false,
        },
    }
}

/// Compile a resource text and a fallback locale into an artifact: load,
/// build, generate.  A failure at any stage aborts the whole compilation;
/// no partial artifact is ever produced.
pub fn compile(text: &str, fallback: &str) -> (r: Result<Artifact, CompileError>)
    ensures
        compiled(text@, fallback@, compile_result_view(r)),
        r matches Ok(a) ==> a.wf(),
{
    let doc = match load(text) {
        Ok(d) => d,
        Err(e) => {
            return Err(e);
        },
    };
    let (table, locales) = match build(&doc) {
        Ok(p) => p,
        Err(e) => {
            return Err(e);
        },
    };
    Ok(generate(table, fallback.to_owned(), locales))
}

/// Compiling the same resource text with the same fallback locale twice
/// yields the same result, artifact or failure: the compilation relation is
/// a function of its two inputs, so one compiled artifact can stand for all
/// compilations of its source.
pub proof fn lemma_compile_deterministic(
    text: Seq<char>,
    fallback: Seq<char>,
    r1: Result<ArtifactView, CompileError>,
    r2: Result<ArtifactView, CompileError>,
)
    requires
        compiled(text, fallback, r1),
        compiled(text, fallback, r2),
    ensures
        r1 == r2,
{
    match yaml_document(text) {
        None => {},
        Some(RawDocumentView::Other) => {},
        Some(RawDocumentView::Mapping(entries)) => {
            let a1 = r1->Ok_0;
            let a2 = r2->Ok_0;
            lemma_sorted_same_members(a1.locales, a2.locales);
        },
    }
}

} // verus!
