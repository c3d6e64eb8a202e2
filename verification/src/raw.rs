//! The raw resource document: the parsed text as a generic two-level
//! key-to-value structure, before any domain validation.
//!
//! The resource grammar is YAML; parsing is done by `serde_yaml` behind the
//! trusted items below, which hand the tree over as plain values.  Only the
//! shape the table builder reads is kept: whether the root is a mapping,
//! which nodes are string scalars, and which per-key values are mappings.
//! Everything else is dropped to an opaque marker, which is exactly how the
//! builder treats it.

use vstd::prelude::*;

use crate::errors::CompileError;

verus! {

/// A node read as a key or a leaf value: a string scalar, or anything else.
pub enum Scalar {
    Text(String),
    Other,
}

/// The value under a top-level key: a mapping of scalars, or anything else.
pub enum TopValue {
    Section(Vec<(Scalar, Scalar)>),
    Other,
}

/// The parsed root: a mapping in document order, or some other node.
pub enum RawDocument {
    Mapping(Vec<(Scalar, TopValue)>),
    Other,
}

/// Mathematical shape of a `Scalar`.
pub enum ScalarView {
    Text(Seq<char>),
    Other,
}

/// Mathematical shape of a `TopValue`.
pub enum TopValueView {
    Section(Seq<(ScalarView, ScalarView)>),
    Other,
}

/// Mathematical shape of a `RawDocument`.
pub enum RawDocumentView {
    Mapping(Seq<(ScalarView, TopValueView)>),
    Other,
}

impl View for Scalar {
    type V = ScalarView;

    open spec fn view(&self) -> ScalarView {
        match self {
            Scalar::Text(s) => ScalarView::Text(s@),
            Scalar::Other => ScalarView::Other,
        }
    }
}

impl View for TopValue {
    type V = TopValueView;

    open spec fn view(&self) -> TopValueView {
        match self {
            TopValue::Section(entries) => TopValueView::Section(
                entries@.map_values(|p: (Scalar, Scalar)| (p.0@, p.1@)),
            ),
            TopValue::Other => TopValueView::Other,
        }
    }
}

impl View for RawDocument {
    type V = RawDocumentView;

    open spec fn view(&self) -> RawDocumentView {
        match self {
            RawDocument::Mapping(entries) => RawDocumentView::Mapping(
                entries@.map_values(|p: (Scalar, TopValue)| (p.0@, p.1@)),
            ),
            RawDocument::Other => RawDocumentView::Other,
        }
    }
}

#[verifier::external_type_specification]
#[verifier::external_body]
pub struct ExValue(serde_yaml::Value);

/// The document that the resource text parses to, or `None` when the text is
/// not valid YAML.  Parsing is deterministic, so this is a function of the
/// text alone.
pub uninterp spec fn yaml_document(text: Seq<char>) -> Option<RawDocumentView>;

/// Relies on serde_yaml::Value: a string scalar keeps its text; any other
/// node is dropped to the opaque marker, one variant arm each.
#[verifier::external_body]
fn scalar_of(v: serde_yaml::Value) -> Scalar {
    match v {
        serde_yaml::Value::String(s) => Scalar::Text(s),
        _ => Scalar::Other,
    }
}

/// Relies on serde_yaml::Value and serde_yaml::Mapping: a mapping node hands
/// its entries over in document order; any other node becomes the opaque
/// marker.
#[verifier::external_body]
fn top_value_of(v: serde_yaml::Value) -> TopValue {
    match v {
        serde_yaml::Value::Mapping(m) => {
            let mut entries: Vec<(Scalar, Scalar)> = Vec::new();
            for (k, val) in m {
                entries.push((scalar_of(k), scalar_of(val)));
            }
            TopValue::Section(entries)
        }
        _ => TopValue::Other,
    }
}

/// Relies on serde_yaml::from_str: whether the text parses, and the tree it
/// yields, depend on the text alone.  A mapping keeps its document order
/// (serde_yaml stores an index map), and a mapping with a repeated key fails
/// to parse outright.
#[verifier::external_body]
fn parse_document(text: &str) -> (r: Option<RawDocument>)
    ensures
        r is Some <==> yaml_document(text@) is Some,
        r matches Some(d) ==> yaml_document(text@) == Some(d@),
{
    match serde_yaml::from_str::<serde_yaml::Value>(text) {
        Ok(serde_yaml::Value::Mapping(m)) => {
            let mut entries: Vec<(Scalar, TopValue)> = Vec::new();
            for (k, v) in m {
                entries.push((scalar_of(k), top_value_of(v)));
            }
            Some(RawDocument::Mapping(entries))
        }
        Ok(_) => Some(RawDocument::Other),
        Err(_) => None,
    }
}

/// Parse a resource text into a raw document.
///
/// Fails with `MalformedResource` exactly when the text is not valid in the
/// nested-mapping grammar; no further validation happens here.
pub fn load(text: &str) -> (r: Result<RawDocument, CompileError>)
    ensures
        r is Ok <==> yaml_document(text@) is Some,
        r matches Ok(d) ==> yaml_document(text@) == Some(d@),
        r matches Err(e) ==> e == CompileError::MalformedResource,
{
    match parse_document(text) {
        Some(d) => Ok(d),
        None => Err(CompileError::MalformedResource),
    }
}

} // verus!
