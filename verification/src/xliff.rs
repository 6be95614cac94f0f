//! The XLIFF document model.
//!
//! Only the consumed subset of XLIFF is modeled: one `file` element per
//! document with its `original`, `source-language`, `target-language` and
//! `datatype` attributes, and the `trans-unit` records under its `body`.
//!
//! A document arrives as raw text fields ([`RawXliff`]); building the typed
//! model runs every `source` and `target` string through the placeholder
//! parser, and keeps everything else verbatim.

use vstd::prelude::*;

use crate::argument::ArgumentString;

verus! {

/// One `trans-unit` element as raw text: its `id` attribute, its mandatory
/// `source` text and its optional `target` text.
#[derive(Debug)]
pub struct RawTransUnit {
    pub id: String,
    pub source: String,
    pub target: Option<String>,
}

/// A `body` element as raw text: its `trans-unit` children in document order.
#[derive(Debug)]
pub struct RawBody {
    pub trans_unit: Vec<RawTransUnit>,
}

/// A `file` element as raw text: its four attributes and its `body`.
#[derive(Debug)]
pub struct RawFile {
    pub original: String,
    pub source_language: String,
    pub target_language: String,
    pub datatype: String,
    pub body: RawBody,
}

/// A whole `xliff` document as raw text, before placeholder parsing.
#[derive(Debug)]
pub struct RawXliff {
    pub version: String,
    pub xmln: String,
    pub file: RawFile,
}

/// One `trans-unit` element: an opaque identifier, the source string and the
/// optional translated string, both split at their placeholders.
#[derive(Debug)]
pub struct TransUnit {
    pub id: String,
    pub source: ArgumentString,
    pub target: Option<ArgumentString>,
}

/// A `body` element: the `trans-unit` records in document order.
#[derive(Debug)]
pub struct Body {
    pub trans_unit: Vec<TransUnit>,
}

/// A `file` element: its attributes, retained verbatim, and its `body`.
#[derive(Debug)]
pub struct File {
    pub original: String,
    pub source_language: String,
    pub target_language: String,
    pub datatype: String,
    pub body: Body,
}

/// One localized document: document-level metadata, retained verbatim, and
/// the single `file` element this model supports.
#[derive(Debug)]
pub struct Xliff {
    pub version: String,
    pub xmln: String,
    pub file: File,
}

/// `unit` is the parse of the raw record `raw`: same id, `source` and
/// `target` run through the placeholder parser, a `target` present exactly
/// where the raw record has one.
pub open spec fn unit_from_raw(unit: TransUnit, raw: RawTransUnit) -> bool {
    &&& unit.id@ == raw.id@
    &&& unit.source.is_parse_of(raw.source@)
    &&& match (unit.target, raw.target) {
        (Some(t), Some(rt)) => t.is_parse_of(rt@),
        (None, None) => true,
        _ => false,
    }
}

/// `doc` is the parse of the raw document `raw`: metadata and attributes
/// kept verbatim, every translation unit parsed, document order preserved.
pub open spec fn doc_from_raw(doc: Xliff, raw: RawXliff) -> bool {
    &&& doc.version@ == raw.version@
    &&& doc.xmln@ == raw.xmln@
    &&& doc.file.original@ == raw.file.original@
    &&& doc.file.source_language@ == raw.file.source_language@
    &&& doc.file.target_language@ == raw.file.target_language@
    &&& doc.file.datatype@ == raw.file.datatype@
    &&& doc.file.body.trans_unit@.len() == raw.file.body.trans_unit@.len()
    &&& forall|i: int|
        0 <= i < raw.file.body.trans_unit@.len() ==> unit_from_raw(
            #[trigger] doc.file.body.trans_unit@[i],
            raw.file.body.trans_unit@[i],
        )
}

impl TransUnit {
    /// Parse one raw record: keep the id, split `source` and `target` at
    /// their placeholders.
    pub fn from_raw(raw: &RawTransUnit) -> (r: TransUnit)
        ensures
            unit_from_raw(r, *raw),
    {
        TransUnit {
            id: raw.id.clone(),
            source: ArgumentString::from(raw.source.as_str()),
            target: match &raw.target {
                Some(t) => Some(ArgumentString::from(t.as_str())),
                None => None,
            },
        }
    }
}

impl Xliff {
    /// Parse a raw document: metadata is kept verbatim and every
    /// translation unit runs through the placeholder parser.
    pub fn from_raw(raw: &RawXliff) -> (r: Xliff)
        ensures
            doc_from_raw(r, *raw),
    {
        let mut units: Vec<TransUnit> = Vec::new();
        let mut i: usize = 0;
        while i < raw.file.body.trans_unit.len()
            invariant
                i <= raw.file.body.trans_unit@.len(),
                units@.len() == i,
                forall|j: int|
                    0 <= j < i ==> unit_from_raw(
                        #[trigger] units@[j],
                        raw.file.body.trans_unit@[j],
                    ),
            decreases raw.file.body.trans_unit@.len() - i,
        {
            units.push(TransUnit::from_raw(&raw.file.body.trans_unit[i]));
            i += 1;
        }
        Xliff {
            version: raw.version.clone(),
            xmln: raw.xmln.clone(),
            file: File {
                original: raw.file.original.clone(),
                source_language: raw.file.source_language.clone(),
                target_language: raw.file.target_language.clone(),
                datatype: raw.file.datatype.clone(),
                body: Body { trans_unit: units },
            },
        }
    }

    /// The document's translation units, in document order.
    pub fn translation_units(&self) -> (r: &[TransUnit])
        ensures
            r@ == self.file.body.trans_unit@,
    {
        self.file.body.trans_unit.as_slice()
    }
}

} // verus!
