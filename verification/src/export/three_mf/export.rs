//! The document metadata and the export builder.

use vstd::prelude::*;
use vstd::string::*;

use crate::export::three_mf::document::{document_of, to_document};
use crate::export::three_mf::xml::{Metadata, Model as XmlModel};
use crate::model::Model;

verus! {

/// Document metadata for a 3MF export.
#[derive(Debug, Clone, PartialEq, Eq)]
pub struct ThreeMfMetadata {
    pub title: Option<String>,
    pub designer: Option<String>,
    pub description: Option<String>,
}

/// The text of an optional string.
pub open spec fn text_of(s: Option<String>) -> Option<Seq<char>> {
    match s {
        Some(s) => Some(s@),
        None => None,
    }
}

/// One named entry when `value` is set, none otherwise.
pub open spec fn entry_if_set(name: Seq<char>, value: Option<Seq<char>>) -> Seq<(Seq<char>, Seq<char>)> {
    match value {
        Some(v) => seq![(name, v)],
        None => Seq::empty(),
    }
}

/// The metadata entries, as (name, value) text: the title, the designer,
/// then the description, each only when it is set.
pub open spec fn metadata_entries(metadata: ThreeMfMetadata) -> Seq<(Seq<char>, Seq<char>)> {
    entry_if_set("Title"@, text_of(metadata.title)) + entry_if_set("Designer"@, text_of(metadata.designer))
        + entry_if_set("Description"@, text_of(metadata.description))
}

/// `entries` are exactly the (name, value) pairs `expected`, each with a
/// value.
pub open spec fn entries_match(entries: Seq<Metadata>, expected: Seq<(Seq<char>, Seq<char>)>) -> bool {
    &&& entries.len() == expected.len()
    &&& forall|i: int|
        0 <= i < entries.len() ==> {
            &&& (#[trigger] entries[i]).name@ == expected[i].0
            &&& entries[i].value matches Some(v) && v@ == expected[i].1
        }
}

fn push_entry(entries: &mut Vec<Metadata>, name: &str, value: &Option<String>)
    ensures
        final(entries)@.len() == old(entries)@.len() + (if value is Some { 1int } else { 0 }),
        forall|i: int| 0 <= i < old(entries)@.len() ==> #[trigger] final(entries)@[i] == old(entries)@[i],
        value matches Some(v) ==> {
            &&& final(entries)@.last().name@ == name@
            &&& (final(entries)@.last().value matches Some(w) && w@ == v@)
        },
{
    if let Some(v) = value {
        entries.push(Metadata { name: String::from_str(name), value: Some(v.clone()) });
    }
}

impl ThreeMfMetadata {
    /// No metadata.
    pub fn new() -> (m: ThreeMfMetadata)
        ensures
            m.title is None,
            m.designer is None,
            m.description is None,
    {
        ThreeMfMetadata { title: None, designer: None, description: None }
    }

    /// The metadata entries of the model document: `Title`, `Designer`,
    /// then `Description`, each only when it is set.
    pub fn to_xml_entries(&self) -> (entries: Vec<Metadata>)
        ensures
            entries_match(entries@, metadata_entries(*self)),
    {
        let mut entries: Vec<Metadata> = Vec::new();
        push_entry(&mut entries, "Title", &self.title);
        let ghost after_title = entries@;
        push_entry(&mut entries, "Designer", &self.designer);
        let ghost after_designer = entries@;
        push_entry(&mut entries, "Description", &self.description);
        proof {
            let expected = metadata_entries(*self);
            let t = entry_if_set("Title"@, text_of(self.title));
            let d = entry_if_set("Designer"@, text_of(self.designer));
            let e = entry_if_set("Description"@, text_of(self.description));
            assert(after_title.len() == t.len());
            assert(after_designer.len() == t.len() + d.len());
            assert forall|i: int| 0 <= i < entries@.len() implies {
                &&& (#[trigger] entries@[i]).name@ == expected[i].0
                &&& entries@[i].value matches Some(v) && v@ == expected[i].1
            } by {
                if i < t.len() {
                    assert(entries@[i] == after_designer[i]);
                    assert(after_designer[i] == after_title[i]);
                    assert(expected[i] == t[i]);
                } else if i < t.len() + d.len() {
                    assert(entries@[i] == after_designer[i]);
                    assert(expected[i] == d[i - t.len()]);
                } else {
                    assert(expected[i] == e[i - t.len() - d.len()]);
                }
            }
        }
        entries
    }
}

impl Default for ThreeMfMetadata {
    fn default() -> (m: ThreeMfMetadata)
        ensures
            m.title is None,
            m.designer is None,
            m.description is None,
    {
        ThreeMfMetadata::new()
    }
}

/// Builder for a 3MF export of a model.
pub struct ThreeMfExport<'a, V> {
    model: &'a Model<V>,
    metadata: ThreeMfMetadata,
}

impl<'a, V> ThreeMfExport<'a, V> {
    /// The model being exported.
    pub closed spec fn exported(&self) -> Model<V> {
        *self.model
    }

    /// The metadata written with it.
    pub closed spec fn metadata(&self) -> ThreeMfMetadata {
        self.metadata
    }

    /// Start a 3MF export without metadata.
    pub fn new(model: &'a Model<V>) -> (e: ThreeMfExport<'a, V>)
        ensures
            e.exported() == *model,
            e.metadata().title is None,
            e.metadata().designer is None,
            e.metadata().description is None,
    {
        ThreeMfExport { model, metadata: ThreeMfMetadata::new() }
    }

    /// The model being exported.
    pub fn model(&self) -> (m: &'a Model<V>)
        ensures
            *m == self.exported(),
    {
        self.model
    }

    pub fn with_title(self, title: String) -> (e: ThreeMfExport<'a, V>)
        ensures
            e.exported() == self.exported(),
            e.metadata() == (ThreeMfMetadata { title: Some(title), ..self.metadata() }),
    {
        let mut e = self;
        e.metadata.title = Some(title);
        e
    }

    pub fn with_designer(self, designer: String) -> (e: ThreeMfExport<'a, V>)
        ensures
            e.exported() == self.exported(),
            e.metadata() == (ThreeMfMetadata { designer: Some(designer), ..self.metadata() }),
    {
        let mut e = self;
        e.metadata.designer = Some(designer);
        e
    }

    pub fn with_description(self, description: String) -> (e: ThreeMfExport<'a, V>)
        ensures
            e.exported() == self.exported(),
            e.metadata() == (ThreeMfMetadata { description: Some(description), ..self.metadata() }),
    {
        let mut e = self;
        e.metadata.description = Some(description);
        e
    }

    pub fn with_metadata(self, metadata: ThreeMfMetadata) -> (e: ThreeMfExport<'a, V>)
        ensures
            e.exported() == self.exported(),
            e.metadata() == metadata,
    {
        let mut e = self;
        e.metadata = metadata;
        e
    }
}

impl<'a, V: Copy> ThreeMfExport<'a, V> {
    /// The model document to write: the model with the metadata entries.
    pub fn document(&self) -> (doc: XmlModel<V>)
        requires
            self.exported().object_seq().len() + 2 <= usize::MAX,
        ensures
            exists|entries: Seq<Metadata>|
                entries_match(entries, metadata_entries(self.metadata())) && document_of(
                    self.exported().object_seq(),
                    entries,
                    doc,
                ),
    {
        let entries = self.metadata.to_xml_entries();
        let ghost entry_seq = entries@;
        let doc = to_document(self.model, entries);
        assert(entries_match(entry_seq, metadata_entries(self.metadata())) && document_of(
            self.exported().object_seq(),
            entry_seq,
            doc,
        ));
        doc
    }
}

} // verus!
