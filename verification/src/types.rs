//! The data model: values, entries and sections, each with the mathematical
//! value it stands for.

use vstd::prelude::*;

verus! {

/// The character sequences held by a vector of strings.
pub open spec fn strings_view(v: Seq<String>) -> Seq<Seq<char>> {
    v.map_values(|s: String| s@)
}

/// What an [`InfValue`] stands for.
pub enum ValueModel {
    CommaSeparated(Seq<Seq<char>>),
    Raw(Seq<char>),
    List(Seq<Seq<char>>),
}

/// What an [`InfEntry`] stands for.
pub enum EntryModel {
    KeyValue(Seq<char>, Option<ValueModel>),
    OnlyValue(ValueModel),
}

/// What an [`InfSection`] stands for.
pub struct SectionModel {
    pub name: Seq<char>,
    pub entries: Seq<EntryModel>,
}

/// A value in an INF file.
///
/// The parser only produces `Raw`; the two list variants are reserved for a
/// finer-grained typing of values.
#[derive(Debug, Clone, PartialEq)]
pub enum InfValue {
    /// A comma-separated list of strings.
    CommaSeparated(Vec<String>),
    /// The text of the value, exactly as parsed.
    Raw(String),
    /// A list of strings.
    List(Vec<String>),
}

/// An entry of a section: a key with an optional value, or a value alone.
#[derive(Debug, Clone, PartialEq)]
pub enum InfEntry {
    /// A `key = value` directive.
    KeyValue(String, Option<InfValue>),
    /// A value on a line of its own.
    OnlyValue(InfValue),
}

/// A named section and its entries, in file order.
#[derive(Debug, Clone, PartialEq)]
pub struct InfSection {
    /// The section name, without the brackets.
    pub name: String,
    /// The entries, in the order in which they were read.
    pub entries: Vec<InfEntry>,
}

impl View for InfValue {
    type V = ValueModel;

    open spec fn view(&self) -> ValueModel {
        match self {
            InfValue::CommaSeparated(v) => ValueModel::CommaSeparated(strings_view(v@)),
            InfValue::Raw(s) => ValueModel::Raw(s@),
            InfValue::List(v) => ValueModel::List(strings_view(v@)),
        }
    }
}

impl View for InfEntry {
    type V = EntryModel;

    open spec fn view(&self) -> EntryModel {
        match self {
            InfEntry::KeyValue(k, v) => EntryModel::KeyValue(
                k@,
                match v {
                    Some(x) => Some(x@),
                    None => None,
                },
            ),
            InfEntry::OnlyValue(v) => EntryModel::OnlyValue(v@),
        }
    }
}

/// The entries that a vector of entries stands for.
pub open spec fn entries_view(v: Seq<InfEntry>) -> Seq<EntryModel> {
    v.map_values(|e: InfEntry| e@)
}

impl View for InfSection {
    type V = SectionModel;

    open spec fn view(&self) -> SectionModel {
        SectionModel { name: self.name@, entries: entries_view(self.entries@) }
    }
}

impl InfSection {
    /// A section with the given name and no entries.
    pub fn new(name: String) -> (out: InfSection)
        ensures
            out@ == (SectionModel { name: name@, entries: Seq::empty() }),
    {
        let out = InfSection { name, entries: Vec::new() };
        assert(entries_view(out.entries@) =~= Seq::empty());
        out
    }
}

} // verus!
