//! The section grammar: a state machine that takes one logical line at a
//! time and fills the document.

use crate::errors::{SectionErrorModel, SectionReaderError};
use crate::section_name::{defect_message, section_name_defect, validate_section_name};
use crate::sections::SectionMap;
use crate::text::{
    ends_with, find_char, from_chars, position, starts_with, strip_trailing,
    strip_trailing_chars, to_chars, trim, trim_chars,
};
use crate::types::{EntryModel, InfEntry, InfSection, InfValue, ValueModel};
use vstd::prelude::*;
use vstd::slice::slice_subrange;
use vstd::string::StringExecFns;

verus! {

/// The document as a mathematical value: section name to entries.
pub type DocModel = Map<Seq<char>, Seq<EntryModel>>;

/// The state of the grammar between two lines.
pub struct ReaderModel {
    /// The name of the open section; `None` before the first header.
    pub section: Option<Seq<char>>,
    /// The key and the partial value of an entry that awaits its
    /// continuation line.
    pub pending: Option<(Seq<char>, Seq<char>)>,
}

/// The grammar state together with the document it fills.
pub struct ParseModel {
    pub reader: ReaderModel,
    pub doc: DocModel,
}

/// What an entry line, read in an open section, asks for.
pub enum Outcome {
    /// Append the entry to the open section and clear the continuation.
    Commit(EntryModel),
    /// Keep key and partial value until the next bare line.
    Defer(Seq<char>, Seq<char>),
    /// Clear the continuation and append nothing.
    Discard,
    /// Abort the parse.
    Fail(SectionErrorModel),
}

pub open spec fn is_comment(l: Seq<char>) -> bool {
    starts_with(l, ';')
}

pub open spec fn is_header(l: Seq<char>) -> bool {
    starts_with(l, '[') && ends_with(l, ']')
}

/// The text between the brackets of a header line.
pub open spec fn header_name(l: Seq<char>) -> Seq<char> {
    l.subrange(1, l.len() - 1)
}

pub open spec fn raw_entry(key: Seq<char>, value: Seq<char>) -> EntryModel {
    EntryModel::KeyValue(key, Some(ValueModel::Raw(value)))
}

pub open spec fn missing_quote_message(key: Seq<char>, section: Seq<char>) -> Seq<char> {
    "no ending double quote found, key: "@ + key + ", section: "@ + section
}

pub open spec fn bad_continuation_message(
    value: Seq<char>,
    key: Seq<char>,
    section: Seq<char>,
) -> Seq<char> {
    "Invalid INF entry value: "@ + value
        + ", no continuation char found after ending double quote, key: "@ + key
        + ", section_name: "@ + section
}

/// A value that opens with a double quote. The value proper is the text up
/// to the next double quote. After that quote may stand nothing or a
/// comment, or a lone backslash, which defers the entry.
pub open spec fn quoted_outcome(value: Seq<char>, key: Seq<char>, section: Seq<char>) -> Outcome {
    let body = value.skip(1);
    let q = position(body, '"');
    if q == body.len() {
        Outcome::Fail(SectionErrorModel::InvalidQuotedValue(missing_quote_message(key, section)))
    } else {
        let inner = body.take(q);
        let rest = body.skip(q + 1);
        if rest.len() == 0 || rest[0] == ';' {
            Outcome::Commit(raw_entry(key, inner))
        } else if rest.len() == 1 && rest[0] == '\\' {
            Outcome::Defer(key, inner)
        } else {
            Outcome::Fail(
                SectionErrorModel::InvalidContinuation(
                    bad_continuation_message(value, key, section),
                ),
            )
        }
    }
}

/// An unquoted value without its trailing comment.
pub open spec fn without_comment(value: Seq<char>) -> Seq<char> {
    if position(value, ';') < value.len() {
        trim(value.take(position(value, ';')))
    } else {
        value
    }
}

/// A value that does not open with a double quote. A trailing comment is
/// cut off. A trailing run of backslashes defers the entry with what stands
/// before the run, or discards it if nothing does.
pub open spec fn unquoted_outcome(value: Seq<char>, key: Seq<char>) -> Outcome {
    let v = without_comment(value);
    if ends_with(v, '\\') {
        let prefix = strip_trailing(v, '\\');
        if prefix.len() > 0 {
            Outcome::Defer(key, prefix)
        } else {
            Outcome::Discard
        }
    } else {
        Outcome::Commit(raw_entry(key, v))
    }
}

/// What the trimmed line `l`, which is neither comment nor header, asks for
/// in the section `section` with the continuation `pending`.
pub open spec fn entry_outcome(
    l: Seq<char>,
    section: Seq<char>,
    pending: Option<(Seq<char>, Seq<char>)>,
) -> Outcome {
    let p = position(l, '=');
    if p < l.len() {
        let key = trim(l.take(p));
        let value = trim(l.skip(p + 1));
        if starts_with(value, '"') {
            quoted_outcome(value, key, section)
        } else {
            unquoted_outcome(value, key)
        }
    } else {
        match pending {
            Some((key, partial)) => Outcome::Commit(raw_entry(key, partial + l)),
            None => Outcome::Commit(EntryModel::OnlyValue(ValueModel::Raw(l))),
        }
    }
}

/// `doc` with `entry` appended to the section `name`; a document without
/// that section stays as it is.
pub open spec fn commit(doc: DocModel, name: Seq<char>, entry: EntryModel) -> DocModel {
    if doc.contains_key(name) {
        doc.insert(name, doc[name].push(entry))
    } else {
        doc
    }
}

/// One transition of the grammar on the line `line`.
pub open spec fn step(s: ParseModel, line: Seq<char>) -> Result<ParseModel, SectionErrorModel> {
    let l = trim(line);
    if is_comment(l) {
        Ok(s)
    } else if is_header(l) {
        let name = header_name(l);
        match section_name_defect(name) {
            Some(d) => Err(SectionErrorModel::InvalidSectionName(defect_message(d))),
            None => Ok(
                ParseModel {
                    reader: ReaderModel { section: Some(name), pending: None },
                    doc: s.doc.insert(name, Seq::empty()),
                },
            ),
        }
    } else {
        match s.reader.section {
            None => Ok(s),
            Some(section) => match entry_outcome(l, section, s.reader.pending) {
                Outcome::Commit(entry) => Ok(
                    ParseModel {
                        reader: ReaderModel { section: Some(section), pending: None },
                        doc: commit(s.doc, section, entry),
                    },
                ),
                Outcome::Defer(key, partial) => Ok(
                    ParseModel {
                        reader: ReaderModel {
                            section: Some(section),
                            pending: Some((key, partial)),
                        },
                        doc: s.doc,
                    },
                ),
                Outcome::Discard => Ok(
                    ParseModel {
                        reader: ReaderModel { section: Some(section), pending: None },
                        doc: s.doc,
                    },
                ),
                Outcome::Fail(e) => Err(e),
            },
        }
    }
}

/// The section grammar's state: the open section and the entry that awaits
/// a continuation line.
#[derive(Debug, Clone, PartialEq)]
pub struct SectionReader {
    section: Option<String>,
    pending: Option<(String, String)>,
}

impl View for SectionReader {
    type V = ReaderModel;

    closed spec fn view(&self) -> ReaderModel {
        ReaderModel {
            section: match self.section {
                Some(s) => Some(s@),
                None => None,
            },
            pending: match self.pending {
                Some((k, v)) => Some((k@, v@)),
                None => None,
            },
        }
    }
}

/// What an entry line asks for, as executable data.
enum Action {
    Commit(InfEntry),
    Defer(String, String),
    Discard,
    Fail(SectionReaderError),
}

impl Action {
    spec fn model(self) -> Outcome {
        match self {
            Action::Commit(e) => Outcome::Commit(e@),
            Action::Defer(k, v) => Outcome::Defer(k@, v@),
            Action::Discard => Outcome::Discard,
            Action::Fail(e) => Outcome::Fail(e@),
        }
    }
}

fn raw_key_value(key: &[char], value: &[char]) -> (out: InfEntry)
    ensures
        out@ == raw_entry(key@, value@),
{
    InfEntry::KeyValue(from_chars(key), Some(InfValue::Raw(from_chars(value))))
}

fn read_quoted(value: &[char], key: &[char], section: &String) -> (out: Action)
    requires
        starts_with(value@, '"'),
    ensures
        out.model() == quoted_outcome(value@, key@, section@),
{
    let n = value.len();
    let body = slice_subrange(value, 1, n);
    assert(body@ == value@.skip(1));
    match find_char(body, '"') {
        None => {
            let text = "no ending double quote found, key: ".to_owned().concat(
                from_chars(key).as_str(),
            ).concat(", section: ").concat(section.as_str());
            Action::Fail(SectionReaderError::InvalidQuotedValue(text))
        },
        Some(q) => {
            let inner = slice_subrange(body, 0, q);
            let rest = slice_subrange(body, q + 1, body.len());
            assert(inner@ == body@.take(q as int));
            assert(rest@ == body@.skip(q + 1));
            if rest.len() == 0 || rest[0] == ';' {
                Action::Commit(raw_key_value(key, inner))
            } else if rest.len() == 1 && rest[0] == '\\' {
                Action::Defer(from_chars(key), from_chars(inner))
            } else {
                let text = "Invalid INF entry value: ".to_owned().concat(
                    from_chars(value).as_str(),
                ).concat(
                    ", no continuation char found after ending double quote, key: ",
                ).concat(from_chars(key).as_str()).concat(", section_name: ").concat(
                    section.as_str(),
                );
                Action::Fail(SectionReaderError::InvalidContinuation(text))
            }
        },
    }
}

fn read_unquoted(value: &[char], key: &[char]) -> (out: Action)
    ensures
        out.model() == unquoted_outcome(value@, key@),
{
    let v = match find_char(value, ';') {
        Some(i) => {
            let head = slice_subrange(value, 0, i);
            assert(head@ == value@.take(i as int));
            trim_chars(head)
        },
        None => value,
    };
    assert(v@ == without_comment(value@));
    if v.len() > 0 && v[v.len() - 1] == '\\' {
        let prefix = strip_trailing_chars(v, '\\');
        if prefix.len() > 0 {
            Action::Defer(from_chars(key), from_chars(prefix))
        } else {
            Action::Discard
        }
    } else {
        Action::Commit(raw_key_value(key, v))
    }
}

impl SectionReader {
    /// The reader before any line: no section is open.
    pub fn new() -> (out: SectionReader)
        ensures
            out@ == (ReaderModel { section: None, pending: None }),
    {
        SectionReader { section: None, pending: None }
    }

    fn read_entry(&self, l: &[char], section: &String) -> (out: Action)
        ensures
            out.model() == entry_outcome(l@, section@, self@.pending),
    {
        match find_char(l, '=') {
            Some(p) => {
                let head = slice_subrange(l, 0, p);
                let tail = slice_subrange(l, p + 1, l.len());
                assert(head@ == l@.take(p as int));
                assert(tail@ == l@.skip(p + 1));
                let key = trim_chars(head);
                let value = trim_chars(tail);
                if value.len() > 0 && value[0] == '"' {
                    read_quoted(value, key, section)
                } else {
                    read_unquoted(value, key)
                }
            },
            None => {
                let text = from_chars(l);
                match &self.pending {
                    Some((key, partial)) => {
                        let joined = partial.clone().concat(text.as_str());
                        Action::Commit(InfEntry::KeyValue(key.clone(), Some(InfValue::Raw(joined))))
                    },
                    None => Action::Commit(InfEntry::OnlyValue(InfValue::Raw(text))),
                }
            },
        }
    }

    /// Reads one logical line.
    ///
    /// The line is trimmed first. A comment changes nothing. A header with a
    /// valid name opens a fresh, empty section under that name and clears
    /// the continuation. Any other line is an entry of the open section, and
    /// is ignored while none is open. On an error neither the reader nor the
    /// document changes.
    pub fn read_section(&mut self, line: String, sections: &mut SectionMap) -> (out: Result<
        (),
        SectionReaderError,
    >)
        ensures
            match step(ParseModel { reader: old(self)@, doc: old(sections)@ }, line@) {
                Ok(next) => out is Ok && final(self)@ == next.reader && final(sections)@
                    == next.doc,
                Err(e) => out is Err && out->Err_0@ == e && final(self)@ == old(self)@
                    && final(sections)@ == old(sections)@,
            },
            old(sections).wf() ==> final(sections).wf(),
    {
        let chars = to_chars(line.as_str());
        let l = trim_chars(chars.as_slice());
        let n = l.len();
        if n > 0 && l[0] == ';' {
            return Ok(());
        }
        if n > 0 && l[0] == '[' && l[n - 1] == ']' {
            let name = from_chars(slice_subrange(l, 1, n - 1));
            match validate_section_name(name.clone()) {
                Err(reason) => {
                    return Err(SectionReaderError::InvalidSectionName(reason.to_owned()));
                },
                Ok(()) => {},
            }
            sections.insert(InfSection::new(name.clone()));
            self.section = Some(name);
            self.pending = None;
            return Ok(());
        }
        let section = match &self.section {
            None => {
                return Ok(());
            },
            Some(s) => s.clone(),
        };
        match self.read_entry(l, &section) {
            Action::Commit(entry) => {
                sections.push_entry(section.as_str(), entry);
                self.pending = None;
                Ok(())
            },
            Action::Defer(key, partial) => {
                self.pending = Some((key, partial));
                Ok(())
            },
            Action::Discard => {
                self.pending = None;
                Ok(())
            },
            Action::Fail(e) => Err(e),
        }
    }

    /// The name of the open section; empty while none is open.
    pub fn last_section_name(&self) -> (out: String)
        ensures
            out@ == match self@.section {
                Some(s) => s,
                None => Seq::empty(),
            },
    {
        match &self.section {
            Some(s) => s.clone(),
            None => String::new(),
        }
    }

    /// The key of the entry that awaits its continuation; empty if none does.
    pub fn last_entry_key(&self) -> (out: String)
        ensures
            out@ == match self@.pending {
                Some(p) => p.0,
                None => Seq::empty(),
            },
    {
        match &self.pending {
            Some((k, _)) => k.clone(),
            None => String::new(),
        }
    }

    /// The partial value of the entry that awaits its continuation; empty if
    /// none does.
    pub fn last_entry_value_contd(&self) -> (out: String)
        ensures
            out@ == match self@.pending {
                Some(p) => p.1,
                None => Seq::empty(),
            },
    {
        match &self.pending {
            Some((_, v)) => v.clone(),
            None => String::new(),
        }
    }
}

impl Default for SectionReader {
    fn default() -> (out: SectionReader)
        ensures
            out@ == (ReaderModel { section: None, pending: None }),
    {
        SectionReader::new()
    }
}

} // verus!
