//! The errors of the three stages, each with the mathematical value it stands
//! for and the text it is reported with.

use vstd::prelude::*;
use vstd::string::StringExecFns;

verus! {

/// What a [`LineReaderError`] stands for.
pub enum LineErrorModel {
    InvalidCrlf(Seq<char>),
}

/// What a [`SectionReaderError`] stands for.
pub enum SectionErrorModel {
    InvalidSectionName(Seq<char>),
    InvalidQuotedValue(Seq<char>),
    InvalidContinuation(Seq<char>),
}

/// What a [`WinInfFileError`] stands for.
pub enum FileErrorModel {
    FileDoNotExist,
    FileOpenError(Seq<char>),
    FileReadError,
    ReadLineError(LineErrorModel),
    SectionParseError(SectionErrorModel),
}

/// Errors of line assembly.
#[derive(Debug, Clone, PartialEq, Eq)]
pub enum LineReaderError {
    /// A carriage return that no line feed follows.
    InvalidCrlf(String),
}

/// Errors of the section grammar.
#[derive(Debug, Clone, PartialEq, Eq)]
pub enum SectionReaderError {
    /// A section header whose name is malformed.
    InvalidSectionName(String),
    /// A quoted value without its closing quote.
    InvalidQuotedValue(String),
    /// Text after the closing quote that is neither a comment nor a
    /// continuation.
    InvalidContinuation(String),
}

/// Errors of reading an INF file, by the stage that failed.
#[derive(Debug, Clone, PartialEq, Eq)]
pub enum WinInfFileError {
    /// The file does not exist.
    FileDoNotExist,
    /// The file could not be opened; the cause, as text.
    FileOpenError(String),
    /// The file could not be read.
    FileReadError,
    /// Line assembly failed.
    ReadLineError(LineReaderError),
    /// The section grammar rejected a line.
    SectionParseError(SectionReaderError),
}

impl View for LineReaderError {
    type V = LineErrorModel;

    open spec fn view(&self) -> LineErrorModel {
        match self {
            LineReaderError::InvalidCrlf(s) => LineErrorModel::InvalidCrlf(s@),
        }
    }
}

impl View for SectionReaderError {
    type V = SectionErrorModel;

    open spec fn view(&self) -> SectionErrorModel {
        match self {
            SectionReaderError::InvalidSectionName(s) => SectionErrorModel::InvalidSectionName(s@),
            SectionReaderError::InvalidQuotedValue(s) => SectionErrorModel::InvalidQuotedValue(s@),
            SectionReaderError::InvalidContinuation(s) => SectionErrorModel::InvalidContinuation(
                s@,
            ),
        }
    }
}

impl View for WinInfFileError {
    type V = FileErrorModel;

    open spec fn view(&self) -> FileErrorModel {
        match self {
            WinInfFileError::FileDoNotExist => FileErrorModel::FileDoNotExist,
            WinInfFileError::FileOpenError(s) => FileErrorModel::FileOpenError(s@),
            WinInfFileError::FileReadError => FileErrorModel::FileReadError,
            WinInfFileError::ReadLineError(e) => FileErrorModel::ReadLineError(e@),
            WinInfFileError::SectionParseError(e) => FileErrorModel::SectionParseError(e@),
        }
    }
}

impl LineErrorModel {
    pub open spec fn message(self) -> Seq<char> {
        match self {
            LineErrorModel::InvalidCrlf(s) => "Invalid CRLF sequence: "@ + s,
        }
    }
}

impl SectionErrorModel {
    pub open spec fn message(self) -> Seq<char> {
        match self {
            SectionErrorModel::InvalidSectionName(s) => "Invalid section name: "@ + s,
            SectionErrorModel::InvalidQuotedValue(s) => "Invalid quoted value: "@ + s,
            SectionErrorModel::InvalidContinuation(s) => "Invalid continuation: "@ + s,
        }
    }
}

impl FileErrorModel {
    pub open spec fn message(self) -> Seq<char> {
        match self {
            FileErrorModel::FileDoNotExist => "File does not exist"@,
            FileErrorModel::FileOpenError(s) => "Failed to open file: "@ + s,
            FileErrorModel::FileReadError => "Failed to read file"@,
            FileErrorModel::ReadLineError(e) => "Failed to read line: "@ + e.message(),
            FileErrorModel::SectionParseError(e) => "Failed to parse section: "@ + e.message(),
        }
    }
}

impl LineReaderError {
    /// The text this error is reported with.
    pub fn message(&self) -> (out: String)
        ensures
            out@ == self@.message(),
    {
        match self {
            LineReaderError::InvalidCrlf(s) => "Invalid CRLF sequence: ".to_owned().concat(
                s.as_str(),
            ),
        }
    }
}

impl SectionReaderError {
    /// The text this error is reported with.
    pub fn message(&self) -> (out: String)
        ensures
            out@ == self@.message(),
    {
        match self {
            SectionReaderError::InvalidSectionName(s) => "Invalid section name: ".to_owned().concat(
                s.as_str(),
            ),
            SectionReaderError::InvalidQuotedValue(s) => "Invalid quoted value: ".to_owned().concat(
                s.as_str(),
            ),
            SectionReaderError::InvalidContinuation(s) => "Invalid continuation: ".to_owned().concat(
                s.as_str(),
            ),
        }
    }
}

impl WinInfFileError {
    /// The text this error is reported with.
    pub fn message(&self) -> (out: String)
        ensures
            out@ == self@.message(),
    {
        match self {
            WinInfFileError::FileDoNotExist => "File does not exist".to_owned(),
            WinInfFileError::FileOpenError(s) => "Failed to open file: ".to_owned().concat(
                s.as_str(),
            ),
            WinInfFileError::FileReadError => "Failed to read file".to_owned(),
            WinInfFileError::ReadLineError(e) => "Failed to read line: ".to_owned().concat(
                e.message().as_str(),
            ),
            WinInfFileError::SectionParseError(e) => "Failed to parse section: ".to_owned().concat(
                e.message().as_str(),
            ),
        }
    }
}

} // verus!
