//! Streaming reader for Windows INF files: byte chunks are decoded to text,
//! text is assembled into logical lines, and lines are parsed into named
//! sections of ordered entries.

pub mod decoder;
pub mod errors;
pub mod inf_file;
pub mod line_reader;
pub mod reread;
pub mod section_name;
pub mod section_reader;
pub mod sections;
pub mod text;
pub mod types;
pub mod utf8_chunks;

pub use crate::decoder::{TextDecoder, TextEncoding};
pub use crate::errors::{LineReaderError, SectionReaderError, WinInfFileError};
pub use crate::inf_file::{WinInfFile, CHUNK_SIZE};
pub use crate::line_reader::LineReader;
pub use crate::section_name::validate_section_name;
pub use crate::section_reader::SectionReader;
pub use crate::sections::{InfFile, SectionMap};
pub use crate::types::{InfEntry, InfSection, InfValue};
