//! The driver: chunks of bytes go through the decoder, the line assembler
//! and the section grammar, and fill the sections of a [`WinInfFile`].

use crate::decoder::{
    after_decode, decoded_text, lemma_decode_split, new_decoder, DecoderModel, TextDecoder,
    TextEncoding,
};
use crate::errors::{FileErrorModel, LineErrorModel, SectionErrorModel, WinInfFileError};
use crate::line_reader::{
    carried, feed, finalized, lemma_feed_split, lone_cr_message, scan, LineReader, LinesModel,
};
use crate::section_reader::{step, ParseModel, ReaderModel, SectionReader};
use crate::sections::SectionMap;
use crate::types::strings_view;
use vstd::prelude::*;
use vstd::slice::slice_subrange;
use vstd::utf8::valid_utf8;

verus! {

/// The number of bytes that the driver hands to the decoder at a time.
pub const CHUNK_SIZE: usize = 1024;

/// A run of the grammar over some lines: the state it reached, and the
/// error that stopped it, if one did.
pub struct Run {
    pub state: ParseModel,
    pub error: Option<SectionErrorModel>,
}

/// Runs the grammar over `lines`, in order, up to the first line that it
/// rejects.
pub open spec fn run(s: ParseModel, lines: Seq<Seq<char>>) -> Run
    decreases lines.len(),
{
    if lines.len() == 0 {
        Run { state: s, error: None }
    } else {
        match step(s, lines[0]) {
            Ok(next) => run(next, lines.skip(1)),
            Err(e) => Run { state: s, error: Some(e) },
        }
    }
}

/// The line assembler and the grammar between two chunks of text.
pub struct StreamModel {
    pub lines: LinesModel,
    pub parse: ParseModel,
}

/// What reading some input leads to: the state reached, and the error that
/// stopped the reading, if one did.
pub struct Reading {
    pub state: StreamModel,
    pub error: Option<FileErrorModel>,
}

/// Takes the completed lines of `lines` and runs the grammar over them.
pub open spec fn drain(lines: LinesModel, parse: ParseModel) -> Reading {
    let r = run(parse, lines.lines);
    Reading {
        state: StreamModel {
            lines: LinesModel { lines: Seq::empty(), ..lines },
            parse: r.state,
        },
        error: match r.error {
            Some(e) => Some(FileErrorModel::SectionParseError(e)),
            None => None,
        },
    }
}

/// Reads a chunk of text: the text is assembled into lines, and the lines
/// completed so far go through the grammar. Text that the line assembler
/// rejects does not reach the grammar.
pub open spec fn feed_text(s: StreamModel, text: Seq<char>) -> Reading {
    let fed = feed(s.lines, text);
    if fed.ok {
        drain(fed.state, s.parse)
    } else {
        Reading {
            state: StreamModel { lines: fed.state, parse: s.parse },
            error: Some(
                FileErrorModel::ReadLineError(LineErrorModel::InvalidCrlf(lone_cr_message())),
            ),
        }
    }
}

/// Ends the stream: buffered text becomes a last line, and the lines not
/// yet read go through the grammar.
pub open spec fn finish_text(s: StreamModel) -> Reading {
    drain(LinesModel { lines: finalized(s.lines), ..s.lines }, s.parse)
}

/// Reads the bytes `bytes` to the end of the stream. They are handed to the
/// decoder in chunks of `CHUNK_SIZE` bytes; a shorter chunk is the last
/// one. If no chunk is shorter, an empty one ends the stream. The first
/// error ends the reading.
pub open spec fn drive(d: DecoderModel, s: StreamModel, bytes: Seq<u8>) -> Reading
    decreases bytes.len(),
{
    if bytes.len() == 0 {
        if d.finished {
            finish_text(s)
        } else {
            let r = feed_text(s, decoded_text(d, Seq::empty(), true));
            if r.error is Some {
                r
            } else {
                finish_text(r.state)
            }
        }
    } else {
        let n = if bytes.len() < CHUNK_SIZE {
            bytes.len() as int
        } else {
            CHUNK_SIZE as int
        };
        let chunk = bytes.take(n);
        let last = n != CHUNK_SIZE;
        let r = feed_text(s, decoded_text(d, chunk, last));
        if r.error is Some {
            r
        } else {
            drive(after_decode(d, chunk, last), r.state, bytes.skip(n))
        }
    }
}

/// What reading a whole stream leads to: the grammar state and document
/// reached, and the error that stopped the reading, if one did.
pub struct Parsed {
    pub state: ParseModel,
    pub error: Option<FileErrorModel>,
}

/// Reads `bytes` as one stream, from a new decoder and line assembler, into
/// the document and grammar state `start`.
pub open spec fn parsed(start: ParseModel, bytes: Seq<u8>) -> Parsed {
    let d = new_decoder();
    let s = StreamModel {
        lines: LinesModel { lines: Seq::empty(), remaining: Seq::empty(), pending_cr: false },
        parse: start,
    };
    let r = drive(d, s, bytes);
    Parsed { state: r.state.parse, error: r.error }
}

/// The result that reports `error`.
pub open spec fn reports(out: Result<(), WinInfFileError>, error: Option<FileErrorModel>) -> bool {
    match error {
        None => out is Ok,
        Some(e) => out is Err && out->Err_0@ == e,
    }
}

/// An INF file in memory: its sections, and the grammar state that filled
/// them.
#[derive(Debug, Clone, PartialEq)]
pub struct WinInfFile {
    /// The sections read so far.
    pub sections: SectionMap,
    /// The state of the section grammar.
    pub section_reader: SectionReader,
}

impl View for WinInfFile {
    type V = ParseModel;

    open spec fn view(&self) -> ParseModel {
        ParseModel { reader: self.section_reader@, doc: self.sections@ }
    }
}

impl WinInfFile {
    /// An empty file: no section is open and none is held.
    pub fn new() -> (out: WinInfFile)
        ensures
            out.sections.wf(),
            out@ == (ParseModel {
                reader: ReaderModel { section: None, pending: None },
                doc: Map::empty(),
            }),
    {
        WinInfFile { sections: SectionMap::new(), section_reader: SectionReader::new() }
    }

    /// Runs the grammar over `lines`, in order. The first line that the
    /// grammar rejects ends the run with its error; the lines before it have
    /// been read.
    pub fn parse_lines(&mut self, lines: Vec<String>) -> (out: Result<(), WinInfFileError>)
        ensures
            final(self)@ == run(old(self)@, strings_view(lines@)).state,
            match run(old(self)@, strings_view(lines@)).error {
                None => out is Ok,
                Some(e) => out is Err && out->Err_0@ == FileErrorModel::SectionParseError(e),
            },
            old(self).sections.wf() ==> final(self).sections.wf(),
    {
        let ghost all = strings_view(lines@);
        let mut i: usize = 0;
        assert(all.skip(0) == all);
        while i < lines.len()
            invariant
                i <= lines.len(),
                all == strings_view(lines@),
                old(self).sections.wf() ==> self.sections.wf(),
                run(old(self)@, all) == run(self@, all.skip(i as int)),
            decreases lines.len() - i,
        {
            assert(all.skip(i as int).skip(1) == all.skip(i + 1));
            assert(all.skip(i as int)[0] == lines[i as int]@);
            match self.section_reader.read_section(lines[i].clone(), &mut self.sections) {
                Ok(()) => {},
                Err(e) => {
                    return Err(WinInfFileError::SectionParseError(e));
                },
            }
            i += 1;
        }
        Ok(())
    }

    /// Reads a chunk of decoded text: `line_reader` assembles it into lines,
    /// and the lines completed so far go through the grammar.
    pub fn parse_text(&mut self, line_reader: &mut LineReader, text: &str) -> (out: Result<
        (),
        WinInfFileError,
    >)
        ensures
            ({
                let r = feed_text(
                    StreamModel { lines: old(line_reader)@, parse: old(self)@ },
                    text@,
                );
                &&& final(line_reader)@ == r.state.lines
                &&& final(self)@ == r.state.parse
                &&& reports(out, r.error)
            }),
            old(self).sections.wf() ==> final(self).sections.wf(),
    {
        match line_reader.read_to_line(text) {
            Ok(()) => {},
            Err(e) => {
                return Err(WinInfFileError::ReadLineError(e));
            },
        }
        let lines = line_reader.take_lines();
        self.parse_lines(lines)
    }

    /// Reads a chunk of bytes: `decoder` turns it into text, which is read
    /// as by [`WinInfFile::parse_text`]. `last` says that this chunk ends
    /// the stream.
    pub fn parse_chunk(
        &mut self,
        decoder: &mut TextDecoder,
        line_reader: &mut LineReader,
        bytes: &[u8],
        last: bool,
    ) -> (out: Result<(), WinInfFileError>)
        requires
            old(decoder).wf(),
            !old(decoder)@.finished,
            bytes.len() + 4 <= usize::MAX,
        ensures
            final(decoder).wf(),
            final(decoder)@ == after_decode(old(decoder)@, bytes@, last),
            ({
                let r = feed_text(
                    StreamModel { lines: old(line_reader)@, parse: old(self)@ },
                    decoded_text(old(decoder)@, bytes@, last),
                );
                &&& final(line_reader)@ == r.state.lines
                &&& final(self)@ == r.state.parse
                &&& reports(out, r.error)
            }),
            old(self).sections.wf() ==> final(self).sections.wf(),
    {
        let text = decoder.decode(bytes, last);
        self.parse_text(line_reader, text.as_str())
    }

    /// Ends the stream: text that `line_reader` still buffers becomes a last
    /// line, and the lines not yet read go through the grammar.
    pub fn finish(&mut self, line_reader: &mut LineReader) -> (out: Result<(), WinInfFileError>)
        ensures
            ({
                let r = finish_text(StreamModel { lines: old(line_reader)@, parse: old(self)@ });
                &&& final(line_reader)@ == r.state.lines
                &&& final(self)@ == r.state.parse
                &&& reports(out, r.error)
            }),
            old(self).sections.wf() ==> final(self).sections.wf(),
    {
        line_reader.finalize();
        let lines = line_reader.take_lines();
        self.parse_lines(lines)
    }

    /// Reads `bytes` as one stream, from its first chunk to its end.
    pub fn parse_bytes(&mut self, bytes: &[u8]) -> (out: Result<(), WinInfFileError>)
        ensures
            final(self)@ == parsed(old(self)@, bytes@).state,
            reports(out, parsed(old(self)@, bytes@).error),
            old(self).sections.wf() ==> final(self).sections.wf(),
    {
        let mut decoder = TextDecoder::new();
        let mut line_reader = LineReader::new();
        let ghost d0 = decoder@;
        let ghost s0 = StreamModel { lines: line_reader@, parse: self@ };
        let mut offset: usize = 0;
        assert(bytes@.skip(0) == bytes@);
        while offset < bytes.len()
            invariant
                offset <= bytes.len(),
                d0 == new_decoder(),
                s0 == (StreamModel {
                    lines: LinesModel {
                        lines: Seq::empty(),
                        remaining: Seq::empty(),
                        pending_cr: false,
                    },
                    parse: old(self)@,
                }),
                decoder.wf(),
                old(self).sections.wf() ==> self.sections.wf(),
                decoder@.finished ==> offset == bytes.len(),
                drive(d0, s0, bytes@) == drive(
                    decoder@,
                    StreamModel { lines: line_reader@, parse: self@ },
                    bytes@.skip(offset as int),
                ),
            decreases bytes.len() - offset,
        {
            let left = bytes.len() - offset;
            let n = if left < CHUNK_SIZE {
                left
            } else {
                CHUNK_SIZE
            };
            let chunk = slice_subrange(bytes, offset, offset + n);
            proof {
                let rest = bytes@.skip(offset as int);
                assert(chunk@ == rest.take(n as int));
                assert(rest.skip(n as int) == bytes@.skip(offset + n));
            }
            match self.parse_chunk(&mut decoder, &mut line_reader, chunk, n != CHUNK_SIZE) {
                Ok(()) => {},
                Err(e) => {
                    return Err(e);
                },
            }
            offset += n;
        }
        assert(bytes@.skip(offset as int).len() == 0);
        if !decoder.is_finished() {
            let end = slice_subrange(bytes, offset, offset);
            assert(end@ == Seq::<u8>::empty());
            match self.parse_chunk(&mut decoder, &mut line_reader, end, true) {
                Ok(()) => {},
                Err(e) => {
                    return Err(e);
                },
            }
        }
        self.finish(&mut line_reader)
    }
}

/// The grammar can stop between two lines and go on: a run over two lists
/// of lines is the run over the first, followed, if no line was rejected, by
/// the run over the second.
pub proof fn lemma_run_concat(s: ParseModel, first: Seq<Seq<char>>, second: Seq<Seq<char>>)
    ensures
        run(s, first + second) == if run(s, first).error is None {
            run(run(s, first).state, second)
        } else {
            run(s, first)
        },
    decreases first.len(),
{
    if first.len() == 0 {
        assert(first + second == second);
    } else {
        assert((first + second)[0] == first[0]);
        assert((first + second).skip(1) == first.skip(1) + second);
        match step(s, first[0]) {
            Ok(next) => {
                lemma_run_concat(next, first.skip(1), second);
            },
            Err(_) => {},
        }
    }
}

/// Chunk boundaries do not matter to what is read: a text fed as two chunks
/// is read without error exactly when the whole text is, and then leads to
/// the same document, grammar state and buffered text.
pub proof fn lemma_feed_text_split(s: StreamModel, a: Seq<char>, b: Seq<char>)
    ensures
        feed_text(s, a + b).error is None <==> feed_text(s, a).error is None && feed_text(
            feed_text(s, a).state,
            b,
        ).error is None,
        feed_text(s, a + b).error is None ==> feed_text(s, a + b) == feed_text(
            feed_text(s, a).state,
            b,
        ),
{
    lemma_feed_split(s.lines, a, b);
    let first = feed(s.lines, a);
    if first.ok {
        let mid = first.state;
        let taken = LinesModel { lines: Seq::empty(), ..mid };
        assert(carried(taken) + b == carried(mid) + b);
        if feed(mid, b).ok {
            let l2 = scan(carried(mid) + b).lines;
            assert(feed(mid, b).state.lines == mid.lines + l2);
            lemma_run_concat(s.parse, mid.lines, l2);
            assert(Seq::<Seq<char>>::empty() + l2 == l2);
        }
    }
}

/// Reads the chunks of text `chunks`, one after the other, up to the first
/// error.
pub open spec fn feed_chunks(s: StreamModel, chunks: Seq<Seq<char>>) -> Reading
    decreases chunks.len(),
{
    if chunks.len() == 0 {
        Reading { state: s, error: None }
    } else {
        let r = feed_chunks(s, chunks.drop_last());
        if r.error is Some {
            r
        } else {
            feed_text(r.state, chunks.last())
        }
    }
}

/// Chunk boundaries do not matter, however many there are: a text fed in
/// chunks is read without error exactly when the whole text is, and then
/// with the same result.
pub proof fn lemma_chunks_as_whole(s: StreamModel, chunks: Seq<Seq<char>>)
    requires
        chunks.len() > 0,
    ensures
        feed_text(s, chunks.flatten()).error is None <==> feed_chunks(s, chunks).error is None,
        feed_text(s, chunks.flatten()).error is None ==> feed_text(s, chunks.flatten())
            == feed_chunks(s, chunks),
    decreases chunks.len(),
{
    let init = chunks.drop_last();
    let last = chunks.last();
    assert(chunks == init.push(last));
    init.lemma_flatten_push(last);
    assert(chunks.flatten() == init.flatten() + last);
    if init.len() == 0 {
        assert(init.flatten() =~= Seq::<char>::empty());
        assert(chunks.flatten() == last);
        assert(feed_chunks(s, init) == (Reading { state: s, error: None }));
        assert(feed_chunks(s, chunks) == feed_text(s, last));
    } else {
        lemma_chunks_as_whole(s, init);
        lemma_feed_text_split(s, init.flatten(), last);
    }
}

/// Two ways of cutting one text into chunks lead to the same result.
pub proof fn lemma_chunking_is_irrelevant(
    s: StreamModel,
    first: Seq<Seq<char>>,
    second: Seq<Seq<char>>,
)
    requires
        first.len() > 0,
        second.len() > 0,
        first.flatten() == second.flatten(),
    ensures
        feed_chunks(s, first).error is None <==> feed_chunks(s, second).error is None,
        feed_chunks(s, first).error is None ==> feed_chunks(s, first) == feed_chunks(s, second),
{
    lemma_chunks_as_whole(s, first);
    lemma_chunks_as_whole(s, second);
}

/// A stream of valid UTF-8 can be cut into chunks anywhere, also inside a
/// character: two chunks, one after the other, are decoded and read as the
/// two are as one chunk. `rest` is what the stream holds behind them.
pub proof fn lemma_utf8_chunk_split(
    d: DecoderModel,
    s: StreamModel,
    a: Seq<u8>,
    b: Seq<u8>,
    last: bool,
    rest: Seq<u8>,
)
    requires
        d.encoding != Some(TextEncoding::Utf16Le),
        valid_utf8(d.pending + a + b + rest),
        last ==> rest.len() == 0,
    ensures
        after_decode(d, a + b, last) == after_decode(after_decode(d, a, false), b, last),
        after_decode(d, a, false).encoding == Some(TextEncoding::Utf8),
        valid_utf8(after_decode(d, a, false).pending + b + rest),
        decoded_text(d, a + b, last) == decoded_text(d, a, false) + decoded_text(
            after_decode(d, a, false),
            b,
            last,
        ),
        ({
            let whole = feed_text(s, decoded_text(d, a + b, last));
            let first = feed_text(s, decoded_text(d, a, false));
            let second = feed_text(first.state, decoded_text(after_decode(d, a, false), b, last));
            &&& whole.error is None <==> first.error is None && second.error is None
            &&& whole.error is None ==> whole == second
        }),
{
    lemma_decode_split(d, a, b, last, rest);
    lemma_feed_text_split(
        s,
        decoded_text(d, a, false),
        decoded_text(after_decode(d, a, false), b, last),
    );
}

/// Reads the chunks of bytes `chunks`, one after the other, up to the first
/// error; the last of them ends the stream.
pub open spec fn feed_byte_chunks(d: DecoderModel, s: StreamModel, chunks: Seq<Seq<u8>>) -> Reading
    decreases chunks.len(),
{
    if chunks.len() == 0 {
        Reading { state: s, error: None }
    } else {
        let last = chunks.len() == 1;
        let r = feed_text(s, decoded_text(d, chunks[0], last));
        if r.error is Some || last {
            r
        } else {
            feed_byte_chunks(after_decode(d, chunks[0], false), r.state, chunks.skip(1))
        }
    }
}

/// A stream of valid UTF-8 is read in chunks as it is read in one piece,
/// however it is cut: without error exactly when the whole is, and then
/// with the same result.
pub proof fn lemma_utf8_chunks_as_whole(d: DecoderModel, s: StreamModel, chunks: Seq<Seq<u8>>)
    requires
        chunks.len() > 0,
        d.encoding != Some(TextEncoding::Utf16Le),
        valid_utf8(d.pending + chunks.flatten()),
    ensures
        ({
            let whole = feed_text(s, decoded_text(d, chunks.flatten(), true));
            let cut = feed_byte_chunks(d, s, chunks);
            &&& whole.error is None <==> cut.error is None
            &&& whole.error is None ==> whole == cut
        }),
    decreases chunks.len(),
{
    let a = chunks[0];
    let tail = chunks.skip(1);
    assert(chunks.drop_first() == tail);
    assert(chunks.flatten() == a + tail.flatten());
    if chunks.len() == 1 {
        assert(tail.flatten() =~= Seq::<u8>::empty());
        assert(chunks.flatten() == a);
    } else {
        let b = tail.flatten();
        assert(d.pending + (a + b) == d.pending + a + b + Seq::<u8>::empty());
        lemma_utf8_chunk_split(d, s, a, b, true, Seq::empty());
        let d1 = after_decode(d, a, false);
        let first = feed_text(s, decoded_text(d, a, false));
        assert(d1.pending + b + Seq::<u8>::empty() == d1.pending + b);
        lemma_utf8_chunks_as_whole(d1, first.state, tail);
    }
}

/// Two ways of cutting one stream of valid UTF-8 into chunks lead to the
/// same result.
pub proof fn lemma_utf8_chunking_is_irrelevant(
    d: DecoderModel,
    s: StreamModel,
    first: Seq<Seq<u8>>,
    second: Seq<Seq<u8>>,
)
    requires
        first.len() > 0,
        second.len() > 0,
        first.flatten() == second.flatten(),
        d.encoding != Some(TextEncoding::Utf16Le),
        valid_utf8(d.pending + first.flatten()),
    ensures
        feed_byte_chunks(d, s, first).error is None <==> feed_byte_chunks(d, s, second).error
            is None,
        feed_byte_chunks(d, s, first).error is None ==> feed_byte_chunks(d, s, first)
            == feed_byte_chunks(d, s, second),
{
    lemma_utf8_chunks_as_whole(d, s, first);
    lemma_utf8_chunks_as_whole(d, s, second);
}

/// Reads `bytes` as one chunk that ends the stream, and ends the stream.
pub open spec fn read_whole(d: DecoderModel, s: StreamModel, bytes: Seq<u8>) -> Reading {
    let r = feed_text(s, decoded_text(d, bytes, true));
    if r.error is Some {
        r
    } else {
        finish_text(r.state)
    }
}

/// The chunks that the driver cuts a stream of valid UTF-8 into do not
/// matter: the stream is read as it would be in one piece.
pub proof fn lemma_drive_as_whole(d: DecoderModel, s: StreamModel, bytes: Seq<u8>)
    requires
        !d.finished,
        d.encoding != Some(TextEncoding::Utf16Le),
        valid_utf8(d.pending + bytes),
    ensures
        drive(d, s, bytes).error is None <==> read_whole(d, s, bytes).error is None,
        drive(d, s, bytes).error is None ==> drive(d, s, bytes) == read_whole(d, s, bytes),
    decreases bytes.len(),
{
    if bytes.len() == 0 {
        assert(bytes == Seq::<u8>::empty());
    } else {
        let n = if bytes.len() < CHUNK_SIZE {
            bytes.len() as int
        } else {
            CHUNK_SIZE as int
        };
        let chunk = bytes.take(n);
        let rest = bytes.skip(n);
        let last = n != CHUNK_SIZE;
        assert(bytes == chunk + rest);
        if last {
            assert(rest == Seq::<u8>::empty());
            assert(chunk == bytes);
            let r = feed_text(s, decoded_text(d, chunk, true));
            assert(after_decode(d, chunk, true).finished);
            assert(drive(after_decode(d, chunk, true), r.state, rest) == finish_text(r.state));
        } else {
            assert(d.pending + (chunk + rest) == d.pending + chunk + rest + Seq::<u8>::empty());
            lemma_utf8_chunk_split(d, s, chunk, rest, true, Seq::empty());
            let d1 = after_decode(d, chunk, false);
            let first = feed_text(s, decoded_text(d, chunk, false));
            assert(d1.pending + rest + Seq::<u8>::empty() == d1.pending + rest);
            lemma_drive_as_whole(d1, first.state, rest);
        }
    }
}

/// A file of valid UTF-8 is read by the driver, in its chunks, as it would
/// be read in one piece.
pub proof fn lemma_parsed_in_one_piece(start: ParseModel, bytes: Seq<u8>)
    requires
        valid_utf8(bytes),
    ensures
        ({
            let s = StreamModel {
                lines: LinesModel {
                    lines: Seq::empty(),
                    remaining: Seq::empty(),
                    pending_cr: false,
                },
                parse: start,
            };
            let whole = read_whole(new_decoder(), s, bytes);
            &&& parsed(start, bytes).error is None <==> whole.error is None
            &&& whole.error is None ==> parsed(start, bytes) == (Parsed {
                state: whole.state.parse,
                error: None,
            })
        }),
{
    let s = StreamModel {
        lines: LinesModel { lines: Seq::empty(), remaining: Seq::empty(), pending_cr: false },
        parse: start,
    };
    assert(new_decoder().pending + bytes == bytes);
    lemma_drive_as_whole(new_decoder(), s, bytes);
}

/// Reading is a function of the bytes read: the same bytes, read twice from
/// the same start, lead to the same document, or are rejected with the
/// same error.
pub proof fn lemma_reading_repeats(start: ParseModel, bytes: Seq<u8>, again: Seq<u8>)
    requires
        bytes == again,
    ensures
        parsed(start, bytes) == parsed(start, again),
{
}

impl Default for WinInfFile {
    fn default() -> (out: WinInfFile)
        ensures
            out.sections.wf(),
            out@ == (ParseModel {
                reader: ReaderModel { section: None, pending: None },
                doc: Map::empty(),
            }),
    {
        WinInfFile::new()
    }
}

} // verus!
