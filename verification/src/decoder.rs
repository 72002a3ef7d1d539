//! Byte chunks to text. The encoding is fixed by the first chunk: UTF-16LE
//! if it opens with that encoding's byte-order mark, UTF-8 otherwise. A
//! character whose bytes are spread over two chunks is decoded once all of
//! its bytes are there.

use crate::utf8_chunks::{
    complete_part, incomplete_len_of, incomplete_part, lemma_cut_chunks, lemma_no_ff,
};
use vstd::prelude::*;
use vstd::slice::slice_subrange;
use vstd::utf8::{decode_utf8, valid_utf8};

verus! {

/// The streaming decoder of `encoding_rs`, as an opaque value.
#[verifier::external_type_specification]
#[verifier::external_body]
pub struct ExStreamDecoder(encoding_rs::Decoder);

/// The calls that a streaming decoder has served since it was made: the
/// bytes of each chunk, and whether the chunk was given as the last one.
pub uninterp spec fn decoder_fed(d: encoding_rs::Decoder) -> Seq<(Seq<u8>, bool)>;

/// The UTF-16 code units that a decoder made by
/// `encoding_rs::UTF_16LE.new_decoder()` writes for the chunk `src`, given
/// as the last one or not, after it has served the calls `fed`.
pub uninterp spec fn utf16le_units(fed: Seq<(Seq<u8>, bool)>, src: Seq<u8>, last: bool) -> Seq<
    u16,
>;

/// The text that `String::from_utf16_lossy` makes of `units`.
pub uninterp spec fn utf16_lossy(units: Seq<u16>) -> Seq<char>;

/// The text that `String::from_utf8_lossy` makes of `bytes`.
pub uninterp spec fn utf8_lossy(bytes: Seq<u8>) -> Seq<char>;

/// The text of `bytes` read as UTF-8: the characters they encode if they are
/// valid UTF-8, and otherwise what the lossy conversion makes of them.
pub open spec fn utf8_text(bytes: Seq<u8>) -> Seq<char> {
    if valid_utf8(bytes) {
        decode_utf8(bytes)
    } else {
        utf8_lossy(bytes)
    }
}

/// A decoder has ended once a chunk was given to it as the last one.
pub open spec fn ended(fed: Seq<(Seq<u8>, bool)>) -> bool {
    fed.len() > 0 && fed.last().1
}

/// `encoding_rs::UTF_16LE.new_decoder()`: a new streaming decoder for
/// UTF-16LE, which removes a byte-order mark. It has served no call yet.
#[verifier::external_body]
fn new_utf16le_decoder() -> (d: encoding_rs::Decoder)
    ensures
        decoder_fed(d) == Seq::<(Seq<u8>, bool)>::empty(),
{
    encoding_rs::UTF_16LE.new_decoder()
}

/// `encoding_rs::Decoder::decode_to_utf16`, on a decoder made by
/// [`new_utf16le_decoder`] that has not ended, and with an output buffer at
/// least four units longer than the chunk.
///
/// Believed without proof: the call does not panic and consumes the whole
/// chunk. The crate documents that a buffer as long as
/// `max_utf16_buffer_length` says is never found full, and for such a
/// decoder that length is at most four more than the chunk's, whatever the
/// decoder has seen. The units written depend on nothing but the calls
/// served before and this one. They stand at the front of `dst`, whose
/// length does not change, and the return value is their number.
#[verifier::external_body]
fn decode_to_utf16(d: &mut encoding_rs::Decoder, src: &[u8], dst: &mut Vec<u16>, last: bool) -> (written:
    usize)
    requires
        !ended(decoder_fed(*old(d))),
        old(dst).len() >= src.len() + 4,
    ensures
        decoder_fed(*final(d)) == decoder_fed(*old(d)).push((src@, last)),
        final(dst).len() == old(dst).len(),
        written <= final(dst).len(),
        final(dst)@.take(written as int) == utf16le_units(decoder_fed(*old(d)), src@, last),
{
    let (_, _, written, _) = d.decode_to_utf16(src, dst.as_mut_slice(), last);
    written
}

/// `String::from_utf16_lossy`: the text of `units`, a function of them
/// alone.
#[verifier::external_body]
fn string_from_utf16_lossy(units: &[u16]) -> (s: String)
    ensures
        s@ == utf16_lossy(units@),
{
    String::from_utf16_lossy(units)
}

/// `String::from_utf8_lossy`, as an owned string: the text of `bytes`, a
/// function of them alone. Valid UTF-8 is converted unchanged, so the
/// result then holds the characters that the bytes encode.
#[verifier::external_body]
fn string_from_utf8_lossy(bytes: &[u8]) -> (s: String)
    ensures
        s@ == utf8_lossy(bytes@),
        valid_utf8(bytes@) ==> s@ == decode_utf8(bytes@),
{
    String::from_utf8_lossy(bytes).into_owned()
}

/// The encodings a stream can be read in.
#[derive(Debug, Clone, Copy, PartialEq, Eq, Structural)]
pub enum TextEncoding {
    Utf8,
    Utf16Le,
}

/// A [`TextDecoder`] as a mathematical value.
pub struct DecoderModel {
    /// The encoding of the stream; `None` until the first chunk.
    pub encoding: Option<TextEncoding>,
    /// Whether the last chunk has been decoded.
    pub finished: bool,
    /// The chunks decoded as UTF-16LE so far.
    pub fed: Seq<(Seq<u8>, bool)>,
    /// The bytes of a UTF-8 sequence that the last chunk broke off in.
    pub pending: Seq<u8>,
}

/// A decoder that has decoded nothing yet.
pub open spec fn new_decoder() -> DecoderModel {
    DecoderModel { encoding: None, finished: false, fed: Seq::empty(), pending: Seq::empty() }
}

/// `bytes` opens with the UTF-16LE byte-order mark.
pub open spec fn has_utf16le_bom(bytes: Seq<u8>) -> bool {
    bytes.len() >= 2 && bytes[0] == 0xFF && bytes[1] == 0xFE
}

/// The encoding in which the chunk `bytes` is read.
pub open spec fn encoding_for(m: DecoderModel, bytes: Seq<u8>) -> TextEncoding {
    match m.encoding {
        Some(e) => e,
        None => if has_utf16le_bom(bytes) {
            TextEncoding::Utf16Le
        } else {
            TextEncoding::Utf8
        },
    }
}

/// The text that the chunk `bytes` gives. A UTF-8 chunk is read behind the
/// bytes that wait from the chunk before it, and the sequence that it
/// breaks off in waits in turn, unless the chunk is the last one.
pub open spec fn decoded_text(m: DecoderModel, bytes: Seq<u8>, last: bool) -> Seq<char> {
    match encoding_for(m, bytes) {
        TextEncoding::Utf16Le => utf16_lossy(utf16le_units(m.fed, bytes, last)),
        TextEncoding::Utf8 => if last {
            utf8_text(m.pending + bytes)
        } else {
            utf8_text(complete_part(m.pending + bytes))
        },
    }
}

/// The decoder after the chunk `bytes`.
pub open spec fn after_decode(m: DecoderModel, bytes: Seq<u8>, last: bool) -> DecoderModel {
    match encoding_for(m, bytes) {
        TextEncoding::Utf16Le => DecoderModel {
            encoding: Some(TextEncoding::Utf16Le),
            finished: last,
            fed: m.fed.push((bytes, last)),
            pending: m.pending,
        },
        TextEncoding::Utf8 => DecoderModel {
            encoding: Some(TextEncoding::Utf8),
            finished: last,
            fed: m.fed,
            pending: if last {
                Seq::empty()
            } else {
                incomplete_part(m.pending + bytes)
            },
        },
    }
}

/// A UTF-8 stream can be cut anywhere: if the bytes that wait, two chunks
/// `a` and `b`, and what is still to come are valid UTF-8 together, then
/// `a` and `b` give, one after the other, the text that they give as one
/// chunk, and leave the decoder as that chunk does.
pub proof fn lemma_decode_split(
    d: DecoderModel,
    a: Seq<u8>,
    b: Seq<u8>,
    last: bool,
    rest: Seq<u8>,
)
    requires
        d.encoding != Some(TextEncoding::Utf16Le),
        valid_utf8(d.pending + a + b + rest),
        last ==> rest.len() == 0,
    ensures
        decoded_text(d, a + b, last) == decoded_text(d, a, false) + decoded_text(
            after_decode(d, a, false),
            b,
            last,
        ),
        after_decode(d, a + b, last) == after_decode(after_decode(d, a, false), b, last),
        after_decode(d, a, false).encoding == Some(TextEncoding::Utf8),
        valid_utf8(after_decode(d, a, false).pending + b + rest),
{
    let v = d.pending + a + b + rest;
    assert(encoding_for(d, a) == TextEncoding::Utf8 && encoding_for(d, a + b)
        == TextEncoding::Utf8) by {
        assert(forall|i: int| 0 <= i < a.len() ==> a[i] == v[d.pending.len() + i]);
        assert(forall|i: int| 0 <= i < b.len() ==> b[i] == v[d.pending.len() + a.len() + i]);
        if a.len() > 0 {
            lemma_no_ff(v, d.pending.len() as int);
        }
        if b.len() > 0 {
            lemma_no_ff(v, (d.pending.len() + a.len()) as int);
        }
        if (a + b).len() > 0 {
            assert((a + b)[0] == if a.len() > 0 {
                a[0]
            } else {
                b[0]
            });
        }
    }
    assert(d.pending + (a + b) == d.pending + a + b);
    lemma_cut_chunks(d.pending + a, b, last, rest);
}

/// Decodes the chunks of one byte stream.
pub struct TextDecoder {
    encoding: Option<TextEncoding>,
    finished: bool,
    inner: encoding_rs::Decoder,
    pending: Vec<u8>,
}

impl View for TextDecoder {
    type V = DecoderModel;

    closed spec fn view(&self) -> DecoderModel {
        DecoderModel {
            encoding: self.encoding,
            finished: self.finished,
            fed: decoder_fed(self.inner),
            pending: self.pending@,
        }
    }
}

impl TextDecoder {
    /// The decoder knows when its stream has ended, and at most three bytes
    /// wait in it. This holds of a new decoder, and decoding keeps it.
    pub closed spec fn wf(&self) -> bool {
        &&& ended(decoder_fed(self.inner)) ==> self.finished
        &&& self.pending@.len() <= 3
    }

    /// A decoder for a new stream.
    pub fn new() -> (out: TextDecoder)
        ensures
            out.wf(),
            out@ == new_decoder(),
    {
        TextDecoder {
            encoding: None,
            finished: false,
            inner: new_utf16le_decoder(),
            pending: Vec::new(),
        }
    }

    /// Whether the last chunk has been decoded.
    pub fn is_finished(&self) -> (out: bool)
        ensures
            out == self@.finished,
    {
        self.finished
    }

    /// The encoding of the stream, once the first chunk has fixed it.
    pub fn encoding(&self) -> (out: Option<TextEncoding>)
        ensures
            out == self@.encoding,
    {
        self.encoding
    }

    /// Decodes the next chunk of the stream; `last` says that it is the
    /// last one. Decoding does not fail: malformed input is replaced. A
    /// sequence that the chunk breaks off in is not malformed: it waits for
    /// the next chunk, and is replaced only if none comes.
    pub fn decode(&mut self, bytes: &[u8], last: bool) -> (text: String)
        requires
            old(self).wf(),
            !old(self)@.finished,
            bytes.len() + 4 <= usize::MAX,
        ensures
            final(self).wf(),
            final(self)@ == after_decode(old(self)@, bytes@, last),
            text@ == decoded_text(old(self)@, bytes@, last),
    {
        let encoding = match self.encoding {
            Some(e) => e,
            None => if bytes.len() >= 2 && bytes[0] == 0xFF && bytes[1] == 0xFE {
                TextEncoding::Utf16Le
            } else {
                TextEncoding::Utf8
            },
        };
        self.encoding = Some(encoding);
        self.finished = last;
        match encoding {
            TextEncoding::Utf16Le => {
                let mut units: Vec<u16> = vec![0u16; bytes.len() + 4];
                let written = decode_to_utf16(&mut self.inner, bytes, &mut units, last);
                units.truncate(written);
                string_from_utf16_lossy(units.as_slice())
            },
            TextEncoding::Utf8 => {
                let mut data: Vec<u8> = Vec::new();
                core::mem::swap(&mut data, &mut self.pending);
                let ghost waiting = data@;
                let mut i: usize = 0;
                while i < bytes.len()
                    invariant
                        i <= bytes.len(),
                        waiting.len() <= 3,
                        bytes.len() + 4 <= usize::MAX,
                        data@ == waiting + bytes@.take(i as int),
                    decreases bytes.len() - i,
                {
                    data.push(bytes[i]);
                    assert(bytes@.take(i + 1) == bytes@.take(i as int).push(bytes@[i as int]));
                    i += 1;
                }
                assert(bytes@.take(bytes.len() as int) == bytes@);
                if last {
                    string_from_utf8_lossy(data.as_slice())
                } else {
                    let cut = data.len() - incomplete_len_of(data.as_slice());
                    let text = string_from_utf8_lossy(slice_subrange(data.as_slice(), 0, cut));
                    self.pending = data.split_off(cut);
                    text
                }
            },
        }
    }
}

} // verus!
