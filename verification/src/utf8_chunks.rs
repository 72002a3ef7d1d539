//! UTF-8 in chunks: where a chunk breaks off inside the encoding of a
//! character, the bytes of that character wait for the next chunk.

use vstd::prelude::*;
use vstd::utf8::{
    decode_utf8, decode_utf8_split, is_char_boundary,
    is_char_boundary_iff_is_leading_byte, is_char_boundary_iff_not_is_continuation_byte,
    is_char_boundary_start_end_of_seq, is_continuation_byte, is_leading_byte_width_2,
    is_leading_byte_width_3, is_leading_byte_width_4, valid_first_scalar, valid_utf8,
    valid_utf8_split,
};

verus! {

/// The number of bytes of a UTF-8 sequence that opens with `b`; 1 for a
/// byte that opens no sequence of several bytes.
pub open spec fn sequence_len(b: u8) -> int {
    if is_leading_byte_width_2(b) {
        2
    } else if is_leading_byte_width_3(b) {
        3
    } else if is_leading_byte_width_4(b) {
        4
    } else {
        1
    }
}

/// The number of bytes at the end of `data` that open a sequence which
/// `data` is too short to hold: the last byte that is no continuation byte,
/// with the continuation bytes behind it, if its sequence is longer than
/// that. Otherwise 0.
pub open spec fn incomplete_len(data: Seq<u8>) -> int {
    let n = data.len();
    if n >= 1 && !is_continuation_byte(data[n - 1]) {
        if sequence_len(data[n - 1]) > 1 {
            1
        } else {
            0
        }
    } else if n >= 2 && !is_continuation_byte(data[n - 2]) {
        if sequence_len(data[n - 2]) > 2 {
            2
        } else {
            0
        }
    } else if n >= 3 && !is_continuation_byte(data[n - 3]) {
        if sequence_len(data[n - 3]) > 3 {
            3
        } else {
            0
        }
    } else {
        0
    }
}

/// `data` without the sequence that it breaks off in.
pub open spec fn complete_part(data: Seq<u8>) -> Seq<u8> {
    data.take(data.len() - incomplete_len(data))
}

/// The sequence that `data` breaks off in.
pub open spec fn incomplete_part(data: Seq<u8>) -> Seq<u8> {
    data.skip(data.len() - incomplete_len(data))
}

fn is_continuation(b: u8) -> (out: bool)
    ensures
        out == is_continuation_byte(b),
{
    0x80 <= b && b <= 0xbf
}

fn sequence_len_of(b: u8) -> (out: usize)
    ensures
        out == sequence_len(b),
{
    if 0xc0 <= b && b <= 0xdf {
        2
    } else if 0xe0 <= b && b <= 0xef {
        3
    } else if 0xf0 <= b && b <= 0xf7 {
        4
    } else {
        1
    }
}

/// The number of bytes at the end of `data` that wait for the next chunk.
pub fn incomplete_len_of(data: &[u8]) -> (out: usize)
    ensures
        out == incomplete_len(data@),
        out <= 3,
        out <= data.len(),
{
    let n = data.len();
    if n >= 1 && !is_continuation(data[n - 1]) {
        if sequence_len_of(data[n - 1]) > 1 {
            1
        } else {
            0
        }
    } else if n >= 2 && !is_continuation(data[n - 2]) {
        if sequence_len_of(data[n - 2]) > 2 {
            2
        } else {
            0
        }
    } else if n >= 3 && !is_continuation(data[n - 3]) {
        if sequence_len_of(data[n - 3]) > 3 {
            3
        } else {
            0
        }
    } else {
        0
    }
}

/// In valid UTF-8 a byte that is no continuation byte opens a sequence of
/// the length that the byte tells, made up with continuation bytes, and
/// behind the sequence stands the end or a byte that is no continuation
/// byte.
pub proof fn lemma_sequence_at(v: Seq<u8>, i: int)
    requires
        valid_utf8(v),
        0 <= i < v.len(),
        !is_continuation_byte(v[i]),
    ensures
        i + sequence_len(v[i]) <= v.len(),
        forall|y: int| i < y < i + sequence_len(v[i]) ==> is_continuation_byte(#[trigger] v[y]),
        i + sequence_len(v[i]) < v.len() ==> !is_continuation_byte(v[i + sequence_len(v[i])]),
{
    is_char_boundary_iff_not_is_continuation_byte(v, i);
    valid_utf8_split(v, i);
    let x = v.subrange(i, v.len() as int);
    assert(valid_first_scalar(x));
    let w = sequence_len(v[i]);
    assert(x[0] == v[i]);
    assert forall|y: int| i < y < i + w implies is_continuation_byte(#[trigger] v[y]) by {
        assert(v[y] == x[y - i]);
    }
    if i + w < v.len() {
        reveal_with_fuel(is_char_boundary, 2);
        assert(is_char_boundary(x, w));
        is_char_boundary_iff_not_is_continuation_byte(x, w);
        assert(x[w] == v[i + w]);
    }
}

/// In valid UTF-8, before every byte, or at it, stands a byte that is no
/// continuation byte, with nothing but continuation bytes in between.
pub proof fn lemma_last_opening(v: Seq<u8>, x: int) -> (i: int)
    requires
        valid_utf8(v),
        0 <= x < v.len(),
    ensures
        0 <= i <= x,
        !is_continuation_byte(v[i]),
        forall|y: int| i < y <= x ==> is_continuation_byte(#[trigger] v[y]),
    decreases x,
{
    if !is_continuation_byte(v[x]) {
        x
    } else if x == 0 {
        is_char_boundary_start_end_of_seq(v);
        is_char_boundary_iff_not_is_continuation_byte(v, 0);
        0
    } else {
        lemma_last_opening(v, x - 1)
    }
}

/// No byte of valid UTF-8 is `0xFF`.
pub proof fn lemma_no_ff(v: Seq<u8>, i: int)
    requires
        valid_utf8(v),
        0 <= i < v.len(),
    ensures
        v[i] != 0xFF,
{
    is_char_boundary_iff_not_is_continuation_byte(v, i);
    is_char_boundary_iff_is_leading_byte(v, i);
}

/// Wherever valid UTF-8 is cut, the part before the cut, without the
/// sequence that it breaks off in, ends between two characters: it is
/// valid UTF-8, so is all that follows it, and the text is the text of the
/// one followed by the text of the other.
pub proof fn lemma_cut(v: Seq<u8>, m: int)
    requires
        valid_utf8(v),
        0 <= m <= v.len(),
    ensures
        ({
            let c = m - incomplete_len(v.take(m));
            &&& 0 <= c <= m
            &&& c < v.len() ==> !is_continuation_byte(v[c])
            &&& valid_utf8(v.take(c))
            &&& valid_utf8(v.skip(c))
            &&& decode_utf8(v) == decode_utf8(v.take(c)) + decode_utf8(v.skip(c))
        }),
{
    let a = v.take(m);
    let t = incomplete_len(a);
    let c = m - t;
    is_char_boundary_start_end_of_seq(v);
    if v.len() > 0 {
        is_char_boundary_iff_not_is_continuation_byte(v, 0);
    }
    if t == 0 && 0 < m < v.len() {
        let i = lemma_last_opening(v, m - 1);
        lemma_sequence_at(v, i);
        let w = sequence_len(v[i]);
        assert(forall|y: int| 0 <= y < m ==> a[y] == v[y]);
        if i + w < m {
            assert(is_continuation_byte(v[i + w]));
        }
        if i + w > m {
            assert(a[i] == v[i]);
            assert(m - i <= 3);
        }
        assert(i + w == m);
    }
    if c < v.len() {
        assert(t > 0 ==> a[c] == v[c]);
        is_char_boundary_iff_not_is_continuation_byte(v, c);
    }
    assert(is_char_boundary(v, c));
    valid_utf8_split(v, c);
    decode_utf8_split(v, c);
    assert(v.subrange(0, c) == v.take(c));
    assert(v.subrange(c, v.len() as int) == v.skip(c));
}

/// What breaks off at the end can be told from the end alone: the bytes
/// before a byte that is no continuation byte do not matter.
pub proof fn lemma_incomplete_len_of_suffix(x: Seq<u8>, k: int)
    requires
        0 <= k < x.len(),
        !is_continuation_byte(x[k]),
    ensures
        incomplete_len(x.skip(k)) == incomplete_len(x),
{
    let s = x.skip(k);
    assert(forall|i: int| 0 <= i < s.len() ==> s[i] == x[k + i]);
}

/// Valid UTF-8 can be decoded piece by piece.
proof fn lemma_decode_concat(a: Seq<u8>, b: Seq<u8>)
    requires
        valid_utf8(a),
        valid_utf8(a + b),
        a.len() < (a + b).len() ==> !is_continuation_byte((a + b)[a.len() as int]),
    ensures
        valid_utf8(b),
        decode_utf8(a + b) == decode_utf8(a) + decode_utf8(b),
{
    let v = a + b;
    let c = a.len() as int;
    is_char_boundary_start_end_of_seq(v);
    if c < v.len() {
        is_char_boundary_iff_not_is_continuation_byte(v, c);
    }
    valid_utf8_split(v, c);
    decode_utf8_split(v, c);
    assert(v.subrange(0, c) == a);
    assert(v.subrange(c, v.len() as int) == b);
}

/// Cutting a valid stream in two chunks: `first` is the data of the first
/// chunk, with what waited before it, `b` the second chunk, and `rest` what
/// the stream holds behind them. What the first chunk leaves to wait,
/// followed by `b`, is decoded to the text that is still missing: the two
/// texts, joined, are the text of both chunks read as one, and the same
/// bytes are left to wait.
pub proof fn lemma_cut_chunks(first: Seq<u8>, b: Seq<u8>, last: bool, rest: Seq<u8>)
    requires
        valid_utf8(first + b + rest),
        last ==> rest.len() == 0,
    ensures
        valid_utf8(complete_part(first)),
        valid_utf8(incomplete_part(first) + b + rest),
        last ==> valid_utf8(first + b) && valid_utf8(incomplete_part(first) + b) && decode_utf8(
            first + b,
        ) == decode_utf8(complete_part(first)) + decode_utf8(incomplete_part(first) + b),
        !last ==> valid_utf8(complete_part(first + b)) && valid_utf8(
            complete_part(incomplete_part(first) + b),
        ) && decode_utf8(complete_part(first + b)) == decode_utf8(complete_part(first))
            + decode_utf8(complete_part(incomplete_part(first) + b)) && incomplete_part(first + b)
            == incomplete_part(incomplete_part(first) + b),
{
    let data = first + b;
    let v = data + rest;
    let n1 = first.len() as int;
    let c1 = n1 - incomplete_len(first);
    let second = incomplete_part(first) + b;
    assert(v.take(n1) == first);
    lemma_cut(v, n1);
    assert(v.take(c1) == first.take(c1));
    assert(data.take(c1) == first.take(c1));
    assert(second == data.skip(c1));
    assert(second + rest == v.skip(c1));
    assert(data == complete_part(first) + second);
    if last {
        assert(v == data);
        assert(c1 < data.len() ==> data[c1] == v[c1]);
        lemma_decode_concat(complete_part(first), second);
    } else {
        let n = data.len() as int;
        let c = n - incomplete_len(data);
        assert(v.take(n) == data);
        lemma_cut(v, n);
        assert(v.take(c) == data.take(c));
        if c1 < n {
            assert(data[c1] == v[c1]);
            lemma_incomplete_len_of_suffix(data, c1);
        } else {
            assert(data == first);
            assert(second == Seq::<u8>::empty());
        }
        let c2 = second.len() - incomplete_len(second);
        assert(c == c1 + c2);
        assert(second.skip(c2) == data.skip(c));
        assert(data.take(c) == complete_part(first) + second.take(c2));
        assert(c1 < c ==> data.take(c)[c1] == v[c1]);
        lemma_decode_concat(complete_part(first), second.take(c2));
    }
}

} // verus!
