//! Reading the same input a second time into the file that the first
//! reading filled changes nothing, as long as the second reading is not
//! rejected.

use crate::decoder::{after_decode, decoded_text, new_decoder, DecoderModel};
use crate::inf_file::{
    drive, lemma_run_concat, parsed, run, StreamModel, CHUNK_SIZE,
};
use crate::line_reader::{feed, finalized, LinesModel};
use crate::section_name::section_name_defect;
use crate::section_reader::{
    header_name, is_comment, is_header, step, DocModel, ParseModel, ReaderModel,
};
use crate::text::trim;
use vstd::prelude::*;

verus! {

/// The state before anything is read: no section is open and none is held.
pub open spec fn fresh() -> ParseModel {
    ParseModel { reader: ReaderModel { section: None, pending: None }, doc: Map::empty() }
}

/// The line is a section header that the grammar accepts.
pub open spec fn opens_section(line: Seq<char>) -> bool {
    let l = trim(line);
    !is_comment(l) && is_header(l) && section_name_defect(header_name(l)) is None
}

pub open spec fn has_header(lines: Seq<Seq<char>>) -> bool {
    exists|i: int| 0 <= i < lines.len() && opens_section(#[trigger] lines[i])
}

/// Both documents hold every section named in `keys`, with the same
/// entries.
pub open spec fn agree(a: DocModel, b: DocModel, keys: Set<Seq<char>>) -> bool {
    forall|k: Seq<char>|
        keys.contains(k) ==> a.contains_key(k) && b.contains_key(k) && a[k] == b[k]
}

/// Outside `keys` the document `after` is the document `before`.
pub open spec fn same_outside(before: DocModel, after: DocModel, keys: Set<Seq<char>>) -> bool {
    forall|k: Seq<char>|
        !keys.contains(k) ==> after.contains_key(k) == before.contains_key(k) && (
        before.contains_key(k) ==> after[k] == before[k])
}

/// A line that opens no section leaves the names of the sections held as
/// they are.
proof fn lemma_entry_keeps_names(s: ParseModel, line: Seq<char>)
    requires
        !opens_section(line),
        step(s, line) is Ok,
    ensures
        step(s, line)->Ok_0.doc.dom() =~= s.doc.dom(),
{
}

/// Two states with the same grammar state, whose documents agree on a set
/// of sections that holds the open one, go through the same lines alike:
/// they meet the same error, reach the same grammar state, and their
/// documents then agree on a larger set, outside of which neither has
/// changed.
proof fn lemma_agree(a: ParseModel, b: ParseModel, keys: Set<Seq<char>>, lines: Seq<Seq<char>>) -> (after:
    Set<Seq<char>>)
    requires
        a.reader == b.reader,
        a.reader.section matches Some(c) ==> keys.contains(c),
        agree(a.doc, b.doc, keys),
    ensures
        keys.subset_of(after),
        run(a, lines).error == run(b, lines).error,
        run(a, lines).state.reader == run(b, lines).state.reader,
        agree(run(a, lines).state.doc, run(b, lines).state.doc, after),
        same_outside(a.doc, run(a, lines).state.doc, after),
        same_outside(b.doc, run(b, lines).state.doc, after),
    decreases lines.len(),
{
    if lines.len() == 0 {
        keys
    } else {
        let line = lines[0];
        let l = trim(line);
        match step(a, line) {
            Err(_) => keys,
            Ok(a1) => {
                let b1 = step(b, line)->Ok_0;
                let keys1 = if opens_section(line) {
                    keys.insert(header_name(l))
                } else {
                    keys
                };
                assert(step(b, line) is Ok);
                assert(a1.reader == b1.reader);
                assert(agree(a1.doc, b1.doc, keys1));
                assert(same_outside(a.doc, a1.doc, keys1));
                assert(same_outside(b.doc, b1.doc, keys1));
                let after = lemma_agree(a1, b1, keys1, lines.skip(1));
                after
            },
        }
    }
}

/// A first reading, which starts with no section open and none held, and a
/// second one, which starts with the sections that the first one ends
/// with, end in the same state if the lines open a section at all.
proof fn lemma_reread(first: ParseModel, second: ParseModel, lines: Seq<Seq<char>>)
    requires
        first.reader.section is None,
        first.doc =~= Map::empty(),
        run(first, lines).error is None,
        run(second, lines).error is None,
        second.doc.dom() =~= run(first, lines).state.doc.dom(),
    ensures
        has_header(lines) ==> run(second, lines).state == run(first, lines).state,
        !has_header(lines) ==> run(first, lines).state == first,
    decreases lines.len(),
{
    if lines.len() > 0 {
        let line = lines[0];
        let rest = lines.skip(1);
        let a1 = step(first, line)->Ok_0;
        let b1 = step(second, line)->Ok_0;
        assert(step(first, line) is Ok);
        assert(step(second, line) is Ok);
        if opens_section(line) {
            let name = header_name(trim(line));
            let after = lemma_agree(a1, b1, set![name], rest);
            let end1 = run(a1, rest).state;
            let end2 = run(b1, rest).state;
            assert forall|k: Seq<char>| #[trigger]
                end1.doc.dom().contains(k) == end2.doc.dom().contains(k) by {
                if !after.contains(k) {
                    assert(k != name);
                    assert(!a1.doc.contains_key(k));
                    assert(!end1.doc.contains_key(k));
                    assert(run(first, lines).state == end1);
                    assert(!second.doc.dom().contains(k));
                    assert(!b1.doc.contains_key(k));
                    assert(!end2.doc.contains_key(k));
                } else {
                    assert(end1.doc.contains_key(k) && end2.doc.contains_key(k));
                }
            }
            assert forall|k: Seq<char>| #[trigger]
                end1.doc.dom().contains(k) implies end1.doc[k] == end2.doc[k] by {
                if !after.contains(k) {
                    assert(k != name);
                    assert(!a1.doc.contains_key(k));
                    assert(!end1.doc.contains_key(k));
                }
            }
            assert(end1.doc =~= end2.doc);
            assert(run(second, lines).state == end2);
            assert(has_header(lines));
        } else {
            assert(a1 == first);
            lemma_entry_keeps_names(second, line);
            lemma_reread(first, b1, rest);
            assert(has_header(lines) == has_header(rest)) by {
                if has_header(lines) {
                    let i = choose|i: int| 0 <= i < lines.len() && opens_section(#[trigger] lines[i]);
                    assert(opens_section(rest[i - 1]));
                }
                if has_header(rest) {
                    let i = choose|i: int| 0 <= i < rest.len() && opens_section(#[trigger] rest[i]);
                    assert(opens_section(lines[i + 1]));
                }
            }
        }
    }
}

/// Reading the same lines again changes nothing: if the lines are read into
/// a new file, and then once more into the file as the first reading left
/// it, the second reading, unless it is rejected, ends in the state in
/// which the first one ended.
///
/// The second reading can be rejected where the first is not: a malformed
/// entry before the first section header is passed over by the first
/// reading, and read by the second as an entry of the last section.
pub proof fn lemma_rereading_lines_changes_nothing(lines: Seq<Seq<char>>)
    requires
        run(fresh(), lines).error is None,
        run(run(fresh(), lines).state, lines).error is None,
    ensures
        run(run(fresh(), lines).state, lines).state == run(fresh(), lines).state,
{
    lemma_reread(fresh(), run(fresh(), lines).state, lines);
}

/// The lines that a reading of `bytes` hands to the grammar, from the
/// decoder `d` and the line assembler `l`, or `None` if line assembly
/// rejects some of the text.
pub open spec fn lines_read(d: DecoderModel, l: LinesModel, bytes: Seq<u8>) -> Option<
    Seq<Seq<char>>,
>
    decreases bytes.len(),
{
    if bytes.len() == 0 {
        if d.finished {
            Some(finalized(l))
        } else {
            let fed = feed(l, decoded_text(d, Seq::empty(), true));
            if fed.ok {
                Some(
                    fed.state.lines + finalized(
                        LinesModel { lines: Seq::empty(), ..fed.state },
                    ),
                )
            } else {
                None
            }
        }
    } else {
        let n = if bytes.len() < CHUNK_SIZE {
            bytes.len() as int
        } else {
            CHUNK_SIZE as int
        };
        let chunk = bytes.take(n);
        let last = n != CHUNK_SIZE;
        let fed = feed(l, decoded_text(d, chunk, last));
        if fed.ok {
            match lines_read(
                after_decode(d, chunk, last),
                LinesModel { lines: Seq::empty(), ..fed.state },
                bytes.skip(n),
            ) {
                Some(rest) => Some(fed.state.lines + rest),
                None => None,
            }
        } else {
            None
        }
    }
}

/// What the driver does to the grammar is to run it over the lines read.
pub proof fn lemma_drive_runs_lines(d: DecoderModel, s: StreamModel, bytes: Seq<u8>)
    ensures
        drive(d, s, bytes).error is None <==> lines_read(d, s.lines, bytes) is Some && run(
            s.parse,
            lines_read(d, s.lines, bytes)->Some_0,
        ).error is None,
        drive(d, s, bytes).error is None ==> drive(d, s, bytes).state.parse == run(
            s.parse,
            lines_read(d, s.lines, bytes)->Some_0,
        ).state,
    decreases bytes.len(),
{
    if bytes.len() == 0 {
        if !d.finished {
            let fed = feed(s.lines, decoded_text(d, Seq::empty(), true));
            if fed.ok {
                lemma_run_concat(
                    s.parse,
                    fed.state.lines,
                    finalized(LinesModel { lines: Seq::empty(), ..fed.state }),
                );
            }
        }
    } else {
        let n = if bytes.len() < CHUNK_SIZE {
            bytes.len() as int
        } else {
            CHUNK_SIZE as int
        };
        let chunk = bytes.take(n);
        let last = n != CHUNK_SIZE;
        let fed = feed(s.lines, decoded_text(d, chunk, last));
        if fed.ok {
            let d1 = after_decode(d, chunk, last);
            let l1 = LinesModel { lines: Seq::empty(), ..fed.state };
            let r = run(s.parse, fed.state.lines);
            let s1 = StreamModel { lines: l1, parse: r.state };
            lemma_drive_runs_lines(d1, s1, bytes.skip(n));
            match lines_read(d1, l1, bytes.skip(n)) {
                Some(rest) => {
                    lemma_run_concat(s.parse, fed.state.lines, rest);
                },
                None => {},
            }
        }
    }
}

/// Reading the same bytes again changes nothing: read into a new file, and
/// then once more into the file as the first reading left it, they lead,
/// unless the second reading is rejected, to the state in which the first
/// reading ended.
pub proof fn lemma_rereading_changes_nothing(bytes: Seq<u8>)
    requires
        parsed(fresh(), bytes).error is None,
        parsed(parsed(fresh(), bytes).state, bytes).error is None,
    ensures
        parsed(parsed(fresh(), bytes).state, bytes).state == parsed(fresh(), bytes).state,
{
    let d = new_decoder();
    let l = LinesModel { lines: Seq::empty(), remaining: Seq::empty(), pending_cr: false };
    let once = parsed(fresh(), bytes).state;
    lemma_drive_runs_lines(d, StreamModel { lines: l, parse: fresh() }, bytes);
    lemma_drive_runs_lines(d, StreamModel { lines: l, parse: once }, bytes);
    lemma_rereading_lines_changes_nothing(lines_read(d, l, bytes)->Some_0);
}

} // verus!
