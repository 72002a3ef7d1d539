//! Line assembly: decoded text arrives in chunks and leaves as complete
//! logical lines.

use crate::errors::{LineErrorModel, LineReaderError};
use crate::text::to_chars;
use crate::types::strings_view;
use vstd::prelude::*;

verus! {

/// What a scan of some text has found: the lines that a terminator has
/// closed, and the characters of the line still open.
pub struct Scan {
    pub lines: Seq<Seq<char>>,
    pub current: Seq<char>,
}

/// The lines of `t`. A line feed closes the open line, and an empty line is
/// not kept. A carriage return adds nothing to a line.
pub open spec fn scan(t: Seq<char>) -> Scan
    decreases t.len(),
{
    if t.len() == 0 {
        Scan { lines: Seq::empty(), current: Seq::empty() }
    } else {
        let s = scan(t.drop_last());
        let c = t.last();
        if c == '\n' {
            Scan {
                lines: if s.current.len() > 0 {
                    s.lines.push(s.current)
                } else {
                    s.lines
                },
                current: Seq::empty(),
            }
        } else if c == '\r' {
            s
        } else {
            Scan { lines: s.lines, current: s.current.push(c) }
        }
    }
}

/// A carriage return at `i` that something other than a line feed follows.
pub open spec fn lone_cr_at(t: Seq<char>, i: int) -> bool {
    0 <= i && i + 1 < t.len() && t[i] == '\r' && t[i + 1] != '\n'
}

/// Every carriage return of `t` but one at its very end is followed by a
/// line feed.
pub open spec fn well_terminated(t: Seq<char>) -> bool {
    forall|i: int| !lone_cr_at(t, i)
}

/// The state of a [`LineReader`] as a mathematical value.
pub struct LinesModel {
    /// The completed lines that have not been taken yet.
    pub lines: Seq<Seq<char>>,
    /// The text of the open line: what follows the last terminator.
    pub remaining: Seq<char>,
    /// Whether the text fed so far ends with a carriage return. Only the
    /// next character tells whether it belongs to a terminator.
    pub pending_cr: bool,
}

pub open spec fn ends_with_cr(t: Seq<char>) -> bool {
    t.len() > 0 && t.last() == '\r'
}

/// The text that the next scan starts with: the open line, and behind it
/// the carriage return that is still undecided.
pub open spec fn carried(s: LinesModel) -> Seq<char> {
    if s.pending_cr {
        s.remaining.push('\r')
    } else {
        s.remaining
    }
}

/// The index of the first lone carriage return of `t`, or `t.len()` if
/// there is none.
pub open spec fn first_lone_cr(t: Seq<char>) -> int
    decreases t.len(),
{
    if t.len() < 2 {
        t.len() as int
    } else if t[0] == '\r' && t[1] != '\n' {
        0
    } else {
        1 + first_lone_cr(t.skip(1))
    }
}

/// What feeding a chunk of text leads to: the reader's new state, and
/// whether the text was accepted.
pub struct Fed {
    pub state: LinesModel,
    pub ok: bool,
}

/// Feeds `text` to the reader `s`. What the reader carries, followed by
/// `text`, is scanned. If it holds no lone carriage return, its completed
/// lines are added and its open line is buffered. If it holds one, the
/// text is rejected: the buffer is kept, and the lines completed before the
/// first lone carriage return are added.
pub open spec fn feed(s: LinesModel, text: Seq<char>) -> Fed {
    let t = carried(s) + text;
    if well_terminated(t) {
        Fed {
            state: LinesModel {
                lines: s.lines + scan(t).lines,
                remaining: scan(t).current,
                pending_cr: ends_with_cr(t),
            },
            ok: true,
        }
    } else {
        Fed {
            state: LinesModel {
                lines: s.lines + scan(t.take(first_lone_cr(t))).lines,
                remaining: s.remaining,
                pending_cr: s.pending_cr,
            },
            ok: false,
        }
    }
}

/// The completed lines after the end of the stream: the buffered text
/// becomes a line of its own, unless it is empty.
pub open spec fn finalized(s: LinesModel) -> Seq<Seq<char>> {
    if s.remaining.len() > 0 {
        s.lines.push(s.remaining)
    } else {
        s.lines
    }
}

pub open spec fn lone_cr_message() -> Seq<char> {
    "found \\r but not \\n immediately"@
}

/// Assembles logical lines from chunks of text.
#[derive(Debug, Clone, PartialEq)]
pub struct LineReader {
    /// The text of the open line: what follows the last terminator seen.
    pub remaining_string: String,
    /// The completed lines that have not been taken yet.
    pub lines: Vec<String>,
    /// Whether the text fed so far ends with a carriage return that is
    /// still undecided: a line feed must come next.
    pub pending_cr: bool,
}

impl View for LineReader {
    type V = LinesModel;

    open spec fn view(&self) -> LinesModel {
        LinesModel {
            lines: strings_view(self.lines@),
            remaining: self.remaining_string@,
            pending_cr: self.pending_cr,
        }
    }
}

/// The first lone carriage return is the one that none precedes.
proof fn lemma_first_lone_cr(t: Seq<char>, k: int)
    requires
        lone_cr_at(t, k),
        forall|j: int| 0 <= j < k ==> !lone_cr_at(t, j),
    ensures
        first_lone_cr(t) == k,
    decreases k,
{
    if k > 0 {
        let u = t.skip(1);
        assert(!lone_cr_at(t, 0));
        assert(lone_cr_at(u, k - 1));
        assert forall|j: int| 0 <= j < k - 1 implies !lone_cr_at(u, j) by {
            assert(!lone_cr_at(t, j + 1));
        }
        lemma_first_lone_cr(u, k - 1);
    }
}

proof fn lemma_lone_cr_prefix(t: Seq<char>, n: int, i: int)
    requires
        0 <= n <= t.len(),
    ensures
        lone_cr_at(t.take(n), i) == (lone_cr_at(t, i) && i + 1 < n),
{
}

impl LineReader {
    /// A reader that has seen no text.
    pub fn new() -> (out: LineReader)
        ensures
            out@ == (LinesModel {
                lines: Seq::empty(),
                remaining: Seq::empty(),
                pending_cr: false,
            }),
    {
        let out = LineReader {
            remaining_string: String::new(),
            lines: Vec::new(),
            pending_cr: false,
        };
        assert(strings_view(out.lines@) =~= Seq::empty());
        out
    }

    /// Feeds a chunk of text, as [`feed`] says; the call fails exactly when
    /// the text is rejected.
    pub fn read_to_line(&mut self, line_part: &str) -> (out: Result<(), LineReaderError>)
        ensures
            final(self)@ == feed(old(self)@, line_part@).state,
            feed(old(self)@, line_part@).ok ==> out is Ok,
            !feed(old(self)@, line_part@).ok ==> out is Err && out->Err_0@
                == LineErrorModel::InvalidCrlf(lone_cr_message()),
    {
        let mut text = to_chars(self.remaining_string.as_str());
        if self.pending_cr {
            text.push('\r');
        }
        let mut tail = to_chars(line_part);
        text.append(&mut tail);
        let ghost t = text@;
        let ghost before = old(self)@;
        assert(t == carried(before) + line_part@);
        let mut found_cr = false;
        let mut new_line = String::new();
        let mut i: usize = 0;
        assert(self@.lines =~= before.lines + scan(t.take(0)).lines);
        while i < text.len()
            invariant
                i <= text.len(),
                text@ == t,
                before == old(self)@,
                t == carried(before) + line_part@,
                self.remaining_string@ == before.remaining,
                self.pending_cr == before.pending_cr,
                found_cr == (i > 0 && t[i - 1] == '\r'),
                well_terminated(t.take(i as int)),
                new_line@ == scan(t.take(i as int)).current,
                self@.lines == before.lines + scan(t.take(i as int)).lines,
            decreases text.len() - i,
        {
            let c = text[i];
            let ghost prev = scan(t.take(i as int));
            assert(t.take(i + 1).drop_last() == t.take(i as int));
            if found_cr && c != '\n' {
                proof {
                    let k = i - 1;
                    assert(lone_cr_at(t, k));
                    assert(!well_terminated(t));
                    assert(t.take(i as int).drop_last() == t.take(k));
                    assert(t.take(k + 1) == t.take(i as int));
                    assert(self@.lines == before.lines + scan(t.take(k)).lines);
                    assert forall|j: int| 0 <= j < k implies !lone_cr_at(t, j) by {
                        lemma_lone_cr_prefix(t, i as int, j);
                        assert(!lone_cr_at(t.take(i as int), j));
                    }
                    lemma_first_lone_cr(t, k);
                }
                return Err(
                    LineReaderError::InvalidCrlf("found \\r but not \\n immediately".to_owned()),
                );
            }
            if c == '\n' {
                if !new_line.as_str().is_empty() {
                    let ghost held = self.lines@;
                    self.lines.push(new_line);
                    new_line = String::new();
                    assert(strings_view(self.lines@) =~= strings_view(held).push(prev.current));
                }
                found_cr = false;
            } else if c == '\r' {
                found_cr = true;
            } else {
                new_line.push(c);
                found_cr = false;
            }
            proof {
                let u = t.take(i + 1);
                assert forall|k: int| !(#[trigger] lone_cr_at(u, k)) by {
                    lemma_lone_cr_prefix(t, i + 1, k);
                    lemma_lone_cr_prefix(t, i as int, k);
                    assert(!lone_cr_at(t.take(i as int), k));
                }
            }
            i += 1;
        }
        proof {
            assert(t.take(t.len() as int) == t);
        }
        self.remaining_string = new_line;
        self.pending_cr = found_cr;
        Ok(())
    }

    /// Takes the completed lines, in the order in which they were completed.
    /// A second call without a feed in between takes nothing.
    pub fn take_lines(&mut self) -> (out: Vec<String>)
        ensures
            strings_view(out@) == old(self)@.lines,
            final(self)@ == (LinesModel { lines: Seq::empty(), ..old(self)@ }),
    {
        let mut out: Vec<String> = Vec::new();
        core::mem::swap(&mut out, &mut self.lines);
        assert(strings_view(self.lines@) =~= Seq::empty());
        out
    }

    /// Ends the stream: the buffered text, if any, becomes a line of its
    /// own. The buffer is kept as it is.
    pub fn finalize(&mut self)
        ensures
            final(self)@ == (LinesModel { lines: finalized(old(self)@), ..old(self)@ }),
    {
        if !self.remaining_string.as_str().is_empty() {
            let ghost held = self.lines@;
            self.lines.push(self.remaining_string.clone());
            assert(strings_view(self.lines@) =~= strings_view(held).push(
                self.remaining_string@,
            ));
        }
    }
}

/// `s` holds neither a carriage return nor a line feed.
pub open spec fn plain(s: Seq<char>) -> bool {
    forall|i: int| 0 <= i < s.len() ==> s[i] != '\r' && s[i] != '\n'
}

/// The characters of `t` that are not part of a line terminator.
pub open spec fn content(t: Seq<char>) -> Seq<char> {
    t.filter(|c: char| c != '\r' && c != '\n')
}

/// Every line that a scan completes is non-empty and holds no terminator
/// character, and neither does the open line.
pub proof fn lemma_scan_lines_plain(t: Seq<char>)
    ensures
        plain(scan(t).current),
        forall|i: int|
            0 <= i < scan(t).lines.len() ==> (#[trigger] scan(t).lines[i]).len() > 0 && plain(
                scan(t).lines[i],
            ),
    decreases t.len(),
{
    if t.len() > 0 {
        lemma_scan_lines_plain(t.drop_last());
    }
}

/// Nothing is lost, doubled or moved: the completed lines followed by the
/// open line, joined, are the scanned text without its terminator
/// characters.
pub proof fn lemma_scan_keeps_content(t: Seq<char>)
    ensures
        scan(t).lines.flatten() + scan(t).current == content(t),
    decreases t.len(),
{
    let keep = |c: char| c != '\r' && c != '\n';
    if t.len() == 0 {
        assert(scan(t).lines.flatten() =~= Seq::<char>::empty());
        assert(content(t) =~= Seq::<char>::empty());
    } else {
        let u = t.drop_last();
        let c = t.last();
        let s = scan(u);
        lemma_scan_keeps_content(u);
        assert(t == u.push(c));
        u.lemma_filter_push(c, keep);
        if c == '\n' {
            if s.current.len() > 0 {
                s.lines.lemma_flatten_push(s.current);
            }
            assert(scan(t).lines.flatten() + scan(t).current =~= s.lines.flatten() + s.current);
        } else if c != '\r' {
            assert(scan(t).lines.flatten() + scan(t).current =~= (s.lines.flatten()
                + s.current).push(c));
        }
    }
}

/// Text without terminator characters completes no line.
pub proof fn lemma_scan_plain(t: Seq<char>)
    requires
        plain(t),
    ensures
        scan(t) == (Scan { lines: Seq::empty(), current: t }),
    decreases t.len(),
{
    if t.len() > 0 {
        lemma_scan_plain(t.drop_last());
        assert(t.drop_last().push(t.last()) == t);
    } else {
        assert(t == Seq::<char>::empty());
    }
}

/// A scan can stop anywhere and go on from its open line.
pub proof fn lemma_scan_concat(x: Seq<char>, y: Seq<char>)
    ensures
        scan(x + y).lines == scan(x).lines + scan(scan(x).current + y).lines,
        scan(x + y).current == scan(scan(x).current + y).current,
    decreases y.len(),
{
    let cur = scan(x).current;
    lemma_scan_lines_plain(x);
    if y.len() == 0 {
        assert(x + y == x);
        assert(cur + y == cur);
        lemma_scan_plain(cur);
        assert(scan(x).lines + Seq::<Seq<char>>::empty() == scan(x).lines);
    } else {
        let y0 = y.drop_last();
        lemma_scan_concat(x, y0);
        assert((x + y).drop_last() == x + y0);
        assert((cur + y).drop_last() == cur + y0);
        let a = scan(x).lines;
        let b = scan(cur + y0).lines;
        let open = scan(cur + y0).current;
        assert((a + b).push(open) == a + b.push(open));
    }
}

/// Joining two texts adds a lone carriage return only at the joint.
pub proof fn lemma_well_terminated_concat(x: Seq<char>, y: Seq<char>)
    ensures
        well_terminated(x + y) <==> well_terminated(x) && well_terminated(y) && !(x.len() > 0
            && x.last() == '\r' && y.len() > 0 && y[0] != '\n'),
{
    let t = x + y;
    let n = x.len() as int;
    if well_terminated(t) {
        assert forall|i: int| !lone_cr_at(x, i) by {
            if lone_cr_at(x, i) {
                assert(lone_cr_at(t, i));
            }
        }
        assert forall|i: int| !lone_cr_at(y, i) by {
            if lone_cr_at(y, i) {
                assert(lone_cr_at(t, i + n));
            }
        }
        if x.len() > 0 && x.last() == '\r' && y.len() > 0 && y[0] != '\n' {
            assert(lone_cr_at(t, n - 1));
        }
    }
    if well_terminated(x) && well_terminated(y) && !(x.len() > 0 && x.last() == '\r' && y.len() > 0
        && y[0] != '\n') {
        assert forall|i: int| !lone_cr_at(t, i) by {
            if lone_cr_at(t, i) {
                if i + 1 < n {
                    assert(lone_cr_at(x, i));
                } else if i >= n {
                    assert(lone_cr_at(y, i - n));
                }
            }
        }
    }
}

/// What a reader carries after an accepted text `x` is scanned by the
/// next feed as `x` itself would be.
proof fn lemma_carried_then(x: Seq<char>, y: Seq<char>)
    requires
        well_terminated(x),
    ensures
        ({
            let held = carried(
                LinesModel {
                    lines: Seq::empty(),
                    remaining: scan(x).current,
                    pending_cr: ends_with_cr(x),
                },
            );
            &&& well_terminated(x + y) == well_terminated(held + y)
            &&& scan(x + y).lines == scan(x).lines + scan(held + y).lines
            &&& scan(x + y).current == scan(held + y).current
            &&& ends_with_cr(x + y) == ends_with_cr(held + y)
        }),
{
    let cur = scan(x).current;
    let held = carried(
        LinesModel { lines: Seq::empty(), remaining: cur, pending_cr: ends_with_cr(x) },
    );
    lemma_scan_lines_plain(x);
    lemma_scan_concat(x, y);
    lemma_scan_concat(held, y);
    lemma_scan_plain(cur);
    assert(scan(held) == scan(cur)) by {
        if ends_with_cr(x) {
            assert(held.drop_last() == cur);
        }
    }
    assert(well_terminated(held)) by {
        assert forall|i: int| !lone_cr_at(held, i) by {}
    }
    lemma_well_terminated_concat(x, y);
    lemma_well_terminated_concat(held, y);
    assert(ends_with_cr(x) == ends_with_cr(held));
    if y.len() > 0 {
        assert((x + y).last() == y.last());
        assert((held + y).last() == y.last());
    } else {
        assert(x + y == x);
        assert(held + y == held);
    }
}

/// Chunk boundaries do not matter to the line assembler: `a` and then `b`
/// are accepted exactly when they are accepted as one chunk, and then lead
/// to the same state.
pub proof fn lemma_feed_split(s: LinesModel, a: Seq<char>, b: Seq<char>)
    ensures
        feed(s, a + b).ok <==> feed(s, a).ok && feed(feed(s, a).state, b).ok,
        feed(s, a + b).ok ==> feed(s, a + b) == feed(feed(s, a).state, b),
{
    let t1 = carried(s) + a;
    assert(carried(s) + (a + b) == t1 + b);
    lemma_well_terminated_concat(t1, b);
    if well_terminated(t1) {
        lemma_carried_then(t1, b);
        let mid = feed(s, a).state;
        assert(carried(mid) == carried(
            LinesModel {
                lines: Seq::empty(),
                remaining: scan(t1).current,
                pending_cr: ends_with_cr(t1),
            },
        ));
        let l1 = scan(t1).lines;
        let l2 = scan(carried(mid) + b).lines;
        assert(s.lines + (l1 + l2) == (s.lines + l1) + l2);
    }
}

/// An accepted text leaves the reader with what the text holds beside its
/// terminators, and nothing else: the lines it adds are non-empty and free
/// of terminator characters, so is the buffer, and the lines and the buffer,
/// joined, are the old buffer followed by the text, without the terminator
/// characters.
pub proof fn lemma_feed_keeps_content(s: LinesModel, text: Seq<char>)
    requires
        feed(s, text).ok,
    ensures
        ({
            let next = feed(s, text).state;
            let added = next.lines.skip(s.lines.len() as int);
            &&& next.lines == s.lines + added
            &&& forall|i: int| 0 <= i < added.len() ==> (#[trigger] added[i]).len() > 0 && plain(
                added[i],
            )
            &&& plain(next.remaining)
            &&& added.flatten() + next.remaining == content(s.remaining + text)
        }),
{
    let keep = |c: char| c != '\r' && c != '\n';
    let t = carried(s) + text;
    let next = feed(s, text).state;
    let added = next.lines.skip(s.lines.len() as int);
    assert(added == scan(t).lines);
    lemma_scan_lines_plain(t);
    lemma_scan_keeps_content(t);
    Seq::filter_distributes_over_add(carried(s), text, keep);
    Seq::filter_distributes_over_add(s.remaining, text, keep);
    if s.pending_cr {
        s.remaining.lemma_filter_push('\r', keep);
    }
}

/// A line that ends with carriage return and line feed is the line that
/// ends with the line feed alone. (Behind a carriage return the two differ:
/// there the first is rejected.)
pub proof fn lemma_crlf_as_lf(s: LinesModel, line: Seq<char>)
    requires
        !ends_with_cr(carried(s) + line),
    ensures
        feed(s, line + seq!['\r', '\n']).ok == feed(s, line + seq!['\n']).ok,
        feed(s, line + seq!['\n']).ok ==> feed(s, line + seq!['\r', '\n']) == feed(
            s,
            line + seq!['\n'],
        ),
{
    let t = carried(s) + line;
    let crlf = seq!['\r', '\n'];
    let lf = seq!['\n'];
    assert(carried(s) + (line + crlf) == t + crlf);
    assert(carried(s) + (line + lf) == t + lf);
    lemma_well_terminated_concat(t, crlf);
    lemma_well_terminated_concat(t, lf);
    assert(well_terminated(crlf)) by {
        assert forall|i: int| !lone_cr_at(crlf, i) by {}
    }
    assert(well_terminated(lf)) by {
        assert forall|i: int| !lone_cr_at(lf, i) by {}
    }
    assert((t + crlf).drop_last() == t.push('\r'));
    assert(t.push('\r').drop_last() == t);
    assert((t + lf).drop_last() == t);
    assert(scan(t.push('\r')) == scan(t));
    assert((t + crlf).last() == '\n');
    assert((t + lf).last() == '\n');
    assert(scan(t + crlf) == scan(t + lf));
}

impl Default for LineReader {
    fn default() -> (out: LineReader)
        ensures
            out@ == (LinesModel {
                lines: Seq::empty(),
                remaining: Seq::empty(),
                pending_cr: false,
            }),
    {
        LineReader::new()
    }
}

} // verus!
