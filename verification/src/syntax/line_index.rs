//! Byte offset to line/column conversion for diagnostics. Lines are
//! 1-based; columns are 1-based character counts. Offsets are byte
//! offsets into the UTF-8 text; a character starts at every byte that is
//! not a continuation byte.

use vstd::prelude::*;
use vstd::utf8::encode_utf8;

use super::red::TextRange;
use crate::diagnostics::{Pos, Span};

verus! {

/// A UTF-8 continuation byte (`10xxxxxx`).
pub open spec fn is_cont(x: u8) -> bool {
    0x80 <= x && x < 0xC0
}

/// Offset `o` is a character boundary of `b`: the end, or the start of
/// a character.
pub open spec fn at_boundary(b: Seq<u8>, o: int) -> bool {
    o == b.len() || (0 <= o < b.len() && !is_cont(b[o]))
}

/// Line starts among the first `n` bytes: 0, then one past every newline.
pub open spec fn starts_upto(b: Seq<u8>, n: int) -> Seq<u32>
    decreases n,
{
    if n <= 0 {
        seq![0u32]
    } else {
        let t = starts_upto(b, n - 1);
        if b[n - 1] == 10u8 { t.push(n as u32) } else { t }
    }
}

/// The byte offset of every line's first byte.
pub open spec fn line_starts_of(b: Seq<u8>) -> Seq<u32> {
    starts_upto(b, b.len() as int)
}

/// The last of the first `n` line starts at or before `o` (0 if none).
pub open spec fn line_ix(starts: Seq<u32>, o: int, n: int) -> int
    decreases n,
{
    if n <= 1 {
        0
    } else if starts[n - 1] <= o {
        n - 1
    } else {
        line_ix(starts, o, n - 1)
    }
}

/// The number of characters starting in `b[j..e]`.
pub open spec fn count_starts(b: Seq<u8>, j: int, e: int) -> nat
    decreases e - j,
{
    if j >= e {
        0
    } else {
        (if is_cont(b[j]) { 0nat } else { 1nat }) + count_starts(b, j + 1, e)
    }
}

/// The start of the `k`-th character (from 0) in `b[j..e]`, or `e` when
/// there are fewer.
pub open spec fn nth_start(b: Seq<u8>, j: int, e: int, k: nat) -> int
    decreases e - j,
{
    if j >= e {
        e
    } else if !is_cont(b[j]) {
        if k == 0 { j } else { nth_start(b, j + 1, e, (k - 1) as nat) }
    } else {
        nth_start(b, j + 1, e, k)
    }
}

/// 1-based (line, character column) of byte offset `o`.
pub open spec fn spec_line_col(b: Seq<u8>, o: int) -> (u32, u32) {
    let starts = line_starts_of(b);
    let ix = line_ix(starts, o, starts.len() as int);
    ((ix + 1) as u32, (count_starts(b, starts[ix] as int, o) + 1) as u32)
}

/// The byte offset of a 1-based (line, character column) position,
/// clamped: a line past the last one is the end of the text, a column
/// past a line's last character is that line's end.
pub open spec fn spec_offset(b: Seq<u8>, pos: Pos) -> u32 {
    let starts = line_starts_of(b);
    if pos.line == 0 || pos.line > starts.len() {
        b.len() as u32
    } else {
        let ix = pos.line - 1;
        let ls = starts[ix] as int;
        let le = if ix + 1 < starts.len() { starts[ix + 1] - 1 } else { b.len() as int };
        let k: nat = if pos.col == 0 { 0 } else { (pos.col - 1) as nat };
        nth_start(b, ls, le, k) as u32
    }
}

/// Line starts are strictly increasing, begin at 0, and stay within the
/// text; each but the first sits one past a newline.
pub proof fn lemma_starts(b: Seq<u8>, n: int)
    requires
        0 <= n <= b.len(),
        b.len() <= u32::MAX,
    ensures
        starts_upto(b, n).len() >= 1,
        starts_upto(b, n)[0] == 0,
        forall|i: int, j: int| 0 <= i < j < starts_upto(b, n).len() ==> #[trigger] starts_upto(b, n)[i] < #[trigger] starts_upto(b, n)[j],
        forall|i: int| 0 <= i < starts_upto(b, n).len() ==> #[trigger] starts_upto(b, n)[i] <= n,
        forall|i: int| 1 <= i < starts_upto(b, n).len() ==> b[#[trigger] starts_upto(b, n)[i] - 1] == 10u8,
        forall|p: int| 0 <= p < n && b[p] == 10u8 ==> #[trigger] starts_upto(b, n).contains((p + 1) as u32),
    decreases n,
{
    if n > 0 {
        lemma_starts(b, n - 1);
        let t = starts_upto(b, n - 1);
        if b[n - 1] != 10u8 {
            assert forall|p: int| 0 <= p < n && b[p] == 10u8 implies #[trigger] starts_upto(b, n).contains((p + 1) as u32) by {
                assert(t.contains((p + 1) as u32));
            }
        }
        if b[n - 1] == 10u8 {
            assert(t.push(n as u32)[t.len() as int] == n as u32);
            assert forall|p: int| 0 <= p < n && b[p] == 10u8 implies #[trigger] starts_upto(b, n).contains((p + 1) as u32) by {
                if p < n - 1 {
                    assert(t.contains((p + 1) as u32));
                    let q = choose|q: int| 0 <= q < t.len() && t[q] == (p + 1) as u32;
                    assert(starts_upto(b, n)[q] == (p + 1) as u32);
                } else {
                    assert(starts_upto(b, n)[t.len() as int] == (p + 1) as u32);
                }
            }
        }
    }
}

/// `line_ix` finds the last start at or before `o`.
pub proof fn lemma_line_ix(starts: Seq<u32>, o: int, n: int)
    requires
        1 <= n <= starts.len(),
        starts[0] == 0,
        0 <= o,
        forall|i: int, j: int| 0 <= i < j < starts.len() ==> #[trigger] starts[i] < #[trigger] starts[j],
    ensures
        0 <= line_ix(starts, o, n) < n,
        starts[line_ix(starts, o, n)] <= o,
        forall|i: int| line_ix(starts, o, n) < i < n ==> #[trigger] starts[i] > o,
    decreases n,
{
    if n > 1 && starts[n - 1] > o {
        lemma_line_ix(starts, o, n - 1);
    }
    if n > 1 && starts[n - 1] <= o {
    }
}

/// The `k`-th character start, counted from `j`, is `o` itself when `o`
/// is a boundary at or after `j` within the range and `k` counts the
/// characters before it.
proof fn lemma_nth_start_count(b: Seq<u8>, j: int, e: int, o: int)
    requires
        0 <= j <= o <= e <= b.len(),
        o == e || !is_cont(b[o]),
    ensures
        nth_start(b, j, e, count_starts(b, j, o)) == o,
    decreases o - j,
{
    if j < o {
        lemma_nth_start_count(b, j + 1, e, o);
    }
}

/// Counting character starts up to the end of a range never exceeds the
/// range.
proof fn lemma_count_starts_bound(b: Seq<u8>, j: int, e: int)
    requires
        j <= e,
    ensures
        count_starts(b, j, e) <= e - j,
    decreases e - j,
{
    if j < e {
        lemma_count_starts_bound(b, j + 1, e);
    }
}

/// The last character starting before `e`: counting up to `e` is
/// counting up to `e - 1` plus that byte.
proof fn lemma_count_starts_snoc(b: Seq<u8>, j: int, e: int)
    requires
        j < e,
    ensures
        count_starts(b, j, e) == count_starts(b, j, e - 1) + (if is_cont(b[e - 1]) { 0nat } else { 1nat }),
    decreases e - j,
{
    if j < e - 1 {
        lemma_count_starts_snoc(b, j + 1, e);
    } else {
        assert(count_starts(b, j + 1, e) == 0);
        assert(count_starts(b, j, e - 1) == 0);
    }
}

/// Converting a character boundary to (line, column) and back gives the
/// same offset.
pub proof fn law_offset_inverts_line_col(b: Seq<u8>, o: int)
    requires
        b.len() < u32::MAX,
        0 <= o <= b.len(),
        at_boundary(b, o),
    ensures
        spec_offset(b, Pos { line: spec_line_col(b, o).0, col: spec_line_col(b, o).1 }) == o,
{
    let starts = line_starts_of(b);
    lemma_starts(b, b.len() as int);
    lemma_line_ix(starts, o, starts.len() as int);
    let ix = line_ix(starts, o, starts.len() as int);
    let ls = starts[ix] as int;
    let le = if ix + 1 < starts.len() { starts[ix + 1] - 1 } else { b.len() as int };
    assert(starts.len() <= b.len() + 1) by {
        lemma_starts_len(b, b.len() as int);
    }
    assert(o <= le) by {
        if ix + 1 < starts.len() {
            assert(starts[ix + 1] > o);
        }
    }
    lemma_count_starts_bound(b, ls, o);
    let c = count_starts(b, ls, o);
    assert(at_boundary(b, o));
    if o < le {
        assert(!is_cont(b[o]));
    }
    lemma_nth_start_count(b, ls, le, o);
}

/// The `k`-th character start of a range that has more than `k`
/// characters (or exactly `k`, giving the range's end) lies in the range,
/// on a boundary, with `k` characters before it.
proof fn lemma_nth_start_props(b: Seq<u8>, j: int, e: int, k: nat)
    requires
        0 <= j <= e <= b.len(),
        k <= count_starts(b, j, e),
    ensures
        j <= nth_start(b, j, e, k) <= e,
        count_starts(b, j, nth_start(b, j, e, k)) == k,
        nth_start(b, j, e, k) < e ==> !is_cont(b[nth_start(b, j, e, k)]),
    decreases e - j,
{
    if j < e {
        if !is_cont(b[j]) {
            if k > 0 {
                lemma_nth_start_props(b, j + 1, e, (k - 1) as nat);
            }
        } else {
            lemma_nth_start_props(b, j + 1, e, k);
        }
    }
}

/// Converting an in-range position (a line of the text, a column at most
/// one past its last character) to an offset and back gives the same
/// position.
pub proof fn law_line_col_inverts_offset(b: Seq<u8>, pos: Pos)
    requires
        b.len() < u32::MAX,
        1 <= pos.line <= line_starts_of(b).len(),
        1 <= pos.col,
        ({
            let starts = line_starts_of(b);
            let ix = pos.line - 1;
            let ls = starts[ix] as int;
            let le = if ix + 1 < starts.len() { starts[ix + 1] - 1 } else { b.len() as int };
            pos.col <= count_starts(b, ls, le) + 1
        }),
    ensures
        spec_line_col(b, spec_offset(b, pos) as int) == (pos.line, pos.col),
{
    let starts = line_starts_of(b);
    lemma_starts(b, b.len() as int);
    lemma_starts_len(b, b.len() as int);
    let ix = pos.line - 1;
    let ls = starts[ix] as int;
    let le = if ix + 1 < starts.len() { starts[ix + 1] - 1 } else { b.len() as int };
    if ix + 1 < starts.len() {
        assert(starts[ix] < starts[ix + 1]);
        assert(starts[ix + 1] <= b.len());
    }
    let k = (pos.col - 1) as nat;
    lemma_nth_start_props(b, ls, le, k);
    let o = nth_start(b, ls, le, k);
    assert(spec_offset(b, pos) == o as u32);
    lemma_line_ix(starts, o, starts.len() as int);
    let found = line_ix(starts, o, starts.len() as int);
    if found < ix {
        assert(starts[found] < starts[ix]);
    }
    if found > ix {
        assert(starts[ix + 1] <= starts[found]);
    }
    assert(found == ix);
}

/// There are at most one more line starts than bytes.
proof fn lemma_starts_len(b: Seq<u8>, n: int)
    requires
        0 <= n,
    ensures
        starts_upto(b, n).len() <= n + 1,
    decreases n,
{
    if n > 0 {
        lemma_starts_len(b, n - 1);
    }
}

pub struct TextLineIndex {
    text: String,
    /// Byte offset of each line's first byte; `line_starts[0] == 0`.
    line_starts: Vec<u32>,
}

impl TextLineIndex {
    /// The indexed text's UTF-8 bytes.
    pub closed spec fn bytes(&self) -> Seq<u8> {
        encode_utf8(self.text@)
    }

    /// The index matches its text, whose length stays below `u32::MAX`.
    pub closed spec fn wf(&self) -> bool {
        &&& self.line_starts@ == line_starts_of(self.bytes())
        &&& self.bytes().len() < u32::MAX
    }

    /// Index `text`; its UTF-8 length must stay below `u32::MAX`.
    pub fn new(text: &str) -> (r: TextLineIndex)
        requires
            encode_utf8(text@).len() < u32::MAX,
        ensures
            r.wf(),
            r.bytes() == encode_utf8(text@),
    {
        let bytes = text.as_bytes();
        let mut line_starts: Vec<u32> = Vec::new();
        line_starts.push(0);
        let mut i: usize = 0;
        assert(line_starts@ =~= starts_upto(bytes@, 0));
        while i < bytes.len()
            invariant
                i <= bytes@.len(),
                bytes@.len() < u32::MAX,
                line_starts@ == starts_upto(bytes@, i as int),
            decreases bytes@.len() - i,
        {
            if bytes[i] == 10u8 {
                line_starts.push(i as u32 + 1);
            }
            i = i + 1;
        }
        TextLineIndex { text: text.to_owned(), line_starts }
    }

    /// 1-based (line, character column) of a byte offset, which must be a
    /// character boundary no later than the end of the text.
    pub fn line_col(&self, offset: u32) -> (r: (u32, u32))
        requires
            self.wf(),
            offset <= self.bytes().len(),
            at_boundary(self.bytes(), offset as int),
        ensures
            r == spec_line_col(self.bytes(), offset as int),
    {
        let bytes = self.text.as_str().as_bytes();
        proof {
            lemma_starts(bytes@, bytes@.len() as int);
            lemma_starts_len(bytes@, bytes@.len() as int);
        }
        let n = self.line_starts.len();
        let mut ix: usize = n - 1;
        while ix > 0 && self.line_starts[ix] > offset
            invariant
                ix < n,
                n == self.line_starts@.len(),
                self.line_starts@ == line_starts_of(bytes@),
                line_ix(self.line_starts@, offset as int, n as int) == line_ix(self.line_starts@, offset as int, ix + 1),
            decreases ix,
        {
            ix = ix - 1;
        }
        let line_start = self.line_starts[ix] as usize;
        proof {
            lemma_line_ix(self.line_starts@, offset as int, ix + 1);
        }
        let mut count: u32 = 0;
        let mut j: usize = line_start;
        while j < offset as usize
            invariant
                line_start <= j <= offset,
                offset <= bytes@.len(),
                bytes@.len() < u32::MAX,
                count as nat == count_starts(bytes@, line_start as int, j as int),
            decreases offset - j,
        {
            proof {
                lemma_count_starts_snoc(bytes@, line_start as int, j + 1);
                lemma_count_starts_bound(bytes@, line_start as int, j as int);
            }
            if !(0x80u8 <= bytes[j] && bytes[j] < 0xC0u8) {
                count = count + 1;
            }
            j = j + 1;
        }
        proof {
            lemma_count_starts_bound(bytes@, line_start as int, offset as int);
        }
        (ix as u32 + 1, count + 1)
    }

    /// Byte offset of a 1-based (line, character column) position: the
    /// inverse of [`TextLineIndex::line_col`], total where that is
    /// partial. A line past the last one yields the end of the text; a
    /// column at or past a line's last character yields that line's end.
    pub fn offset(&self, pos: Pos) -> (r: u32)
        requires
            self.wf(),
        ensures
            r == spec_offset(self.bytes(), pos),
    {
        let bytes = self.text.as_str().as_bytes();
        proof {
            lemma_starts(bytes@, bytes@.len() as int);
            lemma_starts_len(bytes@, bytes@.len() as int);
        }
        let text_len = bytes.len() as u32;
        if pos.line == 0 || pos.line as usize > self.line_starts.len() {
            return text_len;
        }
        let ix = (pos.line - 1) as usize;
        let line_start = self.line_starts[ix] as usize;
        let line_end: usize = if ix + 1 < self.line_starts.len() {
            (self.line_starts[ix + 1] - 1) as usize
        } else {
            text_len as usize
        };
        proof {
            if ix + 1 < self.line_starts@.len() {
                assert(self.line_starts@[ix as int] < self.line_starts@[ix + 1]);
            }
        }
        let mut col: u32 = 1;
        let mut j: usize = line_start;
        let ghost k: nat = if pos.col == 0 { 0 } else { (pos.col - 1) as nat };
        let ghost target = spec_offset(self.bytes(), pos);
        assert(target == nth_start(bytes@, line_start as int, line_end as int, k) as u32);
        while j < line_end
            invariant
                target == spec_offset(self.bytes(), pos),
                target == nth_start(bytes@, line_start as int, line_end as int, k) as u32,
                line_start <= j <= line_end,
                line_end <= bytes@.len(),
                bytes@.len() < u32::MAX,
                1 <= col,
                (col - 1) as nat <= k,
                k == (if pos.col == 0 { 0 } else { (pos.col - 1) as nat }),
                nth_start(bytes@, line_start as int, line_end as int, k)
                    == nth_start(bytes@, j as int, line_end as int, (k - (col - 1)) as nat),
            decreases line_end - j,
        {
            if !(0x80u8 <= bytes[j] && bytes[j] < 0xC0u8) {
                if col >= pos.col {
                    proof {
                        assert((k - (col - 1)) as nat == 0);
                        assert(nth_start(bytes@, j as int, line_end as int, 0) == j);
                        assert(nth_start(bytes@, line_start as int, line_end as int, k) == j);
                        assert(target == j as u32);
                    }
                    return j as u32;
                }
                col = col + 1;
            }
            j = j + 1;
        }
        assert(target == line_end as u32);
        line_end as u32
    }

    /// The span of a byte range: both ends converted, end-exclusive.
    pub fn span(&self, range: TextRange) -> (r: Span)
        requires
            self.wf(),
            range.start <= self.bytes().len(),
            range.end <= self.bytes().len(),
            at_boundary(self.bytes(), range.start as int),
            at_boundary(self.bytes(), range.end as int),
        ensures
            r.start == (Pos { line: spec_line_col(self.bytes(), range.start as int).0, col: spec_line_col(self.bytes(), range.start as int).1 }),
            r.end == (Pos { line: spec_line_col(self.bytes(), range.end as int).0, col: spec_line_col(self.bytes(), range.end as int).1 }),
    {
        let (sl, sc) = self.line_col(range.start);
        let (el, ec) = self.line_col(range.end);
        Span::new(sl, sc, el, ec)
    }
}

} // verus!
