//! Position mapping between the toolchain's 1-based, character-counted
//! `Pos`/`Span` and the protocol's 0-based, UTF-16-counted
//! `Position`/`Range`, against a document's current text.
//!
//! Lines come from splitting the text at `'\n'`; a trailing `'\r'` is not
//! countable content, so CRLF documents are tolerated. Out-of-range input
//! clamps: a column past a line's end clamps to that line's end, a line
//! past the end of the file clamps to one past the last line's end (the
//! column is then disregarded), and a UTF-16 offset inside a surrogate
//! pair snaps to the character's start.

use vstd::prelude::*;

use crate::diagnostics::{Pos, Span};
use crate::lsp::types::{Position, Range};
use crate::syntax::sink::chars_of;

verus! {

/// UTF-16 code units of `c`: two above the basic plane, else one.
pub open spec fn utf16_units(c: char) -> nat {
    if (c as u32) >= 0x10000 {
        2
    } else {
        1
    }
}

/// UTF-16 code units of `s`.
pub open spec fn utf16_len(s: Seq<char>) -> nat
    decreases s.len(),
{
    if s.len() == 0 {
        0
    } else {
        utf16_len(s.drop_last()) + utf16_units(s.last())
    }
}

/// The lines of `s`: split at every `'\n'`, which belongs to no line.
/// There is always at least one line.
pub open spec fn split_lines(s: Seq<char>) -> Seq<Seq<char>>
    decreases s.len(),
{
    if s.len() == 0 {
        seq![seq![]]
    } else {
        let prev = split_lines(s.drop_last());
        if s.last() == '\n' {
            prev.push(seq![])
        } else {
            prev.update(prev.len() - 1, prev.last().push(s.last()))
        }
    }
}

/// A line's countable content: without one trailing `'\r'`.
pub open spec fn content(line: Seq<char>) -> Seq<char> {
    if line.len() > 0 && line.last() == '\r' {
        line.drop_last()
    } else {
        line
    }
}

/// How many characters of `c` lie wholly before UTF-16 offset `ch`.
pub open spec fn snap(c: Seq<char>, ch: int) -> nat
    decreases c.len(),
{
    if c.len() == 0 {
        0
    } else if ch < utf16_units(c[0]) {
        0
    } else {
        1 + snap(c.drop_first(), ch - utf16_units(c[0]))
    }
}

/// The protocol position of `pos` in `text`.
pub open spec fn lsp_position(text: Seq<char>, pos: Pos) -> Position {
    let lines = split_lines(text);
    let n = lines.len() as int;
    if pos.line == 0 {
        Position { line: 0, character: 0 }
    } else if pos.line > n {
        Position { line: (n - 1) as u32, character: utf16_len(content(lines[n - 1])) as u32 }
    } else {
        let c = content(lines[pos.line - 1]);
        let k = if pos.col == 0 { 0 } else if pos.col - 1 < c.len() { pos.col - 1 } else { c.len() as int };
        Position { line: (pos.line - 1) as u32, character: utf16_len(c.take(k)) as u32 }
    }
}

/// The toolchain position of protocol position `p` in `text`.
pub open spec fn toolchain_pos(text: Seq<char>, p: Position) -> Pos {
    let lines = split_lines(text);
    let n = lines.len() as int;
    if p.line >= n {
        Pos { line: n as u32, col: (content(lines[n - 1]).len() + 1) as u32 }
    } else {
        Pos { line: (p.line + 1) as u32, col: (snap(content(lines[p.line as int]), p.character as int) + 1) as u32 }
    }
}

/// The text's UTF-16 length leaves room in a `u32`.
pub open spec fn fits(text: Seq<char>) -> bool {
    utf16_len(text) < u32::MAX
}

/// UTF-16 length is at least the character count, and adds up.
proof fn lemma_utf16_len_ge(s: Seq<char>)
    ensures
        utf16_len(s) >= s.len(),
    decreases s.len(),
{
    if s.len() > 0 {
        lemma_utf16_len_ge(s.drop_last());
    }
}

/// A prefix is no longer in UTF-16 units.
proof fn lemma_utf16_prefix(s: Seq<char>, k: int)
    requires
        0 <= k <= s.len(),
    ensures
        utf16_len(s.take(k)) <= utf16_len(s),
    decreases s.len() - k,
{
    if k < s.len() {
        lemma_utf16_prefix(s, k + 1);
        assert(s.take(k + 1).drop_last() =~= s.take(k));
    } else {
        assert(s.take(k) =~= s);
    }
}

/// UTF-16 length of a prefix grows by one character's units.
proof fn lemma_utf16_take(s: Seq<char>, k: int)
    requires
        0 <= k < s.len(),
    ensures
        utf16_len(s.take(k + 1)) == utf16_len(s.take(k)) + utf16_units(s[k]),
{
    assert(s.take(k + 1).drop_last() =~= s.take(k));
}

/// UTF-16 length of a character followed by more.
proof fn lemma_utf16_cons(s: Seq<char>)
    requires
        s.len() > 0,
    ensures
        utf16_len(s) == utf16_units(s[0]) + utf16_len(s.drop_first()),
    decreases s.len(),
{
    if s.len() > 1 {
        lemma_utf16_cons(s.drop_last());
        assert(s.drop_last().drop_first() =~= s.drop_first().drop_last());
        assert(s.drop_last()[0] == s[0]);
        assert(s.drop_first().last() == s.last());
    } else {
        assert(s.drop_first() =~= Seq::<char>::empty());
        assert(s.drop_last() =~= Seq::<char>::empty());
        assert(s.last() == s[0]);
    }
}

/// Every line is within the text: no line is longer in UTF-16 units, and
/// there are at most one more lines than characters.
proof fn lemma_lines_bounded(s: Seq<char>)
    ensures
        split_lines(s).len() >= 1,
        split_lines(s).len() <= s.len() + 1,
        forall|i: int| 0 <= i < split_lines(s).len() ==> utf16_len(#[trigger] split_lines(s)[i]) <= utf16_len(s),
    decreases s.len(),
{
    if s.len() > 0 {
        let prev = split_lines(s.drop_last());
        lemma_lines_bounded(s.drop_last());
        if s.last() != '\n' {
            let l = prev.last();
            assert(l.push(s.last()).drop_last() =~= l);
        }
    }
}

/// Content is a prefix of its line.
proof fn lemma_content_prefix(line: Seq<char>)
    ensures
        content(line) == line.take(content(line).len() as int),
        utf16_len(content(line)) <= utf16_len(line),
{
    assert(line.take(line.len() as int) =~= line);
    if line.len() > 0 && line.last() == '\r' {
        assert(line.drop_last() =~= line.take(line.len() - 1));
        lemma_utf16_prefix(line, line.len() - 1);
    }
}

/// Snapping the UTF-16 offset of `k` whole characters gives back `k`.
proof fn lemma_snap_prefix(c: Seq<char>, k: int)
    requires
        0 <= k <= c.len(),
    ensures
        snap(c, utf16_len(c.take(k)) as int) == k,
    decreases k,
{
    if k == 0 {
        assert(c.take(0) =~= Seq::<char>::empty());
    } else {
        let t = c.take(k);
        lemma_utf16_cons(t);
        assert(t[0] == c[0]);
        assert(t.drop_first() =~= c.drop_first().take(k - 1));
        lemma_snap_prefix(c.drop_first(), k - 1);
    }
}

/// UTF-16 units of one character.
fn units_of(c: char) -> (r: u32)
    ensures
        r == utf16_units(c),
{
    if (c as u32) >= 0x10000 {
        2
    } else {
        1
    }
}

/// The plain text of each line.
pub open spec fn lines_view(v: Seq<Vec<char>>) -> Seq<Seq<char>> {
    v.map_values(|l: Vec<char>| l@)
}

/// The lines of `chars` (see [`split_lines`]).
fn split_lines_of(chars: &Vec<char>) -> (r: Vec<Vec<char>>)
    ensures
        lines_view(r@) == split_lines(chars@),
{
    let mut lines: Vec<Vec<char>> = Vec::new();
    lines.push(Vec::new());
    let mut i: usize = 0;
    proof {
        assert(chars@.take(0) =~= Seq::<char>::empty());
        assert(lines_view(lines@) =~= seq![Seq::<char>::empty()]);
    }
    while i < chars.len()
        invariant
            i <= chars@.len(),
            lines@.len() >= 1,
            lines_view(lines@) == split_lines(chars@.take(i as int)),
        decreases chars@.len() - i,
    {
        let c = chars[i];
        let ghost prev = lines_view(lines@);
        proof {
            assert(chars@.take(i + 1).drop_last() =~= chars@.take(i as int));
            assert(chars@.take(i + 1).last() == c);
        }
        if c == '\n' {
            lines.push(Vec::new());
            proof {
                assert(lines_view(lines@) =~= prev.push(Seq::<char>::empty()));
            }
        } else {
            let last = lines.len() - 1;
            let mut line = Vec::new();
            std::mem::swap(&mut line, &mut lines[last]);
            line.push(c);
            lines.set(last, line);
            proof {
                assert(lines_view(lines@) =~= prev.update(prev.len() - 1, prev.last().push(c)));
            }
        }
        i = i + 1;
    }
    proof {
        assert(chars@.take(chars@.len() as int) =~= chars@);
    }
    lines
}

/// The number of countable characters of `line`.
fn content_len(line: &Vec<char>) -> (r: usize)
    ensures
        r == content(line@).len(),
{
    let n = line.len();
    if n > 0 && line[n - 1] == '\r' {
        n - 1
    } else {
        n
    }
}

/// UTF-16 units of the first `k` characters of `line`.
fn utf16_prefix(line: &Vec<char>, k: usize) -> (r: u32)
    requires
        k <= line@.len(),
        utf16_len(line@) < u32::MAX,
    ensures
        r == utf16_len(line@.take(k as int)),
{
    let mut sum: u32 = 0;
    let mut i: usize = 0;
    proof {
        assert(line@.take(0) =~= Seq::<char>::empty());
    }
    while i < k
        invariant
            i <= k <= line@.len(),
            utf16_len(line@) < u32::MAX,
            sum == utf16_len(line@.take(i as int)),
        decreases k - i,
    {
        proof {
            lemma_utf16_take(line@, i as int);
            lemma_utf16_prefix(line@, i + 1);
        }
        sum = sum + units_of(line[i]);
        i = i + 1;
    }
    sum
}

/// `Pos` (1-based line, 1-based character column) to `Position` (0-based
/// line, UTF-16 column) against the current text, clamping out-of-range
/// input: line 0 to the very start, a column past the line's end to the
/// line's end, a line past the end to one past the last line's end.
pub fn pos_to_lsp(text: &str, pos: Pos) -> (r: Position)
    requires
        fits(text@),
    ensures
        r == lsp_position(text@, pos),
{
    let chars = chars_of(text);
    let lines = split_lines_of(&chars);
    let ghost ls = split_lines(text@);
    proof {
        lemma_lines_bounded(text@);
        lemma_utf16_len_ge(text@);
    }
    let n = lines.len();
    if pos.line == 0 {
        return Position { line: 0, character: 0 };
    }
    if pos.line as usize > n {
        let last = &lines[n - 1];
        proof {
            assert(last@ == ls[n - 1]);
            lemma_content_prefix(last@);
        }
        let clen = content_len(last);
        let character = utf16_prefix(last, clen);
        return Position { line: (n - 1) as u32, character };
    }
    let line = &lines[(pos.line - 1) as usize];
    proof {
        assert(line@ == ls[pos.line - 1]);
        lemma_content_prefix(line@);
    }
    let clen = content_len(line);
    let target: usize = if pos.col == 0 { 0 } else { (pos.col - 1) as usize };
    let k = if target < clen { target } else { clen };
    let character = utf16_prefix(line, k);
    proof {
        assert(content(line@).take(k as int) =~= line@.take(k as int));
    }
    Position { line: pos.line - 1, character }
}

/// `Position` to `Pos`, the inverse of [`pos_to_lsp`] on the positions it
/// produces; clamps the same way, and an offset inside a surrogate pair
/// snaps to the character's start.
pub fn pos_from_lsp(text: &str, position: Position) -> (r: Pos)
    requires
        fits(text@),
    ensures
        r == toolchain_pos(text@, position),
{
    let chars = chars_of(text);
    let lines = split_lines_of(&chars);
    let ghost ls = split_lines(text@);
    proof {
        lemma_lines_bounded(text@);
        lemma_utf16_len_ge(text@);
    }
    let n = lines.len();
    if position.line as usize >= n {
        let last = &lines[n - 1];
        proof {
            assert(last@ == ls[n - 1]);
            lemma_content_prefix(last@);
            lemma_utf16_len_ge(content(last@));
        }
        let clen = content_len(last);
        return Pos { line: n as u32, col: clen as u32 + 1 };
    }
    let line = &lines[position.line as usize];
    let ghost c = content(line@);
    proof {
        assert(line@ == ls[position.line as int]);
        lemma_content_prefix(line@);
        lemma_utf16_len_ge(c);
        assert(c.skip(0) =~= c);
    }
    let clen = content_len(line);
    let mut start: u32 = 0;
    let mut idx: usize = 0;
    while idx < clen
        invariant
            idx <= clen == c.len(),
            clen <= line@.len(),
            c == line@.take(clen as int),
            utf16_len(c) <= utf16_len(line@) < u32::MAX,
            start == utf16_len(c.take(idx as int)),
            snap(c, position.character as int) == idx + snap(c.skip(idx as int), position.character - start),
        ensures
            idx <= clen,
            snap(c, position.character as int) == idx,
        decreases clen - idx,
    {
        let u = units_of(line[idx]);
        proof {
            assert(line@[idx as int] == c[idx as int]);
            lemma_utf16_take(c, idx as int);
            lemma_utf16_prefix(c, idx + 1);
            let rest = c.skip(idx as int);
            assert(rest[0] == c[idx as int]);
            assert(rest.drop_first() =~= c.skip(idx + 1));
        }
        if position.character < start + u {
            proof {
                assert(snap(c.skip(idx as int), position.character - start) == 0);
            }
            break;
        }
        start = start + u;
        idx = idx + 1;
    }
    Pos { line: position.line + 1, col: idx as u32 + 1 }
}

/// Maps both endpoints of a half-open `Span` to a half-open `Range`.
pub fn span_to_range(text: &str, span: Span) -> (r: Range)
    requires
        fits(text@),
    ensures
        r.start == lsp_position(text@, span.start),
        r.end == lsp_position(text@, span.end),
{
    Range { start: pos_to_lsp(text, span.start), end: pos_to_lsp(text, span.end) }
}

/// Maps both endpoints of a half-open `Range` to a half-open `Span`.
pub fn range_to_span(text: &str, range: Range) -> (r: Span)
    requires
        fits(text@),
    ensures
        r.start == toolchain_pos(text@, range.start),
        r.end == toolchain_pos(text@, range.end),
{
    Span { start: pos_from_lsp(text, range.start), end: pos_from_lsp(text, range.end) }
}

/// Every caret position of a line, from its first column through one past
/// its last character, survives the trip to the protocol and back.
pub proof fn law_position_round_trip(text: Seq<char>, pos: Pos)
    requires
        fits(text),
        1 <= pos.line <= split_lines(text).len(),
        1 <= pos.col <= content(split_lines(text)[pos.line - 1]).len() + 1,
    ensures
        toolchain_pos(text, lsp_position(text, pos)) == pos,
{
    let ls = split_lines(text);
    lemma_lines_bounded(text);
    let c = content(ls[pos.line - 1]);
    lemma_content_prefix(ls[pos.line - 1]);
    let k = pos.col - 1;
    lemma_utf16_prefix(c, k);
    lemma_snap_prefix(c, k);
}

/// A semantic token as a language service reports it: a single-line span
/// with its legend type index and modifier bits.
#[derive(Debug, Clone, Copy, PartialEq, Eq)]
pub struct SemToken {
    pub span: Span,
    pub token_type: u32,
    pub modifiers: u32,
}

/// `a` is at or before `b`: line first, then column.
pub open spec fn pos_le(a: Pos, b: Pos) -> bool {
    a.line < b.line || (a.line == b.line && a.col <= b.col)
}

/// `a` is at or before `b` in protocol order.
pub open spec fn position_le(a: Position, b: Position) -> bool {
    a.line < b.line || (a.line == b.line && a.character <= b.character)
}

/// Where a token starting at `p` goes in `s`: after the last token that
/// starts at or before `p`, scanning from the back.
pub open spec fn insert_slot(s: Seq<SemToken>, p: Pos) -> int
    decreases s.len(),
{
    if s.len() == 0 {
        0
    } else if pos_le(s.last().span.start, p) {
        s.len() as int
    } else {
        insert_slot(s.drop_last(), p)
    }
}

/// The first `n` tokens, stably sorted by span start.
pub open spec fn sorted_upto(toks: Seq<SemToken>, n: int) -> Seq<SemToken>
    decreases n,
{
    if n <= 0 {
        seq![]
    } else {
        let s = sorted_upto(toks, n - 1);
        s.insert(insert_slot(s, toks[n - 1].span.start), toks[n - 1])
    }
}

/// The tokens stably sorted by span start.
pub open spec fn sorted_by_start(toks: Seq<SemToken>) -> Seq<SemToken> {
    sorted_upto(toks, toks.len() as int)
}

/// Tokens in nondecreasing start order.
pub open spec fn starts_sorted(s: Seq<SemToken>) -> bool {
    forall|i: int, j: int| 0 <= i < j < s.len() ==> pos_le(#[trigger] s[i].span.start, #[trigger] s[j].span.start)
}

/// One token's five packed numbers, relative to the previous token's
/// start `prev`.
pub open spec fn packed_entry(text: Seq<char>, prev: Position, t: SemToken) -> Seq<u32> {
    let st = lsp_position(text, t.span.start);
    let en = lsp_position(text, t.span.end);
    let dl = st.line - prev.line;
    seq![
        dl as u32,
        (if dl == 0 { st.character - prev.character } else { st.character as int }) as u32,
        (en.character - st.character) as u32,
        t.token_type,
        t.modifiers,
    ]
}

/// The packed numbers of tokens already in order.
pub open spec fn packed(text: Seq<char>, s: Seq<SemToken>) -> Seq<u32>
    decreases s.len(),
{
    if s.len() == 0 {
        seq![]
    } else {
        let prev = if s.len() >= 2 {
            lsp_position(text, s[s.len() - 2].span.start)
        } else {
            Position { line: 0, character: 0 }
        };
        packed(text, s.drop_last()) + packed_entry(text, prev, s.last())
    }
}

/// A token whose span is one line, start not after end.
pub open spec fn single_line(t: SemToken) -> bool {
    t.span.start.line == t.span.end.line && t.span.start.col <= t.span.end.col
}

/// Protocol positions keep source order.
proof fn lemma_lsp_monotone(text: Seq<char>, a: Pos, b: Pos)
    requires
        fits(text),
        pos_le(a, b),
    ensures
        position_le(lsp_position(text, a), lsp_position(text, b)),
{
    let ls = split_lines(text);
    lemma_lines_bounded(text);
    lemma_utf16_len_ge(text);
    let n = ls.len() as int;
    if a.line != 0 && a.line <= n {
        let line = ls[a.line - 1];
        let c = content(line);
        lemma_content_prefix(line);
        let ka = if a.col == 0 { 0 } else if a.col - 1 < c.len() { a.col - 1 } else { c.len() as int };
        lemma_utf16_prefix(c, ka);
        if b.line == a.line {
            let kb = if b.col == 0 { 0 } else if b.col - 1 < c.len() { b.col - 1 } else { c.len() as int };
            lemma_utf16_prefix(c, kb);
            lemma_utf16_prefix(c.take(kb), ka);
            assert(c.take(kb).take(ka) =~= c.take(ka));
            assert(utf16_len(c.take(ka)) <= utf16_len(c.take(kb)));
        } else if b.line > n {
            assert(a.line - 1 <= n - 1);
        }
    } else if a.line > n {
        assert(b.line > n);
    }
}

/// Where the slot lies: every token before it starts at or before `p`,
/// every token from it on after.
proof fn lemma_insert_slot(s: Seq<SemToken>, p: Pos)
    requires
        starts_sorted(s),
    ensures
        0 <= insert_slot(s, p) <= s.len(),
        forall|i: int| 0 <= i < insert_slot(s, p) ==> pos_le(#[trigger] s[i].span.start, p),
        forall|i: int| insert_slot(s, p) <= i < s.len() ==> !pos_le(#[trigger] s[i].span.start, p),
    decreases s.len(),
{
    if s.len() > 0 {
        let k = insert_slot(s, p);
        if pos_le(s.last().span.start, p) {
            assert forall|i: int| 0 <= i < s.len() implies pos_le(#[trigger] s[i].span.start, p) by {
                if i < s.len() - 1 {
                    assert(pos_le(s[i].span.start, s[s.len() - 1].span.start));
                }
            }
        } else {
            lemma_insert_slot(s.drop_last(), p);
            assert forall|i: int| 0 <= i < k implies pos_le(#[trigger] s[i].span.start, p) by {
                assert(s.drop_last()[i] == s[i]);
            }
            assert forall|i: int| k <= i < s.len() implies !pos_le(#[trigger] s[i].span.start, p) by {
                if i < s.len() - 1 {
                    assert(s.drop_last()[i] == s[i]);
                }
            }
        }
    }
}

/// The stable sort's output is in start order and keeps every token.
proof fn lemma_sorted_upto(toks: Seq<SemToken>, n: int)
    requires
        0 <= n <= toks.len(),
    ensures
        starts_sorted(sorted_upto(toks, n)),
        sorted_upto(toks, n).len() == n,
        forall|i: int| 0 <= i < n ==> #[trigger] sorted_upto(toks, n).contains(toks[i]),
        forall|i: int| 0 <= i < n ==> exists|j: int| 0 <= j < n && #[trigger] sorted_upto(toks, n)[i] == toks[j],
    decreases n,
{
    if n > 0 {
        lemma_sorted_upto(toks, n - 1);
        let s = sorted_upto(toks, n - 1);
        let t = toks[n - 1];
        let p = t.span.start;
        lemma_insert_slot(s, p);
        let k = insert_slot(s, p);
        let r = s.insert(k, t);
        assert(r == sorted_upto(toks, n));
        assert forall|i: int, j: int| 0 <= i < j < r.len() implies pos_le(#[trigger] r[i].span.start, #[trigger] r[j].span.start) by {
            if j < k {
                assert(r[i] == s[i] && r[j] == s[j]);
            } else if j == k {
                assert(r[i] == s[i]);
            } else if i < k {
                assert(r[i] == s[i] && r[j] == s[j - 1]);
                assert(pos_le(s[i].span.start, s[j - 1].span.start));
            } else if i == k {
                assert(r[j] == s[j - 1]);
                assert(!pos_le(s[j - 1].span.start, p));
            } else {
                assert(r[i] == s[i - 1] && r[j] == s[j - 1]);
            }
        }
        assert forall|i: int| 0 <= i < n implies #[trigger] r.contains(toks[i]) by {
            if i == n - 1 {
                assert(r[k] == t);
            } else {
                assert(s.contains(toks[i]));
                let m = choose|m: int| 0 <= m < s.len() && s[m] == toks[i];
                if m < k {
                    assert(r[m] == toks[i]);
                } else {
                    assert(r[m + 1] == toks[i]);
                }
            }
        }
        assert forall|i: int| 0 <= i < n implies exists|j: int| 0 <= j < n && #[trigger] r[i] == toks[j] by {
            if i < k {
                assert(r[i] == s[i]);
                let j = choose|j: int| 0 <= j < n - 1 && s[i] == toks[j];
                assert(r[i] == toks[j]);
            } else if i == k {
                assert(r[i] == toks[n - 1]);
            } else {
                assert(r[i] == s[i - 1]);
                let j = choose|j: int| 0 <= j < n - 1 && s[i - 1] == toks[j];
                assert(r[i] == toks[j]);
            }
        }
    }
}

/// `a` at or before `b`.
fn pos_le_exec(a: Pos, b: Pos) -> (r: bool)
    ensures
        r == pos_le(a, b),
{
    a.line < b.line || (a.line == b.line && a.col <= b.col)
}

/// The tokens stably sorted by span start.
fn sort_by_start(tokens: &[SemToken]) -> (r: Vec<SemToken>)
    ensures
        r@ == sorted_by_start(tokens@),
{
    let mut sorted: Vec<SemToken> = Vec::new();
    let mut i: usize = 0;
    while i < tokens.len()
        invariant
            i <= tokens@.len(),
            sorted@ == sorted_upto(tokens@, i as int),
        decreases tokens@.len() - i,
    {
        let t = tokens[i];
        let mut j = sorted.len();
        proof {
            assert(sorted@.take(sorted@.len() as int) =~= sorted@);
        }
        while j > 0 && !pos_le_exec(sorted[j - 1].span.start, t.span.start)
            invariant
                j <= sorted@.len(),
                insert_slot(sorted@, t.span.start) == insert_slot(sorted@.take(j as int), t.span.start),
            decreases j,
        {
            proof {
                let pre = sorted@.take(j as int);
                assert(pre.drop_last() =~= sorted@.take(j - 1));
                assert(pre.last() == sorted@[j - 1]);
            }
            j = j - 1;
        }
        proof {
            assert(sorted@.take(sorted@.len() as int) =~= sorted@);
            let pre = sorted@.take(j as int);
            if j > 0 {
                assert(pre.last() == sorted@[j - 1]);
            } else {
                assert(pre.len() == 0);
            }
        }
        sorted.insert(j, t);
        i = i + 1;
    }
    sorted
}

/// Absolute tokens to the wire's relative-packed numbers: for each token
/// in span-start order (a stable sort), its line less the previous
/// token's line, its start column less the previous token's start column
/// when on the same line (else the start column itself), its length, its
/// type and its modifiers; columns and lengths in UTF-16 units.
pub fn pack_semantic_tokens(text: &str, tokens: &[SemToken]) -> (r: Vec<u32>)
    requires
        fits(text@),
        forall|i: int| 0 <= i < tokens@.len() ==> single_line(#[trigger] tokens@[i]),
    ensures
        r@ == packed(text@, sorted_by_start(tokens@)),
{
    let sorted = sort_by_start(tokens);
    proof {
        lemma_sorted_upto(tokens@, tokens@.len() as int);
    }
    let ghost s = sorted@;
    let mut out: Vec<u32> = Vec::new();
    let mut prev_line: u32 = 0;
    let mut prev_start: u32 = 0;
    let mut i: usize = 0;
    while i < sorted.len()
        invariant
            fits(text@),
            s == sorted@,
            i <= s.len(),
            starts_sorted(s),
            forall|m: int| 0 <= m < s.len() ==> single_line(#[trigger] s[m]),
            out@ == packed(text@, s.take(i as int)),
            i == 0 ==> prev_line == 0 && prev_start == 0,
            i > 0 ==> (Position { line: prev_line, character: prev_start }) == lsp_position(text@, s[i - 1].span.start),
        decreases s.len() - i,
    {
        let token = sorted[i];
        let range = span_to_range(text, token.span);
        proof {
            lemma_lsp_monotone(text@, token.span.start, token.span.end);
            if i > 0 {
                lemma_lsp_monotone(text@, s[i - 1].span.start, token.span.start);
            }
            let st = lsp_position(text@, token.span.start);
            let en = lsp_position(text@, token.span.end);
            assert(st.line == en.line);
        }
        let line = range.start.line;
        let start = range.start.character;
        let length = range.end.character - range.start.character;
        let delta_line = line - prev_line;
        let delta_start = if delta_line == 0 { start - prev_start } else { start };
        let ghost before = out@;
        out.push(delta_line);
        out.push(delta_start);
        out.push(length);
        out.push(token.token_type);
        out.push(token.modifiers);
        proof {
            let t = s.take(i + 1);
            assert(t.drop_last() =~= s.take(i as int));
            assert(t.last() == token);
            let prev = if t.len() >= 2 { lsp_position(text@, t[t.len() - 2].span.start) } else { Position { line: 0, character: 0 } };
            if i > 0 {
                assert(t[t.len() - 2] == s[i - 1]);
            }
            assert(prev == Position { line: prev_line, character: prev_start });
            assert(out@ =~= before + packed_entry(text@, prev, token));
        }
        prev_line = line;
        prev_start = start;
        i = i + 1;
    }
    proof {
        assert(s.take(s.len() as int) =~= s);
    }
    out
}

} // verus!
