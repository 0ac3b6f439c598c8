//! The byte side of a text's lines and characters. UTF-8 gives each
//! character one leading byte and its continuation bytes, and a newline
//! is the one character whose bytes hold 10; so the byte line starts of
//! the line index are the encodings of the character line starts, and a
//! character column lands on its character's leading byte. This ties the
//! line index, which counts bytes, to the protocol position conversion,
//! which counts characters: every position that conversion produces
//! resolves to the byte offset of the character it names.

use vstd::prelude::*;
use vstd::utf8::*;

use super::line_index::{is_cont, starts_upto, line_starts_of, count_starts, nth_start, spec_offset};
use crate::diagnostics::Pos;
use crate::lsp::position::{content, snap, split_lines, toolchain_pos};
use crate::lsp::types::Position;

verus! {

broadcast use vstd::utf8::char_is_scalar;

/// The bytes of one character: a leading byte, then continuation bytes;
/// only a newline's byte is 10.
pub proof fn lemma_char_bytes(c: char)
    ensures
        1 <= encode_scalar(c as u32).len() <= 4,
        !is_cont(encode_scalar(c as u32)[0]),
        forall|i: int| 1 <= i < encode_scalar(c as u32).len() ==> is_cont(#[trigger] encode_scalar(c as u32)[i]),
        forall|i: int| 0 <= i < encode_scalar(c as u32).len() ==>
            ((#[trigger] encode_scalar(c as u32)[i] == 10u8) <==> (i == 0 && c == '\n')),
{
    let v = c as u32;
    let e = encode_scalar(v);
    if has_width_1_encoding(v) {
        assert((v & 0x7F) as u8 == v) by (bit_vector)
            requires
                v <= 0x7F,
        ;
        assert(e[0] == v as u8);
        assert((e[0] == 10u8) <==> (c == '\n'));
    } else if has_width_2_encoding(v) {
        assert(0xC0 <= (0xC0u8 | ((v >> 6u32) & 0x1Fu32) as u8)) by (bit_vector);
        assert(0x80 <= (0x80u8 | (v & 0x3Fu32) as u8) < 0xC0) by (bit_vector);
    } else if has_width_3_encoding(v) {
        assert(0xE0 <= (0xE0u8 | ((v >> 12u32) & 0x0Fu32) as u8)) by (bit_vector);
        assert(0x80 <= (0x80u8 | ((v >> 6u32) & 0x3Fu32) as u8) < 0xC0) by (bit_vector);
        assert(0x80 <= (0x80u8 | (v & 0x3Fu32) as u8) < 0xC0) by (bit_vector);
    } else {
        assert(0xF0 <= (0xF0u8 | ((v >> 18u32) & 0x7u32) as u8)) by (bit_vector);
        assert(0x80 <= (0x80u8 | ((v >> 12u32) & 0x3Fu32) as u8) < 0xC0) by (bit_vector);
        assert(0x80 <= (0x80u8 | ((v >> 6u32) & 0x3Fu32) as u8) < 0xC0) by (bit_vector);
        assert(0x80 <= (0x80u8 | (v & 0x3Fu32) as u8) < 0xC0) by (bit_vector);
    }
}

/// Encoding a concatenation concatenates the encodings.
pub proof fn lemma_encode_concat(a: Seq<char>, b: Seq<char>)
    ensures
        encode_utf8(a + b) == encode_utf8(a) + encode_utf8(b),
    decreases a.len(),
{
    if a.len() == 0 {
        assert(a + b =~= b);
        assert(encode_utf8(a) + encode_utf8(b) =~= encode_utf8(b));
    } else {
        lemma_encode_concat(a.drop_first(), b);
        assert((a + b).drop_first() =~= a.drop_first() + b);
        assert((a + b)[0] == a[0]);
        assert(encode_utf8(a + b) =~= encode_utf8(a) + encode_utf8(b));
    }
}

/// The byte offset of character `k` of `t`.
pub open spec fn byte_at(t: Seq<char>, k: int) -> int {
    encode_utf8(t.take(k)).len() as int
}

/// One more character adds its own bytes.
pub proof fn lemma_encode_take(t: Seq<char>, k: int)
    requires
        0 <= k < t.len(),
    ensures
        encode_utf8(t.take(k + 1)) == encode_utf8(t.take(k)) + encode_scalar(t[k] as u32),
        byte_at(t, k + 1) == byte_at(t, k) + encode_scalar(t[k] as u32).len(),
{
    assert(t.take(k + 1) =~= t.take(k) + seq![t[k]]);
    lemma_encode_concat(t.take(k), seq![t[k]]);
    let one = seq![t[k]];
    assert(one[0] == t[k]);
    assert(one.drop_first() =~= Seq::<char>::empty());
    assert(encode_utf8(Seq::<char>::empty()) =~= Seq::<u8>::empty());
    assert(encode_utf8(one) =~= encode_scalar(t[k] as u32));
}

/// The bytes of the text from character `k`'s offset to the next are
/// character `k`'s encoding; the offsets grow with `k`.
pub proof fn lemma_bytes_of_char(t: Seq<char>, k: int)
    requires
        0 <= k < t.len(),
    ensures
        byte_at(t, k) < byte_at(t, k + 1) <= encode_utf8(t).len(),
        forall|o: int| byte_at(t, k) <= o < byte_at(t, k + 1) ==>
            #[trigger] encode_utf8(t)[o] == encode_scalar(t[k] as u32)[o - byte_at(t, k)],
{
    lemma_encode_take(t, k);
    lemma_char_bytes(t[k]);
    assert(t =~= t.take(k + 1) + t.skip(k + 1));
    lemma_encode_concat(t.take(k + 1), t.skip(k + 1));
}

/// Offsets of characters are increasing, start at 0 and end at the
/// text's byte length.
pub proof fn lemma_byte_at_mono(t: Seq<char>, j: int, k: int)
    requires
        0 <= j <= k <= t.len(),
    ensures
        byte_at(t, j) + (k - j) <= byte_at(t, k),
        byte_at(t, 0) == 0,
        byte_at(t, t.len() as int) == encode_utf8(t).len(),
    decreases k - j,
{
    assert(t.take(0) =~= Seq::<char>::empty());
    assert(t.take(t.len() as int) =~= t);
    if j < k {
        lemma_byte_at_mono(t, j, k - 1);
        lemma_bytes_of_char(t, k - 1);
    }
}

/// The facts about the byte at offset `o` inside character `k`: it leads
/// exactly at the character's offset, and holds 10 exactly for a newline.
pub proof fn lemma_byte_in_char(t: Seq<char>, k: int, o: int)
    requires
        0 <= k < t.len(),
        byte_at(t, k) <= o < byte_at(t, k + 1),
    ensures
        is_cont(encode_utf8(t)[o]) <==> o != byte_at(t, k),
        (encode_utf8(t)[o] == 10u8) <==> (o == byte_at(t, k) && t[k] == '\n'),
        t[k] == '\n' ==> byte_at(t, k + 1) == byte_at(t, k) + 1,
{
    lemma_bytes_of_char(t, k);
    lemma_char_bytes(t[k]);
    lemma_encode_take(t, k);
    let i = o - byte_at(t, k);
    assert(encode_utf8(t)[o] == encode_scalar(t[k] as u32)[i]);
    if t[k] == '\n' {
        assert(('\n' as u32) == 10);
        assert(has_width_1_encoding(10u32));
    }
}

/// Bytes that hold no 10 add no line start.
proof fn lemma_starts_skip(b: Seq<u8>, lo: int, hi: int)
    requires
        0 <= lo <= hi <= b.len(),
        forall|q: int| lo <= q < hi ==> b[q] != 10u8,
    ensures
        starts_upto(b, hi) == starts_upto(b, lo),
    decreases hi - lo,
{
    if lo < hi {
        lemma_starts_skip(b, lo, hi - 1);
    }
}

/// Continuation bytes at the front of a range start no character.
proof fn lemma_count_skip(b: Seq<u8>, lo: int, hi: int, e: int)
    requires
        0 <= lo <= hi <= e <= b.len(),
        forall|q: int| lo <= q < hi ==> is_cont(b[q]),
    ensures
        count_starts(b, lo, e) == count_starts(b, hi, e),
        forall|k: nat| nth_start(b, lo, e, k) == nth_start(b, hi, e, k),
    decreases hi - lo,
{
    if lo < hi {
        lemma_count_skip(b, lo + 1, hi, e);
    }
}

/// The characters from `j` to `m` start `m - j` characters in their
/// bytes, and the `k`-th of them starts at character `j + k`'s offset.
pub proof fn lemma_count_chars(t: Seq<char>, j: int, m: int)
    requires
        0 <= j <= m <= t.len(),
    ensures
        count_starts(encode_utf8(t), byte_at(t, j), byte_at(t, m)) == m - j,
        forall|k: nat| k <= m - j ==> nth_start(encode_utf8(t), byte_at(t, j), byte_at(t, m), k) == byte_at(t, j + k),
    decreases m - j,
{
    let b = encode_utf8(t);
    lemma_byte_at_mono(t, j, m);
    lemma_byte_at_mono(t, m, t.len() as int);
    if j < m {
        lemma_count_chars(t, j + 1, m);
        lemma_byte_at_mono(t, j + 1, m);
        lemma_bytes_of_char(t, j);
        assert forall|q: int| byte_at(t, j) + 1 <= q < byte_at(t, j + 1) implies is_cont(b[q]) by {
            lemma_byte_in_char(t, j, q);
        }
        lemma_byte_in_char(t, j, byte_at(t, j));
        lemma_count_skip(b, byte_at(t, j) + 1, byte_at(t, j + 1), byte_at(t, m));
        assert forall|k: nat| k <= m - j implies nth_start(b, byte_at(t, j), byte_at(t, m), k) == byte_at(t, j + k) by {
            if k > 0 {
                assert(nth_start(b, byte_at(t, j), byte_at(t, m), k)
                    == nth_start(b, byte_at(t, j) + 1, byte_at(t, m), (k - 1) as nat));
                assert(nth_start(b, byte_at(t, j + 1), byte_at(t, m), (k - 1) as nat) == byte_at(t, j + 1 + (k - 1)));
            }
        }
    }
}

/// Character line starts among the first `m` characters: 0, then one past
/// every newline.
pub open spec fn char_starts_upto(t: Seq<char>, m: int) -> Seq<int>
    decreases m,
{
    if m <= 0 {
        seq![0]
    } else {
        let s = char_starts_upto(t, m - 1);
        if t[m - 1] == '\n' {
            s.push(m)
        } else {
            s
        }
    }
}

/// The character index where each line of `t` starts.
pub open spec fn char_line_starts(t: Seq<char>) -> Seq<int> {
    char_starts_upto(t, t.len() as int)
}

/// Character indices taken to their byte offsets.
pub open spec fn byte_starts(t: Seq<char>, s: Seq<int>) -> Seq<u32> {
    s.map_values(|k: int| byte_at(t, k) as u32)
}

/// The byte line starts up to character `m`'s offset are the offsets of
/// the character line starts.
pub proof fn lemma_byte_line_starts(t: Seq<char>, m: int)
    requires
        0 <= m <= t.len(),
        encode_utf8(t).len() <= u32::MAX,
    ensures
        starts_upto(encode_utf8(t), byte_at(t, m)) == byte_starts(t, char_starts_upto(t, m)),
    decreases m,
{
    let b = encode_utf8(t);
    lemma_byte_at_mono(t, 0, m);
    lemma_byte_at_mono(t, m, t.len() as int);
    if m == 0 {
        assert(starts_upto(b, 0) == seq![0u32]);
        assert(byte_starts(t, char_starts_upto(t, 0)) =~= seq![0u32]);
    } else {
        lemma_byte_line_starts(t, m - 1);
        let s0 = byte_at(t, m - 1);
        let s1 = byte_at(t, m);
        lemma_byte_at_mono(t, m - 1, m);
        lemma_byte_in_char(t, m - 1, s0);
        assert forall|q: int| s0 + 1 <= q < s1 implies b[q] != 10u8 by {
            lemma_byte_in_char(t, m - 1, q);
        }
        lemma_starts_skip(b, s0 + 1, s1);
        let prev = char_starts_upto(t, m - 1);
        if t[m - 1] == '\n' {
            assert(byte_starts(t, prev.push(m)) =~= byte_starts(t, prev).push(s1 as u32));
        }
    }
}

/// Where the line starting at `cs[i]` ends, among the first `m`
/// characters: before the next line's newline, or at `m` for the last.
pub open spec fn line_end(cs: Seq<int>, i: int, m: int) -> int {
    if i + 1 < cs.len() {
        cs[i + 1] - 1
    } else {
        m
    }
}

/// The lines of the first `m` characters start at the character line
/// starts, which increase from 0, each after a newline, and run to the
/// next line's newline.
pub proof fn lemma_lines_at(t: Seq<char>, m: int)
    requires
        0 <= m <= t.len(),
    ensures
        split_lines(t.take(m)).len() == char_starts_upto(t, m).len(),
        char_starts_upto(t, m).len() >= 1,
        char_starts_upto(t, m)[0] == 0,
        forall|i: int, j: int| 0 <= i < j < char_starts_upto(t, m).len() ==>
            #[trigger] char_starts_upto(t, m)[i] < #[trigger] char_starts_upto(t, m)[j],
        forall|i: int| 0 <= i < char_starts_upto(t, m).len() ==> #[trigger] char_starts_upto(t, m)[i] <= m,
        forall|i: int| 1 <= i < char_starts_upto(t, m).len() ==> t[#[trigger] char_starts_upto(t, m)[i] - 1] == '\n',
        forall|i: int| 0 <= i < char_starts_upto(t, m).len() ==>
            #[trigger] split_lines(t.take(m))[i] == t.subrange(char_starts_upto(t, m)[i], line_end(char_starts_upto(t, m), i, m)),
    decreases m,
{
    let cs = char_starts_upto(t, m);
    let ls = split_lines(t.take(m));
    if m == 0 {
        assert(t.take(0) =~= Seq::<char>::empty());
        assert(t.subrange(0, 0) =~= Seq::<char>::empty());
        assert(ls =~= seq![Seq::<char>::empty()]);
    } else {
        lemma_lines_at(t, m - 1);
        let prev = split_lines(t.take(m - 1));
        let cp = char_starts_upto(t, m - 1);
        assert(t.take(m).drop_last() =~= t.take(m - 1));
        assert(t.take(m).last() == t[m - 1]);
        if t[m - 1] == '\n' {
            assert(ls == prev.push(Seq::<char>::empty()));
            assert(cs == cp.push(m));
            assert forall|i: int| 0 <= i < cs.len() implies #[trigger] ls[i] == t.subrange(cs[i], line_end(cs, i, m)) by {
                if i < cp.len() {
                    assert(ls[i] == prev[i]);
                    if i + 1 < cp.len() {
                        assert(line_end(cs, i, m) == line_end(cp, i, m - 1));
                    } else {
                        assert(line_end(cs, i, m) == m - 1);
                    }
                } else {
                    assert(t.subrange(m, m) =~= Seq::<char>::empty());
                }
            }
        } else {
            assert(cs == cp);
            let last = prev.len() - 1;
            assert(ls == prev.update(last, prev.last().push(t[m - 1])));
            assert forall|i: int| 0 <= i < cs.len() implies #[trigger] ls[i] == t.subrange(cs[i], line_end(cs, i, m)) by {
                if i < last {
                    assert(ls[i] == prev[i]);
                } else {
                    assert(prev[last] == t.subrange(cp[last], m - 1));
                    assert(t.subrange(cp[last], m - 1).push(t[m - 1]) =~= t.subrange(cp[last], m));
                }
            }
        }
    }
}

/// A position within a line of `t` (its column at most one past the
/// line's last character) resolves to the byte offset of its character:
/// the line's first character plus the column.
pub proof fn law_offset_of_a_character_position(t: Seq<char>, pos: Pos)
    requires
        encode_utf8(t).len() < u32::MAX,
        1 <= pos.line <= split_lines(t).len(),
        1 <= pos.col <= split_lines(t)[pos.line - 1].len() + 1,
    ensures
        0 <= char_line_starts(t)[pos.line - 1] + pos.col - 1 <= t.len(),
        spec_offset(encode_utf8(t), pos) == byte_at(t, char_line_starts(t)[pos.line - 1] + pos.col - 1),
{
    let b = encode_utf8(t);
    let n = t.len() as int;
    assert(t.take(n) =~= t);
    lemma_lines_at(t, n);
    lemma_byte_line_starts(t, n);
    lemma_byte_at_mono(t, 0, n);
    let cs = char_line_starts(t);
    let starts = line_starts_of(b);
    assert(starts == byte_starts(t, cs));
    let ix = pos.line - 1;
    let e = line_end(cs, ix, n);
    assert(split_lines(t)[ix] == t.subrange(cs[ix], e));
    lemma_byte_at_mono(t, cs[ix], n);
    assert(starts[ix] as int == byte_at(t, cs[ix]));
    if ix + 1 < cs.len() {
        assert(cs[ix] < cs[ix + 1]);
        lemma_byte_at_mono(t, cs[ix + 1], n);
        lemma_byte_at_mono(t, cs[ix + 1] - 1, cs[ix + 1]);
        lemma_byte_in_char(t, cs[ix + 1] - 1, byte_at(t, cs[ix + 1] - 1));
        assert(starts[ix + 1] as int == byte_at(t, cs[ix + 1]));
        assert(starts[ix + 1] - 1 == byte_at(t, e));
    }
    lemma_count_chars(t, cs[ix], e);
    let k = (pos.col - 1) as nat;
    assert(nth_start(b, byte_at(t, cs[ix]), byte_at(t, e), k) == byte_at(t, cs[ix] + k));
    lemma_byte_at_mono(t, cs[ix] + k, n);
}

/// At most every character lies before a UTF-16 offset.
proof fn lemma_snap_bounded(c: Seq<char>, ch: int)
    ensures
        snap(c, ch) <= c.len(),
    decreases c.len(),
{
    if c.len() > 0 {
        lemma_snap_bounded(c.drop_first(), ch - crate::lsp::position::utf16_units(c[0]));
    }
}

/// Every protocol position, converted to a toolchain position, resolves
/// in the line index of the same text to the byte offset of the
/// character the converted position names: the clamping of the two
/// conversions agrees.
pub proof fn law_converted_position_resolves(t: Seq<char>, p: Position)
    requires
        encode_utf8(t).len() < u32::MAX,
    ensures
        ({
            let q = toolchain_pos(t, p);
            let k = char_line_starts(t)[q.line - 1] + q.col - 1;
            &&& 1 <= q.line <= split_lines(t).len()
            &&& 1 <= q.col <= split_lines(t)[q.line - 1].len() + 1
            &&& 0 <= k <= t.len()
            &&& spec_offset(encode_utf8(t), q) == byte_at(t, k)
        }),
{
    let lines = split_lines(t);
    let n = t.len() as int;
    assert(t.take(n) =~= t);
    lemma_lines_at(t, n);
    lemma_byte_at_mono(t, 0, n);
    assert(lines.len() <= n + 1) by {
        lemma_char_starts_len(t, n);
    }
    assert(n <= encode_utf8(t).len());
    let q = toolchain_pos(t, p);
    if p.line >= lines.len() {
        lemma_line_len_bounded(t, lines.len() - 1);
        assert(content(lines[lines.len() - 1]).len() <= lines[lines.len() - 1].len());
    } else {
        let c = content(lines[p.line as int]);
        lemma_line_len_bounded(t, p.line as int);
        lemma_snap_bounded(c, p.character as int);
        assert(c.len() <= lines[p.line as int].len());
    }
    law_offset_of_a_character_position(t, q);
}

/// There are at most one more line starts than characters.
proof fn lemma_char_starts_len(t: Seq<char>, m: int)
    requires
        0 <= m,
    ensures
        char_starts_upto(t, m).len() <= m + 1,
    decreases m,
{
    if m > 0 {
        lemma_char_starts_len(t, m - 1);
    }
}

/// A line is no longer than the text.
proof fn lemma_line_len_bounded(t: Seq<char>, i: int)
    requires
        0 <= i < split_lines(t).len(),
    ensures
        split_lines(t)[i].len() <= t.len(),
{
    let n = t.len() as int;
    assert(t.take(n) =~= t);
    lemma_lines_at(t, n);
    let cs = char_line_starts(t);
    if i + 1 < cs.len() {
        assert(cs[i] < cs[i + 1]);
    }
}

} // verus!
