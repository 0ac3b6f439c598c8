//! The canonical binding-label renderer, shared by the map sidecar's
//! binding records and the disassembler's frames legend, so a composite
//! reads the same everywhere.
//!
//! ```text
//! label = name "@[" entry ("," entry)* "]"
//! entry = physIdx [ "{" pairs "}" ]          ; list position = virtual tape
//! pairs = pair ("," pair)*                    ; decimal, sorted by src
//! pair  = src "->" dst | src "=>" dst         ; => marks a one-way (read-only) pair
//! ```
//!
//! An equal-size tape (a completed bijection) omits its identity pairs and
//! an empty `{}`; a holey (unequal-size) tape lists every mapped pair, as
//! an absent source there is a hole; the blank pair `0->0` is never
//! written; more than eight displayed pairs collapse to a digest
//! `{#xxxxxxxx}`.
//!
//! The renderer reads each virtual tape's dense descriptor maps: `rmap`
//! indexed by physical symbol, `wmap` by virtual symbol, `0xFFFF` a hole;
//! an empty map is the identity over an equal-size alphabet.

use vstd::prelude::*;

use super::crc32::{crc32, spec_crc32};
use super::{MapBinding, MapBindingTape};
use crate::syntax::green::push_char;
use crate::syntax::red::{decimal, push_decimal};

verus! {

/// The dense-map hole sentinel.
pub const HOLE: u16 = 0xFFFF;

/// Past this many displayed pairs an entry renders as a digest.
pub const MAX_PAIRS: usize = 8;

/// One virtual tape's dense descriptor maps, borrowed for rendering.
pub struct LabelTape<'a> {
    pub phys: u8,
    pub rmap: &'a [u16],
    pub wmap: &'a [u16],
}

/// A read pair `src -> dst` is two-way when the write map sends `dst` back
/// to `src`; a write map too short to hold `dst` is the identity there.
pub open spec fn two_way(wmap: Seq<u16>, dst: u16, src: u16) -> bool {
    (if (dst as int) < wmap.len() { wmap[dst as int] } else { dst }) == src
}

/// A tape is holey when either map holds a hole, or both are non-empty
/// and of different lengths.
pub open spec fn holey(rmap: Seq<u16>, wmap: Seq<u16>) -> bool {
    rmap.contains(HOLE) || wmap.contains(HOLE) || (rmap.len() != 0 && wmap.len() != 0 && rmap.len() != wmap.len())
}

/// The displayed pairs among the first `n` physical symbols: neither
/// holes nor the blank symbol, nor identities on an equal-size tape; each
/// with whether it is one-way.
pub open spec fn shown_pairs(rmap: Seq<u16>, wmap: Seq<u16>, n: int) -> Seq<(u16, u16, bool)>
    decreases n,
{
    if n <= 0 {
        seq![]
    } else {
        let prev = shown_pairs(rmap, wmap, n - 1);
        let s = (n - 1) as u16;
        let d = rmap[n - 1];
        if d == HOLE || s == 0 || (!holey(rmap, wmap) && s == d) {
            prev
        } else {
            prev.push((s, d, !two_way(wmap, d, s)))
        }
    }
}

/// `parts` joined with `sep` between them.
pub open spec fn joined(parts: Seq<Seq<char>>, sep: char) -> Seq<char>
    decreases parts.len(),
{
    if parts.len() == 0 {
        seq![]
    } else if parts.len() == 1 {
        parts[0]
    } else {
        joined(parts.drop_last(), sep).push(sep) + parts.last()
    }
}

/// One pair: `src->dst`, or `src=>dst` when one-way.
pub open spec fn pair_text(p: (u16, u16, bool)) -> Seq<char> {
    decimal(p.0 as nat) + (if p.2 { seq!['=', '>'] } else { seq!['-', '>'] }) + decimal(p.1 as nat)
}

/// The lowercase hexadecimal digit for `d < 16`.
pub open spec fn hex_digit(d: u32) -> char {
    if d < 10 { (d + 48) as char } else { (d + 87) as char }
}

/// Eight lowercase hexadecimal digits of `x`, most significant first.
pub open spec fn hex8(x: u32) -> Seq<char> {
    Seq::new(8, |i: int| hex_digit((x >> ((28 - 4 * i) as u32)) & 0xf))
}

/// Little-endian bytes of `x`.
pub open spec fn le32(x: u32) -> Seq<u8> {
    seq![(x & 0xff) as u8, ((x >> 8) & 0xff) as u8, ((x >> 16) & 0xff) as u8, ((x >> 24) & 0xff) as u8]
}

/// Little-endian bytes of `x`.
pub open spec fn le16(x: u16) -> Seq<u8> {
    seq![(x & 0xff) as u8, ((x >> 8) & 0xff) as u8]
}

/// Each map value's little-endian bytes, in order.
pub open spec fn le16s(m: Seq<u16>) -> Seq<u8>
    decreases m.len(),
{
    if m.len() == 0 {
        seq![]
    } else {
        le16s(m.drop_last()) + le16(m.last())
    }
}

/// The digest input: each map's length (as a `u32`) then its values,
/// little-endian, read map first.
pub open spec fn digest_input(rmap: Seq<u16>, wmap: Seq<u16>) -> Seq<u8> {
    le32(rmap.len() as u32) + le16s(rmap) + le32(wmap.len() as u32) + le16s(wmap)
}

/// The text of one `physIdx[{pairs}]` entry.
pub open spec fn entry_text(phys: u8, rmap: Seq<u16>, wmap: Seq<u16>) -> Seq<char> {
    let pairs = shown_pairs(rmap, wmap, rmap.len() as int);
    if pairs.len() == 0 {
        decimal(phys as nat)
    } else if pairs.len() > MAX_PAIRS {
        decimal(phys as nat) + seq!['{', '#'] + hex8(spec_crc32(digest_input(rmap, wmap))) + seq!['}']
    } else {
        decimal(phys as nat) + seq!['{'] + joined(pairs.map_values(|p: (u16, u16, bool)| pair_text(p)), ',') + seq!['}']
    }
}

/// A tape's maps as plain values: physical tape, read map, write map.
pub open spec fn tape_view(t: LabelTape) -> (u8, Seq<u16>, Seq<u16>) {
    (t.phys, t.rmap@, t.wmap@)
}

/// The text of every tape's entry, in tape order.
pub open spec fn entries_of(tapes: Seq<(u8, Seq<u16>, Seq<u16>)>) -> Seq<Seq<char>> {
    tapes.map_values(|t: (u8, Seq<u16>, Seq<u16>)| entry_text(t.0, t.1, t.2))
}

/// The label `routine@[entry,…]`.
pub open spec fn label_of(routine: Seq<char>, tapes: Seq<(u8, Seq<u16>, Seq<u16>)>) -> Seq<char> {
    routine + seq!['@', '['] + joined(entries_of(tapes), ',') + seq![']']
}

/// The label of borrowed tapes.
pub open spec fn label_text(routine: Seq<char>, tapes: Seq<LabelTape>) -> Seq<char> {
    label_of(routine, tapes.map_values(|t: LabelTape| tape_view(t)))
}

/// Joining one more part.
proof fn lemma_joined_push(parts: Seq<Seq<char>>, sep: char, p: Seq<char>)
    ensures
        joined(parts.push(p), sep) == if parts.len() == 0 { p } else { joined(parts, sep).push(sep) + p },
{
    assert(parts.push(p).drop_last() =~= parts);
    if parts.len() == 0 {
        assert(parts.push(p)[0] == p);
    }
}

/// Whether the read pair `src -> dst` is two-way.
fn is_two_way(wmap: &[u16], dst: u16, src: u16) -> (r: bool)
    ensures
        r == two_way(wmap@, dst, src),
{
    let back = if (dst as usize) < wmap.len() { wmap[dst as usize] } else { dst };
    back == src
}

/// Whether `m` holds a hole.
fn has_hole(m: &[u16]) -> (r: bool)
    ensures
        r == m@.contains(HOLE),
{
    let mut i: usize = 0;
    while i < m.len()
        invariant
            i <= m@.len(),
            forall|j: int| 0 <= j < i ==> m@[j] != HOLE,
        decreases m@.len() - i,
    {
        if m[i] == HOLE {
            proof {
                assert(m@[i as int] == HOLE);
            }
            return true;
        }
        i = i + 1;
    }
    false
}

/// Whether a tape is holey (see [`holey`]).
fn is_holey(t: &LabelTape) -> (r: bool)
    ensures
        r == holey(t.rmap@, t.wmap@),
{
    if has_hole(t.rmap) || has_hole(t.wmap) {
        return true;
    }
    let p = t.rmap.len();
    let v = t.wmap.len();
    if p == 0 || v == 0 {
        false
    } else {
        p != v
    }
}

/// Append a pair's text.
fn push_pair(out: &mut String, p: (u16, u16, bool))
    ensures
        final(out)@ == old(out)@ + pair_text(p),
{
    push_decimal(out, p.0 as u64);
    if p.2 {
        push_char(out, '=');
    } else {
        push_char(out, '-');
    }
    push_char(out, '>');
    push_decimal(out, p.1 as u64);
    proof {
        assert(out@ =~= old(out)@ + pair_text(p));
    }
}

/// The hexadecimal digit of `d < 16`.
pub(crate) fn hex_char(d: u32) -> (r: char)
    requires
        d < 16,
    ensures
        r == hex_digit(d),
{
    if d < 10 {
        ((d as u8) + 48u8) as char
    } else {
        ((d as u8) + 87u8) as char
    }
}

/// Append eight hexadecimal digits of `x`.
pub(crate) fn push_hex8(out: &mut String, x: u32)
    ensures
        final(out)@ == old(out)@ + hex8(x),
{
    let ghost start = out@;
    let mut i: u32 = 0;
    while i < 8
        invariant
            i <= 8,
            out@ == start + hex8(x).take(i as int),
        decreases 8 - i,
    {
        let shift: u32 = 28 - 4 * i;
        let d = (x >> shift) & 0xf;
        assert(d < 16) by (bit_vector)
            requires
                d == (x >> shift) & 0xf,
        ;
        let c = hex_char(d);
        push_char(out, c);
        proof {
            assert(hex8(x)[i as int] == c);
            assert(hex8(x).take(i + 1) =~= hex8(x).take(i as int).push(c));
        }
        i = i + 1;
    }
    proof {
        assert(hex8(x).take(8) =~= hex8(x));
    }
}

/// Append `x`'s little-endian bytes.
pub(crate) fn push_le32(buf: &mut Vec<u8>, x: u32)
    ensures
        final(buf)@ == old(buf)@ + le32(x),
{
    buf.push((x & 0xff) as u8);
    buf.push(((x >> 8) & 0xff) as u8);
    buf.push(((x >> 16) & 0xff) as u8);
    buf.push(((x >> 24) & 0xff) as u8);
    proof {
        assert(buf@ =~= old(buf)@ + le32(x));
    }
}

/// Append each value's little-endian bytes.
pub(crate) fn push_le16s(buf: &mut Vec<u8>, m: &[u16])
    ensures
        final(buf)@ == old(buf)@ + le16s(m@),
{
    let ghost start = buf@;
    let mut i: usize = 0;
    proof {
        assert(m@.take(0) =~= Seq::<u16>::empty());
        assert(start + le16s(Seq::<u16>::empty()) =~= start);
    }
    while i < m.len()
        invariant
            i <= m@.len(),
            buf@ == start + le16s(m@.take(i as int)),
        decreases m@.len() - i,
    {
        let v = m[i];
        buf.push((v & 0xff) as u8);
        buf.push(((v >> 8) & 0xff) as u8);
        proof {
            let t = m@.take(i + 1);
            assert(t.drop_last() =~= m@.take(i as int));
            assert(t.last() == v);
            assert(buf@ =~= start + le16s(m@.take(i as int)) + le16(v));
        }
        i = i + 1;
    }
    proof {
        assert(m@.take(m@.len() as int) =~= m@);
    }
}

/// The CRC-32 content address of an over-budget entry: the checksum of
/// the tape's dense maps, each length-prefixed, read map first.
pub fn entry_digest(t: &LabelTape) -> (r: u32)
    ensures
        r == spec_crc32(digest_input(t.rmap@, t.wmap@)),
{
    let mut buf: Vec<u8> = Vec::new();
    push_le32(&mut buf, t.rmap.len() as u32);
    push_le16s(&mut buf, t.rmap);
    push_le32(&mut buf, t.wmap.len() as u32);
    push_le16s(&mut buf, t.wmap);
    proof {
        assert(buf@ =~= digest_input(t.rmap@, t.wmap@));
    }
    crc32(buf.as_slice())
}

/// One `physIdx[{pairs}]` entry.
pub fn entry(t: &LabelTape) -> (r: String)
    ensures
        r@ == entry_text(t.phys, t.rmap@, t.wmap@),
{
    let holey = is_holey(t);
    let mut pairs: Vec<(u16, u16, bool)> = Vec::new();
    let mut s: usize = 0;
    while s < t.rmap.len()
        invariant
            s <= t.rmap@.len(),
            holey == self::holey(t.rmap@, t.wmap@),
            pairs@ == shown_pairs(t.rmap@, t.wmap@, s as int),
        decreases t.rmap@.len() - s,
    {
        let s16 = s as u16;
        let d = t.rmap[s];
        if !(d == HOLE || s16 == 0 || (!holey && s16 == d)) {
            pairs.push((s16, d, !is_two_way(t.wmap, d, s16)));
        }
        s = s + 1;
    }
    let ghost ps = pairs@;
    let mut out = String::new();
    push_decimal(&mut out, t.phys as u64);
    if pairs.len() == 0 {
        proof {
            assert(out@ =~= decimal(t.phys as nat));
        }
        return out;
    }
    if pairs.len() > MAX_PAIRS {
        push_char(&mut out, '{');
        push_char(&mut out, '#');
        let digest = entry_digest(t);
        push_hex8(&mut out, digest);
        push_char(&mut out, '}');
        proof {
            assert(out@ =~= decimal(t.phys as nat) + seq!['{', '#'] + hex8(digest) + seq!['}']);
        }
        return out;
    }
    push_char(&mut out, '{');
    let ghost head = out@;
    let ghost texts = ps.map_values(|p: (u16, u16, bool)| pair_text(p));
    let mut i: usize = 0;
    proof {
        assert(texts.take(0) =~= Seq::<Seq<char>>::empty());
        assert(head + joined(Seq::<Seq<char>>::empty(), ',') =~= head);
    }
    while i < pairs.len()
        invariant
            i <= ps.len(),
            ps == pairs@,
            texts == ps.map_values(|p: (u16, u16, bool)| pair_text(p)),
            out@ == head + joined(texts.take(i as int), ','),
        decreases ps.len() - i,
    {
        if i > 0 {
            push_char(&mut out, ',');
        }
        push_pair(&mut out, pairs[i]);
        proof {
            assert(texts.take(i + 1) =~= texts.take(i as int).push(texts[i as int]));
            lemma_joined_push(texts.take(i as int), ',', texts[i as int]);
            assert(out@ =~= head + joined(texts.take(i + 1), ','));
        }
        i = i + 1;
    }
    push_char(&mut out, '}');
    proof {
        assert(texts.take(ps.len() as int) =~= texts);
        assert(out@ =~= decimal(t.phys as nat) + seq!['{'] + joined(texts, ',') + seq!['}']);
    }
    out
}

/// Render `routine`'s composite as `routine@[entry,…]`, one entry per
/// virtual tape in tape order.
pub fn label(routine: &str, tapes: &[LabelTape]) -> (r: String)
    ensures
        r@ == label_text(routine@, tapes@),
{
    let mut out = routine.to_owned();
    push_char(&mut out, '@');
    push_char(&mut out, '[');
    let ghost head = out@;
    let ghost texts = entries_of(tapes@.map_values(|t: LabelTape| tape_view(t)));
    let mut i: usize = 0;
    proof {
        assert(texts.take(0) =~= Seq::<Seq<char>>::empty());
        assert(head + joined(Seq::<Seq<char>>::empty(), ',') =~= head);
    }
    while i < tapes.len()
        invariant
            i <= tapes@.len(),
            texts == entries_of(tapes@.map_values(|t: LabelTape| tape_view(t))),
            out@ == head + joined(texts.take(i as int), ','),
        decreases tapes@.len() - i,
    {
        if i > 0 {
            push_char(&mut out, ',');
        }
        let e = entry(&tapes[i]);
        out.append(e.as_str());
        proof {
            assert(texts[i as int] == e@);
            assert(texts.take(i + 1) =~= texts.take(i as int).push(texts[i as int]));
            lemma_joined_push(texts.take(i as int), ',', texts[i as int]);
            assert(out@ =~= head + joined(texts.take(i + 1), ','));
        }
        i = i + 1;
    }
    push_char(&mut out, ']');
    proof {
        assert(texts.take(tapes@.len() as int) =~= texts);
        assert(out@ =~= label_text(routine@, tapes@));
    }
    out
}

/// The non-identity read pairs among the first `n` physical symbols, each
/// with whether it is one-way.
pub open spec fn record_pairs(rmap: Seq<u16>, wmap: Seq<u16>, n: int) -> Seq<(u32, u32, bool)>
    decreases n,
{
    if n <= 0 {
        seq![]
    } else {
        let prev = record_pairs(rmap, wmap, n - 1);
        let s = (n - 1) as u16;
        let d = rmap[n - 1];
        if d == HOLE || d == s {
            prev
        } else {
            prev.push(((n - 1) as u32, d as u32, !two_way(wmap, d, s)))
        }
    }
}

/// The positions among the first `n` of `m` that hold a hole.
pub open spec fn hole_positions(m: Seq<u16>, n: int) -> Seq<u32>
    decreases n,
{
    if n <= 0 {
        seq![]
    } else if m[n - 1] == HOLE {
        hole_positions(m, n - 1).push((n - 1) as u32)
    } else {
        hole_positions(m, n - 1)
    }
}

/// The positions of `m` that hold a hole.
fn holes_of(m: &[u16]) -> (r: Vec<u32>)
    ensures
        r@ == hole_positions(m@, m@.len() as int),
{
    let mut out: Vec<u32> = Vec::new();
    let mut i: usize = 0;
    while i < m.len()
        invariant
            i <= m@.len(),
            out@ == hole_positions(m@, i as int),
        decreases m@.len() - i,
    {
        if m[i] == HOLE {
            out.push(i as u32);
        }
        i = i + 1;
    }
    out
}

/// Decode one tape's dense maps into the sidecar's structured record: the
/// non-identity read pairs `(src, dst, one_way)`, then the read holes and
/// the write holes. Identity read pairs are implicit; a pair is one-way
/// when the write map carries no inverse.
pub fn tape_record(rmap: &[u16], wmap: &[u16]) -> (r: (Vec<(u32, u32, bool)>, Vec<u32>, Vec<u32>))
    ensures
        r.0@ == record_pairs(rmap@, wmap@, rmap@.len() as int),
        r.1@ == hole_positions(rmap@, rmap@.len() as int),
        r.2@ == hole_positions(wmap@, wmap@.len() as int),
{
    let mut pairs: Vec<(u32, u32, bool)> = Vec::new();
    let mut s: usize = 0;
    while s < rmap.len()
        invariant
            s <= rmap@.len(),
            pairs@ == record_pairs(rmap@, wmap@, s as int),
        decreases rmap@.len() - s,
    {
        let s16 = s as u16;
        let d = rmap[s];
        if d != HOLE && d != s16 {
            pairs.push((s as u32, d as u32, !is_two_way(wmap, d, s16)));
        }
        s = s + 1;
    }
    (pairs, holes_of(rmap), holes_of(wmap))
}

/// How many of the first `n` labels equal `x`.
pub open spec fn count_upto(labels: Seq<Seq<char>>, x: Seq<char>, n: int) -> nat
    decreases n,
{
    if n <= 0 {
        0
    } else {
        count_upto(labels, x, n - 1) + if labels[n - 1] == x { 1nat } else { 0nat }
    }
}

/// Label `i` after disambiguation: bare for its first occurrence, else
/// suffixed `.k` for its `k`-th.
pub open spec fn disambiguated(labels: Seq<Seq<char>>, i: int) -> Seq<char> {
    let k = count_upto(labels, labels[i], i + 1);
    if k > 1 {
        labels[i] + seq!['.'] + decimal(k)
    } else {
        labels[i]
    }
}

/// A count never exceeds the number of labels counted.
proof fn lemma_count_le(labels: Seq<Seq<char>>, x: Seq<char>, n: int)
    requires
        0 <= n,
    ensures
        count_upto(labels, x, n) <= n,
    decreases n,
{
    if n > 0 {
        lemma_count_le(labels, x, n - 1);
    }
}

/// Append a deterministic `.2`, `.3`, … suffix to every label equal to an
/// earlier one, in the given order; the first occurrence stays bare.
pub fn disambiguate(labels: &mut Vec<String>)
    requires
        old(labels)@.len() < u32::MAX,
    ensures
        final(labels)@.len() == old(labels)@.len(),
        forall|i: int| 0 <= i < old(labels)@.len() ==> #[trigger] final(labels)@[i]@
            == disambiguated(old(labels)@.map_values(|l: String| l@), i),
{
    let ghost orig = labels@.map_values(|l: String| l@);
    let n = labels.len();
    let mut originals: Vec<String> = Vec::new();
    let mut i: usize = 0;
    while i < n
        invariant
            i <= n == labels@.len(),
            labels@ == old(labels)@,
            originals@.len() == i,
            forall|j: int| 0 <= j < i ==> #[trigger] originals@[j]@ == orig[j],
            orig == old(labels)@.map_values(|l: String| l@),
        decreases n - i,
    {
        originals.push(labels[i].clone());
        i = i + 1;
    }
    let mut i: usize = 0;
    while i < n
        invariant
            i <= n == labels@.len() == originals@.len(),
            n < u32::MAX,
            orig.len() == n,
            forall|j: int| 0 <= j < n ==> #[trigger] originals@[j]@ == orig[j],
            forall|j: int| 0 <= j < i ==> #[trigger] labels@[j]@ == disambiguated(orig, j),
        decreases n - i,
    {
        let mut count: u32 = 0;
        let mut j: usize = 0;
        while j <= i
            invariant
                j <= i + 1,
                i < n,
                n < u32::MAX,
                originals@.len() == n,
                orig.len() == n,
                forall|m: int| 0 <= m < n ==> #[trigger] originals@[m]@ == orig[m],
                count == count_upto(orig, orig[i as int], j as int),
            decreases i + 1 - j,
        {
            proof {
                lemma_count_le(orig, orig[i as int], j as int);
            }
            if originals[j] == originals[i] {
                count = count + 1;
            }
            j = j + 1;
        }
        if count > 1 {
            let mut l = originals[i].clone();
            push_char(&mut l, '.');
            push_decimal(&mut l, count as u64);
            let ghost prev = labels@;
            labels.set(i, l);
            proof {
                assert forall|j: int| 0 <= j <= i implies #[trigger] labels@[j]@ == disambiguated(orig, j) by {
                    if j < i {
                        assert(labels@[j] == prev[j]);
                    }
                }
            }
        } else {
            let ghost prev = labels@;
            let l = originals[i].clone();
            labels.set(i, l);
            proof {
                assert forall|j: int| 0 <= j <= i implies #[trigger] labels@[j]@ == disambiguated(orig, j) by {
                    if j < i {
                        assert(labels@[j] == prev[j]);
                    }
                }
            }
        }
        i = i + 1;
    }
}

/// The little-endian `u16` at `pos`.
pub open spec fn u16_at(t: Seq<u8>, pos: int) -> u16 {
    (t[pos] as int + 256 * (t[pos + 1] as int)) as u16
}

/// The little-endian `u32` at `pos`.
pub open spec fn u32_at(t: Seq<u8>, pos: int) -> u32 {
    (t[pos] as int + 256 * (t[pos + 1] as int) + 65536 * (t[pos + 2] as int) + 16777216 * (t[pos + 3] as int)) as u32
}

/// A length-prefixed map of `u16`s at `pos`, and the position after it;
/// none when the bytes run out.
pub open spec fn map_at(t: Seq<u8>, pos: int) -> Option<(Seq<u16>, int)> {
    if pos + 2 > t.len() {
        None
    } else {
        let len = u16_at(t, pos) as int;
        if pos + 2 + 2 * len > t.len() {
            None
        } else {
            Some((Seq::new(len as nat, |i: int| u16_at(t, pos + 2 + 2 * i)), pos + 2 + 2 * len))
        }
    }
}

/// `k` tapes (physical index, read map, write map) starting at `pos`, and
/// the position after them; none when the bytes run out.
pub open spec fn tapes_at(t: Seq<u8>, pos: int, k: nat) -> Option<(Seq<(u8, Seq<u16>, Seq<u16>)>, int)>
    decreases k,
{
    if k == 0 {
        Some((seq![], pos))
    } else {
        match tapes_at(t, pos, (k - 1) as nat) {
            None => None,
            Some((prev, p)) => if p < 0 || p >= t.len() {
                None
            } else {
                match map_at(t, p + 1) {
                    None => None,
                    Some((r, p2)) => match map_at(t, p2) {
                        None => None,
                        Some((w, p3)) => Some((prev.push((t[p], r, w)), p3)),
                    },
                }
            },
        }
    }
}

/// The frame descriptor at `offset`: an arity byte, a two-byte exit count
/// (not needed here), then that many tapes; none when truncated.
pub open spec fn descriptor_at(t: Seq<u8>, offset: int) -> Option<Seq<(u8, Seq<u16>, Seq<u16>)>> {
    if offset + 3 > t.len() {
        None
    } else {
        match tapes_at(t, offset + 3, t[offset] as nat) {
            None => None,
            Some((tapes, _)) => Some(tapes),
        }
    }
}

/// Decoded tapes as plain values.
pub open spec fn dense_view(v: Seq<(u8, Vec<u16>, Vec<u16>)>) -> Seq<(u8, Seq<u16>, Seq<u16>)> {
    v.map_values(|x: (u8, Vec<u16>, Vec<u16>)| (x.0, x.1@, x.2@))
}

/// A map position never runs backwards.
proof fn lemma_map_at(t: Seq<u8>, pos: int)
    requires
        map_at(t, pos) is Some,
    ensures
        pos + 2 <= (map_at(t, pos)->0).1 <= t.len(),
{
}

/// Tape positions never run backwards.
proof fn lemma_tapes_at(t: Seq<u8>, pos: int, k: nat)
    requires
        tapes_at(t, pos, k) is Some,
    ensures
        pos <= (tapes_at(t, pos, k)->0).1,
        k > 0 ==> (tapes_at(t, pos, k)->0).1 <= t.len(),
        (tapes_at(t, pos, k)->0).0.len() == k,
    decreases k,
{
    if k > 0 {
        lemma_tapes_at(t, pos, (k - 1) as nat);
        let (prev, p) = tapes_at(t, pos, (k - 1) as nat)->0;
        lemma_map_at(t, p + 1);
        let p2 = (map_at(t, p + 1)->0).1;
        lemma_map_at(t, p2);
    }
}

/// The length-prefixed map at `pos`.
fn read_map(tables: &[u8], pos: usize) -> (r: Option<(Vec<u16>, usize)>)
    ensures
        match map_at(tables@, pos as int) {
            None => r is None,
            Some((m, p)) => r matches Some(x) && x.0@ == m && x.1 == p,
        },
{
    let n = tables.len();
    if pos > n || n - pos < 2 {
        return None;
    }
    let len = (tables[pos] as u16 as usize) + 256 * (tables[pos + 1] as usize);
    proof {
        assert(len == u16_at(tables@, pos as int)) by (nonlinear_arith)
            requires
                len == tables@[pos as int] as int + 256 * (tables@[pos + 1] as int),
                tables@[pos as int] < 256,
                tables@[pos + 1] < 256,
        {
        }
    }
    if n - pos - 2 < 2 * len {
        return None;
    }
    let ghost want = (map_at(tables@, pos as int)->0).0;
    let mut m: Vec<u16> = Vec::new();
    let mut i: usize = 0;
    while i < len
        invariant
            i <= len,
            pos + 2 + 2 * len <= n == tables@.len(),
            want == Seq::new(len as nat, |j: int| u16_at(tables@, pos + 2 + 2 * j)),
            m@ == want.take(i as int),
        decreases len - i,
    {
        let at = pos + 2 + 2 * i;
        let v: u16 = ((tables[at] as u32) + 256 * (tables[at + 1] as u32)) as u16;
        proof {
            assert(v == u16_at(tables@, at as int));
            assert(want[i as int] == v);
            assert(want.take(i + 1) =~= want.take(i as int).push(v));
        }
        m.push(v);
        i = i + 1;
    }
    proof {
        assert(want.take(len as int) =~= want);
    }
    Some((m, pos + 2 + 2 * len))
}

/// Decode the frame descriptor at `offset` into its dense per-tape maps;
/// none when truncated. The exit vector is skipped.
pub fn decode_descriptor(tables: &[u8], offset: u32) -> (r: Option<Vec<(u8, Vec<u16>, Vec<u16>)>>)
    ensures
        match descriptor_at(tables@, offset as int) {
            None => r is None,
            Some(d) => r matches Some(v) && dense_view(v@) == d,
        },
{
    let n = tables.len();
    let off = offset as usize;
    if off > n || n - off < 3 {
        return None;
    }
    let arity = tables[off];
    let mut pos = off + 3;
    let mut tapes: Vec<(u8, Vec<u16>, Vec<u16>)> = Vec::new();
    let mut k: u8 = 0;
    while k < arity
        invariant
            k <= arity == tables@[off as int],
            off == offset as usize,
            n == tables@.len(),
            off + 3 <= n,
            tapes_at(tables@, off + 3, k as nat) == Some((dense_view(tapes@), pos as int)),
            pos <= n,
        decreases arity - k,
    {
        proof {
            lemma_tapes_at(tables@, off + 3, k as nat);
        }
        if pos >= n {
            proof {
                assert(tapes_at(tables@, off + 3, (k + 1) as nat) is None);
                lemma_tapes_none(tables@, off + 3, (k + 1) as nat, arity as nat);
            }
            return None;
        }
        let phys = tables[pos];
        let rm = read_map(tables, pos + 1);
        let (rmap, p2) = match rm {
            None => {
                proof {
                    assert(tapes_at(tables@, off + 3, (k + 1) as nat) is None);
                    lemma_tapes_none(tables@, off + 3, (k + 1) as nat, arity as nat);
                }
                return None;
            },
            Some(x) => x,
        };
        proof {
            lemma_map_at(tables@, pos + 1);
        }
        let wm = read_map(tables, p2);
        let (wmap, p3) = match wm {
            None => {
                proof {
                    assert(tapes_at(tables@, off + 3, (k + 1) as nat) is None);
                    lemma_tapes_none(tables@, off + 3, (k + 1) as nat, arity as nat);
                }
                return None;
            },
            Some(x) => x,
        };
        proof {
            lemma_map_at(tables@, p2 as int);
        }
        let ghost prev = dense_view(tapes@);
        tapes.push((phys, rmap, wmap));
        proof {
            assert(dense_view(tapes@) =~= prev.push((phys, rmap@, wmap@)));
        }
        pos = p3;
        k = k + 1;
    }
    Some(tapes)
}

/// Once tapes run out they stay out.
proof fn lemma_tapes_none(t: Seq<u8>, pos: int, k: nat, m: nat)
    requires
        tapes_at(t, pos, k) is None,
        k <= m,
    ensures
        tapes_at(t, pos, m) is None,
    decreases m - k,
{
    if k < m {
        lemma_tapes_none(t, pos, k, (m - 1) as nat);
    }
}

/// The `i`-th directory word of the frames region at `fo`.
pub open spec fn dir_word(t: Seq<u8>, fo: int, i: int) -> Option<u32> {
    let at = fo + 4 + 4 * i;
    if at + 4 > t.len() {
        None
    } else {
        Some(u32_at(t, at))
    }
}

/// Directory entry `i` names a descriptor that decodes.
pub open spec fn entry_ok(t: Seq<u8>, fo: int, i: int) -> bool {
    dir_word(t, fo, i) matches Some(w) && descriptor_at(t, w as int) is Some
}

/// The decoded tapes of directory entry `i`.
pub open spec fn entry_tapes(t: Seq<u8>, fo: int, i: int) -> Seq<(u8, Seq<u16>, Seq<u16>)> {
    descriptor_at(t, (dir_word(t, fo, i)->0) as int)->0
}

/// How many directory entries from `i` on (of `k`) decode before the first
/// that does not.
pub open spec fn ok_run(t: Seq<u8>, fo: int, k: int, i: int) -> nat
    decreases k - i,
{
    if i >= k || !entry_ok(t, fo, i) {
        0
    } else {
        1 + ok_run(t, fo, k, i + 1)
    }
}

/// How many binding records the frames region at `fo` yields: none
/// without a region or its count, else its leading entries that decode.
pub open spec fn binding_count(t: Seq<u8>, fo: u32) -> nat {
    if fo == 0 || fo as int + 2 > t.len() {
        0
    } else {
        ok_run(t, fo as int, u16_at(t, fo as int) as int, 0)
    }
}

/// The callee routine of directory entry `i`; empty past the list.
pub open spec fn routine_at(routines: Seq<String>, i: int) -> Seq<char> {
    if i < routines.len() {
        routines[i]@
    } else {
        seq![]
    }
}

/// The labels of the first `n` entries, before disambiguation.
pub open spec fn binding_labels(t: Seq<u8>, fo: int, routines: Seq<String>, n: nat) -> Seq<Seq<char>> {
    Seq::new(n, |i: int| label_of(routine_at(routines, i), entry_tapes(t, fo, i)))
}

/// A sidecar tape record holds what its dense maps say.
pub open spec fn record_matches(rec: MapBindingTape, tape: (u8, Seq<u16>, Seq<u16>)) -> bool {
    &&& rec.phys == tape.0
    &&& rec.pairs@ == record_pairs(tape.1, tape.2, tape.1.len() as int)
    &&& rec.read_holes@ == hole_positions(tape.1, tape.1.len() as int)
    &&& rec.write_holes@ == hole_positions(tape.2, tape.2.len() as int)
}

/// A binding record holds directory entry `i`: its 1-based index, callee,
/// disambiguated label among `labels`, and a record per tape.
pub open spec fn binding_matches(
    b: MapBinding,
    t: Seq<u8>,
    fo: int,
    routines: Seq<String>,
    labels: Seq<Seq<char>>,
    i: int,
) -> bool {
    let tapes = entry_tapes(t, fo, i);
    &&& b.index == i + 1
    &&& b.routine@ == routine_at(routines, i)
    &&& b.label@ == disambiguated(labels, i)
    &&& b.tapes@.len() == tapes.len()
    &&& forall|j: int| 0 <= j < tapes.len() ==> record_matches(#[trigger] b.tapes@[j], tapes[j])
}

/// The run of decoding entries counts up to the first failure.
proof fn lemma_ok_run(t: Seq<u8>, fo: int, k: int, i: int)
    requires
        i <= k,
    ensures
        ok_run(t, fo, k, i) <= k - i,
    decreases k - i,
{
    if i < k && entry_ok(t, fo, i) {
        lemma_ok_run(t, fo, k, i + 1);
    }
}

/// Build the map sidecar's binding records from a linked image's table
/// section: decode every directory descriptor up to the first that does not
/// decode, pair it with the callee routine names threaded in directory
/// order, render its label, and disambiguate the labels across the whole
/// set. Empty when the image carries no frames region.
pub fn build_bindings(tables: &[u8], frames_offset: u32, routines: &[String]) -> (r: Vec<MapBinding>)
    ensures
        r@.len() == binding_count(tables@, frames_offset),
        forall|i: int| 0 <= i < r@.len() ==> binding_matches(#[trigger] r@[i], tables@, frames_offset as int, routines@,
            binding_labels(tables@, frames_offset as int, routines@, r@.len()), i),
{
    let ghost t = tables@;
    let ghost fo = frames_offset as int;
    let n = tables.len();
    if frames_offset == 0 {
        return Vec::new();
    }
    let base = frames_offset as usize;
    if base > n || n - base < 2 {
        return Vec::new();
    }
    let k: usize = (tables[base] as usize) + 256 * (tables[base + 1] as usize);
    proof {
        assert(k == u16_at(t, fo)) by (nonlinear_arith)
            requires
                k == t[fo] as int + 256 * (t[fo + 1] as int),
                t[fo] < 256,
                t[fo + 1] < 256,
        {
        }
    }
    let avail = n - base;
    let mut routines_out: Vec<String> = Vec::new();
    let mut tape_records: Vec<Vec<MapBindingTape>> = Vec::new();
    let mut labels: Vec<String> = Vec::new();
    let mut i: usize = 0;
    while i < k
        invariant
            t == tables@,
            n == t.len(),
            fo == frames_offset as int,
            base == frames_offset as usize,
            avail == n - base,
            k == u16_at(t, fo),
            k < 65536,
            i <= k,
            ok_run(t, fo, k as int, 0) == i + ok_run(t, fo, k as int, i as int),
            routines_out@.len() == i,
            tape_records@.len() == i,
            labels@.len() == i,
            forall|j: int| 0 <= j < i ==> entry_ok(t, fo, j),
            forall|j: int| 0 <= j < i ==> (#[trigger] routines_out@[j])@ == routine_at(routines@, j),
            forall|j: int| 0 <= j < i ==> (#[trigger] labels@[j])@ == label_of(routine_at(routines@, j), entry_tapes(t, fo, j)),
            forall|j: int| 0 <= j < i ==> (#[trigger] tape_records@[j])@.len() == entry_tapes(t, fo, j).len()
                && forall|m: int| 0 <= m < entry_tapes(t, fo, j).len() ==> record_matches(#[trigger] tape_records@[j]@[m], entry_tapes(t, fo, j)[m]),
        ensures
            ok_run(t, fo, k as int, 0) == i,
            i <= k,
            routines_out@.len() == i,
            tape_records@.len() == i,
            labels@.len() == i,
            forall|j: int| 0 <= j < i ==> (#[trigger] routines_out@[j])@ == routine_at(routines@, j),
            forall|j: int| 0 <= j < i ==> (#[trigger] labels@[j])@ == label_of(routine_at(routines@, j), entry_tapes(t, fo, j)),
            forall|j: int| 0 <= j < i ==> (#[trigger] tape_records@[j])@.len() == entry_tapes(t, fo, j).len()
                && forall|m: int| 0 <= m < entry_tapes(t, fo, j).len() ==> record_matches(#[trigger] tape_records@[j]@[m], entry_tapes(t, fo, j)[m]),
        decreases k - i,
    {
        if avail < 8 || (avail - 8) / 4 < i {
            proof {
                assert(dir_word(t, fo, i as int) is None);
            }
            break;
        }
        let at = base + 4 + 4 * i;
        let w: u32 = (tables[at] as u32) + 256 * (tables[at + 1] as u32) + 65536 * (tables[at + 2] as u32) + 16777216 * (tables[at + 3] as u32);
        proof {
            assert(dir_word(t, fo, i as int) == Some(w));
        }
        let dense = match decode_descriptor(tables, w) {
            None => {
                break;
            },
            Some(d) => d,
        };
        proof {
            assert(entry_ok(t, fo, i as int));
        }
        let ghost dv = dense_view(dense@);
        let routine: String = if i < routines.len() { routines[i].clone() } else { String::new() };
        let mut label_tapes: Vec<LabelTape> = Vec::new();
        let mut records: Vec<MapBindingTape> = Vec::new();
        let mut j: usize = 0;
        while j < dense.len()
            invariant
                j <= dense@.len(),
                dv == dense_view(dense@),
                label_tapes@.len() == j,
                records@.len() == j,
                forall|m: int| 0 <= m < j ==> tape_view(#[trigger] label_tapes@[m]) == dv[m],
                forall|m: int| 0 <= m < j ==> record_matches(#[trigger] records@[m], dv[m]),
            decreases dense@.len() - j,
        {
            let (phys, rmap, wmap) = (dense[j].0, dense[j].1.as_slice(), dense[j].2.as_slice());
            label_tapes.push(LabelTape { phys, rmap, wmap });
            let (pairs, read_holes, write_holes) = tape_record(rmap, wmap);
            records.push(MapBindingTape { phys, pairs, read_holes, write_holes });
            j = j + 1;
        }
        let text = label(routine.as_str(), label_tapes.as_slice());
        proof {
            assert(label_tapes@.map_values(|x: LabelTape| tape_view(x)) =~= dv);
            assert(entry_tapes(t, fo, i as int) == dv);
        }
        routines_out.push(routine);
        labels.push(text);
        tape_records.push(records);
        i = i + 1;
    }
    proof {
        lemma_ok_run(t, fo, k as int, i as int);
    }
    let count = i;
    let ghost raw = labels@;
    disambiguate(&mut labels);
    proof {
        assert(raw.map_values(|l: String| l@) =~= binding_labels(t, fo, routines@, count as nat));
    }
    let mut out: Vec<MapBinding> = Vec::new();
    let mut routines_out = routines_out;
    let mut tape_records = tape_records;
    let mut labels = labels;
    let mut j: usize = 0;
    while j < count
        invariant
            j <= count == routines_out@.len() == tape_records@.len() == labels@.len(),
            count < 65536,
            out@.len() == j,
            forall|m: int| 0 <= m < j ==> binding_matches(#[trigger] out@[m], t, fo, routines@, binding_labels(t, fo, routines@, count as nat), m),
            forall|m: int| j <= m < count ==> (#[trigger] routines_out@[m])@ == routine_at(routines@, m),
            forall|m: int| j <= m < count ==> (#[trigger] labels@[m])@ == disambiguated(binding_labels(t, fo, routines@, count as nat), m),
            forall|m: int| j <= m < count ==> (#[trigger] tape_records@[m])@.len() == entry_tapes(t, fo, m).len()
                && forall|q: int| 0 <= q < entry_tapes(t, fo, m).len() ==> record_matches(#[trigger] tape_records@[m]@[q], entry_tapes(t, fo, m)[q]),
        decreases count - j,
    {
        let mut routine = String::new();
        std::mem::swap(&mut routine, &mut routines_out[j]);
        let mut tapes: Vec<MapBindingTape> = Vec::new();
        std::mem::swap(&mut tapes, &mut tape_records[j]);
        let mut text = String::new();
        std::mem::swap(&mut text, &mut labels[j]);
        let b = MapBinding { index: (j + 1) as u16, routine, label: text, tapes };
        out.push(b);
        j = j + 1;
    }
    out
}

/// A tape whose read and write maps are both non-empty and of different
/// lengths shows every mapped pair but the blank symbol's, identities
/// included: each symbol `s` past the blank that the read map does not
/// send to a hole appears as `s -> rmap[s]`, marked one-way when the write
/// map does not send `rmap[s]` back to `s`.
pub proof fn law_unequal_tapes_show_every_pair(rmap: Seq<u16>, wmap: Seq<u16>)
    requires
        rmap.len() > 0,
        wmap.len() > 0,
        rmap.len() != wmap.len(),
        rmap.len() <= 0x1_0000,
    ensures
        forall|s: int| 1 <= s < rmap.len() && rmap[s] != HOLE ==> shown_pairs(rmap, wmap, rmap.len() as int).contains(
            (s as u16, rmap[s], !two_way(wmap, rmap[s], s as u16)),
        ),
{
    lemma_unequal_shows(rmap, wmap, rmap.len() as int);
}

proof fn lemma_unequal_shows(rmap: Seq<u16>, wmap: Seq<u16>, n: int)
    requires
        rmap.len() > 0,
        wmap.len() > 0,
        rmap.len() != wmap.len(),
        rmap.len() <= 0x1_0000,
        0 <= n <= rmap.len(),
    ensures
        forall|s: int| 1 <= s < n && rmap[s] != HOLE ==> shown_pairs(rmap, wmap, n).contains(
            (s as u16, rmap[s], !two_way(wmap, rmap[s], s as u16)),
        ),
    decreases n,
{
    if n > 0 {
        lemma_unequal_shows(rmap, wmap, n - 1);
        let prev = shown_pairs(rmap, wmap, n - 1);
        let cur = shown_pairs(rmap, wmap, n);
        assert(holey(rmap, wmap));
        assert forall|s: int| 1 <= s < n && rmap[s] != HOLE implies cur.contains(
            (s as u16, rmap[s], !two_way(wmap, rmap[s], s as u16)),
        ) by {
            let q = (s as u16, rmap[s], !two_way(wmap, rmap[s], s as u16));
            if s < n - 1 {
                let k = choose|k: int| 0 <= k < prev.len() && prev[k] == q;
                if cur != prev {
                    assert(cur[k] == prev[k]);
                }
            } else {
                assert((n - 1) as u16 == s as u16);
                assert(cur[cur.len() - 1] == q);
            }
        }
    }
}

} // verus!
