//! A function's table blob and the code offsets it holds. The blob is a
//! run of regions, each starting at an offset an instruction references
//! and laid out as that instruction makes it: match rows (width `u8`, row
//! count `u16`, rows), a dispatch table (count `u16`, that many `u32`
//! code offsets), or a frame descriptor (arity `u8` from 1 to 16, exit
//! count `u16`, per tape a physical tape byte and a read and a write map
//! each a `u16` count of `u16`s, then the exits as `u32` code offsets).
//! The regions must tile the blob. Copying a blob remaps its code offsets
//! (dispatch entries and exits) and keeps everything else: either past
//! the call sites that widened by four bytes, or into the linked code,
//! through the map from a function's original offsets to its final ones
//! plus its base; an offset the map lacks is malformed.

use std::collections::HashMap;

use vstd::prelude::*;

use super::binding_label::{le32, push_le32};
use super::LinkError;

verus! {

broadcast use vstd::std_specs::hash::group_hash_axioms;

/// How a region of a table blob is laid out, as the instruction that
/// references it says.
#[derive(Debug, Clone, Copy, PartialEq, Eq, Structural)]
pub enum TableKind {
    Match,
    Dispatch,
    Frame,
}

/// The little-endian `u16` at byte `p` of `t`.
pub open spec fn u16_at(t: Seq<u8>, p: int) -> int {
    t[p] as int + 256 * (t[p + 1] as int)
}

/// The little-endian `u32` at byte `p` of `t`.
pub open spec fn u32_at(t: Seq<u8>, p: int) -> int {
    t[p] as int + 256 * (t[p + 1] as int) + 65536 * (t[p + 2] as int) + 16777216 * (t[p + 3] as int)
}

/// How many widened sites lie strictly before `off`.
pub open spec fn count_below(w: Seq<u32>, off: u32) -> nat
    decreases w.len(),
{
    if w.len() == 0 {
        0
    } else {
        count_below(w.drop_last(), off) + (if w.last() < off { 1nat } else { 0nat })
    }
}

/// Where offset `off` of an original blob lands once every widened site
/// before it has grown by four bytes.
pub open spec fn widen_shift(w: Seq<u32>, off: u32) -> int {
    off + 4 * count_below(w, off)
}

/// How a copy remaps code offsets: past widened sites, or to the linked
/// code through a map of final offsets plus a base.
pub enum Remap {
    Shift(Seq<u32>),
    Rebase(u32, Map<u32, u32>),
}

/// Where code offset `off` goes; `None` where the map lacks it.
pub open spec fn remap_offset(r: Remap, off: u32) -> Option<int> {
    match r {
        Remap::Shift(w) => Some(widen_shift(w, off)),
        Remap::Rebase(base, m) => if m.contains_key(off) {
            Some(base + m[off])
        } else {
            None
        },
    }
}

/// The remapped offsets as bytes, or where the first offset the map lacks
/// is stored, or an offset remapped past the `u32` range.
pub enum Words {
    Bytes(Seq<u8>),
    Bad(int),
    Overflow,
}

/// The `n` offsets stored from byte `at` on, each remapped and written
/// back little-endian, in order.
pub open spec fn remapped_words(t: Seq<u8>, at: int, n: nat, r: Remap) -> Words
    decreases n,
{
    if n == 0 {
        Words::Bytes(seq![])
    } else {
        match remapped_words(t, at, (n - 1) as nat, r) {
            Words::Bytes(b) => {
                let p = at + 4 * (n - 1);
                match remap_offset(r, u32_at(t, p) as u32) {
                    None => Words::Bad(p),
                    Some(v) => if v > u32::MAX {
                        Words::Overflow
                    } else {
                        Words::Bytes(b + le32(v as u32))
                    },
                }
            },
            other => other,
        }
    }
}

/// One region as a copy takes it: its bytes and where it ends, or the
/// offset it is malformed at, or an offset remapped past the `u32` range.
pub enum Piece {
    Done(Seq<u8>, int),
    Malformed(int),
    Overflow,
}

/// Words as the region they end: done with `head` in front, or the bad
/// offset as malformed.
pub open spec fn words_piece(head: Seq<u8>, w: Words, end: int) -> Piece {
    match w {
        Words::Bytes(b) => Piece::Done(head + b, end),
        Words::Bad(at) => Piece::Malformed(at),
        Words::Overflow => Piece::Overflow,
    }
}

/// Where the tape entries of a frame descriptor end, `n` entries from
/// `pos`; `None` where the bytes run out.
pub open spec fn tapes_end(t: Seq<u8>, pos: int, n: nat) -> Option<int>
    decreases n,
{
    if n == 0 {
        Some(pos)
    } else if pos >= t.len() {
        None
    } else {
        let p1 = pos + 1;
        if p1 + 2 > t.len() {
            None
        } else {
            let p2 = p1 + 2 + 2 * u16_at(t, p1);
            if p2 + 2 > t.len() {
                None
            } else {
                tapes_end(t, p2 + 2 + 2 * u16_at(t, p2), (n - 1) as nat)
            }
        }
    }
}

/// The frame descriptor at `start`: header and maps copied, exits
/// remapped; cut short, or of an arity outside 1 to 16, it is malformed
/// at its start.
pub open spec fn frame_piece(t: Seq<u8>, start: int, r: Remap) -> Piece {
    if start >= t.len() || t[start] == 0 || t[start] > 16 || start + 3 > t.len() {
        Piece::Malformed(start)
    } else {
        match tapes_end(t, start + 3, t[start] as nat) {
            None => Piece::Malformed(start),
            Some(pos) => {
                let end = pos + 4 * u16_at(t, start + 1);
                if pos > t.len() || end > t.len() {
                    Piece::Malformed(start)
                } else {
                    words_piece(t.subrange(start, pos), remapped_words(t, pos, u16_at(t, start + 1) as nat, r), end)
                }
            },
        }
    }
}

/// The region of `kind` at `start`.
pub open spec fn table_piece(t: Seq<u8>, start: int, kind: TableKind, r: Remap) -> Piece {
    match kind {
        TableKind::Match => if start + 3 > t.len() {
            Piece::Malformed(start)
        } else {
            let end = start + 3 + (t[start] as int) * u16_at(t, start + 1);
            if end > t.len() {
                Piece::Malformed(start)
            } else {
                Piece::Done(t.subrange(start, end), end)
            }
        },
        TableKind::Dispatch => if start + 2 > t.len() {
            Piece::Malformed(start)
        } else {
            let end = start + 2 + 4 * u16_at(t, start);
            if end > t.len() {
                Piece::Malformed(start)
            } else {
                words_piece(t.subrange(start, start + 2), remapped_words(t, start + 2, u16_at(t, start) as nat, r), end)
            }
        },
        TableKind::Frame => frame_piece(t, start, r),
    }
}

/// Copy the regions `starts[i..]` from `pos`: each must begin where the
/// last ended, and the last must end the blob.
pub open spec fn walk_from(t: Seq<u8>, starts: Seq<(u32, TableKind)>, i: int, pos: int, r: Remap) -> Piece
    decreases starts.len() - i,
{
    if i >= starts.len() {
        if pos != t.len() {
            Piece::Malformed(pos)
        } else {
            Piece::Done(seq![], pos)
        }
    } else if starts[i].0 != pos {
        Piece::Malformed(if pos < starts[i].0 { pos } else { starts[i].0 as int })
    } else {
        match table_piece(t, pos, starts[i].1, r) {
            Piece::Done(b, end) => behind(b, walk_from(t, starts, i + 1, end, r)),
            other => other,
        }
    }
}

/// `rest` behind `b`: a completed copy gets `b` in front.
pub open spec fn behind(b: Seq<u8>, rest: Piece) -> Piece {
    match rest {
        Piece::Done(r, e) => Piece::Done(b + r, e),
        other => other,
    }
}

/// How many starts have an offset below `k`.
pub open spec fn keys_below(s: Seq<(u32, TableKind)>, k: u32) -> int
    decreases s.len(),
{
    if s.len() == 0 {
        0
    } else {
        keys_below(s.drop_last(), k) + (if s.last().0 < k { 1int } else { 0int })
    }
}

/// Starts in strictly increasing offset order.
pub open spec fn starts_sorted(s: Seq<(u32, TableKind)>) -> bool {
    forall|i: int, j: int| 0 <= i < j < s.len() ==> (#[trigger] s[i]).0 < (#[trigger] s[j]).0
}

/// Add a classified start: the first kind seen for an offset stays.
pub open spec fn insert_start(s: Seq<(u32, TableKind)>, e: (u32, TableKind)) -> Seq<(u32, TableKind)> {
    if exists|j: int| 0 <= j < s.len() && (#[trigger] s[j]).0 == e.0 {
        s
    } else {
        s.insert(keys_below(s, e.0), e)
    }
}

/// The referenced offsets, each once in increasing order with the kind
/// its first reference gives it.
pub open spec fn table_starts(c: Seq<(u32, TableKind)>) -> Seq<(u32, TableKind)>
    decreases c.len(),
{
    if c.len() == 0 {
        seq![]
    } else {
        insert_start(table_starts(c.drop_last()), c.last())
    }
}

/// The copy of table blob `t` whose regions the classified references
/// give.
pub open spec fn copy_of(t: Seq<u8>, classified: Seq<(u32, TableKind)>, r: Remap) -> Piece {
    walk_from(t, table_starts(classified), 0, 0, r)
}

/// In sorted starts, the entries before `keys_below` are exactly those
/// below `k`.
proof fn lemma_keys_below(s: Seq<(u32, TableKind)>, k: u32)
    requires
        starts_sorted(s),
    ensures
        0 <= keys_below(s, k) <= s.len(),
        forall|i: int| 0 <= i < s.len() ==> ((#[trigger] s[i]).0 < k <==> i < keys_below(s, k)),
    decreases s.len(),
{
    if s.len() > 0 {
        let p = s.drop_last();
        assert(starts_sorted(p));
        lemma_keys_below(p, k);
        assert forall|i: int| 0 <= i < s.len() implies ((#[trigger] s[i]).0 < k <==> i < keys_below(s, k)) by {
            if i < s.len() - 1 {
                assert(p[i] == s[i]);
                if s.last().0 < k {
                    assert(s[i].0 < s[s.len() - 1].0);
                }
            } else if s[i].0 >= k && keys_below(p, k) == p.len() && p.len() > 0 {
                assert(p[p.len() - 1].0 < k);
                assert(s[p.len() - 1].0 < s[s.len() - 1].0);
            }
        }
    }
}

/// Adding a start keeps the starts sorted.
proof fn lemma_insert_start_sorted(s: Seq<(u32, TableKind)>, e: (u32, TableKind))
    requires
        starts_sorted(s),
    ensures
        starts_sorted(insert_start(s, e)),
{
    if !(exists|j: int| 0 <= j < s.len() && (#[trigger] s[j]).0 == e.0) {
        lemma_keys_below(s, e.0);
        let p = keys_below(s, e.0);
        let r = s.insert(p, e);
        assert forall|i: int, j: int| 0 <= i < j < r.len() implies (#[trigger] r[i]).0 < (#[trigger] r[j]).0 by {
            if j < p {
            } else if i < p && j == p {
                assert(s[i].0 < e.0);
            } else if i < p {
                assert(r[j] == s[j - 1]);
            } else if i == p {
                assert(r[j] == s[j - 1]);
                assert(s[j - 1].0 != e.0);
                assert(!(s[j - 1].0 < e.0));
            } else {
                assert(r[i] == s[i - 1] && r[j] == s[j - 1]);
            }
        }
    }
}

/// The table starts are sorted.
proof fn lemma_table_starts_sorted(c: Seq<(u32, TableKind)>)
    ensures
        starts_sorted(table_starts(c)),
    decreases c.len(),
{
    if c.len() > 0 {
        lemma_table_starts_sorted(c.drop_last());
        lemma_insert_start_sorted(table_starts(c.drop_last()), c.last());
    }
}

/// Collect the classified references into table starts.
fn collect_starts(classified: &Vec<(u32, TableKind)>) -> (r: Vec<(u32, TableKind)>)
    ensures
        r@ == table_starts(classified@),
{
    let mut starts: Vec<(u32, TableKind)> = Vec::new();
    let mut i: usize = 0;
    proof {
        assert(classified@.take(0) =~= Seq::<(u32, TableKind)>::empty());
    }
    while i < classified.len()
        invariant
            i <= classified@.len(),
            starts@ == table_starts(classified@.take(i as int)),
        decreases classified@.len() - i,
    {
        proof {
            lemma_table_starts_sorted(classified@.take(i as int));
            assert(classified@.take(i + 1).drop_last() =~= classified@.take(i as int));
            lemma_keys_below(starts@, classified@[i as int].0);
        }
        let (toff, kind) = classified[i];
        let mut j: usize = 0;
        while j < starts.len() && starts[j].0 < toff
            invariant
                j <= starts@.len(),
                forall|q: int| 0 <= q < j ==> (#[trigger] starts@[q]).0 < toff,
            decreases starts@.len() - j,
        {
            j = j + 1;
        }
        proof {
            assert(j == keys_below(starts@, toff)) by {
                if j < keys_below(starts@, toff) {
                    assert(starts@[j as int].0 < toff);
                }
                if j > keys_below(starts@, toff) {
                    assert(starts@[(j - 1) as int].0 < toff);
                }
            }
        }
        if j < starts.len() && starts[j].0 == toff {
            proof {
                assert(table_starts(classified@.take(i + 1)) == starts@);
            }
        } else {
            proof {
                assert(!(exists|q: int| 0 <= q < starts@.len() && (#[trigger] starts@[q]).0 == toff)) by {
                    if exists|q: int| 0 <= q < starts@.len() && (#[trigger] starts@[q]).0 == toff {
                        let q = choose|q: int| 0 <= q < starts@.len() && (#[trigger] starts@[q]).0 == toff;
                        if q > j {
                            assert(starts@[j as int].0 < starts@[q].0);
                        }
                    }
                }
            }
            starts.insert(j, (toff, kind));
        }
        i = i + 1;
    }
    proof {
        assert(classified@.take(classified@.len() as int) =~= classified@);
    }
    starts
}

/// A prefix of remapped words is bytes when the whole is, and each of its
/// offsets remaps: within range, or missing exactly where the whole is bad.
proof fn lemma_words_prefix(t: Seq<u8>, at: int, n: nat, m: nat, r: Remap)
    requires
        m <= n,
        !(remapped_words(t, at, n, r) is Overflow),
        remapped_words(t, at, m, r) is Bytes,
    ensures
        m < n ==> match remap_offset(r, u32_at(t, at + 4 * m) as u32) {
            Some(v) => v <= u32::MAX,
            None => remapped_words(t, at, n, r) == Words::Bad(at + 4 * m),
        },
    decreases n - m,
{
    if m + 1 < n {
        match remap_offset(r, u32_at(t, at + 4 * m) as u32) {
            Some(v) => {
                if v <= u32::MAX {
                    lemma_words_prefix(t, at, n, (m + 1) as nat, r);
                } else {
                    lemma_words_overflow_sticks(t, at, (m + 1) as nat, n, r);
                }
            },
            None => {
                lemma_words_bad_sticks(t, at, (m + 1) as nat, n, r, at + 4 * m);
            },
        }
    }
}

/// Once the words overflow, longer runs overflow too.
proof fn lemma_words_overflow_sticks(t: Seq<u8>, at: int, m: nat, n: nat, r: Remap)
    requires
        m <= n,
        remapped_words(t, at, m, r) is Overflow,
    ensures
        remapped_words(t, at, n, r) is Overflow,
    decreases n - m,
{
    if m < n {
        lemma_words_overflow_sticks(t, at, (m + 1) as nat, n, r);
    }
}

/// Once an offset is bad, longer runs report it.
proof fn lemma_words_bad_sticks(t: Seq<u8>, at: int, m: nat, n: nat, r: Remap, p: int)
    requires
        m <= n,
        remapped_words(t, at, m, r) == Words::Bad(p),
    ensures
        remapped_words(t, at, n, r) == Words::Bad(p),
    decreases n - m,
{
    if m < n {
        lemma_words_bad_sticks(t, at, (m + 1) as nat, n, r, p);
    }
}

/// A bad offset lies among the words.
proof fn lemma_words_bad_range(t: Seq<u8>, at: int, n: nat, r: Remap)
    ensures
        remapped_words(t, at, n, r) matches Words::Bad(p) ==> at <= p < at + 4 * n,
    decreases n,
{
    if n > 0 {
        lemma_words_bad_range(t, at, (n - 1) as nat, r);
    }
}

/// How a copy remaps the code offsets it meets.
pub enum Remapper<'a> {
    /// Past the sites, in the original blob, that widened by four bytes.
    Shift(&'a Vec<u32>),
    /// Into the linked code: a function's base plus the final offset of
    /// each of its original offsets.
    Rebase(u32, &'a HashMap<u32, u32>),
}

impl<'a> Remapper<'a> {
    /// The remap this stands for.
    pub open spec fn remap(&self) -> Remap {
        match self {
            Remapper::Shift(w) => Remap::Shift(w@),
            Remapper::Rebase(base, m) => Remap::Rebase(*base, m@),
        }
    }

    /// Few enough widened sites to count in a `u32`.
    pub open spec fn fits(&self) -> bool {
        match self {
            Remapper::Shift(w) => w@.len() < 0x4000_0000,
            Remapper::Rebase(_, _) => true,
        }
    }
}

/// How many widened sites lie strictly before `off`.
fn count_before(w: &Vec<u32>, off: u32) -> (r: u32)
    requires
        w@.len() < 0x4000_0000,
    ensures
        r == count_below(w@, off),
{
    let mut c: u32 = 0;
    let mut i: usize = 0;
    while i < w.len()
        invariant
            i <= w@.len() < 0x4000_0000,
            c == count_below(w@.take(i as int), off),
            c <= i,
        decreases w@.len() - i,
    {
        proof {
            assert(w@.take(i + 1).drop_last() =~= w@.take(i as int));
        }
        if w[i] < off {
            c = c + 1;
        }
        i = i + 1;
    }
    proof {
        assert(w@.take(w@.len() as int) =~= w@);
    }
    c
}

/// The `u32` stored little-endian at byte `p`.
fn read_u32(t: &[u8], p: u32) -> (r: u32)
    requires
        p + 4 <= t@.len(),
    ensures
        r == u32_at(t@, p as int),
{
    let p = p as usize;
    t[p] as u32 + 256 * (t[p + 1] as u32) + 65536 * (t[p + 2] as u32) + 16777216 * (t[p + 3] as u32)
}

/// The `u16` stored little-endian at byte `p`.
pub(crate) fn read_u16(t: &[u8], p: u32) -> (r: u32)
    requires
        p + 2 <= t@.len(),
    ensures
        r == u16_at(t@, p as int),
        r <= 0xFFFF,
{
    let p = p as usize;
    t[p] as u32 + 256 * (t[p + 1] as u32)
}

/// Where the code offset stored at `p` goes, in range by the caller's
/// word; `Err` with `p` where the map lacks it.
fn remap_entry(t: &[u8], p: u32, how: &Remapper) -> (r: Result<u32, u32>)
    requires
        p + 4 <= t@.len(),
        how.fits(),
        match remap_offset(how.remap(), u32_at(t@, p as int) as u32) {
            Some(v) => v <= u32::MAX,
            None => true,
        },
    ensures
        match remap_offset(how.remap(), u32_at(t@, p as int) as u32) {
            Some(v) => r == Ok::<u32, u32>(v as u32),
            None => r == Err::<u32, u32>(p),
        },
{
    let off = read_u32(t, p);
    match how {
        Remapper::Shift(w) => {
            let c = count_before(w, off);
            Ok(off + 4 * c)
        },
        Remapper::Rebase(base, m) => match m.get(&off) {
            Some(v) => Ok(*base + *v),
            None => Err(p),
        },
    }
}

/// Append the `n` offsets stored from byte `at`, each remapped; `Err`
/// with where the first offset the map lacks is stored.
fn push_remapped(t: &[u8], at: u32, n: u32, how: &Remapper, out: &mut Vec<u8>) -> (r: Result<(), u32>)
    requires
        at + 4 * n <= t@.len(),
        t@.len() <= 0xFF00_FFFF,
        how.fits(),
        !(remapped_words(t@, at as int, n as nat, how.remap()) is Overflow),
    ensures
        match remapped_words(t@, at as int, n as nat, how.remap()) {
            Words::Bytes(b) => r is Ok && final(out)@ == old(out)@ + b,
            Words::Bad(p) => r == Err::<(), u32>(p as u32),
            Words::Overflow => false,
        },
{
    let mut e: u32 = 0;
    proof {
        assert(old(out)@ + Seq::<u8>::empty() =~= old(out)@);
    }
    while e < n
        invariant
            e <= n,
            at + 4 * n <= t@.len(),
            t@.len() <= 0xFF00_FFFF,
            how.fits(),
            !(remapped_words(t@, at as int, n as nat, how.remap()) is Overflow),
            remapped_words(t@, at as int, e as nat, how.remap()) is Bytes,
            out@ == old(out)@ + remapped_words(t@, at as int, e as nat, how.remap())->Bytes_0,
        decreases n - e,
    {
        proof {
            lemma_words_prefix(t@, at as int, n as nat, e as nat, how.remap());
        }
        match remap_entry(t, at + 4 * e, how) {
            Ok(v) => {
                push_le32(out, v);
                proof {
                    assert(out@ =~= old(out)@ + remapped_words(t@, at as int, (e + 1) as nat, how.remap())->Bytes_0);
                }
            },
            Err(p) => {
                return Err(p);
            },
        }
        e = e + 1;
    }
    Ok(())
}

/// Append bytes `from..to` of `t`.
fn copy_range(t: &[u8], from: u32, to: u32, out: &mut Vec<u8>)
    requires
        from <= to <= t@.len(),
    ensures
        final(out)@ == old(out)@ + t@.subrange(from as int, to as int),
{
    let mut k: u32 = from;
    while k < to
        invariant
            from <= k <= to <= t@.len(),
            out@ == old(out)@ + t@.subrange(from as int, k as int),
        decreases to - k,
    {
        out.push(t[k as usize]);
        proof {
            assert(t@.subrange(from as int, k + 1) =~= t@.subrange(from as int, k as int).push(t@[k as int]));
        }
        k = k + 1;
    }
}

/// A malformed table of `name` at `at`.
fn malformed(name: &str, at: u32) -> (r: LinkError)
    ensures
        r matches LinkError::MalformedTable { symbol, at: a } && symbol@ == name@ && a == at,
{
    LinkError::MalformedTable { symbol: name.to_owned(), at }
}

/// Append the words the copy of a region ends with, after its `head`.
fn finish_words(t: &[u8], at: u32, n: u32, how: &Remapper, name: &str, out: &mut Vec<u8>) -> (r: Result<(), LinkError>)
    requires
        at + 4 * n <= t@.len(),
        t@.len() <= 0xFF00_FFFF,
        how.fits(),
        !(remapped_words(t@, at as int, n as nat, how.remap()) is Overflow),
    ensures
        match remapped_words(t@, at as int, n as nat, how.remap()) {
            Words::Bytes(b) => r is Ok && final(out)@ == old(out)@ + b,
            Words::Bad(p) => r matches Err(LinkError::MalformedTable { symbol, at: a }) && symbol@ == name@ && a == p,
            Words::Overflow => false,
        },
{
    proof {
        lemma_words_bad_range(t@, at as int, n as nat, how.remap());
    }
    match push_remapped(t, at, n, how, out) {
        Ok(()) => Ok(()),
        Err(p) => Err(malformed(name, p)),
    }
}

/// Copy the frame descriptor at `start`, giving where it ends.
fn copy_frame(table: &[u8], start: u32, how: &Remapper, name: &str, out: &mut Vec<u8>) -> (r: Result<u32, LinkError>)
    requires
        table@.len() <= 0xFF00_FFFF,
        how.fits(),
        !(frame_piece(table@, start as int, how.remap()) is Overflow),
    ensures
        match frame_piece(table@, start as int, how.remap()) {
            Piece::Done(b, end) => r == Ok::<u32, LinkError>(end as u32) && final(out)@ == old(out)@ + b
                && start <= end <= table@.len(),
            Piece::Malformed(at) => r matches Err(LinkError::MalformedTable { symbol, at: a }) && symbol@ == name@ && a == at,
            Piece::Overflow => false,
        },
{
    let len = table.len() as u32;
    if start >= len {
        return Err(malformed(name, start));
    }
    let arity = table[start as usize];
    if arity == 0 || arity > 16 || start + 3 > len {
        return Err(malformed(name, start));
    }
    let exit_count = read_u16(table, start + 1);
    let mut pos: u32 = start + 3;
    let mut i: u8 = 0;
    while i < arity
        invariant
            len as int == table@.len(),
            table@.len() <= 0xFF00_FFFF,
            (start as int) + 3 <= table@.len(),
            i <= arity == table@[start as int],
            1 <= arity <= 16,
            start + 3 <= pos <= table@.len() + 0x20003,
            exit_count == u16_at(table@, start + 1),
            tapes_end(table@, start + 3, arity as nat) == tapes_end(table@, pos as int, (arity - i) as nat),
        decreases arity - i,
    {
        if pos >= len {
            proof {
                assert(tapes_end(table@, pos as int, (arity - i) as nat) is None);
            }
            return Err(malformed(name, start));
        }
        pos = pos + 1;
        if pos + 2 > len {
            proof {
                assert(tapes_end(table@, (pos - 1) as int, (arity - i) as nat) is None);
            }
            return Err(malformed(name, start));
        }
        let m1 = read_u16(table, pos);
        pos = pos + 2 + 2 * m1;
        if pos + 2 > len {
            proof {
                assert(tapes_end(table@, (pos - 3 - 2 * m1) as int, (arity - i) as nat) is None);
            }
            return Err(malformed(name, start));
        }
        let m2 = read_u16(table, pos);
        pos = pos + 2 + 2 * m2;
        i = i + 1;
    }
    if pos > len {
        return Err(malformed(name, start));
    }
    let end = pos + 4 * exit_count;
    copy_range(table, start, pos, out);
    if end > len {
        return Err(malformed(name, start));
    }
    let ghost head = out@;
    match finish_words(table, pos, exit_count, how, name, out) {
        Ok(()) => {
            proof {
                assert(out@ =~= old(out)@ + (table@.subrange(start as int, pos as int)
                    + remapped_words(table@, pos as int, exit_count as nat, how.remap())->Bytes_0));
            }
            Ok(end)
        },
        Err(e) => Err(e),
    }
}

/// Copy the region of `kind` at `start`, giving where it ends.
fn copy_piece(table: &[u8], start: u32, kind: TableKind, how: &Remapper, name: &str, out: &mut Vec<u8>) -> (r: Result<u32, LinkError>)
    requires
        table@.len() <= 0xFF00_FFFF,
        how.fits(),
        start <= table@.len(),
        !(table_piece(table@, start as int, kind, how.remap()) is Overflow),
    ensures
        match table_piece(table@, start as int, kind, how.remap()) {
            Piece::Done(b, end) => r == Ok::<u32, LinkError>(end as u32) && final(out)@ == old(out)@ + b
                && start <= end <= table@.len(),
            Piece::Malformed(at) => r matches Err(LinkError::MalformedTable { symbol, at: a }) && symbol@ == name@ && a == at,
            Piece::Overflow => false,
        },
{
    let len = table.len() as u32;
    match kind {
        TableKind::Match => {
            if start + 3 > len {
                return Err(malformed(name, start));
            }
            let width = table[start as usize] as u32;
            let count = read_u16(table, start + 1);
            assert(0 <= width * count <= 255 * 0xFFFF) by (nonlinear_arith)
                requires
                    width <= 255,
                    count <= 0xFFFF,
            ;
            let end = start + 3 + width * count;
            proof {
                assert(end as int == start as int + 3 + (table@[start as int] as int) * u16_at(table@, start + 1));
            }
            if end > len {
                return Err(malformed(name, start));
            }
            copy_range(table, start, end, out);
            Ok(end)
        },
        TableKind::Dispatch => {
            if start + 2 > len {
                return Err(malformed(name, start));
            }
            let count = read_u16(table, start);
            let entries = start + 2;
            let end = entries + 4 * count;
            if end > len {
                return Err(malformed(name, start));
            }
            copy_range(table, start, entries, out);
            match finish_words(table, entries, count, how, name, out) {
                Ok(()) => {
                    proof {
                        assert(out@ =~= old(out)@ + (table@.subrange(start as int, entries as int)
                            + remapped_words(table@, entries as int, count as nat, how.remap())->Bytes_0));
                    }
                    Ok(end)
                },
                Err(e) => Err(e),
            }
        },
        TableKind::Frame => copy_frame(table, start, how, name, out),
    }
}

/// Append the copy of table blob `table` whose regions `classified`
/// gives, in offset order.
fn copy_table(classified: &Vec<(u32, TableKind)>, table: &[u8], how: &Remapper, name: &str, out: &mut Vec<u8>) -> (r: Result<(), LinkError>)
    requires
        table@.len() <= 0xFF00_FFFF,
        how.fits(),
        !(copy_of(table@, classified@, how.remap()) is Overflow),
    ensures
        match copy_of(table@, classified@, how.remap()) {
            Piece::Done(b, _) => r is Ok && final(out)@ == old(out)@ + b,
            Piece::Malformed(at) => r matches Err(LinkError::MalformedTable { symbol, at: a }) && symbol@ == name@ && a == at,
            Piece::Overflow => false,
        },
{
    let starts = collect_starts(classified);
    let ghost whole = walk_from(table@, starts@, 0, 0, how.remap());
    let len = table.len() as u32;
    let mut pos: u32 = 0;
    let mut i: usize = 0;
    proof {
        match whole {
            Piece::Done(b, e) => assert(old(out)@ + b =~= out@ + b),
            _ => {},
        }
        assert(out@ =~= old(out)@ + Seq::<u8>::empty());
    }
    while i < starts.len()
        invariant
            len as int == table@.len(),
            table@.len() <= 0xFF00_FFFF,
            how.fits(),
            i <= starts@.len(),
            pos <= table@.len(),
            starts@ == table_starts(classified@),
            whole == walk_from(table@, starts@, 0, 0, how.remap()),
            !(whole is Overflow),
            whole == behind(out@.skip(old(out)@.len() as int), walk_from(table@, starts@, i as int, pos as int, how.remap())),
            out@.len() >= old(out)@.len(),
            out@.take(old(out)@.len() as int) == old(out)@,
        decreases starts@.len() - i,
    {
        let (start, kind) = starts[i];
        if start != pos {
            let at = if pos < start { pos } else { start };
            proof {
                assert(walk_from(table@, starts@, i as int, pos as int, how.remap()) == Piece::Malformed(at as int));
            }
            return Err(malformed(name, at));
        }
        let ghost before = out@;
        proof {
            assert(!(walk_from(table@, starts@, i as int, pos as int, how.remap()) is Overflow));
        }
        let end: u32 = match copy_piece(table, start, kind, how, name, out) {
            Ok(end) => end,
            Err(e) => {
                return Err(e);
            },
        };
        proof {
            match table_piece(table@, start as int, kind, how.remap()) {
                Piece::Done(b, e) => {
                    assert(out@ =~= before + b);
                    assert(out@.skip(old(out)@.len() as int) =~= before.skip(old(out)@.len() as int) + b);
                    assert(out@.take(old(out)@.len() as int) =~= before.take(old(out)@.len() as int));
                    match walk_from(table@, starts@, i + 1, end as int, how.remap()) {
                        Piece::Done(rest, e2) => assert(before.skip(old(out)@.len() as int) + (b + rest)
                            =~= out@.skip(old(out)@.len() as int) + rest),
                        _ => {},
                    }
                },
                _ => {},
            }
        }
        pos = end;
        i = i + 1;
    }
    if pos != len {
        return Err(malformed(name, pos));
    }
    proof {
        assert(out@.skip(old(out)@.len() as int) + Seq::<u8>::empty() =~= out@.skip(old(out)@.len() as int));
        assert(out@ =~= old(out)@ + out@.skip(old(out)@.len() as int));
    }
    Ok(())
}

/// Copy a function's table blob for its rewritten code, its code offsets
/// (dispatch entries and frame-descriptor exits) shifted past the call
/// sites that widened by four bytes (`widened`, offsets in the original
/// blob), match rows and descriptor maps as they are. `classified` gives
/// each reference into the table: its offset and the kind its instruction
/// makes it. An empty table stays empty. Table positions are `u32`, as
/// the object format stores them, and the walk computes each region's end
/// in `u32`: a region may end up to 3 + 255 * 65535 bytes past its start,
/// so the table is at most `0xFF00_FFFF` bytes; each shifted offset adds
/// four bytes per widened site in `u32`, so there are fewer than 2^30.
pub fn shift_table(classified: &Vec<(u32, TableKind)>, table: &[u8], name: &str, widened: &Vec<u32>) -> (r: Result<Vec<u8>, LinkError>)
    requires
        table@.len() <= 0xFF00_FFFF,
        widened@.len() < 0x4000_0000,
        table@.len() > 0 ==> !(copy_of(table@, classified@, Remap::Shift(widened@)) is Overflow),
    ensures
        table@.len() == 0 ==> (r matches Ok(v) && v@.len() == 0),
        table@.len() > 0 ==> match copy_of(table@, classified@, Remap::Shift(widened@)) {
            Piece::Done(b, _) => r matches Ok(v) && v@ == b,
            Piece::Malformed(at) => r matches Err(LinkError::MalformedTable { symbol, at: a }) && symbol@ == name@ && a == at,
            Piece::Overflow => false,
        },
{
    if table.len() == 0 {
        return Ok(Vec::new());
    }
    let mut out: Vec<u8> = Vec::new();
    let how = Remapper::Shift(widened);
    match copy_table(classified, table, &how, name, &mut out) {
        Ok(()) => {
            proof {
                assert(out@ =~= Seq::<u8>::empty() + out@);
            }
            Ok(out)
        },
        Err(e) => Err(e),
    }
}

/// Copy the frame descriptor at `start` to `out` with its exits shifted
/// past the widened sites, giving where it ends.
pub fn shift_frame_descriptor(table: &[u8], start: u32, widened: &Vec<u32>, name: &str, out: &mut Vec<u8>) -> (r: Result<u32, LinkError>)
    requires
        table@.len() <= 0xFF00_FFFF,
        widened@.len() < 0x4000_0000,
        !(frame_piece(table@, start as int, Remap::Shift(widened@)) is Overflow),
    ensures
        match frame_piece(table@, start as int, Remap::Shift(widened@)) {
            Piece::Done(b, end) => r == Ok::<u32, LinkError>(end as u32) && final(out)@ == old(out)@ + b,
            Piece::Malformed(at) => r matches Err(LinkError::MalformedTable { symbol, at: a }) && symbol@ == name@ && a == at,
            Piece::Overflow => false,
        },
{
    copy_frame(table, start, &Remapper::Shift(widened), name, out)
}

/// Append a function's table blob to the executable's table section,
/// every dispatch entry and frame-descriptor exit rebased from an offset
/// in the function's original blob to its address in the linked code
/// (`code_base` plus its final offset from `orig_to_new`); an offset
/// `orig_to_new` lacks is not on an instruction boundary, a malformed
/// table where it is stored. `classified` gives each reference into the
/// table with the kind its instruction makes it.
pub fn append_function_tables(
    classified: &Vec<(u32, TableKind)>,
    table: &[u8],
    name: &str,
    code_base: u32,
    orig_to_new: &HashMap<u32, u32>,
    out: &mut Vec<u8>,
) -> (r: Result<(), LinkError>)
    requires
        table@.len() <= 0xFF00_FFFF,
        !(copy_of(table@, classified@, Remap::Rebase(code_base, orig_to_new@)) is Overflow),
    ensures
        match copy_of(table@, classified@, Remap::Rebase(code_base, orig_to_new@)) {
            Piece::Done(b, _) => r is Ok && final(out)@ == old(out)@ + b,
            Piece::Malformed(at) => r matches Err(LinkError::MalformedTable { symbol, at: a }) && symbol@ == name@ && a == at,
            Piece::Overflow => false,
        },
{
    copy_table(classified, table, &Remapper::Rebase(code_base, orig_to_new), name, out)
}

/// Append the frame descriptor at `start` with its exits rebased into the
/// linked code, giving where it ends.
pub fn append_frame_descriptor(
    table: &[u8],
    start: u32,
    name: &str,
    code_base: u32,
    orig_to_new: &HashMap<u32, u32>,
    out: &mut Vec<u8>,
) -> (r: Result<u32, LinkError>)
    requires
        table@.len() <= 0xFF00_FFFF,
        !(frame_piece(table@, start as int, Remap::Rebase(code_base, orig_to_new@)) is Overflow),
    ensures
        match frame_piece(table@, start as int, Remap::Rebase(code_base, orig_to_new@)) {
            Piece::Done(b, end) => r == Ok::<u32, LinkError>(end as u32) && final(out)@ == old(out)@ + b,
            Piece::Malformed(at) => r matches Err(LinkError::MalformedTable { symbol, at: a }) && symbol@ == name@ && a == at,
            Piece::Overflow => false,
        },
{
    copy_frame(table, start, &Remapper::Rebase(code_base, orig_to_new), name, out)
}

/// Rebase the code offset stored at `at` into the linked code and append
/// it; an offset the map lacks is malformed at `at`.
pub fn rebase_entry(
    table: &[u8],
    at: u32,
    name: &str,
    code_base: u32,
    orig_to_new: &HashMap<u32, u32>,
    out: &mut Vec<u8>,
) -> (r: Result<(), LinkError>)
    requires
        at + 4 <= table@.len(),
        orig_to_new@.contains_key(u32_at(table@, at as int) as u32) ==>
            code_base + orig_to_new@[u32_at(table@, at as int) as u32] <= u32::MAX,
    ensures
        orig_to_new@.contains_key(u32_at(table@, at as int) as u32) ==> (r is Ok
            && final(out)@ == old(out)@ + le32((code_base + orig_to_new@[u32_at(table@, at as int) as u32]) as u32)),
        !orig_to_new@.contains_key(u32_at(table@, at as int) as u32) ==>
            (r matches Err(LinkError::MalformedTable { symbol, at: a }) && symbol@ == name@ && a == at),
{
    match remap_entry(table, at, &Remapper::Rebase(code_base, orig_to_new)) {
        Ok(v) => {
            push_le32(out, v);
            Ok(())
        },
        Err(p) => Err(malformed(name, p)),
    }
}

/// Whether an offset lies strictly before `off`.
pub open spec fn before_offset(off: u32) -> spec_fn(u32) -> bool {
    |x: u32| x < off
}

/// Only the widened sites strictly before an offset move it: the offset
/// moves by four bytes for each such site, so an offset at or before every
/// widened site, a site's own start among them, stays where it is, and one
/// past them all moves by four bytes per site.
pub proof fn law_shift_moves_past_sites_strictly_before(w: Seq<u32>, off: u32)
    ensures
        widen_shift(w, off) == off + 4 * w.filter(before_offset(off)).len(),
        (forall|i: int| 0 <= i < w.len() ==> off <= #[trigger] w[i]) ==> widen_shift(w, off) == off,
        (forall|i: int| 0 <= i < w.len() ==> #[trigger] w[i] < off) ==> widen_shift(w, off) == off + 4 * w.len(),
    decreases w.len(),
{
    reveal(Seq::filter);
    if w.len() > 0 {
        law_shift_moves_past_sites_strictly_before(w.drop_last(), off);
        if forall|i: int| 0 <= i < w.len() ==> off <= #[trigger] w[i] {
            assert forall|i: int| 0 <= i < w.drop_last().len() implies off <= #[trigger] w.drop_last()[i] by {
                assert(w.drop_last()[i] == w[i]);
            }
            assert(off <= w[w.len() - 1]);
        }
        if forall|i: int| 0 <= i < w.len() ==> #[trigger] w[i] < off {
            assert forall|i: int| 0 <= i < w.drop_last().len() implies #[trigger] w.drop_last()[i] < off by {
                assert(w.drop_last()[i] == w[i]);
            }
            assert(w[w.len() - 1] < off);
        }
    }
}

} // verus!
