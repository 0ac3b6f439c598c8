//! The composition algebra: absolute composites, binding ingestion, and
//! composite-on-composite composition (the frame descriptor a bound call
//! lowers to). Pure data plus a total algebra.
//!
//! A **binding** maps, for each callee virtual tape, a caller tape and a set
//! of caller-symbol to callee-symbol pairs. Ordinary `->` pairs are
//! bidirectional; one-way `=>` pairs read only and are excluded from
//! write-back and from the injectivity checks. The blank pair 0<->0 is
//! always present and bidirectional; a non-blank symbol may fold onto blank
//! one-way, but blank never reads or writes as anything else.
//!
//! A **composite** is the absolute form: per callee virtual tape, the
//! physical machine tape plus a read map (physical -> virtual) and a write
//! map (virtual -> physical), each a partial function whose gaps are
//! **holes**. Maps are kept sparse: explicit non-identity pairs sorted by
//! source, plus a sorted hole list; every other symbol maps to itself.

use vstd::prelude::*;

use super::crc32::{crc32, spec_crc32};
use super::object::{MapPair, RoutineSig, TapeBinding};
use crate::syntax::red::{decimal, push_decimal};

verus! {

/// Highest representable symbol index (the dense wire map reserves `0xFFFF`
/// as the hole sentinel).
pub const MAX_SYMBOL: u32 = 0xFFFE;

/// Strictly increasing.
pub open spec fn sorted_u16(s: Seq<u16>) -> bool {
    forall|i: int, j: int| 0 <= i < j < s.len() ==> #[trigger] s[i] < #[trigger] s[j]
}

/// The source symbols of a pair list, in order.
pub open spec fn pair_keys(p: Seq<(u16, u16)>) -> Seq<u16> {
    p.map_values(|e: (u16, u16)| e.0)
}

/// The image a pair list stores for `s`, if it stores one (the last entry
/// naming `s`; a well-formed list names each source at most once).
pub open spec fn pair_lookup(p: Seq<(u16, u16)>, s: u16) -> Option<u16>
    decreases p.len(),
{
    if p.len() == 0 {
        None
    } else if p.last().0 == s {
        Some(p.last().1)
    } else {
        pair_lookup(p.drop_last(), s)
    }
}

/// The partial map a (pairs, holes) representation denotes: a hole is
/// `None`, a listed source its image, anything else itself.
pub open spec fn map_apply(pairs: Seq<(u16, u16)>, holes: Seq<u16>, s: u16) -> Option<u16> {
    if holes.contains(s) {
        None
    } else {
        match pair_lookup(pairs, s) {
            Some(d) => Some(d),
            None => Some(s),
        }
    }
}

/// Little-endian bytes of a `u16`.
pub open spec fn u16_le(x: u16) -> Seq<u8> {
    seq![(x % 256) as u8, (x / 256) as u8]
}

/// The serialization of a pair list: each pair as two little-endian `u16`s.
pub open spec fn pairs_bytes(p: Seq<(u16, u16)>) -> Seq<u8>
    decreases p.len(),
{
    if p.len() == 0 {
        seq![]
    } else {
        pairs_bytes(p.drop_last()) + u16_le(p.last().0) + u16_le(p.last().1)
    }
}

/// The serialization of a symbol list: each as a little-endian `u16`.
pub open spec fn syms_bytes(h: Seq<u16>) -> Seq<u8>
    decreases h.len(),
{
    if h.len() == 0 {
        seq![]
    } else {
        syms_bytes(h.drop_last()) + u16_le(h.last())
    }
}

/// The dedup-key contribution of one map: pair count, pairs, hole count,
/// holes.
pub open spec fn map_key(pairs: Seq<(u16, u16)>, holes: Seq<u16>) -> Seq<u8> {
    u16_le(pairs.len() as u16) + pairs_bytes(pairs) + u16_le(holes.len() as u16) + syms_bytes(holes)
}

/// `Option::and_then` over a second map.
pub open spec fn then_apply(o: Option<u16>, m: SparseMap) -> Option<u16> {
    match o {
        None => None,
        Some(x) => m.spec_apply(x),
    }
}

/// A partial symbol map with an implicit identity default: `pairs` lists
/// the symbols that remap (sorted by source), `holes` the symbols that trap
/// when crossed (sorted), and every other symbol maps to itself.
#[derive(Debug, Clone)]
pub struct SparseMap {
    pairs: Vec<(u16, u16)>,
    holes: Vec<u16>,
}

impl SparseMap {
    /// The stored pairs.
    pub closed spec fn pairs_view(&self) -> Seq<(u16, u16)> {
        self.pairs@
    }

    /// The stored holes.
    pub closed spec fn holes_view(&self) -> Seq<u16> {
        self.holes@
    }

    /// The map's meaning at `s`.
    pub open spec fn spec_apply(&self, s: u16) -> Option<u16> {
        map_apply(self.pairs_view(), self.holes_view(), s)
    }

    /// Well-formed: pair sources and holes are strictly increasing.
    pub open spec fn wf(&self) -> bool {
        &&& sorted_u16(pair_keys(self.pairs_view()))
        &&& sorted_u16(self.holes_view())
    }

    /// Canonical: well-formed, no identity pair, no pair shadowed by a hole.
    pub open spec fn canonical(&self) -> bool {
        &&& self.wf()
        &&& forall|i: int|
            0 <= i < self.pairs_view().len() ==> (#[trigger] self.pairs_view()[i]).0
                != self.pairs_view()[i].1 && !self.holes_view().contains(
                self.pairs_view()[i].0,
            )
    }

    /// The map's dedup-key bytes.
    pub open spec fn key(&self) -> Seq<u8> {
        map_key(self.pairs_view(), self.holes_view())
    }

    /// True when the map sends every symbol to itself.
    pub open spec fn spec_is_identity(&self) -> bool {
        forall|s: u16| #[trigger] self.spec_apply(s) == Some(s)
    }

    /// The identity map: every symbol maps to itself, no holes.
    pub fn identity() -> (r: SparseMap)
        ensures
            r.canonical(),
            r.pairs_view().len() == 0,
            r.holes_view().len() == 0,
            r.spec_is_identity(),
    {
        SparseMap { pairs: Vec::new(), holes: Vec::new() }
    }

    /// Apply the map: `None` marks a hole, `Some(d)` the image.
    pub fn apply(&self, s: u16) -> (r: Option<u16>)
        requires
            self.wf(),
        ensures
            r == self.spec_apply(s),
    {
        let mut i: usize = 0;
        while i < self.holes.len()
            invariant
                i <= self.holes@.len(),
                forall|j: int| 0 <= j < i ==> self.holes@[j] != s,
            decreases self.holes@.len() - i,
        {
            if self.holes[i] == s {
                return None;
            }
            i = i + 1;
        }
        let mut k: usize = 0;
        while k < self.pairs.len()
            invariant
                k <= self.pairs@.len(),
                !self.holes@.contains(s),
                sorted_u16(pair_keys(self.pairs@)),
                forall|j: int| 0 <= j < k ==> (#[trigger] self.pairs@[j]).0 != s,
            decreases self.pairs@.len() - k,
        {
            if self.pairs[k].0 == s {
                proof {
                    lemma_lookup_at(self.pairs@, k as int);
                }
                return Some(self.pairs[k].1);
            }
            k = k + 1;
        }
        proof {
            lemma_lookup_absent(self.pairs@, s);
        }
        Some(s)
    }

    /// The image stored for `s` among the pairs (holes not consulted).
    pub fn pair(&self, s: u16) -> (r: Option<u16>)
        requires
            self.wf(),
        ensures
            r == pair_lookup(self.pairs_view(), s),
    {
        let mut k: usize = 0;
        while k < self.pairs.len()
            invariant
                k <= self.pairs@.len(),
                sorted_u16(pair_keys(self.pairs@)),
                forall|j: int| 0 <= j < k ==> (#[trigger] self.pairs@[j]).0 != s,
            decreases self.pairs@.len() - k,
        {
            if self.pairs[k].0 == s {
                proof {
                    lemma_lookup_at(self.pairs@, k as int);
                }
                return Some(self.pairs[k].1);
            }
            k = k + 1;
        }
        proof {
            lemma_lookup_absent(self.pairs@, s);
        }
        None
    }

    /// True when no pair is stored.
    pub fn has_no_pairs(&self) -> (r: bool)
        ensures
            r == (self.pairs_view().len() == 0),
    {
        self.pairs.len() == 0
    }

    /// True when the map is the identity (no holes, every stored pair an
    /// identity pair).
    pub fn is_identity(&self) -> (r: bool)
        requires
            self.wf(),
        ensures
            r == self.spec_is_identity(),
    {
        let mut k: usize = 0;
        while k < self.pairs.len()
            invariant
                k <= self.pairs@.len(),
                sorted_u16(pair_keys(self.pairs@)),
                forall|j: int| 0 <= j < k ==> (#[trigger] self.pairs@[j]).0 == self.pairs@[j].1,
            decreases self.pairs@.len() - k,
        {
            if self.pairs[k].0 != self.pairs[k].1 {
                proof {
                    let s = self.pairs@[k as int].0;
                    lemma_lookup_at(self.pairs@, k as int);
                    if !self.holes@.contains(s) {
                        assert(self.spec_apply(s) != Some(s));
                    } else {
                        assert(self.spec_apply(s) != Some(s));
                    }
                }
                return false;
            }
            k = k + 1;
        }
        if self.holes.len() != 0 {
            proof {
                assert(self.holes@.contains(self.holes@[0]));
                assert(self.spec_apply(self.holes@[0]) != Some(self.holes@[0]));
            }
            return false;
        }
        proof {
            assert forall|s: u16| #[trigger] self.spec_apply(s) == Some(s) by {
                if exists|i: int| 0 <= i < self.pairs@.len() && #[trigger] self.pairs@[i].0 == s {
                    let i = choose|i: int| 0 <= i < self.pairs@.len() && #[trigger] self.pairs@[i].0 == s;
                    lemma_lookup_at(self.pairs@, i);
                } else {
                    lemma_lookup_absent(self.pairs@, s);
                }
            }
        }
        true
    }

    /// Store `s -> d`, replacing any image already stored for `s`.
    pub fn insert_pair(&mut self, s: u16, d: u16)
        requires
            old(self).wf(),
        ensures
            final(self).wf(),
            final(self).holes_view() == old(self).holes_view(),
            pair_lookup(final(self).pairs_view(), s) == Some(d),
            forall|t: u16|
                t != s ==> pair_lookup(final(self).pairs_view(), t) == pair_lookup(
                    old(self).pairs_view(),
                    t,
                ),
    {
        let pos = find_pair_slot(&self.pairs, s);
        let ghost old_pairs = self.pairs@;
        if pos < self.pairs.len() && self.pairs[pos].0 == s {
            self.pairs.set(pos, (s, d));
            proof {
                lemma_sorted_set_value(old_pairs, pos as int, d);
            }
        } else {
            self.pairs.insert(pos, (s, d));
            proof {
                lemma_sorted_insert_pair(old_pairs, pos as int, s, d);
            }
        }
    }

    /// Add `h` to the hole set.
    pub fn insert_hole(&mut self, h: u16)
        requires
            old(self).wf(),
        ensures
            final(self).wf(),
            final(self).pairs_view() == old(self).pairs_view(),
            final(self).holes_view().to_set() == old(self).holes_view().to_set().insert(h),
    {
        let ghost old_holes = self.holes@;
        let pos = find_sym_slot(&self.holes, h);
        if pos < self.holes.len() && self.holes[pos] == h {
            assert(self.holes@[pos as int] == h);
            assert(self.holes@.contains(h));
            assert(self.holes@.to_set() =~= old_holes.to_set().insert(h));
        } else {
            self.holes.insert(pos, h);
            proof {
                lemma_sorted_insert_sym(old_holes, pos as int, h);
                assert(self.holes@ == old_holes.insert(pos as int, h));
                assert forall|t: u16| #[trigger] self.holes@.to_set().contains(t) == old_holes.to_set().insert(h).contains(t) by {
                    assert(old_holes.insert(pos as int, h).contains(t) == (old_holes.contains(t) || t == h));
                }
                assert(self.holes@.to_set() =~= old_holes.to_set().insert(h));
            }
        }
    }

    /// Drop identity pairs and pairs shadowed by a hole. Idempotent.
    pub fn canonicalize(&mut self)
        requires
            old(self).wf(),
        ensures
            final(self).canonical(),
            final(self).holes_view() == old(self).holes_view(),
            forall|s: u16| #[trigger] final(self).spec_apply(s) == old(self).spec_apply(s),
            old(self).canonical() ==> final(self).pairs_view() == old(self).pairs_view(),
    {
        let ghost old_pairs = self.pairs@;
        let mut out: Vec<(u16, u16)> = Vec::new();
        let mut k: usize = 0;
        while k < self.pairs.len()
            invariant
                k <= self.pairs@.len(),
                self.pairs@ == old_pairs,
                sorted_u16(pair_keys(old_pairs)),
                sorted_u16(self.holes@),
                sorted_u16(pair_keys(out@)),
                forall|j: int| 0 <= j < out@.len() ==> #[trigger] out@[j].0 != out@[j].1 && !self.holes@.contains(out@[j].0),
                forall|j: int| #![trigger out@[j]] 0 <= j < out@.len() ==> exists|i: int| #![trigger old_pairs[i]] 0 <= i < k && old_pairs[i] == out@[j],
                forall|i: int| 0 <= i < k && (#[trigger] old_pairs[i]).0 != old_pairs[i].1 && !self.holes@.contains(old_pairs[i].0) ==> out@.contains(old_pairs[i]),
                k < old_pairs.len() ==> forall|j: int| 0 <= j < out@.len() ==> #[trigger] out@[j].0 < old_pairs[k as int].0,
                old(self).canonical() ==> out@ == old_pairs.take(k as int),
            decreases self.pairs@.len() - k,
        {
            let p = self.pairs[k];
            let ghost prev = out@;
            let drop = p.0 == p.1 || contains_sym(&self.holes, p.0);
            if !drop {
                out.push(p);
            }
            proof {
                let kk = k as int;
                assert(pair_keys(old_pairs)[kk] == old_pairs[kk].0);
                if !drop {
                    assert(out@ == prev.push(p));
                    assert(out@[out@.len() - 1] == p);
                    assert forall|i: int, j: int| 0 <= i < j < pair_keys(out@).len() implies #[trigger] pair_keys(out@)[i] < #[trigger] pair_keys(out@)[j] by {
                        assert(pair_keys(out@)[i] == out@[i].0);
                        assert(pair_keys(out@)[j] == out@[j].0);
                        if j < prev.len() {
                            assert(pair_keys(prev)[i] == prev[i].0);
                            assert(pair_keys(prev)[j] == prev[j].0);
                        } else {
                            assert(prev[i].0 < old_pairs[kk].0);
                        }
                    }
                    assert forall|j: int| #![trigger out@[j]] 0 <= j < out@.len() implies exists|i: int| #![trigger old_pairs[i]] 0 <= i < k + 1 && old_pairs[i] == out@[j] by {
                        if j < prev.len() {
                            assert(out@[j] == prev[j]);
                        } else {
                            assert(old_pairs[kk] == out@[j]);
                        }
                    }
                    assert forall|i: int| 0 <= i < k + 1 && (#[trigger] old_pairs[i]).0 != old_pairs[i].1 && !self.holes@.contains(old_pairs[i].0) implies out@.contains(old_pairs[i]) by {
                        if i < kk {
                            assert(prev.contains(old_pairs[i]));
                            let j = choose|j: int| 0 <= j < prev.len() && prev[j] == old_pairs[i];
                            assert(out@[j] == old_pairs[i]);
                        } else {
                            assert(out@[out@.len() - 1] == old_pairs[i]);
                        }
                    }
                } else {
                    assert forall|j: int| #![trigger out@[j]] 0 <= j < out@.len() implies exists|i: int| #![trigger old_pairs[i]] 0 <= i < k + 1 && old_pairs[i] == out@[j] by {
                        let i = choose|i: int| #![trigger old_pairs[i]] 0 <= i < k && old_pairs[i] == out@[j];
                    }
                }
                if kk + 1 < old_pairs.len() {
                    assert(pair_keys(old_pairs)[kk + 1] == old_pairs[kk + 1].0);
                    assert(pair_keys(old_pairs)[kk] < pair_keys(old_pairs)[kk + 1]);
                }
                if old(self).canonical() {
                    assert(!drop);
                    assert(out@ =~= old_pairs.take(kk + 1));
                }
            }
            k = k + 1;
        }
        proof {
            let holes = self.holes@;
            assert forall|s: u16| #[trigger] map_apply(out@, holes, s) == map_apply(old_pairs, holes, s) by {
                if !holes.contains(s) {
                    if exists|i: int| 0 <= i < old_pairs.len() && #[trigger] old_pairs[i].0 == s {
                        let i = choose|i: int| 0 <= i < old_pairs.len() && #[trigger] old_pairs[i].0 == s;
                        lemma_lookup_at(old_pairs, i);
                        if old_pairs[i].0 != old_pairs[i].1 {
                            assert(out@.contains(old_pairs[i]));
                            let j = choose|j: int| 0 <= j < out@.len() && out@[j] == old_pairs[i];
                            lemma_lookup_at(out@, j);
                        } else {
                            if exists|j: int| 0 <= j < out@.len() && #[trigger] out@[j].0 == s {
                                let j = choose|j: int| 0 <= j < out@.len() && #[trigger] out@[j].0 == s;
                                let i2 = choose|i2: int| 0 <= i2 < old_pairs.len() && #[trigger] old_pairs[i2] == out@[j];
                                assert(pair_keys(old_pairs)[i2] == old_pairs[i2].0);
                                assert(pair_keys(old_pairs)[i] == old_pairs[i].0);
                                assert(false);
                            }
                            lemma_lookup_absent(out@, s);
                        }
                    } else {
                        if exists|j: int| 0 <= j < out@.len() && #[trigger] out@[j].0 == s {
                            let j = choose|j: int| 0 <= j < out@.len() && #[trigger] out@[j].0 == s;
                            let i2 = choose|i2: int| 0 <= i2 < old_pairs.len() && #[trigger] old_pairs[i2] == out@[j];
                            assert(old_pairs[i2].0 == s);
                        }
                        lemma_lookup_absent(out@, s);
                        lemma_lookup_absent(old_pairs, s);
                    }
                }
            }
            if old(self).canonical() {
                assert(old_pairs.take(old_pairs.len() as int) =~= old_pairs);
            }
        }
        self.pairs = out;
    }

    /// Append this map's dedup-key bytes to `out`.
    pub fn write_key(&self, out: &mut Vec<u8>)
        ensures
            final(out)@ == old(out)@ + self.key(),
    {
        let ghost start = out@;
        push_u16_le(out, self.pairs.len() as u16);
        let mut k: usize = 0;
        while k < self.pairs.len()
            invariant
                k <= self.pairs@.len(),
                out@ == start + u16_le(self.pairs@.len() as u16) + pairs_bytes(self.pairs@.take(k as int)),
            decreases self.pairs@.len() - k,
        {
            push_u16_le(out, self.pairs[k].0);
            push_u16_le(out, self.pairs[k].1);
            proof {
                assert(self.pairs@.take(k + 1).drop_last() =~= self.pairs@.take(k as int));
            }
            k = k + 1;
        }
        assert(self.pairs@.take(self.pairs@.len() as int) =~= self.pairs@);
        let ghost mid = out@;
        push_u16_le(out, self.holes.len() as u16);
        let mut h: usize = 0;
        while h < self.holes.len()
            invariant
                h <= self.holes@.len(),
                out@ == mid + u16_le(self.holes@.len() as u16) + syms_bytes(self.holes@.take(h as int)),
            decreases self.holes@.len() - h,
        {
            push_u16_le(out, self.holes[h]);
            proof {
                assert(self.holes@.take(h + 1).drop_last() =~= self.holes@.take(h as int));
            }
            h = h + 1;
        }
        assert(self.holes@.take(self.holes@.len() as int) =~= self.holes@);
        assert(out@ =~= start + self.key());
    }
}

/// A copy of `m`, representation and all.
pub fn copy_map(m: &SparseMap) -> (r: SparseMap)
    ensures
        r.pairs_view() == m.pairs_view(),
        r.holes_view() == m.holes_view(),
{
    let mut pairs: Vec<(u16, u16)> = Vec::new();
    let mut k: usize = 0;
    while k < m.pairs.len()
        invariant
            k <= m.pairs@.len(),
            pairs@ == m.pairs@.take(k as int),
        decreases m.pairs@.len() - k,
    {
        pairs.push(m.pairs[k]);
        assert(pairs@ =~= m.pairs@.take(k + 1));
        k = k + 1;
    }
    let mut holes: Vec<u16> = Vec::new();
    let mut h: usize = 0;
    while h < m.holes.len()
        invariant
            h <= m.holes@.len(),
            holes@ == m.holes@.take(h as int),
        decreases m.holes@.len() - h,
    {
        holes.push(m.holes[h]);
        assert(holes@ =~= m.holes@.take(h + 1));
        h = h + 1;
    }
    assert(pairs@ =~= m.pairs@);
    assert(holes@ =~= m.holes@);
    SparseMap { pairs, holes }
}

/// The source symbols of `p`, in order.
fn keys_vec(p: &Vec<(u16, u16)>) -> (r: Vec<u16>)
    ensures
        r@ == pair_keys(p@),
{
    let mut r: Vec<u16> = Vec::new();
    let mut k: usize = 0;
    while k < p.len()
        invariant
            k <= p@.len(),
            r@ == pair_keys(p@.take(k as int)),
        decreases p@.len() - k,
    {
        r.push(p[k].0);
        assert(pair_keys(p@.take(k + 1)) =~= pair_keys(p@.take(k as int)).push(p@[k as int].0));
        k = k + 1;
    }
    assert(p@.take(p@.len() as int) =~= p@);
    r
}

/// The sorted union of two strictly increasing symbol lists.
fn merge_union(a: &Vec<u16>, b: &Vec<u16>) -> (r: Vec<u16>)
    requires
        sorted_u16(a@),
        sorted_u16(b@),
    ensures
        sorted_u16(r@),
        forall|x: u16| r@.contains(x) == (a@.contains(x) || b@.contains(x)),
{
    let mut r: Vec<u16> = Vec::new();
    let mut i: usize = 0;
    let mut j: usize = 0;
    while i < a.len() || j < b.len()
        invariant
            i <= a@.len(),
            j <= b@.len(),
            sorted_u16(a@),
            sorted_u16(b@),
            sorted_u16(r@),
            forall|x: u16| r@.contains(x) == (a@.take(i as int).contains(x) || b@.take(j as int).contains(x)),
            i < a@.len() ==> forall|t: int| 0 <= t < r@.len() ==> r@[t] < a@[i as int],
            j < b@.len() ==> forall|t: int| 0 <= t < r@.len() ==> r@[t] < b@[j as int],
        decreases a@.len() + b@.len() - i - j,
    {
        let ghost prev = r@;
        let ghost (pi, pj) = (i, j);
        let x: u16;
        if j >= b.len() || (i < a.len() && a[i] < b[j]) {
            x = a[i];
            i = i + 1;
        } else if i >= a.len() || b[j] < a[i] {
            x = b[j];
            j = j + 1;
        } else {
            x = a[i];
            i = i + 1;
            j = j + 1;
        }
        r.push(x);
        proof {
            assert(r@ == prev.push(x));
            assert forall|y: u16| r@.contains(y) == (a@.take(i as int).contains(y) || b@.take(j as int).contains(y)) by {
                lemma_push_contains(prev, x, y);
                if i > pi {
                    assert(a@.take(i as int) =~= a@.take(pi as int).push(a@[pi as int]));
                    lemma_push_contains(a@.take(pi as int), a@[pi as int], y);
                } else {
                    assert(a@.take(i as int) == a@.take(pi as int));
                }
                if j > pj {
                    assert(b@.take(j as int) =~= b@.take(pj as int).push(b@[pj as int]));
                    lemma_push_contains(b@.take(pj as int), b@[pj as int], y);
                } else {
                    assert(b@.take(j as int) == b@.take(pj as int));
                }
            }
            if i < a@.len() {
                assert forall|t: int| 0 <= t < r@.len() implies r@[t] < a@[i as int] by {
                    if i > pi {
                        assert(a@[pi as int] < a@[i as int]);
                    }
                    if t < prev.len() && i == pi {
                    }
                }
            }
            if j < b@.len() {
                assert forall|t: int| 0 <= t < r@.len() implies r@[t] < b@[j as int] by {
                    if j > pj {
                        assert(b@[pj as int] < b@[j as int]);
                    }
                }
            }
        }
    }
    assert(a@.take(a@.len() as int) =~= a@);
    assert(b@.take(b@.len() as int) =~= b@);
    r
}

/// `out` is the canonical composition `second ∘ first`.
pub open spec fn map_composes(first: SparseMap, second: SparseMap, out: SparseMap) -> bool {
    &&& out.canonical()
    &&& forall|s: u16| #[trigger] out.spec_apply(s) == then_apply(first.spec_apply(s), second)
}

/// Compose two symbol maps: `second ∘ first` (apply `first`, then
/// `second`). Holes propagate: the result's holes are `first`'s holes plus
/// the preimages under `first` of `second`'s holes.
pub fn compose_map(first: &SparseMap, second: &SparseMap) -> (out: SparseMap)
    requires
        first.wf(),
        second.wf(),
    ensures
        map_composes(*first, *second, out),
{
    let k1 = keys_vec(&first.pairs);
    let c1 = merge_union(&k1, &first.holes);
    let k2 = keys_vec(&second.pairs);
    let c2 = merge_union(&k2, &second.holes);
    let cand = merge_union(&c1, &c2);
    let mut pairs: Vec<(u16, u16)> = Vec::new();
    let mut holes: Vec<u16> = Vec::new();
    let mut i: usize = 0;
    while i < cand.len()
        invariant
            i <= cand@.len(),
            first.wf(),
            second.wf(),
            sorted_u16(cand@),
            sorted_u16(pair_keys(pairs@)),
            sorted_u16(holes@),
            forall|t: int| 0 <= t < pairs@.len() ==> (#[trigger] pairs@[t]).0 != pairs@[t].1 && !holes@.contains(pairs@[t].0),
            i < cand@.len() ==> forall|t: int| 0 <= t < pairs@.len() ==> (#[trigger] pairs@[t]).0 < cand@[i as int],
            i < cand@.len() ==> forall|t: int| 0 <= t < holes@.len() ==> #[trigger] holes@[t] < cand@[i as int],
            forall|t: int| 0 <= t < i ==> map_apply(pairs@, holes@, #[trigger] cand@[t]) == then_apply(first.spec_apply(cand@[t]), *second),
            forall|x: u16| !cand@.take(i as int).contains(x) ==> map_apply(pairs@, holes@, x) == Some(x),
        decreases cand@.len() - i,
    {
        let s = cand[i];
        let ghost (pp, ph) = (pairs@, holes@);
        let r = match first.apply(s) {
            None => None,
            Some(mid) => second.apply(mid),
        };
        proof {
            assert(!cand@.take(i as int).contains(s)) by {
                if cand@.take(i as int).contains(s) {
                    let t = choose|t: int| 0 <= t < i && cand@.take(i as int)[t] == s;
                    assert(cand@[t] < cand@[i as int]);
                }
            }
        }
        match r {
            None => {
                holes.push(s);
            },
            Some(d) => {
                if d != s {
                    pairs.push((s, d));
                }
            },
        }
        proof {
            assert(r == then_apply(first.spec_apply(s), *second));
            assert forall|t: int| 0 <= t < pp.len() implies (#[trigger] pp[t]).0 != s by {}
            assert(map_apply(pp, ph, s) == Some(s));
            assert forall|t: int| 0 <= t < i + 1 implies map_apply(pairs@, holes@, #[trigger] cand@[t]) == then_apply(first.spec_apply(cand@[t]), *second) by {
                if t < i {
                    assert(cand@[t] < s);
                    assert(map_apply(pairs@, holes@, cand@[t]) == map_apply(pp, ph, cand@[t])) by {
                        if holes@.len() > ph.len() {
                            assert(holes@ == ph.push(s));
                            assert(holes@.contains(cand@[t]) == ph.contains(cand@[t])) by {
                                if holes@.contains(cand@[t]) {
                                    let q = choose|q: int| 0 <= q < holes@.len() && holes@[q] == cand@[t];
                                    if q < ph.len() { assert(ph[q] == cand@[t]); }
                                }
                                if ph.contains(cand@[t]) {
                                    let q = choose|q: int| 0 <= q < ph.len() && ph[q] == cand@[t];
                                    assert(holes@[q] == cand@[t]);
                                }
                            }
                        }
                        if pairs@.len() > pp.len() {
                            assert(pairs@ == pp.push((s, r->0)));
                            assert(pairs@.drop_last() =~= pp);
                        }
                    }
                } else {
                    if holes@.len() > ph.len() {
                        assert(holes@[holes@.len() - 1] == s);
                    }
                    if pairs@.len() > pp.len() {
                        assert(pairs@.drop_last() =~= pp);
                        assert(!holes@.contains(s));
                    } else {
                        if holes@.len() == ph.len() {
                            assert(holes@ == ph);
                        }
                        assert(pairs@ == pp);
                        lemma_lookup_absent(pp, s);
                    }
                }
            }
            assert forall|x: u16| !cand@.take(i + 1).contains(x) implies map_apply(pairs@, holes@, x) == Some(x) by {
                assert(cand@.take(i + 1) == cand@.take(i as int).push(s));
                assert(cand@.take(i + 1)[i as int] == s);
                assert(x != s);
                assert(!cand@.take(i as int).contains(x)) by {
                    if cand@.take(i as int).contains(x) {
                        let q = choose|q: int| 0 <= q < i && cand@.take(i as int)[q] == x;
                        assert(cand@.take(i + 1)[q] == x);
                    }
                }
                assert(map_apply(pp, ph, x) == Some(x));
                if pairs@.len() > pp.len() {
                    assert(pairs@.drop_last() =~= pp);
                }
                if holes@.len() > ph.len() {
                    assert(holes@ == ph.push(s));
                    assert(!holes@.contains(x)) by {
                        if holes@.contains(x) {
                            let q = choose|q: int| 0 <= q < holes@.len() && holes@[q] == x;
                            assert(ph[q] == x);
                        }
                    }
                }
            }
            assert forall|a: int, b: int| 0 <= a < b < pair_keys(pairs@).len() implies #[trigger] pair_keys(pairs@)[a] < #[trigger] pair_keys(pairs@)[b] by {
                assert(pair_keys(pairs@)[a] == pairs@[a].0);
                assert(pair_keys(pairs@)[b] == pairs@[b].0);
                if b < pp.len() {
                    assert(pair_keys(pp)[a] == pp[a].0);
                    assert(pair_keys(pp)[b] == pp[b].0);
                }
            }
            assert forall|t: int| 0 <= t < pairs@.len() implies (#[trigger] pairs@[t]).0 != pairs@[t].1 && !holes@.contains(pairs@[t].0) by {
                if t < pp.len() {
                    assert(pairs@[t] == pp[t]);
                    if holes@.len() > ph.len() {
                        assert(holes@ == ph.push(s));
                        assert(!holes@.contains(pp[t].0)) by {
                            if holes@.contains(pp[t].0) {
                                let q = choose|q: int| 0 <= q < holes@.len() && holes@[q] == pp[t].0;
                                if q < ph.len() { assert(ph[q] == pp[t].0); }
                            }
                        }
                    }
                } else {
                    assert(holes@ == ph);
                }
            }
            if i + 1 < cand@.len() {
                assert(cand@[i as int] < cand@[i + 1]);
            }
        }
        i = i + 1;
    }
    let out = SparseMap { pairs, holes };
    proof {
        assert forall|s: u16| #[trigger] out.spec_apply(s) == then_apply(first.spec_apply(s), *second) by {
            if cand@.contains(s) {
                let t = choose|t: int| 0 <= t < cand@.len() && cand@[t] == s;
            } else {
                assert(cand@.take(cand@.len() as int) =~= cand@);
                assert(!c1@.contains(s) && !c2@.contains(s));
                assert(!k1@.contains(s));
                assert(!k2@.contains(s));
                assert forall|t: int| 0 <= t < first.pairs@.len() implies (#[trigger] first.pairs@[t]).0 != s by {
                    assert(k1@[t] == first.pairs@[t].0);
                }
                assert forall|t: int| 0 <= t < second.pairs@.len() implies (#[trigger] second.pairs@[t]).0 != s by {
                    assert(k2@[t] == second.pairs@[t].0);
                }
                lemma_lookup_absent(first.pairs@, s);
                lemma_lookup_absent(second.pairs@, s);
            }
        }
    }
    out
}

/// Which map direction a conflict was found in.
#[derive(Debug, Clone, Copy, PartialEq, Eq, Structural)]
pub enum MapDir {
    Read,
    Write,
}

/// Why a binding could not be lowered to a composite.
#[derive(Debug, Clone, Copy, PartialEq, Eq, Structural)]
pub enum ComposeError {
    /// The binding has a different number of tapes than the callee's arity.
    Arity { expected: u8, got: usize },
    /// A binding tape names a caller tape the caller does not have.
    CallerTape { tape: usize, caller_tape: u8, caller_arity: usize },
    /// A mapped symbol falls outside the callee tape's alphabet (or the
    /// wire bound).
    SymbolRange { tape: usize, symbol: u32, cardinality: u32 },
    /// The same symbol is mapped to two different images in one direction.
    Conflict { tape: usize, dir: MapDir, symbol: u16, existing: u16, incoming: u16 },
    /// A pair would move the blank symbol off itself.
    Blank { tape: usize, src: u16, dst: u16 },
}

/// One callee virtual tape's placement: the physical tape it projects onto
/// and its read/write maps.
#[derive(Debug, Clone)]
pub struct CompositeTape {
    pub phys: u8,
    pub rmap: SparseMap,
    pub wmap: SparseMap,
}

/// A composed call frame: the callee routine plus one tape per callee
/// virtual tape.
#[derive(Debug, Clone)]
pub struct Composite {
    pub routine: usize,
    pub tapes: Vec<CompositeTape>,
}

impl CompositeTape {
    /// Both maps well-formed.
    pub open spec fn wf(&self) -> bool {
        self.rmap.wf() && self.wmap.wf()
    }

    /// Both maps canonical.
    pub open spec fn canonical(&self) -> bool {
        self.rmap.canonical() && self.wmap.canonical()
    }

    /// The tape's dedup-key bytes: physical index, read map, write map.
    pub open spec fn key(&self) -> Seq<u8> {
        seq![self.phys] + self.rmap.key() + self.wmap.key()
    }
}

impl Composite {
    /// Every tape well-formed.
    pub open spec fn wf(&self) -> bool {
        forall|k: int| 0 <= k < self.tapes@.len() ==> (#[trigger] self.tapes@[k]).wf()
    }

    /// Every tape canonical.
    pub open spec fn canonical(&self) -> bool {
        forall|k: int| 0 <= k < self.tapes@.len() ==> (#[trigger] self.tapes@[k]).canonical()
    }

    /// Every tape's `phys` indexes a tape of `outer`.
    pub open spec fn fits_in(&self, outer: Composite) -> bool {
        forall|k: int| 0 <= k < self.tapes@.len() ==> (#[trigger] self.tapes@[k]).phys < outer.tapes@.len()
    }

    /// The identity endomorphism on its own tapes: tape `k` on physical
    /// `k`, both maps the identity.
    pub open spec fn spec_is_identity(&self) -> bool {
        forall|k: int|
            0 <= k < self.tapes@.len() ==> (#[trigger] self.tapes@[k]).phys == k
                && self.tapes@[k].rmap.spec_is_identity() && self.tapes@[k].wmap.spec_is_identity()
    }
}

/// `out` is `inner` projected through `outer`: `inner`'s routine, each
/// tape on `outer`'s physical tape, reads physical -> outer -> inner,
/// writes inner -> outer -> physical.
pub open spec fn composes_to(outer: Composite, inner: Composite, out: Composite) -> bool {
    &&& out.routine == inner.routine
    &&& out.tapes@.len() == inner.tapes@.len()
    &&& forall|k: int|
        0 <= k < inner.tapes@.len() ==> {
            let it = #[trigger] inner.tapes@[k];
            let ot = outer.tapes@[it.phys as int];
            &&& out.tapes@[k].phys == ot.phys
            &&& map_composes(ot.rmap, it.rmap, out.tapes@[k].rmap)
            &&& map_composes(it.wmap, ot.wmap, out.tapes@[k].wmap)
        }
}

/// Little-endian bytes of a `u64`, spelled out.
pub open spec fn u64_bytes(x: u64) -> Seq<u8> {
    seq![
        (x % 0x100) as u8,
        (x / 0x100 % 0x100) as u8,
        (x / 0x1_0000 % 0x100) as u8,
        (x / 0x100_0000 % 0x100) as u8,
        (x / 0x1_0000_0000 % 0x100) as u8,
        (x / 0x100_0000_0000 % 0x100) as u8,
        (x / 0x1_0000_0000_0000 % 0x100) as u8,
        (x / 0x100_0000_0000_0000 % 0x100) as u8,
    ]
}

/// The key bytes of a tape list, in order.
pub open spec fn tapes_key(ts: Seq<CompositeTape>) -> Seq<u8>
    decreases ts.len(),
{
    if ts.len() == 0 {
        seq![]
    } else {
        tapes_key(ts.drop_last()) + ts.last().key()
    }
}

/// The dedup key of a composite: routine (u64 LE), tape count (u16 LE),
/// then every tape's key.
pub open spec fn composite_key(c: Composite) -> Seq<u8> {
    u64_bytes(c.routine as u64) + u16_le(c.tapes@.len() as u16) + tapes_key(c.tapes@)
}

/// The raw (pre-canonical) maps a tape's pairs ingest to, or the first
/// refusal, pair by pair in order.
pub open spec fn ingest_pairs(k: usize, card: u32, pairs: Seq<MapPair>) -> Result<
    (Map<u16, u16>, Map<u16, u16>),
    ComposeError,
>
    decreases pairs.len(),
{
    if pairs.len() == 0 {
        Ok((Map::empty(), Map::empty()))
    } else {
        match ingest_pairs(k, card, pairs.drop_last()) {
            Err(e) => Err(e),
            Ok(st) => ingest_step(k, card, st.0, st.1, pairs.last()),
        }
    }
}

/// One pair's checks and contribution: callee range, caller range, blank
/// read pin, read conflict, then (two-way only) blank write pin and write
/// conflict.
pub open spec fn ingest_step(
    k: usize,
    card: u32,
    r: Map<u16, u16>,
    w: Map<u16, u16>,
    pair: MapPair,
) -> Result<(Map<u16, u16>, Map<u16, u16>), ComposeError> {
    if pair.dst > MAX_SYMBOL || pair.dst >= card {
        Err(ComposeError::SymbolRange { tape: k, symbol: pair.dst, cardinality: card })
    } else if pair.src > MAX_SYMBOL {
        Err(ComposeError::SymbolRange { tape: k, symbol: pair.src, cardinality: (MAX_SYMBOL + 1) as u32 })
    } else {
        let src = pair.src as u16;
        let dst = pair.dst as u16;
        if src == 0 && dst != 0 {
            Err(ComposeError::Blank { tape: k, src, dst })
        } else if r.contains_key(src) && r[src] != dst {
            Err(ComposeError::Conflict { tape: k, dir: MapDir::Read, symbol: src, existing: r[src], incoming: dst })
        } else if pair.one_way {
            Ok((r.insert(src, dst), w))
        } else if dst == 0 && src != 0 {
            Err(ComposeError::Blank { tape: k, src, dst })
        } else if w.contains_key(dst) && w[dst] != src {
            Err(ComposeError::Conflict { tape: k, dir: MapDir::Write, symbol: dst, existing: w[dst], incoming: src })
        } else {
            Ok((r.insert(src, dst), w.insert(dst, src)))
        }
    }
}

/// The cardinality of callee tape `k` (0 when the signature is short).
pub open spec fn card_of(sig: RoutineSig, k: int) -> u32 {
    if 0 <= k < sig.cardinalities@.len() { sig.cardinalities@[k] } else { 0 }
}

/// The first refusal among the first `n` binding tapes, if any.
pub open spec fn first_tape_error(caller_arity: usize, sig: RoutineSig, binding: Seq<TapeBinding>, n: int) -> Option<ComposeError>
    decreases n,
{
    if n <= 0 {
        None
    } else {
        match first_tape_error(caller_arity, sig, binding, n - 1) {
            Some(e) => Some(e),
            None => {
                let tb = binding[n - 1];
                if tb.caller_tape as usize >= caller_arity {
                    Some(ComposeError::CallerTape { tape: (n - 1) as usize, caller_tape: tb.caller_tape, caller_arity })
                } else {
                    match ingest_pairs((n - 1) as usize, card_of(sig, n - 1), tb.pairs@) {
                        Err(e) => Some(e),
                        Ok(_) => None,
                    }
                }
            }
        }
    }
}

/// The refusal `binding_to_composite` answers, if any: arity first, then
/// tape by tape.
pub open spec fn binding_error(caller_arity: usize, sig: RoutineSig, binding: Seq<TapeBinding>) -> Option<ComposeError> {
    if binding.len() != sig.arity as int {
        Some(ComposeError::Arity { expected: sig.arity, got: binding.len() as usize })
    } else {
        first_tape_error(caller_arity, sig, binding, binding.len() as int)
    }
}

/// The meaning of a raw ingested map: listed sources map to their image,
/// everything else to itself, no holes.
pub open spec fn raw_apply(m: Map<u16, u16>, s: u16) -> Option<u16> {
    if m.contains_key(s) { Some(m[s]) } else { Some(s) }
}

/// The raw maps a tape's pairs ingest to (meaningful when ingestion
/// succeeds).
pub open spec fn ingested(k: usize, card: u32, pairs: Seq<MapPair>) -> (Map<u16, u16>, Map<u16, u16>) {
    ingest_pairs(k, card, pairs)->Ok_0
}

/// `t` is the canonical form of the `k`-th tape of a valid binding.
pub open spec fn lowered_tape(sig: RoutineSig, tb: TapeBinding, k: int, t: CompositeTape) -> bool {
    &&& t.phys == tb.caller_tape
    &&& t.canonical()
    &&& ingest_pairs(k as usize, card_of(sig, k), tb.pairs@) is Ok
    &&& forall|s: u16| #[trigger] t.rmap.spec_apply(s) == raw_apply(ingested(k as usize, card_of(sig, k), tb.pairs@).0, s)
    &&& forall|s: u16| #[trigger] t.wmap.spec_apply(s) == raw_apply(ingested(k as usize, card_of(sig, k), tb.pairs@).1, s)
}

/// `c` is the relative composite a valid binding lowers to.
pub open spec fn lowers_to(callee_routine: usize, sig: RoutineSig, binding: Seq<TapeBinding>, c: Composite) -> bool {
    &&& c.routine == callee_routine
    &&& c.tapes@.len() == binding.len()
    &&& forall|k: int| 0 <= k < binding.len() ==> lowered_tape(sig, binding[k], k, #[trigger] c.tapes@[k])
}

/// Insert `src -> dst`; a repeat with a different image is a conflict.
/// Identity pairs are stored so a later disagreeing pair is still caught.
fn insert_checked(map: &mut SparseMap, tape: usize, dir: MapDir, src: u16, dst: u16) -> (r: Result<(), ComposeError>)
    requires
        old(map).wf(),
    ensures
        final(map).wf(),
        final(map).holes_view() == old(map).holes_view(),
        match pair_lookup(old(map).pairs_view(), src) {
            Some(existing) => if existing != dst {
                r == Err::<(), ComposeError>(ComposeError::Conflict { tape, dir, symbol: src, existing, incoming: dst })
                    && final(map).pairs_view() == old(map).pairs_view()
            } else {
                r is Ok && final(map).pairs_view() == old(map).pairs_view()
            },
            None => r is Ok && pair_lookup(final(map).pairs_view(), src) == Some(dst)
                && forall|t: u16| t != src ==> pair_lookup(final(map).pairs_view(), t) == pair_lookup(old(map).pairs_view(), t),
        },
{
    match map.pair(src) {
        Some(existing) => {
            if existing != dst {
                Err(ComposeError::Conflict { tape, dir, symbol: src, existing, incoming: dst })
            } else {
                Ok(())
            }
        },
        None => {
            map.insert_pair(src, dst);
            Ok(())
        },
    }
}

/// `m` (no holes) denotes exactly the raw map `raw`.
pub open spec fn denotes(m: SparseMap, raw: Map<u16, u16>) -> bool {
    &&& m.wf()
    &&& m.holes_view().len() == 0
    &&& forall|s: u16| #[trigger] pair_lookup(m.pairs_view(), s) == (if raw.contains_key(s) { Some(raw[s]) } else { None::<u16> })
}

/// Ingest one binding tape's pairs into fresh read/write maps.
fn ingest_tape(k: usize, card: u32, pairs: &Vec<MapPair>) -> (r: Result<(SparseMap, SparseMap), ComposeError>)
    ensures
        match ingest_pairs(k, card, pairs@) {
            Err(e) => r == Err::<(SparseMap, SparseMap), ComposeError>(e),
            Ok(st) => r matches Ok(maps) && denotes(maps.0, st.0) && denotes(maps.1, st.1),
        },
{
    let mut rmap = SparseMap::identity();
    let mut wmap = SparseMap::identity();
    let mut i: usize = 0;
    proof {
        assert(pairs@.take(0) =~= Seq::<MapPair>::empty());
        assert(denotes(rmap, Map::empty()));
        assert(denotes(wmap, Map::empty()));
    }
    while i < pairs.len()
        invariant
            i <= pairs@.len(),
            ingest_pairs(k, card, pairs@.take(i as int)) matches Ok(st) && denotes(rmap, st.0) && denotes(wmap, st.1),
        decreases pairs@.len() - i,
    {
        let ghost st = ingested(k, card, pairs@.take(i as int));
        let pair = pairs[i];
        assert(pairs@.take(i + 1).drop_last() =~= pairs@.take(i as int));
        assert(pairs@.take(i + 1).last() == pair);
        let ghost pre = pairs@.take(i + 1);
        if pair.dst > MAX_SYMBOL || pair.dst >= card {
            proof { lemma_ingest_err_extends(k, card, pairs@, i + 1); }
            return Err(ComposeError::SymbolRange { tape: k, symbol: pair.dst, cardinality: card });
        }
        if pair.src > MAX_SYMBOL {
            proof { lemma_ingest_err_extends(k, card, pairs@, i + 1); }
            return Err(ComposeError::SymbolRange { tape: k, symbol: pair.src, cardinality: MAX_SYMBOL + 1 });
        }
        let src = pair.src as u16;
        let dst = pair.dst as u16;
        if src == 0 && dst != 0 {
            proof { lemma_ingest_err_extends(k, card, pairs@, i + 1); }
            return Err(ComposeError::Blank { tape: k, src, dst });
        }
        let rr = insert_checked(&mut rmap, k, MapDir::Read, src, dst);
        if rr.is_err() {
            proof { lemma_ingest_err_extends(k, card, pairs@, i + 1); }
            return Err(rr.unwrap_err());
        }
        if !pair.one_way {
            if dst == 0 && src != 0 {
                proof { lemma_ingest_err_extends(k, card, pairs@, i + 1); }
                return Err(ComposeError::Blank { tape: k, src, dst });
            }
            let wr = insert_checked(&mut wmap, k, MapDir::Write, dst, src);
            if wr.is_err() {
                proof { lemma_ingest_err_extends(k, card, pairs@, i + 1); }
                return Err(wr.unwrap_err());
            }
        }
        proof {
            let st2 = ingested(k, card, pairs@.take(i + 1));
            assert forall|s: u16| #[trigger] pair_lookup(rmap.pairs_view(), s) == (if st2.0.contains_key(s) { Some(st2.0[s]) } else { None::<u16> }) by {
                if s == src {
                } else {
                }
            }
            assert forall|s: u16| #[trigger] pair_lookup(wmap.pairs_view(), s) == (if st2.1.contains_key(s) { Some(st2.1[s]) } else { None::<u16> }) by {
            }
        }
        i = i + 1;
    }
    assert(pairs@.take(pairs@.len() as int) =~= pairs@);
    Ok((rmap, wmap))
}

/// Lower one binding to a relative composite for `callee_routine`: `phys`
/// is the binding's caller tape; the read map carries every pair, the
/// write map only the bidirectional ones. Validates arity, caller-tape
/// range, callee-symbol range, per-direction conflicts, and blank pinning.
fn binding_to_composite(caller_arity: usize, callee_routine: usize, binding: &Vec<TapeBinding>, sig: &RoutineSig) -> (r: Result<Composite, ComposeError>)
    ensures
        match binding_error(caller_arity, *sig, binding@) {
            Some(e) => r == Err::<Composite, ComposeError>(e),
            None => r matches Ok(c) && lowers_to(callee_routine, *sig, binding@, c),
        },
{
    if binding.len() != sig.arity as usize {
        return Err(ComposeError::Arity { expected: sig.arity, got: binding.len() });
    }
    let mut tapes: Vec<CompositeTape> = Vec::new();
    let mut k: usize = 0;
    while k < binding.len()
        invariant
            k <= binding@.len(),
            binding@.len() == sig.arity as int,
            first_tape_error(caller_arity, *sig, binding@, k as int) is None,
            tapes@.len() == k,
            forall|j: int| 0 <= j < k ==> lowered_tape(*sig, binding@[j], j, #[trigger] tapes@[j]),
        decreases binding@.len() - k,
    {
        let tb = &binding[k];
        if tb.caller_tape as usize >= caller_arity {
            proof { lemma_first_error_extends(caller_arity, *sig, binding@, k + 1, binding@.len() as int); }
            return Err(ComposeError::CallerTape { tape: k, caller_tape: tb.caller_tape, caller_arity });
        }
        let card = if k < sig.cardinalities.len() { sig.cardinalities[k] } else { 0 };
        assert(card == card_of(*sig, k as int));
        let maps = ingest_tape(k, card, &tb.pairs);
        match maps {
            Err(e) => {
                proof { lemma_first_error_extends(caller_arity, *sig, binding@, k + 1, binding@.len() as int); }
                return Err(e);
            },
            Ok(maps) => {
                let (mut rmap, mut wmap) = maps;
                let ghost (r0, w0) = (rmap, wmap);
                rmap.canonicalize();
                wmap.canonicalize();
                proof {
                    let st = ingested(k, card, tb.pairs@);
                    assert forall|s: u16| #[trigger] rmap.spec_apply(s) == raw_apply(st.0, s) by {
                        assert(rmap.spec_apply(s) == r0.spec_apply(s));
                        assert(!r0.holes_view().contains(s));
                    }
                    assert forall|s: u16| #[trigger] wmap.spec_apply(s) == raw_apply(st.1, s) by {
                        assert(wmap.spec_apply(s) == w0.spec_apply(s));
                        assert(!w0.holes_view().contains(s));
                    }
                }
                tapes.push(CompositeTape { phys: tb.caller_tape, rmap, wmap });
            },
        }
        k = k + 1;
    }
    Ok(Composite { routine: callee_routine, tapes })
}

/// Absolutize a binding at the machine's top frame: the caller is the
/// machine, so each caller tape is already a physical tape.
pub fn absolutize(machine_arity: usize, callee_routine: usize, binding: &Vec<TapeBinding>, sig: &RoutineSig) -> (r: Result<Composite, ComposeError>)
    ensures
        match binding_error(machine_arity, *sig, binding@) {
            Some(e) => r == Err::<Composite, ComposeError>(e),
            None => r matches Ok(c) && lowers_to(callee_routine, *sig, binding@, c),
        },
{
    binding_to_composite(machine_arity, callee_routine, binding, sig)
}

/// Project `inner`'s tapes through `outer` (`inner`'s `phys` fields index
/// `outer`'s virtual tapes). Total on validated operands.
pub fn compose_composites(outer: &Composite, inner: &Composite) -> (r: Composite)
    requires
        outer.wf(),
        inner.wf(),
        inner.fits_in(*outer),
    ensures
        composes_to(*outer, *inner, r),
        r.canonical(),
        r.wf(),
{
    let mut tapes: Vec<CompositeTape> = Vec::new();
    let mut k: usize = 0;
    while k < inner.tapes.len()
        invariant
            k <= inner.tapes@.len(),
            outer.wf(),
            inner.wf(),
            inner.fits_in(*outer),
            tapes@.len() == k,
            forall|j: int| 0 <= j < k ==> {
                let it = inner.tapes@[j];
                let ot = outer.tapes@[it.phys as int];
                &&& (#[trigger] tapes@[j]).phys == ot.phys
                &&& map_composes(ot.rmap, it.rmap, tapes@[j].rmap)
                &&& map_composes(it.wmap, ot.wmap, tapes@[j].wmap)
            },
        decreases inner.tapes@.len() - k,
    {
        let it = &inner.tapes[k];
        let j = it.phys as usize;
        assert(inner.tapes@[k as int].wf());
        let ot = &outer.tapes[j];
        assert(outer.tapes@[j as int].wf());
        let rmap = compose_map(&ot.rmap, &it.rmap);
        let wmap = compose_map(&it.wmap, &ot.wmap);
        tapes.push(CompositeTape { phys: ot.phys, rmap, wmap });
        k = k + 1;
    }
    Composite { routine: inner.routine, tapes }
}

/// `c` is the canonical projection through `outer` of the relative
/// composite `binding` lowers to.
pub open spec fn binding_composes(outer: Composite, callee_routine: usize, sig: RoutineSig, binding: Seq<TapeBinding>, c: Composite) -> bool {
    exists|inner: Composite| lowers_to(callee_routine, sig, binding, inner) && #[trigger] composes_to(outer, inner, c) && c.canonical()
}

/// Compose an outer composite with a binding declared inside `outer`'s
/// routine: the binding's caller tapes index `outer`'s virtual tapes.
pub fn compose(outer: &Composite, callee_routine: usize, binding: &Vec<TapeBinding>, sig: &RoutineSig) -> (r: Result<Composite, ComposeError>)
    requires
        outer.wf(),
    ensures
        match binding_error(outer.tapes@.len() as usize, *sig, binding@) {
            Some(e) => r == Err::<Composite, ComposeError>(e),
            None => r matches Ok(c) && binding_composes(*outer, callee_routine, *sig, binding@, c),
        },
{
    let inner = match binding_to_composite(outer.tapes.len(), callee_routine, binding, sig) {
        Err(e) => {
            return Err(e);
        },
        Ok(inner) => inner,
    };
    proof {
        assert forall|k: int| 0 <= k < inner.tapes@.len() implies (#[trigger] inner.tapes@[k]).phys < outer.tapes@.len() by {
            lemma_no_tape_error(outer.tapes@.len() as usize, *sig, binding@, binding@.len() as int, k);
        }
        assert forall|k: int| 0 <= k < inner.tapes@.len() implies (#[trigger] inner.tapes@[k]).wf() by {
            assert(lowered_tape(*sig, binding@[k], k, inner.tapes@[k]));
        }
    }
    let c = compose_composites(outer, &inner);
    proof {
        assert(binding_error(outer.tapes@.len() as usize, *sig, binding@) is None);
        assert(lowers_to(callee_routine, *sig, binding@, inner) && composes_to(*outer, inner, c) && c.canonical());
        assert(binding_composes(*outer, callee_routine, *sig, binding@, c));
    }
    Ok(c)
}

/// A refusal on a prefix of the pairs is the refusal of the whole list.
proof fn lemma_ingest_err_extends(k: usize, card: u32, pairs: Seq<MapPair>, n: int)
    requires
        0 <= n <= pairs.len(),
        ingest_pairs(k, card, pairs.take(n)) is Err,
    ensures
        ingest_pairs(k, card, pairs) == ingest_pairs(k, card, pairs.take(n)),
    decreases pairs.len() - n,
{
    if n < pairs.len() {
        assert(pairs.take(n + 1).drop_last() =~= pairs.take(n));
        lemma_ingest_err_extends(k, card, pairs, n + 1);
    } else {
        assert(pairs.take(n) =~= pairs);
    }
}

/// A refusal among the first `n` tapes is the refusal among any longer
/// prefix.
proof fn lemma_first_error_extends(caller_arity: usize, sig: RoutineSig, binding: Seq<TapeBinding>, n: int, m: int)
    requires
        0 <= n <= m,
        first_tape_error(caller_arity, sig, binding, n) is Some,
    ensures
        first_tape_error(caller_arity, sig, binding, m) == first_tape_error(caller_arity, sig, binding, n),
    decreases m - n,
{
    if n < m {
        lemma_first_error_extends(caller_arity, sig, binding, n, m - 1);
    }
}

/// A tape before the first refusal passed the caller-tape check.
proof fn lemma_no_tape_error(caller_arity: usize, sig: RoutineSig, binding: Seq<TapeBinding>, n: int, k: int)
    requires
        first_tape_error(caller_arity, sig, binding, n) is None,
        0 <= k < n,
    ensures
        (binding[k].caller_tape as usize) < caller_arity,
    decreases n,
{
    if k < n - 1 {
        lemma_no_tape_error(caller_arity, sig, binding, n - 1, k);
    }
}

/// The identity composite for an `arity`-tape machine running `routine`:
/// tape `k` on physical `k`, identity maps, no holes.
pub fn identity_composite(arity: usize, routine: usize) -> (r: Composite)
    ensures
        r.routine == routine,
        r.tapes@.len() == arity,
        r.canonical(),
        r.wf(),
        forall|k: int| 0 <= k < arity ==> (#[trigger] r.tapes@[k]).phys == k as u8
            && r.tapes@[k].rmap.spec_is_identity() && r.tapes@[k].wmap.spec_is_identity(),
        arity <= 256 ==> r.spec_is_identity(),
{
    let mut tapes: Vec<CompositeTape> = Vec::new();
    let mut k: usize = 0;
    while k < arity
        invariant
            k <= arity,
            tapes@.len() == k,
            forall|j: int| 0 <= j < k ==> (#[trigger] tapes@[j]).phys == j as u8 && tapes@[j].canonical()
                && tapes@[j].rmap.spec_is_identity() && tapes@[j].wmap.spec_is_identity(),
        decreases arity - k,
    {
        tapes.push(CompositeTape { phys: k as u8, rmap: SparseMap::identity(), wmap: SparseMap::identity() });
        k = k + 1;
    }
    Composite { routine, tapes }
}

/// True when the composite is the identity endomorphism on its own tapes.
pub fn is_identity(c: &Composite) -> (r: bool)
    requires
        c.wf(),
    ensures
        r == c.spec_is_identity(),
{
    let mut k: usize = 0;
    while k < c.tapes.len()
        invariant
            k <= c.tapes@.len(),
            c.wf(),
            forall|j: int| 0 <= j < k ==> (#[trigger] c.tapes@[j]).phys == j
                && c.tapes@[j].rmap.spec_is_identity() && c.tapes@[j].wmap.spec_is_identity(),
        decreases c.tapes@.len() - k,
    {
        let t = &c.tapes[k];
        assert(c.tapes@[k as int].wf());
        if t.phys as usize != k || !t.rmap.is_identity() || !t.wmap.is_identity() {
            return false;
        }
        k = k + 1;
    }
    true
}

/// Element-wise equality of two `u32` lists.
fn u32s_equal(a: &Vec<u32>, b: &Vec<u32>) -> (r: bool)
    ensures
        r == (a@ == b@),
{
    if a.len() != b.len() {
        return false;
    }
    let mut i: usize = 0;
    while i < a.len()
        invariant
            i <= a@.len(),
            a@.len() == b@.len(),
            forall|j: int| 0 <= j < i ==> a@[j] == b@[j],
        decreases a@.len() - i,
    {
        if a[i] != b[i] {
            return false;
        }
        i = i + 1;
    }
    assert(a@ =~= b@);
    true
}

/// True when the composite is a genuine full pass-through into the callee
/// (identity placement and maps, and equal per-tape alphabets), so the
/// site may lower to a plain call.
pub fn is_full_passthrough(c: &Composite, domain_sig: &RoutineSig, callee_sig: &RoutineSig) -> (r: bool)
    requires
        c.wf(),
    ensures
        r == (c.spec_is_identity() && c.tapes@.len() == domain_sig.arity as int
            && domain_sig.cardinalities@ == callee_sig.cardinalities@),
{
    is_identity(c) && c.tapes.len() == domain_sig.arity as usize
        && u32s_equal(&domain_sig.cardinalities, &callee_sig.cardinalities)
}

/// A copy of `c`, representation and all.
pub fn copy_composite(c: &Composite) -> (r: Composite)
    ensures
        r.routine == c.routine,
        r.tapes@.len() == c.tapes@.len(),
        forall|k: int| 0 <= k < c.tapes@.len() ==> same_tape(#[trigger] r.tapes@[k], c.tapes@[k]),
{
    let mut tapes: Vec<CompositeTape> = Vec::new();
    let mut k: usize = 0;
    while k < c.tapes.len()
        invariant
            k <= c.tapes@.len(),
            tapes@.len() == k,
            forall|j: int| 0 <= j < k ==> same_tape(#[trigger] tapes@[j], c.tapes@[j]),
        decreases c.tapes@.len() - k,
    {
        let t = &c.tapes[k];
        tapes.push(CompositeTape { phys: t.phys, rmap: copy_map(&t.rmap), wmap: copy_map(&t.wmap) });
        k = k + 1;
    }
    Composite { routine: c.routine, tapes }
}

/// Two tapes with the same physical index and the same map representations.
pub open spec fn same_tape(a: CompositeTape, b: CompositeTape) -> bool {
    &&& a.phys == b.phys
    &&& a.rmap.pairs_view() == b.rmap.pairs_view()
    &&& a.rmap.holes_view() == b.rmap.holes_view()
    &&& a.wmap.pairs_view() == b.wmap.pairs_view()
    &&& a.wmap.holes_view() == b.wmap.holes_view()
}

/// Normalize in place: canonicalize every tape's maps. Meaning-preserving,
/// and a no-op on an already canonical composite.
pub fn canonicalize(c: &mut Composite)
    requires
        old(c).wf(),
    ensures
        final(c).canonical(),
        final(c).wf(),
        final(c).routine == old(c).routine,
        final(c).tapes@.len() == old(c).tapes@.len(),
        forall|k: int| 0 <= k < old(c).tapes@.len() ==> {
            let (a, b) = (#[trigger] final(c).tapes@[k], old(c).tapes@[k]);
            &&& a.phys == b.phys
            &&& forall|s: u16| #[trigger] a.rmap.spec_apply(s) == b.rmap.spec_apply(s)
            &&& forall|s: u16| #[trigger] a.wmap.spec_apply(s) == b.wmap.spec_apply(s)
        },
        old(c).canonical() ==> forall|k: int| 0 <= k < old(c).tapes@.len() ==> same_tape(#[trigger] final(c).tapes@[k], old(c).tapes@[k]),
{
    let ghost orig = *c;
    let mut k: usize = 0;
    while k < c.tapes.len()
        invariant
            k <= c.tapes@.len(),
            c.routine == orig.routine,
            c.tapes@.len() == orig.tapes@.len(),
            orig.wf(),
            forall|j: int| k <= j < c.tapes@.len() ==> same_tape(#[trigger] c.tapes@[j], orig.tapes@[j]),
            forall|j: int| 0 <= j < k ==> {
                let (a, b) = (#[trigger] c.tapes@[j], orig.tapes@[j]);
                &&& a.canonical()
                &&& a.phys == b.phys
                &&& forall|s: u16| #[trigger] a.rmap.spec_apply(s) == b.rmap.spec_apply(s)
                &&& forall|s: u16| #[trigger] a.wmap.spec_apply(s) == b.wmap.spec_apply(s)
                &&& orig.canonical() ==> same_tape(a, b)
            },
        decreases c.tapes@.len() - k,
    {
        let t = &c.tapes[k];
        assert(orig.tapes@[k as int].wf());
        let mut rmap = copy_map(&t.rmap);
        let mut wmap = copy_map(&t.wmap);
        let phys = t.phys;
        rmap.canonicalize();
        wmap.canonicalize();
        c.tapes.set(k, CompositeTape { phys, rmap, wmap });
        k = k + 1;
    }
}

/// The dedup key: routine, tape count, then per tape the physical index
/// and both maps. Two canonical composites share a key iff they denote the
/// same instantiation.
pub fn canonical_key(c: &Composite) -> (r: Vec<u8>)
    ensures
        r@ == composite_key(*c),
{
    let mut out: Vec<u8> = Vec::new();
    push_u64_le(&mut out, c.routine as u64);
    push_u16_le(&mut out, c.tapes.len() as u16);
    let ghost head = out@;
    let mut k: usize = 0;
    while k < c.tapes.len()
        invariant
            k <= c.tapes@.len(),
            out@ == head + tapes_key(c.tapes@.take(k as int)),
        decreases c.tapes@.len() - k,
    {
        let t = &c.tapes[k];
        let ghost before = out@;
        out.push(t.phys);
        t.rmap.write_key(&mut out);
        t.wmap.write_key(&mut out);
        proof {
            assert(c.tapes@.take(k + 1).drop_last() =~= c.tapes@.take(k as int));
            assert(out@ =~= before + c.tapes@[k as int].key());
        }
        k = k + 1;
    }
    assert(c.tapes@.take(c.tapes@.len() as int) =~= c.tapes@);
    assert(out@ =~= composite_key(*c));
    out
}

/// A 32-bit content address for a composite: the CRC-32 of its
/// [`canonical_key`].
pub fn digest(c: &Composite) -> (r: u32)
    ensures
        r == spec_crc32(composite_key(*c)),
{
    let key = canonical_key(c);
    crc32(key.as_slice())
}

/// Append the little-endian bytes of a `u64`.
pub(crate) fn push_u64_le(out: &mut Vec<u8>, x: u64)
    ensures
        final(out)@ == old(out)@ + u64_bytes(x),
{
    let ghost start = out@;
    out.push((x % 0x100) as u8);
    out.push((x / 0x100 % 0x100) as u8);
    out.push((x / 0x1_0000 % 0x100) as u8);
    out.push((x / 0x100_0000 % 0x100) as u8);
    out.push((x / 0x1_0000_0000 % 0x100) as u8);
    out.push((x / 0x100_0000_0000 % 0x100) as u8);
    out.push((x / 0x1_0000_0000_0000 % 0x100) as u8);
    out.push((x / 0x100_0000_0000_0000 % 0x100) as u8);
    assert(out@ =~= start + u64_bytes(x));
}

/// Append the little-endian bytes of `x`.
fn push_u16_le(out: &mut Vec<u8>, x: u16)
    ensures
        final(out)@ == old(out)@ + u16_le(x),
{
    out.push((x % 256) as u8);
    out.push((x / 256) as u8);
    assert(final(out)@ =~= old(out)@ + u16_le(x));
}

/// Whether the sorted list `h` holds `s`.
fn contains_sym(h: &Vec<u16>, s: u16) -> (r: bool)
    ensures
        r == h@.contains(s),
{
    let mut i: usize = 0;
    while i < h.len()
        invariant
            i <= h@.len(),
            forall|j: int| 0 <= j < i ==> h@[j] != s,
        decreases h@.len() - i,
    {
        if h[i] == s {
            return true;
        }
        i = i + 1;
    }
    false
}

/// The first position whose source is not below `s` (the insertion slot).
fn find_pair_slot(p: &Vec<(u16, u16)>, s: u16) -> (r: usize)
    requires
        sorted_u16(pair_keys(p@)),
    ensures
        r <= p@.len(),
        forall|j: int| 0 <= j < r ==> (#[trigger] p@[j]).0 < s,
        r < p@.len() ==> p@[r as int].0 >= s,
{
    let mut i: usize = 0;
    while i < p.len() && p[i].0 < s
        invariant
            i <= p@.len(),
            forall|j: int| 0 <= j < i ==> (#[trigger] p@[j]).0 < s,
        decreases p@.len() - i,
    {
        i = i + 1;
    }
    i
}

/// The first position whose symbol is not below `s` (the insertion slot).
fn find_sym_slot(h: &Vec<u16>, s: u16) -> (r: usize)
    requires
        sorted_u16(h@),
    ensures
        r <= h@.len(),
        forall|j: int| 0 <= j < r ==> h@[j] < s,
        r < h@.len() ==> h@[r as int] >= s,
{
    let mut i: usize = 0;
    while i < h.len() && h[i] < s
        invariant
            i <= h@.len(),
            forall|j: int| 0 <= j < i ==> h@[j] < s,
        decreases h@.len() - i,
    {
        i = i + 1;
    }
    i
}

/// Membership after a push.
pub proof fn lemma_push_contains<A>(s: Seq<A>, e: A, y: A)
    ensures
        s.push(e).contains(y) == (s.contains(y) || y == e),
{
    if s.push(e).contains(y) {
        let t = choose|t: int| 0 <= t < s.push(e).len() && s.push(e)[t] == y;
        if t < s.len() {
            assert(s[t] == y);
        }
    }
    if s.contains(y) {
        let t = choose|t: int| 0 <= t < s.len() && s[t] == y;
        assert(s.push(e)[t] == y);
    }
    if y == e {
        assert(s.push(e)[s.len() as int] == y);
    }
}

/// In a key-sorted pair list, the stored image of `p[k].0` is `p[k].1`.
pub proof fn lemma_lookup_at(p: Seq<(u16, u16)>, k: int)
    requires
        sorted_u16(pair_keys(p)),
        0 <= k < p.len(),
    ensures
        pair_lookup(p, p[k].0) == Some(p[k].1),
    decreases p.len(),
{
    if k < p.len() - 1 {
        let n = p.len() - 1;
        assert(pair_keys(p)[k] == p[k].0);
        assert(pair_keys(p)[n] == p[n].0);
        assert(pair_keys(p)[k] < pair_keys(p)[n]);
        let q = p.drop_last();
        assert(pair_keys(q) =~= pair_keys(p).drop_last());
        assert(q[k] == p[k]);
        lemma_lookup_at(q, k);
    }
}

/// A source no entry names has no stored image.
pub proof fn lemma_lookup_absent(p: Seq<(u16, u16)>, s: u16)
    requires
        forall|i: int| 0 <= i < p.len() ==> (#[trigger] p[i]).0 != s,
    ensures
        pair_lookup(p, s) is None,
    decreases p.len(),
{
    if p.len() > 0 {
        assert(p[p.len() - 1].0 != s);
        let q = p.drop_last();
        assert forall|i: int| 0 <= i < q.len() implies (#[trigger] q[i]).0 != s by {
            assert(q[i] == p[i]);
        }
        lemma_lookup_absent(q, s);
    }
}

/// A stored image comes from some entry.
pub proof fn lemma_lookup_some(p: Seq<(u16, u16)>, s: u16)
    requires
        pair_lookup(p, s) is Some,
    ensures
        exists|i: int| 0 <= i < p.len() && #[trigger] p[i] == (s, pair_lookup(p, s)->0),
    decreases p.len(),
{
    if p.last().0 == s {
        assert(p[p.len() - 1] == (s, pair_lookup(p, s)->0));
    } else {
        let q = p.drop_last();
        lemma_lookup_some(q, s);
        let i = choose|i: int| 0 <= i < q.len() && #[trigger] q[i] == (s, pair_lookup(q, s)->0);
        assert(p[i] == q[i]);
    }
}

proof fn lemma_sorted_set_value(p: Seq<(u16, u16)>, pos: int, d: u16)
    requires
        sorted_u16(pair_keys(p)),
        0 <= pos < p.len(),
    ensures
        sorted_u16(pair_keys(p.update(pos, (p[pos].0, d)))),
        pair_lookup(p.update(pos, (p[pos].0, d)), p[pos].0) == Some(d),
        forall|t: u16| t != p[pos].0 ==> pair_lookup(p.update(pos, (p[pos].0, d)), t) == pair_lookup(p, t),
{
    let q = p.update(pos, (p[pos].0, d));
    assert(pair_keys(q) =~= pair_keys(p));
    lemma_lookup_at(q, pos);
    assert forall|t: u16| t != p[pos].0 implies pair_lookup(q, t) == pair_lookup(p, t) by {
        if exists|i: int| 0 <= i < p.len() && #[trigger] p[i].0 == t {
            let i = choose|i: int| 0 <= i < p.len() && #[trigger] p[i].0 == t;
            lemma_lookup_at(p, i);
            assert(q[i] == p[i]);
            lemma_lookup_at(q, i);
        } else {
            assert(!exists|i: int| 0 <= i < q.len() && #[trigger] q[i].0 == t) by {
                if exists|i: int| 0 <= i < q.len() && #[trigger] q[i].0 == t {
                    let i = choose|i: int| 0 <= i < q.len() && #[trigger] q[i].0 == t;
                    assert(p[i].0 == t);
                }
            }
            lemma_lookup_absent(q, t);
            lemma_lookup_absent(p, t);
        }
    }
}

proof fn lemma_sorted_insert_pair(p: Seq<(u16, u16)>, pos: int, s: u16, d: u16)
    requires
        sorted_u16(pair_keys(p)),
        0 <= pos <= p.len(),
        forall|j: int| 0 <= j < pos ==> (#[trigger] p[j]).0 < s,
        pos < p.len() ==> p[pos].0 > s,
    ensures
        sorted_u16(pair_keys(p.insert(pos, (s, d)))),
        pair_lookup(p.insert(pos, (s, d)), s) == Some(d),
        forall|t: u16| t != s ==> pair_lookup(p.insert(pos, (s, d)), t) == pair_lookup(p, t),
{
    let q = p.insert(pos, (s, d));
    assert forall|i: int, j: int| 0 <= i < j < pair_keys(q).len() implies #[trigger] pair_keys(q)[i] < #[trigger] pair_keys(q)[j] by {
        assert(pair_keys(q)[i] == q[i].0);
        assert(pair_keys(q)[j] == q[j].0);
        if j < pos {
            assert(pair_keys(p)[i] < pair_keys(p)[j]);
        } else if j == pos {
        } else if i < pos {
            assert(q[j] == p[j - 1]);
            if j - 1 > pos {
                assert(pair_keys(p)[pos] < pair_keys(p)[j - 1]);
            }
        } else if i == pos {
            assert(q[j] == p[j - 1]);
            if j - 1 > pos {
                assert(pair_keys(p)[pos] < pair_keys(p)[j - 1]);
            }
        } else {
            assert(pair_keys(p)[i - 1] < pair_keys(p)[j - 1]);
        }
    }
    lemma_lookup_at(q, pos);
    assert forall|t: u16| t != s implies pair_lookup(q, t) == pair_lookup(p, t) by {
        if exists|i: int| 0 <= i < p.len() && #[trigger] p[i].0 == t {
            let i = choose|i: int| 0 <= i < p.len() && #[trigger] p[i].0 == t;
            lemma_lookup_at(p, i);
            if i < pos {
                assert(q[i] == p[i]);
                lemma_lookup_at(q, i);
            } else {
                assert(q[i + 1] == p[i]);
                lemma_lookup_at(q, i + 1);
            }
        } else {
            assert(!exists|i: int| 0 <= i < q.len() && #[trigger] q[i].0 == t) by {
                if exists|i: int| 0 <= i < q.len() && #[trigger] q[i].0 == t {
                    let i = choose|i: int| 0 <= i < q.len() && #[trigger] q[i].0 == t;
                    if i < pos {
                        assert(p[i].0 == t);
                    } else if i > pos {
                        assert(p[i - 1].0 == t);
                    }
                }
            }
            lemma_lookup_absent(q, t);
            lemma_lookup_absent(p, t);
        }
    }
}

proof fn lemma_sorted_insert_sym(h: Seq<u16>, pos: int, s: u16)
    requires
        sorted_u16(h),
        0 <= pos <= h.len(),
        forall|j: int| 0 <= j < pos ==> h[j] < s,
        pos < h.len() ==> h[pos] > s,
    ensures
        sorted_u16(h.insert(pos, s)),
        forall|t: u16| h.insert(pos, s).contains(t) == (h.contains(t) || t == s),
{
    let q = h.insert(pos, s);
    assert forall|i: int, j: int| 0 <= i < j < q.len() implies #[trigger] q[i] < #[trigger] q[j] by {
        if j < pos {
        } else if j == pos {
        } else if i < pos {
            if j - 1 > pos {
                assert(h[pos] < h[j - 1]);
            }
        } else if i == pos {
            if j - 1 > pos {
                assert(h[pos] < h[j - 1]);
            }
        } else {
            assert(h[i - 1] < h[j - 1]);
        }
    }
    assert forall|t: u16| q.contains(t) == (h.contains(t) || t == s) by {
        if q.contains(t) {
            let i = choose|i: int| 0 <= i < q.len() && q[i] == t;
            if i < pos {
                assert(h[i] == t);
            } else if i > pos {
                assert(h[i - 1] == t);
            }
        }
        if h.contains(t) {
            let i = choose|i: int| 0 <= i < h.len() && h[i] == t;
            if i < pos {
                assert(q[i] == t);
            } else {
                assert(q[i + 1] == t);
            }
        }
        if t == s {
            assert(q[pos] == s);
        }
    }
}

impl MapDir {
    /// The direction's name.
    pub open spec fn name_text(self) -> Seq<char> {
        match self {
            MapDir::Read => "read"@,
            MapDir::Write => "write"@,
        }
    }

    /// The direction's name, for messages.
    pub fn name(&self) -> (r: String)
        ensures
            r@ == self.name_text(),
    {
        match self {
            MapDir::Read => "read".to_owned(),
            MapDir::Write => "write".to_owned(),
        }
    }
}

/// The message of a composition error.
pub open spec fn compose_error_text(e: ComposeError) -> Seq<char> {
    match e {
        ComposeError::Arity { expected, got } => "binding arity "@ + decimal(got as nat) + " does not match callee arity "@
            + decimal(expected as nat),
        ComposeError::CallerTape { tape, caller_tape, caller_arity } => "binding tape "@ + decimal(tape as nat)
            + " names caller tape "@ + decimal(caller_tape as nat) + ", but the caller has only "@ + decimal(caller_arity as nat)
            + " tapes"@,
        ComposeError::SymbolRange { tape, symbol, cardinality } => "binding tape "@ + decimal(tape as nat) + " maps symbol "@
            + decimal(symbol as nat) + " outside the alphabet (cardinality "@ + decimal(cardinality as nat) + ")"@,
        ComposeError::Conflict { tape, dir, symbol, existing, incoming } => "binding tape "@ + decimal(tape as nat) + " maps "@
            + dir.name_text() + " symbol "@ + decimal(symbol as nat) + " to both "@ + decimal(existing as nat) + " and "@
            + decimal(incoming as nat),
        ComposeError::Blank { tape, src, dst } => if src == 0 {
            "binding tape "@ + decimal(tape as nat) + " maps blank symbol 0 to "@ + decimal(dst as nat) + "; blank is pinned"@
        } else {
            "binding tape "@ + decimal(tape as nat) + " folds symbol "@ + decimal(src as nat)
                + " onto blank two-way; spell it => for a read-only collapse"@
        },
    }
}

impl ComposeError {
    /// The error's message, for display.
    pub fn message(&self) -> (r: String)
        ensures
            r@ == compose_error_text(*self),
    {
        match self {
            ComposeError::Arity { expected, got } => {
                let mut s = "binding arity ".to_owned();
                push_decimal(&mut s, *got as u64);
                s.append(" does not match callee arity ");
                push_decimal(&mut s, *expected as u64);
                s
            },
            ComposeError::CallerTape { tape, caller_tape, caller_arity } => {
                let mut s = "binding tape ".to_owned();
                push_decimal(&mut s, *tape as u64);
                s.append(" names caller tape ");
                push_decimal(&mut s, *caller_tape as u64);
                s.append(", but the caller has only ");
                push_decimal(&mut s, *caller_arity as u64);
                s.append(" tapes");
                s
            },
            ComposeError::SymbolRange { tape, symbol, cardinality } => {
                let mut s = "binding tape ".to_owned();
                push_decimal(&mut s, *tape as u64);
                s.append(" maps symbol ");
                push_decimal(&mut s, *symbol as u64);
                s.append(" outside the alphabet (cardinality ");
                push_decimal(&mut s, *cardinality as u64);
                s.append(")");
                s
            },
            ComposeError::Conflict { tape, dir, symbol, existing, incoming } => {
                let mut s = "binding tape ".to_owned();
                push_decimal(&mut s, *tape as u64);
                s.append(" maps ");
                let d = dir.name();
                s.append(d.as_str());
                s.append(" symbol ");
                push_decimal(&mut s, *symbol as u64);
                s.append(" to both ");
                push_decimal(&mut s, *existing as u64);
                s.append(" and ");
                push_decimal(&mut s, *incoming as u64);
                s
            },
            ComposeError::Blank { tape, src, dst } => {
                let mut s = "binding tape ".to_owned();
                push_decimal(&mut s, *tape as u64);
                if *src == 0 {
                    s.append(" maps blank symbol 0 to ");
                    push_decimal(&mut s, *dst as u64);
                    s.append("; blank is pinned");
                } else {
                    s.append(" folds symbol ");
                    push_decimal(&mut s, *src as u64);
                    s.append(" onto blank two-way; spell it => for a read-only collapse");
                }
                s
            },
        }
    }
}

} // verus!
