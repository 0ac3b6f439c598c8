//! The algebraic laws of composite composition: canonical maps are
//! determined by their meaning, composition is associative, and identity
//! composites are neutral on both sides.

use vstd::prelude::*;

use super::compose::{
    composes_to, composite_key, lemma_lookup_absent, lemma_lookup_at, lemma_lookup_some,
    map_apply, map_composes, map_key, pair_keys, pair_lookup, pairs_bytes, sorted_u16, syms_bytes, tapes_key,
    then_apply, u16_le, u64_bytes, Composite, CompositeTape, SparseMap,
};

verus! {

/// Two strictly increasing symbol lists holding the same symbols are equal.
pub proof fn lemma_sorted_syms_unique(a: Seq<u16>, b: Seq<u16>)
    requires
        sorted_u16(a),
        sorted_u16(b),
        forall|x: u16| a.contains(x) == b.contains(x),
    ensures
        a == b,
    decreases a.len(),
{
    if a.len() == 0 {
        if b.len() > 0 {
            assert(b.contains(b[0]));
        }
        assert(a =~= b);
    } else if b.len() == 0 {
        assert(a.contains(a[0]));
    } else {
        let (x, y) = (a.last(), b.last());
        assert(a.contains(x));
        assert(b.contains(y));
        let i = choose|i: int| 0 <= i < b.len() && b[i] == x;
        let j = choose|j: int| 0 <= j < a.len() && a[j] == y;
        if i < b.len() - 1 {
            assert(b[i] < b[b.len() - 1]);
        }
        if j < a.len() - 1 {
            assert(a[j] < a[a.len() - 1]);
        }
        assert(x == y);
        let (a2, b2) = (a.drop_last(), b.drop_last());
        assert forall|z: u16| a2.contains(z) == b2.contains(z) by {
            if a2.contains(z) {
                let t = choose|t: int| 0 <= t < a2.len() && a2[t] == z;
                assert(a[t] < a[a.len() - 1]);
                assert(a.contains(z));
                let u = choose|u: int| 0 <= u < b.len() && b[u] == z;
                assert(u != b.len() - 1);
                assert(b2[u] == z);
            }
            if b2.contains(z) {
                let t = choose|t: int| 0 <= t < b2.len() && b2[t] == z;
                assert(b[t] < b[b.len() - 1]);
                assert(b.contains(z));
                let u = choose|u: int| 0 <= u < a.len() && a[u] == z;
                assert(u != a.len() - 1);
                assert(a2[u] == z);
            }
        }
        lemma_sorted_syms_unique(a2, b2);
        assert(a =~= a2.push(x));
        assert(b =~= b2.push(y));
    }
}

/// Two key-sorted pair lists storing the same image for every source are
/// equal.
pub proof fn lemma_sorted_pairs_unique(p: Seq<(u16, u16)>, q: Seq<(u16, u16)>)
    requires
        sorted_u16(pair_keys(p)),
        sorted_u16(pair_keys(q)),
        forall|s: u16| pair_lookup(p, s) == pair_lookup(q, s),
    ensures
        p == q,
    decreases p.len(),
{
    if p.len() == 0 {
        if q.len() > 0 {
            lemma_lookup_at(q, 0);
            assert(pair_lookup(p, q[0].0) is None);
        }
        assert(p =~= q);
    } else if q.len() == 0 {
        lemma_lookup_at(p, 0);
        assert(pair_lookup(q, p[0].0) is None);
    } else {
        let (n, m) = (p.len() - 1, q.len() - 1);
        let (x, y) = (p[n], q[m]);
        lemma_lookup_at(p, n);
        lemma_lookup_at(q, m);
        lemma_lookup_some(q, x.0);
        lemma_lookup_some(p, y.0);
        let i = choose|i: int| 0 <= i < q.len() && #[trigger] q[i] == (x.0, pair_lookup(q, x.0)->0);
        let j = choose|j: int| 0 <= j < p.len() && #[trigger] p[j] == (y.0, pair_lookup(p, y.0)->0);
        if i < m {
            assert(pair_keys(q)[i] < pair_keys(q)[m]);
        }
        if j < n {
            assert(pair_keys(p)[j] < pair_keys(p)[n]);
        }
        assert(x == y);
        let (p2, q2) = (p.drop_last(), q.drop_last());
        assert(pair_keys(p2) =~= pair_keys(p).drop_last());
        assert(pair_keys(q2) =~= pair_keys(q).drop_last());
        assert forall|s: u16| pair_lookup(p2, s) == pair_lookup(q2, s) by {
            if s == x.0 {
                assert forall|t: int| 0 <= t < p2.len() implies (#[trigger] p2[t]).0 != s by {
                    assert(pair_keys(p)[t] < pair_keys(p)[n]);
                }
                assert forall|t: int| 0 <= t < q2.len() implies (#[trigger] q2[t]).0 != s by {
                    assert(pair_keys(q)[t] < pair_keys(q)[m]);
                }
                lemma_lookup_absent(p2, s);
                lemma_lookup_absent(q2, s);
            } else {
                assert(pair_lookup(p, s) == pair_lookup(p2, s));
                assert(pair_lookup(q, s) == pair_lookup(q2, s));
            }
        }
        lemma_sorted_pairs_unique(p2, q2);
        assert(p =~= p2.push(x));
        assert(q =~= q2.push(y));
    }
}

/// A canonical map is determined by its meaning: two canonical maps that
/// agree on every symbol store the same pairs and the same holes.
pub proof fn lemma_canonical_unique(m1: SparseMap, m2: SparseMap)
    requires
        m1.canonical(),
        m2.canonical(),
        forall|s: u16| #[trigger] m1.spec_apply(s) == m2.spec_apply(s),
    ensures
        m1.pairs_view() == m2.pairs_view(),
        m1.holes_view() == m2.holes_view(),
        m1.key() == m2.key(),
{
    let (p1, h1, p2, h2) = (m1.pairs_view(), m1.holes_view(), m2.pairs_view(), m2.holes_view());
    assert forall|x: u16| h1.contains(x) == h2.contains(x) by {
        assert(m1.spec_apply(x) == m2.spec_apply(x));
    }
    lemma_sorted_syms_unique(h1, h2);
    assert forall|s: u16| pair_lookup(p1, s) == pair_lookup(p2, s) by {
        assert(m1.spec_apply(s) == m2.spec_apply(s));
        lemma_canonical_lookup(m1, s);
        lemma_canonical_lookup(m2, s);
    }
    lemma_sorted_pairs_unique(p1, p2);
}

/// In a canonical map, a stored pair is never an identity pair and never
/// shadowed by a hole.
proof fn lemma_canonical_lookup(m: SparseMap, s: u16)
    requires
        m.canonical(),
    ensures
        pair_lookup(m.pairs_view(), s) matches Some(d) ==> d != s && !m.holes_view().contains(s),
{
    if pair_lookup(m.pairs_view(), s) is Some {
        lemma_lookup_some(m.pairs_view(), s);
        let i = choose|i: int| 0 <= i < m.pairs_view().len() && #[trigger] m.pairs_view()[i] == (s, pair_lookup(m.pairs_view(), s)->0);
        assert(m.pairs_view()[i].0 != m.pairs_view()[i].1);
    }
}

/// Tape lists whose tapes have pairwise equal keys have equal keys.
pub proof fn lemma_tapes_key_pointwise(a: Seq<CompositeTape>, b: Seq<CompositeTape>)
    requires
        a.len() == b.len(),
        forall|k: int| 0 <= k < a.len() ==> (#[trigger] a[k]).key() == b[k].key(),
    ensures
        tapes_key(a) == tapes_key(b),
    decreases a.len(),
{
    if a.len() > 0 {
        let (a2, b2) = (a.drop_last(), b.drop_last());
        assert forall|k: int| 0 <= k < a2.len() implies (#[trigger] a2[k]).key() == b2[k].key() by {
            assert(a2[k] == a[k]);
            assert(b2[k] == b[k]);
        }
        lemma_tapes_key_pointwise(a2, b2);
        assert(a.last().key() == b.last().key());
    }
}

/// Two canonical composites that denote the same instantiation (same
/// routine, same placement, same read and write maps on every tape) have
/// the same dedup key, however their maps were built.
pub proof fn law_key_determined_by_meaning(a: Composite, b: Composite)
    requires
        a.canonical(),
        b.canonical(),
        a.routine == b.routine,
        a.tapes@.len() == b.tapes@.len(),
        forall|k: int| 0 <= k < a.tapes@.len() ==> {
            let (x, y) = (#[trigger] a.tapes@[k], b.tapes@[k]);
            &&& x.phys == y.phys
            &&& forall|s: u16| #[trigger] x.rmap.spec_apply(s) == y.rmap.spec_apply(s)
            &&& forall|s: u16| #[trigger] x.wmap.spec_apply(s) == y.wmap.spec_apply(s)
        },
    ensures
        composite_key(a) == composite_key(b),
{
    assert forall|k: int| 0 <= k < a.tapes@.len() implies (#[trigger] a.tapes@[k]).key() == b.tapes@[k].key() by {
        let (x, y) = (a.tapes@[k], b.tapes@[k]);
        assert(x.canonical());
        assert(y.canonical());
        lemma_canonical_unique(x.rmap, y.rmap);
        lemma_canonical_unique(x.wmap, y.wmap);
    }
    lemma_tapes_key_pointwise(a.tapes@, b.tapes@);
}

/// Composition is associative: `(a ∘ b) ∘ c` and `a ∘ (b ∘ c)` are the
/// same composite, byte for byte in their dedup keys.
pub proof fn law_compose_associative(
    a: Composite,
    b: Composite,
    c: Composite,
    ab: Composite,
    bc: Composite,
    left: Composite,
    right: Composite,
)
    requires
        b.fits_in(a),
        c.fits_in(b),
        composes_to(a, b, ab),
        composes_to(ab, c, left),
        composes_to(b, c, bc),
        composes_to(a, bc, right),
    ensures
        left.routine == right.routine,
        left.tapes@.len() == right.tapes@.len(),
        composite_key(left) == composite_key(right),
{
    assert forall|k: int| 0 <= k < left.tapes@.len() implies {
        let (x, y) = (#[trigger] left.tapes@[k], right.tapes@[k]);
        &&& x.phys == y.phys
        &&& forall|s: u16| #[trigger] x.rmap.spec_apply(s) == y.rmap.spec_apply(s)
        &&& forall|s: u16| #[trigger] x.wmap.spec_apply(s) == y.wmap.spec_apply(s)
    } by {
        let ct = c.tapes@[k];
        let j = ct.phys as int;
        let bt = b.tapes@[j];
        let abt = ab.tapes@[j];
        let bct = bc.tapes@[k];
        let at = a.tapes@[bt.phys as int];
        assert(composes_to(ab, c, left) ==> {
            let it = c.tapes@[k];
            let ot = ab.tapes@[it.phys as int];
            &&& left.tapes@[k].phys == ot.phys
            &&& map_composes(ot.rmap, it.rmap, left.tapes@[k].rmap)
            &&& map_composes(it.wmap, ot.wmap, left.tapes@[k].wmap)
        });
        assert(b.tapes@[j] == bt);
        assert(c.tapes@[k] == ct);
        assert(bc.tapes@[k] == bct);
        assert(ab.tapes@[j] == abt);
        assert(bct.phys == bt.phys);
        assert(abt.phys == at.phys);
        assert forall|s: u16| #[trigger] left.tapes@[k].rmap.spec_apply(s) == right.tapes@[k].rmap.spec_apply(s) by {
            let o1 = at.rmap.spec_apply(s);
            assert(abt.rmap.spec_apply(s) == then_apply(o1, bt.rmap));
            assert(right.tapes@[k].rmap.spec_apply(s) == then_apply(o1, bct.rmap));
            match o1 {
                None => {},
                Some(m) => {
                    assert(bct.rmap.spec_apply(m) == then_apply(bt.rmap.spec_apply(m), ct.rmap));
                },
            }
        }
        assert forall|s: u16| #[trigger] left.tapes@[k].wmap.spec_apply(s) == right.tapes@[k].wmap.spec_apply(s) by {
            let o1 = ct.wmap.spec_apply(s);
            assert(bct.wmap.spec_apply(s) == then_apply(o1, bt.wmap));
            assert(left.tapes@[k].wmap.spec_apply(s) == then_apply(o1, abt.wmap));
            match o1 {
                None => {},
                Some(m) => {
                    assert(abt.wmap.spec_apply(m) == then_apply(bt.wmap.spec_apply(m), at.wmap));
                },
            }
        }
    }
    assert forall|k: int| 0 <= k < left.tapes@.len() implies (#[trigger] left.tapes@[k]).canonical() by {
        let ot = ab.tapes@[c.tapes@[k].phys as int];
        assert(map_composes(ot.rmap, c.tapes@[k].rmap, left.tapes@[k].rmap));
        assert(map_composes(c.tapes@[k].wmap, ot.wmap, left.tapes@[k].wmap));
    }
    assert forall|k: int| 0 <= k < right.tapes@.len() implies (#[trigger] right.tapes@[k]).canonical() by {
        let ot = a.tapes@[bc.tapes@[k].phys as int];
        assert(map_composes(ot.rmap, bc.tapes@[k].rmap, right.tapes@[k].rmap));
        assert(map_composes(bc.tapes@[k].wmap, ot.wmap, right.tapes@[k].wmap));
    }
    law_key_determined_by_meaning(left, right);
}

/// An identity composite as the outer operand is neutral: composing it
/// over a canonical `f` whose tapes it covers gives `f` back.
pub proof fn law_identity_outer(id: Composite, f: Composite, r: Composite)
    requires
        id.spec_is_identity(),
        f.canonical(),
        f.fits_in(id),
        composes_to(id, f, r),
    ensures
        r.routine == f.routine,
        composite_key(r) == composite_key(f),
{
    assert forall|k: int| 0 <= k < r.tapes@.len() implies {
        let (x, y) = (#[trigger] r.tapes@[k], f.tapes@[k]);
        &&& x.phys == y.phys
        &&& forall|s: u16| #[trigger] x.rmap.spec_apply(s) == y.rmap.spec_apply(s)
        &&& forall|s: u16| #[trigger] x.wmap.spec_apply(s) == y.wmap.spec_apply(s)
    } by {
        let ft = f.tapes@[k];
        let it = id.tapes@[ft.phys as int];
        assert(it.rmap.spec_is_identity());
        assert(it.wmap.spec_is_identity());
        assert forall|s: u16| #[trigger] r.tapes@[k].rmap.spec_apply(s) == ft.rmap.spec_apply(s) by {
            assert(it.rmap.spec_apply(s) == Some(s));
        }
        assert forall|s: u16| #[trigger] r.tapes@[k].wmap.spec_apply(s) == ft.wmap.spec_apply(s) by {
            match ft.wmap.spec_apply(s) {
                None => {},
                Some(m) => {
                    assert(it.wmap.spec_apply(m) == Some(m));
                },
            }
        }
    }
    assert forall|k: int| 0 <= k < r.tapes@.len() implies (#[trigger] r.tapes@[k]).canonical() by {
        assert(f.tapes@[k] == f.tapes@[k]);
    }
    law_key_determined_by_meaning(r, f);
}

/// An identity composite as the inner operand is neutral: composing a
/// canonical `e` over an identity composite with `e`'s routine and tape
/// count gives `e` back.
pub proof fn law_identity_inner(e: Composite, id: Composite, r: Composite)
    requires
        e.canonical(),
        id.spec_is_identity(),
        id.routine == e.routine,
        id.tapes@.len() == e.tapes@.len(),
        composes_to(e, id, r),
    ensures
        r.routine == e.routine,
        composite_key(r) == composite_key(e),
{
    assert forall|k: int| 0 <= k < r.tapes@.len() implies {
        let (x, y) = (#[trigger] r.tapes@[k], e.tapes@[k]);
        &&& x.phys == y.phys
        &&& forall|s: u16| #[trigger] x.rmap.spec_apply(s) == y.rmap.spec_apply(s)
        &&& forall|s: u16| #[trigger] x.wmap.spec_apply(s) == y.wmap.spec_apply(s)
    } by {
        let it = id.tapes@[k];
        assert(it.phys == k);
        let et = e.tapes@[k];
        assert forall|s: u16| #[trigger] r.tapes@[k].rmap.spec_apply(s) == et.rmap.spec_apply(s) by {
            match et.rmap.spec_apply(s) {
                None => {},
                Some(m) => {
                    assert(it.rmap.spec_apply(m) == Some(m));
                },
            }
        }
        assert forall|s: u16| #[trigger] r.tapes@[k].wmap.spec_apply(s) == et.wmap.spec_apply(s) by {
            assert(it.wmap.spec_apply(s) == Some(s));
        }
    }
    assert forall|k: int| 0 <= k < r.tapes@.len() implies (#[trigger] r.tapes@[k]).canonical() by {
        let ot = e.tapes@[id.tapes@[k].phys as int];
        assert(map_composes(ot.rmap, id.tapes@[k].rmap, r.tapes@[k].rmap));
        assert(map_composes(id.tapes@[k].wmap, ot.wmap, r.tapes@[k].wmap));
    }
    law_key_determined_by_meaning(r, e);
}

/// Two byte strings split the same way at the same point.
proof fn lemma_concat_split(a: Seq<u8>, b: Seq<u8>, c: Seq<u8>, d: Seq<u8>)
    requires
        a + b == c + d,
        a.len() == c.len(),
    ensures
        a == c,
        b == d,
{
    assert(a =~= (a + b).subrange(0, a.len() as int));
    assert(c =~= (c + d).subrange(0, c.len() as int));
    assert(b =~= (a + b).subrange(a.len() as int, (a + b).len() as int));
    assert(d =~= (c + d).subrange(c.len() as int, (c + d).len() as int));
}

proof fn lemma_u16_le_injective(x: u16, y: u16)
    requires
        u16_le(x) == u16_le(y),
    ensures
        x == y,
{
    assert(u16_le(x)[0] == u16_le(y)[0]);
    assert(u16_le(x)[1] == u16_le(y)[1]);
    assert(x % 256 == y % 256);
    assert(x / 256 == y / 256);
}

proof fn lemma_u64_bytes_injective(x: u64, y: u64)
    requires
        u64_bytes(x) == u64_bytes(y),
    ensures
        x == y,
{
    let (a, b) = (u64_bytes(x), u64_bytes(y));
    assert(a[0] == b[0] && a[1] == b[1] && a[2] == b[2] && a[3] == b[3]);
    assert(a[4] == b[4] && a[5] == b[5] && a[6] == b[6] && a[7] == b[7]);
    assert(x % 0x100 == y % 0x100);
    assert(x / 0x100 % 0x100 == y / 0x100 % 0x100);
    assert(x / 0x1_0000 % 0x100 == y / 0x1_0000 % 0x100);
    assert(x / 0x100_0000 % 0x100 == y / 0x100_0000 % 0x100);
    assert(x / 0x1_0000_0000 % 0x100 == y / 0x1_0000_0000 % 0x100);
    assert(x / 0x100_0000_0000 % 0x100 == y / 0x100_0000_0000 % 0x100);
    assert(x / 0x1_0000_0000_0000 % 0x100 == y / 0x1_0000_0000_0000 % 0x100);
    assert(x / 0x100_0000_0000_0000 % 0x100 == y / 0x100_0000_0000_0000 % 0x100);
    assert(x == y) by (nonlinear_arith)
        requires
            x % 0x100 == y % 0x100,
            x / 0x100 % 0x100 == y / 0x100 % 0x100,
            x / 0x1_0000 % 0x100 == y / 0x1_0000 % 0x100,
            x / 0x100_0000 % 0x100 == y / 0x100_0000 % 0x100,
            x / 0x1_0000_0000 % 0x100 == y / 0x1_0000_0000 % 0x100,
            x / 0x100_0000_0000 % 0x100 == y / 0x100_0000_0000 % 0x100,
            x / 0x1_0000_0000_0000 % 0x100 == y / 0x1_0000_0000_0000 % 0x100,
            x / 0x100_0000_0000_0000 % 0x100 == y / 0x100_0000_0000_0000 % 0x100,
    ;
}

proof fn lemma_pairs_bytes_len(p: Seq<(u16, u16)>)
    ensures
        pairs_bytes(p).len() == 4 * p.len(),
    decreases p.len(),
{
    if p.len() > 0 {
        lemma_pairs_bytes_len(p.drop_last());
    }
}

proof fn lemma_syms_bytes_len(h: Seq<u16>)
    ensures
        syms_bytes(h).len() == 2 * h.len(),
    decreases h.len(),
{
    if h.len() > 0 {
        lemma_syms_bytes_len(h.drop_last());
    }
}

proof fn lemma_pairs_bytes_injective(p: Seq<(u16, u16)>, q: Seq<(u16, u16)>)
    requires
        p.len() == q.len(),
        pairs_bytes(p) == pairs_bytes(q),
    ensures
        p == q,
    decreases p.len(),
{
    if p.len() > 0 {
        let (p0, q0) = (p.drop_last(), q.drop_last());
        lemma_pairs_bytes_len(p0);
        lemma_pairs_bytes_len(q0);
        lemma_concat_split(pairs_bytes(p0) + u16_le(p.last().0), u16_le(p.last().1), pairs_bytes(q0) + u16_le(q.last().0), u16_le(q.last().1));
        lemma_concat_split(pairs_bytes(p0), u16_le(p.last().0), pairs_bytes(q0), u16_le(q.last().0));
        lemma_pairs_bytes_injective(p0, q0);
        lemma_u16_le_injective(p.last().0, q.last().0);
        lemma_u16_le_injective(p.last().1, q.last().1);
        assert(p =~= p0.push(p.last()));
        assert(q =~= q0.push(q.last()));
    } else {
        assert(p =~= q);
    }
}

proof fn lemma_syms_bytes_injective(h: Seq<u16>, g: Seq<u16>)
    requires
        h.len() == g.len(),
        syms_bytes(h) == syms_bytes(g),
    ensures
        h == g,
    decreases h.len(),
{
    if h.len() > 0 {
        let (h0, g0) = (h.drop_last(), g.drop_last());
        lemma_syms_bytes_len(h0);
        lemma_syms_bytes_len(g0);
        lemma_concat_split(syms_bytes(h0), u16_le(h.last()), syms_bytes(g0), u16_le(g.last()));
        lemma_syms_bytes_injective(h0, g0);
        lemma_u16_le_injective(h.last(), g.last());
        assert(h =~= h0.push(h.last()));
        assert(g =~= g0.push(g.last()));
    } else {
        assert(h =~= g);
    }
}

/// A map's key reads back from the front of any byte string it starts.
proof fn lemma_map_key_prefix(p1: Seq<(u16, u16)>, h1: Seq<u16>, p2: Seq<(u16, u16)>, h2: Seq<u16>, x: Seq<u8>, y: Seq<u8>)
    requires
        map_key(p1, h1) + x == map_key(p2, h2) + y,
        p1.len() < 0x1_0000,
        p2.len() < 0x1_0000,
        h1.len() < 0x1_0000,
        h2.len() < 0x1_0000,
    ensures
        p1 == p2,
        h1 == h2,
        x == y,
{
    let (a1, a2) = (u16_le(p1.len() as u16), u16_le(p2.len() as u16));
    let (b1, b2) = (pairs_bytes(p1), pairs_bytes(p2));
    let (c1, c2) = (u16_le(h1.len() as u16), u16_le(h2.len() as u16));
    let (d1, d2) = (syms_bytes(h1), syms_bytes(h2));
    assert(map_key(p1, h1) + x =~= a1 + (b1 + (c1 + (d1 + x))));
    assert(map_key(p2, h2) + y =~= a2 + (b2 + (c2 + (d2 + y))));
    lemma_concat_split(a1, b1 + (c1 + (d1 + x)), a2, b2 + (c2 + (d2 + y)));
    lemma_u16_le_injective(p1.len() as u16, p2.len() as u16);
    lemma_pairs_bytes_len(p1);
    lemma_pairs_bytes_len(p2);
    lemma_concat_split(b1, c1 + (d1 + x), b2, c2 + (d2 + y));
    lemma_pairs_bytes_injective(p1, p2);
    lemma_concat_split(c1, d1 + x, c2, d2 + y);
    lemma_u16_le_injective(h1.len() as u16, h2.len() as u16);
    lemma_syms_bytes_len(h1);
    lemma_syms_bytes_len(h2);
    lemma_concat_split(d1, x, d2, y);
    lemma_syms_bytes_injective(h1, h2);
}

/// A tape's maps are small enough for their key's length fields.
pub open spec fn keyable_tape(t: CompositeTape) -> bool {
    &&& t.rmap.pairs_view().len() < 0x1_0000
    &&& t.rmap.holes_view().len() < 0x1_0000
    &&& t.wmap.pairs_view().len() < 0x1_0000
    &&& t.wmap.holes_view().len() < 0x1_0000
}

/// A tape's key reads back from the front of any byte string it starts.
proof fn lemma_tape_key_prefix(a: CompositeTape, b: CompositeTape, x: Seq<u8>, y: Seq<u8>)
    requires
        a.key() + x == b.key() + y,
        keyable_tape(a),
        keyable_tape(b),
    ensures
        a.phys == b.phys,
        a.rmap.pairs_view() == b.rmap.pairs_view(),
        a.rmap.holes_view() == b.rmap.holes_view(),
        a.wmap.pairs_view() == b.wmap.pairs_view(),
        a.wmap.holes_view() == b.wmap.holes_view(),
        x == y,
{
    let (ra, wa) = (a.rmap.key(), a.wmap.key());
    let (rb, wb) = (b.rmap.key(), b.wmap.key());
    assert(a.key() + x =~= seq![a.phys] + (ra + (wa + x)));
    assert(b.key() + y =~= seq![b.phys] + (rb + (wb + y)));
    lemma_concat_split(seq![a.phys], ra + (wa + x), seq![b.phys], rb + (wb + y));
    assert(seq![a.phys][0] == seq![b.phys][0]);
    lemma_map_key_prefix(a.rmap.pairs_view(), a.rmap.holes_view(), b.rmap.pairs_view(), b.rmap.holes_view(), wa + x, wb + y);
    lemma_map_key_prefix(a.wmap.pairs_view(), a.wmap.holes_view(), b.wmap.pairs_view(), b.wmap.holes_view(), x, y);
}

/// The tapes' key is the first tape's key, then the rest's.
proof fn lemma_tapes_key_cons(ts: Seq<CompositeTape>)
    requires
        ts.len() > 0,
    ensures
        tapes_key(ts) == ts[0].key() + tapes_key(ts.drop_first()),
    decreases ts.len(),
{
    if ts.len() == 1 {
        assert(ts.drop_last() =~= Seq::<CompositeTape>::empty());
        assert(ts.drop_first() =~= Seq::<CompositeTape>::empty());
        assert(ts[0].key() + Seq::<u8>::empty() =~= ts[0].key());
        assert(Seq::<u8>::empty() + ts.last().key() =~= ts[0].key());
    } else {
        lemma_tapes_key_cons(ts.drop_last());
        assert(ts.drop_last().drop_first() =~= ts.drop_first().drop_last());
        assert(ts.drop_first().last() == ts.last());
        assert(ts.drop_last()[0] == ts[0]);
        let k = ts[0].key();
        let m = tapes_key(ts.drop_first().drop_last());
        let l = ts.last().key();
        assert(k + m + l =~= k + (m + l));
    }
}

proof fn lemma_concat_assoc(a: Seq<u8>, b: Seq<u8>, c: Seq<u8>)
    ensures
        (a + b) + c == a + (b + c),
{
    assert((a + b) + c =~= a + (b + c));
}

/// Two tapes on the same physical tape with the same stored maps.
pub open spec fn same_tape(a: CompositeTape, b: CompositeTape) -> bool {
    &&& a.phys == b.phys
    &&& a.rmap.pairs_view() == b.rmap.pairs_view()
    &&& a.rmap.holes_view() == b.rmap.holes_view()
    &&& a.wmap.pairs_view() == b.wmap.pairs_view()
    &&& a.wmap.holes_view() == b.wmap.holes_view()
}

proof fn lemma_tapes_key_prefix(ts: Seq<CompositeTape>, us: Seq<CompositeTape>, x: Seq<u8>, y: Seq<u8>)
    requires
        ts.len() == us.len(),
        tapes_key(ts) + x == tapes_key(us) + y,
        forall|k: int| 0 <= k < ts.len() ==> keyable_tape(#[trigger] ts[k]),
        forall|k: int| 0 <= k < us.len() ==> keyable_tape(#[trigger] us[k]),
    ensures
        x == y,
        forall|k: int| 0 <= k < ts.len() ==> same_tape(#[trigger] ts[k], us[k]),
    decreases ts.len(),
{
    if ts.len() == 0 {
        assert(tapes_key(ts) =~= Seq::<u8>::empty());
        assert(tapes_key(us) =~= Seq::<u8>::empty());
        assert(Seq::<u8>::empty() + x =~= x);
        assert(Seq::<u8>::empty() + y =~= y);
    } else {
        lemma_tapes_key_cons(ts);
        lemma_tapes_key_cons(us);
        let (rt, ru) = (ts.drop_first(), us.drop_first());
        let (kt, ku) = (tapes_key(rt), tapes_key(ru));
        lemma_concat_assoc(ts[0].key(), kt, x);
        lemma_concat_assoc(us[0].key(), ku, y);
        assert(keyable_tape(ts[0]) && keyable_tape(us[0]));
        lemma_tape_key_prefix(ts[0], us[0], kt + x, ku + y);
        assert forall|k: int| 0 <= k < rt.len() implies keyable_tape(#[trigger] rt[k]) by {
            assert(rt[k] == ts[k + 1]);
        }
        assert forall|k: int| 0 <= k < ru.len() implies keyable_tape(#[trigger] ru[k]) by {
            assert(ru[k] == us[k + 1]);
        }
        lemma_tapes_key_prefix(rt, ru, x, y);
        assert forall|k: int| 0 <= k < ts.len() implies same_tape(#[trigger] ts[k], us[k]) by {
            if k > 0 {
                assert(ts[k] == rt[k - 1]);
                assert(us[k] == ru[k - 1]);
            }
        }
    }
}

/// The dedup key separates instantiations: composites with equal keys run
/// the same routine over as many tapes, and every tape sits on the same
/// physical tape with the same read and write maps (the same stored pairs
/// and holes, so the same meaning). Key lengths are `u16` fields, so the
/// tape count and every map's pair and hole counts are below 2^16.
pub proof fn law_key_separates_instantiations(a: Composite, b: Composite)
    requires
        a.tapes@.len() < 0x1_0000,
        b.tapes@.len() < 0x1_0000,
        forall|k: int| 0 <= k < a.tapes@.len() ==> keyable_tape(#[trigger] a.tapes@[k]),
        forall|k: int| 0 <= k < b.tapes@.len() ==> keyable_tape(#[trigger] b.tapes@[k]),
        composite_key(a) == composite_key(b),
    ensures
        a.routine == b.routine,
        a.tapes@.len() == b.tapes@.len(),
        forall|k: int| 0 <= k < a.tapes@.len() ==> {
            let (x, y) = (#[trigger] a.tapes@[k], b.tapes@[k]);
            &&& x.phys == y.phys
            &&& x.rmap.pairs_view() == y.rmap.pairs_view()
            &&& x.rmap.holes_view() == y.rmap.holes_view()
            &&& x.wmap.pairs_view() == y.wmap.pairs_view()
            &&& x.wmap.holes_view() == y.wmap.holes_view()
            &&& forall|s: u16| #[trigger] x.rmap.spec_apply(s) == y.rmap.spec_apply(s)
            &&& forall|s: u16| #[trigger] x.wmap.spec_apply(s) == y.wmap.spec_apply(s)
        },
{
    let ra = u64_bytes(a.routine as u64);
    let rb = u64_bytes(b.routine as u64);
    let na = u16_le(a.tapes@.len() as u16);
    let nb = u16_le(b.tapes@.len() as u16);
    let ka = tapes_key(a.tapes@);
    let kb = tapes_key(b.tapes@);
    assert(composite_key(a) =~= ra + (na + ka));
    assert(composite_key(b) =~= rb + (nb + kb));
    lemma_concat_split(ra, na + ka, rb, nb + kb);
    lemma_u64_bytes_injective(a.routine as u64, b.routine as u64);
    lemma_concat_split(na, ka, nb, kb);
    lemma_u16_le_injective(a.tapes@.len() as u16, b.tapes@.len() as u16);
    assert(ka + Seq::<u8>::empty() =~= kb + Seq::<u8>::empty());
    lemma_tapes_key_prefix(a.tapes@, b.tapes@, Seq::<u8>::empty(), Seq::<u8>::empty());
    assert forall|k: int| 0 <= k < a.tapes@.len() implies {
        let (x, y) = (#[trigger] a.tapes@[k], b.tapes@[k]);
        &&& x.phys == y.phys
        &&& x.rmap.pairs_view() == y.rmap.pairs_view()
        &&& x.rmap.holes_view() == y.rmap.holes_view()
        &&& x.wmap.pairs_view() == y.wmap.pairs_view()
        &&& x.wmap.holes_view() == y.wmap.holes_view()
        &&& forall|s: u16| #[trigger] x.rmap.spec_apply(s) == y.rmap.spec_apply(s)
        &&& forall|s: u16| #[trigger] x.wmap.spec_apply(s) == y.wmap.spec_apply(s)
    } by {
        assert(same_tape(a.tapes@[k], b.tapes@[k]));
    }
}

} // verus!
