//! The composition engine's checks and tables: a bound call's binding
//! validated against the caller's and the callee's signatures, the
//! physical tapes of a hand-written frame descriptor checked against the
//! machine, a sparse symbol map spelled out densely for a descriptor, and
//! composites interned by their canonical key.

use vstd::prelude::*;

use super::compose::{
    absolutize, binding_error, lemma_push_contains, canonical_key, card_of, composite_key, compose_error_text, ingested, lowers_to, raw_apply,
    Composite, ComposeError, SparseMap,
};
use super::object::{BoundCall, MapPair, RoutineSig, TapeBinding};
use super::resolve::FuncRef;
use super::layout::{find_hole, fits_i32, fits_i8, hole_callee, Body, Decoded, Flow, Operand};
use super::binding_label::{le32, push_le32};
use super::tables::u16_at;
use super::LinkError;
use crate::syntax::red::{decimal, push_decimal};

verus! {

/// The first pair whose caller symbol lies outside an alphabet of `card`
/// symbols, by its symbol.
pub open spec fn first_out_of_range(pairs: Seq<MapPair>, card: u32) -> Option<u32>
    decreases pairs.len(),
{
    if pairs.len() == 0 {
        None
    } else {
        match first_out_of_range(pairs.drop_last(), card) {
            Some(s) => Some(s),
            None => if pairs.last().src >= card { Some(pairs.last().src) } else { None },
        }
    }
}

/// What caller symbol `s` reads as on binding tape `k`: its listed image,
/// else itself.
pub open spec fn read_image(sig: RoutineSig, binding: Seq<TapeBinding>, k: int, s: u16) -> Option<u16> {
    raw_apply(ingested(k as usize, card_of(sig, k), binding[k].pairs@).0, s)
}

/// The first symbol below `n` with an image that an earlier symbol
/// already has under `f`.
pub open spec fn first_repeat(f: spec_fn(u16) -> Option<u16>, n: int) -> Option<u16>
    decreases n,
{
    if n <= 0 {
        None
    } else {
        match first_repeat(f, n - 1) {
            Some(s) => Some(s),
            None => {
                let s = (n - 1) as u16;
                if f(s) is Some && exists|t: u16| t < s && #[trigger] f(t) == f(s) {
                    Some(s)
                } else {
                    None
                }
            },
        }
    }
}

/// The message for binding tape `k`'s first problem, if it has one: a
/// caller symbol outside the caller tape's alphabet, or, where the two
/// alphabets have one size, a read map that identity completion does not
/// make injective.
pub open spec fn tape_problem(caller_sig: RoutineSig, callee_sig: RoutineSig, binding: Seq<TapeBinding>, k: int) -> Option<Seq<char>> {
    let caller_card = card_of(caller_sig, binding[k].caller_tape as int);
    match first_out_of_range(binding[k].pairs@, caller_card) {
        Some(src) => Some("binding tape "@ + decimal(k as nat) + " maps caller symbol "@ + decimal(src as nat)
            + " outside the caller alphabet (cardinality "@ + decimal(caller_card as nat) + ")"@),
        None => if caller_card == card_of(callee_sig, k) {
            match first_repeat(|s: u16| read_image(callee_sig, binding, k, s), if caller_card < 0x10000 { caller_card as int } else { 0x10000 }) {
                Some(s) => Some("binding tape "@ + decimal(k as nat)
                    + " is not injective on an equal-size alphabet: identity completion collides on "@
                    + decimal(read_image(callee_sig, binding, k, s)->Some_0 as nat)),
                None => None,
            }
        } else {
            None
        },
    }
}

/// The first problem among the first `n` binding tapes.
pub open spec fn first_tape_problem(caller_sig: RoutineSig, callee_sig: RoutineSig, binding: Seq<TapeBinding>, n: int) -> Option<Seq<char>>
    decreases n,
{
    if n <= 0 {
        None
    } else {
        match first_tape_problem(caller_sig, callee_sig, binding, n - 1) {
            Some(m) => Some(m),
            None => tape_problem(caller_sig, callee_sig, binding, n - 1),
        }
    }
}

/// A bound call refused for `callee` with `message`.
pub fn bad_binding(callee: &str, e: &ComposeError) -> (r: LinkError)
    ensures
        r matches LinkError::BadBinding { callee: c, message: m } && c@ == callee@ && m@ == compose_error_text(*e),
{
    LinkError::BadBinding { callee: callee.to_owned(), message: e.message() }
}

/// The first pair of `pairs` whose caller symbol is `card` or more.
fn out_of_range(pairs: &Vec<MapPair>, card: u32) -> (r: Option<u32>)
    ensures
        r == first_out_of_range(pairs@, card),
{
    let mut i: usize = 0;
    while i < pairs.len()
        invariant
            i <= pairs@.len(),
            first_out_of_range(pairs@.take(i as int), card) is None,
        decreases pairs@.len() - i,
    {
        proof {
            assert(pairs@.take(i + 1).drop_last() =~= pairs@.take(i as int));
        }
        if pairs[i].src >= card {
            proof {
                lemma_first_out_of_range_prefix(pairs@, (i + 1) as int, card);
            }
            return Some(pairs[i].src);
        }
        i = i + 1;
    }
    proof {
        assert(pairs@.take(pairs@.len() as int) =~= pairs@);
    }
    None
}

/// A problem found in a prefix of the pairs is the first problem of all.
proof fn lemma_first_out_of_range_prefix(pairs: Seq<MapPair>, n: int, card: u32)
    requires
        0 <= n <= pairs.len(),
        first_out_of_range(pairs.take(n), card) is Some,
    ensures
        first_out_of_range(pairs, card) == first_out_of_range(pairs.take(n), card),
    decreases pairs.len() - n,
{
    if n < pairs.len() {
        assert(pairs.take(n + 1).drop_last() =~= pairs.take(n));
        lemma_first_out_of_range_prefix(pairs, n + 1, card);
    } else {
        assert(pairs.take(n) =~= pairs);
    }
}

/// A repeat found below `n` is the first below any larger bound.
proof fn lemma_first_repeat_prefix(f: spec_fn(u16) -> Option<u16>, n: int, m: int)
    requires
        0 <= n <= m,
        first_repeat(f, n) is Some,
    ensures
        first_repeat(f, m) == first_repeat(f, n),
    decreases m - n,
{
    if n < m {
        lemma_first_repeat_prefix(f, n, m - 1);
    }
}

/// The first symbol below `n` whose image under `map` an earlier symbol
/// already has, with that image.
fn first_repeat_of(map: &SparseMap, n: u32) -> (r: Option<(u16, u16)>)
    requires
        map.wf(),
        n <= 0x10000,
    ensures
        match first_repeat(|s: u16| map.spec_apply(s), n as int) {
            Some(s) => r == Some((s, map.spec_apply(s)->Some_0)),
            None => r is None,
        },
{
    let ghost f = |s: u16| map.spec_apply(s);
    let mut seen: Vec<u16> = Vec::new();
    let mut s: u32 = 0;
    while s < n
        invariant
            s <= n <= 0x10000,
            map.wf(),
            f == (|s: u16| map.spec_apply(s)),
            first_repeat(f, s as int) is None,
            forall|v: u16| seen@.contains(v) <==> exists|t: u16| t < s && #[trigger] f(t) == Some(v),
        decreases n - s,
    {
        let s16 = s as u16;
        match map.apply(s16) {
            Some(v) => {
                let mut found = false;
                let mut i: usize = 0;
                while i < seen.len()
                    invariant
                        i <= seen@.len(),
                        found <==> seen@.take(i as int).contains(v),
                    decreases seen@.len() - i,
                {
                    proof {
                        assert(seen@.take(i + 1) =~= seen@.take(i as int).push(seen@[i as int]));
                        lemma_push_contains(seen@.take(i as int), seen@[i as int], v);
                    }
                    if seen[i] == v {
                        found = true;
                    }
                    i = i + 1;
                }
                proof {
                    assert(seen@.take(seen@.len() as int) =~= seen@);
                }
                if found {
                    proof {
                        let t = choose|t: u16| t < s && #[trigger] f(t) == Some(v);
                        assert(f(t) == f(s16));
                        assert(first_repeat(f, s + 1) == Some(s16));
                        lemma_first_repeat_prefix(f, s + 1, n as int);
                    }
                    return Some((s16, v));
                }
                let ghost before = seen@;
                seen.push(v);
                proof {
                    assert(!(exists|t: u16| t < s16 && #[trigger] f(t) == f(s16)));
                    assert(first_repeat(f, s + 1) is None);
                    assert forall|w: u16| seen@.contains(w) <==> exists|t: u16| t < s + 1 && #[trigger] f(t) == Some(w) by {
                        if seen@.contains(w) && w != v {
                            let j = choose|j: int| 0 <= j < seen@.len() && seen@[j] == w;
                            assert(before[j] == w);
                            assert(before.contains(w));
                        }
                        if seen@.contains(w) && w == v {
                            assert(f(s16) == Some(w));
                        }
                        if exists|t: u16| t < s + 1 && #[trigger] f(t) == Some(w) {
                            let t = choose|t: u16| t < s + 1 && #[trigger] f(t) == Some(w);
                            if t < s {
                                assert(before.contains(w));
                                let j = choose|j: int| 0 <= j < before.len() && before[j] == w;
                                assert(seen@[j] == w);
                            } else {
                                assert(seen@[before.len() as int] == v);
                            }
                        }
                    }
                }
            },
            None => {
                proof {
                    assert(first_repeat(f, s + 1) is None);
                    assert forall|w: u16| seen@.contains(w) <==> exists|t: u16| t < s + 1 && #[trigger] f(t) == Some(w) by {
                        if exists|t: u16| t < s + 1 && #[trigger] f(t) == Some(w) {
                            let t = choose|t: u16| t < s + 1 && #[trigger] f(t) == Some(w);
                            assert(t != s16);
                        }
                    }
                }
            },
        }
        s = s + 1;
    }
    None
}

/// The cardinality of `sig`'s tape `k`, 0 past its tapes.
fn card_at(sig: &RoutineSig, k: usize) -> (r: u32)
    ensures
        r == card_of(*sig, k as int),
{
    if k < sig.cardinalities.len() {
        sig.cardinalities[k]
    } else {
        0
    }
}

/// A problem found among the first `n` tapes is the first among more.
proof fn lemma_first_tape_problem_prefix(caller_sig: RoutineSig, callee_sig: RoutineSig, binding: Seq<TapeBinding>, n: int, m: int)
    requires
        0 <= n <= m,
        first_tape_problem(caller_sig, callee_sig, binding, n) is Some,
    ensures
        first_tape_problem(caller_sig, callee_sig, binding, m) == first_tape_problem(caller_sig, callee_sig, binding, n),
    decreases m - n,
{
    if n < m {
        lemma_first_tape_problem_prefix(caller_sig, callee_sig, binding, n, m - 1);
    }
}

/// Validate a bound call's binding once, returning its composite
/// absolutized at the caller's own identity: the algebra's checks first
/// (arity, caller tapes, callee symbols, blank, conflicts), then per tape
/// that every bound caller symbol lies in the caller tape's alphabet and,
/// where caller and callee alphabets have one size, that the read map
/// completed with identity is injective.
pub fn validate_binding(caller_sig: &RoutineSig, callee_sig: &RoutineSig, callee_name: &str, record: &BoundCall) -> (r: Result<Composite, LinkError>)
    ensures
        match binding_error(caller_sig.arity as usize, *callee_sig, record.binding@) {
            Some(e) => r matches Err(LinkError::BadBinding { callee, message }) && callee@ == callee_name@
                && message@ == compose_error_text(e),
            None => match first_tape_problem(*caller_sig, *callee_sig, record.binding@, record.binding@.len() as int) {
                Some(m) => r matches Err(LinkError::BadBinding { callee, message }) && callee@ == callee_name@ && message@ == m,
                None => r matches Ok(c) && lowers_to(0, *callee_sig, record.binding@, c),
            },
        },
{
    let caller_arity = caller_sig.arity as usize;
    let composite = match absolutize(caller_arity, 0, &record.binding, callee_sig) {
        Ok(c) => c,
        Err(e) => {
            return Err(bad_binding(callee_name, &e));
        },
    };
    let ghost binding = record.binding@;
    let mut k: usize = 0;
    while k < record.binding.len()
        invariant
            k <= binding.len(),
            binding == record.binding@,
            binding_error(caller_sig.arity as usize, *callee_sig, binding) is None,
            lowers_to(0, *callee_sig, binding, composite),
            first_tape_problem(*caller_sig, *callee_sig, binding, k as int) is None,
        decreases binding.len() - k,
    {
        let tb = &record.binding[k];
        let caller_card = card_at(caller_sig, tb.caller_tape as usize);
        if let Some(src) = out_of_range(&tb.pairs, caller_card) {
            let mut message = "binding tape ".to_owned();
            push_decimal(&mut message, k as u64);
            message.append(" maps caller symbol ");
            push_decimal(&mut message, src as u64);
            message.append(" outside the caller alphabet (cardinality ");
            push_decimal(&mut message, caller_card as u64);
            message.append(")");
            proof {
                assert(tape_problem(*caller_sig, *callee_sig, binding, k as int) == Some(message@));
                assert(first_tape_problem(*caller_sig, *callee_sig, binding, k + 1) == Some(message@));
                lemma_first_tape_problem_prefix(*caller_sig, *callee_sig, binding, k + 1, binding.len() as int);
            }
            return Err(LinkError::BadBinding { callee: callee_name.to_owned(), message });
        }
        let callee_card = card_at(callee_sig, k);
        if caller_card == callee_card {
            let tape = &composite.tapes[k];
            let n: u32 = if caller_card < 0x10000 { caller_card } else { 0x10000 };
            proof {
                assert(composite.tapes@[k as int].canonical());
                assert((|s: u16| tape.rmap.spec_apply(s)) =~= (|s: u16| read_image(*callee_sig, binding, k as int, s)));
            }
            if let Some((s, v)) = first_repeat_of(&tape.rmap, n) {
                let mut message = "binding tape ".to_owned();
                push_decimal(&mut message, k as u64);
                message.append(" is not injective on an equal-size alphabet: identity completion collides on ");
                push_decimal(&mut message, v as u64);
                proof {
                    assert(tape_problem(*caller_sig, *callee_sig, binding, k as int) == Some(message@));
                    assert(first_tape_problem(*caller_sig, *callee_sig, binding, k + 1) == Some(message@));
                    lemma_first_tape_problem_prefix(*caller_sig, *callee_sig, binding, k + 1, binding.len() as int);
                }
                return Err(LinkError::BadBinding { callee: callee_name.to_owned(), message });
            }
        }
        proof {
            assert(tape_problem(*caller_sig, *callee_sig, binding, k as int) is None);
        }
        k = k + 1;
    }
    Ok(composite)
}

/// A sparse map's image of symbol `s` in a dense descriptor map over a
/// codomain of `codomain` symbols: the image where it exists and fits,
/// else `0xFFFF`.
pub open spec fn dense_entry(map: SparseMap, s: int, codomain: u32) -> u16 {
    if s < 0x10000 {
        match map.spec_apply(s as u16) {
            Some(v) => if (v as u32) < codomain { v } else { 0xFFFF },
            None => 0xFFFF,
        }
    } else {
        0xFFFF
    }
}

/// Spell `map` out over `domain_card` symbols whose images must lie
/// below `codomain_card`: nothing at all for an identity map between
/// alphabets of one size, else one entry per symbol, `0xFFFF` for a hole
/// or an image outside the codomain.
pub fn dense_map(map: &SparseMap, is_identity: bool, domain_card: u32, codomain_card: u32) -> (r: Vec<u16>)
    requires
        map.wf(),
    ensures
        is_identity && domain_card == codomain_card ==> r@.len() == 0,
        !(is_identity && domain_card == codomain_card) ==> r@.len() == domain_card
            && forall|s: int| 0 <= s < domain_card ==> #[trigger] r@[s] == dense_entry(*map, s, codomain_card),
{
    if is_identity && domain_card == codomain_card {
        return Vec::new();
    }
    let mut out: Vec<u16> = Vec::new();
    let mut s: u32 = 0;
    while s < domain_card
        invariant
            map.wf(),
            s <= domain_card,
            out@.len() == s,
            forall|t: int| 0 <= t < s ==> #[trigger] out@[t] == dense_entry(*map, t, codomain_card),
        decreases domain_card - s,
    {
        let entry: u16 = if s < 0x10000 {
            match map.apply(s as u16) {
                Some(v) => if (v as u32) < codomain_card { v } else { 0xFFFF },
                None => 0xFFFF,
            }
        } else {
            0xFFFF
        };
        out.push(entry);
        s = s + 1;
    }
    out
}

/// Intern `c` into the engine's directory, deduplicated by canonical key
/// (`keys[i]` is `comps[i]`'s), giving its 1-based directory index.
pub fn intern_composite(comps: &mut Vec<Composite>, keys: &mut Vec<Vec<u8>>, c: Composite) -> (r: u16)
    requires
        old(keys)@.len() == old(comps)@.len(),
        forall|i: int| 0 <= i < old(comps)@.len() ==> #[trigger] old(keys)@[i]@ == composite_key(old(comps)@[i]),
        old(comps)@.len() < 0xFFFF,
    ensures
        final(keys)@.len() == final(comps)@.len(),
        forall|i: int| 0 <= i < final(comps)@.len() ==> #[trigger] final(keys)@[i]@ == composite_key(final(comps)@[i]),
        (exists|i: int| 0 <= i < old(comps)@.len() && composite_key(old(comps)@[i]) == composite_key(c)) ==> {
            &&& final(comps)@ == old(comps)@
            &&& final(keys)@ == old(keys)@
            &&& 1 <= r <= old(comps)@.len()
            &&& composite_key(old(comps)@[r - 1]) == composite_key(c)
            &&& forall|j: int| 0 <= j < r - 1 ==> composite_key(old(comps)@[j]) != composite_key(c)
        },
        !(exists|i: int| 0 <= i < old(comps)@.len() && composite_key(old(comps)@[i]) == composite_key(c)) ==> {
            &&& final(comps)@ == old(comps)@.push(c)
            &&& r == final(comps)@.len()
        },
{
    let key = canonical_key(&c);
    let mut i: usize = 0;
    while i < keys.len()
        invariant
            i <= keys@.len() == comps@.len(),
            forall|j: int| 0 <= j < comps@.len() ==> #[trigger] keys@[j]@ == composite_key(comps@[j]),
            key@ == composite_key(c),
            comps@.len() < 0xFFFF,
            forall|j: int| 0 <= j < i ==> composite_key(comps@[j]) != composite_key(c),
        decreases keys@.len() - i,
    {
        if same_key(&keys[i], &key) {
            return (i + 1) as u16;
        }
        i = i + 1;
    }
    comps.push(c);
    keys.push(key);
    proof {
        assert forall|j: int| 0 <= j < comps@.len() implies #[trigger] keys@[j]@ == composite_key(comps@[j]) by {
            if j < comps@.len() - 1 {
                assert(keys@[j] == old(keys)@[j]);
                assert(comps@[j] == old(comps)@[j]);
            }
        }
    }
    comps.len() as u16
}

/// Whether `a` and `b` hold the same bytes.
pub(crate) fn same_key(a: &Vec<u8>, b: &Vec<u8>) -> (r: bool)
    ensures
        r == (a@ == b@),
{
    if a.len() != b.len() {
        return false;
    }
    let mut i: usize = 0;
    while i < a.len()
        invariant
            i <= a@.len() == b@.len(),
            forall|j: int| 0 <= j < i ==> a@[j] == b@[j],
        decreases a@.len() - i,
    {
        if a[i] != b[i] {
            return false;
        }
        i = i + 1;
    }
    proof {
        assert(a@ =~= b@);
    }
    true
}

/// The signature of the routine at `idx` in the order, which a binding
/// needs to bind against.
pub fn routine_sig(order: &[FuncRef], idx: usize) -> (r: Result<&RoutineSig, LinkError>)
    requires
        idx < order@.len(),
    ensures
        match order@[idx as int].signature {
            Some(sig) => r == Ok::<&RoutineSig, LinkError>(&sig),
            None => r matches Err(LinkError::BadBinding { callee, message }) && callee@ == order@[idx as int].name@
                && message@ == "callee has no routine signature to bind against"@,
        },
{
    match &order[idx].signature {
        Some(sig) => Ok(sig),
        None => Err(LinkError::BadBinding {
            callee: order[idx].name.clone(),
            message: "callee has no routine signature to bind against".to_owned(),
        }),
    }
}

/// Walk `tapes` frame-descriptor tape entries from `pos` (each a physical
/// tape byte, then a read map and a write map, each a `u16` length and
/// that many `u16` entries): the first physical tape at or past `arity`,
/// stopping quietly where the bytes run out.
pub open spec fn phys_scan(t: Seq<u8>, pos: int, tapes: nat, arity: u32) -> Option<u8>
    decreases tapes,
{
    if tapes == 0 || pos >= t.len() {
        None
    } else if t[pos] as u32 >= arity {
        Some(t[pos])
    } else {
        let p1 = pos + 1;
        if p1 + 2 > t.len() {
            None
        } else {
            let p2 = p1 + 2 + 2 * u16_at(t, p1);
            if p2 + 2 > t.len() {
                None
            } else {
                phys_scan(t, p2 + 2 + 2 * u16_at(t, p2), (tapes - 1) as nat, arity)
            }
        }
    }
}

/// Check the physical tapes of the frame descriptor at `start` in
/// `table` against the machine's `arity`: a tape at or past it would land
/// on a tape the machine does not have. A header cut short is left to the
/// table walk that reports it; only the tape bytes present are read.
pub fn check_descriptor_phys(table: &[u8], start: u32, arity: u32, name: &str) -> (r: Result<(), LinkError>)
    requires
        table@.len() <= 0xFFF0_0000,
    ensures
        match (if (start as int) < table@.len() { phys_scan(table@, start + 3, table@[start as int] as nat, arity) } else { None }) {
            Some(phys) => r matches Err(LinkError::BadFrameDescriptor { symbol, message }) && symbol@ == name@
                && message@ == "physical tape "@ + decimal(phys as nat) + " is at or past the machine arity "@ + decimal(arity as nat),
            None => r is Ok,
        },
{
    let len = table.len() as u32;
    if start >= len {
        return Ok(());
    }
    let darity = table[start as usize];
    let mut pos: u32 = start + 3;
    let mut i: u8 = 0;
    let ghost t = table@;
    while i < darity
        invariant
            t == table@,
            len as int == t.len(),
            t.len() <= 0xFFF0_0000,
            i <= darity,
            (start as int) < t.len(),
            darity == t[start as int],
            pos <= t.len() + 0x20003,
            phys_scan(t, start + 3, darity as nat, arity) == phys_scan(t, pos as int, (darity - i) as nat, arity),
        decreases darity - i,
    {
        if pos >= len {
            proof {
                assert(phys_scan(t, pos as int, (darity - i) as nat, arity) is None);
            }
            return Ok(());
        }
        let phys = table[pos as usize];
        if (phys as u32) >= arity {
            proof {
                assert(phys_scan(t, pos as int, (darity - i) as nat, arity) == Some(phys));
            }
            let mut message = "physical tape ".to_owned();
            push_decimal(&mut message, phys as u64);
            message.append(" is at or past the machine arity ");
            push_decimal(&mut message, arity as u64);
            return Err(LinkError::BadFrameDescriptor { symbol: name.to_owned(), message });
        }
        pos = pos + 1;
        if pos + 2 > len {
            return Ok(());
        }
        let m1 = table[pos as usize] as u32 + 256 * (table[pos as usize + 1] as u32);
        pos = pos + 2 + 2 * m1;
        if pos + 2 > len {
            return Ok(());
        }
        let m2 = table[pos as usize] as u32 + 256 * (table[pos as usize + 1] as u32);
        pos = pos + 2 + 2 * m2;
        i = i + 1;
    }
    Ok(())
}


/// Where a frames-directory entry's descriptor comes from: an engine-made
/// descriptor, by index, or a hand-written one in function `func`'s table
/// blob at `table_offset`.
pub enum DirSource {
    Engine(usize),
    Raw { func: usize, table_offset: u32 },
}

/// The frames model the engine hands layout: the descriptors it made,
/// the directory in composite-index order (entry `i` is composite
/// `i + 1`, 0 being the machine's own frame), and the compose table, one
/// row per active frame and one column per framed call site, each value a
/// composite index or 0 for an unreachable pair.
pub struct FramesPlan {
    pub engine_descriptors: Vec<Vec<u8>>,
    pub directory: Vec<DirSource>,
    pub compose: Vec<Vec<u16>>,
}

/// One control transfer in a routine's original blob.
pub enum SiteKind {
    /// A relocated plain call or tail jump: the callee runs in the
    /// caller's frame.
    Plain { callee: usize },
    /// A declarative bound call at `addr`; `collapse` marks a full
    /// pass-through that lowers to a plain call.
    Bound { addr: u32, callee: usize, record: BoundCall, collapse: bool },
    /// A hand-written framed call whose frame half is at `frame_hole`.
    RawCallM { frame_hole: u32 },
}

/// A framed call a rewrite leaves in a blob, the source of one compose
/// column: an engine-framed bound call, or a hand-written one naming the
/// descriptor at `table_off` in its function's table blob.
#[derive(Debug, Clone, Copy, PartialEq, Eq, Structural)]
pub enum FramedSite {
    Bound { addr: u32 },
    Raw { table_off: u32 },
}

/// The table offset the first of `fixups` with hole `hole` names.
pub open spec fn fixup_target(fixups: Seq<(u32, u32)>, hole: u32) -> Option<u32>
    decreases fixups.len(),
{
    if fixups.len() == 0 {
        None
    } else if fixups[0].0 == hole {
        Some(fixups[0].1)
    } else {
        fixup_target(fixups.drop_first(), hole)
    }
}

/// The hand-written framed calls among the first `n` sites, each naming
/// its descriptor through the table fixup at its frame half; the first
/// whose frame half no fixup names, by that hole.
pub open spec fn raw_sites(fixups: Seq<(u32, u32)>, sites: Seq<SiteKind>, n: int) -> Result<Seq<FramedSite>, u32>
    decreases n,
{
    if n <= 0 {
        Ok(seq![])
    } else {
        match raw_sites(fixups, sites, n - 1) {
            Err(h) => Err(h),
            Ok(found) => match sites[n - 1] {
                SiteKind::RawCallM { frame_hole } => match fixup_target(fixups, frame_hole) {
                    Some(t) => Ok(found.push(FramedSite::Raw { table_off: t })),
                    None => Err(frame_hole),
                },
                _ => Ok(found),
            },
        }
    }
}

/// The table offset the first fixup with hole `hole` names.
fn find_fixup(fixups: &Vec<(u32, u32)>, hole: u32) -> (r: Option<u32>)
    ensures
        r == fixup_target(fixups@, hole),
{
    let mut i: usize = 0;
    proof {
        assert(fixups@.skip(0) =~= fixups@);
    }
    while i < fixups.len()
        invariant
            i <= fixups@.len(),
            fixup_target(fixups@, hole) == fixup_target(fixups@.skip(i as int), hole),
        decreases fixups@.len() - i,
    {
        proof {
            assert(fixups@.skip(i as int)[0] == fixups@[i as int]);
            assert(fixups@.skip(i as int).drop_first() =~= fixups@.skip(i + 1));
        }
        if fixups[i].0 == hole {
            return Some(fixups[i].1);
        }
        i = i + 1;
    }
    proof {
        assert(fixups@.skip(i as int).len() == 0);
    }
    None
}

/// The hand-written framed calls of a function whose blob keeps its
/// shape, in site order, each by the descriptor its frame half names; a
/// frame half no table fixup names is a malformed blob there.
pub fn raw_framed_sites(f: &FuncRef, sites: &Vec<SiteKind>) -> (r: Result<Vec<FramedSite>, LinkError>)
    ensures
        match raw_sites(f.table_fixups@, sites@, sites@.len() as int) {
            Ok(found) => r matches Ok(v) && v@ == found,
            Err(h) => r matches Err(LinkError::MalformedBlob { symbol, at }) && symbol@ == f.name@ && at == h,
        },
{
    let mut out: Vec<FramedSite> = Vec::new();
    let mut i: usize = 0;
    while i < sites.len()
        invariant
            i <= sites@.len(),
            raw_sites(f.table_fixups@, sites@, i as int) == Ok::<Seq<FramedSite>, u32>(out@),
        decreases sites@.len() - i,
    {
        if let SiteKind::RawCallM { frame_hole } = &sites[i] {
            match find_fixup(&f.table_fixups, *frame_hole) {
                Some(table_off) => {
                    out.push(FramedSite::Raw { table_off });
                },
                None => {
                    proof {
                        lemma_raw_sites_err_sticks(f.table_fixups@, sites@, i + 1, sites@.len() as int, *frame_hole);
                    }
                    return Err(LinkError::MalformedBlob { symbol: f.name.clone(), at: *frame_hole });
                },
            }
        }
        i = i + 1;
    }
    Ok(out)
}

/// Once a site is unnamed, the later sites do not change the answer.
proof fn lemma_raw_sites_err_sticks(fixups: Seq<(u32, u32)>, sites: Seq<SiteKind>, m: int, n: int, h: u32)
    requires
        0 <= m <= n,
        raw_sites(fixups, sites, m) == Err::<Seq<FramedSite>, u32>(h),
    ensures
        raw_sites(fixups, sites, n) == Err::<Seq<FramedSite>, u32>(h),
    decreases n - m,
{
    if m < n {
        lemma_raw_sites_err_sticks(fixups, sites, m + 1, n, h);
    }
}

/// How many of the engine-framed bound sites (those not collapsed) sit
/// before `old`.
pub open spec fn widened_before(bound: Seq<(u32, usize, bool)>, old: int) -> nat
    decreases bound.len(),
{
    if bound.len() == 0 {
        0
    } else {
        widened_before(bound.drop_last(), old) + if !bound.last().2 && (bound.last().0 as int) < old { 1nat } else { 0nat }
    }
}

/// How many bound sites are engine-framed.
pub open spec fn widened_count(bound: Seq<(u32, usize, bool)>) -> nat
    decreases bound.len(),
{
    if bound.len() == 0 {
        0
    } else {
        widened_count(bound.drop_last()) + if !bound.last().2 { 1nat } else { 0nat }
    }
}

/// Where an original blob offset lands once every engine-framed site
/// before it has grown from five bytes to nine.
pub open spec fn shifted(bound: Seq<(u32, usize, bool)>, old: int) -> int {
    old + 4 * widened_before(bound, old)
}

/// The bound site at `addr`, as (callee, collapse): the last listed.
pub open spec fn bound_at(bound: Seq<(u32, usize, bool)>, addr: u32) -> Option<(usize, bool)>
    decreases bound.len(),
{
    if bound.len() == 0 {
        None
    } else if bound.last().0 == addr {
        Some((bound.last().1, bound.last().2))
    } else {
        bound_at(bound.drop_last(), addr)
    }
}

/// What one decoded item of a blob becomes in the rewritten blob: its
/// bytes, the relocations it carries (new hole, callee) and the framed
/// sites it is; or the offset at which the blob is malformed. A
/// collapsed bound call stays a five-byte call relocated to its callee;
/// an engine-framed one becomes the framed-call opcode and eight zero
/// bytes, relocated likewise; a hand-written framed call must be
/// relocated; a plain call or tail jump keeps its relocation; any other
/// jump is re-aimed through the shift at its width (a one-byte jump that
/// no longer reaches is malformed at the jump); the rest is copied.
pub open spec fn item_rewrite(
    blob: Seq<u8>,
    calls: Seq<(u32, usize)>,
    bound: Seq<(u32, usize, bool)>,
    fc_opcode: u8,
    d: Decoded,
) -> Result<(Seq<u8>, Seq<(u32, usize)>, Seq<FramedSite>), u32> {
    let na = shifted(bound, d.addr as int);
    let hole = (na + 1) as u32;
    let copy = blob.subrange(d.addr as int, d.addr + d.len);
    match d.body {
        Body::Raw => Ok((copy, seq![], seq![])),
        Body::Instr { flow, opcode, operand } => match bound_at(bound, d.addr) {
            Some((c, true)) => Ok((copy, seq![(hole, c)], seq![])),
            Some((c, false)) => Ok((seq![fc_opcode] + Seq::new(8, |i: int| 0u8), seq![(hole, c)], seq![FramedSite::Bound { addr: d.addr }])),
            None => match operand {
                Operand::FramedCall { table } => if flow == Flow::Call {
                    match hole_callee(calls, (d.addr + 1) as u32) {
                        Some(c) => Ok((copy, seq![(hole, c)], seq![FramedSite::Raw { table_off: table }])),
                        None => Err((d.addr + 1) as u32),
                    }
                } else {
                    Ok((copy, seq![], seq![]))
                },
                Operand::RelTarget(t) => if flow == Flow::Call {
                    match hole_callee(calls, (d.addr + 1) as u32) {
                        Some(c) => Ok((copy, seq![(hole, c)], seq![])),
                        None => Ok((copy, seq![], seq![])),
                    }
                } else if flow == Flow::Jump || flow == Flow::Branch {
                    match hole_callee(calls, (d.addr + 1) as u32) {
                        Some(c) => Ok((copy, seq![(hole, c)], seq![])),
                        None => {
                            let off = shifted(bound, t as int) - (na + d.len);
                            if d.len == 2 {
                                if fits_i8(off) {
                                    Ok((seq![opcode, off as u8], seq![], seq![]))
                                } else {
                                    Err(d.addr)
                                }
                            } else {
                                Ok((seq![opcode] + le32(off as u32), seq![], seq![]))
                            }
                        },
                    }
                } else {
                    Ok((copy, seq![], seq![]))
                },
                Operand::Other => Ok((copy, seq![], seq![])),
            },
        },
    }
}

/// The rewrite of the first `k` decoded items, concatenated, or where the
/// first malformed one is malformed.
pub open spec fn rewrite_upto(
    blob: Seq<u8>,
    calls: Seq<(u32, usize)>,
    bound: Seq<(u32, usize, bool)>,
    fc_opcode: u8,
    ds: Seq<Decoded>,
    k: int,
) -> Result<(Seq<u8>, Seq<(u32, usize)>, Seq<FramedSite>), u32>
    decreases k,
{
    if k <= 0 {
        Ok((seq![], seq![], seq![]))
    } else {
        match rewrite_upto(blob, calls, bound, fc_opcode, ds, k - 1) {
            Ok((b, c, s)) => match item_rewrite(blob, calls, bound, fc_opcode, ds[k - 1]) {
                Ok((b2, c2, s2)) => Ok((b + b2, c + c2, s + s2)),
                Err(a) => Err(a),
            },
            Err(a) => Err(a),
        }
    }
}

/// A decoded item the rewrite can re-emit: a jump it re-aims is two or
/// five bytes long, and a five-byte one still reaches in four bytes.
pub open spec fn rewritable(calls: Seq<(u32, usize)>, bound: Seq<(u32, usize, bool)>, d: Decoded) -> bool {
    match d.body {
        Body::Instr { flow, operand: Operand::RelTarget(t), .. } => (flow == Flow::Jump || flow == Flow::Branch)
            && bound_at(bound, d.addr) is None && hole_callee(calls, (d.addr + 1) as u32) is None ==> {
            &&& (d.len == 2 || d.len == 5)
            &&& d.len == 5 ==> fits_i32(shifted(bound, t as int) - (shifted(bound, d.addr as int) + d.len))
        },
        _ => true,
    }
}

proof fn lemma_rewrite_stop(
    blob: Seq<u8>,
    calls: Seq<(u32, usize)>,
    bound: Seq<(u32, usize, bool)>,
    fc_opcode: u8,
    ds: Seq<Decoded>,
    m: int,
    n: int,
)
    requires
        0 <= m <= n,
        rewrite_upto(blob, calls, bound, fc_opcode, ds, m) is Err,
    ensures
        rewrite_upto(blob, calls, bound, fc_opcode, ds, n) == rewrite_upto(blob, calls, bound, fc_opcode, ds, m),
    decreases n - m,
{
    if m < n {
        lemma_rewrite_stop(blob, calls, bound, fc_opcode, ds, m + 1, n);
    }
}

proof fn lemma_widened_bound(bound: Seq<(u32, usize, bool)>, old: int)
    ensures
        widened_before(bound, old) <= widened_count(bound),
    decreases bound.len(),
{
    if bound.len() > 0 {
        lemma_widened_bound(bound.drop_last(), old);
    }
}

/// Where `old` lands after the rewrite (see [`shifted`]).
fn shift_offset(bound: &[(u32, usize, bool)], old: u32) -> (r: u64)
    requires
        4 * widened_count(bound@) <= u32::MAX,
    ensures
        r == shifted(bound@, old as int),
{
    let mut n: u64 = 0;
    let mut i: usize = 0;
    proof {
        lemma_widened_bound(bound@, old as int);
    }
    while i < bound.len()
        invariant
            i <= bound@.len(),
            n == widened_before(bound@.take(i as int), old as int),
            n <= widened_count(bound@.take(i as int)),
            4 * widened_count(bound@) <= u32::MAX,
            widened_count(bound@.take(i as int)) <= widened_count(bound@),
        decreases bound@.len() - i,
    {
        proof {
            assert(bound@.take(i + 1).drop_last() =~= bound@.take(i as int));
            assert(bound@.take(i + 1).last() == bound@[i as int]);
            lemma_widened_prefix(bound@, i + 1);
        }
        if !bound[i].2 && bound[i].0 < old {
            n = n + 1;
        }
        i = i + 1;
    }
    proof {
        assert(bound@.take(bound@.len() as int) =~= bound@);
    }
    old as u64 + 4 * n
}

proof fn lemma_widened_prefix(bound: Seq<(u32, usize, bool)>, k: int)
    requires
        0 <= k <= bound.len(),
    ensures
        widened_count(bound.take(k)) <= widened_count(bound),
    decreases bound.len() - k,
{
    if k < bound.len() {
        lemma_widened_prefix(bound, k + 1);
        assert(bound.take(k + 1).drop_last() =~= bound.take(k));
    } else {
        assert(bound.take(k) =~= bound);
    }
}

fn find_bound(bound: &[(u32, usize, bool)], addr: u32) -> (r: Option<(usize, bool)>)
    ensures
        r == bound_at(bound@, addr),
{
    let mut i: usize = bound.len();
    proof {
        assert(bound@.take(i as int) =~= bound@);
    }
    while i > 0
        invariant
            i <= bound@.len(),
            bound_at(bound@, addr) == bound_at(bound@.take(i as int), addr),
        decreases i,
    {
        proof {
            assert(bound@.take(i as int).drop_last() =~= bound@.take(i - 1));
            assert(bound@.take(i as int).last() == bound@[i - 1]);
        }
        if bound[i - 1].0 == addr {
            return Some((bound[i - 1].1, bound[i - 1].2));
        }
        i = i - 1;
    }
    None
}

fn copy_slice(out: &mut Vec<u8>, blob: &Vec<u8>, start: usize, end: usize)
    requires
        start <= end <= blob@.len(),
    ensures
        final(out)@ == old(out)@ + blob@.subrange(start as int, end as int),
{
    let mut b: usize = start;
    while b < end
        invariant
            start <= b <= end,
            end <= blob@.len(),
            out@ == old(out)@ + blob@.subrange(start as int, b as int),
        decreases end - b,
    {
        out.push(blob[b]);
        proof {
            assert(blob@.subrange(start as int, b + 1) =~= blob@.subrange(start as int, b as int).push(blob@[b as int]));
        }
        b = b + 1;
    }
}

/// Rewrite a blob's code for the composition engine along its decoded
/// items (see [`item_rewrite`]): engine-framed bound calls widen from
/// five bytes to nine and every offset after one shifts by four (see
/// [`shifted`]), bound calls become relocations, and the hand-written
/// framed calls and bound ones are listed as framed sites, in order.
/// Returns the new blob, its relocations and its framed sites, or the
/// offset-naming malformed-blob error.
pub fn rewrite_code(
    f: &FuncRef,
    decoded: &[Decoded],
    bound: &[(u32, usize, bool)],
    fc_opcode: u8,
) -> (r: Result<(Vec<u8>, Vec<(u32, usize)>, Vec<FramedSite>), LinkError>)
    requires
        f.blob@.len() + 4 * widened_count(bound@) + 9 <= u32::MAX,
        forall|i: int| 0 <= i < decoded@.len() ==> 1 <= (#[trigger] decoded@[i]).len
            && decoded@[i].addr + decoded@[i].len <= f.blob@.len() && rewritable(f.calls@, bound@, decoded@[i]),
    ensures
        match rewrite_upto(f.blob@, f.calls@, bound@, fc_opcode, decoded@, decoded@.len() as int) {
            Ok((b, c, s)) => r matches Ok((nb, nc, ns)) && nb@ == b && nc@ == c && ns@ == s,
            Err(a) => r matches Err(LinkError::MalformedBlob { symbol, at }) && symbol@ == f.name@ && at == a,
        },
{
    let ghost blob = f.blob@;
    let ghost calls = f.calls@;
    let mut nb: Vec<u8> = Vec::new();
    let mut nc: Vec<(u32, usize)> = Vec::new();
    let mut ns: Vec<FramedSite> = Vec::new();
    let mut i: usize = 0;
    while i < decoded.len()
        invariant
            blob == f.blob@,
            calls == f.calls@,
            blob.len() + 4 * widened_count(bound@) + 9 <= u32::MAX,
            forall|j: int| 0 <= j < decoded@.len() ==> 1 <= (#[trigger] decoded@[j]).len
                && decoded@[j].addr + decoded@[j].len <= blob.len() && rewritable(calls, bound@, decoded@[j]),
            i <= decoded@.len(),
            rewrite_upto(blob, calls, bound@, fc_opcode, decoded@, i as int) matches Ok((b, c, s))
                && nb@ == b && nc@ == c && ns@ == s,
        decreases decoded@.len() - i,
    {
        let d = decoded[i];
        let ghost before = (nb@, nc@, ns@);
        proof {
            assert(d == decoded@[i as int]);
            lemma_widened_bound(bound@, d.addr as int);
        }
        let na = shift_offset(bound, d.addr);
        let hole = (na + 1) as u32;
        let start = d.addr as usize;
        let end = start + d.len as usize;
        match d.body {
            Body::Raw => {
                copy_slice(&mut nb, &f.blob, start, end);
            },
            Body::Instr { flow, opcode, operand } => {
                match find_bound(bound, d.addr) {
                    Some((c, true)) => {
                        copy_slice(&mut nb, &f.blob, start, end);
                        nc.push((hole, c));
                    },
                    Some((c, false)) => {
                        nb.push(fc_opcode);
                        let mut z: usize = 0;
                        let ghost mid = nb@;
                        while z < 8
                            invariant
                                z <= 8,
                                nb@ == mid + Seq::new(z as nat, |q: int| 0u8),
                            decreases 8 - z,
                        {
                            nb.push(0);
                            proof {
                                assert(nb@ =~= mid + Seq::new((z + 1) as nat, |q: int| 0u8));
                            }
                            z = z + 1;
                        }
                        nc.push((hole, c));
                        ns.push(FramedSite::Bound { addr: d.addr });
                    },
                    None => {
                        let plain = find_hole(&f.calls, d.addr + 1);
                        match operand {
                            Operand::FramedCall { table } => match flow {
                                Flow::Call => match plain {
                                    Some(c) => {
                                        copy_slice(&mut nb, &f.blob, start, end);
                                        nc.push((hole, c));
                                        ns.push(FramedSite::Raw { table_off: table });
                                    },
                                    None => {
                                        proof {
                                            lemma_rewrite_stop(blob, calls, bound@, fc_opcode, decoded@, i + 1, decoded@.len() as int);
                                        }
                                        return Err(LinkError::MalformedBlob { symbol: f.name.clone(), at: d.addr + 1 });
                                    },
                                },
                                _ => {
                                    copy_slice(&mut nb, &f.blob, start, end);
                                },
                            },
                            Operand::RelTarget(t) => match flow {
                                Flow::Call => {
                                    copy_slice(&mut nb, &f.blob, start, end);
                                    if let Some(c) = plain {
                                        nc.push((hole, c));
                                    }
                                },
                                Flow::Jump | Flow::Branch => match plain {
                                    Some(c) => {
                                        copy_slice(&mut nb, &f.blob, start, end);
                                        nc.push((hole, c));
                                    },
                                    None => {
                                        proof {
                                            lemma_widened_bound(bound@, t as int);
                                        }
                                        let nt: i64 = shift_offset(bound, t) as i64;
                                        let off: i64 = nt - (na as i64 + d.len as i64);
                                        if d.len == 2 {
                                            if -128 <= off && off <= 127 {
                                                nb.push(opcode);
                                                nb.push(off as u8);
                                            } else {
                                                proof {
                                                    lemma_rewrite_stop(blob, calls, bound@, fc_opcode, decoded@, i + 1, decoded@.len() as int);
                                                }
                                                return Err(LinkError::MalformedBlob { symbol: f.name.clone(), at: d.addr });
                                            }
                                        } else {
                                            nb.push(opcode);
                                            push_le32(&mut nb, off as u32);
                                        }
                                    },
                                },
                                _ => {
                                    copy_slice(&mut nb, &f.blob, start, end);
                                },
                            },
                            Operand::Other => {
                                copy_slice(&mut nb, &f.blob, start, end);
                            },
                        }
                    },
                }
            },
        }
        proof {
            let (b2, c2, s2) = item_rewrite(blob, calls, bound@, fc_opcode, d)->Ok_0;
            assert(nb@ =~= before.0 + b2);
            assert(nc@ =~= before.1 + c2);
            assert(ns@ =~= before.2 + s2);
        }
        i = i + 1;
    }
    Ok((nb, nc, ns))
}

} // verus!
