//! How several language services share one server. The capabilities they
//! advertise are merged: trigger characters and watched globs as an
//! ordered union, first occurrence first; semantic-token types
//! concatenated service after service; modifiers unioned, since each is a
//! bit of a 32-bit set. A service's tokens are then relocated into the
//! merged legend, and each opened document is bound to the service that
//! claims its language or its extension. A definition target whose text
//! is not at hand is placed by its positions alone.

use vstd::prelude::*;

use super::position::SemToken;
use super::server::same_text;
use super::types::{Position, Range};
use crate::diagnostics::{Pos, Span};
use crate::names::{holds_name, names_of};

verus! {

/// The characters of each string of each list.
pub open spec fn names_per_list(v: Seq<Vec<String>>) -> Seq<Seq<Seq<char>>> {
    v.map_values(|l: Vec<String>| names_of(l@))
}

/// The lists one after another.
pub open spec fn concat_all(s: Seq<Seq<Seq<char>>>) -> Seq<Seq<char>>
    decreases s.len(),
{
    if s.len() == 0 {
        seq![]
    } else {
        concat_all(s.drop_last()) + s.last()
    }
}

/// `s` without repeats: each text at its first occurrence, in order.
pub open spec fn first_seen(s: Seq<Seq<char>>) -> Seq<Seq<char>>
    decreases s.len(),
{
    if s.len() == 0 {
        seq![]
    } else {
        let d = first_seen(s.drop_last());
        if d.contains(s.last()) {
            d
        } else {
            d.push(s.last())
        }
    }
}

/// A repeat-free result holds each text of `s` and nothing else.
pub proof fn lemma_first_seen(s: Seq<Seq<char>>)
    ensures
        first_seen(s).no_duplicates(),
        forall|t: Seq<char>| first_seen(s).contains(t) <==> s.contains(t),
        first_seen(s).len() <= s.len(),
    decreases s.len(),
{
    if s.len() > 0 {
        let p = s.drop_last();
        lemma_first_seen(p);
        assert forall|t: Seq<char>| first_seen(s).contains(t) <==> s.contains(t) by {
            if s.contains(t) {
                let k = choose|k: int| 0 <= k < s.len() && s[k] == t;
                if k < s.len() - 1 {
                    assert(p[k] == t);
                }
            }
            if p.contains(t) {
                let k = choose|k: int| 0 <= k < p.len() && p[k] == t;
                assert(s[k] == t);
            }
            if first_seen(s).contains(t) && !first_seen(p).contains(t) {
                assert(first_seen(s).last() == t);
            }
            if !first_seen(p).contains(s.last()) {
                let d = first_seen(p);
                assert(d.push(s.last())[d.len() as int] == s.last());
                if first_seen(p).contains(t) {
                    let k = choose|k: int| 0 <= k < d.len() && d[k] == t;
                    assert(d.push(s.last())[k] == t);
                }
            }
        }
    }
}

/// The texts of all `lists`, each once, in the order first seen.
fn ordered_union(lists: &Vec<Vec<String>>) -> (r: Vec<String>)
    ensures
        names_of(r@) == first_seen(concat_all(names_per_list(lists@))),
{
    let ghost l = names_per_list(lists@);
    let mut out: Vec<String> = Vec::new();
    let mut i: usize = 0;
    proof {
        assert(l.take(0) =~= Seq::<Seq<Seq<char>>>::empty());
        assert(names_of(out@) =~= Seq::<Seq<char>>::empty());
    }
    while i < lists.len()
        invariant
            i <= lists@.len(),
            l == names_per_list(lists@),
            names_of(out@) == first_seen(concat_all(l.take(i as int))),
        decreases lists@.len() - i,
    {
        let items = &lists[i];
        let ghost before = concat_all(l.take(i as int));
        let mut j: usize = 0;
        proof {
            assert(before + names_of(items@).take(0) =~= before);
        }
        while j < items.len()
            invariant
                i < lists@.len(),
                *items == lists@[i as int],
                j <= items@.len(),
                names_of(out@) == first_seen(before + names_of(items@).take(j as int)),
            decreases items@.len() - j,
        {
            let ghost prev = before + names_of(items@).take(j as int);
            proof {
                assert(before + names_of(items@).take(j + 1) =~= prev.push(items@[j as int]@));
                assert(prev.push(items@[j as int]@).drop_last() =~= prev);
            }
            if !holds_name(&out, &items[j]) {
                out.push(items[j].clone());
                proof {
                    assert(names_of(out@) =~= first_seen(prev).push(items@[j as int]@));
                }
            }
            j = j + 1;
        }
        proof {
            assert(names_of(items@).take(items@.len() as int) =~= names_of(items@));
            assert(l.take(i + 1).drop_last() =~= l.take(i as int));
            assert(l.take(i + 1).last() == names_of(lists@[i as int]@));
        }
        i = i + 1;
    }
    proof {
        assert(l.take(lists@.len() as int) =~= l);
    }
    out
}

/// The services' trigger characters, each once, in the order first seen;
/// a lone service's set comes back as it is.
pub fn merge_trigger_characters(per_service: &Vec<Vec<String>>) -> (r: Vec<String>)
    ensures
        names_of(r@) == first_seen(concat_all(names_per_list(per_service@))),
{
    ordered_union(per_service)
}

/// The services' watched globs, each once, in the order first seen.
pub fn merge_watched_globs(per_service: &Vec<Vec<String>>) -> (r: Vec<String>)
    ensures
        names_of(r@) == first_seen(concat_all(names_per_list(per_service@))),
{
    ordered_union(per_service)
}

/// The first place `out` holds `t`, if it does.
fn position_of(out: &Vec<String>, t: &String) -> (r: Option<usize>)
    ensures
        match r {
            Some(k) => k < out@.len() && names_of(out@)[k as int] == t@
                && forall|j: int| 0 <= j < k ==> names_of(out@)[j] != t@,
            None => !names_of(out@).contains(t@),
        },
{
    let mut k: usize = 0;
    while k < out.len()
        invariant
            k <= out@.len(),
            forall|j: int| 0 <= j < k ==> out@[j]@ != t@,
        decreases out@.len() - k,
    {
        if out[k] == *t {
            return Some(k);
        }
        k = k + 1;
    }
    proof {
        if names_of(out@).contains(t@) {
            let j = choose|j: int| 0 <= j < names_of(out@).len() && names_of(out@)[j] == t@;
            assert(out@[j]@ == t@);
        }
    }
    None
}

/// Each service's token types, by their characters.
pub open spec fn legend_types(legends: Seq<(Vec<String>, Vec<String>)>) -> Seq<Seq<Seq<char>>> {
    legends.map_values(|l: (Vec<String>, Vec<String>)| names_of(l.0@))
}

/// Each service's token modifiers, by their characters.
pub open spec fn legend_modifiers(legends: Seq<(Vec<String>, Vec<String>)>) -> Seq<Seq<Seq<char>>> {
    legends.map_values(|l: (Vec<String>, Vec<String>)| names_of(l.1@))
}

/// The semantic-token legend of several services, and where each
/// service's own indices land in it.
pub struct MergedLegend {
    /// Every service's token types, service after service, repeats kept.
    pub token_types: Vec<String>,
    /// Every service's modifiers, each once, in the order first seen.
    pub token_modifiers: Vec<String>,
    /// Where each service's types start in `token_types`.
    pub type_offsets: Vec<u32>,
    /// For each service, the merged bit of each of its modifier bits.
    pub modifier_maps: Vec<Vec<u32>>,
}

/// Merge the services' legends, given as (token types, token modifiers)
/// per service. Types are concatenated, not deduplicated, so a service's
/// types are a block at its offset; modifiers are bits of one 32-bit set,
/// so two services naming the same modifier share its bit.
pub fn merge_legend(legends: &Vec<(Vec<String>, Vec<String>)>) -> (r: MergedLegend)
    requires
        concat_all(legend_types(legends@)).len() <= u32::MAX,
        concat_all(legend_modifiers(legends@)).len() <= u32::MAX,
    ensures
        names_of(r.token_types@) == concat_all(legend_types(legends@)),
        names_of(r.token_modifiers@) == first_seen(concat_all(legend_modifiers(legends@))),
        r.type_offsets@.len() == legends@.len(),
        forall|i: int| 0 <= i < legends@.len() ==>
            #[trigger] r.type_offsets@[i] == concat_all(legend_types(legends@).take(i)).len(),
        r.modifier_maps@.len() == legends@.len(),
        forall|i: int| 0 <= i < legends@.len() ==> (#[trigger] r.modifier_maps@[i])@.len() == legends@[i].1@.len(),
        forall|i: int, b: int| 0 <= i < legends@.len() && 0 <= b < legends@[i].1@.len() ==> {
            let m = (#[trigger] r.modifier_maps@[i]@[b]) as int;
            &&& m < r.token_modifiers@.len()
            &&& names_of(r.token_modifiers@)[m] == legends@[i].1@[b]@
        },
{
    let ghost lt = legend_types(legends@);
    let ghost lm = legend_modifiers(legends@);
    let mut token_types: Vec<String> = Vec::new();
    let mut token_modifiers: Vec<String> = Vec::new();
    let mut type_offsets: Vec<u32> = Vec::new();
    let mut modifier_maps: Vec<Vec<u32>> = Vec::new();
    let mut i: usize = 0;
    proof {
        assert(lt.take(0) =~= Seq::<Seq<Seq<char>>>::empty());
        assert(lm.take(0) =~= Seq::<Seq<Seq<char>>>::empty());
        assert(names_of(token_types@) =~= Seq::<Seq<char>>::empty());
        assert(names_of(token_modifiers@) =~= Seq::<Seq<char>>::empty());
    }
    while i < legends.len()
        invariant
            i <= legends@.len(),
            lt == legend_types(legends@),
            lm == legend_modifiers(legends@),
            concat_all(lt).len() <= u32::MAX,
            concat_all(lm).len() <= u32::MAX,
            names_of(token_types@) == concat_all(lt.take(i as int)),
            names_of(token_modifiers@) == first_seen(concat_all(lm.take(i as int))),
            type_offsets@.len() == i,
            forall|k: int| 0 <= k < i ==> #[trigger] type_offsets@[k] == concat_all(lt.take(k)).len(),
            modifier_maps@.len() == i,
            forall|k: int| 0 <= k < i ==> (#[trigger] modifier_maps@[k])@.len() == legends@[k].1@.len(),
            forall|k: int, b: int| 0 <= k < i && 0 <= b < legends@[k].1@.len() ==> {
                let m = (#[trigger] modifier_maps@[k]@[b]) as int;
                &&& m < token_modifiers@.len()
                &&& names_of(token_modifiers@)[m] == legends@[k].1@[b]@
            },
        decreases legends@.len() - i,
    {
        proof {
            lemma_concat_prefix_len(lt, i as int);
            lemma_concat_prefix_len(lm, i as int);
            lemma_first_seen(concat_all(lm.take(i as int)));
        }
        let types = &legends[i].0;
        let modifiers = &legends[i].1;
        type_offsets.push(token_types.len() as u32);
        let ghost types_before = concat_all(lt.take(i as int));
        let mut j: usize = 0;
        proof {
            assert(types_before + names_of(types@).take(0) =~= types_before);
        }
        while j < types.len()
            invariant
                i < legends@.len(),
                *types == legends@[i as int].0,
                j <= types@.len(),
                names_of(token_types@) == types_before + names_of(types@).take(j as int),
            decreases types@.len() - j,
        {
            let ghost old_types = token_types@;
            let name = types[j].clone();
            token_types.push(name);
            proof {
                assert(token_types@ == old_types.push(name));
                assert(names_of(types@).take(j + 1) =~= names_of(types@).take(j as int).push(types@[j as int]@));
                assert(names_of(token_types@) =~= names_of(old_types).push(name@));
            }
            j = j + 1;
        }
        let ghost mods_before = concat_all(lm.take(i as int));
        let ghost earlier = token_modifiers@;
        let mut map: Vec<u32> = Vec::new();
        let mut b: usize = 0;
        proof {
            assert(mods_before + names_of(modifiers@).take(0) =~= mods_before);
        }
        while b < modifiers.len()
            invariant
                i < legends@.len(),
                *modifiers == legends@[i as int].1,
                b <= modifiers@.len(),
                concat_all(lm).len() <= u32::MAX,
                mods_before + names_of(modifiers@) == concat_all(lm.take(i + 1)),
                concat_all(lm.take(i + 1)).len() <= concat_all(lm).len(),
                names_of(token_modifiers@) == first_seen(mods_before + names_of(modifiers@).take(b as int)),
                token_modifiers@.len() >= earlier.len(),
                token_modifiers@.take(earlier.len() as int) == earlier,
                map@.len() == b,
                forall|c: int| 0 <= c < b ==> {
                    let m = (#[trigger] map@[c]) as int;
                    &&& m < token_modifiers@.len()
                    &&& names_of(token_modifiers@)[m] == modifiers@[c]@
                },
            decreases modifiers@.len() - b,
        {
            let ghost prev = mods_before + names_of(modifiers@).take(b as int);
            proof {
                assert(mods_before + names_of(modifiers@).take(b + 1) =~= prev.push(modifiers@[b as int]@));
                assert(prev.push(modifiers@[b as int]@).drop_last() =~= prev);
                lemma_first_seen(prev);
                lemma_first_seen(mods_before + names_of(modifiers@));
                assert(prev.len() < (mods_before + names_of(modifiers@)).len());
            }
            let merged_bit: u32 = match position_of(&token_modifiers, &modifiers[b]) {
                Some(pos) => {
                    proof {
                        assert(names_of(token_modifiers@).contains(names_of(token_modifiers@)[pos as int]));
                    }
                    pos as u32
                },
                None => {
                    let ghost before_push = token_modifiers@;
                    token_modifiers.push(modifiers[b].clone());
                    proof {
                        assert(names_of(token_modifiers@) =~= first_seen(prev).push(modifiers@[b as int]@));
                        assert(token_modifiers@.take(earlier.len() as int) =~= before_push.take(earlier.len() as int));
                        assert forall|c: int| 0 <= c < b implies {
                            let m = (#[trigger] map@[c]) as int;
                            &&& m < token_modifiers@.len()
                            &&& names_of(token_modifiers@)[m] == modifiers@[c]@
                        } by {
                            assert(token_modifiers@[map@[c] as int] == before_push[map@[c] as int]);
                        }
                    }
                    (token_modifiers.len() - 1) as u32
                },
            };
            map.push(merged_bit);
            b = b + 1;
        }
        proof {
            assert(names_of(types@).take(types@.len() as int) =~= names_of(types@));
            assert(names_of(modifiers@).take(modifiers@.len() as int) =~= names_of(modifiers@));
            assert(lt.take(i + 1).drop_last() =~= lt.take(i as int));
            assert(lm.take(i + 1).drop_last() =~= lm.take(i as int));
            assert(lt.take(i + 1).last() == names_of(legends@[i as int].0@));
            assert forall|k: int, c: int| 0 <= k < i && 0 <= c < legends@[k].1@.len() implies {
                let m = (#[trigger] modifier_maps@[k]@[c]) as int;
                &&& m < token_modifiers@.len()
                &&& names_of(token_modifiers@)[m] == legends@[k].1@[c]@
            } by {
                let m = modifier_maps@[k]@[c] as int;
                assert(token_modifiers@.take(earlier.len() as int)[m] == earlier[m]);
            }
        }
        modifier_maps.push(map);
        i = i + 1;
    }
    proof {
        assert(lt.take(legends@.len() as int) =~= lt);
        assert(lm.take(legends@.len() as int) =~= lm);
    }
    MergedLegend { token_types, token_modifiers, type_offsets, modifier_maps }
}

/// A prefix of the lists is no longer, joined, than all of them, and one
/// more list adds its length.
pub proof fn lemma_concat_prefix_len(s: Seq<Seq<Seq<char>>>, k: int)
    requires
        0 <= k < s.len(),
    ensures
        concat_all(s.take(k + 1)) == concat_all(s.take(k)) + s[k],
        concat_all(s.take(k + 1)).len() <= concat_all(s).len(),
    decreases s.len() - k,
{
    assert(s.take(k + 1).drop_last() =~= s.take(k));
    if k + 1 < s.len() {
        lemma_concat_prefix_len(s, k + 1);
    } else {
        assert(s.take(k + 1) =~= s);
    }
}

/// Bit `j` of `x` is set.
pub open spec fn bit_set(x: u32, j: u32) -> bool {
    (x >> j) & 1u32 == 1u32
}

/// Some set bit of `mods` below `n` that `map` covers is sent to `j`.
pub open spec fn lands_on_below(mods: u32, map: Seq<u32>, j: u32, n: u32) -> bool {
    exists|b: u32| #![trigger bit_set(mods, b), map[b as int]]
        b < n && (b as int) < map.len() && bit_set(mods, b) && map[b as int] == j
}

/// Some set bit of `mods` that `map` covers is sent to `j`.
pub open spec fn lands_on(mods: u32, map: Seq<u32>, j: u32) -> bool {
    lands_on_below(mods, map, j, 32)
}

proof fn lemma_bit_or(a: u32, m: u32, j: u32)
    requires
        m < 32,
        j < 32,
    ensures
        bit_set(a | (1u32 << m), j) == (bit_set(a, j) || j == m),
{
    assert(((a | (1u32 << m)) >> j) & 1u32 == 1u32 <==> (((a >> j) & 1u32 == 1u32) || j == m)) by (bit_vector)
        requires
            m < 32,
            j < 32,
    ;
}

proof fn lemma_bit_test(x: u32, b: u32)
    requires
        b < 32,
    ensures
        (x & (1u32 << b) == 0) == !bit_set(x, b),
{
    assert((x & (1u32 << b) == 0) <==> !((x >> b) & 1u32 == 1u32)) by (bit_vector)
        requires
            b < 32,
    ;
}

proof fn lemma_no_bits(j: u32)
    requires
        j < 32,
    ensures
        !bit_set(0, j),
{
    assert(!((0u32 >> j) & 1u32 == 1u32)) by (bit_vector);
}

/// Relocate one service's token into the merged legend: its type moves
/// up by the service's offset, and each set modifier bit moves to the
/// merged bit the service's map names. A set bit the map does not cover
/// (beyond the modifiers the service declared) is dropped, since passing
/// it through would set an unrelated merged bit.
pub fn remap_token(token: SemToken, type_offset: u32, modifier_map: &[u32]) -> (r: SemToken)
    requires
        token.token_type + type_offset <= u32::MAX,
        forall|b: u32| #![trigger modifier_map@[b as int]]
            b < 32 && (b as int) < modifier_map@.len() && bit_set(token.modifiers, b) ==> modifier_map@[b as int] < 32,
    ensures
        r.span == token.span,
        r.token_type == token.token_type + type_offset,
        forall|j: u32| j < 32 ==> (bit_set(r.modifiers, j) <==> lands_on(token.modifiers, modifier_map@, j)),
{
    let mut modifiers: u32 = 0;
    let mut bit: u32 = 0;
    proof {
        assert forall|j: u32| j < 32 implies (bit_set(modifiers, j) <==> lands_on_below(token.modifiers, modifier_map@, j, 0)) by {
            lemma_no_bits(j);
        }
    }
    while bit < 32
        invariant
            bit <= 32,
            forall|b: u32| #![trigger modifier_map@[b as int]]
                b < 32 && (b as int) < modifier_map@.len() && bit_set(token.modifiers, b) ==> modifier_map@[b as int] < 32,
            forall|j: u32| j < 32 ==> (bit_set(modifiers, j) <==> lands_on_below(token.modifiers, modifier_map@, j, bit)),
        decreases 32 - bit,
    {
        let ghost before = modifiers;
        proof {
            lemma_bit_test(token.modifiers, bit);
        }
        if token.modifiers & (1u32 << bit) != 0 && (bit as usize) < modifier_map.len() {
            let merged_bit = modifier_map[bit as usize];
            modifiers = modifiers | (1u32 << merged_bit);
            proof {
                assert forall|j: u32| j < 32 implies (bit_set(modifiers, j) <==> lands_on_below(token.modifiers, modifier_map@, j, (bit + 1) as u32)) by {
                    lemma_bit_or(before, merged_bit, j);
                    if bit_set(modifiers, j) && !bit_set(before, j) {
                        assert(bit_set(token.modifiers, bit) && modifier_map@[bit as int] == j);
                    }
                    if lands_on_below(token.modifiers, modifier_map@, j, (bit + 1) as u32) && !lands_on_below(token.modifiers, modifier_map@, j, bit) {
                        let b = choose|b: u32| #![trigger bit_set(token.modifiers, b), modifier_map@[b as int]]
                            b < bit + 1 && (b as int) < modifier_map@.len() && bit_set(token.modifiers, b) && modifier_map@[b as int] == j;
                        assert(b == bit);
                    }
                }
            }
        } else {
            proof {
                assert forall|j: u32| j < 32 implies (bit_set(modifiers, j) <==> lands_on_below(token.modifiers, modifier_map@, j, (bit + 1) as u32)) by {
                    if lands_on_below(token.modifiers, modifier_map@, j, (bit + 1) as u32) && !lands_on_below(token.modifiers, modifier_map@, j, bit) {
                        let b = choose|b: u32| #![trigger bit_set(token.modifiers, b), modifier_map@[b as int]]
                            b < bit + 1 && (b as int) < modifier_map@.len() && bit_set(token.modifiers, b) && modifier_map@[b as int] == j;
                        assert(b == bit);
                    }
                    if lands_on_below(token.modifiers, modifier_map@, j, bit) {
                        let b = choose|b: u32| #![trigger bit_set(token.modifiers, b), modifier_map@[b as int]]
                            b < bit && (b as int) < modifier_map@.len() && bit_set(token.modifiers, b) && modifier_map@[b as int] == j;
                        assert(b < bit + 1);
                    }
                }
            }
        }
        bit = bit + 1;
    }
    SemToken { span: token.span, token_type: token.token_type + type_offset, modifiers }
}

/// The code of `c` with an ASCII capital taken to its small letter; other
/// characters keep their code.
pub open spec fn fold_code(c: char) -> u32 {
    let x = c as u32;
    if 65 <= x && x <= 90 {
        (x + 32) as u32
    } else {
        x
    }
}

/// The codes of `s`, ASCII capitals folded to small letters.
pub open spec fn folded(s: Seq<char>) -> Seq<u32> {
    s.map_values(|c: char| fold_code(c))
}

/// `t` ends `s`.
pub open spec fn has_suffix(s: Seq<u32>, t: Seq<u32>) -> bool {
    t.len() <= s.len() && s.subrange(s.len() - t.len(), s.len() as int) == t
}

/// A service, given as its language id and its file extensions, claims a
/// document by the extension ending its URI, ASCII case ignored.
pub open spec fn claims_extension(service: (String, Vec<String>), uri: Seq<char>) -> bool {
    exists|k: int| 0 <= k < service.1@.len() && has_suffix(folded(uri), folded(#[trigger] service.1@[k]@))
}

/// The service a document binds to: the first whose language id is the
/// document's, else the first claiming its extension, else the first.
pub open spec fn bound_service(services: Seq<(String, Vec<String>)>, uri: Seq<char>, language_id: Seq<char>) -> int {
    if exists|i: int| 0 <= i < services.len() && (#[trigger] services[i]).0@ == language_id {
        choose|i: int| 0 <= i < services.len() && (#[trigger] services[i]).0@ == language_id
            && forall|j: int| 0 <= j < i ==> services[j].0@ != language_id
    } else if exists|i: int| 0 <= i < services.len() && claims_extension(#[trigger] services[i], uri) {
        choose|i: int| 0 <= i < services.len() && claims_extension(#[trigger] services[i], uri)
            && forall|j: int| 0 <= j < i ==> !claims_extension(services[j], uri)
    } else {
        0
    }
}

fn fold_char(c: char) -> (r: u32)
    ensures
        r == fold_code(c),
{
    let x = c as u32;
    if 65 <= x && x <= 90 {
        x + 32
    } else {
        x
    }
}

/// Whether `ext` ends `uri`, ASCII case ignored.
fn ends_with_folded(uri: &str, ext: &str) -> (r: bool)
    ensures
        r == has_suffix(folded(uri@), folded(ext@)),
{
    let n = uri.unicode_len();
    let m = ext.unicode_len();
    if m > n {
        return false;
    }
    let ghost s = folded(uri@);
    let ghost t = folded(ext@);
    let base = n - m;
    let mut k: usize = 0;
    while k < m
        invariant
            n == uri@.len(),
            m == ext@.len(),
            m <= n,
            base == n - m,
            k <= m,
            s == folded(uri@),
            t == folded(ext@),
            forall|j: int| 0 <= j < k ==> s[base + j] == t[j],
        decreases m - k,
    {
        if fold_char(uri.get_char(base + k)) != fold_char(ext.get_char(k)) {
            proof {
                assert(s.subrange(base as int, n as int)[k as int] != t[k as int]);
            }
            return false;
        }
        k = k + 1;
    }
    proof {
        assert(s.subrange(base as int, n as int) =~= t);
    }
    true
}

/// Whether `service` claims `uri` by one of its extensions.
fn claims_by_extension(service: &(String, Vec<String>), uri: &str) -> (r: bool)
    ensures
        r == claims_extension(*service, uri@),
{
    let mut k: usize = 0;
    while k < service.1.len()
        invariant
            k <= service.1@.len(),
            forall|j: int| 0 <= j < k ==> !has_suffix(folded(uri@), folded(#[trigger] service.1@[j]@)),
        decreases service.1@.len() - k,
    {
        if ends_with_folded(uri, service.1[k].as_str()) {
            return true;
        }
        k = k + 1;
    }
    false
}

/// Choose the service a freshly opened document binds to, the services
/// given as (language id, extensions): the language id decides first, the
/// URI's extension (ASCII case ignored) next, and failing both the first
/// service takes it, so a document is always bound.
pub fn bind_service(services: &Vec<(String, Vec<String>)>, uri: &str, language_id: &str) -> (r: usize)
    ensures
        r == bound_service(services@, uri@, language_id@),
        services@.len() > 0 ==> r < services@.len(),
{
    let mut i: usize = 0;
    while i < services.len()
        invariant
            i <= services@.len(),
            forall|j: int| 0 <= j < i ==> (#[trigger] services@[j]).0@ != language_id@,
        decreases services@.len() - i,
    {
        if same_text(services[i].0.as_str(), language_id) {
            proof {
                let w = i as int;
                assert(services@[w].0@ == language_id@);
                let c = choose|c: int| 0 <= c < services@.len() && (#[trigger] services@[c]).0@ == language_id@
                    && forall|j: int| 0 <= j < c ==> services@[j].0@ != language_id@;
                if c < w {
                } else if c > w {
                    assert(services@[w].0@ != language_id@);
                }
            }
            return i;
        }
        i = i + 1;
    }
    let mut i: usize = 0;
    while i < services.len()
        invariant
            i <= services@.len(),
            forall|j: int| 0 <= j < services@.len() ==> (#[trigger] services@[j]).0@ != language_id@,
            forall|j: int| 0 <= j < i ==> !claims_extension(#[trigger] services@[j], uri@),
        decreases services@.len() - i,
    {
        if claims_by_extension(&services[i], uri) {
            proof {
                let w = i as int;
                let c = choose|c: int| 0 <= c < services@.len() && claims_extension(#[trigger] services@[c], uri@)
                    && forall|j: int| 0 <= j < c ==> !claims_extension(services@[j], uri@);
                if c > w {
                    assert(!claims_extension(services@[w], uri@));
                }
            }
            return i;
        }
        i = i + 1;
    }
    0
}

/// A 1-based position taken to a 0-based one by subtracting one from
/// each part, at least 0: characters counted as UTF-16 units, for a
/// target whose text is not at hand.
pub fn pos_to_position_identity(pos: Pos) -> (r: Position)
    ensures
        r.line == (if pos.line > 0 { pos.line - 1 } else { 0 }),
        r.character == (if pos.col > 0 { pos.col - 1 } else { 0 }),
{
    Position { line: pos.line.saturating_sub(1), character: pos.col.saturating_sub(1) }
}

/// A span taken to a range position by position, as
/// `pos_to_position_identity` does.
pub fn span_to_range_identity(span: Span) -> (r: Range)
    ensures
        r.start.line == (if span.start.line > 0 { span.start.line - 1 } else { 0 }),
        r.start.character == (if span.start.col > 0 { span.start.col - 1 } else { 0 }),
        r.end.line == (if span.end.line > 0 { span.end.line - 1 } else { 0 }),
        r.end.character == (if span.end.col > 0 { span.end.col - 1 } else { 0 }),
{
    Range { start: pos_to_position_identity(span.start), end: pos_to_position_identity(span.end) }
}

/// One list joined is itself.
proof fn lemma_concat_one(l: Seq<Seq<Seq<char>>>)
    requires
        l.len() == 1,
    ensures
        concat_all(l) == l[0],
{
    assert(l.drop_last() =~= Seq::<Seq<Seq<char>>>::empty());
    assert(concat_all(l.drop_last()) =~= Seq::<Seq<char>>::empty());
    assert(concat_all(l) =~= l[0]);
}

/// A list without repeats keeps every element, in order.
proof fn lemma_first_seen_distinct(s: Seq<Seq<char>>)
    requires
        s.no_duplicates(),
    ensures
        first_seen(s) == s,
    decreases s.len(),
{
    if s.len() > 0 {
        let p = s.drop_last();
        assert(p.no_duplicates());
        lemma_first_seen_distinct(p);
        if p.contains(s.last()) {
            let k = choose|k: int| 0 <= k < p.len() && p[k] == s.last();
            assert(s[k] == s[s.len() - 1]);
        }
        assert(p.push(s.last()) =~= s);
    }
}

/// One service alone: the merged lists are its own, when they hold no
/// repeats. Its types start at 0 and the merged legend is its legend.
pub proof fn law_single_service_capabilities(
    triggers: Vec<String>,
    globs: Vec<String>,
    legend: (Vec<String>, Vec<String>),
)
    requires
        names_of(triggers@).no_duplicates(),
        names_of(globs@).no_duplicates(),
        names_of(legend.1@).no_duplicates(),
    ensures
        first_seen(concat_all(names_per_list(seq![triggers]))) == names_of(triggers@),
        first_seen(concat_all(names_per_list(seq![globs]))) == names_of(globs@),
        concat_all(legend_types(seq![legend])) == names_of(legend.0@),
        first_seen(concat_all(legend_modifiers(seq![legend]))) == names_of(legend.1@),
        concat_all(legend_types(seq![legend]).take(0)).len() == 0,
{
    lemma_concat_one(names_per_list(seq![triggers]));
    lemma_concat_one(names_per_list(seq![globs]));
    lemma_concat_one(legend_types(seq![legend]));
    lemma_concat_one(legend_modifiers(seq![legend]));
    lemma_first_seen_distinct(names_of(triggers@));
    lemma_first_seen_distinct(names_of(globs@));
    lemma_first_seen_distinct(names_of(legend.1@));
    assert(legend_types(seq![legend]).take(0) =~= Seq::<Seq<Seq<char>>>::empty());
}

/// Relocating through the identity map leaves the modifier set as it is,
/// when the map covers every set bit: with offset 0 a lone service's
/// tokens go out unchanged.
pub proof fn law_identity_map_keeps_modifiers(mods: u32, map: Seq<u32>, relocated: u32)
    requires
        forall|b: int| 0 <= b < map.len() ==> #[trigger] map[b] == b,
        forall|b: u32| b < 32 && bit_set(mods, b) ==> (b as int) < map.len(),
        forall|j: u32| j < 32 ==> (bit_set(relocated, j) <==> lands_on(mods, map, j)),
    ensures
        relocated == mods,
{
    assert forall|j: u32| j < 32 implies (bit_set(relocated, j) == bit_set(mods, j)) by {
        if bit_set(mods, j) {
            assert(map[j as int] == j);
            assert(lands_on_below(mods, map, j, 32));
        }
        if lands_on(mods, map, j) {
            let b = choose|b: u32| #![trigger bit_set(mods, b), map[b as int]]
                b < 32 && (b as int) < map.len() && bit_set(mods, b) && map[b as int] == j;
            assert(map[b as int] == b);
        }
    }
    lemma_bits_determine(relocated, mods);
}

/// Two words agreeing on bits `k` and up agree shifted right by `k`.
proof fn lemma_high_bits_determine(a: u32, b: u32, k: u32)
    requires
        k < 32,
        forall|j: u32| k <= j < 32 ==> bit_set(a, j) == bit_set(b, j),
    ensures
        a >> k == b >> k,
    decreases 32 - k,
{
    assert(bit_set(a, k) == bit_set(b, k));
    let ak = (a >> k) & 1u32;
    let bk = (b >> k) & 1u32;
    assert(ak == bk) by (bit_vector)
        requires
            ((a >> k) & 1u32 == 1u32) == ((b >> k) & 1u32 == 1u32),
            ak == (a >> k) & 1u32,
            bk == (b >> k) & 1u32,
    ;
    if k == 31 {
        assert(a >> k == b >> k) by (bit_vector)
            requires
                k == 31,
                (a >> k) & 1u32 == (b >> k) & 1u32,
        ;
    } else {
        lemma_high_bits_determine(a, b, (k + 1) as u32);
        let k1 = (k + 1) as u32;
        assert(a >> k == b >> k) by (bit_vector)
            requires
                k < 31,
                k1 == k + 1,
                a >> k1 == b >> k1,
                (a >> k) & 1u32 == (b >> k) & 1u32,
        ;
    }
}

/// Two words with the same bits are the same word.
proof fn lemma_bits_determine(a: u32, b: u32)
    requires
        forall|j: u32| j < 32 ==> bit_set(a, j) == bit_set(b, j),
    ensures
        a == b,
{
    lemma_high_bits_determine(a, b, 0);
    assert(a == b) by (bit_vector)
        requires
            a >> 0u32 == b >> 0u32,
    ;
}

} // verus!
