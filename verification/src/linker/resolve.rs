//! Symbol resolution and reachability: build the user+library namespace
//! (user duplicates error, libraries first-wins and shadowed silently by
//! user definitions), then walk breadth-first from the entry symbol so
//! only reachable functions are linked in. Dead functions are dropped and
//! may reference anything, even names that don't exist. Reachability
//! follows both relocation call sites and declarative bound-call sites.
//!
//! A name may carry two definitions, the normal and volatile build columns
//! of one function, so the namespace maps each name to a [`ColumnPair`].
//! The program's volatile bit, read off the object that defines the entry
//! symbol, picks the column; a name that ships only the other one is
//! linked anyway and reported in `variant_fallbacks`.

use vstd::prelude::*;

use super::object::{
    BlobDebug, BlobVariant, BoundCall, MapPair, ObjectFile, Relocation, RoutineSig, Symbol,
    SymbolDef, TableFixup, TapeBinding,
};
use super::LinkError;
use crate::names::{insert_name, names_of, sorted_names};

verus! {

/// A definition site: (input index, counting the user objects then the
/// libraries; blob index within that input).
pub type Site = (usize, u32);

/// A blob's build column. An object carrying no column tags reads as
/// all-`Normal`.
pub open spec fn spec_variant_of(o: ObjectFile, blob: u32) -> BlobVariant {
    match o.variants {
        Some(tags) => if (blob as int) < tags@.len() { tags@[blob as int] } else { BlobVariant::Normal },
        None => BlobVariant::Normal,
    }
}

/// A blob's build column.
pub fn variant_of(object: &ObjectFile, blob: u32) -> (r: BlobVariant)
    ensures
        r == spec_variant_of(*object, blob),
{
    match &object.variants {
        Some(tags) => if (blob as usize) < tags.len() { tags[blob as usize] } else { BlobVariant::Normal },
        None => BlobVariant::Normal,
    }
}

/// One exported name's two build columns: the definition a normal build
/// links and the one a volatile build links. A `Both` blob fills both
/// slots with the same site.
#[derive(Debug, Clone, Copy)]
pub struct ColumnPair {
    pub normal: Option<Site>,
    pub volatile: Option<Site>,
}

/// The pair after claiming the slot(s) `tag` covers, or `None` when a
/// claimed slot is already filled.
pub open spec fn spec_fill(p: ColumnPair, tag: BlobVariant, site: Site) -> Option<ColumnPair> {
    let claims_normal = tag != BlobVariant::Volatile;
    let claims_volatile = tag != BlobVariant::Normal;
    if (claims_normal && p.normal is Some) || (claims_volatile && p.volatile is Some) {
        None
    } else {
        Some(
            ColumnPair {
                normal: if claims_normal { Some(site) } else { p.normal },
                volatile: if claims_volatile { Some(site) } else { p.volatile },
            },
        )
    }
}

/// The slot a program with this volatile bit reads.
pub open spec fn spec_slot(p: ColumnPair, volatile: bool) -> Option<Site> {
    if volatile { p.volatile } else { p.normal }
}

/// At least one slot is filled.
pub open spec fn pair_filled(p: ColumnPair) -> bool {
    p.normal is Some || p.volatile is Some
}

/// The site a program with this volatile bit links, and whether it fell
/// back to the other column.
pub open spec fn spec_pick(p: ColumnPair, volatile: bool) -> (Site, bool) {
    match spec_slot(p, volatile) {
        Some(site) => (site, false),
        None => (spec_slot(p, !volatile)->0, true),
    }
}

/// The input both columns came from.
pub open spec fn spec_owner(p: ColumnPair) -> usize {
    match (p.normal, p.volatile) {
        (Some(site), _) => site.0,
        (None, Some(site)) => site.0,
        (None, None) => 0,
    }
}

impl ColumnPair {
    /// The empty pair.
    pub fn empty() -> (r: ColumnPair)
        ensures
            r.normal is None,
            r.volatile is None,
    {
        ColumnPair { normal: None, volatile: None }
    }

    /// Claim the slot(s) `tag` covers; `Err` (and no change) when a
    /// claimed slot is already filled.
    pub fn fill(&mut self, tag: BlobVariant, site: Site) -> (r: Result<(), ()>)
        ensures
            match spec_fill(*old(self), tag, site) {
                Some(p) => r is Ok && *final(self) == p,
                None => r is Err && *final(self) == *old(self),
            },
    {
        let claims_normal = !matches!(tag, BlobVariant::Volatile);
        let claims_volatile = !matches!(tag, BlobVariant::Normal);
        if (claims_normal && self.normal.is_some()) || (claims_volatile && self.volatile.is_some()) {
            return Err(());
        }
        if claims_normal {
            self.normal = Some(site);
        }
        if claims_volatile {
            self.volatile = Some(site);
        }
        Ok(())
    }

    /// The input both columns came from.
    pub fn owner(&self) -> (r: usize)
        requires
            pair_filled(*self),
        ensures
            r == spec_owner(*self),
    {
        match self.normal {
            Some(site) => site.0,
            None => self.volatile.unwrap().0,
        }
    }

    /// The site a program with this volatile bit links, and whether it had
    /// to fall back to the other column because the wanted one is absent.
    pub fn pick(&self, volatile: bool) -> (r: (Site, bool))
        requires
            pair_filled(*self),
        ensures
            r == spec_pick(*self, volatile),
    {
        let slot = if volatile { self.volatile } else { self.normal };
        match slot {
            Some(site) => (site, false),
            None => {
                let other = if volatile { self.normal } else { self.volatile };
                (other.unwrap(), true)
            },
        }
    }
}

/// A namespace: names with their column pairs, in insertion order.
pub type NameTable = Seq<(Seq<char>, ColumnPair)>;

/// The first position of `name` in `ns`.
pub open spec fn ns_find(ns: NameTable, name: Seq<char>) -> Option<int>
    decreases ns.len(),
{
    if ns.len() == 0 {
        None
    } else {
        match ns_find(ns.drop_last(), name) {
            Some(i) => Some(i),
            None => if ns.last().0 == name { Some(ns.len() - 1) } else { None },
        }
    }
}

/// One object's exported names as column pairs, first-appearance order,
/// over its first `n` symbols. `strict` (user objects) reports a repeated
/// column as a duplicate (`Err` with the name); lenient (libraries) keeps
/// the first definition.
pub open spec fn columns_of(o: ObjectFile, oi: usize, strict: bool, n: int) -> Result<NameTable, Seq<char>>
    decreases n,
{
    if n <= 0 {
        Ok(seq![])
    } else {
        match columns_of(o, oi, strict, n - 1) {
            Err(e) => Err(e),
            Ok(cols) => {
                let s = o.symbols@[n - 1];
                match s.def {
                    SymbolDef::Defined { blob } => {
                        let site = (oi, blob);
                        let tag = spec_variant_of(o, blob);
                        match ns_find(cols, s.name@) {
                            None => Ok(cols.push((s.name@, spec_fill(ColumnPair { normal: None, volatile: None }, tag, site)->0))),
                            Some(i) => match spec_fill(cols[i].1, tag, site) {
                                Some(p) => Ok(cols.update(i, (s.name@, p))),
                                None => if strict { Err(s.name@) } else { Ok(cols) },
                            },
                        }
                    },
                    _ => Ok(cols),
                }
            },
        }
    }
}

/// Add a user object's columns: a name already present is a duplicate.
pub open spec fn add_user(ns: NameTable, cols: NameTable, m: int) -> Result<NameTable, Seq<char>>
    decreases m,
{
    if m <= 0 {
        Ok(ns)
    } else {
        match add_user(ns, cols, m - 1) {
            Err(e) => Err(e),
            Ok(t) => if ns_find(t, cols[m - 1].0) is Some { Err(cols[m - 1].0) } else { Ok(t.push(cols[m - 1])) },
        }
    }
}

/// Add a library's columns: first wins, silently.
pub open spec fn add_lib(ns: NameTable, cols: NameTable, m: int) -> NameTable
    decreases m,
{
    if m <= 0 {
        ns
    } else {
        let t = add_lib(ns, cols, m - 1);
        if ns_find(t, cols[m - 1].0) is Some { t } else { t.push(cols[m - 1]) }
    }
}

/// The namespace of the first `n` user objects, or the first duplicate.
pub open spec fn user_namespace(objects: Seq<ObjectFile>, n: int) -> Result<NameTable, Seq<char>>
    decreases n,
{
    if n <= 0 {
        Ok(seq![])
    } else {
        match user_namespace(objects, n - 1) {
            Err(e) => Err(e),
            Ok(ns) => match columns_of(objects[n - 1], (n - 1) as usize, true, objects[n - 1].symbols@.len() as int) {
                Err(e) => Err(e),
                Ok(cols) => add_user(ns, cols, cols.len() as int),
            },
        }
    }
}

/// The namespace after adding the first `n` libraries (input indices
/// start at `base`).
pub open spec fn lib_namespace(ns: NameTable, libraries: Seq<ObjectFile>, base: usize, n: int) -> NameTable
    decreases n,
{
    if n <= 0 {
        ns
    } else {
        let t = lib_namespace(ns, libraries, base, n - 1);
        let cols = columns_of(libraries[n - 1], (base + n - 1) as usize, false, libraries[n - 1].symbols@.len() as int)->Ok_0;
        add_lib(t, cols, cols.len() as int)
    }
}

/// The whole namespace: user objects, then libraries.
pub open spec fn namespace(objects: Seq<ObjectFile>, libraries: Seq<ObjectFile>) -> Result<NameTable, Seq<char>> {
    match user_namespace(objects, objects.len() as int) {
        Err(e) => Err(e),
        Ok(ns) => Ok(lib_namespace(ns, libraries, objects.len() as usize, libraries.len() as int)),
    }
}

/// Symbol `s` defines blob `b` (exported or local).
pub open spec fn symbol_defines(s: Symbol, b: u32) -> bool {
    match s.def {
        SymbolDef::Defined { blob } => blob == b,
        SymbolDef::Local { blob } => blob == b,
        SymbolDef::External => false,
    }
}

/// Some symbol of `o` defines blob `b`.
pub open spec fn defines(o: ObjectFile, b: u32) -> bool {
    exists|k: int| 0 <= k < o.symbols@.len() && symbol_defines(#[trigger] o.symbols@[k], b)
}

/// A pair with at least one slot, every filled slot a site of input `oi`
/// whose blob some symbol of `o` defines.
pub open spec fn pair_from(o: ObjectFile, oi: usize, p: ColumnPair) -> bool {
    &&& pair_filled(p)
    &&& (p.normal matches Some(s) ==> s.0 == oi && defines(o, s.1))
    &&& (p.volatile matches Some(s) ==> s.0 == oi && defines(o, s.1))
}

/// The name table a vector of entries denotes.
pub open spec fn table_view(v: Seq<(String, ColumnPair)>) -> NameTable {
    v.map_values(|e: (String, ColumnPair)| (e.0@, e.1))
}

/// `ns_find` finds the first entry carrying the name.
pub proof fn lemma_ns_find(ns: NameTable, name: Seq<char>)
    ensures
        match ns_find(ns, name) {
            Some(i) => 0 <= i < ns.len() && ns[i].0 == name && forall|j: int| 0 <= j < i ==> (#[trigger] ns[j]).0 != name,
            None => forall|j: int| 0 <= j < ns.len() ==> (#[trigger] ns[j]).0 != name,
        },
    decreases ns.len(),
{
    if ns.len() > 0 {
        lemma_ns_find(ns.drop_last(), name);
        assert forall|j: int| 0 <= j < ns.len() - 1 implies (#[trigger] ns[j]) == ns.drop_last()[j] by {}
    }
}

/// The position of `name` among the entries, if present (the first one).
fn find_entry(v: &Vec<(String, ColumnPair)>, name: &String) -> (r: Option<usize>)
    ensures
        match ns_find(table_view(v@), name@) {
            Some(i) => r matches Some(j) && j as int == i,
            None => r is None,
        },
{
    let mut i: usize = 0;
    while i < v.len()
        invariant
            i <= v@.len(),
            forall|j: int| 0 <= j < i ==> (#[trigger] table_view(v@)[j]).0 != name@,
        decreases v@.len() - i,
    {
        if v[i].0 == *name {
            proof {
                lemma_ns_find(table_view(v@), name@);
                assert(table_view(v@)[i as int].0 == name@);
            }
            return Some(i);
        }
        i = i + 1;
    }
    proof { lemma_ns_find(table_view(v@), name@); }
    None
}

/// A refusal among the first `n` symbols is the refusal over any longer
/// prefix.
proof fn lemma_columns_err_extends(o: ObjectFile, oi: usize, strict: bool, n: int, m: int)
    requires
        0 <= n <= m,
        columns_of(o, oi, strict, n) is Err,
    ensures
        columns_of(o, oi, strict, m) == columns_of(o, oi, strict, n),
    decreases m - n,
{
    if n < m {
        lemma_columns_err_extends(o, oi, strict, n, m - 1);
    }
}

/// One object's exported names as column pairs, in first-appearance
/// symbol order; local symbols are skipped. `strict` (user objects)
/// reports a repeated column as a duplicate; a library keeps the first
/// definition of a name silently.
fn object_columns(object: &ObjectFile, oi: usize, strict: bool) -> (r: Result<Vec<(String, ColumnPair)>, LinkError>)
    ensures
        match columns_of(*object, oi, strict, object.symbols@.len() as int) {
            Err(name) => r matches Err(LinkError::DuplicateSymbol(s)) && s@ == name,
            Ok(cols) => r matches Ok(v) && table_view(v@) == cols && forall|i: int| 0 <= i < cols.len() ==> pair_from(*object, oi, #[trigger] cols[i].1),
        },
{
    let mut cols: Vec<(String, ColumnPair)> = Vec::new();
    let mut k: usize = 0;
    assert(table_view(cols@) =~= Seq::<(Seq<char>, ColumnPair)>::empty());
    while k < object.symbols.len()
        invariant
            k <= object.symbols@.len(),
            columns_of(*object, oi, strict, k as int) == Ok::<NameTable, Seq<char>>(table_view(cols@)),
            forall|i: int| 0 <= i < cols@.len() ==> pair_from(*object, oi, #[trigger] table_view(cols@)[i].1),
        decreases object.symbols@.len() - k,
    {
        let symbol = &object.symbols[k];
        match symbol.def {
            SymbolDef::Defined { blob } => {
                let site: Site = (oi, blob);
                let tag = variant_of(object, blob);
                let name = symbol.name.clone();
                assert(name@ == symbol.name@);
                let found = find_entry(&cols, &name);
                proof { lemma_ns_find(table_view(cols@), name@); }
                match found {
                    None => {
                        let mut pair = ColumnPair::empty();
                        let _ = pair.fill(tag, site);
                        let ghost before = cols@;
                        proof { assert(symbol_defines(object.symbols@[k as int], blob)); }
                        cols.push((name, pair));
                        assert(table_view(cols@) =~= table_view(before).push((symbol.name@, pair)));
                        assert(object.symbols@[k as int] == *symbol);
                        assert(columns_of(*object, oi, strict, k as int) == Ok::<NameTable, Seq<char>>(table_view(before)));
                        assert(ns_find(table_view(before), symbol.name@) is None);
                        assert(columns_of(*object, oi, strict, k + 1) == Ok::<NameTable, Seq<char>>(table_view(cols@)));
                    },
                    Some(i) => {
                        let mut pair = cols[i].1;
                        let ghost before_pair = pair;
                        proof {
                            assert(object.symbols@[k as int] == *symbol);
                            assert(table_view(cols@)[i as int].1 == before_pair);
                            assert(ns_find(table_view(cols@), symbol.name@) == Some(i as int));
                        }
                        let filled = pair.fill(tag, site);
                        proof { assert(symbol_defines(object.symbols@[k as int], blob)); }
                        if filled.is_ok() {
                            let ghost before = cols@;
                            cols.set(i, (name, pair));
                            assert(table_view(cols@) =~= table_view(before).update(i as int, (symbol.name@, pair)));
                            assert(columns_of(*object, oi, strict, k + 1) == Ok::<NameTable, Seq<char>>(table_view(cols@)));
                        } else if strict {
                            proof { lemma_columns_err_extends(*object, oi, strict, k + 1, object.symbols@.len() as int); }
                            return Err(LinkError::DuplicateSymbol(name));
                        }
                    },
                }
            },
            _ => {},
        }
        k = k + 1;
    }
    Ok(cols)
}

/// Every filled slot of `p` is a site of `all` whose blob a symbol
/// defines, and at least one slot is filled.
pub open spec fn pair_ok(all: Seq<ObjectFile>, p: ColumnPair) -> bool {
    &&& pair_filled(p)
    &&& (p.normal matches Some(s) ==> s.0 < all.len() && defines(all[s.0 as int], s.1))
    &&& (p.volatile matches Some(s) ==> s.0 < all.len() && defines(all[s.0 as int], s.1))
}

/// Every entry of the table is [`pair_ok`].
pub open spec fn table_ok(all: Seq<ObjectFile>, ns: NameTable) -> bool {
    forall|i: int| 0 <= i < ns.len() ==> pair_ok(all, #[trigger] ns[i].1)
}

/// A lenient scan never refuses.
proof fn lemma_lenient_columns(o: ObjectFile, oi: usize, n: int)
    ensures
        columns_of(o, oi, false, n) is Ok,
    decreases n,
{
    if n > 0 {
        lemma_lenient_columns(o, oi, n - 1);
    }
}

proof fn lemma_add_user_err_extends(ns: NameTable, cols: NameTable, n: int, m: int)
    requires
        0 <= n <= m,
        add_user(ns, cols, n) is Err,
    ensures
        add_user(ns, cols, m) == add_user(ns, cols, n),
    decreases m - n,
{
    if n < m {
        lemma_add_user_err_extends(ns, cols, n, m - 1);
    }
}

proof fn lemma_user_ns_err_extends(objects: Seq<ObjectFile>, n: int, m: int)
    requires
        0 <= n <= m,
        user_namespace(objects, n) is Err,
    ensures
        user_namespace(objects, m) == user_namespace(objects, n),
    decreases m - n,
{
    if n < m {
        lemma_user_ns_err_extends(objects, n, m - 1);
    }
}

/// The namespace: user objects (a repeated name is a duplicate), then
/// libraries (first wins, silently). Each name maps to its column pair,
/// filled from one input.
fn build_namespace(objects: &[ObjectFile], libraries: &[ObjectFile]) -> (r: Result<Vec<(String, ColumnPair)>, LinkError>)
    requires
        objects@.len() + libraries@.len() <= usize::MAX,
    ensures
        match namespace(objects@, libraries@) {
            Err(name) => r matches Err(LinkError::DuplicateSymbol(s)) && s@ == name,
            Ok(ns) => r matches Ok(v) && table_view(v@) == ns && table_ok(objects@ + libraries@, ns),
        },
{
    let ghost all = objects@ + libraries@;
    let mut ns: Vec<(String, ColumnPair)> = Vec::new();
    assert(table_view(ns@) =~= Seq::<(Seq<char>, ColumnPair)>::empty());
    let mut oi: usize = 0;
    while oi < objects.len()
        invariant
            oi <= objects@.len(),
            all == objects@ + libraries@,
            user_namespace(objects@, oi as int) == Ok::<NameTable, Seq<char>>(table_view(ns@)),
            table_ok(all, table_view(ns@)),
        decreases objects@.len() - oi,
    {
        let cols = match object_columns(&objects[oi], oi, true) {
            Err(e) => {
                proof { lemma_user_ns_err_extends(objects@, oi + 1, objects@.len() as int); }
                return Err(e);
            },
            Ok(cols) => cols,
        };
        let ghost ns0 = table_view(ns@);
        let ghost cv = table_view(cols@);
        assert(all[oi as int] == objects@[oi as int]);
        let mut m: usize = 0;
        while m < cols.len()
            invariant
                m <= cols@.len(),
                oi < objects@.len(),
                all == objects@ + libraries@,
                all[oi as int] == objects@[oi as int],
                cv == table_view(cols@),
                forall|i: int| 0 <= i < cv.len() ==> pair_from(objects@[oi as int], oi, #[trigger] cv[i].1),
                add_user(ns0, cv, m as int) == Ok::<NameTable, Seq<char>>(table_view(ns@)),
                user_namespace(objects@, oi as int) == Ok::<NameTable, Seq<char>>(ns0),
                columns_of(objects@[oi as int], oi, true, objects@[oi as int].symbols@.len() as int) == Ok::<NameTable, Seq<char>>(cv),
                table_ok(all, table_view(ns@)),
            decreases cols@.len() - m,
        {
            let name = cols[m].0.clone();
            let pair = cols[m].1;
            assert(cv[m as int] == (name@, pair));
            if find_entry(&ns, &name).is_some() {
                proof {
                    lemma_add_user_err_extends(ns0, cv, m + 1, cv.len() as int);
                    assert(user_namespace(objects@, oi + 1) == Err::<NameTable, Seq<char>>(name@));
                    lemma_user_ns_err_extends(objects@, oi + 1, objects@.len() as int);
                }
                return Err(LinkError::DuplicateSymbol(name));
            }
            let ghost before = ns@;
            ns.push((name, pair));
            proof {
                assert(table_view(ns@) =~= table_view(before).push((name@, pair)));
                assert(pair_from(objects@[oi as int], oi, cv[m as int].1));
                assert(pair_ok(all, pair));
            }
            m = m + 1;
        }
        assert(cv.len() == cols@.len());
        oi = oi + 1;
    }
    let base = objects.len();
    let ghost ns_user = table_view(ns@);
    let mut li: usize = 0;
    while li < libraries.len()
        invariant
            li <= libraries@.len(),
            base == objects@.len(),
            base + libraries@.len() <= usize::MAX,
            all == objects@ + libraries@,
            lib_namespace(ns_user, libraries@, base, li as int) == table_view(ns@),
            table_ok(all, table_view(ns@)),
        decreases libraries@.len() - li,
    {
        let lidx = base + li;
        proof { lemma_lenient_columns(libraries@[li as int], lidx, libraries@[li as int].symbols@.len() as int); }
        let cols = match object_columns(&libraries[li], lidx, false) {
            Err(e) => {
                return Err(e);
            },
            Ok(cols) => cols,
        };
        let ghost ns0 = table_view(ns@);
        let ghost cv = table_view(cols@);
        assert(all[lidx as int] == libraries@[li as int]);
        let mut m: usize = 0;
        while m < cols.len()
            invariant
                m <= cols@.len(),
                li < libraries@.len(),
                all == objects@ + libraries@,
                lidx < all.len(),
                all[lidx as int] == libraries@[li as int],
                cv == table_view(cols@),
                forall|i: int| 0 <= i < cv.len() ==> pair_from(libraries@[li as int], lidx, #[trigger] cv[i].1),
                add_lib(ns0, cv, m as int) == table_view(ns@),
                table_ok(all, table_view(ns@)),
            decreases cols@.len() - m,
        {
            let name = cols[m].0.clone();
            let pair = cols[m].1;
            assert(cv[m as int] == (name@, pair));
            if find_entry(&ns, &name).is_none() {
                let ghost before = ns@;
                ns.push((name, pair));
                proof {
                    assert(table_view(ns@) =~= table_view(before).push((name@, pair)));
                    assert(pair_from(libraries@[li as int], lidx, cv[m as int].1));
                    assert(pair_ok(all, pair));
                }
            }
            m = m + 1;
        }
        assert(cv.len() == cols@.len());
        li = li + 1;
    }
    Ok(ns)
}

/// (offset, index) of the first `n` relocations in blob `b`, table order.
pub open spec fn reloc_keys(o: ObjectFile, b: u32, n: int) -> Seq<(u32, usize)>
    decreases n,
{
    if n <= 0 {
        seq![]
    } else {
        let t = reloc_keys(o, b, n - 1);
        let r = o.relocations@[n - 1];
        if r.blob == b { t.push((r.offset, (n - 1) as usize)) } else { t }
    }
}

/// (offset, index) of the first `n` bound calls in blob `b`, table order.
pub open spec fn bind_keys(o: ObjectFile, b: u32, n: int) -> Seq<(u32, usize)>
    decreases n,
{
    if n <= 0 {
        seq![]
    } else {
        let t = bind_keys(o, b, n - 1);
        let c = o.bound_calls@[n - 1];
        if c.blob == b { t.push((c.offset, (n - 1) as usize)) } else { t }
    }
}

/// Insert `x` after every entry whose offset is not above its own.
pub open spec fn key_insert(s: Seq<(u32, usize)>, x: (u32, usize)) -> Seq<(u32, usize)>
    decreases s.len(),
{
    if s.len() == 0 {
        seq![x]
    } else if s.last().0 <= x.0 {
        s.push(x)
    } else {
        key_insert(s.drop_last(), x).push(s.last())
    }
}

/// Stable sort by offset (equal offsets keep their order).
pub open spec fn key_sort(s: Seq<(u32, usize)>) -> Seq<(u32, usize)>
    decreases s.len(),
{
    if s.len() == 0 {
        s
    } else {
        key_insert(key_sort(s.drop_last()), s.last())
    }
}

/// A blob's relocations in offset order.
pub open spec fn sorted_relocs(o: ObjectFile, b: u32) -> Seq<(u32, usize)> {
    key_sort(reloc_keys(o, b, o.relocations@.len() as int))
}

/// A blob's bound calls in offset order.
pub open spec fn sorted_binds(o: ObjectFile, b: u32) -> Seq<(u32, usize)> {
    key_sort(bind_keys(o, b, o.bound_calls@.len() as int))
}

/// Inserting at the slot a backward scan finds is `key_insert`.
proof fn lemma_key_insert_at(s: Seq<(u32, usize)>, x: (u32, usize), j: int)
    requires
        0 <= j <= s.len(),
        forall|t: int| j <= t < s.len() ==> (#[trigger] s[t]).0 > x.0,
        j > 0 ==> s[j - 1].0 <= x.0,
    ensures
        key_insert(s, x) == s.insert(j, x),
    decreases s.len(),
{
    if s.len() == 0 {
        assert(s.insert(j, x) =~= seq![x]);
    } else if j == s.len() {
        assert(s.insert(j, x) =~= s.push(x));
    } else {
        let d = s.drop_last();
        assert forall|t: int| j <= t < d.len() implies (#[trigger] d[t]).0 > x.0 by {
            assert(d[t] == s[t]);
        }
        lemma_key_insert_at(d, x, j);
        assert(s.insert(j, x) =~= d.insert(j, x).push(s.last()));
    }
}

/// Insert `x` into `v` the way a stable sort by offset places it.
fn key_insert_exec(v: &mut Vec<(u32, usize)>, x: (u32, usize))
    ensures
        final(v)@ == key_insert(old(v)@, x),
{
    let mut j: usize = v.len();
    while j > 0 && v[j - 1].0 > x.0
        invariant
            j <= v@.len(),
            forall|t: int| j <= t < v@.len() ==> (#[trigger] v@[t]).0 > x.0,
        decreases j,
    {
        j = j - 1;
    }
    proof { lemma_key_insert_at(v@, x, j as int); }
    v.insert(j, x);
}

/// A blob's relocations as (offset, index), stably sorted by offset.
fn sorted_reloc_keys(o: &ObjectFile, b: u32) -> (r: Vec<(u32, usize)>)
    ensures
        r@ == sorted_relocs(*o, b),
{
    let mut keys: Vec<(u32, usize)> = Vec::new();
    let mut n: usize = 0;
    while n < o.relocations.len()
        invariant
            n <= o.relocations@.len(),
            keys@ == key_sort(reloc_keys(*o, b, n as int)),
        decreases o.relocations@.len() - n,
    {
        let r = o.relocations[n];
        if r.blob == b {
            proof {
                let t = reloc_keys(*o, b, n as int);
                assert(reloc_keys(*o, b, n + 1) == t.push((r.offset, n)));
                assert(t.push((r.offset, n)).drop_last() =~= t);
            }
            key_insert_exec(&mut keys, (r.offset, n));
        }
        n = n + 1;
    }
    keys
}

/// A blob's bound calls as (offset, index), stably sorted by offset.
fn sorted_bind_keys(o: &ObjectFile, b: u32) -> (r: Vec<(u32, usize)>)
    ensures
        r@ == sorted_binds(*o, b),
{
    let mut keys: Vec<(u32, usize)> = Vec::new();
    let mut n: usize = 0;
    while n < o.bound_calls.len()
        invariant
            n <= o.bound_calls@.len(),
            keys@ == key_sort(bind_keys(*o, b, n as int)),
        decreases o.bound_calls@.len() - n,
    {
        let c = &o.bound_calls[n];
        if c.blob == b {
            proof {
                let t = bind_keys(*o, b, n as int);
                assert(bind_keys(*o, b, n + 1) == t.push((c.offset, n)));
                assert(t.push((c.offset, n)).drop_last() =~= t);
            }
            key_insert_exec(&mut keys, (c.offset, n));
        }
        n = n + 1;
    }
    keys
}

/// The well-formedness resolution relies on: every defined or local blob
/// exists, every relocation and bound call names a symbol of its object,
/// and debug info (when present) covers every blob.
pub open spec fn object_wf(o: ObjectFile) -> bool {
    &&& forall|k: int| 0 <= k < o.symbols@.len() ==> match (#[trigger] o.symbols@[k]).def {
        SymbolDef::Defined { blob } => (blob as int) < o.blobs@.len(),
        SymbolDef::Local { blob } => (blob as int) < o.blobs@.len(),
        SymbolDef::External => true,
    }
    &&& forall|k: int| 0 <= k < o.relocations@.len() ==> ((#[trigger] o.relocations@[k]).symbol as int) < o.symbols@.len()
    &&& forall|k: int| 0 <= k < o.bound_calls@.len() ==> ((#[trigger] o.bound_calls@[k]).symbol as int) < o.symbols@.len()
    &&& (o.debug matches Some(d) ==> d@.len() >= o.blobs@.len())
}

/// Every input is well formed.
pub open spec fn inputs_wf(all: Seq<ObjectFile>) -> bool {
    forall|i: int| 0 <= i < all.len() ==> object_wf(#[trigger] all[i])
}

/// Where symbol `sym` of input `oi` resolves, and whether that fell back
/// to the other column: a local binds directly within its own object,
/// anything else goes through the namespace, where the program's bit
/// picks the column.
pub open spec fn spec_target(all: Seq<ObjectFile>, ns: NameTable, vol: bool, oi: int, sym: u32) -> Option<(Site, bool)> {
    let s = all[oi].symbols@[sym as int];
    match s.def {
        SymbolDef::Local { blob } => Some(((oi as usize, blob), false)),
        _ => match ns_find(ns, s.name@) {
            Some(i) => Some(spec_pick(ns[i].1, vol)),
            None => None,
        },
    }
}

/// A blob's relocation references in offset order: (offset, symbol,
/// relocation index).
pub open spec fn reloc_refs(o: ObjectFile, b: u32) -> Seq<(u32, u32, usize)> {
    sorted_relocs(o, b).map_values(|k: (u32, usize)| (k.0, o.relocations@[k.1 as int].symbol, k.1))
}

/// A blob's bound-call references in offset order: (offset, symbol,
/// bound-call index).
pub open spec fn bind_refs(o: ObjectFile, b: u32) -> Seq<(u32, u32, usize)> {
    sorted_binds(o, b).map_values(|k: (u32, usize)| (k.0, o.bound_calls@[k.1 as int].symbol, k.1))
}

/// The references of input `oi` that resolve, with their targets:
/// (offset, target site, record index).
pub open spec fn resolved(all: Seq<ObjectFile>, ns: NameTable, vol: bool, oi: int, refs: Seq<(u32, u32, usize)>) -> Seq<(u32, Site, usize)>
    decreases refs.len(),
{
    if refs.len() == 0 {
        seq![]
    } else {
        let t = resolved(all, ns, vol, oi, refs.drop_last());
        match spec_target(all, ns, vol, oi, refs.last().1) {
            Some(p) => t.push((refs.last().0, p.0, refs.last().2)),
            None => t,
        }
    }
}

/// The names among the references that resolve nowhere.
pub open spec fn missing(all: Seq<ObjectFile>, ns: NameTable, vol: bool, oi: int, refs: Seq<(u32, u32, usize)>) -> Set<Seq<char>>
    decreases refs.len(),
{
    if refs.len() == 0 {
        Set::empty()
    } else {
        let t = missing(all, ns, vol, oi, refs.drop_last());
        if spec_target(all, ns, vol, oi, refs.last().1) is None {
            t.insert(all[oi].symbols@[refs.last().1 as int].name@)
        } else {
            t
        }
    }
}

/// The names among the references that linked the other column.
pub open spec fn fell_back(all: Seq<ObjectFile>, ns: NameTable, vol: bool, oi: int, refs: Seq<(u32, u32, usize)>) -> Set<Seq<char>>
    decreases refs.len(),
{
    if refs.len() == 0 {
        Set::empty()
    } else {
        let t = fell_back(all, ns, vol, oi, refs.drop_last());
        if spec_target(all, ns, vol, oi, refs.last().1) matches Some(p) && p.1 {
            t.insert(all[oi].symbols@[refs.last().1 as int].name@)
        } else {
            t
        }
    }
}

/// The target sites of resolved references.
pub open spec fn sites_of(r: Seq<(u32, Site, usize)>) -> Seq<Site> {
    r.map_values(|e: (u32, Site, usize)| e.1)
}

/// The sites a site's references reach: relocations first, then bound
/// calls, each in offset order.
pub open spec fn callees(all: Seq<ObjectFile>, ns: NameTable, vol: bool, site: Site) -> Seq<Site> {
    let o = all[site.0 as int];
    sites_of(resolved(all, ns, vol, site.0 as int, reloc_refs(o, site.1)))
        + sites_of(resolved(all, ns, vol, site.0 as int, bind_refs(o, site.1)))
}

/// The names a site references that resolve nowhere.
pub open spec fn site_missing(all: Seq<ObjectFile>, ns: NameTable, vol: bool, site: Site) -> Set<Seq<char>> {
    let o = all[site.0 as int];
    missing(all, ns, vol, site.0 as int, reloc_refs(o, site.1)) + missing(all, ns, vol, site.0 as int, bind_refs(o, site.1))
}

/// The names a site references that linked the other column.
pub open spec fn site_fallbacks(all: Seq<ObjectFile>, ns: NameTable, vol: bool, site: Site) -> Set<Seq<char>> {
    let o = all[site.0 as int];
    fell_back(all, ns, vol, site.0 as int, reloc_refs(o, site.1)) + fell_back(all, ns, vol, site.0 as int, bind_refs(o, site.1))
}

/// The callee lists of the first `k` sites of `order`, concatenated.
pub open spec fn flat(all: Seq<ObjectFile>, ns: NameTable, vol: bool, order: Seq<Site>, k: int) -> Seq<Site>
    decreases k,
{
    if k <= 0 {
        seq![]
    } else {
        flat(all, ns, vol, order, k - 1) + callees(all, ns, vol, order[k - 1])
    }
}

/// The unresolvable names referenced by the first `k` sites of `order`.
pub open spec fn reached_missing(all: Seq<ObjectFile>, ns: NameTable, vol: bool, order: Seq<Site>, k: int) -> Set<Seq<char>>
    decreases k,
{
    if k <= 0 {
        Set::empty()
    } else {
        reached_missing(all, ns, vol, order, k - 1) + site_missing(all, ns, vol, order[k - 1])
    }
}

/// The fallback names referenced by the first `k` sites of `order`.
pub open spec fn reached_fallbacks(all: Seq<ObjectFile>, ns: NameTable, vol: bool, order: Seq<Site>, k: int) -> Set<Seq<char>>
    decreases k,
{
    if k <= 0 {
        Set::empty()
    } else {
        reached_fallbacks(all, ns, vol, order, k - 1) + site_fallbacks(all, ns, vol, order[k - 1])
    }
}

/// `s` with every repeat after the first occurrence removed.
pub open spec fn dedup(s: Seq<Site>) -> Seq<Site>
    decreases s.len(),
{
    if s.len() == 0 {
        seq![]
    } else {
        let d = dedup(s.drop_last());
        if d.contains(s.last()) { d } else { d.push(s.last()) }
    }
}

/// `order` is the breadth-first discovery order from `entry`: the
/// first-occurrence order of the entry followed by every reached site's
/// callees in turn, each site discovered by an earlier one.
pub open spec fn bfs_order(all: Seq<ObjectFile>, ns: NameTable, vol: bool, entry: Site, order: Seq<Site>) -> bool {
    &&& order.len() > 0
    &&& order[0] == entry
    &&& order == dedup(seq![entry] + flat(all, ns, vol, order, order.len() as int))
    &&& forall|j: int| 1 <= j < order.len() ==> #[trigger] discovered_before(all, ns, vol, order, j, j)
}

/// Site `order[j]` is a callee of one of the first `k` sites (before `j`).
pub open spec fn discovered_before(all: Seq<ObjectFile>, ns: NameTable, vol: bool, order: Seq<Site>, j: int, k: int) -> bool {
    exists|m: int| 0 <= m < j && m < k && #[trigger] callees(all, ns, vol, order[m]).contains(order[j])
}

/// A deduplicated sequence holds exactly what the original holds.
pub proof fn lemma_dedup_contains(s: Seq<Site>, x: Site)
    ensures
        dedup(s).contains(x) == s.contains(x),
    decreases s.len(),
{
    if s.len() > 0 {
        lemma_dedup_contains(s.drop_last(), x);
        let d = dedup(s.drop_last());
        if s.drop_last().contains(x) {
            let i = choose|i: int| 0 <= i < s.drop_last().len() && s.drop_last()[i] == x;
            assert(s[i] == x);
        }
        if s.contains(x) && !s.drop_last().contains(x) {
            let i = choose|i: int| 0 <= i < s.len() && s[i] == x;
            if i < s.len() - 1 {
                assert(s.drop_last()[i] == x);
            }
        }
        if !d.contains(s.last()) {
            assert(d.push(s.last())[d.len() as int] == s.last());
            if d.contains(x) {
                let i = choose|i: int| 0 <= i < d.len() && d[i] == x;
                assert(d.push(s.last())[i] == x);
            }
            if d.push(s.last()).contains(x) {
                let i = choose|i: int| 0 <= i < d.len() + 1 && d.push(s.last())[i] == x;
                if i < d.len() {
                    assert(d[i] == x);
                }
            }
        }
    }
}

/// The input at `oi` of the user objects followed by the libraries.
fn object_at<'a>(objects: &'a [ObjectFile], libraries: &'a [ObjectFile], oi: usize) -> (r: &'a ObjectFile)
    requires
        oi < objects@.len() + libraries@.len(),
    ensures
        *r == (objects@ + libraries@)[oi as int],
{
    if oi < objects.len() {
        &objects[oi]
    } else {
        &libraries[oi - objects.len()]
    }
}

/// Where symbol `sym` of input `oi` resolves (see [`spec_target`]).
fn resolve_target(
    objects: &[ObjectFile],
    libraries: &[ObjectFile],
    ns: &Vec<(String, ColumnPair)>,
    vol: bool,
    oi: usize,
    sym: u32,
) -> (r: Option<(Site, bool)>)
    requires
        oi < objects@.len() + libraries@.len(),
        (sym as int) < (objects@ + libraries@)[oi as int].symbols@.len(),
        table_ok(objects@ + libraries@, table_view(ns@)),
    ensures
        r == spec_target(objects@ + libraries@, table_view(ns@), vol, oi as int, sym),
{
    let object = object_at(objects, libraries, oi);
    let symbol = &object.symbols[sym as usize];
    match symbol.def {
        SymbolDef::Local { blob } => Some(((oi, blob), false)),
        _ => match find_entry(ns, &symbol.name) {
            Some(i) => {
                proof { lemma_ns_find(table_view(ns@), symbol.name@); }
                assert(pair_ok(objects@ + libraries@, table_view(ns@)[i as int].1));
                Some(ns[i].1.pick(vol))
            },
            None => None,
        },
    }
}

/// A site of `all` whose blob exists and some symbol defines.
pub open spec fn site_valid(all: Seq<ObjectFile>, s: Site) -> bool {
    &&& (s.0 as int) < all.len()
    &&& (s.1 as int) < all[s.0 as int].blobs@.len()
    &&& defines(all[s.0 as int], s.1)
}

/// The walk's bookkeeping: `index_of[oi][b]` is the order position of
/// site `(oi, b)` once reached, and every reached site is valid.
pub open spec fn walk_ok(all: Seq<ObjectFile>, order: Seq<Site>, index_of: Seq<Vec<Option<usize>>>) -> bool {
    &&& index_of.len() == all.len()
    &&& forall|oi: int| 0 <= oi < all.len() ==> (#[trigger] index_of[oi])@.len() == all[oi].blobs@.len()
    &&& forall|oi: int, b: int|
        0 <= oi < index_of.len() && 0 <= b < index_of[oi]@.len() && (#[trigger] index_of[oi]@[b]) is Some ==> {
            let i = index_of[oi]@[b]->0;
            &&& (i as int) < order.len()
            &&& order[i as int] == (oi as usize, b as u32)
        }
    &&& forall|i: int|
        0 <= i < order.len() ==> site_valid(all, #[trigger] order[i]) && index_of[order[i].0 as int]@[order[i].1 as int] == Some(i as usize)
}

/// Unreached slots in one row.
pub open spec fn count_none(row: Seq<Option<usize>>) -> nat
    decreases row.len(),
{
    if row.len() == 0 {
        0
    } else {
        count_none(row.drop_last()) + if row.last() is None { 1nat } else { 0nat }
    }
}

/// Unreached slots over all rows.
pub open spec fn unvisited(rows: Seq<Vec<Option<usize>>>) -> nat
    decreases rows.len(),
{
    if rows.len() == 0 {
        0
    } else {
        unvisited(rows.drop_last()) + count_none(rows.last()@)
    }
}

proof fn lemma_count_none_update(row: Seq<Option<usize>>, b: int, x: usize)
    requires
        0 <= b < row.len(),
        row[b] is None,
    ensures
        count_none(row.update(b, Some(x))) + 1 == count_none(row),
    decreases row.len(),
{
    let u = row.update(b, Some(x));
    if b < row.len() - 1 {
        assert(u.drop_last() =~= row.drop_last().update(b, Some(x)));
        lemma_count_none_update(row.drop_last(), b, x);
    } else {
        assert(u.drop_last() =~= row.drop_last());
    }
}

proof fn lemma_unvisited_update(rows: Seq<Vec<Option<usize>>>, oi: int, row: Vec<Option<usize>>)
    requires
        0 <= oi < rows.len(),
    ensures
        unvisited(rows.update(oi, row)) + count_none(rows[oi]@) == unvisited(rows) + count_none(row@),
    decreases rows.len(),
{
    let u = rows.update(oi, row);
    if oi < rows.len() - 1 {
        assert(u.drop_last() =~= rows.drop_last().update(oi, row));
        lemma_unvisited_update(rows.drop_last(), oi, row);
    } else {
        assert(u.drop_last() =~= rows.drop_last());
    }
}

/// The reached site's order position, minting one (and queueing the site)
/// the first time it is reached.
fn reach(Ghost(all): Ghost<Seq<ObjectFile>>, order: &mut Vec<Site>, index_of: &mut Vec<Vec<Option<usize>>>, callee: Site) -> (r: usize)
    requires
        walk_ok(all, old(order)@, old(index_of)@),
        site_valid(all, callee),
    ensures
        walk_ok(all, final(order)@, final(index_of)@),
        old(order)@.contains(callee) ==> final(order)@ == old(order)@ && final(index_of)@ == old(index_of)@,
        !old(order)@.contains(callee) ==> final(order)@ == old(order)@.push(callee)
            && unvisited(final(index_of)@) + 1 == unvisited(old(index_of)@),
        (r as int) < final(order)@.len(),
        final(order)@[r as int] == callee,
{
    let (oi, b) = callee;
    let bi = b as usize;
    assert(index_of@[oi as int]@.len() == all[oi as int].blobs@.len());
    match index_of[oi][bi] {
        Some(i) => {
            assert(index_of@[oi as int]@[bi as int] is Some);
            i
        },
        None => {
            proof {
                if order@.contains(callee) {
                    let i = choose|i: int| 0 <= i < order@.len() && order@[i] == callee;
                    assert(index_of@[order@[i].0 as int]@[order@[i].1 as int] == Some(i as usize));
                }
            }
            let i = order.len();
            let ghost old_rows = index_of@;
            let ghost old_order = order@;
            order.push(callee);
            let mut row: Vec<Option<usize>> = Vec::new();
            std::mem::swap(&mut row, &mut index_of[oi]);
            let ghost old_row = row@;
            assert(old_row == old_rows[oi as int]@);
            row.set(bi, Some(i));
            index_of.set(oi, row);
            proof {
                lemma_count_none_update(old_row, bi as int, i);
                lemma_unvisited_update(old_rows, oi as int, index_of@[oi as int]);
                assert(index_of@ =~= old_rows.update(oi as int, index_of@[oi as int]));
                assert forall|o2: int, b2: int|
                    0 <= o2 < index_of@.len() && 0 <= b2 < index_of@[o2]@.len() && (#[trigger] index_of@[o2]@[b2]) is Some implies {
                        let j = index_of@[o2]@[b2]->0;
                        &&& (j as int) < order@.len()
                        &&& order@[j as int] == (o2 as usize, b2 as u32)
                    } by {
                    if o2 == oi && b2 == bi {
                    } else {
                        assert(index_of@[o2]@[b2] == old_rows[o2]@[b2]);
                    }
                }
                assert forall|j: int| 0 <= j < order@.len() implies site_valid(all, #[trigger] order@[j])
                    && index_of@[order@[j].0 as int]@[order@[j].1 as int] == Some(j as usize) by {
                    if j < old_order.len() {
                        assert(order@[j] == old_order[j]);
                        assert(old_rows[old_order[j].0 as int]@[old_order[j].1 as int] == Some(j as usize));
                        assert(old_order[j] != callee);
                    }
                }
            }
            i
        },
    }
}

/// A defined blob of a well-formed object exists.
proof fn lemma_defines_in_range(o: ObjectFile, b: u32)
    requires
        object_wf(o),
        defines(o, b),
    ensures
        (b as int) < o.blobs@.len(),
{
    let k = choose|k: int| 0 <= k < o.symbols@.len() && symbol_defines(#[trigger] o.symbols@[k], b);
    assert(symbol_defines(o.symbols@[k], b));
}

/// Whatever a symbol resolves to is a valid site.
proof fn lemma_target_valid(all: Seq<ObjectFile>, ns: NameTable, vol: bool, oi: int, sym: u32)
    requires
        inputs_wf(all),
        table_ok(all, ns),
        0 <= oi < all.len(),
        all.len() <= usize::MAX,
        (sym as int) < all[oi].symbols@.len(),
    ensures
        spec_target(all, ns, vol, oi, sym) matches Some(p) ==> site_valid(all, p.0),
{
    let s = all[oi].symbols@[sym as int];
    assert(object_wf(all[oi]));
    match s.def {
        SymbolDef::Local { blob } => {
            assert(symbol_defines(all[oi].symbols@[sym as int], blob));
            lemma_defines_in_range(all[oi], blob);
        },
        _ => {
            if let Some(i) = ns_find(ns, s.name@) {
                lemma_ns_find(ns, s.name@);
                let p = ns[i].1;
                assert(pair_ok(all, p));
                let site = spec_pick(p, vol).0;
                assert(object_wf(all[site.0 as int]));
                lemma_defines_in_range(all[site.0 as int], site.1);
            }
        },
    }
}

/// Process one list of references of input `oi`: record unresolvable and
/// fallback names, reach every resolved target, and answer (offset, order
/// position, record index) per resolved reference.
fn visit_refs(
    objects: &[ObjectFile],
    libraries: &[ObjectFile],
    ns: &Vec<(String, ColumnPair)>,
    vol: bool,
    oi: usize,
    refs: &Vec<(u32, u32, usize)>,
    order: &mut Vec<Site>,
    index_of: &mut Vec<Vec<Option<usize>>>,
    unresolved: &mut Vec<String>,
    fallbacks: &mut Vec<String>,
    Ghost(base): Ghost<Seq<Site>>,
) -> (r: Vec<(u32, usize, usize)>)
    requires
        inputs_wf(objects@ + libraries@),
        table_ok(objects@ + libraries@, table_view(ns@)),
        (oi as int) < objects@.len() + libraries@.len(),
        objects@.len() + libraries@.len() <= usize::MAX,
        forall|j: int| 0 <= j < refs@.len() ==> ((#[trigger] refs@[j]).1 as int) < (objects@ + libraries@)[oi as int].symbols@.len(),
        walk_ok(objects@ + libraries@, old(order)@, old(index_of)@),
        old(order)@ == dedup(base),
        sorted_names(names_of(old(unresolved)@)),
        sorted_names(names_of(old(fallbacks)@)),
    ensures
        ({
            let all = objects@ + libraries@;
            let nsv = table_view(ns@);
            let res = resolved(all, nsv, vol, oi as int, refs@);
            &&& walk_ok(all, final(order)@, final(index_of)@)
            &&& final(order)@ == dedup(base + sites_of(res))
            &&& old(order)@.len() <= final(order)@.len()
            &&& forall|i: int| 0 <= i < old(order)@.len() ==> #[trigger] final(order)@[i] == old(order)@[i]
            &&& forall|i: int| old(order)@.len() <= i < final(order)@.len() ==> sites_of(res).contains(#[trigger] final(order)@[i])
            &&& unvisited(final(index_of)@) + final(order)@.len() == unvisited(old(index_of)@) + old(order)@.len()
            &&& sorted_names(names_of(final(unresolved)@))
            &&& sorted_names(names_of(final(fallbacks)@))
            &&& forall|x: Seq<char>| #[trigger] names_of(final(unresolved)@).contains(x) == (names_of(old(unresolved)@).contains(x) || missing(all, nsv, vol, oi as int, refs@).contains(x))
            &&& forall|x: Seq<char>| #[trigger] names_of(final(fallbacks)@).contains(x) == (names_of(old(fallbacks)@).contains(x) || fell_back(all, nsv, vol, oi as int, refs@).contains(x))
            &&& r@.len() == res.len()
            &&& forall|j: int| 0 <= j < r@.len() ==> {
                &&& (#[trigger] r@[j]).0 == res[j].0
                &&& r@[j].2 == res[j].2
                &&& (r@[j].1 as int) < final(order)@.len()
                &&& final(order)@[r@[j].1 as int] == res[j].1
            }
        }),
{
    let ghost all = objects@ + libraries@;
    let ghost nsv = table_view(ns@);
    let ghost order0 = order@;
    let ghost index0 = index_of@;
    let ghost unres0 = names_of(unresolved@);
    let ghost fb0 = names_of(fallbacks@);
    let object = object_at(objects, libraries, oi);
    let mut out: Vec<(u32, usize, usize)> = Vec::new();
    let mut j: usize = 0;
    proof {
        assert(refs@.take(0) =~= Seq::<(u32, u32, usize)>::empty());
        assert(base + sites_of(resolved(all, nsv, vol, oi as int, refs@.take(0))) =~= base);
    }
    while j < refs.len()
        invariant
            j <= refs@.len(),
            all == objects@ + libraries@,
            nsv == table_view(ns@),
            *object == all[oi as int],
            inputs_wf(all),
            table_ok(all, nsv),
            (oi as int) < all.len(),
            all.len() <= usize::MAX,
            forall|t: int| 0 <= t < refs@.len() ==> ((#[trigger] refs@[t]).1 as int) < all[oi as int].symbols@.len(),
            walk_ok(all, order@, index_of@),
            order@ == dedup(base + sites_of(resolved(all, nsv, vol, oi as int, refs@.take(j as int)))),
            order0.len() <= order@.len(),
            forall|i: int| 0 <= i < order0.len() ==> #[trigger] order@[i] == order0[i],
            forall|i: int| order0.len() <= i < order@.len() ==> sites_of(resolved(all, nsv, vol, oi as int, refs@.take(j as int))).contains(#[trigger] order@[i]),
            unvisited(index_of@) + order@.len() == unvisited(index0) + order0.len(),
            sorted_names(names_of(unresolved@)),
            sorted_names(names_of(fallbacks@)),
            forall|x: Seq<char>| #[trigger] names_of(unresolved@).contains(x) == (unres0.contains(x) || missing(all, nsv, vol, oi as int, refs@.take(j as int)).contains(x)),
            forall|x: Seq<char>| #[trigger] names_of(fallbacks@).contains(x) == (fb0.contains(x) || fell_back(all, nsv, vol, oi as int, refs@.take(j as int)).contains(x)),
            out@.len() == resolved(all, nsv, vol, oi as int, refs@.take(j as int)).len(),
            forall|t: int| 0 <= t < out@.len() ==> {
                let res = resolved(all, nsv, vol, oi as int, refs@.take(j as int));
                &&& (#[trigger] out@[t]).0 == res[t].0
                &&& out@[t].2 == res[t].2
                &&& (out@[t].1 as int) < order@.len()
                &&& order@[out@[t].1 as int] == res[t].1
            },
        decreases refs@.len() - j,
    {
        let (offset, sym, rec) = refs[j];
        let ghost pre = refs@.take(j as int);
        let ghost res_pre = resolved(all, nsv, vol, oi as int, pre);
        let ghost order_pre = order@;
        proof {
            assert(refs@.take(j + 1).drop_last() =~= pre);
            assert(refs@.take(j + 1).last() == (offset, sym, rec));
            lemma_target_valid(all, nsv, vol, oi as int, sym);
        }
        let t = resolve_target(objects, libraries, ns, vol, oi, sym);
        match t {
            None => {
                let name = object.symbols[sym as usize].name.clone();
                insert_name(unresolved, name);
                proof {
                    assert(resolved(all, nsv, vol, oi as int, refs@.take(j + 1)) == res_pre);
                }
            },
            Some((callee, fell)) => {
                if fell {
                    let name = object.symbols[sym as usize].name.clone();
                    insert_name(fallbacks, name);
                }
                let idx = reach(Ghost(all), order, index_of, callee);
                out.push((offset, idx, rec));
                proof {
                    let res2 = resolved(all, nsv, vol, oi as int, refs@.take(j + 1));
                    assert(res2 == res_pre.push((offset, callee, rec)));
                    assert(sites_of(res2) =~= sites_of(res_pre).push(callee));
                    assert(base + sites_of(res2) =~= (base + sites_of(res_pre)).push(callee));
                    assert((base + sites_of(res_pre)).push(callee).drop_last() =~= base + sites_of(res_pre));
                    lemma_dedup_contains(base + sites_of(res_pre), callee);
                    assert(sites_of(res2).contains(callee)) by {
                        assert(sites_of(res2)[sites_of(res_pre).len() as int] == callee);
                    }
                    assert forall|i: int| order0.len() <= i < order@.len() implies sites_of(res2).contains(#[trigger] order@[i]) by {
                        if i < order_pre.len() {
                            assert(order@[i] == order_pre[i]);
                            assert(sites_of(res_pre).contains(order_pre[i]));
                            let q = choose|q: int| 0 <= q < sites_of(res_pre).len() && sites_of(res_pre)[q] == order_pre[i];
                            assert(sites_of(res2)[q] == order_pre[i]);
                        }
                    }
                    assert forall|tt: int| 0 <= tt < out@.len() implies {
                        &&& (#[trigger] out@[tt]).0 == res2[tt].0
                        &&& out@[tt].2 == res2[tt].2
                        &&& (out@[tt].1 as int) < order@.len()
                        &&& order@[out@[tt].1 as int] == res2[tt].1
                    } by {
                        if tt < out@.len() - 1 {
                            assert(order@[out@[tt].1 as int] == order_pre[out@[tt].1 as int]);
                        }
                    }
                }
            },
        }
        j = j + 1;
    }
    proof {
        assert(refs@.take(refs@.len() as int) =~= refs@);
    }
    out
}

/// Stable insertion keeps only elements of the input and the new one.
proof fn lemma_key_insert_contains(s: Seq<(u32, usize)>, x: (u32, usize), e: (u32, usize))
    ensures
        key_insert(s, x).contains(e) ==> (s.contains(e) || e == x),
    decreases s.len(),
{
    if s.len() > 0 && s.last().0 > x.0 {
        let d = s.drop_last();
        lemma_key_insert_contains(d, x, e);
        let t = key_insert(d, x);
        if t.push(s.last()).contains(e) {
            let i = choose|i: int| 0 <= i < t.len() + 1 && t.push(s.last())[i] == e;
            if i < t.len() {
                assert(t[i] == e);
                if d.contains(e) {
                    let q = choose|q: int| 0 <= q < d.len() && d[q] == e;
                    assert(s[q] == e);
                }
            } else {
                assert(s[s.len() - 1] == e);
            }
        }
    } else if s.len() > 0 {
        if s.push(x).contains(e) {
            let i = choose|i: int| 0 <= i < s.len() + 1 && s.push(x)[i] == e;
            if i < s.len() {
                assert(s[i] == e);
            }
        }
    }
}

/// Every element of a sorted sequence comes from the input.
proof fn lemma_key_sort_contains(s: Seq<(u32, usize)>, e: (u32, usize))
    ensures
        key_sort(s).contains(e) ==> s.contains(e),
    decreases s.len(),
{
    if s.len() > 0 {
        let d = s.drop_last();
        lemma_key_sort_contains(d, e);
        lemma_key_insert_contains(key_sort(d), s.last(), e);
        if d.contains(e) {
            let q = choose|q: int| 0 <= q < d.len() && d[q] == e;
            assert(s[q] == e);
        }
    }
}

/// The indices a key list carries are below the count it was built from.
proof fn lemma_reloc_keys_bound(o: ObjectFile, b: u32, n: int, e: (u32, usize))
    requires
        0 <= n,
    ensures
        reloc_keys(o, b, n).contains(e) ==> (e.1 as int) < n,
    decreases n,
{
    if n > 0 {
        lemma_reloc_keys_bound(o, b, n - 1, e);
        let t = reloc_keys(o, b, n - 1);
        let u = t.push((o.relocations@[n - 1].offset, (n - 1) as usize));
        if u.contains(e) {
            let i = choose|i: int| 0 <= i < u.len() && #[trigger] u[i] == e;
            if i < t.len() {
                assert(t[i] == e);
            }
        }
    }
}

proof fn lemma_bind_keys_bound(o: ObjectFile, b: u32, n: int, e: (u32, usize))
    requires
        0 <= n,
    ensures
        bind_keys(o, b, n).contains(e) ==> (e.1 as int) < n,
    decreases n,
{
    if n > 0 {
        lemma_bind_keys_bound(o, b, n - 1, e);
        let t = bind_keys(o, b, n - 1);
        let u = t.push((o.bound_calls@[n - 1].offset, (n - 1) as usize));
        if u.contains(e) {
            let i = choose|i: int| 0 <= i < u.len() && #[trigger] u[i] == e;
            if i < t.len() {
                assert(t[i] == e);
            }
        }
    }
}

/// A blob's relocation references (see [`reloc_refs`]).
fn reloc_refs_exec(o: &ObjectFile, b: u32) -> (r: Vec<(u32, u32, usize)>)
    requires
        object_wf(*o),
    ensures
        r@ == reloc_refs(*o, b),
        forall|j: int| 0 <= j < r@.len() ==> ((#[trigger] r@[j]).1 as int) < o.symbols@.len(),
{
    let keys = sorted_reloc_keys(o, b);
    let mut out: Vec<(u32, u32, usize)> = Vec::new();
    let mut i: usize = 0;
    while i < keys.len()
        invariant
            i <= keys@.len(),
            keys@ == sorted_relocs(*o, b),
            object_wf(*o),
            out@ == reloc_refs(*o, b).take(i as int),
            forall|j: int| 0 <= j < out@.len() ==> ((#[trigger] out@[j]).1 as int) < o.symbols@.len(),
        decreases keys@.len() - i,
    {
        let k = keys[i];
        proof {
            assert(keys@.contains(k));
            lemma_key_sort_contains(reloc_keys(*o, b, o.relocations@.len() as int), k);
            lemma_reloc_keys_bound(*o, b, o.relocations@.len() as int, k);
        }
        let sym = o.relocations[k.1].symbol;
        assert(o.relocations@[k.1 as int].symbol == sym);
        out.push((k.0, sym, k.1));
        assert(out@ =~= reloc_refs(*o, b).take(i + 1));
        i = i + 1;
    }
    assert(reloc_refs(*o, b).take(keys@.len() as int) =~= reloc_refs(*o, b));
    out
}

/// A blob's bound-call references (see [`bind_refs`]).
fn bind_refs_exec(o: &ObjectFile, b: u32) -> (r: Vec<(u32, u32, usize)>)
    requires
        object_wf(*o),
    ensures
        r@ == bind_refs(*o, b),
        forall|j: int| 0 <= j < r@.len() ==> ((#[trigger] r@[j]).1 as int) < o.symbols@.len(),
        forall|j: int| 0 <= j < r@.len() ==> ((#[trigger] r@[j]).2 as int) < o.bound_calls@.len(),
{
    let keys = sorted_bind_keys(o, b);
    let mut out: Vec<(u32, u32, usize)> = Vec::new();
    let mut i: usize = 0;
    while i < keys.len()
        invariant
            i <= keys@.len(),
            keys@ == sorted_binds(*o, b),
            object_wf(*o),
            out@ == bind_refs(*o, b).take(i as int),
            forall|j: int| 0 <= j < out@.len() ==> ((#[trigger] out@[j]).1 as int) < o.symbols@.len(),
            forall|j: int| 0 <= j < out@.len() ==> ((#[trigger] out@[j]).2 as int) < o.bound_calls@.len(),
        decreases keys@.len() - i,
    {
        let k = keys[i];
        proof {
            assert(keys@.contains(k));
            lemma_key_sort_contains(bind_keys(*o, b, o.bound_calls@.len() as int), k);
            lemma_bind_keys_bound(*o, b, o.bound_calls@.len() as int, k);
        }
        let sym = o.bound_calls[k.1].symbol;
        assert(o.bound_calls@[k.1 as int].symbol == sym);
        out.push((k.0, sym, k.1));
        assert(out@ =~= bind_refs(*o, b).take(i + 1));
        i = i + 1;
    }
    assert(bind_refs(*o, b).take(keys@.len() as int) =~= bind_refs(*o, b));
    out
}

/// `calls` answers each resolved reference with the order position of its
/// target: (offset, position).
pub open spec fn calls_match(order: Seq<Site>, res: Seq<(u32, Site, usize)>, calls: Seq<(u32, usize)>) -> bool {
    &&& calls.len() == res.len()
    &&& forall|j: int| 0 <= j < calls.len() ==> {
        &&& (#[trigger] calls[j]).0 == res[j].0
        &&& (calls[j].1 as int) < order.len()
        &&& order[calls[j].1 as int] == res[j].1
    }
}

/// `binds` answers each resolved bound call: (offset, position, record).
pub open spec fn binds_match(order: Seq<Site>, res: Seq<(u32, Site, usize)>, binds: Seq<(u32, usize, usize)>) -> bool {
    &&& binds.len() == res.len()
    &&& forall|j: int| 0 <= j < binds.len() ==> {
        &&& (#[trigger] binds[j]).0 == res[j].0
        &&& binds[j].2 == res[j].2
        &&& (binds[j].1 as int) < order.len()
        &&& order[binds[j].1 as int] == res[j].1
    }
}

/// The per-site summaries over an order depend only on its first `k`
/// entries.
proof fn lemma_flat_prefix(all: Seq<ObjectFile>, ns: NameTable, vol: bool, o1: Seq<Site>, o2: Seq<Site>, k: int)
    requires
        0 <= k <= o1.len() <= o2.len(),
        forall|i: int| 0 <= i < o1.len() ==> #[trigger] o2[i] == o1[i],
    ensures
        flat(all, ns, vol, o1, k) == flat(all, ns, vol, o2, k),
        reached_missing(all, ns, vol, o1, k) == reached_missing(all, ns, vol, o2, k),
        reached_fallbacks(all, ns, vol, o1, k) == reached_fallbacks(all, ns, vol, o2, k),
    decreases k,
{
    if k > 0 {
        lemma_flat_prefix(all, ns, vol, o1, o2, k - 1);
        assert(o2[k - 1] == o1[k - 1]);
    }
}

/// A fresh reachability index: one empty slot per blob of every input.
fn fresh_index(objects: &[ObjectFile], libraries: &[ObjectFile]) -> (r: Vec<Vec<Option<usize>>>)
    requires
        objects@.len() + libraries@.len() <= usize::MAX,
    ensures
        walk_ok(objects@ + libraries@, seq![], r@),
        forall|oi: int, b: int| 0 <= oi < r@.len() && 0 <= b < r@[oi]@.len() ==> (#[trigger] r@[oi]@[b]) is None,
{
    let ghost all = objects@ + libraries@;
    let n = objects.len() + libraries.len();
    let mut rows: Vec<Vec<Option<usize>>> = Vec::new();
    let mut oi: usize = 0;
    while oi < n
        invariant
            oi <= n,
            n == all.len(),
            all == objects@ + libraries@,
            rows@.len() == oi,
            forall|o: int| 0 <= o < oi ==> (#[trigger] rows@[o])@.len() == all[o].blobs@.len(),
            forall|o: int, b: int| 0 <= o < rows@.len() && 0 <= b < rows@[o]@.len() ==> (#[trigger] rows@[o]@[b]) is None,
        decreases n - oi,
    {
        let object = object_at(objects, libraries, oi);
        let mut row: Vec<Option<usize>> = Vec::new();
        let mut b: usize = 0;
        while b < object.blobs.len()
            invariant
                b <= object.blobs@.len(),
                row@.len() == b,
                forall|t: int| 0 <= t < b ==> (#[trigger] row@[t]) is None,
            decreases object.blobs@.len() - b,
        {
            row.push(None);
            b = b + 1;
        }
        rows.push(row);
        oi = oi + 1;
    }
    rows
}

/// Breadth-first reachability from `entry`: the discovery order, each
/// reached site's call and bound-call answers, and the unresolvable and
/// fallback names its references produced (added to `fallbacks`).
fn walk(
    objects: &[ObjectFile],
    libraries: &[ObjectFile],
    ns: &Vec<(String, ColumnPair)>,
    vol: bool,
    entry: Site,
    fallbacks: Vec<String>,
) -> (r: (Vec<Site>, Vec<Vec<(u32, usize)>>, Vec<Vec<(u32, usize, usize)>>, Vec<String>, Vec<String>))
    requires
        inputs_wf(objects@ + libraries@),
        objects@.len() + libraries@.len() <= usize::MAX,
        table_ok(objects@ + libraries@, table_view(ns@)),
        site_valid(objects@ + libraries@, entry),
        sorted_names(names_of(fallbacks@)),
    ensures
        ({
            let all = objects@ + libraries@;
            let nsv = table_view(ns@);
            let (order, calls, binds, unresolved, fb) = r;
            &&& bfs_order(all, nsv, vol, entry, order@)
            &&& forall|i: int| 0 <= i < order@.len() ==> site_valid(all, #[trigger] order@[i])
            &&& forall|i: int, j: int| 0 <= i < j < order@.len() ==> #[trigger] order@[i] != #[trigger] order@[j]
            &&& calls@.len() == order@.len()
            &&& binds@.len() == order@.len()
            &&& forall|i: int| 0 <= i < order@.len() ==> calls_match(order@, resolved(all, nsv, vol, order@[i].0 as int, reloc_refs(all[order@[i].0 as int], order@[i].1)), #[trigger] calls@[i]@)
            &&& forall|i: int| 0 <= i < order@.len() ==> binds_match(order@, resolved(all, nsv, vol, order@[i].0 as int, bind_refs(all[order@[i].0 as int], order@[i].1)), #[trigger] binds@[i]@)
            &&& sorted_names(names_of(unresolved@))
            &&& sorted_names(names_of(fb@))
            &&& forall|x: Seq<char>| #[trigger] names_of(unresolved@).contains(x) == reached_missing(all, nsv, vol, order@, order@.len() as int).contains(x)
            &&& forall|x: Seq<char>| #[trigger] names_of(fb@).contains(x) == (names_of(fallbacks@).contains(x) || reached_fallbacks(all, nsv, vol, order@, order@.len() as int).contains(x))
        }),
{
    let ghost all = objects@ + libraries@;
    let ghost nsv = table_view(ns@);
    let ghost fb0 = names_of(fallbacks@);
    let mut fallbacks = fallbacks;
    let mut index_of = fresh_index(objects, libraries);
    let mut order: Vec<Site> = Vec::new();
    proof {
        assert(!order@.contains(entry));
    }
    let _ = reach(Ghost(all), &mut order, &mut index_of, entry);
    let ghost total = unvisited(index_of@) + order@.len();
    let mut unresolved: Vec<String> = Vec::new();
    let mut calls_by: Vec<Vec<(u32, usize)>> = Vec::new();
    let mut binds_by: Vec<Vec<(u32, usize, usize)>> = Vec::new();
    let mut p: usize = 0;
    proof {
        assert(order@ =~= seq![entry]);
        assert(dedup(seq![entry] + flat(all, nsv, vol, order@, 0)) =~= seq![entry]) by {
            assert(seq![entry] + flat(all, nsv, vol, order@, 0) =~= seq![entry]);
            assert(seq![entry].drop_last() =~= Seq::<Site>::empty());
            assert(dedup(Seq::<Site>::empty()) =~= Seq::<Site>::empty());
            assert(dedup(seq![entry].drop_last()) =~= Seq::<Site>::empty());
            assert(!Seq::<Site>::empty().contains(entry));
            assert(Seq::<Site>::empty().push(entry) =~= seq![entry]);
        }
        assert(names_of(unresolved@) =~= Seq::<Seq<char>>::empty());
    }
    while p < order.len()
        invariant
            all == objects@ + libraries@,
            nsv == table_view(ns@),
            inputs_wf(all),
            all.len() <= usize::MAX,
            table_ok(all, nsv),
            walk_ok(all, order@, index_of@),
            1 <= order@.len(),
            order@[0] == entry,
            p <= order@.len(),
            order@ == dedup(seq![entry] + flat(all, nsv, vol, order@, p as int)),
            forall|j: int| 1 <= j < order@.len() ==> #[trigger] discovered_before(all, nsv, vol, order@, j, p as int),
            unvisited(index_of@) + order@.len() == total,
            calls_by@.len() == p,
            binds_by@.len() == p,
            forall|i: int| 0 <= i < p ==> calls_match(order@, resolved(all, nsv, vol, order@[i].0 as int, reloc_refs(all[order@[i].0 as int], order@[i].1)), #[trigger] calls_by@[i]@),
            forall|i: int| 0 <= i < p ==> binds_match(order@, resolved(all, nsv, vol, order@[i].0 as int, bind_refs(all[order@[i].0 as int], order@[i].1)), #[trigger] binds_by@[i]@),
            sorted_names(names_of(unresolved@)),
            sorted_names(names_of(fallbacks@)),
            forall|x: Seq<char>| #[trigger] names_of(unresolved@).contains(x) == reached_missing(all, nsv, vol, order@, p as int).contains(x),
            forall|x: Seq<char>| #[trigger] names_of(fallbacks@).contains(x) == (fb0.contains(x) || reached_fallbacks(all, nsv, vol, order@, p as int).contains(x)),
        decreases total - p,
    {
        let site = order[p];
        let (oi, b) = site;
        let object = object_at(objects, libraries, oi);
        proof {
            assert(site_valid(all, order@[p as int]));
            assert(object_wf(all[oi as int]));
        }
        let ghost order_p = order@;
        let ghost base = seq![entry] + flat(all, nsv, vol, order@, p as int);
        let ghost res_r = resolved(all, nsv, vol, oi as int, reloc_refs(all[oi as int], b));
        let ghost res_b = resolved(all, nsv, vol, oi as int, bind_refs(all[oi as int], b));
        let ghost unres_p = names_of(unresolved@);
        let ghost fb_p = names_of(fallbacks@);
        let rrefs = reloc_refs_exec(object, b);
        let rcalls = visit_refs(objects, libraries, ns, vol, oi, &rrefs, &mut order, &mut index_of, &mut unresolved, &mut fallbacks, Ghost(base));
        let ghost order_r = order@;
        let brefs = bind_refs_exec(object, b);
        let bcalls = visit_refs(objects, libraries, ns, vol, oi, &brefs, &mut order, &mut index_of, &mut unresolved, &mut fallbacks, Ghost(base + sites_of(res_r)));
        let mut calls: Vec<(u32, usize)> = Vec::new();
        let mut j: usize = 0;
        while j < rcalls.len()
            invariant
                j <= rcalls@.len(),
                calls@.len() == j,
                forall|t: int| 0 <= t < j ==> (#[trigger] calls@[t]).0 == rcalls@[t].0 && calls@[t].1 == rcalls@[t].1,
            decreases rcalls@.len() - j,
        {
            calls.push((rcalls[j].0, rcalls[j].1));
            j = j + 1;
        }
        proof {
            let order2 = order@;
            assert(order2[p as int] == site);
            lemma_flat_prefix(all, nsv, vol, order_p, order2, p as int);
            assert(callees(all, nsv, vol, site) == sites_of(res_r) + sites_of(res_b));
            assert(flat(all, nsv, vol, order2, p + 1) == flat(all, nsv, vol, order2, p as int) + callees(all, nsv, vol, site));
            assert(seq![entry] + flat(all, nsv, vol, order2, p + 1) =~= base + sites_of(res_r) + sites_of(res_b));
            assert(site_missing(all, nsv, vol, site) == missing(all, nsv, vol, oi as int, reloc_refs(all[oi as int], b)) + missing(all, nsv, vol, oi as int, bind_refs(all[oi as int], b)));
            assert(site_fallbacks(all, nsv, vol, site) == fell_back(all, nsv, vol, oi as int, reloc_refs(all[oi as int], b)) + fell_back(all, nsv, vol, oi as int, bind_refs(all[oi as int], b)));
            assert forall|j2: int| 1 <= j2 < order2.len() implies #[trigger] discovered_before(all, nsv, vol, order2, j2, p + 1) by {
                if j2 < order_p.len() {
                    assert(discovered_before(all, nsv, vol, order_p, j2, p as int));
                    let m = choose|m: int| 0 <= m < j2 && m < p && #[trigger] callees(all, nsv, vol, order_p[m]).contains(order_p[j2]);
                    assert(order2[m] == order_p[m]);
                    assert(order2[j2] == order_p[j2]);
                    assert(callees(all, nsv, vol, order2[m]).contains(order2[j2]));
                } else {
                    let cs = callees(all, nsv, vol, order2[p as int]);
                    if j2 < order_r.len() {
                        assert(order2[j2] == order_r[j2]);
                        assert(sites_of(res_r).contains(order2[j2]));
                        let q = choose|q: int| 0 <= q < sites_of(res_r).len() && sites_of(res_r)[q] == order2[j2];
                        assert(cs[q] == order2[j2]);
                    } else {
                        assert(sites_of(res_b).contains(order2[j2]));
                        let q = choose|q: int| 0 <= q < sites_of(res_b).len() && sites_of(res_b)[q] == order2[j2];
                        assert(cs[sites_of(res_r).len() + q] == order2[j2]);
                    }
                    assert(cs.contains(order2[j2]));
                }
            }
            assert forall|i: int| 0 <= i < p implies calls_match(order2, resolved(all, nsv, vol, order2[i].0 as int, reloc_refs(all[order2[i].0 as int], order2[i].1)), #[trigger] calls_by@[i]@) by {
                assert(order2[i] == order_p[i]);
                let res = resolved(all, nsv, vol, order_p[i].0 as int, reloc_refs(all[order_p[i].0 as int], order_p[i].1));
                assert(calls_match(order_p, res, calls_by@[i]@));
                assert forall|t: int| 0 <= t < calls_by@[i]@.len() implies order2[(#[trigger] calls_by@[i]@[t]).1 as int] == res[t].1 by {
                    assert(order2[calls_by@[i]@[t].1 as int] == order_p[calls_by@[i]@[t].1 as int]);
                }
            }
            assert forall|i: int| 0 <= i < p implies binds_match(order2, resolved(all, nsv, vol, order2[i].0 as int, bind_refs(all[order2[i].0 as int], order2[i].1)), #[trigger] binds_by@[i]@) by {
                assert(order2[i] == order_p[i]);
                let res = resolved(all, nsv, vol, order_p[i].0 as int, bind_refs(all[order_p[i].0 as int], order_p[i].1));
                assert(binds_match(order_p, res, binds_by@[i]@));
                assert forall|t: int| 0 <= t < binds_by@[i]@.len() implies order2[(#[trigger] binds_by@[i]@[t]).1 as int] == res[t].1 by {
                    assert(order2[binds_by@[i]@[t].1 as int] == order_p[binds_by@[i]@[t].1 as int]);
                }
            }
            assert(calls_match(order2, res_r, calls@)) by {
                assert forall|t: int| 0 <= t < calls@.len() implies order2[(#[trigger] calls@[t]).1 as int] == res_r[t].1 by {
                    assert(order2[rcalls@[t].1 as int] == order_r[rcalls@[t].1 as int]);
                }
            }
        }
        calls_by.push(calls);
        binds_by.push(bcalls);
        proof {
            let order2 = order@;
            assert(calls_by@[p as int]@ == calls@);
            assert(binds_by@[p as int]@ == bcalls@);
            assert forall|i: int| 0 <= i < p + 1 implies calls_match(order2, resolved(all, nsv, vol, order2[i].0 as int, reloc_refs(all[order2[i].0 as int], order2[i].1)), #[trigger] calls_by@[i]@) by {
                if i == p {
                    assert(order2[i] == site);
                }
            }
            assert forall|i: int| 0 <= i < p + 1 implies binds_match(order2, resolved(all, nsv, vol, order2[i].0 as int, bind_refs(all[order2[i].0 as int], order2[i].1)), #[trigger] binds_by@[i]@) by {
                if i == p {
                    assert(order2[i] == site);
                }
            }
        }
        p = p + 1;
    }
    proof {
        assert forall|i: int, j: int| 0 <= i < j < order@.len() implies #[trigger] order@[i] != #[trigger] order@[j] by {
            assert(index_of@[order@[i].0 as int]@[order@[i].1 as int] == Some(i as usize));
            assert(index_of@[order@[j].0 as int]@[order@[j].1 as int] == Some(j as usize));
        }
        assert forall|j: int| 1 <= j < order@.len() implies #[trigger] discovered_before(all, nsv, vol, order@, j, j) by {
            assert(discovered_before(all, nsv, vol, order@, j, p as int));
            let m = choose|m: int| 0 <= m < j && m < p && #[trigger] callees(all, nsv, vol, order@[m]).contains(order@[j]);
        }
    }
    (order, calls_by, binds_by, unresolved, fallbacks)
}

/// The first symbol defining blob `b` (exported or local).
pub open spec fn def_find(syms: Seq<Symbol>, b: u32) -> Option<int>
    decreases syms.len(),
{
    if syms.len() == 0 {
        None
    } else {
        match def_find(syms.drop_last(), b) {
            Some(i) => Some(i),
            None => if symbol_defines(syms.last(), b) { Some(syms.len() - 1) } else { None },
        }
    }
}

proof fn lemma_def_find(syms: Seq<Symbol>, b: u32)
    ensures
        match def_find(syms, b) {
            Some(i) => 0 <= i < syms.len() && symbol_defines(syms[i], b) && forall|j: int| 0 <= j < i ==> !symbol_defines(#[trigger] syms[j], b),
            None => forall|j: int| 0 <= j < syms.len() ==> !symbol_defines(#[trigger] syms[j], b),
        },
    decreases syms.len(),
{
    if syms.len() > 0 {
        lemma_def_find(syms.drop_last(), b);
        assert forall|j: int| 0 <= j < syms.len() - 1 implies #[trigger] syms[j] == syms.drop_last()[j] by {}
    }
}

/// The name a linked function is known by: its first defining symbol's.
fn site_name(o: &ObjectFile, b: u32) -> (r: String)
    requires
        defines(*o, b),
    ensures
        def_find(o.symbols@, b) matches Some(k) && r@ == o.symbols@[k].name@,
{
    proof { lemma_def_find(o.symbols@, b); }
    let mut k: usize = 0;
    while k < o.symbols.len()
        invariant
            k <= o.symbols@.len(),
            defines(*o, b),
            forall|j: int| 0 <= j < k ==> !symbol_defines(#[trigger] o.symbols@[j], b),
        decreases o.symbols@.len() - k,
    {
        let hit = match o.symbols[k].def {
            SymbolDef::Defined { blob } => blob == b,
            SymbolDef::Local { blob } => blob == b,
            SymbolDef::External => false,
        };
        if hit {
            proof {
                lemma_def_find(o.symbols@, b);
                assert(symbol_defines(o.symbols@[k as int], b));
            }
            return o.symbols[k].name.clone();
        }
        k = k + 1;
    }
    proof {
        let k0 = choose|k0: int| 0 <= k0 < o.symbols@.len() && symbol_defines(#[trigger] o.symbols@[k0], b);
    }
    String::new()
}

/// A function the walk reached, with everything layout needs from its
/// defining object.
#[derive(Debug)]
pub struct FuncRef {
    pub name: String,
    pub blob: Vec<u8>,
    pub debug: Option<BlobDebug>,
    /// Call sites in blob order: (hole offset, callee position in the order).
    pub calls: Vec<(u32, usize)>,
    /// Declarative bound-call sites in blob order: (operand hole offset,
    /// callee position, the source record).
    pub bound: Vec<(u32, usize, BoundCall)>,
    /// The function's table bytes; empty when the object carries none.
    pub table: Vec<u8>,
    /// TableRef operand holes as (hole offset, offset into `table`).
    pub table_fixups: Vec<(u32, u32)>,
    pub signature: Option<RoutineSig>,
    /// The input that supplied the definition, counting the user objects
    /// then the libraries.
    pub origin: usize,
}

/// The outcome of resolution.
#[derive(Debug)]
pub struct Resolved {
    /// Functions in layout order: the entry first, then discovery order.
    pub order: Vec<FuncRef>,
    /// Sorted names whose winning definition went unreached.
    pub dropped: Vec<String>,
    /// Sorted names that linked the build column not matching the
    /// program's volatile bit, because the wanted one was absent.
    pub variant_fallbacks: Vec<String>,
}

/// The same debug records.
pub open spec fn same_debug(a: BlobDebug, b: BlobDebug) -> bool {
    a.labels@ == b.labels@ && a.lines@ == b.lines@
}

/// The same signature.
pub open spec fn same_sig(a: RoutineSig, b: RoutineSig) -> bool {
    a.arity == b.arity && a.cardinalities@ == b.cardinalities@
}

/// The same bound-call record.
pub open spec fn same_bound(a: BoundCall, b: BoundCall) -> bool {
    &&& a.blob == b.blob
    &&& a.offset == b.offset
    &&& a.symbol == b.symbol
    &&& a.binding@.len() == b.binding@.len()
    &&& forall|k: int| 0 <= k < a.binding@.len() ==> (#[trigger] a.binding@[k]).caller_tape == b.binding@[k].caller_tape
        && a.binding@[k].pairs@ == b.binding@[k].pairs@
}

/// A blob's table bytes (empty when the object carries none for it).
pub open spec fn table_of(o: ObjectFile, b: u32) -> Seq<u8> {
    match o.table_blobs {
        Some(t) => if (b as int) < t@.len() { t@[b as int]@ } else { seq![] },
        None => seq![],
    }
}

/// A blob's signature, when its object signs blobs.
pub open spec fn sig_of(o: ObjectFile, b: u32) -> Option<RoutineSig> {
    match o.signatures {
        Some(s) => if (b as int) < s@.len() { Some(s@[b as int]) } else { None },
        None => None,
    }
}

/// The first `n` table fixups of blob `b`, as (offset, table offset).
pub open spec fn fixups_of(o: ObjectFile, b: u32, n: int) -> Seq<(u32, u32)>
    decreases n,
{
    if n <= 0 {
        seq![]
    } else {
        let t = fixups_of(o, b, n - 1);
        let f = o.table_fixups@[n - 1];
        if f.blob == b { t.push((f.offset, f.table_offset)) } else { t }
    }
}

/// `bound` answers each resolved bound call of `o` with the callee's
/// order position and a copy of its record.
pub open spec fn bound_match(order: Seq<Site>, o: ObjectFile, res: Seq<(u32, Site, usize)>, bound: Seq<(u32, usize, BoundCall)>) -> bool {
    &&& bound.len() == res.len()
    &&& forall|j: int| 0 <= j < bound.len() ==> {
        &&& (#[trigger] bound[j]).0 == res[j].0
        &&& (bound[j].1 as int) < order.len()
        &&& order[bound[j].1 as int] == res[j].1
        &&& same_bound(bound[j].2, o.bound_calls@[res[j].2 as int])
    }
}

/// `f` is the linked function at position `i` of `order`.
pub open spec fn func_ok(all: Seq<ObjectFile>, ns: NameTable, vol: bool, order: Seq<Site>, i: int, f: FuncRef) -> bool {
    let site = order[i];
    let o = all[site.0 as int];
    let b = site.1;
    &&& def_find(o.symbols@, b) matches Some(k) && f.name@ == o.symbols@[k].name@
    &&& f.blob@ == o.blobs@[b as int]@
    &&& match o.debug {
        None => f.debug is None,
        Some(d) => f.debug matches Some(fd) && same_debug(fd, d@[b as int]),
    }
    &&& calls_match(order, resolved(all, ns, vol, site.0 as int, reloc_refs(o, b)), f.calls@)
    &&& bound_match(order, o, resolved(all, ns, vol, site.0 as int, bind_refs(o, b)), f.bound@)
    &&& f.table@ == table_of(o, b)
    &&& f.table_fixups@ == fixups_of(o, b, o.table_fixups@.len() as int)
    &&& match sig_of(o, b) {
        None => f.signature is None,
        Some(s) => f.signature matches Some(fs) && same_sig(fs, s),
    }
    &&& f.origin == site.0
}

fn copy_bytes(v: &Vec<u8>) -> (r: Vec<u8>)
    ensures
        r@ == v@,
{
    let mut r: Vec<u8> = Vec::new();
    let mut i: usize = 0;
    while i < v.len()
        invariant
            i <= v@.len(),
            r@ == v@.take(i as int),
        decreases v@.len() - i,
    {
        r.push(v[i]);
        assert(r@ =~= v@.take(i + 1));
        i = i + 1;
    }
    assert(v@.take(v@.len() as int) =~= v@);
    r
}

fn copy_debug(d: &BlobDebug) -> (r: BlobDebug)
    ensures
        same_debug(r, *d),
{
    let mut labels: Vec<(String, u32)> = Vec::new();
    let mut i: usize = 0;
    while i < d.labels.len()
        invariant
            i <= d.labels@.len(),
            labels@ == d.labels@.take(i as int),
        decreases d.labels@.len() - i,
    {
        let name = d.labels[i].0.clone();
        labels.push((name, d.labels[i].1));
        assert(labels@ =~= d.labels@.take(i + 1));
        i = i + 1;
    }
    let mut lines: Vec<(u32, u32)> = Vec::new();
    let mut j: usize = 0;
    while j < d.lines.len()
        invariant
            j <= d.lines@.len(),
            lines@ == d.lines@.take(j as int),
        decreases d.lines@.len() - j,
    {
        lines.push(d.lines[j]);
        assert(lines@ =~= d.lines@.take(j + 1));
        j = j + 1;
    }
    assert(d.labels@.take(d.labels@.len() as int) =~= d.labels@);
    assert(d.lines@.take(d.lines@.len() as int) =~= d.lines@);
    BlobDebug { labels, lines }
}

fn copy_sig(s: &RoutineSig) -> (r: RoutineSig)
    ensures
        same_sig(r, *s),
{
    let mut cards: Vec<u32> = Vec::new();
    let mut i: usize = 0;
    while i < s.cardinalities.len()
        invariant
            i <= s.cardinalities@.len(),
            cards@ == s.cardinalities@.take(i as int),
        decreases s.cardinalities@.len() - i,
    {
        cards.push(s.cardinalities[i]);
        assert(cards@ =~= s.cardinalities@.take(i + 1));
        i = i + 1;
    }
    assert(s.cardinalities@.take(s.cardinalities@.len() as int) =~= s.cardinalities@);
    RoutineSig { arity: s.arity, cardinalities: cards }
}

fn copy_pairs(v: &Vec<MapPair>) -> (r: Vec<MapPair>)
    ensures
        r@ == v@,
{
    let mut r: Vec<MapPair> = Vec::new();
    let mut i: usize = 0;
    while i < v.len()
        invariant
            i <= v@.len(),
            r@ == v@.take(i as int),
        decreases v@.len() - i,
    {
        r.push(v[i]);
        assert(r@ =~= v@.take(i + 1));
        i = i + 1;
    }
    assert(v@.take(v@.len() as int) =~= v@);
    r
}

fn copy_bound(c: &BoundCall) -> (r: BoundCall)
    ensures
        same_bound(r, *c),
{
    let mut binding: Vec<TapeBinding> = Vec::new();
    let mut k: usize = 0;
    while k < c.binding.len()
        invariant
            k <= c.binding@.len(),
            binding@.len() == k,
            forall|t: int| 0 <= t < k ==> (#[trigger] binding@[t]).caller_tape == c.binding@[t].caller_tape
                && binding@[t].pairs@ == c.binding@[t].pairs@,
        decreases c.binding@.len() - k,
    {
        let tb = &c.binding[k];
        binding.push(TapeBinding { caller_tape: tb.caller_tape, pairs: copy_pairs(&tb.pairs) });
        k = k + 1;
    }
    BoundCall { blob: c.blob, offset: c.offset, symbol: c.symbol, binding }
}

/// A blob's table fixups as (offset, table offset), table order.
fn fixups_exec(o: &ObjectFile, b: u32) -> (r: Vec<(u32, u32)>)
    ensures
        r@ == fixups_of(*o, b, o.table_fixups@.len() as int),
{
    let mut r: Vec<(u32, u32)> = Vec::new();
    let mut n: usize = 0;
    while n < o.table_fixups.len()
        invariant
            n <= o.table_fixups@.len(),
            r@ == fixups_of(*o, b, n as int),
        decreases o.table_fixups@.len() - n,
    {
        let f = o.table_fixups[n];
        if f.blob == b {
            r.push((f.offset, f.table_offset));
        }
        n = n + 1;
    }
    r
}

/// The linked function at `site`, given its call and bound-call answers.
fn func_at(o: &ObjectFile, site: Site, calls: &Vec<(u32, usize)>, binds: &Vec<(u32, usize, usize)>) -> (r: FuncRef)
    requires
        object_wf(*o),
        (site.1 as int) < o.blobs@.len(),
        defines(*o, site.1),
        forall|j: int| 0 <= j < binds@.len() ==> ((#[trigger] binds@[j]).2 as int) < o.bound_calls@.len(),
    ensures
        def_find(o.symbols@, site.1) matches Some(k) && r.name@ == o.symbols@[k].name@,
        r.blob@ == o.blobs@[site.1 as int]@,
        match o.debug {
            None => r.debug is None,
            Some(d) => r.debug matches Some(fd) && same_debug(fd, d@[site.1 as int]),
        },
        r.calls@ == calls@,
        r.bound@.len() == binds@.len(),
        forall|j: int| 0 <= j < binds@.len() ==> (#[trigger] r.bound@[j]).0 == binds@[j].0 && r.bound@[j].1 == binds@[j].1
            && same_bound(r.bound@[j].2, o.bound_calls@[binds@[j].2 as int]),
        r.table@ == table_of(*o, site.1),
        r.table_fixups@ == fixups_of(*o, site.1, o.table_fixups@.len() as int),
        match sig_of(*o, site.1) {
            None => r.signature is None,
            Some(s) => r.signature matches Some(fs) && same_sig(fs, s),
        },
        r.origin == site.0,
{
    let b = site.1;
    let bi = b as usize;
    let name = site_name(o, b);
    let blob = copy_bytes(&o.blobs[bi]);
    let debug = match &o.debug {
        Some(d) => Some(copy_debug(&d[bi])),
        None => None,
    };
    let mut call_list: Vec<(u32, usize)> = Vec::new();
    let mut i: usize = 0;
    while i < calls.len()
        invariant
            i <= calls@.len(),
            call_list@ == calls@.take(i as int),
        decreases calls@.len() - i,
    {
        call_list.push(calls[i]);
        assert(call_list@ =~= calls@.take(i + 1));
        i = i + 1;
    }
    assert(calls@.take(calls@.len() as int) =~= calls@);
    let mut bound: Vec<(u32, usize, BoundCall)> = Vec::new();
    let mut j: usize = 0;
    while j < binds.len()
        invariant
            j <= binds@.len(),
            bound@.len() == j,
            forall|t: int| 0 <= t < binds@.len() ==> ((#[trigger] binds@[t]).2 as int) < o.bound_calls@.len(),
            forall|t: int| 0 <= t < j ==> (#[trigger] bound@[t]).0 == binds@[t].0 && bound@[t].1 == binds@[t].1
                && same_bound(bound@[t].2, o.bound_calls@[binds@[t].2 as int]),
        decreases binds@.len() - j,
    {
        let (off, idx, rec) = binds[j];
        let copy = copy_bound(&o.bound_calls[rec]);
        bound.push((off, idx, copy));
        j = j + 1;
    }
    let table = match &o.table_blobs {
        Some(t) => if bi < t.len() { copy_bytes(&t[bi]) } else { Vec::new() },
        None => Vec::new(),
    };
    let signature = match &o.signatures {
        Some(sigs) => if bi < sigs.len() { Some(copy_sig(&sigs[bi])) } else { None },
        None => None,
    };
    FuncRef {
        name,
        blob,
        debug,
        calls: call_list,
        bound,
        table,
        table_fixups: fixups_exec(o, b),
        signature,
        origin: site.0,
    }
}

/// The arch of the first input among the first `n` that differs from the
/// first input's.
pub open spec fn foreign(all: Seq<ObjectFile>, n: int) -> Option<u8>
    decreases n,
{
    if n <= 0 {
        None
    } else {
        match foreign(all, n - 1) {
            Some(a) => Some(a),
            None => if all[n - 1].arch != all[0].arch { Some(all[n - 1].arch) } else { None },
        }
    }
}

/// What resolution decides before the walk: an early refusal, or the
/// namespace, the program's volatile bit, and the entry site (and whether
/// the entry itself fell back to the other column).
pub enum Plan {
    NoEntry,
    Arch { expected: u8, found: u8 },
    Duplicate(Seq<char>),
    Walk { ns: NameTable, vol: bool, entry_site: Site, entry_fell: bool },
}

/// The plan for linking `objects` then `libraries` from `entry`: no input
/// or an undefined entry is `NoEntry`; an input of another architecture
/// than the first (the first such) is `Arch`; a repeated user definition
/// is `Duplicate`.
pub open spec fn plan(objects: Seq<ObjectFile>, libraries: Seq<ObjectFile>, entry: Seq<char>) -> Plan {
    let all = objects + libraries;
    if all.len() == 0 {
        Plan::NoEntry
    } else if foreign(all, all.len() as int) is Some {
        Plan::Arch { expected: all[0].arch, found: foreign(all, all.len() as int)->0 }
    } else {
        match namespace(objects, libraries) {
            Err(name) => Plan::Duplicate(name),
            Ok(ns) => match ns_find(ns, entry) {
                None => Plan::NoEntry,
                Some(ei) => {
                    let vol = all[spec_owner(ns[ei].1) as int].program_volatile;
                    let chosen = spec_pick(ns[ei].1, vol);
                    Plan::Walk { ns, vol, entry_site: chosen.0, entry_fell: chosen.1 }
                },
            },
        }
    }
}

/// Names in the namespace whose chosen site the walk never reached.
pub open spec fn dropped_names(ns: NameTable, vol: bool, order: Seq<Site>) -> Set<Seq<char>> {
    Set::new(|x: Seq<char>| exists|i: int| 0 <= i < ns.len() && (#[trigger] ns[i]).0 == x && !order.contains(spec_pick(ns[i].1, vol).0))
}

/// `res` is the successful resolution along `order`.
pub open spec fn resolved_ok(all: Seq<ObjectFile>, ns: NameTable, vol: bool, order: Seq<Site>, entry_fell: bool, entry: Seq<char>, res: Resolved) -> bool {
    &&& res.order@.len() == order.len()
    &&& forall|i: int| 0 <= i < order.len() ==> func_ok(all, ns, vol, order, i, #[trigger] res.order@[i])
    &&& sorted_names(names_of(res.dropped@))
    &&& forall|x: Seq<char>| #[trigger] names_of(res.dropped@).contains(x) == dropped_names(ns, vol, order).contains(x)
    &&& sorted_names(names_of(res.variant_fallbacks@))
    &&& forall|x: Seq<char>| #[trigger] names_of(res.variant_fallbacks@).contains(x)
        == ((entry_fell && x == entry) || reached_fallbacks(all, ns, vol, order, order.len() as int).contains(x))
}

/// After the walk along `order`: unresolvable names reached anywhere are
/// the error (sorted); otherwise the resolution succeeds.
pub open spec fn walk_outcome(all: Seq<ObjectFile>, ns: NameTable, vol: bool, order: Seq<Site>, entry_fell: bool, entry: Seq<char>, r: Result<Resolved, LinkError>) -> bool {
    let miss = reached_missing(all, ns, vol, order, order.len() as int);
    &&& miss == Set::<Seq<char>>::empty() ==> (r matches Ok(res) && resolved_ok(all, ns, vol, order, entry_fell, entry, res))
    &&& miss != Set::<Seq<char>>::empty() ==> (r matches Err(LinkError::Unresolved(v)) && sorted_names(names_of(v@))
        && forall|x: Seq<char>| #[trigger] names_of(v@).contains(x) == miss.contains(x))
}

/// The outcome of resolving `objects` then `libraries` from `entry`.
pub open spec fn resolve_outcome(objects: Seq<ObjectFile>, libraries: Seq<ObjectFile>, entry: Seq<char>, r: Result<Resolved, LinkError>) -> bool {
    match plan(objects, libraries, entry) {
        Plan::NoEntry => r matches Err(LinkError::NoEntrySymbol(s)) && s@ == entry,
        Plan::Arch { expected, found } => r matches Err(LinkError::ArchMismatch { expected: e, found: f }) && e == expected && f == found,
        Plan::Duplicate(name) => r matches Err(LinkError::DuplicateSymbol(s)) && s@ == name,
        Plan::Walk { ns, vol, entry_site, entry_fell } => exists|order: Seq<Site>|
            #[trigger] bfs_order(objects + libraries, ns, vol, entry_site, order)
                && walk_outcome(objects + libraries, ns, vol, order, entry_fell, entry, r),
    }
}

/// Resolved references carry record indices of the references.
proof fn lemma_resolved_rec_bound(all: Seq<ObjectFile>, ns: NameTable, vol: bool, oi: int, refs: Seq<(u32, u32, usize)>, bound: int)
    requires
        forall|j: int| 0 <= j < refs.len() ==> ((#[trigger] refs[j]).2 as int) < bound,
    ensures
        forall|j: int| 0 <= j < resolved(all, ns, vol, oi, refs).len() ==> ((#[trigger] resolved(all, ns, vol, oi, refs)[j]).2 as int) < bound,
    decreases refs.len(),
{
    if refs.len() > 0 {
        let d = refs.drop_last();
        assert forall|j: int| 0 <= j < d.len() implies ((#[trigger] d[j]).2 as int) < bound by {
            assert(d[j] == refs[j]);
        }
        lemma_resolved_rec_bound(all, ns, vol, oi, d, bound);
        assert(refs[refs.len() - 1].2 < bound);
        let t = resolved(all, ns, vol, oi, d);
        let r = resolved(all, ns, vol, oi, refs);
        assert forall|j: int| 0 <= j < r.len() implies ((#[trigger] r[j]).2 as int) < bound by {
            if j < t.len() {
                assert(r[j] == t[j]);
            }
        }
    }
}

/// A blob's bound-call references name existing records.
proof fn lemma_bind_refs_rec(o: ObjectFile, b: u32)
    ensures
        forall|j: int| 0 <= j < bind_refs(o, b).len() ==> ((#[trigger] bind_refs(o, b)[j]).2 as int) < o.bound_calls@.len(),
{
    assert forall|j: int| 0 <= j < bind_refs(o, b).len() implies ((#[trigger] bind_refs(o, b)[j]).2 as int) < o.bound_calls@.len() by {
        let k = sorted_binds(o, b)[j];
        assert(sorted_binds(o, b).contains(k));
        lemma_key_sort_contains(bind_keys(o, b, o.bound_calls@.len() as int), k);
        lemma_bind_keys_bound(o, b, o.bound_calls@.len() as int, k);
    }
}

/// Whether `order` holds `site`.
fn contains_site(order: &Vec<Site>, site: Site) -> (r: bool)
    ensures
        r == order@.contains(site),
{
    let mut i: usize = 0;
    while i < order.len()
        invariant
            i <= order@.len(),
            forall|j: int| 0 <= j < i ==> order@[j] != site,
        decreases order@.len() - i,
    {
        if order[i].0 == site.0 && order[i].1 == site.1 {
            return true;
        }
        i = i + 1;
    }
    false
}

/// Resolve symbols and reachability: build the namespace (user objects,
/// then libraries), walk breadth-first from `entry` over relocation and
/// bound-call sites, and report the reached functions in discovery order
/// with the names dropped and the names that fell back to the other
/// build column.
pub fn resolve(objects: &[ObjectFile], libraries: &[ObjectFile], entry: &str) -> (r: Result<Resolved, LinkError>)
    requires
        inputs_wf(objects@ + libraries@),
        objects@.len() + libraries@.len() <= usize::MAX,
    ensures
        resolve_outcome(objects@, libraries@, entry@, r),
{
    let ghost all = objects@ + libraries@;
    let n = objects.len() + libraries.len();
    if n == 0 {
        return Err(LinkError::NoEntrySymbol(entry.to_owned()));
    }
    let expected = object_at(objects, libraries, 0).arch;
    let mut i: usize = 0;
    while i < n
        invariant
            i <= n,
            n == all.len(),
            all == objects@ + libraries@,
            expected == all[0].arch,
            foreign(all, i as int) is None,
        decreases n - i,
    {
        let found = object_at(objects, libraries, i).arch;
        if found != expected {
            proof {
                assert(foreign(all, i + 1) == Some(found));
                lemma_foreign_extends(all, i + 1, n as int);
            }
            return Err(LinkError::ArchMismatch { expected, found });
        }
        i = i + 1;
    }
    let ns = match build_namespace(objects, libraries) {
        Err(e) => {
            return Err(e);
        },
        Ok(ns) => ns,
    };
    let ghost nsv = table_view(ns@);
    let entry_name = entry.to_owned();
    let ei = match find_entry(&ns, &entry_name) {
        None => {
            return Err(LinkError::NoEntrySymbol(entry_name));
        },
        Some(ei) => ei,
    };
    proof {
        lemma_ns_find(nsv, entry@);
        assert(pair_ok(all, nsv[ei as int].1));
    }
    let pair = ns[ei].1;
    let vol = object_at(objects, libraries, pair.owner()).program_volatile;
    let (entry_site, entry_fell) = pair.pick(vol);
    let mut fallbacks: Vec<String> = Vec::new();
    if entry_fell {
        insert_name(&mut fallbacks, entry_name.clone());
    }
    proof {
        assert(object_wf(all[entry_site.0 as int]));
        lemma_defines_in_range(all[entry_site.0 as int], entry_site.1);
        assert(names_of(Seq::<String>::empty()) =~= Seq::<Seq<char>>::empty());
    }
    let ghost fb0 = names_of(fallbacks@);
    proof {
        assert(entry_name@ == entry@);
        assert(foreign(all, all.len() as int) is None);
        assert(plan(objects@, libraries@, entry@) == Plan::Walk { ns: nsv, vol, entry_site, entry_fell });
    }
    let (order, calls_by, binds_by, unresolved, fallbacks) = walk(objects, libraries, &ns, vol, entry_site, fallbacks);
    assert(bfs_order(all, nsv, vol, entry_site, order@));
    let ghost miss = reached_missing(all, nsv, vol, order@, order@.len() as int);
    if unresolved.len() > 0 {
        proof {
            assert(names_of(unresolved@).contains(names_of(unresolved@)[0]));
            assert(miss.contains(names_of(unresolved@)[0]));
            let rr = Err::<Resolved, LinkError>(LinkError::Unresolved(unresolved));
            assert(walk_outcome(all, nsv, vol, order@, entry_fell, entry@, rr));
            lemma_outcome_from_walk(objects@, libraries@, entry@, nsv, vol, entry_site, entry_fell, order@, rr);
        }
        return Err(LinkError::Unresolved(unresolved));
    }
    proof {
        assert(miss =~= Set::<Seq<char>>::empty()) by {
            assert forall|x: Seq<char>| !miss.contains(x) by {
                assert(!names_of(unresolved@).contains(x));
            }
        }
    }
    let mut dropped: Vec<String> = Vec::new();
    let mut k: usize = 0;
    proof {
        assert(names_of(dropped@) =~= Seq::<Seq<char>>::empty());
    }
    while k < ns.len()
        invariant
            k <= ns@.len(),
            nsv == table_view(ns@),
            table_ok(all, nsv),
            sorted_names(names_of(dropped@)),
            forall|x: Seq<char>| #[trigger] names_of(dropped@).contains(x) == exists|t: int|
                0 <= t < k && (#[trigger] nsv[t]).0 == x && !order@.contains(spec_pick(nsv[t].1, vol).0),
        decreases ns@.len() - k,
    {
        assert(pair_ok(all, nsv[k as int].1));
        let (site, _) = ns[k].1.pick(vol);
        if !contains_site(&order, site) {
            let name = ns[k].0.clone();
            let ghost before = names_of(dropped@);
            insert_name(&mut dropped, name);
            proof {
                assert(nsv[k as int].0 == name@);
                assert forall|x: Seq<char>| #[trigger] names_of(dropped@).contains(x) == exists|t: int|
                    0 <= t < k + 1 && (#[trigger] nsv[t]).0 == x && !order@.contains(spec_pick(nsv[t].1, vol).0) by {
                    if x == name@ {
                        assert(nsv[k as int].0 == x);
                    }
                    if exists|t: int| 0 <= t < k + 1 && (#[trigger] nsv[t]).0 == x && !order@.contains(spec_pick(nsv[t].1, vol).0) {
                        let t = choose|t: int| 0 <= t < k + 1 && (#[trigger] nsv[t]).0 == x && !order@.contains(spec_pick(nsv[t].1, vol).0);
                        if t < k {
                            assert(before.contains(x));
                        }
                    }
                }
            }
        } else {
            proof {
                assert forall|x: Seq<char>| #[trigger] names_of(dropped@).contains(x) == exists|t: int|
                    0 <= t < k + 1 && (#[trigger] nsv[t]).0 == x && !order@.contains(spec_pick(nsv[t].1, vol).0) by {
                    if exists|t: int| 0 <= t < k + 1 && (#[trigger] nsv[t]).0 == x && !order@.contains(spec_pick(nsv[t].1, vol).0) {
                        let t = choose|t: int| 0 <= t < k + 1 && (#[trigger] nsv[t]).0 == x && !order@.contains(spec_pick(nsv[t].1, vol).0);
                        assert(t != k);
                    }
                }
            }
        }
        k = k + 1;
    }
    let mut funcs: Vec<FuncRef> = Vec::new();
    let mut j: usize = 0;
    while j < order.len()
        invariant
            j <= order@.len(),
            all == objects@ + libraries@,
            inputs_wf(all),
            calls_by@.len() == order@.len(),
            binds_by@.len() == order@.len(),
            forall|i: int| 0 <= i < order@.len() ==> site_valid(all, #[trigger] order@[i]),
            forall|i: int| 0 <= i < order@.len() ==> calls_match(order@, resolved(all, nsv, vol, order@[i].0 as int, reloc_refs(all[order@[i].0 as int], order@[i].1)), #[trigger] calls_by@[i]@),
            forall|i: int| 0 <= i < order@.len() ==> binds_match(order@, resolved(all, nsv, vol, order@[i].0 as int, bind_refs(all[order@[i].0 as int], order@[i].1)), #[trigger] binds_by@[i]@),
            funcs@.len() == j,
            forall|i: int| 0 <= i < j ==> func_ok(all, nsv, vol, order@, i, #[trigger] funcs@[i]),
        decreases order@.len() - j,
    {
        let site = order[j];
        let object = object_at(objects, libraries, site.0);
        let ghost o = all[site.0 as int];
        let ghost rb = resolved(all, nsv, vol, site.0 as int, bind_refs(o, site.1));
        proof {
            assert(site_valid(all, order@[j as int]));
            assert(object_wf(o));
            assert(binds_match(order@, rb, binds_by@[j as int]@));
            lemma_bind_refs_rec(o, site.1);
            lemma_resolved_rec_bound(all, nsv, vol, site.0 as int, bind_refs(o, site.1), o.bound_calls@.len() as int);
            assert forall|t: int| 0 <= t < binds_by@[j as int]@.len() implies ((#[trigger] binds_by@[j as int]@[t]).2 as int) < o.bound_calls@.len() by {
                assert(binds_by@[j as int]@[t].2 == rb[t].2);
            }
        }
        let f = func_at(object, site, &calls_by[j], &binds_by[j]);
        proof {
            assert(calls_match(order@, resolved(all, nsv, vol, site.0 as int, reloc_refs(o, site.1)), calls_by@[j as int]@));
            assert(bound_match(order@, o, rb, f.bound@)) by {
                assert forall|t: int| 0 <= t < f.bound@.len() implies {
                    &&& (#[trigger] f.bound@[t]).0 == rb[t].0
                    &&& (f.bound@[t].1 as int) < order@.len()
                    &&& order@[f.bound@[t].1 as int] == rb[t].1
                    &&& same_bound(f.bound@[t].2, o.bound_calls@[rb[t].2 as int])
                } by {
                    assert(binds_by@[j as int]@[t].2 == rb[t].2);
                }
            }
        }
        funcs.push(f);
        j = j + 1;
    }
    let res = Resolved { order: funcs, dropped, variant_fallbacks: fallbacks };
    proof {
        assert forall|x: Seq<char>| #[trigger] names_of(res.dropped@).contains(x) == dropped_names(nsv, vol, order@).contains(x) by {}
        assert forall|x: Seq<char>| #[trigger] names_of(res.variant_fallbacks@).contains(x)
            == ((entry_fell && x == entry@) || reached_fallbacks(all, nsv, vol, order@, order@.len() as int).contains(x)) by {
            if entry_fell {
                assert(fb0.contains(x) == (x == entry@)) by {
                    if fb0.contains(x) {
                        assert(x == entry_name@);
                    }
                    if x == entry@ {
                        assert(fb0.contains(entry_name@));
                    }
                }
            } else {
                assert(!fb0.contains(x));
            }
        }
        assert(resolved_ok(all, nsv, vol, order@, entry_fell, entry@, res));
        assert(walk_outcome(all, nsv, vol, order@, entry_fell, entry@, Ok::<Resolved, LinkError>(res)));
        lemma_outcome_from_walk(objects@, libraries@, entry@, nsv, vol, entry_site, entry_fell, order@, Ok::<Resolved, LinkError>(res));
    }
    Ok(res)
}

proof fn lemma_outcome_from_walk(
    objects: Seq<ObjectFile>,
    libraries: Seq<ObjectFile>,
    entry: Seq<char>,
    ns: NameTable,
    vol: bool,
    entry_site: Site,
    entry_fell: bool,
    order: Seq<Site>,
    r: Result<Resolved, LinkError>,
)
    requires
        plan(objects, libraries, entry) == (Plan::Walk { ns, vol, entry_site, entry_fell }),
        bfs_order(objects + libraries, ns, vol, entry_site, order),
        walk_outcome(objects + libraries, ns, vol, order, entry_fell, entry, r),
    ensures
        resolve_outcome(objects, libraries, entry, r),
{
    let pl = plan(objects, libraries, entry);
    assert(pl->ns == ns);
    assert(pl->vol == vol);
    assert(pl->entry_site == entry_site);
    assert(pl->entry_fell == entry_fell);
    assert(bfs_order(objects + libraries, pl->ns, pl->vol, pl->entry_site, order));
    assert(walk_outcome(objects + libraries, pl->ns, pl->vol, order, pl->entry_fell, entry, r));
}

proof fn lemma_foreign_extends(all: Seq<ObjectFile>, n: int, m: int)
    requires
        0 <= n <= m,
        foreign(all, n) is Some,
    ensures
        foreign(all, m) == foreign(all, n),
    decreases m - n,
{
    if n < m {
        lemma_foreign_extends(all, n, m - 1);
    }
}

} // verus!
