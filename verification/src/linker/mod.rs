//! Linking: symbol resolution and reachability over object files, and the
//! composition algebra bound calls lower through.

pub mod binding_label;
pub mod compose;
pub mod compose_laws;
pub mod crc32;
pub mod engine;
pub mod layout;
pub mod object;
pub mod resolve;
pub mod stamp;
pub mod tables;

use vstd::prelude::*;

use crate::names::{names_of, sorted_names};
use crate::syntax::red::{decimal, push_decimal};
use binding_label::{hex_char, hex_digit};
use object::ObjectFile;
use resolve::{
    bfs_order, def_find, dropped_names, inputs_wf, plan, reached_missing, resolve, resolve_outcome,
    resolved_ok, walk_outcome, NameTable, Plan, Site,
};

verus! {

/// Why a link failed.
#[derive(Debug, Clone, PartialEq, Eq)]
pub enum LinkError {
    DuplicateSymbol(String),
    Unresolved(Vec<String>),
    /// The entry symbol (default `main`, or an override) is not defined by
    /// any linked object.
    NoEntrySymbol(String),
    ArchMismatch { expected: u8, found: u8 },
    /// A blob failed decode or had a relocation hole no call consumes.
    MalformedBlob { symbol: String, at: u32 },
    /// A function's table blob failed the fixup-driven walk.
    MalformedTable { symbol: String, at: u32 },
    /// The image needs a sectioned header but the entry function has no
    /// signature to fill it.
    MissingSignature(String),
    /// A declarative bound call could not be lowered.
    BadBinding { callee: String, message: String },
    /// A frame descriptor is inconsistent with the entry signature.
    BadFrameDescriptor { symbol: String, message: String },
    /// Bound calls were asked to lower under a mechanism not implemented.
    UnsupportedCallMech(CallMech),
    /// A raw framed call was reached under the mono mechanism.
    MonoRawFrame(String),
    /// A holey binding under mono into a callee that reads a match result
    /// through a conditional branch.
    MonoHoleyMatchBranch(String),
    /// A freshly minted stamp name already names another routine.
    StampNameCollision(String),
}

/// Which mechanism lowers a declarative bound call.
#[derive(Debug, Clone, Copy, PartialEq, Eq, Structural)]
pub enum CallMech {
    Mono,
    Frames,
    Hybrid,
}

impl CallMech {
    /// The mechanism used when none is asked for.
    pub fn default_mech() -> (r: CallMech)
        ensures
            r == CallMech::Hybrid,
    {
        CallMech::Hybrid
    }
}

/// The entry symbol a link resolves from when none is given.
pub const DEFAULT_ENTRY: &'static str = "main";

/// Which input supplied a winning definition: an index into the
/// user-object list or into the library list.
#[derive(Debug, Clone, Copy, PartialEq, Eq, Structural)]
pub enum SymbolOrigin {
    Object(usize),
    Library(usize),
}

/// One reached function: its linked symbol name and where its winning
/// definition came from.
#[derive(Debug, Clone, PartialEq, Eq)]
pub struct ResolvedName {
    pub name: String,
    pub origin: SymbolOrigin,
}

/// The linker's name-resolution answer without layout: the reached
/// symbols in reachability order, with provenance, and the dropped ones.
#[derive(Debug, Clone, PartialEq, Eq)]
pub struct ResolvedNames {
    pub reached: Vec<ResolvedName>,
    pub dropped: Vec<String>,
}

/// Which input a definition at input index `oi` came from, with
/// `n_objects` user objects ahead of the libraries.
pub open spec fn origin_of(oi: usize, n_objects: int) -> SymbolOrigin {
    if (oi as int) < n_objects {
        SymbolOrigin::Object(oi)
    } else {
        SymbolOrigin::Library((oi - n_objects) as usize)
    }
}

/// `res` reports the walk along `order`: each reached function's linked
/// name and provenance, and the dropped names (sorted).
pub open spec fn names_ok(all: Seq<ObjectFile>, ns: NameTable, vol: bool, order: Seq<Site>, n_objects: int, res: ResolvedNames) -> bool {
    &&& res.reached@.len() == order.len()
    &&& forall|i: int| 0 <= i < order.len() ==> {
        let site = order[i];
        let o = all[site.0 as int];
        &&& def_find(o.symbols@, site.1) matches Some(k) && (#[trigger] res.reached@[i]).name@ == o.symbols@[k].name@
        &&& res.reached@[i].origin == origin_of(site.0, n_objects)
    }
    &&& sorted_names(names_of(res.dropped@))
    &&& forall|x: Seq<char>| #[trigger] names_of(res.dropped@).contains(x) == dropped_names(ns, vol, order).contains(x)
}

/// The outcome of the name-resolution query: the refusals of
/// [`resolve`], or the reached names with provenance and the dropped ones.
pub open spec fn names_outcome(objects: Seq<ObjectFile>, libraries: Seq<ObjectFile>, entry: Seq<char>, r: Result<ResolvedNames, LinkError>) -> bool {
    match plan(objects, libraries, entry) {
        Plan::NoEntry => r matches Err(LinkError::NoEntrySymbol(s)) && s@ == entry,
        Plan::Arch { expected, found } => r matches Err(LinkError::ArchMismatch { expected: e, found: f }) && e == expected && f == found,
        Plan::Duplicate(name) => r matches Err(LinkError::DuplicateSymbol(s)) && s@ == name,
        Plan::Walk { ns, vol, entry_site, entry_fell } => exists|order: Seq<Site>|
            #[trigger] bfs_order(objects + libraries, ns, vol, entry_site, order) && {
                let miss = reached_missing(objects + libraries, ns, vol, order, order.len() as int);
                &&& miss == Set::<Seq<char>>::empty() ==> (r matches Ok(res) && names_ok(objects + libraries, ns, vol, order, objects.len() as int, res))
                &&& miss != Set::<Seq<char>>::empty() ==> (r matches Err(LinkError::Unresolved(v)) && sorted_names(names_of(v@))
                    && forall|x: Seq<char>| #[trigger] names_of(v@).contains(x) == miss.contains(x))
            },
    }
}

/// The name-resolution half of a link as a standalone query: the same
/// namespace building and reachability walk, reported with provenance
/// and without layout.
pub fn resolve_names(objects: &[ObjectFile], libraries: &[ObjectFile], entry: &str) -> (r: Result<ResolvedNames, LinkError>)
    requires
        inputs_wf(objects@ + libraries@),
        objects@.len() + libraries@.len() <= usize::MAX,
    ensures
        names_outcome(objects@, libraries@, entry@, r),
{
    let resolved = resolve(objects, libraries, entry);
    let res = match resolved {
        Err(e) => {
            proof {
                let pl = plan(objects@, libraries@, entry@);
                if let Plan::Walk { ns, vol, entry_site, entry_fell } = pl {
                    let order = choose|o: Seq<Site>| #[trigger] bfs_order(objects@ + libraries@, ns, vol, entry_site, o)
                        && walk_outcome(objects@ + libraries@, ns, vol, o, entry_fell, entry@, Err::<resolve::Resolved, LinkError>(e));
                    assert(bfs_order(objects@ + libraries@, ns, vol, entry_site, order));
                }
            }
            return Err(e);
        },
        Ok(res) => res,
    };
    let ghost pl = plan(objects@, libraries@, entry@);
    let ghost all = objects@ + libraries@;
    let ghost order = choose|o: Seq<Site>| #[trigger] bfs_order(all, pl->ns, pl->vol, pl->entry_site, o)
        && walk_outcome(all, pl->ns, pl->vol, o, pl->entry_fell, entry@, Ok::<resolve::Resolved, LinkError>(res));
    proof {
        assert(pl is Walk);
        assert(resolved_ok(all, pl->ns, pl->vol, order, pl->entry_fell, entry@, res));
    }
    let n = objects.len();
    let mut reached: Vec<ResolvedName> = Vec::new();
    let mut i: usize = 0;
    while i < res.order.len()
        invariant
            i <= res.order@.len(),
            n == objects@.len(),
            res.order@.len() == order.len(),
            forall|j: int| 0 <= j < order.len() ==> resolve::func_ok(all, pl->ns, pl->vol, order, j, #[trigger] res.order@[j]),
            reached@.len() == i,
            forall|j: int| 0 <= j < i ==> {
                let site = order[j];
                let o = all[site.0 as int];
                &&& def_find(o.symbols@, site.1) matches Some(k) && (#[trigger] reached@[j]).name@ == o.symbols@[k].name@
                &&& reached@[j].origin == origin_of(site.0, n as int)
            },
        decreases res.order@.len() - i,
    {
        let f = &res.order[i];
        assert(resolve::func_ok(all, pl->ns, pl->vol, order, i as int, res.order@[i as int]));
        let origin = if f.origin < n { SymbolOrigin::Object(f.origin) } else { SymbolOrigin::Library(f.origin - n) };
        reached.push(ResolvedName { name: f.name.clone(), origin });
        i = i + 1;
    }
    let out = ResolvedNames { reached, dropped: res.dropped };
    proof {
        assert(names_ok(all, pl->ns, pl->vol, order, n as int, out));
        assert(bfs_order(all, pl->ns, pl->vol, pl->entry_site, order));
    }
    Ok(out)
}

/// What a link is asked to do beyond the inputs.
#[derive(Debug, Clone)]
pub struct LinkOptions {
    /// Relax far calls to the short form where they reach.
    pub relax: bool,
    /// The entry symbol; `DEFAULT_ENTRY` when none.
    pub entry: Option<String>,
    /// How declarative bound calls lower.
    pub call_mech: CallMech,
    /// Per-object source paths for the map sidecar, by object position.
    pub sources: Vec<Option<String>>,
}

impl Default for LinkOptions {
    /// Relaxation on, the default entry, the hybrid mechanism, no sources.
    fn default() -> (r: LinkOptions)
        ensures
            r.relax,
            r.entry is None,
            r.call_mech == CallMech::Hybrid,
            r.sources@.len() == 0,
    {
        LinkOptions { relax: true, entry: None, call_mech: CallMech::Hybrid, sources: Vec::new() }
    }
}

/// One function's place in the linked image, for the map sidecar.
#[derive(Debug, Clone, PartialEq, Eq)]
pub struct MapFunction {
    pub name: String,
    /// Code range, image-relative.
    pub start: u32,
    pub end: u32,
    /// Labels and their image offsets.
    pub labels: Vec<(String, u32)>,
    /// (offset, source line) pairs.
    pub lines: Vec<(u32, u32)>,
    /// The source file, relative to the sidecar's directory, when known.
    pub source: Option<String>,
}

/// One virtual tape of a bound call's composite, as the sidecar records
/// it: the physical tape, the non-identity read pairs `(src, dst,
/// one_way)`, and the read and write holes.
#[derive(Debug, Clone, PartialEq, Eq)]
pub struct MapBindingTape {
    pub phys: u8,
    pub pairs: Vec<(u32, u32, bool)>,
    pub read_holes: Vec<u32>,
    pub write_holes: Vec<u32>,
}

/// One composite of a frames image: its 1-based directory index, the
/// callee routine, the display label, and its tapes.
#[derive(Debug, Clone, PartialEq, Eq)]
pub struct MapBinding {
    pub index: u16,
    pub routine: String,
    pub label: String,
    pub tapes: Vec<MapBindingTape>,
}

/// The map sidecar of a linked image.
#[derive(Debug, Clone, PartialEq, Eq)]
pub struct MapFile {
    pub arch: u8,
    pub functions: Vec<MapFunction>,
    /// Composite records; empty for a frameless link.
    pub bindings: Vec<MapBinding>,
}

/// A structured account of what the linker did.
#[derive(Debug, Clone, PartialEq, Eq)]
pub struct LinkReport {
    /// Defined but unreachable names, sorted.
    pub dropped: Vec<String>,
    pub relaxed_calls: u32,
    pub far_calls: u32,
    pub instantiations: u32,
    pub composites: u32,
    pub compose_table_bytes: u32,
    pub dedup_savings: u32,
    pub synthesized_trap_rows: u32,
    pub expanded_rows: u32,
    /// Names resolved through a fallback column, sorted.
    pub variant_fallbacks: Vec<String>,
    pub program_volatile: bool,
}

/// `parts` joined with `sep` between them.
pub open spec fn join_text(parts: Seq<Seq<char>>, sep: Seq<char>) -> Seq<char>
    decreases parts.len(),
{
    if parts.len() == 0 {
        seq![]
    } else if parts.len() == 1 {
        parts[0]
    } else {
        join_text(parts.drop_last(), sep) + sep + parts.last()
    }
}

/// `0x` and two lowercase hexadecimal digits.
pub open spec fn hex_byte(b: u8) -> Seq<char> {
    seq!['0', 'x', hex_digit((b / 16) as u32), hex_digit((b % 16) as u32)]
}

impl CallMech {
    /// The mechanism's name.
    pub open spec fn name_text(self) -> Seq<char> {
        match self {
            CallMech::Mono => "mono"@,
            CallMech::Frames => "frames"@,
            CallMech::Hybrid => "hybrid"@,
        }
    }

    /// The mechanism's name, as the command line spells it.
    pub fn name(&self) -> (r: String)
        ensures
            r@ == self.name_text(),
    {
        match self {
            CallMech::Mono => "mono".to_owned(),
            CallMech::Frames => "frames".to_owned(),
            CallMech::Hybrid => "hybrid".to_owned(),
        }
    }
}

/// The message of a link error.
pub open spec fn link_error_text(e: LinkError) -> Seq<char> {
    match e {
        LinkError::DuplicateSymbol(name) => "duplicate symbol: "@ + name@,
        LinkError::Unresolved(names) => "unresolved symbols: "@ + join_text(names_of(names@), ", "@),
        LinkError::NoEntrySymbol(name) => "no `"@ + name@ + "` entry symbol"@,
        LinkError::ArchMismatch { expected, found } => "architecture mismatch: expected "@ + hex_byte(expected) + ", found "@
            + hex_byte(found),
        LinkError::MalformedBlob { symbol, at } => "malformed blob for `"@ + symbol@ + "` at offset "@ + decimal(at as nat),
        LinkError::MalformedTable { symbol, at } => "malformed table data for `"@ + symbol@ + "` at table offset "@
            + decimal(at as nat),
        LinkError::MissingSignature(name) => "entry function `"@ + name@
            + "` has no routine signature to fill the sectioned executable header"@,
        LinkError::BadBinding { callee, message } => "bad binding to `"@ + callee@ + "`: "@ + message@,
        LinkError::BadFrameDescriptor { symbol, message } => "bad frame descriptor in `"@ + symbol@ + "`: "@ + message@,
        LinkError::UnsupportedCallMech(mech) => "the "@ + mech.name_text()
            + " call mechanism is not implemented yet (it lands with the stamping engine)"@,
        LinkError::MonoRawFrame(symbol) => "`"@ + symbol@
            + "` uses a raw framed call, which cannot be lowered onto the base profile; build with --call-mech=frames"@,
        LinkError::MonoHoleyMatchBranch(symbol) => "a holey binding needs `"@ + symbol@
            + "`'s match tables consumed by dispatch jumps, but `"@ + symbol@
            + "` reads a match result through a conditional branch; the synthesized unmapped-read trap rows would misroute \u{2014} build with --call-mech=frames"@,
        LinkError::StampNameCollision(name) => "a mono-stamped routine copy would be named `"@ + name@
            + "`, which already names another routine or an earlier stamp in this link; build with --call-mech=frames"@,
    }
}

/// Append `0x` and two lowercase hexadecimal digits of `b`.
fn push_hex_byte(out: &mut String, b: u8)
    ensures
        final(out)@ == old(out)@ + hex_byte(b),
{
    crate::syntax::green::push_char(out, '0');
    crate::syntax::green::push_char(out, 'x');
    crate::syntax::green::push_char(out, hex_char((b / 16) as u32));
    crate::syntax::green::push_char(out, hex_char((b % 16) as u32));
    proof {
        assert(out@ =~= old(out)@ + hex_byte(b));
    }
}

impl LinkError {
    /// The error's message, for display.
    pub fn message(&self) -> (r: String)
        ensures
            r@ == link_error_text(*self),
    {
        match self {
            LinkError::DuplicateSymbol(name) => {
                let mut s = "duplicate symbol: ".to_owned();
                s.append(name.as_str());
                s
            },
            LinkError::Unresolved(names) => {
                let mut s = "unresolved symbols: ".to_owned();
                let ghost head = s@;
                let ghost parts = names_of(names@);
                let sep = ", ";
                let mut i: usize = 0;
                proof {
                    assert(parts.take(0) =~= Seq::<Seq<char>>::empty());
                    assert(head + join_text(Seq::<Seq<char>>::empty(), sep@) =~= head);
                }
                while i < names.len()
                    invariant
                        i <= names@.len(),
                        parts == names_of(names@),
                        s@ == head + join_text(parts.take(i as int), sep@),
                    decreases names@.len() - i,
                {
                    if i > 0 {
                        s.append(sep);
                    }
                    s.append(names[i].as_str());
                    proof {
                        let t = parts.take(i + 1);
                        assert(t.drop_last() =~= parts.take(i as int));
                        assert(t.last() == names@[i as int]@);
                        if i == 0 {
                            assert(t[0] == names@[0]@);
                        }
                        assert(s@ =~= head + join_text(t, sep@));
                    }
                    i = i + 1;
                }
                proof {
                    assert(parts.take(names@.len() as int) =~= parts);
                }
                s
            },
            LinkError::NoEntrySymbol(name) => {
                let mut s = "no `".to_owned();
                s.append(name.as_str());
                s.append("` entry symbol");
                s
            },
            LinkError::ArchMismatch { expected, found } => {
                let mut s = "architecture mismatch: expected ".to_owned();
                push_hex_byte(&mut s, *expected);
                s.append(", found ");
                push_hex_byte(&mut s, *found);
                s
            },
            LinkError::MalformedBlob { symbol, at } => {
                let mut s = "malformed blob for `".to_owned();
                s.append(symbol.as_str());
                s.append("` at offset ");
                push_decimal(&mut s, *at as u64);
                s
            },
            LinkError::MalformedTable { symbol, at } => {
                let mut s = "malformed table data for `".to_owned();
                s.append(symbol.as_str());
                s.append("` at table offset ");
                push_decimal(&mut s, *at as u64);
                s
            },
            LinkError::MissingSignature(name) => {
                let mut s = "entry function `".to_owned();
                s.append(name.as_str());
                s.append("` has no routine signature to fill the sectioned executable header");
                s
            },
            LinkError::BadBinding { callee, message } => {
                let mut s = "bad binding to `".to_owned();
                s.append(callee.as_str());
                s.append("`: ");
                s.append(message.as_str());
                s
            },
            LinkError::BadFrameDescriptor { symbol, message } => {
                let mut s = "bad frame descriptor in `".to_owned();
                s.append(symbol.as_str());
                s.append("`: ");
                s.append(message.as_str());
                s
            },
            LinkError::UnsupportedCallMech(mech) => {
                let mut s = "the ".to_owned();
                let name = mech.name();
                s.append(name.as_str());
                s.append(" call mechanism is not implemented yet (it lands with the stamping engine)");
                s
            },
            LinkError::MonoRawFrame(symbol) => {
                let mut s = "`".to_owned();
                s.append(symbol.as_str());
                s.append("` uses a raw framed call, which cannot be lowered onto the base profile; build with --call-mech=frames");
                s
            },
            LinkError::MonoHoleyMatchBranch(symbol) => {
                let mut s = "a holey binding needs `".to_owned();
                s.append(symbol.as_str());
                s.append("`'s match tables consumed by dispatch jumps, but `");
                s.append(symbol.as_str());
                s.append("` reads a match result through a conditional branch; the synthesized unmapped-read trap rows would misroute \u{2014} build with --call-mech=frames");
                s
            },
            LinkError::StampNameCollision(name) => {
                let mut s = "a mono-stamped routine copy would be named `".to_owned();
                s.append(name.as_str());
                s.append("`, which already names another routine or an earlier stamp in this link; build with --call-mech=frames");
                s
            },
        }
    }
}

} // verus!
