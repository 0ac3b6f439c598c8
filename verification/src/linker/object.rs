//! The parts of an `MO` object file the linker reads: symbols, code blobs,
//! relocations, declarative bound calls, build-column tags, per-blob tables
//! and signatures. Plain data; the container codec lives elsewhere.

use vstd::prelude::*;

verus! {

/// How a symbol is defined in its object.
#[derive(Debug, Clone, Copy, PartialEq, Eq)]
pub enum SymbolDef {
    /// Exported definition of blob `blob`: enters the namespace.
    Defined { blob: u32 },
    /// Object-private definition of blob `blob`: binds only inside its object.
    Local { blob: u32 },
    /// A reference to a name some other input defines.
    External,
}

/// One symbol-table entry.
#[derive(Debug, Clone, PartialEq, Eq)]
pub struct Symbol {
    pub name: String,
    pub def: SymbolDef,
}

/// A call hole: the 4-byte operand at `offset` in blob `blob` names `symbol`.
#[derive(Debug, Clone, Copy, PartialEq, Eq)]
pub struct Relocation {
    pub blob: u32,
    pub offset: u32,
    pub symbol: u32,
}

/// One caller-symbol to callee-symbol pair of a binding; `one_way` marks a
/// read-only (`=>`) pair.
#[derive(Debug, Clone, Copy, PartialEq, Eq)]
pub struct MapPair {
    pub src: u32,
    pub dst: u32,
    pub one_way: bool,
}

/// One callee virtual tape of a binding: the caller tape it binds and its
/// symbol pairs.
#[derive(Debug, Clone, PartialEq, Eq)]
pub struct TapeBinding {
    pub caller_tape: u8,
    pub pairs: Vec<MapPair>,
}

/// A declarative bound call (`call name [binding]`) at `offset` in blob `blob`.
#[derive(Debug, Clone, PartialEq, Eq)]
pub struct BoundCall {
    pub blob: u32,
    pub offset: u32,
    pub symbol: u32,
    pub binding: Vec<TapeBinding>,
}

/// A generic routine's signature: its tape count and per-tape alphabet sizes.
#[derive(Debug, Clone, PartialEq, Eq)]
pub struct RoutineSig {
    pub arity: u8,
    pub cardinalities: Vec<u32>,
}

/// A blob's build column.
#[derive(Debug, Clone, Copy, PartialEq, Eq)]
pub enum BlobVariant {
    Normal,
    Volatile,
    /// Both columns compiled identical and were deduplicated.
    Both,
}

/// Per-blob debug info: label offsets and (offset, source line) pairs.
#[derive(Debug, Clone, PartialEq, Eq)]
pub struct BlobDebug {
    pub labels: Vec<(String, u32)>,
    pub lines: Vec<(u32, u32)>,
}

/// A TableRef operand hole at `offset` in blob `blob`, referencing
/// `table_offset` in that blob's table bytes.
#[derive(Debug, Clone, Copy, PartialEq, Eq)]
pub struct TableFixup {
    pub blob: u32,
    pub offset: u32,
    pub table_offset: u32,
}

/// An object file, as the linker reads it.
#[derive(Debug, Clone, PartialEq, Eq)]
pub struct ObjectFile {
    pub arch: u8,
    pub symbols: Vec<Symbol>,
    pub blobs: Vec<Vec<u8>>,
    pub relocations: Vec<Relocation>,
    pub bound_calls: Vec<BoundCall>,
    pub debug: Option<Vec<BlobDebug>>,
    pub table_blobs: Option<Vec<Vec<u8>>>,
    pub table_fixups: Vec<TableFixup>,
    pub signatures: Option<Vec<RoutineSig>>,
    /// Per-blob build-column tags; `None` reads as all-`Normal`.
    pub variants: Option<Vec<BlobVariant>>,
    /// The program's volatile bit (read off the object defining the entry).
    pub program_volatile: bool,
}

impl ObjectFile {
    /// A version-2 object: symbols, blobs, relocations and optional debug
    /// info; no bound calls, tables, signatures or column tags.
    pub fn v2(
        arch: u8,
        symbols: Vec<Symbol>,
        blobs: Vec<Vec<u8>>,
        relocations: Vec<Relocation>,
        debug: Option<Vec<BlobDebug>>,
    ) -> (r: ObjectFile)
        ensures
            r.arch == arch,
            r.symbols == symbols,
            r.blobs == blobs,
            r.relocations == relocations,
            r.debug == debug,
            r.bound_calls@.len() == 0,
            r.table_blobs is None,
            r.table_fixups@.len() == 0,
            r.signatures is None,
            r.variants is None,
            !r.program_volatile,
    {
        ObjectFile {
            arch,
            symbols,
            blobs,
            relocations,
            bound_calls: Vec::new(),
            debug,
            table_blobs: None,
            table_fixups: Vec::new(),
            signatures: None,
            variants: None,
            program_volatile: false,
        }
    }
}

} // verus!
