//! Code layout. Each function's original blob is a list of pieces:
//! verbatim bytes, a jump with a one- or four-byte operand, a call site
//! emitted short (two bytes) or far (five), and a framed call (nine
//! bytes, never relaxed). A layout pass sizes every function from its
//! pieces and lays the functions out back to back from 0, the entry
//! first. The frames region of an image follows the functions' tables:
//! the engine's descriptors, then the composite count and site count,
//! the directory of descriptor offsets, and the compose table; each
//! framed call site's frame half holds its site index.

use vstd::prelude::*;

use super::binding_label::{le16, le16s, le32, push_le16s, push_le32};
use super::engine::{DirSource, FramesPlan};
use super::resolve::FuncRef;
use super::LinkError;


verus! {

/// One piece of a function's original blob; `orig` is its blob-relative
/// offset there.
#[derive(Debug, PartialEq, Eq)]
pub enum Piece {
    Verbatim { orig: u32, bytes: Vec<u8> },
    /// A jump; `width` is its operand's size in bytes, 1 or 4.
    Jump { orig: u32, opcode: u8, width: u8, orig_target: u32 },
    /// A call or relocated tail jump to `callee`; its hole is `orig + 1`.
    CallSite { orig: u32, callee: usize },
    /// A framed call: opcode, a four-byte displacement and a four-byte
    /// frame-descriptor reference.
    FramedCall { orig: u32, callee: usize },
}

impl Piece {
    /// Where the piece starts in its original blob.
    pub open spec fn spec_orig(&self) -> u32 {
        match self {
            Piece::Verbatim { orig, .. } => *orig,
            Piece::Jump { orig, .. } => *orig,
            Piece::CallSite { orig, .. } => *orig,
            Piece::FramedCall { orig, .. } => *orig,
        }
    }

    /// Where the piece starts in its original blob.
    pub fn orig(&self) -> (r: u32)
        ensures
            r == self.spec_orig(),
    {
        match self {
            Piece::Verbatim { orig, .. } => *orig,
            Piece::Jump { orig, .. } => *orig,
            Piece::CallSite { orig, .. } => *orig,
            Piece::FramedCall { orig, .. } => *orig,
        }
    }
}

/// A piece's emitted size: a call site two bytes when short, else five.
pub open spec fn spec_piece_size(piece: Piece, is_short: bool) -> u32 {
    match piece {
        Piece::Verbatim { bytes, .. } => bytes@.len() as u32,
        Piece::Jump { width, .. } => (1 + width) as u32,
        Piece::CallSite { .. } => if is_short { 2 } else { 5 },
        Piece::FramedCall { .. } => 9,
    }
}

/// A piece's emitted size.
pub fn piece_size(piece: &Piece, is_short: bool) -> (r: u32)
    ensures
        r == spec_piece_size(*piece, is_short),
{
    match piece {
        Piece::Verbatim { bytes, .. } => bytes.len() as u32,
        Piece::Jump { width, .. } => 1 + (*width as u32),
        Piece::CallSite { .. } => if is_short { 2 } else { 5 },
        Piece::FramedCall { .. } => 9,
    }
}

/// The size of a function's first `k` pieces.
pub open spec fn pieces_size(pieces: Seq<Piece>, shorts: Seq<bool>, k: int) -> int
    decreases k,
{
    if k <= 0 {
        0
    } else {
        pieces_size(pieces, shorts, k - 1) + spec_piece_size(pieces[k - 1], shorts[k - 1])
    }
}

/// How many of a function's pieces are laid out: those with a width
/// flag beside them.
pub open spec fn laid(pieces: Seq<Piece>, shorts: Seq<bool>) -> int {
    if pieces.len() <= shorts.len() { pieces.len() as int } else { shorts.len() as int }
}

/// A function's emitted size.
pub open spec fn function_size(pieces: Seq<Piece>, shorts: Seq<bool>) -> int {
    pieces_size(pieces, shorts, laid(pieces, shorts))
}

/// The functions laid out: those with width flags beside them.
pub open spec fn laid_functions(functions: Seq<Vec<Piece>>, is_short: Seq<Vec<bool>>) -> int {
    if functions.len() <= is_short.len() { functions.len() as int } else { is_short.len() as int }
}

/// Where function `f` starts: the sizes of the functions before it.
pub open spec fn base_of(functions: Seq<Vec<Piece>>, is_short: Seq<Vec<bool>>, f: int) -> int
    decreases f,
{
    if f <= 0 {
        0
    } else {
        base_of(functions, is_short, f - 1) + function_size(functions[f - 1]@, is_short[f - 1]@)
    }
}

proof fn lemma_pieces_size_mono(pieces: Seq<Piece>, shorts: Seq<bool>, j: int, k: int)
    requires
        0 <= j <= k,
    ensures
        0 <= pieces_size(pieces, shorts, j) <= pieces_size(pieces, shorts, k),
    decreases k,
{
    if k > 0 {
        if j < k {
            lemma_pieces_size_mono(pieces, shorts, j, k - 1);
        } else {
            lemma_pieces_size_mono(pieces, shorts, k - 1, k - 1);
        }
    }
}

proof fn lemma_base_mono(functions: Seq<Vec<Piece>>, is_short: Seq<Vec<bool>>, f: int, g: int)
    requires
        0 <= f <= g,
    ensures
        0 <= base_of(functions, is_short, f) <= base_of(functions, is_short, g),
    decreases g,
{
    if g > 0 {
        lemma_pieces_size_mono(functions[g - 1]@, is_short[g - 1]@, 0, laid(functions[g - 1]@, is_short[g - 1]@));
        if f < g {
            lemma_base_mono(functions, is_short, f, g - 1);
        } else {
            lemma_base_mono(functions, is_short, g - 1, g - 1);
        }
    }
}

/// Lay out the functions under the given call-site widths: each
/// function's base (the entry at 0, each after the last) and each
/// piece's offset within its function. A function or piece without a
/// width flag beside it is left out.
pub fn layout_pass(functions: &Vec<Vec<Piece>>, is_short: &Vec<Vec<bool>>) -> (r: (Vec<u32>, Vec<Vec<u32>>))
    requires
        base_of(functions@, is_short@, laid_functions(functions@, is_short@)) <= u32::MAX,
    ensures
        r.0@.len() == laid_functions(functions@, is_short@),
        r.1@.len() == laid_functions(functions@, is_short@),
        forall|f: int| 0 <= f < r.0@.len() ==> #[trigger] r.0@[f] == base_of(functions@, is_short@, f),
        forall|f: int| 0 <= f < r.1@.len() ==> (#[trigger] r.1@[f])@.len() == laid(functions@[f]@, is_short@[f]@),
        forall|f: int, p: int| 0 <= f < r.1@.len() && 0 <= p < r.1@[f]@.len() ==>
            #[trigger] r.1@[f]@[p] == pieces_size(functions@[f]@, is_short@[f]@, p),
{
    let n = if functions.len() <= is_short.len() { functions.len() } else { is_short.len() };
    let ghost fs = functions@;
    let ghost ss = is_short@;
    let ghost total = base_of(fs, ss, n as int);
    let mut sizes: Vec<u32> = Vec::new();
    let mut offsets: Vec<Vec<u32>> = Vec::new();
    let mut f: usize = 0;
    while f < n
        invariant
            n == laid_functions(fs, ss),
            fs == functions@,
            ss == is_short@,
            total == base_of(fs, ss, n as int),
            total <= u32::MAX,
            f <= n,
            sizes@.len() == f,
            offsets@.len() == f,
            forall|g: int| 0 <= g < f ==> #[trigger] sizes@[g] == function_size(fs[g]@, ss[g]@),
            forall|g: int| 0 <= g < f ==> (#[trigger] offsets@[g])@.len() == laid(fs[g]@, ss[g]@),
            forall|g: int, p: int| 0 <= g < f && 0 <= p < offsets@[g]@.len() ==>
                #[trigger] offsets@[g]@[p] == pieces_size(fs[g]@, ss[g]@, p),
        decreases n - f,
    {
        let pieces = &functions[f];
        let shorts = &is_short[f];
        let m = if pieces.len() <= shorts.len() { pieces.len() } else { shorts.len() };
        proof {
            lemma_base_mono(fs, ss, f + 1, n as int);
            lemma_base_mono(fs, ss, f as int, f + 1);
        }
        let mut off: u32 = 0;
        let mut piece_offsets: Vec<u32> = Vec::new();
        let mut p: usize = 0;
        while p < m
            invariant
                m == laid(pieces@, shorts@),
                *pieces == fs[f as int],
                *shorts == ss[f as int],
                function_size(pieces@, shorts@) <= u32::MAX,
                p <= m,
                off == pieces_size(pieces@, shorts@, p as int),
                piece_offsets@.len() == p,
                forall|q: int| 0 <= q < p ==> #[trigger] piece_offsets@[q] == pieces_size(pieces@, shorts@, q),
            decreases m - p,
        {
            piece_offsets.push(off);
            proof {
                lemma_pieces_size_mono(pieces@, shorts@, p + 1, m as int);
            }
            off = off + piece_size(&pieces[p], shorts[p]);
            p = p + 1;
        }
        offsets.push(piece_offsets);
        sizes.push(off);
        f = f + 1;
    }
    let mut bases: Vec<u32> = Vec::new();
    let mut base: u32 = 0;
    let mut g: usize = 0;
    while g < n
        invariant
            n == sizes@.len(),
            n == laid_functions(fs, ss),
            total == base_of(fs, ss, n as int),
            total <= u32::MAX,
            forall|h: int| 0 <= h < n ==> #[trigger] sizes@[h] == function_size(fs[h]@, ss[h]@),
            g <= n,
            base == base_of(fs, ss, g as int),
            bases@.len() == g,
            forall|h: int| 0 <= h < g ==> #[trigger] bases@[h] == base_of(fs, ss, h),
        decreases n - g,
    {
        bases.push(base);
        proof {
            lemma_base_mono(fs, ss, g + 1, n as int);
        }
        base = base + sizes[g];
        g = g + 1;
    }
    (bases, offsets)
}

/// The first `i` descriptors, one after another.
pub open spec fn descriptors_bytes(d: Seq<Vec<u8>>, i: int) -> Seq<u8>
    decreases i,
{
    if i <= 0 {
        seq![]
    } else {
        descriptors_bytes(d, i - 1) + d[i - 1]@
    }
}

/// Where descriptor `i` lands when the descriptors follow `t0` bytes.
pub open spec fn engine_offset(t0: int, d: Seq<Vec<u8>>, i: int) -> int {
    t0 + descriptors_bytes(d, i).len()
}

/// The offset of directory entry `k`'s descriptor in the table section.
pub open spec fn dir_entry(dir: Seq<DirSource>, t0: int, d: Seq<Vec<u8>>, bases: Seq<u32>, k: int) -> int {
    match dir[k] {
        DirSource::Engine(i) => engine_offset(t0, d, i as int),
        DirSource::Raw { func, table_offset } => bases[func as int] + table_offset,
    }
}

/// The first `k` directory entries as little-endian `u32`s.
pub open spec fn dir_bytes(dir: Seq<DirSource>, t0: int, d: Seq<Vec<u8>>, bases: Seq<u32>, k: int) -> Seq<u8>
    decreases k,
{
    if k <= 0 {
        seq![]
    } else {
        dir_bytes(dir, t0, d, bases, k - 1) + le32(dir_entry(dir, t0, d, bases, k - 1) as u32)
    }
}

/// The first `k` compose rows, each value a little-endian `u16`.
pub open spec fn rows_bytes(rows: Seq<Vec<u16>>, k: int) -> Seq<u8>
    decreases k,
{
    if k <= 0 {
        seq![]
    } else {
        rows_bytes(rows, k - 1) + le16s(rows[k - 1]@)
    }
}

/// `c` with the four bytes at `h` holding `v` little-endian.
pub open spec fn write4(c: Seq<u8>, h: int, v: u32) -> Seq<u8> {
    Seq::new(c.len(), |i: int| if h <= i < h + 4 { le32(v)[i - h] } else { c[i] })
}

/// `c` with the first `n` framed call sites' frame halves (at `holes`)
/// holding their site indices, in order.
pub open spec fn write_sites(c: Seq<u8>, holes: Seq<usize>, n: int) -> Seq<u8>
    decreases n,
{
    if n <= 0 {
        c
    } else {
        write4(write_sites(c, holes, n - 1), holes[n - 1] as int, (n - 1) as u32)
    }
}

/// Emit the frames region the engine planned: append its descriptors to
/// `tables`, point the directory at them (and at the hand-written ones,
/// by their function's table base), write each framed call site's frame
/// half in `code` its site index, then append the composite count, the
/// site count, the directory and the compose table. Gives where the
/// region starts in `tables`.
pub fn emit_planned_region(
    plan: &FramesPlan,
    code: &mut Vec<u8>,
    tables: &mut Vec<u8>,
    fcall_holes: &Vec<usize>,
    func_table_bases: &Vec<u32>,
) -> (r: u32)
    requires
        old(tables)@.len() + descriptors_bytes(plan.engine_descriptors@, plan.engine_descriptors@.len() as int).len() <= u32::MAX,
        plan.directory@.len() <= 0xFFFF,
        fcall_holes@.len() <= 0xFFFF,
        forall|s: int| 0 <= s < fcall_holes@.len() ==> #[trigger] fcall_holes@[s] + 4 <= old(code)@.len(),
        forall|k: int| 0 <= k < plan.directory@.len() ==> match #[trigger] plan.directory@[k] {
            DirSource::Engine(i) => i < plan.engine_descriptors@.len(),
            DirSource::Raw { func, table_offset } => func < func_table_bases@.len()
                && func_table_bases@[func as int] + table_offset <= u32::MAX,
        },
    ensures
        ({
            let d = plan.engine_descriptors@;
            let t0 = old(tables)@.len() as int;
            let region = t0 + descriptors_bytes(d, d.len() as int).len();
            &&& r == region
            &&& final(tables)@ == old(tables)@ + descriptors_bytes(d, d.len() as int)
                + le16(plan.directory@.len() as u16) + le16(fcall_holes@.len() as u16)
                + dir_bytes(plan.directory@, t0, d, func_table_bases@, plan.directory@.len() as int)
                + rows_bytes(plan.compose@, plan.compose@.len() as int)
            &&& final(code)@ == write_sites(old(code)@, fcall_holes@, fcall_holes@.len() as int)
        }),
{
    let ghost d = plan.engine_descriptors@;
    let ghost t0 = tables@.len() as int;
    let ghost all = descriptors_bytes(d, d.len() as int);
    let mut engine_offsets: Vec<u32> = Vec::new();
    let mut i: usize = 0;
    proof {
        assert(tables@ =~= old(tables)@ + descriptors_bytes(d, 0));
        lemma_descriptors_prefix(d, 0, d.len() as int);
    }
    while i < plan.engine_descriptors.len()
        invariant
            d == plan.engine_descriptors@,
            t0 == old(tables)@.len(),
            t0 + all.len() <= u32::MAX,
            all == descriptors_bytes(d, d.len() as int),
            i <= d.len(),
            tables@ == old(tables)@ + descriptors_bytes(d, i as int),
            engine_offsets@.len() == i,
            forall|j: int| 0 <= j < i ==> #[trigger] engine_offsets@[j] == engine_offset(t0, d, j),
        decreases d.len() - i,
    {
        proof {
            lemma_descriptors_prefix(d, i as int, d.len() as int);
        }
        engine_offsets.push(tables.len() as u32);
        let desc = &plan.engine_descriptors[i];
        let mut b: usize = 0;
        let ghost head = tables@;
        while b < desc.len()
            invariant
                b <= desc@.len(),
                tables@ == head + desc@.take(b as int),
            decreases desc@.len() - b,
        {
            tables.push(desc[b]);
            proof {
                assert(desc@.take(b + 1) =~= desc@.take(b as int).push(desc@[b as int]));
            }
            b = b + 1;
        }
        proof {
            assert(desc@.take(desc@.len() as int) =~= desc@);
            assert(tables@ =~= old(tables)@ + descriptors_bytes(d, i + 1));
        }
        i = i + 1;
    }
    let ghost after_desc = tables@;
    let mut directory: Vec<u32> = Vec::new();
    let mut k: usize = 0;
    while k < plan.directory.len()
        invariant
            d == plan.engine_descriptors@,
            engine_offsets@.len() == d.len(),
            forall|j: int| 0 <= j < d.len() ==> #[trigger] engine_offsets@[j] == engine_offset(t0, d, j),
            t0 + all.len() <= u32::MAX,
            all == descriptors_bytes(d, d.len() as int),
            forall|q: int| 0 <= q < plan.directory@.len() ==> match #[trigger] plan.directory@[q] {
                DirSource::Engine(i) => i < plan.engine_descriptors@.len(),
                DirSource::Raw { func, table_offset } => func < func_table_bases@.len()
                    && func_table_bases@[func as int] + table_offset <= u32::MAX,
            },
            k <= plan.directory@.len(),
            directory@.len() == k,
            forall|q: int| 0 <= q < k ==> #[trigger] directory@[q] == dir_entry(plan.directory@, t0, d, func_table_bases@, q),
        decreases plan.directory@.len() - k,
    {
        let entry = match &plan.directory[k] {
            DirSource::Engine(i) => engine_offsets[*i],
            DirSource::Raw { func, table_offset } => func_table_bases[*func] + *table_offset,
        };
        directory.push(entry);
        k = k + 1;
    }
    let mut site: usize = 0;
    while site < fcall_holes.len()
        invariant
            fcall_holes@.len() <= 0xFFFF,
            forall|s: int| 0 <= s < fcall_holes@.len() ==> #[trigger] fcall_holes@[s] + 4 <= old(code)@.len(),
            site <= fcall_holes@.len(),
            code@ == write_sites(old(code)@, fcall_holes@, site as int),
            code@.len() == old(code)@.len(),
        decreases fcall_holes@.len() - site,
    {
        let hole = fcall_holes[site];
        let idx = site as u32;
        let code_len = code.len();
        assert(hole + 4 <= code_len) by {
            assert(fcall_holes@[site as int] + 4 <= old(code)@.len());
        }
        code.set(hole, (idx & 0xff) as u8);
        code.set(hole + 1, ((idx >> 8) & 0xff) as u8);
        code.set(hole + 2, ((idx >> 16) & 0xff) as u8);
        code.set(hole + 3, ((idx >> 24) & 0xff) as u8);
        proof {
            assert(code@ =~= write4(write_sites(old(code)@, fcall_holes@, site as int), hole as int, idx));
        }
        site = site + 1;
    }
    let frames_offset = tables.len() as u32;
    let kc = plan.directory.len() as u16;
    let sc = fcall_holes.len() as u16;
    let ghost before_counts = tables@;
    tables.push((kc & 0xff) as u8);
    tables.push(((kc >> 8) & 0xff) as u8);
    tables.push((sc & 0xff) as u8);
    tables.push(((sc >> 8) & 0xff) as u8);
    proof {
        assert(tables@ =~= before_counts + le16(kc) + le16(sc));
    }
    let ghost before_dir = tables@;
    let mut q: usize = 0;
    while q < directory.len()
        invariant
            q <= directory@.len(),
            directory@.len() == plan.directory@.len(),
            forall|x: int| 0 <= x < directory@.len() ==> #[trigger] directory@[x] == dir_entry(plan.directory@, t0, d, func_table_bases@, x),
            tables@ == before_dir + dir_bytes(plan.directory@, t0, d, func_table_bases@, q as int),
        decreases directory@.len() - q,
    {
        push_le32(tables, directory[q]);
        proof {
            assert(tables@ =~= before_dir + dir_bytes(plan.directory@, t0, d, func_table_bases@, q + 1));
        }
        q = q + 1;
    }
    let ghost before_rows = tables@;
    let mut row: usize = 0;
    while row < plan.compose.len()
        invariant
            row <= plan.compose@.len(),
            tables@ == before_rows + rows_bytes(plan.compose@, row as int),
        decreases plan.compose@.len() - row,
    {
        push_le16s(tables, plan.compose[row].as_slice());
        proof {
            assert(tables@ =~= before_rows + rows_bytes(plan.compose@, row + 1));
        }
        row = row + 1;
    }
    proof {
        assert(tables@ =~= old(tables)@ + descriptors_bytes(d, d.len() as int)
            + le16(plan.directory@.len() as u16) + le16(fcall_holes@.len() as u16)
            + dir_bytes(plan.directory@, t0, d, func_table_bases@, plan.directory@.len() as int)
            + rows_bytes(plan.compose@, plan.compose@.len() as int));
    }
    frames_offset
}

/// The first descriptors are a prefix of all of them.
proof fn lemma_descriptors_prefix(d: Seq<Vec<u8>>, i: int, n: int)
    requires
        0 <= i <= n,
    ensures
        descriptors_bytes(d, i).len() <= descriptors_bytes(d, n).len(),
    decreases n - i,
{
    if i < n {
        lemma_descriptors_prefix(d, i + 1, n);
    }
}

/// How control leaves an instruction, as the instruction set declares it.
#[derive(Debug, Clone, Copy, PartialEq, Eq, Structural)]
pub enum Flow {
    FallThrough,
    Jump,
    Branch,
    Call,
    /// Returns, halts and other ends of a path.
    Stop,
}

/// A decoded instruction's operand, as far as layout cares.
#[derive(Debug, Clone, Copy, PartialEq, Eq, Structural)]
pub enum Operand {
    /// A relative code target, resolved to its blob offset.
    RelTarget(u32),
    /// A framed call's displacement and frame-descriptor halves; `table`
    /// is the descriptor's offset in the function's table blob.
    FramedCall { table: u32 },
    Other,
}

/// What the decoder made of the bytes at one address.
#[derive(Debug, Clone, Copy, PartialEq, Eq, Structural)]
pub enum Body {
    /// Bytes that decode to no instruction.
    Raw,
    Instr { flow: Flow, opcode: u8, operand: Operand },
}

/// One decoded item of a blob: its offset, its length in bytes, and what
/// it is.
#[derive(Debug, Clone, Copy, PartialEq, Eq, Structural)]
pub struct Decoded {
    pub addr: u32,
    pub len: u32,
    pub body: Body,
}

/// A piece as plain values.
pub enum PieceShape {
    Verbatim { orig: u32, bytes: Seq<u8> },
    Jump { orig: u32, opcode: u8, width: u8, orig_target: u32 },
    CallSite { orig: u32, callee: usize },
    FramedCall { orig: u32, callee: usize },
}

/// A piece's plain values.
pub open spec fn piece_view(p: Piece) -> PieceShape {
    match p {
        Piece::Verbatim { orig, bytes } => PieceShape::Verbatim { orig, bytes: bytes@ },
        Piece::Jump { orig, opcode, width, orig_target } => PieceShape::Jump { orig, opcode, width, orig_target },
        Piece::CallSite { orig, callee } => PieceShape::CallSite { orig, callee },
        Piece::FramedCall { orig, callee } => PieceShape::FramedCall { orig, callee },
    }
}

/// The callee relocated at `hole`: the last call entry for that hole.
pub open spec fn hole_callee(calls: Seq<(u32, usize)>, hole: u32) -> Option<usize>
    decreases calls.len(),
{
    if calls.len() == 0 {
        None
    } else if calls.last().0 == hole {
        Some(calls.last().1)
    } else {
        hole_callee(calls.drop_last(), hole)
    }
}

/// The piece a decoded item becomes, or the offset at which it is
/// malformed: undecodable bytes; a branch whose operand is relocated (a
/// branch targets labels only); a call whose operand is not relocated. A
/// jump with a relocated operand is a tail call; any other instruction
/// is copied as it stands.
pub open spec fn decoded_piece(blob: Seq<u8>, calls: Seq<(u32, usize)>, d: Decoded) -> Result<PieceShape, u32> {
    let hole = (d.addr + 1) as u32;
    let verbatim = PieceShape::Verbatim { orig: d.addr, bytes: blob.subrange(d.addr as int, d.addr + d.len) };
    match d.body {
        Body::Raw => Err(d.addr),
        Body::Instr { flow, opcode, operand } => match operand {
            Operand::RelTarget(t) => if flow == Flow::Jump || flow == Flow::Branch {
                match hole_callee(calls, hole) {
                    Some(c) => if flow == Flow::Branch {
                        Err(hole)
                    } else {
                        Ok(PieceShape::CallSite { orig: d.addr, callee: c })
                    },
                    None => Ok(PieceShape::Jump { orig: d.addr, opcode, width: (d.len - 1) as u8, orig_target: t }),
                }
            } else if flow == Flow::Call {
                match hole_callee(calls, hole) {
                    Some(c) => Ok(PieceShape::CallSite { orig: d.addr, callee: c }),
                    None => Err(hole),
                }
            } else {
                Ok(verbatim)
            },
            Operand::FramedCall { .. } => if flow == Flow::Call {
                match hole_callee(calls, hole) {
                    Some(c) => Ok(PieceShape::FramedCall { orig: d.addr, callee: c }),
                    None => Err(hole),
                }
            } else {
                Ok(verbatim)
            },
            Operand::Other => Ok(verbatim),
        },
    }
}

/// The pieces of the first `k` decoded items, or where the first
/// malformed one is malformed.
pub open spec fn pieces_upto(blob: Seq<u8>, calls: Seq<(u32, usize)>, ds: Seq<Decoded>, k: int) -> Result<Seq<PieceShape>, u32>
    decreases k,
{
    if k <= 0 {
        Ok(seq![])
    } else {
        match pieces_upto(blob, calls, ds, k - 1) {
            Ok(ps) => match decoded_piece(blob, calls, ds[k - 1]) {
                Ok(p) => Ok(ps.push(p)),
                Err(a) => Err(a),
            },
            Err(a) => Err(a),
        }
    }
}

/// The relocation holes the pieces consume, in order: each call site's
/// and framed call's operand.
pub open spec fn consumed_holes(ps: Seq<PieceShape>) -> Seq<u32>
    decreases ps.len(),
{
    if ps.len() == 0 {
        seq![]
    } else {
        let prev = consumed_holes(ps.drop_last());
        match ps.last() {
            PieceShape::CallSite { orig, .. } => prev.push((orig + 1) as u32),
            PieceShape::FramedCall { orig, .. } => prev.push((orig + 1) as u32),
            _ => prev,
        }
    }
}

/// The first of the first `k` call holes that no piece consumes.
pub open spec fn first_unconsumed(calls: Seq<(u32, usize)>, held: Seq<u32>, k: int) -> Option<u32>
    decreases k,
{
    if k <= 0 {
        None
    } else {
        match first_unconsumed(calls, held, k - 1) {
            Some(h) => Some(h),
            None => if held.contains(calls[k - 1].0) { None } else { Some(calls[k - 1].0) },
        }
    }
}

/// A function's pieces from its decoded blob, or the offset at which the
/// blob is malformed: a blob not opening with the entry opcode (at 0),
/// the first malformed item, or else the first call hole no call
/// consumed (a relocation landing inside other bytes).
pub open spec fn pieces_of(entry_opcode: u8, blob: Seq<u8>, calls: Seq<(u32, usize)>, ds: Seq<Decoded>) -> Result<Seq<PieceShape>, u32> {
    if blob.len() == 0 || blob[0] != entry_opcode {
        Err(0)
    } else {
        match pieces_upto(blob, calls, ds, ds.len() as int) {
            Ok(ps) => match first_unconsumed(calls, consumed_holes(ps), calls.len() as int) {
                Some(h) => Err(h),
                None => Ok(ps),
            },
            Err(a) => Err(a),
        }
    }
}

/// A malformed prefix stays malformed.
proof fn lemma_pieces_stop(blob: Seq<u8>, calls: Seq<(u32, usize)>, ds: Seq<Decoded>, m: int, n: int)
    requires
        0 <= m <= n,
        pieces_upto(blob, calls, ds, m) is Err,
    ensures
        pieces_upto(blob, calls, ds, n) == pieces_upto(blob, calls, ds, m),
    decreases n - m,
{
    if m < n {
        lemma_pieces_stop(blob, calls, ds, m + 1, n);
    }
}

/// Once a hole is found unconsumed, it stays the first.
proof fn lemma_unconsumed_stop(calls: Seq<(u32, usize)>, held: Seq<u32>, m: int, n: int)
    requires
        0 <= m <= n,
        first_unconsumed(calls, held, m) is Some,
    ensures
        first_unconsumed(calls, held, n) == first_unconsumed(calls, held, m),
    decreases n - m,
{
    if m < n {
        lemma_unconsumed_stop(calls, held, m + 1, n);
    }
}

/// The callee relocated at `hole`, searching from the last call entry.
pub(crate) fn find_hole(calls: &Vec<(u32, usize)>, hole: u32) -> (r: Option<usize>)
    ensures
        r == hole_callee(calls@, hole),
{
    let mut i: usize = calls.len();
    proof {
        assert(calls@.take(i as int) =~= calls@);
    }
    while i > 0
        invariant
            i <= calls@.len(),
            hole_callee(calls@, hole) == hole_callee(calls@.take(i as int), hole),
        decreases i,
    {
        let ghost t = calls@.take(i as int);
        proof {
            assert(t.drop_last() =~= calls@.take(i - 1));
            assert(t.last() == calls@[i - 1]);
        }
        if calls[i - 1].0 == hole {
            return Some(calls[i - 1].1);
        }
        i = i - 1;
    }
    proof {
        assert(calls@.take(0) =~= Seq::<(u32, usize)>::empty());
    }
    None
}

fn malformed_at(f: &FuncRef, at: u32) -> (r: LinkError)
    ensures
        r matches LinkError::MalformedBlob { symbol, at: a } && symbol@ == f.name@ && a == at,
{
    LinkError::MalformedBlob { symbol: f.name.clone(), at }
}

/// The bytes of `blob` from `start` to `end`.
fn copy_range(blob: &Vec<u8>, start: usize, end: usize) -> (r: Vec<u8>)
    requires
        start <= end <= blob@.len(),
    ensures
        r@ == blob@.subrange(start as int, end as int),
{
    let mut bytes: Vec<u8> = Vec::new();
    let mut b: usize = start;
    while b < end
        invariant
            start <= b <= end,
            end <= blob@.len(),
            bytes@ == blob@.subrange(start as int, b as int),
        decreases end - b,
    {
        bytes.push(blob[b]);
        proof {
            assert(blob@.subrange(start as int, b + 1) =~= blob@.subrange(start as int, b as int).push(blob@[b as int]));
        }
        b = b + 1;
    }
    bytes
}

/// Split a function's blob into pieces along its decoded items (see
/// [`pieces_of`]): relocated calls and tail jumps become call sites,
/// framed calls framed sites, other jumps keep their width and target,
/// and everything else is copied; a malformed blob is refused at the
/// offset [`pieces_of`] names.
pub fn classify(entry_opcode: u8, f: &FuncRef, decoded: &[Decoded]) -> (r: Result<Vec<Piece>, LinkError>)
    requires
        f.blob@.len() <= u32::MAX,
        forall|i: int| 0 <= i < decoded@.len() ==> 1 <= (#[trigger] decoded@[i]).len
            && decoded@[i].addr + decoded@[i].len <= f.blob@.len(),
    ensures
        match pieces_of(entry_opcode, f.blob@, f.calls@, decoded@) {
            Ok(ps) => r matches Ok(v) && v@.len() == ps.len()
                && forall|i: int| 0 <= i < ps.len() ==> piece_view(#[trigger] v@[i]) == ps[i],
            Err(a) => r matches Err(LinkError::MalformedBlob { symbol, at }) && symbol@ == f.name@ && at == a,
        },
{
    if f.blob.len() == 0 || f.blob[0] != entry_opcode {
        return Err(malformed_at(f, 0));
    }
    let ghost blob = f.blob@;
    let ghost calls = f.calls@;
    let mut pieces: Vec<Piece> = Vec::new();
    let mut held: Vec<u32> = Vec::new();
    let mut i: usize = 0;
    while i < decoded.len()
        invariant
            blob == f.blob@,
            calls == f.calls@,
            blob.len() <= u32::MAX,
            blob.len() > 0 && blob[0] == entry_opcode,
            forall|j: int| 0 <= j < decoded@.len() ==> 1 <= (#[trigger] decoded@[j]).len
                && decoded@[j].addr + decoded@[j].len <= blob.len(),
            i <= decoded@.len(),
            pieces_upto(blob, calls, decoded@, i as int) matches Ok(ps) && ps.len() == pieces@.len()
                && (forall|j: int| 0 <= j < ps.len() ==> piece_view(#[trigger] pieces@[j]) == ps[j])
                && held@ == consumed_holes(ps),
        decreases decoded@.len() - i,
    {
        let d = decoded[i];
        let ghost ps = pieces_upto(blob, calls, decoded@, i as int)->Ok_0;
        proof {
            assert(d == decoded@[i as int]);
        }
        let hole = d.addr + 1;
        let piece = match d.body {
            Body::Raw => None,
            Body::Instr { flow, opcode, operand } => match operand {
                Operand::RelTarget(t) => match flow {
                    Flow::Jump => match find_hole(&f.calls, hole) {
                        Some(c) => Some(Piece::CallSite { orig: d.addr, callee: c }),
                        None => Some(Piece::Jump { orig: d.addr, opcode, width: (d.len - 1) as u8, orig_target: t }),
                    },
                    Flow::Branch => match find_hole(&f.calls, hole) {
                        Some(_) => None,
                        None => Some(Piece::Jump { orig: d.addr, opcode, width: (d.len - 1) as u8, orig_target: t }),
                    },
                    Flow::Call => match find_hole(&f.calls, hole) {
                        Some(c) => Some(Piece::CallSite { orig: d.addr, callee: c }),
                        None => None,
                    },
                    _ => Some(Piece::Verbatim { orig: d.addr, bytes: copy_range(&f.blob, d.addr as usize, (d.addr + d.len) as usize) }),
                },
                Operand::FramedCall { .. } => match flow {
                    Flow::Call => match find_hole(&f.calls, hole) {
                        Some(c) => Some(Piece::FramedCall { orig: d.addr, callee: c }),
                        None => None,
                    },
                    _ => Some(Piece::Verbatim { orig: d.addr, bytes: copy_range(&f.blob, d.addr as usize, (d.addr + d.len) as usize) }),
                },
                Operand::Other => Some(Piece::Verbatim { orig: d.addr, bytes: copy_range(&f.blob, d.addr as usize, (d.addr + d.len) as usize) }),
            },
        };
        let piece = match piece {
            Some(p) => p,
            None => {
                let at = match d.body {
                    Body::Raw => d.addr,
                    _ => hole,
                };
                proof {
                    assert(decoded_piece(blob, calls, d) == Err::<PieceShape, u32>(at));
                    assert(pieces_upto(blob, calls, decoded@, i + 1) == Err::<Seq<PieceShape>, u32>(at));
                    lemma_pieces_stop(blob, calls, decoded@, i + 1, decoded@.len() as int);
                }
                return Err(malformed_at(f, at));
            },
        };
        let consumes = match &piece {
            Piece::CallSite { .. } => true,
            Piece::FramedCall { .. } => true,
            _ => false,
        };
        if consumes {
            held.push(hole);
        }
        let ghost old_p = pieces@;
        pieces.push(piece);
        proof {
            let ps2 = ps.push(piece_view(piece));
            assert(pieces_upto(blob, calls, decoded@, i + 1) == Ok::<Seq<PieceShape>, u32>(ps2));
            assert(ps2.drop_last() =~= ps);
            assert forall|j: int| 0 <= j < ps2.len() implies piece_view(#[trigger] pieces@[j]) == ps2[j] by {
                if j < ps.len() {
                    assert(pieces@[j] == old_p[j]);
                }
            }
        }
        i = i + 1;
    }
    let ghost ps = pieces_upto(blob, calls, decoded@, decoded@.len() as int)->Ok_0;
    let mut k: usize = 0;
    while k < f.calls.len()
        invariant
            calls == f.calls@,
            blob == f.blob@,
            blob.len() > 0 && blob[0] == entry_opcode,
            pieces_upto(blob, calls, decoded@, decoded@.len() as int) == Ok::<Seq<PieceShape>, u32>(ps),
            ps.len() == pieces@.len(),
            forall|j: int| 0 <= j < ps.len() ==> piece_view(#[trigger] pieces@[j]) == ps[j],
            held@ == consumed_holes(ps),
            k <= calls.len(),
            first_unconsumed(calls, held@, k as int) is None,
        decreases calls.len() - k,
    {
        let h = f.calls[k].0;
        let mut found = false;
        let mut q: usize = 0;
        while q < held.len()
            invariant
                q <= held@.len(),
                found <==> exists|x: int| 0 <= x < q && held@[x] == h,
            decreases held@.len() - q,
        {
            if held[q] == h {
                found = true;
            }
            q = q + 1;
        }
        if !found {
            proof {
                assert(!held@.contains(h));
                assert(first_unconsumed(calls, held@, k + 1) == Some(h));
                lemma_unconsumed_stop(calls, held@, k + 1, calls.len() as int);
            }
            return Err(malformed_at(f, h));
        }
        proof {
            let x = choose|x: int| 0 <= x < held@.len() && held@[x] == h;
            assert(held@.contains(h));
        }
        k = k + 1;
    }
    Ok(pieces)
}

/// The widths line up with the pieces, function by function.
pub open spec fn same_shape(fs: Seq<Vec<Piece>>, w: Seq<Vec<bool>>) -> bool {
    &&& w.len() == fs.len()
    &&& forall|f: int| 0 <= f < fs.len() ==> (#[trigger] w[f])@.len() == fs[f]@.len()
}

/// `w2` keeps every call that `w` makes short.
pub open spec fn widens_to(w: Seq<Vec<bool>>, w2: Seq<Vec<bool>>) -> bool {
    &&& w.len() == w2.len()
    &&& forall|f: int| 0 <= f < w.len() ==> (#[trigger] w2[f])@.len() == w[f]@.len()
    &&& forall|f: int, p: int| 0 <= f < w.len() && 0 <= p < w[f]@.len() && #[trigger] w[f]@[p] ==> w2[f]@[p]
}

/// Where piece `p` of function `f` starts in the laid-out code.
pub open spec fn piece_pos(fs: Seq<Vec<Piece>>, w: Seq<Vec<bool>>, f: int, p: int) -> int {
    base_of(fs, w, f) + pieces_size(fs[f]@, w[f]@, p)
}

/// The function a call site calls.
pub open spec fn callee_of(piece: Piece) -> usize {
    match piece {
        Piece::CallSite { callee, .. } => callee,
        Piece::FramedCall { callee, .. } => callee,
        _ => 0,
    }
}

/// The displacement of call site `p` of function `f` to its callee's
/// start, measured from the end of an instruction of `size` bytes.
pub open spec fn call_offset(fs: Seq<Vec<Piece>>, w: Seq<Vec<bool>>, f: int, p: int, size: int) -> int {
    base_of(fs, w, callee_of(fs[f]@[p]) as int) - (piece_pos(fs, w, f, p) + size)
}

/// A displacement a short call can carry.
pub open spec fn fits_i8(x: int) -> bool {
    -128 <= x <= 127
}

/// A call site whose opcode has a short form.
pub open spec fn candidate(fs: Seq<Vec<Piece>>, hs: Seq<Vec<bool>>, f: int, p: int) -> bool {
    fs[f]@[p] is CallSite && hs[f]@[p]
}

/// The size of a function's first `k` pieces with every call far.
pub open spec fn far_size(ps: Seq<Piece>, k: int) -> int
    decreases k,
{
    if k <= 0 {
        0
    } else {
        far_size(ps, k - 1) + spec_piece_size(ps[k - 1], false)
    }
}

/// The size of the first `k` functions with every call far.
pub open spec fn far_total(fs: Seq<Vec<Piece>>, k: int) -> int
    decreases k,
{
    if k <= 0 {
        0
    } else {
        far_total(fs, k - 1) + far_size(fs[k - 1]@, fs[k - 1]@.len() as int)
    }
}

/// How many flags are set.
pub open spec fn trues(s: Seq<bool>) -> nat
    decreases s.len(),
{
    if s.len() == 0 {
        0
    } else {
        trues(s.drop_last()) + if s.last() { 1nat } else { 0nat }
    }
}

/// How many calls of the first `k` functions are short.
pub open spec fn marked(w: Seq<Vec<bool>>, k: int) -> nat
    decreases k,
{
    if k <= 0 {
        0
    } else {
        marked(w, k - 1) + trues(w[k - 1]@)
    }
}

/// How many pieces the first `k` functions have.
pub open spec fn piece_count(fs: Seq<Vec<Piece>>, k: int) -> nat
    decreases k,
{
    if k <= 0 {
        0
    } else {
        piece_count(fs, k - 1) + fs[k - 1]@.len()
    }
}

proof fn lemma_trues_bound(s: Seq<bool>)
    ensures
        trues(s) <= s.len(),
    decreases s.len(),
{
    if s.len() > 0 {
        lemma_trues_bound(s.drop_last());
    }
}

proof fn lemma_trues_mark(s: Seq<bool>, i: int)
    requires
        0 <= i < s.len(),
        !s[i],
    ensures
        trues(s.update(i, true)) == trues(s) + 1,
    decreases s.len(),
{
    let t = s.update(i, true);
    if i < s.len() - 1 {
        lemma_trues_mark(s.drop_last(), i);
        assert(t.drop_last() =~= s.drop_last().update(i, true));
    } else {
        assert(t.drop_last() =~= s.drop_last());
    }
}

proof fn lemma_marked_bound(fs: Seq<Vec<Piece>>, w: Seq<Vec<bool>>, k: int)
    requires
        same_shape(fs, w),
        0 <= k <= fs.len(),
    ensures
        marked(w, k) <= piece_count(fs, k),
    decreases k,
{
    if k > 0 {
        lemma_marked_bound(fs, w, k - 1);
        lemma_trues_bound(w[k - 1]@);
    }
}

proof fn lemma_marked_mark(w: Seq<Vec<bool>>, w2: Seq<Vec<bool>>, f: int, p: int, k: int)
    requires
        0 <= f < w.len(),
        0 <= p < w[f]@.len(),
        !w[f]@[p],
        w2.len() == w.len(),
        w2[f]@ == w[f]@.update(p, true),
        forall|g: int| 0 <= g < w.len() && g != f ==> #[trigger] w2[g] == w[g],
        0 <= k <= w.len(),
    ensures
        marked(w2, k) == marked(w, k) + if f < k { 1nat } else { 0nat },
    decreases k,
{
    if k > 0 {
        lemma_marked_mark(w, w2, f, p, k - 1);
        if k - 1 == f {
            lemma_trues_mark(w[f]@, p);
        } else {
            assert(w2[k - 1] == w[k - 1]);
        }
    }
}

proof fn lemma_run_far(ps: Seq<Piece>, s: Seq<bool>, k: int)
    requires
        0 <= k <= ps.len(),
    ensures
        pieces_size(ps, s, k) <= far_size(ps, k),
    decreases k,
{
    if k > 0 {
        lemma_run_far(ps, s, k - 1);
    }
}

proof fn lemma_far_bound(fs: Seq<Vec<Piece>>, w: Seq<Vec<bool>>, k: int)
    requires
        same_shape(fs, w),
        0 <= k <= fs.len(),
    ensures
        base_of(fs, w, k) <= far_total(fs, k),
    decreases k,
{
    if k > 0 {
        lemma_far_bound(fs, w, k - 1);
        lemma_run_far(fs[k - 1]@, w[k - 1]@, fs[k - 1]@.len() as int);
    }
}

/// Making calls short shrinks every run of pieces.
proof fn lemma_run_shrinks(ps: Seq<Piece>, s: Seq<bool>, s2: Seq<bool>, j: int, k: int)
    requires
        0 <= j <= k <= ps.len(),
        s.len() == ps.len(),
        s2.len() == ps.len(),
        forall|q: int| 0 <= q < ps.len() && #[trigger] s[q] ==> s2[q],
    ensures
        0 <= pieces_size(ps, s2, k) - pieces_size(ps, s2, j) <= pieces_size(ps, s, k) - pieces_size(ps, s, j),
    decreases k - j,
{
    if j < k {
        lemma_run_shrinks(ps, s, s2, j, k - 1);
        if s[k - 1] {
            assert(s2[k - 1]);
        }
    }
}

/// Making calls short shrinks the distance between function starts.
proof fn lemma_bases_shrink(fs: Seq<Vec<Piece>>, w: Seq<Vec<bool>>, w2: Seq<Vec<bool>>, f: int, g: int)
    requires
        same_shape(fs, w),
        same_shape(fs, w2),
        widens_to(w, w2),
        0 <= f <= g <= fs.len(),
    ensures
        0 <= base_of(fs, w2, g) - base_of(fs, w2, f) <= base_of(fs, w, g) - base_of(fs, w, f),
    decreases g - f,
{
    if f < g {
        lemma_bases_shrink(fs, w, w2, f, g - 1);
        let h = g - 1;
        assert(w[h]@.len() == fs[h]@.len());
        assert(w2[h]@.len() == fs[h]@.len());
        assert forall|q: int| 0 <= q < fs[h]@.len() && #[trigger] w[h]@[q] implies w2[h]@[q] by {}
        lemma_run_shrinks(fs[h]@, w[h]@, w2[h]@, 0, fs[h]@.len() as int);
    }
}

/// Making calls short shrinks the distance between any two piece
/// boundaries, the earlier first.
proof fn lemma_span_shrinks(fs: Seq<Vec<Piece>>, w: Seq<Vec<bool>>, w2: Seq<Vec<bool>>, f1: int, p1: int, f2: int, p2: int)
    requires
        same_shape(fs, w),
        same_shape(fs, w2),
        widens_to(w, w2),
        0 <= f1 <= f2 < fs.len(),
        0 <= p1 <= fs[f1]@.len(),
        0 <= p2 <= fs[f2]@.len(),
        f1 == f2 ==> p1 <= p2,
    ensures
        0 <= piece_pos(fs, w2, f2, p2) - piece_pos(fs, w2, f1, p1) <= piece_pos(fs, w, f2, p2) - piece_pos(fs, w, f1, p1),
{
    assert(w[f1]@.len() == fs[f1]@.len() && w2[f1]@.len() == fs[f1]@.len());
    assert(w[f2]@.len() == fs[f2]@.len() && w2[f2]@.len() == fs[f2]@.len());
    assert forall|q: int| 0 <= q < fs[f1]@.len() && #[trigger] w[f1]@[q] implies w2[f1]@[q] by {}
    assert forall|q: int| 0 <= q < fs[f2]@.len() && #[trigger] w[f2]@[q] implies w2[f2]@[q] by {}
    if f1 == f2 {
        lemma_run_shrinks(fs[f1]@, w[f1]@, w2[f1]@, p1, p2);
    } else {
        let n1 = fs[f1]@.len() as int;
        lemma_run_shrinks(fs[f1]@, w[f1]@, w2[f1]@, p1, n1);
        lemma_run_shrinks(fs[f2]@, w[f2]@, w2[f2]@, 0, p2);
        lemma_bases_shrink(fs, w, w2, f1 + 1, f2);
    }
}

/// A call that reached its callee (far under `w`, or short) still reaches
/// it short once more calls are short.
proof fn lemma_short_call_fits(fs: Seq<Vec<Piece>>, w: Seq<Vec<bool>>, w2: Seq<Vec<bool>>, f: int, p: int)
    requires
        same_shape(fs, w),
        same_shape(fs, w2),
        widens_to(w, w2),
        0 <= f < fs.len(),
        0 <= p < fs[f]@.len(),
        fs[f]@[p] is CallSite,
        callee_of(fs[f]@[p]) < fs.len(),
        w2[f]@[p],
        if w[f]@[p] { fits_i8(call_offset(fs, w, f, p, 2)) } else { fits_i8(call_offset(fs, w, f, p, 5)) },
    ensures
        fits_i8(call_offset(fs, w2, f, p, 2)),
{
    let c = callee_of(fs[f]@[p]) as int;
    assert(w[f]@.len() == fs[f]@.len() && w2[f]@.len() == fs[f]@.len());
    assert(pieces_size(fs[f]@, w[f]@, p + 1) == pieces_size(fs[f]@, w[f]@, p) + spec_piece_size(fs[f]@[p], w[f]@[p]));
    assert(pieces_size(fs[f]@, w2[f]@, p + 1) == pieces_size(fs[f]@, w2[f]@, p) + spec_piece_size(fs[f]@[p], w2[f]@[p]));
    assert(pieces_size(fs[c]@, w[c]@, 0) == 0);
    assert(pieces_size(fs[c]@, w2[c]@, 0) == 0);
    if c > f {
        lemma_span_shrinks(fs, w, w2, f, p + 1, c, 0);
    } else {
        lemma_span_shrinks(fs, w, w2, c, 0, f, p);
    }
}

/// A far call that reaches its callee in a byte still does once other
/// calls are short.
proof fn lemma_far_call_fits(fs: Seq<Vec<Piece>>, w: Seq<Vec<bool>>, w2: Seq<Vec<bool>>, f: int, p: int)
    requires
        same_shape(fs, w),
        same_shape(fs, w2),
        widens_to(w, w2),
        0 <= f < fs.len(),
        0 <= p < fs[f]@.len(),
        fs[f]@[p] is CallSite,
        callee_of(fs[f]@[p]) < fs.len(),
        !w[f]@[p],
        !w2[f]@[p],
        fits_i8(call_offset(fs, w, f, p, 5)),
    ensures
        fits_i8(call_offset(fs, w2, f, p, 5)),
{
    let c = callee_of(fs[f]@[p]) as int;
    assert(w[f]@.len() == fs[f]@.len() && w2[f]@.len() == fs[f]@.len());
    assert(pieces_size(fs[f]@, w[f]@, p + 1) == pieces_size(fs[f]@, w[f]@, p) + spec_piece_size(fs[f]@[p], w[f]@[p]));
    assert(pieces_size(fs[f]@, w2[f]@, p + 1) == pieces_size(fs[f]@, w2[f]@, p) + spec_piece_size(fs[f]@[p], w2[f]@[p]));
    assert(pieces_size(fs[c]@, w[c]@, 0) == 0);
    assert(pieces_size(fs[c]@, w2[c]@, 0) == 0);
    if c > f {
        lemma_span_shrinks(fs, w, w2, f, p + 1, c, 0);
    } else {
        lemma_span_shrinks(fs, w, w2, c, 0, f, p);
    }
}

/// Widths closed under relaxation: every call with a short form that is
/// left far would not reach its callee in a byte under them.
pub open spec fn relax_closed(fs: Seq<Vec<Piece>>, hs: Seq<Vec<bool>>, w: Seq<Vec<bool>>) -> bool {
    &&& same_shape(fs, w)
    &&& forall|f: int, p: int| 0 <= f < fs.len() && 0 <= p < fs[f]@.len() && candidate(fs, hs, f, p)
        && !(#[trigger] w[f]@[p]) ==> !fits_i8(call_offset(fs, w, f, p, 5))
}

/// A copy of a width row with call `p` made short.
fn with_mark(row: &Vec<bool>, p: usize) -> (r: Vec<bool>)
    requires
        p < row@.len(),
    ensures
        r@ == row@.update(p as int, true),
{
    let mut out: Vec<bool> = Vec::new();
    let mut i: usize = 0;
    while i < row.len()
        invariant
            i <= row@.len(),
            p < row@.len(),
            out@ == row@.update(p as int, true).take(i as int),
        decreases row@.len() - i,
    {
        out.push(if i == p { true } else { row[i] });
        proof {
            assert(row@.update(p as int, true).take(i + 1) =~= row@.update(p as int, true).take(i as int).push(
                row@.update(p as int, true)[i as int],
            ));
        }
        i = i + 1;
    }
    proof {
        assert(row@.update(p as int, true).take(row@.len() as int) =~= row@.update(p as int, true));
    }
    out
}

/// Decide which calls are emitted short. Every call starts far; when
/// `relax` is set, passes over the current layout make short every
/// call with a short form whose far displacement to its callee fits a
/// byte, until a pass changes nothing. Calls only ever shrink, so every
/// call made short still reaches its callee in the final layout, and no
/// call left far (with a short form) would reach it from there.
pub fn relax_widths(functions: &Vec<Vec<Piece>>, has_short: &Vec<Vec<bool>>, relax: bool) -> (r: Vec<Vec<bool>>)
    requires
        same_shape(functions@, has_short@),
        far_total(functions@, functions@.len() as int) <= u32::MAX,
        forall|f: int, p: int| 0 <= f < functions@.len() && 0 <= p < functions@[f]@.len()
            && (#[trigger] functions@[f]@[p]) is CallSite ==> callee_of(functions@[f]@[p]) < functions@.len(),
    ensures
        same_shape(functions@, r@),
        forall|f: int, p: int| 0 <= f < r@.len() && 0 <= p < r@[f]@.len() && #[trigger] r@[f]@[p]
            ==> candidate(functions@, has_short@, f, p) && fits_i8(call_offset(functions@, r@, f, p, 2)),
        !relax ==> forall|f: int, p: int| 0 <= f < r@.len() && 0 <= p < r@[f]@.len() ==> !(#[trigger] r@[f]@[p]),
        relax ==> relax_closed(functions@, has_short@, r@),
        relax ==> forall|s: Seq<Vec<bool>>| #[trigger] relax_closed(functions@, has_short@, s) ==> widens_to(r@, s),
{
    let ghost fs = functions@;
    let ghost hs = has_short@;
    let n = functions.len();
    let mut widths: Vec<Vec<bool>> = Vec::new();
    let mut f: usize = 0;
    while f < n
        invariant
            n == fs.len(),
            fs == functions@,
            f <= n,
            widths@.len() == f,
            forall|g: int| 0 <= g < f ==> (#[trigger] widths@[g])@ == Seq::new(fs[g]@.len(), |q: int| false),
        decreases n - f,
    {
        let mut row: Vec<bool> = Vec::new();
        let mut q: usize = 0;
        while q < functions[f].len()
            invariant
                f < n,
                n == functions@.len(),
                q <= functions@[f as int]@.len(),
                row@ == Seq::new(q as nat, |x: int| false),
            decreases functions@[f as int]@.len() - q,
        {
            row.push(false);
            proof {
                assert(row@ =~= Seq::new((q + 1) as nat, |x: int| false));
            }
            q = q + 1;
        }
        widths.push(row);
        f = f + 1;
    }
    if !relax {
        return widths;
    }
    let mut grew = true;
    proof {
        assert forall|sw: Seq<Vec<bool>>| #[trigger] relax_closed(fs, hs, sw) implies widens_to(widths@, sw) by {
            assert forall|g: int| 0 <= g < widths@.len() implies (#[trigger] sw[g])@.len() == widths@[g]@.len() by {
                assert(widths@[g]@ == Seq::new(fs[g]@.len(), |q: int| false));
            }
            assert forall|g: int, q: int| 0 <= g < widths@.len() && 0 <= q < widths@[g]@.len() && #[trigger] widths@[g]@[q]
                implies sw[g]@[q] by {
                assert(widths@[g]@ == Seq::new(fs[g]@.len(), |x: int| false));
            }
        }
    }
    while grew
        invariant
            fs == functions@,
            hs == has_short@,
            n == fs.len(),
            same_shape(fs, hs),
            same_shape(fs, widths@),
            far_total(fs, n as int) <= u32::MAX,
            forall|g: int, p: int| 0 <= g < n && 0 <= p < fs[g]@.len() && (#[trigger] fs[g]@[p]) is CallSite
                ==> callee_of(fs[g]@[p]) < n,
            forall|g: int, p: int| 0 <= g < n && 0 <= p < widths@[g]@.len() && #[trigger] widths@[g]@[p]
                ==> candidate(fs, hs, g, p) && fits_i8(call_offset(fs, widths@, g, p, 2)),
            !grew ==> forall|g: int, p: int| 0 <= g < n && 0 <= p < widths@[g]@.len()
                && candidate(fs, hs, g, p) && !(#[trigger] widths@[g]@[p])
                ==> !fits_i8(call_offset(fs, widths@, g, p, 5)),
            forall|s: Seq<Vec<bool>>| #[trigger] relax_closed(fs, hs, s) ==> widens_to(widths@, s),
        decreases piece_count(fs, n as int) - marked(widths@, n as int) + if grew { 1int } else { 0int },
    {
        proof {
            lemma_marked_bound(fs, widths@, n as int);
            lemma_far_bound(fs, widths@, n as int);
        }
        let (bases, offsets) = layout_pass(functions, &widths);
        let ghost start = widths@;
        grew = false;
        let mut fi: usize = 0;
        while fi < n
            invariant
                fs == functions@,
                hs == has_short@,
                n == fs.len(),
                same_shape(fs, hs),
                same_shape(fs, start),
                same_shape(fs, widths@),
                widens_to(start, widths@),
                forall|s: Seq<Vec<bool>>| #[trigger] relax_closed(fs, hs, s) ==> widens_to(widths@, s),
                forall|s: Seq<Vec<bool>>| #[trigger] relax_closed(fs, hs, s) ==> widens_to(start, s),
                forall|g: int, p: int| 0 <= g < n && 0 <= p < fs[g]@.len() && (#[trigger] fs[g]@[p]) is CallSite
                    ==> callee_of(fs[g]@[p]) < n,
                bases@.len() == n,
                offsets@.len() == n,
                forall|g: int| 0 <= g < n ==> #[trigger] bases@[g] == base_of(fs, start, g),
                forall|g: int| 0 <= g < n ==> (#[trigger] offsets@[g])@.len() == fs[g]@.len(),
                forall|g: int, p: int| 0 <= g < n && 0 <= p < offsets@[g]@.len() ==>
                    #[trigger] offsets@[g]@[p] == pieces_size(fs[g]@, start[g]@, p),
                fi <= n,
                forall|g: int, p: int| 0 <= g < n && 0 <= p < widths@[g]@.len() && #[trigger] widths@[g]@[p]
                    ==> candidate(fs, hs, g, p) && fits_i8(call_offset(fs, widths@, g, p, 2)),
                !grew ==> widths@ == start,
                grew ==> marked(widths@, n as int) > marked(start, n as int),
                marked(widths@, n as int) >= marked(start, n as int),
                forall|g: int, p: int| 0 <= g < fi && 0 <= p < fs[g]@.len() && candidate(fs, hs, g, p)
                    && !(#[trigger] widths@[g]@[p]) ==> !fits_i8(call_offset(fs, start, g, p, 5)),
            decreases n - fi,
        {
            let mut pi: usize = 0;
            while pi < functions[fi].len()
                invariant
                    fs == functions@,
                    hs == has_short@,
                    n == fs.len(),
                    fi < n,
                    same_shape(fs, hs),
                    same_shape(fs, start),
                    same_shape(fs, widths@),
                    widens_to(start, widths@),
                    forall|s: Seq<Vec<bool>>| #[trigger] relax_closed(fs, hs, s) ==> widens_to(widths@, s),
                    forall|s: Seq<Vec<bool>>| #[trigger] relax_closed(fs, hs, s) ==> widens_to(start, s),
                    forall|g: int, p: int| 0 <= g < n && 0 <= p < fs[g]@.len() && (#[trigger] fs[g]@[p]) is CallSite
                        ==> callee_of(fs[g]@[p]) < n,
                    bases@.len() == n,
                    offsets@.len() == n,
                    forall|g: int| 0 <= g < n ==> #[trigger] bases@[g] == base_of(fs, start, g),
                    forall|g: int| 0 <= g < n ==> (#[trigger] offsets@[g])@.len() == fs[g]@.len(),
                    forall|g: int, p: int| 0 <= g < n && 0 <= p < offsets@[g]@.len() ==>
                        #[trigger] offsets@[g]@[p] == pieces_size(fs[g]@, start[g]@, p),
                    pi <= fs[fi as int]@.len(),
                    forall|g: int, p: int| 0 <= g < n && 0 <= p < widths@[g]@.len() && #[trigger] widths@[g]@[p]
                        ==> candidate(fs, hs, g, p) && fits_i8(call_offset(fs, widths@, g, p, 2)),
                    !grew ==> widths@ == start,
                    grew ==> marked(widths@, n as int) > marked(start, n as int),
                    marked(widths@, n as int) >= marked(start, n as int),
                    forall|g: int, p: int| 0 <= g < fi && 0 <= p < fs[g]@.len() && candidate(fs, hs, g, p)
                        && !(#[trigger] widths@[g]@[p]) ==> !fits_i8(call_offset(fs, start, g, p, 5)),
                    forall|p: int| 0 <= p < pi && candidate(fs, hs, fi as int, p)
                        && !(#[trigger] widths@[fi as int]@[p]) ==> !fits_i8(call_offset(fs, start, fi as int, p, 5)),
                decreases fs[fi as int]@.len() - pi,
            {
                proof {
                    assert(widths@[fi as int]@.len() == fs[fi as int]@.len());
                    assert(has_short@[fi as int]@.len() == fs[fi as int]@.len());
                    assert(offsets@[fi as int]@.len() == fs[fi as int]@.len());
                }
                if let Piece::CallSite { callee, .. } = &functions[fi][pi] {
                    if !widths[fi][pi] && has_short[fi][pi] {
                        proof {
                            assert(fs[fi as int]@[pi as int] is CallSite);
                            assert((*callee as int) < n);
                        }
                        let end: i64 = bases[fi] as i64 + offsets[fi][pi] as i64 + 5;
                        let off: i64 = bases[*callee] as i64 - end;
                        if -128 <= off && off <= 127 {
                            let ghost before = widths@;
                            let row = with_mark(&widths[fi], pi);
                            widths.set(fi, row);
                            proof {
                                let after = widths@;
                                assert(call_offset(fs, start, fi as int, pi as int, 5) == off);
                                assert(!start[fi as int]@[pi as int]);
                                lemma_marked_mark(before, after, fi as int, pi as int, n as int);
                                assert(same_shape(fs, after));
                                assert(widens_to(start, after));
                                assert(widens_to(before, after));
                                lemma_short_call_fits(fs, start, after, fi as int, pi as int);
                                assert forall|g: int, p: int| 0 <= g < n && 0 <= p < after[g]@.len() && #[trigger] after[g]@[p]
                                    implies candidate(fs, hs, g, p) && fits_i8(call_offset(fs, after, g, p, 2)) by {
                                    if g != fi || p != pi {
                                        assert(before[g]@[p]);
                                        lemma_short_call_fits(fs, before, after, g, p);
                                    }
                                }
                                assert forall|g: int, p: int| 0 <= g < fi && 0 <= p < fs[g]@.len() && candidate(fs, hs, g, p)
                                    && !(#[trigger] after[g]@[p]) implies !fits_i8(call_offset(fs, start, g, p, 5)) by {
                                    assert(after[g] == before[g]);
                                }
                                assert forall|sw: Seq<Vec<bool>>| #[trigger] relax_closed(fs, hs, sw) implies widens_to(after, sw) by {
                                    assert(widens_to(start, sw));
                                    assert(widens_to(before, sw));
                                    assert(sw[fi as int]@.len() == fs[fi as int]@.len());
                                    if !sw[fi as int]@[pi as int] {
                                        lemma_far_call_fits(fs, start, sw, fi as int, pi as int);
                                        assert(candidate(fs, hs, fi as int, pi as int));
                                    }
                                    assert forall|g: int, q: int| 0 <= g < after.len() && 0 <= q < after[g]@.len() && #[trigger] after[g]@[q]
                                        implies sw[g]@[q] by {
                                        if g != fi || q != pi {
                                            assert(before[g]@[q]);
                                        }
                                    }
                                }
                                assert forall|p: int| 0 <= p < pi && candidate(fs, hs, fi as int, p)
                                    && !(#[trigger] after[fi as int]@[p]) implies !fits_i8(call_offset(fs, start, fi as int, p, 5)) by {
                                    assert(after[fi as int]@[p] == before[fi as int]@[p]);
                                }
                            }
                            grew = true;
                        }
                    }
                }
                pi = pi + 1;
            }
            fi = fi + 1;
        }
        proof {
            lemma_marked_bound(fs, widths@, n as int);
        }
    }
    widths
}

/// The short form of a far call opcode: the first pair naming it.
pub open spec fn short_opcode(pairs: Seq<(u8, u8)>, far: u8) -> Option<u8>
    decreases pairs.len(),
{
    if pairs.len() == 0 {
        None
    } else if pairs[0].0 == far {
        Some(pairs[0].1)
    } else {
        short_opcode(pairs.drop_first(), far)
    }
}

/// The piece starting at `orig` in the original blob: the last such.
pub open spec fn piece_at(ps: Seq<Piece>, orig: u32) -> Option<int>
    decreases ps.len(),
{
    if ps.len() == 0 {
        None
    } else if ps.last().spec_orig() == orig {
        Some(ps.len() - 1)
    } else {
        piece_at(ps.drop_last(), orig)
    }
}

/// A displacement a far call or long jump can carry.
pub open spec fn fits_i32(x: int) -> bool {
    -0x8000_0000 <= x <= 0x7fff_ffff
}

/// Where piece `p` of function `f` ends in the laid-out code.
pub open spec fn piece_end(fs: Seq<Vec<Piece>>, w: Seq<Vec<bool>>, f: int, p: int) -> int {
    piece_pos(fs, w, f, p) + spec_piece_size(fs[f]@[p], w[f]@[p])
}

/// The displacement of a jump to the piece starting at `target` of its
/// function, from the jump's end.
pub open spec fn jump_offset(fs: Seq<Vec<Piece>>, w: Seq<Vec<bool>>, f: int, p: int, j: int) -> int {
    piece_pos(fs, w, f, j) - piece_end(fs, w, f, p)
}

/// A piece's emitted code, or the offset at which its blob is malformed
/// (a jump to no piece boundary of its function): verbatim bytes as they
/// stand; a jump at its original width re-aimed at its target's new
/// place; a short call as its short opcode and a byte displacement, a far
/// call as its opcode and a four-byte one; a framed call as its opcode, a
/// four-byte displacement and its original frame half.
pub open spec fn piece_code(fs: Seq<Vec<Piece>>, w: Seq<Vec<bool>>, f: int, blob: Seq<u8>, pairs: Seq<(u8, u8)>, p: int) -> Result<Seq<u8>, u32> {
    match fs[f]@[p] {
        Piece::Verbatim { bytes, .. } => Ok(bytes@),
        Piece::Jump { orig, opcode, width, orig_target } => match piece_at(fs[f]@, orig_target) {
            None => Err(orig),
            Some(j) => if width == 1 {
                Ok(seq![opcode, jump_offset(fs, w, f, p, j) as u8])
            } else {
                Ok(seq![opcode] + le32(jump_offset(fs, w, f, p, j) as u32))
            },
        },
        Piece::CallSite { orig, .. } => if w[f]@[p] {
            Ok(seq![short_opcode(pairs, blob[orig as int])->Some_0, call_offset(fs, w, f, p, 2) as u8])
        } else {
            Ok(seq![blob[orig as int]] + le32(call_offset(fs, w, f, p, 5) as u32))
        },
        Piece::FramedCall { orig, .. } => Ok(seq![blob[orig as int]] + le32(call_offset(fs, w, f, p, 9) as u32)
            + blob.subrange(orig + 5, orig + 9)),
    }
}

/// The code of a function's first `k` pieces, or where the first
/// malformed one is malformed.
pub open spec fn function_code(fs: Seq<Vec<Piece>>, w: Seq<Vec<bool>>, f: int, blob: Seq<u8>, pairs: Seq<(u8, u8)>, k: int) -> Result<Seq<u8>, u32>
    decreases k,
{
    if k <= 0 {
        Ok(seq![])
    } else {
        match function_code(fs, w, f, blob, pairs, k - 1) {
            Ok(c) => match piece_code(fs, w, f, blob, pairs, k - 1) {
                Ok(b) => Ok(c + b),
                Err(a) => Err(a),
            },
            Err(a) => Err(a),
        }
    }
}

/// How many of a function's first `k` pieces are short calls.
pub open spec fn short_calls(ps: Seq<Piece>, s: Seq<bool>, k: int) -> nat
    decreases k,
{
    if k <= 0 {
        0
    } else {
        short_calls(ps, s, k - 1) + if ps[k - 1] is CallSite && s[k - 1] { 1nat } else { 0nat }
    }
}

/// How many of a function's first `k` pieces are far or framed calls.
pub open spec fn far_calls(ps: Seq<Piece>, s: Seq<bool>, k: int) -> nat
    decreases k,
{
    if k <= 0 {
        0
    } else {
        far_calls(ps, s, k - 1) + if (ps[k - 1] is CallSite && !s[k - 1]) || ps[k - 1] is FramedCall { 1nat } else { 0nat }
    }
}

/// Every piece of function `f` can be emitted: jumps are one or four
/// bytes wide and their new displacement fits that width; calls name a
/// function, read their opcode inside the blob, a short call has a short
/// form and reaches its callee in a byte, and every other displacement
/// fits four bytes.
pub open spec fn emittable(fs: Seq<Vec<Piece>>, w: Seq<Vec<bool>>, f: int, blob: Seq<u8>, pairs: Seq<(u8, u8)>) -> bool {
    forall|p: int| 0 <= p < fs[f]@.len() ==> match #[trigger] fs[f]@[p] {
        Piece::Verbatim { .. } => true,
        Piece::Jump { width, orig_target, .. } => (width == 1 || width == 4) && match piece_at(fs[f]@, orig_target) {
            None => true,
            Some(j) => if width == 1 {
                fits_i8(jump_offset(fs, w, f, p, j))
            } else {
                fits_i32(jump_offset(fs, w, f, p, j))
            },
        },
        Piece::CallSite { orig, callee } => (orig as int) < blob.len() && (callee as int) < fs.len() && if w[f]@[p] {
            short_opcode(pairs, blob[orig as int]) is Some && fits_i8(call_offset(fs, w, f, p, 2))
        } else {
            fits_i32(call_offset(fs, w, f, p, 5))
        },
        Piece::FramedCall { orig, callee } => orig + 9 <= blob.len() && (callee as int) < fs.len()
            && fits_i32(call_offset(fs, w, f, p, 9)),
    }
}

proof fn lemma_code_stop(fs: Seq<Vec<Piece>>, w: Seq<Vec<bool>>, f: int, blob: Seq<u8>, pairs: Seq<(u8, u8)>, m: int, n: int)
    requires
        0 <= m <= n,
        function_code(fs, w, f, blob, pairs, m) is Err,
    ensures
        function_code(fs, w, f, blob, pairs, n) == function_code(fs, w, f, blob, pairs, m),
    decreases n - m,
{
    if m < n {
        lemma_code_stop(fs, w, f, blob, pairs, m + 1, n);
    }
}

fn find_short(pairs: &[(u8, u8)], far: u8) -> (r: Option<u8>)
    ensures
        r == short_opcode(pairs@, far),
{
    let mut i: usize = 0;
    proof {
        assert(pairs@.skip(0) =~= pairs@);
    }
    while i < pairs.len()
        invariant
            i <= pairs@.len(),
            short_opcode(pairs@, far) == short_opcode(pairs@.skip(i as int), far),
        decreases pairs@.len() - i,
    {
        proof {
            assert(pairs@.skip(i as int).drop_first() =~= pairs@.skip(i + 1));
            assert(pairs@.skip(i as int)[0] == pairs@[i as int]);
        }
        if pairs[i].0 == far {
            return Some(pairs[i].1);
        }
        i = i + 1;
    }
    proof {
        assert(pairs@.skip(i as int) =~= Seq::<(u8, u8)>::empty());
    }
    None
}

fn find_piece(ps: &Vec<Piece>, orig: u32) -> (r: Option<usize>)
    ensures
        match piece_at(ps@, orig) {
            Some(j) => r == Some(j as usize) && 0 <= j < ps@.len(),
            None => r is None,
        },
{
    let mut i: usize = ps.len();
    proof {
        assert(ps@.take(i as int) =~= ps@);
        lemma_piece_at_range(ps@, orig);
    }
    while i > 0
        invariant
            i <= ps@.len(),
            piece_at(ps@, orig) == piece_at(ps@.take(i as int), orig),
            forall|j: int| piece_at(ps@.take(i as int), orig) == Some(j) ==> 0 <= j < i,
        decreases i,
    {
        let ghost t = ps@.take(i as int);
        proof {
            assert(t.drop_last() =~= ps@.take(i - 1));
            assert(t.last() == ps@[i - 1]);
            lemma_piece_at_range(ps@.take(i - 1), orig);
        }
        if ps[i - 1].orig() == orig {
            return Some(i - 1);
        }
        i = i - 1;
    }
    None
}

proof fn lemma_piece_at_range(ps: Seq<Piece>, orig: u32)
    ensures
        piece_at(ps, orig) matches Some(j) ==> 0 <= j < ps.len(),
    decreases ps.len(),
{
    if ps.len() > 0 {
        lemma_piece_at_range(ps.drop_last(), orig);
    }
}

/// Emit function `f`'s code from its pieces under the final widths and
/// layout (see [`function_code`]), counting its short calls and its far
/// and framed ones; a jump to no piece boundary of its function is a
/// malformed blob at the jump.
pub fn emit_function(
    code: &mut Vec<u8>,
    functions: &Vec<Vec<Piece>>,
    widths: &Vec<Vec<bool>>,
    bases: &Vec<u32>,
    offsets: &Vec<u32>,
    f: usize,
    blob: &Vec<u8>,
    name: &str,
    pairs: &[(u8, u8)],
) -> (r: Result<(u32, u32), LinkError>)
    requires
        same_shape(functions@, widths@),
        f < functions@.len(),
        base_of(functions@, widths@, functions@.len() as int) <= u32::MAX,
        bases@.len() == functions@.len(),
        forall|g: int| 0 <= g < bases@.len() ==> #[trigger] bases@[g] == base_of(functions@, widths@, g),
        offsets@.len() == functions@[f as int]@.len(),
        forall|p: int| 0 <= p < offsets@.len() ==> #[trigger] offsets@[p] == pieces_size(functions@[f as int]@, widths@[f as int]@, p),
        emittable(functions@, widths@, f as int, blob@, pairs@),
    ensures
        match function_code(functions@, widths@, f as int, blob@, pairs@, functions@[f as int]@.len() as int) {
            Ok(bytes) => final(code)@ == old(code)@ + bytes && (r matches Ok((s, l))
                && s + l <= pieces_size(functions@[f as int]@, widths@[f as int]@, functions@[f as int]@.len() as int)
                && s == short_calls(functions@[f as int]@, widths@[f as int]@, functions@[f as int]@.len() as int)
                && l == far_calls(functions@[f as int]@, widths@[f as int]@, functions@[f as int]@.len() as int)),
            Err(a) => r matches Err(LinkError::MalformedBlob { symbol, at }) && symbol@ == name@ && at == a,
        },
{
    let ghost fs = functions@;
    let ghost w = widths@;
    let ghost start_code = code@;
    let pieces = &functions[f];
    let ghost ps = pieces@;
    let n = pieces.len();
    let base = bases[f];
    let mut relaxed: u32 = 0;
    let mut far: u32 = 0;
    let mut p: usize = 0;
    proof {
        assert(w[f as int]@.len() == ps.len());
        lemma_base_mono(fs, w, f as int, fs.len() as int);
        lemma_base_mono(fs, w, f + 1, fs.len() as int);
        assert(base_of(fs, w, f + 1) == base + pieces_size(ps, w[f as int]@, n as int));
    }
    while p < n
        invariant
            fs == functions@,
            w == widths@,
            ps == fs[f as int]@,
            *pieces == fs[f as int],
            n == ps.len(),
            w[f as int]@.len() == ps.len(),
            same_shape(fs, w),
            f < fs.len(),
            base_of(fs, w, fs.len() as int) <= u32::MAX,
            base_of(fs, w, f + 1) <= base_of(fs, w, fs.len() as int),
            base == base_of(fs, w, f as int),
            bases@.len() == fs.len(),
            forall|g: int| 0 <= g < bases@.len() ==> #[trigger] bases@[g] == base_of(fs, w, g),
            offsets@.len() == ps.len(),
            forall|q: int| 0 <= q < offsets@.len() ==> #[trigger] offsets@[q] == pieces_size(ps, w[f as int]@, q),
            emittable(fs, w, f as int, blob@, pairs@),
            p <= n,
            relaxed == short_calls(ps, w[f as int]@, p as int),
            far == far_calls(ps, w[f as int]@, p as int),
            relaxed + far <= pieces_size(ps, w[f as int]@, p as int),
            pieces_size(ps, w[f as int]@, n as int) <= u32::MAX,
            function_code(fs, w, f as int, blob@, pairs@, p as int) matches Ok(c) && code@ == start_code + c,
            start_code == old(code)@,
        decreases n - p,
    {
        let ghost c = function_code(fs, w, f as int, blob@, pairs@, p as int)->Ok_0;
        proof {
            let pc = fs[f as int]@[p as int];
            assert(pc == ps[p as int]);
            lemma_pieces_size_mono(ps, w[f as int]@, p + 1, n as int);
            assert(pieces_size(ps, w[f as int]@, p + 1) == pieces_size(ps, w[f as int]@, p as int) + spec_piece_size(ps[p as int], w[f as int]@[p as int]));
        }
        let start: i64 = base as i64 + offsets[p] as i64;
        match &pieces[p] {
            Piece::Verbatim { bytes, .. } => {
                let mut i: usize = 0;
                let ghost before = code@;
                while i < bytes.len()
                    invariant
                        i <= bytes@.len(),
                        code@ == before + bytes@.take(i as int),
                    decreases bytes@.len() - i,
                {
                    code.push(bytes[i]);
                    proof {
                        assert(bytes@.take(i + 1) =~= bytes@.take(i as int).push(bytes@[i as int]));
                    }
                    i = i + 1;
                }
                proof {
                    assert(bytes@.take(bytes@.len() as int) =~= bytes@);
                }
            },
            Piece::Jump { orig, opcode, width, orig_target } => {
                match find_piece(pieces, *orig_target) {
                    None => {
                        proof {
                            assert(function_code(fs, w, f as int, blob@, pairs@, p + 1) == Err::<Seq<u8>, u32>(*orig));
                            lemma_code_stop(fs, w, f as int, blob@, pairs@, p + 1, n as int);
                        }
                        return Err(LinkError::MalformedBlob { symbol: name.to_owned(), at: *orig });
                    },
                    Some(j) => {
                        let end: i64 = start + 1 + *width as i64;
                        let off: i64 = base as i64 + offsets[j] as i64 - end;
                        proof {
                            assert(off == jump_offset(fs, w, f as int, p as int, j as int));
                        }
                        code.push(*opcode);
                        if *width == 1 {
                            code.push(off as u8);
                        } else {
                            push_le32(code, off as u32);
                        }
                    },
                }
            },
            Piece::CallSite { orig, callee } => {
                let op = blob[*orig as usize];
                let target: i64 = bases[*callee] as i64;
                if widths[f][p] {
                    let short = match find_short(pairs, op) {
                        Some(s) => s,
                        None => op,
                    };
                    let off: i64 = target - (start + 2);
                    code.push(short);
                    code.push(off as u8);
                    relaxed = relaxed + 1;
                } else {
                    let off: i64 = target - (start + 5);
                    code.push(op);
                    push_le32(code, off as u32);
                    far = far + 1;
                }
            },
            Piece::FramedCall { orig, callee } => {
                let op = blob[*orig as usize];
                let target: i64 = bases[*callee] as i64;
                let off: i64 = target - (start + 9);
                code.push(op);
                push_le32(code, off as u32);
                let o = *orig as usize;
                let blen = blob.len();
                proof {
                    assert(fs[f as int]@[p as int] == ps[p as int]);
                    assert(o + 9 <= blen);
                }
                code.push(blob[o + 5]);
                code.push(blob[o + 6]);
                code.push(blob[o + 7]);
                code.push(blob[o + 8]);
                proof {
                    assert(blob@.subrange(o + 5, o + 9) =~= seq![blob@[o + 5], blob@[o + 6], blob@[o + 7], blob@[o + 8]]);
                }
                far = far + 1;
            },
        }
        proof {
            let b = piece_code(fs, w, f as int, blob@, pairs@, p as int)->Ok_0;
            assert(code@ =~= start_code + (c + b));
        }
        p = p + 1;
    }
    proof {
        assert(pieces@ == ps);
    }
    Ok((relaxed, far))
}

/// Where a piece starts in its original blob.
pub open spec fn shape_orig(s: PieceShape) -> u32 {
    match s {
        PieceShape::Verbatim { orig, .. } => orig,
        PieceShape::Jump { orig, .. } => orig,
        PieceShape::CallSite { orig, .. } => orig,
        PieceShape::FramedCall { orig, .. } => orig,
    }
}

/// A piece's size with its call, if any, far.
pub open spec fn shape_far(s: PieceShape) -> int {
    match s {
        PieceShape::Verbatim { bytes, .. } => (bytes.len() as u32) as int,
        PieceShape::Jump { width, .. } => 1 + width,
        PieceShape::CallSite { .. } => 5,
        PieceShape::FramedCall { .. } => 9,
    }
}

/// The size of the first `k` pieces with every call far.
pub open spec fn shapes_far(ps: Seq<PieceShape>, k: int) -> int
    decreases k,
{
    if k <= 0 {
        0
    } else {
        shapes_far(ps, k - 1) + shape_far(ps[k - 1])
    }
}

/// The size of the first `k` functions with every call far.
pub open spec fn shapes_total(shapes: Seq<Seq<PieceShape>>, k: int) -> int
    decreases k,
{
    if k <= 0 {
        0
    } else {
        shapes_total(shapes, k - 1) + shapes_far(shapes[k - 1], shapes[k - 1].len() as int)
    }
}

/// The piece starting at `orig`: the last such.
pub open spec fn shape_at(ps: Seq<PieceShape>, orig: u32) -> Option<int>
    decreases ps.len(),
{
    if ps.len() == 0 {
        None
    } else if shape_orig(ps.last()) == orig {
        Some(ps.len() - 1)
    } else {
        shape_at(ps.drop_last(), orig)
    }
}

/// Every function's pieces, in order, or the first function whose blob
/// is malformed and where.
pub open spec fn classify_upto(order: Seq<FuncRef>, decoded: Seq<Vec<Decoded>>, entry_opcode: u8, k: int) -> Result<Seq<Seq<PieceShape>>, (int, u32)>
    decreases k,
{
    if k <= 0 {
        Ok(seq![])
    } else {
        match classify_upto(order, decoded, entry_opcode, k - 1) {
            Ok(prev) => match pieces_of(entry_opcode, order[k - 1].blob@, order[k - 1].calls@, decoded[k - 1]@) {
                Ok(ps) => Ok(prev.push(ps)),
                Err(a) => Err((k - 1, a)),
            },
            Err(e) => Err(e),
        }
    }
}

/// The first of a function's first `k` pieces that is a jump to no piece
/// boundary of its function: where that jump starts.
pub open spec fn bad_jump(ps: Seq<PieceShape>, k: int) -> Option<u32>
    decreases k,
{
    if k <= 0 {
        None
    } else {
        match bad_jump(ps, k - 1) {
            Some(a) => Some(a),
            None => match ps[k - 1] {
                PieceShape::Jump { orig, orig_target, .. } => if shape_at(ps, orig_target) is None { Some(orig) } else { None },
                _ => None,
            },
        }
    }
}

/// The first function, of the first `k`, holding a jump to no piece
/// boundary, and where that jump starts.
pub open spec fn first_bad_jump(shapes: Seq<Seq<PieceShape>>, k: int) -> Option<(int, u32)>
    decreases k,
{
    if k <= 0 {
        None
    } else {
        match first_bad_jump(shapes, k - 1) {
            Some(e) => Some(e),
            None => match bad_jump(shapes[k - 1], shapes[k - 1].len() as int) {
                Some(a) => Some((k - 1, a)),
                None => None,
            },
        }
    }
}

/// What the build can lay out and emit: the code fits a four-byte
/// displacement with every call far, calls name functions and read their
/// opcodes (and a framed call its frame half) inside their blob, jumps
/// are one or four bytes wide, and a one-byte jump reaches its target
/// with every call far (it then does under any widths).
pub open spec fn buildable(shapes: Seq<Seq<PieceShape>>, order: Seq<FuncRef>) -> bool {
    &&& shapes.len() == order.len()
    &&& shapes_total(shapes, shapes.len() as int) <= 0x7fff_ffff
    &&& forall|f: int, p: int| 0 <= f < shapes.len() && 0 <= p < shapes[f].len() ==> match #[trigger] shapes[f][p] {
        PieceShape::CallSite { orig, callee } => (orig as int) < order[f].blob@.len() && (callee as int) < shapes.len(),
        PieceShape::FramedCall { orig, callee } => orig + 9 <= order[f].blob@.len() && (callee as int) < shapes.len(),
        PieceShape::Jump { width, orig_target, .. } => (width == 1 || width == 4) && (width == 1 ==> match shape_at(shapes[f], orig_target) {
            Some(j) => fits_i8(shapes_far(shapes[f], j) - shapes_far(shapes[f], p + 1)),
            None => true,
        }),
        PieceShape::Verbatim { .. } => true,
    }
}

/// The code of the first `k` functions, each emitted in turn.
pub open spec fn code_upto(fs: Seq<Vec<Piece>>, w: Seq<Vec<bool>>, order: Seq<FuncRef>, pairs: Seq<(u8, u8)>, k: int) -> Seq<u8>
    decreases k,
{
    if k <= 0 {
        seq![]
    } else {
        code_upto(fs, w, order, pairs, k - 1) + function_code(fs, w, k - 1, order[k - 1].blob@, pairs, fs[k - 1]@.len() as int)->Ok_0
    }
}

/// How many calls of the first `k` functions are short.
pub open spec fn short_total(fs: Seq<Vec<Piece>>, w: Seq<Vec<bool>>, k: int) -> int
    decreases k,
{
    if k <= 0 {
        0
    } else {
        short_total(fs, w, k - 1) + short_calls(fs[k - 1]@, w[k - 1]@, fs[k - 1]@.len() as int)
    }
}

/// How many calls of the first `k` functions are far or framed.
pub open spec fn far_total_calls(fs: Seq<Vec<Piece>>, w: Seq<Vec<bool>>, k: int) -> int
    decreases k,
{
    if k <= 0 {
        0
    } else {
        far_total_calls(fs, w, k - 1) + far_calls(fs[k - 1]@, w[k - 1]@, fs[k - 1]@.len() as int)
    }
}

/// The pieces stand for the shapes, function by function.
pub open spec fn pieces_are(fs: Seq<Vec<Piece>>, shapes: Seq<Seq<PieceShape>>) -> bool {
    &&& fs.len() == shapes.len()
    &&& forall|f: int| 0 <= f < fs.len() ==> (#[trigger] fs[f])@.len() == shapes[f].len()
    &&& forall|f: int, p: int| 0 <= f < fs.len() && 0 <= p < fs[f]@.len() ==> piece_view(#[trigger] fs[f]@[p]) == shapes[f][p]
}

/// A call site whose far opcode has a short form.
pub open spec fn short_form(fs: Seq<Vec<Piece>>, order: Seq<FuncRef>, pairs: Seq<(u8, u8)>, f: int, p: int) -> bool {
    fs[f]@[p] is CallSite && short_opcode(pairs, order[f].blob@[fs[f]@[p].spec_orig() as int]) is Some
}

proof fn lemma_far_sizes_agree(ps: Seq<Piece>, ss: Seq<PieceShape>, k: int)
    requires
        ps.len() == ss.len(),
        forall|p: int| 0 <= p < ps.len() ==> piece_view(#[trigger] ps[p]) == ss[p],
        0 <= k <= ps.len(),
    ensures
        far_size(ps, k) == shapes_far(ss, k),
        pieces_size(ps, Seq::new(ps.len(), |q: int| false), k) == far_size(ps, k),
    decreases k,
{
    if k > 0 {
        lemma_far_sizes_agree(ps, ss, k - 1);
        assert(piece_view(ps[k - 1]) == ss[k - 1]);
    }
}

proof fn lemma_far_totals_agree(fs: Seq<Vec<Piece>>, shapes: Seq<Seq<PieceShape>>, k: int)
    requires
        pieces_are(fs, shapes),
        0 <= k <= fs.len(),
    ensures
        far_total(fs, k) == shapes_total(shapes, k),
    decreases k,
{
    if k > 0 {
        lemma_far_totals_agree(fs, shapes, k - 1);
        let f = k - 1;
        assert(fs[f]@.len() == shapes[f].len());
        assert forall|p: int| 0 <= p < fs[f]@.len() implies piece_view(#[trigger] fs[f]@[p]) == shapes[f][p] by {}
        lemma_far_sizes_agree(fs[f]@, shapes[f], fs[f]@.len() as int);
    }
}

proof fn lemma_piece_at_agrees(ps: Seq<Piece>, ss: Seq<PieceShape>, o: u32)
    requires
        ps.len() == ss.len(),
        forall|p: int| 0 <= p < ps.len() ==> piece_view(#[trigger] ps[p]) == ss[p],
    ensures
        piece_at(ps, o) == shape_at(ss, o),
    decreases ps.len(),
{
    if ps.len() > 0 {
        assert(piece_view(ps[ps.len() - 1]) == ss[ss.len() - 1]);
        lemma_piece_at_agrees(ps.drop_last(), ss.drop_last(), o);
    }
}

/// With no jump to a non-boundary among the first `k` pieces, the code of
/// those pieces exists.
proof fn lemma_code_ok(fs: Seq<Vec<Piece>>, w: Seq<Vec<bool>>, f: int, blob: Seq<u8>, pairs: Seq<(u8, u8)>, ss: Seq<PieceShape>, k: int)
    requires
        0 <= f < fs.len(),
        fs[f]@.len() == ss.len(),
        forall|p: int| 0 <= p < ss.len() ==> piece_view(#[trigger] fs[f]@[p]) == ss[p],
        0 <= k <= ss.len(),
        bad_jump(ss, k) is None,
    ensures
        function_code(fs, w, f, blob, pairs, k) is Ok,
    decreases k,
{
    if k > 0 {
        lemma_code_ok(fs, w, f, blob, pairs, ss, k - 1);
        lemma_piece_at_agrees(fs[f]@, ss, 0);
        assert(piece_view(fs[f]@[k - 1]) == ss[k - 1]);
        if let Piece::Jump { orig_target, .. } = fs[f]@[k - 1] {
            lemma_piece_at_agrees(fs[f]@, ss, orig_target);
        }
    }
}

proof fn lemma_bad_jump_stop(ss: Seq<PieceShape>, m: int, n: int)
    requires
        0 <= m <= n,
        bad_jump(ss, m) is Some,
    ensures
        bad_jump(ss, n) == bad_jump(ss, m),
    decreases n - m,
{
    if m < n {
        lemma_bad_jump_stop(ss, m + 1, n);
    }
}

proof fn lemma_first_bad_stop(shapes: Seq<Seq<PieceShape>>, m: int, n: int)
    requires
        0 <= m <= n,
        first_bad_jump(shapes, m) is Some,
    ensures
        first_bad_jump(shapes, n) == first_bad_jump(shapes, m),
    decreases n - m,
{
    if m < n {
        lemma_first_bad_stop(shapes, m + 1, n);
    }
}

proof fn lemma_classify_stop(order: Seq<FuncRef>, decoded: Seq<Vec<Decoded>>, entry_opcode: u8, m: int, n: int)
    requires
        0 <= m <= n,
        classify_upto(order, decoded, entry_opcode, m) is Err,
    ensures
        classify_upto(order, decoded, entry_opcode, n) == classify_upto(order, decoded, entry_opcode, m),
    decreases n - m,
{
    if m < n {
        lemma_classify_stop(order, decoded, entry_opcode, m + 1, n);
    }
}

proof fn lemma_classify_prefix(order: Seq<FuncRef>, decoded: Seq<Vec<Decoded>>, entry_opcode: u8, k: int, n: int)
    requires
        0 <= k <= n,
        classify_upto(order, decoded, entry_opcode, n) is Ok,
    ensures
        classify_upto(order, decoded, entry_opcode, k) is Ok,
        classify_upto(order, decoded, entry_opcode, k)->Ok_0.len() == k,
        forall|f: int| 0 <= f < k ==> #[trigger] classify_upto(order, decoded, entry_opcode, n)->Ok_0[f]
            == classify_upto(order, decoded, entry_opcode, k)->Ok_0[f],
    decreases n - k,
{
    if k < n {
        lemma_classify_prefix(order, decoded, entry_opcode, k + 1, n);
        if classify_upto(order, decoded, entry_opcode, k) is Err {
            lemma_classify_stop(order, decoded, entry_opcode, k, n);
        }
    } else {
        lemma_classify_len(order, decoded, entry_opcode, n);
    }
}

proof fn lemma_classify_len(order: Seq<FuncRef>, decoded: Seq<Vec<Decoded>>, entry_opcode: u8, k: int)
    requires
        0 <= k,
        classify_upto(order, decoded, entry_opcode, k) is Ok,
    ensures
        classify_upto(order, decoded, entry_opcode, k)->Ok_0.len() == k,
    decreases k,
{
    if k > 0 {
        lemma_classify_len(order, decoded, entry_opcode, k - 1);
    }
}

/// Under any widths the relaxation could give, a buildable function can
/// be emitted.
proof fn lemma_emittable(
    fs: Seq<Vec<Piece>>,
    w: Seq<Vec<bool>>,
    hs: Seq<Vec<bool>>,
    order: Seq<FuncRef>,
    pairs: Seq<(u8, u8)>,
    shapes: Seq<Seq<PieceShape>>,
    f: int,
)
    requires
        pieces_are(fs, shapes),
        buildable(shapes, order),
        same_shape(fs, w),
        same_shape(fs, hs),
        forall|g: int, p: int| 0 <= g < fs.len() && 0 <= p < fs[g]@.len() ==> #[trigger] hs[g]@[p] == short_form(fs, order, pairs, g, p),
        forall|g: int, p: int| 0 <= g < fs.len() && 0 <= p < w[g]@.len() && #[trigger] w[g]@[p]
            ==> candidate(fs, hs, g, p) && fits_i8(call_offset(fs, w, g, p, 2)),
        0 <= f < fs.len(),
    ensures
        emittable(fs, w, f, order[f].blob@, pairs),
{
    let n = fs.len() as int;
    let ps = fs[f]@;
    let ss = shapes[f];
    let ws = w[f]@;
    let m = ps.len() as int;
    let allfar = Seq::new(ps.len(), |q: int| false);
    assert(ps.len() == ss.len());
    assert(ws.len() == ps.len());
    assert forall|p: int| 0 <= p < ps.len() implies piece_view(#[trigger] ps[p]) == ss[p] by {
        assert(piece_view(fs[f]@[p]) == shapes[f][p]);
    }
    lemma_far_totals_agree(fs, shapes, n);
    lemma_far_bound(fs, w, n);
    lemma_far_sizes_agree(ps, ss, m);
    lemma_base_mono(fs, w, f, n);
    lemma_base_mono(fs, w, f + 1, n);
    let total = base_of(fs, w, n);
    assert(base_of(fs, w, f + 1) == base_of(fs, w, f) + pieces_size(ps, ws, m));
    assert forall|p: int| 0 <= p < ps.len() implies match #[trigger] fs[f]@[p] {
        Piece::Verbatim { .. } => true,
        Piece::Jump { width, orig_target, .. } => (width == 1 || width == 4) && match piece_at(fs[f]@, orig_target) {
            None => true,
            Some(j) => if width == 1 {
                fits_i8(jump_offset(fs, w, f, p, j))
            } else {
                fits_i32(jump_offset(fs, w, f, p, j))
            },
        },
        Piece::CallSite { orig, callee } => (orig as int) < order[f].blob@.len() && (callee as int) < fs.len() && if w[f]@[p] {
            short_opcode(pairs, order[f].blob@[orig as int]) is Some && fits_i8(call_offset(fs, w, f, p, 2))
        } else {
            fits_i32(call_offset(fs, w, f, p, 5))
        },
        Piece::FramedCall { orig, callee } => orig + 9 <= order[f].blob@.len() && (callee as int) < fs.len()
            && fits_i32(call_offset(fs, w, f, p, 9)),
    } by {
        assert(piece_view(ps[p]) == ss[p]);
        assert(match shapes[f][p] {
            PieceShape::CallSite { orig, callee } => (orig as int) < order[f].blob@.len() && (callee as int) < shapes.len(),
            PieceShape::FramedCall { orig, callee } => orig + 9 <= order[f].blob@.len() && (callee as int) < shapes.len(),
            PieceShape::Jump { width, orig_target, .. } => (width == 1 || width == 4) && (width == 1 ==> match shape_at(shapes[f], orig_target) {
                Some(j) => fits_i8(shapes_far(shapes[f], j) - shapes_far(shapes[f], p + 1)),
                None => true,
            }),
            PieceShape::Verbatim { .. } => true,
        });
        lemma_pieces_size_mono(ps, ws, p + 1, m);
        lemma_pieces_size_mono(ps, ws, p, p + 1);
        assert(pieces_size(ps, ws, p + 1) == pieces_size(ps, ws, p) + spec_piece_size(ps[p], ws[p]));
        match ps[p] {
            Piece::Jump { width, orig_target, .. } => {
                lemma_piece_at_agrees(ps, ss, orig_target);
                lemma_piece_at_range(ps, orig_target);
                if let Some(j) = piece_at(ps, orig_target) {
                    lemma_pieces_size_mono(ps, ws, j, m);
                    if width == 1 {
                        assert forall|q: int| 0 <= q < ps.len() && #[trigger] allfar[q] implies ws[q] by {}
                        if j >= p + 1 {
                            lemma_run_shrinks(ps, allfar, ws, p + 1, j);
                        } else {
                            lemma_run_shrinks(ps, allfar, ws, j, p + 1);
                        }
                        lemma_far_sizes_agree(ps, ss, j);
                        lemma_far_sizes_agree(ps, ss, p + 1);
                    }
                }
            },
            Piece::CallSite { orig, callee } => {
                let c = callee as int;
                lemma_base_mono(fs, w, c, n);
                if ws[p] {
                    assert(w[f]@[p]);
                    assert(candidate(fs, hs, f, p));
                    assert(hs[f]@[p] == short_form(fs, order, pairs, f, p));
                }
            },
            Piece::FramedCall { callee, .. } => {
                let c = callee as int;
                lemma_base_mono(fs, w, c, n);
            },
            _ => {},
        }
    }
}

proof fn lemma_first_bad_none(shapes: Seq<Seq<PieceShape>>, k: int, f: int)
    requires
        0 <= f < k,
        first_bad_jump(shapes, k) is None,
    ensures
        bad_jump(shapes[f], shapes[f].len() as int) is None,
    decreases k,
{
    if f < k - 1 {
        lemma_first_bad_none(shapes, k - 1, f);
    }
}

/// What a build lays out: each function's pieces, which call sites have a
/// short form, the widths the relaxation settled on, each function's
/// start, the emitted code, and how many calls went short and how many
/// far (framed calls count as far).
pub struct Built {
    pub pieces: Vec<Vec<Piece>>,
    pub has_short: Vec<Vec<bool>>,
    pub widths: Vec<Vec<bool>>,
    pub bases: Vec<u32>,
    pub code: Vec<u8>,
    pub relaxed_calls: u32,
    pub far_calls: u32,
}

/// Lay out and emit the reached functions, the entry first: split each
/// blob into pieces along its decoded items, refuse a jump to no piece
/// boundary of its function, make short (when `relax` is set) exactly the
/// calls the shrink fixpoint makes short from all far, lay the functions
/// out back to back and emit each from its pieces.
pub fn build(order: &Vec<FuncRef>, decoded: &Vec<Vec<Decoded>>, entry_opcode: u8, pairs: &[(u8, u8)], relax: bool) -> (r: Result<Built, LinkError>)
    requires
        decoded@.len() == order@.len(),
        forall|f: int| 0 <= f < order@.len() ==> (#[trigger] order@[f]).blob@.len() <= u32::MAX,
        forall|f: int, i: int| 0 <= f < order@.len() && 0 <= i < decoded@[f]@.len() ==> 1 <= (#[trigger] decoded@[f]@[i]).len
            && decoded@[f]@[i].addr + decoded@[f]@[i].len <= order@[f].blob@.len(),
        classify_upto(order@, decoded@, entry_opcode, order@.len() as int) matches Ok(shapes) ==> buildable(shapes, order@),
    ensures
        classify_upto(order@, decoded@, entry_opcode, order@.len() as int) matches Err((f, at)) ==> (r matches Err(
            LinkError::MalformedBlob { symbol, at: a },
        ) && symbol@ == order@[f].name@ && a == at),
        classify_upto(order@, decoded@, entry_opcode, order@.len() as int) matches Ok(shapes) ==> match first_bad_jump(shapes, order@.len() as int) {
            Some((f, at)) => r matches Err(LinkError::MalformedBlob { symbol, at: a }) && symbol@ == order@[f].name@ && a == at,
            None => r is Ok,
        },
        r matches Ok(b) ==> ({
            let shapes = classify_upto(order@, decoded@, entry_opcode, order@.len() as int)->Ok_0;
            let fs = b.pieces@;
            &&& pieces_are(fs, shapes)
            &&& same_shape(fs, b.has_short@)
            &&& forall|f: int, p: int| 0 <= f < fs.len() && 0 <= p < fs[f]@.len()
                ==> #[trigger] b.has_short@[f]@[p] == short_form(fs, order@, pairs@, f, p)
            &&& same_shape(fs, b.widths@)
            &&& forall|f: int, p: int| 0 <= f < fs.len() && 0 <= p < b.widths@[f]@.len() && #[trigger] b.widths@[f]@[p]
                ==> candidate(fs, b.has_short@, f, p) && fits_i8(call_offset(fs, b.widths@, f, p, 2))
            &&& !relax ==> forall|f: int, p: int| 0 <= f < fs.len() && 0 <= p < b.widths@[f]@.len() ==> !(#[trigger] b.widths@[f]@[p])
            &&& relax ==> relax_closed(fs, b.has_short@, b.widths@)
            &&& relax ==> forall|s: Seq<Vec<bool>>| #[trigger] relax_closed(fs, b.has_short@, s) ==> widens_to(b.widths@, s)
            &&& b.bases@.len() == fs.len()
            &&& forall|f: int| 0 <= f < fs.len() ==> #[trigger] b.bases@[f] == base_of(fs, b.widths@, f)
            &&& b.code@ == code_upto(fs, b.widths@, order@, pairs@, fs.len() as int)
            &&& b.relaxed_calls == short_total(fs, b.widths@, fs.len() as int)
            &&& b.far_calls == far_total_calls(fs, b.widths@, fs.len() as int)
        }),
{
    let n = order.len();
    let ghost ord = order@;
    let ghost ds = decoded@;
    // Pieces of every function, stopping at the first malformed blob.
    let mut fs: Vec<Vec<Piece>> = Vec::new();
    let mut f: usize = 0;
    while f < n
        invariant
            n == ord.len(),
            ord == order@,
            ds == decoded@,
            ds.len() == n,
            forall|g: int| 0 <= g < n ==> (#[trigger] ord[g]).blob@.len() <= u32::MAX,
            forall|g: int, i: int| 0 <= g < n && 0 <= i < ds[g]@.len() ==> 1 <= (#[trigger] ds[g]@[i]).len
                && ds[g]@[i].addr + ds[g]@[i].len <= ord[g].blob@.len(),
            f <= n,
            classify_upto(ord, ds, entry_opcode, f as int) matches Ok(sh) && pieces_are(fs@, sh),
        decreases n - f,
    {
        let ghost sh = classify_upto(ord, ds, entry_opcode, f as int)->Ok_0;
        proof {
            lemma_classify_len(ord, ds, entry_opcode, f as int);
            assert(ord[f as int].blob@.len() <= u32::MAX);
            assert forall|i: int| 0 <= i < decoded@[f as int]@.len() implies 1 <= (#[trigger] decoded@[f as int]@[i]).len
                && decoded@[f as int]@[i].addr + decoded@[f as int]@[i].len <= order@[f as int].blob@.len() by {
                assert(ds[f as int]@[i] == decoded@[f as int]@[i]);
            }
        }
        match classify(entry_opcode, &order[f], decoded[f].as_slice()) {
            Ok(v) => {
                let ghost old_fs = fs@;
                fs.push(v);
                proof {
                    let ps = pieces_of(entry_opcode, ord[f as int].blob@, ord[f as int].calls@, ds[f as int]@)->Ok_0;
                    let sh2 = sh.push(ps);
                    assert(classify_upto(ord, ds, entry_opcode, f + 1) == Ok::<Seq<Seq<PieceShape>>, (int, u32)>(sh2));
                    assert forall|g: int| 0 <= g < fs@.len() implies (#[trigger] fs@[g])@.len() == sh2[g].len() by {
                        if g < f {
                            assert(fs@[g] == old_fs[g]);
                        }
                    }
                    assert forall|g: int, p: int| 0 <= g < fs@.len() && 0 <= p < fs@[g]@.len()
                        implies piece_view(#[trigger] fs@[g]@[p]) == sh2[g][p] by {
                        if g < f {
                            assert(fs@[g] == old_fs[g]);
                        }
                    }
                }
            },
            Err(e) => {
                proof {
                    lemma_classify_stop(ord, ds, entry_opcode, f + 1, n as int);
                }
                return Err(e);
            },
        }
        f = f + 1;
    }
    let ghost shapes = classify_upto(ord, ds, entry_opcode, n as int)->Ok_0;
    proof {
        lemma_classify_len(ord, ds, entry_opcode, n as int);
    }
    // A jump to no piece boundary of its function is malformed.
    let mut g: usize = 0;
    while g < n
        invariant
            n == ord.len(),
            ord == order@,
            pieces_are(fs@, shapes),
            classify_upto(ord, ds, entry_opcode, n as int) == Ok::<Seq<Seq<PieceShape>>, (int, u32)>(shapes),
            ds == decoded@,
            shapes.len() == n,
            g <= n,
            first_bad_jump(shapes, g as int) is None,
        decreases n - g,
    {
        let mut p: usize = 0;
        proof {
            assert(fs@[g as int]@.len() == shapes[g as int].len());
        }
        while p < fs[g].len()
            invariant
                n == ord.len(),
                ord == order@,
                pieces_are(fs@, shapes),
                classify_upto(ord, ds, entry_opcode, n as int) == Ok::<Seq<Seq<PieceShape>>, (int, u32)>(shapes),
                ds == decoded@,
            classify_upto(ord, ds, entry_opcode, n as int) == Ok::<Seq<Seq<PieceShape>>, (int, u32)>(shapes),
            ds == decoded@,
                shapes.len() == n,
                g < n,
                fs@[g as int]@.len() == shapes[g as int].len(),
                p <= fs@[g as int]@.len(),
                first_bad_jump(shapes, g as int) is None,
                bad_jump(shapes[g as int], p as int) is None,
            decreases fs@[g as int]@.len() - p,
        {
            proof {
                assert(piece_view(fs@[g as int]@[p as int]) == shapes[g as int][p as int]);
                assert forall|q: int| 0 <= q < fs@[g as int]@.len() implies piece_view(#[trigger] fs@[g as int]@[q]) == shapes[g as int][q] by {}
            }
            if let Piece::Jump { orig, orig_target, .. } = &fs[g][p] {
                proof {
                    lemma_piece_at_agrees(fs@[g as int]@, shapes[g as int], *orig_target);
                }
                if find_piece(&fs[g], *orig_target).is_none() {
                    proof {
                        assert(bad_jump(shapes[g as int], p + 1) == Some(*orig));
                        lemma_bad_jump_stop(shapes[g as int], p + 1, shapes[g as int].len() as int);
                        assert(first_bad_jump(shapes, g + 1) == Some((g as int, *orig)));
                        lemma_first_bad_stop(shapes, g + 1, n as int);
                    }
                    return Err(LinkError::MalformedBlob { symbol: order[g].name.clone(), at: *orig });
                }
            }
            p = p + 1;
        }
        g = g + 1;
    }
    // Which call sites have a short form.
    let mut hs: Vec<Vec<bool>> = Vec::new();
    let mut h: usize = 0;
    while h < n
        invariant
            n == ord.len(),
            ord == order@,
            pieces_are(fs@, shapes),
            classify_upto(ord, ds, entry_opcode, n as int) == Ok::<Seq<Seq<PieceShape>>, (int, u32)>(shapes),
            ds == decoded@,
            shapes.len() == n,
            buildable(shapes, ord),
            h <= n,
            hs@.len() == h,
            forall|x: int| 0 <= x < h ==> (#[trigger] hs@[x])@.len() == fs@[x]@.len(),
            forall|x: int, p: int| 0 <= x < h && 0 <= p < fs@[x]@.len() ==> #[trigger] hs@[x]@[p] == short_form(fs@, ord, pairs@, x, p),
        decreases n - h,
    {
        let mut row: Vec<bool> = Vec::new();
        let mut p: usize = 0;
        proof {
            assert(fs@[h as int]@.len() == shapes[h as int].len());
        }
        while p < fs[h].len()
            invariant
                n == ord.len(),
                ord == order@,
                pieces_are(fs@, shapes),
                classify_upto(ord, ds, entry_opcode, n as int) == Ok::<Seq<Seq<PieceShape>>, (int, u32)>(shapes),
                ds == decoded@,
            classify_upto(ord, ds, entry_opcode, n as int) == Ok::<Seq<Seq<PieceShape>>, (int, u32)>(shapes),
            ds == decoded@,
                shapes.len() == n,
                buildable(shapes, ord),
                h < n,
                fs@[h as int]@.len() == shapes[h as int].len(),
                p <= fs@[h as int]@.len(),
                row@.len() == p,
                forall|q: int| 0 <= q < p ==> #[trigger] row@[q] == short_form(fs@, ord, pairs@, h as int, q),
            decreases fs@[h as int]@.len() - p,
        {
            proof {
                assert(piece_view(fs@[h as int]@[p as int]) == shapes[h as int][p as int]);
                let sp = shapes[h as int][p as int];
            }
            let b = match &fs[h][p] {
                Piece::CallSite { orig, .. } => {
                    let blen = order[h].blob.len();
                    proof {
                        assert((*orig as int) < order@[h as int].blob@.len());
                    }
                    find_short(pairs, order[h].blob[*orig as usize]).is_some()
                },
                _ => false,
            };
            row.push(b);
            p = p + 1;
        }
        hs.push(row);
        h = h + 1;
    }
    proof {
        lemma_far_totals_agree(fs@, shapes, n as int);
        assert forall|x: int, p: int| 0 <= x < fs@.len() && 0 <= p < fs@[x]@.len() && (#[trigger] fs@[x]@[p]) is CallSite
            implies callee_of(fs@[x]@[p]) < fs@.len() by {
            assert(piece_view(fs@[x]@[p]) == shapes[x][p]);
        }
    }
    let widths = relax_widths(&fs, &hs, relax);
    proof {
        lemma_far_bound(fs@, widths@, n as int);
    }
    let (bases, offsets) = layout_pass(&fs, &widths);
    let mut code: Vec<u8> = Vec::new();
    let mut relaxed: u32 = 0;
    let mut far: u32 = 0;
    let mut k: usize = 0;
    while k < n
        invariant
            n == ord.len(),
            ord == order@,
            pieces_are(fs@, shapes),
            classify_upto(ord, ds, entry_opcode, n as int) == Ok::<Seq<Seq<PieceShape>>, (int, u32)>(shapes),
            ds == decoded@,
            shapes.len() == n,
            buildable(shapes, ord),
            first_bad_jump(shapes, n as int) is None,
            same_shape(fs@, hs@),
            same_shape(fs@, widths@),
            forall|x: int, p: int| 0 <= x < fs@.len() && 0 <= p < fs@[x]@.len() ==> #[trigger] hs@[x]@[p] == short_form(fs@, ord, pairs@, x, p),
            forall|x: int, p: int| 0 <= x < fs@.len() && 0 <= p < widths@[x]@.len() && #[trigger] widths@[x]@[p]
                ==> candidate(fs@, hs@, x, p) && fits_i8(call_offset(fs@, widths@, x, p, 2)),
            base_of(fs@, widths@, n as int) <= far_total(fs@, n as int),
            far_total(fs@, n as int) == shapes_total(shapes, n as int),
            bases@.len() == n,
            offsets@.len() == n,
            forall|x: int| 0 <= x < n ==> #[trigger] bases@[x] == base_of(fs@, widths@, x),
            forall|x: int| 0 <= x < n ==> (#[trigger] offsets@[x])@.len() == laid(fs@[x]@, widths@[x]@),
            forall|x: int, p: int| 0 <= x < n && 0 <= p < offsets@[x]@.len() ==>
                #[trigger] offsets@[x]@[p] == pieces_size(fs@[x]@, widths@[x]@, p),
            k <= n,
            code@ == code_upto(fs@, widths@, ord, pairs@, k as int),
            relaxed == short_total(fs@, widths@, k as int),
            far == far_total_calls(fs@, widths@, k as int),
            relaxed + far <= base_of(fs@, widths@, k as int),
        decreases n - k,
    {
        proof {
            lemma_emittable(fs@, widths@, hs@, ord, pairs@, shapes, k as int);
            lemma_first_bad_none(shapes, n as int, k as int);
            assert(fs@[k as int]@.len() == shapes[k as int].len());
            assert(widths@[k as int]@.len() == fs@[k as int]@.len());
            assert forall|q: int| 0 <= q < shapes[k as int].len() implies piece_view(#[trigger] fs@[k as int]@[q]) == shapes[k as int][q] by {}
            lemma_code_ok(fs@, widths@, k as int, ord[k as int].blob@, pairs@, shapes[k as int], fs@[k as int]@.len() as int);
            lemma_base_mono(fs@, widths@, k + 1, n as int);
            assert(offsets@[k as int]@.len() == fs@[k as int]@.len());
        }
        let (s, l) = match emit_function(&mut code, &fs, &widths, &bases, &offsets[k], k, &order[k].blob, order[k].name.as_str(), pairs) {
            Ok(x) => x,
            Err(e) => {
                return Err(e);
            },
        };
        relaxed = relaxed + s;
        far = far + l;
        k = k + 1;
    }
    Ok(Built { pieces: fs, has_short: hs, widths, bases, code, relaxed_calls: relaxed, far_calls: far })
}

} // verus!
