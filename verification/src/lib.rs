//! Arch-agnostic core of a tape-machine toolchain: lossless syntax trees,
//! the linker's name resolution and binding-composition algebra, and the
//! language-server helpers (positions, documents, protocol shapes).

pub mod diagnostics;
pub mod linker;
pub mod lsp;
pub mod names;
pub mod source_path;
pub mod syntax;
