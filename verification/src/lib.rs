//! Inspection of a compiled executable or shared library: which libraries it
//! declares as runtime dependencies, which symbols it imports, which symbols
//! it exports, and — the heart of the matter — which declared dependency
//! defines each imported symbol (import attribution), together with a
//! multi-scheme symbol demangler for presentation.
//!
//! The structural decoding of the file formats and all file and loader I/O
//! live outside this crate; the types here hold the decoded facts as plain
//! values, and every algorithm over them is verified.

pub mod attr;
pub mod demangle;
pub mod elf;
pub mod mach;
pub mod pe;
pub mod strutil;
