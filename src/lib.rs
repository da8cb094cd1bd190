//! Symbol prefixing for relocatable ELF objects and static archives.
//!
//! A [`Bartleby`] session takes a prefix and any number of ELF64
//! little-endian relocatable objects (alone or inside `ar` archives),
//! prefixes every global or weak symbol that each object defines, and
//! packs the rewritten objects, in the order they were added, into one
//! System V `ar` archive with a symbol index.

pub mod bytes;
pub mod error;
pub mod elf;
pub mod rename;
pub mod rewrite;
pub mod archive;
pub mod session;

pub use error::Error;
pub use session::Bartleby;
