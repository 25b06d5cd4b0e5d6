//! A static linker for one 64-bit ELF relocatable object: it lays out the
//! code and data segments, assigns final addresses to symbols, patches the
//! machine code for the supported relocations and finalizes the file header.
//!
//! Policies: a relocation of any type other than absolute-32 or
//! call-relative-32 fails the whole link, so no executable is produced with
//! unpatched code; an entry symbol that no function symbol names yields an
//! entry address of 0; only static linking is implemented.
pub mod error;
pub mod layout;
pub mod linker;
pub mod object;
pub mod option;
pub mod relocation;
pub mod symbols;
