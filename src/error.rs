use vstd::prelude::*;

verus! {

/// Why a link failed.
#[derive(Clone, Copy, PartialEq, Eq, Structural, Debug)]
pub enum LinkError {
    /// The object file has no `.text` section.
    MissingText,
    /// The object file has no `.symtab` section holding symbols.
    MissingSymtab,
    /// A relocation of a type other than absolute-32 or call-relative-32.
    UnsupportedRelocation,
    /// A relocation that names no symbol or patches bytes outside `.text`.
    InvalidRelocation,
    /// An offset, size, length or symbol value is too large to lay out.
    LayoutTooLarge,
}

} // verus!
