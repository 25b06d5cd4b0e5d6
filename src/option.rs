use vstd::prelude::*;

verus! {

/// Configuration of one link.
pub struct LinkOption {
    /// A program's entry point: e_entry is set to this symbol's address.
    pub entry_point: String,
    /// Only static linking is implemented.
    pub static_link: bool,
}

} // verus!
