use vstd::prelude::*;

verus! {

/// The output mode a caller selects for rendering a proved goal. The
/// renderers themselves live with the caller; the library hands them the
/// reconstructed proof steps.
#[derive(Clone, Debug, Eq, PartialEq)]
pub enum OutputMode {
    /// ASCII-art sequents show the derivation.
    Ascii,
    /// Proof-tree markup for a typesetter is written out.
    LaTeX,
    /// Nothing is written; only the process exit status reports whether the
    /// goal was provable.
    Silent,
    /// Similar to `Ascii`, but uses U+2228 and U+00AC instead of `V` and `!`.
    Unicode,
}

} // verus!
