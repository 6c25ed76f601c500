use vstd::prelude::*;

verus! {

/// The context of a cast. The order matters: a cast is permitted when the
/// caller's context is at or above the one the cast requires.
#[derive(Clone, Copy, Debug, PartialEq, Eq, Structural, PartialOrd, Ord, Hash)]
pub enum CastContext {
    /// Lossless casts that apply automatically in expressions.
    Implicit,
    /// Casts that apply automatically in assignments, but not in expressions.
    Assignment,
    /// Casts that happen only when asked for with a cast operator.
    Explicit,
    /// Casts of a string literal being coerced to another type.
    Coerced,
}

} // verus!
