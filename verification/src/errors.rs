use vstd::prelude::*;

verus! {

/// Errors surfaced by the expression compiler and the relational operators.
///
/// All conditions that the layer can detect are reported through these
/// variants; no operator panics on a malformed query.
pub enum QueryProcessingError {
    /// An expression referenced a variable that is absent from the current
    /// type map.  Carries the variable name and the context identifier of
    /// the referencing expression node.
    VariableNotFound(String, String),
    /// An expression node kind has no defined translation.
    UnsupportedExpression(String),
    /// A function, or a function/arity combination, has no defined
    /// translation.
    UnsupportedFunction(String),
    /// The type map is missing an entry for a column that is known to
    /// exist.  This indicates a programming error upstream; it aborts the
    /// current query only, never the process.
    InternalInvariantViolation(String),
}

} // verus!
