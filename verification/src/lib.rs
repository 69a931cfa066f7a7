//! The expression-evaluation and relational-operator core of a
//! SPARQL-style query engine: a compiler from scalar expressions to typed
//! result columns, and the relational operators — join, left join, minus,
//! union with multi-type reconciliation, group-by, distinct, order-by,
//! project and exists — over typed solution relations.

pub mod ast;
pub mod constants;
pub mod date;
pub mod errors;
pub mod eval;
pub mod expressions;
pub mod functions;
pub mod graph_patterns;
pub mod multitype;
pub mod solution_mapping;
pub mod terms;
pub mod text;
pub mod unique_id;
