//! Extracts tabular data from a parsed markup document and computes a grid
//! layout for each table: a decoration-normalization pass over the tree,
//! element queries, a table model builder, and a column/row distributor.

pub mod dom;
pub mod layout;
pub mod normalize;
pub mod query;
pub mod table;
pub mod text;
