//! Inference of a structural schema from example JSON documents.
//!
//! A [`value::Value`] is a JSON document. [`schema_generator::SchemaGenerator`]
//! infers the [`schema::Schema`] of a document over an explicit work list, so
//! that deep documents need no deep calls, and [`schema::Schema::merge`]
//! combines two schemas of one position into the least schema that accepts
//! what either accepts.
//!
//! Contracts speak of the mathematical content of a schema,
//! [`schema::model::SchemaModel`]: [`inference::schema_of`] says what the
//! schema of a value is, and [`schema::model::SchemaModel::merge`] what
//! merging is. Merging is idempotent, commutative and associative.

pub mod dict;
pub mod inference;
pub mod number;
pub mod schema;
pub mod schema_generator;
pub mod text;
pub mod value;
