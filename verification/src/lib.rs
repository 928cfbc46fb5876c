//! Laurus: building blocks of a lexical and vector search core.
//!
//! The verified library holds the parts of the search core that are logic:
//! shard-prefixed document identifiers, multi-term query expansion over a
//! sorted term dictionary, wildcard and regular-expression term matching,
//! numeric range search, document segment files, field and vector options,
//! the vector query language, the vector document registry, and the
//! decisions of the search and embedding entry points.

pub mod id;
pub mod seqs;
pub mod text;
pub mod terms;
pub mod multi_term;
pub mod prefix;
pub mod pattern;
pub mod wildcard;
pub mod regexp;
pub mod field;
pub mod segment;
pub mod vector_query;
pub mod vector_request;
pub mod registry;
pub mod bkd;
pub mod bkd_file;
pub mod bkd_tree;
pub mod bkd_writer;
pub mod data;
pub mod vector_field;
pub mod search_plan;
