//! A personal archive of short text records ("quotes"), each attributed to an
//! author and a book and tagged with free-form labels.
//!
//! The heart of the crate is the index-maintenance engine in [`database`]: a
//! record store plus five denormalized lookup mappings (author to quote ids,
//! author to books, book to quote ids, book to author, tag to quote ids) that
//! are kept consistent under insertion, deletion and change of a quote.  The
//! mappings live in a `sled` key-value store; every value is a text encoding
//! produced and parsed by the verified codec in [`codec`].  The invariants
//! that tie the mappings together, and their preservation under the
//! operations, are stated and proved in [`consistency`].

pub mod codec;
pub mod consistency;
pub mod database;
pub mod dates;
pub mod errors;
pub mod metadata;
pub mod stats;
pub mod quotes;
pub mod store;
pub mod utils;
