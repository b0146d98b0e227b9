//! Duplicate detection for multiple-choice exam questions.
//!
//! The library parses question records out of a tabular document model,
//! measures semantic similarity between fixed-point embedding vectors, and
//! classifies each question as an internal, in-document, or reference
//! duplicate, or as unique.  All similarity arithmetic is carried out on
//! integer vectors in a fixed-point scale so that every decision is exact.

pub mod similarity;
pub mod text;
pub mod document;
pub mod extract;
pub mod records;
pub mod resolver;
