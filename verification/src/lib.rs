//! Pairwise distance scoring.
//!
//! A list of documents, each an input string with an embedding vector, is
//! compared pair by pair. This library holds the parts of that work that do
//! not touch a floating-point number: which pairs there are ([`pairs`]), how
//! scored pairs are ranked ([`rank`], [`score`]), how they are laid out as a
//! table with labelled rows and columns ([`table`], [`frame`], [`header`]),
//! and how both forms of output are turned into lines of text ([`render`]).
//! It also reads the input strings from JSON text ([`input`]) and names the
//! metrics and providers that can be chosen ([`metric`]).
//!
//! Documents are named by their position in the input list throughout. The
//! vectors, and the metric that scores two of them, stay with the caller, who
//! hands each score over as the bit pattern of a binary64 number together
//! with the text that is printed for it.

pub mod frame;
pub mod header;
pub mod input;
pub mod metric;
pub mod pairs;
pub mod rank;
pub mod render;
pub mod score;
pub mod strings;
pub mod table;
