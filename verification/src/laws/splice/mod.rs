//! An edit leaves the rest of the document as it was.
//!
//! Two sources that differ in one place are read side by side.
pub mod cut;
pub mod words;
pub mod nest;
pub mod growth;
pub mod ends;
pub mod basic;
pub mod shift;
pub mod place;
pub mod turn;
pub mod flows;
pub mod low;
pub mod leaf;
pub mod lists;
pub mod blocks;
pub mod docs;
pub mod inner;
pub mod reach;
pub mod mirror;
