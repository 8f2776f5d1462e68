//! What holds of the library as a whole.
pub mod anchoring;
pub mod applying;
pub mod documents;
pub mod edits;
pub mod emit;
pub mod flowing;
pub mod items;
pub mod lines;
pub mod merges;
pub mod naming;
pub mod paths;
pub mod places;
pub mod rows;
pub mod scalars;
pub mod spelling;
pub mod splice;
pub mod streams;
pub mod steps;
pub mod unfold;
pub mod values;
