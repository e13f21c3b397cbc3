//! Sorting an ebook library into per-author folders: name normalization, similarity scores,
//! catalog resolution, folder consolidation, file-name clean-up, and the decisions of the
//! sorting pipeline.
pub mod alias;
pub mod candidates;
pub mod cleanup;
pub mod consolidate;
pub mod normalize;
pub mod replace;
pub mod resolve;
pub mod score;
pub mod sets;
pub mod sort;
pub mod text;
pub mod unicode;
