//! The batch grouping destined for the human-readable mirror of a store.
//! Writing it out as JSON is outside work done by the caller.

use vstd::prelude::*;

use crate::embedder::{EmbeddingData, Embeddings};

verus! {

/// A batch index together with the records of an embedding response, in
/// response order.
#[derive(Debug)]
pub struct EmbeddingJson {
    pub batch_index: usize,
    pub items: Vec<EmbeddingData>,
}

impl EmbeddingJson {
    /// Groups a response's records under their batch index.
    pub fn new(batch_index: usize, items: Embeddings) -> (r: Self)
        ensures
            r.batch_index == batch_index,
            r.items == items.data,
    {
        EmbeddingJson { batch_index, items: items.data }
    }
}

} // verus!
