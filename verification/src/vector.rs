//! A single (chunk, vector) pairing, before it joins a batch store.

use vstd::prelude::*;

verus! {

/// One chunk of text with its embedding vector (as exact float bit patterns)
/// and the vector's recorded dimension count.
#[derive(Debug, Clone)]
pub struct VectorData {
    pub chunk: String,
    pub vector: Vec<u32>,
    pub dimensions: usize,
}

impl VectorData {
    /// Pairs a chunk with its vector; the dimensions are the vector's length.
    pub fn new(chunk: String, vector: Vec<u32>) -> (r: VectorData)
        ensures
            r.chunk == chunk,
            r.vector == vector,
            r.dimensions == vector@.len(),
    {
        let dimensions = vector.len();
        VectorData { chunk, vector, dimensions }
    }
}

} // verus!
