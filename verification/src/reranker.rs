//! The reranking stage of retrieval: for now it keeps the fused order.

use vstd::prelude::*;

verus! {

/// Reorders retrieved documents by relevance to a query.
pub struct Reranker;

impl Reranker {
    /// A reranker.
    pub fn new() -> (r: Self) {
        Reranker
    }

    /// The documents in their new order: the order they came in.
    pub fn rerank<D>(&self, query: &str, docs: Vec<D>) -> (r: Vec<D>)
        ensures
            r == docs,
    {
        docs
    }
}

} // verus!
