//! The request body the indexing endpoint accepts.

use vstd::prelude::*;

verus! {

/// Body of a request that asks for one directory to be indexed.
pub struct IndexRequest {
    pub directory: String,
}

impl IndexRequest {
    /// Builds the request for one directory.
    pub fn new(directory: String) -> (r: IndexRequest)
        ensures
            r.directory@ == directory@,
    {
        IndexRequest { directory }
    }
}

} // verus!
