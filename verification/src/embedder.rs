//! What one embedding call submits and what a conforming provider returns.

use vstd::prelude::*;

verus! {

/// One embedding as the provider returns it: an ordered vector whose
/// components are carried as raw 32-bit patterns.
pub type EmbeddingVector = Vec<u32>;

/// One provider reply: one vector per submitted text, positionally aligned.
pub type EmbeddingBatch = Vec<EmbeddingVector>;

/// What one embedding call submits: a single text or an ordered list of
/// texts. The provider answers with one vector per text, in the same order.
#[derive(Clone, Copy)]
pub enum Input<'a> {
    Single(&'a str),
    Multiple(&'a Vec<String>),
}

impl Input<'_> {
    /// The submitted texts, in submission order.
    pub open spec fn texts(self) -> Seq<Seq<char>> {
        match self {
            Input::Single(s) => seq![s@],
            Input::Multiple(v) => v@.map_values(|t: String| t@),
        }
    }

    /// How many embeddings a conforming provider returns for this input.
    pub fn count(&self) -> (n: usize)
        ensures
            n == self.texts().len(),
    {
        match self {
            Input::Single(_) => 1,
            Input::Multiple(v) => v.len(),
        }
    }
}

} // verus!
