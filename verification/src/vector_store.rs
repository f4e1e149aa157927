//! Embedding records and the document shape the storage backend keeps.

use vstd::prelude::*;

verus! {

/// One embedding paired with the file content it was computed from.
///
/// Embedding components are carried as raw 32-bit patterns; their numeric
/// interpretation belongs to the embedding provider and is never read here.
#[derive(Debug)]
pub struct EmbeddingFile {
    pub embedding: Vec<u32>,
    pub content: String,
}

/// Mathematical model of an [`EmbeddingFile`].
pub ghost struct EmbeddingFileModel {
    pub embedding: Seq<u32>,
    pub content: Seq<char>,
}

impl View for EmbeddingFile {
    type V = EmbeddingFileModel;

    open spec fn view(&self) -> EmbeddingFileModel {
        EmbeddingFileModel { embedding: self.embedding@, content: self.content@ }
    }
}

/// One record as the storage backend keeps it.
#[derive(Debug)]
pub struct EmbeddingDoc {
    pub embedding: Vec<u32>,
    pub file: String,
}

/// Mathematical model of an [`EmbeddingDoc`].
pub ghost struct EmbeddingDocModel {
    pub embedding: Seq<u32>,
    pub file: Seq<char>,
}

impl View for EmbeddingDoc {
    type V = EmbeddingDocModel;

    open spec fn view(&self) -> EmbeddingDocModel {
        EmbeddingDocModel { embedding: self.embedding@, file: self.file@ }
    }
}

/// The document written for a record.
pub open spec fn doc_of_file(f: EmbeddingFileModel) -> EmbeddingDocModel {
    EmbeddingDocModel { embedding: f.embedding, file: f.content }
}

/// The record read back from a document.
pub open spec fn file_of_doc(d: EmbeddingDocModel) -> EmbeddingFileModel {
    EmbeddingFileModel { embedding: d.embedding, content: d.file }
}

/// Converts a record into the document the storage backend is handed.
pub fn to_doc(f: EmbeddingFile) -> (r: EmbeddingDoc)
    ensures
        r@ == doc_of_file(f@),
{
    EmbeddingDoc { embedding: f.embedding, file: f.content }
}

/// Rebuilds the record a retrieved document stands for.
pub fn from_doc(d: EmbeddingDoc) -> (r: EmbeddingFile)
    ensures
        r@ == file_of_doc(d@),
{
    EmbeddingFile { embedding: d.embedding, content: d.file }
}

/// Converts a whole batch of records into documents, keeping their order.
pub fn docs_of_files(files: Vec<EmbeddingFile>) -> (r: Vec<EmbeddingDoc>)
    ensures
        r@.len() == files@.len(),
        forall|i: int| 0 <= i < files@.len() ==> r@[i]@ == doc_of_file(files@[i]@),
{
    let ghost orig = files@;
    let mut files = files;
    let mut r: Vec<EmbeddingDoc> = Vec::new();
    while files.len() > 0
        invariant
            r@.len() + files@.len() == orig.len(),
            files@ == orig.skip(r@.len() as int),
            forall|i: int| 0 <= i < r@.len() ==> r@[i]@ == doc_of_file(orig[i]@),
        decreases files@.len(),
    {
        let f = files.remove(0);
        assert(f == orig[r@.len() as int]);
        r.push(to_doc(f));
        assert(files@ =~= orig.skip(r@.len() as int));
    }
    r
}

/// Law: a record turned into its stored document and read back is the same
/// record; in particular its content text and the length of its embedding
/// survive the storage boundary unchanged.
pub proof fn lemma_store_round_trip(f: EmbeddingFileModel)
    ensures
        file_of_doc(doc_of_file(f)) == f,
        doc_of_file(f).embedding.len() == f.embedding.len(),
        doc_of_file(f).file == f.content,
{
}

} // verus!
