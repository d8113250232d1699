//! Attaching a batch of embeddings to the corpus it was computed for.
use vstd::prelude::*;
use crate::corpus::File;
use crate::ranking::dimensions_fit;
use crate::similarity::MAX_DIMENSION;

verus! {

/// Why a batch of embeddings cannot be attached to a corpus.
#[derive(Clone, Copy, Debug, PartialEq, Eq, Structural)]
pub enum EmbeddingError {
    /// The batch holds a different number of vectors than there are texts.
    CountMismatch,
    /// The vectors of the batch do not all have the same dimension.
    DimensionMismatch,
    /// The vectors are longer than scoring supports.
    DimensionTooLarge,
}

/// All vectors of the batch have one dimension.
pub open spec fn uniform_dimension(embeddings: Seq<Vec<i16>>) -> bool {
    forall|i: int| 0 <= i < embeddings.len() ==> (#[trigger] embeddings[i])@.len() == embeddings[0]@.len()
}

/// What attaching `embeddings` to `files` yields.
pub open spec fn attach_outcome(files: Seq<File>, embeddings: Seq<Vec<i16>>) -> Result<(), EmbeddingError> {
    if files.len() != embeddings.len() {
        Err(EmbeddingError::CountMismatch)
    } else if !uniform_dimension(embeddings) {
        Err(EmbeddingError::DimensionMismatch)
    } else if embeddings.len() > 0 && embeddings[0]@.len() > MAX_DIMENSION {
        Err(EmbeddingError::DimensionTooLarge)
    } else {
        Ok(())
    }
}

/// `r` is `files` with `embeddings[i]` attached to the `i`-th file.
pub open spec fn attached(r: Seq<File>, files: Seq<File>, embeddings: Seq<Vec<i16>>) -> bool {
    &&& r.len() == files.len()
    &&& forall|i: int| 0 <= i < r.len() ==> {
        &&& (#[trigger] r[i]).path == files[i].path
        &&& r[i].content == files[i].content
        &&& r[i].embedding == embeddings[i]
    }
}

/// Attaches `embeddings[i]` to `files[i]`, for a batch whose vectors all share
/// one dimension that scoring supports; otherwise no file is embedded.
pub fn append_embeddings_to_files(files: Vec<File>, embeddings: Vec<Vec<i16>>) -> (r: Result<
    Vec<File>,
    EmbeddingError,
>)
    ensures
        match r {
            Ok(v) => attach_outcome(files@, embeddings@) == Ok::<(), EmbeddingError>(())
                && attached(v@, files@, embeddings@) && dimensions_fit(v@),
            Err(e) => attach_outcome(files@, embeddings@) == Err::<(), EmbeddingError>(e),
        },
{
    if files.len() != embeddings.len() {
        return Err(EmbeddingError::CountMismatch);
    }
    if embeddings.len() > 0 {
        let dim = embeddings[0].len();
        let mut i: usize = 0;
        while i < embeddings.len()
            invariant
                i <= embeddings@.len(),
                files@.len() == embeddings@.len(),
                dim == embeddings@[0]@.len(),
                forall|k: int| 0 <= k < i ==> (#[trigger] embeddings@[k])@.len() == dim,
            decreases embeddings@.len() - i,
        {
            if embeddings[i].len() != dim {
                assert(!uniform_dimension(embeddings@)) by {
                    assert(embeddings@[i as int]@.len() != embeddings@[0]@.len());
                }
                return Err(EmbeddingError::DimensionMismatch);
            }
            i = i + 1;
        }
        if dim > MAX_DIMENSION {
            return Err(EmbeddingError::DimensionTooLarge);
        }
    }
    let ghost fs = files@;
    let ghost es = embeddings@;
    let ghost n = files@.len() as int;
    let mut files = files;
    let mut embeddings = embeddings;
    let mut reversed: Vec<File> = Vec::new();
    while files.len() > 0
        invariant
            n == fs.len() == es.len(),
            files@.len() == embeddings@.len() <= n,
            files@ == fs.subrange(0, files@.len() as int),
            embeddings@ == es.subrange(0, embeddings@.len() as int),
            reversed@.len() == n - files@.len(),
            forall|k: int| 0 <= k < reversed@.len() ==> {
                let i = n - 1 - k;
                &&& (#[trigger] reversed@[k]).path == fs[i].path
                &&& reversed@[k].content == fs[i].content
                &&& reversed@[k].embedding == es[i]
            },
        decreases files@.len(),
    {
        let file = files.pop().unwrap();
        let embedding = embeddings.pop().unwrap();
        reversed.push(File { path: file.path, content: file.content, embedding });
    }
    let mut result: Vec<File> = Vec::new();
    while reversed.len() > 0
        invariant
            n == fs.len() == es.len(),
            reversed@.len() <= n,
            result@.len() == n - reversed@.len(),
            forall|k: int| 0 <= k < reversed@.len() ==> {
                let i = n - 1 - k;
                &&& (#[trigger] reversed@[k]).path == fs[i].path
                &&& reversed@[k].content == fs[i].content
                &&& reversed@[k].embedding == es[i]
            },
            attached(result@, fs.subrange(0, result@.len() as int), es),
        decreases reversed@.len(),
    {
        let file = reversed.pop().unwrap();
        result.push(file);
    }
    proof {
        assert(fs.subrange(0, n) == fs);
        assert forall|i: int| 0 <= i < result@.len() implies (#[trigger] result@[i]).embedding@.len()
            <= MAX_DIMENSION by {
            assert(es[i]@.len() == es[0]@.len());
        }
    }
    Ok(result)
}

} // verus!
