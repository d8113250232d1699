//! Corpus items: a file's path, its text, and its embedding once computed.
use vstd::prelude::*;

verus! {

/// One file of the corpus. `embedding` is empty until the embedding stage
/// attaches the file's vector.
#[derive(Debug)]
pub struct File {
    pub path: String,
    pub content: String,
    pub embedding: Vec<i16>,
}

/// The mathematical content of a `File`.
pub struct FileView {
    pub path: Seq<char>,
    pub content: Seq<char>,
    pub embedding: Seq<i16>,
}

impl View for File {
    type V = FileView;

    open spec fn view(&self) -> FileView {
        FileView { path: self.path@, content: self.content@, embedding: self.embedding@ }
    }
}

impl File {
    /// A file that has not been embedded yet.
    pub fn new(path: String, content: String) -> (r: File)
        ensures
            r.path == path,
            r.content == content,
            r.embedding@.len() == 0,
    {
        File { path, content, embedding: Vec::new() }
    }
}

} // verus!
