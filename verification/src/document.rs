//! The typed record extracted from one source file's metadata header.
use vstd::prelude::*;

verus! {

/// One document's metadata, immutable once extracted.
#[derive(Debug)]
pub struct Document {
    pub id: String,
    pub title: String,
    pub phase: String,
    pub prerequisites: Vec<String>,
    pub file_path: String,
}

/// Mathematical image of a `Document`.
pub ghost struct DocView {
    pub id: Seq<char>,
    pub title: Seq<char>,
    pub phase: Seq<char>,
    pub prerequisites: Seq<Seq<char>>,
    pub file_path: Seq<char>,
}

impl View for Document {
    type V = DocView;

    open spec fn view(&self) -> DocView {
        DocView {
            id: self.id@,
            title: self.title@,
            phase: self.phase@,
            prerequisites: self.prerequisites@.map_values(|p: String| p@),
            file_path: self.file_path@,
        }
    }
}

} // verus!
