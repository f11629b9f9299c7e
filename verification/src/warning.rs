//! Recoverable findings accumulated while the pipeline runs. They are
//! returned beside the result, never swallowed.
use vstd::prelude::*;

verus! {

/// Why a file's metadata header could not be parsed.
#[derive(Clone, Copy, PartialEq, Eq, Structural, Debug)]
pub enum ParseErrorKind {
    /// The file does not start with the `---` delimiter line.
    MissingDelimiter,
    /// The opening delimiter is never closed by a second `---` line.
    UnterminatedHeader,
    /// A header line is neither a key-value pair nor a list entry in place.
    MalformedEntry,
}

/// A recoverable finding, tagged with what it concerns.
#[derive(Debug)]
pub enum Warning {
    /// A file was skipped because its header failed to parse.
    Parse { file_path: String, reason: ParseErrorKind },
    /// A later document reused an id; the first occurrence won.
    DuplicateId { id: String, file_path: String },
    /// A prerequisite names no known document; the edge was dropped.
    UnresolvedReference { document_id: String, reference: String },
    /// Keeping this edge would have closed a cycle; it was dropped.
    CycleEdge { from_id: String, to_id: String },
}

/// Mathematical image of a `Warning`.
pub ghost enum WarnView {
    Parse { file_path: Seq<char>, reason: ParseErrorKind },
    DuplicateId { id: Seq<char>, file_path: Seq<char> },
    UnresolvedReference { document_id: Seq<char>, reference: Seq<char> },
    CycleEdge { from_id: Seq<char>, to_id: Seq<char> },
}

impl View for Warning {
    type V = WarnView;

    open spec fn view(&self) -> WarnView {
        match self {
            Warning::Parse { file_path, reason } => WarnView::Parse {
                file_path: file_path@,
                reason: *reason,
            },
            Warning::DuplicateId { id, file_path } => WarnView::DuplicateId {
                id: id@,
                file_path: file_path@,
            },
            Warning::UnresolvedReference { document_id, reference } => {
                WarnView::UnresolvedReference {
                    document_id: document_id@,
                    reference: reference@,
                }
            },
            Warning::CycleEdge { from_id, to_id } => WarnView::CycleEdge {
                from_id: from_id@,
                to_id: to_id@,
            },
        }
    }
}

} // verus!
