//! A tool that reads course documents, extracts the dependency metadata in
//! their headers, and renders the dependency graph as deterministic DOT
//! text: nodes are unique by id, every edge joins two existing nodes, and
//! the retained edge set is proved acyclic.
use vstd::prelude::*;

pub mod config;
pub mod document;
pub mod frontmatter;
pub mod graph;
pub mod phase_table;
pub mod renderer;
pub mod scanner;
pub mod text;
pub mod warning;

use crate::config::Config;
use crate::document::Document;
use crate::frontmatter::{spec_extract, parse_documents, SourceFile};
use crate::graph::{build_graph, spec_build, BuildError};
use crate::renderer::{spec_emit, to_dot};
use crate::warning::{WarnView, Warning};

verus! {

/// What a successful pipeline run hands back: the graph description text
/// and every warning gathered along the way.
#[derive(Debug)]
pub struct RunOutput {
    pub dot: String,
    pub warnings: Vec<Warning>,
}

/// What the pipeline yields for a file list: extraction, then the graph
/// build, then emission; fatally empty only when no file yields a valid
/// document.
pub open spec fn spec_run_pipeline(
    files: Seq<(Seq<char>, Seq<char>)>,
    root_key: Seq<char>,
    es: Seq<(Seq<char>, Seq<char>)>,
) -> Result<(Seq<char>, Seq<WarnView>), BuildError> {
    let ext = spec_extract(files, es);
    if ext.0.len() == 0 {
        Err(BuildError::EmptyCorpus)
    } else {
        let b = spec_build(ext.0);
        Ok((spec_emit(root_key, b.0, b.1, es), ext.1 + b.2))
    }
}

/// The main application structure.
pub struct App {
    pub config: Config,
}

impl App {
    /// Create a new App instance with the given configuration.
    pub fn new(config: Config) -> (r: App)
        ensures
            r.config == config,
    {
        App { config }
    }

    /// Run the pipeline over the scanned files: extract a document per
    /// parsable file, build the validated graph, and emit its DOT text,
    /// pinned to `spec_run_pipeline`.
    pub fn run(&self, files: &Vec<SourceFile>) -> (r: Result<RunOutput, BuildError>)
        requires
            self.config.wf(),
        ensures
            match r {
                Ok(out) => spec_run_pipeline(
                    files@.map_values(|f: SourceFile| (f.path@, f.contents@)),
                    self.config.root_key@,
                    self.config.entries(),
                ) == Ok::<(Seq<char>, Seq<WarnView>), BuildError>(
                    (out.dot@, out.warnings@.map_values(|w: Warning| w@)),
                ),
                Err(e) => spec_run_pipeline(
                    files@.map_values(|f: SourceFile| (f.path@, f.contents@)),
                    self.config.root_key@,
                    self.config.entries(),
                ) == Err::<(Seq<char>, Seq<WarnView>), BuildError>(e),
            },
    {
        let (docs, mut warnings) = parse_documents(files, &self.config);
        let ghost w1 = warnings@.map_values(|w: Warning| w@);
        let ghost dv = docs@.map_values(|d: Document| d@);
        match build_graph(docs) {
            Ok((g, mut bw)) => {
                let ghost w2 = bw@.map_values(|w: Warning| w@);
                let dot = to_dot(&g, &self.config);
                warnings.append(&mut bw);
                proof {
                    assert forall|j: int|
                        0 <= j < warnings@.len() implies warnings@.map_values(
                        |w: Warning| w@,
                    )[j] == #[trigger] (w1 + w2)[j] by {
                        if j < w1.len() {
                        }
                    }
                    assert(warnings@.map_values(|w: Warning| w@) =~= w1 + w2);
                }
                Ok(RunOutput { dot, warnings })
            },
            Err(e) => Err(e),
        }
    }
}

/// The pipeline is a mathematical function of its inputs: two runs over
/// the same file list, graph name and phase table yield the same text and
/// the same warnings, byte for byte.
pub proof fn lemma_run_deterministic(
    files: Seq<(Seq<char>, Seq<char>)>,
    root_key: Seq<char>,
    es: Seq<(Seq<char>, Seq<char>)>,
    r1: (Seq<char>, Seq<WarnView>),
    r2: (Seq<char>, Seq<WarnView>),
)
    requires
        spec_run_pipeline(files, root_key, es) == Ok::<(Seq<char>, Seq<WarnView>), BuildError>(r1),
        spec_run_pipeline(files, root_key, es) == Ok::<(Seq<char>, Seq<WarnView>), BuildError>(r2),
    ensures
        r1 == r2,
{
}

} // verus!
