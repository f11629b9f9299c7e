use coursemap::config::Config;
use coursemap::frontmatter::{parse_document, SourceFile};
use coursemap::graph::BuildError;
use coursemap::warning::{ParseErrorKind, Warning};
use coursemap::App;

fn file(path: &str, contents: &str) -> SourceFile {
    SourceFile { path: path.to_string(), contents: contents.to_string() }
}

#[test]
fn test_linear_chain_exact_output() {
    let app = App::new(Config::default());
    let files = vec![
        file("c/intro.qmd", "---\nid: intro\ntitle: Intro\nphase: Pre\n---\nbody\n"),
        file(
            "c/mid.qmd",
            "---\nid: mid\ntitle: Mid\nphase: InClass\nprerequisites:\n  - intro\n---\n",
        ),
        file(
            "c/final.qmd",
            "---\nid: final\ntitle: Final\nphase: Post\nprerequisites:\n  - mid\n---\n",
        ),
    ];
    let out = app.run(&files).unwrap();
    assert!(out.warnings.is_empty());
    let expected = "digraph \"course-map\" {\n  rankdir=TB;\n  node [shape=box, style=filled];\n  \"intro\" [label=\"Intro\", fillcolor=\"lightblue\"];\n  \"mid\" [label=\"Mid\", fillcolor=\"lightgreen\"];\n  \"final\" [label=\"Final\", fillcolor=\"orange\"];\n  \"intro\" -> \"mid\";\n  \"mid\" -> \"final\";\n}\n";
    assert_eq!(out.dot, expected);
}

#[test]
fn test_pipeline_is_deterministic() {
    let files = vec![
        file("a.qmd", "---\nid: a\nphase: Pre\n---\n"),
        file("b.qmd", "---\nid: b\nprerequisites:\n  - a\n---\n"),
    ];
    let app = App::new(Config::default());
    let first = app.run(&files).unwrap();
    let again = App::new(Config::default()).run(&files).unwrap();
    assert_eq!(first.dot, again.dot);
    assert_eq!(first.warnings.len(), again.warnings.len());
}

#[test]
fn test_cycle_drops_one_edge() {
    // A lists C, B lists A, C lists B: one of the three edges must go
    let app = App::new(Config::default());
    let files = vec![
        file("a.qmd", "---\nid: A\nprerequisites:\n  - C\n---\n"),
        file("b.qmd", "---\nid: B\nprerequisites:\n  - A\n---\n"),
        file("c.qmd", "---\nid: C\nprerequisites:\n  - B\n---\n"),
    ];
    let out = app.run(&files).unwrap();
    let edge_count = out.dot.matches(" -> ").count();
    assert_eq!(edge_count, 2);
    let cycle_warnings = out
        .warnings
        .iter()
        .filter(|w| matches!(w, Warning::CycleEdge { .. }))
        .count();
    assert_eq!(cycle_warnings, 1);
}

#[test]
fn test_self_reference_dropped() {
    let app = App::new(Config::default());
    let files = vec![file("a.qmd", "---\nid: A\nprerequisites:\n  - A\n---\n")];
    let out = app.run(&files).unwrap();
    assert_eq!(out.dot.matches(" -> ").count(), 0);
    assert!(matches!(out.warnings[0], Warning::CycleEdge { .. }));
}

#[test]
fn test_dangling_reference_warns_and_drops_edge() {
    let app = App::new(Config::default());
    let files = vec![file("a.qmd", "---\nid: A\nprerequisites:\n  - ghost\n---\n")];
    let out = app.run(&files).unwrap();
    assert!(out.dot.contains("\"A\""));
    assert_eq!(out.dot.matches(" -> ").count(), 0);
    match &out.warnings[0] {
        Warning::UnresolvedReference { document_id, reference } => {
            assert_eq!(document_id, "A");
            assert_eq!(reference, "ghost");
        },
        _ => panic!("expected an unresolved-reference warning"),
    }
}

#[test]
fn test_duplicate_id_keeps_first() {
    let app = App::new(Config::default());
    let files = vec![
        file("one.qmd", "---\nid: same\ntitle: First\n---\n"),
        file("two.qmd", "---\nid: same\ntitle: Second\n---\n"),
    ];
    let out = app.run(&files).unwrap();
    assert_eq!(out.dot.matches("\"same\"").count(), 1);
    assert!(out.dot.contains("label=\"First\""));
    assert!(!out.dot.contains("label=\"Second\""));
    match &out.warnings[0] {
        Warning::DuplicateId { id, file_path } => {
            assert_eq!(id, "same");
            assert_eq!(file_path, "two.qmd");
        },
        _ => panic!("expected a duplicate-id warning"),
    }
}

#[test]
fn test_missing_phase_defaults_to_unknown() {
    let config = Config::default();
    let d = parse_document("x/course.qmd", "---\nid: c1\n---\n", &config).unwrap();
    assert_eq!(d.phase, "Unknown");
    // and the emitted node receives the table's Unknown color
    let app = App::new(config);
    let out = app.run(&vec![file("x/course.qmd", "---\nid: c1\n---\n")]).unwrap();
    assert!(out.dot.contains("fillcolor=\"lightgray\""));
}

#[test]
fn test_unrecognized_phase_becomes_unknown() {
    let config = Config::default();
    let d = parse_document("a.qmd", "---\nid: a\nphase: Sideways\n---\n", &config).unwrap();
    assert_eq!(d.phase, "Unknown");
}

#[test]
fn test_id_defaults_to_filename_stem() {
    let config = Config::default();
    let d = parse_document("dir/my-course.qmd", "---\ntitle: T\n---\n", &config).unwrap();
    assert_eq!(d.id, "my-course");
    assert_eq!(d.title, "T");
}

#[test]
fn test_title_defaults_to_id() {
    let config = Config::default();
    let d = parse_document("dir/alpha.qmd", "---\n---\n", &config).unwrap();
    assert_eq!(d.id, "alpha");
    assert_eq!(d.title, "alpha");
}

#[test]
fn test_prerequisites_trimmed_and_deduplicated() {
    let config = Config::default();
    let d = parse_document(
        "a.qmd",
        "---\nid: a\nprerequisites:\n  -  b \n  - b\n  - c\n---\n",
        &config,
    )
    .unwrap();
    assert_eq!(d.prerequisites, vec!["b".to_string(), "c".to_string()]);
}

#[test]
fn test_missing_delimiter_is_parse_error() {
    let config = Config::default();
    let r = parse_document("a.qmd", "no header here\n", &config);
    assert_eq!(r.unwrap_err(), ParseErrorKind::MissingDelimiter);
}

#[test]
fn test_unterminated_header_is_parse_error() {
    let config = Config::default();
    let r = parse_document("a.qmd", "---\nid: a\n", &config);
    assert_eq!(r.unwrap_err(), ParseErrorKind::UnterminatedHeader);
}

#[test]
fn test_malformed_line_is_parse_error() {
    let config = Config::default();
    let r = parse_document("a.qmd", "---\nthis line has no colon\n---\n", &config);
    assert_eq!(r.unwrap_err(), ParseErrorKind::MalformedEntry);
}

#[test]
fn test_bad_file_warns_but_run_continues() {
    let app = App::new(Config::default());
    let files = vec![
        file("bad.qmd", "just text\n"),
        file("good.qmd", "---\nid: g\n---\n"),
    ];
    let out = app.run(&files).unwrap();
    assert!(out.dot.contains("\"g\""));
    assert!(matches!(
        out.warnings[0],
        Warning::Parse { reason: ParseErrorKind::MissingDelimiter, .. }
    ));
}

#[test]
fn test_empty_corpus_is_fatal() {
    let app = App::new(Config::default());
    assert_eq!(app.run(&Vec::new()).unwrap_err(), BuildError::EmptyCorpus);
    // files exist but none parses: still fatal
    let files = vec![file("bad.qmd", "no header\n")];
    assert_eq!(app.run(&files).unwrap_err(), BuildError::EmptyCorpus);
}

#[test]
fn test_labels_are_escaped() {
    let app = App::new(Config::default());
    let files = vec![file("a.qmd", "---\nid: a\ntitle: say \"hi\"\n---\n")];
    let out = app.run(&files).unwrap();
    assert!(out.dot.contains("label=\"say \\\"hi\\\"\""));
}

#[test]
fn test_select_files_filters_and_keeps_order() {
    let config = Config::default();
    let paths = vec![
        "a/index.qmd".to_string(),
        "a/intro.qmd".to_string(),
        "a/notes.txt".to_string(),
        "b/more.md".to_string(),
    ];
    let kept = coursemap::scanner::select_files(paths, &config);
    assert_eq!(kept, vec!["a/intro.qmd".to_string(), "b/more.md".to_string()]);
}

#[test]
fn test_comments_and_unknown_keys_ignored() {
    let config = Config::default();
    let d = parse_document(
        "a.qmd",
        "---\n# a comment\nid: a\nauthor: someone\ncategories:\n  - x\n  - y\n---\n",
        &config,
    )
    .unwrap();
    assert_eq!(d.id, "a");
    assert!(d.prerequisites.is_empty());
}

#[test]
fn test_sort_paths_is_lexicographic() {
    let paths = vec![
        "b/one.qmd".to_string(),
        "a/two.qmd".to_string(),
        "a/one.qmd".to_string(),
        "a.qmd".to_string(),
    ];
    let sorted = coursemap::scanner::sort_paths(paths);
    assert_eq!(
        sorted,
        vec![
            "a.qmd".to_string(),
            "a/one.qmd".to_string(),
            "a/two.qmd".to_string(),
            "b/one.qmd".to_string(),
        ]
    );
}
