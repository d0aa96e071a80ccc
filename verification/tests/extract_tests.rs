use quine::extract::config::{builtin_extractors, find_extractor, ExtractorDef};
use quine::extract::engine::extract;
use quine::types::NodePath;
use quine::extract::config::find_extractor_lower;
use quine::extract::engine::dedup_links;
use quine::extract::links::RawLink;

const HOME: Option<&str> = Some("/home/murphy");

fn np(p: &str) -> NodePath {
    NodePath::new(p, HOME).unwrap()
}

#[test]
fn find_markdown() {
    let extractors = builtin_extractors();
    let ext = find_extractor("/home/murphy/notes/fix.md", &extractors).unwrap();
    assert_eq!(ext.name, "markdown");
    assert!(ext.freetext);
}

#[test]
fn find_cpp() {
    let extractors = builtin_extractors();
    let ext = find_extractor("/home/murphy/src/strategy.cpp", &extractors).unwrap();
    assert_eq!(ext.name, "c_family");
    assert!(!ext.freetext);
    assert_eq!(ext.line_comment.as_deref(), Some("//"));
}

#[test]
fn find_python() {
    let extractors = builtin_extractors();
    let ext = find_extractor("/home/murphy/billing/transforms.py", &extractors).unwrap();
    assert_eq!(ext.name, "python");
}

#[test]
fn find_supercollider() {
    let extractors = builtin_extractors();
    let ext = find_extractor("/home/murphy/music/ovalprocess/main.scd", &extractors).unwrap();
    assert_eq!(ext.name, "supercollider");
}

#[test]
fn no_extractor_for_binary() {
    let extractors = builtin_extractors();
    assert!(find_extractor("/home/murphy/photo.jpg", &extractors).is_none());
}

#[test]
fn no_extractor_for_unknown() {
    let extractors = builtin_extractors();
    assert!(find_extractor("/home/murphy/data.parquet", &extractors).is_none());
}

#[test]
fn find_is_case_insensitive() {
    let extractors = builtin_extractors();
    let ext = find_extractor("/home/murphy/notes/README.MD", &extractors).unwrap();
    assert_eq!(ext.name, "markdown");
}

fn markdown_def() -> ExtractorDef {
    ExtractorDef {
        name: "markdown".into(),
        patterns: vec!["*.md".into()],
        line_comment: None,
        block_comment: None,
        freetext: true,
    }
}

fn cpp_def() -> ExtractorDef {
    ExtractorDef {
        name: "c_family".into(),
        patterns: vec!["*.cpp".into()],
        line_comment: Some("//".into()),
        block_comment: Some(("/*".into(), "*/".into())),
        freetext: false,
    }
}

fn python_def() -> ExtractorDef {
    ExtractorDef {
        name: "python".into(),
        patterns: vec!["*.py".into()],
        line_comment: Some("#".into()),
        block_comment: None,
        freetext: false,
    }
}

#[test]
fn markdown_extracts_all_links() {
    let file = np("/notes/test.md");
    let content = r#"
# My Note

See [[~/src/vesplatform/sor/strategy.cpp]] for the implementation.

```
This [[~/notes/other.md]] is in a code block but still a link.
```

Also related: [[~/music/supercollider/ovalprocess/main.scd#granular-voice]]
"#;
    let result = extract(&file, content, &markdown_def(), HOME).unwrap();
    assert_eq!(result.edges.len(), 3);
    assert_eq!(
        result.edges[0].target.as_str(),
        &*np("~/src/vesplatform/sor/strategy.cpp").as_str().to_string()
    );
    assert_eq!(result.edges[1].target, np("~/notes/other.md"));
    assert_eq!(result.edges[2].fragment, Some("granular-voice".to_string()));
}

#[test]
fn cpp_only_extracts_from_comments() {
    let file = np("/src/test.cpp");
    let content = r#"
#include <iostream>

// See [[~/notes/fix-protocol.md]] for the FIX spec.
void handler() {
    auto s = "[[~/not/a/link.md]]"; // not in comment context
    // Related: [[~/src/other.cpp#session-handler]]
    /* Block comment with [[~/notes/design.md]] */
}
"#;
    let result = extract(&file, content, &cpp_def(), HOME).unwrap();
    assert_eq!(result.edges.len(), 3);

    let paths: Vec<&str> = result.edges.iter().map(|e| e.target.as_str()).collect();
    assert!(paths.iter().any(|p| p.ends_with("fix-protocol.md")));
    assert!(paths.iter().any(|p| p.ends_with("other.cpp")));
    assert!(paths.iter().any(|p| p.ends_with("design.md")));
    // The string literal link should NOT be extracted.
    assert!(!paths.iter().any(|p| p.ends_with("not/a/link.md")));
}

#[test]
fn python_only_extracts_from_hash_comments() {
    let file = np("/src/test.py");
    let content = r#"
# See [[~/notes/billing.md]] for the fee schedule.
def calculate():
    s = "[[~/not/a/link.md]]"
    # Also [[~/src/transforms.py#fee-calculation]]
    pass
"#;
    let result = extract(&file, content, &python_def(), HOME).unwrap();
    assert_eq!(result.edges.len(), 2);
    assert!(result.edges[0].target.as_str().ends_with("billing.md"));
    assert_eq!(result.edges[1].fragment, Some("fee-calculation".to_string()));
}

#[test]
fn relative_links_are_skipped() {
    let file = np("/notes/test.md");
    let content = "See [[relative/path.md]] — this is not valid.";
    let result = extract(&file, content, &markdown_def(), HOME).unwrap();
    assert_eq!(result.edges.len(), 0);
}

#[test]
fn source_is_always_the_file() {
    let file = np("/notes/test.md");
    let content = "[[~/notes/a.md]] and [[~/notes/b.md]]";
    let result = extract(&file, content, &markdown_def(), HOME).unwrap();
    for edge in &result.edges {
        assert_eq!(edge.source, file);
    }
}

#[test]
fn no_links_returns_empty() {
    let file = np("/src/boring.cpp");
    let content = "int main() { return 0; }";
    let result = extract(&file, content, &cpp_def(), HOME).unwrap();
    assert!(result.edges.is_empty());
}

#[test]
fn trailing_line_comment_extracted() {
    // A line like `int x = 5; // see [[~/link.md]]` should work
    // because we find the comment prefix anywhere in the line.
    let file = np("/src/test.cpp");
    let content = "int x = 5; // see [[~/notes/fix.md]]";
    let result = extract(&file, content, &cpp_def(), HOME).unwrap();
    assert_eq!(result.edges.len(), 1);
    assert!(result.edges[0].target.as_str().ends_with("fix.md"));
}

#[test]
fn tilde_links_expand_to_the_home_directory() {
    let file = np("/notes/test.md");
    let result = extract(&file, "[[~/notes/a.md]]", &markdown_def(), HOME).unwrap();
    assert_eq!(result.edges[0].target.as_str(), "/home/murphy/notes/a.md");
}

#[test]
fn tilde_links_without_home_are_skipped() {
    let file = np("/notes/test.md");
    let result = extract(&file, "[[~/notes/a.md]] [[/abs/b.md]]", &markdown_def(), None).unwrap();
    assert_eq!(result.edges.len(), 1);
    assert_eq!(result.edges[0].target.as_str(), "/abs/b.md");
}

#[test]
fn duplicate_comment_links_are_merged() {
    // A `//` comment inside a block comment is seen by both scanners.
    let file = np("/src/test.cpp");
    let content = "/* // [[/a.md]] */";
    let result = extract(&file, content, &cpp_def(), HOME).unwrap();
    assert_eq!(result.edges.len(), 1);
}

#[test]
fn markdown_gets_frontmatter_attributes() {
    let file = np("/notes/test.md");
    let content = "---\ntitle: Hello\n---\nbody";
    let result = extract(&file, content, &markdown_def(), HOME).unwrap();
    assert_eq!(result.attributes.len(), 1);
    assert_eq!(result.attributes[0].key, "title");
    assert_eq!(result.attributes[0].value, "Hello");
}

#[test]
fn code_gets_no_frontmatter_attributes() {
    let file = np("/src/test.cpp");
    let content = "---\ntitle: Hello\n---\n";
    let result = extract(&file, content, &cpp_def(), HOME).unwrap();
    assert!(result.attributes.is_empty());
}

#[test]
fn find_extractor_lower_takes_the_lowered_path() {
    let extractors = builtin_extractors();
    assert_eq!(find_extractor_lower("/a/b.py", &extractors).unwrap().name, "python");
    // The path is taken as it is: an upper-case extension matches nothing.
    assert!(find_extractor_lower("/a/b.PY", &extractors).is_none());
}

#[test]
fn dedup_sorts_by_line_column_then_path() {
    let l = |p: &str, line: u32, col: usize| RawLink { path: p.into(), fragment: None, line, col };
    let out = dedup_links(vec![l("/b", 2, 0), l("/a", 1, 5), l("/z", 1, 0), l("/z", 1, 3), l("/a", 1, 5)]);
    let got: Vec<(&str, u32, usize)> = out.iter().map(|x| (x.path.as_str(), x.line, x.col)).collect();
    assert_eq!(got, vec![("/z", 1, 0), ("/a", 1, 5), ("/b", 2, 0)]);
}

#[test]
fn dedup_keeps_one_link_per_path_fragment_and_line() {
    let l = |p: &str, line: u32, col: usize| RawLink { path: p.into(), fragment: None, line, col };
    let out = dedup_links(vec![l("~/a.md", 1, 1), l("~/b.md", 1, 3), l("~/a.md", 1, 17)]);
    let got: Vec<(&str, u32, usize)> = out.iter().map(|x| (x.path.as_str(), x.line, x.col)).collect();
    assert_eq!(got, vec![("~/a.md", 1, 1), ("~/b.md", 1, 3)]);
}

#[test]
fn dedup_keeps_links_that_differ_in_fragment() {
    let out = dedup_links(vec![
        RawLink { path: "/a".into(), fragment: Some("x".into()), line: 1, col: 0 },
        RawLink { path: "/a".into(), fragment: None, line: 1, col: 9 },
        RawLink { path: "/a".into(), fragment: Some("x".into()), line: 1, col: 20 },
    ]);
    assert_eq!(out.len(), 2);
    assert_eq!(out[0].col, 0);
    assert_eq!(out[1].col, 9);
}
