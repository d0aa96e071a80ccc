use quine::extract::links::{extract_links, extract_links_from_block_comments, extract_links_from_comments};

#[test]
fn simple_link() {
    let links = extract_links("see [[~/notes/fix.md]] here");
    assert_eq!(links.len(), 1);
    assert_eq!(links[0].path, "~/notes/fix.md");
    assert_eq!(links[0].fragment, None);
    assert_eq!(links[0].line, 1);
}

#[test]
fn link_with_fragment() {
    let links = extract_links("see [[~/src/foo.cpp#pmm-routing]]");
    assert_eq!(links.len(), 1);
    assert_eq!(links[0].path, "~/src/foo.cpp");
    assert_eq!(links[0].fragment, Some("pmm-routing".to_string()));
}

#[test]
fn multiple_links_one_line() {
    let links = extract_links("[[~/a.md]] and [[~/b.md]]");
    assert_eq!(links.len(), 2);
    assert_eq!(links[0].path, "~/a.md");
    assert_eq!(links[1].path, "~/b.md");
}

#[test]
fn multiple_links_multiple_lines() {
    let text = "line one [[~/a.md]]\nline two\nline three [[~/b.md]] and [[~/c.md#frag]]";
    let links = extract_links(text);
    assert_eq!(links.len(), 3);
    assert_eq!(links[0].line, 1);
    assert_eq!(links[1].line, 3);
    assert_eq!(links[2].line, 3);
    assert_eq!(links[2].fragment, Some("frag".to_string()));
}

#[test]
fn empty_link_skipped() {
    let links = extract_links("empty [[]] here");
    assert_eq!(links.len(), 0);
}

#[test]
fn unclosed_link_skipped() {
    let links = extract_links("unclosed [[~/no-close here");
    assert_eq!(links.len(), 0);
}

#[test]
fn link_does_not_span_lines() {
    let links = extract_links("start [[~/path/\nto/file.md]]");
    assert_eq!(links.len(), 0);
}

#[test]
fn whitespace_trimmed() {
    let links = extract_links("[[ ~/notes/fix.md ]]");
    assert_eq!(links.len(), 1);
    assert_eq!(links[0].path, "~/notes/fix.md");
}

#[test]
fn fragment_whitespace_trimmed() {
    let links = extract_links("[[ ~/src/foo.cpp # pmm-routing ]]");
    assert_eq!(links.len(), 1);
    assert_eq!(links[0].path, "~/src/foo.cpp");
    assert_eq!(links[0].fragment, Some("pmm-routing".to_string()));
}

#[test]
fn hash_only_fragment_is_none() {
    let links = extract_links("[[~/notes/fix.md#]]");
    assert_eq!(links.len(), 1);
    assert_eq!(links[0].path, "~/notes/fix.md");
    assert_eq!(links[0].fragment, None);
}

#[test]
fn absolute_path_link() {
    let links = extract_links("[[/home/murphy/notes/fix.md]]");
    assert_eq!(links.len(), 1);
    assert_eq!(links[0].path, "/home/murphy/notes/fix.md");
}

#[test]
fn link_in_markdown_code_block_still_extracted() {
    // Design decision: in freetext mode, every [[ ]] is a link,
    // even inside code blocks.
    let text = "```\n[[~/notes/fix.md]]\n```";
    let links = extract_links(text);
    assert_eq!(links.len(), 1);
}

#[test]
fn adjacent_brackets_not_confused() {
    let links = extract_links("array[1][2] and [[~/real-link.md]]");
    assert_eq!(links.len(), 1);
    assert_eq!(links[0].path, "~/real-link.md");
}

// ---- Comment-mode tests ----

#[test]
fn line_comment_extraction() {
    let text = r#"
void main() {
// see [[~/notes/fix.md]] for details
int x = 5; // [[~/notes/other.md]]
printf("[[~/not/a/link.md]]"); // not in a comment line
}
"#;
    let links = extract_links_from_comments(text, "//");
    assert_eq!(links.len(), 2);
    assert_eq!(links[0].path, "~/notes/fix.md");
    assert_eq!(links[1].path, "~/notes/other.md");
}

#[test]
fn python_comment_extraction() {
    let text = r#"
def main():
# see [[~/notes/fix.md]]
x = 5  # [[~/notes/other.md]]
print("[[~/not/a/link.md]]")
"#;
    let links = extract_links_from_comments(text, "#");
    assert_eq!(links.len(), 2);
    assert_eq!(links[0].path, "~/notes/fix.md");
    assert_eq!(links[1].path, "~/notes/other.md");
}

#[test]
fn line_comment_no_links_in_code() {
    let text = r#"
auto path = "[[~/notes/fix.md]]";
// no link here
"#;
    let links = extract_links_from_comments(text, "//");
    assert_eq!(links.len(), 0);
}

#[test]
fn block_comment_extraction() {
    let text = r#"
/* This references [[~/notes/fix.md]] */
int x = 5;
/*
 * Multi-line block:
 * See [[~/src/strategy.cpp#pmm-routing]]
 */
"#;
    let links = extract_links_from_block_comments(text, "/*", "*/");
    assert_eq!(links.len(), 2);
    assert_eq!(links[0].path, "~/notes/fix.md");
    assert_eq!(links[1].path, "~/src/strategy.cpp");
    assert_eq!(links[1].fragment, Some("pmm-routing".to_string()));
}

#[test]
fn block_comment_ignores_code() {
    let text = r#"
char* s = "[[~/not/a/link.md]]";
/* but [[~/real/link.md]] is */
"#;
    let links = extract_links_from_block_comments(text, "/*", "*/");
    assert_eq!(links.len(), 1);
    assert_eq!(links[0].path, "~/real/link.md");
}

#[test]
fn block_comment_col_counts_from_the_start_of_the_line() {
    let text = "int x; /* see [[~/a.md]] */";
    let links = extract_links_from_block_comments(text, "/*", "*/");
    assert_eq!(links.len(), 1);
    assert_eq!(links[0].col, 14);
    assert!(text[links[0].col..].starts_with("[["));
}

#[test]
fn multi_line_block_comment_cols_count_from_the_start_of_each_line() {
    let text = "x /* [[~/a.md]]\n [[~/b.md]] */";
    let links = extract_links_from_block_comments(text, "/*", "*/");
    let got: Vec<(&str, u32, usize)> = links.iter().map(|l| (l.path.as_str(), l.line, l.col)).collect();
    assert_eq!(got, vec![("~/a.md", 1, 5), ("~/b.md", 2, 1)]);
}

#[test]
fn link_path_stops_at_the_first_hash_and_the_first_close() {
    let links = extract_links("[[a#b#c]] [[d]]]");
    assert_eq!(links.len(), 2);
    assert_eq!(links[0].path, "a");
    assert_eq!(links[0].fragment.as_deref(), Some("b#c"));
    assert_eq!(links[1].path, "d");
    assert_eq!((links[0].col, links[1].col), (0, 10));
}

#[test]
fn links_of_a_text_are_those_of_its_lines() {
    let text = "x [[a]]\n[[b]] y [[c]]\r\n\nz [[d#e]]";
    let whole = extract_links(text);
    let mut by_line = Vec::new();
    for (i, line) in text.lines().enumerate() {
        for mut l in extract_links(line) {
            l.line = (i + 1) as u32;
            by_line.push(l);
        }
    }
    assert_eq!(whole, by_line);
    let cols: Vec<(u32, usize)> = whole.iter().map(|l| (l.line, l.col)).collect();
    assert_eq!(cols, vec![(1, 2), (2, 0), (2, 8), (4, 2)]);
    for l in &whole {
        let line = text.lines().nth(l.line as usize - 1).unwrap();
        assert!(line[l.col..].starts_with("[["));
    }
}

#[test]
fn block_comment_links_stand_between_open_and_close() {
    let text = "code [[~/x.md]] /* a [[~/y.md]] */ [[~/z.md]]\n/* [[~/p.md]]\n  [[~/q.md]] */ [[~/r.md]]";
    let links = extract_links_from_block_comments(text, "/*", "*/");
    let got: Vec<(&str, u32, usize)> = links.iter().map(|l| (l.path.as_str(), l.line, l.col)).collect();
    assert_eq!(got, vec![("~/y.md", 1, 21), ("~/p.md", 2, 3), ("~/q.md", 3, 2)]);
    for l in &links {
        let line = text.lines().nth(l.line as usize - 1).unwrap();
        assert!(line[l.col..].starts_with("[["));
        if let Some(open) = line.find("/*") {
            if l.line == 1 || l.line == 2 {
                assert!(l.col >= open + 2);
            }
        }
        if let Some(close) = line.find("*/") {
            assert!(l.col < close);
        }
    }
}
