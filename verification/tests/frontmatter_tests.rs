use quine::extract::frontmatter::extract_frontmatter;
use quine::types::NodePath;
use quine::extract::frontmatter::attributes_of_document;
use quine::extract::yaml::YamlValue;

fn np(s: &str) -> NodePath {
    NodePath::new(s, None).unwrap()
}

#[test]
fn simple_frontmatter() {
    let content = r#"---
title: "My Post"
date: 2026-03-18
---

Body text here.
"#;
    let attrs = extract_frontmatter(&np("/test.md"), content);
    assert_eq!(attrs.len(), 2);

    let title = attrs.iter().find(|a| a.key == "title").unwrap();
    assert_eq!(title.value, "My Post");

    let date = attrs.iter().find(|a| a.key == "date").unwrap();
    assert_eq!(date.value, "2026-03-18");
}

#[test]
fn frontmatter_with_tags_array() {
    let content = r#"---
title: "Test"
tags: ["rust", "supercollider", "music"]
---

Body.
"#;
    let attrs = extract_frontmatter(&np("/test.md"), content);
    let tags = attrs.iter().find(|a| a.key == "tags").unwrap();
    assert_eq!(tags.value, "[rust, supercollider, music]");
}

#[test]
fn frontmatter_with_numeric_values() {
    let content = r#"---
title: "Book"
author: "Someone"
finished: 0
rating: 5
---
"#;
    let attrs = extract_frontmatter(&np("/test.md"), content);
    assert_eq!(attrs.len(), 4);

    let finished = attrs.iter().find(|a| a.key == "finished").unwrap();
    assert_eq!(finished.value, "0");

    let rating = attrs.iter().find(|a| a.key == "rating").unwrap();
    assert_eq!(rating.value, "5");
}

#[test]
fn no_frontmatter() {
    let content = "Just some text without frontmatter.";
    let attrs = extract_frontmatter(&np("/test.md"), content);
    assert!(attrs.is_empty());
}

#[test]
fn malformed_frontmatter() {
    let content = r#"---
this is not: [valid yaml: {
---

Body.
"#;
    let attrs = extract_frontmatter(&np("/test.md"), content);
    assert!(attrs.is_empty());
}

#[test]
fn frontmatter_bool_value() {
    let content = r#"---
draft: true
public: false
---
"#;
    let attrs = extract_frontmatter(&np("/test.md"), content);

    let draft = attrs.iter().find(|a| a.key == "draft").unwrap();
    assert_eq!(draft.value, "true");

    let public = attrs.iter().find(|a| a.key == "public").unwrap();
    assert_eq!(public.value, "false");
}

#[test]
fn frontmatter_preserves_file_path() {
    let content = r#"---
title: "Test"
---
"#;
    let path = np("/home/murphy/notes/test.md");
    let attrs = extract_frontmatter(&path, content);
    assert_eq!(attrs[0].file, path);
}

#[test]
fn only_first_frontmatter_block() {
    let content = r#"---
title: "First"
---

Some text.

---
title: "Second"
---
"#;
    let attrs = extract_frontmatter(&np("/test.md"), content);
    let title = attrs.iter().find(|a| a.key == "title").unwrap();
    assert_eq!(title.value, "First");
}

#[test]
fn book_entry_example() {
    let content = r#"---
title: "Gödel, Escher, Bach"
author: "Douglas Hofstadter"
finished: 2026-01-15
---

Great book about strange loops.
"#;
    let attrs = extract_frontmatter(&np("/notes/books/geb.md"), content);
    assert_eq!(attrs.len(), 3);

    let title = attrs.iter().find(|a| a.key == "title").unwrap();
    assert_eq!(title.value, "Gödel, Escher, Bach");

    let finished = attrs.iter().find(|a| a.key == "finished").unwrap();
    assert_eq!(finished.value, "2026-01-15");
}

#[test]
fn frontmatter_null_and_nested_values() {
    let content = "---\nempty:\nnested:\n  a: 1\nlist: [1, [2, 3]]\n---\n";
    let attrs = extract_frontmatter(&np("/test.md"), content);
    let empty = attrs.iter().find(|a| a.key == "empty").unwrap();
    assert_eq!(empty.value, "null");
    let nested = attrs.iter().find(|a| a.key == "nested").unwrap();
    assert_eq!(nested.value, "a: 1\n");
    let list = attrs.iter().find(|a| a.key == "list").unwrap();
    assert_eq!(list.value, "[1, [2, 3]]");
}

#[test]
fn frontmatter_keeps_key_order() {
    let content = "---\nb: 2\na: 1\n---\n";
    let attrs = extract_frontmatter(&np("/test.md"), content);
    assert_eq!(attrs.len(), 2);
    assert_eq!(attrs[0].key, "b");
    assert_eq!(attrs[1].key, "a");
}

#[test]
fn frontmatter_needs_a_closing_fence() {
    let content = "---\ntitle: x\n";
    assert!(extract_frontmatter(&np("/test.md"), content).is_empty());
}

#[test]
fn frontmatter_skips_non_string_keys() {
    let content = "---\n1: one\ntitle: t\n---\n";
    let attrs = extract_frontmatter(&np("/test.md"), content);
    assert_eq!(attrs.len(), 1);
    assert_eq!(attrs[0].key, "title");
}

#[test]
fn frontmatter_may_follow_leading_whitespace() {
    let content = "\n  ---\ntitle: x\n---\n";
    let attrs = extract_frontmatter(&np("/test.md"), content);
    assert_eq!(attrs.len(), 1);
}

#[test]
fn document_entries_become_attributes() {
    let doc = YamlValue::Tagged(Box::new(YamlValue::Mapping(
        vec![
            (YamlValue::Str("title".into()), YamlValue::Str("T".into())),
            (YamlValue::Bool(true), YamlValue::Str("skipped".into())),
            (
                YamlValue::Str("tags".into()),
                YamlValue::Sequence(vec![YamlValue::Str("a".into()), YamlValue::Number("2".into())]),
            ),
            (YamlValue::Str("flag".into()), YamlValue::Bool(false)),
            (YamlValue::Str("none".into()), YamlValue::Null),
        ],
        None,
    )));
    let attrs = attributes_of_document(&np("/d.md"), &doc);
    let pairs: Vec<(&str, &str)> = attrs.iter().map(|a| (a.key.as_str(), a.value.as_str())).collect();
    assert_eq!(pairs, vec![("title", "T"), ("tags", "[a, 2]"), ("flag", "false"), ("none", "null")]);
    assert!(attributes_of_document(&np("/d.md"), &YamlValue::Str("x".into())).is_empty());
}

#[test]
fn empty_frontmatter_block_ends_at_the_second_fence() {
    assert!(extract_frontmatter(&np("/test.md"), "---\n---\n").is_empty());
    // The block is empty: what follows the second fence is body text.
    let content = "---\n---\ntitle: x\n---\n";
    assert!(extract_frontmatter(&np("/test.md"), content).is_empty());
}
