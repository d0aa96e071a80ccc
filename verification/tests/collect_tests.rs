use std::collections::{HashMap, HashSet};

use quine::collect::{
    broken_edges, collect_report, files_to_extract, flatten, plan_writes, stale_roots, DbWrite,
};
use quine::db::{
    edge_changelog, incoming_edges, like_pattern, node_changelog, node_paths, region_prose,
};
use quine::errors::LifeWarning;
use quine::extract::ExtractionResult;
use quine::types::{
    Attribute, Edge, Extracted, NodePath, ProseBlock, Region, Root, WalkDiff, WalkedFile,
};
use quine::walk::WalkResult;

fn np(p: &str) -> NodePath {
    NodePath::new(p, None).unwrap()
}

fn file(p: &str, h: &str) -> WalkedFile {
    WalkedFile { path: np(p), hash: h.into(), size: 1, modified_bits: 0, root: np("/") }
}

fn sample_diff() -> WalkDiff {
    WalkDiff {
        added: vec![file("/new.md", "n")],
        removed: vec![np("/gone.md"), np("/old.md")],
        changed: vec![file("/changed.md", "c")],
        unchanged: vec![np("/same.md")],
    }
}

#[test]
fn broken_edges_are_removed_resolved_targets() {
    let removed = vec![np("/a.md"), np("/b.md"), np("/c.md")];
    let resolved = vec!["/c.md".to_string(), "/a.md".to_string(), "/z.md".to_string()];
    let broken = broken_edges(&removed, &resolved);
    let paths: Vec<&str> = broken.iter().map(|p| p.as_str()).collect();
    assert_eq!(paths, vec!["/a.md", "/c.md"]);
}

#[test]
fn only_added_and_changed_files_are_extracted() {
    let d = sample_diff();
    let files = files_to_extract(&d);
    let paths: Vec<&str> = files.iter().map(|f| f.path.as_str()).collect();
    assert_eq!(paths, vec!["/new.md", "/changed.md"]);
}

fn edge(s: &str, t: &str) -> Edge {
    Edge { source: np(s), target: np(t), fragment: None }
}

#[test]
fn flatten_keeps_file_order() {
    let x1 = Extracted {
        edges: vec![edge("/a", "/b"), edge("/a", "/c")],
        regions: vec![],
        attributes: vec![Attribute { file: np("/a"), key: "k".into(), value: "v".into() }],
    };
    let x2 = Extracted {
        edges: vec![edge("/d", "/e")],
        regions: vec![Region {
            file: np("/d"),
            name: "r".into(),
            start_line: 1,
            end_line: 2,
            prose: vec![],
        }],
        attributes: vec![],
    };
    let flat = flatten(&[x1, x2]);
    let targets: Vec<&str> = flat.edges.iter().map(|e| e.target.as_str()).collect();
    assert_eq!(targets, vec!["/b", "/c", "/e"]);
    assert_eq!(flat.regions.len(), 1);
    assert_eq!(flat.attributes.len(), 1);
}

fn root(p: &str) -> Root {
    Root { path: np(p), name: "r".into(), refs: vec![] }
}

#[test]
fn stale_roots_are_those_no_longer_walked() {
    let previous = vec!["/r1".to_string(), "/r2".to_string(), "/r3".to_string()];
    let roots = vec![root("/r2")];
    assert_eq!(stale_roots(&previous, &roots), vec!["/r1".to_string(), "/r3".to_string()]);
}

#[test]
fn writes_follow_the_pipeline_order() {
    let d = sample_diff();
    let flat = flatten(&[Extracted {
        edges: vec![edge("/new.md", "/x.md")],
        regions: vec![],
        attributes: vec![],
    }]);
    let roots = vec![root("/")];
    let stale = vec!["/old-root".to_string()];
    let w = plan_writes(&d, &flat, &roots, &stale);
    let kinds: Vec<String> = w
        .iter()
        .map(|w| match w {
            DbWrite::RemoveFile(p) => format!("rm {}", p.as_str()),
            DbWrite::UpsertNode(f) => format!("node {}", f.path.as_str()),
            DbWrite::InsertEdge(e) => format!("edge {}", e.target.as_str()),
            DbWrite::InsertRegion(r) => format!("region {}", r.name),
            DbWrite::InsertAttribute(a) => format!("attr {}", a.key),
            DbWrite::UpsertRoot(r) => format!("root {}", r.path.as_str()),
            DbWrite::RemoveRoot(p) => format!("unroot {}", p),
            DbWrite::AppendChangelog(e) => format!("log {}", e.len()),
        })
        .collect();
    assert_eq!(
        kinds,
        vec![
            "rm /gone.md",
            "rm /old.md",
            "rm /changed.md",
            "node /changed.md",
            "node /new.md",
            "edge /x.md",
            "root /",
            "unroot /old-root",
            "log 3",
        ]
    );
}

#[test]
fn report_counts_everything() {
    let d = sample_diff();
    let walk = WalkResult {
        files: vec![],
        roots: vec![root("/"), root("/other")],
        warnings: vec![LifeWarning::NoExtractor { file: np("/x") }],
    };
    let extraction = ExtractionResult {
        extracted: vec![],
        warnings: vec![
            LifeWarning::NoExtractor { file: np("/y") },
            LifeWarning::NoExtractor { file: np("/z") },
        ],
    };
    let flat = flatten(&[Extracted { edges: vec![edge("/a", "/b")], regions: vec![], attributes: vec![] }]);
    let broken = vec![np("/gone.md")];
    let r = collect_report(&walk, &d, &extraction, &flat, &broken);
    assert_eq!(r.roots_discovered, 2);
    assert_eq!(r.files_added, 1);
    assert_eq!(r.files_removed, 2);
    assert_eq!(r.files_changed, 1);
    assert_eq!(r.files_unchanged, 1);
    assert_eq!(r.edges_added, 1);
    assert_eq!(r.warnings, 3);
    assert_eq!(r.broken_edges, 1);
}

#[test]
fn region_prose_is_joined_by_blank_lines() {
    let mut r = Region { file: np("/f"), name: "n".into(), start_line: 1, end_line: 9, prose: vec![] };
    assert_eq!(region_prose(&r), None);
    r.prose.push(ProseBlock { start_line: 2, content: "one".into() });
    r.prose.push(ProseBlock { start_line: 5, content: "two".into() });
    assert_eq!(region_prose(&r), Some("one\n\ntwo".to_string()));
}

#[test]
fn region_prose_of_empty_blocks_is_none() {
    let r = Region {
        file: np("/f"),
        name: "n".into(),
        start_line: 1,
        end_line: 9,
        prose: vec![ProseBlock { start_line: 2, content: String::new() }],
    };
    assert_eq!(region_prose(&r), None);
}

#[test]
fn like_pattern_wraps_the_query() {
    assert_eq!(like_pattern("fix"), "%fix%");
    assert_eq!(like_pattern("a_b%"), "%a\\_b\\%%");
    assert_eq!(like_pattern("c:\\d"), "%c:\\\\d%");
}

#[test]
fn node_paths_drop_relative_rows() {
    let rows = vec!["/a".to_string(), "b".to_string(), "/c".to_string()];
    let paths: Vec<String> = node_paths(rows).iter().map(|p| p.as_str().to_string()).collect();
    assert_eq!(paths, vec!["/a", "/c"]);
}

#[test]
fn node_changelog_lists_added_then_removed() {
    let d = sample_diff();
    let rows = node_changelog(&d);
    assert_eq!(rows.len(), 3);
    assert_eq!(rows[0].action, "added");
    assert_eq!(rows[0].kind, "node");
    assert_eq!(rows[0].path_a, "/new.md");
    assert_eq!(rows[0].path_b, None);
    assert_eq!(rows[1].action, "removed");
    assert_eq!(rows[2].path_a, "/old.md");
}

#[test]
fn edge_changelog_records_both_ends() {
    let rows = edge_changelog(&[(np("/a"), np("/b"))], &[(np("/c"), np("/d"))]);
    assert_eq!(rows.len(), 2);
    assert_eq!(rows[0].action, "added");
    assert_eq!(rows[0].kind, "edge");
    assert_eq!(rows[0].path_b, Some("/b".to_string()));
    assert_eq!(rows[1].action, "removed");
    assert_eq!(rows[1].path_a, "/c");
}

#[test]
fn incoming_edges_drop_relative_sources() {
    let rows = vec![
        ("/s".to_string(), Some("frag".to_string())),
        ("rel".to_string(), None),
    ];
    let e = incoming_edges(rows);
    assert_eq!(e.len(), 1);
    assert_eq!(e[0].0.as_str(), "/s");
    assert_eq!(e[0].1, Some("frag".to_string()));
}

#[test]
fn applying_the_planned_writes_stores_the_walk() {
    let recorded = vec![
        ("/same.md".to_string(), "s".to_string()),
        ("/changed.md".to_string(), "old".to_string()),
        ("/gone.md".to_string(), "g".to_string()),
    ];
    let walked = vec![file("/same.md", "s"), file("/changed.md", "c"), file("/new.md", "n")];
    let d = quine::walk::diff::diff(&recorded, &walked);
    let roots = vec![Root { path: np("/r1"), name: "r1".into(), refs: vec![] }];
    let previous_roots = vec!["/r1".to_string(), "/r0".to_string()];
    let stale = stale_roots(&previous_roots, &roots);
    let flat = flatten(&[]);
    let writes = plan_writes(&d, &flat, &roots, &stale);
    let mut nodes: HashMap<String, String> = recorded.into_iter().collect();
    let mut root_set: HashSet<String> = previous_roots.into_iter().collect();
    for w in &writes {
        match w {
            DbWrite::RemoveFile(p) => {
                nodes.remove(p.as_str());
            }
            DbWrite::UpsertNode(f) => {
                nodes.insert(f.path.as_str().to_string(), f.hash.clone());
            }
            DbWrite::UpsertRoot(r) => {
                root_set.insert(r.path.as_str().to_string());
            }
            DbWrite::RemoveRoot(p) => {
                root_set.remove(p);
            }
            _ => {}
        }
    }
    let expected: HashMap<String, String> =
        walked.iter().map(|f| (f.path.as_str().to_string(), f.hash.clone())).collect();
    assert_eq!(nodes, expected);
    assert_eq!(root_set, ["/r1".to_string()].into_iter().collect::<HashSet<_>>());
}
