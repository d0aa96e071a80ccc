use quine::errors::{LifeError, LifeWarning};
use quine::extract::run;
use quine::types::{NodePath, WalkedFile};

fn file(p: &str) -> WalkedFile {
    WalkedFile {
        path: NodePath::new(p, None).unwrap(),
        hash: "h".into(),
        size: 1,
        modified_bits: 0,
        root: NodePath::new("/", None).unwrap(),
    }
}

#[test]
fn files_without_extractor_are_leaves() {
    let files = vec![file("/a.md"), file("/photo.jpg")];
    let contents = vec![Some("[[/b.md]]".to_string()), None];
    let r = run(&files, &contents, None).unwrap();
    assert_eq!(r.extracted.len(), 1);
    assert_eq!(r.extracted[0].edges[0].target.as_str(), "/b.md");
    assert_eq!(r.warnings.len(), 1);
    match &r.warnings[0] {
        LifeWarning::NoExtractor { file } => assert_eq!(file.as_str(), "/photo.jpg"),
        _ => panic!("expected NoExtractor"),
    }
}

#[test]
fn unreadable_files_are_skipped() {
    let files = vec![file("/a.md"), file("/b.py")];
    let contents = vec![None, Some("# [[/c.md]]".to_string())];
    let r = run(&files, &contents, None).unwrap();
    assert_eq!(r.extracted.len(), 1);
    assert_eq!(r.extracted[0].edges[0].source.as_str(), "/b.py");
    assert!(r.warnings.is_empty());
}

#[test]
fn region_errors_stop_extraction() {
    let files = vec![file("/a.cpp")];
    let contents = vec![Some("// @region x\n// @region y\n".to_string())];
    assert!(matches!(run(&files, &contents, None), Err(LifeError::NestedRegion { .. })));
}
