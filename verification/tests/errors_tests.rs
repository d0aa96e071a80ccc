use quine::errors::LifeWarning;
use quine::types::NodePath;

fn np(p: &str) -> NodePath {
    NodePath::new(p, None).unwrap()
}

#[test]
fn warning_messages() {
    assert_eq!(
        LifeWarning::DanglingEdge { from: np("/a"), to: np("/b") }.message(),
        "dangling edge: /a -> /b (target not found)"
    );
    assert_eq!(
        LifeWarning::DanglingRef { from: np("/a"), to: np("/b") }.message(),
        "dangling ref: /a -> /b (directory not found)"
    );
    assert_eq!(
        LifeWarning::NoExtractor { file: np("/x.bin") }.message(),
        "no extractor for /x.bin (treated as leaf)"
    );
    assert_eq!(
        LifeWarning::BrokenEdge { from: np("/a"), to: np("/b") }.message(),
        "BROKEN: /a -> /b (target was removed without life mv)"
    );
}
