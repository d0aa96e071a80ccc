use quine::walk::glob::glob_matches;

#[test]
fn plain_names_match_exactly() {
    assert!(glob_matches("target", "target"));
    assert!(!glob_matches("target", "targets"));
    assert!(!glob_matches("target", "Target"));
}

#[test]
fn star_matches_any_run() {
    assert!(glob_matches("*.db", "quine.db"));
    assert!(glob_matches("*.db", ".db"));
    assert!(!glob_matches("*.db", "quine.dbx"));
    assert!(glob_matches("a*b*c", "aXXbYc"));
    assert!(glob_matches("*", ""));
}

#[test]
fn question_mark_matches_one_character() {
    assert!(glob_matches("tmp?", "tmp1"));
    assert!(!glob_matches("tmp?", "tmp"));
    assert!(!glob_matches("tmp?", "tmp12"));
}
