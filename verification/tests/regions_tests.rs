use quine::errors::LifeError;
use quine::extract::regions::extract_regions;
use quine::types::NodePath;

fn np(s: &str) -> NodePath {
    NodePath::new(s, None).unwrap()
}

/// Build test content from lines. This avoids raw strings where
/// "// @region" on its own line would be picked up by the extractor
/// when it indexes this file (the quine bootstrap problem).
fn tc(lines: &[&str]) -> String {
    lines.join("\n")
}

#[test]
fn simple_region() {
    let content = tc(&[
        "",
        "// @region session-handler",
        "void onLogon() {}",
        "// @end session-handler",
        "",
    ]);
    let regions = extract_regions(&np("/test.cpp"), &content, Some("//")).unwrap();
    assert_eq!(regions.len(), 1);
    assert_eq!(regions[0].name, "session-handler");
    assert_eq!(regions[0].start_line, 2);
    assert_eq!(regions[0].end_line, 4);
    assert!(regions[0].prose.is_empty());
}

#[test]
fn region_with_prose() {
    let content = tc(&[
        "// @region pmm-routing",
        "//| The PMM routing strategy cycles through eligible market makers",
        "//| in round-robin order.",
        "void routePMM() {",
        "    // grab the cycle",
        "    auto& cycle = getCycle();",
        "    //| When unavailable, skip to the next.",
        "    auto pmm = cycle.next();",
        "}",
        "// @end pmm-routing",
    ]);
    let regions = extract_regions(&np("/test.cpp"), &content, Some("//")).unwrap();
    assert_eq!(regions.len(), 1);
    assert_eq!(regions[0].name, "pmm-routing");

    // Two prose blocks: one before the code, one inline.
    assert_eq!(regions[0].prose.len(), 2);
    assert!(regions[0].prose[0]
        .content
        .contains("cycles through eligible market makers"));
    assert!(regions[0].prose[1].content.contains("When unavailable"));
}

#[test]
fn python_region() {
    let content = tc(&[
        "",
        "# @region fee-calculation",
        "#| Fee calculation follows a most-specific-match rule.",
        "def calculate_fees(execution):",
        "    # look up the fee schedule",
        "    schedule = find_schedule(execution)",
        "# @end fee-calculation",
        "",
    ]);
    let regions = extract_regions(&np("/test.py"), &content, Some("#")).unwrap();
    assert_eq!(regions.len(), 1);
    assert_eq!(regions[0].name, "fee-calculation");
    assert_eq!(regions[0].prose.len(), 1);
    assert!(regions[0].prose[0]
        .content
        .contains("most-specific-match"));
}

#[test]
fn nested_region_errors() {
    let content = tc(&[
        "",
        "// @region outer",
        "// @region inner",
        "// @end inner",
        "// @end outer",
        "",
    ]);
    let result = extract_regions(&np("/test.cpp"), &content, Some("//"));
    assert!(result.is_err());
    match result.unwrap_err() {
        LifeError::NestedRegion { outer, inner, .. } => {
            assert_eq!(outer, "outer");
            assert_eq!(inner, "inner");
        }
        e => panic!("expected NestedRegion, got {:?}", e),
    }
}

#[test]
fn duplicate_region_name_errors() {
    let content = tc(&[
        "",
        "// @region handler",
        "void a() {}",
        "// @end handler",
        "// @region handler",
        "void b() {}",
        "// @end handler",
        "",
    ]);
    let result = extract_regions(&np("/test.cpp"), &content, Some("//"));
    assert!(result.is_err());
    match result.unwrap_err() {
        LifeError::DuplicateRegion { name, .. } => {
            assert_eq!(name, "handler");
        }
        e => panic!("expected DuplicateRegion, got {:?}", e),
    }
}

#[test]
fn multiple_regions() {
    let content = tc(&[
        "",
        "// @region alpha",
        "int a = 1;",
        "// @end alpha",
        "",
        "// @region beta",
        "int b = 2;",
        "// @end beta",
        "",
    ]);
    let regions = extract_regions(&np("/test.cpp"), &content, Some("//")).unwrap();
    assert_eq!(regions.len(), 2);
    assert_eq!(regions[0].name, "alpha");
    assert_eq!(regions[1].name, "beta");
}

#[test]
fn freetext_returns_empty() {
    let content = tc(&[
        "# @region this-wont-work",
        "some text",
        "# @end this-wont-work",
    ]);
    let regions = extract_regions(&np("/test.md"), &content, None).unwrap();
    assert!(regions.is_empty());
}

#[test]
fn unclosed_region_includes_to_eof() {
    let content = tc(&[
        "",
        "// @region dangling",
        "//| This region is never closed.",
        "void something() {}",
        "",
    ]);
    let regions = extract_regions(&np("/test.cpp"), &content, Some("//")).unwrap();
    assert_eq!(regions.len(), 1);
    assert_eq!(regions[0].name, "dangling");
    assert_eq!(regions[0].end_line, 4); // last line of content
}

#[test]
fn prose_continuity_broken_by_code() {
    let content = tc(&[
        "// @region test",
        "//| First block of prose.",
        "//| Continues here.",
        "void code() {}",
        "//| Second block after code.",
        "// @end test",
    ]);
    let regions = extract_regions(&np("/test.cpp"), &content, Some("//")).unwrap();
    assert_eq!(regions[0].prose.len(), 2);
    assert!(regions[0].prose[0].content.contains("First block"));
    assert!(regions[0].prose[0].content.contains("Continues here"));
    assert!(regions[0].prose[1].content.contains("Second block"));
}

#[test]
fn prose_continuity_broken_by_regular_comment() {
    let content = tc(&[
        "// @region test",
        "//| Prose block one.",
        "// just a regular comment",
        "//| Prose block two.",
        "// @end test",
    ]);
    let regions = extract_regions(&np("/test.cpp"), &content, Some("//")).unwrap();
    assert_eq!(regions[0].prose.len(), 2);
}

#[test]
fn regions_in_other_files_keep_their_names() {
    let content = tc(&["// @region a", "// @end a"]);
    let regions = extract_regions(&np("/x/y.cpp"), &content, Some("//")).unwrap();
    assert_eq!(regions[0].file.as_str(), "/x/y.cpp");
    assert_eq!(regions[0].start_line, 1);
    assert_eq!(regions[0].end_line, 2);
}

#[test]
fn nested_region_error_names_the_file() {
    let content = tc(&["// @region outer", "// @region inner"]);
    match extract_regions(&np("/f.cpp"), &content, Some("//")) {
        Err(LifeError::NestedRegion { file, outer, inner }) => {
            assert_eq!(file.as_str(), "/f.cpp");
            assert_eq!(outer, "outer");
            assert_eq!(inner, "inner");
        }
        other => panic!("expected NestedRegion, got {:?}", other),
    }
}

#[test]
fn prose_lines_are_joined_with_newlines() {
    let content = tc(&["// @region r", "//| one", "//|two", "// @end r"]);
    let regions = extract_regions(&np("/f.cpp"), &content, Some("//")).unwrap();
    assert_eq!(regions[0].prose.len(), 1);
    assert_eq!(regions[0].prose[0].start_line, 2);
    assert_eq!(regions[0].prose[0].content, "one\ntwo");
}

#[test]
fn marker_needs_white_space_before_the_name() {
    let content = tc(&["// @regionfoo", "code", "// @end foo"]);
    assert!(extract_regions(&np("/t.cpp"), &content, Some("//")).unwrap().is_empty());
}

#[test]
fn marker_name_is_trimmed_and_may_hold_spaces() {
    let content = tc(&["//   @region  foo bar ", "code", "// @end foo bar"]);
    let regions = extract_regions(&np("/t.cpp"), &content, Some("//")).unwrap();
    assert_eq!(regions.len(), 1);
    assert_eq!(regions[0].name, "foo bar");
    assert_eq!(regions[0].end_line, 3);
}

#[test]
fn marker_without_a_name_opens_nothing() {
    let content = tc(&["// @region", "// @region   ", "code"]);
    assert!(extract_regions(&np("/t.cpp"), &content, Some("//")).unwrap().is_empty());
}

#[test]
fn prose_blocks_start_after_the_marker_in_order() {
    let content = tc(&[
        "// @region r",
        "//| first",
        "code();",
        "//| second",
        "//| more",
        "// @end r",
    ]);
    let regions = extract_regions(&np("/p.cpp"), &content, Some("//")).unwrap();
    assert_eq!(regions.len(), 1);
    assert_eq!(regions[0].file.as_str(), "/p.cpp");
    let starts: Vec<u32> = regions[0].prose.iter().map(|b| b.start_line).collect();
    assert_eq!(starts, vec![2, 4]);
    assert!(starts.iter().all(|&s| s > regions[0].start_line && s <= regions[0].end_line));
}
