use std::collections::{HashMap, HashSet};

use quine::errors::{LifeError, LifeWarning};
use quine::types::{DefinitionFile, NodePath, RefEntry, WalkedFile};
use quine::walk::diff::diff;
use quine::walk::hash::{hash_content, hex_encode};
use quine::walk::walker::{decide_entry, walk_seed, DirEntry, EntryDecision, EntryKind, WalkAction, WalkEvent};
use quine::walk::WalkResult;

const HOME: Option<&str> = Some("/home/murphy");
const CWD: Option<&str> = Some("/work");

#[test]
fn diff_with_hashes() {
    let prev = vec![
        ("/a".to_string(), "hash_a".to_string()),
        ("/b".to_string(), "hash_b".to_string()),
        ("/c".to_string(), "hash_c_old".to_string()),
    ];

    let current = vec![
        WalkedFile {
            path: NodePath::new("/b", HOME).unwrap(),
            hash: "hash_b".into(), // unchanged
            size: 10,
            modified_bits: 1.0f64.to_bits(),
            root: NodePath::new("/", HOME).unwrap(),
        },
        WalkedFile {
            path: NodePath::new("/c", HOME).unwrap(),
            hash: "hash_c_new".into(), // changed
            size: 20,
            modified_bits: 2.0f64.to_bits(),
            root: NodePath::new("/", HOME).unwrap(),
        },
        WalkedFile {
            path: NodePath::new("/d", HOME).unwrap(),
            hash: "hash_d".into(), // added
            size: 30,
            modified_bits: 3.0f64.to_bits(),
            root: NodePath::new("/", HOME).unwrap(),
        },
    ];

    let d = diff(&prev, &current);
    assert_eq!(d.added.len(), 1);
    assert_eq!(d.added[0].path.as_str(), "/d");
    assert_eq!(d.removed.len(), 1);
    assert_eq!(d.removed[0].as_str(), "/a");
    assert_eq!(d.changed.len(), 1);
    assert_eq!(d.changed[0].path.as_str(), "/c");
    assert_eq!(d.unchanged.len(), 1);
    assert_eq!(d.unchanged[0].as_str(), "/b");
}

#[test]
fn diff_partitions_every_walked_file() {
    let prev = vec![("/x".to_string(), "h".to_string()), ("rel".to_string(), "h".to_string())];
    let mk = |p: &str, h: &str| WalkedFile {
        path: NodePath::new(p, HOME).unwrap(),
        hash: h.into(),
        size: 1,
        modified_bits: 0,
        root: NodePath::new("/", HOME).unwrap(),
    };
    let current = vec![mk("/x", "h"), mk("/y", "h"), mk("/x", "other")];
    let d = diff(&prev, &current);
    assert_eq!(d.added.len() + d.changed.len() + d.unchanged.len(), current.len());
    assert_eq!(d.unchanged.len(), 1);
    assert_eq!(d.changed.len(), 1);
    assert_eq!(d.added.len(), 1);
    // The relative recorded path makes no node, so it is not reported removed.
    assert!(d.removed.is_empty());
}

#[test]
fn content_hash_is_sha256_in_hex() {
    assert_eq!(
        hash_content(b"abc"),
        "ba7816bf8f01cfea414140de5dae2223b00361a396177a9cb410ff61f20015ad"
    );
    assert_eq!(hash_content(b"").len(), 64);
}

#[test]
fn hex_is_lower_case_high_nibble_first() {
    assert_eq!(hex_encode(&[0x0a, 0xff, 0x10]), "0aff10");
}

// ---------------------------------------------------------------------------
// A file system held in memory answers the walker's questions.

#[derive(Default)]
struct Fs {
    dirs: HashMap<String, Vec<(String, u64)>>,
    files: HashMap<String, Vec<u8>>,
    inodes: HashMap<String, u64>,
    next_inode: u64,
}

impl Fs {
    fn dir(&mut self, path: &str) {
        if self.dirs.contains_key(path) {
            return;
        }
        self.next_inode += 1;
        let ino = self.next_inode;
        self.dirs.insert(path.to_string(), Vec::new());
        self.inodes.insert(path.to_string(), ino);
        if let Some(pos) = path.rfind('/') {
            if pos > 0 {
                let parent = &path[..pos];
                self.dir(parent);
                self.dirs.get_mut(parent).unwrap().push((path[pos + 1..].to_string(), ino));
            }
        }
    }

    fn link_dir(&mut self, parent: &str, name: &str, target: &str) {
        let ino = self.inodes[target];
        self.dirs.get_mut(parent).unwrap().push((name.to_string(), ino));
        let entries = self.dirs[target].clone();
        self.dirs.insert(format!("{}/{}", parent, name), entries);
    }

    fn file(&mut self, path: &str, content: &str) {
        let pos = path.rfind('/').unwrap();
        let parent = &path[..pos];
        self.dir(parent);
        self.files.insert(path.to_string(), content.as_bytes().to_vec());
        self.dirs.get_mut(parent).unwrap().push((path[pos + 1..].to_string(), 0));
    }

    fn has(&self, path: &str) -> bool {
        self.files.contains_key(path)
    }

    fn definition(&self, root: &str) -> Result<DefinitionFile, LifeError> {
        let text = String::from_utf8(self.files[&format!("{}/quine.yaml", root)].clone()).unwrap();
        let mut def = DefinitionFile { name: String::new(), refs: Vec::new(), exclude: Vec::new() };
        for line in text.lines() {
            if let Some(n) = line.strip_prefix("name: ") {
                def.name = n.trim_matches('"').to_string();
            } else if let Some(r) = line.strip_prefix("ref: ") {
                def.refs.push(RefEntry { path: r.to_string() });
            } else if let Some(x) = line.strip_prefix("exclude: ") {
                def.exclude.push(x.to_string());
            } else if line == "broken" {
                return Err(LifeError::YamlParse { path: root.to_string(), msg: "bad".to_string() });
            }
        }
        Ok(def)
    }

    fn list(&self, dir: &str) -> Option<Vec<DirEntry>> {
        let mut entries = self.dirs.get(dir)?.clone();
        entries.sort();
        Some(
            entries
                .into_iter()
                .map(|(name, ino)| {
                    let path = format!("{}/{}", dir, name);
                    let kind = if let Some(f) = self.files.get(&path) {
                        EntryKind::File { size: f.len() as u64, modified_bits: 7.5f64.to_bits() }
                    } else {
                        EntryKind::Dir {
                            inode: ino,
                            has_stop: self.has(&format!("{}/.quine-stop", path)),
                            has_definition: self.has(&format!("{}/quine.yaml", path)),
                        }
                    };
                    DirEntry { name, kind }
                })
                .collect(),
        )
    }
}

fn run(fs: &Fs, seed: &str) -> Result<WalkResult, LifeError> {
    let mut w = walk_seed(seed, HOME, CWD)?;
    let mut action = w.action();
    let mut steps = 0;
    loop {
        steps += 1;
        assert!(steps < 10_000, "the walk does not end");
        let event = match action {
            WalkAction::CheckSeed { dir } => {
                WalkEvent::SeedChecked(fs.has(&format!("{}/quine.yaml", dir.as_str())))
            }
            WalkAction::ReadDefinition { root } => WalkEvent::Definition(fs.definition(root.as_str())),
            WalkAction::ListDir { dir } => WalkEvent::Listed(fs.list(dir.as_str())),
            WalkAction::ReadFile { path } => WalkEvent::FileRead(Ok(fs.files[path.as_str()].clone())),
            WalkAction::CheckRef { dir } => WalkEvent::RefChecked {
                exists: fs.dirs.contains_key(dir.as_str()),
                has_definition: fs.has(&format!("{}/quine.yaml", dir.as_str())),
            },
            WalkAction::Done | WalkAction::Failed => break,
        };
        action = w.step(event);
    }
    w.finish()
}

fn names(r: &WalkResult) -> Vec<String> {
    r.files.iter().map(|f| f.path.as_str().rsplit('/').next().unwrap().to_string()).collect()
}

fn setup_test_dir() -> Fs {
    let mut fs = Fs::default();
    fs.dir("/t");
    fs.file("/t/quine.yaml", "name: \"test-root\"\n");
    fs.file("/t/hello.md", "# Hello\n\nWorld.\n");
    fs.file("/t/notes.md", "Some notes.\n");
    fs.dir("/t/sub");
    fs.file("/t/sub/deep.md", "Deep file.\n");
    fs
}

#[test]
fn walk_discovers_files() {
    let fs = setup_test_dir();
    let result = run(&fs, "/t").unwrap();

    assert_eq!(result.roots.len(), 1);
    assert_eq!(result.roots[0].name, "test-root");

    let names = names(&result);
    assert!(names.contains(&"quine.yaml".to_string()));
    assert!(names.contains(&"hello.md".to_string()));
    assert!(names.contains(&"notes.md".to_string()));
    assert!(names.contains(&"deep.md".to_string()));
    assert_eq!(result.files.len(), 4);
}

#[test]
fn walk_registers_sizes_hashes_and_owner() {
    let fs = setup_test_dir();
    let result = run(&fs, "/t").unwrap();
    let hello = result.files.iter().find(|f| f.path.as_str() == "/t/hello.md").unwrap();
    assert_eq!(hello.size, 16);
    assert_eq!(hello.hash, hash_content(b"# Hello\n\nWorld.\n"));
    assert_eq!(hello.modified_bits, 7.5f64.to_bits());
    assert_eq!(hello.root.as_str(), "/t");
}

#[test]
fn walk_orders_entries_by_name() {
    let fs = setup_test_dir();
    let result = run(&fs, "/t").unwrap();
    assert_eq!(names(&result), vec!["hello.md", "notes.md", "quine.yaml", "deep.md"]);
}

#[test]
fn walk_respects_quine_stop() {
    let mut fs = setup_test_dir();
    fs.file("/t/sub/.quine-stop", "");
    let result = run(&fs, "/t").unwrap();
    assert!(!names(&result).contains(&"deep.md".to_string()));
}

#[test]
fn walk_fails_without_seed() {
    let mut fs = Fs::default();
    fs.dir("/empty");
    match run(&fs, "/empty") {
        Err(LifeError::NoSeed { path }) => assert_eq!(path.as_str(), "/empty"),
        other => panic!("expected NoSeed, got {:?}", other.map(|r| r.files.len())),
    }
}

#[test]
fn walk_resolves_a_relative_seed() {
    let mut fs = Fs::default();
    fs.dir("/work/proj");
    fs.file("/work/proj/quine.yaml", "name: p\n");
    let result = run(&fs, "proj/./").unwrap();
    assert_eq!(result.roots[0].path.as_str(), "/work/proj");
}

#[test]
fn walk_seed_without_cwd_is_an_io_error() {
    match walk_seed("relative", HOME, None) {
        Err(LifeError::Io(e)) => assert_eq!(e.kind(), std::io::ErrorKind::InvalidInput),
        _ => panic!("expected an I/O error"),
    }
}

#[test]
fn walk_fails_on_a_bad_definition() {
    let mut fs = Fs::default();
    fs.dir("/b");
    fs.file("/b/quine.yaml", "broken\n");
    assert!(matches!(run(&fs, "/b"), Err(LifeError::YamlParse { .. })));
}

#[test]
fn walk_fails_when_a_file_cannot_be_read() {
    let fs = setup_test_dir();
    let mut w = walk_seed("/t", HOME, CWD).unwrap();
    let mut action = w.action();
    loop {
        let event = match action {
            WalkAction::CheckSeed { .. } => WalkEvent::SeedChecked(true),
            WalkAction::ReadDefinition { root } => WalkEvent::Definition(fs.definition(root.as_str())),
            WalkAction::ListDir { dir } => WalkEvent::Listed(fs.list(dir.as_str())),
            WalkAction::ReadFile { .. } => {
                WalkEvent::FileRead(Err(std::io::Error::new(std::io::ErrorKind::Other, "gone")))
            }
            WalkAction::CheckRef { .. } => WalkEvent::RefChecked { exists: false, has_definition: false },
            WalkAction::Done | WalkAction::Failed => break,
        };
        action = w.step(event);
    }
    assert!(matches!(action, WalkAction::Failed));
    assert!(matches!(w.finish(), Err(LifeError::Io(_))));
}

#[test]
fn walk_ignores_answers_to_questions_not_asked() {
    let mut w = walk_seed("/t", HOME, CWD).unwrap();
    let a = w.step(WalkEvent::Listed(None));
    assert!(matches!(a, WalkAction::CheckSeed { .. }));
}

#[test]
fn walk_warns_on_dangling_ref() {
    let mut fs = Fs::default();
    fs.dir("/t");
    fs.file("/t/quine.yaml", "name: \"test\"\nref: /nonexistent/path\n");
    let result = run(&fs, "/t").unwrap();
    assert_eq!(result.warnings.len(), 1);
    assert!(matches!(&result.warnings[0], LifeWarning::DanglingRef { .. }));
}

#[test]
fn walk_warns_on_ref_without_definition() {
    let mut fs = Fs::default();
    fs.dir("/t");
    fs.file("/t/quine.yaml", "name: t\nref: /plain\n");
    fs.dir("/plain");
    let result = run(&fs, "/t").unwrap();
    match &result.warnings[..] {
        [LifeWarning::DanglingRef { from, to }] => {
            assert_eq!(from.as_str(), "/t");
            assert_eq!(to.as_str(), "/plain");
        }
        _ => panic!("expected one dangling ref"),
    }
}

#[test]
fn walk_discovers_sub_roots() {
    let mut fs = setup_test_dir();
    fs.dir("/t/subroot");
    fs.file("/t/subroot/quine.yaml", "name: \"sub-root\"\n");
    fs.file("/t/subroot/file.md", "Sub-root file.\n");

    let result = run(&fs, "/t").unwrap();
    assert_eq!(result.roots.len(), 2);
    let names: Vec<&str> = result.roots.iter().map(|r| r.name.as_str()).collect();
    assert!(names.contains(&"test-root"));
    assert!(names.contains(&"sub-root"));
}

#[test]
fn walk_sub_root_files_owned_by_sub_root() {
    let mut fs = setup_test_dir();
    fs.dir("/t/subroot");
    fs.file("/t/subroot/quine.yaml", "name: \"sub-root\"\n");
    fs.file("/t/subroot/file.md", "Sub-root file.\n");

    let result = run(&fs, "/t").unwrap();
    let sub_file = result.files.iter().find(|f| f.path.as_str().ends_with("subroot/file.md")).unwrap();
    assert!(sub_file.root.as_str().ends_with("subroot"));
}

#[test]
fn walk_handles_refs_between_roots() {
    let mut fs = Fs::default();
    fs.dir("/two");
    fs.file("/two/quine.yaml", "name: \"external\"\n");
    fs.file("/two/data.md", "External data.\n");
    fs.dir("/one");
    fs.file("/one/quine.yaml", "name: \"main\"\nref: /two\n");
    fs.file("/one/local.md", "Local file.\n");

    let result = run(&fs, "/one").unwrap();
    assert_eq!(result.roots.len(), 2);
    let names: Vec<&str> = result.roots.iter().map(|r| r.name.as_str()).collect();
    assert!(names.contains(&"main"));
    assert!(names.contains(&"external"));
    assert!(result.files.iter().any(|f| f.path.as_str().ends_with("local.md")));
    assert!(result.files.iter().any(|f| f.path.as_str().ends_with("data.md")));
}

#[test]
fn walk_follows_tilde_refs() {
    let mut fs = Fs::default();
    fs.dir("/home/murphy/notes");
    fs.file("/home/murphy/notes/quine.yaml", "name: notes\n");
    fs.dir("/one");
    fs.file("/one/quine.yaml", "name: main\nref: ~/notes\n");
    let result = run(&fs, "/one").unwrap();
    assert_eq!(result.roots[0].refs[0].as_str(), "/home/murphy/notes");
    assert_eq!(result.roots[1].name, "notes");
}

#[test]
fn walk_visits_each_root_once() {
    let mut fs = Fs::default();
    fs.dir("/a");
    fs.file("/a/quine.yaml", "name: a\nref: /b\n");
    fs.dir("/b");
    fs.file("/b/quine.yaml", "name: b\nref: /a\nref: /b\n");
    let result = run(&fs, "/a").unwrap();
    assert_eq!(result.roots.len(), 2);
    assert!(result.warnings.is_empty());
}

#[test]
fn walk_does_not_follow_a_directory_cycle() {
    let mut fs = setup_test_dir();
    fs.link_dir("/t/sub", "loop", "/t/sub");
    let result = run(&fs, "/t").unwrap();
    let deep = result.files.iter().filter(|f| f.path.as_str().ends_with("deep.md")).count();
    assert_eq!(deep, 1);
}

#[test]
fn walk_skips_dot_git() {
    let mut fs = setup_test_dir();
    fs.dir("/t/.git");
    fs.file("/t/.git/HEAD", "ref: refs/heads/main\n");
    let result = run(&fs, "/t").unwrap();
    assert!(!names(&result).contains(&"HEAD".to_string()));
}

#[test]
fn walk_respects_exclude() {
    let mut fs = Fs::default();
    fs.dir("/t");
    fs.file("/t/quine.yaml", "name: \"test\"\nexclude: build\n");
    fs.file("/t/hello.md", "# Hello\n");
    fs.dir("/t/build");
    fs.file("/t/build/output.bin", "binary stuff");
    fs.dir("/t/src");
    fs.file("/t/src/main.rs", "fn main() {}");

    let result = run(&fs, "/t").unwrap();
    let names = names(&result);
    assert!(names.contains(&"hello.md".to_string()));
    assert!(names.contains(&"main.rs".to_string()));
    assert!(!names.contains(&"output.bin".to_string()));
}

#[test]
fn walk_skips_unreadable_directories() {
    let fs = setup_test_dir();
    let mut w = walk_seed("/t", HOME, CWD).unwrap();
    let mut action = w.action();
    loop {
        let event = match action {
            WalkAction::CheckSeed { .. } => WalkEvent::SeedChecked(true),
            WalkAction::ReadDefinition { root } => WalkEvent::Definition(fs.definition(root.as_str())),
            WalkAction::ListDir { .. } => WalkEvent::Listed(None),
            WalkAction::ReadFile { path } => WalkEvent::FileRead(Ok(fs.files[path.as_str()].clone())),
            WalkAction::CheckRef { .. } => WalkEvent::RefChecked { exists: false, has_definition: false },
            WalkAction::Done | WalkAction::Failed => break,
        };
        action = w.step(event);
    }
    let result = w.finish().unwrap();
    assert_eq!(result.roots.len(), 1);
    assert!(result.files.is_empty());
}

#[test]
fn walk_exclude_patterns_are_globs() {
    let mut fs = Fs::default();
    fs.dir("/t");
    fs.file("/t/quine.yaml", "name: t\nexclude: *.db\nexclude: tmp?\n");
    fs.file("/t/quine.db", "sqlite");
    fs.file("/t/notes.md", "n");
    fs.dir("/t/tmp1");
    fs.file("/t/tmp1/x.md", "x");
    fs.dir("/t/tmp10");
    fs.file("/t/tmp10/y.md", "y");
    let result = run(&fs, "/t").unwrap();
    let names = names(&result);
    assert!(!names.contains(&"quine.db".to_string()));
    assert!(!names.contains(&"x.md".to_string()));
    assert!(names.contains(&"y.md".to_string()));
    assert!(names.contains(&"notes.md".to_string()));
}

#[test]
fn rediff_against_own_hashes_is_quiet() {
    let fs = setup_test_dir();
    let result = run(&fs, "/t").unwrap();
    let recorded: Vec<(String, String)> =
        result.files.iter().map(|f| (f.path.as_str().to_string(), f.hash.clone())).collect();
    let d = diff(&recorded, &result.files);
    assert!(d.added.is_empty());
    assert!(d.changed.is_empty());
    assert!(d.removed.is_empty());
    assert_eq!(d.unchanged.len(), result.files.len());
}

#[test]
fn every_file_lies_under_its_root() {
    let mut fs = setup_test_dir();
    fs.dir("/t/subroot");
    fs.file("/t/subroot/quine.yaml", "name: sub\n");
    fs.dir("/t/subroot/inner");
    fs.file("/t/subroot/inner/file.md", "x");
    let result = run(&fs, "/t").unwrap();
    assert_eq!(result.files.len(), 6);
    for f in &result.files {
        assert!(f.path.starts_with(&f.root), "{} is not under {}", f.path.as_str(), f.root.as_str());
    }
    let inner = result.files.iter().find(|f| f.path.as_str() == "/t/subroot/inner/file.md").unwrap();
    assert_eq!(inner.root.as_str(), "/t/subroot");
}

#[test]
fn no_file_lies_under_git_or_an_excluded_directory() {
    let mut fs = Fs::default();
    fs.dir("/t");
    fs.file("/t/quine.yaml", "name: t\nexclude: build\n");
    fs.dir("/t/a");
    fs.dir("/t/a/.git");
    fs.file("/t/a/.git/HEAD", "h");
    fs.dir("/t/a/b");
    fs.dir("/t/a/b/build");
    fs.file("/t/a/b/build/out.bin", "o");
    fs.file("/t/a/b/keep.md", "k");
    fs.dir("/t/a/stop");
    fs.file("/t/a/stop/.quine-stop", "");
    fs.file("/t/a/stop/hidden.md", "h");
    let result = run(&fs, "/t").unwrap();
    let mut paths: Vec<&str> = result.files.iter().map(|f| f.path.as_str()).collect();
    paths.sort();
    assert_eq!(paths, vec!["/t/a/b/keep.md", "/t/quine.yaml"]);
    for f in &result.files {
        let below = &f.path.as_str()[f.root.as_str().len()..];
        assert!(below.split('/').all(|c| c != ".git" && c != "build"));
    }
}

#[test]
fn entry_rules_keep_out_git_stop_excluded_and_sub_roots() {
    let dir = NodePath::new("/t", HOME).unwrap();
    let exclude = vec!["build".to_string(), "*.db".to_string()];
    let decide = |name: &str, kind: EntryKind| {
        decide_entry(&DirEntry { name: name.to_string(), kind }, &exclude, &HashSet::new(), &Vec::new(), &dir, HOME)
    };
    let plain = EntryKind::Dir { inode: 1, has_stop: false, has_definition: false };
    assert!(matches!(decide(".git", plain), EntryDecision::Skip));
    assert!(matches!(decide("build", plain), EntryDecision::Skip));
    assert!(matches!(
        decide("s", EntryKind::Dir { inode: 2, has_stop: true, has_definition: false }),
        EntryDecision::Mark { inode: 2 }
    ));
    assert!(matches!(decide("x.db", EntryKind::File { size: 1, modified_bits: 0 }), EntryDecision::Skip));
    match decide("sub", EntryKind::Dir { inode: 3, has_stop: false, has_definition: true }) {
        EntryDecision::SubRoot { inode, root } => {
            assert_eq!(inode, 3);
            assert_eq!(root.as_str(), "/t/sub");
        }
        _ => panic!("a directory with a definition is walked as its own root"),
    }
    match decide("src", plain) {
        EntryDecision::Descend { dir: d, .. } => assert_eq!(d.as_str(), "/t/src"),
        _ => panic!("a plain directory is descended"),
    }
}

#[test]
fn a_directory_whose_inode_was_seen_is_skipped() {
    let dir = NodePath::new("/t", HOME).unwrap();
    let mut seen = HashSet::new();
    seen.insert(7u64);
    let e = DirEntry { name: "again".to_string(), kind: EntryKind::Dir { inode: 7, has_stop: false, has_definition: false } };
    assert!(matches!(decide_entry(&e, &Vec::new(), &seen, &Vec::new(), &dir, HOME), EntryDecision::Skip));
    let e2 = DirEntry { name: "fresh".to_string(), kind: EntryKind::Dir { inode: 8, has_stop: false, has_definition: false } };
    assert!(matches!(decide_entry(&e2, &Vec::new(), &seen, &Vec::new(), &dir, HOME), EntryDecision::Descend { inode: 8, .. }));
}
