use miden_tools::fmt_comments::{file_action, outcome, FileAction, Outcome, Run};
use miden_tools::source_files::{
    path_has_extension, rust_files, should_skip_dir, Component, Entry, FileTree, PathPrefix,
    SourcePath,
};
use miden_tools::width::{comment_width, configured_width, validate_width, WidthError};

fn path(text: &str) -> SourcePath {
    let mut components = Vec::new();
    for part in text.split('/') {
        components.push(match part {
            "" => Component::RootDir,
            "." => Component::CurDir,
            ".." => Component::ParentDir,
            name => Component::Normal(name.as_bytes().to_vec()),
        });
    }
    SourcePath { components }
}

fn show(path: &SourcePath) -> String {
    let mut parts = Vec::new();
    for component in &path.components {
        parts.push(match component {
            Component::Prefix(prefix) => format!("{prefix:?}"),
            Component::Normal(name) => String::from_utf8_lossy(name).to_string(),
            Component::RootDir => String::new(),
            Component::CurDir => ".".to_string(),
            Component::ParentDir => "..".to_string(),
        });
    }
    parts.join("/")
}

fn file(text: &str) -> FileTree {
    FileTree { path: path(text), entry: Entry::File }
}

fn directory(text: &str, children: Vec<FileTree>) -> FileTree {
    FileTree { path: path(text), entry: Entry::Directory(children) }
}

fn shown(trees: &Vec<FileTree>) -> Vec<String> {
    rust_files(trees).iter().map(show).collect()
}

#[test]
fn rust_files_are_sorted_and_unique() {
    let trees = vec![
        directory("b", vec![file("b/z.rs"), file("b/a.rs"), file("b/readme.md")]),
        file("a.rs"),
        file("b/a.rs"),
        FileTree { path: path("link.rs"), entry: Entry::Other },
    ];
    assert_eq!(shown(&trees), vec!["a.rs", "b/a.rs", "b/z.rs"]);
}

#[test]
fn the_order_of_the_paths_does_not_matter() {
    let one = vec![file("b.rs"), file("a.rs"), file("c/d.rs")];
    let two = vec![file("c/d.rs"), file("a.rs"), file("b.rs"), file("a.rs")];
    assert_eq!(shown(&one), shown(&two));
}

#[test]
fn some_directories_are_not_entered() {
    let trees = vec![directory(
        ".",
        vec![
            directory("./.git", vec![file("./.git/a.rs")]),
            directory("./target", vec![file("./target/a.rs")]),
            directory("./node_modules", vec![file("./node_modules/a.rs")]),
            directory("./targets", vec![file("./targets/a.rs")]),
        ],
    )];
    assert_eq!(shown(&trees), vec!["./targets/a.rs"]);
    assert!(should_skip_dir(&path("x/.hidden")));
    assert!(!should_skip_dir(&path(".")));
    assert!(!should_skip_dir(&path("..")));
    assert!(!should_skip_dir(&SourcePath { components: vec![] }));
    let odd = SourcePath { components: vec![Component::Normal(vec![46, 255])] };
    assert!(!should_skip_dir(&odd));
}

#[test]
fn paths_are_ordered_as_std_orders_them() {
    let names = ["b", "/a", "./a", "../a", "a/b", "a", "a-b/c", "a/b/c", "é", "z"];
    let mut expected: Vec<std::path::PathBuf> =
        names.iter().map(|name| std::path::PathBuf::from(format!("{name}.rs"))).collect();
    expected.sort();
    let trees: Vec<FileTree> = names.iter().map(|name| file(&format!("{name}.rs"))).collect();
    let expected: Vec<String> = expected.iter().map(|p| p.display().to_string()).collect();
    assert_eq!(shown(&trees), expected);
}

fn in_prefix(prefix: PathPrefix) -> FileTree {
    let components = vec![
        Component::Prefix(prefix),
        Component::RootDir,
        Component::Normal(b"a.rs".to_vec()),
    ];
    FileTree { path: SourcePath { components }, entry: Entry::File }
}

#[test]
fn prefixes_are_ordered_by_their_kind() {
    let name = |text: &str| text.as_bytes().to_vec();
    let trees = vec![
        file("a.rs"),
        in_prefix(PathPrefix::Disk(b'D')),
        in_prefix(PathPrefix::Disk(b'C')),
        in_prefix(PathPrefix::Unc(name("s"), name("b"))),
        in_prefix(PathPrefix::Unc(name("s"), name("a"))),
        in_prefix(PathPrefix::Unc(name("s\u{1}"), name("a"))),
        in_prefix(PathPrefix::Unc(name("r"), name("z"))),
        in_prefix(PathPrefix::DeviceNs(name("n"))),
        in_prefix(PathPrefix::VerbatimDisk(b'Z')),
        in_prefix(PathPrefix::VerbatimUnc(name("s"), name("t"))),
        in_prefix(PathPrefix::Verbatim(name("z"))),
        in_prefix(PathPrefix::Disk(b'C')),
    ];
    let mut found = Vec::new();
    for path in rust_files(&trees) {
        found.push(show(&path));
    }
    let expected: Vec<String> = [10, 9, 8, 7, 6, 4, 3, 5, 2, 1, 0]
        .iter()
        .map(|&place: &usize| show(&trees[place].path))
        .collect();
    assert_eq!(found, expected);
}

#[test]
fn an_extension_holds_no_dot() {
    assert!(path_has_extension(&path("a.b.rs"), b"rs"));
    assert!(!path_has_extension(&path("a.b.rs"), b"b.rs"));
}

#[test]
fn extensions_are_read_as_std_reads_them() {
    for name in ["a.rs", ".rs", "..rs", "a.b.rs", "rs", "a.rsx", "a.", "a.RS"] {
        let expected = std::path::Path::new(name).extension() == Some("rs".as_ref());
        assert_eq!(path_has_extension(&path(name), b"rs"), expected, "{name}");
    }
}

#[test]
fn widths_are_checked() {
    assert_eq!(validate_width(20).unwrap(), 20);
    let error = validate_width(19).unwrap_err();
    assert_eq!(error.message(), "comment width must be at least 20 columns");
    assert_eq!(configured_width(Some(80)).unwrap(), 80);
    assert_eq!(configured_width(Some(-1)).unwrap(), 100);
    assert_eq!(configured_width(None).unwrap(), 100);
    assert!(matches!(configured_width(Some(3)), Err(WidthError::TooNarrow)));
}

#[test]
fn the_width_is_looked_up() {
    assert_eq!(comment_width(Some(50), Some("comment_width = 80")).unwrap(), 50);
    assert!(matches!(comment_width(Some(5), None), Err(WidthError::TooNarrow)));
    assert_eq!(comment_width(None, None).unwrap(), 100);
    assert_eq!(comment_width(None, Some("comment_width = 80")).unwrap(), 80);
    assert_eq!(comment_width(None, Some("comment_width = \"80\"")).unwrap(), 100);
    assert_eq!(comment_width(None, Some("max_width = 80")).unwrap(), 100);
    assert!(matches!(comment_width(None, Some("comment_width = 7")), Err(WidthError::TooNarrow)));
    let error = comment_width(None, Some("comment_width = ")).unwrap_err();
    assert_eq!(error.message(), "parsing rustfmt config for comment_width");
    assert!(matches!(error, WidthError::Config(reason) if !reason.is_empty()));
}

#[test]
fn files_are_kept_reported_or_rewritten() {
    assert_eq!(file_action("a", "a", true), FileAction::Keep);
    assert_eq!(file_action("a", "b", true), FileAction::Rewrite);
    assert_eq!(file_action("a", "b", false), FileAction::Report);
}

#[test]
fn a_run_without_changes_is_quiet() {
    assert!(matches!(outcome(&[], true), Outcome::Quiet));
    assert!(matches!(outcome(&[], false), Outcome::Quiet));
}

#[test]
fn a_run_that_writes_says_how_many() {
    let mut run = Run::new(20, false, true);
    assert!(run.config.include_normal_comments);
    let text = run.file("a.rs", "// aaa bbb ccc ddd eee\n").unwrap();
    assert_eq!(text.unwrap(), "// aaa bbb ccc ddd\n// eee\n");
    assert!(run.file("b.rs", "// aaa\n").unwrap().is_none());
    match outcome(&run.changed, run.write) {
        Outcome::Done(notice) => assert_eq!(notice, "reflowed comments in 1 file(s)"),
        other => panic!("{other:?}"),
    }
}

#[test]
fn a_run_that_checks_names_the_files() {
    let mut run = Run::new(20, true, false);
    assert!(!run.config.include_normal_comments);
    assert!(run.file("a.rs", "/// aaa bbb ccc ddd eee\nfn f() {}\n").unwrap().is_none());
    assert!(run.file("b.rs", "// aaa bbb ccc ddd eee\n").unwrap().is_none());
    match outcome(&run.changed, run.write) {
        Outcome::Failed(notices, error) => {
            assert_eq!(notices, vec!["comments need reflow: a.rs"]);
            assert_eq!(
                error,
                "1 file(s) need comment reflow; run `cargo xtask fmt-comments --write`"
            );
        },
        other => panic!("{other:?}"),
    }
}
