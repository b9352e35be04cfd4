use find_duplicates::overview::{folder_overlaps, folders_with_files};
use find_duplicates::path::{ComponentKind, FilePath, PathComponent};
use find_duplicates::tree::build_directory_tree;

fn name(s: &str) -> PathComponent {
    PathComponent { kind: ComponentKind::Name, bytes: s.as_bytes().to_vec() }
}

fn p(s: &str) -> FilePath {
    FilePath::from_components(s.split('/').map(name).collect())
}

fn text(f: &FilePath) -> String {
    let mut out = String::new();
    for c in &f.components {
        if !out.is_empty() && !out.ends_with('/') {
            out.push('/');
        }
        out.push_str(&String::from_utf8_lossy(&c.bytes));
    }
    out
}

#[test]
fn folders_with_files_in_reading_order() {
    let groups = vec![
        vec![p("r/x"), p("r/b/x")],
        vec![p("r/a/y"), p("r/a/c/y")],
    ];
    let tree = build_directory_tree(&p("r"), groups);
    let folders = folders_with_files(&tree);
    let names: Vec<(String, usize)> = folders.iter().map(|(f, e)| (text(f), e.len())).collect();
    assert_eq!(
        names,
        vec![("r".to_string(), 1), ("r/a".to_string(), 1), ("r/a/c".to_string(), 1), ("r/b".to_string(), 1)]
    );
}

#[test]
fn folder_overlaps_counts_other_folders() {
    let files = vec![
        (p("f/1"), vec![p("d2/1"), p("d3/1"), p("f/9")]),
        (p("f/2"), vec![p("d2/2"), p("d3/2")]),
        (p("f/3"), vec![p("d3/3"), p("d4/3"), p("d2/3")]),
    ];
    let summary = folder_overlaps(&files, &p("f"));
    let shown: Vec<(String, usize)> = summary.iter().map(|(d, c)| (text(d), *c)).collect();
    assert_eq!(shown, vec![("d2".to_string(), 3), ("d3".to_string(), 3), ("d4".to_string(), 1)]);
}

#[test]
fn folder_overlaps_largest_count_first() {
    let files = vec![
        (p("f/1"), vec![p("a/1")]),
        (p("f/2"), vec![p("b/2"), p("b/3")]),
    ];
    let summary = folder_overlaps(&files, &p("f"));
    let shown: Vec<(String, usize)> = summary.iter().map(|(d, c)| (text(d), *c)).collect();
    assert_eq!(shown, vec![("b".to_string(), 2), ("a".to_string(), 1)]);
}

#[test]
fn folder_overlaps_within_the_folder_is_empty() {
    let files = vec![(p("f/1"), vec![p("f/2")]), (p("f/2"), vec![p("f/1")])];
    assert!(folder_overlaps(&files, &p("f")).is_empty());
}

#[test]
fn folder_overlaps_counts_copies_named_backslash() {
    let files = vec![(p("f/1"), vec![p("d/\\"), p("d/1")])];
    let summary = folder_overlaps(&files, &p("f"));
    let shown: Vec<(String, usize)> = summary.iter().map(|(d, c)| (text(d), *c)).collect();
    assert_eq!(shown, vec![("d".to_string(), 2)]);
}
