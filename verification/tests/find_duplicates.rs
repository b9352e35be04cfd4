use find_duplicates::duplicates::{get_duplicated_files, get_duplicated_files_by_byte, group_by_hash};
use find_duplicates::listing::{keeps_entry, read_size_input, unit_multiplier, SizeInput};
use find_duplicates::path::{ComponentKind, FilePath, PathComponent};
use find_duplicates::sizes::{comparison_candidates, group_files_by_size};
use find_duplicates::tree::{build_directory_tree, DirectoryNode};

fn name(s: &str) -> PathComponent {
    PathComponent { kind: ComponentKind::Name, bytes: s.as_bytes().to_vec() }
}

fn p(s: &str) -> FilePath {
    FilePath::from_components(s.split('/').map(name).collect())
}

fn text(f: &FilePath) -> String {
    let mut out = String::new();
    for c in &f.components {
        if !out.is_empty() && !out.ends_with('/') {
            out.push('/');
        }
        out.push_str(&String::from_utf8_lossy(&c.bytes));
    }
    out
}

fn texts(v: &[FilePath]) -> Vec<String> {
    v.iter().map(text).collect()
}

fn group_texts(groups: &[Vec<FilePath>]) -> Vec<Vec<String>> {
    groups.iter().map(|g| texts(g)).collect()
}

fn with_contents(entries: &[(&str, &str)]) -> Vec<(FilePath, Vec<u8>)> {
    entries.iter().map(|(f, c)| (p(f), c.as_bytes().to_vec())).collect()
}

fn file_names(node: &DirectoryNode) -> Vec<String> {
    node.files.iter().map(|(f, _)| text(f)).collect()
}

fn child_names(node: &DirectoryNode) -> Vec<String> {
    node.children.iter().map(|c| text(&c.path)).collect()
}

#[test]
fn path_operations() {
    let a = p("r/a/x.txt");
    assert_eq!(a.len(), 3);
    assert!(a.starts_with(&p("r/a")));
    assert!(a.starts_with(&p("r/a/x.txt")));
    assert!(!a.starts_with(&p("r/b")));
    assert!(a.is_in(&p("r/a")));
    assert!(!a.is_in(&p("r")));
    assert!(a.same_as(&p("r/a/x.txt")));
    assert!(!a.same_as(&p("r/a")));
    assert_eq!(text(&a.prefix(2)), "r/a");
    assert_eq!(text(&a.clone()), "r/a/x.txt");
}

#[test]
fn path_order_is_by_component_bytes() {
    assert!(p("r/B").precedes(&p("r/a")));
    assert!(p("r/a").precedes(&p("r/a/b")));
    assert!(p("r/a/z").precedes(&p("r/ab")));
    assert!(!p("r/a").precedes(&p("r/a")));
    assert!(!p("r/b").precedes(&p("r/a")));
}

fn part(kind: ComponentKind, s: &str) -> PathComponent {
    PathComponent { kind, bytes: s.as_bytes().to_vec() }
}

fn one(kind: ComponentKind, s: &str) -> FilePath {
    FilePath::from_components(vec![part(kind, s)])
}

/// An absolute path: the root, then the names of `s`.
fn abs(s: &str) -> FilePath {
    let mut components = vec![part(ComponentKind::Root, "/")];
    components.extend(s.split('/').map(name));
    FilePath::from_components(components)
}

#[test]
fn path_order_puts_prefixes_roots_and_dots_before_names() {
    let prefix = one(ComponentKind::Prefix, "C:");
    let root = one(ComponentKind::Root, "/");
    let dot = one(ComponentKind::Current, ".");
    let up = one(ComponentKind::Parent, "..");
    let dash = one(ComponentKind::Name, "-x");
    assert!(prefix.precedes(&root));
    assert!(root.precedes(&dot));
    assert!(dot.precedes(&up));
    assert!(up.precedes(&dash));
    assert!(!dash.precedes(&up));
    let r_up = FilePath::from_components(vec![name("r"), part(ComponentKind::Parent, "..")]);
    assert!(r_up.precedes(&p("r/-x")));
    // Names are ordered by their bytes alone, whatever the bytes are.
    assert!(p("r/..").precedes(&p("r/A")));
    assert!(p("r/A").precedes(&p("r/\\")));
    assert!(!p("r/\\").precedes(&p("r/A")));
}

#[test]
fn lone_root_or_prefix_has_no_parent() {
    let root = one(ComponentKind::Root, "/");
    assert!(!root.has_parent());
    assert!(!root.is_in(&FilePath::from_components(vec![])));
    assert!(!one(ComponentKind::Prefix, "C:").has_parent());
    let under_root = abs("x");
    assert!(under_root.has_parent());
    assert!(under_root.is_in(&root));
    assert!(!FilePath::from_components(vec![]).has_parent());
    assert!(one(ComponentKind::Parent, "..").has_parent());
}

#[test]
fn file_named_backslash_has_its_folder_as_parent() {
    let f = abs("r/\\");
    assert!(f.has_parent());
    assert!(f.is_in(&abs("r")));
    assert!(!f.same_as(&abs("r")));
}

#[test]
fn tree_shows_a_file_named_backslash_in_its_folder() {
    let groups = vec![vec![abs("r/\\"), abs("r/y")]];
    let tree = build_directory_tree(&abs("r"), groups);
    assert_eq!(file_names(&tree), vec!["/r/\\", "/r/y"]);
    assert_eq!(texts(&tree.files[0].1), vec!["/r/y"]);
    assert!(tree.children.is_empty());
    assert_eq!(tree.total_count(), 2);
}

#[test]
fn tree_orders_a_folder_named_backslash_by_bytes() {
    let groups = vec![vec![abs("r/\\/x"), abs("r/A/x")]];
    let tree = build_directory_tree(&abs("r"), groups);
    assert_eq!(child_names(&tree), vec!["/r/A", "/r/\\"]);
    assert_eq!(file_names(&tree.children[1]), vec!["/r/\\/x"]);
}

#[test]
fn group_by_hash_collects_repeated_hashes() {
    let groups = group_by_hash(&vec![7, 3, 7, 7, 3, 9]);
    assert_eq!(groups, vec![vec![0, 2, 3], vec![1, 4]]);
}

#[test]
fn group_by_hash_without_repeats_is_empty() {
    assert_eq!(group_by_hash(&vec![1, 2, 3]), Vec::<Vec<usize>>::new());
    assert_eq!(group_by_hash(&vec![]), Vec::<Vec<usize>>::new());
}

#[test]
fn law_hash_groups_partition_on_values() {
    let hashes = vec![5, 5, 1, 5, 2, 1, 8];
    let groups = group_by_hash(&hashes);
    assert_eq!(groups, vec![vec![0, 1, 3], vec![2, 5]]);
    let mut seen = vec![0; hashes.len()];
    for g in &groups {
        assert!(g.len() >= 2);
        for &i in g {
            assert_eq!(hashes[i], hashes[g[0]]);
            seen[i] += 1;
        }
    }
    assert_eq!(seen, vec![1, 1, 1, 1, 0, 1, 0]);
}

#[test]
fn by_byte_groups_equal_contents() {
    let files = with_contents(&[("d/a", "hello"), ("d/b", "world"), ("d/c", "hello"), ("d/e", "world"), ("d/f", "other")]);
    let groups = get_duplicated_files_by_byte(&files);
    assert_eq!(group_texts(&groups), vec![vec!["d/a", "d/c"], vec!["d/b", "d/e"]]);
}

#[test]
fn by_byte_separates_different_contents() {
    let files = with_contents(&[("d/a", "abc"), ("d/b", "abd")]);
    assert!(get_duplicated_files_by_byte(&files).is_empty());
}

#[test]
fn get_duplicated_files_skips_single_files() {
    let by_size = vec![
        with_contents(&[("d/a", "x"), ("d/b", "x")]),
        with_contents(&[("d/c", "x")]),
        Vec::new(),
    ];
    let groups = get_duplicated_files(by_size);
    assert_eq!(group_texts(&groups), vec![vec!["d/a", "d/b"]]);
}

#[test]
fn law_duplicates_stay_within_a_size_group() {
    let by_size = vec![
        with_contents(&[("d/a", "x"), ("d/b", "z")]),
        with_contents(&[("d/c", "x"), ("d/e", "z")]),
    ];
    assert!(get_duplicated_files(by_size).is_empty());
}

#[test]
fn get_duplicated_files_concatenates_groups() {
    let by_size = vec![
        with_contents(&[("d/a", "1"), ("d/b", "1"), ("d/c", "2")]),
        with_contents(&[("e/a", "33"), ("e/b", "44"), ("e/c", "44"), ("e/d", "33")]),
    ];
    let groups = get_duplicated_files(by_size);
    assert_eq!(
        group_texts(&groups),
        vec![vec!["d/a", "d/b"], vec!["e/a", "e/d"], vec!["e/b", "e/c"]]
    );
}

#[test]
fn law_group_order_does_not_matter_on_values() {
    let a = with_contents(&[("d/a", "1"), ("d/b", "1"), ("d/c", "2")]);
    let b = with_contents(&[("e/a", "33"), ("e/b", "44"), ("e/c", "44"), ("e/d", "33")]);
    let c = with_contents(&[("f/a", "5")]);
    let forward = group_texts(&get_duplicated_files(vec![a.clone(), b.clone(), c.clone()]));
    let mut backward = group_texts(&get_duplicated_files(vec![c, b, a]));
    assert_eq!(backward, vec![vec!["e/a", "e/d"], vec!["e/b", "e/c"], vec!["d/a", "d/b"]]);
    let mut sorted_forward = forward.clone();
    sorted_forward.sort();
    backward.sort();
    assert_eq!(sorted_forward, backward);
}

#[test]
fn group_files_by_size_keeps_first_appearance_order() {
    let files = vec![(p("d/a"), 10), (p("d/b"), 20), (p("d/c"), 10), (p("d/d"), 5), (p("d/e"), 20)];
    let groups = group_files_by_size(files, 8);
    let shown: Vec<(u64, Vec<String>)> = groups.iter().map(|(s, g)| (*s, texts(g))).collect();
    assert_eq!(
        shown,
        vec![(10, vec!["d/a".to_string(), "d/c".to_string()]), (20, vec!["d/b".to_string(), "d/e".to_string()])]
    );
}

#[test]
fn group_files_by_size_min_size_is_inclusive() {
    let files = vec![(p("d/a"), 64), (p("d/b"), 63)];
    let groups = group_files_by_size(files, 64);
    assert_eq!(groups.len(), 1);
    assert_eq!(groups[0].0, 64);
}

#[test]
fn comparison_candidates_are_groups_of_several_files() {
    let files = vec![(p("d/a"), 10), (p("d/b"), 20), (p("d/c"), 10)];
    let groups = group_files_by_size(files, 0);
    let lists = comparison_candidates(&groups);
    assert_eq!(group_texts(&lists), vec![vec!["d/a", "d/c"]]);
}

#[test]
fn keeps_entry_skips_ignored_names() {
    let ignore = vec![".git".to_string(), "node_modules".to_string()];
    assert!(!keeps_entry(Some(".git".to_string()), &ignore));
    assert!(!keeps_entry(Some("node_modules".to_string()), &ignore));
    assert!(keeps_entry(Some("src".to_string()), &ignore));
    assert!(keeps_entry(Some(".gitignore".to_string()), &ignore));
    assert!(keeps_entry(None, &ignore));
}

#[test]
fn unit_multiplier_values() {
    assert_eq!(unit_multiplier("b"), Some(1));
    assert_eq!(unit_multiplier("bytes"), Some(1));
    assert_eq!(unit_multiplier("kb"), Some(1024));
    assert_eq!(unit_multiplier("kilobyte"), Some(1024));
    assert_eq!(unit_multiplier("megabytes"), Some(1048576));
    assert_eq!(unit_multiplier("gb"), Some(1073741824));
    assert_eq!(unit_multiplier("terabytes"), Some(1099511627776));
    assert_eq!(unit_multiplier("KB"), None);
    assert_eq!(unit_multiplier("kib"), None);
    assert_eq!(unit_multiplier(""), None);
}

fn size_input_text(input: &str) -> String {
    match read_size_input(input) {
        SizeInput::Empty => "empty".to_string(),
        SizeInput::Bytes(b) => format!("bytes {}", b),
        SizeInput::Scaled { number, unit } => format!("{} of {}", number, unit),
        SizeInput::Unreadable => "unreadable".to_string(),
    }
}

#[test]
fn read_size_input_cases() {
    assert_eq!(size_input_text(""), "empty");
    assert_eq!(size_input_text("   "), "empty");
    assert_eq!(size_input_text("64"), "bytes 64");
    assert_eq!(size_input_text("  +64 "), "bytes 64");
    assert_eq!(size_input_text("0"), "bytes 0");
    assert_eq!(size_input_text("18446744073709551615"), "bytes 18446744073709551615");
    assert_eq!(size_input_text("1MB"), "1 of 1048576");
    assert_eq!(size_input_text(" 2 GB "), "2 of 1073741824");
    assert_eq!(size_input_text("1.5 kilobytes"), "1.5 of 1024");
    assert_eq!(size_input_text("64 Bytes"), "64 of 1");
    assert_eq!(size_input_text("3 TB"), "3 of 1099511627776");
    assert_eq!(size_input_text("12xyz"), "unreadable");
    assert_eq!(size_input_text("1.5"), "unreadable");
    assert_eq!(size_input_text("-5"), "unreadable");
    assert_eq!(size_input_text("18446744073709551616"), "unreadable");
    assert_eq!(size_input_text("kb"), " of 1024");
}

#[test]
fn law_whole_number_reads_back_on_values() {
    for n in [0u64, 7, 10, 64, 4096, 1234567890, u64::MAX - 1, u64::MAX] {
        assert_eq!(size_input_text(&n.to_string()), format!("bytes {}", n));
    }
}

#[test]
fn law_ascii_size_text_ignores_case_on_values() {
    for s in ["1MB", "2 kb", " 3 Gigabytes ", "64 bytes", "1.5 tB", "12xyz", "kB", "7"] {
        let reading = size_input_text(s);
        assert_eq!(size_input_text(&s.to_ascii_uppercase()), reading);
        assert_eq!(size_input_text(&s.to_ascii_lowercase()), reading);
    }
    assert_eq!(size_input_text("2 KiLoBytEs"), "2 of 1024");
}

#[test]
fn size_input_trims_unicode_white_space() {
    assert_eq!(size_input_text("\u{3000}64\u{a0}"), "bytes 64");
    assert_eq!(size_input_text("\t5\u{2003}MB\n"), "5 of 1048576");
    assert_eq!(size_input_text("\u{85}"), "empty");
}

#[test]
fn size_input_units_beyond_ascii_are_lowercased() {
    // KELVIN SIGN lowercases to `k`.
    assert_eq!(size_input_text("5 \u{212A}B"), "5 of 1024");
}

#[test]
fn tree_groups_files_by_directory() {
    let groups = vec![vec![p("r/b/x"), p("r/a/x")], vec![p("r/a/y"), p("r/a/z")]];
    let tree = build_directory_tree(&p("r"), groups);
    assert_eq!(text(&tree.path), "r");
    assert!(tree.files.is_empty());
    assert_eq!(child_names(&tree), vec!["r/a", "r/b"]);
    let a = &tree.children[0];
    assert_eq!(file_names(a), vec!["r/a/x", "r/a/y", "r/a/z"]);
    assert_eq!(texts(&a.files[0].1), vec!["r/b/x"]);
    assert_eq!(texts(&a.files[1].1), vec!["r/a/z"]);
    assert_eq!(texts(&a.files[2].1), vec!["r/a/y"]);
    let b = &tree.children[1];
    assert_eq!(file_names(b), vec!["r/b/x"]);
    assert_eq!(texts(&b.files[0].1), vec!["r/a/x"]);
    assert!(a.children.is_empty() && b.children.is_empty());
    assert_eq!(tree.total_count(), 4);
}

#[test]
fn tree_bridges_to_deeper_directories() {
    let groups = vec![vec![p("r/a/b/x"), p("r/c/d/x")]];
    let tree = build_directory_tree(&p("r"), groups);
    assert_eq!(child_names(&tree), vec!["r/a", "r/c"]);
    assert_eq!(child_names(&tree.children[0]), vec!["r/a/b"]);
    assert_eq!(file_names(&tree.children[0].children[0]), vec!["r/a/b/x"]);
    assert_eq!(child_names(&tree.children[1]), vec!["r/c/d"]);
    assert_eq!(tree.total_count(), 2);
}

#[test]
fn tree_shows_a_folder_for_every_duplicate() {
    // `r/b` holds no duplicate itself but leads to `r/b/c`, so it is shown
    // beside `r/a`, and `r/b/c/x` is shown in the node of `r/b/c`.
    let groups = vec![vec![p("r/a/x"), p("r/b/c/x")]];
    let tree = build_directory_tree(&p("r"), groups);
    assert!(tree.files.is_empty());
    assert_eq!(child_names(&tree), vec!["r/a", "r/b"]);
    let a = &tree.children[0];
    assert_eq!(file_names(a), vec!["r/a/x"]);
    assert_eq!(texts(&a.files[0].1), vec!["r/b/c/x"]);
    assert!(a.children.is_empty());
    let b = &tree.children[1];
    assert!(b.files.is_empty());
    assert_eq!(child_names(b), vec!["r/b/c"]);
    let c = &b.children[0];
    assert_eq!(file_names(c), vec!["r/b/c/x"]);
    assert_eq!(texts(&c.files[0].1), vec!["r/a/x"]);
    assert_eq!(tree.total_count(), 2);
}

fn shown_files(node: &DirectoryNode, out: &mut Vec<String>) {
    for (f, _) in &node.files {
        out.push(text(f));
    }
    for c in &node.children {
        shown_files(c, out);
    }
}

#[test]
fn law_tree_shows_each_duplicate_once() {
    let groups = vec![
        vec![p("r/a/x"), p("r/b/c/x"), p("r/x")],
        vec![p("r/b/d/e/y"), p("r/a/y"), p("s/y")],
    ];
    let tree = build_directory_tree(&p("r"), groups);
    let mut shown = Vec::new();
    shown_files(&tree, &mut shown);
    shown.sort();
    assert_eq!(shown, vec!["r/a/x", "r/a/y", "r/b/c/x", "r/b/d/e/y", "r/x"]);
    assert_eq!(child_names(&tree), vec!["r/a", "r/b"]);
    assert_eq!(child_names(&tree.children[1]), vec!["r/b/c", "r/b/d"]);
    assert_eq!(child_names(&tree.children[1].children[1]), vec!["r/b/d/e"]);
    assert_eq!(file_names(&tree.children[1].children[1].children[0]), vec!["r/b/d/e/y"]);
}

fn tree_text(node: &DirectoryNode, out: &mut Vec<String>) {
    out.push(format!("dir {}", text(&node.path)));
    for (f, others) in &node.files {
        out.push(format!("file {} with {}", text(f), texts(others).join(",")));
    }
    for c in &node.children {
        tree_text(c, out);
    }
}

#[test]
fn law_tree_is_unique_for_equal_inputs() {
    let groups = vec![vec![p("r/b/x"), p("r/a/x"), p("r/a/c/x")], vec![p("r/b/y"), p("r/y")]];
    let first = build_directory_tree(&p("r"), groups.clone());
    let second = build_directory_tree(&p("r"), groups);
    let (mut t1, mut t2) = (Vec::new(), Vec::new());
    tree_text(&first, &mut t1);
    tree_text(&second, &mut t2);
    assert_eq!(t1, t2);
    assert_eq!(
        t1,
        vec![
            "dir r",
            "file r/y with r/b/y",
            "dir r/a",
            "file r/a/x with r/b/x,r/a/c/x",
            "dir r/a/c",
            "file r/a/c/x with r/b/x,r/a/x",
            "dir r/b",
            "file r/b/x with r/a/x,r/a/c/x",
            "file r/b/y with r/y",
        ]
    );
}

#[test]
fn tree_root_holding_files() {
    let groups = vec![vec![p("r/x"), p("r/s/x")]];
    let tree = build_directory_tree(&p("r"), groups);
    assert_eq!(file_names(&tree), vec!["r/x"]);
    assert_eq!(child_names(&tree), vec!["r/s"]);
    assert_eq!(tree.total_count(), 2);
}

#[test]
fn tree_outside_root_is_empty() {
    let groups = vec![vec![p("r/x"), p("r/y")]];
    let tree = build_directory_tree(&p("s"), groups);
    assert_eq!(text(&tree.path), "s");
    assert!(tree.files.is_empty() && tree.children.is_empty());
    assert_eq!(tree.total_count(), 0);
}

#[test]
fn tree_children_sorted_by_bytes() {
    let groups = vec![vec![p("r/b/x"), p("r/a/x"), p("r/B/x")]];
    let tree = build_directory_tree(&p("r"), groups);
    assert_eq!(child_names(&tree), vec!["r/B", "r/a", "r/b"]);
}

#[test]
fn law_others_never_include_the_file() {
    let groups = vec![vec![p("r/x"), p("r/y"), p("r/z")]];
    let tree = build_directory_tree(&p("r"), groups);
    for (f, others) in &tree.files {
        assert!(!others.iter().any(|o| o.same_as(f)));
        assert_eq!(others.len(), 2);
    }
}

#[test]
fn others_come_from_the_last_group_holding_the_file() {
    let groups = vec![vec![p("r/x"), p("r/y")], vec![p("r/z"), p("r/x")]];
    let tree = build_directory_tree(&p("r"), groups);
    assert_eq!(file_names(&tree), vec!["r/x", "r/y", "r/z", "r/x"]);
    assert_eq!(texts(&tree.files[0].1), vec!["r/z"]);
    assert_eq!(texts(&tree.files[1].1), vec!["r/x"]);
    assert_eq!(texts(&tree.files[3].1), vec!["r/z"]);
}

#[test]
fn total_count_sums_nested_nodes() {
    let leaf = DirectoryNode { path: p("r/a"), files: vec![(p("r/a/x"), vec![]), (p("r/a/y"), vec![])], children: vec![] };
    let node = DirectoryNode { path: p("r"), files: vec![(p("r/z"), vec![])], children: vec![leaf] };
    assert_eq!(node.total_count(), 3);
    assert_eq!(node.checked_total_count(), Some(3));
}

#[test]
fn checked_total_count_of_built_tree() {
    let groups = vec![vec![p("r/a/x"), p("r/b/c/x")], vec![p("r/y"), p("r/a/y")]];
    let tree = build_directory_tree(&p("r"), groups);
    assert_eq!(tree.checked_total_count(), Some(4));
    let empty = build_directory_tree(&p("s"), vec![]);
    assert_eq!(empty.checked_total_count(), Some(0));
}
