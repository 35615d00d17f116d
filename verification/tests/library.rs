use duster::{
    bar_reference_of, is_valid_walk, normalize_size_text, parse_size_text, remove_spaces,
    scan_unreadable_root, scan_walk, trim_text,
    scan_walk_checked, size_format, size_unit_suffix, tree_lines, tree_prefix, visible_entries,
    Entry, ScanOptions, SizeUnit, WalkItem,
};

fn dir(name: &str, depth: usize) -> WalkItem {
    WalkItem { name: name.to_string(), depth, is_dir: true, size: 0 }
}

fn file(name: &str, depth: usize, size: u64) -> WalkItem {
    WalkItem { name: name.to_string(), depth, is_dir: false, size }
}

fn root() -> Vec<String> {
    vec!["/".to_string(), "data".to_string(), "root".to_string()]
}

fn entry(name: &str, size: u64, is_dir: bool, children: Vec<Entry>) -> Entry {
    Entry { name: name.to_string(), path: vec![name.to_string()], size, is_dir, children, depth: 1 }
}

fn names(es: &[Entry]) -> Vec<&str> {
    es.iter().map(|e| e.name.as_str()).collect()
}

/// root/
///   a/            (3 + 4 + 10 = 17)
///     x.txt 3
///     b/          (4 + 10 = 14)
///       y.txt 4
///       c/        (10)
///         z.txt 10
///   w.txt 20
///   e/            (0)
fn deep_walk() -> Vec<WalkItem> {
    vec![
        dir("root", 0),
        dir("a", 1),
        file("x.txt", 2, 3),
        dir("b", 2),
        file("y.txt", 3, 4),
        dir("c", 3),
        file("z.txt", 4, 10),
        file("w.txt", 1, 20),
        dir("e", 1),
    ]
}

#[test]
fn default_options() {
    let o = ScanOptions::default();
    assert_eq!(o.max_depth, None);
    assert_eq!(o.min_size, None);
    assert!(!o.show_files);
    assert_eq!(o.top_n, Some(20));
    assert_eq!(o.walk_depth(), usize::MAX);
}

#[test]
fn directory_sizes_add_up_at_every_level() {
    let r = scan_walk(&root(), &deep_walk(), &ScanOptions::default());
    assert_eq!(r.root_name, "root");
    assert_eq!(r.root_size, 37);
    assert_eq!(r.total_files, 4);
    assert_eq!(r.total_dirs, 5);
    assert_eq!(names(&r.entries), vec!["w.txt", "a", "e"]);
    let a = &r.entries[1];
    assert_eq!(a.size, 17);
    assert_eq!(a.depth, 1);
    assert_eq!(names(&a.children), vec!["b", "x.txt"]);
    let b = &a.children[0];
    assert_eq!(b.size, 14);
    assert_eq!(b.depth, 2);
    assert_eq!(b.path, vec!["/", "data", "root", "a", "b"]);
    let c = &b.children[0];
    assert_eq!(c.name, "c");
    assert_eq!(c.size, 10);
    assert_eq!(c.children[0].path, vec!["/", "data", "root", "a", "b", "c", "z.txt"]);
    assert_eq!(c.children[0].depth, 4);
    assert_eq!(r.entries[2].size, 0);
    assert!(r.entries[2].children.is_empty());
}

#[test]
fn children_sorted_largest_first_ties_in_walk_order() {
    let items = vec![
        dir("root", 0),
        file("p", 1, 5),
        file("q", 1, 9),
        file("r", 1, 5),
        file("s", 1, 9),
        file("t", 1, 1),
    ];
    let r = scan_walk(&root(), &items, &ScanOptions::default());
    assert_eq!(names(&r.entries), vec!["q", "s", "p", "r", "t"]);
}

#[test]
fn children_truncated_to_top_n_after_summing() {
    let items = vec![dir("root", 0), dir("d", 1), file("a", 2, 1), file("b", 2, 2), file("c", 2, 3)];
    let o = ScanOptions { top_n: Some(2), ..ScanOptions::default() };
    let r = scan_walk(&root(), &items, &o);
    let d = &r.entries[0];
    assert_eq!(d.size, 6);
    assert_eq!(names(&d.children), vec!["c", "b"]);

    let o = ScanOptions { top_n: Some(0), ..ScanOptions::default() };
    let r = scan_walk(&root(), &items, &o);
    assert!(r.entries.is_empty());
    assert_eq!(r.root_size, 6);

    let o = ScanOptions { top_n: None, ..ScanOptions::default() };
    let r = scan_walk(&root(), &items, &o);
    assert_eq!(names(&r.entries[0].children), vec!["c", "b", "a"]);
}

#[test]
fn unreadable_root_reports_nothing() {
    let r = scan_unreadable_root("gone".to_string());
    assert_eq!(r.root_name, "gone");
    assert_eq!((r.root_size, r.total_files, r.total_dirs), (0, 0, 0));
    assert!(r.entries.is_empty());
}

#[test]
fn trimming_and_removing_spaces() {
    assert_eq!(trim_text(" \t\u{3000}a b\u{a0}\n"), "a b");
    assert_eq!(trim_text("   "), "");
    assert_eq!(trim_text("x"), "x");
    assert_eq!(remove_spaces(" a b  c "), "abc");
    assert_eq!(remove_spaces("a\tb"), "a\tb");
}

#[test]
fn scanning_a_file() {
    let r = scan_walk(&root(), &vec![file("notes.txt", 0, 42)], &ScanOptions::default());
    assert_eq!(r.root_name, "notes.txt");
    assert_eq!(r.root_size, 42);
    assert_eq!(r.total_files, 1);
    assert_eq!(r.total_dirs, 0);
    assert!(r.entries.is_empty());
}

#[test]
fn invalid_walks_are_refused() {
    let o = ScanOptions::default();
    assert!(scan_walk_checked(&root(), &vec![], &o).is_none());
    assert!(!is_valid_walk(&vec![]));
    // the root must come first
    assert!(!is_valid_walk(&vec![dir("a", 1)]));
    // a second root
    assert!(!is_valid_walk(&vec![dir("r", 0), dir("r2", 0)]));
    // a jump of two levels
    assert!(!is_valid_walk(&vec![dir("r", 0), file("f", 2, 1)]));
    // something below a file
    assert!(!is_valid_walk(&vec![dir("r", 0), file("f", 1, 1), file("g", 2, 1)]));
    assert!(scan_walk_checked(&root(), &vec![dir("r", 0), file("f", 1, 1), file("g", 2, 1)], &o).is_none());
    assert!(is_valid_walk(&deep_walk()));
}

#[test]
fn total_size_overflow_is_refused() {
    let o = ScanOptions::default();
    let items = vec![dir("r", 0), file("a", 1, u64::MAX), file("b", 1, 1)];
    assert!(is_valid_walk(&items));
    assert!(scan_walk_checked(&root(), &items, &o).is_none());
    let items = vec![dir("r", 0), file("a", 1, u64::MAX - 1), file("b", 1, 1)];
    assert_eq!(scan_walk_checked(&root(), &items, &o).unwrap().root_size, u64::MAX);
}

#[test]
fn visible_entries_filter_and_limit() {
    let es = vec![
        entry("d1", 500, true, vec![]),
        entry("f1", 2000, false, vec![]),
        entry("d0", 0, true, vec![]),
        entry("f0", 0, false, vec![]),
        entry("d2", 5000, true, vec![]),
    ];
    let dirs_only = ScanOptions::default();
    assert_eq!(visible_entries(&es, &dirs_only), vec![0, 2, 4]);
    let with_files = ScanOptions { show_files: true, ..ScanOptions::default() };
    assert_eq!(visible_entries(&es, &with_files), vec![0, 1, 2, 4]);
    let threshold = ScanOptions { show_files: true, min_size: Some(1000), ..ScanOptions::default() };
    assert_eq!(visible_entries(&es, &threshold), vec![1, 4]);
    let limited = ScanOptions { show_files: true, top_n: Some(2), ..ScanOptions::default() };
    assert_eq!(visible_entries(&es, &limited), vec![0, 1]);
}

#[test]
fn bar_reference_is_largest_visible_size() {
    let es = vec![entry("a", 7, true, vec![]), entry("b", 30, true, vec![]), entry("c", 12, true, vec![])];
    assert_eq!(bar_reference_of(&es, &vec![0, 2]), 12);
    assert_eq!(bar_reference_of(&es, &vec![0, 1, 2]), 30);
    assert_eq!(bar_reference_of(&es, &vec![]), 1);
    let empty = vec![entry("z", 0, true, vec![])];
    assert_eq!(bar_reference_of(&empty, &vec![0]), 0);
}

#[test]
fn tree_prefixes() {
    assert_eq!(tree_prefix(&vec![], false), "├── ");
    assert_eq!(tree_prefix(&vec![], true), "└── ");
    assert_eq!(tree_prefix(&vec![true, false], true), "     │  └── ");
}

#[test]
fn tree_lines_nest_below_directories() {
    let o = ScanOptions { show_files: true, ..ScanOptions::default() };
    let r = scan_walk(&root(), &deep_walk(), &o);
    let lines = tree_lines(&r.entries, &o);
    let shown: Vec<(String, String)> = lines.iter().map(|l| (l.prefix.clone(), l.name.clone())).collect();
    let expected = vec![
        ("├── ", "w.txt"),
        ("├── ", "a"),
        (" │  ├── ", "b"),
        (" │   │  ├── ", "c"),
        (" │   │   │  └── ", "z.txt"),
        (" │   │  └── ", "y.txt"),
        (" │  └── ", "x.txt"),
        ("└── ", "e"),
    ];
    let expected: Vec<(String, String)> =
        expected.into_iter().map(|(p, n)| (p.to_string(), n.to_string())).collect();
    assert_eq!(shown, expected);
    assert_eq!(lines[0].reference, 20);
    assert_eq!(lines[0].parent_size, None);
    assert_eq!(lines[2].parent_size, Some(17));
    assert_eq!(lines[2].reference, 14);
    assert!(lines[1].is_dir && !lines[0].is_dir);
}

#[test]
fn tree_lines_hide_files_by_default() {
    let o = ScanOptions::default();
    let r = scan_walk(&root(), &deep_walk(), &o);
    let lines = tree_lines(&r.entries, &o);
    let shown: Vec<&str> = lines.iter().map(|l| l.name.as_str()).collect();
    assert_eq!(shown, vec!["a", "b", "c", "e"]);
    assert_eq!(lines[0].prefix, "├── ");
    assert_eq!(lines[3].prefix, "└── ");
    // the largest shown sibling of "a" is "a" itself
    assert_eq!(lines[0].reference, 17);
}

#[test]
fn size_formats() {
    assert!(size_format(0).is_none());
    let f = size_format(1).unwrap();
    assert!(matches!(f.unit, SizeUnit::Bytes));
    assert_eq!(f.decimals, 2);
    let f = size_format(999).unwrap();
    assert!(matches!(f.unit, SizeUnit::Bytes));
    assert_eq!(f.decimals, 0);
    let f = size_format(1000).unwrap();
    assert!(matches!(f.unit, SizeUnit::Kilobytes));
    assert_eq!(f.decimals, 2);
    let f = size_format(32_500).unwrap();
    assert!(matches!(f.unit, SizeUnit::Kilobytes));
    assert_eq!(f.decimals, 1);
    let f = size_format(20_600_000).unwrap();
    assert!(matches!(f.unit, SizeUnit::Megabytes));
    assert_eq!(f.decimals, 1);
    let f = size_format(3_210_000_000).unwrap();
    assert!(matches!(f.unit, SizeUnit::Gigabytes));
    assert_eq!(f.decimals, 2);
    let f = size_format(u64::MAX).unwrap();
    assert!(matches!(f.unit, SizeUnit::Terabytes));
    assert_eq!(f.decimals, 0);
    assert_eq!(f.unit.bytes(), 1_000_000_000_000);
    assert_eq!(f.unit.label(), "TB");
    assert_eq!(SizeUnit::Bytes.label(), "B");
    assert_eq!(SizeUnit::Kilobytes.bytes(), 1000);
}

#[test]
fn size_texts() {
    assert_eq!(normalize_size_text("  10 mb "), "10MB");
    let t = parse_size_text("10MB").ok().unwrap();
    assert_eq!((t.number.as_str(), t.unit), ("10", 1_000_000));
    let t = parse_size_text(" 1.5 gb").ok().unwrap();
    assert_eq!((t.number.as_str(), t.unit), ("1.5", 1_000_000_000));
    let t = parse_size_text("500kb").ok().unwrap();
    assert_eq!((t.number.as_str(), t.unit), ("500", 1_000));
    let t = parse_size_text("100B").ok().unwrap();
    assert_eq!((t.number.as_str(), t.unit), ("100", 1));
    // a binary unit ends with B, which is read first
    let t = parse_size_text("1GiB").ok().unwrap();
    assert_eq!((t.number.as_str(), t.unit), ("1GI", 1));
    // white space other than spaces stays until the number is trimmed
    assert_eq!(normalize_size_text("10\tMb"), "10\tMB");
    let t = parse_size_text("10\tMb").ok().unwrap();
    assert_eq!((t.number.as_str(), t.unit), ("10", 1_000_000));
    let e = parse_size_text("12 parsecs").err().unwrap();
    assert_eq!(e.text, "12PARSECS");
    assert_eq!(size_unit_suffix("10KB"), Some((2, 1000)));
    assert_eq!(size_unit_suffix("B"), Some((1, 1)));
    assert_eq!(size_unit_suffix(""), None);
    assert_eq!(size_unit_suffix("10"), None);
}
