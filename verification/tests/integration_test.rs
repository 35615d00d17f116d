// The scenarios of a directory scan, each written as the walk that the
// directory tree yields: the root first, every directory before its contents.

use duster::{scan_walk_checked, ScanOptions, ScanResult, WalkItem};

fn dir(name: &str, depth: usize) -> WalkItem {
    WalkItem { name: name.to_string(), depth, is_dir: true, size: 0 }
}

fn file(name: &str, depth: usize, size: u64) -> WalkItem {
    WalkItem { name: name.to_string(), depth, is_dir: false, size }
}

fn scan(items: Vec<WalkItem>, options: &ScanOptions) -> ScanResult {
    let root_path = vec!["/".to_string(), "tmp".to_string()];
    scan_walk_checked(&root_path, &items, options).unwrap()
}

/// The part of a walk that a walk limited to `walk_depth` levels yields.
fn limited(items: Vec<WalkItem>, walk_depth: usize) -> Vec<WalkItem> {
    items.into_iter().filter(|i| i.depth <= walk_depth).collect()
}

#[test]
fn test_scan_empty_directory() {
    let options = ScanOptions::default();
    let result = scan(vec![dir("tmp", 0)], &options);

    assert_eq!(result.total_files, 0);
    assert_eq!(result.total_dirs, 1); // root dir
    assert!(result.entries.is_empty());
}

#[test]
fn test_scan_files_in_flat_directory() {
    let items = vec![dir("tmp", 0), file("a.txt", 1, "hello world".len() as u64), file("b.txt", 1, "hello".len() as u64)];

    let options = ScanOptions { show_files: true, ..ScanOptions::default() };

    let result = scan(items, &options);
    assert_eq!(result.total_files, 2);

    // Both files should be visible when show_files is true
    let names: Vec<&str> = result.entries.iter().map(|e| e.name.as_str()).collect();
    assert!(names.contains(&"a.txt"));
    assert!(names.contains(&"b.txt"));
}

#[test]
fn test_scan_nested_directories() {
    let items = vec![
        dir("tmp", 0),
        dir("sub", 1),
        file("data.txt", 2, "nested file content here".len() as u64),
    ];

    let options = ScanOptions::default();
    let result = scan(items, &options);

    assert_eq!(result.total_files, 1);
    assert_eq!(result.total_dirs, 2); // root + sub

    // Should see the "sub" directory as a child
    assert_eq!(result.entries.len(), 1);
    assert_eq!(result.entries[0].name, "sub");
    assert!(result.entries[0].is_dir);
    assert!(result.entries[0].size > 0);
}

#[test]
fn test_scan_with_max_depth() {
    let items = vec![dir("tmp", 0), dir("sub", 1), file("shallow.txt", 2, "shallow file".len() as u64)];

    let options = ScanOptions { max_depth: Some(2), ..ScanOptions::default() };
    assert_eq!(options.walk_depth(), 3);
    let result = scan(limited(items, options.walk_depth()), &options);
    assert!(result.total_files > 0);

    // With max_depth=0, only direct children of root are traversed
    let items = vec![dir("tmp", 0), dir("sub", 1), file("shallow.txt", 2, "shallow file".len() as u64)];
    let options2 = ScanOptions { max_depth: Some(0), ..ScanOptions::default() };
    assert_eq!(options2.walk_depth(), 1);
    let result2 = scan(limited(items, options2.walk_depth()), &options2);
    // max_depth=0 means walk_depth=1, which visits root only, no files inside sub/
    assert_eq!(result2.total_files, 0);
}

#[test]
fn test_scan_with_min_size() {
    let items = vec![dir("tmp", 0), file("tiny.txt", 1, 1), file("big.txt", 1, 10_000)];

    let options = ScanOptions { min_size: Some(1_000), show_files: true, ..ScanOptions::default() };

    let result = scan(items, &options);
    assert_eq!(result.total_files, 2);

    // Both files exist in scan, but display filtering happens in main
    let names: Vec<&str> = result.entries.iter().map(|e| e.name.as_str()).collect();
    assert!(names.contains(&"tiny.txt"));
    assert!(names.contains(&"big.txt"));
}

#[test]
fn test_scan_symlinks_are_handled() {
    // A symbolic link is not followed: the walk reports it as a file of its own.
    let items = vec![dir("tmp", 0), file("original.txt", 1, "content".len() as u64), file("link.txt", 1, 20)];

    let options = ScanOptions { show_files: true, ..ScanOptions::default() };
    let result = scan(items, &options);
    assert!(result.total_files >= 1);
}

#[test]
fn test_root_size_is_sum_of_children() {
    let items = vec![dir("tmp", 0), file("f1.txt", 1, 5), file("f2.txt", 1, 10)];

    let options = ScanOptions::default();
    let result = scan(items, &options);

    assert_eq!(result.total_files, 2);
    // Root size should account for both files
    assert!(result.root_size >= 15);
}
