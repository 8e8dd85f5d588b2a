use filecounter::file_counter::event_fault;
use filecounter::{depth_limit, find_files, Entry, EntryKind, FindError, WalkEvent};

fn entry(path: &str, depth: usize, kind: EntryKind) -> WalkEvent {
    WalkEvent::Entry(Entry { path: path.to_string(), depth, kind })
}

fn file(path: &str, depth: usize) -> WalkEvent {
    entry(path, depth, EntryKind::File)
}

fn directory(path: &str, depth: usize) -> WalkEvent {
    entry(path, depth, EntryKind::Directory)
}

fn strings(items: &[&str]) -> Vec<String> {
    items.iter().map(|item| item.to_string()).collect()
}

/// What a traversal of `test_data/empty_directory` reports: the directory
/// itself and nothing below it.
fn empty_directory() -> Vec<WalkEvent> {
    vec![directory("test_data/empty_directory", 0)]
}

/// What a traversal of `test_data/non_empty_directory` reports:
///
/// - test_data/non_empty_directory/
///     - file1.txt
///     - file2.jpg
///     - subdirectory/
///         - file3.png
///         - file4.mkv
fn non_empty_directory() -> Vec<WalkEvent> {
    vec![
        directory("test_data/non_empty_directory", 0),
        file("test_data/non_empty_directory/file1.txt", 1),
        file("test_data/non_empty_directory/file2.jpg", 1),
        directory("test_data/non_empty_directory/subdirectory", 1),
        file("test_data/non_empty_directory/subdirectory/file3.png", 2),
        file("test_data/non_empty_directory/subdirectory/file4.mkv", 2),
    ]
}

/// The tree `root/{a.txt, b.jpg, sub/{c.png, d.mkv}}`.
fn small_tree() -> Vec<WalkEvent> {
    vec![
        directory("root", 0),
        file("root/a.txt", 1),
        file("root/b.jpg", 1),
        directory("root/sub", 1),
        file("root/sub/c.png", 2),
        file("root/sub/d.mkv", 2),
    ]
}

#[test]
fn test_find_files_recursive_no_files() {
    let directory: Vec<WalkEvent> = empty_directory();
    let extensions: Vec<String> = vec!["txt".to_string()];
    let result: Vec<String> = find_files(&directory, &extensions, true).unwrap();
    assert_eq!(result.len(), 0);
}

#[test]
fn test_find_files_recursive_some_files() {
    let directory: Vec<WalkEvent> = non_empty_directory();
    let extensions: Vec<String> = vec!["txt".to_string()];
    let result: Vec<String> = find_files(&directory, &extensions, true).unwrap();
    assert_eq!(result.len(), 1);
}

#[test]
fn test_find_files_recursive_subdirectory() {
    let directory: Vec<WalkEvent> = non_empty_directory();
    let extensions: Vec<String> = vec!["png".to_string()];
    let result: Vec<String> = find_files(&directory, &extensions, true).unwrap();
    assert_eq!(result.len(), 1);
}

#[test]
fn test_find_files_recursive_multiple_extensions() {
    let directory: Vec<WalkEvent> = non_empty_directory();
    let extensions: Vec<String> = vec!["txt".to_string(), "jpg".to_string()];
    let result: Vec<String> = find_files(&directory, &extensions, true).unwrap();
    assert_eq!(result.len(), 2);
}

#[test]
fn test_find_files_non_recursive_no_files() {
    let directory: Vec<WalkEvent> = empty_directory();
    let extensions: Vec<String> = vec!["txt".to_string()];
    let result: Vec<String> = find_files(&directory, &extensions, false).unwrap();
    assert_eq!(result.len(), 0);
}

#[test]
fn test_find_files_non_recursive_some_files() {
    let directory: Vec<WalkEvent> = non_empty_directory();
    let extensions: Vec<String> = vec!["txt".to_string()];
    let result: Vec<String> = find_files(&directory, &extensions, false).unwrap();
    assert_eq!(result.len(), 1);
}

#[test]
fn test_find_files_non_recursive_subdirectory() {
    let directory: Vec<WalkEvent> = non_empty_directory();
    let extensions: Vec<String> = vec!["png".to_string()];
    let result: Vec<String> = find_files(&directory, &extensions, false).unwrap();
    assert_eq!(result.len(), 0);
}

#[test]
fn test_find_files_non_recursive_multiple_extensions() {
    let directory: Vec<WalkEvent> = non_empty_directory();
    let extensions: Vec<String> = vec!["txt".to_string(), "jpg".to_string()];
    let result: Vec<String> = find_files(&directory, &extensions, false).unwrap();
    assert_eq!(result.len(), 2);
}

#[test]
fn small_tree_recursive_txt() {
    let result = find_files(&small_tree(), &strings(&["txt"]), true);
    assert_eq!(result, Ok(strings(&["root/a.txt"])));
}

#[test]
fn small_tree_flat_png_is_nested_and_left_out() {
    let result = find_files(&small_tree(), &strings(&["png"]), false);
    assert_eq!(result, Ok(Vec::new()));
}

#[test]
fn small_tree_recursive_txt_and_jpg() {
    let result = find_files(&small_tree(), &strings(&["txt", "jpg"]), true);
    assert_eq!(result, Ok(strings(&["root/a.txt", "root/b.jpg"])));
}

#[test]
fn recursive_search_reaches_every_depth() {
    let listing = vec![
        directory("r", 0),
        file("r/one.log", 1),
        directory("r/a", 1),
        file("r/a/two.LOG", 2),
        directory("r/a/b", 2),
        file("r/a/b/three.log", 3),
        directory("r/a/b/c", 3),
        file("r/a/b/c/four.txt", 4),
        file("r/a/b/c/five.log", 4),
    ];
    let result = find_files(&listing, &strings(&["log"]), true);
    assert_eq!(
        result,
        Ok(strings(&["r/one.log", "r/a/two.LOG", "r/a/b/three.log", "r/a/b/c/five.log"]))
    );
}

#[test]
fn flat_search_keeps_direct_children_only() {
    let listing = vec![
        directory("r", 0),
        file("r/a/two.log", 2),
        file("r/one.log", 1),
        file("r/a/b/three.log", 3),
        file("r/last.log", 1),
    ];
    let result = find_files(&listing, &strings(&["log"]), false);
    assert_eq!(result, Ok(strings(&["r/one.log", "r/last.log"])));
}

#[test]
fn only_regular_files_count() {
    let listing = vec![
        directory("r", 0),
        directory("r/folder.txt", 1),
        entry("r/link.txt", 1, EntryKind::Other),
        file("r/real.txt", 1),
    ];
    assert_eq!(find_files(&listing, &strings(&["txt"]), true), Ok(strings(&["r/real.txt"])));
    assert_eq!(find_files(&listing, &strings(&["txt"]), false), Ok(strings(&["r/real.txt"])));
}

#[test]
fn results_keep_the_order_and_the_duplicates_of_the_listing() {
    let listing = vec![
        directory("r", 0),
        file("r/b.txt", 1),
        file("r/a.txt", 1),
        file("r/b.txt", 1),
    ];
    let result = find_files(&listing, &strings(&["txt", "txt"]), true);
    assert_eq!(result, Ok(strings(&["r/b.txt", "r/a.txt", "r/b.txt"])));
}

#[test]
fn empty_root_directory_yields_nothing() {
    for recursive in [false, true] {
        for extensions in [strings(&[]), strings(&["txt"]), strings(&["", "jpg", "PNG"])] {
            let listing = vec![directory("anywhere", 0)];
            assert_eq!(find_files(&listing, &extensions, recursive), Ok(Vec::new()));
        }
    }
}

#[test]
fn empty_listing_yields_nothing() {
    assert_eq!(find_files(&[], &strings(&["txt"]), true), Ok(Vec::new()));
    assert_eq!(find_files(&[], &strings(&["txt"]), false), Ok(Vec::new()));
}

#[test]
fn empty_extension_set_takes_no_file() {
    assert_eq!(find_files(&small_tree(), &[], true), Ok(Vec::new()));
    assert_eq!(find_files(&small_tree(), &[], false), Ok(Vec::new()));
}

#[test]
fn missing_root_is_an_error() {
    let listing = vec![WalkEvent::Unreadable { depth: 0 }];
    assert_eq!(find_files(&listing, &strings(&["txt"]), true), Err(FindError::RootUnreadable));
    assert_eq!(find_files(&listing, &strings(&["txt"]), false), Err(FindError::RootUnreadable));
}

#[test]
fn unreadable_root_is_an_error_whatever_else_was_reported() {
    let listing = vec![
        directory("r", 0),
        file("r/a.txt", 1),
        WalkEvent::Unreadable { depth: 0 },
        file("r/b.txt", 1),
    ];
    assert_eq!(find_files(&listing, &strings(&["txt"]), true), Err(FindError::RootUnreadable));
}

#[test]
fn root_that_is_no_directory_is_an_error() {
    let listing = vec![file("notes.txt", 0)];
    assert_eq!(find_files(&listing, &strings(&["txt"]), true), Err(FindError::RootNotDirectory));
    let listing = vec![entry("link", 0, EntryKind::Other)];
    assert_eq!(find_files(&listing, &strings(&["txt"]), false), Err(FindError::RootNotDirectory));
}

#[test]
fn the_earliest_fault_is_reported() {
    let listing = vec![file("notes.txt", 0), WalkEvent::Unreadable { depth: 0 }];
    assert_eq!(find_files(&listing, &[], true), Err(FindError::RootNotDirectory));
    let listing = vec![WalkEvent::Unreadable { depth: 0 }, file("notes.txt", 0)];
    assert_eq!(find_files(&listing, &[], true), Err(FindError::RootUnreadable));
}

#[test]
fn failures_below_the_root_are_passed_over() {
    let listing = vec![
        directory("r", 0),
        WalkEvent::Unreadable { depth: 1 },
        file("r/a.txt", 1),
        directory("r/locked", 1),
        WalkEvent::Unreadable { depth: 1 },
        directory("r/open", 1),
        WalkEvent::Unreadable { depth: 2 },
        file("r/open/b.txt", 2),
    ];
    let result = find_files(&listing, &strings(&["txt"]), true);
    assert_eq!(result, Ok(strings(&["r/a.txt", "r/open/b.txt"])));
}

#[test]
fn event_fault_tells_the_fatal_events_apart() {
    assert_eq!(event_fault(&WalkEvent::Unreadable { depth: 0 }), Some(FindError::RootUnreadable));
    assert_eq!(event_fault(&WalkEvent::Unreadable { depth: 1 }), None);
    assert_eq!(event_fault(&WalkEvent::Unreadable { depth: usize::MAX }), None);
    assert_eq!(event_fault(&directory("r", 0)), None);
    assert_eq!(event_fault(&file("r", 0)), Some(FindError::RootNotDirectory));
    assert_eq!(event_fault(&entry("r", 0, EntryKind::Other)), Some(FindError::RootNotDirectory));
    assert_eq!(event_fault(&file("r/a", 1)), None);
    assert_eq!(event_fault(&entry("r/a", 1, EntryKind::Other)), None);
}

#[test]
fn depth_limit_is_one_level_unless_recursive() {
    assert_eq!(depth_limit(false), Some(1));
    assert_eq!(depth_limit(true), None);
}
