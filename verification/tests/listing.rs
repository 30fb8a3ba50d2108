use dir_listing::entry::{FileEntry, Metadata, ModifiedTime, ReadDirectoryOptions, ScanItem};
use dir_listing::error::ListError;
use dir_listing::lister::{check_path, entry_of, gather, is_listable, list, list_children, read_directory};

fn file(name: &str) -> ScanItem {
    child(name, false, 10, ModifiedTime::SinceEpoch(1_700_000_000))
}

fn dir(name: &str) -> ScanItem {
    child(name, true, 4096, ModifiedTime::SinceEpoch(1_600_000_000))
}

fn child(name: &str, is_dir: bool, size: u64, modified: ModifiedTime) -> ScanItem {
    ScanItem::Child {
        name: name.to_string(),
        path: format!("/home/u/{}", name),
        metadata: Some(Metadata { is_dir, size, modified }),
    }
}

fn names(entries: &[FileEntry]) -> Vec<String> {
    entries.iter().map(|e| e.name.clone()).collect()
}

fn options(show_hidden: Option<bool>) -> Option<ReadDirectoryOptions> {
    Some(ReadDirectoryOptions { show_hidden })
}

fn sample() -> Vec<ScanItem> {
    vec![file("b.txt"), dir("A"), file(".hidden")]
}

#[test]
fn default_listing_leaves_hidden_out_and_puts_directory_first() {
    let listed = list("/home/u", true, true, Ok(sample()), None).unwrap();
    assert_eq!(names(&listed), vec!["A", "b.txt"]);
}

#[test]
fn show_hidden_lists_hidden_among_the_files() {
    let listed = list("/home/u", true, true, Ok(sample()), options(Some(true))).unwrap();
    assert_eq!(names(&listed), vec!["A", ".hidden", "b.txt"]);
}

#[test]
fn listed_entry_carries_every_field() {
    let listed = list("/home/u", true, true, Ok(sample()), None).unwrap();
    assert_eq!(
        listed,
        vec![
            FileEntry {
                name: "A".to_string(),
                path: "/home/u/A".to_string(),
                is_dir: true,
                size: 4096,
                modified: 1_600_000_000,
            },
            FileEntry {
                name: "b.txt".to_string(),
                path: "/home/u/b.txt".to_string(),
                is_dir: false,
                size: 10,
                modified: 1_700_000_000,
            },
        ]
    );
}

#[test]
fn absent_show_hidden_means_false() {
    for chosen in [None, options(None), options(Some(false))] {
        let listed = list("/home/u", true, true, Ok(sample()), chosen).unwrap();
        assert_eq!(names(&listed), vec!["A", "b.txt"]);
    }
}

#[test]
fn empty_directory_gives_empty_listing() {
    let listed = list("/home/u", true, true, Ok(Vec::new()), None);
    assert_eq!(listed, Ok(Vec::new()));
}

#[test]
fn child_without_metadata_is_left_out() {
    let items = vec![
        file("a.txt"),
        ScanItem::Child {
            name: "gone.txt".to_string(),
            path: "/home/u/gone.txt".to_string(),
            metadata: None,
        },
        file("z.txt"),
    ];
    let listed = list("/home/u", true, true, Ok(items), None).unwrap();
    assert_eq!(names(&listed), vec!["a.txt", "z.txt"]);
}

#[test]
fn unreadable_child_is_left_out() {
    let items = vec![ScanItem::Unreadable, file("a.txt"), ScanItem::Unreadable];
    let listed = list("/home/u", true, true, Ok(items), options(Some(true))).unwrap();
    assert_eq!(names(&listed), vec!["a.txt"]);
}

#[test]
fn only_unreadable_children_give_empty_listing() {
    let items = vec![ScanItem::Unreadable, ScanItem::Unreadable];
    assert_eq!(list("/home/u", true, true, Ok(items), None), Ok(Vec::new()));
}

#[test]
fn missing_path_is_not_found() {
    let result = list("/no/such", false, false, Ok(sample()), None);
    assert_eq!(result, Err(ListError::NotFound("/no/such".to_string())));
}

#[test]
fn regular_file_is_not_a_directory() {
    let result = list("/etc/hosts", true, false, Ok(sample()), None);
    assert_eq!(result, Err(ListError::NotADirectory("/etc/hosts".to_string())));
}

#[test]
fn failed_enumeration_is_read_error() {
    let cause = "Permission denied (os error 13)".to_string();
    let result = list("/root", true, true, Err(cause.clone()), None);
    assert_eq!(result, Err(ListError::ReadError(cause)));
}

#[test]
fn existence_is_checked_before_kind_and_kind_before_enumeration() {
    let cause = "Input/output error (os error 5)".to_string();
    assert_eq!(
        list("p", false, true, Err(cause.clone()), None),
        Err(ListError::NotFound("p".to_string()))
    );
    assert_eq!(
        list("p", false, false, Err(cause.clone()), None),
        Err(ListError::NotFound("p".to_string()))
    );
    assert_eq!(
        list("p", true, false, Err(cause), None),
        Err(ListError::NotADirectory("p".to_string()))
    );
}

#[test]
fn check_path_accepts_an_existing_directory() {
    assert_eq!(check_path("/home/u", true, true), Ok(()));
}

#[test]
fn check_path_rejects_as_list_does() {
    assert_eq!(check_path("x", false, false), Err(ListError::NotFound("x".to_string())));
    assert_eq!(check_path("x", false, true), Err(ListError::NotFound("x".to_string())));
    assert_eq!(check_path("x", true, false), Err(ListError::NotADirectory("x".to_string())));
}

#[test]
fn error_messages_carry_path_or_cause() {
    assert_eq!(
        ListError::NotFound("/no/such".to_string()).message(),
        "Directory does not exist: /no/such"
    );
    assert_eq!(
        ListError::NotADirectory("/etc/hosts".to_string()).message(),
        "Path is not a directory: /etc/hosts"
    );
    assert_eq!(
        ListError::ReadError("Permission denied (os error 13)".to_string()).message(),
        "Failed to read directory: Permission denied (os error 13)"
    );
}

#[test]
fn read_directory_flattens_failures_to_messages() {
    assert_eq!(
        read_directory("/no/such", false, false, Ok(Vec::new()), None),
        Err("Directory does not exist: /no/such".to_string())
    );
    assert_eq!(
        read_directory("/etc/hosts", true, false, Ok(Vec::new()), None),
        Err("Path is not a directory: /etc/hosts".to_string())
    );
    assert_eq!(
        read_directory("/root", true, true, Err("denied".to_string()), None),
        Err("Failed to read directory: denied".to_string())
    );
}

#[test]
fn read_directory_lists_as_list_does() {
    let flat = read_directory("/home/u", true, true, Ok(sample()), options(Some(true))).unwrap();
    let structured = list("/home/u", true, true, Ok(sample()), options(Some(true))).unwrap();
    assert_eq!(flat, structured);
    assert_eq!(names(&flat), vec!["A", ".hidden", "b.txt"]);
}

#[test]
fn missing_or_early_modification_time_becomes_epoch() {
    let items = vec![
        child("a", false, 1, ModifiedTime::Unavailable),
        child("b", false, 2, ModifiedTime::BeforeEpoch),
        child("c", false, 3, ModifiedTime::SinceEpoch(42)),
        child("d", false, 4, ModifiedTime::SinceEpoch(u64::MAX)),
    ];
    let listed = list_children(items, false);
    let stamps: Vec<u64> = listed.iter().map(|e| e.modified).collect();
    assert_eq!(stamps, vec![0, 0, 42, u64::MAX]);
}

#[test]
fn modified_time_seconds() {
    assert_eq!(ModifiedTime::Unavailable.seconds(), 0);
    assert_eq!(ModifiedTime::BeforeEpoch.seconds(), 0);
    assert_eq!(ModifiedTime::SinceEpoch(0).seconds(), 0);
    assert_eq!(ModifiedTime::SinceEpoch(1_234_567_890).seconds(), 1_234_567_890);
}

#[test]
fn size_is_taken_as_reported_for_directories_too() {
    let items = vec![child("d", true, 4096, ModifiedTime::SinceEpoch(1)), child("e", true, 0, ModifiedTime::SinceEpoch(1))];
    let listed = list_children(items, false);
    let sizes: Vec<u64> = listed.iter().map(|e| e.size).collect();
    assert_eq!(sizes, vec![4096, 0]);
}

#[test]
fn hidden_directory_is_left_out_by_default() {
    let items = vec![dir(".git"), dir("src"), file("Cargo.toml")];
    assert_eq!(names(&list_children(items.clone(), false)), vec!["src", "Cargo.toml"]);
    assert_eq!(names(&list_children(items, true)), vec![".git", "src", "Cargo.toml"]);
}

#[test]
fn is_listable_follows_the_leading_dot() {
    assert!(is_listable("a.txt", false));
    assert!(!is_listable(".profile", false));
    assert!(is_listable(".profile", true));
    assert!(is_listable("", false));
    assert!(!is_listable(".", false));
    assert!(is_listable("a.", false));
}

#[test]
fn entry_of_skips_or_builds() {
    assert_eq!(entry_of(ScanItem::Unreadable, true), None);
    assert_eq!(entry_of(file(".x"), false), None);
    assert_eq!(
        entry_of(file(".x"), true),
        Some(FileEntry {
            name: ".x".to_string(),
            path: "/home/u/.x".to_string(),
            is_dir: false,
            size: 10,
            modified: 1_700_000_000,
        })
    );
    let bare = ScanItem::Child { name: "x".to_string(), path: "/x".to_string(), metadata: None };
    assert_eq!(entry_of(bare, true), None);
}

#[test]
fn gather_keeps_scan_order() {
    let items = vec![file("z"), ScanItem::Unreadable, dir("m"), file(".h"), file("a")];
    assert_eq!(names(&gather(items.clone(), false)), vec!["z", "m", "a"]);
    assert_eq!(names(&gather(items, true)), vec!["z", "m", ".h", "a"]);
}

#[test]
fn listing_twice_gives_the_same_sequence() {
    let items = vec![file("b"), dir("B"), file("a"), dir("A"), file(".c"), file("B")];
    let first = list("/d", true, true, Ok(items.clone()), options(Some(true)));
    let second = list("/d", true, true, Ok(items), options(Some(true)));
    assert_eq!(first, second);
}

#[test]
fn default_listing_holds_exactly_the_visible_children() {
    let items = vec![file(".a"), file("b"), dir(".c"), dir("d"), file("e."), file("f.g")];
    let listed = list_children(items.clone(), false);
    assert!(listed.iter().all(|e| !e.name.starts_with('.')));
    let mut got = names(&listed);
    got.sort();
    assert_eq!(got, vec!["b", "d", "e.", "f.g"]);
    let mut all = names(&list_children(items, true));
    all.sort();
    assert_eq!(all, vec![".a", ".c", "b", "d", "e.", "f.g"]);
}

#[test]
fn default_listing_is_the_full_listing_without_hidden_entries() {
    let items = vec![file("b"), file(".b"), dir("B"), dir(".a"), file("a"), file(".z")];
    let full = list_children(items.clone(), true);
    let visible: Vec<FileEntry> = full.into_iter().filter(|e| !e.name.starts_with('.')).collect();
    assert_eq!(list_children(items, false), visible);
}

#[test]
fn name_with_replacement_character_is_listed_as_it_is() {
    let lossy = String::from_utf8_lossy(b"caf\xe9.txt").to_string();
    assert_eq!(lossy, "caf\u{fffd}.txt");
    let listed = list_children(vec![file("z"), file(&lossy), file("a")], false);
    assert_eq!(names(&listed), vec!["a", "caf\u{fffd}.txt", "z"]);
    assert_eq!(listed[1].path, "/home/u/caf\u{fffd}.txt");
}

#[test]
fn scan_order_matters_only_among_names_that_tie() {
    let one = list_children(vec![file("b"), dir("x"), file("a"), file("A"), dir("c")], false);
    let other = list_children(vec![dir("c"), file("a"), file("A"), dir("x"), file("b")], false);
    assert_eq!(one, other);
    assert_eq!(names(&one), vec!["c", "x", "a", "A", "b"]);
    let swapped = list_children(vec![file("A"), file("a")], false);
    assert_eq!(names(&swapped), vec!["A", "a"]);
}
