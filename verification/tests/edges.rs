use dirp::actor::{tick_interval_ms, TICK_INTERVAL_MS};
use dirp::cli::{path_argument, PathArgument};
use dirp::scan::{classify_entry, scan_result, EntryFacts};
use dirp::types::{Dir, DirRef, FSObj, File, SymLink};

fn facts(path: &str, name: &str, symlink: bool, dir: bool, file: bool, size: u64) -> EntryFacts {
    EntryFacts {
        path: path.to_string(),
        file_name: name.to_string(),
        is_symlink: symlink,
        is_dir: dir,
        is_file: file,
        size_in_bytes: size,
    }
}

#[test]
fn tick_interval_is_kept_in_range() {
    assert_eq!(TICK_INTERVAL_MS, 100);
    assert_eq!(tick_interval_ms(TICK_INTERVAL_MS), 100);
    assert_eq!(tick_interval_ms(0), 50);
    assert_eq!(tick_interval_ms(49), 50);
    assert_eq!(tick_interval_ms(50), 50);
    assert_eq!(tick_interval_ms(200), 200);
    assert_eq!(tick_interval_ms(500), 500);
    assert_eq!(tick_interval_ms(501), 500);
    assert_eq!(tick_interval_ms(u64::MAX), 500);
}

#[test]
fn one_argument_names_the_directory() {
    let args = |list: &[&str]| list.iter().map(|s| s.to_string()).collect::<Vec<String>>();
    assert_eq!(path_argument(&args(&[])), None);
    assert_eq!(path_argument(&args(&["a", "b"])), None);
    assert_eq!(path_argument(&args(&["~"])), Some(PathArgument::Home));
    assert_eq!(path_argument(&args(&["."])), Some(PathArgument::CurrentDir));
    assert_eq!(path_argument(&args(&["/tmp"])), Some(PathArgument::Given("/tmp".to_string())));
    assert_eq!(path_argument(&args(&["./test"])), Some(PathArgument::Given("./test".to_string())));
    assert_eq!(path_argument(&args(&["~/x"])), Some(PathArgument::Given("~/x".to_string())));
    assert_eq!(path_argument(&args(&[""])), Some(PathArgument::Given(String::new())));
}

#[test]
fn an_entry_is_a_link_before_it_is_anything_else() {
    let link = facts("/T/l", "l", true, true, true, 12);
    assert_eq!(
        classify_entry(&link, true, false),
        Some(FSObj::SymLink(SymLink {
            path: "/T/l".to_string(),
            size_in_bytes: 0,
            percent: 0,
            is_marked: false,
        }))
    );
    let dir = facts("/T/d", "d", false, true, false, 4096);
    assert_eq!(
        classify_entry(&dir, true, false),
        Some(FSObj::DirRef(DirRef {
            path: "/T/d".to_string(),
            is_open: true,
            size_in_bytes: 0,
            percent: 0,
            is_marked: false,
        }))
    );
    let file = facts("/T/f", "f", false, false, true, 1010);
    assert_eq!(
        classify_entry(&file, true, false),
        Some(FSObj::File(File {
            path: "/T/f".to_string(),
            size_in_bytes: 1010,
            percent: 0,
            is_marked: false,
        }))
    );
    let socket = facts("/T/s", "s", false, false, false, 0);
    assert_eq!(classify_entry(&socket, true, false), None);
}

#[test]
fn denied_entries_are_passed_over_on_macos_only() {
    let store = facts("/T/.DS_Store", ".DS_Store", false, false, true, 6148);
    let volumes = facts("/Volumes", "Volumes", false, true, false, 0);
    let system = facts("/System/Volumes", "Volumes", false, true, false, 0);
    let other = facts("/T/Volumes", "Volumes", false, true, false, 0);
    assert_eq!(classify_entry(&store, false, true), None);
    assert_eq!(classify_entry(&volumes, false, true), None);
    assert_eq!(classify_entry(&system, false, true), None);
    assert!(classify_entry(&other, false, true).is_some());
    assert!(classify_entry(&store, false, false).is_some());
    assert!(classify_entry(&volumes, false, false).is_some());
    assert!(classify_entry(&system, false, false).is_some());
}

#[test]
fn a_scan_result_lists_what_was_classified() {
    let entries = vec![
        facts("/T/f", "f", false, false, true, 10),
        facts("/T/s", "s", false, false, false, 0),
        facts("/T/d", "d", false, true, false, 0),
        facts("/T/.DS_Store", ".DS_Store", false, false, true, 1),
        facts("/T/l", "l", true, false, true, 3),
    ];
    let result = scan_result("/T".to_string(), true, &entries, true);
    assert_eq!(
        result,
        Dir {
            path: "/T".to_string(),
            size_in_bytes: 0,
            percent: 0,
            is_marked: false,
            is_open: true,
            dir_obj_list: vec![
                FSObj::File(File {
                    path: "/T/f".to_string(),
                    size_in_bytes: 10,
                    percent: 0,
                    is_marked: false,
                }),
                FSObj::DirRef(DirRef {
                    path: "/T/d".to_string(),
                    is_open: true,
                    size_in_bytes: 0,
                    percent: 0,
                    is_marked: false,
                }),
                FSObj::SymLink(SymLink {
                    path: "/T/l".to_string(),
                    size_in_bytes: 0,
                    percent: 0,
                    is_marked: false,
                }),
            ],
        }
    );
    let unreadable = scan_result("/T/locked".to_string(), false, &Vec::new(), false);
    assert_eq!(unreadable.path, "/T/locked");
    assert!(unreadable.dir_obj_list.is_empty());
    assert!(!unreadable.is_open);
}
