use dirp::state::{dir_ref_paths_of, is_scan_ok, local_size_of, DirpState};
use dirp::types::{copy_dir, copy_obj, Dir, DirRef, FSObj, File, Path, SizeInBytes, SymLink};

fn file(path: &str, size: u64) -> FSObj {
    FSObj::File(File { path: path.to_string(), size_in_bytes: size, percent: 0, is_marked: false })
}

fn link(path: &str) -> FSObj {
    FSObj::SymLink(SymLink {
        path: path.to_string(),
        size_in_bytes: 0,
        percent: 0,
        is_marked: false,
    })
}

fn dir_ref(path: &str) -> FSObj {
    FSObj::DirRef(DirRef {
        path: path.to_string(),
        is_open: false,
        size_in_bytes: 0,
        percent: 0,
        is_marked: false,
    })
}

fn dir(path: &str, list: Vec<FSObj>) -> Dir {
    Dir {
        path: path.to_string(),
        size_in_bytes: 0,
        percent: 0,
        is_marked: false,
        is_open: false,
        dir_obj_list: list,
    }
}

#[test]
fn a_new_index_is_empty() {
    let state = DirpState::new();
    assert!(!state.path_exists(&"/".to_string()));
    assert!(state.get(&"/T".to_string()).is_none());
    assert_eq!(state.is_path_marked(&"/T".to_string()), None);
}

#[test]
fn insert_puts_and_replaces() {
    let mut state = DirpState::new();
    let first = dir("/T", vec![file("/T/x", 1)]);
    assert_eq!(state.insert("/T".to_string(), first.clone()), None);
    assert!(state.path_exists(&"/T".to_string()));
    assert_eq!(state.get_dir_ref_by_path(&"/T".to_string()), &first);
    let second = dir("/T", vec![file("/T/y", 2)]);
    assert_eq!(state.insert("/T".to_string(), second.clone()), Some(first));
    assert_eq!(state.get(&"/T".to_string()), Some(&second));
    let other = dir("/U", Vec::new());
    assert_eq!(state.insert("/U".to_string(), other.clone()), None);
    assert_eq!(state.get(&"/T".to_string()), Some(&second));
    assert_eq!(state.get(&"/U".to_string()), Some(&other));
}

#[test]
fn a_scan_adds_its_files_to_every_ancestor() {
    let mut state = DirpState::new();
    let root = dir("/T", vec![dir_ref("/T/a"), file("/T/top", 7), link("/T/l")]);
    assert_eq!(state.process_dir_scan_message(root), vec!["/T/a".to_string()]);
    let a = dir("/T/a", vec![dir_ref("/T/a/b"), file("/T/a/x", 30)]);
    assert_eq!(state.process_dir_scan_message(a), vec!["/T/a/b".to_string()]);
    let b = dir("/T/a/b", vec![file("/T/a/b/y", 400), file("/T/a/b/z", 5000)]);
    assert_eq!(state.process_dir_scan_message(b), Vec::<String>::new());
    assert_eq!(state.get_dir_ref_by_path(&"/T".to_string()).size_in_bytes, 5437);
    assert_eq!(state.get_dir_ref_by_path(&"/T/a".to_string()).size_in_bytes, 5430);
    assert_eq!(state.get_dir_ref_by_path(&"/T/a/b".to_string()).size_in_bytes, 5400);
}

#[test]
fn the_size_that_a_scan_result_carries_is_not_used() {
    let mut state = DirpState::new();
    let mut root = dir("/T", vec![file("/T/x", 3)]);
    root.size_in_bytes = 999;
    root.is_marked = true;
    root.is_open = true;
    let _ = state.process_dir_scan_message(root);
    let installed = state.get_dir_ref_by_path(&"/T".to_string());
    assert_eq!(installed.size_in_bytes, 3);
    assert!(!installed.is_marked);
    assert!(installed.is_open);
}

#[test]
fn local_size_counts_files_only() {
    let list = vec![file("/T/x", 10), dir_ref("/T/d"), link("/T/l"), file("/T/y", 5)];
    assert_eq!(local_size_of(&list), Some(15));
    assert_eq!(local_size_of(&Vec::new()), Some(0));
    let big = vec![file("/T/x", u64::MAX), file("/T/y", 0)];
    assert_eq!(local_size_of(&big), Some(u64::MAX));
    let too_big = vec![file("/T/x", u64::MAX), file("/T/y", 1)];
    assert_eq!(local_size_of(&too_big), None);
    let mut sized_ref = DirRef {
        path: "/T/d".to_string(),
        is_open: false,
        size_in_bytes: 77,
        percent: 0,
        is_marked: false,
    };
    sized_ref.size_in_bytes = 77;
    assert_eq!(local_size_of(&vec![FSObj::DirRef(sized_ref)]), Some(0));
}

#[test]
fn dir_ref_paths_keeps_the_order_of_the_listing() {
    let list = vec![dir_ref("/T/b"), file("/T/x", 10), dir_ref("/T/a"), link("/T/l")];
    assert_eq!(dir_ref_paths_of(&list), vec!["/T/b".to_string(), "/T/a".to_string()]);
}

#[test]
fn a_scan_is_ok_when_its_entries_lie_in_the_directory() {
    assert!(is_scan_ok(&dir("/T", Vec::new())));
    assert!(is_scan_ok(&dir("/T", vec![file("/T/x", 1), dir_ref("/T/d"), link("/T/l")])));
    assert!(is_scan_ok(&dir("/", vec![file("/x", 1)])));
    assert!(is_scan_ok(&dir(".", vec![file("./x", 1)])));
    assert!(!is_scan_ok(&dir("/T", vec![file("/T/d/x", 1)])));
    assert!(!is_scan_ok(&dir("/T", vec![file("/U/x", 1)])));
    assert!(!is_scan_ok(&dir("/T", vec![file("/T", 1)])));
    assert!(!is_scan_ok(&dir("/T/", vec![file("/T/x", 1)])));
    assert!(!is_scan_ok(&dir("/T", vec![FSObj::Dir(dir("/T/d", Vec::new()))])));
    assert!(!is_scan_ok(&dir("/T", vec![file("/T/x", 1), file("/T/y", 2), file("/T/x", 3)])));
    assert!(!is_scan_ok(&dir("/T", vec![file("/T/x", 1), dir_ref("/T/x")])));
    assert!(!is_scan_ok(&dir("/T", vec![link("/T/l"), link("/T/l")])));
    assert!(is_scan_ok(&dir("/T", vec![file("/T/x", 1), file("/T/X", 1), file("/T/x ", 1)])));
}

#[test]
fn a_scan_fits_unless_a_size_would_pass_64_bits() {
    let mut state = DirpState::new();
    let _ = state.process_dir_scan_message(dir("/T", vec![file("/T/x", 10)]));
    assert!(state.does_scan_fit(&dir("/T/a", vec![file("/T/a/y", u64::MAX - 10)])));
    assert!(!state.does_scan_fit(&dir("/T/a", vec![file("/T/a/y", u64::MAX - 9)])));
    assert!(state.does_scan_fit(&dir("/U/a", vec![file("/U/a/y", u64::MAX)])));
    assert!(!state.does_scan_fit(&dir("/U", vec![file("/U/y", u64::MAX), file("/U/z", 1)])));
}

#[test]
fn open_close_and_toggle() {
    let mut state = DirpState::new();
    let _ = state.process_dir_scan_message(dir("/T", Vec::new()));
    assert!(state.set_open(&"/T".to_string(), true));
    assert!(state.get_dir_ref_by_path(&"/T".to_string()).is_open);
    assert!(state.set_open(&"/T".to_string(), true));
    assert!(state.get_dir_ref_by_path(&"/T".to_string()).is_open);
    assert!(state.set_open(&"/T".to_string(), false));
    assert!(!state.get_dir_ref_by_path(&"/T".to_string()).is_open);
    assert!(state.toggle_open(&"/T".to_string()));
    assert!(state.get_dir_ref_by_path(&"/T".to_string()).is_open);
    assert!(!state.set_open(&"/U".to_string(), true));
    assert!(!state.toggle_open(&"/U".to_string()));
    assert!(!state.path_exists(&"/U".to_string()));
}

#[test]
fn is_path_marked_looks_in_the_index_and_then_in_the_parent() {
    let mut state = DirpState::new();
    let _ = state.process_dir_scan_message(dir(
        "/T",
        vec![file("/T/x", 1), link("/T/l"), dir_ref("/T/d"), dir_ref("/T/late")],
    ));
    let _ = state.process_dir_scan_message(dir("/T/d", vec![file("/T/d/y", 1)]));
    assert_eq!(state.is_path_marked(&"/T".to_string()), Some(false));
    assert_eq!(state.is_path_marked(&"/T/x".to_string()), Some(false));
    assert_eq!(state.is_path_marked(&"/T/late".to_string()), Some(false));
    assert_eq!(state.is_path_marked(&"/T/none".to_string()), None);
    assert_eq!(state.is_path_marked(&"/U/x".to_string()), None);
    assert_eq!(state.is_path_marked(&"/".to_string()), None);
    state.do_mark_deep(&"/T/x".to_string(), true);
    assert_eq!(state.is_path_marked(&"/T/x".to_string()), Some(true));
    assert_eq!(state.is_path_marked(&"/T/l".to_string()), Some(false));
    assert_eq!(state.is_path_marked(&"/T".to_string()), Some(false));
    state.do_mark_deep(&"/T/d".to_string(), true);
    assert_eq!(state.is_path_marked(&"/T/d".to_string()), Some(true));
    assert_eq!(state.is_path_marked(&"/T/d/y".to_string()), Some(true));
    assert!(state.toggle_mark_deep(&"/T/d".to_string()));
    assert_eq!(state.is_path_marked(&"/T/d/y".to_string()), Some(false));
    assert!(!state.toggle_mark_deep(&"/T/none".to_string()));
    state.do_mark_deep(&"/T/late".to_string(), true);
    assert_eq!(state.is_path_marked(&"/T/late".to_string()), Some(false));
}

#[test]
fn a_deep_mark_stops_where_a_link_in_the_chain_is_missing() {
    let mut state = DirpState::new();
    let _ = state.process_dir_scan_message(dir("/T", vec![dir_ref("/T/a")]));
    let _ = state.process_dir_scan_message(dir("/T/a/b", vec![file("/T/a/b/x", 1)]));
    state.do_mark_deep(&"/T".to_string(), true);
    assert_eq!(state.is_path_marked(&"/T".to_string()), Some(true));
    assert_eq!(state.is_path_marked(&"/T/a/b".to_string()), Some(false));
    assert_eq!(state.is_path_marked(&"/T/a/b/x".to_string()), Some(false));
}

#[test]
fn records_know_their_paths_and_sizes() {
    let f = File { path: "/T/x".to_string(), size_in_bytes: 12, percent: 3, is_marked: true };
    assert_eq!(f.path(), "/T/x");
    let obj = FSObj::File(f.clone());
    assert_eq!(Path::path(&obj), "/T/x");
    assert_eq!(obj.size_in_bytes(), 12);
    let l = SymLink { path: "/T/l".to_string(), size_in_bytes: 0, percent: 0, is_marked: false };
    assert_eq!(l.path(), "/T/l");
    assert_eq!(FSObj::SymLink(l.clone()).size_in_bytes(), 0);
    let r = DirRef {
        path: "/T/d".to_string(),
        is_open: true,
        size_in_bytes: 5,
        percent: 0,
        is_marked: false,
    };
    assert_eq!(r.path(), "/T/d");
    assert_eq!(FSObj::DirRef(r.clone()).size_in_bytes(), 5);
    let mut d = dir("/T", vec![obj.clone(), FSObj::SymLink(l), FSObj::DirRef(r)]);
    d.size_in_bytes = 99;
    assert_eq!(d.path(), "/T");
    assert_eq!(Path::path(&FSObj::Dir(d.clone())), "/T");
    assert_eq!(FSObj::Dir(d.clone()).size_in_bytes(), 99);
    assert_eq!(copy_dir(&d), d);
    assert_eq!(d.clone(), d);
    let nested = FSObj::Dir(dir("/", vec![FSObj::Dir(d)]));
    assert_eq!(copy_obj(&nested), nested);
    assert_eq!(nested.clone(), nested);
}
