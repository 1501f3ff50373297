use dirp::state::DirpState;
use dirp::tree::{
    _build_result_tree, _marked_files_list, build_result_tree, marked_files_list, percent,
    sort_texts,
};
use dirp::types::{Dir, DirRef, FSObj, File, SymLink};

fn file(path: &str, size: u64, marked: bool) -> FSObj {
    FSObj::File(File { path: path.to_string(), size_in_bytes: size, percent: 0, is_marked: marked })
}

fn link(path: &str, marked: bool) -> FSObj {
    FSObj::SymLink(SymLink {
        path: path.to_string(),
        size_in_bytes: 0,
        percent: 0,
        is_marked: marked,
    })
}

fn dir_ref(path: &str) -> FSObj {
    FSObj::DirRef(DirRef {
        path: path.to_string(),
        is_open: false,
        size_in_bytes: 0,
        percent: 0,
        is_marked: false,
    })
}

fn dir(path: &str, marked: bool, list: Vec<FSObj>) -> Dir {
    Dir {
        path: path.to_string(),
        size_in_bytes: 0,
        percent: 0,
        is_marked: marked,
        is_open: false,
        dir_obj_list: list,
    }
}

#[test]
fn percent_is_rounded_to_the_nearest() {
    assert_eq!(percent(1010, 3730), 27);
    assert_eq!(percent(3730, 3730), 100);
    assert_eq!(percent(0, 3730), 0);
    assert_eq!(percent(0, 0), 0);
    assert_eq!(percent(5, 0), 0);
    assert_eq!(percent(1, 200), 1);
    assert_eq!(percent(1, 201), 0);
    assert_eq!(percent(199, 200), 100);
    assert_eq!(percent(149, 100), 100);
    assert_eq!(percent(1, 3), 33);
    assert_eq!(percent(2, 3), 67);
    assert_eq!(percent(u64::MAX, u64::MAX), 100);
    assert_eq!(percent(u64::MAX, 1), 100);
    assert_eq!(percent(u64::MAX / 2, u64::MAX), 50);
}

#[test]
fn the_tree_shows_what_is_open() {
    let mut state = DirpState::new();
    let _ = state.process_dir_scan_message(dir(
        "/T",
        false,
        vec![dir_ref("/T/a"), file("/T/x", 100, false), link("/T/l", false)],
    ));
    let _ = state.process_dir_scan_message(dir("/T/a", false, vec![file("/T/a/y", 300, false)]));
    let closed = build_result_tree(&"/T".to_string(), false, &state);
    assert_eq!(closed.size_in_bytes, 400);
    assert_eq!(closed.percent, 100);
    assert!(closed.dir_obj_list.is_empty());
    let all = build_result_tree(&"/T".to_string(), true, &state);
    assert_eq!(all.dir_obj_list.len(), 3);
    match &all.dir_obj_list[0] {
        FSObj::Dir(a) => {
            assert_eq!(a.path, "/T/a");
            assert_eq!(a.percent, 75);
            assert_eq!(a.dir_obj_list, vec![FSObj::File(File {
                path: "/T/a/y".to_string(),
                size_in_bytes: 300,
                percent: 75,
                is_marked: false,
            })]);
        }
        other => panic!("{:?}", other),
    }
    match &all.dir_obj_list[1] {
        FSObj::File(x) => assert_eq!(x.percent, 25),
        other => panic!("{:?}", other),
    }
    match &all.dir_obj_list[2] {
        FSObj::SymLink(l) => assert_eq!(l.percent, 0),
        other => panic!("{:?}", other),
    }
    assert!(state.set_open(&"/T".to_string(), true));
    let open = build_result_tree(&"/T".to_string(), false, &state);
    assert_eq!(open.dir_obj_list.len(), 3);
    match &open.dir_obj_list[0] {
        FSObj::Dir(a) => assert!(a.dir_obj_list.is_empty()),
        other => panic!("{:?}", other),
    }
}

#[test]
fn shares_below_another_root_are_shares_of_that_root() {
    let mut state = DirpState::new();
    let _ = state.process_dir_scan_message(dir(
        "/T",
        false,
        vec![dir_ref("/T/a"), file("/T/x", 100, false)],
    ));
    let _ = state.process_dir_scan_message(dir("/T/a", false, vec![file("/T/a/y", 300, false)]));
    let below = build_result_tree(&"/T/a".to_string(), true, &state);
    assert_eq!(below.percent, 100);
    let of_ten = _build_result_tree(&"/T/a".to_string(), true, &state, 10);
    assert_eq!(of_ten.percent, 100);
    let of_much = _build_result_tree(&"/T/a".to_string(), true, &state, 1200);
    assert_eq!(of_much.percent, 25);
    let missing = _build_result_tree(&"/T/none".to_string(), true, &state, 1200);
    assert_eq!(missing.size_in_bytes, 0);
    assert_eq!(missing.path, "/T/none");
}

#[test]
fn marked_paths_are_collected_from_the_top_down() {
    let tree = dir(
        "/T",
        false,
        vec![
            FSObj::Dir(dir("/T/b", true, vec![file("/T/b/x", 1, true), file("/T/b/y", 1, false)])),
            file("/T/z", 1, true),
            FSObj::Dir(dir(
                "/T/a",
                false,
                vec![file("/T/a/x", 1, false), link("/T/a/l", true), file("/T/a/w", 1, true)],
            )),
            link("/T/k", false),
            dir_ref("/T/r"),
        ],
    );
    let mut list = vec!["first".to_string()];
    _marked_files_list(&tree, &mut list);
    assert_eq!(list, vec!["first", "/T/b", "/T/z", "/T/a/l", "/T/a/w"]);
    let mut whole = Vec::new();
    _marked_files_list(&dir("/T", true, vec![file("/T/z", 1, true)]), &mut whole);
    assert_eq!(whole, vec!["/T"]);
}

#[test]
fn marked_files_list_is_sorted() {
    let mut state = DirpState::new();
    let _ = state.process_dir_scan_message(dir(
        "/T",
        false,
        vec![file("/T/z", 1, false), dir_ref("/T/a"), file("/T/B", 1, false)],
    ));
    let _ = state.process_dir_scan_message(dir("/T/a", false, vec![file("/T/a/y", 3, false)]));
    assert_eq!(marked_files_list(&"/T".to_string(), &state), Vec::<String>::new());
    state.do_mark_deep(&"/T/z".to_string(), true);
    state.do_mark_deep(&"/T/a/y".to_string(), true);
    state.do_mark_deep(&"/T/B".to_string(), true);
    assert_eq!(marked_files_list(&"/T".to_string(), &state), vec!["/T/B", "/T/a/y", "/T/z"]);
    assert_eq!(marked_files_list(&"/T/a".to_string(), &state), vec!["/T/a/y"]);
    assert_eq!(marked_files_list(&"/none".to_string(), &state), Vec::<String>::new());
}

#[test]
fn sort_texts_agrees_with_the_order_of_strings() {
    let samples: Vec<Vec<&str>> = vec![
        vec![],
        vec!["a"],
        vec!["b", "a"],
        vec!["a", "a", "a"],
        vec!["/T/b", "/T/a/x", "/T/a", "/T", "/T/a/", "/T/a x", "/T/a-x", "/T/a.x"],
        vec!["", "z", "", "Z", "zz", "\u{e9}", "e", "\u{4e2d}", "\u{1f600}", "\u{ffff}", "~"],
        vec!["10", "9", "1", "100", "01"],
    ];
    for sample in samples.iter() {
        let list: Vec<String> = sample.iter().map(|s| s.to_string()).collect();
        let mut expected = list.clone();
        expected.sort();
        assert_eq!(sort_texts(&list), expected);
    }
    let mut list = Vec::new();
    let mut x: u32 = 12345;
    for _ in 0..300 {
        x = x.wrapping_mul(1664525).wrapping_add(1013904223);
        let mut s = String::new();
        let mut y = x;
        for _ in 0..(x >> 29) {
            s.push(char::from_u32(0x61 + (y % 3)).unwrap());
            y /= 3;
        }
        list.push(s);
    }
    let mut expected = list.clone();
    expected.sort();
    assert_eq!(sort_texts(&list), expected);
}
