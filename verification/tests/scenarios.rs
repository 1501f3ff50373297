use dirp::actor::{DirpActor, DirpStateMessage, Effect, ScanRequest};
use dirp::rows::{dirp_state_to_i_state, IntermediateState};
use dirp::scan::{scan_result, EntryFacts};
use dirp::types::{Dir, FSObj};

fn file(path: &str, size: u64) -> EntryFacts {
    let name = path.rsplit('/').next().unwrap().to_string();
    EntryFacts {
        path: path.to_string(),
        file_name: name,
        is_symlink: false,
        is_dir: false,
        is_file: true,
        size_in_bytes: size,
    }
}

fn dir(path: &str) -> EntryFacts {
    let name = path.rsplit('/').next().unwrap().to_string();
    EntryFacts {
        path: path.to_string(),
        file_name: name,
        is_symlink: false,
        is_dir: true,
        is_file: false,
        size_in_bytes: 4096,
    }
}

fn link(path: &str) -> EntryFacts {
    let name = path.rsplit('/').next().unwrap().to_string();
    EntryFacts {
        path: path.to_string(),
        file_name: name,
        is_symlink: true,
        is_dir: false,
        is_file: true,
        size_in_bytes: 9,
    }
}

fn entries_of(root: &str, path: &str) -> Vec<EntryFacts> {
    let below = |rest: &str| format!("{}{}", root, rest);
    if path == root {
        vec![dir(&below("/a")), dir(&below("/e")), link(&below("/link"))]
    } else if path == below("/a") {
        vec![
            file(&below("/a/1.txt"), 1010),
            file(&below("/a/2.txt"), 1010),
            file(&below("/a/3.txt"), 1010),
        ]
    } else if path == below("/e") {
        vec![dir(&below("/e/f")), file(&below("/e/h.txt"), 200)]
    } else if path == below("/e/f") {
        vec![file(&below("/e/f/g.txt"), 500)]
    } else {
        Vec::new()
    }
}

fn settle(root: &str, actor: &mut DirpActor, first: ScanRequest) -> usize {
    let mut queue = vec![first];
    let mut scans = 0;
    while let Some(request) = queue.pop() {
        let entries = entries_of(root, &request.path);
        let result = scan_result(request.path.clone(), request.is_open, &entries, false);
        match actor.dirp_state_step(DirpStateMessage::DirScanMessage(result)) {
            Effect::Scan(more) => queue.extend(more),
            other => panic!("a scan result gave {:?}", other),
        }
        scans += 1;
    }
    scans
}

fn profiled(root: &str) -> DirpActor {
    let (mut actor, first) = DirpActor::start(root.to_string());
    assert_eq!(first, ScanRequest { path: root.to_string(), is_open: true });
    assert_eq!(settle(root, &mut actor, first), 4);
    actor
}

fn send(actor: &mut DirpActor, message: DirpStateMessage) {
    assert_eq!(actor.dirp_state_step(message), Effect::Nothing);
}

fn snapshot(actor: &mut DirpActor) -> Dir {
    match actor.dirp_state_step(DirpStateMessage::Timer) {
        Effect::Publish(tree) => tree,
        other => panic!("a tick gave {:?}", other),
    }
}

fn find<'a>(tree: &'a Dir, path: &str) -> Option<&'a FSObj> {
    for child in tree.dir_obj_list.iter() {
        let child_path = match child {
            FSObj::Dir(o) => &o.path,
            FSObj::DirRef(o) => &o.path,
            FSObj::File(o) => &o.path,
            FSObj::SymLink(o) => &o.path,
        };
        if child_path == path {
            return Some(child);
        }
        if let FSObj::Dir(below) = child {
            if let Some(found) = find(below, path) {
                return Some(found);
            }
        }
    }
    None
}

fn is_marked(obj: &FSObj) -> bool {
    match obj {
        FSObj::Dir(o) => o.is_marked,
        FSObj::DirRef(o) => o.is_marked,
        FSObj::File(o) => o.is_marked,
        FSObj::SymLink(o) => o.is_marked,
    }
}

fn percent(obj: &FSObj) -> u8 {
    match obj {
        FSObj::Dir(o) => o.percent,
        FSObj::DirRef(o) => o.percent,
        FSObj::File(o) => o.percent,
        FSObj::SymLink(o) => o.percent,
    }
}

fn whole_tree(actor: &DirpActor, root: &str) -> Dir {
    dirp::tree::build_result_tree(&root.to_string(), true, &actor.dirp_state)
}

fn all_marks(obj: &FSObj, marks: &mut Vec<(String, bool)>) {
    match obj {
        FSObj::Dir(o) => {
            marks.push((o.path.clone(), o.is_marked));
            for child in o.dir_obj_list.iter() {
                all_marks(child, marks);
            }
        }
        FSObj::DirRef(o) => marks.push((o.path.clone(), o.is_marked)),
        FSObj::File(o) => marks.push((o.path.clone(), o.is_marked)),
        FSObj::SymLink(o) => marks.push((o.path.clone(), o.is_marked)),
    }
}

#[test]
fn root_size_is_the_sum_of_all_files() {
    let mut actor = profiled("/T");
    let tree = snapshot(&mut actor);
    assert_eq!(tree.path, "/T");
    assert_eq!(tree.size_in_bytes, 3730);
    assert_eq!(tree.percent, 100);
    assert!(tree.is_open);
    assert_eq!(tree.dir_obj_list.len(), 3);
}

#[test]
fn every_directory_has_the_size_of_its_subtree() {
    let actor = profiled("/T");
    let state = &actor.dirp_state;
    assert_eq!(state.get_dir_ref_by_path(&"/T".to_string()).size_in_bytes, 3730);
    assert_eq!(state.get_dir_ref_by_path(&"/T/a".to_string()).size_in_bytes, 3030);
    assert_eq!(state.get_dir_ref_by_path(&"/T/e".to_string()).size_in_bytes, 700);
    assert_eq!(state.get_dir_ref_by_path(&"/T/e/f".to_string()).size_in_bytes, 500);
}

#[test]
fn sizes_do_not_depend_on_the_order_of_sibling_scans() {
    let root = "/T";
    let (mut actor, first) = DirpActor::start(root.to_string());
    let mut queue = vec![first];
    while !queue.is_empty() {
        let request = queue.remove(0);
        let entries = entries_of(root, &request.path);
        let result = scan_result(request.path.clone(), request.is_open, &entries, false);
        if let Effect::Scan(more) = actor.dirp_state_step(DirpStateMessage::DirScanMessage(result))
        {
            queue.extend(more);
        }
    }
    let state = &actor.dirp_state;
    assert_eq!(state.get_dir_ref_by_path(&"/T".to_string()).size_in_bytes, 3730);
    assert_eq!(state.get_dir_ref_by_path(&"/T/e".to_string()).size_in_bytes, 700);
}

#[test]
fn a_relative_root_is_profiled_like_an_absolute_one() {
    let mut actor = profiled("./test");
    let tree = snapshot(&mut actor);
    assert_eq!(tree.path, "./test");
    assert_eq!(tree.size_in_bytes, 3730);
    let state = &actor.dirp_state;
    assert_eq!(state.get_dir_ref_by_path(&"./test/e/f".to_string()).size_in_bytes, 500);
    assert!(!state.path_exists(&".".to_string()));
}

#[test]
fn an_open_directory_shows_its_files_with_their_shares() {
    let mut actor = profiled("/T");
    let _ = snapshot(&mut actor);
    send(&mut actor, DirpStateMessage::OpenDir("/T/a".to_string()));
    let tree = snapshot(&mut actor);
    let a = match find(&tree, "/T/a") {
        Some(FSObj::Dir(a)) => a,
        other => panic!("/T/a is {:?}", other),
    };
    assert!(a.is_open);
    assert_eq!(a.percent, 81);
    assert_eq!(a.dir_obj_list.len(), 3);
    for child in a.dir_obj_list.iter() {
        match child {
            FSObj::File(f) => {
                assert_eq!(f.size_in_bytes, 1010);
                assert_eq!(f.percent, 27);
            }
            other => panic!("a child of /T/a is {:?}", other),
        }
    }
    let e = match find(&tree, "/T/e") {
        Some(FSObj::Dir(e)) => e,
        other => panic!("/T/e is {:?}", other),
    };
    assert!(!e.is_open);
    assert_eq!(e.percent, 19);
    assert!(e.dir_obj_list.is_empty());
}

#[test]
fn a_deep_mark_marks_everything_below() {
    let mut actor = profiled("/T");
    send(&mut actor, DirpStateMessage::OpenDir("/T/e".to_string()));
    send(&mut actor, DirpStateMessage::OpenDir("/T/e/f".to_string()));
    send(&mut actor, DirpStateMessage::MarkPath("/T/e".to_string()));
    let tree = snapshot(&mut actor);
    assert!(is_marked(find(&tree, "/T/e").unwrap()));
    assert!(is_marked(find(&tree, "/T/e/f").unwrap()));
    assert!(is_marked(find(&tree, "/T/e/f/g.txt").unwrap()));
    assert!(is_marked(find(&tree, "/T/e/h.txt").unwrap()));
    assert!(!is_marked(find(&tree, "/T/a").unwrap()));
    assert!(!is_marked(find(&tree, "/T/link").unwrap()));
    assert!(!tree.is_marked);
}

#[test]
fn an_unmark_clears_what_the_mark_has_set() {
    let mut actor = profiled("/T");
    send(&mut actor, DirpStateMessage::MarkPath("/T".to_string()));
    let mut marks = Vec::new();
    all_marks(&FSObj::Dir(whole_tree(&actor, "/T")), &mut marks);
    assert_eq!(marks.len(), 10);
    assert!(marks.iter().all(|(_, marked)| *marked));
    send(&mut actor, DirpStateMessage::UnmarkPath("/T/e".to_string()));
    let mut marks = Vec::new();
    all_marks(&FSObj::Dir(whole_tree(&actor, "/T")), &mut marks);
    for (path, marked) in marks.iter() {
        assert_eq!(*marked, !path.starts_with("/T/e"), "{}", path);
    }
}

#[test]
fn toggling_a_mark_twice_leaves_nothing_marked() {
    let mut actor = profiled("/T");
    send(&mut actor, DirpStateMessage::ToggleMarkPath("/T/e".to_string()));
    let mut marks = Vec::new();
    all_marks(&FSObj::Dir(whole_tree(&actor, "/T")), &mut marks);
    assert!(marks.iter().any(|(_, marked)| *marked));
    send(&mut actor, DirpStateMessage::ToggleMarkPath("/T/e".to_string()));
    let mut marks = Vec::new();
    all_marks(&FSObj::Dir(whole_tree(&actor, "/T")), &mut marks);
    assert!(marks.iter().all(|(_, marked)| !*marked));
}

#[test]
fn marking_a_link_marks_the_link_only() {
    let mut actor = profiled("/T");
    send(&mut actor, DirpStateMessage::MarkPath("/T/link".to_string()));
    let mut marks = Vec::new();
    all_marks(&FSObj::Dir(whole_tree(&actor, "/T")), &mut marks);
    for (path, marked) in marks.iter() {
        assert_eq!(*marked, path == "/T/link", "{}", path);
    }
}

#[test]
fn a_marked_directory_stands_for_what_is_marked_below_it() {
    let mut actor = profiled("/T");
    send(&mut actor, DirpStateMessage::MarkPath("/T/a/1.txt".to_string()));
    send(&mut actor, DirpStateMessage::MarkPath("/T/a".to_string()));
    let effect = actor.dirp_state_step(DirpStateMessage::RemoveMarked);
    assert!(effect.ends_loop());
    assert_eq!(effect, Effect::RemoveMarked(vec!["/T/a".to_string()]));
}

#[test]
fn marked_paths_come_sorted() {
    let mut actor = profiled("/T");
    send(&mut actor, DirpStateMessage::MarkPath("/T/link".to_string()));
    send(&mut actor, DirpStateMessage::MarkPath("/T/e/h.txt".to_string()));
    send(&mut actor, DirpStateMessage::MarkPath("/T/e/f".to_string()));
    send(&mut actor, DirpStateMessage::MarkPath("/T/a/2.txt".to_string()));
    let effect = actor.dirp_state_step(DirpStateMessage::RemoveMarked);
    assert_eq!(
        effect,
        Effect::RemoveMarked(vec![
            "/T/a/2.txt".to_string(),
            "/T/e/f".to_string(),
            "/T/e/h.txt".to_string(),
            "/T/link".to_string(),
        ])
    );
}

#[test]
fn marking_twice_is_marking_once() {
    let mut once = profiled("/T");
    send(&mut once, DirpStateMessage::MarkPath("/T/e".to_string()));
    let mut twice = profiled("/T");
    send(&mut twice, DirpStateMessage::MarkPath("/T/e".to_string()));
    send(&mut twice, DirpStateMessage::MarkPath("/T/e".to_string()));
    assert_eq!(whole_tree(&once, "/T"), whole_tree(&twice, "/T"));
}

#[test]
fn toggling_a_directory_twice_leaves_it_as_it_was() {
    let mut actor = profiled("/T");
    let before = snapshot(&mut actor);
    send(&mut actor, DirpStateMessage::ToggleDir("/T/a".to_string()));
    assert!(actor.dirp_state.get_dir_ref_by_path(&"/T/a".to_string()).is_open);
    send(&mut actor, DirpStateMessage::ToggleDir("/T/a".to_string()));
    assert!(!actor.dirp_state.get_dir_ref_by_path(&"/T/a".to_string()).is_open);
    assert_eq!(snapshot(&mut actor), before);
}

#[test]
fn every_share_is_at_most_a_hundred() {
    let actor = profiled("/T");
    let tree = whole_tree(&actor, "/T");
    assert_eq!(tree.percent, 100);
    let mut stack = vec![FSObj::Dir(tree)];
    let mut seen = 0;
    while let Some(obj) = stack.pop() {
        assert!(percent(&obj) <= 100);
        seen += 1;
        if let FSObj::Dir(d) = obj {
            stack.extend(d.dir_obj_list);
        }
    }
    assert_eq!(seen, 10);
}

#[test]
fn a_burst_of_scans_is_published_once() {
    let (mut actor, first) = DirpActor::start("/T".to_string());
    assert_eq!(actor.dirp_state_step(DirpStateMessage::Timer), Effect::Nothing);
    settle("/T", &mut actor, first);
    assert!(actor.is_state_dirty);
    assert!(matches!(actor.dirp_state_step(DirpStateMessage::Timer), Effect::Publish(_)));
    assert!(!actor.is_state_dirty);
    assert_eq!(actor.dirp_state_step(DirpStateMessage::Timer), Effect::Nothing);
}

#[test]
fn scans_are_asked_for_closed_and_in_the_order_of_the_listing() {
    let (mut actor, first) = DirpActor::start("/T".to_string());
    let result = scan_result(first.path.clone(), first.is_open, &entries_of("/T", "/T"), false);
    let effect = actor.dirp_state_step(DirpStateMessage::DirScanMessage(result));
    assert!(!effect.ends_loop());
    assert_eq!(
        effect,
        Effect::Scan(vec![
            ScanRequest { path: "/T/a".to_string(), is_open: false },
            ScanRequest { path: "/T/e".to_string(), is_open: false },
        ])
    );
}

#[test]
fn quit_stops_the_loop_and_changes_nothing() {
    let mut actor = profiled("/T");
    let before = whole_tree(&actor, "/T");
    let effect = actor.dirp_state_step(DirpStateMessage::Quit);
    assert_eq!(effect, Effect::Quit);
    assert!(effect.ends_loop());
    assert_eq!(whole_tree(&actor, "/T"), before);
}

#[test]
fn a_mark_of_an_unknown_path_changes_nothing() {
    let mut actor = profiled("/T");
    let before = whole_tree(&actor, "/T");
    send(&mut actor, DirpStateMessage::MarkPath("/T/none".to_string()));
    send(&mut actor, DirpStateMessage::MarkPath("/elsewhere/x".to_string()));
    send(&mut actor, DirpStateMessage::MarkPath("".to_string()));
    assert_eq!(whole_tree(&actor, "/T"), before);
    let _ = snapshot(&mut actor);
    send(&mut actor, DirpStateMessage::ToggleMarkPath("/T/none".to_string()));
    assert!(!actor.is_state_dirty);
    send(&mut actor, DirpStateMessage::OpenDir("/T/none".to_string()));
    send(&mut actor, DirpStateMessage::CloseDir("/T/a/1.txt".to_string()));
    send(&mut actor, DirpStateMessage::ToggleDir("/T/link".to_string()));
    assert!(!actor.is_state_dirty);
    assert_eq!(whole_tree(&actor, "/T"), before);
}

#[test]
fn a_directory_that_is_still_being_scanned_is_shown_empty() {
    let (mut actor, first) = DirpActor::start("/T".to_string());
    let result = scan_result(first.path.clone(), first.is_open, &entries_of("/T", "/T"), false);
    let _ = actor.dirp_state_step(DirpStateMessage::DirScanMessage(result));
    let tree = snapshot(&mut actor);
    assert_eq!(tree.size_in_bytes, 0);
    assert_eq!(tree.percent, 0);
    assert_eq!(
        find(&tree, "/T/a"),
        Some(&FSObj::Dir(Dir {
            path: "/T/a".to_string(),
            size_in_bytes: 0,
            percent: 0,
            is_marked: false,
            is_open: false,
            dir_obj_list: Vec::new(),
        }))
    );
    send(&mut actor, DirpStateMessage::MarkPath("/T/a".to_string()));
    assert!(!is_marked(find(&whole_tree(&actor, "/T"), "/T/a").unwrap()));
}

#[test]
fn a_tree_without_its_root_is_a_stub() {
    let (mut actor, _first) = DirpActor::start("/T".to_string());
    send(&mut actor, DirpStateMessage::MarkPath("/T".to_string()));
    assert!(actor.is_state_dirty);
    let tree = snapshot(&mut actor);
    assert_eq!(
        tree,
        Dir {
            path: "/T".to_string(),
            size_in_bytes: 0,
            percent: 0,
            is_marked: false,
            is_open: false,
            dir_obj_list: Vec::new(),
        }
    );
}

#[test]
fn a_second_scan_keeps_what_the_user_has_set() {
    let mut actor = profiled("/T");
    send(&mut actor, DirpStateMessage::OpenDir("/T/e/f".to_string()));
    send(&mut actor, DirpStateMessage::MarkPath("/T/e/f".to_string()));
    let again = scan_result(
        "/T/e/f".to_string(),
        false,
        &vec![file("/T/e/f/g.txt", 500), file("/T/e/f/new.txt", 40)],
        false,
    );
    let effect = actor.dirp_state_step(DirpStateMessage::DirScanMessage(again));
    assert_eq!(effect, Effect::Scan(Vec::new()));
    let f = actor.dirp_state.get_dir_ref_by_path(&"/T/e/f".to_string());
    assert!(f.is_open);
    assert!(f.is_marked);
    assert_eq!(f.size_in_bytes, 540);
    assert_eq!(f.dir_obj_list.len(), 2);
}

#[test]
fn a_scan_result_that_is_not_well_formed_is_ignored() {
    let mut actor = profiled("/T");
    let before = whole_tree(&actor, "/T");
    let _ = snapshot(&mut actor);
    let stray = scan_result("/T/a".to_string(), false, &vec![file("/T/e/x.txt", 5)], false);
    assert_eq!(actor.dirp_state_step(DirpStateMessage::DirScanMessage(stray)), Effect::Nothing);
    let nested = Dir {
        path: "/T/a".to_string(),
        size_in_bytes: 0,
        percent: 0,
        is_marked: false,
        is_open: false,
        dir_obj_list: vec![FSObj::Dir(Dir {
            path: "/T/a/b".to_string(),
            size_in_bytes: 0,
            percent: 0,
            is_marked: false,
            is_open: false,
            dir_obj_list: Vec::new(),
        })],
    };
    assert_eq!(actor.dirp_state_step(DirpStateMessage::DirScanMessage(nested)), Effect::Nothing);
    let twice = scan_result(
        "/T/a".to_string(),
        false,
        &vec![file("/T/a/1.txt", 1), file("/T/a/1.txt", 1)],
        false,
    );
    assert_eq!(actor.dirp_state_step(DirpStateMessage::DirScanMessage(twice)), Effect::Nothing);
    assert!(!actor.is_state_dirty);
    assert_eq!(whole_tree(&actor, "/T"), before);
}

#[test]
fn nothing_is_removed_twice() {
    let mut actor = profiled("/T");
    send(&mut actor, DirpStateMessage::MarkPath("/T/e/f/g.txt".to_string()));
    send(&mut actor, DirpStateMessage::MarkPath("/T/e/h.txt".to_string()));
    send(&mut actor, DirpStateMessage::MarkPath("/T/e/f".to_string()));
    send(&mut actor, DirpStateMessage::MarkPath("/T/a".to_string()));
    send(&mut actor, DirpStateMessage::UnmarkPath("/T/a/2.txt".to_string()));
    let effect = actor.dirp_state_step(DirpStateMessage::RemoveMarked);
    assert_eq!(
        effect,
        Effect::RemoveMarked(vec![
            "/T/a".to_string(),
            "/T/e/f".to_string(),
            "/T/e/h.txt".to_string(),
        ])
    );
    send(&mut actor, DirpStateMessage::MarkPath("/T".to_string()));
    let effect = actor.dirp_state_step(DirpStateMessage::RemoveMarked);
    assert_eq!(effect, Effect::RemoveMarked(vec!["/T".to_string()]));
}

#[test]
fn a_scan_result_whose_sizes_do_not_fit_is_ignored() {
    let mut actor = profiled("/T");
    let before = whole_tree(&actor, "/T");
    let huge = scan_result(
        "/T/e/f".to_string(),
        false,
        &vec![file("/T/e/f/g.txt", u64::MAX - 3729)],
        false,
    );
    assert_eq!(actor.dirp_state_step(DirpStateMessage::DirScanMessage(huge)), Effect::Nothing);
    assert_eq!(whole_tree(&actor, "/T"), before);
    let two = scan_result(
        "/elsewhere".to_string(),
        false,
        &vec![file("/elsewhere/a", u64::MAX), file("/elsewhere/b", 1)],
        false,
    );
    assert_eq!(actor.dirp_state_step(DirpStateMessage::DirScanMessage(two)), Effect::Nothing);
    let fits = scan_result(
        "/T/e/f/late".to_string(),
        false,
        &vec![file("/T/e/f/late/g", u64::MAX - 3730)],
        false,
    );
    assert_eq!(
        actor.dirp_state_step(DirpStateMessage::DirScanMessage(fits)),
        Effect::Scan(Vec::new())
    );
    assert_eq!(actor.dirp_state.get_dir_ref_by_path(&"/T".to_string()).size_in_bytes, u64::MAX);
}

#[test]
fn a_scan_whose_parent_is_unknown_is_installed() {
    let (mut actor, _first) = DirpActor::start("/T".to_string());
    let result = scan_result("/T/e/f".to_string(), false, &entries_of("/T", "/T/e/f"), false);
    assert_eq!(
        actor.dirp_state_step(DirpStateMessage::DirScanMessage(result)),
        Effect::Scan(Vec::new())
    );
    assert_eq!(actor.dirp_state.get_dir_ref_by_path(&"/T/e/f".to_string()).size_in_bytes, 500);
    assert!(!actor.dirp_state.path_exists(&"/T/e".to_string()));
}

#[test]
fn the_rows_of_a_snapshot_are_sorted_by_size() {
    let mut actor = profiled("/T");
    send(&mut actor, DirpStateMessage::OpenDir("/T/e".to_string()));
    let tree = snapshot(&mut actor);
    let mut rows: Vec<IntermediateState> = Vec::new();
    assert_eq!(dirp_state_to_i_state(&FSObj::Dir(tree), 1, &mut rows), Some(()));
    let texts: Vec<Vec<String>> = rows.iter().map(|r| r.ui_row.clone()).collect();
    let row = |a: &str, b: &str, c: &str| vec![a.to_string(), b.to_string(), c.to_string()];
    assert_eq!(
        texts,
        vec![
            row("\u{23f7} T", "100%", "3.73 KB"),
            row(" \u{23f5} a", "81%", "3.03 KB"),
            row(" \u{23f7} e", "19%", "700 bytes"),
            row("  \u{23f5} f", "13%", "500 bytes"),
            row("    h.txt", "5%", "200 bytes"),
            row("   link", "0%", "0 bytes"),
        ]
    );
    let paths: Vec<&str> = rows.iter().map(|r| r.path.as_str()).collect();
    assert_eq!(paths, vec!["/T", "/T/a", "/T/e", "/T/e/f", "/T/e/h.txt", "/T/link"]);
    assert!(rows.iter().all(|r| !r.is_marked));
}

struct Made {
    path: String,
    files: Vec<u64>,
    dirs: Vec<Made>,
}

fn next_random(x: &mut u64) -> u64 {
    *x = x.wrapping_mul(6364136223846793005).wrapping_add(1442695040888963407);
    *x >> 33
}

fn make_tree(path: String, depth: u32, x: &mut u64) -> Made {
    let mut files = Vec::new();
    for _ in 0..next_random(x) % 5 {
        files.push(next_random(x) % 100_000);
    }
    let mut dirs = Vec::new();
    if depth > 0 {
        for i in 0..next_random(x) % 4 {
            dirs.push(make_tree(format!("{}/d{}", path, i), depth - 1, x));
        }
    }
    Made { path, files, dirs }
}

fn lookup<'a>(tree: &'a Made, path: &str) -> Option<&'a Made> {
    if tree.path == path {
        return Some(tree);
    }
    tree.dirs.iter().find_map(|d| lookup(d, path))
}

fn total(tree: &Made) -> u64 {
    tree.files.iter().sum::<u64>() + tree.dirs.iter().map(total).sum::<u64>()
}

fn compare_sizes(tree: &Made, actor: &DirpActor) -> usize {
    let dir = actor.dirp_state.get_dir_ref_by_path(&tree.path);
    assert_eq!(dir.size_in_bytes, total(tree), "{}", tree.path);
    1 + tree.dirs.iter().map(|d| compare_sizes(d, actor)).sum::<usize>()
}

#[test]
fn sizes_of_made_up_trees_are_the_sums_of_their_files() {
    let mut x: u64 = 2024;
    for round in 0..40 {
        let tree = make_tree("/R".to_string(), 4, &mut x);
        let (mut actor, first) = DirpActor::start("/R".to_string());
        let mut queue = vec![first];
        let mut scanned = 0;
        while !queue.is_empty() {
            let pick = (next_random(&mut x) as usize) % queue.len();
            let request = queue.swap_remove(pick);
            let made = lookup(&tree, &request.path).unwrap();
            let mut entries = Vec::new();
            for (i, size) in made.files.iter().enumerate() {
                entries.push(file(&format!("{}/f{}", made.path, i), *size));
            }
            for d in made.dirs.iter() {
                entries.push(dir(&d.path));
            }
            let result = scan_result(request.path.clone(), request.is_open, &entries, false);
            match actor.dirp_state_step(DirpStateMessage::DirScanMessage(result)) {
                Effect::Scan(more) => queue.extend(more),
                other => panic!("round {}: a scan result gave {:?}", round, other),
            }
            scanned += 1;
        }
        assert_eq!(compare_sizes(&tree, &actor), scanned);
        let published = whole_tree(&actor, "/R");
        assert_eq!(published.size_in_bytes, total(&tree));
    }
}

#[test]
fn random_commands_agree_with_a_plain_model() {
    let dirs = ["/T", "/T/a", "/T/e", "/T/e/f"];
    let leaves = ["/T/a/1.txt", "/T/a/2.txt", "/T/a/3.txt", "/T/e/f/g.txt", "/T/e/h.txt", "/T/link"];
    let unknown = ["/T/none", "/", "", "/T/a/1.txt/x", "/U"];
    let mut targets: Vec<&str> = Vec::new();
    targets.extend(dirs.iter());
    targets.extend(leaves.iter());
    targets.extend(unknown.iter());
    let mut x: u64 = 77;
    for _ in 0..30 {
        let mut actor = profiled("/T");
        let mut marked: Vec<(String, bool)> = Vec::new();
        let mut open: Vec<(String, bool)> = Vec::new();
        for d in dirs.iter() {
            marked.push((d.to_string(), false));
            open.push((d.to_string(), *d == "/T"));
        }
        for l in leaves.iter() {
            marked.push((l.to_string(), false));
        }
        for _ in 0..40 {
            let target = targets[(next_random(&mut x) as usize) % targets.len()].to_string();
            let is_dir = dirs.contains(&target.as_str());
            let known = is_dir || leaves.contains(&target.as_str());
            let below = |p: &str| p == target || (is_dir && p.starts_with(&format!("{}/", target)));
            let now = marked.iter().find(|(p, _)| *p == target).map(|(_, m)| *m);
            let choice = next_random(&mut x) % 6;
            let mut set_marks = |value: bool| {
                if known {
                    for (p, m) in marked.iter_mut() {
                        if below(p) {
                            *m = value;
                        }
                    }
                }
            };
            let message = match choice {
                0 => {
                    set_marks(true);
                    DirpStateMessage::MarkPath(target.clone())
                }
                1 => {
                    set_marks(false);
                    DirpStateMessage::UnmarkPath(target.clone())
                }
                2 => {
                    if let Some(m) = now {
                        set_marks(!m);
                    }
                    DirpStateMessage::ToggleMarkPath(target.clone())
                }
                3 => {
                    for (p, o) in open.iter_mut() {
                        if *p == target {
                            *o = true;
                        }
                    }
                    DirpStateMessage::OpenDir(target.clone())
                }
                4 => {
                    for (p, o) in open.iter_mut() {
                        if *p == target {
                            *o = false;
                        }
                    }
                    DirpStateMessage::CloseDir(target.clone())
                }
                _ => {
                    for (p, o) in open.iter_mut() {
                        if *p == target {
                            *o = !*o;
                        }
                    }
                    DirpStateMessage::ToggleDir(target.clone())
                }
            };
            send(&mut actor, message);
            let whole = whole_tree(&actor, "/T");
            let mut marks = Vec::new();
            all_marks(&FSObj::Dir(whole), &mut marks);
            marks.sort();
            let mut expected = marked.clone();
            expected.sort();
            assert_eq!(marks, expected);
            for (p, o) in open.iter() {
                assert_eq!(actor.dirp_state.get_dir_ref_by_path(p).is_open, *o, "{}", p);
            }
            let state = &actor.dirp_state;
            assert_eq!(state.get_dir_ref_by_path(&"/T".to_string()).size_in_bytes, 3730);
        }
    }
}
