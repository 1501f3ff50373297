use dirp::actor::DirpStateMessage;
use dirp::rows::{
    dirp_state_to_i_state, i_state_to_app_state, size_order, AppRow, IntermediateState,
};
use dirp::types::{Dir, DirRef, FSObj, File, SymLink};
use dirp::ui::{
    ends_input, key_message, App, GetStateResponse, Key, UiAction, UiState, UserMessage,
};

fn file(path: &str, size: u64) -> FSObj {
    FSObj::File(File { path: path.to_string(), size_in_bytes: size, percent: 7, is_marked: false })
}

fn dir(path: &str, size: u64, open: bool, list: Vec<FSObj>) -> Dir {
    Dir {
        path: path.to_string(),
        size_in_bytes: size,
        percent: 50,
        is_marked: false,
        is_open: open,
        dir_obj_list: list,
    }
}

fn texts(rows: &Vec<IntermediateState>) -> Vec<String> {
    rows.iter().map(|r| r.ui_row[0].clone()).collect()
}

#[test]
fn size_order_is_descending_and_stable() {
    let list = vec![
        file("/T/a", 5),
        file("/T/b", 9),
        file("/T/c", 5),
        file("/T/d", 0),
        file("/T/e", 9),
        file("/T/f", 5),
    ];
    assert_eq!(size_order(&list), vec![1, 4, 0, 2, 5, 3]);
    assert_eq!(size_order(&Vec::new()), Vec::<usize>::new());
    let equal = vec![file("/T/a", 1), file("/T/b", 1), file("/T/c", 1)];
    assert_eq!(size_order(&equal), vec![0, 1, 2]);
}

#[test]
fn size_order_agrees_with_a_stable_sort() {
    let mut x: u32 = 99;
    let mut list = Vec::new();
    for i in 0..200 {
        x = x.wrapping_mul(1664525).wrapping_add(1013904223);
        list.push(file(&format!("/T/{}", i), (x >> 28) as u64));
    }
    let mut expected: Vec<usize> = (0..list.len()).collect();
    let size = |i: usize| match &list[i] {
        FSObj::File(f) => f.size_in_bytes,
        _ => 0,
    };
    expected.sort_by(|a, b| size(*b).cmp(&size(*a)));
    assert_eq!(size_order(&list), expected);
}

#[test]
fn rows_show_each_kind_with_its_sign() {
    let tree = FSObj::Dir(dir(
        "/T",
        1000,
        true,
        vec![
            FSObj::SymLink(SymLink {
                path: "/T/l".to_string(),
                size_in_bytes: 0,
                percent: 0,
                is_marked: true,
            }),
            FSObj::DirRef(DirRef {
                path: "/T/r".to_string(),
                is_open: false,
                size_in_bytes: 3,
                percent: 1,
                is_marked: false,
            }),
            FSObj::Dir(dir("/T/d", 1_500_000, false, vec![file("/T/d/x", 2)])),
            file("/T/f", 999),
        ],
    ));
    let mut rows = Vec::new();
    assert_eq!(dirp_state_to_i_state(&tree, 1, &mut rows), Some(()));
    let all: Vec<(Vec<String>, bool, String)> =
        rows.iter().map(|r| (r.ui_row.clone(), r.is_marked, r.path.clone())).collect();
    let row = |a: &str, b: &str, c: &str, marked: bool, path: &str| {
        (vec![a.to_string(), b.to_string(), c.to_string()], marked, path.to_string())
    };
    assert_eq!(
        all,
        vec![
            row("\u{23f7} T", "50%", "1.00 KB", false, "/T"),
            row(" \u{23f5} d", "50%", "1.50 MB", false, "/T/d"),
            row("    x", "7%", "2 bytes", false, "/T/d/x"),
            row("   f", "7%", "999 bytes", false, "/T/f"),
            row(" > r", "1%", "3 bytes", false, "/T/r"),
            row("   l", "0%", "0 bytes", true, "/T/l"),
        ]
    );
}

#[test]
fn rows_are_added_behind_those_that_are_there() {
    let mut rows = Vec::new();
    let _ = dirp_state_to_i_state(&file("/T/a", 1), 1, &mut rows);
    let _ = dirp_state_to_i_state(&file("/T/b", 1), 4, &mut rows);
    assert_eq!(texts(&rows), vec!["  a", "     b"]);
}

#[test]
fn a_node_without_a_name_has_no_row_and_hides_what_is_below() {
    let mut rows = Vec::new();
    let nameless = FSObj::Dir(dir("..", 10, true, vec![file("../x", 10)]));
    assert_eq!(dirp_state_to_i_state(&nameless, 1, &mut rows), None);
    assert!(rows.is_empty());
    let holds = FSObj::Dir(dir(
        "/T",
        10,
        true,
        vec![FSObj::Dir(dir("/T/..", 9, true, vec![file("/x", 9)])), file("/T/y", 1)],
    ));
    assert_eq!(dirp_state_to_i_state(&holds, 1, &mut rows), Some(()));
    assert_eq!(texts(&rows), vec!["\u{23f7} T", "   y"]);
    let mut rows = Vec::new();
    let root = FSObj::Dir(dir("/", 10, false, Vec::new()));
    assert_eq!(dirp_state_to_i_state(&root, 1, &mut rows), Some(()));
    assert_eq!(texts(&rows), vec!["\u{23f5} /"]);
}

#[test]
fn levels_end_at_the_largest_number() {
    let mut rows = Vec::new();
    let tree = FSObj::Dir(dir("/T", 1, true, vec![file("/T/x", 1)]));
    let _ = dirp_state_to_i_state(&tree, 0, &mut rows);
    assert_eq!(texts(&rows), vec!["\u{23f7} T", "  x"]);
}

#[test]
fn app_rows_borrow_the_three_texts() {
    let rows = vec![
        IntermediateState {
            ui_row: vec!["a".to_string(), "1%".to_string(), "2 bytes".to_string()],
            is_marked: true,
            path: "/T/a".to_string(),
        },
        IntermediateState {
            ui_row: vec!["b".to_string(), "0%".to_string(), "0 bytes".to_string(), "x".to_string()],
            is_marked: false,
            path: "/T/b".to_string(),
        },
    ];
    assert_eq!(
        i_state_to_app_state(&rows),
        vec![
            AppRow { display_data: vec!["a", "1%", "2 bytes"], is_marked: true },
            AppRow { display_data: vec!["b", "0%", "0 bytes"], is_marked: false },
        ]
    );
    assert!(i_state_to_app_state(&Vec::new()).is_empty());
}

#[test]
fn app_selection_stays_within_the_table() {
    let rows = vec![
        AppRow { display_data: vec!["a", "", ""], is_marked: false },
        AppRow { display_data: vec!["b", "", ""], is_marked: false },
        AppRow { display_data: vec!["c", "", ""], is_marked: false },
    ];
    let mut app = App::new("/T".to_string(), rows);
    assert_eq!(app.path, "/T");
    assert_eq!(app.items().len(), 3);
    assert_eq!(app.selection_of(), None);
    app.next();
    assert_eq!(app.selected(), 0);
    app.next();
    assert_eq!(app.selected(), 1);
    app.next();
    app.next();
    assert_eq!(app.selected(), 2);
    app.previous();
    assert_eq!(app.selected(), 1);
    app.previous();
    app.previous();
    assert_eq!(app.selected(), 0);
    app.set_selected(2);
    assert_eq!(app.selection_of(), Some(2));
    let mut fresh = App::new("/T".to_string(), Vec::new());
    fresh.previous();
    assert_eq!(fresh.selected(), 0);
}

#[test]
fn keys_stand_for_messages() {
    assert_eq!(key_message(Key::Down), Some(UserMessage::Next));
    assert_eq!(key_message(Key::Up), Some(UserMessage::Previous));
    assert_eq!(key_message(Key::Left), Some(UserMessage::CloseDir));
    assert_eq!(key_message(Key::Right), Some(UserMessage::OpenDir));
    assert_eq!(key_message(Key::Delete), Some(UserMessage::ToggleMarkPath));
    assert_eq!(key_message(Key::Backspace), Some(UserMessage::ToggleMarkPath));
    assert_eq!(key_message(Key::Char('p')), Some(UserMessage::Previous));
    assert_eq!(key_message(Key::Char('n')), Some(UserMessage::Next));
    assert_eq!(key_message(Key::Char('f')), Some(UserMessage::ToggleDir));
    assert_eq!(key_message(Key::Char('d')), Some(UserMessage::MarkPath));
    assert_eq!(key_message(Key::Char('u')), Some(UserMessage::UnmarkPath));
    assert_eq!(key_message(Key::Char('x')), Some(UserMessage::RemoveMarked));
    assert_eq!(key_message(Key::Char('q')), Some(UserMessage::Quit));
    assert_eq!(key_message(Key::Char('Q')), None);
    assert_eq!(key_message(Key::Char(' ')), None);
    assert_eq!(key_message(Key::Other), None);
    assert!(ends_input(&UserMessage::RemoveMarked));
    assert!(ends_input(&UserMessage::Quit));
    assert!(!ends_input(&UserMessage::Next));
    assert!(!ends_input(&UserMessage::MarkPath));
}

fn shown(state: &mut UiState) {
    let tree = dir("/T", 10, true, vec![file("/T/big", 8), file("/T/small", 2)]);
    let action = state.ui_step(UserMessage::GetStateResponse(GetStateResponse { dirp_state: tree }));
    assert_eq!(action, UiAction::Redraw);
}

#[test]
fn the_front_end_moves_the_selection_within_the_rows() {
    let mut state = UiState::new();
    assert_eq!(state.ui_step(UserMessage::Next), UiAction::Redraw);
    assert_eq!(state.selected, 0);
    assert_eq!(state.ui_step(UserMessage::Previous), UiAction::Redraw);
    assert_eq!(state.selected, 0);
    shown(&mut state);
    assert_eq!(state.rows.len(), 3);
    assert_eq!(state.selected, 0);
    assert_eq!(state.ui_step(UserMessage::Next), UiAction::Redraw);
    assert_eq!(state.ui_step(UserMessage::Next), UiAction::Redraw);
    assert_eq!(state.selected, 2);
    assert_eq!(state.ui_step(UserMessage::Next), UiAction::Redraw);
    assert_eq!(state.selected, 2);
    assert_eq!(state.ui_step(UserMessage::Previous), UiAction::Redraw);
    assert_eq!(state.selected, 1);
    shown(&mut state);
    assert_eq!(state.selected, 1);
}

#[test]
fn the_front_end_sends_the_path_of_the_selected_row() {
    let mut state = UiState::new();
    assert_eq!(state.ui_step(UserMessage::OpenDir), UiAction::Redraw);
    assert_eq!(state.ui_step(UserMessage::MarkPath), UiAction::Redraw);
    shown(&mut state);
    let _ = state.ui_step(UserMessage::Next);
    let big = || "/T/big".to_string();
    assert_eq!(state.ui_step(UserMessage::OpenDir), UiAction::Send(DirpStateMessage::OpenDir(big())));
    assert_eq!(
        state.ui_step(UserMessage::CloseDir),
        UiAction::Send(DirpStateMessage::CloseDir(big()))
    );
    assert_eq!(
        state.ui_step(UserMessage::ToggleDir),
        UiAction::Send(DirpStateMessage::ToggleDir(big()))
    );
    assert_eq!(
        state.ui_step(UserMessage::MarkPath),
        UiAction::Send(DirpStateMessage::MarkPath(big()))
    );
    assert_eq!(
        state.ui_step(UserMessage::UnmarkPath),
        UiAction::Send(DirpStateMessage::UnmarkPath(big()))
    );
    assert_eq!(
        state.ui_step(UserMessage::ToggleMarkPath),
        UiAction::Send(DirpStateMessage::ToggleMarkPath(big()))
    );
    assert_eq!(state.selected, 1);
    assert_eq!(state.rows.len(), 3);
    state.selected = 7;
    assert_eq!(state.ui_step(UserMessage::MarkPath), UiAction::Redraw);
}

#[test]
fn the_front_end_leaves_on_quit_and_on_remove() {
    let mut state = UiState::new();
    shown(&mut state);
    assert_eq!(state.ui_step(UserMessage::Quit), UiAction::Exit { remove_marked: false });
    assert_eq!(state.ui_step(UserMessage::RemoveMarked), UiAction::Exit { remove_marked: true });
    assert_eq!(state.rows.len(), 3);
}

#[test]
fn row_height_counts_the_lines_of_the_tallest_cell() {
    let plain = AppRow { display_data: vec!["a", "1%", "2 bytes"], is_marked: false };
    assert_eq!(dirp::rows::row_height(&plain), 1);
    let tall = AppRow { display_data: vec!["a\nb", "\n\n\n", ""], is_marked: false };
    assert_eq!(dirp::rows::row_height(&tall), 4);
    let empty = AppRow { display_data: Vec::new(), is_marked: false };
    assert_eq!(dirp::rows::row_height(&empty), 1);
    let long = "\n".repeat(65535);
    let wrapped = AppRow { display_data: vec![long.as_str()], is_marked: false };
    assert_eq!(dirp::rows::row_height(&wrapped), 0);
    let longer = "\n".repeat(65536);
    let wrapped = AppRow { display_data: vec![longer.as_str(), "x"], is_marked: false };
    assert_eq!(dirp::rows::row_height(&wrapped), 1);
}
