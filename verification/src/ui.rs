//! The front end's part that decides: which message a key stands for, where
//! the selection goes, and what the front end does with each message.

use crate::actor::{DirpStateMessage, MessageView};
use crate::rows::{dirp_state_to_i_state, rows_of, rows_view, AppRow, IntermediateState, RowView};
use crate::types::{Dir, FSObj, Node};
use vstd::prelude::*;

verus! {

/// A view tree on its way to the front end.
#[derive(Debug, PartialEq, Eq)]
pub struct GetStateResponse {
    pub dirp_state: Dir,
}

/// What reaches the front end: a view tree from the actor, or what the
/// person at the keyboard wants.
#[derive(Debug, PartialEq, Eq)]
pub enum UserMessage {
    GetStateResponse(GetStateResponse),
    Next,
    Previous,
    CloseDir,
    OpenDir,
    ToggleDir,
    MarkPath,
    UnmarkPath,
    ToggleMarkPath,
    RemoveMarked,
    Quit,
}

/// The mathematical view of a message to the front end.
pub enum UserMessageView {
    GetStateResponse(Node),
    Next,
    Previous,
    CloseDir,
    OpenDir,
    ToggleDir,
    MarkPath,
    UnmarkPath,
    ToggleMarkPath,
    RemoveMarked,
    Quit,
}

impl View for UserMessage {
    type V = UserMessageView;

    open spec fn view(&self) -> UserMessageView {
        match self {
            UserMessage::GetStateResponse(response) => UserMessageView::GetStateResponse(
                response.dirp_state@,
            ),
            UserMessage::Next => UserMessageView::Next,
            UserMessage::Previous => UserMessageView::Previous,
            UserMessage::CloseDir => UserMessageView::CloseDir,
            UserMessage::OpenDir => UserMessageView::OpenDir,
            UserMessage::ToggleDir => UserMessageView::ToggleDir,
            UserMessage::MarkPath => UserMessageView::MarkPath,
            UserMessage::UnmarkPath => UserMessageView::UnmarkPath,
            UserMessage::ToggleMarkPath => UserMessageView::ToggleMarkPath,
            UserMessage::RemoveMarked => UserMessageView::RemoveMarked,
            UserMessage::Quit => UserMessageView::Quit,
        }
    }
}

/// A key of the keyboard, as far as the front end tells keys apart.
#[derive(Debug, Clone, Copy, PartialEq, Eq)]
pub enum Key {
    Down,
    Up,
    Left,
    Right,
    Delete,
    Backspace,
    Char(char),
    Other,
}

/// The message that a key stands for, if it stands for one.
pub open spec fn message_of_key(key: Key) -> Option<UserMessageView> {
    match key {
        Key::Down => Some(UserMessageView::Next),
        Key::Up => Some(UserMessageView::Previous),
        Key::Left => Some(UserMessageView::CloseDir),
        Key::Right => Some(UserMessageView::OpenDir),
        Key::Delete => Some(UserMessageView::ToggleMarkPath),
        Key::Backspace => Some(UserMessageView::ToggleMarkPath),
        Key::Char(c) => if c == 'p' {
            Some(UserMessageView::Previous)
        } else if c == 'n' {
            Some(UserMessageView::Next)
        } else if c == 'f' {
            Some(UserMessageView::ToggleDir)
        } else if c == 'd' {
            Some(UserMessageView::MarkPath)
        } else if c == 'u' {
            Some(UserMessageView::UnmarkPath)
        } else if c == 'x' {
            Some(UserMessageView::RemoveMarked)
        } else if c == 'q' {
            Some(UserMessageView::Quit)
        } else {
            None
        },
        Key::Other => None,
    }
}

/// The view of an optional message.
pub open spec fn opt_message(o: Option<UserMessage>) -> Option<UserMessageView> {
    match o {
        Some(m) => Some(m@),
        None => None,
    }
}

/// The message that a key stands for, as `message_of_key` defines it.
pub fn key_message(key: Key) -> (r: Option<UserMessage>)
    ensures
        opt_message(r) == message_of_key(key),
{
    match key {
        Key::Down => Some(UserMessage::Next),
        Key::Up => Some(UserMessage::Previous),
        Key::Left => Some(UserMessage::CloseDir),
        Key::Right => Some(UserMessage::OpenDir),
        Key::Delete => Some(UserMessage::ToggleMarkPath),
        Key::Backspace => Some(UserMessage::ToggleMarkPath),
        Key::Char(c) => {
            if c == 'p' {
                Some(UserMessage::Previous)
            } else if c == 'n' {
                Some(UserMessage::Next)
            } else if c == 'f' {
                Some(UserMessage::ToggleDir)
            } else if c == 'd' {
                Some(UserMessage::MarkPath)
            } else if c == 'u' {
                Some(UserMessage::UnmarkPath)
            } else if c == 'x' {
                Some(UserMessage::RemoveMarked)
            } else if c == 'q' {
                Some(UserMessage::Quit)
            } else {
                None
            }
        },
        Key::Other => None,
    }
}

/// Whether the keyboard is read no further after this message.
pub fn ends_input(message: &UserMessage) -> (r: bool)
    ensures
        r == (message@ is RemoveMarked || message@ is Quit),
{
    match message {
        UserMessage::RemoveMarked => true,
        UserMessage::Quit => true,
        _ => false,
    }
}

/// The selection after a step down a table of `len` rows: the next row, or
/// the same row where it is the last one.
pub open spec fn next_row(selected: Option<usize>, len: nat) -> usize {
    match selected {
        Some(i) => if i >= len - 1 {
            i
        } else {
            (i + 1) as usize
        },
        None => 0,
    }
}

/// The selection after a step up the table: the row before, or the same row
/// where it is the first one.
pub open spec fn previous_row(selected: Option<usize>) -> usize {
    match selected {
        Some(i) => if i == 0 {
            i
        } else {
            (i - 1) as usize
        },
        None => 0,
    }
}

/// The table that is drawn: its title, its rows, and the row that is
/// selected, if one is.
pub struct App<'a> {
    pub path: String,
    selected: Option<usize>,
    items: Vec<AppRow<'a>>,
}

impl<'a> App<'a> {
    /// The row that is selected.
    pub closed spec fn selection(&self) -> Option<usize> {
        self.selected
    }

    /// The rows.
    pub closed spec fn rows(&self) -> Seq<AppRow<'a>> {
        self.items@
    }

    /// The number of rows.
    pub open spec fn row_count(&self) -> nat {
        self.rows().len()
    }

    /// The title of the table.
    pub closed spec fn title(&self) -> Seq<char> {
        self.path@
    }

    /// A table with no row selected.
    pub fn new(path: String, items: Vec<AppRow<'a>>) -> (r: App<'a>)
        ensures
            r.title() == path@,
            r.selection() is None,
            r.rows() == items@,
    {
        App { path, selected: None, items }
    }

    /// The row that is selected.
    pub fn selected(&mut self) -> (r: usize)
        requires
            old(self).selection() is Some,
        ensures
            Some(r) == old(self).selection(),
            final(self).selection() == old(self).selection(),
            final(self).rows() == old(self).rows(),
            final(self).title() == old(self).title(),
    {
        match self.selected {
            Some(i) => i,
            None => 0,
        }
    }

    /// The row that is selected, if one is.
    pub fn selection_of(&self) -> (r: Option<usize>)
        ensures
            r == self.selection(),
    {
        self.selected
    }

    /// The rows.
    pub fn items(&self) -> (r: &Vec<AppRow<'a>>)
        ensures
            r@ == self.rows(),
    {
        &self.items
    }

    /// Selects a row.
    pub fn set_selected(&mut self, state: usize)
        ensures
            final(self).selection() == Some(state),
            final(self).rows() == old(self).rows(),
            final(self).title() == old(self).title(),
    {
        self.selected = Some(state);
    }

    /// Moves the selection one row down, as `next_row` defines it.
    pub fn next(&mut self)
        requires
            old(self).row_count() > 0,
        ensures
            final(self).selection() == Some(next_row(old(self).selection(), old(self).row_count())),
            final(self).rows() == old(self).rows(),
            final(self).title() == old(self).title(),
    {
        let i = match self.selected {
            Some(i) => {
                if i >= self.items.len() - 1 {
                    i
                } else {
                    i + 1
                }
            },
            None => 0,
        };
        self.selected = Some(i);
    }

    /// Moves the selection one row up, as `previous_row` defines it.
    pub fn previous(&mut self)
        ensures
            final(self).selection() == Some(previous_row(old(self).selection())),
            final(self).rows() == old(self).rows(),
            final(self).title() == old(self).title(),
    {
        let i = match self.selected {
            Some(i) => {
                if i == 0 {
                    i
                } else {
                    i - 1
                }
            },
            None => 0,
        };
        self.selected = Some(i);
    }
}

/// What the front end keeps between two messages: the rows of the table and
/// the row that is selected.
pub struct UiState {
    pub rows: Vec<IntermediateState>,
    pub selected: usize,
}

/// The mathematical view of the state of the front end.
pub struct UiView {
    pub rows: Seq<RowView>,
    pub selected: usize,
}

impl View for UiState {
    type V = UiView;

    open spec fn view(&self) -> UiView {
        UiView { rows: rows_view(self.rows@), selected: self.selected }
    }
}

/// What the front end does after a message.
#[derive(Debug, PartialEq, Eq)]
pub enum UiAction {
    /// Draw the table.
    Redraw,
    /// Send the message to the actor, then draw the table.
    Send(DirpStateMessage),
    /// Leave the table; if `remove_marked`, have the actor remove what is
    /// marked.
    Exit { remove_marked: bool },
}

/// The mathematical view of what the front end does.
pub enum UiActionView {
    Redraw,
    Send(MessageView),
    Exit { remove_marked: bool },
}

impl View for UiAction {
    type V = UiActionView;

    open spec fn view(&self) -> UiActionView {
        match self {
            UiAction::Redraw => UiActionView::Redraw,
            UiAction::Send(m) => UiActionView::Send(m@),
            UiAction::Exit { remove_marked } => UiActionView::Exit {
                remove_marked: *remove_marked,
            },
        }
    }
}

/// The state of the front end after a message: a view tree replaces the
/// rows; a step down or up moves the selection within the table; nothing
/// else changes the state.
pub open spec fn ui_next(s: UiView, m: UserMessageView) -> UiView {
    match m {
        UserMessageView::GetStateResponse(tree) => UiView { rows: rows_of(tree, 1), ..s },
        UserMessageView::Next => if s.rows.len() > 0 {
            UiView { selected: next_row(Some(s.selected), s.rows.len()), ..s }
        } else {
            s
        },
        UserMessageView::Previous => UiView { selected: previous_row(Some(s.selected)), ..s },
        _ => s,
    }
}

/// The message for the actor that a wish about the selected row makes.
pub open spec fn message_about(m: UserMessageView, path: Seq<char>) -> Option<MessageView> {
    match m {
        UserMessageView::OpenDir => Some(MessageView::OpenDir(path)),
        UserMessageView::CloseDir => Some(MessageView::CloseDir(path)),
        UserMessageView::ToggleDir => Some(MessageView::ToggleDir(path)),
        UserMessageView::MarkPath => Some(MessageView::MarkPath(path)),
        UserMessageView::UnmarkPath => Some(MessageView::UnmarkPath(path)),
        UserMessageView::ToggleMarkPath => Some(MessageView::ToggleMarkPath(path)),
        _ => None,
    }
}

/// What the front end does after a message: it leaves on a wish to quit or
/// to remove what is marked; a wish about the selected row goes to the
/// actor with the path of that row, where a row is selected; after anything
/// else the table is drawn.
pub open spec fn ui_action(s: UiView, m: UserMessageView) -> UiActionView {
    match m {
        UserMessageView::RemoveMarked => UiActionView::Exit { remove_marked: true },
        UserMessageView::Quit => UiActionView::Exit { remove_marked: false },
        _ => if s.selected < s.rows.len() {
            match message_about(m, s.rows[s.selected as int].path) {
                Some(message) => UiActionView::Send(message),
                None => UiActionView::Redraw,
            }
        } else {
            UiActionView::Redraw
        },
    }
}

impl UiState {
    /// The state of a front end that has no rows yet.
    pub fn new() -> (r: UiState)
        ensures
            r@ == (UiView { rows: Seq::empty(), selected: 0 }),
    {
        let r = UiState { rows: Vec::new(), selected: 0 };
        assert(r@.rows =~= Seq::<RowView>::empty());
        r
    }

/// The path of the selected row, where a row is selected.
    fn selected_path(&self) -> (r: Option<String>)
        ensures
            match r {
                Some(path) => self.selected < self.rows@.len() && path@
                    == self@.rows[self.selected as int].path,
                None => self.selected >= self.rows@.len(),
            },
    {
        if self.selected < self.rows.len() {
            Some(self.rows[self.selected].path.clone())
        } else {
            None
        }
    }

    /// Takes one message: changes the state as `ui_next` says and returns
    /// what `ui_action` names.
    pub fn ui_step(&mut self, message: UserMessage) -> (action: UiAction)
        ensures
            final(self)@ == ui_next(old(self)@, message@),
            action@ == ui_action(old(self)@, message@),
    {
        match message {
            UserMessage::GetStateResponse(response) => {
                let tree = FSObj::Dir(response.dirp_state);
                let mut rows: Vec<IntermediateState> = Vec::new();
                assert(rows_view(rows@) =~= Seq::<RowView>::empty());
                let _ = dirp_state_to_i_state(&tree, 1, &mut rows);
                assert(rows_view(rows@) =~= rows_of(tree@, 1));
                self.rows = rows;
                UiAction::Redraw
            },
            UserMessage::Next => {
                let len = self.rows.len();
                if len > 0 {
                    if self.selected < len - 1 {
                        self.selected = self.selected + 1;
                    }
                }
                UiAction::Redraw
            },
            UserMessage::Previous => {
                if self.selected > 0 {
                    self.selected = self.selected - 1;
                }
                UiAction::Redraw
            },
            UserMessage::OpenDir => match self.selected_path() {
                Some(path) => UiAction::Send(DirpStateMessage::OpenDir(path)),
                None => UiAction::Redraw,
            },
            UserMessage::CloseDir => match self.selected_path() {
                Some(path) => UiAction::Send(DirpStateMessage::CloseDir(path)),
                None => UiAction::Redraw,
            },
            UserMessage::ToggleDir => match self.selected_path() {
                Some(path) => UiAction::Send(DirpStateMessage::ToggleDir(path)),
                None => UiAction::Redraw,
            },
            UserMessage::MarkPath => match self.selected_path() {
                Some(path) => UiAction::Send(DirpStateMessage::MarkPath(path)),
                None => UiAction::Redraw,
            },
            UserMessage::UnmarkPath => match self.selected_path() {
                Some(path) => UiAction::Send(DirpStateMessage::UnmarkPath(path)),
                None => UiAction::Redraw,
            },
            UserMessage::ToggleMarkPath => match self.selected_path() {
                Some(path) => UiAction::Send(DirpStateMessage::ToggleMarkPath(path)),
                None => UiAction::Redraw,
            },
            UserMessage::RemoveMarked => UiAction::Exit { remove_marked: true },
            UserMessage::Quit => UiAction::Exit { remove_marked: false },
        }
    }
}

} // verus!
