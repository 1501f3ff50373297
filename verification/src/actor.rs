//! The state actor: the one owner of the index. Each message that reaches it
//! changes the index, and tells the loop around it what to do outside.

use crate::model::{
    apply_scan, dir_ref_paths, mark_deep, path_mark, scan_fits, scan_ok, toggle_mark, with_open,
    with_toggled, Index,
};
use crate::state::{is_scan_ok, DirpState};
use crate::tree::{build_result_tree, marked_files_list, marked_paths, view_tree};
use crate::types::{strings_of, Dir, Node};
use vstd::prelude::*;

verus! {

/// Milliseconds between two ticks of the timer.
pub const TICK_INTERVAL_MS: u64 = 100;

/// A tick interval within the supported range of 50 to 500 milliseconds.
pub fn tick_interval_ms(requested: u64) -> (r: u64)
    ensures
        50 <= r <= 500,
        50 <= requested <= 500 ==> r == requested,
        requested < 50 ==> r == 50,
        requested > 500 ==> r == 500,
{
    if requested < 50 {
        50
    } else if requested > 500 {
        500
    } else {
        requested
    }
}

/// What reaches the state actor.
#[derive(Debug, PartialEq, Eq)]
pub enum DirpStateMessage {
    DirScanMessage(Dir),
    OpenDir(String),
    CloseDir(String),
    ToggleDir(String),
    MarkPath(String),
    UnmarkPath(String),
    ToggleMarkPath(String),
    RemoveMarked,
    Timer,
    Quit,
}

/// The mathematical view of a message.
pub enum MessageView {
    DirScanMessage(Node),
    OpenDir(Seq<char>),
    CloseDir(Seq<char>),
    ToggleDir(Seq<char>),
    MarkPath(Seq<char>),
    UnmarkPath(Seq<char>),
    ToggleMarkPath(Seq<char>),
    RemoveMarked,
    Timer,
    Quit,
}

impl View for DirpStateMessage {
    type V = MessageView;

    open spec fn view(&self) -> MessageView {
        match self {
            DirpStateMessage::DirScanMessage(dir) => MessageView::DirScanMessage(dir@),
            DirpStateMessage::OpenDir(path) => MessageView::OpenDir(path@),
            DirpStateMessage::CloseDir(path) => MessageView::CloseDir(path@),
            DirpStateMessage::ToggleDir(path) => MessageView::ToggleDir(path@),
            DirpStateMessage::MarkPath(path) => MessageView::MarkPath(path@),
            DirpStateMessage::UnmarkPath(path) => MessageView::UnmarkPath(path@),
            DirpStateMessage::ToggleMarkPath(path) => MessageView::ToggleMarkPath(path@),
            DirpStateMessage::RemoveMarked => MessageView::RemoveMarked,
            DirpStateMessage::Timer => MessageView::Timer,
            DirpStateMessage::Quit => MessageView::Quit,
        }
    }
}

impl Clone for DirpStateMessage {
    fn clone(&self) -> (r: Self)
        ensures
            r@ == self@,
    {
        match self {
            DirpStateMessage::DirScanMessage(dir) => DirpStateMessage::DirScanMessage(dir.clone()),
            DirpStateMessage::OpenDir(path) => DirpStateMessage::OpenDir(path.clone()),
            DirpStateMessage::CloseDir(path) => DirpStateMessage::CloseDir(path.clone()),
            DirpStateMessage::ToggleDir(path) => DirpStateMessage::ToggleDir(path.clone()),
            DirpStateMessage::MarkPath(path) => DirpStateMessage::MarkPath(path.clone()),
            DirpStateMessage::UnmarkPath(path) => DirpStateMessage::UnmarkPath(path.clone()),
            DirpStateMessage::ToggleMarkPath(path) => DirpStateMessage::ToggleMarkPath(
                path.clone(),
            ),
            DirpStateMessage::RemoveMarked => DirpStateMessage::RemoveMarked,
            DirpStateMessage::Timer => DirpStateMessage::Timer,
            DirpStateMessage::Quit => DirpStateMessage::Quit,
        }
    }
}

/// A directory that is to be scanned, and whether it starts open.
#[derive(Debug, PartialEq, Eq)]
pub struct ScanRequest {
    pub path: String,
    pub is_open: bool,
}

/// The mathematical view of a scan request.
pub struct ScanRequestView {
    pub path: Seq<char>,
    pub is_open: bool,
}

impl View for ScanRequest {
    type V = ScanRequestView;

    open spec fn view(&self) -> ScanRequestView {
        ScanRequestView { path: self.path@, is_open: self.is_open }
    }
}

/// The views of a list of scan requests, in order.
pub open spec fn requests_of(list: Seq<ScanRequest>) -> Seq<ScanRequestView> {
    Seq::new(list.len(), |i: int| list[i]@)
}

/// Requests to scan the given directories, none of which starts open.
pub open spec fn closed_scans(paths: Seq<Seq<char>>) -> Seq<ScanRequestView> {
    Seq::new(paths.len(), |i: int| ScanRequestView { path: paths[i], is_open: false })
}

/// What the loop around the actor is to do after a message.
#[derive(Debug, PartialEq, Eq)]
pub enum Effect {
    /// Nothing.
    Nothing,
    /// Scan these directories.
    Scan(Vec<ScanRequest>),
    /// Hand this view tree to the front end.
    Publish(Dir),
    /// Ask whether these paths are to go to the trash, move them there if
    /// so, and stop.
    RemoveMarked(Vec<String>),
    /// Stop.
    Quit,
}

/// The mathematical view of an effect.
pub enum EffectView {
    Nothing,
    Scan(Seq<ScanRequestView>),
    Publish(Node),
    RemoveMarked(Seq<Seq<char>>),
    Quit,
}

impl View for Effect {
    type V = EffectView;

    open spec fn view(&self) -> EffectView {
        match self {
            Effect::Nothing => EffectView::Nothing,
            Effect::Scan(list) => EffectView::Scan(requests_of(list@)),
            Effect::Publish(dir) => EffectView::Publish(dir@),
            Effect::RemoveMarked(list) => EffectView::RemoveMarked(strings_of(list@)),
            Effect::Quit => EffectView::Quit,
        }
    }
}

impl Effect {
    /// Whether the loop ends after this effect.
    pub fn ends_loop(&self) -> (r: bool)
        ensures
            r == (self@ is RemoveMarked || self@ is Quit),
    {
        match self {
            Effect::RemoveMarked(_) => true,
            Effect::Quit => true,
            _ => false,
        }
    }
}

/// The state of the actor: the root of the profile, the index, and whether
/// the index has changed since the last view tree was published.
pub struct DirpActor {
    pub root_path: String,
    pub dirp_state: DirpState,
    pub is_state_dirty: bool,
}

/// The mathematical view of the actor.
pub struct ActorView {
    pub root: Seq<char>,
    pub index: Index,
    pub dirty: bool,
}

impl View for DirpActor {
    type V = ActorView;

    open spec fn view(&self) -> ActorView {
        ActorView { root: self.root_path@, index: self.dirp_state@, dirty: self.is_state_dirty }
    }
}

/// A scan result is installed only where it is well formed and the sizes
/// that it produces fit in 64 bits.
pub open spec fn accepts_scan(index: Index, dir: Node) -> bool {
    scan_ok(dir) && scan_fits(index, dir)
}

/// The state of the actor after a message.
pub open spec fn next_state(s: ActorView, m: MessageView) -> ActorView {
    match m {
        MessageView::DirScanMessage(dir) => if accepts_scan(s.index, dir) {
            ActorView { index: apply_scan(s.index, dir), dirty: true, ..s }
        } else {
            s
        },
        MessageView::OpenDir(path) => if s.index.contains_key(path) {
            ActorView { index: with_open(s.index, path, true), dirty: true, ..s }
        } else {
            s
        },
        MessageView::CloseDir(path) => if s.index.contains_key(path) {
            ActorView { index: with_open(s.index, path, false), dirty: true, ..s }
        } else {
            s
        },
        MessageView::ToggleDir(path) => if s.index.contains_key(path) {
            ActorView { index: with_toggled(s.index, path), dirty: true, ..s }
        } else {
            s
        },
        MessageView::MarkPath(path) => ActorView {
            index: mark_deep(s.index, path, true),
            dirty: true,
            ..s
        },
        MessageView::UnmarkPath(path) => ActorView {
            index: mark_deep(s.index, path, false),
            dirty: true,
            ..s
        },
        MessageView::ToggleMarkPath(path) => if path_mark(s.index, path) is Some {
            ActorView { index: toggle_mark(s.index, path), dirty: true, ..s }
        } else {
            s
        },
        MessageView::RemoveMarked => s,
        MessageView::Timer => ActorView { dirty: false, ..s },
        MessageView::Quit => s,
    }
}

/// What the loop is to do after a message: scan the directories that an
/// installed scan result lists; publish the view tree at a tick if the index
/// has changed; remove the marked paths; stop.
pub open spec fn effect_of(s: ActorView, m: MessageView) -> EffectView {
    match m {
        MessageView::DirScanMessage(dir) => if accepts_scan(s.index, dir) {
            EffectView::Scan(closed_scans(dir_ref_paths(dir.children)))
        } else {
            EffectView::Nothing
        },
        MessageView::Timer => if s.dirty {
            EffectView::Publish(view_tree(s.index, s.root, false))
        } else {
            EffectView::Nothing
        },
        MessageView::RemoveMarked => EffectView::RemoveMarked(marked_paths(s.index, s.root)),
        MessageView::Quit => EffectView::Quit,
        _ => EffectView::Nothing,
    }
}

/// Requests to scan the given directories, none of which starts open.
fn closed_scans_of(paths: Vec<String>) -> (r: Vec<ScanRequest>)
    ensures
        requests_of(r@) == closed_scans(strings_of(paths@)),
{
    let n = paths.len();
    let mut r: Vec<ScanRequest> = Vec::new();
    let mut i: usize = 0;
    while i < n
        invariant
            n == paths@.len(),
            i <= n,
            r@.len() == i,
            forall|k: int|
                0 <= k < i ==> (#[trigger] r@[k])@ == (ScanRequestView {
                    path: paths@[k]@,
                    is_open: false,
                }),
        decreases n - i,
    {
        r.push(ScanRequest { path: paths[i].clone(), is_open: false });
        i = i + 1;
    }
    assert(requests_of(r@) =~= closed_scans(strings_of(paths@)));
    r
}

impl DirpActor {
    /// The index of the actor is well formed.
    pub open spec fn wf(&self) -> bool {
        self.dirp_state.wf()
    }

    /// An actor with an empty index, and the request for the first scan: that
    /// of the root, which alone starts open.
    pub fn start(root_path: String) -> (r: (DirpActor, ScanRequest))
        ensures
            r.0.wf(),
            r.0@ == (ActorView {
                root: root_path@,
                index: Map::<Seq<char>, Node>::empty(),
                dirty: false,
            }),
            r.1@ == (ScanRequestView { path: root_path@, is_open: true }),
    {
        let request = ScanRequest { path: root_path.clone(), is_open: true };
        let actor = DirpActor {
            root_path,
            dirp_state: DirpState::new(),
            is_state_dirty: false,
        };
        (actor, request)
    }

    /// Takes one message: changes the state as `next_state` says and returns
    /// the effect that `effect_of` names.
    pub fn dirp_state_step(&mut self, message: DirpStateMessage) -> (effect: Effect)
        requires
            old(self).wf(),
        ensures
            final(self).wf(),
            final(self)@ == next_state(old(self)@, message@),
            effect@ == effect_of(old(self)@, message@),
    {
        match message {
            DirpStateMessage::DirScanMessage(dir) => {
                if is_scan_ok(&dir) && self.dirp_state.does_scan_fit(&dir) {
                    let scans = self.dirp_state.process_dir_scan_message(dir);
                    self.is_state_dirty = true;
                    Effect::Scan(closed_scans_of(scans))
                } else {
                    Effect::Nothing
                }
            },
            DirpStateMessage::Timer => {
                if self.is_state_dirty {
                    self.is_state_dirty = false;
                    Effect::Publish(build_result_tree(&self.root_path, false, &self.dirp_state))
                } else {
                    Effect::Nothing
                }
            },
            DirpStateMessage::OpenDir(path) => {
                if self.dirp_state.set_open(&path, true) {
                    self.is_state_dirty = true;
                }
                Effect::Nothing
            },
            DirpStateMessage::CloseDir(path) => {
                if self.dirp_state.set_open(&path, false) {
                    self.is_state_dirty = true;
                }
                Effect::Nothing
            },
            DirpStateMessage::ToggleDir(path) => {
                if self.dirp_state.toggle_open(&path) {
                    self.is_state_dirty = true;
                }
                Effect::Nothing
            },
            DirpStateMessage::MarkPath(path) => {
                self.dirp_state.do_mark_deep(&path, true);
                self.is_state_dirty = true;
                Effect::Nothing
            },
            DirpStateMessage::UnmarkPath(path) => {
                self.dirp_state.do_mark_deep(&path, false);
                self.is_state_dirty = true;
                Effect::Nothing
            },
            DirpStateMessage::ToggleMarkPath(path) => {
                if self.dirp_state.toggle_mark_deep(&path) {
                    self.is_state_dirty = true;
                }
                Effect::Nothing
            },
            DirpStateMessage::RemoveMarked => {
                Effect::RemoveMarked(marked_files_list(&self.root_path, &self.dirp_state))
            },
            DirpStateMessage::Quit => Effect::Quit,
        }
    }
}

} // verus!
