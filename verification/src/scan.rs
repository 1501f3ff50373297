//! The scan worker's part that decides: what an entry of a directory is
//! taken for, and the scan result that the worker hands to the actor.

use crate::types::{lemma_dir_children, nodes_of, Dir, DirRef, FSObj, File, Kind, Node, SymLink};
use vstd::prelude::*;
use vstd::string::*;

verus! {

/// What is known of an entry of a directory without following a link: its
/// path, its name, what kind of thing it is, and its size.
#[derive(Debug, PartialEq, Eq)]
pub struct EntryFacts {
    pub path: String,
    pub file_name: String,
    pub is_symlink: bool,
    pub is_dir: bool,
    pub is_file: bool,
    pub size_in_bytes: u64,
}

/// The mathematical view of the facts of an entry.
pub struct EntryFactsView {
    pub path: Seq<char>,
    pub file_name: Seq<char>,
    pub is_symlink: bool,
    pub is_dir: bool,
    pub is_file: bool,
    pub size_in_bytes: nat,
}

impl View for EntryFacts {
    type V = EntryFactsView;

    open spec fn view(&self) -> EntryFactsView {
        EntryFactsView {
            path: self.path@,
            file_name: self.file_name@,
            is_symlink: self.is_symlink,
            is_dir: self.is_dir,
            is_file: self.is_file,
            size_in_bytes: self.size_in_bytes as nat,
        }
    }
}

/// The views of a list of entries, in order.
pub open spec fn facts_of(list: Seq<EntryFacts>) -> Seq<EntryFactsView> {
    Seq::new(list.len(), |i: int| list[i]@)
}

/// The name of the file in which the macOS Finder keeps its settings.
pub open spec fn ds_store() -> Seq<char> {
    seq!['.', 'D', 'S', '_', 'S', 't', 'o', 'r', 'e']
}

/// The path under which macOS mounts volumes.
pub open spec fn volumes() -> Seq<char> {
    seq!['/', 'V', 'o', 'l', 'u', 'm', 'e', 's']
}

/// The path under which macOS mounts the volumes of the system.
pub open spec fn system_volumes() -> Seq<char> {
    seq!['/', 'S', 'y', 's', 't', 'e', 'm', '/', 'V', 'o', 'l', 'u', 'm', 'e', 's']
}

/// An entry that is passed over on macOS.
pub open spec fn is_denied(e: EntryFactsView) -> bool {
    e.file_name == ds_store() || e.path == volumes() || e.path == system_volumes()
}

/// What an entry is taken for: nothing where it is denied; else a link
/// where it is one, whatever it points to; else a reference to a directory,
/// open as the scan says, or a file with its size; nothing where it is none
/// of these. A link and a directory count with size 0.
pub open spec fn classified(e: EntryFactsView, is_open: bool, on_macos: bool) -> Option<Node> {
    if on_macos && is_denied(e) {
        None
    } else if e.is_symlink {
        Some(
            Node {
                kind: Kind::SymLink,
                path: e.path,
                size_in_bytes: 0,
                percent: 0,
                is_marked: false,
                is_open: false,
                children: Seq::empty(),
            },
        )
    } else if e.is_dir {
        Some(
            Node {
                kind: Kind::DirRef,
                path: e.path,
                size_in_bytes: 0,
                percent: 0,
                is_marked: false,
                is_open: is_open,
                children: Seq::empty(),
            },
        )
    } else if e.is_file {
        Some(
            Node {
                kind: Kind::File,
                path: e.path,
                size_in_bytes: e.size_in_bytes,
                percent: 0,
                is_marked: false,
                is_open: false,
                children: Seq::empty(),
            },
        )
    } else {
        None
    }
}

/// The listing that the entries make: what each is taken for, in order,
/// without those that are taken for nothing.
pub open spec fn listing_of(entries: Seq<EntryFactsView>, is_open: bool, on_macos: bool) -> Seq<
    Node,
>
    decreases entries.len(),
{
    if entries.len() == 0 {
        Seq::empty()
    } else {
        match classified(entries.last(), is_open, on_macos) {
            Some(n) => listing_of(entries.drop_last(), is_open, on_macos).push(n),
            None => listing_of(entries.drop_last(), is_open, on_macos),
        }
    }
}

/// The scan result for a directory: an unmarked record of size 0, open as
/// the scan says, with the listing that the entries make. A directory that
/// could not be read has no entries, and has a scan result all the same.
pub open spec fn scanned(
    dir_path: Seq<char>,
    is_open: bool,
    entries: Seq<EntryFactsView>,
    on_macos: bool,
) -> Node {
    Node {
        kind: Kind::Dir,
        path: dir_path,
        size_in_bytes: 0,
        percent: 0,
        is_marked: false,
        is_open: is_open,
        children: listing_of(entries, is_open, on_macos),
    }
}

/// The view of an optional record.
pub open spec fn opt_node(o: Option<FSObj>) -> Option<Node> {
    match o {
        Some(obj) => Some(obj@),
        None => None,
    }
}

/// Whether an entry is passed over on macOS, as `is_denied` defines it.
fn is_denied_entry(entry: &EntryFacts) -> (r: bool)
    ensures
        r == is_denied(entry@),
{
    proof {
        reveal_strlit(".DS_Store");
        reveal_strlit("/Volumes");
        reveal_strlit("/System/Volumes");
        assert(".DS_Store"@ =~= ds_store());
        assert("/Volumes"@ =~= volumes());
        assert("/System/Volumes"@ =~= system_volumes());
    }
    let ds_store = String::from_str(".DS_Store");
    let volumes = String::from_str("/Volumes");
    let system_volumes = String::from_str("/System/Volumes");
    entry.file_name == ds_store || entry.path == volumes || entry.path == system_volumes
}

/// What an entry is taken for, as `classified` defines it.
pub fn classify_entry(entry: &EntryFacts, is_open: bool, on_macos: bool) -> (r: Option<FSObj>)
    ensures
        opt_node(r) == classified(entry@, is_open, on_macos),
{
    if on_macos && is_denied_entry(entry) {
        None
    } else if entry.is_symlink {
        Some(
            FSObj::SymLink(
                SymLink {
                    path: entry.path.clone(),
                    size_in_bytes: 0,
                    percent: 0,
                    is_marked: false,
                },
            ),
        )
    } else if entry.is_dir {
        Some(
            FSObj::DirRef(
                DirRef {
                    path: entry.path.clone(),
                    is_open,
                    size_in_bytes: 0,
                    percent: 0,
                    is_marked: false,
                },
            ),
        )
    } else if entry.is_file {
        Some(
            FSObj::File(
                File {
                    path: entry.path.clone(),
                    size_in_bytes: entry.size_in_bytes,
                    percent: 0,
                    is_marked: false,
                },
            ),
        )
    } else {
        None
    }
}

/// The scan result for a directory, as `scanned` defines it.
pub fn scan_result(dir_path: String, is_open: bool, entries: &Vec<EntryFacts>, on_macos: bool) -> (r:
    Dir)
    ensures
        r@ == scanned(dir_path@, is_open, facts_of(entries@), on_macos),
{
    let n = entries.len();
    let mut fs_obj_list: Vec<FSObj> = Vec::new();
    let mut i: usize = 0;
    assert(facts_of(entries@).take(0) =~= Seq::<EntryFactsView>::empty());
    assert(nodes_of(fs_obj_list@) =~= Seq::<Node>::empty());
    while i < n
        invariant
            n == entries@.len(),
            i <= n,
            nodes_of(fs_obj_list@) == listing_of(
                facts_of(entries@).take(i as int),
                is_open,
                on_macos,
            ),
        decreases n - i,
    {
        proof {
            let all = facts_of(entries@);
            assert(all.take(i + 1).drop_last() =~= all.take(i as int));
            assert(all.take(i + 1).last() == entries@[i as int]@);
        }
        let ghost before = fs_obj_list@;
        match classify_entry(&entries[i], is_open, on_macos) {
            Some(obj) => {
                fs_obj_list.push(obj);
                assert(nodes_of(fs_obj_list@) =~= nodes_of(before).push(obj@));
            },
            None => {},
        }
        i = i + 1;
    }
    assert(facts_of(entries@).take(n as int) =~= facts_of(entries@));
    let r = Dir {
        path: dir_path,
        is_open,
        size_in_bytes: 0,
        percent: 0,
        is_marked: false,
        dir_obj_list: fs_obj_list,
    };
    proof {
        lemma_dir_children(&r);
    }
    r
}

} // verus!
