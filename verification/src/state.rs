//! The index of scanned directories: the records in a vector, found by path
//! through a hash map.

use crate::model::{
    add_to_ancestors, apply_scan, child_wf, dir_ref_paths, entry_wf, file_bytes, grown, index_wf,
    installed, key_len_bound, lemma_keys_bounded, lemma_linked_down, lemma_linked_up,
    lemma_local_size_push, lemma_mark_node_twice, lemma_same_shape_linked, linked_below,
    listing_mark, local_size, mark_deep, mark_if_leaf, mark_leaf, mark_node, marked_below,
    path_mark, same_shape, scan_fits, scan_ok, toggle_mark, with_open, with_toggled, Index,
};
use crate::paths::{
    is_ancestor, lemma_ancestor_not_self, lemma_ancestor_transitive, lemma_parent_shorter,
    opt_chars, parent_file_path, parent_path,
};
use crate::types::{lemma_dir_children, nodes_of, strings_of, Dir, FSObj, Node};
use vstd::hash_map::StringHashMap;
use vstd::prelude::*;

verus! {

/// The authoritative store of the scanned directories, each under its path.
pub struct DirpState {
    dirs: Vec<Dir>,
    slots: StringHashMap<usize>,
}

impl View for DirpState {
    type V = Index;

    closed spec fn view(&self) -> Index {
        Map::new(
            |k: Seq<char>| self.slots@.contains_key(k),
            |k: Seq<char>| self.dirs@[self.slots@[k] as int]@,
        )
    }
}

/// The bytes of the files in a listing, or `None` where they exceed 64 bits.
pub fn local_size_of(list: &Vec<FSObj>) -> (r: Option<u64>)
    ensures
        match r {
            Some(v) => v == local_size(nodes_of(list@)),
            None => local_size(nodes_of(list@)) > u64::MAX,
        },
{
    let n = list.len();
    let mut sum: u64 = 0;
    let mut i: usize = 0;
    assert(nodes_of(list@).take(0) =~= Seq::<Node>::empty());
    while i < n
        invariant
            n == list@.len(),
            i <= n,
            sum == local_size(nodes_of(list@).take(i as int)),
        decreases n - i,
    {
        let add: u64 = match &list[i] {
            FSObj::File(file) => file.size_in_bytes,
            _ => 0,
        };
        proof {
            let all = nodes_of(list@);
            assert(all.take(i + 1) =~= all.take(i as int).push(all[i as int]));
            lemma_local_size_push(all.take(i as int), all[i as int]);
            assert(add == file_bytes(all[i as int]));
        }
        match sum.checked_add(add) {
            Some(s) => {
                sum = s;
            },
            None => {
                proof {
                    lemma_local_size_monotone(nodes_of(list@), i + 1);
                }
                return None;
            },
        }
        i = i + 1;
    }
    assert(nodes_of(list@).take(n as int) =~= nodes_of(list@));
    Some(sum)
}

/// The files at the front of a listing hold no more bytes than all of them.
pub proof fn lemma_local_size_monotone(children: Seq<Node>, i: int)
    requires
        0 <= i <= children.len(),
    ensures
        local_size(children.take(i)) <= local_size(children),
    decreases children.len() - i,
{
    if i < children.len() {
        assert(children.take(i + 1) =~= children.take(i).push(children[i]));
        lemma_local_size_push(children.take(i), children[i]);
        lemma_local_size_monotone(children, i + 1);
    } else {
        assert(children.take(i) =~= children);
    }
}

/// The paths of the directories in a listing, in order.
pub fn dir_ref_paths_of(list: &Vec<FSObj>) -> (r: Vec<String>)
    ensures
        strings_of(r@) == dir_ref_paths(nodes_of(list@)),
{
    let n = list.len();
    let mut r: Vec<String> = Vec::new();
    let mut i: usize = 0;
    assert(nodes_of(list@).take(0) =~= Seq::<Node>::empty());
    assert(strings_of(r@) =~= Seq::<Seq<char>>::empty());
    while i < n
        invariant
            n == list@.len(),
            i <= n,
            strings_of(r@) == dir_ref_paths(nodes_of(list@).take(i as int)),
        decreases n - i,
    {
        proof {
            let all = nodes_of(list@);
            assert(all.take(i + 1) =~= all.take(i as int).push(all[i as int]));
            lemma_local_size_push(all.take(i as int), all[i as int]);
        }
        let ghost before = r@;
        match &list[i] {
            FSObj::DirRef(dir_ref) => {
                r.push(dir_ref.path.clone());
                assert(strings_of(r@) =~= strings_of(before).push(dir_ref.path@));
            },
            _ => {},
        }
        i = i + 1;
    }
    assert(nodes_of(list@).take(n as int) =~= nodes_of(list@));
    r
}

/// The path of a record.
fn path_of(obj: &FSObj) -> (r: &String)
    ensures
        r@ == obj@.path,
{
    match obj {
        FSObj::Dir(o) => &o.path,
        FSObj::File(o) => &o.path,
        FSObj::SymLink(o) => &o.path,
        FSObj::DirRef(o) => &o.path,
    }
}

/// Whether a scan result can be installed, as `scan_ok` defines it.
pub fn is_scan_ok(dir: &Dir) -> (r: bool)
    ensures
        r == scan_ok(dir@),
{
    let n = dir.dir_obj_list.len();
    let mut seen: StringHashMap<bool> = StringHashMap::new();
    let mut i: usize = 0;
    proof {
        lemma_dir_children(dir);
    }
    while i < n
        invariant
            n == dir.dir_obj_list@.len(),
            i <= n,
            dir@.children == nodes_of(dir.dir_obj_list@),
            dir@.kind is Dir,
            forall|j: int| 0 <= j < i ==> child_wf(#[trigger] dir@.children[j], dir@.path),
            forall|j: int| 0 <= j < i ==> seen@.contains_key((#[trigger] dir@.children[j]).path),
            forall|k: Seq<char>|
                seen@.contains_key(k) ==> exists|j: int|
                    0 <= j < i && (#[trigger] dir@.children[j]).path == k,
            forall|a: int, b: int|
                0 <= a < b < i ==> (#[trigger] dir@.children[a]).path != (
                #[trigger] dir@.children[b]).path,
        decreases n - i,
    {
        let child = &dir.dir_obj_list[i];
        let path = path_of(child);
        let ok = match child {
            FSObj::Dir(_) => false,
            _ => is_child_path(path, &dir.path),
        };
        assert(ok == child_wf(dir@.children[i as int], dir@.path));
        if !ok {
            return false;
        }
        if seen.contains_key(path.as_str()) {
            proof {
                let j = choose|j: int| 0 <= j < i && (#[trigger] dir@.children[j]).path == path@;
                assert(dir@.children[j].path == dir@.children[i as int].path);
            }
            return false;
        }
        seen.insert(path.clone(), true);
        i = i + 1;
    }
    true
}

/// Whether `child` lies directly in `parent`.
fn is_child_path(child: &String, parent: &String) -> (r: bool)
    ensures
        r == (parent_path(child@) == Some(parent@)),
{
    match parent_file_path(child) {
        Some(p) => p == *parent,
        None => false,
    }
}

impl DirpState {
    /// The representation is consistent and the index is well formed.
    pub closed spec fn wf(&self) -> bool {
        &&& forall|i: int|
            0 <= i < self.dirs@.len() ==> self.slots@.contains_key(
                (#[trigger] self.dirs@[i]).path@,
            ) && self.slots@[self.dirs@[i].path@] == i
        &&& forall|k: Seq<char>| #[trigger]
            self.slots@.contains_key(k) ==> self.slots@[k] < self.dirs@.len()
                && self.dirs@[self.slots@[k] as int].path@ == k
        &&& index_wf(self@)
    }

    /// A well-formed state holds a well-formed index.
    pub proof fn lemma_wf(&self)
        requires
            self.wf(),
        ensures
            index_wf(self@),
    {
    }

    /// An empty index.
    pub fn new() -> (r: DirpState)
        ensures
            r.wf(),
            r@ == Map::<Seq<char>, Node>::empty(),
    {
        let r = DirpState { dirs: Vec::new(), slots: StringHashMap::new() };
        assert(r@ =~= Map::<Seq<char>, Node>::empty());
        r
    }

/// The slot of the directory that stands under the path.
    fn find(&self, path: &String) -> (r: Option<usize>)
        requires
            self.wf(),
        ensures
            match r {
                Some(i) => self@.contains_key(path@) && i < self.dirs@.len()
                    && self.dirs@[i as int].path@ == path@ && self.dirs@[i as int]@
                    == self@[path@],
                None => !self@.contains_key(path@),
            },
    {
        match self.slots.get(path.as_str()) {
            Some(i) => Some(*i),
            None => None,
        }
    }

    /// Whether a directory stands under the path.
    pub fn path_exists(&self, path: &String) -> (r: bool)
        requires
            self.wf(),
        ensures
            r == self@.contains_key(path@),
    {
        self.slots.contains_key(path.as_str())
    }

    /// The directory that stands under the path, if there is one.
    pub fn get(&self, path: &String) -> (r: Option<&Dir>)
        requires
            self.wf(),
        ensures
            match r {
                Some(d) => self@.contains_key(path@) && d@ == self@[path@],
                None => !self@.contains_key(path@),
            },
    {
        match self.find(path) {
            Some(i) => Some(&self.dirs[i]),
            None => None,
        }
    }

    /// The directory that stands under the path.
    pub fn get_dir_ref_by_path(&self, path: &String) -> (r: &Dir)
        requires
            self.wf(),
            self@.contains_key(path@),
        ensures
            r@ == self@[path@],
    {
        let i = self.find(path).unwrap();
        &self.dirs[i]
    }

    /// Puts a directory under its path, in place of what stood there, and
    /// returns what stood there.
    pub fn insert(&mut self, path: String, dir: Dir) -> (r: Option<Dir>)
        requires
            old(self).wf(),
            entry_wf(dir@, path@),
        ensures
            final(self).wf(),
            final(self)@ == old(self)@.insert(path@, dir@),
            match r {
                Some(d) => old(self)@.contains_key(path@) && d@ == old(self)@[path@],
                None => !old(self)@.contains_key(path@),
            },
    {
        let ghost before = self@;
        let r = match self.find(&path) {
            Some(i) => {
                self.dirs.push(dir);
                let previous = self.dirs.swap_remove(i);
                Some(previous)
            },
            None => {
                let n = self.dirs.len();
                self.dirs.push(dir);
                self.slots.insert(path, n);
                None
            },
        };
        proof {
            assert(self@ =~= before.insert(path@, dir@));
            assert forall|k: Seq<char>| self@.contains_key(k) implies entry_wf(
                #[trigger] self@[k],
                k,
            ) by {
                if k != path@ {
                    assert(before.contains_key(k));
                    assert(entry_wf(before[k], k));
                }
            }
        }
        r
    }

    /// The state after the record in one slot was changed into one that
    /// stands for `node`, under the same path.
    proof fn lemma_replace_entry(before: DirpState, after: DirpState, i: int, node: Node)
        requires
            before.wf(),
            0 <= i < before.dirs@.len(),
            after.slots@ == before.slots@,
            after.dirs@.len() == before.dirs@.len(),
            forall|k: int| 0 <= k < before.dirs@.len() && k != i ==> after.dirs@[k] == before.dirs@[k],
            after.dirs@[i].path@ == before.dirs@[i].path@,
            after.dirs@[i]@ == node,
            entry_wf(node, before.dirs@[i].path@),
        ensures
            after.wf(),
            after@ == before@.insert(before.dirs@[i].path@, node),
    {
        let key = before.dirs@[i].path@;
        assert(after@ =~= before@.insert(key, node)) by {
            assert forall|k: Seq<char>| after@.contains_key(k) implies after@[k] == before@.insert(
                key,
                node,
            )[k] by {
                if k != key {
                    assert(before.slots@[k] != i);
                }
            }
        }
        assert forall|k: Seq<char>| after@.contains_key(k) implies entry_wf(
            #[trigger] after@[k],
            k,
        ) by {
            assert(before@.contains_key(k));
            assert(entry_wf(before@[k], k));
        }
        assert forall|k: int| 0 <= k < after.dirs@.len() implies after.slots@.contains_key(
            (#[trigger] after.dirs@[k]).path@,
        ) && after.slots@[after.dirs@[k].path@] == k by {
            assert(before.slots@.contains_key(before.dirs@[k].path@));
        }
    }

/// Adds `delta` to the size of the directory in a slot.
    fn add_size_at(&mut self, i: usize, delta: u64)
        requires
            old(self).wf(),
            i < old(self).dirs@.len(),
            old(self).dirs@[i as int].size_in_bytes + delta <= u64::MAX,
        ensures
            final(self).wf(),
            final(self)@ == old(self)@.insert(
                old(self).dirs@[i as int].path@,
                grown(old(self).dirs@[i as int]@, delta as nat),
            ),
    {
        let ghost before = *self;
        self.dirs[i].size_in_bytes = self.dirs[i].size_in_bytes + delta;
        proof {
            let node = grown(before.dirs@[i as int]@, delta as nat);
            assert(self.dirs@[i as int]@.children =~= before.dirs@[i as int]@.children);
            assert(self.dirs@[i as int]@ == node);
            assert(entry_wf(before@[before.dirs@[i as int].path@], before.dirs@[i as int].path@));
            Self::lemma_replace_entry(before, *self, i as int, node);
        }
    }

/// Opens or closes the directory in a slot.
    fn set_open_at(&mut self, i: usize, open: bool)
        requires
            old(self).wf(),
            i < old(self).dirs@.len(),
        ensures
            final(self).wf(),
            final(self)@ == old(self)@.insert(
                old(self).dirs@[i as int].path@,
                Node { is_open: open, ..old(self).dirs@[i as int]@ },
            ),
    {
        let ghost before = *self;
        self.dirs[i].is_open = open;
        proof {
            let node = Node { is_open: open, ..before.dirs@[i as int]@ };
            assert(self.dirs@[i as int]@.children =~= before.dirs@[i as int]@.children);
            assert(self.dirs@[i as int]@ == node);
            assert(entry_wf(before@[before.dirs@[i as int].path@], before.dirs@[i as int].path@));
            Self::lemma_replace_entry(before, *self, i as int, node);
        }
    }

    /// Sets the mark of the directory in a slot, and of the files and links
    /// that it lists.
    fn mark_entry_at(&mut self, i: usize, value: bool)
        requires
            old(self).wf(),
            i < old(self).dirs@.len(),
        ensures
            final(self).wf(),
            final(self)@ == old(self)@.insert(
                old(self).dirs@[i as int].path@,
                mark_node(old(self).dirs@[i as int]@, value),
            ),
    {
        let ghost before = *self;
        let n = self.dirs[i].dir_obj_list.len();
        let mut j: usize = 0;
        while j < n
            invariant
                i < before.dirs@.len(),
                j <= n,
                n == before.dirs@[i as int].dir_obj_list@.len(),
                self.slots@ == before.slots@,
                self.dirs@.len() == before.dirs@.len(),
                forall|k: int|
                    0 <= k < before.dirs@.len() && k != i ==> self.dirs@[k] == before.dirs@[k],
                self.dirs@[i as int].path == before.dirs@[i as int].path,
                self.dirs@[i as int].size_in_bytes == before.dirs@[i as int].size_in_bytes,
                self.dirs@[i as int].percent == before.dirs@[i as int].percent,
                self.dirs@[i as int].is_open == before.dirs@[i as int].is_open,
                self.dirs@[i as int].is_marked == before.dirs@[i as int].is_marked,
                self.dirs@[i as int].dir_obj_list@.len() == n,
                forall|t: int|
                    0 <= t < j ==> (#[trigger] self.dirs@[i as int].dir_obj_list@[t])@
                        == mark_if_leaf(before.dirs@[i as int].dir_obj_list@[t]@, value),
                forall|t: int|
                    j <= t < n ==> (#[trigger] self.dirs@[i as int].dir_obj_list@[t])
                        == before.dirs@[i as int].dir_obj_list@[t],
            decreases n - j,
        {
            match &mut self.dirs[i].dir_obj_list[j] {
                FSObj::File(file) => {
                    file.is_marked = value;
                },
                FSObj::SymLink(sym_link) => {
                    sym_link.is_marked = value;
                },
                _ => {},
            }
            j = j + 1;
        }
        self.dirs[i].is_marked = value;
        proof {
            let node = mark_node(before.dirs@[i as int]@, value);
            lemma_dir_children(&self.dirs@[i as int]);
            lemma_dir_children(&before.dirs@[i as int]);
            assert(self.dirs@[i as int]@.children =~= node.children);
            assert(self.dirs@[i as int]@ == node);
            let key = before.dirs@[i as int].path@;
            assert(entry_wf(before@[key], key));
            assert forall|t: int| 0 <= t < node.children.len() implies child_wf(
                #[trigger] node.children[t],
                key,
            ) by {
                assert(child_wf(before@[key].children[t], key));
            }
            Self::lemma_replace_entry(before, *self, i as int, node);
        }
    }

    /// Sets the mark of the files and links under `path` in the listing of
    /// the directory in a slot.
    fn mark_leaf_at(&mut self, i: usize, path: &String, value: bool)
        requires
            old(self).wf(),
            i < old(self).dirs@.len(),
        ensures
            final(self).wf(),
            final(self)@ == old(self)@.insert(
                old(self).dirs@[i as int].path@,
                mark_leaf(old(self).dirs@[i as int]@, path@, value),
            ),
    {
        let ghost before = *self;
        let n = self.dirs[i].dir_obj_list.len();
        let mut j: usize = 0;
        while j < n
            invariant
                i < before.dirs@.len(),
                j <= n,
                n == before.dirs@[i as int].dir_obj_list@.len(),
                self.slots@ == before.slots@,
                self.dirs@.len() == before.dirs@.len(),
                forall|k: int|
                    0 <= k < before.dirs@.len() && k != i ==> self.dirs@[k] == before.dirs@[k],
                self.dirs@[i as int].path == before.dirs@[i as int].path,
                self.dirs@[i as int].size_in_bytes == before.dirs@[i as int].size_in_bytes,
                self.dirs@[i as int].percent == before.dirs@[i as int].percent,
                self.dirs@[i as int].is_open == before.dirs@[i as int].is_open,
                self.dirs@[i as int].is_marked == before.dirs@[i as int].is_marked,
                self.dirs@[i as int].dir_obj_list@.len() == n,
                forall|t: int|
                    0 <= t < j ==> (#[trigger] self.dirs@[i as int].dir_obj_list@[t])@ == (if before.dirs@[i as int].dir_obj_list@[t]@.path
                        == path@ {
                        mark_if_leaf(before.dirs@[i as int].dir_obj_list@[t]@, value)
                    } else {
                        before.dirs@[i as int].dir_obj_list@[t]@
                    }),
                forall|t: int|
                    j <= t < n ==> (#[trigger] self.dirs@[i as int].dir_obj_list@[t])
                        == before.dirs@[i as int].dir_obj_list@[t],
            decreases n - j,
        {
            match &mut self.dirs[i].dir_obj_list[j] {
                FSObj::File(file) => {
                    if file.path == *path {
                        file.is_marked = value;
                    }
                },
                FSObj::SymLink(sym_link) => {
                    if sym_link.path == *path {
                        sym_link.is_marked = value;
                    }
                },
                _ => {},
            }
            j = j + 1;
        }
        proof {
            let node = mark_leaf(before.dirs@[i as int]@, path@, value);
            lemma_dir_children(&self.dirs@[i as int]);
            lemma_dir_children(&before.dirs@[i as int]);
            assert(self.dirs@[i as int]@.children =~= node.children);
            assert(self.dirs@[i as int]@ == node);
            let key = before.dirs@[i as int].path@;
            assert(entry_wf(before@[key], key));
            assert forall|t: int| 0 <= t < node.children.len() implies child_wf(
                #[trigger] node.children[t],
                key,
            ) by {
                assert(child_wf(before@[key].children[t], key));
            }
            Self::lemma_replace_entry(before, *self, i as int, node);
        }
    }

    /// Marks the directory under `path` and everything that is linked below
    /// it.
    fn mark_subtree(&mut self, path: &String, value: bool)
        requires
            old(self).wf(),
            old(self)@.contains_key(path@),
        ensures
            final(self).wf(),
            final(self)@ == marked_below(old(self)@, path@, value),
        decreases key_len_bound(old(self)@.dom()) - path@.len(),
    {
        let ghost before = self@;
        let ghost top = path@;
        let i = self.find(path).unwrap();
        let n = self.dirs[i].dir_obj_list.len();
        proof {
            lemma_dir_children(&self.dirs@[i as int]);
        }
        self.mark_entry_at(i, value);
        proof {
            lemma_marking_starts(before, top, value);
        }
        let mut j: usize = 0;
        while j < n
            invariant
                self.wf(),
                index_wf(before),
                before.contains_key(top),
                top == path@,
                j <= n,
                n == before[top].children.len(),
                self@ == marked_so_far(before, top, j as int, value),
                before == old(self)@,
            decreases n - j,
        {
            proof {
                lemma_marking_steps(before, top, j as int, value);
            }
            let i = self.find(path).unwrap();
            proof {
                lemma_dir_children(&self.dirs@[i as int]);
            }
            let child: Option<String> = match &self.dirs[i].dir_obj_list[j] {
                FSObj::DirRef(dir_ref) => Some(dir_ref.path.clone()),
                _ => None,
            };
            match child {
                Some(child_path) => {
                    if self.path_exists(&child_path) {
                        proof {
                            assert(before[top].children[j as int].path == child_path@);
                            assert(child_wf(before[top].children[j as int], top));
                            lemma_parent_shorter(child_path@);
                            assert(self@.dom() =~= before.dom());
                            lemma_keys_bounded(before.dom());
                            assert(before.dom().contains(child_path@));
                        }
                        self.mark_subtree(&child_path, value);
                    }
                },
                None => {},
            }
            j = j + 1;
        }
        proof {
            lemma_marking_ends(before, top, value);
        }
    }

    /// Whether a path is marked, as `path_mark` defines it.
    pub fn is_path_marked(&self, path: &String) -> (r: Option<bool>)
        requires
            self.wf(),
        ensures
            r == path_mark(self@, path@),
    {
        match self.find(path) {
            Some(i) => Some(self.dirs[i].is_marked),
            None => {
                let parent = match parent_file_path(path) {
                    Some(parent) => parent,
                    None => {
                        return None;
                    },
                };
                let i = match self.find(&parent) {
                    Some(i) => i,
                    None => {
                        return None;
                    },
                };
                proof {
                    lemma_dir_children(&self.dirs@[i as int]);
                }
                let list = &self.dirs[i].dir_obj_list;
                let n = list.len();
                let mut j: usize = 0;
                assert(path_mark(self@, path@) == listing_mark(nodes_of(list@), path@, 0));
                while j < n
                    invariant
                        j <= n,
                        n == list@.len(),
                        path_mark(self@, path@) == listing_mark(nodes_of(list@), path@, 0),
                        listing_mark(nodes_of(list@), path@, j as int) == listing_mark(
                            nodes_of(list@),
                            path@,
                            0,
                        ),
                    decreases n - j,
                {
                    let found: Option<bool> = match &list[j] {
                        FSObj::Dir(obj) => if obj.path == *path {
                            Some(obj.is_marked)
                        } else {
                            None
                        },
                        FSObj::DirRef(obj) => if obj.path == *path {
                            Some(obj.is_marked)
                        } else {
                            None
                        },
                        FSObj::File(obj) => if obj.path == *path {
                            Some(obj.is_marked)
                        } else {
                            None
                        },
                        FSObj::SymLink(obj) => if obj.path == *path {
                            Some(obj.is_marked)
                        } else {
                            None
                        },
                    };
                    if found.is_some() {
                        return found;
                    }
                    j = j + 1;
                }
                None
            },
        }
    }

    /// Turns the mark of a path over, with everything below it; a path that
    /// is not found changes nothing. Says whether the path was found.
    pub fn toggle_mark_deep(&mut self, path: &String) -> (found: bool)
        requires
            old(self).wf(),
        ensures
            final(self).wf(),
            found == path_mark(old(self)@, path@).is_some(),
            final(self)@ == toggle_mark(old(self)@, path@),
    {
        match self.is_path_marked(path) {
            Some(marked) => {
                self.do_mark_deep(path, !marked);
                true
            },
            None => false,
        }
    }

    /// Marks or unmarks a path with everything below it. A directory of the
    /// index is marked with all that is linked below it; a file or a link is
    /// marked in the listing of its parent; any other path changes nothing.
    pub fn do_mark_deep(&mut self, path: &String, is_marked: bool)
        requires
            old(self).wf(),
        ensures
            final(self).wf(),
            final(self)@ == mark_deep(old(self)@, path@, is_marked),
    {
        if self.path_exists(path) {
            self.mark_subtree(path, is_marked);
        } else {
            match parent_file_path(path) {
                Some(parent) => {
                    match self.find(&parent) {
                        Some(i) => {
                            self.mark_leaf_at(i, path, is_marked);
                        },
                        None => {},
                    }
                },
                None => {},
            }
        }
    }

    /// Opens or closes the directory under the path, if there is one, and
    /// says whether there was one.
    pub fn set_open(&mut self, path: &String, open: bool) -> (found: bool)
        requires
            old(self).wf(),
        ensures
            final(self).wf(),
            found == old(self)@.contains_key(path@),
            final(self)@ == with_open(old(self)@, path@, open),
    {
        match self.find(path) {
            Some(i) => {
                self.set_open_at(i, open);
                true
            },
            None => false,
        }
    }

    /// Opens the directory under the path if it is closed, closes it if it is
    /// open, and says whether there was one.
    pub fn toggle_open(&mut self, path: &String) -> (found: bool)
        requires
            old(self).wf(),
        ensures
            final(self).wf(),
            found == old(self)@.contains_key(path@),
            final(self)@ == with_toggled(old(self)@, path@),
    {
        match self.find(path) {
            Some(i) => {
                let open = !self.dirs[i].is_open;
                self.set_open_at(i, open);
                true
            },
            None => false,
        }
    }

    /// Adds `delta` to the size of every ancestor of `path` that the index
    /// holds.
    fn add_size_to_ancestors(&mut self, path: &String, delta: u64)
        requires
            old(self).wf(),
            forall|k: Seq<char>|
                old(self)@.contains_key(k) && is_ancestor(k, path@) ==> (#[trigger] old(
                    self,
                )@[k]).size_in_bytes + delta <= u64::MAX,
        ensures
            final(self).wf(),
            final(self)@ == add_to_ancestors(old(self)@, path@, delta as nat),
    {
        let ghost before = self@;
        let mut cur = parent_file_path(path);
        proof {
            lemma_parent_shorter(path@);
            assert(self@ =~= walked(before, path@, opt_chars(cur), delta as nat));
        }
        while cur.is_some()
            invariant
                self.wf(),
                on_the_way_up(opt_chars(cur), path@),
                self@ == walked(before, path@, opt_chars(cur), delta as nat),
                forall|k: Seq<char>|
                    before.contains_key(k) && is_ancestor(k, path@) ==> (#[trigger] before[k]).size_in_bytes
                        + delta <= u64::MAX,
            decreases
                    (match opt_chars(cur) {
                        Some(q) => q.len() + 1,
                        None => 0,
                    }),
        {
            let q = cur.unwrap();
            let ghost state_before = self@;
            let ghost cur_before = Some(q@);
            match self.find(&q) {
                Some(i) => {
                    proof {
                        lemma_ancestor_not_self(q@);
                        assert(before.contains_key(q@));
                        assert(state_before[q@] == before[q@]);
                    }
                    self.add_size_at(i, delta);
                },
                None => {},
            }
            cur = parent_file_path(&q);
            proof {
                lemma_parent_shorter(q@);
                lemma_ancestor_not_self(q@);
                let next = opt_chars(cur);
                assert forall|k: Seq<char>| above(next, k) implies is_ancestor(k, path@) by {
                    lemma_ancestor_transitive(k, q@, path@);
                }
                assert(self@ =~= walked(before, path@, next, delta as nat)) by {
                    assert forall|k: Seq<char>| before.contains_key(k) implies self@[k] == walked(
                        before,
                        path@,
                        next,
                        delta as nat,
                    )[k] by {
                        if k == q@ {
                        } else {
                            assert(above(cur_before, k) == above(next, k));
                        }
                    }
                }
            }
        }
        assert(self@ =~= add_to_ancestors(before, path@, delta as nat));
    }

    /// Whether the sizes that a scan result would produce fit in 64 bits, as
    /// `scan_fits` defines it.
    pub fn does_scan_fit(&self, dir: &Dir) -> (r: bool)
        requires
            self.wf(),
        ensures
            r == scan_fits(self@, dir@),
    {
        proof {
            lemma_dir_children(dir);
        }
        let local = match local_size_of(&dir.dir_obj_list) {
            Some(v) => v,
            None => {
                return false;
            },
        };
        let mut cur = parent_file_path(&dir.path);
        proof {
            lemma_parent_shorter(dir@.path);
        }
        while cur.is_some()
            invariant
                self.wf(),
                local == local_size(dir@.children),
                on_the_way_up(opt_chars(cur), dir@.path),
                forall|k: Seq<char>|
                    self@.contains_key(k) && is_ancestor(k, dir@.path) && !above(opt_chars(cur), k)
                        ==> (#[trigger] self@[k]).size_in_bytes + local <= u64::MAX,
            decreases
                    (match opt_chars(cur) {
                        Some(q) => q.len() + 1,
                        None => 0,
                    }),
        {
            let q = cur.unwrap();
            match self.find(&q) {
                Some(i) => {
                    if self.dirs[i].size_in_bytes > u64::MAX - local {
                        return false;
                    }
                },
                None => {},
            }
            cur = parent_file_path(&q);
            proof {
                lemma_parent_shorter(q@);
                let next = opt_chars(cur);
                assert forall|k: Seq<char>| above(next, k) implies is_ancestor(k, dir@.path) by {
                    lemma_ancestor_transitive(k, q@, dir@.path);
                }
            }
        }
        true
    }

    /// Installs a finished scan: adds the bytes of its own files to every
    /// ancestor, puts its record into the index, and returns the paths of the
    /// directories that it lists, which are to be scanned next.
    pub fn process_dir_scan_message(&mut self, dir: Dir) -> (scans: Vec<String>)
        requires
            old(self).wf(),
            scan_ok(dir@),
            scan_fits(old(self)@, dir@),
        ensures
            final(self).wf(),
            final(self)@ == apply_scan(old(self)@, dir@),
            strings_of(scans@) == dir_ref_paths(dir@.children),
    {
        let ghost before = self@;
        let ghost scanned = dir@;
        let mut dir = dir;
        proof {
            lemma_dir_children(&dir);
        }
        let local = local_size_of(&dir.dir_obj_list).unwrap();
        let scans = dir_ref_paths_of(&dir.dir_obj_list);
        self.add_size_to_ancestors(&dir.path, local);
        proof {
            lemma_ancestor_not_self(dir.path@);
        }
        dir.size_in_bytes = local;
        match self.find(&dir.path) {
            Some(i) => {
                dir.is_open = self.dirs[i].is_open;
                dir.is_marked = self.dirs[i].is_marked;
            },
            None => {
                dir.is_marked = false;
            },
        }
        proof {
            lemma_dir_children(&dir);
            assert(dir@.children =~= scanned.children);
            assert(dir@ == installed(before, scanned));
        }
        let key = dir.path.clone();
        let _ = self.insert(key, dir);
        scans
    }
}

/// The listing of `n` refers at `t` to a directory of the index below which
/// `k` is linked.
spec fn child_link(index: Index, n: Node, t: int, k: Seq<char>) -> bool {
    &&& 0 <= t < n.children.len()
    &&& n.children[t].kind is DirRef
    &&& index.contains_key(n.children[t].path)
    &&& linked_below(index, n.children[t].path, k)
}

/// `k` is `top`, or is linked below one of the first `j` entries of the
/// listing of `top`.
spec fn reached(index: Index, top: Seq<char>, j: int, k: Seq<char>) -> bool {
    k == top || exists|t: int| t < j && #[trigger] child_link(index, index[top], t, k)
}

/// The index while the marking below `top` has gone through the first `j`
/// entries of the listing of `top`.
spec fn marked_so_far(index: Index, top: Seq<char>, j: int, value: bool) -> Index {
    Map::new(
        |k: Seq<char>| index.contains_key(k),
        |k: Seq<char>|
            if reached(index, top, j, k) {
                mark_node(index[k], value)
            } else {
                index[k]
            },
    )
}

/// Before any entry has been gone through, `top` alone is marked.
proof fn lemma_marking_starts(index: Index, top: Seq<char>, value: bool)
    requires
        index.contains_key(top),
    ensures
        index.insert(top, mark_node(index[top], value)) == marked_so_far(index, top, 0, value),
{
    assert(index.insert(top, mark_node(index[top], value)) =~= marked_so_far(
        index,
        top,
        0,
        value,
    ));
}

/// Marking changes no shape.
proof fn lemma_marked_so_far_shape(index: Index, top: Seq<char>, j: int, value: bool)
    ensures
        same_shape(index, marked_so_far(index, top, j, value)),
{
    assert(index.dom() =~= marked_so_far(index, top, j, value).dom());
}

/// What the next entry of the listing adds to the marking.
proof fn lemma_marking_steps(index: Index, top: Seq<char>, j: int, value: bool)
    requires
        index_wf(index),
        index.contains_key(top),
        0 <= j < index[top].children.len(),
    ensures
        ({
            let c = index[top].children[j];
            let now = marked_so_far(index, top, j, value);
            let next = marked_so_far(index, top, j + 1, value);
            &&& now.contains_key(top)
            &&& now[top].children.len() == index[top].children.len()
            &&& now[top].children[j].kind == c.kind
            &&& now[top].children[j].path == c.path
            &&& if c.kind is DirRef && index.contains_key(c.path) {
                marked_below(now, c.path, value) == next
            } else {
                now == next
            }
        }),
{
    let c = index[top].children[j];
    let now = marked_so_far(index, top, j, value);
    let next = marked_so_far(index, top, j + 1, value);
    lemma_marked_so_far_shape(index, top, j, value);
    assert(reached(index, top, j, top));
    if c.kind is DirRef && index.contains_key(c.path) {
        assert forall|k: Seq<char>| index.contains_key(k) implies marked_below(
            now,
            c.path,
            value,
        )[k] == next[k] by {
            lemma_same_shape_linked(index, now, c.path, k);
            lemma_mark_node_twice(index[k], value);
            if linked_below(index, c.path, k) {
                assert(child_link(index, index[top], j, k));
            }
            if reached(index, top, j + 1, k) && !reached(index, top, j, k) {
                let t = choose|t: int| t < j + 1 && #[trigger] child_link(index, index[top], t, k);
                assert(t == j);
            }
        }
        assert(marked_below(now, c.path, value) =~= next);
    } else {
        assert forall|k: Seq<char>| index.contains_key(k) implies now[k] == next[k] by {
            if reached(index, top, j + 1, k) && !reached(index, top, j, k) {
                let t = choose|t: int| t < j + 1 && #[trigger] child_link(index, index[top], t, k);
                assert(t == j);
            }
        }
        assert(now =~= next);
    }
}

/// Once the whole listing has been gone through, all that is linked below
/// `top` is marked.
proof fn lemma_marking_ends(index: Index, top: Seq<char>, value: bool)
    requires
        index_wf(index),
        index.contains_key(top),
    ensures
        marked_so_far(index, top, index[top].children.len() as int, value) == marked_below(
            index,
            top,
            value,
        ),
{
    let n = index[top].children.len() as int;
    assert forall|k: Seq<char>| index.contains_key(k) implies reached(index, top, n, k)
        == linked_below(index, top, k) by {
        if reached(index, top, n, k) {
            if k != top {
                let t = choose|t: int| t < n && #[trigger] child_link(index, index[top], t, k);
                let c = index[top].children[t];
                assert(child_wf(c, top));
                lemma_linked_down(index, top, c.path, k);
            }
        }
        if linked_below(index, top, k) && k != top {
            let c = lemma_linked_up(index, top, k);
            let t = choose|t: int|
                0 <= t < index[top].children.len() && (#[trigger] index[top].children[t]).kind is DirRef
                    && index[top].children[t].path == c;
            assert(child_link(index, index[top], t, k));
        }
    }
    assert(marked_so_far(index, top, n, value) =~= marked_below(index, top, value));
}

/// `top` is the path that the walk from `path` towards the root has reached,
/// or the walk is over.
spec fn on_the_way_up(top: Option<Seq<char>>, path: Seq<char>) -> bool {
    forall|k: Seq<char>| above(top, k) ==> is_ancestor(k, path)
}

/// `k` is the path that the walk has reached, or lies above it.
spec fn above(top: Option<Seq<char>>, k: Seq<char>) -> bool {
    match top {
        Some(q) => q == k || is_ancestor(k, q),
        None => false,
    }
}

/// The index while the walk from `path` towards the root stands at `top`:
/// the ancestors that it has passed have grown by `delta`.
spec fn walked(index: Index, path: Seq<char>, top: Option<Seq<char>>, delta: nat) -> Index {
    Map::new(
        |k: Seq<char>| index.contains_key(k),
        |k: Seq<char>|
            if is_ancestor(k, path) && !above(top, k) {
                grown(index[k], delta)
            } else {
                index[k]
            },
    )
}

} // verus!
