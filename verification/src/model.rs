//! The index of scanned directories as a mathematical map from paths to
//! nodes, and what each message does to it.

use crate::paths::{is_ancestor, lemma_parent_shorter, parent_path};
use crate::types::Node;
use vstd::prelude::*;

verus! {

/// The index: each scanned directory under its path.
pub type Index = Map<Seq<char>, Node>;

/// No key is longer than `bound`.
pub open spec fn keys_bounded(keys: Set<Seq<char>>, bound: nat) -> bool {
    forall|k: Seq<char>| keys.contains(k) ==> k.len() <= bound
}

/// A length that no key exceeds, where there is one.
pub open spec fn key_len_bound(keys: Set<Seq<char>>) -> nat {
    choose|b: nat| keys_bounded(keys, b)
}

/// The keys of a finite set have a longest one.
pub proof fn lemma_keys_bounded(keys: Set<Seq<char>>)
    requires
        keys.finite(),
    ensures
        keys_bounded(keys, key_len_bound(keys)),
    decreases keys.len(),
{
    if keys.len() == 0 {
        assert(keys =~= Set::<Seq<char>>::empty());
        assert(keys_bounded(keys, 0));
    } else {
        let x = keys.choose();
        let rest = keys.remove(x);
        lemma_keys_bounded(rest);
        let b = key_len_bound(rest);
        let b2 = if b >= x.len() {
            b
        } else {
            x.len()
        };
        assert forall|k: Seq<char>| keys.contains(k) implies k.len() <= b2 by {
            if k != x {
                assert(rest.contains(k));
            }
        }
        assert(keys_bounded(keys, b2));
    }
}

/// An entry of a directory's listing: a file, a link or a reference to a
/// directory, which lies directly in that directory.
pub open spec fn child_wf(c: Node, parent: Seq<char>) -> bool {
    &&& !(c.kind is Dir)
    &&& c.children.len() == 0
    &&& parent_path(c.path) == Some(parent)
}

/// No two entries of the listing stand under one path.
pub open spec fn distinct_paths(children: Seq<Node>) -> bool {
    forall|i: int, j: int|
        0 <= i < j < children.len() ==> (#[trigger] children[i]).path != (
        #[trigger] children[j]).path
}

/// A directory record whose listing holds entries of that directory only,
/// each under a path of its own.
pub open spec fn entry_wf(n: Node, key: Seq<char>) -> bool {
    &&& n.kind is Dir
    &&& n.path == key
    &&& forall|i: int| 0 <= i < n.children.len() ==> child_wf(#[trigger] n.children[i], key)
    &&& distinct_paths(n.children)
}

/// The index holds finitely many records, and every record stands under
/// its own path and is well formed.
pub open spec fn index_wf(index: Index) -> bool {
    &&& index.dom().finite()
    &&& forall|k: Seq<char>| index.contains_key(k) ==> entry_wf(#[trigger] index[k], k)
}

/// What an entry adds to the size of its directory: the size of a file,
/// nothing for a link or a directory.
pub open spec fn file_bytes(c: Node) -> nat {
    if c.kind is File {
        c.size_in_bytes
    } else {
        0
    }
}

/// The bytes of the files that lie directly in a listing.
pub open spec fn local_size(children: Seq<Node>) -> nat
    decreases children.len(),
{
    if children.len() == 0 {
        0
    } else {
        local_size(children.drop_last()) + file_bytes(children.last())
    }
}

/// The paths of the directories in a listing, in order.
pub open spec fn dir_ref_paths(children: Seq<Node>) -> Seq<Seq<char>>
    decreases children.len(),
{
    if children.len() == 0 {
        Seq::empty()
    } else if children.last().kind is DirRef {
        dir_ref_paths(children.drop_last()).push(children.last().path)
    } else {
        dir_ref_paths(children.drop_last())
    }
}

/// A scan result that can be installed: its entries lie directly in the
/// scanned directory, each under a path of its own, and none of them is a
/// whole directory record.
pub open spec fn scan_ok(dir: Node) -> bool {
    entry_wf(dir, dir.path)
}

/// The sizes that the scan result would produce all fit in 64 bits.
pub open spec fn scan_fits(index: Index, dir: Node) -> bool {
    &&& local_size(dir.children) <= u64::MAX
    &&& forall|k: Seq<char>|
        index.contains_key(k) && is_ancestor(k, dir.path) ==> (#[trigger] index[k]).size_in_bytes
            + local_size(dir.children) <= u64::MAX
}

/// The node with `delta` added to its size.
pub open spec fn grown(n: Node, delta: nat) -> Node {
    Node { size_in_bytes: n.size_in_bytes + delta, ..n }
}

/// The index with `delta` added to the size of every ancestor of `path`.
pub open spec fn add_to_ancestors(index: Index, path: Seq<char>, delta: nat) -> Index {
    Map::new(
        |k: Seq<char>| index.contains_key(k),
        |k: Seq<char>|
            if is_ancestor(k, path) {
                grown(index[k], delta)
            } else {
                index[k]
            },
    )
}

/// The record that a scan result leaves in the index: its size is that of its
/// own files; whether it is open and marked stays as it was where the
/// directory was known before.
pub open spec fn installed(index: Index, dir: Node) -> Node {
    Node {
        size_in_bytes: local_size(dir.children),
        is_open: if index.contains_key(dir.path) {
            index[dir.path].is_open
        } else {
            dir.is_open
        },
        is_marked: if index.contains_key(dir.path) {
            index[dir.path].is_marked
        } else {
            false
        },
        ..dir
    }
}

/// The index after a scan result has been installed: the bytes of its own
/// files are added to every ancestor, and its record replaces what stood
/// under its path.
pub open spec fn apply_scan(index: Index, dir: Node) -> Index {
    add_to_ancestors(index, dir.path, local_size(dir.children)).insert(
        dir.path,
        installed(index, dir),
    )
}

/// The index with the directory under `path`, if there is one, opened or
/// closed.
pub open spec fn with_open(index: Index, path: Seq<char>, open: bool) -> Index {
    if index.contains_key(path) {
        index.insert(path, Node { is_open: open, ..index[path] })
    } else {
        index
    }
}

/// The index with the directory under `path`, if there is one, opened if it
/// was closed and closed if it was open.
pub open spec fn with_toggled(index: Index, path: Seq<char>) -> Index {
    if index.contains_key(path) {
        with_open(index, path, !index[path].is_open)
    } else {
        index
    }
}

/// A file or a link: an entry with nothing below it.
pub open spec fn is_leaf(c: Node) -> bool {
    c.kind is File || c.kind is SymLink
}

/// The entry with its mark set, if it is a file or a link.
pub open spec fn mark_if_leaf(c: Node, value: bool) -> Node {
    if is_leaf(c) {
        Node { is_marked: value, ..c }
    } else {
        c
    }
}

/// The directory with its mark set, and with it the mark of every file and
/// link in its listing.
pub open spec fn mark_node(n: Node, value: bool) -> Node {
    Node {
        is_marked: value,
        children: Seq::new(n.children.len(), |i: int| mark_if_leaf(n.children[i], value)),
        ..n
    }
}

/// The directory with the mark set on the files and links of its listing
/// that stand under `path`.
pub open spec fn mark_leaf(n: Node, path: Seq<char>, value: bool) -> Node {
    Node {
        children: Seq::new(
            n.children.len(),
            |i: int|
                if n.children[i].path == path {
                    mark_if_leaf(n.children[i], value)
                } else {
                    n.children[i]
                },
        ),
        ..n
    }
}

/// The listing of the directory refers to a directory under `path`.
pub open spec fn lists_dir(n: Node, path: Seq<char>) -> bool {
    exists|i: int|
        0 <= i < n.children.len() && (#[trigger] n.children[i]).kind is DirRef
            && n.children[i].path == path
}

/// `k` is `top`, or is reached from `top` by going down through listings:
/// every directory on the way from `top` to `k` is in the index and is
/// referred to by the listing of its parent.
pub open spec fn linked_below(index: Index, top: Seq<char>, k: Seq<char>) -> bool
    decreases k.len(),
    via linked_below_decreases
{
    index.contains_key(k) && (k == top || match parent_path(k) {
        Some(q) => index.contains_key(q) && lists_dir(index[q], k) && linked_below(index, top, q),
        None => false,
    })
}

#[via_fn]
proof fn linked_below_decreases(index: Index, top: Seq<char>, k: Seq<char>) {
    lemma_parent_shorter(k);
}

/// The index with the mark set on every directory that is linked below
/// `top`, and on the files and links that they list.
pub open spec fn marked_below(index: Index, top: Seq<char>, value: bool) -> Index {
    Map::new(
        |k: Seq<char>| index.contains_key(k),
        |k: Seq<char>|
            if linked_below(index, top, k) {
                mark_node(index[k], value)
            } else {
                index[k]
            },
    )
}

/// The index after a deep mark of `path`. A directory of the index is marked
/// with everything that is linked below it. Any other path is looked for in
/// the listing of its parent, and marked there if it is a file or a link.
/// A path that is found in neither way leaves the index as it is.
pub open spec fn mark_deep(index: Index, path: Seq<char>, value: bool) -> Index {
    if index.contains_key(path) {
        marked_below(index, path, value)
    } else {
        match parent_path(path) {
            Some(q) => if index.contains_key(q) {
                index.insert(q, mark_leaf(index[q], path, value))
            } else {
                index
            },
            None => index,
        }
    }
}

/// The mark of the first entry of the listing, from `from` on, that stands
/// under `path`.
pub open spec fn listing_mark(children: Seq<Node>, path: Seq<char>, from: int) -> Option<bool>
    decreases children.len() - from,
{
    if from < 0 || from >= children.len() {
        None
    } else if children[from].path == path {
        Some(children[from].is_marked)
    } else {
        listing_mark(children, path, from + 1)
    }
}

/// Whether a path is marked: the mark of the directory that stands under it
/// in the index; else the mark of the first entry under that path in the
/// listing of its parent; `None` where the path is found in neither way.
pub open spec fn path_mark(index: Index, path: Seq<char>) -> Option<bool> {
    if index.contains_key(path) {
        Some(index[path].is_marked)
    } else {
        match parent_path(path) {
            Some(q) => if index.contains_key(q) {
                listing_mark(index[q].children, path, 0)
            } else {
                None
            },
            None => None,
        }
    }
}

/// The index after the mark of a path has been turned over, deeply; a path
/// that is not found leaves the index as it is.
pub open spec fn toggle_mark(index: Index, path: Seq<char>) -> Index {
    match path_mark(index, path) {
        Some(m) => mark_deep(index, path, !m),
        None => index,
    }
}

/// The two indexes hold the same directories with the same listings, marks
/// and sizes aside.
pub open spec fn same_shape(a: Index, b: Index) -> bool {
    &&& a.dom() == b.dom()
    &&& forall|k: Seq<char>| #[trigger]
        a.contains_key(k) ==> a[k].children.len() == b[k].children.len() && a[k].path == b[k].path
            && a[k].kind == b[k].kind
    &&& forall|k: Seq<char>, i: int|
        a.contains_key(k) && 0 <= i < a[k].children.len() ==> (#[trigger] a[k].children[i]).kind
            == b[k].children[i].kind && a[k].children[i].path == b[k].children[i].path
            && a[k].children[i].children == b[k].children[i].children
}

/// Indexes of one shape list the same directories.
pub proof fn lemma_same_shape_lists(a: Index, b: Index, q: Seq<char>, k: Seq<char>)
    requires
        same_shape(a, b),
        a.contains_key(q),
    ensures
        lists_dir(a[q], k) == lists_dir(b[q], k),
{
    assert(b.contains_key(q));
    if lists_dir(a[q], k) {
        let i = choose|i: int|
            0 <= i < a[q].children.len() && (#[trigger] a[q].children[i]).kind is DirRef
                && a[q].children[i].path == k;
        assert(b[q].children[i].kind is DirRef && b[q].children[i].path == k);
    }
    if lists_dir(b[q], k) {
        let i = choose|i: int|
            0 <= i < b[q].children.len() && (#[trigger] b[q].children[i]).kind is DirRef
                && b[q].children[i].path == k;
        assert(a[q].children[i].kind is DirRef && a[q].children[i].path == k);
    }
}

/// What is linked below a directory depends on the shape of the index only.
pub proof fn lemma_same_shape_linked(a: Index, b: Index, top: Seq<char>, k: Seq<char>)
    requires
        same_shape(a, b),
    ensures
        linked_below(a, top, k) == linked_below(b, top, k),
    decreases k.len(),
{
    assert(a.contains_key(k) == b.contains_key(k));
    lemma_parent_shorter(k);
    if a.contains_key(k) && k != top {
        match parent_path(k) {
            Some(q) => {
                assert(a.contains_key(q) == b.contains_key(q));
                if a.contains_key(q) {
                    lemma_same_shape_lists(a, b, q, k);
                    lemma_same_shape_linked(a, b, top, q);
                }
            },
            None => {},
        }
    }
}

/// Marking a directory twice with one value is marking it once.
pub proof fn lemma_mark_node_twice(n: Node, value: bool)
    ensures
        mark_node(mark_node(n, value), value) == mark_node(n, value),
{
    assert(mark_node(mark_node(n, value), value).children =~= mark_node(n, value).children);
}

/// A directory is linked below `top` where it is linked below a directory
/// that `top` lists.
pub proof fn lemma_linked_down(index: Index, top: Seq<char>, c: Seq<char>, k: Seq<char>)
    requires
        index.contains_key(top),
        parent_path(c) == Some(top),
        lists_dir(index[top], c),
        linked_below(index, c, k),
    ensures
        linked_below(index, top, k),
    decreases k.len(),
{
    lemma_parent_shorter(k);
    if k == top {
    } else if k == c {
        assert(linked_below(index, top, top));
    } else {
        let q = parent_path(k)->Some_0;
        lemma_linked_down(index, top, c, q);
    }
}

/// A directory that is linked below `top`, and is not `top`, is linked below
/// a directory that `top` lists.
pub proof fn lemma_linked_up(index: Index, top: Seq<char>, k: Seq<char>) -> (c: Seq<char>)
    requires
        linked_below(index, top, k),
        k != top,
    ensures
        index.contains_key(top),
        index.contains_key(c),
        lists_dir(index[top], c),
        linked_below(index, c, k),
    decreases k.len(),
{
    lemma_parent_shorter(k);
    let q = parent_path(k)->Some_0;
    if q == top {
        k
    } else {
        lemma_linked_up(index, top, q)
    }
}

/// Marking below a directory keeps the index well formed and its shape.
pub proof fn lemma_marked_below_wf(index: Index, top: Seq<char>, value: bool)
    requires
        index_wf(index),
    ensures
        index_wf(marked_below(index, top, value)),
        same_shape(index, marked_below(index, top, value)),
{
    let next = marked_below(index, top, value);
    assert(next.dom() =~= index.dom());
    assert forall|k: Seq<char>| next.contains_key(k) implies entry_wf(#[trigger] next[k], k) by {
        assert(entry_wf(index[k], k));
        assert forall|i: int| 0 <= i < next[k].children.len() implies child_wf(
            #[trigger] next[k].children[i],
            k,
        ) by {
            assert(child_wf(index[k].children[i], k));
        }
    }
}

/// Marking a path deeply keeps the index well formed and its shape.
pub proof fn lemma_mark_deep_wf(index: Index, path: Seq<char>, value: bool)
    requires
        index_wf(index),
    ensures
        index_wf(mark_deep(index, path, value)),
        same_shape(index, mark_deep(index, path, value)),
{
    let next = mark_deep(index, path, value);
    if index.contains_key(path) {
        lemma_marked_below_wf(index, path, value);
    } else {
        assert(next.dom() =~= index.dom());
        assert forall|k: Seq<char>| next.contains_key(k) implies entry_wf(#[trigger] next[k], k) by {
            assert(entry_wf(index[k], k));
            assert forall|i: int| 0 <= i < next[k].children.len() implies child_wf(
                #[trigger] next[k].children[i],
                k,
            ) by {
                assert(child_wf(index[k].children[i], k));
            }
        }
    }
}

/// What one more entry adds to the bytes and to the directories of a
/// listing.
pub proof fn lemma_local_size_push(children: Seq<Node>, c: Node)
    ensures
        local_size(children.push(c)) == local_size(children) + file_bytes(c),
        dir_ref_paths(children.push(c)) == if c.kind is DirRef {
            dir_ref_paths(children).push(c.path)
        } else {
            dir_ref_paths(children)
        },
{
    assert(children.push(c).drop_last() =~= children);
}

/// Installing a well-formed scan result keeps the index well formed.
pub proof fn lemma_apply_scan_wf(index: Index, dir: Node)
    requires
        index_wf(index),
        scan_ok(dir),
    ensures
        index_wf(apply_scan(index, dir)),
{
    let next = apply_scan(index, dir);
    assert(next.dom() =~= index.dom().insert(dir.path));
    assert forall|k: Seq<char>| next.contains_key(k) implies entry_wf(#[trigger] next[k], k) by {
        if k == dir.path {
            assert(next[k].children == dir.children);
        } else {
            assert(index.contains_key(k));
            assert(entry_wf(index[k], k));
            assert(next[k].children == index[k].children);
        }
    }
}

} // verus!
