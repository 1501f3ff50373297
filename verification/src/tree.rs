//! The view tree: what of the index is shown, with each node's share of the
//! root, and the marked paths that are collected from it.

use crate::laws::law_removal_list_is_free_of_nesting;
use crate::model::{
    child_wf, entry_wf, index_wf, is_leaf, key_len_bound, lemma_keys_bounded, Index,
};
use crate::paths::{chars_of, is_ancestor, lemma_parent_shorter};
use crate::sorting::{
    is_permutation, is_stable, lemma_order_is_permutation, lemma_order_is_sorted_and_stable,
    positions, stable_order, stable_sort, Before, Ranked,
};
use crate::state::DirpState;
use crate::types::{
    copy_dir, lemma_dir_children, nodes_of, strings_of, Dir, FSObj, Kind, Node,
};
use vstd::prelude::*;

verus! {

/// The share of `total` that `size` is, in percent, rounded to the nearest
/// whole number and never above 100; 0 where the total is 0.
pub open spec fn percent_of(size: nat, total: nat) -> nat {
    if total == 0 {
        0
    } else if (200 * size + total) / (2 * total) > 100 {
        100
    } else {
        (200 * size + total) / (2 * total)
    }
}

/// What stands in the tree for a directory that the index does not hold yet.
pub open spec fn stub(path: Seq<char>) -> Node {
    Node {
        kind: Kind::Dir,
        path: path,
        size_in_bytes: 0,
        percent: 0,
        is_marked: false,
        is_open: false,
        children: Seq::empty(),
    }
}

/// The tree below `path`: the directory of the index with its share of
/// `total`; its listing is shown where it is open or all is to be included.
pub open spec fn view_node(index: Index, path: Seq<char>, include_all: bool, total: nat) -> Node
    decreases key_len_bound(index.dom()) - path.len(), 1nat,
    when index_wf(index)
{
    if index.contains_key(path) {
        let d = index[path];
        Node {
            percent: percent_of(d.size_in_bytes, total),
            children: if d.is_open || include_all {
                Seq::new(
                    d.children.len(),
                    |i: int|
                        if 0 <= i < d.children.len() {
                            view_entry(index, path, i, include_all, total)
                        } else {
                            arbitrary()
                        },
                )
            } else {
                Seq::empty()
            },
            ..d
        }
    } else {
        stub(path)
    }
}

/// What stands in the tree for entry `i` of the listing of `parent`: a file
/// or a link with its share of `total`; for a directory, its tree where the
/// index holds it, and a stub where it does not.
pub open spec fn view_entry(
    index: Index,
    parent: Seq<char>,
    i: int,
    include_all: bool,
    total: nat,
) -> Node
    decreases key_len_bound(index.dom()) - parent.len(), 0nat,
    when index_wf(index) && index.contains_key(parent) && 0 <= i < index[parent].children.len()
    via view_entry_decreases
{
    let c = index[parent].children[i];
    if c.kind is DirRef {
        if index.contains_key(c.path) {
            view_node(index, c.path, include_all, total)
        } else {
            stub(c.path)
        }
    } else {
        Node { percent: percent_of(c.size_in_bytes, total), ..c }
    }
}

#[via_fn]
proof fn view_entry_decreases(
    index: Index,
    parent: Seq<char>,
    i: int,
    include_all: bool,
    total: nat,
) {
    let c = index[parent].children[i];
    if c.kind is DirRef && index.contains_key(c.path) {
        assert(entry_wf(index[parent], parent));
        assert(child_wf(c, parent));
        lemma_parent_shorter(c.path);
        lemma_keys_bounded(index.dom());
        assert(index.dom().contains(c.path));
    }
}

/// The tree that is published for the root `path`: every share is a share
/// of the size of the root.
pub open spec fn view_tree(index: Index, path: Seq<char>, include_all: bool) -> Node {
    view_node(
        index,
        path,
        include_all,
        if index.contains_key(path) {
            index[path].size_in_bytes
        } else {
            0
        },
    )
}

/// The share of `total` that `size` is, as `percent_of` defines it.
pub fn percent(size: u64, total: u64) -> (r: u8)
    ensures
        r == percent_of(size as nat, total as nat),
{
    if total == 0 {
        0
    } else {
        let wide: u128 = (200u128 * (size as u128) + (total as u128)) / (2u128 * (total as u128));
        if wide > 100 {
            100
        } else {
            wide as u8
        }
    }
}

/// What stands in the tree for a directory that the index does not hold yet.
fn stub_dir(path: &String) -> (r: Dir)
    ensures
        r@ == stub(path@),
{
    let r = Dir {
        path: path.clone(),
        size_in_bytes: 0,
        percent: 0,
        is_marked: false,
        is_open: false,
        dir_obj_list: Vec::new(),
    };
    proof {
        lemma_dir_children(&r);
        assert(r@.children =~= Seq::<Node>::empty());
    }
    r
}

/// The tree below `path`, with shares of `total`.
pub fn _build_result_tree(
    path: &String,
    include_all: bool,
    dirp_state: &DirpState,
    total: u64,
) -> (r: Dir)
    requires
        dirp_state.wf(),
    ensures
        r@ == view_node(dirp_state@, path@, include_all, total as nat),
    decreases key_len_bound(dirp_state@.dom()) - path@.len(),
{
    proof {
        dirp_state.lemma_wf();
    }
    let ghost index = dirp_state@;
    match dirp_state.get(path) {
        Some(dir) => {
            let mut list: Vec<FSObj> = Vec::new();
            proof {
                lemma_dir_children(dir);
                assert(entry_wf(index[path@], path@));
            }
            if dir.is_open || include_all {
                let n = dir.dir_obj_list.len();
                let mut i: usize = 0;
                while i < n
                    invariant
                        dirp_state.wf(),
                        index == dirp_state@,
                        index_wf(index),
                        index.contains_key(path@),
                        dir@ == index[path@],
                        dir@.children == nodes_of(dir.dir_obj_list@),
                        n == dir.dir_obj_list@.len(),
                        i <= n,
                        list@.len() == i,
                        forall|j: int|
                            0 <= j < i ==> (#[trigger] list@[j])@ == view_entry(
                                index,
                                path@,
                                j,
                                include_all,
                                total as nat,
                            ),
                    decreases n - i,
                {
                    proof {
                        assert(entry_wf(index[path@], path@));
                        assert(child_wf(dir@.children[i as int], path@));
                    }
                    let shown = match &dir.dir_obj_list[i] {
                        FSObj::Dir(child) => {
                            let mut child = copy_dir(child);
                            let ghost children = child@.children;
                            child.percent = percent(child.size_in_bytes, total);
                            proof {
                                lemma_dir_children(&child);
                                assert(child@.children =~= children);
                            }
                            FSObj::Dir(child)
                        },
                        FSObj::DirRef(dir_ref) => {
                            if dirp_state.path_exists(&dir_ref.path) {
                                proof {
                                    lemma_parent_shorter(dir_ref.path@);
                                    lemma_keys_bounded(index.dom());
                                    assert(index.dom().contains(dir_ref.path@));
                                }
                                FSObj::Dir(
                                    _build_result_tree(
                                        &dir_ref.path,
                                        include_all,
                                        dirp_state,
                                        total,
                                    ),
                                )
                            } else {
                                FSObj::Dir(stub_dir(&dir_ref.path))
                            }
                        },
                        FSObj::File(file) => {
                            let mut file = file.clone();
                            file.percent = percent(file.size_in_bytes, total);
                            FSObj::File(file)
                        },
                        FSObj::SymLink(sym_link) => {
                            let mut sym_link = sym_link.clone();
                            sym_link.percent = percent(sym_link.size_in_bytes, total);
                            FSObj::SymLink(sym_link)
                        },
                    };
                    list.push(shown);
                    i = i + 1;
                }
            }
            let r = Dir {
                path: dir.path.clone(),
                size_in_bytes: dir.size_in_bytes,
                percent: percent(dir.size_in_bytes, total),
                is_marked: dir.is_marked,
                is_open: dir.is_open,
                dir_obj_list: list,
            };
            proof {
                lemma_dir_children(&r);
                assert(r@.children =~= view_node(
                    index,
                    path@,
                    include_all,
                    total as nat,
                ).children);
            }
            r
        },
        None => stub_dir(path),
    }
}

/// The tree that is published for the root `path`.
pub fn build_result_tree(path: &String, include_all: bool, dirp_state: &DirpState) -> (r: Dir)
    requires
        dirp_state.wf(),
    ensures
        r@ == view_tree(dirp_state@, path@, include_all),
{
    let total = match dirp_state.get(path) {
        Some(root_dir) => root_dir.size_in_bytes,
        None => 0,
    };
    _build_result_tree(path, include_all, dirp_state, total)
}

/// The marked paths of a tree, from the top down and in the order of the
/// listings: a marked directory stands for all that is below it, so nothing
/// below a marked directory is collected.
pub open spec fn collect_marked(n: Node) -> Seq<Seq<char>>
    decreases n,
{
    if n.kind is Dir {
        if n.is_marked {
            seq![n.path]
        } else {
            collect_marked_in(n.children)
        }
    } else if is_leaf(n) && n.is_marked {
        seq![n.path]
    } else {
        Seq::empty()
    }
}

/// The marked paths of the trees of a listing, one tree after the other.
pub open spec fn collect_marked_in(children: Seq<Node>) -> Seq<Seq<char>>
    decreases children,
{
    if children.len() == 0 {
        Seq::empty()
    } else {
        collect_marked_in(children.drop_last()) + collect_marked(children.last())
    }
}

/// `a` comes before `b`, or is `b`, where texts are compared character by
/// character from `i` on; a text comes before those that it begins.
pub open spec fn lex_le_from(a: Seq<char>, b: Seq<char>, i: int) -> bool
    decreases a.len() - i,
{
    if i < 0 || i >= a.len() {
        true
    } else if i >= b.len() {
        false
    } else if a[i] != b[i] {
        (a[i] as int) < (b[i] as int)
    } else {
        lex_le_from(a, b, i + 1)
    }
}

/// `a` comes before `b`, or is `b`, in the order of texts.
pub open spec fn lex_le(a: Seq<char>, b: Seq<char>) -> bool {
    lex_le_from(a, b, 0)
}

/// Which of the texts may stand before which.
pub open spec fn text_before(texts: Seq<Seq<char>>) -> Before {
    |i: int, j: int| lex_le(texts[i], texts[j])
}

/// The texts in ascending order; equal ones stay as they came.
pub open spec fn sorted_texts(texts: Seq<Seq<char>>) -> Seq<Seq<char>> {
    Seq::new(texts.len(), |k: int| texts[stable_order(texts.len(), text_before(texts))[k]])
}

/// No path of the list stands in it twice, and none lies below another.
pub open spec fn free_of_nesting(list: Seq<Seq<char>>) -> bool {
    forall|a: int, b: int|
        0 <= a < list.len() && 0 <= b < list.len() && a != b ==> (#[trigger] list[a]) != (
        #[trigger] list[b]) && !is_ancestor(list[a], list[b])
}

/// The paths that are to be removed: the marked paths of the whole tree
/// below the root, sorted.
pub open spec fn marked_paths(index: Index, root: Seq<char>) -> Seq<Seq<char>> {
    sorted_texts(collect_marked(view_tree(index, root, true)))
}

/// Of two texts one comes before the other, or they are equal.
pub proof fn lemma_lex_le_total(a: Seq<char>, b: Seq<char>, i: int)
    requires
        0 <= i,
    ensures
        lex_le_from(a, b, i) || lex_le_from(b, a, i),
    decreases a.len() - i,
{
    if i < a.len() && i < b.len() && a[i] == b[i] {
        lemma_lex_le_total(a, b, i + 1);
    }
}

/// A text that comes before a second, which comes before a third, comes
/// before the third.
pub proof fn lemma_lex_le_transitive(a: Seq<char>, b: Seq<char>, c: Seq<char>, i: int)
    requires
        0 <= i,
        lex_le_from(a, b, i),
        lex_le_from(b, c, i),
    ensures
        lex_le_from(a, c, i),
    decreases a.len() - i,
{
    if i < a.len() && i < b.len() && i < c.len() && a[i] == b[i] && b[i] == c[i] {
        lemma_lex_le_transitive(a, b, c, i + 1);
    }
}

/// The sorted texts are the given texts in another order, ascending, and
/// equal texts have kept their order.
pub proof fn lemma_sorted_texts(texts: Seq<Seq<char>>)
    ensures
        sorted_texts(texts).len() == texts.len(),
        is_permutation(stable_order(texts.len(), text_before(texts)), texts.len()),
        is_stable(stable_order(texts.len(), text_before(texts)), text_before(texts)),
        forall|a: int, b: int|
            0 <= a <= b < texts.len() ==> lex_le(
                #[trigger] sorted_texts(texts)[a],
                #[trigger] sorted_texts(texts)[b],
            ),
{
    let le = text_before(texts);
    let order = stable_order(texts.len(), le);
    assert forall|i: int, j: int| #[trigger] le(i, j) || le(j, i) by {
        lemma_lex_le_total(texts[i], texts[j], 0);
    }
    assert forall|i: int, j: int, k: int| #[trigger] le(i, j) && #[trigger] le(j, k) implies le(
        i,
        k,
    ) by {
        lemma_lex_le_transitive(texts[i], texts[j], texts[k], 0);
    }
    lemma_order_is_permutation(texts.len(), le);
    lemma_order_is_sorted_and_stable(texts.len(), le);
    assert forall|a: int, b: int| 0 <= a <= b < texts.len() implies lex_le(
        #[trigger] sorted_texts(texts)[a],
        #[trigger] sorted_texts(texts)[b],
    ) by {
        if a < b {
            assert(le(order[a], order[b]));
        } else {
            lemma_lex_le_total(texts[order[a]], texts[order[a]], 0);
        }
    }
}

/// Whether `a` comes before `b`, or is `b`, as `lex_le` defines it.
fn is_lex_le(a: &Vec<char>, b: &Vec<char>) -> (r: bool)
    ensures
        r == lex_le(a@, b@),
{
    let mut i: usize = 0;
    loop
        invariant
            i <= a@.len(),
            lex_le_from(a@, b@, i as int) == lex_le(a@, b@),
        decreases a@.len() - i,
    {
        if i >= a.len() {
            return true;
        } else if i >= b.len() {
            return false;
        } else if a[i] != b[i] {
            return a[i] < b[i];
        }
        i = i + 1;
    }
}

/// The texts of a list of character vectors, in order.
pub open spec fn texts_of(chars: Seq<Vec<char>>) -> Seq<Seq<char>> {
    Seq::new(chars.len(), |i: int| chars[i]@)
}

/// Texts, ranked in the order of texts.
struct ByText<'a> {
    chars: &'a Vec<Vec<char>>,
}

impl<'a> Ranked for ByText<'a> {
    closed spec fn count(&self) -> nat {
        self.chars@.len()
    }

    closed spec fn before(&self) -> Before {
        text_before(texts_of(self.chars@))
    }

    proof fn lemma_ranked(&self) {
        let texts = texts_of(self.chars@);
        let le = self.before();
        assert forall|i: int, j: int| #[trigger] le(i, j) || le(j, i) by {
            lemma_lex_le_total(texts[i], texts[j], 0);
        }
        assert forall|i: int, j: int, k: int| #[trigger] le(i, j) && #[trigger] le(j, k) implies le(
            i,
            k,
        ) by {
            lemma_lex_le_transitive(texts[i], texts[j], texts[k], 0);
        }
    }

    fn precedes(&self, i: usize, j: usize) -> (r: bool) {
        is_lex_le(&self.chars[i], &self.chars[j])
    }
}

/// The texts in ascending order, as `sorted_texts` defines it: the given
/// texts, each once, none before a smaller one.
pub fn sort_texts(list: &Vec<String>) -> (r: Vec<String>)
    ensures
        strings_of(r@) == sorted_texts(strings_of(list@)),
        r@.len() == list@.len(),
        forall|a: int, b: int|
            0 <= a <= b < r@.len() ==> lex_le((#[trigger] r@[a])@, (#[trigger] r@[b])@),
{
    let n = list.len();
    let ghost texts = strings_of(list@);
    let mut chars: Vec<Vec<char>> = Vec::new();
    let mut i: usize = 0;
    while i < n
        invariant
            n == list@.len(),
            i <= n,
            chars@.len() == i,
            forall|k: int| 0 <= k < i ==> (#[trigger] chars@[k])@ == list@[k]@,
        decreases n - i,
    {
        chars.push(chars_of(list[i].as_str()));
        i = i + 1;
    }
    assert(texts_of(chars@) =~= texts);
    let ranked = ByText { chars: &chars };
    let order = stable_sort(&ranked, n);
    let ghost sorted = stable_order(n as nat, text_before(texts));
    let mut r: Vec<String> = Vec::new();
    let mut k: usize = 0;
    while k < n
        invariant
            n == list@.len(),
            order@.len() == n,
            positions(order@) == sorted,
            forall|t: int| 0 <= t < n ==> (#[trigger] order@[t]) < n,
            k <= n,
            r@.len() == k,
            forall|t: int| 0 <= t < k ==> (#[trigger] r@[t])@ == list@[sorted[t]]@,
        decreases n - k,
    {
        proof {
            assert(positions(order@)[k as int] == order@[k as int]);
        }
        r.push(list[order[k]].clone());
        k = k + 1;
    }
    assert(strings_of(r@) =~= sorted_texts(texts));
    proof {
        lemma_sorted_texts(texts);
        assert forall|a: int, b: int| 0 <= a <= b < r@.len() implies lex_le(
            (#[trigger] r@[a])@,
            (#[trigger] r@[b])@,
        ) by {
            assert(strings_of(r@)[a] == r@[a]@);
            assert(strings_of(r@)[b] == r@[b]@);
        }
    }
    r
}

/// Adds the marked paths of a tree to a list, as `collect_marked` defines
/// them.
pub fn _marked_files_list(dir: &Dir, marked_files_list: &mut Vec<String>)
    ensures
        strings_of(final(marked_files_list)@) == strings_of(old(marked_files_list)@)
            + collect_marked(dir@),
    decreases dir,
{
    let ghost before = strings_of(marked_files_list@);
    proof {
        lemma_dir_children(dir);
    }
    if dir.is_marked {
        marked_files_list.push(dir.path.clone());
        assert(strings_of(marked_files_list@) =~= before + collect_marked(dir@));
    } else {
        let n = dir.dir_obj_list.len();
        let mut i: usize = 0;
        assert(dir@.children.take(0) =~= Seq::<Node>::empty());
        assert(strings_of(marked_files_list@) =~= before + collect_marked_in(
            dir@.children.take(0),
        ));
        while i < n
            invariant
                n == dir.dir_obj_list@.len(),
                dir@.children == nodes_of(dir.dir_obj_list@),
                i <= n,
                strings_of(marked_files_list@) == before + collect_marked_in(
                    dir@.children.take(i as int),
                ),
            decreases n - i,
        {
            let ghost so_far = strings_of(marked_files_list@);
            proof {
                let all = dir@.children;
                assert(all.take(i + 1).drop_last() =~= all.take(i as int));
                assert(all.take(i + 1).last() == all[i as int]);
                assert(collect_marked_in(all.take(i + 1)) == collect_marked_in(all.take(i as int))
                    + collect_marked(all[i as int]));
                assert(all[i as int] == dir.dir_obj_list@[i as int]@);
            }
            match &dir.dir_obj_list[i] {
                FSObj::Dir(child_dir) => {
                    _marked_files_list(child_dir, marked_files_list);
                },
                FSObj::DirRef(dir_ref) => {
                    assert(collect_marked(dir_ref@) =~= Seq::<Seq<char>>::empty());
                },
                FSObj::File(file) => {
                    if file.is_marked {
                        marked_files_list.push(file.path.clone());
                        assert(strings_of(marked_files_list@) =~= so_far + seq![file.path@]);
                    }
                },
                FSObj::SymLink(sym_link) => {
                    if sym_link.is_marked {
                        marked_files_list.push(sym_link.path.clone());
                        assert(strings_of(marked_files_list@) =~= so_far + seq![sym_link.path@]);
                    }
                },
            }
            assert(strings_of(marked_files_list@) =~= before + collect_marked_in(
                dir@.children.take(i + 1),
            ));
            i = i + 1;
        }
        assert(dir@.children.take(n as int) =~= dir@.children);
    }
}

/// The paths that are to be removed, as `marked_paths` defines them, in
/// ascending order; none of them twice, and none below another.
pub fn marked_files_list(path: &String, dirp_state: &DirpState) -> (r: Vec<String>)
    requires
        dirp_state.wf(),
    ensures
        strings_of(r@) == marked_paths(dirp_state@, path@),
        forall|a: int, b: int|
            0 <= a <= b < r@.len() ==> lex_le((#[trigger] r@[a])@, (#[trigger] r@[b])@),
        free_of_nesting(strings_of(r@)),
{
    proof {
        dirp_state.lemma_wf();
        law_removal_list_is_free_of_nesting(dirp_state@, path@);
    }
    let mut list: Vec<String> = Vec::new();
    let tree = build_result_tree(path, true, dirp_state);
    assert(strings_of(list@) =~= Seq::<Seq<char>>::empty());
    _marked_files_list(&tree, &mut list);
    assert(strings_of(list@) =~= collect_marked(tree@));
    sort_texts(&list)
}

} // verus!
