//! What holds of the model whatever the messages are.

use crate::actor::{accepts_scan, effect_of, next_state, ActorView, MessageView};
use crate::model::{
    apply_scan, child_wf, entry_wf, index_wf, is_leaf, key_len_bound, lemma_apply_scan_wf,
    lemma_keys_bounded, lemma_mark_deep_wf, lemma_same_shape_linked, linked_below, local_size,
    mark_deep, mark_leaf, path_mark, same_shape, with_open, with_toggled, Index,
};
use crate::paths::{
    is_ancestor, lemma_ancestor_not_self, lemma_ancestor_shorter, lemma_ancestor_transitive,
    lemma_parent_shorter, parent_path,
};
use crate::rows::{larger_first, shown_order};
use crate::sorting::{
    is_permutation, is_total, is_transitive, lemma_order_is_permutation,
    lemma_order_is_sorted_and_stable, stable_order,
};
use crate::tree::{
    collect_marked, collect_marked_in, free_of_nesting, lemma_sorted_texts, marked_paths, sorted_texts, stub,
    text_before, view_entry, view_node, view_tree,
};
use crate::types::Node;
use vstd::prelude::*;

verus! {

/// The index after the scan results of a history have been installed, one
/// after the other, in an index that was empty.
pub open spec fn after_scans(history: Seq<Node>) -> Index
    decreases history.len(),
{
    if history.len() == 0 {
        Map::empty()
    } else {
        apply_scan(after_scans(history.drop_last()), history.last())
    }
}

/// `k` is `d` or lies below it.
pub open spec fn at_or_below(d: Seq<char>, k: Seq<char>) -> bool {
    k == d || is_ancestor(d, k)
}

/// The bytes of all the files that the scans of a history have found in `d`
/// and in the directories below it.
pub open spec fn scanned_below(history: Seq<Node>, d: Seq<char>) -> nat
    decreases history.len(),
{
    if history.len() == 0 {
        0
    } else if at_or_below(d, history.last().path) {
        scanned_below(history.drop_last(), d) + local_size(history.last().children)
    } else {
        scanned_below(history.drop_last(), d)
    }
}

/// Every directory was scanned once, and none before a directory above it:
/// the actor asks for the scan of a directory when it installs the scan of
/// its parent, and never twice.
pub open spec fn orderly(history: Seq<Node>) -> bool {
    forall|i: int, j: int|
        0 <= i < j < history.len() ==> (#[trigger] history[i]).path != (#[trigger] history[j]).path
            && !is_ancestor(history[j].path, history[i].path)
}

/// Where no scan of a history lies in `d` or below it, no bytes were found
/// there.
proof fn lemma_nothing_scanned_below(history: Seq<Node>, d: Seq<char>)
    requires
        forall|i: int| 0 <= i < history.len() ==> !at_or_below(d, (#[trigger] history[i]).path),
    ensures
        scanned_below(history, d) == 0,
    decreases history.len(),
{
    if history.len() > 0 {
        let prev = history.drop_last();
        assert(!at_or_below(d, history[history.len() - 1].path));
        assert forall|i: int| 0 <= i < prev.len() implies !at_or_below(
            d,
            (#[trigger] prev[i]).path,
        ) by {
            assert(prev[i] == history[i]);
        }
        lemma_nothing_scanned_below(prev, d);
    }
}

/// Sizes are totals of subtrees. After an orderly history of scans, the size
/// of every directory of the index is the sum of the bytes of the files that
/// the scans have found in it and below it. Once every directory below it
/// has been scanned, that is the sum of all the files of its subtree.
pub proof fn law_sizes_are_subtree_totals(history: Seq<Node>, d: Seq<char>)
    requires
        orderly(history),
        after_scans(history).contains_key(d),
    ensures
        after_scans(history)[d].size_in_bytes == scanned_below(history, d),
    decreases history.len(),
{
    if history.len() > 0 {
        let prev = history.drop_last();
        let last = history.last();
        let index = after_scans(prev);
        assert(last == history[history.len() - 1]);
        assert forall|i: int, j: int| 0 <= i < j < prev.len() implies (#[trigger] prev[i]).path != (
        #[trigger] prev[j]).path && !is_ancestor(prev[j].path, prev[i].path) by {
            assert(prev[i] == history[i]);
            assert(prev[j] == history[j]);
        }
        lemma_ancestor_not_self(last.path);
        if d == last.path {
            assert forall|i: int| 0 <= i < prev.len() implies !at_or_below(
                d,
                (#[trigger] prev[i]).path,
            ) by {
                assert(prev[i] == history[i]);
            }
            lemma_nothing_scanned_below(prev, d);
        } else {
            assert(index.contains_key(d));
            law_sizes_are_subtree_totals(prev, d);
        }
    }
}

/// The scan results of a history as the messages that bring them.
pub open spec fn scan_messages(history: Seq<Node>) -> Seq<MessageView> {
    Seq::new(history.len(), |i: int| MessageView::DirScanMessage(history[i]))
}

/// The actor installs every scan result of the history when its turn comes.
pub open spec fn all_installed(s: ActorView, history: Seq<Node>) -> bool
    decreases history.len(),
{
    history.len() == 0 || (all_installed(s, history.drop_last()) && accepts_scan(
        after_messages(s, scan_messages(history.drop_last())).index,
        history.last(),
    ))
}

/// An actor that installs every scan result of a history holds the index
/// that the history makes.
proof fn lemma_actor_installs_scans(s: ActorView, history: Seq<Node>)
    requires
        s.index == Map::<Seq<char>, Node>::empty(),
        all_installed(s, history),
    ensures
        after_messages(s, scan_messages(history)).index == after_scans(history),
    decreases history.len(),
{
    if history.len() > 0 {
        lemma_actor_installs_scans(s, history.drop_last());
        assert(scan_messages(history).drop_last() =~= scan_messages(history.drop_last()));
        assert(scan_messages(history).last() == MessageView::DirScanMessage(history.last()));
    }
}

/// Sizes are totals of subtrees, in the actor. An actor that starts with an
/// empty index and installs the scan results of an orderly history holds,
/// for every directory of its index, the sum of the bytes of the files that
/// the scans have found in it and below it.
pub proof fn law_actor_sizes_are_subtree_totals(s: ActorView, history: Seq<Node>, d: Seq<char>)
    requires
        s.index == Map::<Seq<char>, Node>::empty(),
        all_installed(s, history),
        orderly(history),
        after_messages(s, scan_messages(history)).index.contains_key(d),
    ensures
        after_messages(s, scan_messages(history)).index[d].size_in_bytes == scanned_below(
            history,
            d,
        ),
{
    lemma_actor_installs_scans(s, history);
    law_sizes_are_subtree_totals(history, d);
}

/// Deep marks. After a deep mark of a directory of the index, every
/// directory that is linked below it has the mark, and so has every file
/// and link in the listings of those directories.
pub proof fn law_deep_mark_reaches_all(index: Index, d: Seq<char>, value: bool, k: Seq<char>)
    requires
        index.contains_key(d),
        linked_below(index, d, k),
    ensures
        mark_deep(index, d, value).contains_key(k),
        mark_deep(index, d, value)[k].is_marked == value,
        mark_deep(index, d, value)[k].children.len() == index[k].children.len(),
        forall|i: int|
            0 <= i < index[k].children.len() && is_leaf(index[k].children[i]) ==> (
            #[trigger] mark_deep(index, d, value)[k].children[i]).is_marked == value,
        linked_below(mark_deep(index, d, value), d, k),
{
    lemma_marking_keeps_shape(index, d, value);
    lemma_same_shape_linked(index, mark_deep(index, d, value), d, k);
}

/// A deep mark changes no path, no kind and no listing's length.
pub proof fn lemma_marking_keeps_shape(index: Index, path: Seq<char>, value: bool)
    ensures
        same_shape(index, mark_deep(index, path, value)),
{
    let next = mark_deep(index, path, value);
    assert(next.dom() =~= index.dom());
}

/// Marking twice is marking once: a second deep mark of the same path with
/// the same value changes nothing.
pub proof fn law_mark_is_idempotent(index: Index, path: Seq<char>, value: bool)
    ensures
        mark_deep(mark_deep(index, path, value), path, value) == mark_deep(index, path, value),
{
    let once = mark_deep(index, path, value);
    let twice = mark_deep(once, path, value);
    lemma_marking_keeps_shape(index, path, value);
    assert(once.dom() =~= index.dom());
    assert forall|k: Seq<char>| once.contains_key(k) implies twice[k] == once[k] by {
        if index.contains_key(path) {
            lemma_same_shape_linked(index, once, path, k);
            crate::model::lemma_mark_node_twice(index[k], value);
        } else {
            match crate::paths::parent_path(path) {
                Some(q) => {
                    if index.contains_key(q) && k == q {
                        assert(mark_leaf(mark_leaf(index[q], path, value), path, value).children
                            =~= mark_leaf(index[q], path, value).children);
                    }
                },
                None => {},
            }
        }
    }
    assert(twice =~= once);
}

/// Opening and closing: a directory that is toggled twice is open if and
/// only if it was open, and nothing else has changed either.
pub proof fn law_toggle_twice_is_identity(index: Index, path: Seq<char>)
    ensures
        with_toggled(with_toggled(index, path), path) == index,
{
    assert(with_toggled(with_toggled(index, path), path) =~= index);
}

/// Every share in the tree is at most 100.
pub open spec fn percents_within(n: Node) -> bool
    decreases n,
{
    n.percent <= 100 && forall|i: int|
        0 <= i < n.children.len() ==> percents_within(#[trigger] n.children[i])
}

/// Every share in the tree below a path is at most 100.
proof fn lemma_view_node_percents(index: Index, path: Seq<char>, include_all: bool, total: nat)
    requires
        index_wf(index),
    ensures
        percents_within(view_node(index, path, include_all, total)),
    decreases key_len_bound(index.dom()) - path.len(),
{
    let tree = view_node(index, path, include_all, total);
    if index.contains_key(path) {
        let d = index[path];
        assert(entry_wf(d, path));
        assert forall|i: int| 0 <= i < tree.children.len() implies percents_within(
            #[trigger] tree.children[i],
        ) by {
            let c = d.children[i];
            assert(child_wf(c, path));
            assert(tree.children[i] == view_entry(index, path, i, include_all, total));
            if c.kind is DirRef && index.contains_key(c.path) {
                lemma_parent_shorter(c.path);
                lemma_keys_bounded(index.dom());
                assert(index.dom().contains(c.path));
                lemma_view_node_percents(index, c.path, include_all, total);
            } else {
                assert(tree.children[i].children.len() == 0);
            }
        }
    }
}

/// Shares are bounded. Every share in a published tree lies between 0 and
/// 100, and the share of a root whose size is not 0 is 100.
pub proof fn law_percents_are_bounded(index: Index, root: Seq<char>, include_all: bool)
    requires
        index_wf(index),
    ensures
        percents_within(view_tree(index, root, include_all)),
        index.contains_key(root) && index[root].size_in_bytes > 0 ==> view_tree(
            index,
            root,
            include_all,
        ).percent == 100,
{
    let total = if index.contains_key(root) {
        index[root].size_in_bytes
    } else {
        0
    };
    lemma_view_node_percents(index, root, include_all, total);
    if index.contains_key(root) && total > 0 {
        assert((200 * total + total) / (2 * total) == 100) by (nonlinear_arith)
            requires
                total > 0,
        ;
    }
}

/// The paths above a path lie above one another.
proof fn lemma_ancestors_form_a_chain(a: Seq<char>, b: Seq<char>, y: Seq<char>)
    requires
        at_or_below(a, y),
        at_or_below(b, y),
    ensures
        at_or_below(a, b) || at_or_below(b, a),
    decreases y.len(),
{
    lemma_parent_shorter(y);
    if a != y && b != y {
        let q = parent_path(y)->Some_0;
        lemma_ancestors_form_a_chain(a, b, q);
    }
}

/// What lies in or below one entry of a directory is apart from what lies
/// in or below another.
proof fn lemma_branches_are_apart(
    p: Seq<char>,
    c1: Seq<char>,
    c2: Seq<char>,
    x: Seq<char>,
    y: Seq<char>,
)
    requires
        parent_path(c1) == Some(p),
        parent_path(c2) == Some(p),
        c1 != c2,
        at_or_below(c1, x),
        at_or_below(c2, y),
    ensures
        x != y,
        !is_ancestor(x, y),
{
    if x == y || is_ancestor(x, y) {
        if c1 != x && x != y {
            lemma_ancestor_transitive(c1, x, y);
        }
        assert(at_or_below(c1, y));
        lemma_ancestors_form_a_chain(c1, c2, y);
        lemma_parent_shorter(c1);
        lemma_parent_shorter(c2);
        if is_ancestor(c1, c2) {
            lemma_ancestor_shorter(c1, c2);
            if c1 != p {
                lemma_ancestor_shorter(c1, p);
            }
        } else {
            lemma_ancestor_shorter(c2, c1);
            if c2 != p {
                lemma_ancestor_shorter(c2, p);
            }
        }
    }
}

/// What is collected from a listing is collected from one of its trees.
proof fn lemma_collected_from_one(children: Seq<Node>, x: Seq<char>) -> (i: int)
    requires
        collect_marked_in(children).contains(x),
    ensures
        0 <= i < children.len(),
        collect_marked(children[i]).contains(x),
    decreases children.len(),
{
    let all = collect_marked_in(children);
    let k = choose|k: int| 0 <= k < all.len() && all[k] == x;
    let front = collect_marked_in(children.drop_last());
    let back = collect_marked(children.last());
    if k < front.len() {
        assert(front[k] == x);
        lemma_collected_from_one(children.drop_last(), x)
    } else {
        assert(back[k - front.len()] == x);
        children.len() - 1
    }
}

/// Where the trees of a listing yield lists that are free of nesting and
/// apart from one another, the listing yields such a list.
proof fn lemma_collected_in_free(children: Seq<Node>)
    requires
        forall|i: int|
            0 <= i < children.len() ==> free_of_nesting(collect_marked(#[trigger] children[i])),
        forall|i: int, j: int, x: Seq<char>, y: Seq<char>|
            0 <= i < children.len() && 0 <= j < children.len() && i != j && (
            #[trigger] collect_marked(children[i]).contains(x)) && (#[trigger] collect_marked(
                children[j],
            ).contains(y)) ==> x != y && !is_ancestor(x, y),
    ensures
        free_of_nesting(collect_marked_in(children)),
    decreases children.len(),
{
    if children.len() > 0 {
        let rest = children.drop_last();
        let last = children.len() - 1;
        assert forall|i: int| 0 <= i < rest.len() implies free_of_nesting(
            collect_marked(#[trigger] rest[i]),
        ) by {
            assert(rest[i] == children[i]);
        }
        assert forall|i: int, j: int, x: Seq<char>, y: Seq<char>|
            0 <= i < rest.len() && 0 <= j < rest.len() && i != j && (#[trigger] collect_marked(
                rest[i],
            ).contains(x)) && (#[trigger] collect_marked(rest[j]).contains(y)) implies x != y
            && !is_ancestor(x, y) by {
            assert(rest[i] == children[i]);
            assert(rest[j] == children[j]);
        }
        lemma_collected_in_free(rest);
        let front = collect_marked_in(rest);
        let back = collect_marked(children[last]);
        let all = collect_marked_in(children);
        assert(all == front + back);
        assert forall|a: int, b: int|
            0 <= a < all.len() && 0 <= b < all.len() && a != b implies (#[trigger] all[a]) != (
        #[trigger] all[b]) && !is_ancestor(all[a], all[b]) by {
            if a < front.len() && b < front.len() {
                assert(all[a] == front[a] && all[b] == front[b]);
            } else if a >= front.len() && b >= front.len() {
                assert(all[a] == back[a - front.len()] && all[b] == back[b - front.len()]);
            } else if a < front.len() {
                assert(all[a] == front[a]);
                assert(all[b] == back[b - front.len()]);
                assert(front.contains(all[a]));
                let i = lemma_collected_from_one(rest, all[a]);
                assert(rest[i] == children[i]);
                assert(collect_marked(children[i]).contains(all[a]));
                assert(collect_marked(children[last]).contains(all[b]));
            } else {
                assert(all[b] == front[b]);
                assert(all[a] == back[a - front.len()]);
                assert(front.contains(all[b]));
                let j = lemma_collected_from_one(rest, all[b]);
                assert(rest[j] == children[j]);
                assert(collect_marked(children[j]).contains(all[b]));
                assert(collect_marked(children[last]).contains(all[a]));
            }
        }
    }
}

/// What is collected from the tree below a path lies at that path or below
/// it.
proof fn lemma_collected_below(index: Index, path: Seq<char>, total: nat, x: Seq<char>)
    requires
        index_wf(index),
        collect_marked(view_node(index, path, true, total)).contains(x),
    ensures
        at_or_below(path, x),
    decreases key_len_bound(index.dom()) - path.len(), 1nat,
{
    let tree = view_node(index, path, true, total);
    if index.contains_key(path) {
        let d = index[path];
        assert(entry_wf(d, path));
        if tree.is_marked {
            assert(collect_marked(tree) =~= seq![path]);
            assert(collect_marked(tree)[0] == path);
        } else {
            let i = lemma_collected_from_one(tree.children, x);
            assert(tree.children[i] == view_entry(index, path, i, true, total));
            lemma_entry_collected_below(index, path, i, total, x);
            assert(child_wf(d.children[i], path));
            if x != d.children[i].path {
                lemma_parent_shorter(d.children[i].path);
                assert(is_ancestor(path, d.children[i].path));
                lemma_ancestor_transitive(path, d.children[i].path, x);
            }
        }
    } else {
        assert(tree == stub(path));
        assert(collect_marked(tree) =~= Seq::<Seq<char>>::empty());
    }
}

/// What is collected from an entry of a listing lies at the path of that
/// entry or below it.
proof fn lemma_entry_collected_below(
    index: Index,
    parent: Seq<char>,
    i: int,
    total: nat,
    x: Seq<char>,
)
    requires
        index_wf(index),
        index.contains_key(parent),
        0 <= i < index[parent].children.len(),
        collect_marked(view_entry(index, parent, i, true, total)).contains(x),
    ensures
        at_or_below(index[parent].children[i].path, x),
    decreases key_len_bound(index.dom()) - parent.len(), 0nat,
{
    let c = index[parent].children[i];
    let shown = view_entry(index, parent, i, true, total);
    assert(entry_wf(index[parent], parent));
    assert(child_wf(c, parent));
    if c.kind is DirRef {
        if index.contains_key(c.path) {
            lemma_parent_shorter(c.path);
            lemma_keys_bounded(index.dom());
            assert(index.dom().contains(c.path));
            lemma_collected_below(index, c.path, total, x);
        } else {
            assert(collect_marked(stub(c.path)) =~= Seq::<Seq<char>>::empty());
        }
    } else {
        let k = choose|k: int| 0 <= k < collect_marked(shown).len() && collect_marked(shown)[k] == x;
        assert(collect_marked(shown) =~= seq![c.path]);
    }
}

/// What is collected from the tree below a path is free of nesting.
proof fn lemma_collected_free(index: Index, path: Seq<char>, total: nat)
    requires
        index_wf(index),
    ensures
        free_of_nesting(collect_marked(view_node(index, path, true, total))),
    decreases key_len_bound(index.dom()) - path.len(),
{
    let tree = view_node(index, path, true, total);
    if index.contains_key(path) {
        let d = index[path];
        assert(entry_wf(d, path));
        if tree.is_marked {
            assert(collect_marked(tree) =~= seq![path]);
        } else {
            assert forall|i: int| 0 <= i < tree.children.len() implies free_of_nesting(
                collect_marked(#[trigger] tree.children[i]),
            ) by {
                let c = d.children[i];
                assert(child_wf(c, path));
                assert(tree.children[i] == view_entry(index, path, i, true, total));
                if c.kind is DirRef {
                    if index.contains_key(c.path) {
                        lemma_parent_shorter(c.path);
                        lemma_keys_bounded(index.dom());
                        assert(index.dom().contains(c.path));
                        lemma_collected_free(index, c.path, total);
                    } else {
                        assert(collect_marked(stub(c.path)) =~= Seq::<Seq<char>>::empty());
                    }
                } else {
                    assert(collect_marked(tree.children[i]).len() <= 1);
                }
            }
            assert forall|i: int, j: int, x: Seq<char>, y: Seq<char>|
                0 <= i < tree.children.len() && 0 <= j < tree.children.len() && i != j && (
                #[trigger] collect_marked(tree.children[i]).contains(x)) && (
                #[trigger] collect_marked(tree.children[j]).contains(y)) implies x != y
                && !is_ancestor(x, y) by {
                assert(tree.children[i] == view_entry(index, path, i, true, total));
                assert(tree.children[j] == view_entry(index, path, j, true, total));
                lemma_entry_collected_below(index, path, i, total, x);
                lemma_entry_collected_below(index, path, j, total, y);
                assert(child_wf(d.children[i], path));
                assert(child_wf(d.children[j], path));
                if i < j {
                    assert(d.children[i].path != d.children[j].path);
                } else {
                    assert(d.children[j].path != d.children[i].path);
                }
                lemma_branches_are_apart(
                    path,
                    d.children[i].path,
                    d.children[j].path,
                    x,
                    y,
                );
            }
            lemma_collected_in_free(tree.children);
        }
    } else {
        assert(tree == stub(path));
        assert(collect_marked(tree) =~= Seq::<Seq<char>>::empty());
    }
}

/// Nothing is removed twice. No path of the list of paths that are to be
/// removed stands in it twice, and none lies below another: a marked
/// directory stands for all that is marked below it.
pub proof fn law_removal_list_is_free_of_nesting(index: Index, root: Seq<char>)
    requires
        index_wf(index),
    ensures
        free_of_nesting(marked_paths(index, root)),
{
    let total = if index.contains_key(root) {
        index[root].size_in_bytes
    } else {
        0
    };
    let collected = collect_marked(view_tree(index, root, true));
    lemma_collected_free(index, root, total);
    lemma_sorted_texts(collected);
    let order = stable_order(collected.len(), text_before(collected));
    let sorted = sorted_texts(collected);
    assert forall|a: int, b: int|
        0 <= a < sorted.len() && 0 <= b < sorted.len() && a != b implies (#[trigger] sorted[a]) != (
    #[trigger] sorted[b]) && !is_ancestor(sorted[a], sorted[b]) by {
        assert(sorted[a] == collected[order[a]]);
        assert(sorted[b] == collected[order[b]]);
        if a < b {
            assert(order[a] != order[b]);
        } else {
            assert(order[b] != order[a]);
        }
    }
}

/// The listing of a directory is shown sorted. The order in which the
/// entries are shown holds each entry once; no entry is larger than one
/// that is shown before it; entries of one size are shown in the order of
/// the listing.
pub proof fn law_listing_is_shown_sorted(children: Seq<Node>)
    ensures
        is_permutation(shown_order(children), children.len()),
        forall|a: int, b: int|
            0 <= a < b < children.len() ==> children[#[trigger] shown_order(
                children,
            )[a]].size_in_bytes >= children[#[trigger] shown_order(children)[b]].size_in_bytes,
        forall|a: int, b: int|
            0 <= a < b < children.len() && children[#[trigger] shown_order(
                children,
            )[a]].size_in_bytes == children[#[trigger] shown_order(children)[b]].size_in_bytes
                ==> shown_order(children)[a] < shown_order(children)[b],
{
    let le = larger_first(children);
    let order = shown_order(children);
    assert(is_total(le)) by {
        assert forall|i: int, j: int| #[trigger] le(i, j) || le(j, i) by {}
    }
    assert(is_transitive(le)) by {
        assert forall|i: int, j: int, k: int| #[trigger] le(i, j) && #[trigger] le(j, k) implies le(
            i,
            k,
        ) by {}
    }
    lemma_order_is_permutation(children.len(), le);
    lemma_order_is_sorted_and_stable(children.len(), le);
    assert forall|a: int, b: int| 0 <= a < b < children.len() implies children[#[trigger] order[a]].size_in_bytes
        >= children[#[trigger] order[b]].size_in_bytes by {
        assert(le(order[a], order[b]));
    }
    assert forall|a: int, b: int|
        0 <= a < b < children.len() && children[#[trigger] order[a]].size_in_bytes
            == children[#[trigger] order[b]].size_in_bytes implies order[a] < order[b] by {
        assert(le(order[b], order[a]));
    }
}

/// The state of the actor after a run of messages.
pub open spec fn after_messages(s: ActorView, messages: Seq<MessageView>) -> ActorView
    decreases messages.len(),
{
    if messages.len() == 0 {
        s
    } else {
        next_state(after_messages(s, messages.drop_last()), messages.last())
    }
}

/// The number of view trees that a run of messages has published.
pub open spec fn snapshots(s: ActorView, messages: Seq<MessageView>) -> nat
    decreases messages.len(),
{
    if messages.len() == 0 {
        0
    } else if effect_of(after_messages(s, messages.drop_last()), messages.last()) is Publish {
        snapshots(s, messages.drop_last()) + 1
    } else {
        snapshots(s, messages.drop_last())
    }
}

/// The number of ticks in a run of messages.
pub open spec fn ticks(messages: Seq<MessageView>) -> nat
    decreases messages.len(),
{
    if messages.len() == 0 {
        0
    } else if messages.last() is Timer {
        ticks(messages.drop_last()) + 1
    } else {
        ticks(messages.drop_last())
    }
}

/// Opening or closing a directory keeps the index well formed.
proof fn lemma_with_open_wf(index: Index, path: Seq<char>, open: bool)
    requires
        index_wf(index),
    ensures
        index_wf(with_open(index, path, open)),
{
    let next = with_open(index, path, open);
    assert(next.dom() =~= index.dom());
    assert forall|k: Seq<char>| next.contains_key(k) implies entry_wf(#[trigger] next[k], k) by {
        assert(entry_wf(index[k], k));
    }
}

/// A message leaves a well-formed index well formed.
pub proof fn lemma_step_keeps_wf(s: ActorView, m: MessageView)
    requires
        index_wf(s.index),
    ensures
        index_wf(next_state(s, m).index),
        next_state(s, m).root == s.root,
{
    match m {
        MessageView::DirScanMessage(dir) => {
            if accepts_scan(s.index, dir) {
                lemma_apply_scan_wf(s.index, dir);
            }
        },
        MessageView::OpenDir(path) => {
            lemma_with_open_wf(s.index, path, true);
        },
        MessageView::CloseDir(path) => {
            lemma_with_open_wf(s.index, path, false);
        },
        MessageView::ToggleDir(path) => {
            if s.index.contains_key(path) {
                lemma_with_open_wf(s.index, path, !s.index[path].is_open);
            }
        },
        MessageView::MarkPath(path) => {
            lemma_mark_deep_wf(s.index, path, true);
        },
        MessageView::UnmarkPath(path) => {
            lemma_mark_deep_wf(s.index, path, false);
        },
        MessageView::ToggleMarkPath(path) => {
            match path_mark(s.index, path) {
                Some(marked) => {
                    lemma_mark_deep_wf(s.index, path, !marked);
                },
                None => {},
            }
        },
        _ => {},
    }
}

/// The index stays well formed. Whatever the messages are, every record of
/// the index stands under its own path, its listing holds only files, links
/// and references to directories that lie directly in it, and the root of
/// the profile stays what it was.
pub proof fn law_index_stays_well_formed(s: ActorView, messages: Seq<MessageView>)
    requires
        index_wf(s.index),
    ensures
        index_wf(after_messages(s, messages).index),
        after_messages(s, messages).root == s.root,
    decreases messages.len(),
{
    if messages.len() > 0 {
        law_index_stays_well_formed(s, messages.drop_last());
        lemma_step_keeps_wf(after_messages(s, messages.drop_last()), messages.last());
    }
}

/// Nothing leaves the index. Whatever the messages are, a directory that
/// the index holds stays in it.
pub proof fn law_index_only_grows(s: ActorView, messages: Seq<MessageView>, k: Seq<char>)
    requires
        s.index.contains_key(k),
    ensures
        after_messages(s, messages).index.contains_key(k),
    decreases messages.len(),
{
    if messages.len() > 0 {
        law_index_only_grows(s, messages.drop_last(), k);
        let before = after_messages(s, messages.drop_last());
        match messages.last() {
            MessageView::MarkPath(path) => {
                lemma_marking_keeps_shape(before.index, path, true);
            },
            MessageView::UnmarkPath(path) => {
                lemma_marking_keeps_shape(before.index, path, false);
            },
            MessageView::ToggleMarkPath(path) => {
                match path_mark(before.index, path) {
                    Some(marked) => {
                        lemma_marking_keeps_shape(before.index, path, !marked);
                    },
                    None => {},
                }
            },
            _ => {},
        }
    }
}

/// Publishing is paced by the timer. Whatever the messages are, no more
/// view trees are published than ticks have come; and after a tick, nothing
/// is left to publish.
pub proof fn law_snapshots_are_paced(s: ActorView, messages: Seq<MessageView>)
    ensures
        snapshots(s, messages) <= ticks(messages),
        messages.len() > 0 && messages.last() is Timer ==> !after_messages(s, messages).dirty,
    decreases messages.len(),
{
    if messages.len() > 0 {
        law_snapshots_are_paced(s, messages.drop_last());
    }
}

/// Bursts are coalesced. A burst of scan results publishes nothing, however
/// long it is, and the tick that follows it publishes at most one view tree.
pub proof fn law_burst_is_coalesced(s: ActorView, burst: Seq<MessageView>)
    requires
        forall|i: int| 0 <= i < burst.len() ==> (#[trigger] burst[i]) is DirScanMessage,
    ensures
        snapshots(s, burst) == 0,
        snapshots(s, burst.push(MessageView::Timer)) <= 1,
        !after_messages(s, burst.push(MessageView::Timer)).dirty,
    decreases burst.len(),
{
    if burst.len() > 0 {
        let prev = burst.drop_last();
        assert(burst[burst.len() - 1] is DirScanMessage);
        assert forall|i: int| 0 <= i < prev.len() implies (#[trigger] prev[i]) is DirScanMessage by {
            assert(prev[i] == burst[i]);
        }
        law_burst_is_coalesced(s, prev);
    }
    let with_tick = burst.push(MessageView::Timer);
    assert(with_tick.drop_last() =~= burst);
    assert(with_tick.last() == MessageView::Timer);
    assert(snapshots(s, with_tick) <= snapshots(s, burst) + 1);
    assert(after_messages(s, with_tick) == next_state(
        after_messages(s, burst),
        MessageView::Timer,
    ));
}

} // verus!
