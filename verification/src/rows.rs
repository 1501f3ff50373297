//! The rows of the table: one for each node of a view tree that has a name,
//! the listing of a directory sorted by size, largest first.

use crate::paths::{file_name, file_name_of};
use crate::sorting::{
    lemma_order_is_permutation, lemma_order_is_sorted_and_stable, positions, stable_order,
    stable_sort, Before, Ranked,
};
use crate::text::{
    decimal, human_readable, human_readable_bytes, indent_of, indent_prefix_for_level,
    push_decimal,
};
use crate::types::{lemma_dir_children, nodes_of, strings_of, FSObj, Node, SizeInBytes};
use vstd::prelude::*;
use vstd::string::*;

verus! {

/// A row of the table as the front end keeps it: the three texts that are
/// shown, whether the row is marked, and the path that it stands for.
#[derive(Debug, PartialEq, Eq)]
pub struct IntermediateState {
    pub ui_row: Vec<String>,
    pub is_marked: bool,
    pub path: String,
}

/// The mathematical view of a row.
pub struct RowView {
    pub ui_row: Seq<Seq<char>>,
    pub is_marked: bool,
    pub path: Seq<char>,
}

impl View for IntermediateState {
    type V = RowView;

    open spec fn view(&self) -> RowView {
        RowView {
            ui_row: strings_of(self.ui_row@),
            is_marked: self.is_marked,
            path: self.path@,
        }
    }
}

/// The views of a list of rows, in order.
pub open spec fn rows_view(rows: Seq<IntermediateState>) -> Seq<RowView> {
    Seq::new(rows.len(), |i: int| rows[i]@)
}

/// A row as the table widget takes it: the texts of its cells, and whether it
/// is shown dim.
#[derive(Debug, PartialEq, Eq)]
pub struct AppRow<'a> {
    pub display_data: Vec<&'a str>,
    pub is_marked: bool,
}

/// What stands between the indentation and the name: for a directory the
/// sign that it is open or closed, for a directory that is only referred to
/// an arrow, for a file or a link two spaces.
pub open spec fn sign_of(n: Node) -> Seq<char> {
    if n.kind is Dir {
        if n.is_open {
            seq!['\u{23f7}', ' ']
        } else {
            seq!['\u{23f5}', ' ']
        }
    } else if n.kind is DirRef {
        seq!['>', ' ']
    } else {
        seq![' ', ' ']
    }
}

/// The row of a node at a level of the tree: its indented name, its share
/// with a percent sign, its size as a person reads it.
pub open spec fn row_of(n: Node, level: nat, name: Seq<char>) -> RowView {
    RowView {
        ui_row: seq![
            indent_of(level) + sign_of(n) + name,
            decimal(n.percent) + seq!['%'],
            human_readable(n.size_in_bytes),
        ],
        is_marked: n.is_marked,
        path: n.path,
    }
}

/// The level below a level; the levels end at the largest 32-bit number.
pub open spec fn next_level(level: nat) -> nat {
    if level < u32::MAX {
        level + 1
    } else {
        level
    }
}

/// An entry may stand before another where it is at least as large.
pub open spec fn larger_first(children: Seq<Node>) -> Before {
    |i: int, j: int| children[i].size_in_bytes >= children[j].size_in_bytes
}

/// The order in which the entries of a listing are shown: by size, largest
/// first, entries of one size as they came.
pub open spec fn shown_order(children: Seq<Node>) -> Seq<int> {
    stable_order(children.len(), larger_first(children))
}

/// The rows of a tree. A node without a name has no row, and nothing below
/// it has one. Below the row of a directory come the rows of its entries, in
/// the order in which they are shown, one level further down.
pub open spec fn rows_of(n: Node, level: nat) -> Seq<RowView>
    decreases n, 0int,
{
    match file_name_of(n.path) {
        None => Seq::empty(),
        Some(name) => if n.kind is Dir {
            seq![row_of(n, level, name)] + rows_in(
                n.children,
                shown_order(n.children),
                next_level(level),
                n.children.len() as int,
            )
        } else {
            seq![row_of(n, level, name)]
        },
    }
}

/// The rows of the first `upto` entries of a listing in the given order.
pub open spec fn rows_in(children: Seq<Node>, order: Seq<int>, level: nat, upto: int) -> Seq<
    RowView,
>
    decreases children, upto,
{
    if upto <= 0 {
        Seq::empty()
    } else if 0 <= order[upto - 1] < children.len() {
        rows_in(children, order, level, upto - 1) + rows_of(children[order[upto - 1]], level)
    } else {
        rows_in(children, order, level, upto - 1)
    }
}

/// The entries of a listing, ranked by size, the larger ones first.
struct BySize<'a> {
    list: &'a Vec<FSObj>,
}

impl<'a> Ranked for BySize<'a> {
    closed spec fn count(&self) -> nat {
        self.list@.len()
    }

    closed spec fn before(&self) -> Before {
        larger_first(nodes_of(self.list@))
    }

    proof fn lemma_ranked(&self) {
        let le = self.before();
        assert forall|i: int, j: int| #[trigger] le(i, j) || le(j, i) by {}
        assert forall|i: int, j: int, k: int| #[trigger] le(i, j) && #[trigger] le(j, k) implies le(
            i,
            k,
        ) by {}
    }

    fn precedes(&self, i: usize, j: usize) -> (r: bool) {
        self.list[i].size_in_bytes() >= self.list[j].size_in_bytes()
    }
}

/// The order in which the entries of a listing are shown, as `shown_order`
/// defines it: each entry once, none behind a smaller one, entries of one
/// size in the order of the listing.
pub fn size_order(list: &Vec<FSObj>) -> (order: Vec<usize>)
    ensures
        order@.len() == list@.len(),
        positions(order@) == shown_order(nodes_of(list@)),
        forall|k: int| 0 <= k < order@.len() ==> (#[trigger] order@[k]) < list@.len(),
        forall|a: int, b: int|
            0 <= a < b < order@.len() ==> (#[trigger] order@[a]) != (#[trigger] order@[b]),
        forall|a: int, b: int|
            0 <= a < b < order@.len() ==> list@[(#[trigger] order@[a]) as int]@.size_in_bytes
                >= list@[(#[trigger] order@[b]) as int]@.size_in_bytes,
        forall|a: int, b: int|
            0 <= a < b < order@.len() && list@[(#[trigger] order@[a]) as int]@.size_in_bytes
                == list@[(#[trigger] order@[b]) as int]@.size_in_bytes ==> order@[a] < order@[b],
{
    let ranked = BySize { list };
    let order = stable_sort(&ranked, list.len());
    proof {
        let n = list@.len();
        let le = larger_first(nodes_of(list@));
        let shown = stable_order(n, le);
        ranked.lemma_ranked();
        lemma_order_is_permutation(n, le);
        lemma_order_is_sorted_and_stable(n, le);
        assert forall|k: int| 0 <= k < n implies shown[k] == #[trigger] order@[k] by {
            assert(positions(order@)[k] == order@[k]);
        }
        assert forall|a: int, b: int| 0 <= a < b < order@.len() implies (#[trigger] order@[a]) != (
        #[trigger] order@[b]) by {
            assert(shown[a] != shown[b]);
        }
        assert forall|a: int, b: int| 0 <= a < b < order@.len() implies list@[(
        #[trigger] order@[a]) as int]@.size_in_bytes >= list@[(
        #[trigger] order@[b]) as int]@.size_in_bytes by {
            assert(0 <= shown[a] < n && 0 <= shown[b] < n);
            assert(le(shown[a], shown[b]));
        }
        assert forall|a: int, b: int|
            0 <= a < b < order@.len() && list@[(#[trigger] order@[a]) as int]@.size_in_bytes
                == list@[(#[trigger] order@[b]) as int]@.size_in_bytes implies order@[a]
            < order@[b] by {
            assert(0 <= shown[a] < n && 0 <= shown[b] < n);
            assert(le(shown[b], shown[a]));
        }
    }
    order
}

/// What stands between the indentation and the name, as `sign_of` defines
/// it.
fn sign_text(obj: &FSObj) -> (r: &'static str)
    ensures
        r@ == sign_of(obj@),
{
    proof {
        reveal_strlit("\u{23f7} ");
        reveal_strlit("\u{23f5} ");
        reveal_strlit("> ");
        reveal_strlit("  ");
    }
    let r = match obj {
        FSObj::Dir(dir) => if dir.is_open {
            "\u{23f7} "
        } else {
            "\u{23f5} "
        },
        FSObj::DirRef(_) => "> ",
        _ => "  ",
    };
    assert(r@ =~= sign_of(obj@));
    r
}

/// The row of a record at a level, as `row_of` defines it.
fn row_for(obj: &FSObj, level: u32, name: &String) -> (r: IntermediateState)
    ensures
        r@ == row_of(obj@, level as nat, name@),
{
    let (percent, is_marked, path): (u8, bool, String) = match obj {
        FSObj::Dir(o) => (o.percent, o.is_marked, o.path.clone()),
        FSObj::DirRef(o) => (o.percent, o.is_marked, o.path.clone()),
        FSObj::File(o) => (o.percent, o.is_marked, o.path.clone()),
        FSObj::SymLink(o) => (o.percent, o.is_marked, o.path.clone()),
    };
    let mut name_text = indent_prefix_for_level(level);
    name_text.append(sign_text(obj));
    name_text.append(name.as_str());
    let mut percent_text = String::new();
    push_decimal(&mut percent_text, percent as u64);
    proof {
        reveal_strlit("%");
    }
    percent_text.append("%");
    let size_text = human_readable_bytes(obj.size_in_bytes());
    let mut ui_row: Vec<String> = Vec::new();
    ui_row.push(name_text);
    ui_row.push(percent_text);
    ui_row.push(size_text);
    let r = IntermediateState { ui_row, is_marked, path };
    proof {
        let want = row_of(obj@, level as nat, name@).ui_row;
        assert(r@.ui_row.len() == 3);
        assert(r@.ui_row[0] =~= want[0]);
        assert(r@.ui_row[1] =~= want[1]);
        assert(r@.ui_row[2] =~= want[2]);
        assert(r@.ui_row =~= want);
    }
    r
}

/// Adds the rows of a tree to the table, as `rows_of` defines them. The
/// result says whether the top of the tree had a name, and so a row.
pub fn dirp_state_to_i_state(
    fs_obj: &FSObj,
    level: u32,
    i_state: &mut Vec<IntermediateState>,
) -> (r: Option<()>)
    ensures
        rows_view(final(i_state)@) == rows_view(old(i_state)@) + rows_of(fs_obj@, level as nat),
        r.is_some() == file_name_of(fs_obj@.path).is_some(),
    decreases fs_obj,
{
    let ghost before = rows_view(i_state@);
    let name = match obj_name(fs_obj) {
        Some(name) => name,
        None => {
            assert(rows_view(i_state@) =~= before + rows_of(fs_obj@, level as nat));
            return None;
        },
    };
    let row = row_for(fs_obj, level, &name);
    i_state.push(row);
    assert(rows_view(i_state@) =~= before + seq![row_of(fs_obj@, level as nat, name@)]);
    match fs_obj {
        FSObj::Dir(dir) => {
            proof {
                lemma_dir_children(dir);
            }
            let below: u32 = if level < u32::MAX {
                level + 1
            } else {
                level
            };
            let order = size_order(&dir.dir_obj_list);
            let n = order.len();
            let ghost children = dir@.children;
            let ghost shown = shown_order(children);
            proof {
                lemma_order_is_permutation(children.len(), larger_first(children));
                assert forall|t: int| 0 <= t < n implies (#[trigger] order@[t]) as int
                    == shown[t] by {
                    assert(positions(order@)[t] == order@[t]);
                }
            }
            let mut k: usize = 0;
            assert(rows_view(i_state@) =~= before + seq![row_of(fs_obj@, level as nat, name@)]
                + rows_in(children, shown, below as nat, 0));
            while k < n
                invariant
                    *fs_obj == FSObj::Dir(*dir),
                    n == order@.len(),
                    n == dir.dir_obj_list@.len(),
                    children == nodes_of(dir.dir_obj_list@),
                    shown == shown_order(children),
                    shown.len() == n,
                    forall|t: int| 0 <= t < n ==> (#[trigger] order@[t]) as int == shown[t],
                    forall|t: int| 0 <= t < n ==> (#[trigger] order@[t]) < n,
                    k <= n,
                    rows_view(i_state@) == before + seq![row_of(fs_obj@, level as nat, name@)]
                        + rows_in(children, shown, below as nat, k as int),
                decreases n - k,
            {
                let ghost so_far = rows_view(i_state@);
                let child = &dir.dir_obj_list[order[k]];
                let _ = dirp_state_to_i_state(child, below, i_state);
                proof {
                    assert(order@[k as int] as int == shown[k as int]);
                    assert(children[shown[k as int]] == child@);
                    assert(rows_in(children, shown, below as nat, k + 1) == rows_in(
                        children,
                        shown,
                        below as nat,
                        k as int,
                    ) + rows_of(child@, below as nat));
                    assert(rows_view(i_state@) =~= before + seq![
                        row_of(fs_obj@, level as nat, name@),
                    ] + rows_in(children, shown, below as nat, k + 1));
                }
                k = k + 1;
            }
            assert(rows_view(i_state@) == before + rows_of(fs_obj@, level as nat));
        },
        _ => {
            assert(rows_view(i_state@) == before + rows_of(fs_obj@, level as nat));
        },
    }
    Some(())
}

/// The name of a record: the last component of its path.
fn obj_name(obj: &FSObj) -> (r: Option<String>)
    ensures
        crate::paths::opt_chars(r) == file_name_of(obj@.path),
{
    match obj {
        FSObj::Dir(o) => file_name(&o.path),
        FSObj::DirRef(o) => file_name(&o.path),
        FSObj::File(o) => file_name(&o.path),
        FSObj::SymLink(o) => file_name(&o.path),
    }
}

/// The rows of the table as the table widget takes them: of each row its
/// first three texts.
pub fn i_state_to_app_state<'a>(i_state: &'a Vec<IntermediateState>) -> (result: Vec<AppRow<'a>>)
    requires
        forall|i: int| 0 <= i < i_state@.len() ==> (#[trigger] i_state@[i]).ui_row@.len() >= 3,
    ensures
        result@.len() == i_state@.len(),
        forall|i: int|
            0 <= i < result@.len() ==> {
                &&& (#[trigger] result@[i]).is_marked == i_state@[i].is_marked
                &&& result@[i].display_data@.len() == 3
                &&& result@[i].display_data@[0]@ == i_state@[i].ui_row@[0]@
                &&& result@[i].display_data@[1]@ == i_state@[i].ui_row@[1]@
                &&& result@[i].display_data@[2]@ == i_state@[i].ui_row@[2]@
            },
{
    let mut result: Vec<AppRow<'a>> = Vec::new();
    let n = i_state.len();
    let mut i: usize = 0;
    while i < n
        invariant
            n == i_state@.len(),
            i <= n,
            result@.len() == i,
            forall|t: int| 0 <= t < i_state@.len() ==> (#[trigger] i_state@[t]).ui_row@.len() >= 3,
            forall|t: int|
                0 <= t < i ==> {
                    &&& (#[trigger] result@[t]).is_marked == i_state@[t].is_marked
                    &&& result@[t].display_data@.len() == 3
                    &&& result@[t].display_data@[0]@ == i_state@[t].ui_row@[0]@
                    &&& result@[t].display_data@[1]@ == i_state@[t].ui_row@[1]@
                    &&& result@[t].display_data@[2]@ == i_state@[t].ui_row@[2]@
                },
        decreases n - i,
    {
        let item = &i_state[i];
        let mut display_data: Vec<&'a str> = Vec::new();
        display_data.push(item.ui_row[0].as_str());
        display_data.push(item.ui_row[1].as_str());
        display_data.push(item.ui_row[2].as_str());
        result.push(AppRow { display_data, is_marked: item.is_marked });
        i = i + 1;
    }
    result
}

/// The number of line feeds among the first `upto` characters of a text.
pub open spec fn line_feeds(text: Seq<char>, upto: int) -> nat
    decreases upto,
{
    if upto <= 0 {
        0
    } else if text[upto - 1] == '\n' {
        line_feeds(text, upto - 1) + 1
    } else {
        line_feeds(text, upto - 1)
    }
}

/// The largest number of line feeds in one of the first `upto` cells.
pub open spec fn most_line_feeds(cells: Seq<Seq<char>>, upto: int) -> nat
    decreases upto,
{
    if upto <= 0 {
        0
    } else if line_feeds(cells[upto - 1], cells[upto - 1].len() as int) > most_line_feeds(
        cells,
        upto - 1,
    ) {
        line_feeds(cells[upto - 1], cells[upto - 1].len() as int)
    } else {
        most_line_feeds(cells, upto - 1)
    }
}

/// The texts of the cells of a row.
pub open spec fn cells_of(cells: Seq<&str>) -> Seq<Seq<char>> {
    Seq::new(cells.len(), |i: int| cells[i]@)
}

/// The height of a row in lines: one more than the most line feeds that a
/// cell of it holds, cut to 16 bits.
pub open spec fn height_of(cells: Seq<Seq<char>>) -> nat {
    (most_line_feeds(cells, cells.len() as int) + 1) % 0x10000
}

/// The number of line feeds in a text.
fn count_line_feeds(text: &str) -> (r: usize)
    ensures
        r == line_feeds(text@, text@.len() as int),
{
    let chars = crate::paths::chars_of(text);
    let n = chars.len();
    let mut count: usize = 0;
    let mut i: usize = 0;
    while i < n
        invariant
            n == chars@.len(),
            chars@ == text@,
            i <= n,
            count == line_feeds(text@, i as int),
            count <= i,
        decreases n - i,
    {
        if chars[i] == '\n' {
            count = count + 1;
        }
        i = i + 1;
    }
    count
}

/// The height of a row in lines, as `height_of` defines it.
pub fn row_height(row: &AppRow) -> (r: u16)
    ensures
        r == height_of(cells_of(row.display_data@)),
{
    let n = row.display_data.len();
    let mut most: usize = 0;
    let mut i: usize = 0;
    while i < n
        invariant
            n == row.display_data@.len(),
            i <= n,
            most == most_line_feeds(cells_of(row.display_data@), i as int),
        decreases n - i,
    {
        let count = count_line_feeds(row.display_data[i]);
        if count > most {
            most = count;
        }
        i = i + 1;
    }
    let cut: usize = most % 0x10000;
    let height: usize = (cut + 1) % 0x10000;
    assert(height == (most + 1) % 0x10000) by (nonlinear_arith)
        requires
            cut == most % 0x10000,
            height == (cut + 1) % 0x10000,
    ;
    height as u16
}

} // verus!
