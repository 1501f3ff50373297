//! The records of the file system model, and the mathematical view shared by
//! all of them.

use vstd::prelude::*;

verus! {

/// What a node of the model stands for.
pub enum Kind {
    File,
    SymLink,
    Dir,
    DirRef,
}

/// The mathematical view of a file system record. Every record, whatever its
/// kind, is seen as a node; a file or a link has no children and is never open.
pub struct Node {
    pub kind: Kind,
    pub path: Seq<char>,
    pub size_in_bytes: nat,
    pub percent: nat,
    pub is_marked: bool,
    pub is_open: bool,
    pub children: Seq<Node>,
}

/// The listing of a directory.
pub type FSObjList = Vec<FSObj>;

/// What a listing holds: a file, a link, a whole directory (in a view tree)
/// or a reference to a directory (in the index).
#[derive(Debug, PartialEq, Eq, Hash)]
pub enum FSObj {
    File(File),
    SymLink(SymLink),
    Dir(Dir),
    DirRef(DirRef),
}

/// A regular file.
#[derive(Debug, PartialEq, Eq, Hash)]
pub struct File {
    pub path: String,
    pub size_in_bytes: u64,
    pub percent: u8,
    pub is_marked: bool,
}

/// A symbolic link. It is never followed.
#[derive(Debug, PartialEq, Eq, Hash)]
pub struct SymLink {
    pub path: String,
    pub size_in_bytes: u64,
    pub percent: u8,
    pub is_marked: bool,
}

/// A scanned directory, or a directory of a view tree.
#[derive(Debug, PartialEq, Eq, Hash)]
pub struct Dir {
    pub path: String,
    pub size_in_bytes: u64,
    pub percent: u8,
    pub is_marked: bool,
    pub is_open: bool,
    pub dir_obj_list: FSObjList,
}

/// A directory that was seen in its parent's listing. Its own record, once it
/// has been scanned, is found in the index under the same path.
#[derive(Debug, PartialEq, Eq, Hash)]
pub struct DirRef {
    pub path: String,
    pub is_open: bool,
    pub size_in_bytes: u64,
    pub percent: u8,
    pub is_marked: bool,
}

impl View for File {
    type V = Node;

    open spec fn view(&self) -> Node {
        Node {
            kind: Kind::File,
            path: self.path@,
            size_in_bytes: self.size_in_bytes as nat,
            percent: self.percent as nat,
            is_marked: self.is_marked,
            is_open: false,
            children: Seq::empty(),
        }
    }
}

impl View for SymLink {
    type V = Node;

    open spec fn view(&self) -> Node {
        Node {
            kind: Kind::SymLink,
            path: self.path@,
            size_in_bytes: self.size_in_bytes as nat,
            percent: self.percent as nat,
            is_marked: self.is_marked,
            is_open: false,
            children: Seq::empty(),
        }
    }
}

impl View for DirRef {
    type V = Node;

    open spec fn view(&self) -> Node {
        Node {
            kind: Kind::DirRef,
            path: self.path@,
            size_in_bytes: self.size_in_bytes as nat,
            percent: self.percent as nat,
            is_marked: self.is_marked,
            is_open: self.is_open,
            children: Seq::empty(),
        }
    }
}

/// The node that a directory record stands for.
pub open spec fn dir_node(dir: Dir) -> Node
    decreases dir,
{
    Node {
        kind: Kind::Dir,
        path: dir.path@,
        size_in_bytes: dir.size_in_bytes as nat,
        percent: dir.percent as nat,
        is_marked: dir.is_marked,
        is_open: dir.is_open,
        children: Seq::new(
            dir.dir_obj_list@.len(),
            |i: int|
                if 0 <= i < dir.dir_obj_list@.len() {
                    obj_node(dir.dir_obj_list@[i])
                } else {
                    arbitrary()
                },
        ),
    }
}

/// The node that a record stands for.
pub open spec fn obj_node(obj: FSObj) -> Node
    decreases obj,
{
    match obj {
        FSObj::File(o) => o@,
        FSObj::SymLink(o) => o@,
        FSObj::Dir(o) => dir_node(o),
        FSObj::DirRef(o) => o@,
    }
}

impl View for Dir {
    type V = Node;

    open spec fn view(&self) -> Node {
        dir_node(*self)
    }
}

impl View for FSObj {
    type V = Node;

    open spec fn view(&self) -> Node {
        obj_node(*self)
    }
}

impl Clone for File {
    fn clone(&self) -> (r: Self)
        ensures
            r@ == self@,
    {
        File {
            path: self.path.clone(),
            size_in_bytes: self.size_in_bytes,
            percent: self.percent,
            is_marked: self.is_marked,
        }
    }
}

impl Clone for SymLink {
    fn clone(&self) -> (r: Self)
        ensures
            r@ == self@,
    {
        SymLink {
            path: self.path.clone(),
            size_in_bytes: self.size_in_bytes,
            percent: self.percent,
            is_marked: self.is_marked,
        }
    }
}

impl Clone for DirRef {
    fn clone(&self) -> (r: Self)
        ensures
            r@ == self@,
    {
        DirRef {
            path: self.path.clone(),
            is_open: self.is_open,
            size_in_bytes: self.size_in_bytes,
            percent: self.percent,
            is_marked: self.is_marked,
        }
    }
}

/// A copy of a directory record with everything below it.
pub fn copy_dir(dir: &Dir) -> (r: Dir)
    ensures
        r@ == dir@,
    decreases dir,
{
    let mut list: Vec<FSObj> = Vec::new();
    let n = dir.dir_obj_list.len();
    let mut i: usize = 0;
    while i < n
        invariant
            n == dir.dir_obj_list.len(),
            i <= n,
            list@.len() == i,
            forall|j: int| 0 <= j < i ==> list@[j]@ == dir.dir_obj_list@[j]@,
        decreases n - i,
    {
        let c = copy_obj(&dir.dir_obj_list[i]);
        list.push(c);
        i = i + 1;
    }
    let r = Dir {
        path: dir.path.clone(),
        size_in_bytes: dir.size_in_bytes,
        percent: dir.percent,
        is_marked: dir.is_marked,
        is_open: dir.is_open,
        dir_obj_list: list,
    };
    assert(r@.children =~= dir@.children);
    r
}

/// A copy of a record with everything below it.
pub fn copy_obj(obj: &FSObj) -> (r: FSObj)
    ensures
        r@ == obj@,
    decreases obj,
{
    match obj {
        FSObj::File(o) => FSObj::File(o.clone()),
        FSObj::SymLink(o) => FSObj::SymLink(o.clone()),
        FSObj::Dir(o) => FSObj::Dir(copy_dir(o)),
        FSObj::DirRef(o) => FSObj::DirRef(o.clone()),
    }
}

impl Clone for Dir {
    fn clone(&self) -> (r: Self)
        ensures
            r@ == self@,
    {
        copy_dir(self)
    }
}

impl Clone for FSObj {
    fn clone(&self) -> (r: Self)
        ensures
            r@ == self@,
    {
        copy_obj(self)
    }
}

/// The views of a list of records, in order.
pub open spec fn nodes_of(list: Seq<FSObj>) -> Seq<Node> {
    Seq::new(list.len(), |i: int| list[i]@)
}

/// The views of a list of strings, in order.
pub open spec fn strings_of(list: Seq<String>) -> Seq<Seq<char>> {
    Seq::new(list.len(), |i: int| list[i]@)
}

/// The children of the node of a directory are the nodes of its listing.
pub proof fn lemma_dir_children(dir: &Dir)
    ensures
        dir@.children == nodes_of(dir.dir_obj_list@),
        dir@.kind == Kind::Dir,
{
    assert(dir@.children =~= nodes_of(dir.dir_obj_list@));
}

impl Dir {
    /// The path of the directory.
    pub fn path(&self) -> (r: String)
        ensures
            r@ == self@.path,
    {
        self.path.clone()
    }
}

impl DirRef {
    /// The path of the directory that is referred to.
    pub fn path(&self) -> (r: String)
        ensures
            r@ == self@.path,
    {
        self.path.clone()
    }
}

impl File {
    /// The path of the file.
    pub fn path(&self) -> (r: String)
        ensures
            r@ == self@.path,
    {
        self.path.clone()
    }
}

impl SymLink {
    /// The path of the link.
    pub fn path(&self) -> (r: String)
        ensures
            r@ == self@.path,
    {
        self.path.clone()
    }
}

/// A record that knows its path.
pub trait Path {
/// The path of the record.
    spec fn path_spec(&self) -> Seq<char>;

    /// The path of the record.
    fn path(&self) -> (r: String)
        ensures
            r@ == self.path_spec(),
    ;
}

/// A record that knows its size.
pub trait SizeInBytes {
/// The size of the record in bytes.
    spec fn size_spec(&self) -> nat;

    /// The size of the record in bytes.
    fn size_in_bytes(&self) -> (r: u64)
        ensures
            r as nat == self.size_spec(),
    ;
}

impl SizeInBytes for FSObj {
    open spec fn size_spec(&self) -> nat {
        self@.size_in_bytes
    }

    fn size_in_bytes(&self) -> (r: u64) {
        match self {
            FSObj::Dir(dir) => dir.size_in_bytes,
            FSObj::DirRef(dir_ref) => dir_ref.size_in_bytes,
            FSObj::File(file) => file.size_in_bytes,
            FSObj::SymLink(sym_link) => sym_link.size_in_bytes,
        }
    }
}

impl Path for FSObj {
    open spec fn path_spec(&self) -> Seq<char> {
        self@.path
    }

    fn path(&self) -> (r: String) {
        match self {
            FSObj::Dir(o) => o.path.clone(),
            FSObj::DirRef(o) => o.path.clone(),
            FSObj::File(o) => o.path.clone(),
            FSObj::SymLink(o) => o.path.clone(),
        }
    }
}

} // verus!
