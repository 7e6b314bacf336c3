//! A redirected drive as a file server: the tree of files seen so far, and what each
//! request makes of it.
use super::Nfsstat3;
use crate::keyed::{
    distinct, holds, lemma_table_at, lemma_table_push, lemma_table_swap_remove, place, table, Keyed,
};
use crate::order::{ordered, sorted_positions};
use crate::text::{
    chars_of, concat2, decimal_text, join_path, same_text, string_of, trim, utf8_lossy,
};
use crate::wire::append_bytes;
use vstd::prelude::*;

verus! {

/// The number of the drive's root directory.
pub const ROOT_ID: u64 = 1;

/// A file or directory as it is known here.
#[derive(Debug)]
pub struct Node {
    pub remote_path: String,
    pub is_dir: bool,
    pub size: u64,
    pub parent: u64,
}

/// [`Node`] as a mathematical value.
#[verifier::ext_equal]
pub struct NodeView {
    pub path: Seq<char>,
    pub is_dir: bool,
    pub size: u64,
    pub parent: u64,
}

impl View for Node {
    type V = NodeView;

    open spec fn view(&self) -> NodeView {
        NodeView {
            path: self.remote_path@,
            is_dir: self.is_dir,
            size: self.size,
            parent: self.parent,
        }
    }
}

/// The known part of a drive: nodes by number, and the next number to be given out.
#[verifier::ext_equal]
pub struct Tree {
    pub next_id: u64,
    pub nodes: Map<u64, NodeView>,
}

/// Numbers were given out in order, from 1 on, and no path has two of them.
pub open spec fn tree_wf(t: Tree) -> bool {
    &&& t.next_id > 0
    &&& forall|id: u64| #[trigger] t.nodes.contains_key(id) ==> 0 < id < t.next_id
    &&& forall|a: u64, b: u64|
        #[trigger] t.nodes.contains_key(a) && #[trigger] t.nodes.contains_key(b) && t.nodes[a].path
            == t.nodes[b].path ==> a == b
}

/// The number under which a path is known.
pub open spec fn id_of(t: Tree, path: Seq<char>) -> Option<u64> {
    if exists|id: u64| #[trigger] t.nodes.contains_key(id) && t.nodes[id].path == path {
        Some(choose|id: u64| #[trigger] t.nodes.contains_key(id) && t.nodes[id].path == path)
    } else {
        None
    }
}

proof fn lemma_id_of(t: Tree, id: u64)
    requires
        tree_wf(t),
        t.nodes.contains_key(id),
    ensures
        id_of(t, t.nodes[id].path) == Some(id),
{
}

pub open spec fn fresh_tree() -> Tree {
    Tree {
        next_id: 2,
        nodes: map![
            ROOT_ID => NodeView { path: "\\"@, is_dir: true, size: 0, parent: ROOT_ID },
        ],
    }
}

/// The number of a path, and the tree after it was seen: a known path keeps its
/// number and takes on the new kind and size, a new one gets the next number.
pub open spec fn interned(t: Tree, parent: u64, path: Seq<char>, is_dir: bool, size: u64) -> (
    u64,
    Tree,
) {
    match id_of(t, path) {
        Some(id) => (
            id,
            Tree { nodes: t.nodes.insert(id, NodeView { is_dir, size, ..t.nodes[id] }), ..t },
        ),
        None => (
            t.next_id,
            Tree {
                next_id: (t.next_id + 1) as u64,
                nodes: t.nodes.insert(t.next_id, NodeView { path, is_dir, size, parent }),
            },
        ),
    }
}

pub open spec fn forgotten(t: Tree, id: u64) -> Tree {
    Tree { nodes: t.nodes.remove(id), ..t }
}

pub open spec fn resized(t: Tree, id: u64, size: u64) -> Tree {
    if t.nodes.contains_key(id) {
        Tree { nodes: t.nodes.insert(id, NodeView { size, ..t.nodes[id] }), ..t }
    } else {
        t
    }
}

/// The path of an entry of a directory.
pub open spec fn remote_child(dir: Seq<char>, name: Seq<char>) -> Seq<char> {
    if dir == "\\"@ {
        "\\"@ + name
    } else {
        dir + "\\"@ + name
    }
}

pub fn join_remote(dir: &str, name: &str) -> (s: String)
    ensures
        s@ == remote_child(dir@, name@),
{
    if same_text(dir, "\\") {
        concat2("\\", name)
    } else {
        let d: String = concat2(dir, "\\");
        concat2(d.as_str(), name)
    }
}

/// The attributes that a node is reported with.
#[derive(Debug, Clone, Copy, PartialEq, Eq, Structural)]
pub struct Attr {
    pub is_dir: bool,
    pub mode: u32,
    pub nlink: u32,
    pub size: u64,
    pub used: u64,
    pub fileid: u64,
    /// The access, modification and change times, in seconds.
    pub seconds: u32,
}

pub open spec fn attributes(created_secs: u32, id: u64, is_dir: bool, size: u64) -> Attr {
    if is_dir {
        Attr {
            is_dir: true,
            mode: 0o755,
            nlink: 2,
            size: 4096,
            used: 4096,
            fileid: id,
            seconds: created_secs,
        }
    } else {
        Attr {
            is_dir: false,
            mode: 0o644,
            nlink: 1,
            size,
            used: size,
            fileid: id,
            seconds: created_secs,
        }
    }
}

pub fn attr(created_secs: u32, id: u64, is_dir: bool, size: u64) -> (a: Attr)
    ensures
        a == attributes(created_secs, id, is_dir, size),
{
    if is_dir {
        Attr {
            is_dir: true,
            mode: 0o755,
            nlink: 2,
            size: 4096,
            used: 4096,
            fileid: id,
            seconds: created_secs,
        }
    } else {
        Attr {
            is_dir: false,
            mode: 0o644,
            nlink: 1,
            size,
            used: size,
            fileid: id,
            seconds: created_secs,
        }
    }
}

/// An entry of a directory listing as the client sends it.
#[derive(Debug)]
pub struct RdpEntry {
    pub name: String,
    pub is_dir: bool,
    pub size: u64,
}

/// The numbers of a directory's entries, and the tree after they were seen.
pub open spec fn absorbed(t: Tree, dirid: u64, dir: Seq<char>, entries: Seq<RdpEntry>) -> (
    Seq<u64>,
    Tree,
)
    decreases entries.len(),
{
    if entries.len() == 0 {
        (Seq::empty(), t)
    } else {
        let (ids, before) = absorbed(t, dirid, dir, entries.drop_last());
        let e = entries.last();
        let (id, after) = interned(before, dirid, remote_child(dir, e.name@), e.is_dir, e.size);
        (ids.push(id), after)
    }
}

/// What a request for a name leads to.
#[derive(Debug)]
pub enum Lookup {
    Found(u64),
    /// The path is not known: list the directory, then look for the path again.
    List(String),
}

/// What a request for a name in a directory leads to, `r` being the answer: `.` and `..`
/// are known without a listing.
pub open spec fn looked_up(
    t: Tree,
    dirid: u64,
    name: Seq<char>,
    r: Result<Lookup, Nfsstat3>,
) -> bool {
    let child = remote_child(t.nodes[dirid].path, name);
    if name == "."@ {
        r == Ok::<Lookup, Nfsstat3>(Lookup::Found(dirid))
    } else if name == ".."@ {
        r == (if t.nodes.contains_key(dirid) {
            Ok::<Lookup, Nfsstat3>(Lookup::Found(t.nodes[dirid].parent))
        } else {
            Err(Nfsstat3::NoEnt)
        })
    } else {
        match dir_path(t, dirid) {
            Err(e) => r == Err::<Lookup, Nfsstat3>(e),
            Ok(_) => match id_of(t, child) {
                Some(id) => r == Ok::<Lookup, Nfsstat3>(Lookup::Found(id)),
                None => r matches Ok(Lookup::List(p)) && p@ == child,
            },
        }
    }
}

/// What is to be removed. Where nothing is known of it, its directory is listed first.
#[derive(Debug)]
pub struct Removal {
    pub path: String,
    pub target: Option<Known>,
}

/// What is to be renamed, and to what. Where nothing is known of it, its directory is
/// listed first.
#[derive(Debug)]
pub struct Renaming {
    pub from: String,
    pub to: String,
    pub source: Option<Known>,
}

/// The path of a name in a directory.
pub open spec fn child_of(t: Tree, dirid: u64, name: Seq<char>) -> Result<Seq<char>, Nfsstat3> {
    match dir_path(t, dirid) {
        Ok(dir) => Ok(remote_child(dir, name)),
        Err(e) => Err(e),
    }
}

/// What a read leads to.
#[derive(Debug)]
pub enum ReadStep {
    /// Nothing lies at or behind the offset.
    End,
    /// Fetch from this path, whose size is known.
    Fetch(String, u64),
}

/// What a change of attributes leads to.
#[derive(Debug)]
pub struct SetAttr {
    pub is_dir: bool,
    /// The file to be cut or extended, and its new length.
    pub set_len: Option<(String, u64)>,
}

/// What is known of a path.
#[derive(Debug, Clone, Copy, PartialEq, Eq, Structural)]
pub struct Known {
    pub id: u64,
    pub is_dir: bool,
    pub size: u64,
}

pub open spec fn known(t: Tree, path: Seq<char>) -> Option<Known> {
    match id_of(t, path) {
        Some(id) => Some(Known { id, is_dir: t.nodes[id].is_dir, size: t.nodes[id].size }),
        None => None,
    }
}

/// The path of a directory, or why the number names none.
pub open spec fn dir_path(t: Tree, dirid: u64) -> Result<Seq<char>, Nfsstat3> {
    if !t.nodes.contains_key(dirid) {
        Err(Nfsstat3::NoEnt)
    } else if !t.nodes[dirid].is_dir {
        Err(Nfsstat3::NotDir)
    } else {
        Ok(t.nodes[dirid].path)
    }
}

pub open spec fn text_result(r: Result<String, Nfsstat3>) -> Result<Seq<char>, Nfsstat3> {
    match r {
        Ok(s) => Ok(s@),
        Err(e) => Err(e),
    }
}

/// What a read at an offset leads to, `r` being the answer.
pub open spec fn is_read(t: Tree, id: u64, offset: u64, r: Result<ReadStep, Nfsstat3>) -> bool {
    let n = t.nodes[id];
    if !t.nodes.contains_key(id) {
        r == Err::<ReadStep, Nfsstat3>(Nfsstat3::NoEnt)
    } else if n.is_dir {
        r == Err::<ReadStep, Nfsstat3>(Nfsstat3::IsDir)
    } else if offset >= n.size {
        r == Ok::<ReadStep, Nfsstat3>(ReadStep::End)
    } else {
        r matches Ok(ReadStep::Fetch(path, size)) && path@ == n.path && size == n.size
    }
}

/// What a change of attributes leads to, `r` being the answer.
pub open spec fn is_setattr(
    t: Tree,
    id: u64,
    new_size: Option<u64>,
    r: Result<SetAttr, Nfsstat3>,
) -> bool {
    let n = t.nodes[id];
    if !t.nodes.contains_key(id) {
        r == Err::<SetAttr, Nfsstat3>(Nfsstat3::NoEnt)
    } else {
        &&& r matches Ok(s)
        &&& s.is_dir == n.is_dir
        &&& match s.set_len {
            Some((path, size)) => !n.is_dir && new_size == Some(size) && path@ == n.path,
            None => n.is_dir || new_size is None,
        }
    }
}

/// The path of the file that a write goes to.
pub open spec fn written_path(t: Tree, id: u64) -> Result<Seq<char>, Nfsstat3> {
    if !t.nodes.contains_key(id) {
        Err::<Seq<char>, Nfsstat3>(Nfsstat3::NoEnt)
    } else if t.nodes[id].is_dir {
        Err(Nfsstat3::IsDir)
    } else {
        Ok(t.nodes[id].path)
    }
}

/// The size of a file after a write.
pub open spec fn written_size(t: Tree, id: u64, offset: u64, len: u64) -> u64 {
    let cur = if t.nodes.contains_key(id) {
        t.nodes[id].size
    } else {
        0
    };
    if cur >= offset + len {
        cur
    } else {
        (offset + len) as u64
    }
}

/// What a removal leads to, `r` being the answer.
pub open spec fn is_removal(
    t: Tree,
    dirid: u64,
    name: Seq<char>,
    r: Result<Removal, Nfsstat3>,
) -> bool {
    match child_of(t, dirid, name) {
        Err(e) => r == Err::<Removal, Nfsstat3>(e),
        Ok(path) => r matches Ok(m) && m.path@ == path && m.target == known(t, path),
    }
}

/// What a renaming leads to, `r` being the answer.
pub open spec fn is_renaming(
    t: Tree,
    from_dirid: u64,
    from_name: Seq<char>,
    to_dirid: u64,
    to_name: Seq<char>,
    r: Result<Renaming, Nfsstat3>,
) -> bool {
    match (child_of(t, from_dirid, from_name), child_of(t, to_dirid, to_name)) {
        (Err(e), _) => r == Err::<Renaming, Nfsstat3>(e),
        (Ok(_), Err(e)) => r == Err::<Renaming, Nfsstat3>(e),
        (Ok(from), Ok(to)) => r matches Ok(m) && m.from@ == from && m.to@ == to && m.source
            == known(t, from),
    }
}

/// The files of a drive that were seen so far.
#[derive(Debug)]
pub struct FsCache {
    next_id: u64,
    nodes: Vec<(u64, Node)>,
}

impl Keyed for (u64, Node) {
    type Key = u64;

    type Value = NodeView;

    open spec fn key(&self) -> u64 {
        self.0
    }

    open spec fn value(&self) -> NodeView {
        self.1@
    }
}

impl View for FsCache {
    type V = Tree;

    closed spec fn view(&self) -> Tree {
        Tree { next_id: self.next_id, nodes: table(self.nodes@) }
    }
}

impl FsCache {
    pub closed spec fn wf(&self) -> bool {
        &&& distinct(self.nodes@)
        &&& tree_wf(self@)
    }

    /// A well-formed table is a tree in order.
    pub proof fn tables_are_trees(&self)
        requires
            self.wf(),
        ensures
            tree_wf(self@),
    {
    }

    /// Only the root is known at first.
    pub fn new() -> (c: Self)
        ensures
            c.wf(),
            c@ == fresh_tree(),
    {
        let root: Node = Node {
            remote_path: "\\".to_owned(),
            is_dir: true,
            size: 0,
            parent: ROOT_ID,
        };
        let mut nodes: Vec<(u64, Node)> = Vec::new();
        proof {
            lemma_table_push(Seq::empty(), (ROOT_ID, root));
            assert(table(Seq::<(u64, Node)>::empty()) =~= Map::<u64, NodeView>::empty());
        }
        nodes.push((ROOT_ID, root));
        let c = FsCache { next_id: ROOT_ID + 1, nodes };
        assert(c@ =~= fresh_tree());
        c
    }

    fn find(&self, id: u64) -> (r: Option<usize>)
        ensures
            r is Some <==> holds(self.nodes@, id),
            r matches Some(i) ==> i < self.nodes@.len() && self.nodes@[i as int].key() == id,
    {
        let mut i: usize = 0;
        while i < self.nodes.len()
            invariant
                i <= self.nodes.len(),
                forall|k: int| 0 <= k < i ==> #[trigger] self.nodes@[k].key() != id,
            decreases self.nodes.len() - i,
        {
            if self.nodes[i].0 == id {
                assert(self.nodes@[i as int].key() == id);
                return Some(i);
            }
            i = i + 1;
        }
        None
    }

    fn find_path(&self, path: &str) -> (r: Option<usize>)
        requires
            self.wf(),
        ensures
            r is Some <==> id_of(self@, path@) is Some,
            r matches Some(i) ==> i < self.nodes@.len() && self.nodes@[i as int].1@.path == path@
                && id_of(self@, path@) == Some(self.nodes@[i as int].0),
    {
        let mut i: usize = 0;
        while i < self.nodes.len()
            invariant
                i <= self.nodes.len(),
                self.wf(),
                forall|k: int| 0 <= k < i ==> #[trigger] self.nodes@[k].1@.path != path@,
            decreases self.nodes.len() - i,
        {
            if same_text(self.nodes[i].1.remote_path.as_str(), path) {
                proof {
                    lemma_table_at(self.nodes@, i as int);
                    lemma_id_of(self@, self.nodes@[i as int].0);
                }
                return Some(i);
            }
            i = i + 1;
        }
        proof {
            if id_of(self@, path@) is Some {
                let id = id_of(self@, path@)->0;
                let k = place(self.nodes@, id);
                lemma_table_at(self.nodes@, k);
                assert(self.nodes@[k].1@.path == path@);
            }
        }
        None
    }

    /// Replaces kind and size of the node at a place.
    fn update_at(&mut self, i: usize, is_dir: bool, size: u64)
        requires
            old(self).wf(),
            i < old(self).nodes@.len(),
        ensures
            final(self).wf(),
            final(self)@ == (Tree {
                nodes: old(self)@.nodes.insert(
                    old(self).nodes@[i as int].0,
                    NodeView { is_dir, size, ..old(self).nodes@[i as int].1@ },
                ),
                ..old(self)@
            }),
    {
        let ghost before = self.nodes@;
        proof {
            lemma_table_at(before, i as int);
            lemma_table_swap_remove(before, i as int);
        }
        let (id, node): (u64, Node) = self.nodes.swap_remove(i);
        let node: Node = Node {
            remote_path: node.remote_path,
            is_dir,
            size,
            parent: node.parent,
        };
        proof {
            lemma_table_push(self.nodes@, (id, node));
            assert(table(before).remove(id).insert(id, node@) =~= table(before).insert(id, node@));
        }
        self.nodes.push((id, node));
        proof {
            assert(self@.nodes =~= table(before).insert(id, node@));
            assert(tree_wf(self@)) by {
                let t = old(self)@;
                assert forall|a: u64, b: u64|
                    #[trigger] self@.nodes.contains_key(a) && #[trigger] self@.nodes.contains_key(b)
                        && self@.nodes[a].path == self@.nodes[b].path implies a == b by {
                    assert(t.nodes.contains_key(a) && t.nodes.contains_key(b));
                    assert(t.nodes[a].path == self@.nodes[a].path);
                    assert(t.nodes[b].path == self@.nodes[b].path);
                }
                assert forall|a: u64| #[trigger] self@.nodes.contains_key(a) implies a
                    < self@.next_id by {
                    assert(t.nodes.contains_key(a));
                }
            }
        }
    }

    /// The number of a path, which it gets where it has none yet.
    pub fn intern(&mut self, parent: u64, path: &str, is_dir: bool, size: u64) -> (id: u64)
        requires
            old(self).wf(),
            old(self)@.next_id < u64::MAX,
        ensures
            final(self).wf(),
            (id, final(self)@) == interned(old(self)@, parent, path@, is_dir, size),
    {
        match self.find_path(path) {
            Some(i) => {
                proof {
                    lemma_table_at(self.nodes@, i as int);
                }
                let id: u64 = self.nodes[i].0;
                self.update_at(i, is_dir, size);
                id
            },
            None => {
                let id: u64 = self.next_id;
                let node: Node = Node { remote_path: path.to_owned(), is_dir, size, parent };
                proof {
                    assert(!holds(self.nodes@, id)) by {
                        if holds(self.nodes@, id) {
                            assert(self@.nodes.contains_key(id));
                        }
                    }
                    lemma_table_push(self.nodes@, (id, node));
                }
                self.next_id = self.next_id + 1;
                self.nodes.push((id, node));
                proof {
                    let t = old(self)@;
                    assert forall|a: u64, b: u64|
                        #[trigger] self@.nodes.contains_key(a)
                            && #[trigger] self@.nodes.contains_key(b) && self@.nodes[a].path
                            == self@.nodes[b].path implies a == b by {
                        if a != id {
                            assert(t.nodes.contains_key(a));
                        }
                        if b != id {
                            assert(t.nodes.contains_key(b));
                        }
                    }
                    assert forall|a: u64| #[trigger] self@.nodes.contains_key(a) implies 0 < a
                        < self@.next_id by {
                        if a != id {
                            assert(t.nodes.contains_key(a));
                        }
                    }
                }
                id
            },
        }
    }

    /// Drops a node.
    pub fn forget(&mut self, id: u64)
        requires
            old(self).wf(),
        ensures
            final(self).wf(),
            final(self)@ == forgotten(old(self)@, id),
    {
        match self.find(id) {
            Some(i) => {
                proof {
                    lemma_table_swap_remove(self.nodes@, i as int);
                }
                self.nodes.swap_remove(i);
                proof {
                    let t = old(self)@;
                    assert forall|a: u64, b: u64|
                        #[trigger] self@.nodes.contains_key(a)
                            && #[trigger] self@.nodes.contains_key(b) && self@.nodes[a].path
                            == self@.nodes[b].path implies a == b by {
                        assert(t.nodes.contains_key(a) && t.nodes.contains_key(b));
                    }
                    assert forall|a: u64| #[trigger] self@.nodes.contains_key(a) implies 0 < a
                        < self@.next_id by {
                        assert(t.nodes.contains_key(a));
                    }
                }
            },
            None => {
                assert(self@.nodes.remove(id) =~= self@.nodes);
            },
        }
    }

    /// Notes a node's new size.
    pub fn set_size(&mut self, id: u64, size: u64)
        requires
            old(self).wf(),
        ensures
            final(self).wf(),
            final(self)@ == resized(old(self)@, id, size),
    {
        if let Some(i) = self.find(id) {
            proof {
                lemma_table_at(self.nodes@, i as int);
            }
            let is_dir: bool = self.nodes[i].1.is_dir;
            self.update_at(i, is_dir, size);
        }
    }

    /// The path of a directory.
    pub fn dir_path_of(&self, dirid: u64) -> (r: Result<String, Nfsstat3>)
        requires
            self.wf(),
        ensures
            text_result(r) == dir_path(self@, dirid),
    {
        match self.find(dirid) {
            None => Err(Nfsstat3::NoEnt),
            Some(i) => {
                proof {
                    lemma_table_at(self.nodes@, i as int);
                }
                if !self.nodes[i].1.is_dir {
                    return Err(Nfsstat3::NotDir);
                }
                Ok(self.nodes[i].1.remote_path.clone())
            },
        }
    }

    /// What is known of a path.
    pub fn resolve(&self, path: &str) -> (r: Option<Known>)
        requires
            self.wf(),
        ensures
            r == known(self@, path@),
    {
        match self.find_path(path) {
            None => None,
            Some(i) => {
                proof {
                    lemma_table_at(self.nodes@, i as int);
                }
                Some(
                    Known {
                        id: self.nodes[i].0,
                        is_dir: self.nodes[i].1.is_dir,
                        size: self.nodes[i].1.size,
                    },
                )
            },
        }
    }

    /// Takes in a directory's listing and gives the entries' numbers, in order.
    pub fn absorb_listing(&mut self, dirid: u64, dir: &str, entries: &Vec<RdpEntry>) -> (ids: Vec<
        u64,
    >)
        requires
            old(self).wf(),
            old(self)@.next_id + entries@.len() <= u64::MAX,
        ensures
            final(self).wf(),
            (ids@, final(self)@) == absorbed(old(self)@, dirid, dir@, entries@),
    {
        let mut ids: Vec<u64> = Vec::new();
        let mut i: usize = 0;
        assert(entries@.take(0) =~= Seq::<RdpEntry>::empty());
        while i < entries.len()
            invariant
                i <= entries.len(),
                self.wf(),
                old(self)@.next_id + entries@.len() <= u64::MAX,
                self@.next_id <= old(self)@.next_id + i,
                (ids@, self@) == absorbed(old(self)@, dirid, dir@, entries@.take(i as int)),
            decreases entries.len() - i,
        {
            let e: &RdpEntry = &entries[i];
            let child: String = join_remote(dir, e.name.as_str());
            let id: u64 = self.intern(dirid, child.as_str(), e.is_dir, e.size);
            ids.push(id);
            assert(entries@.take(i + 1).drop_last() =~= entries@.take(i as int));
            i = i + 1;
        }
        assert(entries@.take(i as int) =~= entries@);
        ids
    }

    /// Looks for a name, given as bytes, in a directory.
    pub fn lookup(&self, dirid: u64, filename: &[u8]) -> (r: Result<Lookup, Nfsstat3>)
        requires
            self.wf(),
        ensures
            looked_up(self@, dirid, crate::text::lossy_text(filename@), r),
    {
        let name: String = name_text(filename);
        self.lookup_name(dirid, name.as_str())
    }

    /// Looks for a name in a directory.
    pub fn lookup_name(&self, dirid: u64, name: &str) -> (r: Result<Lookup, Nfsstat3>)
        requires
            self.wf(),
        ensures
            looked_up(self@, dirid, name@, r),
    {
        if same_text(name, ".") {
            return Ok(Lookup::Found(dirid));
        }
        if same_text(name, "..") {
            return match self.find(dirid) {
                Some(i) => {
                    proof {
                        lemma_table_at(self.nodes@, i as int);
                    }
                    Ok(Lookup::Found(self.nodes[i].1.parent))
                },
                None => Err(Nfsstat3::NoEnt),
            };
        }
        match self.dir_path_of(dirid) {
            Err(e) => Err(e),
            Ok(dir) => {
                let child: String = join_remote(dir.as_str(), name);
                match self.resolve(child.as_str()) {
                    Some(k) => Ok(Lookup::Found(k.id)),
                    None => Ok(Lookup::List(child)),
                }
            },
        }
    }

    /// Looks for a path again, after its directory was listed.
    pub fn lookup_listed(&self, child: &str) -> (r: Result<u64, Nfsstat3>)
        requires
            self.wf(),
        ensures
            r == (match id_of(self@, child@) {
                Some(id) => Ok::<u64, Nfsstat3>(id),
                None => Err(Nfsstat3::NoEnt),
            }),
    {
        match self.resolve(child) {
            Some(k) => Ok(k.id),
            None => Err(Nfsstat3::NoEnt),
        }
    }

    pub fn getattr(&self, created_secs: u32, id: u64) -> (r: Result<Attr, Nfsstat3>)
        requires
            self.wf(),
        ensures
            r == (if self@.nodes.contains_key(id) {
                Ok::<Attr, Nfsstat3>(
                    attributes(
                        created_secs,
                        id,
                        self@.nodes[id].is_dir,
                        self@.nodes[id].size,
                    ),
                )
            } else {
                Err(Nfsstat3::NoEnt)
            }),
    {
        match self.find(id) {
            Some(i) => {
                proof {
                    lemma_table_at(self.nodes@, i as int);
                }
                Ok(attr(created_secs, id, self.nodes[i].1.is_dir, self.nodes[i].1.size))
            },
            None => Err(Nfsstat3::NoEnt),
        }
    }

    /// Starts a read at an offset.
    pub fn read(&self, id: u64, offset: u64) -> (r: Result<ReadStep, Nfsstat3>)
        requires
            self.wf(),
        ensures
            is_read(self@, id, offset, r),
    {
        match self.find(id) {
            None => Err(Nfsstat3::NoEnt),
            Some(i) => {
                proof {
                    lemma_table_at(self.nodes@, i as int);
                }
                if self.nodes[i].1.is_dir {
                    return Err(Nfsstat3::IsDir);
                }
                if offset >= self.nodes[i].1.size {
                    return Ok(ReadStep::End);
                }
                Ok(ReadStep::Fetch(self.nodes[i].1.remote_path.clone(), self.nodes[i].1.size))
            },
        }
    }

    /// Starts a change of attributes. Only a file's size can be changed; all else is
    /// taken without effect.
    pub fn setattr(&self, id: u64, new_size: Option<u64>) -> (r: Result<SetAttr, Nfsstat3>)
        requires
            self.wf(),
        ensures
            is_setattr(self@, id, new_size, r),
    {
        match self.find(id) {
            None => Err(Nfsstat3::NoEnt),
            Some(i) => {
                proof {
                    lemma_table_at(self.nodes@, i as int);
                }
                let is_dir: bool = self.nodes[i].1.is_dir;
                let set_len: Option<(String, u64)> = match new_size {
                    Some(size) => if is_dir {
                        None
                    } else {
                        Some((self.nodes[i].1.remote_path.clone(), size))
                    },
                    None => None,
                };
                Ok(SetAttr { is_dir, set_len })
            },
        }
    }

    /// The attributes after a change, from what is known by then.
    pub fn setattr_done(&self, created_secs: u32, id: u64, is_dir: bool) -> (a: Attr)
        requires
            self.wf(),
        ensures
            a == attributes(
                created_secs,
                id,
                is_dir,
                if self@.nodes.contains_key(id) {
                    self@.nodes[id].size
                } else {
                    0
                },
            ),
    {
        let size: u64 = match self.find(id) {
            Some(i) => {
                proof {
                    lemma_table_at(self.nodes@, i as int);
                }
                self.nodes[i].1.size
            },
            None => 0,
        };
        attr(created_secs, id, is_dir, size)
    }

    /// Starts a write: the path of the file to write to.
    pub fn write(&self, id: u64) -> (r: Result<String, Nfsstat3>)
        requires
            self.wf(),
        ensures
            text_result(r) == written_path(self@, id),
    {
        match self.find(id) {
            None => Err(Nfsstat3::NoEnt),
            Some(i) => {
                proof {
                    lemma_table_at(self.nodes@, i as int);
                }
                if self.nodes[i].1.is_dir {
                    return Err(Nfsstat3::IsDir);
                }
                Ok(self.nodes[i].1.remote_path.clone())
            },
        }
    }

    /// Ends a write of `len` bytes at an offset: the file is at least that long now.
    pub fn write_done(&mut self, created_secs: u32, id: u64, offset: u64, len: u64) -> (a: Attr)
        requires
            old(self).wf(),
            offset + len <= u64::MAX,
        ensures
            final(self).wf(),
            final(self)@ == resized(old(self)@, id, written_size(old(self)@, id, offset, len)),
            a == attributes(created_secs, id, false, written_size(old(self)@, id, offset, len)),
    {
        let cur: u64 = match self.find(id) {
            Some(i) => {
                proof {
                    lemma_table_at(self.nodes@, i as int);
                }
                self.nodes[i].1.size
            },
            None => 0,
        };
        let end: u64 = offset + len;
        let size: u64 = if cur >= end {
            cur
        } else {
            end
        };
        self.set_size(id, size);
        attr(created_secs, id, false, size)
    }

    /// The path of a name in a directory.
    pub fn child_path(&self, dirid: u64, name: &str) -> (r: Result<String, Nfsstat3>)
        requires
            self.wf(),
        ensures
            text_result(r) == child_of(self@, dirid, name@),
    {
        match self.dir_path_of(dirid) {
            Ok(dir) => Ok(join_remote(dir.as_str(), name)),
            Err(e) => Err(e),
        }
    }

    /// The path at which a file or directory is to be made.
    pub fn create(&self, dirid: u64, filename: &[u8]) -> (r: Result<String, Nfsstat3>)
        requires
            self.wf(),
        ensures
            text_result(r) == child_of(self@, dirid, crate::text::lossy_text(filename@)),
    {
        let name: String = name_text(filename);
        self.child_path(dirid, name.as_str())
    }

    /// What is to be removed.
    pub fn remove(&self, dirid: u64, filename: &[u8]) -> (r: Result<Removal, Nfsstat3>)
        requires
            self.wf(),
        ensures
            is_removal(self@, dirid, crate::text::lossy_text(filename@), r),
    {
        let name: String = name_text(filename);
        match self.child_path(dirid, name.as_str()) {
            Err(e) => Err(e),
            Ok(path) => {
                let target: Option<Known> = self.resolve(path.as_str());
                Ok(Removal { path, target })
            },
        }
    }

    /// What is to be renamed. The directory it is in is looked at before the one it goes
    /// to.
    pub fn rename(
        &self,
        from_dirid: u64,
        from_filename: &[u8],
        to_dirid: u64,
        to_filename: &[u8],
    ) -> (r: Result<Renaming, Nfsstat3>)
        requires
            self.wf(),
        ensures
            is_renaming(
                self@,
                from_dirid,
                crate::text::lossy_text(from_filename@),
                to_dirid,
                crate::text::lossy_text(to_filename@),
                r,
            ),
    {
        let from_name: String = name_text(from_filename);
        let to_name: String = name_text(to_filename);
        match self.child_path(from_dirid, from_name.as_str()) {
            Err(e) => Err(e),
            Ok(from) => match self.child_path(to_dirid, to_name.as_str()) {
                Err(e) => Err(e),
                Ok(to) => {
                    let source: Option<Known> = self.resolve(from.as_str());
                    Ok(Renaming { from, to, source })
                },
            },
        }
    }

    /// What is known of a path once its directory was listed.
    pub fn target_listed(&self, path: &str) -> (r: Result<Known, Nfsstat3>)
        requires
            self.wf(),
        ensures
            r == (match known(self@, path@) {
                Some(k) => Ok::<Known, Nfsstat3>(k),
                None => Err(Nfsstat3::NoEnt),
            }),
    {
        match self.resolve(path) {
            Some(k) => Ok(k),
            None => Err(Nfsstat3::NoEnt),
        }
    }

    /// A file or directory was made, empty.
    pub fn created(&mut self, created_secs: u32, dirid: u64, child: &str, is_dir: bool) -> (r: (
        u64,
        Attr,
    ))
        requires
            old(self).wf(),
            old(self)@.next_id < u64::MAX,
        ensures
            final(self).wf(),
            (r.0, final(self)@) == interned(old(self)@, dirid, child@, is_dir, 0),
            r.1 == attributes(created_secs, r.0, is_dir, 0),
    {
        let id: u64 = self.intern(dirid, child, is_dir, 0);
        (id, attr(created_secs, id, is_dir, 0))
    }

    /// A file or directory was renamed. It gets the number of its new path.
    pub fn renamed(&mut self, src_id: u64, to_dirid: u64, to_path: &str, is_dir: bool, size: u64)
        requires
            old(self).wf(),
            old(self)@.next_id < u64::MAX,
        ensures
            final(self).wf(),
            final(self)@ == interned(
                forgotten(old(self)@, src_id),
                to_dirid,
                to_path@,
                is_dir,
                size,
            ).1,
    {
        self.forget(src_id);
        let _ = self.intern(to_dirid, to_path, is_dir, size);
    }
}

/// The text of a file name that arrives as bytes.
pub fn name_text(filename: &[u8]) -> (s: String)
    ensures
        s@ == crate::text::lossy_text(filename@),
        vstd::utf8::valid_utf8(filename@) ==> s@ == vstd::utf8::decode_utf8(filename@),
{
    utf8_lossy(filename)
}

pub open spec fn reaches_end(offset: u64, len: u64, size: u64) -> bool {
    offset + len >= size
}

/// Whether a read of `len` bytes reached the end of the file.
pub fn read_eof(offset: u64, len: u64, size: u64) -> (eof: bool)
    requires
        offset + len <= u64::MAX,
    ensures
        eof == reaches_end(offset, len, size),
{
    offset + len >= size
}

/// An entry of a page of a directory.
#[derive(Debug)]
pub struct NfsDirEntry {
    pub fileid: u64,
    pub name: Vec<u8>,
    pub attr: Attr,
}

#[derive(Debug)]
pub struct ReadDirResult {
    pub entries: Vec<NfsDirEntry>,
    pub end: bool,
}

pub open spec fn keys_of(ids: Seq<u64>) -> Seq<u128> {
    ids.map_values(|id: u64| id as u128)
}

/// Where a page starts among the entries in order: behind the entry it continues
/// after, or at the front.
pub open spec fn page_start(ids: Seq<u64>, order: Seq<usize>, start_after: u64, from: int) -> int
    decreases order.len() - from,
{
    if start_after == 0 || from < 0 || from >= order.len() {
        0
    } else if ids[order[from] as int] == start_after {
        from + 1
    } else {
        page_start(ids, order, start_after, from + 1)
    }
}

pub open spec fn page_len(total: int, start: int, max_entries: int) -> int {
    if total - start <= max_entries {
        total - start
    } else {
        max_entries
    }
}

/// The page holds `len` entries of the listing in the order `order`, from `start` on.
pub open spec fn page_of(
    r: ReadDirResult,
    created_secs: u32,
    ids: Seq<u64>,
    entries: Seq<RdpEntry>,
    order: Seq<usize>,
    start_after: u64,
    max_entries: int,
) -> bool {
    let start = page_start(ids, order, start_after, 0);
    let len = page_len(order.len() as int, start, max_entries);
    &&& r.entries@.len() == len
    &&& forall|k: int|
        0 <= k < len ==> {
            let e = #[trigger] r.entries@[k];
            let at = order[start + k] as int;
            &&& e.fileid == ids[at]
            &&& e.name@ == vstd::utf8::encode_utf8(entries[at].name@)
            &&& e.attr == attributes(created_secs, ids[at], entries[at].is_dir, entries[at].size)
        }
    &&& r.end == (start + len >= order.len())
}

/// The page holds the entries of the listing by increasing number, those behind
/// `start_after`, no more than `max_entries`.
pub open spec fn is_page(
    r: ReadDirResult,
    created_secs: u32,
    ids: Seq<u64>,
    entries: Seq<RdpEntry>,
    start_after: u64,
    max_entries: int,
) -> bool {
    exists|order: Seq<usize>|
        #[trigger] ordered(keys_of(ids), order, 0, ids.len() as int) && page_of(
            r,
            created_secs,
            ids,
            entries,
            order,
            start_after,
            max_entries,
        )
}

proof fn lemma_page_start(ids: Seq<u64>, order: Seq<usize>, start_after: u64, from: int)
    requires
        from >= 0,
    ensures
        0 <= page_start(ids, order, start_after, from) <= order.len(),
    decreases order.len() - from,
{
    if start_after != 0 && from < order.len() && ids[order[from] as int] != start_after {
        lemma_page_start(ids, order, start_after, from + 1);
    }
}

/// One page of a directory: its entries by increasing number, those behind
/// `start_after`, no more than `max_entries`.
pub fn readdir_page(
    created_secs: u32,
    ids: &Vec<u64>,
    entries: &Vec<RdpEntry>,
    start_after: u64,
    max_entries: usize,
) -> (r: ReadDirResult)
    requires
        ids@.len() == entries@.len(),
    ensures
        is_page(r, created_secs, ids@, entries@, start_after, max_entries as int),
{
    let mut keys: Vec<u128> = Vec::new();
    let mut i: usize = 0;
    while i < ids.len()
        invariant
            i <= ids.len(),
            keys@.len() == i,
            forall|k: int| 0 <= k < i ==> #[trigger] keys@[k] == ids@[k],
        decreases ids.len() - i,
    {
        keys.push(ids[i] as u128);
        i = i + 1;
    }
    assert(keys@ =~= keys_of(ids@));
    let order: Vec<usize> = sorted_positions(&keys);
    let n: usize = order.len();
    let mut start: usize = 0;
    if start_after != 0 {
        let mut p: usize = 0;
        while p < n && ids[order[p]] != start_after
            invariant
                p <= n,
                n == order@.len(),
                start_after != 0,
                ids@.len() == n,
                ordered(keys_of(ids@), order@, 0, ids@.len() as int),
                page_start(ids@, order@, start_after, 0) == page_start(
                    ids@,
                    order@,
                    start_after,
                    p as int,
                ),
            decreases n - p,
        {
            p = p + 1;
        }
        if p < n {
            start = p + 1;
        }
    }
    proof {
        lemma_page_start(ids@, order@, start_after, 0);
    }
    let len: usize = if n - start <= max_entries {
        n - start
    } else {
        max_entries
    };
    let mut out: Vec<NfsDirEntry> = Vec::new();
    let mut k: usize = 0;
    while k < len
        invariant
            k <= len,
            start + len <= n,
            n == order@.len(),
            ids@.len() == n,
            entries@.len() == n,
            ordered(keys_of(ids@), order@, 0, ids@.len() as int),
            out@.len() == k,
            forall|j: int|
                0 <= j < k ==> {
                    let e = #[trigger] out@[j];
                    let at = order@[start + j] as int;
                    &&& e.fileid == ids@[at]
                    &&& e.name@ == vstd::utf8::encode_utf8(entries@[at].name@)
                    &&& e.attr == attributes(
                        created_secs,
                        ids@[at],
                        entries@[at].is_dir,
                        entries@[at].size,
                    )
                },
        decreases len - k,
    {
        let at: usize = order[start + k];
        let e: &RdpEntry = &entries[at];
        let mut name: Vec<u8> = Vec::new();
        append_bytes(&mut name, e.name.as_str().as_bytes());
        assert(name@ =~= vstd::utf8::encode_utf8(e.name@));
        out.push(
            NfsDirEntry {
                fileid: ids[at],
                name,
                attr: attr(created_secs, ids[at], e.is_dir, e.size),
            },
        );
        k = k + 1;
    }
    ReadDirResult { entries: out, end: start + len >= n }
}

/// Symbolic links cannot be made.
pub fn symlink() -> (e: Nfsstat3)
    ensures
        e == Nfsstat3::RoFs,
{
    Nfsstat3::RoFs
}

/// Symbolic links cannot be read.
pub fn readlink() -> (e: Nfsstat3)
    ensures
        e == Nfsstat3::NotSupp,
{
    Nfsstat3::NotSupp
}

/// The volumes that are mounted.
#[derive(Debug)]
pub struct LiveMounts {
    pub paths: Vec<String>,
}

pub open spec fn without(paths: Seq<String>, path: Seq<char>) -> Seq<String> {
    paths.filter(|p: String| p@ != path)
}

impl LiveMounts {
    pub fn new() -> (m: Self)
        ensures
            m.paths@.len() == 0,
    {
        LiveMounts { paths: Vec::new() }
    }

    pub fn register_mount(&mut self, path: String)
        ensures
            final(self).paths@ == old(self).paths@.push(path),
    {
        self.paths.push(path);
    }

    pub fn unregister_mount(&mut self, path: &str)
        ensures
            final(self).paths@ == without(old(self).paths@, path@),
    {
        let mut kept: Vec<String> = Vec::new();
        let mut i: usize = 0;
        let ghost keep = |p: String| p@ != path@;
        let ghost all = self.paths@;
        proof {
            reveal(Seq::filter);
            assert(all.take(0).filter(keep) =~= Seq::<String>::empty());
        }
        while i < self.paths.len()
            invariant
                i <= self.paths.len(),
                self.paths@ == all,
                keep == (|p: String| p@ != path@),
                kept@ == all.take(i as int).filter(keep),
            decreases self.paths.len() - i,
        {
            proof {
                reveal(Seq::filter);
                assert(all.take(i + 1).drop_last() =~= all.take(i as int));
            }
            if !same_text(self.paths[i].as_str(), path) {
                kept.push(self.paths[i].clone());
            }
            i = i + 1;
        }
        assert(all.take(i as int) =~= all);
        self.paths = kept;
    }
}

/// Empties the list of mounted volumes and says which to unmount, in order.
pub fn shutdown_cleanup(mounts: &mut LiveMounts) -> (out: Vec<String>)
    ensures
        out@ == old(mounts).paths@,
        final(mounts).paths@.len() == 0,
{
    let mut out: Vec<String> = Vec::new();
    std::mem::swap(&mut out, &mut mounts.paths);
    out
}

/// How a volume is mounted from the server at this port.
pub open spec fn options_for(port: u16) -> Seq<char> {
    "nolocks,vers=3,tcp,rsize=262144,wsize=262144,readahead=4,port="@ + crate::text::digits(
        port as nat,
    ) + ",mountport="@ + crate::text::digits(port as nat) + ",actimeo=5"@
}

pub fn mount_options(port: u16) -> (s: String)
    ensures
        s@ == options_for(port),
{
    let d: String = decimal_text(port as u128);
    let a: String = concat2(
        "nolocks,vers=3,tcp,rsize=262144,wsize=262144,readahead=4,port=",
        d.as_str(),
    );
    let b: String = concat2(a.as_str(), ",mountport=");
    let c: String = concat2(b.as_str(), d.as_str());
    concat2(c.as_str(), ",actimeo=5")
}

/// Places that are tried for a volume.
pub const MOUNT_TRIES: u64 = 50;

/// The place that is tried after `n` others.
pub open spec fn candidate(label: Seq<char>, n: nat) -> Seq<char> {
    if n == 0 {
        crate::text::joined("/Volumes"@, label)
    } else {
        crate::text::joined("/Volumes"@, label + "-"@ + crate::text::digits(n))
    }
}

fn candidate_path(label: &str, n: u64) -> (s: String)
    ensures
        s@ == candidate(label@, n as nat),
{
    if n == 0 {
        return join_path("/Volumes", label);
    }
    let dashed: String = concat2(label, "-");
    let d: String = decimal_text(n as u128);
    let name: String = concat2(dashed.as_str(), d.as_str());
    join_path("/Volumes", name.as_str())
}

/// `exists_at` gave this answer for the path.
pub open spec fn answered<F: Fn(&str) -> bool>(exists_at: F, path: Seq<char>, answer: bool) -> bool {
    exists|p: &str| p@ == path && #[trigger] call_ensures(exists_at, (p,), answer)
}

/// The first free place for a volume, or the last that is tried. `exists_at` tells
/// whether something is there.
pub fn pick_mountpoint<F: Fn(&str) -> bool>(label: &str, exists_at: F) -> (r: String)
    requires
        forall|p: &str| #[trigger] call_requires(exists_at, (p,)),
    ensures
        exists|n: nat|
            {
                &&& n < MOUNT_TRIES
                &&& r@ == #[trigger] candidate(label@, n)
                &&& n + 1 < MOUNT_TRIES ==> answered(exists_at, candidate(label@, n), false)
                &&& forall|m: nat|
                    m < n ==> answered(exists_at, #[trigger] candidate(label@, m), true)
            },
{
    let mut n: u64 = 0;
    let mut path: String = candidate_path(label, 0);
    let mut free: bool = false;
    while n < MOUNT_TRIES - 1 && !free
        invariant
            n < MOUNT_TRIES,
            path@ == candidate(label@, n as nat),
            forall|p: &str| #[trigger] call_requires(exists_at, (p,)),
            free ==> answered(exists_at, candidate(label@, n as nat), false),
            forall|m: nat|
                m < n ==> answered(exists_at, #[trigger] candidate(label@, m), true),
        decreases MOUNT_TRIES - n + (if free {
            0int
        } else {
            1int
        }),
    {
        let p: &str = path.as_str();
        if exists_at(p) {
            assert(answered(exists_at, candidate(label@, n as nat), true));
            n = n + 1;
            path = candidate_path(label, n);
        } else {
            free = true;
        }
    }
    path
}

/// The directory below the temporary one that a volume falls back to.
pub fn fallback_dir_name(pid: u32) -> (s: String)
    ensures
        s@ == "macrdp-rdpdr-"@ + crate::text::digits(pid as nat),
{
    let d: String = decimal_text(pid as u128);
    concat2("macrdp-rdpdr-", d.as_str())
}

/// A control character of Unicode.
pub open spec fn is_control(c: char) -> bool {
    c as u32 <= 0x1F || 0x7F <= c as u32 <= 0x9F
}

/// What a character of a drive's label becomes in a file name.
pub open spec fn tamed(c: char) -> char {
    if c == '/' || c == '\\' || c == ':' || is_control(c) {
        '_'
    } else {
        c
    }
}

pub open spec fn without_colons(s: Seq<char>) -> Seq<char>
    decreases s.len(),
{
    if s.len() > 0 && s.last() == ':' {
        without_colons(s.drop_last())
    } else {
        s
    }
}

/// A drive's label as a file name.
pub open spec fn label_name(label: Seq<char>) -> Seq<char> {
    let t = without_colons(crate::text::trimmed(label));
    if t.len() == 0 {
        "drive"@
    } else {
        t.map_values(|c: char| tamed(c))
    }
}

pub fn sanitize_label(label: &str) -> (s: String)
    ensures
        s@ == label_name(label@),
{
    let chars: Vec<char> = chars_of(label);
    let mut t: Vec<char> = trim(&chars);
    while t.len() > 0 && t[t.len() - 1] == ':'
        invariant
            without_colons(t@) == without_colons(crate::text::trimmed(label@)),
        decreases t.len(),
    {
        let ghost before = t@;
        let _ = t.pop();
        assert(t@ =~= before.drop_last());
    }
    if t.len() == 0 {
        return "drive".to_owned();
    }
    let mut out: Vec<char> = Vec::new();
    let mut i: usize = 0;
    while i < t.len()
        invariant
            i <= t.len(),
            out@.len() == i,
            forall|k: int| 0 <= k < i ==> #[trigger] out@[k] == tamed(t@[k]),
        decreases t.len() - i,
    {
        let c: char = t[i];
        let u: u32 = c as u32;
        if c == '/' || c == '\\' || c == ':' || u <= 0x1F || (0x7F <= u && u <= 0x9F) {
            out.push('_');
        } else {
            out.push(c);
        }
        i = i + 1;
    }
    assert(out@ =~= t@.map_values(|c: char| tamed(c)));
    string_of(&out)
}

/// A label's file name is never empty and names no other place: it holds no slash, no
/// backslash, no colon and no control character.
pub proof fn labels_name_one_place(label: Seq<char>, i: int)
    requires
        0 <= i < label_name(label).len(),
    ensures
        label_name(label).len() > 0,
        label_name(label)[i] != '/',
        label_name(label)[i] != '\\',
        label_name(label)[i] != ':',
        !is_control(label_name(label)[i]),
{
    reveal_strlit("drive");
}

/// A path keeps its number for as long as it is known, and seeing it again changes
/// nothing else.
pub proof fn numbers_are_stable(t: Tree, parent: u64, path: Seq<char>, is_dir: bool, size: u64)
    requires
        tree_wf(t),
        t.next_id < u64::MAX,
    ensures
        ({
            let (id, after) = interned(t, parent, path, is_dir, size);
            &&& tree_wf(after)
            &&& id_of(after, path) == Some(id)
            &&& after.nodes[id].path == path && after.nodes[id].is_dir == is_dir
                && after.nodes[id].size == size
            &&& id_of(t, path) matches Some(known) ==> id == known
            &&& id_of(t, path) is None ==> !t.nodes.contains_key(id)
            &&& forall|other: u64|
                other != id && #[trigger] t.nodes.contains_key(other) ==> after.nodes.contains_key(
                    other,
                ) && after.nodes[other] == t.nodes[other]
        }),
{
    let (id, after) = interned(t, parent, path, is_dir, size);
    assert(after.nodes.contains_key(id));
    assert forall|a: u64, b: u64|
        #[trigger] after.nodes.contains_key(a) && #[trigger] after.nodes.contains_key(b)
            && after.nodes[a].path == after.nodes[b].path implies a == b by {
        if a != id {
            assert(t.nodes.contains_key(a));
        }
        if b != id {
            assert(t.nodes.contains_key(b));
        }
        if id_of(t, path) is Some {
            assert(t.nodes.contains_key(id));
        }
    }
    assert forall|a: u64| #[trigger] after.nodes.contains_key(a) implies a < after.next_id by {
        if a != id {
            assert(t.nodes.contains_key(a));
        } else if id_of(t, path) is Some {
            assert(t.nodes.contains_key(id));
        }
    }
    lemma_id_of(after, id);
}

/// A change of the file table.
pub enum TreeChange {
    Seen { parent: u64, path: Seq<char>, is_dir: bool, size: u64 },
    Resized { id: u64, size: u64 },
    Forgotten { id: u64 },
}

pub open spec fn changed(t: Tree, c: TreeChange) -> Tree {
    match c {
        TreeChange::Seen { parent, path, is_dir, size } => interned(
            t,
            parent,
            path,
            is_dir,
            size,
        ).1,
        TreeChange::Resized { id, size } => resized(t, id, size),
        TreeChange::Forgotten { id } => forgotten(t, id),
    }
}

/// A fresh table after these changes.
pub open spec fn grown(changes: Seq<TreeChange>) -> Tree
    decreases changes.len(),
{
    if changes.len() == 0 {
        fresh_tree()
    } else {
        changed(grown(changes.drop_last()), changes.last())
    }
}

/// The number that change number `i` gives out, where it is one that sees a path.
pub open spec fn given(changes: Seq<TreeChange>, i: int) -> Option<u64> {
    match changes[i] {
        TreeChange::Seen { parent, path, is_dir, size } => Some(
            interned(grown(changes.take(i)), parent, path, is_dir, size).0,
        ),
        _ => None,
    }
}

/// No number runs out, and the root is never forgotten.
pub open spec fn is_history(changes: Seq<TreeChange>) -> bool {
    &&& changes.len() + 2 <= u64::MAX
    &&& forall|i: int|
        0 <= i < changes.len() ==> !(#[trigger] changes[i] matches TreeChange::Forgotten { id }
            && id == ROOT_ID)
}

proof fn lemma_changed(t: Tree, c: TreeChange)
    requires
        tree_wf(t),
        t.next_id < u64::MAX,
    ensures
        tree_wf(changed(t, c)),
        t.next_id <= changed(t, c).next_id <= t.next_id + 1,
{
    match c {
        TreeChange::Seen { parent, path, is_dir, size } => {
            numbers_are_stable(t, parent, path, is_dir, size);
        },
        TreeChange::Resized { id, size } => {
            let after = resized(t, id, size);
            assert forall|a: u64| #[trigger] after.nodes.contains_key(a) implies t.nodes.contains_key(
                a,
            ) && after.nodes[a].path == t.nodes[a].path by {}
        },
        TreeChange::Forgotten { id } => {
            let after = forgotten(t, id);
            assert forall|a: u64| #[trigger] after.nodes.contains_key(a) implies t.nodes.contains_key(
                a,
            ) && after.nodes[a] == t.nodes[a] by {}
        },
    }
}

proof fn lemma_history_shrinks(changes: Seq<TreeChange>, n: int)
    requires
        is_history(changes),
        0 <= n <= changes.len(),
    ensures
        is_history(changes.take(n)),
{
    assert forall|i: int| 0 <= i < n implies !(#[trigger] changes.take(n)[i] matches
        TreeChange::Forgotten { id } && id == ROOT_ID) by {
        assert(changes.take(n)[i] == changes[i]);
    }
}

/// Whatever was done to a fresh table: every path has one number and every number one
/// path, and the root keeps its own.
pub proof fn paths_and_numbers_match(changes: Seq<TreeChange>)
    requires
        is_history(changes),
    ensures
        tree_wf(grown(changes)),
        2 <= grown(changes).next_id <= changes.len() + 2,
        grown(changes).nodes.contains_key(ROOT_ID),
        grown(changes).nodes[ROOT_ID].path == "\\"@,
        id_of(grown(changes), "\\"@) == Some(ROOT_ID),
        forall|id: u64| #[trigger]
            grown(changes).nodes.contains_key(id) ==> id_of(
                grown(changes),
                grown(changes).nodes[id].path,
            ) == Some(id),
        forall|path: Seq<char>|
            (#[trigger] id_of(grown(changes), path)) matches Some(id) ==> grown(
                changes,
            ).nodes.contains_key(id) && grown(changes).nodes[id].path == path,
    decreases changes.len(),
{
    let t = grown(changes);
    if changes.len() > 0 {
        let front = changes.drop_last();
        assert(front =~= changes.take(changes.len() - 1));
        lemma_history_shrinks(changes, changes.len() - 1);
        paths_and_numbers_match(front);
        let before = grown(front);
        let c = changes.last();
        lemma_changed(before, c);
        assert(c == changes[changes.len() - 1]);
        match c {
            TreeChange::Seen { parent, path, is_dir, size } => {
                numbers_are_stable(before, parent, path, is_dir, size);
                let id = interned(before, parent, path, is_dir, size).0;
                if id == ROOT_ID {
                    assert(id_of(before, path) is Some);
                }
            },
            TreeChange::Resized { id, size } => {},
            TreeChange::Forgotten { id } => {
                assert(id != ROOT_ID);
            },
        }
        assert(t.nodes.contains_key(ROOT_ID));
    } else {
        assert(t.nodes.contains_key(ROOT_ID));
    }
    assert forall|id: u64| #[trigger] t.nodes.contains_key(id) implies id_of(t, t.nodes[id].path)
        == Some(id) by {
        lemma_id_of(t, id);
    }
    assert(id_of(t, t.nodes[ROOT_ID].path) == Some(ROOT_ID));
}

proof fn lemma_numbers_grow(changes: Seq<TreeChange>, i: int, j: int)
    requires
        is_history(changes),
        0 <= i <= j <= changes.len(),
    ensures
        grown(changes.take(i)).next_id <= grown(changes.take(j)).next_id,
    decreases j - i,
{
    if i < j {
        lemma_numbers_grow(changes, i, j - 1);
        let front = changes.take(j - 1);
        assert(changes.take(j).drop_last() =~= front);
        lemma_history_shrinks(changes, j - 1);
        paths_and_numbers_match(front);
        lemma_changed(grown(front), changes[j - 1]);
    }
}

/// Whatever was done to a fresh table: a path that is known gets the number that it has,
/// and any other gets one that was never given out before, not even to a path that was
/// forgotten since.
pub proof fn numbers_are_given_out_once(changes: Seq<TreeChange>, j: int)
    requires
        is_history(changes),
        0 <= j < changes.len(),
    ensures
        changes[j] matches TreeChange::Seen { path, .. } ==> {
            let before = grown(changes.take(j));
            &&& id_of(before, path) matches Some(id) ==> given(changes, j) == Some(id)
            &&& id_of(before, path) is None ==> given(changes, j) != Some(ROOT_ID) && forall|i: int|
                0 <= i < j ==> #[trigger] given(changes, i) is None || given(changes, i) != given(
                    changes,
                    j,
                )
        },
{
    if let TreeChange::Seen { parent, path, is_dir, size } = changes[j] {
        let before = grown(changes.take(j));
        lemma_history_shrinks(changes, j);
        paths_and_numbers_match(changes.take(j));
        if id_of(before, path) is None {
            assert(given(changes, j) == Some(before.next_id));
            assert forall|i: int| 0 <= i < j implies #[trigger] given(changes, i) is None || given(
                changes,
                i,
            ) != given(changes, j) by {
                if let TreeChange::Seen { parent: p2, path: s2, is_dir: d2, size: z2 } = changes[i] {
                    let t = grown(changes.take(i));
                    lemma_history_shrinks(changes, i);
                    paths_and_numbers_match(changes.take(i));
                    numbers_are_stable(t, p2, s2, d2, z2);
                    let (id, after) = interned(t, p2, s2, d2, z2);
                    assert(changes.take(i + 1).drop_last() =~= changes.take(i));
                    assert(grown(changes.take(i + 1)) == after);
                    assert(after.nodes.contains_key(id));
                    lemma_numbers_grow(changes, i + 1, j);
                }
            }
        }
    }
}

/// What is made or written can be seen: after a file is made its path leads to it,
/// and after a write its size reaches at least to the end of what was written.
pub proof fn files_are_as_written(t: Tree, id: u64, offset: u64, len: u64, size: u64)
    requires
        tree_wf(t),
        t.nodes.contains_key(id),
        offset + len <= u64::MAX,
        size == (if t.nodes[id].size >= offset + len {
            t.nodes[id].size as int
        } else {
            offset + len
        }),
    ensures
        resized(t, id, size).nodes[id].size >= offset + len,
        resized(t, id, size).nodes[id].size >= t.nodes[id].size,
        resized(t, id, size).nodes[id].path == t.nodes[id].path,
{
}

/// What is removed is gone: neither its number nor its path leads anywhere.
pub proof fn removed_files_are_gone(t: Tree, id: u64)
    requires
        tree_wf(t),
        t.nodes.contains_key(id),
    ensures
        !forgotten(t, id).nodes.contains_key(id),
        id_of(forgotten(t, id), t.nodes[id].path) is None,
        tree_wf(forgotten(t, id)),
{
    let after = forgotten(t, id);
    assert forall|a: u64| #[trigger] after.nodes.contains_key(a) implies t.nodes.contains_key(a)
        && after.nodes[a] == t.nodes[a] && a != id by {}
}

/// A renamed file is found under its new path, with its kind and size, and no more
/// under its old one.
pub proof fn renamed_files_move(t: Tree, id: u64, to_dirid: u64, to_path: Seq<char>)
    requires
        tree_wf(t),
        t.next_id < u64::MAX,
        t.nodes.contains_key(id),
        to_path != t.nodes[id].path,
    ensures
        ({
            let n = t.nodes[id];
            let (new_id, after) = interned(forgotten(t, id), to_dirid, to_path, n.is_dir, n.size);
            &&& known(after, to_path) == Some(
                Known { id: new_id, is_dir: n.is_dir, size: n.size },
            )
            &&& id_of(after, n.path) is None
        }),
{
    removed_files_are_gone(t, id);
    let n = t.nodes[id];
    let f = forgotten(t, id);
    let (new_id, after) = interned(f, to_dirid, to_path, n.is_dir, n.size);
    numbers_are_stable(f, to_dirid, to_path, n.is_dir, n.size);
    assert forall|a: u64| #[trigger] after.nodes.contains_key(a) implies after.nodes[a].path
        != n.path by {
        if a != new_id {
            assert(f.nodes.contains_key(a));
        }
    }
}

/// After a directory was listed, every name of the listing leads to a node.
pub proof fn listed_names_are_found(t: Tree, dirid: u64, dir: Seq<char>, entries: Seq<RdpEntry>, k: int)
    requires
        tree_wf(t),
        t.next_id + entries.len() <= u64::MAX,
        0 <= k < entries.len(),
    ensures
        ({
            let (ids, after) = absorbed(t, dirid, dir, entries);
            &&& ids.len() == entries.len()
            &&& id_of(after, remote_child(dir, entries[k].name@)) == Some(ids[k])
            &&& tree_wf(after)
        }),
    decreases entries.len(),
{
    let front = entries.drop_last();
    lemma_absorbed_wf(t, dirid, dir, front);
    let (ids, before) = absorbed(t, dirid, dir, front);
    let e = entries.last();
    let path = remote_child(dir, e.name@);
    numbers_are_stable(before, dirid, path, e.is_dir, e.size);
    let (id, after) = interned(before, dirid, path, e.is_dir, e.size);
    if k < front.len() {
        listed_names_are_found(t, dirid, dir, front, k);
        assert(front[k] == entries[k]);
        let p = remote_child(dir, entries[k].name@);
        let known_id = ids[k];
        assert(before.nodes.contains_key(known_id) && before.nodes[known_id].path == p);
        assert(after.nodes.contains_key(known_id));
        lemma_id_of(after, known_id);
    }
}

proof fn lemma_absorbed_wf(t: Tree, dirid: u64, dir: Seq<char>, entries: Seq<RdpEntry>)
    requires
        tree_wf(t),
        t.next_id + entries.len() <= u64::MAX,
    ensures
        absorbed(t, dirid, dir, entries).0.len() == entries.len(),
        tree_wf(absorbed(t, dirid, dir, entries).1),
        absorbed(t, dirid, dir, entries).1.next_id <= t.next_id + entries.len(),
    decreases entries.len(),
{
    if entries.len() > 0 {
        let front = entries.drop_last();
        lemma_absorbed_wf(t, dirid, dir, front);
        let before = absorbed(t, dirid, dir, front).1;
        let e = entries.last();
        numbers_are_stable(before, dirid, remote_child(dir, e.name@), e.is_dir, e.size);
    }
}

/// Pages join up: the page that continues after the last entry of another starts
/// right behind it, so that no entry is skipped or repeated.
pub proof fn pages_join_up(ids: Seq<u64>, order: Seq<usize>, at: int)
    requires
        ordered(keys_of(ids), order, 0, ids.len() as int),
        ids.no_duplicates(),
        0 <= at < order.len(),
        ids[order[at] as int] != 0,
    ensures
        page_start(ids, order, ids[order[at] as int], 0) == at + 1,
{
    lemma_page_after(ids, order, at, 0);
}

proof fn lemma_page_after(ids: Seq<u64>, order: Seq<usize>, at: int, from: int)
    requires
        ordered(keys_of(ids), order, 0, ids.len() as int),
        ids.no_duplicates(),
        0 <= from <= at < order.len(),
        ids[order[at] as int] != 0,
    ensures
        page_start(ids, order, ids[order[at] as int], from) == at + 1,
    decreases at - from,
{
    if from < at {
        let a = order[from] as int;
        let b = order[at] as int;
        assert(crate::order::before(keys_of(ids), a, b));
        assert(a != b);
        assert(ids[a] != ids[b]);
        lemma_page_after(ids, order, at, from + 1);
    }
}

pub open spec fn ascending(s: Seq<u64>) -> bool {
    forall|i: int, j: int| 0 <= i < j < s.len() ==> #[trigger] s[i] < #[trigger] s[j]
}

/// The numbers on a page, in order.
pub open spec fn numbers_on(r: ReadDirResult) -> Seq<u64> {
    r.entries@.map_values(|e: NfsDirEntry| e.fileid)
}

/// The numbers on these pages, one page after the other.
pub open spec fn joined_pages(pages: Seq<ReadDirResult>) -> Seq<u64>
    decreases pages.len(),
{
    if pages.len() == 0 {
        Seq::empty()
    } else {
        joined_pages(pages.drop_last()) + numbers_on(pages.last())
    }
}

/// Where page number `i` starts: the first at the beginning, any other behind the last
/// entry of the page before it.
pub open spec fn behind(pages: Seq<ReadDirResult>, i: int) -> u64 {
    if i == 0 {
        0
    } else {
        pages[i - 1].entries@.last().fileid
    }
}

/// The pages are read one after the other until one is the last. For each the directory
/// is listed anew; the numbers of its entries are `children`, in whatever order.
pub open spec fn is_reading(
    created_secs: u32,
    children: Seq<u64>,
    ids: Seq<Seq<u64>>,
    listings: Seq<Seq<RdpEntry>>,
    pages: Seq<ReadDirResult>,
    max_entries: int,
) -> bool {
    &&& max_entries >= 1
    &&& pages.len() > 0
    &&& ids.len() == pages.len()
    &&& listings.len() == pages.len()
    &&& forall|i: int|
        0 <= i < pages.len() ==> (#[trigger] ids[i]).no_duplicates() && ids[i].to_set()
            == children.to_set() && ids[i].len() <= usize::MAX
    &&& forall|i: int|
        0 <= i < pages.len() ==> is_page(
            #[trigger] pages[i],
            created_secs,
            ids[i],
            listings[i],
            behind(pages, i),
            max_entries,
        )
    &&& forall|i: int| 0 <= i < pages.len() - 1 ==> !(#[trigger] pages[i]).end
}

proof fn lemma_one_ascending_order(a: Seq<u64>, b: Seq<u64>)
    requires
        ascending(a),
        ascending(b),
        a.to_set() == b.to_set(),
    ensures
        a == b,
    decreases a.len(),
{
    if a.len() == 0 {
        if b.len() > 0 {
            assert(b.to_set().contains(b[0]));
        }
        assert(a =~= b);
    } else {
        assert(a.to_set().contains(a[0]));
        assert(b.len() > 0);
        let x = a.last();
        let y = b.last();
        assert(a.to_set().contains(x) && b.to_set().contains(y));
        let i = choose|i: int| 0 <= i < b.len() && b[i] == x;
        let j = choose|j: int| 0 <= j < a.len() && a[j] == y;
        assert(x == y);
        let p = a.drop_last();
        let q = b.drop_last();
        assert forall|n: u64| #[trigger] p.to_set().contains(n) <==> q.to_set().contains(n) by {
            if p.to_set().contains(n) {
                let k = choose|k: int| 0 <= k < p.len() && p[k] == n;
                assert(a[k] == n);
                assert(a.to_set().contains(n));
                let l = choose|l: int| 0 <= l < b.len() && b[l] == n;
                assert(q[l] == n);
            }
            if q.to_set().contains(n) {
                let k = choose|k: int| 0 <= k < q.len() && q[k] == n;
                assert(b[k] == n);
                assert(b.to_set().contains(n));
                let l = choose|l: int| 0 <= l < a.len() && a[l] == n;
                assert(p[l] == n);
            }
        }
        assert(p.to_set() =~= q.to_set());
        lemma_one_ascending_order(p, q);
        assert(a =~= p.push(x));
        assert(b =~= q.push(y));
    }
}

/// The numbers of a listing, sorted.
spec fn sorted_numbers(ids: Seq<u64>, order: Seq<usize>) -> Seq<u64> {
    Seq::new(order.len(), |k: int| ids[order[k] as int])
}

proof fn lemma_sorted_numbers(ids: Seq<u64>, order: Seq<usize>)
    requires
        ordered(keys_of(ids), order, 0, ids.len() as int),
        ids.no_duplicates(),
        ids.len() <= usize::MAX,
    ensures
        ascending(sorted_numbers(ids, order)),
        sorted_numbers(ids, order).to_set() == ids.to_set(),
{
    let s = sorted_numbers(ids, order);
    assert forall|i: int, j: int| 0 <= i < j < s.len() implies #[trigger] s[i] < #[trigger] s[j] by {
        let a = order[i] as int;
        let b = order[j] as int;
        assert(crate::order::before(keys_of(ids), a, b));
        assert(keys_of(ids)[a] == ids[a] && keys_of(ids)[b] == ids[b]);
        assert(ids[a] != ids[b]);
    }
    assert forall|n: u64| #[trigger] s.to_set().contains(n) <==> ids.to_set().contains(n) by {
        if s.to_set().contains(n) {
            let k = choose|k: int| 0 <= k < s.len() && s[k] == n;
            assert(ids[order[k] as int] == n);
        }
        if ids.to_set().contains(n) {
            let x = choose|x: int| 0 <= x < ids.len() && ids[x] == n;
            assert(order.contains(x as usize));
            let k = choose|k: int| 0 <= k < order.len() && order[k] == x as usize;
            assert(s[k] == n);
        }
    }
    assert(s.to_set() =~= ids.to_set());
}

/// Read page by page, a directory is read whole: no page holds more than was asked for;
/// together the pages name the children by increasing number, none left out and none
/// twice; and the page that ends with the last child says that it is the last, no other.
pub proof fn pages_make_up_the_directory(
    created_secs: u32,
    children: Seq<u64>,
    ids: Seq<Seq<u64>>,
    listings: Seq<Seq<RdpEntry>>,
    pages: Seq<ReadDirResult>,
    max_entries: int,
)
    requires
        ascending(children),
        !children.contains(0),
        is_reading(created_secs, children, ids, listings, pages, max_entries),
    ensures
        pages.last().entries@.len() <= max_entries,
        joined_pages(pages).len() <= children.len(),
        joined_pages(pages) == children.take(joined_pages(pages).len() as int),
        pages.last().end <==> joined_pages(pages) == children,
    decreases pages.len(),
{
    let n = pages.len() - 1;
    let front = pages.drop_last();
    let done = joined_pages(front).len() as int;
    let page = pages[n];
    let start_after = behind(pages, n);
    assert(is_page(page, created_secs, ids[n], listings[n], start_after, max_entries));
    let order = choose|order: Seq<usize>|
        #[trigger] ordered(keys_of(ids[n]), order, 0, ids[n].len() as int) && page_of(
            page,
            created_secs,
            ids[n],
            listings[n],
            order,
            start_after,
            max_entries,
        );
    assert(ids[n].no_duplicates() && ids[n].to_set() == children.to_set());
    lemma_sorted_numbers(ids[n], order);
    lemma_one_ascending_order(sorted_numbers(ids[n], order), children);
    if n > 0 {
        assert forall|i: int| 0 <= i < front.len() implies (
        #[trigger] ids.drop_last()[i]).no_duplicates() && ids.drop_last()[i].to_set()
            == children.to_set() && ids.drop_last()[i].len() <= usize::MAX by {
            assert(ids[i].no_duplicates());
        }
        assert forall|i: int| 0 <= i < front.len() implies is_page(
            #[trigger] front[i],
            created_secs,
            ids.drop_last()[i],
            listings.drop_last()[i],
            behind(front, i),
            max_entries,
        ) by {
            assert(is_page(
                pages[i],
                created_secs,
                ids[i],
                listings[i],
                behind(pages, i),
                max_entries,
            ));
            assert(behind(front, i) == behind(pages, i));
        }
        assert forall|i: int| 0 <= i < front.len() - 1 implies !(#[trigger] front[i]).end by {
            assert(!pages[i].end);
        }
        pages_make_up_the_directory(
            created_secs,
            children,
            ids.drop_last(),
            listings.drop_last(),
            front,
            max_entries,
        );
        let prev = pages[n - 1];
        assert(front.last() == prev);
        assert(!prev.end);
        assert(done < children.len()) by {
            if done == children.len() {
                assert(children.take(done) =~= children);
            }
        }
        lemma_pages_go_on(created_secs, ids[n - 1], listings[n - 1], prev, behind(
            pages,
            n - 1,
        ), max_entries);
        let own = numbers_on(prev);
        assert(own.len() > 0);
        assert(joined_pages(front) == joined_pages(front.drop_last()) + own);
        assert(joined_pages(front).last() == own.last());
        assert(own.last() == start_after);
        assert(children[done - 1] == start_after);
        assert(children.contains(start_after));
        pages_join_up(ids[n], order, done - 1);
    } else {
        assert(joined_pages(front) =~= Seq::<u64>::empty());
    }
    assert(page_start(ids[n], order, start_after, 0) == done);
    let len = page_len(order.len() as int, done, max_entries);
    let own = numbers_on(page);
    assert forall|k: int| 0 <= k < len implies #[trigger] own[k] == children[done + k] by {
        assert(page.entries@[k].fileid == ids[n][order[done + k] as int]);
        assert(sorted_numbers(ids[n], order)[done + k] == ids[n][order[done + k] as int]);
    }
    let all = joined_pages(pages);
    assert(all == joined_pages(front) + own);
    assert(all =~= children.take(done + len));
    if page.end {
        assert(children.take(done + len) =~= children);
    }
}

/// A page that is not the last holds something.
proof fn lemma_pages_go_on(
    created_secs: u32,
    ids: Seq<u64>,
    entries: Seq<RdpEntry>,
    page: ReadDirResult,
    start_after: u64,
    max_entries: int,
)
    requires
        is_page(page, created_secs, ids, entries, start_after, max_entries),
        !page.end,
        max_entries >= 1,
    ensures
        page.entries@.len() > 0,
{
    let order = choose|order: Seq<usize>|
        #[trigger] ordered(keys_of(ids), order, 0, ids.len() as int) && page_of(
            page,
            created_secs,
            ids,
            entries,
            order,
            start_after,
            max_entries,
        );
    lemma_page_start(ids, order, start_after, 0);
}

/// The names of a listing.
pub open spec fn names_in(entries: Seq<RdpEntry>) -> Seq<Seq<char>> {
    entries.map_values(|e: RdpEntry| e.name@)
}

/// The tree before listing number `i` of a directory, where it was listed that often.
pub open spec fn relisted(
    t: Tree,
    dirid: u64,
    dir: Seq<char>,
    listings: Seq<Seq<RdpEntry>>,
    i: int,
) -> Tree
    decreases i,
{
    if i <= 0 {
        t
    } else {
        absorbed(relisted(t, dirid, dir, listings, i - 1), dirid, dir, listings[i - 1]).1
    }
}

/// The numbers of listing number `i`.
pub open spec fn numbers_of(
    t: Tree,
    dirid: u64,
    dir: Seq<char>,
    listings: Seq<Seq<RdpEntry>>,
    i: int,
) -> Seq<u64> {
    absorbed(relisted(t, dirid, dir, listings, i), dirid, dir, listings[i]).0
}

proof fn lemma_children_differ(dir: Seq<char>, a: Seq<char>, b: Seq<char>)
    requires
        remote_child(dir, a) == remote_child(dir, b),
    ensures
        a == b,
{
    let head = if dir == "\\"@ {
        "\\"@
    } else {
        dir + "\\"@
    };
    assert(remote_child(dir, a) == head + a);
    assert(remote_child(dir, b) == head + b);
    assert(a =~= (head + a).skip(head.len() as int));
    assert(b =~= (head + b).skip(head.len() as int));
}

/// Every entry of the listing is known.
spec fn all_known(t: Tree, dir: Seq<char>, entries: Seq<RdpEntry>) -> bool {
    forall|k: int|
        0 <= k < entries.len() ==> id_of(t, remote_child(dir, (#[trigger] entries[k]).name@)) is Some
}

proof fn lemma_known_again(t: Tree, parent: u64, path: Seq<char>, is_dir: bool, size: u64)
    requires
        tree_wf(t),
        id_of(t, path) is Some,
    ensures
        ({
            let after = interned(t, parent, path, is_dir, size).1;
            &&& tree_wf(after)
            &&& forall|p: Seq<char>| #[trigger] id_of(after, p) == id_of(t, p)
        }),
{
    let after = interned(t, parent, path, is_dir, size).1;
    let id = id_of(t, path)->0;
    assert(t.nodes.contains_key(id));
    assert forall|a: u64| #[trigger] after.nodes.contains_key(a) <==> t.nodes.contains_key(a) by {}
    assert forall|a: u64| #[trigger] t.nodes.contains_key(a) implies after.nodes[a].path
        == t.nodes[a].path by {}
    assert(tree_wf(after)) by {
        assert forall|a: u64, b: u64|
            #[trigger] after.nodes.contains_key(a) && #[trigger] after.nodes.contains_key(b)
                && after.nodes[a].path == after.nodes[b].path implies a == b by {
            assert(t.nodes.contains_key(a) && t.nodes.contains_key(b));
        }
        assert forall|a: u64| #[trigger] after.nodes.contains_key(a) implies 0 < a
            < after.next_id by {
            assert(t.nodes.contains_key(a));
        }
    }
    assert forall|p: Seq<char>| #[trigger] id_of(after, p) == id_of(t, p) by {
        if id_of(t, p) is Some {
            let x = id_of(t, p)->0;
            assert(t.nodes.contains_key(x) && t.nodes[x].path == p);
            lemma_id_of(after, x);
        } else if id_of(after, p) is Some {
            let x = id_of(after, p)->0;
            assert(after.nodes.contains_key(x) && after.nodes[x].path == p);
            assert(t.nodes.contains_key(x) && t.nodes[x].path == p);
        }
    }
}

proof fn lemma_listing_known_entries(t: Tree, dirid: u64, dir: Seq<char>, entries: Seq<RdpEntry>)
    requires
        tree_wf(t),
        all_known(t, dir, entries),
    ensures
        ({
            let (ids, after) = absorbed(t, dirid, dir, entries);
            &&& tree_wf(after)
            &&& ids.len() == entries.len()
            &&& forall|k: int|
                0 <= k < entries.len() ==> id_of(
                    t,
                    remote_child(dir, (#[trigger] entries[k]).name@),
                ) == Some(ids[k])
            &&& forall|p: Seq<char>| #[trigger] id_of(after, p) == id_of(t, p)
        }),
    decreases entries.len(),
{
    if entries.len() > 0 {
        let front = entries.drop_last();
        assert forall|k: int| 0 <= k < front.len() implies id_of(
            t,
            remote_child(dir, (#[trigger] front[k]).name@),
        ) is Some by {
            assert(front[k] == entries[k]);
        }
        lemma_listing_known_entries(t, dirid, dir, front);
        let (ids, before) = absorbed(t, dirid, dir, front);
        let e = entries.last();
        let path = remote_child(dir, e.name@);
        assert(e == entries[entries.len() - 1]);
        assert(id_of(t, path) is Some);
        assert(id_of(before, path) == id_of(t, path));
        lemma_known_again(before, dirid, path, e.is_dir, e.size);
        assert forall|k: int| 0 <= k < entries.len() implies id_of(
            t,
            remote_child(dir, (#[trigger] entries[k]).name@),
        ) == Some(absorbed(t, dirid, dir, entries).0[k]) by {
            if k < front.len() {
                assert(front[k] == entries[k]);
            }
        }
    }
}

/// Numbers of a listing under which its paths are found later are as distinct as its
/// names, and none is 0.
proof fn lemma_distinct_names_have_distinct_numbers(
    t: Tree,
    dir: Seq<char>,
    entries: Seq<RdpEntry>,
    ids: Seq<u64>,
)
    requires
        tree_wf(t),
        ids.len() == entries.len(),
        names_in(entries).no_duplicates(),
        forall|k: int|
            0 <= k < entries.len() ==> id_of(t, remote_child(dir, (#[trigger] entries[k]).name@))
                == Some(ids[k]),
    ensures
        ids.no_duplicates(),
        !ids.contains(0),
{
    assert forall|i: int, j: int| 0 <= i < ids.len() && 0 <= j < ids.len() && i != j implies ids[i]
        != ids[j] by {
        let p = remote_child(dir, entries[i].name@);
        let q = remote_child(dir, entries[j].name@);
        assert(id_of(t, p) == Some(ids[i]) && id_of(t, q) == Some(ids[j]));
        if ids[i] == ids[j] {
            assert(p == q);
            lemma_children_differ(dir, entries[i].name@, entries[j].name@);
            assert(names_in(entries)[i] == names_in(entries)[j]);
        }
    }
    if ids.contains(0) {
        let k = choose|k: int| 0 <= k < ids.len() && ids[k] == 0;
        assert(id_of(t, remote_child(dir, entries[k].name@)) == Some(0u64));
        assert(t.nodes.contains_key(0));
    }
}

/// The same names, in whatever order, have the same numbers at every listing.
proof fn lemma_relisted(
    t: Tree,
    dirid: u64,
    dir: Seq<char>,
    listings: Seq<Seq<RdpEntry>>,
    i: int,
)
    requires
        is_relisting(t, listings),
        0 <= i < listings.len(),
    ensures
        ({
            let first = relisted(t, dirid, dir, listings, 1);
            let ids = numbers_of(t, dirid, dir, listings, i);
            let next = relisted(t, dirid, dir, listings, i + 1);
            &&& tree_wf(first)
            &&& tree_wf(next)
            &&& all_known(first, dir, listings[i])
            &&& forall|p: Seq<char>| #[trigger] id_of(next, p) == id_of(first, p)
            &&& ids.len() == listings[i].len()
            &&& forall|k: int|
                0 <= k < ids.len() ==> id_of(
                    first,
                    remote_child(dir, (#[trigger] listings[i][k]).name@),
                ) == Some(ids[k])
        }),
    decreases i,
{
    let first = relisted(t, dirid, dir, listings, 1);
    assert(relisted(t, dirid, dir, listings, 0) == t);
    assert(first == absorbed(t, dirid, dir, listings[0]).1);
    lemma_absorbed_wf(t, dirid, dir, listings[0]);
    assert forall|k: int| 0 <= k < listings[0].len() implies id_of(
        first,
        remote_child(dir, (#[trigger] listings[0][k]).name@),
    ) == Some(absorbed(t, dirid, dir, listings[0]).0[k]) by {
        listed_names_are_found(t, dirid, dir, listings[0], k);
    }
    if i > 0 {
        lemma_relisted(t, dirid, dir, listings, i - 1);
        let before = relisted(t, dirid, dir, listings, i);
        assert forall|k: int| 0 <= k < listings[i].len() implies id_of(
            first,
            remote_child(dir, (#[trigger] listings[i][k]).name@),
        ) is Some by {
            let name = listings[i][k].name@;
            assert(names_in(listings[i])[k] == name);
            assert(names_in(listings[i]).to_set().contains(name));
            assert(names_in(listings[0]).to_set().contains(name));
            let j = choose|j: int|
                0 <= j < names_in(listings[0]).len() && names_in(listings[0])[j] == name;
            assert(listings[0][j].name@ == name);
        }
        assert forall|k: int| 0 <= k < listings[i].len() implies id_of(
            before,
            remote_child(dir, (#[trigger] listings[i][k]).name@),
        ) is Some by {
            assert(id_of(first, remote_child(dir, listings[i][k].name@)) is Some);
        }
        lemma_listing_known_entries(before, dirid, dir, listings[i]);
        assert forall|k: int| 0 <= k < listings[i].len() implies id_of(
            first,
            remote_child(dir, (#[trigger] listings[i][k]).name@),
        ) == Some(numbers_of(t, dirid, dir, listings, i)[k]) by {
            let p = remote_child(dir, listings[i][k].name@);
            assert(id_of(before, p) == id_of(first, p));
        }
    }
}

/// The same distinct names are listed every time, in whatever order.
pub open spec fn is_relisting(t: Tree, listings: Seq<Seq<RdpEntry>>) -> bool {
    &&& tree_wf(t)
    &&& listings.len() > 0
    &&& t.next_id + listings[0].len() <= u64::MAX
    &&& forall|i: int|
        0 <= i < listings.len() ==> {
            &&& names_in(#[trigger] listings[i]).no_duplicates()
            &&& names_in(listings[i]).to_set() == names_in(listings[0]).to_set()
            &&& listings[i].len() <= usize::MAX
        }
}

proof fn lemma_same_numbers(
    t: Tree,
    dirid: u64,
    dir: Seq<char>,
    listings: Seq<Seq<RdpEntry>>,
    i: int,
)
    requires
        is_relisting(t, listings),
        0 <= i < listings.len(),
    ensures
        numbers_of(t, dirid, dir, listings, i).no_duplicates(),
        !numbers_of(t, dirid, dir, listings, i).contains(0),
        numbers_of(t, dirid, dir, listings, i).len() == listings[i].len(),
        numbers_of(t, dirid, dir, listings, i).to_set() == numbers_of(
            t,
            dirid,
            dir,
            listings,
            0,
        ).to_set(),
{
    let first = relisted(t, dirid, dir, listings, 1);
    let a = numbers_of(t, dirid, dir, listings, i);
    let b = numbers_of(t, dirid, dir, listings, 0);
    lemma_relisted(t, dirid, dir, listings, i);
    lemma_relisted(t, dirid, dir, listings, 0);
    lemma_distinct_names_have_distinct_numbers(first, dir, listings[i], a);
    let x = listings[i];
    let y = listings[0];
    assert forall|n: u64| #[trigger] a.to_set().contains(n) <==> b.to_set().contains(n) by {
        if a.to_set().contains(n) {
            let k = choose|k: int| 0 <= k < a.len() && a[k] == n;
            let name = x[k].name@;
            assert(names_in(x)[k] == name);
            assert(names_in(x).to_set().contains(name));
            let j = choose|j: int| 0 <= j < names_in(y).len() && names_in(y)[j] == name;
            assert(y[j].name@ == name);
            assert(id_of(first, remote_child(dir, x[k].name@)) == Some(a[k]));
            assert(id_of(first, remote_child(dir, y[j].name@)) == Some(b[j]));
            assert(b[j] == n);
        }
        if b.to_set().contains(n) {
            let k = choose|k: int| 0 <= k < b.len() && b[k] == n;
            let name = y[k].name@;
            assert(names_in(y)[k] == name);
            assert(names_in(y).to_set().contains(name));
            let j = choose|j: int| 0 <= j < names_in(x).len() && names_in(x)[j] == name;
            assert(x[j].name@ == name);
            assert(id_of(first, remote_child(dir, y[k].name@)) == Some(b[k]));
            assert(id_of(first, remote_child(dir, x[j].name@)) == Some(a[j]));
            assert(a[j] == n);
        }
    }
    assert(a.to_set() =~= b.to_set());
}

/// A client that lists the same names every time, in whatever order, and asks for page
/// after page until one is the last, is told every child once, by increasing number, on
/// pages no longer than it asked for; the page with the last child is the last, no other.
pub proof fn a_directory_is_read_whole(
    created_secs: u32,
    t: Tree,
    dirid: u64,
    dir: Seq<char>,
    listings: Seq<Seq<RdpEntry>>,
    pages: Seq<ReadDirResult>,
    max_entries: int,
)
    requires
        is_relisting(t, listings),
        listings.len() == pages.len(),
        max_entries >= 1,
        forall|i: int|
            0 <= i < pages.len() ==> is_page(
                #[trigger] pages[i],
                created_secs,
                numbers_of(t, dirid, dir, listings, i),
                listings[i],
                behind(pages, i),
                max_entries,
            ),
        forall|i: int| 0 <= i < pages.len() - 1 ==> !(#[trigger] pages[i]).end,
    ensures
        pages.last().entries@.len() <= max_entries,
        ascending(joined_pages(pages)),
        joined_pages(pages).to_set().subset_of(
            numbers_of(t, dirid, dir, listings, 0).to_set(),
        ),
        pages.last().end <==> joined_pages(pages).to_set() == numbers_of(
            t,
            dirid,
            dir,
            listings,
            0,
        ).to_set(),
        pages.last().end <==> joined_pages(pages).len() == listings[0].len(),
{
    let ids = Seq::new(listings.len(), |i: int| numbers_of(t, dirid, dir, listings, i));
    let own = numbers_of(t, dirid, dir, listings, 0);
    assert forall|i: int| 0 <= i < pages.len() implies (#[trigger] ids[i]).no_duplicates()
        && ids[i].to_set() == own.to_set() && ids[i].len() <= usize::MAX && !ids[i].contains(0) by {
        lemma_same_numbers(t, dirid, dir, listings, i);
        assert(listings[i].len() <= usize::MAX);
    }
    assert(is_page(pages[0], created_secs, own, listings[0], behind(pages, 0), max_entries));
    let order = choose|order: Seq<usize>|
        #[trigger] ordered(keys_of(own), order, 0, own.len() as int) && page_of(
            pages[0],
            created_secs,
            own,
            listings[0],
            order,
            behind(pages, 0),
            max_entries,
        );
    assert(ids[0] == own);
    lemma_sorted_numbers(own, order);
    let children = sorted_numbers(own, order);
    if children.contains(0) {
        assert(children.to_set().contains(0));
        assert(own.to_set().contains(0));
    }
    assert forall|i: int| 0 <= i < pages.len() implies is_page(
        #[trigger] pages[i],
        created_secs,
        ids[i],
        listings[i],
        behind(pages, i),
        max_entries,
    ) by {}
    pages_make_up_the_directory(created_secs, children, ids, listings, pages, max_entries);
    let all = joined_pages(pages);
    lemma_same_numbers(t, dirid, dir, listings, 0);
    assert(children.len() == listings[0].len());
    assert forall|n: u64| #[trigger] all.to_set().contains(n) implies own.to_set().contains(n) by {
        let k = choose|k: int| 0 <= k < all.len() && all[k] == n;
        assert(children[k] == n);
        assert(children.to_set().contains(n));
    }
    if all.len() < children.len() {
        let n = children[all.len() as int];
        assert(children.to_set().contains(n));
        if all.to_set().contains(n) {
            let k = choose|k: int| 0 <= k < all.len() && all[k] == n;
            assert(children[k] == n);
        }
    } else {
        assert(all =~= children);
    }
}

/// A path in a directory begins with the directory's path and ends with the name, and just
/// before the name stands a backslash.
pub proof fn names_stand_below_their_directory(dir: Seq<char>, name: Seq<char>, other: Seq<char>)
    ensures
        remote_child(dir, name).take(dir.len() as int) == dir,
        remote_child(dir, name).skip(remote_child(dir, name).len() - name.len()) == name,
        remote_child(dir, name).len() > name.len(),
        remote_child(dir, name)[remote_child(dir, name).len() - name.len() - 1] == '\\',
        dir == seq!['\\'] ==> remote_child(dir, name).len() == 1 + name.len(),
        dir != seq!['\\'] ==> remote_child(dir, name).len() == dir.len() + 1 + name.len(),
        remote_child(dir, name) == remote_child(dir, other) ==> name == other,
{
    reveal_strlit("\\");
    assert("\\"@ =~= seq!['\\']);
    let (a, b) = (remote_child(dir, name), remote_child(dir, other));
    assert(a.take(dir.len() as int) =~= dir);
    assert(a.skip(a.len() - name.len()) =~= name);
    assert(b.skip(b.len() - other.len()) =~= other);
}

/// A file is read from its own path up to its end and no further: the read that reaches the
/// end is the one after which nothing is left to fetch.
pub proof fn reads_go_up_to_the_end(
    t: Tree,
    id: u64,
    offset: u64,
    len: u64,
    r: Result<ReadStep, Nfsstat3>,
    next: Result<ReadStep, Nfsstat3>,
)
    requires
        t.nodes.contains_key(id),
        !t.nodes[id].is_dir,
        offset + len <= u64::MAX,
        is_read(t, id, offset, r),
        is_read(t, id, (offset + len) as u64, next),
    ensures
        offset < t.nodes[id].size ==> (r matches Ok(ReadStep::Fetch(path, size)) && path@
            == t.nodes[id].path && size == t.nodes[id].size),
        offset >= t.nodes[id].size ==> r == Ok::<ReadStep, Nfsstat3>(ReadStep::End),
        reaches_end(offset, len, t.nodes[id].size) <==> next == Ok::<ReadStep, Nfsstat3>(
            ReadStep::End,
        ),
{
}

/// A directory is neither read nor written nor cut, and what is not there is none of these.
pub proof fn only_files_have_contents(
    t: Tree,
    id: u64,
    offset: u64,
    new_size: Option<u64>,
    r: Result<ReadStep, Nfsstat3>,
    s: Result<SetAttr, Nfsstat3>,
)
    requires
        is_read(t, id, offset, r),
        is_setattr(t, id, new_size, s),
    ensures
        !t.nodes.contains_key(id) ==> r == Err::<ReadStep, Nfsstat3>(Nfsstat3::NoEnt) && s == Err::<
            SetAttr,
            Nfsstat3,
        >(Nfsstat3::NoEnt) && written_path(t, id) == Err::<Seq<char>, Nfsstat3>(Nfsstat3::NoEnt),
        t.nodes.contains_key(id) && t.nodes[id].is_dir ==> r == Err::<ReadStep, Nfsstat3>(
            Nfsstat3::IsDir,
        ) && (s matches Ok(a) && a.is_dir && a.set_len is None) && written_path(t, id) == Err::<
            Seq<char>,
            Nfsstat3,
        >(Nfsstat3::IsDir),
        t.nodes.contains_key(id) && !t.nodes[id].is_dir ==> written_path(t, id) == Ok::<
            Seq<char>,
            Nfsstat3,
        >(t.nodes[id].path) && (s matches Ok(a) && !a.is_dir && (new_size is None ==> a.set_len
            is None) && (new_size matches Some(n) ==> (a.set_len matches Some((path, size)) && size
            == n && path@ == t.nodes[id].path))),
{
}

/// A write never shortens a file and makes it just long enough for what was written.
pub proof fn writes_only_lengthen(t: Tree, id: u64, offset: u64, len: u64)
    requires
        offset + len <= u64::MAX,
    ensures
        written_size(t, id, offset, len) >= offset + len,
        t.nodes.contains_key(id) ==> written_size(t, id, offset, len) >= t.nodes[id].size,
        t.nodes.contains_key(id) && offset + len <= t.nodes[id].size ==> written_size(
            t,
            id,
            offset,
            len,
        ) == t.nodes[id].size,
        t.nodes.contains_key(id) && offset + len > t.nodes[id].size ==> written_size(
            t,
            id,
            offset,
            len,
        ) == offset + len,
        !t.nodes.contains_key(id) ==> written_size(t, id, offset, len) == offset + len,
{
}

/// A node is reported under its number, with its kind and its size; a directory as one that
/// its owner may enter and a file as one that its owner may write.
pub proof fn nodes_are_reported_as_they_are(created_secs: u32, id: u64, is_dir: bool, size: u64)
    ensures
        attributes(created_secs, id, is_dir, size).fileid == id,
        attributes(created_secs, id, is_dir, size).is_dir == is_dir,
        attributes(created_secs, id, is_dir, size).seconds == created_secs,
        !is_dir ==> attributes(created_secs, id, is_dir, size).size == size,
        !is_dir ==> attributes(created_secs, id, is_dir, size).mode == 0o644,
        !is_dir ==> attributes(created_secs, id, is_dir, size).nlink == 1,
        is_dir ==> attributes(created_secs, id, is_dir, size).size == 4096,
        is_dir ==> attributes(created_secs, id, is_dir, size).mode == 0o755,
        is_dir ==> attributes(created_secs, id, is_dir, size).nlink == 2,
        attributes(created_secs, id, is_dir, size).used == attributes(
            created_secs,
            id,
            is_dir,
            size,
        ).size,
{
}

/// One dot leads to the directory itself, two to the one it is in, and a name to what its
/// path is known for; where nothing is known of the path, it is listed.
pub proof fn names_lead_where_they_say(
    t: Tree,
    dirid: u64,
    name: Seq<char>,
    r: Result<Lookup, Nfsstat3>,
)
    requires
        looked_up(t, dirid, name, r),
    ensures
        name == seq!['.'] ==> r == Ok::<Lookup, Nfsstat3>(Lookup::Found(dirid)),
        name == seq!['.', '.'] && t.nodes.contains_key(dirid) ==> r == Ok::<Lookup, Nfsstat3>(
            Lookup::Found(t.nodes[dirid].parent),
        ),
        name != seq!['.'] && !t.nodes.contains_key(dirid) ==> r == Err::<Lookup, Nfsstat3>(
            Nfsstat3::NoEnt,
        ),
        name != seq!['.'] && name != seq!['.', '.'] && t.nodes.contains_key(dirid)
            && t.nodes[dirid].is_dir ==> (match id_of(t, remote_child(t.nodes[dirid].path, name)) {
            Some(id) => r == Ok::<Lookup, Nfsstat3>(Lookup::Found(id)),
            None => r matches Ok(Lookup::List(p)) && p@ == remote_child(t.nodes[dirid].path, name),
        }),
        name != seq!['.'] && name != seq!['.', '.'] && t.nodes.contains_key(dirid)
            && !t.nodes[dirid].is_dir ==> r == Err::<Lookup, Nfsstat3>(Nfsstat3::NotDir),
{
    reveal_strlit(".");
    reveal_strlit("..");
    assert("."@ =~= seq!['.']);
    assert(".."@ =~= seq!['.', '.']);
    assert("."@.len() != ".."@.len());
}

/// What is removed is the name in its directory, and what is renamed goes from the one
/// directory to the other, with what is known of it before.
pub proof fn names_are_taken_from_their_directories(
    t: Tree,
    from_dirid: u64,
    from_name: Seq<char>,
    to_dirid: u64,
    to_name: Seq<char>,
    gone: Result<Removal, Nfsstat3>,
    r: Result<Renaming, Nfsstat3>,
)
    requires
        is_removal(t, from_dirid, from_name, gone),
        is_renaming(t, from_dirid, from_name, to_dirid, to_name, r),
        t.nodes.contains_key(from_dirid) && t.nodes[from_dirid].is_dir,
    ensures
        gone matches Ok(m) && m.path@ == remote_child(t.nodes[from_dirid].path, from_name)
            && m.target == known(t, m.path@),
        t.nodes.contains_key(to_dirid) && t.nodes[to_dirid].is_dir ==> (r matches Ok(m) && m.from@
            == remote_child(t.nodes[from_dirid].path, from_name) && m.to@ == remote_child(
            t.nodes[to_dirid].path,
            to_name,
        ) && m.source == known(t, m.from@)),
        !t.nodes.contains_key(to_dirid) ==> r == Err::<Renaming, Nfsstat3>(Nfsstat3::NoEnt),
        t.nodes.contains_key(to_dirid) && !t.nodes[to_dirid].is_dir ==> r == Err::<
            Renaming,
            Nfsstat3,
        >(Nfsstat3::NotDir),
{
}

} // verus!
