//! The inode table: identity, placement and lookup counts of every inode.
//!
//! Inodes live in an arena keyed by their id. A handle (`Node`) holds an id
//! only, so a handle to a removed inode simply no longer resolves.

use vstd::prelude::*;
use vstd::utf8::encode_utf8;
use crate::attr::{FileAttr, S_IFMT, S_IFDIR, dirent_type, is_dir_mode, is_file_mode};
use crate::error::FsError;
use crate::ordered::{ChildMap, NodeMap, 
    child_entries, node_map, children_get, children_get_index, children_len, children_insert, children_new, children_remove,
    nodes_get, nodes_insert, nodes_new, nodes_remove,
};

verus! {

/// The id of the root directory.
pub const ROOT_INO: u64 = 1;

/// The first listing cookie that a child of a directory receives; `.` and `..`
/// hold the two before it.
pub const FIRST_CHILD_COOKIE: u64 = 3;

/// The children of a directory: name to (inode id, listing cookie), in the
/// order in which they were added.
pub struct DirNode {
    pub children: ChildMap,
    pub next_cookie: u64,
}

/// One record of the arena.
pub struct NodeInner {
    pub attr: FileAttr,
    pub nlookup: u64,
    pub parent: u64,
    pub name: String,
    pub dir: Option<DirNode>,
}

/// The table of all inodes.
pub struct NodeTable {
    pub nodes: NodeMap,
    pub next_ino: u64,
}

/// A handle to an inode: its id, resolved again on each use.
#[derive(Clone, Copy, Debug, PartialEq, Eq, Structural)]
pub struct Node {
    pub nodeid: u64,
}

/// A notice that the kernel dropped `nlookup` references to inode `ino`.
#[derive(Clone, Copy, Debug, PartialEq, Eq, Structural)]
pub struct Forget {
    pub ino: u64,
    pub nlookup: u64,
}

/// One entry of a directory listing.
#[derive(Debug)]
pub struct DirEntry {
    pub name: String,
    pub ino: u64,
    /// The listing cookie: where the next page starts after this entry.
    pub offset: u64,
    pub typ: u32,
}

pub struct DirEntryView {
    pub name: Seq<char>,
    pub ino: u64,
    pub offset: u64,
    pub typ: u32,
}

impl View for DirEntry {
    type V = DirEntryView;

    open spec fn view(&self) -> DirEntryView {
        DirEntryView { name: self.name@, ino: self.ino, offset: self.offset, typ: self.typ }
    }
}

/// The directory-entry type of a directory.
pub const DT_DIR: u32 = 4;

/// The size of the fixed part of an encoded directory entry.
pub const DIRENT_HEADER: u64 = 24;

/// The size of an entry as the kernel protocol encodes it: a 24-byte header
/// and the name's UTF-8 bytes, padded to a multiple of eight.
pub open spec fn entry_size(e: DirEntryView) -> nat {
    ((DIRENT_HEADER + (encode_utf8(e.name).len() as usize) + 7) / 8 * 8) as nat
}

/// The full listing of directory `d`: `.`, `..`, then the children in order.
pub open spec fn listing(v: TableView, d: u64) -> Seq<DirEntryView> {
    let n = v.nodes[d];
    seq![
        DirEntryView { name: seq!['.'], ino: d, offset: 1, typ: DT_DIR },
        DirEntryView { name: seq!['.', '.'], ino: n.parent, offset: 2, typ: DT_DIR },
    ] + n.entries.map_values(
        |c: (Seq<char>, (u64, u64))|
            DirEntryView { name: c.0, ino: c.1.0, offset: c.1.1, typ: dirent_type(v.nodes[c.1.0].attr.mode) },
    )
}

/// The entries of `s` after the leading ones whose cookie is at most `c`.
pub open spec fn after(s: Seq<DirEntryView>, c: u64) -> Seq<DirEntryView>
    decreases s.len(),
{
    if s.len() == 0 {
        s
    } else if s[0].offset <= c {
        after(s.drop_first(), c)
    } else {
        s
    }
}

/// The longest prefix of `s` whose encoded sizes add up to at most `budget`.
pub open spec fn fit(s: Seq<DirEntryView>, budget: nat) -> Seq<DirEntryView>
    decreases s.len(),
{
    if s.len() == 0 || entry_size(s[0]) > budget {
        Seq::empty()
    } else {
        seq![s[0]] + fit(s.drop_first(), (budget - entry_size(s[0])) as nat)
    }
}

/// One page of listing `s` that starts after cookie `start`.
pub open spec fn dir_page(s: Seq<DirEntryView>, start: u64, budget: nat) -> Seq<DirEntryView> {
    fit(after(s, start), budget)
}

/// The pages read one after another, each from the cookie of the last entry
/// of the one before, until one comes back empty (or `fuel` pages are read).
pub open spec fn all_pages(s: Seq<DirEntryView>, start: u64, budget: nat, fuel: nat) -> Seq<DirEntryView>
    decreases fuel,
{
    if fuel == 0 {
        Seq::empty()
    } else {
        let p = dir_page(s, start, budget);
        if p.len() == 0 {
            Seq::empty()
        } else {
            p + all_pages(s, p.last().offset, budget, (fuel - 1) as nat)
        }
    }
}

pub open spec fn cookies_rise(s: Seq<DirEntryView>) -> bool {
    forall|i: int, j: int| 0 <= i < j < s.len() ==> (#[trigger] s[i]).offset < (#[trigger] s[j]).offset
}

/// What one inode is, mathematically.
pub struct NodeView {
    pub attr: FileAttr,
    pub nlookup: nat,
    pub parent: u64,
    pub name: Seq<char>,
    pub is_dir: bool,
    /// (name, (child id, cookie)) in the directory's order; empty for a file.
    pub entries: Seq<(Seq<char>, (u64, u64))>,
    pub next_cookie: nat,
}

/// What the table is, mathematically.
pub struct TableView {
    pub nodes: Map<u64, NodeView>,
    pub next_ino: nat,
}

pub open spec fn view_of(n: NodeInner) -> NodeView {
    NodeView {
        attr: n.attr,
        nlookup: n.nlookup as nat,
        parent: n.parent,
        name: n.name@,
        is_dir: n.dir is Some,
        entries: match n.dir {
            Some(d) => child_entries(d.children),
            None => Seq::empty(),
        },
        next_cookie: match n.dir {
            Some(d) => d.next_cookie as nat,
            None => 0,
        },
    }
}

pub open spec fn view_map(m: Map<u64, NodeInner>) -> Map<u64, NodeView> {
    Map::new(|k: u64| m.contains_key(k), |k: u64| view_of(m[k]))
}

impl View for NodeTable {
    type V = TableView;

    open spec fn view(&self) -> TableView {
        TableView { nodes: view_map(node_map(self.nodes)), next_ino: self.next_ino as nat }
    }
}

/// Every entry of directory `d` names a live inode that records `d` as its
/// parent and the entry's name as its own; names are unique and cookies rise.
pub open spec fn dir_ok(v: TableView, d: u64) -> bool {
    let n = v.nodes[d];
    let e = n.entries;
    &&& FIRST_CHILD_COOKIE <= n.next_cookie <= v.next_ino + 1
    &&& forall|i: int| 0 <= i < e.len() ==> {
        let c = #[trigger] e[i];
        &&& v.nodes.contains_key(c.1.0)
        &&& c.1.0 != ROOT_INO
        &&& v.nodes[c.1.0].parent == d
        &&& v.nodes[c.1.0].name == c.0
        &&& FIRST_CHILD_COOKIE <= c.1.1 < n.next_cookie
    }
    &&& forall|i: int, j: int| 0 <= i < j < e.len() ==> (#[trigger] e[i]).0 != (#[trigger] e[j]).0
        && e[i].1.1 < e[j].1.1
}

/// Inode `k` is listed by its parent under its name.
pub open spec fn linked(v: TableView, k: u64) -> bool {
    let p = v.nodes[k].parent;
    &&& v.nodes.contains_key(p)
    &&& v.nodes[p].is_dir
    &&& exists|i: int|
        0 <= i < v.nodes[p].entries.len() && #[trigger] v.nodes[p].entries[i] == (
            v.nodes[k].name,
            (k, v.nodes[p].entries[i].1.1),
        )
}

pub open spec fn node_ok(v: TableView, k: u64) -> bool {
    let n = v.nodes[k];
    &&& 1 <= k < v.next_ino
    &&& n.attr.ino == k
    &&& n.is_dir <==> is_dir_mode(n.attr.mode)
    &&& !n.is_dir ==> is_file_mode(n.attr.mode) && n.entries.len() == 0
    &&& n.is_dir ==> dir_ok(v, k)
    &&& k != ROOT_INO ==> linked(v, k)
}

/// The table's invariant: the root is a directory, ids lie below the next one
/// to hand out, and the directories form a tree.
pub open spec fn table_wf(v: TableView) -> bool {
    &&& v.nodes.contains_key(ROOT_INO)
    &&& v.nodes[ROOT_INO].is_dir
    &&& v.nodes[ROOT_INO].parent == ROOT_INO
    &&& 2 <= v.next_ino
    &&& forall|k: u64| #[trigger] v.nodes.contains_key(k) ==> node_ok(v, k)
}

/// `ino` is listed in directory `parent` under `name`.
pub open spec fn has_child(v: TableView, parent: u64, name: Seq<char>, ino: u64) -> bool {
    &&& v.nodes.contains_key(parent)
    &&& exists|i: int|
        0 <= i < v.nodes[parent].entries.len() && (#[trigger] v.nodes[parent].entries[i]).0 == name
            && v.nodes[parent].entries[i].1.0 == ino
}

/// `n` with one more lookup, held at the largest count.
pub open spec fn looked_up(n: NodeView) -> NodeView {
    NodeView { nlookup: if n.nlookup < u64::MAX { n.nlookup + 1 } else { n.nlookup }, ..n }
}

/// `a` less `b`, held at zero.
pub open spec fn sat_sub(a: nat, b: nat) -> nat {
    if a >= b { (a - b) as nat } else { 0 }
}

/// The total count that the notices in `fs` drop from inode `ino`.
pub open spec fn forgotten(fs: Seq<Forget>, ino: u64) -> nat
    decreases fs.len(),
{
    if fs.len() == 0 {
        0
    } else {
        forgotten(fs.drop_last(), ino) + if fs.last().ino == ino { fs.last().nlookup as nat } else { 0 }
    }
}

/// The attributes that `set_attr` stores: those given, but with the inode's
/// own id and file type.
pub open spec fn merged_attr(old: FileAttr, new: FileAttr) -> FileAttr {
    FileAttr { ino: old.ino, mode: (old.mode & S_IFMT) | (new.mode & !S_IFMT), ..new }
}

/// The two tables have the same inodes in the same places; only lookup
/// counts and attributes other than id and file type may differ.
pub open spec fn same_shape(a: TableView, b: TableView) -> bool {
    &&& a.next_ino == b.next_ino
    &&& a.nodes.dom() == b.nodes.dom()
    &&& forall|k: u64| #[trigger] a.nodes.contains_key(k) ==> {
        let x = a.nodes[k];
        let y = b.nodes[k];
        &&& x.parent == y.parent
        &&& x.name == y.name
        &&& x.is_dir == y.is_dir
        &&& x.entries == y.entries
        &&& x.next_cookie == y.next_cookie
        &&& x.attr.ino == y.attr.ino
        &&& is_dir_mode(x.attr.mode) == is_dir_mode(y.attr.mode)
        &&& is_file_mode(x.attr.mode) == is_file_mode(y.attr.mode)
    }
}

proof fn lemma_same_shape_wf(a: TableView, b: TableView)
    requires
        table_wf(a),
        same_shape(a, b),
    ensures
        table_wf(b),
{
    assert forall|k: u64| #[trigger] b.nodes.contains_key(k) implies node_ok(b, k) by {
        assert(a.nodes.contains_key(k));
        assert(node_ok(a, k));
        let n = b.nodes[k];
        if n.is_dir {
            assert(dir_ok(a, k));
            let e = n.entries;
            assert forall|i: int| 0 <= i < e.len() implies {
                let c = #[trigger] e[i];
                &&& b.nodes.contains_key(c.1.0)
                &&& c.1.0 != ROOT_INO
                &&& b.nodes[c.1.0].parent == k
                &&& b.nodes[c.1.0].name == c.0
                &&& FIRST_CHILD_COOKIE <= c.1.1 < n.next_cookie
            } by {
                assert(a.nodes.contains_key(e[i].1.0));
            }
        }
        if k != ROOT_INO {
            let p = a.nodes[k].parent;
            assert(linked(a, k));
            assert(a.nodes.contains_key(p));
            let i = choose|i: int|
                0 <= i < a.nodes[p].entries.len() && #[trigger] a.nodes[p].entries[i] == (
                    a.nodes[k].name,
                    (k, a.nodes[p].entries[i].1.1),
                );
            assert(b.nodes[p].entries[i] == (b.nodes[k].name, (k, b.nodes[p].entries[i].1.1)));
        }
    }
}

proof fn lemma_view_reinsert(m: Map<u64, NodeInner>, k: u64, v: NodeInner)
    ensures
        view_map(m.remove(k).insert(k, v)) == view_map(m).insert(k, view_of(v)),
{
    assert(m.remove(k).insert(k, v) =~= m.insert(k, v));
    lemma_view_insert(m, k, v);
}

/// What `new_node(parent, name, attr)` answers: the parent must exist, be a
/// directory and lack the name, and the kind must be a directory or a
/// regular file; the new inode gets the next id.
pub open spec fn new_node_result(v: TableView, parent: u64, name: Seq<char>, attr: FileAttr) -> Result<Node, FsError> {
    if !v.nodes.contains_key(parent) {
        Err(FsError::NotFound)
    } else if !v.nodes[parent].is_dir {
        Err(FsError::NotADirectory)
    } else if exists|ino: u64| has_child(v, parent, name, ino) {
        Err(FsError::AlreadyExists)
    } else if !(is_dir_mode(attr.mode) || is_file_mode(attr.mode)) {
        Err(FsError::Unsupported)
    } else {
        Ok(Node { nodeid: v.next_ino as u64 })
    }
}

/// What `remove_node(ino)` answers.
pub open spec fn remove_result(v: TableView, ino: u64) -> Result<(), FsError> {
    if !v.nodes.contains_key(ino) {
        Err(FsError::NotFound)
    } else if ino == ROOT_INO {
        Err(FsError::PermissionDenied)
    } else if v.nodes[ino].entries.len() > 0 {
        Err(FsError::NotEmpty)
    } else {
        Ok(())
    }
}

/// The record of a freshly allocated inode.
pub open spec fn fresh_node(ino: u64, parent: u64, name: Seq<char>, attr: FileAttr) -> NodeView {
    NodeView {
        attr: FileAttr { ino: ino, ..attr },
        nlookup: 0,
        parent: parent,
        name: name,
        is_dir: is_dir_mode(attr.mode),
        entries: Seq::empty(),
        next_cookie: if is_dir_mode(attr.mode) { FIRST_CHILD_COOKIE as nat } else { 0 },
    }
}

/// The table after `new_node(parent, name, attr)` succeeds: the next id is
/// handed out and listed last in `parent` with the directory's next cookie.
pub open spec fn allocated(v: TableView, parent: u64, name: Seq<char>, attr: FileAttr) -> TableView {
    let ino = v.next_ino as u64;
    let p = v.nodes[parent];
    TableView {
        nodes: v.nodes.insert(ino, fresh_node(ino, parent, name, attr)).insert(
            parent,
            NodeView {
                entries: p.entries.push((name, (ino, p.next_cookie as u64))),
                next_cookie: p.next_cookie + 1,
                ..p
            },
        ),
        next_ino: v.next_ino + 1,
    }
}

/// The position of inode `ino` among the entries `e`.
pub open spec fn child_index(e: Seq<(Seq<char>, (u64, u64))>, ino: u64) -> int {
    choose|i: int| 0 <= i < e.len() && (#[trigger] e[i]).1.0 == ino
}

/// The table after `remove_node(ino)` succeeds: the record is gone and its
/// parent no longer lists it.
pub open spec fn removed(v: TableView, ino: u64) -> TableView {
    let n = v.nodes[ino];
    let p = v.nodes[n.parent];
    TableView {
        nodes: v.nodes.remove(ino).insert(
            n.parent,
            NodeView { entries: p.entries.remove(child_index(p.entries, ino)), ..p },
        ),
        next_ino: v.next_ino,
    }
}

proof fn lemma_allocated_wf(v: TableView, parent: u64, name: Seq<char>, attr: FileAttr)
    requires
        table_wf(v),
        v.nodes.contains_key(parent),
        v.nodes[parent].is_dir,
        forall|ino: u64| !has_child(v, parent, name, ino),
        is_dir_mode(attr.mode) || is_file_mode(attr.mode),
        v.next_ino + 1 < u64::MAX,
    ensures
        table_wf(allocated(v, parent, name, attr)),
{
    let w = allocated(v, parent, name, attr);
    let ino = v.next_ino as u64;
    let p = v.nodes[parent];
    assert(node_ok(v, parent));
    assert(!v.nodes.contains_key(ino));
    assert forall|k: u64| #[trigger] w.nodes.contains_key(k) implies node_ok(w, k) by {
        if k == ino {
            if is_dir_mode(attr.mode) {
                assert(dir_ok(w, k));
            }
            assert(w.nodes[parent].entries[p.entries.len() as int] == (name, (ino, p.next_cookie as u64)));
            assert(linked(w, k));
        } else {
            assert(v.nodes.contains_key(k));
            assert(node_ok(v, k));
            let n = w.nodes[k];
            if n.is_dir {
                assert(dir_ok(v, k));
                let e = n.entries;
                assert forall|i: int| 0 <= i < e.len() implies {
                    let c = #[trigger] e[i];
                    &&& w.nodes.contains_key(c.1.0)
                    &&& c.1.0 != ROOT_INO
                    &&& w.nodes[c.1.0].parent == k
                    &&& w.nodes[c.1.0].name == c.0
                    &&& FIRST_CHILD_COOKIE <= c.1.1 < n.next_cookie
                } by {
                    if k == parent && i == p.entries.len() {
                    } else {
                        assert(e[i] == v.nodes[k].entries[i]);
                        assert(v.nodes.contains_key(e[i].1.0));
                    }
                }
                if k == parent {
                    assert forall|i: int, j: int| 0 <= i < j < e.len() implies (#[trigger] e[i]).0 != (
                    #[trigger] e[j]).0 && e[i].1.1 < e[j].1.1 by {
                        if j == p.entries.len() {
                            assert(e[i] == p.entries[i]);
                            if p.entries[i].0 == name {
                                assert(has_child(v, parent, name, p.entries[i].1.0));
                            }
                        } else {
                            assert(e[i] == p.entries[i]);
                            assert(e[j] == p.entries[j]);
                        }
                    }
                }
                assert(dir_ok(w, k));
            }
            if k != ROOT_INO {
                assert(linked(v, k));
                let pk = v.nodes[k].parent;
                let i = choose|i: int|
                    0 <= i < v.nodes[pk].entries.len() && #[trigger] v.nodes[pk].entries[i] == (
                        v.nodes[k].name,
                        (k, v.nodes[pk].entries[i].1.1),
                    );
                assert(w.nodes[pk].entries[i] == v.nodes[pk].entries[i]);
                assert(linked(w, k));
            }
        }
    }
}

pub(crate) proof fn lemma_removed_wf(v: TableView, ino: u64)
    requires
        table_wf(v),
        v.nodes.contains_key(ino),
        ino != ROOT_INO,
        v.nodes[ino].entries.len() == 0,
    ensures
        table_wf(removed(v, ino)),
        removed(v, ino).nodes.dom() == v.nodes.dom().remove(ino),
{
    let w = removed(v, ino);
    let n = v.nodes[ino];
    let pa = n.parent;
    let p = v.nodes[pa];
    assert(node_ok(v, ino));
    assert(linked(v, ino));
    assert(node_ok(v, pa));
    let ci = choose|i: int|
        0 <= i < p.entries.len() && #[trigger] p.entries[i] == (n.name, (ino, p.entries[i].1.1));
    assert(p.entries[ci].1.0 == ino);
    let x = child_index(p.entries, ino);
    assert(0 <= x < p.entries.len() && p.entries[x].1.0 == ino);
    assert(p.entries[x].0 == n.name);
    assert(x == ci);
    assert(pa != ino) by {
        if pa == ino {
            assert(p.entries.len() == 0);
        }
    }
    assert(w.nodes.dom() =~= v.nodes.dom().remove(ino));
    assert forall|k: u64| #[trigger] w.nodes.contains_key(k) implies node_ok(w, k) by {
        assert(v.nodes.contains_key(k));
        assert(node_ok(v, k));
        let m = w.nodes[k];
        if m.is_dir {
            assert(dir_ok(v, k));
            let e = m.entries;
            let oe = v.nodes[k].entries;
            assert forall|i: int| 0 <= i < e.len() implies {
                let c = #[trigger] e[i];
                &&& w.nodes.contains_key(c.1.0)
                &&& c.1.0 != ROOT_INO
                &&& w.nodes[c.1.0].parent == k
                &&& w.nodes[c.1.0].name == c.0
                &&& FIRST_CHILD_COOKIE <= c.1.1 < m.next_cookie
            } by {
                let oi = if k == pa && i >= x { i + 1 } else { i };
                assert(e[i] == oe[oi]);
                assert(v.nodes.contains_key(oe[oi].1.0));
                if oe[oi].1.0 == ino {
                    assert(k == pa);
                    assert(oe[oi].0 == n.name);
                }
            }
            assert forall|i: int, j: int| 0 <= i < j < e.len() implies (#[trigger] e[i]).0 != (
            #[trigger] e[j]).0 && e[i].1.1 < e[j].1.1 by {
                let oi = if k == pa && i >= x { i + 1 } else { i };
                let oj = if k == pa && j >= x { j + 1 } else { j };
                assert(e[i] == oe[oi]);
                assert(e[j] == oe[oj]);
            }
            assert(dir_ok(w, k));
        }
        if k != ROOT_INO {
            assert(linked(v, k));
            let pk = v.nodes[k].parent;
            let i = choose|i: int|
                0 <= i < v.nodes[pk].entries.len() && #[trigger] v.nodes[pk].entries[i] == (
                    v.nodes[k].name,
                    (k, v.nodes[pk].entries[i].1.1),
                );
            if pk == ino {
                assert(false);
            }
            if pk == pa {
                let ni = if i > x { i - 1 } else { i };
                assert(i != x);
                assert(w.nodes[pk].entries[ni] == v.nodes[pk].entries[i]);
            } else {
                assert(w.nodes[pk].entries[i] == v.nodes[pk].entries[i]);
            }
            assert(linked(w, k));
        }
    }
}

proof fn lemma_after_skip(s: Seq<DirEntryView>, c: u64, k: int)
    requires
        0 <= k <= s.len(),
        forall|j: int| 0 <= j < k ==> (#[trigger] s[j]).offset <= c,
        k == s.len() || s[k].offset > c,
    ensures
        after(s, c) == s.skip(k),
    decreases k,
{
    if k == 0 {
        assert(s.skip(0) =~= s);
    } else {
        let t = s.drop_first();
        assert forall|j: int| 0 <= j < k - 1 implies (#[trigger] t[j]).offset <= c by {
            assert(t[j] == s[j + 1]);
        }
        lemma_after_skip(t, c, k - 1);
        assert(t.skip(k - 1) =~= s.skip(k));
    }
}

proof fn lemma_fit_prefix(s: Seq<DirEntryView>, budget: nat)
    ensures
        fit(s, budget).len() <= s.len(),
        fit(s, budget) == s.take(fit(s, budget).len() as int),
        s.len() > 0 && entry_size(s[0]) <= budget ==> fit(s, budget).len() > 0,
    decreases s.len(),
{
    if s.len() == 0 || entry_size(s[0]) > budget {
        assert(s.take(0) =~= Seq::<DirEntryView>::empty());
    } else {
        let t = s.drop_first();
        let b = (budget - entry_size(s[0])) as nat;
        lemma_fit_prefix(t, b);
        assert(fit(s, budget) =~= s.take(fit(s, budget).len() as int));
    }
}

proof fn lemma_pages_from(s: Seq<DirEntryView>, k: int, c: u64, budget: nat, fuel: nat)
    requires
        cookies_rise(s),
        0 <= k <= s.len(),
        forall|j: int| 0 <= j < k ==> (#[trigger] s[j]).offset <= c,
        k == s.len() || s[k].offset > c,
        forall|j: int| 0 <= j < s.len() ==> entry_size(#[trigger] s[j]) <= budget,
        fuel >= s.len() - k,
    ensures
        all_pages(s, c, budget, fuel) == s.skip(k),
    decreases fuel,
{
    lemma_after_skip(s, c, k);
    let a = s.skip(k);
    if k == s.len() {
        assert(a.len() == 0);
        lemma_fit_prefix(a, budget);
        assert(s.skip(k) =~= Seq::<DirEntryView>::empty());
    } else {
        assert(a[0] == s[k]);
        lemma_fit_prefix(a, budget);
        let p = fit(a, budget);
        let m = p.len() as int;
        assert(m > 0);
        let c2 = p.last().offset;
        assert(p.last() == s[k + m - 1]);
        assert forall|j: int| 0 <= j < k + m implies (#[trigger] s[j]).offset <= c2 by {
            if j < k + m - 1 {
                assert(s[j].offset < s[k + m - 1].offset);
            }
        }
        if k + m < s.len() {
            assert(s[k + m - 1].offset < s[k + m].offset);
        }
        lemma_pages_from(s, k + m, c2, budget, (fuel - 1) as nat);
        assert(a =~= p + s.skip(k + m));
    }
}

/// Paging through a directory is complete and free of repeats: starting at
/// cookie 0 and going on from the cookie of each page's last entry, with a
/// budget that holds any single entry, yields the whole listing exactly once,
/// in order.
pub proof fn lemma_pagination_complete(v: TableView, d: u64, budget: nat)
    requires
        table_wf(v),
        v.nodes.contains_key(d),
        v.nodes[d].is_dir,
        forall|j: int| 0 <= j < listing(v, d).len() ==> entry_size(#[trigger] listing(v, d)[j]) <= budget,
    ensures
        all_pages(listing(v, d), 0, budget, listing(v, d).len()) == listing(v, d),
{
    let s = listing(v, d);
    assert(node_ok(v, d));
    assert(dir_ok(v, d));
    let e = v.nodes[d].entries;
    assert forall|i: int, j: int| 0 <= i < j < s.len() implies (#[trigger] s[i]).offset < (#[trigger] s[j]).offset by {
        if j >= 2 {
            assert(s[j].offset == e[j - 2].1.1);
            if i >= 2 {
                assert(s[i].offset == e[i - 2].1.1);
            }
        }
    }
    lemma_pages_from(s, 0, 0, budget, s.len());
    assert(s.skip(0) =~= s);
}

/// Lookup counts never go below zero, whatever mix of calls: a new inode
/// starts at zero, a lookup never lowers a count, and a forget takes away at
/// most what the count holds, stopping at zero.
pub proof fn lemma_counts_never_negative(n: NodeView, ino: u64, parent: u64, name: Seq<char>, attr: FileAttr, dropped: nat)
    ensures
        fresh_node(ino, parent, name, attr).nlookup == 0,
        looked_up(n).nlookup >= n.nlookup,
        n.nlookup < u64::MAX ==> looked_up(n).nlookup == n.nlookup + 1,
        sat_sub(n.nlookup, dropped) <= n.nlookup,
        sat_sub(n.nlookup, dropped) as int == if n.nlookup >= dropped { n.nlookup - dropped } else { 0 },
{
}

/// Once an inode has been removed, it resolves no more: not by its id, and
/// not by name in any directory.
pub proof fn lemma_removed_unresolvable(v: TableView, ino: u64, parent: u64, name: Seq<char>)
    requires
        table_wf(v),
        v.nodes.contains_key(ino),
        ino != ROOT_INO,
        v.nodes[ino].entries.len() == 0,
    ensures
        !removed(v, ino).nodes.contains_key(ino),
        !has_child(removed(v, ino), parent, name, ino),
{
    lemma_removed_wf(v, ino);
    let w = removed(v, ino);
    if has_child(w, parent, name, ino) {
        let i = choose|i: int|
            0 <= i < w.nodes[parent].entries.len() && (#[trigger] w.nodes[parent].entries[i]).0 == name
                && w.nodes[parent].entries[i].1.0 == ino;
        assert(node_ok(w, parent));
        assert(dir_ok(w, parent));
        assert(w.nodes.contains_key(w.nodes[parent].entries[i].1.0));
    }
}

proof fn lemma_entries_len(e: Seq<(Seq<char>, (u64, u64))>, next_cookie: nat)
    requires
        FIRST_CHILD_COOKIE <= next_cookie,
        forall|i: int| 0 <= i < e.len() ==> FIRST_CHILD_COOKIE <= (#[trigger] e[i]).1.1 < next_cookie,
        forall|i: int, j: int| 0 <= i < j < e.len() ==> (#[trigger] e[i]).0 != (#[trigger] e[j]).0
            && e[i].1.1 < e[j].1.1,
    ensures
        e.len() + FIRST_CHILD_COOKIE <= next_cookie,
    decreases e.len(),
{
    if e.len() > 0 {
        let f = e.drop_last();
        let last = e.last().1.1;
        assert(e.last() == e[e.len() - 1]);
        assert(last < next_cookie);
        assert forall|i: int| 0 <= i < f.len() implies FIRST_CHILD_COOKIE <= (#[trigger] f[i]).1.1 < last by {
            assert(f[i] == e[i]);
            assert(e[i].1.1 < e[e.len() - 1].1.1);
        }
        assert forall|i: int, j: int| 0 <= i < j < f.len() implies (#[trigger] f[i]).0 != (#[trigger] f[j]).0
            && f[i].1.1 < f[j].1.1 by {
            assert(f[i] == e[i]);
            assert(f[j] == e[j]);
        }
        lemma_entries_len(f, last as nat);
    }
}

/// A child found by name is a live, non-root inode that records the directory
/// as its parent and the name as its own.
pub proof fn lemma_child_facts(v: TableView, p: u64, n: Seq<char>, i: u64)
    requires
        table_wf(v),
        has_child(v, p, n, i),
    ensures
        v.nodes.contains_key(i),
        i != ROOT_INO,
        v.nodes[i].name == n,
        v.nodes[i].parent == p,
{
    let j = choose|j: int|
        0 <= j < v.nodes[p].entries.len() && (#[trigger] v.nodes[p].entries[j]).0 == n
            && v.nodes[p].entries[j].1.0 == i;
    assert(node_ok(v, p));
    if !v.nodes[p].is_dir {
        assert(v.nodes[p].entries.len() == 0);
    }
    assert(dir_ok(v, p));
    assert(v.nodes.contains_key(v.nodes[p].entries[j].1.0));
}

/// Every inode but the root is found by its name in its parent.
pub proof fn lemma_linked_child(v: TableView, i: u64)
    requires
        table_wf(v),
        v.nodes.contains_key(i),
        i != ROOT_INO,
    ensures
        has_child(v, v.nodes[i].parent, v.nodes[i].name, i),
{
    assert(node_ok(v, i));
    assert(linked(v, i));
    let p = v.nodes[i].parent;
    let j = choose|j: int|
        0 <= j < v.nodes[p].entries.len() && #[trigger] v.nodes[p].entries[j] == (
            v.nodes[i].name,
            (i, v.nodes[p].entries[j].1.1),
        );
    assert(v.nodes[p].entries[j].0 == v.nodes[i].name);
}

/// Two inodes with the same parent and the same name are one.
pub proof fn lemma_names_distinct(v: TableView, i1: u64, i2: u64)
    requires
        table_wf(v),
        v.nodes.contains_key(i1),
        v.nodes.contains_key(i2),
        i1 != ROOT_INO,
        i2 != ROOT_INO,
        v.nodes[i1].parent == v.nodes[i2].parent,
        v.nodes[i1].name == v.nodes[i2].name,
    ensures
        i1 == i2,
{
    let p = v.nodes[i1].parent;
    assert(node_ok(v, i1));
    assert(node_ok(v, i2));
    assert(linked(v, i1));
    assert(linked(v, i2));
    let e = v.nodes[p].entries;
    let j1 = choose|j: int| 0 <= j < e.len() && #[trigger] e[j] == (v.nodes[i1].name, (i1, e[j].1.1));
    let j2 = choose|j: int| 0 <= j < e.len() && #[trigger] e[j] == (v.nodes[i2].name, (i2, e[j].1.1));
    assert(node_ok(v, p));
    assert(dir_ok(v, p));
    if j1 < j2 {
        assert(e[j1].0 != e[j2].0);
    } else if j2 < j1 {
        assert(e[j2].0 != e[j1].0);
    }
}

proof fn lemma_view_insert(m: Map<u64, NodeInner>, k: u64, v: NodeInner)
    ensures
        view_map(m.insert(k, v)) == view_map(m).insert(k, view_of(v)),
{
    assert(view_map(m.insert(k, v)) =~= view_map(m).insert(k, view_of(v)));
}

proof fn lemma_view_remove(m: Map<u64, NodeInner>, k: u64)
    ensures
        view_map(m.remove(k)) == view_map(m).remove(k),
{
    assert(view_map(m.remove(k)) =~= view_map(m).remove(k));
}

impl NodeTable {
    pub open spec fn wf(&self) -> bool {
        table_wf(self@)
    }

    /// A table that holds the root directory alone. The root gets id 1, the
    /// directory file type and two links; the other attributes are kept.
    pub fn new(root_attr: FileAttr) -> (r: NodeTable)
        ensures
            r.wf(),
            r@.next_ino == 2,
            r@.nodes.dom() == set![ROOT_INO],
            r@.nodes[ROOT_INO] == (NodeView {
                attr: FileAttr {
                    ino: ROOT_INO,
                    mode: (root_attr.mode & !S_IFMT) | S_IFDIR,
                    nlink: 2,
                    ..root_attr
                },
                nlookup: 1,
                parent: ROOT_INO,
                name: Seq::empty(),
                is_dir: true,
                entries: Seq::empty(),
                next_cookie: FIRST_CHILD_COOKIE as nat,
            }),
    {
        let mode = root_attr.mode;
        let attr = FileAttr { ino: ROOT_INO, mode: (mode & !S_IFMT) | S_IFDIR, nlink: 2, ..root_attr };
        assert(((mode & !0o170000u32) | 0o040000u32) & 0o170000u32 == 0o040000u32) by (bit_vector);
        let children = children_new();
        assert(child_entries(children) =~= Seq::empty());
        let root = NodeInner {
            attr,
            nlookup: 1,
            parent: ROOT_INO,
            name: String::new(),
            dir: Some(DirNode { children, next_cookie: FIRST_CHILD_COOKIE }),
        };
        let mut nodes = nodes_new();
        nodes_insert(&mut nodes, ROOT_INO, root);
        let t = NodeTable { nodes, next_ino: 2 };
        proof {
            lemma_view_insert(Map::empty(), ROOT_INO, root);
            assert(t@.nodes =~= Map::<u64, NodeView>::empty().insert(ROOT_INO, view_of(root)));
            assert(t@.nodes.dom() =~= set![ROOT_INO]);
        }
        t
    }

    /// Resolves `name` in directory `parent` and, on success, counts one more
    /// lookup of the child.
    pub fn lookup(&mut self, parent: u64, name: &str) -> (r: Option<Node>)
        requires
            old(self).wf(),
        ensures
            final(self).wf(),
            match r {
                Some(n) => {
                    &&& has_child(old(self)@, parent, name@, n.nodeid)
                    &&& old(self)@.nodes.contains_key(n.nodeid)
                    &&& final(self)@ == (TableView {
                        nodes: old(self)@.nodes.insert(n.nodeid, looked_up(old(self)@.nodes[n.nodeid])),
                        next_ino: old(self)@.next_ino,
                    })
                },
                None => {
                    &&& forall|ino: u64| !has_child(old(self)@, parent, name@, ino)
                    &&& final(self)@ == old(self)@
                },
            },
    {
        let ino = match self.child_of(parent, name) {
            Some(ino) => ino,
            None => return None,
        };
        let ghost before = self@;
        match nodes_remove(&mut self.nodes, ino) {
            Some(n) => {
                let mut n = n;
                if n.nlookup < u64::MAX {
                    n.nlookup = n.nlookup + 1;
                }
                proof {
                    lemma_view_reinsert(node_map(old(self).nodes), ino, n);
                    assert(view_of(n) == looked_up(before.nodes[ino]));
                }
                nodes_insert(&mut self.nodes, ino, n);
                proof {
                    lemma_same_shape_wf(before, self@);
                }
                Some(Node { nodeid: ino })
            },
            None => None,
        }
    }

    /// The id that `name` stands for in directory `parent`; no count changes.
    pub fn child_of(&self, parent: u64, name: &str) -> (r: Option<u64>)
        requires
            self.wf(),
        ensures
            match r {
                Some(ino) => has_child(self@, parent, name@, ino) && self@.nodes.contains_key(ino),
                None => forall|ino: u64| !has_child(self@, parent, name@, ino),
            },
    {
        match nodes_get(&self.nodes, parent) {
            Some(p) => match &p.dir {
                Some(d) => match children_get(&d.children, name) {
                    Some(c) => {
                        proof {
                            let v = self@;
                            assert(v.nodes.contains_key(parent));
                            assert(node_ok(v, parent));
                            assert(dir_ok(v, parent));
                            let i = choose|i: int|
                                0 <= i < v.nodes[parent].entries.len()
                                    && #[trigger] v.nodes[parent].entries[i] == (name@, *c);
                            assert(v.nodes[parent].entries[i].0 == name@);
                        }
                        Some(c.0)
                    },
                    None => {
                        proof {
                            assert forall|ino: u64| !has_child(self@, parent, name@, ino) by {
                                if has_child(self@, parent, name@, ino) {
                                    let i = choose|i: int|
                                        0 <= i < self@.nodes[parent].entries.len()
                                            && (#[trigger] self@.nodes[parent].entries[i]).0 == name@
                                            && self@.nodes[parent].entries[i].1.0 == ino;
                                    assert(child_entries(d.children)[i].0 != name@);
                                }
                            }
                        }
                        None
                    },
                },
                None => None,
            },
            None => None,
        }
    }

    fn forget_one(&mut self, f: Forget)
        requires
            old(self).wf(),
        ensures
            final(self).wf(),
            final(self)@.next_ino == old(self)@.next_ino,
            final(self)@.nodes.dom() == old(self)@.nodes.dom(),
            forall|k: u64| #[trigger] old(self)@.nodes.contains_key(k) ==> final(self)@.nodes[k] == (NodeView {
                nlookup: if k == f.ino { sat_sub(old(self)@.nodes[k].nlookup, f.nlookup as nat) } else { old(self)@.nodes[k].nlookup },
                ..old(self)@.nodes[k]
            }),
    {
        let ghost before = self@;
        let ghost m0 = node_map(self.nodes);
        match nodes_remove(&mut self.nodes, f.ino) {
            Some(n) => {
                let mut n = n;
                n.nlookup = if n.nlookup >= f.nlookup { n.nlookup - f.nlookup } else { 0 };
                proof {
                    lemma_view_reinsert(m0, f.ino, n);
                }
                nodes_insert(&mut self.nodes, f.ino, n);
                proof {
                    assert(self@.nodes.dom() =~= before.nodes.dom());
                }
            },
            None => {
                assert(node_map(self.nodes) =~= m0);
            },
        }
        proof {
            assert(same_shape(before, self@));
            lemma_same_shape_wf(before, self@);
        }
    }

    /// Drops the counts that the notices name, each held at zero. Notices for
    /// inodes that the table no longer holds are ignored.
    pub fn forget(&mut self, forgets: &[Forget])
        requires
            old(self).wf(),
        ensures
            final(self).wf(),
            final(self)@.next_ino == old(self)@.next_ino,
            final(self)@.nodes.dom() == old(self)@.nodes.dom(),
            forall|k: u64| #[trigger] old(self)@.nodes.contains_key(k) ==> final(self)@.nodes[k] == (NodeView {
                nlookup: sat_sub(old(self)@.nodes[k].nlookup, forgotten(forgets@, k)),
                ..old(self)@.nodes[k]
            }),
    {
        let ghost start = self@;
        let mut i: usize = 0;
        while i < forgets.len()
            invariant
                i <= forgets@.len(),
                self.wf(),
                self@.next_ino == start.next_ino,
                self@.nodes.dom() == start.nodes.dom(),
                forall|k: u64| #[trigger] start.nodes.contains_key(k) ==> self@.nodes[k] == (NodeView {
                    nlookup: sat_sub(start.nodes[k].nlookup, forgotten(forgets@.take(i as int), k)),
                    ..start.nodes[k]
                }),
            decreases forgets@.len() - i,
        {
            let f = forgets[i];
            proof {
                assert(forgets@.take(i as int + 1).drop_last() =~= forgets@.take(i as int));
                assert(forgets@.take(i as int + 1).last() == f);
            }
            self.forget_one(f);
            i = i + 1;
        }
        proof {
            assert(forgets@.take(forgets@.len() as int) =~= forgets@);
        }
    }

    /// Adds a child `name` of kind directory or regular file to directory
    /// `parent`, with a fresh id, the directory's next cookie and no lookups.
    pub fn new_node(&mut self, parent: u64, name: String, attr: FileAttr) -> (r: Result<Node, FsError>)
        requires
            old(self).wf(),
            old(self)@.next_ino + 1 < u64::MAX,
        ensures
            final(self).wf(),
            r == new_node_result(old(self)@, parent, name@, attr),
            r is Ok ==> final(self)@ == allocated(old(self)@, parent, name@, attr),
            r is Err ==> final(self)@ == old(self)@,
    {
        match nodes_get(&self.nodes, parent) {
            None => return Err(FsError::NotFound),
            Some(p) => match &p.dir {
                None => return Err(FsError::NotADirectory),
                Some(_) => {},
            },
        }
        match self.child_of(parent, name.as_str()) {
            Some(_) => return Err(FsError::AlreadyExists),
            None => {},
        }
        if !(attr.is_dir() || attr.is_file()) {
            return Err(FsError::Unsupported);
        }
        let ghost v0 = self@;
        let ghost m0 = node_map(self.nodes);
        let ino = self.next_ino;
        let p = match nodes_remove(&mut self.nodes, parent) {
            Some(p) => p,
            None => {
                proof {
                    assert(false);
                }
                return Err(FsError::NotFound);
            },
        };
        let NodeInner { attr: pattr, nlookup: pnlookup, parent: pparent, name: pname, dir } = p;
        let mut d = match dir {
            Some(d) => d,
            None => {
                proof {
                    assert(false);
                }
                return Err(FsError::NotADirectory);
            },
        };
        proof {
            assert(v0.nodes.contains_key(parent));
            assert(node_ok(v0, parent));
            assert(dir_ok(v0, parent));
        }
        let cookie = d.next_cookie;
        let ghost e0 = child_entries(d.children);
        proof {
            assert forall|i: int| 0 <= i < e0.len() implies (#[trigger] e0[i]).0 != name@ by {
                if e0[i].0 == name@ {
                    assert(has_child(v0, parent, name@, e0[i].1.0));
                }
            }
        }
        children_insert(&mut d.children, name.clone(), (ino, cookie));
        d.next_cookie = cookie + 1;
        let children = children_new();
        proof {
            assert(child_entries(children) =~= Seq::empty());
        }
        let is_dir = attr.is_dir();
        let child = NodeInner {
            attr: FileAttr { ino, ..attr },
            nlookup: 0,
            parent,
            name,
            dir: if is_dir { Some(DirNode { children, next_cookie: FIRST_CHILD_COOKIE }) } else { None },
        };
        let updated = NodeInner { attr: pattr, nlookup: pnlookup, parent: pparent, name: pname, dir: Some(d) };
        proof {
            assert(view_of(child) == fresh_node(ino, parent, name@, attr));
            assert(view_of(updated) == (NodeView {
                entries: v0.nodes[parent].entries.push((name@, (ino, v0.nodes[parent].next_cookie as u64))),
                next_cookie: v0.nodes[parent].next_cookie + 1,
                ..v0.nodes[parent]
            }));
            assert(!m0.contains_key(ino)) by {
                if m0.contains_key(ino) {
                    assert(v0.nodes.contains_key(ino));
                    assert(node_ok(v0, ino));
                }
            }
            assert(m0.remove(parent).insert(ino, child).insert(parent, updated) =~= m0.insert(ino, child).insert(parent, updated));
            lemma_view_insert(m0, ino, child);
            lemma_view_insert(m0.insert(ino, child), parent, updated);
        }
        nodes_insert(&mut self.nodes, ino, child);
        nodes_insert(&mut self.nodes, parent, updated);
        self.next_ino = ino + 1;
        proof {
            assert(self@ == allocated(v0, parent, name@, attr));
            lemma_allocated_wf(v0, parent, name@, attr);
        }
        Ok(Node { nodeid: ino })
    }

    /// Unlinks inode `ino` from its parent and drops its record, whatever its
    /// lookup count. The root cannot be removed, nor a directory that still
    /// has children.
    pub fn remove_node(&mut self, ino: u64) -> (r: Result<(), FsError>)
        requires
            old(self).wf(),
        ensures
            final(self).wf(),
            r == remove_result(old(self)@, ino),
            r is Ok ==> final(self)@ == removed(old(self)@, ino),
            r is Err ==> final(self)@ == old(self)@,
    {
        let ghost v0 = self@;
        let ghost m0 = node_map(self.nodes);
        if ino == ROOT_INO {
            return match nodes_get(&self.nodes, ino) {
                Some(_) => Err(FsError::PermissionDenied),
                None => Err(FsError::NotFound),
            };
        }
        match nodes_get(&self.nodes, ino) {
            None => return Err(FsError::NotFound),
            Some(n) => match &n.dir {
                Some(d) => {
                    if children_len(&d.children) > 0 {
                        return Err(FsError::NotEmpty);
                    }
                },
                None => {},
            },
        }
        let n = match nodes_remove(&mut self.nodes, ino) {
            Some(n) => n,
            None => {
                proof {
                    assert(false);
                }
                return Err(FsError::NotFound);
            },
        };
        proof {
            assert(v0.nodes.contains_key(ino));
            assert(node_ok(v0, ino));
            assert(linked(v0, ino));
        }
        let ghost m1 = node_map(self.nodes);
        let pa = n.parent;
        let p = match nodes_remove(&mut self.nodes, pa) {
            Some(p) => p,
            None => {
                proof {
                    assert(m1.contains_key(pa)) by {
                        if pa == ino {
                            assert(node_ok(v0, ino));
                            let e = v0.nodes[ino].entries;
                            let i = choose|i: int| 0 <= i < e.len() && #[trigger] e[i] == (v0.nodes[ino].name, (ino, e[i].1.1));
                        }
                    }
                    assert(false);
                }
                return Err(FsError::NotFound);
            },
        };
        let NodeInner { attr: pattr, nlookup: pnlookup, parent: pparent, name: pname, dir } = p;
        let mut d = match dir {
            Some(d) => d,
            None => {
                proof {
                    assert(false);
                }
                return Err(FsError::NotFound);
            },
        };
        let ghost e0 = child_entries(d.children);
        let gone = children_remove(&mut d.children, n.name.as_str());
        let updated = NodeInner { attr: pattr, nlookup: pnlookup, parent: pparent, name: pname, dir: Some(d) };
        proof {
            lemma_removed_wf(v0, ino);
            let pe = v0.nodes[pa].entries;
            assert(e0 == pe);
            let ci = choose|i: int| 0 <= i < pe.len() && #[trigger] pe[i] == (v0.nodes[ino].name, (ino, pe[i].1.1));
            assert(pe[ci].0 == n.name@);
            assert(gone is Some);
            let gi = choose|i: int| 0 <= i < e0.len() && #[trigger] e0[i] == (n.name@, gone->Some_0)
                && child_entries(d.children) == e0.remove(i);
            assert(node_ok(v0, pa));
            assert(dir_ok(v0, pa));
            assert(gi == ci);
            let x = child_index(pe, ino);
            assert(pe[x].1.0 == ino);
            assert(pe[x].0 == n.name@);
            assert(x == ci);
            assert(m0.remove(ino).remove(pa).insert(pa, updated) =~= m0.remove(ino).insert(pa, updated));
            lemma_view_remove(m0, ino);
            lemma_view_insert(m0.remove(ino), pa, updated);
        }
        nodes_insert(&mut self.nodes, pa, updated);
        proof {
            assert(self@ =~= removed(v0, ino));
        }
        Ok(())
    }

    /// The entry at position `k` of the listing of directory `ino`, whose
    /// record is `n`.
    fn entry_at(&self, ino: u64, n: &NodeInner, k: u64) -> (r: DirEntry)
        requires
            self.wf(),
            node_map(self.nodes).contains_key(ino),
            node_map(self.nodes)[ino] == *n,
            n.dir is Some,
            k < listing(self@, ino).len(),
        ensures
            r@ == listing(self@, ino)[k as int],
    {
        let ghost v = self@;
        proof {
            assert(v.nodes.contains_key(ino));
            assert(v.nodes[ino] == view_of(*n));
        }
        if k == 0 {
            let name = String::from_str(".");
            proof {
                reveal_strlit(".");
                assert(name@ =~= seq!['.']);
            }
            DirEntry { name, ino, offset: 1, typ: DT_DIR }
        } else if k == 1 {
            let name = String::from_str("..");
            proof {
                reveal_strlit("..");
                assert(name@ =~= seq!['.', '.']);
            }
            DirEntry { name, ino: n.parent, offset: 2, typ: DT_DIR }
        } else {
            let d = match &n.dir {
                Some(d) => d,
                None => {
                    proof {
                        assert(false);
                    }
                    return DirEntry { name: String::new(), ino, offset: 0, typ: 0 };
                },
            };
            proof {
                assert(node_ok(v, ino));
                assert(dir_ok(v, ino));
                lemma_entries_len(v.nodes[ino].entries, v.nodes[ino].next_cookie);
            }
            let count = children_len(&d.children);
            assert(k - 2 < count);
            match children_get_index(&d.children, (k - 2) as usize) {
                Some((name, c)) => {
                    let cino = c.0;
                    proof {
                        let e = v.nodes[ino].entries;
                        assert(e[k - 2] == (name@, *c));
                        assert(v.nodes.contains_key(e[k - 2].1.0));
                        assert(listing(v, ino)[k as int] == DirEntryView {
                            name: e[k - 2].0,
                            ino: e[k - 2].1.0,
                            offset: e[k - 2].1.1,
                            typ: dirent_type(v.nodes[e[k - 2].1.0].attr.mode),
                        });
                    }
                    let typ = match nodes_get(&self.nodes, cino) {
                        Some(cn) => cn.attr.dirent_type(),
                        None => {
                            proof {
                                assert(false);
                            }
                            0
                        },
                    };
                    DirEntry { name: name.clone(), ino: cino, offset: c.1, typ }
                },
                None => {
                    proof {
                        assert(false);
                    }
                    DirEntry { name: String::new(), ino, offset: 0, typ: 0 }
                },
            }
        }
    }

    /// One page of the listing of directory `ino`: the entries after cookie
    /// `offset`, as many as fit in `size` bytes when encoded.
    pub fn read_dir(&self, ino: u64, offset: u64, size: usize) -> (r: Result<Vec<DirEntry>, FsError>)
        requires
            self.wf(),
        ensures
            match r {
                Ok(es) => {
                    &&& self@.nodes.contains_key(ino)
                    &&& self@.nodes[ino].is_dir
                    &&& es@.map_values(|e: DirEntry| e@) == dir_page(listing(self@, ino), offset, size as nat)
                    &&& after(listing(self@, ino), offset).len() > 0 && entry_size(after(listing(self@, ino), offset)[0])
                        <= size ==> es@.len() > 0
                },
                Err(e) => e == (if !self@.nodes.contains_key(ino) {
                    FsError::NotFound
                } else {
                    FsError::NotADirectory
                }) && !(self@.nodes.contains_key(ino) && self@.nodes[ino].is_dir),
            },
    {
        let n = match nodes_get(&self.nodes, ino) {
            None => return Err(FsError::NotFound),
            Some(n) => n,
        };
        let count = match &n.dir {
            None => return Err(FsError::NotADirectory),
            Some(d) => children_len(&d.children),
        };
        let ghost s = listing(self@, ino);
        proof {
            assert(self@.nodes.contains_key(ino));
            assert(self@.nodes[ino] == view_of(*n));
            assert(node_ok(self@, ino));
            assert(dir_ok(self@, ino));
            lemma_entries_len(self@.nodes[ino].entries, self@.nodes[ino].next_cookie);
        }
        let count = count as u64;
        let mut k: u64 = 0;
        loop
            invariant
                self.wf(),
                node_map(self.nodes).contains_key(ino),
                node_map(self.nodes)[ino] == *n,
                n.dir is Some,
                s == listing(self@, ino),
                s.len() == count + 2,
                count + 2 <= u64::MAX,
                k <= s.len(),
                forall|j: int| 0 <= j < k ==> (#[trigger] s[j]).offset <= offset,
            ensures
                k <= s.len(),
                forall|j: int| 0 <= j < k ==> (#[trigger] s[j]).offset <= offset,
                k == s.len() || s[k as int].offset > offset,
            decreases s.len() - k,
        {
            if !(k < 2 || k - 2 < count) {
                break;
            }
            let e = self.entry_at(ino, n, k);
            if e.offset > offset {
                break;
            }
            k = k + 1;
        }
        proof {
            lemma_after_skip(s, offset, k as int);
            lemma_fit_prefix(s.skip(k as int), size as nat);
        }
        let ghost k0 = k as int;
        let mut out: Vec<DirEntry> = Vec::new();
        let mut total: u128 = 0;
        proof {
            assert(out@.map_values(|e: DirEntry| e@) + fit(s.skip(k as int), size as nat)
                =~= fit(s.skip(k0), size as nat));
        }
        loop
            invariant
                self.wf(),
                node_map(self.nodes).contains_key(ino),
                node_map(self.nodes)[ino] == *n,
                n.dir is Some,
                s == listing(self@, ino),
                s.len() == count + 2,
                count + 2 <= u64::MAX,
                k0 <= k <= s.len(),
                total <= size,
                fit(s.skip(k0), size as nat) == out@.map_values(|e: DirEntry| e@) + fit(
                    s.skip(k as int),
                    (size - total) as nat,
                ),
            ensures
                fit(s.skip(k0), size as nat) == out@.map_values(|e: DirEntry| e@),
            decreases s.len() - k,
        {
            if !(k < 2 || k - 2 < count) {
                proof {
                    assert(s.skip(k as int).len() == 0);
                    assert(out@.map_values(|e: DirEntry| e@) + fit(s.skip(k as int), (size - total) as nat)
                        =~= out@.map_values(|e: DirEntry| e@));
                }
                break;
            }
            let e = self.entry_at(ino, n, k);
            let len = e.name.as_str().len() as u128;
            let sz: u128 = (24 + len + 7) / 8 * 8;
            let ghost rest = s.skip(k as int);
            proof {
                assert(rest[0] == s[k as int]);
                assert(sz == entry_size(rest[0]));
            }
            if total + sz > size as u128 {
                proof {
                    assert(fit(rest, (size - total) as nat) =~= Seq::<DirEntryView>::empty());
                    assert(out@.map_values(|e: DirEntry| e@) + fit(rest, (size - total) as nat)
                        =~= out@.map_values(|e: DirEntry| e@));
                }
                break;
            }
            let ghost before = out@.map_values(|e: DirEntry| e@);
            let ghost e_view = e@;
            out.push(e);
            total = total + sz;
            k = k + 1;
            proof {
                assert(rest.drop_first() =~= s.skip(k as int));
                assert(out@.map_values(|e: DirEntry| e@) =~= before.push(e_view));
                assert(fit(rest, (size - (total - sz)) as nat) == seq![rest[0]] + fit(s.skip(k as int), (size - total) as nat));
                assert(before + fit(rest, (size - (total - sz)) as nat) =~= out@.map_values(|e: DirEntry| e@) + fit(s.skip(k as int), (size - total) as nat));
            }
        }
        Ok(out)
    }

    /// The children of directory `d` as (name, id), in the directory's order.
    pub fn children(&self, d: u64) -> (r: Vec<(String, u64)>)
        requires
            self.wf(),
        ensures
            self@.nodes.contains_key(d) ==> r@.len() == self@.nodes[d].entries.len() && forall|m: int|
                0 <= m < r@.len() ==> (#[trigger] r@[m]).0@ == self@.nodes[d].entries[m].0
                    && r@[m].1 == self@.nodes[d].entries[m].1.0,
            !self@.nodes.contains_key(d) ==> r@.len() == 0,
    {
        let mut out: Vec<(String, u64)> = Vec::new();
        let n = match nodes_get(&self.nodes, d) {
            Some(n) => n,
            None => return out,
        };
        let dn = match &n.dir {
            Some(dn) => dn,
            None => {
                proof {
                    assert(self@.nodes[d] == view_of(*n));
                }
                return out;
            },
        };
        let ghost e = child_entries(dn.children);
        proof {
            assert(self@.nodes[d] == view_of(*n));
        }
        let count = children_len(&dn.children);
        let mut m: usize = 0;
        while m < count
            invariant
                count == e.len(),
                e == self@.nodes[d].entries,
                e == child_entries(dn.children),
                m <= count,
                out@.len() == m,
                forall|q: int| 0 <= q < m ==> (#[trigger] out@[q]).0@ == e[q].0 && out@[q].1 == e[q].1.0,
            decreases count - m,
        {
            match children_get_index(&dn.children, m) {
                Some((name, c)) => {
                    out.push((name.clone(), c.0));
                },
                None => {
                    proof {
                        assert(false);
                    }
                },
            }
            m = m + 1;
        }
        out
    }

    /// A handle of the root directory.
    pub fn root_node(&self) -> (r: Node)
        ensures
            r.nodeid == ROOT_INO,
    {
        Node { nodeid: ROOT_INO }
    }

    /// A handle of inode `ino`, if the table holds it. The lookup count is
    /// left alone.
    pub fn get_node(&self, ino: u64) -> (r: Option<Node>)
        ensures
            r == (if self@.nodes.contains_key(ino) { Some(Node { nodeid: ino }) } else { None }),
    {
        match nodes_get(&self.nodes, ino) {
            Some(_) => Some(Node { nodeid: ino }),
            None => None,
        }
    }
}

impl Node {
    /// The id of the inode that this handle stands for.
    pub fn nodeid(&self) -> (r: u64)
        ensures
            r == self.nodeid,
    {
        self.nodeid
    }

    /// Stores `attr` as the inode's attributes, keeping its id and file type.
    /// The root's attributes cannot be changed this way.
    pub fn set_attr(&self, table: &mut NodeTable, attr: FileAttr) -> (r: Result<(), FsError>)
        requires
            old(table).wf(),
        ensures
            final(table).wf(),
            r == (if !old(table)@.nodes.contains_key(self.nodeid) {
                Err::<(), FsError>(FsError::NotFound)
            } else if self.nodeid == ROOT_INO {
                Err(FsError::PermissionDenied)
            } else {
                Ok(())
            }),
            r is Ok ==> final(table)@ == (TableView {
                nodes: old(table)@.nodes.insert(
                    self.nodeid,
                    NodeView { attr: merged_attr(old(table)@.nodes[self.nodeid].attr, attr), ..old(table)@.nodes[self.nodeid] },
                ),
                next_ino: old(table)@.next_ino,
            }),
            r is Err ==> final(table)@ == old(table)@,
    {
        let ino = self.nodeid;
        let ghost v0 = table@;
        let ghost m0 = node_map(table.nodes);
        let n = match nodes_remove(&mut table.nodes, ino) {
            None => {
                proof {
                    assert(node_map(table.nodes) =~= m0);
                }
                return Err(FsError::NotFound);
            },
            Some(n) => n,
        };
        if ino == ROOT_INO {
            proof {
                lemma_view_reinsert(m0, ino, n);
                assert(m0.insert(ino, n) =~= m0);
            }
            nodes_insert(&mut table.nodes, ino, n);
            proof {
                assert(node_map(table.nodes) =~= m0);
            }
            return Err(FsError::PermissionDenied);
        }
        let mut n = n;
        let om = n.attr.mode;
        let nm = attr.mode;
        n.attr = FileAttr { ino: n.attr.ino, mode: (om & S_IFMT) | (nm & !S_IFMT), ..attr };
        proof {
            assert(((om & 0o170000u32) | (nm & !0o170000u32)) & 0o170000u32 == om & 0o170000u32) by (bit_vector);
            lemma_view_reinsert(m0, ino, n);
        }
        nodes_insert(&mut table.nodes, ino, n);
        proof {
            assert(v0.nodes.contains_key(ino));
            assert(node_ok(v0, ino));
            assert(same_shape(v0, table@));
            lemma_same_shape_wf(v0, table@);
        }
        Ok(())
    }

    /// Adds a child to the directory that this handle stands for.
    pub fn new_child(&self, table: &mut NodeTable, name: String, attr: FileAttr) -> (r: Result<Node, FsError>)
        requires
            old(table).wf(),
            old(table)@.next_ino + 1 < u64::MAX,
        ensures
            final(table).wf(),
            r == new_node_result(old(table)@, self.nodeid, name@, attr),
            r is Ok ==> final(table)@ == allocated(old(table)@, self.nodeid, name@, attr),
            r is Err ==> final(table)@ == old(table)@,
    {
        table.new_node(self.nodeid, name, attr)
    }

    /// Removes the inode that this handle stands for.
    pub fn remove(&self, table: &mut NodeTable) -> (r: Result<(), FsError>)
        requires
            old(table).wf(),
        ensures
            final(table).wf(),
            r == remove_result(old(table)@, self.nodeid),
            r is Ok ==> final(table)@ == removed(old(table)@, self.nodeid),
            r is Err ==> final(table)@ == old(table)@,
    {
        table.remove_node(self.nodeid)
    }

    /// One page of the listing of the directory that this handle stands for.
    pub fn readdir(&self, table: &NodeTable, offset: u64, size: usize) -> (r: Result<Vec<DirEntry>, FsError>)
        requires
            table.wf(),
        ensures
            match r {
                Ok(es) => {
                    &&& table@.nodes.contains_key(self.nodeid)
                    &&& table@.nodes[self.nodeid].is_dir
                    &&& es@.map_values(|e: DirEntry| e@) == dir_page(listing(table@, self.nodeid), offset, size as nat)
                },
                Err(e) => e == (if !table@.nodes.contains_key(self.nodeid) {
                    FsError::NotFound
                } else {
                    FsError::NotADirectory
                }) && !(table@.nodes.contains_key(self.nodeid) && table@.nodes[self.nodeid].is_dir),
            },
    {
        table.read_dir(self.nodeid, offset, size)
    }

    /// The attributes of the inode, or `NotFound` once it has been removed.
    pub fn attr(&self, table: &NodeTable) -> (r: Result<FileAttr, FsError>)
        ensures
            r == (if table@.nodes.contains_key(self.nodeid) {
                Ok::<FileAttr, FsError>(table@.nodes[self.nodeid].attr)
            } else {
                Err(FsError::NotFound)
            }),
    {
        match nodes_get(&table.nodes, self.nodeid) {
            Some(n) => Ok(n.attr),
            None => Err(FsError::NotFound),
        }
    }
}

} // verus!
