//! A gist as a filesystem: its files under the root directory, kept in step
//! with the remote gist, and the handlers of the kernel's requests.

use std::collections::HashMap;
use vstd::prelude::*;
use vstd::utf8::encode_utf8;
use crate::attr::{FileAttr, Timestamp, S_IFDIR, S_IFREG, is_dir_mode, is_file_mode, time_le, time_plus};
use crate::client::{Client, ClientError, ETag, Gist, GistFile, same_text};
use crate::content;
use crate::content::{read_spec, resize_spec, write_spec};
use crate::error::FsError;
use crate::node::{
    Forget, Node, NodeTable, NodeView, TableView, DirEntry, ROOT_INO, dir_page, forgotten, has_child,
    listing, looked_up, merged_attr, sat_sub, table_wf, lemma_child_facts, lemma_linked_child,
};

verus! {

broadcast use vstd::std_specs::hash::group_hash_axioms;

/// How long a fetched revision is trusted before the next directory open
/// asks the server again, in seconds.
pub const DEFAULT_CACHE_PERIOD: i64 = 300;

/// The permission bits of the root directory.
pub const ROOT_PERM: u32 = 0o555;

/// The permission bits of a file of the gist.
pub const FILE_PERM: u32 = 0o444;

/// What a directory open decides about the cached gist.
#[derive(Debug)]
pub enum Refresh {
    /// The cache has not expired: nothing to fetch.
    Fresh,
    /// The cache has expired: fetch the gist, sending this revision tag.
    Fetch(Option<ETag>),
}

/// What opening a file needs.
#[derive(Debug)]
pub enum OpenStep {
    /// The content is there.
    Ready,
    /// The text sent was cut short: fetch the full text from this address,
    /// then hand it to `rehydrate`.
    Fetch(String),
}

/// What a conditional fetch brought back.
#[derive(Debug)]
pub enum FetchOutcome {
    /// The revision sent is still current.
    NotModified,
    /// A new revision and its tag.
    Modified(Gist, Option<ETag>),
}

/// The filesystem.
pub struct GistFs {
    pub client: Client,
    pub gist_id: String,
    pub cache_period: i64,
    pub uid: u32,
    pub gid: u32,
    pub table: NodeTable,
    /// The content of each file by inode; `None` while it waits to be
    /// fetched in full.
    pub files: HashMap<u64, Option<Vec<u8>>>,
    /// Where the full text of each file can be fetched.
    pub raw_urls: HashMap<u64, String>,
    pub etag: Option<ETag>,
    pub expired: Timestamp,
}

/// The content that a file of the gist gets: its text, or nothing while the
/// text sent is cut short.
pub open spec fn content_of(f: GistFile) -> Option<Seq<u8>> {
    if f.truncated { None } else { Some(encode_utf8(f.content@)) }
}

pub open spec fn opt_view(c: Option<Vec<u8>>) -> Option<Seq<u8>> {
    match c {
        Some(v) => Some(v@),
        None => None,
    }
}

/// The bytes of a file's content; a file whose content is not there yet
/// reads as empty.
pub open spec fn bytes_of(c: Option<Vec<u8>>) -> Seq<u8> {
    match c {
        Some(v) => v@,
        None => Seq::empty(),
    }
}

/// No two files of the snapshot share a name.
pub open spec fn names_distinct(files: Seq<GistFile>) -> bool {
    forall|a: int, b: int|
        0 <= a < b < files.len() ==> (#[trigger] files[a]).filename@ != (#[trigger] files[b]).filename@
}

/// The snapshot holds a file named `n`.
pub open spec fn in_remote(files: Seq<GistFile>, n: Seq<char>) -> bool {
    exists|j: int| 0 <= j < files.len() && (#[trigger] files[j]).filename@ == n
}

/// Inode `i` is the file `f` of a snapshot taken at `ctime`/`mtime`: a file
/// of the root under `f`'s name, with its size, times and content.
pub open spec fn applied(
    t: TableView,
    files: Map<u64, Option<Vec<u8>>>,
    f: GistFile,
    i: u64,
    ctime: Timestamp,
    mtime: Timestamp,
) -> bool {
    &&& t.nodes.contains_key(i)
    &&& i != ROOT_INO
    &&& t.nodes[i].name == f.filename@
    &&& t.nodes[i].attr.size == f.size
    &&& t.nodes[i].attr.mtime == mtime
    &&& t.nodes[i].attr.ctime == ctime
    &&& files.contains_key(i)
    &&& opt_view(files[i]) == content_of(f)
}

/// Some inode is the file `f` of the snapshot.
pub open spec fn stands(
    t: TableView,
    files: Map<u64, Option<Vec<u8>>>,
    f: GistFile,
    ctime: Timestamp,
    mtime: Timestamp,
) -> bool {
    exists|i: u64| applied(t, files, f, i, ctime, mtime)
}

/// A kept file keeps its id, type, permissions, links, owner and access
/// time; only size and times follow the snapshot.
pub open spec fn kept_attr(o: FileAttr, n: FileAttr) -> bool {
    &&& n.ino == o.ino
    &&& n.mode == o.mode
    &&& n.nlink == o.nlink
    &&& n.uid == o.uid
    &&& n.gid == o.gid
    &&& n.atime == o.atime
}

/// A file made for a snapshot is a read-only regular file with one link,
/// owned like the filesystem.
pub open spec fn new_file_attr(a: FileAttr, uid: u32, gid: u32) -> bool {
    &&& a.mode == S_IFREG | FILE_PERM
    &&& a.nlink == 1
    &&& a.uid == uid
    &&& a.gid == gid
}

/// `b` is `a` brought in step with snapshot `remote`, taken at
/// `ctime`/`mtime`: each file of the snapshot stands under its name; a local
/// file whose name the snapshot holds keeps its inode, lookup count and
/// attributes other than size and times; one
/// whose name it lacks is gone with its content; every file left bears a
/// name of the snapshot, and one that is new has an id never handed out
/// before and the attributes of a new read-only file.
pub open spec fn reconciled(a: GistFs, b: GistFs, remote: Seq<GistFile>, ctime: Timestamp, mtime: Timestamp) -> bool {
    &&& a.table@.next_ino <= b.table@.next_ino <= a.table@.next_ino + remote.len()
    &&& forall|j: int| 0 <= j < remote.len() ==> stands(b.table@, b.files@, #[trigger] remote[j], ctime, mtime)
    &&& forall|i: u64|
        #[trigger] a.table@.nodes.contains_key(i) && i != ROOT_INO ==> if in_remote(remote, a.table@.nodes[i].name) {
            &&& b.table@.nodes.contains_key(i)
            &&& b.table@.nodes[i].name == a.table@.nodes[i].name
            &&& b.table@.nodes[i].nlookup == a.table@.nodes[i].nlookup
        } else {
            !b.table@.nodes.contains_key(i) && !b.files@.contains_key(i)
        }
    &&& forall|i: u64|
        #[trigger] b.table@.nodes.contains_key(i) && i != ROOT_INO ==> in_remote(remote, b.table@.nodes[i].name)
            && (!a.table@.nodes.contains_key(i) ==> i >= a.table@.next_ino)
    &&& forall|i: u64|
        #[trigger] b.table@.nodes.contains_key(i) && i != ROOT_INO ==> if a.table@.nodes.contains_key(i) {
            kept_attr(a.table@.nodes[i].attr, b.table@.nodes[i].attr)
        } else {
            new_file_attr(b.table@.nodes[i].attr, a.uid, a.gid)
        }
}

/// The two filesystems have the same settings and revision state.
pub open spec fn same_settings(a: GistFs, b: GistFs) -> bool {
    &&& a.client == b.client
    &&& a.gist_id == b.gist_id
    &&& a.cache_period == b.cache_period
    &&& a.uid == b.uid
    &&& a.gid == b.gid
    &&& a.etag == b.etag
    &&& a.expired == b.expired
}

pub open spec fn etag_view(t: Option<ETag>) -> Option<Seq<u8>> {
    match t {
        Some(e) => Some(e.value@),
        None => None,
    }
}

/// The cached revision is out of date at `now`.
pub open spec fn expired_at(fs: GistFs, now: Timestamp) -> bool {
    !time_le(now, fs.expired)
}

/// A fetch outcome that the filesystem can take in: a new revision's file
/// names are distinct and there are ids enough for them.
pub open spec fn outcome_ok(fs: GistFs, outcome: Result<FetchOutcome, ClientError>) -> bool {
    match outcome {
        Ok(FetchOutcome::Modified(g, _)) => names_distinct(g.files@) && fs.table@.next_ino + g.files@.len() + 1
            < u64::MAX,
        _ => true,
    }
}

/// What taking in `outcome` makes of `a`, the expiry aside: a failed fetch
/// changes nothing; an unchanged revision leaves the files; a new one is
/// reconciled and its tag kept.
pub open spec fn refreshed(a: GistFs, b: GistFs, outcome: Result<FetchOutcome, ClientError>) -> bool {
    match outcome {
        Err(_) => b == a,
        Ok(FetchOutcome::NotModified) => b == GistFs { expired: b.expired, ..a },
        Ok(FetchOutcome::Modified(g, t)) => {
            &&& reconciled(a, b, g.files@, g.created_at, g.updated_at)
            &&& b.etag == t
            &&& b.client == a.client && b.gist_id == a.gist_id && b.cache_period == a.cache_period
            &&& b.uid == a.uid && b.gid == a.gid
        },
    }
}

impl GistFs {
    /// Every inode but the root is a file of the gist listed in the root, and
    /// holds a content slot.
    pub open spec fn wf(&self) -> bool {
        &&& self.table.wf()
        &&& forall|k: u64| #[trigger] self.files@.contains_key(k) <==> (self.table@.nodes.contains_key(k) && k != ROOT_INO)
        &&& forall|k: u64| #[trigger] self.raw_urls@.contains_key(k) <==> self.files@.contains_key(k)
        &&& forall|k: u64| #[trigger] self.table@.nodes.contains_key(k) && k != ROOT_INO ==> !self.table@.nodes[k].is_dir
            && self.table@.nodes[k].parent == ROOT_INO
    }

    /// A filesystem for gist `gist_id` with an empty root owned by `uid` and
    /// `gid`; the first directory open fetches the gist.
    pub fn new(client: Client, gist_id: String, uid: u32, gid: u32) -> (r: GistFs)
        ensures
            r.wf(),
            r.client == client,
            r.gist_id@ == gist_id@,
            r.cache_period == DEFAULT_CACHE_PERIOD,
            r.etag is None,
            r.expired == (Timestamp { secs: i64::MIN, nanos: 0 }),
            r.table@.nodes.dom() == set![ROOT_INO],
            r.table@.next_ino == 2,
            r.table@.nodes[ROOT_INO].attr.mode == S_IFDIR | ROOT_PERM,
            r.table@.nodes[ROOT_INO].attr.uid == uid,
            r.table@.nodes[ROOT_INO].attr.gid == gid,
            r.table@.nodes[ROOT_INO].entries.len() == 0,
    {
        let mut attr = FileAttr::zeroed();
        attr.mode = S_IFDIR | ROOT_PERM;
        attr.uid = uid;
        attr.gid = gid;
        attr.nlink = 2;
        let table = NodeTable::new(attr);
        proof {
            assert((((0o040000u32 | 0o555u32) & !0o170000u32) | 0o040000u32) == (0o040000u32 | 0o555u32)) by (bit_vector);
        }
        let files: HashMap<u64, Option<Vec<u8>>> = HashMap::new();
        let raw_urls: HashMap<u64, String> = HashMap::new();
        GistFs {
            client,
            gist_id,
            cache_period: DEFAULT_CACHE_PERIOD,
            uid,
            gid,
            table,
            files,
            raw_urls,
            etag: None,
            expired: Timestamp::epoch_min(),
        }
    }

    /// The content that file `f` of a snapshot brings: its text's bytes, or
    /// nothing while the text sent is cut short.
    fn content_for(f: &GistFile) -> (r: Option<Vec<u8>>)
        ensures
            opt_view(r) == content_of(*f),
    {
        if f.truncated {
            None
        } else {
            let b = f.content.as_str().as_bytes();
            let v = content::read(b, 0, b.len() as u64);
            proof {
                assert(b@.subrange(0, b@.len() as int) =~= b@);
            }
            Some(v)
        }
    }

    /// Brings one file of a snapshot in: the local file of that name gets
    /// the snapshot's size, times and content, or a new file is made under
    /// the root. Returns the file's inode.
    fn apply_file(&mut self, f: &GistFile, ctime: Timestamp, mtime: Timestamp) -> (r: u64)
        requires
            old(self).wf(),
            old(self).table@.next_ino + 1 < u64::MAX,
        ensures
            final(self).wf(),
            same_settings(*final(self), *old(self)),
            applied(final(self).table@, final(self).files@, *f, r, ctime, mtime),
            final(self).raw_urls@.contains_key(r) && final(self).raw_urls@[r]@ == f.raw_url@,
            old(self).table@.nodes.contains_key(r) ==> {
                &&& final(self).table@.nodes.dom() == old(self).table@.nodes.dom()
                &&& final(self).table@.next_ino == old(self).table@.next_ino
                &&& final(self).table@.nodes[r].nlookup == old(self).table@.nodes[r].nlookup
                &&& old(self).table@.nodes[r].name == f.filename@
                &&& final(self).table@.nodes[r].attr == FileAttr {
                    size: f.size,
                    mtime: mtime,
                    ctime: ctime,
                    ..old(self).table@.nodes[r].attr
                }
            },
            !old(self).table@.nodes.contains_key(r) ==> {
                &&& r == old(self).table@.next_ino
                &&& final(self).table@.nodes.dom() == old(self).table@.nodes.dom().insert(r)
                &&& final(self).table@.next_ino == old(self).table@.next_ino + 1
                &&& final(self).table@.nodes[r].attr == FileAttr {
                    ino: r,
                    size: f.size,
                    mode: S_IFREG | FILE_PERM,
                    nlink: 1,
                    uid: old(self).uid,
                    gid: old(self).gid,
                    atime: mtime,
                    mtime: mtime,
                    ctime: ctime,
                }
                &&& forall|k: u64|
                    #[trigger] old(self).table@.nodes.contains_key(k) && k != ROOT_INO
                        ==> old(self).table@.nodes[k].name != f.filename@
            },
            forall|k: u64|
                #[trigger] old(self).table@.nodes.contains_key(k) && k != ROOT_INO && k != r
                    ==> final(self).table@.nodes[k] == old(self).table@.nodes[k]
                    && final(self).files@[k] == old(self).files@[k],
    {
        let c = GistFs::content_for(f);
        let ghost t0 = self.table@;
        let ghost f0 = self.files@;
        match self.table.child_of(ROOT_INO, f.filename.as_str()) {
            Some(ino) => {
                proof {
                    lemma_child_facts(t0, ROOT_INO, f.filename@, ino);
                }
                let node = Node { nodeid: ino };
                let a = match node.attr(&self.table) {
                    Ok(a) => a,
                    Err(_) => {
                        proof {
                            assert(false);
                        }
                        return ino;
                    },
                };
                let na = FileAttr { size: f.size, mtime, ctime, ..a };
                let res = node.set_attr(&mut self.table, na);
                proof {
                    assert(res is Ok);
                    let m = a.mode;
                    assert((m & 0o170000u32) | (m & !0o170000u32) == m) by (bit_vector);
                    assert(merged_attr(a, na) == na);
                    assert(self.table@.nodes.dom() =~= t0.nodes.dom());
                }
                self.files.insert(ino, c);
                self.raw_urls.insert(ino, f.raw_url.clone());
                proof {
                    assert(self.files@.dom() =~= f0.dom());
                }
                ino
            },
            None => {
                let attr = FileAttr {
                    ino: 0,
                    size: f.size,
                    mode: S_IFREG | FILE_PERM,
                    nlink: 1,
                    uid: self.uid,
                    gid: self.gid,
                    atime: mtime,
                    mtime,
                    ctime,
                };
                proof {
                    assert((0o100000u32 | 0o444u32) & 0o170000u32 == 0o100000u32) by (bit_vector);
                    assert(is_file_mode(attr.mode) && !is_dir_mode(attr.mode));
                    assert(t0.nodes.contains_key(ROOT_INO));
                    assert forall|k: u64|
                        #[trigger] t0.nodes.contains_key(k) && k != ROOT_INO implies t0.nodes[k].name != f.filename@ by {
                        lemma_linked_child(t0, k);
                    }
                }
                match self.table.new_node(ROOT_INO, f.filename.clone(), attr) {
                    Ok(node) => {
                        let ino = node.nodeid;
                        proof {
                            assert(!t0.nodes.contains_key(ino)) by {
                                if t0.nodes.contains_key(ino) {
                                    assert(crate::node::node_ok(t0, ino));
                                }
                            }
                            assert(self.table@.nodes.dom() =~= t0.nodes.dom().insert(ino));
                        }
                        self.files.insert(ino, c);
                        self.raw_urls.insert(ino, f.raw_url.clone());
                        ino
                    },
                    Err(_) => {
                        proof {
                            assert(false);
                        }
                        0
                    },
                }
            },
        }
    }

    /// Whether the snapshot holds a file named `name`.
    fn name_in(files: &[GistFile], name: &str) -> (r: bool)
        ensures
            r == in_remote(files@, name@),
    {
        let mut j: usize = 0;
        while j < files.len()
            invariant
                j <= files@.len(),
                forall|q: int| 0 <= q < j ==> (#[trigger] files@[q]).filename@ != name@,
            decreases files@.len() - j,
        {
            if same_text(files[j].filename.as_str(), name) {
                return true;
            }
            j = j + 1;
        }
        false
    }

    /// Brings the files of the root in step with a snapshot of the gist,
    /// matching them by name: a file whose name the snapshot holds keeps its
    /// inode and takes the snapshot's size, times and content; a name new to
    /// the root gets a fresh inode; a file whose name the snapshot lacks is
    /// removed with its content.
    pub fn reconcile(&mut self, remote: &[GistFile], ctime: Timestamp, mtime: Timestamp)
        requires
            old(self).wf(),
            names_distinct(remote@),
            old(self).table@.next_ino + remote@.len() + 1 < u64::MAX,
        ensures
            final(self).wf(),
            same_settings(*final(self), *old(self)),
            reconciled(*old(self), *final(self), remote@, ctime, mtime),
    {
        let ghost v0 = self.table@;
        let ghost s0 = *self;
        let mut idx: usize = 0;
        while idx < remote.len()
            invariant
                self.wf(),
                same_settings(*self, s0),
                names_distinct(remote@),
                idx <= remote@.len(),
                v0.next_ino + remote@.len() + 1 < u64::MAX,
                v0.next_ino <= self.table@.next_ino <= v0.next_ino + idx,
                forall|k: u64|
                    #[trigger] v0.nodes.contains_key(k) ==> self.table@.nodes.contains_key(k) && (k != ROOT_INO
                        ==> self.table@.nodes[k].name == v0.nodes[k].name && self.table@.nodes[k].nlookup
                        == v0.nodes[k].nlookup),
                forall|k: u64|
                    #[trigger] self.table@.nodes.contains_key(k) && k != ROOT_INO && !v0.nodes.contains_key(k)
                        ==> k >= v0.next_ino && exists|j: int|
                        0 <= j < idx && (#[trigger] remote@[j]).filename@ == self.table@.nodes[k].name,
                forall|j: int|
                    0 <= j < idx ==> stands(self.table@, self.files@, remote@[j], ctime, mtime),
                forall|k: u64|
                    #[trigger] self.table@.nodes.contains_key(k) && k != ROOT_INO ==> if v0.nodes.contains_key(k) {
                        kept_attr(v0.nodes[k].attr, self.table@.nodes[k].attr)
                    } else {
                        new_file_attr(self.table@.nodes[k].attr, s0.uid, s0.gid)
                    },
            decreases remote@.len() - idx,
        {
            let ghost t1 = self.table@;
            let ghost f1 = self.files@;
            let f = &remote[idx];
            let r = self.apply_file(f, ctime, mtime);
            proof {
                let t2 = self.table@;
                assert forall|j: int| 0 <= j < idx + 1 implies stands(t2, self.files@, remote@[j], ctime, mtime) by {
                    if j < idx {
                        let i = choose|i: u64| #[trigger] applied(t1, f1, remote@[j], i, ctime, mtime);
                        if i == r {
                            assert(remote@[j].filename@ != remote@[idx as int].filename@);
                            if t1.nodes.contains_key(r) {
                                assert(t1.nodes[r].name == f.filename@);
                            }
                        }
                        assert(applied(t2, self.files@, remote@[j], i, ctime, mtime));
                    } else {
                        assert(applied(t2, self.files@, remote@[j], r, ctime, mtime));
                    }
                }
                assert forall|k: u64|
                    #[trigger] t2.nodes.contains_key(k) && k != ROOT_INO && !v0.nodes.contains_key(k) implies k
                    >= v0.next_ino && exists|j: int|
                    0 <= j < idx + 1 && (#[trigger] remote@[j]).filename@ == t2.nodes[k].name by {
                    if k == r {
                        assert(remote@[idx as int].filename@ == t2.nodes[k].name);
                    } else {
                        assert(t1.nodes.contains_key(k));
                        let j = choose|j: int| 0 <= j < idx && (#[trigger] remote@[j]).filename@ == t1.nodes[k].name;
                        assert(remote@[j].filename@ == t2.nodes[k].name);
                    }
                }
                assert forall|k: u64| #[trigger] t2.nodes.contains_key(k) && k != ROOT_INO implies if v0.nodes.contains_key(k) {
                    kept_attr(v0.nodes[k].attr, t2.nodes[k].attr)
                } else {
                    new_file_attr(t2.nodes[k].attr, s0.uid, s0.gid)
                } by {
                    if k != r {
                        assert(t1.nodes.contains_key(k));
                    } else if t1.nodes.contains_key(k) {
                        assert(t1.nodes[k].attr.mode == t2.nodes[k].attr.mode);
                    }
                }
                assert forall|k: u64| #[trigger] v0.nodes.contains_key(k) implies t2.nodes.contains_key(k) && (k
                    != ROOT_INO ==> t2.nodes[k].name == v0.nodes[k].name && t2.nodes[k].nlookup
                    == v0.nodes[k].nlookup) by {
                    assert(t1.nodes.contains_key(k));
                }
            }
            idx = idx + 1;
        }
        let ghost mid = self.table@;
        let ghost mid_files = self.files@;
        let snap = self.table.children(ROOT_INO);
        let ghost e1 = mid.nodes[ROOT_INO].entries;
        proof {
            assert(crate::node::node_ok(mid, ROOT_INO));
            assert(crate::node::dir_ok(mid, ROOT_INO));
        }
        let ghost mut gone: Set<u64> = Set::empty();
        let mut m: usize = 0;
        while m < snap.len()
            invariant
                self.wf(),
                same_settings(*self, s0),
                table_wf(mid),
                snap@.len() == e1.len(),
                e1 == mid.nodes[ROOT_INO].entries,
                forall|q: int| 0 <= q < snap@.len() ==> (#[trigger] snap@[q]).0@ == e1[q].0 && snap@[q].1 == e1[q].1.0,
                forall|q: int| 0 <= q < e1.len() ==> mid.nodes.contains_key((#[trigger] e1[q]).1.0) && e1[q].1.0 != ROOT_INO
                    && mid.nodes[e1[q].1.0].name == e1[q].0,
                m <= snap@.len(),
                self.table@.next_ino == mid.next_ino,
                self.table@.nodes.dom() == mid.nodes.dom().difference(gone),
                !gone.contains(ROOT_INO),
                forall|k: u64| #[trigger] gone.contains(k) ==> mid.nodes.contains_key(k) && !in_remote(remote@, mid.nodes[k].name),
                forall|q: int| 0 <= q < m && !in_remote(remote@, (#[trigger] e1[q]).0) ==> gone.contains(e1[q].1.0),
                forall|k: u64|
                    #[trigger] self.table@.nodes.contains_key(k) && k != ROOT_INO ==> self.table@.nodes[k] == mid.nodes[k]
                        && self.files@[k] == mid_files[k],
            decreases snap@.len() - m,
        {
            let ino = snap[m].1;
            let keep = GistFs::name_in(remote, snap[m].0.as_str());
            if !keep {
                let ghost t1 = self.table@;
                let res = self.table.remove_node(ino);
                self.files.remove(&ino);
                self.raw_urls.remove(&ino);
                proof {
                    let t2 = self.table@;
                    assert(ino != ROOT_INO);
                    if t1.nodes.contains_key(ino) {
                        assert(!t1.nodes[ino].is_dir);
                        assert(crate::node::node_ok(t1, ino));
                        assert(res is Ok);
                        crate::node::lemma_removed_wf(t1, ino);
                    } else {
                        assert(res is Err);
                    }
                    gone = gone.insert(ino);
                    assert(t2.nodes.dom() =~= mid.nodes.dom().difference(gone));
                    assert forall|k: u64| #[trigger] t2.nodes.contains_key(k) && k != ROOT_INO implies t2.nodes[k]
                        == mid.nodes[k] && self.files@[k] == mid_files[k] by {
                        assert(t1.nodes.contains_key(k));
                    }
                }
            }
            m = m + 1;
        }
        proof {
            let t = self.table@;
            assert forall|j: int| 0 <= j < remote@.len() implies stands(t, self.files@, remote@[j], ctime, mtime) by {
                let i = choose|i: u64| #[trigger] applied(mid, mid_files, remote@[j], i, ctime, mtime);
                assert(in_remote(remote@, mid.nodes[i].name));
                assert(!gone.contains(i));
                assert(t.nodes.contains_key(i));
                assert(applied(t, self.files@, remote@[j], i, ctime, mtime));
            }
            assert forall|i: u64| #[trigger] v0.nodes.contains_key(i) && i != ROOT_INO implies if in_remote(
                remote@,
                v0.nodes[i].name,
            ) {
                t.nodes.contains_key(i) && t.nodes[i].name == v0.nodes[i].name && t.nodes[i].nlookup == v0.nodes[i].nlookup
            } else {
                !t.nodes.contains_key(i) && !self.files@.contains_key(i)
            } by {
                assert(mid.nodes.contains_key(i));
                if in_remote(remote@, v0.nodes[i].name) {
                    assert(!gone.contains(i));
                    assert(t.nodes.contains_key(i));
                } else {
                    lemma_linked_child(mid, i);
                    let q = choose|q: int|
                        0 <= q < e1.len() && (#[trigger] e1[q]).0 == mid.nodes[i].name && e1[q].1.0 == i;
                    assert(gone.contains(e1[q].1.0));
                }
            }
            assert forall|i: u64| #[trigger] t.nodes.contains_key(i) && i != ROOT_INO implies in_remote(
                remote@,
                t.nodes[i].name,
            ) && (!v0.nodes.contains_key(i) ==> i >= v0.next_ino) by {
                assert(mid.nodes.contains_key(i));
                assert(!gone.contains(i));
                if !in_remote(remote@, mid.nodes[i].name) {
                    lemma_linked_child(mid, i);
                    let q = choose|q: int|
                        0 <= q < e1.len() && (#[trigger] e1[q]).0 == mid.nodes[i].name && e1[q].1.0 == i;
                    assert(gone.contains(e1[q].1.0));
                }
            }
        }
    }

    /// Whether a directory opened at `now` must first fetch the gist, and
    /// with which revision tag.
    pub fn begin_refresh_at(&self, now: Timestamp) -> (r: Refresh)
        ensures
            match r {
                Refresh::Fresh => !expired_at(*self, now),
                Refresh::Fetch(t) => expired_at(*self, now) && etag_view(t) == etag_view(self.etag),
            },
    {
        if now.le(&self.expired) {
            Refresh::Fresh
        } else {
            match &self.etag {
                Some(t) => Refresh::Fetch(Some(t.duplicate())),
                None => Refresh::Fetch(None),
            }
        }
    }

    /// Opens directory `ino` at time `now`: decides whether the gist must be
    /// fetched first.
    pub fn do_opendir(&self, ino: u64, now: Timestamp) -> (r: Result<Refresh, FsError>)
        requires
            self.wf(),
        ensures
            match r {
                Ok(Refresh::Fetch(t)) => self.table@.nodes.contains_key(ino) && self.table@.nodes[ino].is_dir
                    && expired_at(*self, now) && etag_view(t) == etag_view(self.etag),
                Ok(Refresh::Fresh) => self.table@.nodes.contains_key(ino) && self.table@.nodes[ino].is_dir
                    && !expired_at(*self, now),
                Err(e) => e == (if !self.table@.nodes.contains_key(ino) {
                    FsError::NotFound
                } else {
                    FsError::NotADirectory
                }) && !(self.table@.nodes.contains_key(ino) && self.table@.nodes[ino].is_dir),
            },
    {
        let node = Node { nodeid: ino };
        match node.attr(&self.table) {
            Err(e) => return Err(e),
            Ok(a) => {
                proof {
                    assert(self.table@.nodes.contains_key(ino));
                    assert(crate::node::node_ok(self.table@, ino));
                }
                if !a.is_dir() {
                    return Err(FsError::NotADirectory);
                }
            },
        }
        Ok(self.begin_refresh_at(now))
    }

    /// Takes in what a fetch brought back at `now`. A failed fetch changes
    /// nothing and reports an I/O error, so the next open tries again; else
    /// the cache is trusted for another period from `now`.
    pub fn complete_refresh_at(&mut self, now: Timestamp, outcome: Result<FetchOutcome, ClientError>) -> (r: Result<(), FsError>)
        requires
            old(self).wf(),
            outcome_ok(*old(self), outcome),
        ensures
            final(self).wf(),
            r == (if outcome is Err { Err::<(), FsError>(FsError::Io) } else { Ok(()) }),
            refreshed(*old(self), *final(self), outcome),
            outcome is Ok ==> final(self).expired == time_plus(now, old(self).cache_period),
    {
        match outcome {
            Err(_) => Err(FsError::Io),
            Ok(FetchOutcome::NotModified) => {
                self.expired = now.plus_secs(self.cache_period);
                Ok(())
            },
            Ok(FetchOutcome::Modified(gist, etag)) => {
                self.reconcile(gist.files.as_slice(), gist.created_at, gist.updated_at);
                self.etag = etag;
                self.expired = now.plus_secs(self.cache_period);
                Ok(())
            },
        }
    }

    /// Changes the modification time and the size of file `ino`; a new size
    /// cuts or zero-extends the content that is there. The root cannot be
    /// changed.
    pub fn do_setattr(&mut self, ino: u64, mtime: Option<Timestamp>, size: Option<u64>) -> (r: Result<FileAttr, FsError>)
        requires
            old(self).wf(),
        ensures
            final(self).wf(),
            r == (if ino == ROOT_INO {
                Err::<FileAttr, FsError>(FsError::PermissionDenied)
            } else if !old(self).table@.nodes.contains_key(ino) {
                Err(FsError::NotFound)
            } else if size is Some && size->Some_0 > usize::MAX {
                Err(FsError::TooLarge)
            } else {
                Ok(final(self).table@.nodes[ino].attr)
            }),
            r is Ok ==> {
                let a0 = old(self).table@.nodes[ino].attr;
                let a1 = final(self).table@.nodes[ino].attr;
                &&& a1 == FileAttr {
                    mtime: a1.mtime,
                    size: match size {
                        Some(n) => n,
                        None => a0.size,
                    },
                    ..a0
                }
                &&& a1.mtime == match mtime {
                    Some(t) => t,
                    None => a0.mtime,
                }
                &&& final(self).table@.nodes == old(self).table@.nodes.insert(
                    ino,
                    NodeView { attr: a1, ..old(self).table@.nodes[ino] },
                )
                &&& final(self).table@.next_ino == old(self).table@.next_ino
                &&& final(self).files@ == old(self).files@.insert(ino, final(self).files@[ino])
                &&& opt_view(final(self).files@[ino]) == match (old(self).files@[ino], size) {
                    (Some(b), Some(n)) => Some(resize_spec(b@, n as int)),
                    (c, _) => opt_view(c),
                }
            },
            r is Err ==> final(self).files@ == old(self).files@ && final(self).table@ == old(self).table@,
    {
        if ino == ROOT_INO {
            return Err(FsError::PermissionDenied);
        }
        let node = Node { nodeid: ino };
        let a = match node.attr(&self.table) {
            Ok(a) => a,
            Err(e) => return Err(e),
        };
        let new_size = match size {
            Some(n) => {
                if n as u128 > usize::MAX as u128 {
                    return Err(FsError::TooLarge);
                }
                n
            },
            None => a.size,
        };
        let new_mtime = match mtime {
            Some(t) => t,
            None => a.mtime,
        };
        let na = FileAttr { mtime: new_mtime, size: new_size, ..a };
        let ghost t0 = self.table@;
        let res = node.set_attr(&mut self.table, na);
        proof {
            assert(res is Ok);
            let m = a.mode;
            assert((m & 0o170000u32) | (m & !0o170000u32) == m) by (bit_vector);
            assert(merged_attr(a, na) == na);
            assert(self.table@.nodes.dom() =~= t0.nodes.dom());
        }
        let ghost f0 = self.files@;
        let c = match self.files.remove(&ino) {
            Some(c) => c,
            None => {
                proof {
                    assert(false);
                }
                None
            },
        };
        let c = match (c, size) {
            (Some(b), Some(n)) => {
                let mut b = b;
                content::resize(&mut b, n as usize);
                Some(b)
            },
            (c, _) => c,
        };
        self.files.insert(ino, c);
        proof {
            assert(self.files@ =~= f0.insert(ino, self.files@[ino]));
        }
        Ok(na)
    }

    /// Sets how long a fetched revision is trusted, in seconds.
    pub fn set_cache_period(&mut self, secs: i64)
        requires
            old(self).wf(),
        ensures
            final(self).wf(),
            *final(self) == (GistFs { cache_period: secs, ..*old(self) }),
    {
        self.cache_period = secs;
    }

    /// Resolves `name` in directory `parent`, counting one more lookup.
    pub fn do_lookup(&mut self, parent: u64, name: &str) -> (r: Result<FileAttr, FsError>)
        requires
            old(self).wf(),
        ensures
            final(self).wf(),
            final(self).files@ == old(self).files@,
            match r {
                Ok(a) => exists|ino: u64| {
                    &&& has_child(old(self).table@, parent, name@, ino)
                    &&& old(self).table@.nodes.contains_key(ino)
                    &&& a == old(self).table@.nodes[ino].attr
                    &&& final(self).table@ == (TableView {
                        nodes: old(self).table@.nodes.insert(ino, looked_up(old(self).table@.nodes[ino])),
                        next_ino: old(self).table@.next_ino,
                    })
                },
                Err(e) => {
                    &&& e == FsError::NotFound
                    &&& forall|ino: u64| !has_child(old(self).table@, parent, name@, ino)
                    &&& final(self).table@ == old(self).table@
                },
            },
    {
        let ghost t0 = self.table@;
        match self.table.lookup(parent, name) {
            Some(node) => {
                proof {
                    assert(self.table@.nodes.dom() =~= t0.nodes.dom());
                }
                match node.attr(&self.table) {
                    Ok(a) => Ok(a),
                    Err(e) => {
                        proof {
                            assert(false);
                        }
                        Err(e)
                    },
                }
            },
            None => Err(FsError::NotFound),
        }
    }

    /// Drops lookup counts as the kernel's notices say.
    pub fn do_forget(&mut self, forgets: &[Forget])
        requires
            old(self).wf(),
        ensures
            final(self).wf(),
            final(self).files@ == old(self).files@,
            final(self).table@.next_ino == old(self).table@.next_ino,
            final(self).table@.nodes.dom() == old(self).table@.nodes.dom(),
            forall|k: u64| #[trigger] old(self).table@.nodes.contains_key(k) ==> final(self).table@.nodes[k] == (NodeView {
                nlookup: sat_sub(old(self).table@.nodes[k].nlookup, forgotten(forgets@, k)),
                ..old(self).table@.nodes[k]
            }),
    {
        self.table.forget(forgets);
    }

    /// The attributes of inode `ino`.
    pub fn do_getattr(&self, ino: u64) -> (r: Result<FileAttr, FsError>)
        requires
            self.wf(),
        ensures
            r == (if self.table@.nodes.contains_key(ino) {
                Ok::<FileAttr, FsError>(self.table@.nodes[ino].attr)
            } else {
                Err(FsError::NotFound)
            }),
    {
        Node { nodeid: ino }.attr(&self.table)
    }

    /// One page of the listing of directory `ino`.
    pub fn do_readdir(&self, ino: u64, offset: u64, size: u32) -> (r: Result<Vec<DirEntry>, FsError>)
        requires
            self.wf(),
        ensures
            match r {
                Ok(es) => {
                    &&& self.table@.nodes.contains_key(ino)
                    &&& self.table@.nodes[ino].is_dir
                    &&& es@.map_values(|e: DirEntry| e@) == dir_page(listing(self.table@, ino), offset, size as nat)
                },
                Err(e) => e == (if !self.table@.nodes.contains_key(ino) {
                    FsError::NotFound
                } else {
                    FsError::NotADirectory
                }) && !(self.table@.nodes.contains_key(ino) && self.table@.nodes[ino].is_dir),
            },
    {
        self.table.read_dir(ino, offset, size as usize)
    }

    /// Finishes the kernel's flush of file `ino`; nothing is sent back to the
    /// server.
    pub fn do_flush(&self, ino: u64) -> (r: Result<(), FsError>)
        requires
            self.wf(),
        ensures
            r == (if ino == ROOT_INO {
                Err::<(), FsError>(FsError::IsADirectory)
            } else if !self.table@.nodes.contains_key(ino) {
                Err(FsError::NotFound)
            } else {
                Ok(())
            }),
    {
        if ino == ROOT_INO {
            return Err(FsError::IsADirectory);
        }
        match self.table.get_node(ino) {
            Some(_) => Ok(()),
            None => Err(FsError::NotFound),
        }
    }

    /// Opens file `ino`. A file whose full text is not there yet asks for
    /// it to be fetched from its address.
    pub fn do_open(&self, ino: u64) -> (r: Result<OpenStep, FsError>)
        requires
            self.wf(),
        ensures
            match r {
                Ok(OpenStep::Ready) => ino != ROOT_INO && self.files@.contains_key(ino) && self.files@[ino] is Some,
                Ok(OpenStep::Fetch(url)) => ino != ROOT_INO && self.files@.contains_key(ino) && self.files@[ino] is None
                    && url@ == self.raw_urls@[ino]@,
                Err(e) => e == (if ino == ROOT_INO { FsError::IsADirectory } else { FsError::NotFound })
                    && (ino == ROOT_INO || !self.table@.nodes.contains_key(ino)),
            },
    {
        if ino == ROOT_INO {
            return Err(FsError::IsADirectory);
        }
        match self.files.get(&ino) {
            None => Err(FsError::NotFound),
            Some(Some(_)) => Ok(OpenStep::Ready),
            Some(None) => match self.raw_urls.get(&ino) {
                Some(url) => Ok(OpenStep::Fetch(url.clone())),
                None => {
                    proof {
                        assert(false);
                    }
                    Err(FsError::NotFound)
                },
            },
        }
    }

    /// Takes in the full text of file `ino`, fetched after `do_open` asked
    /// for it. A file that has content by now keeps it; else the text
    /// becomes its content and its size.
    pub fn rehydrate(&mut self, ino: u64, text: Vec<u8>) -> (r: Result<(), FsError>)
        requires
            old(self).wf(),
        ensures
            final(self).wf(),
            r == (if ino == ROOT_INO {
                Err::<(), FsError>(FsError::IsADirectory)
            } else if !old(self).table@.nodes.contains_key(ino) {
                Err(FsError::NotFound)
            } else {
                Ok(())
            }),
            final(self).raw_urls@ == old(self).raw_urls@,
            r is Ok && old(self).files@[ino] is None ==> {
                &&& final(self).files@ == old(self).files@.insert(ino, final(self).files@[ino])
                &&& opt_view(final(self).files@[ino]) == Some(text@)
                &&& final(self).table@.nodes == old(self).table@.nodes.insert(
                    ino,
                    NodeView {
                        attr: FileAttr { size: text@.len() as u64, ..old(self).table@.nodes[ino].attr },
                        ..old(self).table@.nodes[ino]
                    },
                )
                &&& final(self).table@.next_ino == old(self).table@.next_ino
            },
            !(r is Ok && old(self).files@[ino] is None) ==> final(self).files@ == old(self).files@
                && final(self).table@ == old(self).table@,
    {
        if ino == ROOT_INO {
            return Err(FsError::IsADirectory);
        }
        let node = Node { nodeid: ino };
        let attr = match node.attr(&self.table) {
            Ok(a) => a,
            Err(e) => return Err(e),
        };
        match self.files.get(&ino) {
            Some(None) => {},
            _ => return Ok(()),
        }
        let ghost f0 = self.files@;
        let len = text.len() as u64;
        self.files.insert(ino, Some(text));
        proof {
            assert(self.files@ =~= f0.insert(ino, self.files@[ino]));
        }
        let ghost t0 = self.table@;
        let res = node.set_attr(&mut self.table, FileAttr { size: len, ..attr });
        proof {
            assert(res is Ok);
            assert(merged_attr(attr, FileAttr { size: len, ..attr }) == FileAttr { size: len, ..attr }) by {
                let m = attr.mode;
                assert((m & 0o170000u32) | (m & !0o170000u32) == m) by (bit_vector);
            }
            assert(self.table@.nodes.dom() =~= t0.nodes.dom());
        }
        Ok(())
    }

    /// Reads at most `size` bytes of file `ino` from `offset`.
    pub fn do_read(&self, ino: u64, offset: u64, size: u32) -> (r: Result<Vec<u8>, FsError>)
        requires
            self.wf(),
        ensures
            match r {
                Ok(b) => ino != ROOT_INO && self.files@.contains_key(ino)
                    && b@ == read_spec(bytes_of(self.files@[ino]), offset as int, size as int),
                Err(e) => e == (if ino == ROOT_INO { FsError::IsADirectory } else { FsError::NotFound })
                    && (ino == ROOT_INO || !self.table@.nodes.contains_key(ino)),
            },
    {
        if ino == ROOT_INO {
            return Err(FsError::IsADirectory);
        }
        match self.files.get(&ino) {
            None => Err(FsError::NotFound),
            Some(Some(b)) => Ok(content::read(b.as_slice(), offset, size as u64)),
            Some(None) => {
                let empty: Vec<u8> = Vec::new();
                Ok(content::read(empty.as_slice(), offset, size as u64))
            },
        }
    }

    /// Writes `data` into file `ino` at `offset`, growing it with zeros where
    /// `offset` lies past its end, and records the new size.
    pub fn do_write(&mut self, ino: u64, offset: u64, data: &[u8]) -> (r: Result<usize, FsError>)
        requires
            old(self).wf(),
        ensures
            final(self).wf(),
            r == (if ino == ROOT_INO {
                Err::<usize, FsError>(FsError::IsADirectory)
            } else if !old(self).table@.nodes.contains_key(ino) {
                Err(FsError::NotFound)
            } else if offset + data@.len() > usize::MAX {
                Err(FsError::TooLarge)
            } else {
                Ok(data@.len() as usize)
            }),
            r is Ok ==> {
                let b = write_spec(bytes_of(old(self).files@[ino]), offset as int, data@);
                &&& final(self).files@ == old(self).files@.insert(ino, final(self).files@[ino])
                &&& opt_view(final(self).files@[ino]) == Some(b)
                &&& final(self).table@.nodes == old(self).table@.nodes.insert(
                    ino,
                    NodeView {
                        attr: FileAttr { size: b.len() as u64, ..old(self).table@.nodes[ino].attr },
                        ..old(self).table@.nodes[ino]
                    },
                )
                &&& final(self).table@.next_ino == old(self).table@.next_ino
            },
            r is Err ==> final(self).files@ == old(self).files@ && final(self).table@ == old(self).table@,
    {
        if ino == ROOT_INO {
            return Err(FsError::IsADirectory);
        }
        let node = Node { nodeid: ino };
        let attr = match node.attr(&self.table) {
            Ok(a) => a,
            Err(e) => return Err(e),
        };
        if offset as u128 + data.len() as u128 > usize::MAX as u128 {
            return Err(FsError::TooLarge);
        }
        let ghost f0 = self.files@;
        let mut buf = match self.files.remove(&ino) {
            Some(Some(b)) => b,
            Some(None) => Vec::new(),
            None => {
                proof {
                    assert(false);
                }
                return Err(FsError::NotFound);
            },
        };
        content::write(&mut buf, offset as usize, data);
        let len = buf.len() as u64;
        self.files.insert(ino, Some(buf));
        proof {
            assert(self.files@ =~= f0.insert(ino, self.files@[ino]));
        }
        let ghost t0 = self.table@;
        let res = node.set_attr(&mut self.table, FileAttr { size: len, ..attr });
        proof {
            assert(res is Ok);
            assert(merged_attr(attr, FileAttr { size: len, ..attr }) == FileAttr { size: len, ..attr }) by {
                let m = attr.mode;
                assert((m & 0o170000u32) | (m & !0o170000u32) == m) by (bit_vector);
            }
            assert(self.table@.nodes.dom() =~= t0.nodes.dom());
        }
        Ok(data.len())
    }
}

} // verus!
