use gist_fs::attr::{FileAttr, Timestamp, S_IFDIR, S_IFMT, S_IFREG};
use gist_fs::error::FsError;
use gist_fs::node::{DirEntry, Forget, Node, NodeTable, ROOT_INO};

fn attr_with_mode(mode: u32) -> FileAttr {
    let mut a = FileAttr::zeroed();
    a.mode = mode;
    a
}

fn file_attr() -> FileAttr {
    attr_with_mode(S_IFREG | 0o644)
}

fn dir_attr() -> FileAttr {
    attr_with_mode(S_IFDIR | 0o755)
}

fn nlookup(t: &NodeTable, ino: u64) -> u64 {
    t.nodes.get(&ino).unwrap().nlookup
}

fn dirent_size(name: &str) -> usize {
    (24 + name.len() + 7) / 8 * 8
}

#[test]
fn root_is_a_directory_with_id_one() {
    let mut a = FileAttr::zeroed();
    a.mode = S_IFREG | 0o700;
    a.uid = 42;
    let t = NodeTable::new(a);
    let root = t.root_node();
    assert_eq!(root.nodeid(), ROOT_INO);
    let ra = root.attr(&t).unwrap();
    assert_eq!(ra.ino, 1);
    assert_eq!(ra.mode & S_IFMT, S_IFDIR);
    assert_eq!(ra.mode & 0o7777, 0o700);
    assert_eq!(ra.nlink, 2);
    assert_eq!(ra.uid, 42);
    assert_eq!(t.next_ino, 2);
}

#[test]
fn new_node_hands_out_fresh_ids() {
    let mut t = NodeTable::new(dir_attr());
    let a = t.new_node(ROOT_INO, "a".to_string(), file_attr()).unwrap();
    let b = t.new_node(ROOT_INO, "b".to_string(), file_attr()).unwrap();
    assert_eq!(a.nodeid(), 2);
    assert_eq!(b.nodeid(), 3);
    assert_eq!(a.attr(&t).unwrap().ino, 2);
    assert_eq!(nlookup(&t, 2), 0);
    t.remove_node(3).unwrap();
    let c = t.new_node(ROOT_INO, "b".to_string(), file_attr()).unwrap();
    assert_eq!(c.nodeid(), 4);
}

#[test]
fn new_node_errors() {
    let mut t = NodeTable::new(dir_attr());
    assert_eq!(t.new_node(9, "x".to_string(), file_attr()), Err(FsError::NotFound));
    let f = t.new_node(ROOT_INO, "f".to_string(), file_attr()).unwrap();
    assert_eq!(t.new_node(f.nodeid(), "x".to_string(), file_attr()), Err(FsError::NotADirectory));
    assert_eq!(t.new_node(ROOT_INO, "f".to_string(), file_attr()), Err(FsError::AlreadyExists));
    assert_eq!(t.new_node(ROOT_INO, "link".to_string(), attr_with_mode(0o120777)), Err(FsError::Unsupported));
    assert_eq!(t.next_ino, 3);
}

#[test]
fn lookup_counts_and_forget_floors_at_zero() {
    let mut t = NodeTable::new(dir_attr());
    let f = t.new_node(ROOT_INO, "f".to_string(), file_attr()).unwrap();
    let ino = f.nodeid();
    assert_eq!(t.lookup(ROOT_INO, "f"), Some(Node { nodeid: ino }));
    assert_eq!(t.lookup(ROOT_INO, "f"), Some(Node { nodeid: ino }));
    assert_eq!(nlookup(&t, ino), 2);
    assert_eq!(t.get_node(ino), Some(Node { nodeid: ino }));
    assert_eq!(nlookup(&t, ino), 2);
    t.forget(&[Forget { ino, nlookup: 1 }]);
    assert_eq!(nlookup(&t, ino), 1);
    t.forget(&[Forget { ino, nlookup: 5 }, Forget { ino: 77, nlookup: 1 }]);
    assert_eq!(nlookup(&t, ino), 0);
    assert!(t.get_node(ino).is_some());
    assert_eq!(t.lookup(ROOT_INO, "missing"), None);
    assert_eq!(t.lookup(ino, "f"), None);
}

#[test]
fn removed_inode_no_longer_resolves() {
    let mut t = NodeTable::new(dir_attr());
    let f = t.new_node(ROOT_INO, "f".to_string(), file_attr()).unwrap();
    let ino = f.nodeid();
    t.lookup(ROOT_INO, "f").unwrap();
    assert_eq!(t.remove_node(ino), Ok(()));
    assert_eq!(t.get_node(ino), None);
    assert_eq!(t.lookup(ROOT_INO, "f"), None);
    assert_eq!(f.attr(&t), Err(FsError::NotFound));
    assert_eq!(t.remove_node(ino), Err(FsError::NotFound));
}

#[test]
fn remove_refuses_root_and_full_directories() {
    let mut t = NodeTable::new(dir_attr());
    assert_eq!(t.remove_node(ROOT_INO), Err(FsError::PermissionDenied));
    let d = t.new_node(ROOT_INO, "d".to_string(), dir_attr()).unwrap();
    t.new_node(d.nodeid(), "inner".to_string(), file_attr()).unwrap();
    assert_eq!(t.remove_node(d.nodeid()), Err(FsError::NotEmpty));
    assert_eq!(t.remove_node(3), Ok(()));
    assert_eq!(t.remove_node(d.nodeid()), Ok(()));
}

#[test]
fn set_attr_keeps_id_and_type_and_spares_the_root() {
    let mut t = NodeTable::new(dir_attr());
    let f = t.new_node(ROOT_INO, "f".to_string(), file_attr()).unwrap();
    let mut a = attr_with_mode(S_IFDIR | 0o600);
    a.ino = 99;
    a.size = 5;
    assert_eq!(f.set_attr(&mut t, a), Ok(()));
    let got = f.attr(&t).unwrap();
    assert_eq!(got.ino, f.nodeid());
    assert_eq!(got.mode, S_IFREG | 0o600);
    assert_eq!(got.size, 5);
    assert_eq!(t.root_node().set_attr(&mut t, a), Err(FsError::PermissionDenied));
    assert_eq!(Node { nodeid: 50 }.set_attr(&mut t, a), Err(FsError::NotFound));
}

fn names(es: &[DirEntry]) -> Vec<String> {
    es.iter().map(|e| e.name.clone()).collect()
}

#[test]
fn read_dir_lists_dots_then_children_with_cookies() {
    let mut t = NodeTable::new(dir_attr());
    t.new_node(ROOT_INO, "a".to_string(), file_attr()).unwrap();
    t.new_node(ROOT_INO, "sub".to_string(), dir_attr()).unwrap();
    let es = t.read_dir(ROOT_INO, 0, 4096).unwrap();
    assert_eq!(names(&es), vec![".", "..", "a", "sub"]);
    let offsets: Vec<u64> = es.iter().map(|e| e.offset).collect();
    assert_eq!(offsets, vec![1, 2, 3, 4]);
    assert_eq!(es[0].ino, 1);
    assert_eq!(es[1].ino, 1);
    assert_eq!(es[2].ino, 2);
    assert_eq!(es[2].typ, 8);
    assert_eq!(es[3].typ, 4);
    let inner = t.read_dir(3, 0, 4096).unwrap();
    assert_eq!(names(&inner), vec![".", ".."]);
    assert_eq!(inner[0].ino, 3);
    assert_eq!(inner[1].ino, 1);
    assert_eq!(t.read_dir(2, 0, 4096).unwrap_err(), FsError::NotADirectory);
    assert_eq!(t.read_dir(9, 0, 4096).unwrap_err(), FsError::NotFound);
}

#[test]
fn read_dir_cookies_stay_stable_after_removal() {
    let mut t = NodeTable::new(dir_attr());
    t.new_node(ROOT_INO, "a".to_string(), file_attr()).unwrap();
    t.new_node(ROOT_INO, "b".to_string(), file_attr()).unwrap();
    t.new_node(ROOT_INO, "c".to_string(), file_attr()).unwrap();
    t.remove_node(3).unwrap();
    let es = t.read_dir(ROOT_INO, 3, 4096).unwrap();
    assert_eq!(names(&es), vec!["c"]);
    assert_eq!(es[0].offset, 5);
    t.new_node(ROOT_INO, "d".to_string(), file_attr()).unwrap();
    let es = t.read_dir(ROOT_INO, 5, 4096).unwrap();
    assert_eq!(names(&es), vec!["d"]);
    assert_eq!(es[0].offset, 6);
}

#[test]
fn read_dir_pages_cover_everything_once() {
    let mut t = NodeTable::new(dir_attr());
    let all = ["one", "two", "three", "a-rather-longer-name.txt", "v"];
    for n in all.iter() {
        t.new_node(ROOT_INO, n.to_string(), file_attr()).unwrap();
    }
    let full = names(&t.read_dir(ROOT_INO, 0, 1 << 20).unwrap());
    let largest = full.iter().map(|n| dirent_size(n)).max().unwrap();
    for budget in [largest, largest + 8, 2 * largest, 100, 1000].iter() {
        let mut got: Vec<String> = Vec::new();
        let mut cookie = 0;
        loop {
            let page = t.read_dir(ROOT_INO, cookie, *budget).unwrap();
            if page.is_empty() {
                break;
            }
            let used: usize = page.iter().map(|e| dirent_size(&e.name)).sum();
            assert!(used <= *budget);
            cookie = page.last().unwrap().offset;
            got.extend(names(&page));
        }
        assert_eq!(got, full);
    }
}

#[test]
fn read_dir_budget_below_one_entry_gives_nothing() {
    let t = NodeTable::new(dir_attr());
    assert!(t.read_dir(ROOT_INO, 0, 31).unwrap().is_empty());
    assert_eq!(t.read_dir(ROOT_INO, 0, 32).unwrap().len(), 1);
    assert_eq!(t.read_dir(ROOT_INO, 0, 64).unwrap().len(), 2);
    assert!(t.read_dir(ROOT_INO, 2, 4096).unwrap().is_empty());
}

#[test]
fn timestamps_order_and_saturate() {
    let a = Timestamp { secs: 10, nanos: 5 };
    let b = Timestamp { secs: 10, nanos: 6 };
    assert!(a.le(&b));
    assert!(!b.le(&a));
    assert!(a.le(&a));
    assert_eq!(a.plus_secs(300), Timestamp { secs: 310, nanos: 5 });
    let late = Timestamp { secs: i64::MAX - 1, nanos: 0 };
    assert_eq!(late.plus_secs(300).secs, i64::MAX);
    assert_eq!(Timestamp::epoch_min().plus_secs(-5).secs, i64::MIN);
}

#[test]
fn handle_methods_act_on_their_inode() {
    let mut t = NodeTable::new(dir_attr());
    let root = t.root_node();
    let d = root.new_child(&mut t, "d".to_string(), dir_attr()).unwrap();
    let f = d.new_child(&mut t, "f".to_string(), file_attr()).unwrap();
    assert_eq!(f.new_child(&mut t, "x".to_string(), file_attr()), Err(FsError::NotADirectory));
    let listing = d.readdir(&t, 0, 4096).unwrap();
    assert_eq!(names(&listing), vec![".", "..", "f"]);
    assert_eq!(listing[1].ino, ROOT_INO);
    assert_eq!(f.readdir(&t, 0, 4096).unwrap_err(), FsError::NotADirectory);
    assert_eq!(d.remove(&mut t), Err(FsError::NotEmpty));
    assert_eq!(f.remove(&mut t), Ok(()));
    assert_eq!(d.remove(&mut t), Ok(()));
    assert_eq!(d.readdir(&t, 0, 4096).unwrap_err(), FsError::NotFound);
    assert_eq!(root.remove(&mut t), Err(FsError::PermissionDenied));
}
